//! The inline tokenizer: scans a text run left to right and emits an ordered
//! sequence of inline spans that covers the whole run. Unclosed delimiters
//! degrade to literal text; the scan never fails.

use vstd::prelude::*;
use vstd::slice::slice_subrange;

use crate::markdown_elements::Inline;
use crate::markdown_elements::InlineNode;
use crate::markdown_elements::inline_model;
use crate::markdown_elements::inlines_model;
use crate::markdown_elements::lemma_inlines_model;
use crate::markdown_elements::opt_model;
use crate::text::byte_at;
use crate::text::copy_range;
use crate::text::find_or_len;
use crate::text::find_or_len_x;
use crate::text::lemma_find_or_len;
use crate::text::lemma_run_len;
use crate::text::run_len_from;
use crate::text::run_len_x;
use crate::text::trim_spec;
use crate::text::trim_x;

verus! {

/// Glues literal bytes onto the front of a span sequence, merging with a
/// leading text span so literal fallbacks never fragment the text.
pub open spec fn prepend_text(b: Seq<u8>, rest: Seq<InlineNode>) -> Seq<InlineNode> {
    if rest.len() > 0 {
        match rest[0] {
            InlineNode::Text(u) => seq![InlineNode::Text(b + u)] + rest.subrange(
                1,
                rest.len() as int,
            ),
            _ => seq![InlineNode::Text(b)] + rest,
        }
    } else {
        seq![InlineNode::Text(b)]
    }
}

/// The first index at or after `from` where a backtick run of exactly `k`
/// ticks starts, or the length of `t` when there is none.
pub open spec fn find_tick_run(t: Seq<u8>, k: nat, from: int) -> int
    decreases t.len() - from,
    via find_tick_run_decreases
{
    if from < 0 || from >= t.len() {
        t.len() as int
    } else if t[from] == 96 {
        let r = run_len_from(t, 96, from);
        if r == k {
            from
        } else {
            find_tick_run(t, k, from + r)
        }
    } else {
        find_tick_run(t, k, from + 1)
    }
}

#[via_fn]
proof fn find_tick_run_decreases(t: Seq<u8>, k: nat, from: int) {
    if 0 <= from < t.len() {
        lemma_run_len(t, 96, from);
    }
}

/// Where `find_tick_run` lands.
pub proof fn lemma_find_tick_run(t: Seq<u8>, k: nat, from: int)
    requires
        0 <= from <= t.len(),
    ensures
        from <= find_tick_run(t, k, from) <= t.len(),
        find_tick_run(t, k, from) < t.len() ==> find_tick_run(t, k, from) + k <= t.len(),
    decreases t.len() - from,
{
    if from < t.len() {
        if t[from] == 96 {
            let r = run_len_from(t, 96, from);
            lemma_run_len(t, 96, from);
            if r != k {
                lemma_find_tick_run(t, k, from + r);
            }
        } else {
            lemma_find_tick_run(t, k, from + 1);
        }
    }
}

/// The first index at or after `from` where two consecutive `c` bytes stand,
/// or the length of `t` when there is none.
pub open spec fn find_pair(t: Seq<u8>, c: u8, from: int) -> int
    decreases t.len() - from,
{
    if from < 0 || from + 1 >= t.len() {
        t.len() as int
    } else if t[from] == c && t[from + 1] == c {
        from
    } else {
        find_pair(t, c, from + 1)
    }
}

/// Where `find_pair` lands.
pub proof fn lemma_find_pair(t: Seq<u8>, c: u8, from: int)
    requires
        0 <= from,
    ensures
        find_pair(t, c, from) <= t.len(),
        find_pair(t, c, from) < t.len() ==> from <= find_pair(t, c, from) && find_pair(t, c, from)
            + 2 <= t.len(),
    decreases t.len() - from,
{
    if from + 1 < t.len() && !(t[from] == c && t[from + 1] == c) {
        lemma_find_pair(t, c, from + 1);
    }
}

/// The first whitespace or line end at or after `from`, or the length.
pub open spec fn url_end(t: Seq<u8>, from: int) -> int
    decreases t.len() - from,
{
    if from < 0 || from >= t.len() {
        t.len() as int
    } else if t[from] == 32 || t[from] == 9 || t[from] == 10 {
        from
    } else {
        url_end(t, from + 1)
    }
}

/// Where `url_end` lands.
pub proof fn lemma_url_end(t: Seq<u8>, from: int)
    requires
        0 <= from <= t.len(),
    ensures
        from <= url_end(t, from) <= t.len(),
    decreases t.len() - from,
{
    if from < t.len() && !(t[from] == 32 || t[from] == 9 || t[from] == 10) {
        lemma_url_end(t, from + 1);
    }
}

/// Whether `http://` or `https://` starts at `i`.
pub open spec fn scheme_at(t: Seq<u8>, i: int) -> bool {
    (i + 7 <= t.len() && t[i] == 104 && t[i + 1] == 116 && t[i + 2] == 116 && t[i + 3] == 112
        && t[i + 4] == 58 && t[i + 5] == 47 && t[i + 6] == 47) || (i + 8 <= t.len() && t[i] == 104
        && t[i + 1] == 116 && t[i + 2] == 116 && t[i + 3] == 112 && t[i + 4] == 115 && t[i + 5]
        == 58 && t[i + 6] == 47 && t[i + 7] == 47)
}

/// Splits a link destination into the URL and an optional quoted title.
pub open spec fn split_dest(d: Seq<u8>) -> (Seq<u8>, Option<Seq<u8>>) {
    let sp = find_or_len(d, 32, 0);
    if sp >= d.len() {
        (d, Option::None)
    } else {
        let url = d.subrange(0, sp);
        let rest = trim_spec(d.subrange(sp, d.len() as int));
        if rest.len() >= 2 && rest[0] == 34 && rest[rest.len() - 1] == 34 {
            (url, Option::Some(rest.subrange(1, rest.len() - 1)))
        } else {
            (url, Option::None)
        }
    }
}

/// The inline spans of one text run, with a recursion budget. A budget of
/// the run's length always suffices; an exhausted budget degrades to one
/// literal text span, so every outcome still covers the run.
pub open spec fn tok(t: Seq<u8>, fuel: nat) -> Seq<InlineNode>
    decreases fuel,
{
    if t.len() == 0 {
        Seq::empty()
    } else if fuel == 0 {
        seq![InlineNode::Text(t)]
    } else {
        let f = (fuel - 1) as nat;
        let n = t.len() as int;
        let c = t[0];
        if c == 92 {
            // backslash before a line end forces a hard break
            if t.len() >= 2 && t[1] == 10 {
                seq![InlineNode::LineBreak { hard: true }] + tok(t.subrange(2, n), f)
            } else {
                prepend_text(t.subrange(0, 1), tok(t.subrange(1, n), f))
            }
        } else if c == 10 {
            seq![InlineNode::LineBreak { hard: false }] + tok(t.subrange(1, n), f)
        } else if c == 32 {
            // two or more spaces before a line end force a hard break
            let k = run_len_from(t, 32, 0) as int;
            if k >= 2 && k < t.len() && t[k] == 10 {
                seq![InlineNode::LineBreak { hard: true }] + tok(t.subrange(k + 1, n), f)
            } else {
                prepend_text(t.subrange(0, 1), tok(t.subrange(1, n), f))
            }
        } else if c == 96 {
            // a backtick run opens a code span closed by an equal run
            let k = run_len_from(t, 96, 0);
            let j = find_tick_run(t, k, k as int);
            if j < t.len() {
                seq![InlineNode::CodeSpan(t.subrange(k as int, j))] + tok(
                    t.subrange(j + k, n),
                    f,
                )
            } else {
                prepend_text(t.subrange(0, k as int), tok(t.subrange(k as int, n), f))
            }
        } else if c == 42 || c == 95 {
            let r = run_len_from(t, c, 0);
            if r >= 2 {
                // a run of two or more opens strong emphasis
                let j = find_pair(t, c, 3);
                if j < t.len() {
                    seq![InlineNode::Strong(tok(t.subrange(2, j), f))] + tok(
                        t.subrange(j + 2, n),
                        f,
                    )
                } else {
                    prepend_text(t.subrange(0, 2), tok(t.subrange(2, n), f))
                }
            } else {
                // a single marker opens emphasis closed by the same marker
                let j = find_or_len(t, c, 2);
                if j < t.len() {
                    seq![InlineNode::Emphasis(tok(t.subrange(1, j), f))] + tok(
                        t.subrange(j + 1, n),
                        f,
                    )
                } else {
                    prepend_text(t.subrange(0, 1), tok(t.subrange(1, n), f))
                }
            }
        } else if c == 91 {
            // [text](url "title")
            let cb = find_or_len(t, 93, 1);
            if cb + 1 < t.len() && t[cb + 1] == 40 {
                let rp = find_or_len(t, 41, cb + 2);
                if rp < t.len() {
                    let dt = split_dest(t.subrange(cb + 2, rp));
                    seq![
                        InlineNode::Link {
                            children: tok(t.subrange(1, cb), f),
                            url: dt.0,
                            title: dt.1,
                        },
                    ] + tok(t.subrange(rp + 1, n), f)
                } else {
                    prepend_text(t.subrange(0, 1), tok(t.subrange(1, n), f))
                }
            } else {
                prepend_text(t.subrange(0, 1), tok(t.subrange(1, n), f))
            }
        } else if c == 33 && t.len() >= 2 && t[1] == 91 {
            // ![alt](url "title")
            let cb = find_or_len(t, 93, 2);
            if cb + 1 < t.len() && t[cb + 1] == 40 {
                let rp = find_or_len(t, 41, cb + 2);
                if rp < t.len() {
                    let dt = split_dest(t.subrange(cb + 2, rp));
                    seq![InlineNode::Image { alt: t.subrange(2, cb), url: dt.0, title: dt.1 }]
                        + tok(t.subrange(rp + 1, n), f)
                } else {
                    prepend_text(t.subrange(0, 1), tok(t.subrange(1, n), f))
                }
            } else {
                prepend_text(t.subrange(0, 1), tok(t.subrange(1, n), f))
            }
        } else if scheme_at(t, 0) {
            // bare URLs with a recognized scheme become autolinks
            let e = url_end(t, 0);
            seq![InlineNode::Autolink(t.subrange(0, e))] + tok(t.subrange(e, n), f)
        } else {
            prepend_text(t.subrange(0, 1), tok(t.subrange(1, n), f))
        }
    }
}

/// The inline spans of a text run, with the budget the tokenizer always
/// gets: the run's own length.
pub open spec fn tok_full(t: Seq<u8>) -> Seq<InlineNode> {
    tok(t, t.len() as nat)
}

/// A byte that opens no inline construct: not an emphasis marker, a
/// backtick, a bracket, a backslash or a line end.
pub open spec fn plain_byte(b: u8) -> bool {
    b != 42 && b != 95 && b != 96 && b != 91 && b != 92 && b != 10
}

/// Round-trip of plain text: a run without markup delimiters or URL
/// schemes tokenizes to exactly one text span holding the run unchanged,
/// so its concatenated plain text is the run itself.
pub proof fn lemma_tok_plain_text(t: Seq<u8>, fuel: nat)
    requires
        fuel >= t.len(),
        forall|i: int| 0 <= i < t.len() ==> plain_byte(#[trigger] t[i]),
        forall|i: int| 0 <= i ==> !(#[trigger] scheme_at(t, i)),
    ensures
        tok(t, fuel) == if t.len() == 0 {
            Seq::<InlineNode>::empty()
        } else {
            seq![InlineNode::Text(t)]
        },
    decreases t.len(),
{
    if t.len() > 0 {
        let n = t.len() as int;
        let c = t[0];
        let k = run_len_from(t, 32, 0) as int;
        lemma_run_len(t, 32, 0);
        if 2 <= k < t.len() {
            assert(plain_byte(t[k]));
        }
        let sub = t.subrange(1, n);
        assert forall|i: int| 0 <= i < sub.len() implies plain_byte(#[trigger] sub[i]) by {
            assert(sub[i] == t[i + 1]);
        }
        assert forall|i: int| 0 <= i implies !(#[trigger] scheme_at(sub, i)) by {
            assert(forall|j: int| 0 <= j < sub.len() ==> #[trigger] sub[j] == t[j + 1]);
            assert(!scheme_at(t, i + 1));
        }
        lemma_tok_plain_text(sub, (fuel - 1) as nat);
        if t.len() == 1 {
            assert(prepend_text(t.subrange(0, 1), tok(sub, (fuel - 1) as nat)) =~= seq![
                InlineNode::Text(t.subrange(0, 1)),
            ]);
            assert(t.subrange(0, 1) =~= t);
        } else {
            let rest = tok(sub, (fuel - 1) as nat);
            assert(rest == seq![InlineNode::Text(sub)]);
            assert(t.subrange(0, 1) + sub =~= t);
            assert(rest.subrange(1, 1) =~= Seq::<InlineNode>::empty());
            assert(prepend_text(t.subrange(0, 1), rest) =~= seq![InlineNode::Text(t)]);
        }
    }
}

/// Unclosed emphasis degrades to literal text: a run that opens with one
/// emphasis marker and never closes it tokenizes to the single text span
/// holding the whole run, no character dropped.
pub proof fn lemma_unclosed_emphasis(t: Seq<u8>)
    requires
        t.len() >= 1,
        t[0] == 42,
        forall|j: int| 1 <= j < t.len() ==> plain_byte(#[trigger] t[j]),
        forall|i: int| 0 <= i ==> !(#[trigger] scheme_at(t, i)),
    ensures
        tok_full(t) == seq![InlineNode::Text(t)],
{
    let n = t.len() as int;
    let fuel = t.len() as nat;
    if t.len() >= 2 {
        assert(plain_byte(t[1]));
    }
    assert(run_len_from(t, 42, 1) == 0);
    assert(run_len_from(t, 42, 0) == 1);
    let j = find_or_len(t, 42, 2);
    if t.len() >= 2 {
        lemma_find_or_len(t, 42, 2);
        if j < n {
            assert(plain_byte(t[j]));
        }
    }
    assert(j == n);
    let sub = t.subrange(1, n);
    assert forall|i: int| 0 <= i < sub.len() implies plain_byte(#[trigger] sub[i]) by {
        assert(sub[i] == t[i + 1]);
    }
    assert forall|i: int| 0 <= i implies !(#[trigger] scheme_at(sub, i)) by {
        assert(forall|j: int| 0 <= j < sub.len() ==> #[trigger] sub[j] == t[j + 1]);
        assert(!scheme_at(t, i + 1));
    }
    lemma_tok_plain_text(sub, (fuel - 1) as nat);
    let rest = tok(sub, (fuel - 1) as nat);
    if t.len() == 1 {
        assert(prepend_text(t.subrange(0, 1), rest) =~= seq![InlineNode::Text(t.subrange(0, 1))]);
        assert(t.subrange(0, 1) =~= t);
    } else {
        assert(rest == seq![InlineNode::Text(sub)]);
        assert(t.subrange(0, 1) + sub =~= t);
        assert(rest.subrange(1, 1) =~= Seq::<InlineNode>::empty());
        assert(prepend_text(t.subrange(0, 1), rest) =~= seq![InlineNode::Text(t)]);
    }
}

/// Round-trip of emphasised plain text: a run `*w*` whose interior holds
/// no further markup tokenizes to one emphasis span around exactly `w`, so
/// stripping the recognized delimiters leaves the intended text.
pub proof fn lemma_emphasis_round_trip(w: Seq<u8>)
    requires
        w.len() >= 1,
        forall|i: int| 0 <= i < w.len() ==> plain_byte(#[trigger] w[i]),
        forall|i: int| 0 <= i ==> !(#[trigger] scheme_at(w, i)),
    ensures
        tok_full(seq![42u8] + w + seq![42u8]) == seq![
            InlineNode::Emphasis(seq![InlineNode::Text(w)]),
        ],
        crate::markdown_renderer::inlines_text(tok_full(seq![42u8] + w + seq![42u8])) == w,
{
    let t = seq![42u8] + w + seq![42u8];
    let n = t.len() as int;
    assert(t.len() == w.len() + 2);
    assert forall|i: int| 0 <= i < w.len() implies t[i + 1] == #[trigger] w[i] by {}
    assert(t[0] == 42);
    assert(t[w.len() as int + 1] == 42);
    assert(t[1] == w[0] && plain_byte(w[0]));
    assert(run_len_from(t, 42, 1) == 0);
    assert(run_len_from(t, 42, 0) == 1);
    lemma_find_or_len(t, 42, 2);
    let j = find_or_len(t, 42, 2);
    if j < w.len() + 1 {
        assert(t[j] == w[j - 1]);
        assert(false);
    }
    if j > w.len() + 1 {
        assert(t[w.len() as int + 1] != 42);
        assert(false);
    }
    assert(j == w.len() + 1);
    assert(t.subrange(1, j) =~= w);
    assert(t.subrange(j + 1, n) =~= Seq::<u8>::empty());
    let f = (t.len() - 1) as nat;
    lemma_tok_plain_text(w, f);
    assert(tok(t.subrange(1, j), f) == seq![InlineNode::Text(w)]);
    assert(tok(t.subrange(j + 1, n), f) =~= Seq::<InlineNode>::empty());
    assert(tok_full(t) =~= seq![InlineNode::Emphasis(seq![InlineNode::Text(w)])]);
    let ch = seq![InlineNode::Text(w)];
    let res = seq![InlineNode::Emphasis(ch)];
    assert(ch.subrange(1, 1) =~= Seq::<InlineNode>::empty());
    assert(crate::markdown_renderer::inlines_text(Seq::<InlineNode>::empty())
        == Seq::<u8>::empty());
    assert(ch[0] == InlineNode::Text(w));
    assert(crate::markdown_renderer::inline_text(ch[0]) == w);
    assert(crate::markdown_renderer::inlines_text(ch) =~= w);
    assert(res.subrange(1, 1) =~= Seq::<InlineNode>::empty());
    assert(res[0] == InlineNode::Emphasis(ch));
    assert(crate::markdown_renderer::inline_text(res[0])
        == crate::markdown_renderer::inlines_text(ch));
    assert(crate::markdown_renderer::inlines_text(res) =~= w);
}

/// Prepending one inline span prepends its model.
pub proof fn lemma_inlines_model_cons(x: Inline, s: Seq<Inline>)
    ensures
        inlines_model(seq![x] + s) == seq![inline_model(x)] + inlines_model(s),
{
    let u = seq![x] + s;
    assert(u[0] == x);
    assert(u.subrange(1, u.len() as int) =~= s);
    assert(inlines_model(seq![x] + s) =~= seq![inline_model(x)] + inlines_model(s));
}

/// Puts one inline span in front of a span vector.
fn cons_node(x: Inline, rest: Vec<Inline>) -> (r: Vec<Inline>)
    ensures
        inlines_model(r@) == seq![inline_model(x)] + inlines_model(rest@),
{
    let ghost rest0 = rest@;
    let mut r = rest;
    r.insert(0, x);
    proof {
        assert(r@ =~= seq![x] + rest0);
        lemma_inlines_model_cons(x, rest0);
    }
    r
}

/// Glues literal bytes onto the front of a span vector, merging with a
/// leading text span.
fn prepend_text_x(b: Vec<u8>, rest: Vec<Inline>) -> (r: Vec<Inline>)
    ensures
        inlines_model(r@) == prepend_text(b@, inlines_model(rest@)),
{
    proof {
        lemma_inlines_model(rest@);
    }
    if rest.len() > 0 {
        let ghost rest0 = rest@;
        let mut rest = rest;
        let first = rest.remove(0);
        proof {
            assert(rest@ =~= rest0.subrange(1, rest0.len() as int));
            lemma_inlines_model(rest@);
            lemma_inlines_model(rest0);
            assert(inlines_model(rest@) =~= inlines_model(rest0).subrange(
                1,
                inlines_model(rest0).len() as int,
            ));
        }
        match first {
            Inline::Text(u) => {
                let mut nb = b;
                let mut u = u;
                nb.append(&mut u);
                cons_node(Inline::Text(nb), rest)
            },
            other => {
                let other0 = other;
                let ghost rest1 = rest@;
                let mut rest = rest;
                rest.insert(0, other0);
                proof {
                    assert(rest@ =~= seq![other0] + rest1);
                    assert(rest@ =~= rest0);
                }
                cons_node(Inline::Text(b), rest)
            },
        }
    } else {
        let mut r: Vec<Inline> = Vec::new();
        r.push(Inline::Text(b));
        proof {
            lemma_inlines_model(r@);
            assert(inlines_model(r@) =~= seq![inline_model(Inline::Text(b))]);
        }
        r
    }
}

/// Mirrors `find_tick_run`.
fn find_tick_run_x(t: &[u8], k: usize, from: usize) -> (r: usize)
    requires
        from <= t@.len(),
    ensures
        r == find_tick_run(t@, k as nat, from as int),
        from <= r <= t@.len(),
        r < t@.len() ==> r + k <= t@.len(),
    decreases t@.len() - from,
{
    proof {
        lemma_find_tick_run(t@, k as nat, from as int);
    }
    if from >= t.len() {
        t.len()
    } else if byte_at(t, from) == 96 {
        let r = run_len_x(t, 96, from);
        if r == k {
            from
        } else {
            find_tick_run_x(t, k, from + r)
        }
    } else {
        find_tick_run_x(t, k, from + 1)
    }
}

/// Mirrors `find_pair`.
fn find_pair_x(t: &[u8], c: u8, from: usize) -> (r: usize)
    ensures
        r == find_pair(t@, c, from as int),
        r <= t@.len(),
        r < t@.len() ==> from <= r && r + 2 <= t@.len(),
    decreases t@.len() - from,
{
    proof {
        lemma_find_pair(t@, c, from as int);
    }
    if from >= t.len() || from + 1 >= t.len() {
        t.len()
    } else if byte_at(t, from) == c && byte_at(t, from + 1) == c {
        from
    } else {
        find_pair_x(t, c, from + 1)
    }
}

/// Mirrors `url_end`.
fn url_end_x(t: &[u8], from: usize) -> (r: usize)
    requires
        from <= t@.len(),
    ensures
        r == url_end(t@, from as int),
        from <= r <= t@.len(),
    decreases t@.len() - from,
{
    proof {
        lemma_url_end(t@, from as int);
    }
    if from >= t.len() {
        t.len()
    } else if {
        let b = byte_at(t, from);
        b == 32 || b == 9 || b == 10
    } {
        from
    } else {
        url_end_x(t, from + 1)
    }
}

/// Mirrors `scheme_at` at index 0.
pub fn scheme_check(t: &[u8]) -> (r: bool)
    ensures
        r == scheme_at(t@, 0),
{
    if t.len() >= 7 && byte_at(t, 0) == 104 && byte_at(t, 1) == 116 && byte_at(t, 2) == 116
        && byte_at(t, 3) == 112 {
        if byte_at(t, 4) == 58 && byte_at(t, 5) == 47 && byte_at(t, 6) == 47 {
            true
        } else {
            t.len() >= 8 && byte_at(t, 4) == 115 && byte_at(t, 5) == 58 && byte_at(t, 6) == 47
                && byte_at(t, 7) == 47
        }
    } else {
        false
    }
}

/// Mirrors `split_dest`.
fn split_dest_x(d: &[u8]) -> (r: (Vec<u8>, Option<Vec<u8>>))
    ensures
        r.0@ == split_dest(d@).0,
        opt_model(r.1) == split_dest(d@).1,
{
    proof {
        lemma_find_or_len(d@, 32, 0);
    }
    let sp = find_or_len_x(d, 32, 0);
    if sp >= d.len() {
        (copy_range(d, 0, d.len()), Option::None)
    } else {
        let url = copy_range(d, 0, sp);
        let rest = trim_x(slice_subrange(d, sp, d.len()));
        if rest.len() >= 2 && byte_at(rest, 0) == 34 && byte_at(rest, rest.len() - 1) == 34 {
            (url, Option::Some(copy_range(rest, 1, rest.len() - 1)))
        } else {
            (url, Option::None)
        }
    }
}

/// Mirrors `tok`.
fn tokenize_rec(t: &[u8], fuel: usize) -> (res: Vec<Inline>)
    ensures
        inlines_model(res@) == tok(t@, fuel as nat),
    decreases fuel,
{
    let n = t.len();
    if n == 0 {
        Vec::new()
    } else if fuel == 0 {
        let mut r: Vec<Inline> = Vec::new();
        r.push(Inline::Text(copy_range(t, 0, n)));
        proof {
            lemma_inlines_model(r@);
            assert(t@.subrange(0, n as int) =~= t@);
            assert(inlines_model(r@) =~= seq![InlineNode::Text(t@)]);
        }
        r
    } else {
        let f = fuel - 1;
        let c = byte_at(t, 0);
        if c == 92 {
            if n >= 2 && byte_at(t, 1) == 10 {
                let rest = tokenize_rec(slice_subrange(t, 2, n), f);
                cons_node(Inline::LineBreak { hard: true }, rest)
            } else {
                let rest = tokenize_rec(slice_subrange(t, 1, n), f);
                prepend_text_x(copy_range(t, 0, 1), rest)
            }
        } else if c == 10 {
            let rest = tokenize_rec(slice_subrange(t, 1, n), f);
            cons_node(Inline::LineBreak { hard: false }, rest)
        } else if c == 32 {
            let k = run_len_x(t, 32, 0);
            if k >= 2 && k < n && byte_at(t, k) == 10 {
                let rest = tokenize_rec(slice_subrange(t, k + 1, n), f);
                cons_node(Inline::LineBreak { hard: true }, rest)
            } else {
                let rest = tokenize_rec(slice_subrange(t, 1, n), f);
                prepend_text_x(copy_range(t, 0, 1), rest)
            }
        } else if c == 96 {
            let k = run_len_x(t, 96, 0);
            let j = find_tick_run_x(t, k, k);
            if j < n {
                let rest = tokenize_rec(slice_subrange(t, j + k, n), f);
                cons_node(Inline::CodeSpan(copy_range(t, k, j)), rest)
            } else {
                let rest = tokenize_rec(slice_subrange(t, k, n), f);
                prepend_text_x(copy_range(t, 0, k), rest)
            }
        } else if c == 42 || c == 95 {
            let r = run_len_x(t, c, 0);
            if r >= 2 {
                let j = find_pair_x(t, c, 3);
                if j < n {
                    let children = tokenize_rec(slice_subrange(t, 2, j), f);
                    let rest = tokenize_rec(slice_subrange(t, j + 2, n), f);
                    cons_node(Inline::Strong(children), rest)
                } else {
                    let rest = tokenize_rec(slice_subrange(t, 2, n), f);
                    prepend_text_x(copy_range(t, 0, 2), rest)
                }
            } else {
                let j = if n >= 2 {
                    find_or_len_x(t, c, 2)
                } else {
                    n
                };
                proof {
                    lemma_find_or_len(t@, c, if n >= 2 { 2int } else { n as int });
                }
                if j < n {
                    let children = tokenize_rec(slice_subrange(t, 1, j), f);
                    let rest = tokenize_rec(slice_subrange(t, j + 1, n), f);
                    cons_node(Inline::Emphasis(children), rest)
                } else {
                    let rest = tokenize_rec(slice_subrange(t, 1, n), f);
                    prepend_text_x(copy_range(t, 0, 1), rest)
                }
            }
        } else if c == 91 {
            let cb = find_or_len_x(t, 93, 1);
            proof {
                lemma_find_or_len(t@, 93, 1);
            }
            if cb < n && cb + 1 < n && byte_at(t, cb + 1) == 40 {
                let rp = find_or_len_x(t, 41, cb + 2);
                proof {
                    lemma_find_or_len(t@, 41, cb as int + 2);
                }
                if rp < n {
                    let dt = split_dest_x(slice_subrange(t, cb + 2, rp));
                    let children = tokenize_rec(slice_subrange(t, 1, cb), f);
                    let rest = tokenize_rec(slice_subrange(t, rp + 1, n), f);
                    cons_node(Inline::Link { children, url: dt.0, title: dt.1 }, rest)
                } else {
                    let rest = tokenize_rec(slice_subrange(t, 1, n), f);
                    prepend_text_x(copy_range(t, 0, 1), rest)
                }
            } else {
                let rest = tokenize_rec(slice_subrange(t, 1, n), f);
                prepend_text_x(copy_range(t, 0, 1), rest)
            }
        } else if c == 33 && n >= 2 && byte_at(t, 1) == 91 {
            let cb = find_or_len_x(t, 93, 2);
            proof {
                lemma_find_or_len(t@, 93, 2);
            }
            if cb < n && cb + 1 < n && byte_at(t, cb + 1) == 40 {
                let rp = find_or_len_x(t, 41, cb + 2);
                proof {
                    lemma_find_or_len(t@, 41, cb as int + 2);
                }
                if rp < n {
                    let dt = split_dest_x(slice_subrange(t, cb + 2, rp));
                    let alt = copy_range(t, 2, cb);
                    let rest = tokenize_rec(slice_subrange(t, rp + 1, n), f);
                    cons_node(Inline::Image { alt, url: dt.0, title: dt.1 }, rest)
                } else {
                    let rest = tokenize_rec(slice_subrange(t, 1, n), f);
                    prepend_text_x(copy_range(t, 0, 1), rest)
                }
            } else {
                let rest = tokenize_rec(slice_subrange(t, 1, n), f);
                prepend_text_x(copy_range(t, 0, 1), rest)
            }
        } else if scheme_check(t) {
            let e = url_end_x(t, 0);
            let rest = tokenize_rec(slice_subrange(t, e, n), f);
            cons_node(Inline::Autolink(copy_range(t, 0, e)), rest)
        } else {
            let rest = tokenize_rec(slice_subrange(t, 1, n), f);
            prepend_text_x(copy_range(t, 0, 1), rest)
        }
    }
}

/// Tokenizes one text run into inline spans.
pub fn tokenize_inlines(t: &[u8]) -> (res: Vec<Inline>)
    ensures
        inlines_model(res@) == tok_full(t@),
{
    tokenize_rec(t, t.len())
}

} // verus!
