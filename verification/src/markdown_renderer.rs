//! The block renderer: maps each document-model node, in document order,
//! to one visual primitive, flattening inline trees into styled text runs.
//! Rendering is a pure function of the document and a per-pass context
//! that tracks nesting depth and the base URL for relative links.

use vstd::prelude::*;
use vstd::slice::slice_index_get;
use vstd::slice::slice_subrange;

use crate::markdown_elements::Alignment;
use crate::markdown_elements::Block;
use crate::markdown_elements::Inline;
use crate::markdown_elements::InlineNode;
use crate::markdown_elements::ListItem;
use crate::markdown_elements::inline_model;
use crate::markdown_elements::inlines_model;
use crate::markdown_elements::opt_model;
use crate::inline_tokenizer::scheme_at;
use crate::text::copy_range;

verus! {

/// One styled run of text: the flat unit a visual backend consumes.
#[derive(Debug, PartialEq, Eq)]
pub struct TextRun {
    pub text: Vec<u8>,
    pub bold: bool,
    pub italic: bool,
    pub code: bool,
    pub link_url: Option<Vec<u8>>,
    pub hard_break: bool,
}

/// One rendered list item: its marker text, its indentation depth and its
/// rendered blocks.
#[derive(Debug, PartialEq, Eq)]
pub struct RenderedListItem {
    pub marker: Vec<u8>,
    pub depth: usize,
    pub blocks: Vec<RenderedBlock>,
}

/// The visual primitive one block renders to.
#[derive(Debug, PartialEq, Eq)]
pub enum RenderedBlock {
    Heading { level: usize, runs: Vec<TextRun> },
    Paragraph { runs: Vec<TextRun> },
    List { items: Vec<RenderedListItem> },
    Table {
        alignments: Vec<Alignment>,
        header: Vec<Vec<TextRun>>,
        rows: Vec<Vec<Vec<TextRun>>>,
    },
    Code { language: Option<Vec<u8>>, text: Vec<u8> },
    Quote { children: Vec<RenderedBlock> },
    Rule,
    Raw { text: Vec<u8> },
}

/// The mutable per-pass rendering context: the current nesting depth and
/// the base URL used to resolve relative references. Created fresh per
/// render pass and discarded after.
pub struct RenderContext {
    pub depth: usize,
    pub base_url: Option<Vec<u8>>,
}

impl RenderContext {
    /// A fresh context at depth zero.
    pub fn new(base_url: Option<Vec<u8>>) -> (cx: Self)
        ensures
            cx.depth == 0,
            cx.base_url == base_url,
    {
        RenderContext { depth: 0, base_url }
    }
}

/// The plain text one inline span contributes: markup is gone, literal
/// content stays. A soft break reads as one space, a hard break as none.
pub open spec fn inline_text(n: InlineNode) -> Seq<u8>
    decreases n,
{
    match n {
        InlineNode::Text(t) => t,
        InlineNode::Emphasis(c) => inlines_text(c),
        InlineNode::Strong(c) => inlines_text(c),
        InlineNode::CodeSpan(t) => t,
        InlineNode::Link { children, .. } => inlines_text(children),
        InlineNode::Image { alt, .. } => alt,
        InlineNode::Autolink(u) => u,
        InlineNode::LineBreak { hard } => if hard {
            Seq::empty()
        } else {
            seq![32u8]
        },
    }
}

/// The concatenated plain text of a span sequence.
pub open spec fn inlines_text(s: Seq<InlineNode>) -> Seq<u8>
    decreases s,
{
    if s.len() == 0 {
        Seq::empty()
    } else {
        inline_text(s[0]) + inlines_text(s.subrange(1, s.len() as int))
    }
}

/// The concatenated text of a run sequence.
pub open spec fn runs_text(s: Seq<TextRun>) -> Seq<u8>
    decreases s,
{
    if s.len() == 0 {
        Seq::empty()
    } else {
        s[0].text@ + runs_text(s.subrange(1, s.len() as int))
    }
}

/// The decimal digits of a number.
pub open spec fn dec_digits(n: nat) -> Seq<u8>
    decreases n,
{
    if n < 10 {
        seq![(48 + n) as u8]
    } else {
        dec_digits(n / 10) + seq![(48 + n % 10) as u8]
    }
}

/// The marker text of one list item: `<number>.` or a dash bullet.
pub open spec fn marker_bytes(ordered: bool, n: nat) -> Seq<u8> {
    if ordered {
        dec_digits(n) + seq![46u8]
    } else {
        seq![45u8]
    }
}

/// The next ordered-list counter value, saturating at the top.
pub open spec fn sat_inc(n: u64) -> u64 {
    if n == u64::MAX {
        n
    } else {
        (n + 1) as u64
    }
}

/// The depth one level further in, saturating at the top.
pub open spec fn next_depth(d: int) -> int {
    if d + 1 > usize::MAX {
        usize::MAX as int
    } else {
        d + 1
    }
}

/// A URL resolved against an optional base: one that already carries a
/// recognized scheme, or has no base to lean on, stands as it is; any
/// other is appended to the base.
pub open spec fn resolve_url(base: Option<Seq<u8>>, url: Seq<u8>) -> Seq<u8> {
    match base {
        Option::Some(b) => if scheme_at(url, 0) {
            url
        } else {
            b + url
        },
        Option::None => url,
    }
}

/// Whether rendered cells carry exactly the plain text of the model cells.
pub open spec fn cells_runs_ok(cm: Seq<Seq<InlineNode>>, rc: Seq<Vec<TextRun>>) -> bool
    decreases cm,
{
    if cm.len() == 0 {
        rc.len() == 0
    } else {
        rc.len() == cm.len() && runs_text(rc[0]@) == inlines_text(cm[0]) && cells_runs_ok(
            cm.subrange(1, cm.len() as int),
            rc.subrange(1, rc.len() as int),
        )
    }
}

/// Whether rendered rows carry exactly the plain text of the model rows.
pub open spec fn rows_runs_ok(rm: Seq<Seq<Seq<InlineNode>>>, rr: Seq<Vec<Vec<TextRun>>>) -> bool
    decreases rm,
{
    if rm.len() == 0 {
        rr.len() == 0
    } else {
        rr.len() == rm.len() && cells_runs_ok(rm[0], rr[0]@) && rows_runs_ok(
            rm.subrange(1, rm.len() as int),
            rr.subrange(1, rr.len() as int),
        )
    }
}

/// Whether one rendered block is the faithful primitive of one document
/// block, at nesting depth `d` with base URL `base`: same construct, same
/// payload, inline content flattened losslessly to runs, and ordered-list
/// markers counted from the list's start regardless of the literal
/// numbers the source carried.
pub open spec fn rendered_ok(b: Block, r: RenderedBlock, d: int, base: Option<Seq<u8>>) -> bool
    decreases b,
{
    match b {
        Block::Heading { level, content, .. } => match r {
            RenderedBlock::Heading { level: rl, runs } => rl == level && runs_text(runs@)
                == inlines_text(inlines_model(content@)),
            _ => false,
        },
        Block::Paragraph { content, .. } => match r {
            RenderedBlock::Paragraph { runs } => runs_text(runs@) == inlines_text(
                inlines_model(content@),
            ),
            _ => false,
        },
        Block::List { ordered, start_number, items, .. } => match r {
            RenderedBlock::List { items: ritems } => items_ok(
                items@,
                ritems@,
                ordered,
                start_number,
                d,
                base,
            ),
            _ => false,
        },
        Block::Table { alignments, header, rows, .. } => match r {
            RenderedBlock::Table { alignments: ra, header: rh, rows: rr } => ra@ == alignments@
                && cells_runs_ok(crate::markdown_elements::cells_model(header@), rh@)
                && rows_runs_ok(crate::markdown_elements::rows_model(rows@), rr@),
            _ => false,
        },
        Block::CodeBlock { language, contents, .. } => match r {
            RenderedBlock::Code { language: rl, text } => opt_model(rl) == opt_model(language)
                && text@ == contents@,
            _ => false,
        },
        Block::Blockquote { children, .. } => match r {
            RenderedBlock::Quote { children: rc } => blocks_ok(
                children@,
                rc@,
                next_depth(d),
                base,
            ),
            _ => false,
        },
        Block::HorizontalRule { .. } => r is Rule,
        Block::Raw { text, .. } => match r {
            RenderedBlock::Raw { text: rt } => rt@ == text@,
            _ => false,
        },
    }
}

/// Whether each rendered block matches its document block, pairwise.
pub open spec fn blocks_ok(bs: Seq<Block>, rs: Seq<RenderedBlock>, d: int, base: Option<
    Seq<u8>,
>) -> bool
    decreases bs,
{
    if bs.len() == 0 {
        rs.len() == 0
    } else {
        rs.len() == bs.len() && rendered_ok(bs[0], rs[0], d, base) && blocks_ok(
            bs.subrange(1, bs.len() as int),
            rs.subrange(1, rs.len() as int),
            d,
            base,
        )
    }
}

/// Whether each rendered item matches its list item: the marker counts on
/// from `num`, the item sits at depth `d`, and its blocks render one
/// level deeper.
pub open spec fn items_ok(
    items: Seq<ListItem>,
    ritems: Seq<RenderedListItem>,
    ordered: bool,
    num: u64,
    d: int,
    base: Option<Seq<u8>>,
) -> bool
    decreases items,
{
    if items.len() == 0 {
        ritems.len() == 0
    } else {
        ritems.len() == items.len() && ritems[0].marker@ == marker_bytes(ordered, num as nat)
            && ritems[0].depth == d && blocks_ok(
            items[0].blocks@,
            ritems[0].blocks@,
            next_depth(d),
            base,
        ) && items_ok(
            items.subrange(1, items.len() as int),
            ritems.subrange(1, ritems.len() as int),
            ordered,
            sat_inc(num),
            d,
            base,
        )
    }
}

/// Concatenating run sequences concatenates their text.
pub proof fn lemma_runs_text_append(a: Seq<TextRun>, b: Seq<TextRun>)
    ensures
        runs_text(a + b) == runs_text(a) + runs_text(b),
    decreases a.len(),
{
    if a.len() == 0 {
        assert(a + b =~= b);
        assert(runs_text(a) =~= Seq::empty());
        assert(runs_text(a) + runs_text(b) =~= runs_text(b));
    } else {
        let t = a.subrange(1, a.len() as int);
        lemma_runs_text_append(t, b);
        assert((a + b).subrange(1, (a + b).len() as int) =~= t + b);
        assert(a[0].text@ + (runs_text(t) + runs_text(b)) =~= (a[0].text@ + runs_text(t))
            + runs_text(b));
    }
}

/// Splitting off the first span splits its text.
pub proof fn lemma_inlines_text_cons(x: InlineNode, s: Seq<InlineNode>)
    ensures
        inlines_text(seq![x] + s) == inline_text(x) + inlines_text(s),
{
    let u = seq![x] + s;
    assert(u[0] == x);
    assert(u.subrange(1, u.len() as int) =~= s);
}

/// Copies a byte vector.
fn copy_bytes(v: &Vec<u8>) -> (r: Vec<u8>)
    ensures
        r@ == v@,
{
    let r = copy_range(v.as_slice(), 0, v.len());
    proof {
        assert(v@.subrange(0, v@.len() as int) =~= v@);
    }
    r
}

/// Copies an optional byte vector.
fn copy_opt(v: &Option<Vec<u8>>) -> (r: Option<Vec<u8>>)
    ensures
        opt_model(r) == match v {
            Option::Some(u) => Option::Some(u@),
            Option::None => Option::None::<Seq<u8>>,
        },
{
    match v {
        Option::Some(u) => Option::Some(copy_bytes(u)),
        Option::None => Option::None,
    }
}

/// Resolves a URL against the optional base, relying on the scheme test.
fn resolve_link(base: &Option<Vec<u8>>, url: &Vec<u8>) -> (r: Vec<u8>)
    ensures
        r@ == resolve_url(
            match base {
                Option::Some(b) => Option::Some(b@),
                Option::None => Option::None::<Seq<u8>>,
            },
            url@,
        ),
{
    match base {
        Option::Some(b) => {
            if crate::inline_tokenizer::scheme_check(url.as_slice()) {
                copy_bytes(url)
            } else {
                let mut r = copy_bytes(b);
                let mut u = copy_bytes(url);
                r.append(&mut u);
                r
            }
        },
        Option::None => copy_bytes(url),
    }
}

/// The decimal text of a number.
fn dec_digits_x(n: u64) -> (r: Vec<u8>)
    ensures
        r@ == dec_digits(n as nat),
    decreases n,
{
    if n < 10 {
        let mut r: Vec<u8> = Vec::new();
        r.push(48 + n as u8);
        proof {
            assert(r@ =~= dec_digits(n as nat));
        }
        r
    } else {
        let mut r = dec_digits_x(n / 10);
        r.push(48 + (n % 10) as u8);
        proof {
            assert(r@ =~= dec_digits((n / 10) as nat) + seq![(48 + n as nat % 10) as u8]);
        }
        r
    }
}

/// Flattens one inline span into runs that keep exactly its plain text.
fn render_inline(
    i: &Inline,
    bold: bool,
    italic: bool,
    lk: &Option<Vec<u8>>,
    base: &Option<Vec<u8>>,
) -> (r: Vec<TextRun>)
    ensures
        runs_text(r@) == inline_text(inline_model(*i)),
    decreases *i,
{
    match i {
        Inline::Text(t) => {
            let run = TextRun {
                text: copy_bytes(t),
                bold,
                italic,
                code: false,
                link_url: copy_opt(lk),
                hard_break: false,
            };
            one_run(run)
        },
        Inline::Emphasis(c) => render_inlines(c.as_slice(), bold, true, lk, base),
        Inline::Strong(c) => render_inlines(c.as_slice(), true, italic, lk, base),
        Inline::CodeSpan(t) => {
            let run = TextRun {
                text: copy_bytes(t),
                bold,
                italic,
                code: true,
                link_url: copy_opt(lk),
                hard_break: false,
            };
            one_run(run)
        },
        Inline::Link { children, url, .. } => {
            let resolved = resolve_link(base, url);
            let nlk = Option::Some(resolved);
            render_inlines(children.as_slice(), bold, italic, &nlk, base)
        },
        Inline::Image { alt, url, .. } => {
            let resolved = resolve_link(base, url);
            let run = TextRun {
                text: copy_bytes(alt),
                bold,
                italic,
                code: false,
                link_url: Option::Some(resolved),
                hard_break: false,
            };
            one_run(run)
        },
        Inline::Autolink(u) => {
            let run = TextRun {
                text: copy_bytes(u),
                bold,
                italic,
                code: false,
                link_url: Option::Some(copy_bytes(u)),
                hard_break: false,
            };
            one_run(run)
        },
        Inline::LineBreak { hard } => {
            let hard = *hard;
            let mut text: Vec<u8> = Vec::new();
            if !hard {
                text.push(32);
            }
            let run = TextRun {
                text,
                bold,
                italic,
                code: false,
                link_url: Option::None,
                hard_break: hard,
            };
            proof {
                if hard {
                    assert(run.text@ =~= Seq::<u8>::empty());
                } else {
                    assert(run.text@ =~= seq![32u8]);
                }
            }
            one_run(run)
        },
    }
}

/// A single-run vector.
fn one_run(run: TextRun) -> (r: Vec<TextRun>)
    ensures
        runs_text(r@) == run.text@,
{
    let ghost t = run.text@;
    let mut r: Vec<TextRun> = Vec::new();
    r.push(run);
    proof {
        assert(r@.subrange(1, 1) =~= Seq::<TextRun>::empty());
        assert(runs_text(Seq::<TextRun>::empty()) == Seq::<u8>::empty());
        assert(runs_text(r@) =~= t);
    }
    r
}

/// Flattens a span sequence into runs that keep exactly its plain text.
fn render_inlines(
    v: &[Inline],
    bold: bool,
    italic: bool,
    lk: &Option<Vec<u8>>,
    base: &Option<Vec<u8>>,
) -> (r: Vec<TextRun>)
    ensures
        runs_text(r@) == inlines_text(inlines_model(v@)),
    decreases v@,
{
    if v.len() == 0 {
        let r: Vec<TextRun> = Vec::new();
        proof {
            assert(runs_text(r@) =~= inlines_text(inlines_model(v@)));
        }
        r
    } else {
        let first = slice_index_get(v, 0);
        let mut head = render_inline(first, bold, italic, lk, base);
        let ghost head0 = head@;
        let mut rest = render_inlines(slice_subrange(v, 1, v.len()), bold, italic, lk, base);
        let ghost rest0 = rest@;
        head.append(&mut rest);
        proof {
            lemma_runs_text_append(head0, rest0);
            lemma_inlines_text_cons(inline_model(v@[0]), inlines_model(
                v@.subrange(1, v@.len() as int),
            ));
            assert(inlines_model(v@) =~= seq![inline_model(v@[0])] + inlines_model(
                v@.subrange(1, v@.len() as int),
            ));
        }
        head
    }
}

/// Renders one cell row.
fn render_cells(cells: &[Vec<Inline>], base: &Option<Vec<u8>>) -> (r: Vec<Vec<TextRun>>)
    ensures
        cells_runs_ok(crate::markdown_elements::cells_model(cells@), r@),
    decreases cells@,
{
    if cells.len() == 0 {
        let r: Vec<Vec<TextRun>> = Vec::new();
        r
    } else {
        let c0 = slice_index_get(cells, 0);
        let head = render_inlines(c0.as_slice(), false, false, &Option::None, base);
        let mut rest = render_cells(slice_subrange(cells, 1, cells.len()), base);
        let ghost rest0 = rest@;
        rest.insert(0, head);
        proof {
            assert(rest@ =~= seq![head] + rest0);
            let cm = crate::markdown_elements::cells_model(cells@);
            crate::markdown_elements::lemma_cells_model(cells@);
            assert(crate::markdown_elements::cells_model(
                cells@.subrange(1, cells@.len() as int),
            ) =~= cm.subrange(1, cm.len() as int));
            assert(rest@.subrange(1, rest@.len() as int) =~= rest0);
        }
        rest
    }
}

/// Renders the table body rows.
fn render_rows(rows: &[Vec<Vec<Inline>>], base: &Option<Vec<u8>>) -> (r: Vec<Vec<Vec<TextRun>>>)
    ensures
        rows_runs_ok(crate::markdown_elements::rows_model(rows@), r@),
    decreases rows@,
{
    if rows.len() == 0 {
        let r: Vec<Vec<Vec<TextRun>>> = Vec::new();
        r
    } else {
        let r0 = slice_index_get(rows, 0);
        let head = render_cells(r0.as_slice(), base);
        let mut rest = render_rows(slice_subrange(rows, 1, rows.len()), base);
        let ghost rest0 = rest@;
        rest.insert(0, head);
        proof {
            assert(rest@ =~= seq![head] + rest0);
            let rm = crate::markdown_elements::rows_model(rows@);
            crate::markdown_elements::lemma_rows_model(rows@);
            assert(crate::markdown_elements::rows_model(
                rows@.subrange(1, rows@.len() as int),
            ) =~= rm.subrange(1, rm.len() as int));
            assert(rest@.subrange(1, rest@.len() as int) =~= rest0);
        }
        rest
    }
}

/// Renders the items of one list, counting markers on from `num`.
fn render_items(
    items: &[ListItem],
    ordered: bool,
    num: u64,
    depth: usize,
    base: &Option<Vec<u8>>,
) -> (r: Vec<RenderedListItem>)
    ensures
        items_ok(items@, r@, ordered, num, depth as int, match base {
            Option::Some(b) => Option::Some(b@),
            Option::None => Option::None::<Seq<u8>>,
        }),
    decreases items@,
{
    if items.len() == 0 {
        let r: Vec<RenderedListItem> = Vec::new();
        r
    } else {
        let it = slice_index_get(items, 0);
        let marker = if ordered {
            let mut m = dec_digits_x(num);
            m.push(46);
            proof {
                assert(m@ =~= dec_digits(num as nat) + seq![46u8]);
            }
            m
        } else {
            let mut m: Vec<u8> = Vec::new();
            m.push(45);
            proof {
                assert(m@ =~= seq![45u8]);
            }
            m
        };
        let inner_depth = if depth < usize::MAX {
            depth + 1
        } else {
            depth
        };
        let blocks = render_blocks(it.blocks.as_slice(), inner_depth, base);
        let item = RenderedListItem { marker, depth, blocks };
        let next = if num < u64::MAX {
            num + 1
        } else {
            num
        };
        let mut rest = render_items(slice_subrange(items, 1, items.len()), ordered, next, depth, base);
        let ghost rest0 = rest@;
        rest.insert(0, item);
        proof {
            assert(rest@ =~= seq![item] + rest0);
            assert(rest@.subrange(1, rest@.len() as int) =~= rest0);
        }
        rest
    }
}

/// Renders a sequence of blocks at one depth.
fn render_blocks(bs: &[Block], depth: usize, base: &Option<Vec<u8>>) -> (r: Vec<RenderedBlock>)
    ensures
        blocks_ok(bs@, r@, depth as int, match base {
            Option::Some(b) => Option::Some(b@),
            Option::None => Option::None::<Seq<u8>>,
        }),
    decreases bs@,
{
    if bs.len() == 0 {
        let r: Vec<RenderedBlock> = Vec::new();
        r
    } else {
        let b0 = slice_index_get(bs, 0);
        let head = render_block_at(b0, depth, base);
        let mut rest = render_blocks(slice_subrange(bs, 1, bs.len()), depth, base);
        let ghost rest0 = rest@;
        rest.insert(0, head);
        proof {
            assert(rest@ =~= seq![head] + rest0);
            assert(rest@.subrange(1, rest@.len() as int) =~= rest0);
        }
        rest
    }
}

/// Renders one block at a given depth.
fn render_block_at(b: &Block, depth: usize, base: &Option<Vec<u8>>) -> (r: RenderedBlock)
    ensures
        rendered_ok(*b, r, depth as int, match base {
            Option::Some(bb) => Option::Some(bb@),
            Option::None => Option::None::<Seq<u8>>,
        }),
    decreases *b,
{
    let inner_depth = if depth < usize::MAX {
        depth + 1
    } else {
        depth
    };
    match b {
        Block::Heading { level, content, .. } => RenderedBlock::Heading {
            level: *level,
            runs: render_inlines(content.as_slice(), false, false, &Option::None, base),
        },
        Block::Paragraph { content, .. } => RenderedBlock::Paragraph {
            runs: render_inlines(content.as_slice(), false, false, &Option::None, base),
        },
        Block::List { ordered, start_number, items, .. } => RenderedBlock::List {
            items: render_items(items.as_slice(), *ordered, *start_number, depth, base),
        },
        Block::Table { alignments, header, rows, .. } => {
            let mut ra: Vec<Alignment> = Vec::new();
            let mut i: usize = 0;
            while i < alignments.len()
                invariant
                    i <= alignments@.len(),
                    ra@ =~= alignments@.subrange(0, i as int),
                decreases alignments@.len() - i,
            {
                let a = *slice_index_get(alignments.as_slice(), i);
                ra.push(a);
                proof {
                    assert(ra@ =~= alignments@.subrange(0, i + 1));
                }
                i = i + 1;
            }
            proof {
                assert(ra@ =~= alignments@);
            }
            RenderedBlock::Table {
                alignments: ra,
                header: render_cells(header.as_slice(), base),
                rows: render_rows(rows.as_slice(), base),
            }
        },
        Block::CodeBlock { language, contents, .. } => RenderedBlock::Code {
            language: copy_opt(language),
            text: copy_bytes(contents),
        },
        Block::Blockquote { children, .. } => RenderedBlock::Quote {
            children: render_blocks(children.as_slice(), inner_depth, base),
        },
        Block::HorizontalRule { .. } => RenderedBlock::Rule,
        Block::Raw { text, .. } => RenderedBlock::Raw { text: copy_bytes(text) },
    }
}

/// Whether the name `l` stands in the registry.
pub open spec fn registry_has(names: Seq<Seq<u8>>, l: Seq<u8>) -> bool {
    exists|i: int| 0 <= i < names.len() && #[trigger] names[i] == l
}

/// Whether a code block's language tag names a language of the given
/// registry, so a backend can decide to label or highlight the block; an
/// absent tag matches nothing.
pub fn language_recognized(language: &Option<Vec<u8>>, names: &Vec<Vec<u8>>) -> (r: bool)
    ensures
        r == ((*language) is Some && registry_has(
            crate::text::lines_sv(names@),
            language->0@,
        )),
{
    proof {
        crate::text::lemma_lines_sv(names@);
    }
    match language {
        Option::Some(l) => {
            let mut i: usize = 0;
            while i < names.len()
                invariant
                    i <= names@.len(),
                    (*language) is Some,
                    l@ == language->0@,
                    crate::text::lines_sv(names@).len() == names@.len(),
                    forall|k: int|
                        0 <= k < names@.len() ==> #[trigger] crate::text::lines_sv(names@)[k]
                            == names@[k]@,
                    forall|k: int| 0 <= k < i ==> names@[k]@ != l@,
                decreases names@.len() - i,
            {
                let ni = slice_index_get(names.as_slice(), i);
                if crate::text::bytes_eq(l.as_slice(), ni.as_slice()) {
                    proof {
                        assert(crate::text::lines_sv(names@)[i as int] == l@);
                        assert(registry_has(crate::text::lines_sv(names@), l@));
                    }
                    return true;
                }
                i = i + 1;
            }
            false
        },
        Option::None => false,
    }
}

/// Renders one document block into its visual primitive. The context's
/// depth and base URL shape the result and are handed back unchanged, so
/// a render pass is a pure function of document and context.
pub fn render_markdown_block(b: &Block, cx: &mut RenderContext) -> (r: RenderedBlock)
    ensures
        rendered_ok(*b, r, old(cx).depth as int, opt_model(old(cx).base_url)),
        *final(cx) == *old(cx),
{
    render_block_at(b, cx.depth, &cx.base_url)
}

} // verus!
