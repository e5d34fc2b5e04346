//! Byte- and line-level text utilities shared by the block parser and the
//! inline tokenizer, with their specifications.

use vstd::prelude::*;
use vstd::slice::slice_index_get;
use vstd::slice::slice_subrange;
use vstd::slice::slice_to_vec;

verus! {

/// Whitespace inside a line: space or tab.
pub open spec fn is_ws(b: u8) -> bool {
    b == 32 || b == 9
}

/// A line that holds only whitespace.
pub open spec fn blank_line(t: Seq<u8>) -> bool {
    forall|i: int| 0 <= i < t.len() ==> is_ws(t[i])
}

/// The index of the first occurrence of `b` at or after `from`, or the
/// length of `t` when there is none.
pub open spec fn find_or_len(t: Seq<u8>, b: u8, from: int) -> int
    decreases t.len() - from,
{
    if from >= t.len() {
        t.len() as int
    } else if t[from] == b {
        from
    } else {
        find_or_len(t, b, from + 1)
    }
}

/// How many consecutive `b` bytes stand at `from`.
pub open spec fn run_len_from(t: Seq<u8>, b: u8, from: int) -> nat
    decreases t.len() - from,
{
    if from >= t.len() || from < 0 || t[from] != b {
        0
    } else {
        1 + run_len_from(t, b, from + 1)
    }
}

/// The index of the first non-whitespace byte at or after `from`, or the
/// length of `t`.
pub open spec fn first_non_ws(t: Seq<u8>, from: int) -> int
    decreases t.len() - from,
{
    if from >= t.len() {
        t.len() as int
    } else if is_ws(t[from]) {
        first_non_ws(t, from + 1)
    } else {
        from
    }
}

/// The end of `t` once trailing whitespace before `upto` is dropped.
pub open spec fn end_trim_idx(t: Seq<u8>, upto: int) -> int
    decreases upto,
{
    if upto <= 0 {
        0
    } else if is_ws(t[upto - 1]) {
        end_trim_idx(t, upto - 1)
    } else {
        upto
    }
}

/// `t` without leading whitespace.
pub open spec fn trim_start_spec(t: Seq<u8>) -> Seq<u8> {
    t.subrange(first_non_ws(t, 0), t.len() as int)
}

/// `t` without trailing whitespace.
pub open spec fn trim_end_spec(t: Seq<u8>) -> Seq<u8> {
    t.subrange(0, end_trim_idx(t, t.len() as int))
}

/// `t` without leading and trailing whitespace.
pub open spec fn trim_spec(t: Seq<u8>) -> Seq<u8> {
    trim_end_spec(trim_start_spec(t))
}

/// How many `b` bytes occur at or after `from`.
pub open spec fn count_from(t: Seq<u8>, b: u8, from: int) -> nat
    decreases t.len() - from,
{
    if from >= t.len() || from < 0 {
        0
    } else if t[from] == b {
        1 + count_from(t, b, from + 1)
    } else {
        count_from(t, b, from + 1)
    }
}

/// The fields of `t` split at `sep`, starting at `from`; a text without the
/// separator is one field.
pub open spec fn split_from(t: Seq<u8>, sep: u8, from: int) -> Seq<Seq<u8>>
    decreases t.len() - from,
    via split_from_decreases
{
    if from < 0 || from > t.len() {
        Seq::empty()
    } else {
        let e = find_or_len(t, sep, from);
        if e >= t.len() {
            seq![t.subrange(from, t.len() as int)]
        } else {
            seq![t.subrange(from, e)] + split_from(t, sep, e + 1)
        }
    }
}

#[via_fn]
proof fn split_from_decreases(t: Seq<u8>, sep: u8, from: int) {
    if 0 <= from <= t.len() {
        lemma_find_or_len(t, sep, from);
    }
}

/// The fields of `t` split at `sep`.
pub open spec fn sep_split(t: Seq<u8>, sep: u8) -> Seq<Seq<u8>> {
    split_from(t, sep, 0)
}

/// The lines of a document: its bytes split at newlines. An empty document
/// has one empty line.
pub open spec fn lines_of(t: Seq<u8>) -> Seq<Seq<u8>> {
    sep_split(t, 10)
}

/// The byte-sequence view of a sequence of byte vectors.
pub open spec fn lines_sv(s: Seq<Vec<u8>>) -> Seq<Seq<u8>>
    decreases s,
{
    if s.len() == 0 {
        Seq::empty()
    } else {
        seq![s[0]@] + lines_sv(s.subrange(1, s.len() as int))
    }
}

/// Lines joined back with single newlines.
pub open spec fn join_lines(s: Seq<Seq<u8>>) -> Seq<u8>
    decreases s,
{
    if s.len() == 0 {
        Seq::empty()
    } else if s.len() == 1 {
        s[0]
    } else {
        s[0] + seq![10u8] + join_lines(s.subrange(1, s.len() as int))
    }
}

/// An ASCII decimal digit.
pub open spec fn is_digit(b: u8) -> bool {
    48 <= b <= 57
}

/// How many consecutive digits stand at `from`.
pub open spec fn digit_run(t: Seq<u8>, from: int) -> nat
    decreases t.len() - from,
{
    if from >= t.len() || from < 0 || !is_digit(t[from]) {
        0
    } else {
        1 + digit_run(t, from + 1)
    }
}

/// The value of the decimal digits `t[from..end]`.
pub open spec fn dec_val(t: Seq<u8>, from: int, end: int) -> nat
    decreases end - from,
{
    if from >= end {
        0
    } else {
        dec_val(t, from, end - 1) * 10 + if t[end - 1] >= 48 {
            (t[end - 1] - 48) as nat
        } else {
            0
        }
    }
}

/// Ten to the power `n`.
pub open spec fn pow10(n: nat) -> nat
    decreases n,
{
    if n == 0 {
        1
    } else {
        10 * pow10((n - 1) as nat)
    }
}

/// Where `find_or_len` lands: at the first `b`, or at the end.
pub proof fn lemma_find_or_len(t: Seq<u8>, b: u8, from: int)
    requires
        0 <= from <= t.len(),
    ensures
        from <= find_or_len(t, b, from) <= t.len(),
        find_or_len(t, b, from) < t.len() ==> t[find_or_len(t, b, from)] == b,
        forall|j: int| from <= j < find_or_len(t, b, from) ==> t[j] != b,
    decreases t.len() - from,
{
    if from < t.len() && t[from] != b {
        lemma_find_or_len(t, b, from + 1);
    }
}

/// A run of `b` bytes stays inside `t` and consists of `b`.
pub proof fn lemma_run_len(t: Seq<u8>, b: u8, from: int)
    requires
        0 <= from <= t.len(),
    ensures
        from + run_len_from(t, b, from) <= t.len(),
        forall|j: int| from <= j < from + run_len_from(t, b, from) ==> t[j] == b,
        from + run_len_from(t, b, from) < t.len() ==> t[from + run_len_from(t, b, from)] != b,
    decreases t.len() - from,
{
    if from < t.len() && t[from] == b {
        lemma_run_len(t, b, from + 1);
    }
}

/// Where `first_non_ws` lands.
pub proof fn lemma_first_non_ws(t: Seq<u8>, from: int)
    requires
        0 <= from <= t.len(),
    ensures
        from <= first_non_ws(t, from) <= t.len(),
        first_non_ws(t, from) < t.len() ==> !is_ws(t[first_non_ws(t, from)]),
        forall|j: int| from <= j < first_non_ws(t, from) ==> is_ws(t[j]),
    decreases t.len() - from,
{
    if from < t.len() && is_ws(t[from]) {
        lemma_first_non_ws(t, from + 1);
    }
}

/// Where `end_trim_idx` lands.
pub proof fn lemma_end_trim(t: Seq<u8>, upto: int)
    requires
        0 <= upto <= t.len(),
    ensures
        0 <= end_trim_idx(t, upto) <= upto,
        end_trim_idx(t, upto) > 0 ==> !is_ws(t[end_trim_idx(t, upto) - 1]),
        forall|j: int| end_trim_idx(t, upto) <= j < upto ==> is_ws(t[j]),
    decreases upto,
{
    if upto > 0 && is_ws(t[upto - 1]) {
        lemma_end_trim(t, upto - 1);
    }
}

/// A run of digits stays inside `t` and consists of digits.
pub proof fn lemma_digit_run(t: Seq<u8>, from: int)
    requires
        0 <= from <= t.len(),
    ensures
        from + digit_run(t, from) <= t.len(),
        forall|j: int| from <= j < from + digit_run(t, from) ==> is_digit(t[j]),
    decreases t.len() - from,
{
    if from < t.len() && is_digit(t[from]) {
        lemma_digit_run(t, from + 1);
    }
}

/// A decimal number of `d` digits is below ten to the `d`.
pub proof fn lemma_dec_val_bound(t: Seq<u8>, from: int, end: int)
    requires
        from <= end,
        forall|j: int| from <= j < end ==> is_digit(t[j]),
    ensures
        dec_val(t, from, end) < pow10((end - from) as nat),
    decreases end - from,
{
    if from < end {
        lemma_dec_val_bound(t, from, end - 1);
    }
}

/// Ten to the nineteenth fits in a `u64`.
pub proof fn lemma_pow10_19_fits()
    ensures
        pow10(19) == 10000000000000000000,
{
    reveal_with_fuel(pow10, 20);
}

/// `lines_sv` maps element-wise.
pub proof fn lemma_lines_sv(s: Seq<Vec<u8>>)
    ensures
        lines_sv(s).len() == s.len(),
        forall|i: int| 0 <= i < s.len() ==> #[trigger] lines_sv(s)[i] == s[i]@,
    decreases s.len(),
{
    if s.len() > 0 {
        lemma_lines_sv(s.subrange(1, s.len() as int));
    }
}

/// The byte at index `i`.
pub fn byte_at(t: &[u8], i: usize) -> (b: u8)
    requires
        i < t@.len(),
    ensures
        b == t@[i as int],
{
    *slice_index_get(t, i)
}

/// Finds the first occurrence of `b` at or after `from`, or the length.
pub fn find_or_len_x(t: &[u8], b: u8, from: usize) -> (r: usize)
    requires
        from <= t@.len(),
    ensures
        r == find_or_len(t@, b, from as int),
    decreases t@.len() - from,
{
    if from >= t.len() {
        t.len()
    } else if byte_at(t, from) == b {
        from
    } else {
        find_or_len_x(t, b, from + 1)
    }
}

/// Measures the run of `b` bytes at `from`.
pub fn run_len_x(t: &[u8], b: u8, from: usize) -> (r: usize)
    requires
        from <= t@.len(),
    ensures
        r == run_len_from(t@, b, from as int),
        from + r <= t@.len(),
    decreases t@.len() - from,
{
    proof {
        lemma_run_len(t@, b, from as int);
    }
    if from >= t.len() || byte_at(t, from) != b {
        0
    } else {
        1 + run_len_x(t, b, from + 1)
    }
}

/// Finds the first non-whitespace byte at or after `from`, or the length.
pub fn first_non_ws_x(t: &[u8], from: usize) -> (r: usize)
    requires
        from <= t@.len(),
    ensures
        r == first_non_ws(t@, from as int),
        from <= r <= t@.len(),
    decreases t@.len() - from,
{
    proof {
        lemma_first_non_ws(t@, from as int);
    }
    if from >= t.len() {
        t.len()
    } else if {
        let b = byte_at(t, from);
        b == 32 || b == 9
    } {
        first_non_ws_x(t, from + 1)
    } else {
        from
    }
}

/// Finds where trailing whitespace before `upto` begins.
pub fn end_trim_x(t: &[u8], upto: usize) -> (r: usize)
    requires
        upto <= t@.len(),
    ensures
        r == end_trim_idx(t@, upto as int),
        r <= upto,
    decreases upto,
{
    proof {
        lemma_end_trim(t@, upto as int);
    }
    if upto == 0 {
        0
    } else if {
        let b = byte_at(t, upto - 1);
        b == 32 || b == 9
    } {
        end_trim_x(t, upto - 1)
    } else {
        upto
    }
}

/// Counts the `b` bytes at or after `from`.
pub fn count_from_x(t: &[u8], b: u8, from: usize) -> (r: usize)
    requires
        from <= t@.len(),
    ensures
        r == count_from(t@, b, from as int),
        r <= t@.len() - from,
    decreases t@.len() - from,
{
    if from >= t.len() {
        0
    } else if byte_at(t, from) == b {
        1 + count_from_x(t, b, from + 1)
    } else {
        count_from_x(t, b, from + 1)
    }
}

/// Measures the run of digits at `from`.
pub fn digit_run_x(t: &[u8], from: usize) -> (r: usize)
    requires
        from <= t@.len(),
    ensures
        r == digit_run(t@, from as int),
        from + r <= t@.len(),
    decreases t@.len() - from,
{
    proof {
        lemma_digit_run(t@, from as int);
    }
    if from >= t.len() {
        0
    } else if {
        let b = byte_at(t, from);
        48 <= b && b <= 57
    } {
        1 + digit_run_x(t, from + 1)
    } else {
        0
    }
}

/// Evaluates the decimal digits `t[from..end]`, at most nineteen of them.
pub fn dec_val_x(t: &[u8], from: usize, end: usize) -> (r: u64)
    requires
        from <= end <= t@.len(),
        end - from <= 19,
        forall|j: int| from <= j < end ==> is_digit(t@[j]),
    ensures
        r == dec_val(t@, from as int, end as int),
    decreases end - from,
{
    proof {
        lemma_dec_val_bound(t@, from as int, end as int);
        lemma_pow10_19_fits();
    }
    if from >= end {
        0
    } else {
        let hi = dec_val_x(t, from, end - 1);
        proof {
            lemma_dec_val_bound(t@, from as int, end as int - 1);
            lemma_pow10_monotone((end - from - 1) as nat, 18);
        }
        let d = byte_at(t, end - 1) - 48;
        hi * 10 + d as u64
    }
}

/// `pow10` grows with its exponent.
pub proof fn lemma_pow10_monotone(a: nat, b: nat)
    requires
        a <= b,
    ensures
        pow10(a) <= pow10(b),
    decreases b,
{
    if a < b {
        lemma_pow10_monotone(a, (b - 1) as nat);
        lemma_pow10_positive((b - 1) as nat);
    }
}

/// `pow10` is positive.
pub proof fn lemma_pow10_positive(n: nat)
    ensures
        pow10(n) >= 1,
    decreases n,
{
    if n > 0 {
        lemma_pow10_positive((n - 1) as nat);
    }
}

/// Copies `t[a..b]` into a fresh vector.
pub fn copy_range(t: &[u8], a: usize, b: usize) -> (r: Vec<u8>)
    requires
        a <= b <= t@.len(),
    ensures
        r@ == t@.subrange(a as int, b as int),
{
    slice_to_vec(slice_subrange(t, a, b))
}

/// `t` without leading whitespace.
pub fn trim_start_x(t: &[u8]) -> (r: &[u8])
    ensures
        r@ == trim_start_spec(t@),
{
    let a = first_non_ws_x(t, 0);
    slice_subrange(t, a, t.len())
}

/// `t` without leading and trailing whitespace.
pub fn trim_x(t: &[u8]) -> (r: &[u8])
    ensures
        r@ == trim_spec(t@),
{
    let s = trim_start_x(t);
    let e = end_trim_x(s, s.len());
    slice_subrange(s, 0, e)
}

/// Whether the whole line is whitespace.
pub fn blank_line_x(t: &[u8]) -> (r: bool)
    ensures
        r == blank_line(t@),
{
    let e = first_non_ws_x(t, 0);
    proof {
        lemma_first_non_ws(t@, 0);
    }
    e >= t.len()
}

/// Splits `t` at `sep`, starting at `from`.
pub fn split_from_x(t: &[u8], sep: u8, from: usize) -> (r: Vec<Vec<u8>>)
    requires
        from <= t@.len(),
    ensures
        lines_sv(r@) == split_from(t@, sep, from as int),
    decreases t@.len() - from,
{
    proof {
        lemma_find_or_len(t@, sep, from as int);
    }
    let e = find_or_len_x(t, sep, from);
    if e >= t.len() {
        let mut r: Vec<Vec<u8>> = Vec::new();
        r.push(copy_range(t, from, t.len()));
        proof {
            lemma_lines_sv(r@);
            assert(lines_sv(r@) =~= split_from(t@, sep, from as int));
        }
        r
    } else {
        let mut r = split_from_x(t, sep, e + 1);
        let first = copy_range(t, from, e);
        let ghost old_r = r@;
        r.insert(0, first);
        proof {
            assert(r@ =~= seq![first] + old_r);
            lemma_lines_sv_cons(first, old_r);
        }
        r
    }
}

/// Prepending a vector prepends its view.
pub proof fn lemma_lines_sv_cons(x: Vec<u8>, s: Seq<Vec<u8>>)
    ensures
        lines_sv(seq![x] + s) == seq![x@] + lines_sv(s),
{
    let u = seq![x] + s;
    assert(u[0] == x);
    assert(u.subrange(1, u.len() as int) =~= s);
    assert(lines_sv(seq![x] + s) =~= seq![x@] + lines_sv(s));
}

/// Splits a document into its lines.
pub fn split_lines(t: &[u8]) -> (r: Vec<Vec<u8>>)
    ensures
        lines_sv(r@) == lines_of(t@),
{
    split_from_x(t, 10, 0)
}

/// Whether two byte strings are equal.
pub fn bytes_eq(a: &[u8], b: &[u8]) -> (r: bool)
    ensures
        r == (a@ == b@),
{
    if a.len() != b.len() {
        return false;
    }
    let mut i: usize = 0;
    while i < a.len()
        invariant
            i <= a@.len(),
            a@.len() == b@.len(),
            forall|j: int| 0 <= j < i ==> a@[j] == b@[j],
        decreases a@.len() - i,
    {
        if byte_at(a, i) != byte_at(b, i) {
            return false;
        }
        i = i + 1;
    }
    proof {
        assert(a@ =~= b@);
    }
    true
}

/// Joins lines back with single newlines.
pub fn join_lines_x(ls: &[Vec<u8>]) -> (r: Vec<u8>)
    ensures
        r@ == join_lines(lines_sv(ls@)),
    decreases ls@.len(),
{
    proof {
        lemma_lines_sv(ls@);
    }
    if ls.len() == 0 {
        Vec::new()
    } else if ls.len() == 1 {
        let v0 = slice_index_get(ls, 0);
        let r = copy_range(v0.as_slice(), 0, v0.len());
        assert(r@ =~= join_lines(lines_sv(ls@)));
        r
    } else {
        let v0 = slice_index_get(ls, 0);
        let mut r = copy_range(v0.as_slice(), 0, v0.len());
        r.push(10);
        let mut rest = join_lines_x(slice_subrange(ls, 1, ls.len()));
        r.append(&mut rest);
        proof {
            lemma_lines_sv(ls@.subrange(1, ls@.len() as int));
            assert(lines_sv(ls@).subrange(1, lines_sv(ls@).len() as int) =~= lines_sv(
                ls@.subrange(1, ls@.len() as int),
            ));
            assert(r@ =~= join_lines(lines_sv(ls@)));
        }
        r
    }
}

} // verus!
