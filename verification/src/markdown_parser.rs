//! The block parser: consumes the document line by line, recognizes
//! block-level constructs, recursively parses nested content and invokes
//! the inline tokenizer for each block's textual payload. It never fails:
//! any input yields a document.

use vstd::prelude::*;
use vstd::slice::slice_index_get;
use vstd::slice::slice_subrange;
use vstd::slice::slice_to_vec;

use crate::markdown_elements::Alignment;
use crate::markdown_elements::Block;
use crate::markdown_elements::BlockNode;
use crate::markdown_elements::ListItem;
use crate::markdown_elements::ParsedMarkdown;
use crate::markdown_elements::SourceRange;
use crate::markdown_elements::block_model;
use crate::markdown_elements::blocks_model;
use crate::markdown_elements::cells_model;
use crate::markdown_elements::inlines_model;
use crate::markdown_elements::items_model;
use crate::markdown_elements::lemma_blocks_model;
use crate::markdown_elements::lemma_cells_model;
use crate::markdown_elements::lemma_items_model;
use crate::markdown_elements::lemma_rows_model;
use crate::markdown_elements::opt_model;
use crate::markdown_elements::rows_model;
use crate::inline_tokenizer::tok_full;
use crate::inline_tokenizer::tokenize_inlines;
use crate::text::blank_line;
use crate::text::blank_line_x;
use crate::text::byte_at;
use crate::text::copy_range;
use crate::text::count_from;
use crate::text::count_from_x;
use crate::text::dec_val;
use crate::text::dec_val_x;
use crate::text::digit_run;
use crate::text::digit_run_x;
use crate::text::find_or_len;
use crate::text::find_or_len_x;
use crate::text::first_non_ws;
use crate::text::first_non_ws_x;
use crate::text::is_digit;
use crate::text::join_lines;
use crate::text::join_lines_x;
use crate::text::lemma_dec_val_bound;
use crate::text::lemma_digit_run;
use crate::text::lemma_find_or_len;
use crate::text::lemma_lines_sv;
use crate::text::lemma_lines_sv_cons;
use crate::text::lemma_pow10_19_fits;
use crate::text::lemma_pow10_monotone;
use crate::text::lemma_run_len;
use crate::text::lines_of;
use crate::text::lines_sv;
use crate::text::run_len_from;
use crate::text::run_len_x;
use crate::text::sep_split;
use crate::text::split_from;
use crate::text::split_from_x;
use crate::text::split_lines;
use crate::text::trim_spec;
use crate::text::trim_x;

verus! {

/// A line-range value from ghost indices.
pub open spec fn rng(a: int, b: int) -> SourceRange {
    SourceRange { start: a as usize, end: b as usize }
}

/// A fence line: three or more backticks or tildes after optional spaces.
pub open spec fn is_fence_open(t: Seq<u8>) -> bool {
    let s = trim_spec(t);
    s.len() >= 3 && (s[0] == 96 || s[0] == 126) && run_len_from(s, s[0], 0) >= 3
}

/// The fence character of a fence line.
pub open spec fn fence_char(t: Seq<u8>) -> u8 {
    trim_spec(t)[0]
}

/// The length of the opening fence run.
pub open spec fn fence_len(t: Seq<u8>) -> nat {
    run_len_from(trim_spec(t), fence_char(t), 0)
}

/// The language tag after the opening fence, trimmed.
pub open spec fn fence_lang(t: Seq<u8>) -> Seq<u8> {
    let s = trim_spec(t);
    trim_spec(s.subrange(fence_len(t) as int, s.len() as int))
}

/// Whether every byte at or after `from` equals `b`.
pub open spec fn all_byte(s: Seq<u8>, b: u8, from: int) -> bool
    decreases s.len() - from,
{
    if from < 0 || from >= s.len() {
        true
    } else {
        s[from] == b && all_byte(s, b, from + 1)
    }
}

/// Whether every byte at or after `from` equals `b` or a space.
pub open spec fn all_byte_or_space(s: Seq<u8>, b: u8, from: int) -> bool
    decreases s.len() - from,
{
    if from < 0 || from >= s.len() {
        true
    } else {
        (s[from] == b || s[from] == 32) && all_byte_or_space(s, b, from + 1)
    }
}

/// Whether every byte at or after `from` may stand in a separator row.
pub open spec fn all_sep_bytes(s: Seq<u8>, from: int) -> bool
    decreases s.len() - from,
{
    if from < 0 || from >= s.len() {
        true
    } else {
        (s[from] == 124 || s[from] == 45 || s[from] == 58 || s[from] == 32) && all_sep_bytes(
            s,
            from + 1,
        )
    }
}

/// A closing fence: trimmed, at least as long as the opening run, all of
/// the same fence character.
pub open spec fn is_fence_close(t: Seq<u8>, f: u8, flen: nat) -> bool {
    let s = trim_spec(t);
    s.len() >= flen && s.len() > 0 && all_byte(s, f, 0)
}

/// A heading line: one to six `#` followed by a space.
pub open spec fn is_heading(t: Seq<u8>) -> bool {
    let k = run_len_from(t, 35, 0);
    1 <= k <= 6 && k < t.len() && t[k as int] == 32
}

/// The heading level: the number of `#`.
pub open spec fn heading_level(t: Seq<u8>) -> nat {
    run_len_from(t, 35, 0)
}

/// The heading text after the markers, trimmed.
pub open spec fn heading_text(t: Seq<u8>) -> Seq<u8> {
    trim_spec(t.subrange(heading_level(t) as int, t.len() as int))
}

/// A horizontal rule: solely three or more of one of `*`, `-`, `_`,
/// interior spaces ignored. Such a line is recognized as a rule even where
/// it could open a list (`* * *`); that precedence is fixed here.
pub open spec fn is_hr(t: Seq<u8>) -> bool {
    let s = trim_spec(t);
    s.len() >= 3 && (s[0] == 42 || s[0] == 45 || s[0] == 95) && all_byte_or_space(s, s[0], 0)
        && count_from(s, s[0], 0) >= 3
}

/// A blockquote line: `>` after optional whitespace.
pub open spec fn is_quote_start(t: Seq<u8>) -> bool {
    let a = first_non_ws(t, 0);
    a < t.len() && t[a] == 62
}

/// The quote line with its `>` prefix and one following space removed.
pub open spec fn quote_strip(t: Seq<u8>) -> Seq<u8> {
    let a = first_non_ws(t, 0);
    if a < t.len() && t[a] == 62 {
        if a + 1 < t.len() && t[a + 1] == 32 {
            t.subrange(a + 2, t.len() as int)
        } else {
            t.subrange(a + 1, t.len() as int)
        }
    } else {
        t
    }
}

/// The leading-space indentation of a line.
pub open spec fn indent_of(t: Seq<u8>) -> nat {
    run_len_from(t, 32, 0)
}

/// A list-marker line: `*`, `+` or `-` plus a space, or up to nineteen
/// digits plus `.` or `)` plus a space, after optional indentation.
pub open spec fn is_marker(t: Seq<u8>) -> bool {
    let i = indent_of(t) as int;
    (i + 1 < t.len() && (t[i] == 42 || t[i] == 43 || t[i] == 45) && t[i + 1] == 32) || {
        let d = digit_run(t, i) as int;
        1 <= d <= 19 && i + d + 1 < t.len() && (t[i + d] == 46 || t[i + d] == 41) && t[i + d + 1]
            == 32
    }
}

/// Whether the marker is an ordered one.
pub open spec fn marker_ordered(t: Seq<u8>) -> bool {
    digit_run(t, indent_of(t) as int) >= 1
}

/// The width of the marker itself (digits and punctuation, or one bullet).
pub open spec fn marker_len(t: Seq<u8>) -> nat {
    if marker_ordered(t) {
        digit_run(t, indent_of(t) as int) + 1
    } else {
        1
    }
}

/// The starting number an ordered marker carries; one for bullets.
pub open spec fn marker_number(t: Seq<u8>) -> nat {
    if marker_ordered(t) {
        let i = indent_of(t) as int;
        dec_val(t, i, i + digit_run(t, i))
    } else {
        1
    }
}

/// The column where a list item's own content begins.
pub open spec fn marker_col(t: Seq<u8>) -> int {
    indent_of(t) as int + marker_len(t) as int + 1
}

/// Whether the line holds a `|`.
pub open spec fn has_pipe(t: Seq<u8>) -> bool {
    find_or_len(t, 124, 0) < t.len()
}

/// A table separator row: only `|`, `-`, `:` and spaces, with a dash.
pub open spec fn is_sep_row(t: Seq<u8>) -> bool {
    let s = trim_spec(t);
    s.len() > 0 && all_sep_bytes(s, 0) && count_from(s, 45, 0) >= 1
}

/// The line with `col` leading bytes removed.
pub open spec fn dedent(t: Seq<u8>, col: int) -> Seq<u8> {
    if 0 <= col <= t.len() {
        t.subrange(col, t.len() as int)
    } else {
        Seq::empty()
    }
}

/// Each field trimmed.
pub open spec fn trim_all(s: Seq<Seq<u8>>) -> Seq<Seq<u8>>
    decreases s,
{
    if s.len() == 0 {
        Seq::empty()
    } else {
        seq![trim_spec(s[0])] + trim_all(s.subrange(1, s.len() as int))
    }
}

/// The cells of a table line: outer pipes dropped, split at `|`, trimmed.
pub open spec fn cells_of(t: Seq<u8>) -> Seq<Seq<u8>> {
    let s = trim_spec(t);
    let c1 = if s.len() > 0 && s[0] == 124 {
        s.subrange(1, s.len() as int)
    } else {
        s
    };
    let c2 = if c1.len() > 0 && c1[c1.len() - 1] == 124 {
        c1.subrange(0, c1.len() - 1)
    } else {
        c1
    };
    trim_all(sep_split(c2, 124))
}

/// The alignment one separator cell requests.
pub open spec fn align_of(c: Seq<u8>) -> Alignment {
    if c.len() >= 2 && c[0] == 58 && c[c.len() - 1] == 58 {
        Alignment::Center
    } else if c.len() >= 1 && c[c.len() - 1] == 58 {
        Alignment::Right
    } else if c.len() >= 1 && c[0] == 58 {
        Alignment::Left
    } else {
        Alignment::Unspecified
    }
}

/// The alignments of a table, normalized to the header width.
pub open spec fn aligns_of(cells: Seq<Seq<u8>>, width: nat) -> Seq<Alignment> {
    Seq::new(width, |i: int| if i < cells.len() {
        align_of(cells[i])
    } else {
        Alignment::Unspecified
    })
}

/// One row's cell contents, tokenized and normalized to the header width:
/// extra cells are dropped, missing cells are empty.
pub open spec fn row_model(cells: Seq<Seq<u8>>, width: nat) -> Seq<Seq<crate::markdown_elements::InlineNode>> {
    Seq::new(width, |i: int| if i < cells.len() {
        tok_full(cells[i])
    } else {
        Seq::empty()
    })
}

/// The index of the first line at or after `from` that closes the fence.
pub open spec fn fence_close_at(ls: Seq<Seq<u8>>, f: u8, flen: nat, from: int) -> int
    decreases ls.len() - from,
{
    if from < 0 || from >= ls.len() {
        ls.len() as int
    } else if is_fence_close(ls[from], f, flen) {
        from
    } else {
        fence_close_at(ls, f, flen, from + 1)
    }
}

/// The index of the first line at or after `from` that is not a quote line.
pub open spec fn quote_extent(ls: Seq<Seq<u8>>, from: int) -> int
    decreases ls.len() - from,
{
    if from < 0 || from >= ls.len() || !is_quote_start(ls[from]) {
        from
    } else {
        quote_extent(ls, from + 1)
    }
}

/// The quote lines from `from` on, each stripped of its `>` prefix.
pub open spec fn stripped_quote(ls: Seq<Seq<u8>>, from: int) -> Seq<Seq<u8>>
    decreases ls.len() - from,
{
    if from < 0 || from >= ls.len() || !is_quote_start(ls[from]) {
        Seq::empty()
    } else {
        seq![quote_strip(ls[from])] + stripped_quote(ls, from + 1)
    }
}

/// The index of the first line at or after `from` that no longer continues
/// a list item whose content column is `col`.
pub open spec fn item_extent(ls: Seq<Seq<u8>>, from: int, col: int) -> int
    decreases ls.len() - from,
{
    if from < 0 || from >= ls.len() || blank_line(ls[from]) || indent_of(ls[from]) < col {
        from
    } else {
        item_extent(ls, from + 1, col)
    }
}

/// The item continuation lines from `from` on, dedented to `col`.
pub open spec fn item_cont(ls: Seq<Seq<u8>>, from: int, col: int) -> Seq<Seq<u8>>
    decreases ls.len() - from,
{
    if from < 0 || from >= ls.len() || blank_line(ls[from]) || indent_of(ls[from]) < col {
        Seq::empty()
    } else {
        seq![dedent(ls[from], col)] + item_cont(ls, from + 1, col)
    }
}

/// The index of the first non-blank line at or after `from`.
pub open spec fn blank_extent(ls: Seq<Seq<u8>>, from: int) -> int
    decreases ls.len() - from,
{
    if from < 0 || from >= ls.len() || !blank_line(ls[from]) {
        from
    } else {
        blank_extent(ls, from + 1)
    }
}

/// The index of the first line at or after `from` that ends a table body.
pub open spec fn table_extent(ls: Seq<Seq<u8>>, from: int) -> int
    decreases ls.len() - from,
{
    if from < 0 || from >= ls.len() || blank_line(ls[from]) || !has_pipe(ls[from]) {
        from
    } else {
        table_extent(ls, from + 1)
    }
}

/// The table body rows from `from` on, tokenized and normalized.
pub open spec fn rows_from(ls: Seq<Seq<u8>>, from: int, width: nat) -> Seq<
    Seq<Seq<crate::markdown_elements::InlineNode>>,
>
    decreases ls.len() - from,
{
    if from < 0 || from >= ls.len() || blank_line(ls[from]) || !has_pipe(ls[from]) {
        Seq::empty()
    } else {
        seq![row_model(cells_of(ls[from]), width)] + rows_from(ls, from + 1, width)
    }
}

/// Whether a line starts a table: it holds a pipe and the next line is a
/// separator row.
pub open spec fn starts_table(ls: Seq<Seq<u8>>, at: int) -> bool {
    has_pipe(ls[at]) && at + 1 < ls.len() && is_sep_row(ls[at + 1])
}

/// The index of the first line at or after `from` that ends a paragraph:
/// a blank line or any line opening a higher-priority construct.
pub open spec fn para_extent(ls: Seq<Seq<u8>>, from: int) -> int
    decreases ls.len() - from,
{
    if from < 0 || from >= ls.len() || blank_line(ls[from]) || is_fence_open(ls[from])
        || is_heading(ls[from]) || is_hr(ls[from]) || is_quote_start(ls[from]) || is_marker(
        ls[from],
    ) || starts_table(ls, from) {
        from
    } else {
        para_extent(ls, from + 1)
    }
}

/// An optional language tag: absent when the fence carried none.
pub open spec fn lang_opt(l: Seq<u8>) -> Option<Seq<u8>> {
    if l.len() == 0 {
        Option::None
    } else {
        Option::Some(l)
    }
}

/// The fallback block: the lines joined verbatim.
pub open spec fn raw_node(ls: Seq<Seq<u8>>, base: int) -> BlockNode {
    BlockNode::Raw { text: join_lines(ls), range: rng(base, base + ls.len()) }
}

/// The blocks parsed from `ls`, whose first line is line `base` of the
/// document. The recursion budget always suffices for the budget the
/// parser passes; were it ever exhausted, the remaining lines would stand
/// in one fallback block, still covering the input.
pub open spec fn pb(ls: Seq<Seq<u8>>, base: int, fuel: nat) -> Seq<BlockNode>
    decreases fuel,
{
    if ls.len() == 0 {
        Seq::empty()
    } else if fuel == 0 {
        seq![raw_node(ls, base)]
    } else {
        let f = (fuel - 1) as nat;
        let n = ls.len() as int;
        let line = ls[0];
        if blank_line(line) {
            pb(ls.subrange(1, n), base + 1, f)
        } else if is_fence_open(line) {
            let fc = fence_char(line);
            let fl = fence_len(line);
            let j = fence_close_at(ls, fc, fl, 1);
            if j < n {
                seq![
                    BlockNode::CodeBlock {
                        language: lang_opt(fence_lang(line)),
                        contents: join_lines(ls.subrange(1, j)),
                        range: rng(base, base + j + 1),
                    },
                ] + pb(ls.subrange(j + 1, n), base + j + 1, f)
            } else {
                seq![
                    BlockNode::CodeBlock {
                        language: lang_opt(fence_lang(line)),
                        contents: join_lines(ls.subrange(1, n)),
                        range: rng(base, base + n),
                    },
                ]
            }
        } else if is_heading(line) {
            seq![
                BlockNode::Heading {
                    level: heading_level(line) as usize,
                    content: tok_full(heading_text(line)),
                    range: rng(base, base + 1),
                },
            ] + pb(ls.subrange(1, n), base + 1, f)
        } else if is_hr(line) {
            seq![BlockNode::HorizontalRule { range: rng(base, base + 1) }] + pb(
                ls.subrange(1, n),
                base + 1,
                f,
            )
        } else if is_quote_start(line) {
            let j = quote_extent(ls, 0);
            seq![
                BlockNode::Blockquote {
                    children: pb(stripped_quote(ls, 0), base, f),
                    range: rng(base, base + j),
                },
            ] + pb(ls.subrange(j, n), base + j, f)
        } else if is_marker(line) {
            let pr = pl(ls, indent_of(line) as int, base, f);
            seq![
                BlockNode::List {
                    ordered: marker_ordered(line),
                    start_number: marker_number(line) as u64,
                    items: pr.0,
                    range: rng(base, base + pr.1),
                },
            ] + pb(ls.subrange(pr.1, n), base + pr.1, f)
        } else if starts_table(ls, 0) {
            let cells = cells_of(line);
            let width = cells.len();
            let j = table_extent(ls, 2);
            seq![
                BlockNode::Table {
                    alignments: aligns_of(cells_of(ls[1]), width),
                    header: row_model(cells, width),
                    rows: rows_from(ls, 2, width),
                    range: rng(base, base + j),
                },
            ] + pb(ls.subrange(j, n), base + j, f)
        } else {
            let j = para_extent(ls, 0);
            seq![
                BlockNode::Paragraph {
                    content: tok_full(join_lines(ls.subrange(0, j))),
                    range: rng(base, base + j),
                },
            ] + pb(ls.subrange(j, n), base + j, f)
        }
    }
}

/// The items of one list whose markers sit at indentation `indent0`, and
/// how many lines they consume.
pub open spec fn pl(ls: Seq<Seq<u8>>, indent0: int, base: int, fuel: nat) -> (
    Seq<Seq<BlockNode>>,
    int,
)
    decreases fuel,
{
    if ls.len() == 0 || !is_marker(ls[0]) {
        (Seq::empty(), 0)
    } else if fuel == 0 {
        (seq![seq![raw_node(ls, base)]], ls.len() as int)
    } else {
        let f = (fuel - 1) as nat;
        let n = ls.len() as int;
        let col = marker_col(ls[0]);
        let j = item_extent(ls, 1, col);
        let item_lines = seq![dedent(ls[0], col)] + item_cont(ls, 1, col);
        let blocks = pb(item_lines, base, f);
        let e = blank_extent(ls, j);
        if e < n && is_marker(ls[e]) && indent_of(ls[e]) == indent0 && marker_ordered(ls[e])
            == marker_ordered(ls[0]) {
            let rest = pl(ls.subrange(e, n), indent0, base + e, f);
            (seq![blocks] + rest.0, e + rest.1)
        } else {
            (seq![blocks], j)
        }
    }
}

/// The number of lines a list consumes stays within its input.
pub proof fn lemma_pl_consumed(ls: Seq<Seq<u8>>, indent0: int, base: int, fuel: nat)
    ensures
        0 <= pl(ls, indent0, base, fuel).1 <= ls.len(),
        ls.len() > 0 && is_marker(ls[0]) ==> pl(ls, indent0, base, fuel).1 >= 1,
    decreases fuel,
{
    if ls.len() > 0 && is_marker(ls[0]) && fuel > 0 {
        let f = (fuel - 1) as nat;
        let n = ls.len() as int;
        let col = marker_col(ls[0]);
        let j = item_extent(ls, 1, col);
        lemma_item_extent(ls, 1, col);
        let e = blank_extent(ls, j);
        lemma_blank_extent(ls, j);
        if e < n && is_marker(ls[e]) && indent_of(ls[e]) == indent0 && marker_ordered(ls[e])
            == marker_ordered(ls[0]) {
            lemma_pl_consumed(ls.subrange(e, n), indent0, base + e, f);
        }
    }
}

/// Scan extents move forward and stay inside the lines.
pub proof fn lemma_fence_close_at(ls: Seq<Seq<u8>>, f: u8, flen: nat, from: int)
    requires
        0 <= from <= ls.len(),
    ensures
        from <= fence_close_at(ls, f, flen, from) <= ls.len(),
    decreases ls.len() - from,
{
    if from < ls.len() && !is_fence_close(ls[from], f, flen) {
        lemma_fence_close_at(ls, f, flen, from + 1);
    }
}

/// See `lemma_fence_close_at`.
pub proof fn lemma_quote_extent(ls: Seq<Seq<u8>>, from: int)
    requires
        0 <= from <= ls.len(),
    ensures
        from <= quote_extent(ls, from) <= ls.len(),
    decreases ls.len() - from,
{
    if from < ls.len() && is_quote_start(ls[from]) {
        lemma_quote_extent(ls, from + 1);
    }
}

/// See `lemma_fence_close_at`.
pub proof fn lemma_item_extent(ls: Seq<Seq<u8>>, from: int, col: int)
    requires
        0 <= from <= ls.len(),
    ensures
        from <= item_extent(ls, from, col) <= ls.len(),
    decreases ls.len() - from,
{
    if from < ls.len() && !blank_line(ls[from]) && indent_of(ls[from]) >= col {
        lemma_item_extent(ls, from + 1, col);
    }
}

/// See `lemma_fence_close_at`.
pub proof fn lemma_blank_extent(ls: Seq<Seq<u8>>, from: int)
    requires
        0 <= from <= ls.len(),
    ensures
        from <= blank_extent(ls, from) <= ls.len(),
    decreases ls.len() - from,
{
    if from < ls.len() && blank_line(ls[from]) {
        lemma_blank_extent(ls, from + 1);
    }
}

/// See `lemma_fence_close_at`.
pub proof fn lemma_table_extent(ls: Seq<Seq<u8>>, from: int)
    requires
        0 <= from <= ls.len(),
    ensures
        from <= table_extent(ls, from) <= ls.len(),
    decreases ls.len() - from,
{
    if from < ls.len() && !blank_line(ls[from]) && has_pipe(ls[from]) {
        lemma_table_extent(ls, from + 1);
    }
}

/// See `lemma_fence_close_at`.
pub proof fn lemma_para_extent(ls: Seq<Seq<u8>>, from: int)
    requires
        0 <= from <= ls.len(),
    ensures
        from <= para_extent(ls, from) <= ls.len(),
    decreases ls.len() - from,
{
    if from < ls.len() && !(blank_line(ls[from]) || is_fence_open(ls[from]) || is_heading(
        ls[from],
    ) || is_hr(ls[from]) || is_quote_start(ls[from]) || is_marker(ls[from]) || starts_table(
        ls,
        from,
    )) {
        lemma_para_extent(ls, from + 1);
    }
}

/// The stripped quote lines reach exactly to the quote's extent.
pub proof fn lemma_stripped_quote_len(ls: Seq<Seq<u8>>, from: int)
    requires
        0 <= from <= ls.len(),
    ensures
        stripped_quote(ls, from).len() == quote_extent(ls, from) - from,
    decreases ls.len() - from,
{
    lemma_quote_extent(ls, from);
    if from < ls.len() && is_quote_start(ls[from]) {
        lemma_stripped_quote_len(ls, from + 1);
    }
}

/// The item continuation lines reach exactly to the item's extent.
pub proof fn lemma_item_cont_len(ls: Seq<Seq<u8>>, from: int, col: int)
    requires
        0 <= from <= ls.len(),
    ensures
        item_cont(ls, from, col).len() == item_extent(ls, from, col) - from,
    decreases ls.len() - from,
{
    lemma_item_extent(ls, from, col);
    if from < ls.len() && !blank_line(ls[from]) && indent_of(ls[from]) >= col {
        lemma_item_cont_len(ls, from + 1, col);
    }
}

/// The recursion budget the parser grants a document.
pub open spec fn doc_fuel(t: Seq<u8>) -> nat {
    (t.len() + lines_of(t).len() + 1) as nat
}

/// The document model of a text: its lines, block-parsed from line zero.
pub open spec fn parse_doc(t: Seq<u8>) -> Seq<BlockNode> {
    pb(lines_of(t), 0, doc_fuel(t))
}

/// Prepending one block prepends its model.
pub proof fn lemma_blocks_model_cons(x: Block, s: Seq<Block>)
    ensures
        blocks_model(seq![x] + s) == seq![block_model(x)] + blocks_model(s),
{
    let u = seq![x] + s;
    assert(u[0] == x);
    assert(u.subrange(1, u.len() as int) =~= s);
    assert(blocks_model(seq![x] + s) =~= seq![block_model(x)] + blocks_model(s));
}

/// Prepending one item prepends its model.
pub proof fn lemma_items_model_cons(x: ListItem, s: Seq<ListItem>)
    ensures
        items_model(seq![x] + s) == seq![blocks_model(x.blocks@)] + items_model(s),
{
    let u = seq![x] + s;
    assert(u[0] == x);
    assert(u.subrange(1, u.len() as int) =~= s);
    assert(items_model(seq![x] + s) =~= seq![blocks_model(x.blocks@)] + items_model(s));
}

/// Prepending one row prepends its model.
pub proof fn lemma_rows_model_cons(x: Vec<Vec<crate::markdown_elements::Inline>>, s: Seq<
    Vec<Vec<crate::markdown_elements::Inline>>,
>)
    ensures
        rows_model(seq![x] + s) == seq![cells_model(x@)] + rows_model(s),
{
    let u = seq![x] + s;
    assert(u[0] == x);
    assert(u.subrange(1, u.len() as int) =~= s);
    assert(rows_model(seq![x] + s) =~= seq![cells_model(x@)] + rows_model(s));
}

/// A subrange of lines views to the subrange of the views.
pub proof fn lemma_lines_sv_subrange(s: Seq<Vec<u8>>, a: int, b: int)
    requires
        0 <= a <= b <= s.len(),
    ensures
        lines_sv(s.subrange(a, b)) == lines_sv(s).subrange(a, b),
{
    lemma_lines_sv(s);
    lemma_lines_sv(s.subrange(a, b));
    assert(lines_sv(s.subrange(a, b)) =~= lines_sv(s).subrange(a, b));
}

/// Puts one block in front of a block vector.
fn cons_block(x: Block, rest: Vec<Block>) -> (r: Vec<Block>)
    ensures
        blocks_model(r@) == seq![block_model(x)] + blocks_model(rest@),
{
    let ghost rest0 = rest@;
    let mut r = rest;
    r.insert(0, x);
    proof {
        assert(r@ =~= seq![x] + rest0);
        lemma_blocks_model_cons(x, rest0);
    }
    r
}

/// Mirrors `all_byte`.
fn all_byte_x(s: &[u8], b: u8, from: usize) -> (r: bool)
    requires
        from <= s@.len(),
    ensures
        r == all_byte(s@, b, from as int),
    decreases s@.len() - from,
{
    if from >= s.len() {
        true
    } else if byte_at(s, from) == b {
        all_byte_x(s, b, from + 1)
    } else {
        false
    }
}

/// Mirrors `all_byte_or_space`.
fn all_byte_or_space_x(s: &[u8], b: u8, from: usize) -> (r: bool)
    requires
        from <= s@.len(),
    ensures
        r == all_byte_or_space(s@, b, from as int),
    decreases s@.len() - from,
{
    if from >= s.len() {
        true
    } else if {
        let c = byte_at(s, from);
        c == b || c == 32
    } {
        all_byte_or_space_x(s, b, from + 1)
    } else {
        false
    }
}

/// Mirrors `all_sep_bytes`.
fn all_sep_bytes_x(s: &[u8], from: usize) -> (r: bool)
    requires
        from <= s@.len(),
    ensures
        r == all_sep_bytes(s@, from as int),
    decreases s@.len() - from,
{
    if from >= s.len() {
        true
    } else if {
        let c = byte_at(s, from);
        c == 124 || c == 45 || c == 58 || c == 32
    } {
        all_sep_bytes_x(s, from + 1)
    } else {
        false
    }
}

/// Mirrors `is_fence_open`.
fn is_fence_open_x(t: &[u8]) -> (r: bool)
    ensures
        r == is_fence_open(t@),
{
    let s = trim_x(t);
    if s.len() >= 3 {
        let c = byte_at(s, 0);
        (c == 96 || c == 126) && run_len_x(s, c, 0) >= 3
    } else {
        false
    }
}

/// Mirrors `is_fence_close`.
fn is_fence_close_x(t: &[u8], f: u8, flen: usize) -> (r: bool)
    ensures
        r == is_fence_close(t@, f, flen as nat),
{
    let s = trim_x(t);
    s.len() >= flen && s.len() > 0 && all_byte_x(s, f, 0)
}

/// Mirrors `is_heading`.
fn is_heading_x(t: &[u8]) -> (r: bool)
    ensures
        r == is_heading(t@),
{
    let k = run_len_x(t, 35, 0);
    1 <= k && k <= 6 && k < t.len() && byte_at(t, k) == 32
}

/// Mirrors `is_hr`.
fn is_hr_x(t: &[u8]) -> (r: bool)
    ensures
        r == is_hr(t@),
{
    let s = trim_x(t);
    if s.len() >= 3 {
        let c = byte_at(s, 0);
        (c == 42 || c == 45 || c == 95) && all_byte_or_space_x(s, c, 0) && count_from_x(s, c, 0)
            >= 3
    } else {
        false
    }
}

/// Mirrors `is_quote_start`.
fn is_quote_start_x(t: &[u8]) -> (r: bool)
    ensures
        r == is_quote_start(t@),
{
    let a = first_non_ws_x(t, 0);
    a < t.len() && byte_at(t, a) == 62
}

/// Mirrors `quote_strip`.
fn quote_strip_x(t: &[u8]) -> (r: Vec<u8>)
    ensures
        r@ == quote_strip(t@),
{
    let a = first_non_ws_x(t, 0);
    if a < t.len() && byte_at(t, a) == 62 {
        if a + 1 < t.len() && byte_at(t, a + 1) == 32 {
            copy_range(t, a + 2, t.len())
        } else {
            copy_range(t, a + 1, t.len())
        }
    } else {
        copy_range(t, 0, t.len())
    }
}

/// Mirrors `is_marker`.
fn is_marker_x(t: &[u8]) -> (r: bool)
    ensures
        r == is_marker(t@),
{
    let i = run_len_x(t, 32, 0);
    if i < t.len() && i + 1 < t.len() && {
        let c = byte_at(t, i);
        c == 42 || c == 43 || c == 45
    } && byte_at(t, i + 1) == 32 {
        true
    } else {
        let d = digit_run_x(t, i);
        1 <= d && d <= 19 && i + d < t.len() && i + d + 1 < t.len() && {
            let c = byte_at(t, i + d);
            c == 46 || c == 41
        } && byte_at(t, i + d + 1) == 32
    }
}

/// Mirrors the marker accessors; the line must carry a marker.
fn marker_parts_x(t: &[u8]) -> (r: (usize, bool, u64, usize))
    requires
        is_marker(t@),
    ensures
        r.0 == indent_of(t@),
        r.1 == marker_ordered(t@),
        r.2 == marker_number(t@),
        r.3 == marker_col(t@),
        r.3 <= t@.len(),
{
    let n = t.len();
    let i = run_len_x(t, 32, 0);
    let d = digit_run_x(t, i);
    if d >= 1 {
        proof {
            lemma_digit_run(t@, i as int);
            assert(is_digit(t@[i as int]));
            assert(1 <= d <= 19 && i + d + 1 < t@.len() && (t@[i as int + d] == 46 || t@[i as int
                + d] == 41));
        }
        let num = dec_val_x(t, i, i + d);
        (i, true, num, i + d + 2)
    } else {
        (i, false, 1, i + 2)
    }
}

/// Mirrors `has_pipe`.
fn has_pipe_x(t: &[u8]) -> (r: bool)
    ensures
        r == has_pipe(t@),
{
    proof {
        lemma_find_or_len(t@, 124, 0);
    }
    find_or_len_x(t, 124, 0) < t.len()
}

/// Mirrors `is_sep_row`.
fn is_sep_row_x(t: &[u8]) -> (r: bool)
    ensures
        r == is_sep_row(t@),
{
    let s = trim_x(t);
    s.len() > 0 && all_sep_bytes_x(s, 0) && count_from_x(s, 45, 0) >= 1
}

/// Mirrors `align_of`.
fn align_of_x(c: &[u8]) -> (r: Alignment)
    ensures
        r == align_of(c@),
{
    if c.len() >= 2 && byte_at(c, 0) == 58 && byte_at(c, c.len() - 1) == 58 {
        Alignment::Center
    } else if c.len() >= 1 && byte_at(c, c.len() - 1) == 58 {
        Alignment::Right
    } else if c.len() >= 1 && byte_at(c, 0) == 58 {
        Alignment::Left
    } else {
        Alignment::Unspecified
    }
}

/// Mirrors `trim_all`.
fn trim_all_x(cs: &[Vec<u8>]) -> (r: Vec<Vec<u8>>)
    ensures
        lines_sv(r@) == trim_all(lines_sv(cs@)),
    decreases cs@.len(),
{
    proof {
        lemma_lines_sv(cs@);
    }
    if cs.len() == 0 {
        let r: Vec<Vec<u8>> = Vec::new();
        proof {
            assert(lines_sv(r@) =~= trim_all(lines_sv(cs@)));
        }
        r
    } else {
        let c0 = slice_index_get(cs, 0);
        let trimmed = trim_x(c0.as_slice());
        let first = slice_to_vec(trimmed);
        let mut rest = trim_all_x(slice_subrange(cs, 1, cs.len()));
        let ghost rest0 = rest@;
        rest.insert(0, first);
        proof {
            assert(rest@ =~= seq![first] + rest0);
            lemma_lines_sv_cons(first, rest0);
            lemma_lines_sv_subrange(cs@, 1, cs@.len() as int);
            assert(lines_sv(cs@).subrange(1, lines_sv(cs@).len() as int) =~= lines_sv(
                cs@.subrange(1, cs@.len() as int),
            ));
            assert(lines_sv(rest@) =~= trim_all(lines_sv(cs@)));
        }
        rest
    }
}

/// Mirrors `cells_of`.
fn cells_x(t: &[u8]) -> (r: Vec<Vec<u8>>)
    ensures
        lines_sv(r@) == cells_of(t@),
{
    let s = trim_x(t);
    let c1 = if s.len() > 0 && byte_at(s, 0) == 124 {
        slice_subrange(s, 1, s.len())
    } else {
        s
    };
    let c2 = if c1.len() > 0 && byte_at(c1, c1.len() - 1) == 124 {
        slice_subrange(c1, 0, c1.len() - 1)
    } else {
        c1
    };
    let parts = split_from_x(c2, 124, 0);
    trim_all_x(parts.as_slice())
}

/// Builds one row of tokenized cells, normalized to `width`.
fn row_cells_x(cells: &[Vec<u8>], width: usize) -> (r: Vec<Vec<crate::markdown_elements::Inline>>)
    ensures
        cells_model(r@) == row_model(lines_sv(cells@), width as nat),
{
    proof {
        lemma_lines_sv(cells@);
    }
    let mut r: Vec<Vec<crate::markdown_elements::Inline>> = Vec::new();
    let mut i: usize = 0;
    proof {
        lemma_cells_model(r@);
    }
    while i < width
        invariant
            i <= width,
            cells_model(r@).len() == i,
            lines_sv(cells@).len() == cells@.len(),
            forall|k: int| 0 <= k < cells@.len() ==> #[trigger] lines_sv(cells@)[k] == cells@[k]@,
            forall|j: int|
                0 <= j < i ==> #[trigger] cells_model(r@)[j] == row_model(
                    lines_sv(cells@),
                    width as nat,
                )[j],
        decreases width - i,
    {
        let cell: Vec<crate::markdown_elements::Inline> = if i < cells.len() {
            let ci = slice_index_get(cells, i);
            tokenize_inlines(ci.as_slice())
        } else {
            Vec::new()
        };
        let ghost r0 = r@;
        r.push(cell);
        proof {
            assert(r@ =~= r0.push(cell));
            lemma_cells_model(r@);
            lemma_cells_model(r0);
            if i >= cells@.len() {
                assert(inlines_model(cell@) =~= Seq::empty());
            }
            assert forall|j: int| 0 <= j < i + 1 implies #[trigger] cells_model(r@)[j]
                == row_model(lines_sv(cells@), width as nat)[j] by {
                if j < i {
                    assert(r@[j] == r0[j]);
                    assert(cells_model(r0)[j] == row_model(lines_sv(cells@), width as nat)[j]);
                } else {
                    assert(r@[j] == cell);
                }
            }
        }
        i = i + 1;
    }
    proof {
        assert(cells_model(r@) =~= row_model(lines_sv(cells@), width as nat));
    }
    r
}

/// Builds the alignments row, normalized to `width`.
fn aligns_x(cells: &[Vec<u8>], width: usize) -> (r: Vec<Alignment>)
    ensures
        r@ == aligns_of(lines_sv(cells@), width as nat),
{
    proof {
        lemma_lines_sv(cells@);
    }
    let mut r: Vec<Alignment> = Vec::new();
    let mut i: usize = 0;
    while i < width
        invariant
            i <= width,
            r@.len() == i,
            lines_sv(cells@).len() == cells@.len(),
            forall|k: int| 0 <= k < cells@.len() ==> #[trigger] lines_sv(cells@)[k] == cells@[k]@,
            forall|j: int|
                0 <= j < i ==> r@[j] == aligns_of(lines_sv(cells@), width as nat)[j],
        decreases width - i,
    {
        let a = if i < cells.len() {
            let ci = slice_index_get(cells, i);
            align_of_x(ci.as_slice())
        } else {
            Alignment::Unspecified
        };
        r.push(a);
        i = i + 1;
    }
    proof {
        assert(r@ =~= aligns_of(lines_sv(cells@), width as nat));
    }
    r
}

/// Mirrors `fence_close_at`.
fn fence_close_at_x(ls: &[Vec<u8>], f: u8, flen: usize, from: usize) -> (r: usize)
    requires
        from <= ls@.len(),
    ensures
        r == fence_close_at(lines_sv(ls@), f, flen as nat, from as int),
        from <= r <= ls@.len(),
    decreases ls@.len() - from,
{
    proof {
        lemma_lines_sv(ls@);
        lemma_fence_close_at(lines_sv(ls@), f, flen as nat, from as int);
    }
    if from >= ls.len() {
        ls.len()
    } else if is_fence_close_x(slice_index_get(ls, from).as_slice(), f, flen) {
        from
    } else {
        fence_close_at_x(ls, f, flen, from + 1)
    }
}

/// Mirrors `quote_extent`.
fn quote_extent_x(ls: &[Vec<u8>], from: usize) -> (r: usize)
    requires
        from <= ls@.len(),
    ensures
        r == quote_extent(lines_sv(ls@), from as int),
        from <= r <= ls@.len(),
    decreases ls@.len() - from,
{
    proof {
        lemma_lines_sv(ls@);
        lemma_quote_extent(lines_sv(ls@), from as int);
    }
    if from >= ls.len() || !is_quote_start_x(slice_index_get(ls, from).as_slice()) {
        from
    } else {
        quote_extent_x(ls, from + 1)
    }
}

/// Mirrors `stripped_quote`.
fn stripped_quote_x(ls: &[Vec<u8>], from: usize) -> (r: Vec<Vec<u8>>)
    requires
        from <= ls@.len(),
    ensures
        lines_sv(r@) == stripped_quote(lines_sv(ls@), from as int),
    decreases ls@.len() - from,
{
    proof {
        lemma_lines_sv(ls@);
    }
    if from >= ls.len() || !is_quote_start_x(slice_index_get(ls, from).as_slice()) {
        let r: Vec<Vec<u8>> = Vec::new();
        proof {
            assert(lines_sv(r@) =~= stripped_quote(lines_sv(ls@), from as int));
        }
        r
    } else {
        let first = quote_strip_x(slice_index_get(ls, from).as_slice());
        let mut rest = stripped_quote_x(ls, from + 1);
        let ghost rest0 = rest@;
        rest.insert(0, first);
        proof {
            assert(rest@ =~= seq![first] + rest0);
            lemma_lines_sv_cons(first, rest0);
        }
        rest
    }
}

/// Mirrors `item_extent`.
fn item_extent_x(ls: &[Vec<u8>], from: usize, col: usize) -> (r: usize)
    requires
        from <= ls@.len(),
    ensures
        r == item_extent(lines_sv(ls@), from as int, col as int),
        from <= r <= ls@.len(),
    decreases ls@.len() - from,
{
    proof {
        lemma_lines_sv(ls@);
        lemma_item_extent(lines_sv(ls@), from as int, col as int);
    }
    if from >= ls.len() {
        from
    } else {
        let line = slice_index_get(ls, from).as_slice();
        if blank_line_x(line) || run_len_x(line, 32, 0) < col {
            from
        } else {
            item_extent_x(ls, from + 1, col)
        }
    }
}

/// Mirrors `item_cont`.
fn item_cont_x(ls: &[Vec<u8>], from: usize, col: usize) -> (r: Vec<Vec<u8>>)
    requires
        from <= ls@.len(),
    ensures
        lines_sv(r@) == item_cont(lines_sv(ls@), from as int, col as int),
    decreases ls@.len() - from,
{
    proof {
        lemma_lines_sv(ls@);
    }
    if from >= ls.len() {
        let r: Vec<Vec<u8>> = Vec::new();
        proof {
            assert(lines_sv(r@) =~= item_cont(lines_sv(ls@), from as int, col as int));
        }
        r
    } else {
        let line = slice_index_get(ls, from).as_slice();
        let ind = run_len_x(line, 32, 0);
        if blank_line_x(line) || ind < col {
            let r: Vec<Vec<u8>> = Vec::new();
            proof {
                assert(lines_sv(r@) =~= item_cont(lines_sv(ls@), from as int, col as int));
            }
            r
        } else {
            let first = copy_range(line, col, line.len());
            let mut rest = item_cont_x(ls, from + 1, col);
            let ghost rest0 = rest@;
            rest.insert(0, first);
            proof {
                assert(rest@ =~= seq![first] + rest0);
                lemma_lines_sv_cons(first, rest0);
            }
            rest
        }
    }
}

/// Mirrors `blank_extent`.
fn blank_extent_x(ls: &[Vec<u8>], from: usize) -> (r: usize)
    requires
        from <= ls@.len(),
    ensures
        r == blank_extent(lines_sv(ls@), from as int),
        from <= r <= ls@.len(),
    decreases ls@.len() - from,
{
    proof {
        lemma_lines_sv(ls@);
        lemma_blank_extent(lines_sv(ls@), from as int);
    }
    if from >= ls.len() || !blank_line_x(slice_index_get(ls, from).as_slice()) {
        from
    } else {
        blank_extent_x(ls, from + 1)
    }
}

/// Mirrors `table_extent`.
fn table_extent_x(ls: &[Vec<u8>], from: usize) -> (r: usize)
    requires
        from <= ls@.len(),
    ensures
        r == table_extent(lines_sv(ls@), from as int),
        from <= r <= ls@.len(),
    decreases ls@.len() - from,
{
    proof {
        lemma_lines_sv(ls@);
        lemma_table_extent(lines_sv(ls@), from as int);
    }
    if from >= ls.len() {
        from
    } else {
        let line = slice_index_get(ls, from).as_slice();
        if blank_line_x(line) || !has_pipe_x(line) {
            from
        } else {
            table_extent_x(ls, from + 1)
        }
    }
}

/// Mirrors `rows_from`.
fn rows_x(ls: &[Vec<u8>], from: usize, width: usize) -> (r: Vec<
    Vec<Vec<crate::markdown_elements::Inline>>,
>)
    requires
        from <= ls@.len(),
    ensures
        rows_model(r@) == rows_from(lines_sv(ls@), from as int, width as nat),
    decreases ls@.len() - from,
{
    proof {
        lemma_lines_sv(ls@);
    }
    if from >= ls.len() {
        let r: Vec<Vec<Vec<crate::markdown_elements::Inline>>> = Vec::new();
        proof {
            assert(rows_model(r@) =~= rows_from(lines_sv(ls@), from as int, width as nat));
        }
        r
    } else {
        let line = slice_index_get(ls, from).as_slice();
        if blank_line_x(line) || !has_pipe_x(line) {
            let r: Vec<Vec<Vec<crate::markdown_elements::Inline>>> = Vec::new();
            proof {
                assert(rows_model(r@) =~= rows_from(lines_sv(ls@), from as int, width as nat));
            }
            r
        } else {
            let cells = cells_x(line);
            let row = row_cells_x(cells.as_slice(), width);
            let mut rest = rows_x(ls, from + 1, width);
            let ghost rest0 = rest@;
            rest.insert(0, row);
            proof {
                assert(rest@ =~= seq![row] + rest0);
                lemma_rows_model_cons(row, rest0);
            }
            rest
        }
    }
}

/// Mirrors `para_extent`.
fn para_extent_x(ls: &[Vec<u8>], from: usize) -> (r: usize)
    requires
        from <= ls@.len(),
    ensures
        r == para_extent(lines_sv(ls@), from as int),
        from <= r <= ls@.len(),
    decreases ls@.len() - from,
{
    proof {
        lemma_lines_sv(ls@);
        lemma_para_extent(lines_sv(ls@), from as int);
    }
    if from >= ls.len() {
        from
    } else {
        let line = slice_index_get(ls, from).as_slice();
        let table_start = has_pipe_x(line) && from + 1 < ls.len() && is_sep_row_x(
            slice_index_get(ls, from + 1).as_slice(),
        );
        if blank_line_x(line) || is_fence_open_x(line) || is_heading_x(line) || is_hr_x(line)
            || is_quote_start_x(line) || is_marker_x(line) || table_start {
            from
        } else {
            para_extent_x(ls, from + 1)
        }
    }
}

/// Mirrors `pl`: parses the items of one list.
fn parse_list(ls: &[Vec<u8>], indent0: usize, base: usize, fuel: usize) -> (r: (
    Vec<ListItem>,
    usize,
))
    requires
        base + ls@.len() <= usize::MAX,
    ensures
        items_model(r.0@) == pl(lines_sv(ls@), indent0 as int, base as int, fuel as nat).0,
        r.1 == pl(lines_sv(ls@), indent0 as int, base as int, fuel as nat).1,
        r.1 <= ls@.len(),
    decreases fuel,
{
    proof {
        lemma_lines_sv(ls@);
        lemma_pl_consumed(lines_sv(ls@), indent0 as int, base as int, fuel as nat);
    }
    let n = ls.len();
    if n == 0 || !is_marker_x(slice_index_get(ls, 0).as_slice()) {
        let r: Vec<ListItem> = Vec::new();
        proof {
            assert(items_model(r@) =~= pl(
                lines_sv(ls@),
                indent0 as int,
                base as int,
                fuel as nat,
            ).0);
        }
        (r, 0)
    } else if fuel == 0 {
        let text = join_lines_x(ls);
        let block = Block::Raw { text, range: SourceRange { start: base, end: base + n } };
        let mut blocks: Vec<Block> = Vec::new();
        blocks.push(block);
        proof {
            lemma_blocks_model(blocks@);
            assert(blocks_model(blocks@) =~= seq![
                raw_node(lines_sv(ls@), base as int),
            ]);
        }
        let item = ListItem { blocks };
        let mut items: Vec<ListItem> = Vec::new();
        items.push(item);
        proof {
            lemma_items_model(items@);
            assert(items_model(items@) =~= pl(
                lines_sv(ls@),
                indent0 as int,
                base as int,
                fuel as nat,
            ).0);
        }
        (items, n)
    } else {
        let f = fuel - 1;
        let l0 = slice_index_get(ls, 0).as_slice();
        let mp = marker_parts_x(l0);
        let col = mp.3;
        let j = item_extent_x(ls, 1, col);
        let first = copy_range(l0, col, l0.len());
        let mut item_lines = item_cont_x(ls, 1, col);
        let ghost cont0 = item_lines@;
        item_lines.insert(0, first);
        proof {
            assert(item_lines@ =~= seq![first] + cont0);
            lemma_lines_sv_cons(first, cont0);
            lemma_item_cont_len(lines_sv(ls@), 1, col as int);
            lemma_lines_sv(item_lines@);
        }
        let blocks = parse_blocks(item_lines.as_slice(), base, f);
        let item = ListItem { blocks };
        let e = blank_extent_x(ls, j);
        let cont = if e < n {
            let le = slice_index_get(ls, e).as_slice();
            is_marker_x(le) && run_len_x(le, 32, 0) == indent0 && {
                let ind_e = run_len_x(le, 32, 0);
                (digit_run_x(le, ind_e) >= 1) == mp.1
            }
        } else {
            false
        };
        if cont {
            let rest = parse_list(slice_subrange(ls, e, n), indent0, base + e, f);
            proof {
                lemma_lines_sv_subrange(ls@, e as int, n as int);
            }
            let mut items = rest.0;
            let ghost items0 = items@;
            items.insert(0, item);
            proof {
                assert(items@ =~= seq![item] + items0);
                lemma_items_model_cons(item, items0);
            }
            (items, e + rest.1)
        } else {
            let mut items: Vec<ListItem> = Vec::new();
            items.push(item);
            proof {
                lemma_items_model(items@);
                assert(items_model(items@) =~= seq![blocks_model(item.blocks@)]);
            }
            (items, j)
        }
    }
}

/// Mirrors `pb`: parses a run of lines into blocks.
fn parse_blocks(ls: &[Vec<u8>], base: usize, fuel: usize) -> (res: Vec<Block>)
    requires
        base + ls@.len() <= usize::MAX,
    ensures
        blocks_model(res@) == pb(lines_sv(ls@), base as int, fuel as nat),
    decreases fuel,
{
    proof {
        lemma_lines_sv(ls@);
    }
    let n = ls.len();
    if n == 0 {
        let r: Vec<Block> = Vec::new();
        proof {
            assert(blocks_model(r@) =~= pb(lines_sv(ls@), base as int, fuel as nat));
        }
        r
    } else if fuel == 0 {
        let text = join_lines_x(ls);
        let block = Block::Raw { text, range: SourceRange { start: base, end: base + n } };
        let mut r: Vec<Block> = Vec::new();
        r.push(block);
        proof {
            lemma_blocks_model(r@);
            assert(blocks_model(r@) =~= pb(lines_sv(ls@), base as int, fuel as nat));
        }
        r
    } else {
        let f = fuel - 1;
        let l0 = slice_index_get(ls, 0).as_slice();
        if blank_line_x(l0) {
            let rest = parse_blocks(slice_subrange(ls, 1, n), base + 1, f);
            proof {
                lemma_lines_sv_subrange(ls@, 1, n as int);
            }
            rest
        } else if is_fence_open_x(l0) {
            let s = trim_x(l0);
            let fc = byte_at(s, 0);
            let fl = run_len_x(s, fc, 0);
            let lang_s = trim_x(slice_subrange(s, fl, s.len()));
            let lang = slice_to_vec(lang_s);
            let language: Option<Vec<u8>> = if lang.len() == 0 {
                Option::None
            } else {
                Option::Some(lang)
            };
            let j = fence_close_at_x(ls, fc, fl, 1);
            if j < n {
                let contents = join_lines_x(slice_subrange(ls, 1, j));
                proof {
                    lemma_lines_sv_subrange(ls@, 1, j as int);
                }
                let block = Block::CodeBlock {
                    language,
                    contents,
                    range: SourceRange { start: base, end: base + j + 1 },
                };
                let rest = parse_blocks(slice_subrange(ls, j + 1, n), base + j + 1, f);
                proof {
                    lemma_lines_sv_subrange(ls@, j as int + 1, n as int);
                }
                cons_block(block, rest)
            } else {
                let contents = join_lines_x(slice_subrange(ls, 1, n));
                proof {
                    lemma_lines_sv_subrange(ls@, 1, n as int);
                }
                let block = Block::CodeBlock {
                    language,
                    contents,
                    range: SourceRange { start: base, end: base + n },
                };
                let mut r: Vec<Block> = Vec::new();
                r.push(block);
                proof {
                    lemma_blocks_model(r@);
                    assert(blocks_model(r@) =~= pb(lines_sv(ls@), base as int, fuel as nat));
                }
                r
            }
        } else if is_heading_x(l0) {
            let k = run_len_x(l0, 35, 0);
            let text = trim_x(slice_subrange(l0, k, l0.len()));
            let content = tokenize_inlines(text);
            let block = Block::Heading {
                level: k,
                content,
                range: SourceRange { start: base, end: base + 1 },
            };
            let rest = parse_blocks(slice_subrange(ls, 1, n), base + 1, f);
            proof {
                lemma_lines_sv_subrange(ls@, 1, n as int);
            }
            cons_block(block, rest)
        } else if is_hr_x(l0) {
            let block = Block::HorizontalRule {
                range: SourceRange { start: base, end: base + 1 },
            };
            let rest = parse_blocks(slice_subrange(ls, 1, n), base + 1, f);
            proof {
                lemma_lines_sv_subrange(ls@, 1, n as int);
            }
            cons_block(block, rest)
        } else if is_quote_start_x(l0) {
            let j = quote_extent_x(ls, 0);
            let derived = stripped_quote_x(ls, 0);
            proof {
                lemma_stripped_quote_len(lines_sv(ls@), 0);
                lemma_lines_sv(derived@);
            }
            let children = parse_blocks(derived.as_slice(), base, f);
            let block = Block::Blockquote {
                children,
                range: SourceRange { start: base, end: base + j },
            };
            let rest = parse_blocks(slice_subrange(ls, j, n), base + j, f);
            proof {
                lemma_lines_sv_subrange(ls@, j as int, n as int);
            }
            cons_block(block, rest)
        } else if is_marker_x(l0) {
            let mp = marker_parts_x(l0);
            let pr = parse_list(ls, mp.0, base, f);
            proof {
                if marker_ordered(l0@) {
                    let i0 = indent_of(l0@) as int;
                    lemma_digit_run(l0@, i0);
                    lemma_dec_val_bound(l0@, i0, i0 + digit_run(l0@, i0) as int);
                    lemma_pow10_19_fits();
                    lemma_pow10_monotone(digit_run(l0@, i0), 19);
                }
            }
            let block = Block::List {
                ordered: mp.1,
                start_number: mp.2,
                items: pr.0,
                range: SourceRange { start: base, end: base + pr.1 },
            };
            let rest = parse_blocks(slice_subrange(ls, pr.1, n), base + pr.1, f);
            proof {
                lemma_lines_sv_subrange(ls@, pr.1 as int, n as int);
            }
            cons_block(block, rest)
        } else if has_pipe_x(l0) && n >= 2 && is_sep_row_x(slice_index_get(ls, 1).as_slice()) {
            let cells = cells_x(l0);
            let width = cells.len();
            let sep_cells = cells_x(slice_index_get(ls, 1).as_slice());
            let alignments = aligns_x(sep_cells.as_slice(), width);
            let header = row_cells_x(cells.as_slice(), width);
            let j = table_extent_x(ls, 2);
            let rows = rows_x(ls, 2, width);
            proof {
                lemma_lines_sv(cells@);
            }
            let block = Block::Table {
                alignments,
                header,
                rows,
                range: SourceRange { start: base, end: base + j },
            };
            let rest = parse_blocks(slice_subrange(ls, j, n), base + j, f);
            proof {
                lemma_lines_sv_subrange(ls@, j as int, n as int);
            }
            cons_block(block, rest)
        } else {
            let j = para_extent_x(ls, 0);
            let content_bytes = join_lines_x(slice_subrange(ls, 0, j));
            proof {
                lemma_lines_sv_subrange(ls@, 0, j as int);
            }
            let content = tokenize_inlines(content_bytes.as_slice());
            let block = Block::Paragraph {
                content,
                range: SourceRange { start: base, end: base + j },
            };
            let rest = parse_blocks(slice_subrange(ls, j, n), base + j, f);
            proof {
                lemma_lines_sv_subrange(ls@, j as int, n as int);
            }
            cons_block(block, rest)
        }
    }
}

/// The number of fields a split yields is bounded by the text length.
pub proof fn lemma_split_count(t: Seq<u8>, sep: u8, from: int)
    requires
        0 <= from <= t.len(),
    ensures
        split_from(t, sep, from).len() <= t.len() - from + 1,
    decreases t.len() - from,
{
    lemma_find_or_len(t, sep, from);
    let e = find_or_len(t, sep, from);
    if e < t.len() {
        lemma_split_count(t, sep, e + 1);
    }
}

/// The source range a block carries.
pub open spec fn block_range(b: BlockNode) -> SourceRange {
    match b {
        BlockNode::Heading { range, .. } => range,
        BlockNode::Paragraph { range, .. } => range,
        BlockNode::List { range, .. } => range,
        BlockNode::Table { range, .. } => range,
        BlockNode::CodeBlock { range, .. } => range,
        BlockNode::Blockquote { range, .. } => range,
        BlockNode::HorizontalRule { range } => range,
        BlockNode::Raw { range, .. } => range,
    }
}

/// Whether line `k` lies inside some block's source range.
pub open spec fn covered(bs: Seq<BlockNode>, k: int) -> bool {
    exists|i: int|
        0 <= i < bs.len() && #[trigger] block_range(bs[i]).start <= k < block_range(bs[i]).end
}

/// Coverage survives putting one more block in front.
pub proof fn lemma_covered_cons(b: BlockNode, rest: Seq<BlockNode>, k: int)
    requires
        covered(rest, k),
    ensures
        covered(seq![b] + rest, k),
{
    let i = choose|i: int|
        0 <= i < rest.len() && #[trigger] block_range(rest[i]).start <= k < block_range(
            rest[i],
        ).end;
    let u = seq![b] + rest;
    assert(u[i + 1] == rest[i]);
    assert(0 <= i + 1 < u.len() && block_range(u[i + 1]).start <= k < block_range(u[i + 1]).end);
}

/// Every non-blank line of the input lies inside some parsed block's
/// source range, whatever the budget; blank lines are the separators
/// between blocks and carry no content.
#[verifier::rlimit(100)]
pub proof fn lemma_pb_covers(ls: Seq<Seq<u8>>, base: int, fuel: nat)
    requires
        0 <= base,
        base + ls.len() <= usize::MAX,
    ensures
        forall|k: int|
            base <= k < base + ls.len() && !blank_line(ls[k - base]) ==> covered(
                pb(ls, base, fuel),
                k,
            ),
    decreases fuel,
{
    let bs = pb(ls, base, fuel);
    let n = ls.len() as int;
    if ls.len() == 0 {
    } else if fuel == 0 {
        assert forall|k: int| base <= k < base + n implies covered(bs, k) by {
            assert(bs[0] == raw_node(ls, base));
            assert(block_range(bs[0]).start <= k < block_range(bs[0]).end);
        }
    } else {
        let f = (fuel - 1) as nat;
        let line = ls[0];
        if blank_line(line) {
            lemma_pb_covers(ls.subrange(1, n), base + 1, f);
            assert(bs == pb(ls.subrange(1, n), base + 1, f));
            assert forall|k: int|
                base <= k < base + n && !blank_line(ls[k - base]) implies covered(bs, k) by {
                assert(k >= base + 1);
                assert(ls.subrange(1, n)[k - base - 1] == ls[k - base]);
                assert(covered(pb(ls.subrange(1, n), base + 1, f), k));
            }
        } else if is_fence_open(line) {
            let j = fence_close_at(ls, fence_char(line), fence_len(line), 1);
            lemma_fence_close_at(ls, fence_char(line), fence_len(line), 1);
            if j < n {
                lemma_pb_covers(ls.subrange(j + 1, n), base + j + 1, f);
                assert forall|k: int|
                    base <= k < base + n && !blank_line(ls[k - base]) implies covered(bs, k) by {
                    if k < base + j + 1 {
                        assert(block_range(bs[0]).start <= k < block_range(bs[0]).end);
                    } else {
                        assert(ls.subrange(j + 1, n)[k - base - j - 1] == ls[k - base]);
                        lemma_covered_cons(bs[0], pb(ls.subrange(j + 1, n), base + j + 1, f), k);
                    }
                }
            } else {
                assert forall|k: int| base <= k < base + n implies covered(bs, k) by {
                    assert(block_range(bs[0]).start <= k < block_range(bs[0]).end);
                }
            }
        } else if is_heading(line) || is_hr(line) {
            lemma_pb_covers(ls.subrange(1, n), base + 1, f);
            assert forall|k: int|
                base <= k < base + n && !blank_line(ls[k - base]) implies covered(bs, k) by {
                if k == base {
                    assert(block_range(bs[0]).start <= k < block_range(bs[0]).end);
                } else {
                    assert(ls.subrange(1, n)[k - base - 1] == ls[k - base]);
                    lemma_covered_cons(bs[0], pb(ls.subrange(1, n), base + 1, f), k);
                }
            }
        } else if is_quote_start(line) {
            let j = quote_extent(ls, 0);
            lemma_quote_extent(ls, 0);
            lemma_pb_covers(ls.subrange(j, n), base + j, f);
            assert forall|k: int|
                base <= k < base + n && !blank_line(ls[k - base]) implies covered(bs, k) by {
                if k < base + j {
                    assert(block_range(bs[0]).start <= k < block_range(bs[0]).end);
                } else {
                    assert(ls.subrange(j, n)[k - base - j] == ls[k - base]);
                    lemma_covered_cons(bs[0], pb(ls.subrange(j, n), base + j, f), k);
                }
            }
        } else if is_marker(line) {
            let pr = pl(ls, indent_of(line) as int, base, f);
            lemma_pl_consumed(ls, indent_of(line) as int, base, f);
            lemma_pb_covers(ls.subrange(pr.1, n), base + pr.1, f);
            assert forall|k: int|
                base <= k < base + n && !blank_line(ls[k - base]) implies covered(bs, k) by {
                if k < base + pr.1 {
                    assert(block_range(bs[0]).start <= k < block_range(bs[0]).end);
                } else {
                    assert(ls.subrange(pr.1, n)[k - base - pr.1] == ls[k - base]);
                    lemma_covered_cons(bs[0], pb(ls.subrange(pr.1, n), base + pr.1, f), k);
                }
            }
        } else if starts_table(ls, 0) {
            let j = table_extent(ls, 2);
            lemma_table_extent(ls, 2);
            lemma_pb_covers(ls.subrange(j, n), base + j, f);
            assert forall|k: int|
                base <= k < base + n && !blank_line(ls[k - base]) implies covered(bs, k) by {
                if k < base + j {
                    assert(block_range(bs[0]).start <= k < block_range(bs[0]).end);
                } else {
                    assert(ls.subrange(j, n)[k - base - j] == ls[k - base]);
                    lemma_covered_cons(bs[0], pb(ls.subrange(j, n), base + j, f), k);
                }
            }
        } else {
            let j = para_extent(ls, 0);
            lemma_para_extent(ls, 0);
            lemma_pb_covers(ls.subrange(j, n), base + j, f);
            assert forall|k: int|
                base <= k < base + n && !blank_line(ls[k - base]) implies covered(bs, k) by {
                if k < base + j {
                    assert(block_range(bs[0]).start <= k < block_range(bs[0]).end);
                } else {
                    assert(ls.subrange(j, n)[k - base - j] == ls[k - base]);
                    lemma_covered_cons(bs[0], pb(ls.subrange(j, n), base + j, f), k);
                }
            }
        }
    }
}

/// Whether a block's source range lies within `[lo, hi]`, well-formed.
pub open spec fn range_within(b: BlockNode, lo: int, hi: int) -> bool {
    lo <= block_range(b).start && block_range(b).start <= block_range(b).end && block_range(
        b,
    ).end <= hi
}

/// Range containment survives putting one more block in front.
pub proof fn lemma_within_cons(b: BlockNode, rest: Seq<BlockNode>, lo: int, hi: int)
    requires
        range_within(b, lo, hi),
        forall|i: int| 0 <= i < rest.len() ==> range_within(#[trigger] rest[i], lo, hi),
    ensures
        forall|i: int|
            0 <= i < (seq![b] + rest).len() ==> range_within(#[trigger] (seq![b] + rest)[i], lo, hi),
{
    let u = seq![b] + rest;
    assert forall|i: int| 0 <= i < u.len() implies range_within(#[trigger] u[i], lo, hi) by {
        if i > 0 {
            assert(u[i] == rest[i - 1]);
        }
    }
}

/// Every parsed block's source range is well-formed and lies within the
/// lines the parser was given.
#[verifier::rlimit(100)]
pub proof fn lemma_pb_ranges_in_bounds(ls: Seq<Seq<u8>>, base: int, fuel: nat)
    requires
        0 <= base,
        base + ls.len() <= usize::MAX,
    ensures
        forall|i: int|
            0 <= i < pb(ls, base, fuel).len() ==> range_within(
                #[trigger] pb(ls, base, fuel)[i],
                base,
                base + ls.len(),
            ),
    decreases fuel,
{
    let bs = pb(ls, base, fuel);
    let n = ls.len() as int;
    if ls.len() == 0 {
    } else if fuel == 0 {
    } else {
        let f = (fuel - 1) as nat;
        let line = ls[0];
        if blank_line(line) {
            lemma_pb_ranges_in_bounds(ls.subrange(1, n), base + 1, f);
            assert forall|i: int| 0 <= i < bs.len() implies range_within(
                #[trigger] bs[i],
                base,
                base + n,
            ) by {
                assert(range_within(pb(ls.subrange(1, n), base + 1, f)[i], base + 1, base + n));
            }
        } else if is_fence_open(line) {
            let j = fence_close_at(ls, fence_char(line), fence_len(line), 1);
            lemma_fence_close_at(ls, fence_char(line), fence_len(line), 1);
            if j < n {
                lemma_pb_ranges_in_bounds(ls.subrange(j + 1, n), base + j + 1, f);
                let rest = pb(ls.subrange(j + 1, n), base + j + 1, f);
                assert forall|i: int| 0 <= i < rest.len() implies range_within(
                    #[trigger] rest[i],
                    base,
                    base + n,
                ) by {
                    assert(range_within(rest[i], base + j + 1, base + n));
                }
                lemma_within_cons(bs[0], rest, base, base + n);
            }
        } else if is_heading(line) || is_hr(line) {
            lemma_pb_ranges_in_bounds(ls.subrange(1, n), base + 1, f);
            let rest = pb(ls.subrange(1, n), base + 1, f);
            assert forall|i: int| 0 <= i < rest.len() implies range_within(
                #[trigger] rest[i],
                base,
                base + n,
            ) by {
                assert(range_within(rest[i], base + 1, base + n));
            }
            lemma_within_cons(bs[0], rest, base, base + n);
        } else if is_quote_start(line) {
            let j = quote_extent(ls, 0);
            lemma_quote_extent(ls, 0);
            lemma_pb_ranges_in_bounds(ls.subrange(j, n), base + j, f);
            let rest = pb(ls.subrange(j, n), base + j, f);
            assert forall|i: int| 0 <= i < rest.len() implies range_within(
                #[trigger] rest[i],
                base,
                base + n,
            ) by {
                assert(range_within(rest[i], base + j, base + n));
            }
            lemma_within_cons(bs[0], rest, base, base + n);
        } else if is_marker(line) {
            let pr = pl(ls, indent_of(line) as int, base, f);
            lemma_pl_consumed(ls, indent_of(line) as int, base, f);
            lemma_pb_ranges_in_bounds(ls.subrange(pr.1, n), base + pr.1, f);
            let rest = pb(ls.subrange(pr.1, n), base + pr.1, f);
            assert forall|i: int| 0 <= i < rest.len() implies range_within(
                #[trigger] rest[i],
                base,
                base + n,
            ) by {
                assert(range_within(rest[i], base + pr.1, base + n));
            }
            lemma_within_cons(bs[0], rest, base, base + n);
        } else if starts_table(ls, 0) {
            let j = table_extent(ls, 2);
            lemma_table_extent(ls, 2);
            lemma_pb_ranges_in_bounds(ls.subrange(j, n), base + j, f);
            let rest = pb(ls.subrange(j, n), base + j, f);
            assert forall|i: int| 0 <= i < rest.len() implies range_within(
                #[trigger] rest[i],
                base,
                base + n,
            ) by {
                assert(range_within(rest[i], base + j, base + n));
            }
            lemma_within_cons(bs[0], rest, base, base + n);
        } else {
            let j = para_extent(ls, 0);
            lemma_para_extent(ls, 0);
            lemma_pb_ranges_in_bounds(ls.subrange(j, n), base + j, f);
            let rest = pb(ls.subrange(j, n), base + j, f);
            assert forall|i: int| 0 <= i < rest.len() implies range_within(
                #[trigger] rest[i],
                base,
                base + n,
            ) by {
                assert(range_within(rest[i], base + j, base + n));
            }
            lemma_within_cons(bs[0], rest, base, base + n);
        }
    }
}

/// Parsing terminates for every input and covers it: each non-blank line
/// of the text lies inside some top-level block's source range; blank
/// lines are the separators between blocks.
pub proof fn lemma_parse_covers(t: Seq<u8>)
    requires
        t.len() < usize::MAX,
    ensures
        forall|k: int|
            0 <= k < lines_of(t).len() && !blank_line(lines_of(t)[k]) ==> covered(
                parse_doc(t),
                k,
            ),
        forall|i: int|
            0 <= i < parse_doc(t).len() ==> range_within(
                #[trigger] parse_doc(t)[i],
                0,
                lines_of(t).len() as int,
            ),
{
    lemma_split_count(t, 10, 0);
    lemma_pb_covers(lines_of(t), 0, doc_fuel(t));
    lemma_pb_ranges_in_bounds(lines_of(t), 0, doc_fuel(t));
}

/// Re-parsing unchanged text yields a structurally equal document: the
/// parse result is a function of the text alone.
pub proof fn lemma_reparse_equal(a: Seq<u8>, b: Seq<u8>)
    requires
        a == b,
    ensures
        parse_doc(a) == parse_doc(b),
{
}

/// Parses a whole document. Never fails: every input yields a document
/// whose model is the one `parse_doc` assigns to the text, so parsing the
/// same text twice yields structurally equal documents.
pub fn parse_markdown(text: &[u8]) -> (doc: ParsedMarkdown)
    requires
        text@.len() < usize::MAX / 2 - 1,
    ensures
        doc.model() == parse_doc(text@),
{
    let lines = split_lines(text);
    proof {
        lemma_split_count(text@, 10, 0);
        lemma_lines_sv(lines@);
    }
    let fuel = text.len() + lines.len() + 1;
    let children = parse_blocks(lines.as_slice(), 0, fuel);
    ParsedMarkdown { children }
}

} // verus!
