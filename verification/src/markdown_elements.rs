//! The document model: typed block-level and inline nodes produced by the
//! parser, together with their ghost-level counterparts used in contracts.
//!
//! Text is carried as UTF-8 bytes (`Vec<u8>`), so that contracts can speak
//! of byte sequences directly.

use vstd::prelude::*;

verus! {

/// The range of source lines `[start, end)` a block was derived from.
#[derive(Clone, Copy, Debug, PartialEq, Eq, Structural)]
pub struct SourceRange {
    pub start: usize,
    pub end: usize,
}

/// Horizontal alignment of one table column, derived from the separator row.
#[derive(Clone, Copy, Debug, PartialEq, Eq, Structural)]
pub enum Alignment {
    Unspecified,
    Left,
    Right,
    Center,
}

/// An inline span inside a block's textual content.
#[derive(Debug, PartialEq, Eq)]
pub enum Inline {
    /// Literal text bytes.
    Text(Vec<u8>),
    /// Emphasised (italic) children.
    Emphasis(Vec<Inline>),
    /// Strongly emphasised (bold) children.
    Strong(Vec<Inline>),
    /// A literal code span; its text is never inline-parsed.
    CodeSpan(Vec<u8>),
    /// A link with tokenized display children, destination and optional title.
    Link { children: Vec<Inline>, url: Vec<u8>, title: Option<Vec<u8>> },
    /// An image with literal alt text, destination and optional title.
    Image { alt: Vec<u8>, url: Vec<u8>, title: Option<Vec<u8>> },
    /// A bare URL promoted to a link.
    Autolink(Vec<u8>),
    /// A line break; `hard` distinguishes forced breaks from soft wraps.
    LineBreak { hard: bool },
}

/// Ghost counterpart of `Inline`.
pub enum InlineNode {
    Text(Seq<u8>),
    Emphasis(Seq<InlineNode>),
    Strong(Seq<InlineNode>),
    CodeSpan(Seq<u8>),
    Link { children: Seq<InlineNode>, url: Seq<u8>, title: Option<Seq<u8>> },
    Image { alt: Seq<u8>, url: Seq<u8>, title: Option<Seq<u8>> },
    Autolink(Seq<u8>),
    LineBreak { hard: bool },
}

/// One item of a list: an ordered sequence of nested blocks.
#[derive(Debug, PartialEq, Eq)]
pub struct ListItem {
    pub blocks: Vec<Block>,
}

/// A block-level node of the document tree.
#[derive(Debug, PartialEq, Eq)]
pub enum Block {
    /// A heading with level 1 to 6.
    Heading { level: usize, content: Vec<Inline>, range: SourceRange },
    /// A paragraph of inline content.
    Paragraph { content: Vec<Inline>, range: SourceRange },
    /// An ordered or unordered list; nesting depth is derived structurally
    /// from containment, never stored.
    List { ordered: bool, start_number: u64, items: Vec<ListItem>, range: SourceRange },
    /// A table: per-column alignments, header cells and data rows.
    Table {
        alignments: Vec<Alignment>,
        header: Vec<Vec<Inline>>,
        rows: Vec<Vec<Vec<Inline>>>,
        range: SourceRange,
    },
    /// A fenced code block; its contents are never inline-parsed.
    CodeBlock { language: Option<Vec<u8>>, contents: Vec<u8>, range: SourceRange },
    /// A blockquote holding nested blocks.
    Blockquote { children: Vec<Block>, range: SourceRange },
    /// A horizontal rule.
    HorizontalRule { range: SourceRange },
    /// Fallback for text that could not be classified; the original source
    /// text is kept verbatim so no input is ever dropped.
    Raw { text: Vec<u8>, range: SourceRange },
}

/// Ghost counterpart of `Block`. A list item is modelled as the sequence of
/// the models of its blocks.
pub enum BlockNode {
    Heading { level: usize, content: Seq<InlineNode>, range: SourceRange },
    Paragraph { content: Seq<InlineNode>, range: SourceRange },
    List { ordered: bool, start_number: u64, items: Seq<Seq<BlockNode>>, range: SourceRange },
    Table {
        alignments: Seq<Alignment>,
        header: Seq<Seq<InlineNode>>,
        rows: Seq<Seq<Seq<InlineNode>>>,
        range: SourceRange,
    },
    CodeBlock { language: Option<Seq<u8>>, contents: Seq<u8>, range: SourceRange },
    Blockquote { children: Seq<BlockNode>, range: SourceRange },
    HorizontalRule { range: SourceRange },
    Raw { text: Seq<u8>, range: SourceRange },
}

/// The document root: an ordered sequence of top-level blocks, immutable
/// once produced by the parser.
#[derive(Debug, PartialEq, Eq)]
pub struct ParsedMarkdown {
    pub children: Vec<Block>,
}

impl ParsedMarkdown {
    /// The ghost model of the whole document.
    pub open spec fn model(&self) -> Seq<BlockNode> {
        blocks_model(self.children@)
    }
}

/// The ghost model of one inline span.
pub open spec fn inline_model(i: Inline) -> InlineNode
    decreases i,
{
    match i {
        Inline::Text(t) => InlineNode::Text(t@),
        Inline::Emphasis(c) => InlineNode::Emphasis(inlines_model(c@)),
        Inline::Strong(c) => InlineNode::Strong(inlines_model(c@)),
        Inline::CodeSpan(t) => InlineNode::CodeSpan(t@),
        Inline::Link { children, url, title } => InlineNode::Link {
            children: inlines_model(children@),
            url: url@,
            title: opt_model(title),
        },
        Inline::Image { alt, url, title } => InlineNode::Image {
            alt: alt@,
            url: url@,
            title: opt_model(title),
        },
        Inline::Autolink(u) => InlineNode::Autolink(u@),
        Inline::LineBreak { hard } => InlineNode::LineBreak { hard },
    }
}

/// The ghost model of an optional byte string.
pub open spec fn opt_model(o: Option<Vec<u8>>) -> Option<Seq<u8>> {
    match o {
        Option::Some(v) => Option::Some(v@),
        Option::None => Option::None,
    }
}

/// The ghost model of a sequence of inline spans.
pub open spec fn inlines_model(s: Seq<Inline>) -> Seq<InlineNode>
    decreases s,
{
    if s.len() == 0 {
        Seq::empty()
    } else {
        seq![inline_model(s[0])] + inlines_model(s.subrange(1, s.len() as int))
    }
}

/// The ghost model of one block.
pub open spec fn block_model(b: Block) -> BlockNode
    decreases b,
{
    match b {
        Block::Heading { level, content, range } => BlockNode::Heading {
            level,
            content: inlines_model(content@),
            range,
        },
        Block::Paragraph { content, range } => BlockNode::Paragraph {
            content: inlines_model(content@),
            range,
        },
        Block::List { ordered, start_number, items, range } => BlockNode::List {
            ordered,
            start_number,
            items: items_model(items@),
            range,
        },
        Block::Table { alignments, header, rows, range } => BlockNode::Table {
            alignments: alignments@,
            header: cells_model(header@),
            rows: rows_model(rows@),
            range,
        },
        Block::CodeBlock { language, contents, range } => BlockNode::CodeBlock {
            language: opt_model(language),
            contents: contents@,
            range,
        },
        Block::Blockquote { children, range } => BlockNode::Blockquote {
            children: blocks_model(children@),
            range,
        },
        Block::HorizontalRule { range } => BlockNode::HorizontalRule { range },
        Block::Raw { text, range } => BlockNode::Raw { text: text@, range },
    }
}

/// The ghost model of a row or header: one inline sequence per cell.
pub open spec fn cells_model(s: Seq<Vec<Inline>>) -> Seq<Seq<InlineNode>>
    decreases s,
{
    if s.len() == 0 {
        Seq::empty()
    } else {
        seq![inlines_model(s[0]@)] + cells_model(s.subrange(1, s.len() as int))
    }
}

/// The ghost model of a sequence of table rows.
pub open spec fn rows_model(s: Seq<Vec<Vec<Inline>>>) -> Seq<Seq<Seq<InlineNode>>>
    decreases s,
{
    if s.len() == 0 {
        Seq::empty()
    } else {
        seq![cells_model(s[0]@)] + rows_model(s.subrange(1, s.len() as int))
    }
}

/// `cells_model` maps element-wise.
pub proof fn lemma_cells_model(s: Seq<Vec<Inline>>)
    ensures
        cells_model(s).len() == s.len(),
        forall|i: int| 0 <= i < s.len() ==> #[trigger] cells_model(s)[i] == inlines_model(s[i]@),
    decreases s.len(),
{
    if s.len() > 0 {
        lemma_cells_model(s.subrange(1, s.len() as int));
    }
}

/// `rows_model` maps element-wise.
pub proof fn lemma_rows_model(s: Seq<Vec<Vec<Inline>>>)
    ensures
        rows_model(s).len() == s.len(),
        forall|i: int| 0 <= i < s.len() ==> #[trigger] rows_model(s)[i] == cells_model(s[i]@),
    decreases s.len(),
{
    if s.len() > 0 {
        lemma_rows_model(s.subrange(1, s.len() as int));
    }
}

/// The ghost model of a sequence of blocks.
pub open spec fn blocks_model(s: Seq<Block>) -> Seq<BlockNode>
    decreases s,
{
    if s.len() == 0 {
        Seq::empty()
    } else {
        seq![block_model(s[0])] + blocks_model(s.subrange(1, s.len() as int))
    }
}

/// The ghost model of a sequence of list items.
pub open spec fn items_model(s: Seq<ListItem>) -> Seq<Seq<BlockNode>>
    decreases s,
{
    if s.len() == 0 {
        Seq::empty()
    } else {
        seq![blocks_model(s[0].blocks@)] + items_model(s.subrange(1, s.len() as int))
    }
}

/// `inlines_model` maps element-wise.
pub proof fn lemma_inlines_model(s: Seq<Inline>)
    ensures
        inlines_model(s).len() == s.len(),
        forall|i: int| 0 <= i < s.len() ==> #[trigger] inlines_model(s)[i] == inline_model(s[i]),
    decreases s.len(),
{
    if s.len() > 0 {
        lemma_inlines_model(s.subrange(1, s.len() as int));
    }
}

/// `blocks_model` maps element-wise.
pub proof fn lemma_blocks_model(s: Seq<Block>)
    ensures
        blocks_model(s).len() == s.len(),
        forall|i: int| 0 <= i < s.len() ==> #[trigger] blocks_model(s)[i] == block_model(s[i]),
    decreases s.len(),
{
    if s.len() > 0 {
        lemma_blocks_model(s.subrange(1, s.len() as int));
    }
}

/// `items_model` maps element-wise.
pub proof fn lemma_items_model(s: Seq<ListItem>)
    ensures
        items_model(s).len() == s.len(),
        forall|i: int| 0 <= i < s.len() ==> #[trigger] items_model(s)[i] == blocks_model(
            s[i].blocks@,
        ),
    decreases s.len(),
{
    if s.len() > 0 {
        lemma_items_model(s.subrange(1, s.len() as int));
    }
}

} // verus!
