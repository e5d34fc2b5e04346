//! A markdown preview library.
//!
//! Raw markdown text is parsed into a typed, immutable document model —
//! headings, paragraphs, nested lists, tables, fenced code, blockquotes,
//! rules and inline spans — and that model is rendered, in document order,
//! into flat visual primitives for an arbitrary backend. Parsing never
//! fails: malformed constructs degrade to literal text, and every line of
//! input is covered by some block's source range. A small scheduler state
//! machine gives a consumer last-request-wins delivery of parses run on a
//! worker.

pub mod markdown_elements;
pub mod text;
pub mod inline_tokenizer;
pub mod markdown_parser;
pub mod parse_scheduler;
pub mod markdown_renderer;

pub use markdown_elements::Alignment;
pub use markdown_elements::Block;
pub use markdown_elements::Inline;
pub use markdown_elements::ListItem;
pub use markdown_elements::ParsedMarkdown;
pub use markdown_elements::SourceRange;
pub use markdown_parser::parse_markdown;
pub use markdown_renderer::RenderContext;
pub use markdown_renderer::RenderedBlock;
pub use markdown_renderer::RenderedListItem;
pub use markdown_renderer::TextRun;
pub use markdown_renderer::render_markdown_block;
pub use parse_scheduler::ParseScheduler;
pub use parse_scheduler::ParseStatus;
pub use inline_tokenizer::tokenize_inlines;
