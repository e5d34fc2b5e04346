use markdown_preview::Alignment;
use markdown_preview::Block;
use markdown_preview::Inline;
use markdown_preview::parse_markdown;
use markdown_preview::tokenize_inlines;

fn range_of(b: &Block) -> (usize, usize) {
    match b {
        Block::Heading { range, .. } => (range.start, range.end),
        Block::Paragraph { range, .. } => (range.start, range.end),
        Block::List { range, .. } => (range.start, range.end),
        Block::Table { range, .. } => (range.start, range.end),
        Block::CodeBlock { range, .. } => (range.start, range.end),
        Block::Blockquote { range, .. } => (range.start, range.end),
        Block::HorizontalRule { range } => (range.start, range.end),
        Block::Raw { range, .. } => (range.start, range.end),
    }
}

#[test]
fn empty_input_gives_empty_document() {
    let doc = parse_markdown(b"");
    assert_eq!(doc.children.len(), 0);
}

#[test]
fn heading_level_and_text() {
    let doc = parse_markdown(b"## Heading text");
    assert_eq!(doc.children.len(), 1);
    match &doc.children[0] {
        Block::Heading { level, content, range } => {
            assert_eq!(*level, 2);
            assert_eq!(content, &vec![Inline::Text(b"Heading text".to_vec())]);
            assert_eq!((range.start, range.end), (0, 1));
        },
        other => panic!("expected a heading, got {:?}", other),
    }
}

#[test]
fn seven_hashes_is_a_paragraph() {
    let doc = parse_markdown(b"####### deep");
    assert!(matches!(doc.children[0], Block::Paragraph { .. }));
}

#[test]
fn fenced_block_keeps_language_and_literal_content() {
    let doc = parse_markdown(b"```javascript\ncode\n```");
    assert_eq!(doc.children.len(), 1);
    match &doc.children[0] {
        Block::CodeBlock { language, contents, range } => {
            assert_eq!(language.as_deref(), Some(b"javascript".as_slice()));
            assert_eq!(contents, b"code");
            assert_eq!((range.start, range.end), (0, 3));
        },
        other => panic!("expected a code block, got {:?}", other),
    }
}

#[test]
fn code_block_content_is_never_inline_parsed() {
    let doc = parse_markdown(b"```\n*a* `b` [c](d)\n```");
    match &doc.children[0] {
        Block::CodeBlock { language, contents, .. } => {
            assert!(language.is_none());
            assert_eq!(contents, b"*a* `b` [c](d)");
        },
        other => panic!("expected a code block, got {:?}", other),
    }
}

#[test]
fn unterminated_fence_consumes_to_end_of_document() {
    let doc = parse_markdown(b"```rust\nlet x = 1;\nlet y = 2;");
    assert_eq!(doc.children.len(), 1);
    match &doc.children[0] {
        Block::CodeBlock { language, contents, range } => {
            assert_eq!(language.as_deref(), Some(b"rust".as_slice()));
            assert_eq!(contents, b"let x = 1;\nlet y = 2;");
            assert_eq!((range.start, range.end), (0, 3));
        },
        other => panic!("expected a code block, got {:?}", other),
    }
}

#[test]
fn table_with_alignments_and_one_row() {
    let doc = parse_markdown(b"| h1 | h2 |\n| :--- | ---: |\n| v1 | v2 |");
    assert_eq!(doc.children.len(), 1);
    match &doc.children[0] {
        Block::Table { alignments, header, rows, .. } => {
            assert_eq!(alignments, &vec![Alignment::Left, Alignment::Right]);
            assert_eq!(header.len(), 2);
            assert_eq!(header[0], vec![Inline::Text(b"h1".to_vec())]);
            assert_eq!(header[1], vec![Inline::Text(b"h2".to_vec())]);
            assert_eq!(rows.len(), 1);
            assert_eq!(rows[0][0], vec![Inline::Text(b"v1".to_vec())]);
            assert_eq!(rows[0][1], vec![Inline::Text(b"v2".to_vec())]);
        },
        other => panic!("expected a table, got {:?}", other),
    }
}

#[test]
fn table_rows_normalized_to_header_width() {
    let doc = parse_markdown(b"| a | b |\n| --- | --- |\n| 1 | 2 | 3 |\n| x |");
    match &doc.children[0] {
        Block::Table { rows, .. } => {
            assert_eq!(rows.len(), 2);
            assert_eq!(rows[0].len(), 2);
            assert_eq!(rows[0][1], vec![Inline::Text(b"2".to_vec())]);
            assert_eq!(rows[1].len(), 2);
            assert_eq!(rows[1][0], vec![Inline::Text(b"x".to_vec())]);
            assert!(rows[1][1].is_empty());
        },
        other => panic!("expected a table, got {:?}", other),
    }
}

#[test]
fn ordered_list_keeps_start_and_items() {
    let doc = parse_markdown(b"1. a\n2. b\n3. c");
    assert_eq!(doc.children.len(), 1);
    match &doc.children[0] {
        Block::List { ordered, start_number, items, .. } => {
            assert!(*ordered);
            assert_eq!(*start_number, 1);
            assert_eq!(items.len(), 3);
        },
        other => panic!("expected a list, got {:?}", other),
    }
}

#[test]
fn nested_ordered_list_inside_item() {
    let doc = parse_markdown(b"1. a\n   1. x\n   2. y");
    match &doc.children[0] {
        Block::List { items, .. } => {
            assert_eq!(items.len(), 1);
            assert_eq!(items[0].blocks.len(), 2);
            assert!(matches!(items[0].blocks[0], Block::Paragraph { .. }));
            match &items[0].blocks[1] {
                Block::List { ordered, start_number, items: inner, .. } => {
                    assert!(*ordered);
                    assert_eq!(*start_number, 1);
                    assert_eq!(inner.len(), 2);
                },
                other => panic!("expected a nested list, got {:?}", other),
            }
        },
        other => panic!("expected a list, got {:?}", other),
    }
}

#[test]
fn unordered_list_with_nested_sublist() {
    let doc = parse_markdown(b"* Item 1\n* Item 2\n  * Item 2a\n  * Item 2b");
    match &doc.children[0] {
        Block::List { ordered, items, .. } => {
            assert!(!*ordered);
            assert_eq!(items.len(), 2);
            match &items[1].blocks[1] {
                Block::List { items: inner, .. } => assert_eq!(inner.len(), 2),
                other => panic!("expected a nested list, got {:?}", other),
            }
        },
        other => panic!("expected a list, got {:?}", other),
    }
}

#[test]
fn blockquote_parses_nested_blocks() {
    let doc = parse_markdown(b"> # Title\n> body text");
    match &doc.children[0] {
        Block::Blockquote { children, .. } => {
            assert_eq!(children.len(), 2);
            assert!(matches!(children[0], Block::Heading { .. }));
            assert!(matches!(children[1], Block::Paragraph { .. }));
        },
        other => panic!("expected a blockquote, got {:?}", other),
    }
}

#[test]
fn horizontal_rules_and_list_precedence() {
    let doc = parse_markdown(b"---");
    assert!(matches!(doc.children[0], Block::HorizontalRule { .. }));
    let doc2 = parse_markdown(b"* * *");
    assert!(matches!(doc2.children[0], Block::HorizontalRule { .. }));
    let doc3 = parse_markdown(b"___");
    assert!(matches!(doc3.children[0], Block::HorizontalRule { .. }));
}

#[test]
fn paragraph_soft_wraps_consecutive_lines() {
    let doc = parse_markdown(b"first\nsecond");
    assert_eq!(doc.children.len(), 1);
    match &doc.children[0] {
        Block::Paragraph { content, .. } => {
            assert_eq!(
                content,
                &vec![
                    Inline::Text(b"first".to_vec()),
                    Inline::LineBreak { hard: false },
                    Inline::Text(b"second".to_vec()),
                ],
            );
        },
        other => panic!("expected a paragraph, got {:?}", other),
    }
}

#[test]
fn backslash_line_end_is_a_hard_break() {
    let doc = parse_markdown(b"This is a\n\\\nline break!");
    match &doc.children[0] {
        Block::Paragraph { content, .. } => {
            assert!(content.contains(&Inline::LineBreak { hard: true }));
        },
        other => panic!("expected a paragraph, got {:?}", other),
    }
}

#[test]
fn two_trailing_spaces_are_a_hard_break() {
    let spans = tokenize_inlines(b"a  \nb");
    assert_eq!(
        spans,
        vec![
            Inline::Text(b"a".to_vec()),
            Inline::LineBreak { hard: true },
            Inline::Text(b"b".to_vec()),
        ],
    );
}

#[test]
fn emphasis_strips_delimiters() {
    assert_eq!(
        tokenize_inlines(b"*a*"),
        vec![Inline::Emphasis(vec![Inline::Text(b"a".to_vec())])],
    );
    assert_eq!(
        tokenize_inlines(b"_also italic_"),
        vec![Inline::Emphasis(vec![Inline::Text(b"also italic".to_vec())])],
    );
}

#[test]
fn strong_strips_double_delimiters() {
    assert_eq!(
        tokenize_inlines(b"**bold**"),
        vec![Inline::Strong(vec![Inline::Text(b"bold".to_vec())])],
    );
}

#[test]
fn unclosed_emphasis_stays_literal() {
    assert_eq!(tokenize_inlines(b"*open"), vec![Inline::Text(b"*open".to_vec())]);
    assert_eq!(tokenize_inlines(b"**open"), vec![Inline::Text(b"**open".to_vec())]);
}

#[test]
fn code_span_is_literal_between_equal_tick_runs() {
    assert_eq!(tokenize_inlines(b"`code`"), vec![Inline::CodeSpan(b"code".to_vec())]);
    assert_eq!(tokenize_inlines(b"`` ` ``"), vec![Inline::CodeSpan(b" ` ".to_vec())]);
}

#[test]
fn link_with_title_is_recognized() {
    let spans = tokenize_inlines(b"[zed](https://zed.dev \"Editor\")");
    assert_eq!(
        spans,
        vec![Inline::Link {
            children: vec![Inline::Text(b"zed".to_vec())],
            url: b"https://zed.dev".to_vec(),
            title: Some(b"Editor".to_vec()),
        }],
    );
}

#[test]
fn malformed_link_falls_back_to_text() {
    assert_eq!(tokenize_inlines(b"[no url"), vec![Inline::Text(b"[no url".to_vec())]);
}

#[test]
fn image_keeps_alt_and_url() {
    let spans = tokenize_inlines(b"![logo](/images/logo.png)");
    assert_eq!(
        spans,
        vec![Inline::Image {
            alt: b"logo".to_vec(),
            url: b"/images/logo.png".to_vec(),
            title: None,
        }],
    );
}

#[test]
fn bare_url_becomes_autolink() {
    let spans = tokenize_inlines(b"see https://zed.dev/blog now");
    assert_eq!(
        spans,
        vec![
            Inline::Text(b"see ".to_vec()),
            Inline::Autolink(b"https://zed.dev/blog".to_vec()),
            Inline::Text(b" now".to_vec()),
        ],
    );
}

#[test]
fn reparsing_unchanged_text_is_structurally_equal() {
    let text: &[u8] = b"# T\n\npara *em*\n\n1. a\n2. b\n\n> quote\n\n```c\nx\n```";
    let a = parse_markdown(text);
    let b = parse_markdown(text);
    assert_eq!(a, b);
}

#[test]
fn source_ranges_cover_every_nonblank_line() {
    let text: &[u8] = b"# T\n\npara one\npara two\n\n* a\n* b\n\n```\ncode\n```\n\n> q\n\n---";
    let doc = parse_markdown(text);
    let lines: Vec<&[u8]> = text.split(|b| *b == b'\n').collect();
    for (k, line) in lines.iter().enumerate() {
        let blank = line.iter().all(|b| *b == b' ' || *b == b'\t');
        if !blank {
            assert!(
                doc.children.iter().any(|c| {
                    let (s, e) = range_of(c);
                    s <= k && k < e
                }),
                "line {} not covered",
                k,
            );
        }
    }
}

#[test]
fn heading_inline_markup_is_tokenized() {
    let doc = parse_markdown(b"# Hello *world*");
    match &doc.children[0] {
        Block::Heading { content, .. } => {
            assert_eq!(
                content,
                &vec![
                    Inline::Text(b"Hello ".to_vec()),
                    Inline::Emphasis(vec![Inline::Text(b"world".to_vec())]),
                ],
            );
        },
        other => panic!("expected a heading, got {:?}", other),
    }
}
