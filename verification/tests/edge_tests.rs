use markdown_preview::Block;
use markdown_preview::Inline;
use markdown_preview::RenderContext;
use markdown_preview::RenderedBlock;
use markdown_preview::parse_markdown;
use markdown_preview::render_markdown_block;
use markdown_preview::tokenize_inlines;

#[test]
fn blank_only_input_gives_no_blocks() {
    let doc = parse_markdown(b"\n   \n\t\n");
    assert_eq!(doc.children.len(), 0);
}

#[test]
fn hash_without_space_is_not_a_heading() {
    let doc = parse_markdown(b"#nospace");
    assert!(matches!(doc.children[0], Block::Paragraph { .. }));
}

#[test]
fn quote_marker_without_space_still_quotes() {
    let doc = parse_markdown(b">tight");
    match &doc.children[0] {
        Block::Blockquote { children, .. } => match &children[0] {
            Block::Paragraph { content, .. } => {
                assert_eq!(content, &vec![Inline::Text(b"tight".to_vec())]);
            },
            other => panic!("expected a paragraph, got {:?}", other),
        },
        other => panic!("expected a blockquote, got {:?}", other),
    }
}

#[test]
fn list_item_with_empty_content() {
    let doc = parse_markdown(b"* \n* b");
    match &doc.children[0] {
        Block::List { items, .. } => {
            assert_eq!(items.len(), 2);
            assert_eq!(items[0].blocks.len(), 0);
        },
        other => panic!("expected a list, got {:?}", other),
    }
}

#[test]
fn pipe_line_without_separator_is_a_paragraph() {
    let doc = parse_markdown(b"| not | a table |\nplain text");
    assert_eq!(doc.children.len(), 1);
    assert!(matches!(doc.children[0], Block::Paragraph { .. }));
}

#[test]
fn tilde_fence_opens_a_code_block() {
    let doc = parse_markdown(b"~~~\nliteral\n~~~");
    match &doc.children[0] {
        Block::CodeBlock { language, contents, .. } => {
            assert!(language.is_none());
            assert_eq!(contents, b"literal");
        },
        other => panic!("expected a code block, got {:?}", other),
    }
}

#[test]
fn longer_closing_fence_still_closes() {
    let doc = parse_markdown(b"```\nx\n`````");
    match &doc.children[0] {
        Block::CodeBlock { contents, .. } => assert_eq!(contents, b"x"),
        other => panic!("expected a code block, got {:?}", other),
    }
}

#[test]
fn list_starting_at_seven_counts_from_seven() {
    let doc = parse_markdown(b"7. a\n9. b");
    match &doc.children[0] {
        Block::List { start_number, .. } => assert_eq!(*start_number, 7),
        other => panic!("expected a list, got {:?}", other),
    }
    let mut cx = RenderContext::new(None);
    match render_markdown_block(&doc.children[0], &mut cx) {
        RenderedBlock::List { items } => {
            assert_eq!(items[0].marker, b"7.".to_vec());
            assert_eq!(items[1].marker, b"8.".to_vec());
        },
        other => panic!("expected a rendered list, got {:?}", other),
    }
}

#[test]
fn paren_marker_also_opens_an_ordered_list() {
    let doc = parse_markdown(b"1) a\n2) b");
    match &doc.children[0] {
        Block::List { ordered, items, .. } => {
            assert!(*ordered);
            assert_eq!(items.len(), 2);
        },
        other => panic!("expected a list, got {:?}", other),
    }
}

#[test]
fn unmatched_backticks_stay_literal() {
    assert_eq!(tokenize_inlines(b"``open"), vec![Inline::Text(b"``open".to_vec())]);
}

#[test]
fn mixed_delimiters_do_not_close_each_other() {
    let spans = tokenize_inlines(b"*a_");
    assert_eq!(spans, vec![Inline::Text(b"*a_".to_vec())]);
}

#[test]
fn whole_document_parses_and_renders() {
    let text: &[u8] = b"# Title\n\nIntro *styled* text with `code` and https://zed.dev.\n\n\
* one\n* two\n  * deeper\n\n1. first\n2. second\n\n\
| a | b |\n| --- | --- |\n| 1 | 2 |\n\n\
```rust\nfn main() {}\n```\n\n> quoted words\n\n---\n\nThe end.";
    let doc = parse_markdown(text);
    assert_eq!(doc.children.len(), 9);
    assert!(matches!(doc.children[0], Block::Heading { .. }));
    let mut cx = RenderContext::new(Some(b"https://zed.dev".to_vec()));
    let mut rendered = Vec::new();
    for child in &doc.children {
        rendered.push(render_markdown_block(child, &mut cx));
    }
    assert_eq!(rendered.len(), 9);
    assert!(matches!(rendered[8], RenderedBlock::Paragraph { .. }));
}
