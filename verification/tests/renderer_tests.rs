use markdown_preview::Alignment;
use markdown_preview::Block;
use markdown_preview::RenderContext;
use markdown_preview::RenderedBlock;
use markdown_preview::SourceRange;
use markdown_preview::TextRun;
use markdown_preview::parse_markdown;
use markdown_preview::render_markdown_block;

fn runs_concat(runs: &[TextRun]) -> Vec<u8> {
    let mut out = Vec::new();
    for r in runs {
        out.extend_from_slice(&r.text);
    }
    out
}

#[test]
fn ordered_markers_count_one_two_three() {
    let doc = parse_markdown(b"1. a\n2. b\n3. c");
    let mut cx = RenderContext::new(None);
    match render_markdown_block(&doc.children[0], &mut cx) {
        RenderedBlock::List { items } => {
            assert_eq!(items.len(), 3);
            assert_eq!(items[0].marker, b"1.".to_vec());
            assert_eq!(items[1].marker, b"2.".to_vec());
            assert_eq!(items[2].marker, b"3.".to_vec());
        },
        other => panic!("expected a rendered list, got {:?}", other),
    }
}

#[test]
fn ordered_markers_ignore_literal_source_numbers() {
    let doc = parse_markdown(b"1. a\n7. b\n100. c");
    let mut cx = RenderContext::new(None);
    match render_markdown_block(&doc.children[0], &mut cx) {
        RenderedBlock::List { items } => {
            assert_eq!(items[0].marker, b"1.".to_vec());
            assert_eq!(items[1].marker, b"2.".to_vec());
            assert_eq!(items[2].marker, b"3.".to_vec());
        },
        other => panic!("expected a rendered list, got {:?}", other),
    }
}

#[test]
fn nested_list_restarts_numbering_and_deepens() {
    let doc = parse_markdown(b"1. a\n   1. x\n   2. y");
    let mut cx = RenderContext::new(None);
    match render_markdown_block(&doc.children[0], &mut cx) {
        RenderedBlock::List { items } => {
            assert_eq!(items[0].marker, b"1.".to_vec());
            assert_eq!(items[0].depth, 0);
            match &items[0].blocks[1] {
                RenderedBlock::List { items: inner } => {
                    assert_eq!(inner[0].marker, b"1.".to_vec());
                    assert_eq!(inner[1].marker, b"2.".to_vec());
                    assert_eq!(inner[0].depth, 1);
                },
                other => panic!("expected a nested rendered list, got {:?}", other),
            }
        },
        other => panic!("expected a rendered list, got {:?}", other),
    }
}

#[test]
fn unordered_markers_are_bullets() {
    let doc = parse_markdown(b"* one\n* two");
    let mut cx = RenderContext::new(None);
    match render_markdown_block(&doc.children[0], &mut cx) {
        RenderedBlock::List { items } => {
            assert_eq!(items[0].marker, b"-".to_vec());
            assert_eq!(items[1].marker, b"-".to_vec());
        },
        other => panic!("expected a rendered list, got {:?}", other),
    }
}

#[test]
fn heading_runs_keep_plain_text_and_style() {
    let doc = parse_markdown(b"# Hello *world*");
    let mut cx = RenderContext::new(None);
    match render_markdown_block(&doc.children[0], &mut cx) {
        RenderedBlock::Heading { level, runs } => {
            assert_eq!(level, 1);
            assert_eq!(runs_concat(&runs), b"Hello world".to_vec());
            assert!(!runs[0].italic);
            assert!(runs[1].italic);
        },
        other => panic!("expected a rendered heading, got {:?}", other),
    }
}

#[test]
fn soft_break_renders_as_whitespace() {
    let doc = parse_markdown(b"first\nsecond");
    let mut cx = RenderContext::new(None);
    match render_markdown_block(&doc.children[0], &mut cx) {
        RenderedBlock::Paragraph { runs } => {
            assert_eq!(runs_concat(&runs), b"first second".to_vec());
        },
        other => panic!("expected a rendered paragraph, got {:?}", other),
    }
}

#[test]
fn hard_break_keeps_its_flag_and_no_text() {
    let doc = parse_markdown(b"a  \nb");
    let mut cx = RenderContext::new(None);
    match render_markdown_block(&doc.children[0], &mut cx) {
        RenderedBlock::Paragraph { runs } => {
            assert_eq!(runs_concat(&runs), b"ab".to_vec());
            assert!(runs.iter().any(|r| r.hard_break));
        },
        other => panic!("expected a rendered paragraph, got {:?}", other),
    }
}

#[test]
fn relative_link_resolves_against_base_url() {
    let doc = parse_markdown(b"[docs](/docs)");
    let mut cx = RenderContext::new(Some(b"https://zed.dev".to_vec()));
    match render_markdown_block(&doc.children[0], &mut cx) {
        RenderedBlock::Paragraph { runs } => {
            assert_eq!(runs[0].link_url.as_deref(), Some(b"https://zed.dev/docs".as_slice()));
            assert_eq!(runs_concat(&runs), b"docs".to_vec());
        },
        other => panic!("expected a rendered paragraph, got {:?}", other),
    }
}

#[test]
fn absolute_link_is_left_alone() {
    let doc = parse_markdown(b"[z](https://zed.dev)");
    let mut cx = RenderContext::new(Some(b"https://other.example".to_vec()));
    match render_markdown_block(&doc.children[0], &mut cx) {
        RenderedBlock::Paragraph { runs } => {
            assert_eq!(runs[0].link_url.as_deref(), Some(b"https://zed.dev".as_slice()));
        },
        other => panic!("expected a rendered paragraph, got {:?}", other),
    }
}

#[test]
fn code_span_run_is_marked_code() {
    let doc = parse_markdown(b"inline `code` here");
    let mut cx = RenderContext::new(None);
    match render_markdown_block(&doc.children[0], &mut cx) {
        RenderedBlock::Paragraph { runs } => {
            assert_eq!(runs_concat(&runs), b"inline code here".to_vec());
            assert!(runs.iter().any(|r| r.code && r.text == b"code".to_vec()));
        },
        other => panic!("expected a rendered paragraph, got {:?}", other),
    }
}

#[test]
fn table_renders_alignments_and_cells() {
    let doc = parse_markdown(b"| h1 | h2 |\n| :--- | ---: |\n| v1 | v2 |");
    let mut cx = RenderContext::new(None);
    match render_markdown_block(&doc.children[0], &mut cx) {
        RenderedBlock::Table { alignments, header, rows } => {
            assert_eq!(alignments, vec![Alignment::Left, Alignment::Right]);
            assert_eq!(runs_concat(&header[0]), b"h1".to_vec());
            assert_eq!(runs_concat(&header[1]), b"h2".to_vec());
            assert_eq!(rows.len(), 1);
            assert_eq!(runs_concat(&rows[0][0]), b"v1".to_vec());
            assert_eq!(runs_concat(&rows[0][1]), b"v2".to_vec());
        },
        other => panic!("expected a rendered table, got {:?}", other),
    }
}

#[test]
fn code_block_and_rule_and_quote_render() {
    let doc = parse_markdown(b"```js\nx\n```\n\n---\n\n> quoted");
    let mut cx = RenderContext::new(None);
    match render_markdown_block(&doc.children[0], &mut cx) {
        RenderedBlock::Code { language, text } => {
            assert_eq!(language.as_deref(), Some(b"js".as_slice()));
            assert_eq!(text, b"x".to_vec());
        },
        other => panic!("expected rendered code, got {:?}", other),
    }
    assert!(matches!(render_markdown_block(&doc.children[1], &mut cx), RenderedBlock::Rule));
    match render_markdown_block(&doc.children[2], &mut cx) {
        RenderedBlock::Quote { children } => {
            assert!(matches!(children[0], RenderedBlock::Paragraph { .. }));
        },
        other => panic!("expected a rendered quote, got {:?}", other),
    }
}

#[test]
fn raw_fallback_keeps_text_verbatim() {
    let block = Block::Raw {
        text: b"anything at all".to_vec(),
        range: SourceRange { start: 0, end: 1 },
    };
    let mut cx = RenderContext::new(None);
    match render_markdown_block(&block, &mut cx) {
        RenderedBlock::Raw { text } => assert_eq!(text, b"anything at all".to_vec()),
        other => panic!("expected rendered raw text, got {:?}", other),
    }
}

#[test]
fn language_registry_recognizes_known_tags() {
    let doc = parse_markdown(b"```javascript\ncode\n```");
    let registry = vec![b"rust".to_vec(), b"javascript".to_vec()];
    match &doc.children[0] {
        Block::CodeBlock { language, .. } => {
            assert!(markdown_preview::markdown_renderer::language_recognized(
                language, &registry,
            ));
            let empty: Option<Vec<u8>> = None;
            assert!(!markdown_preview::markdown_renderer::language_recognized(
                &empty, &registry,
            ));
            assert!(!markdown_preview::markdown_renderer::language_recognized(
                &Some(b"cobol".to_vec()),
                &registry,
            ));
        },
        other => panic!("expected a code block, got {:?}", other),
    }
}

#[test]
fn image_alt_text_is_the_plain_text() {
    let doc = parse_markdown(b"![badge](https://example.org/b.svg)");
    let mut cx = RenderContext::new(None);
    match render_markdown_block(&doc.children[0], &mut cx) {
        RenderedBlock::Paragraph { runs } => {
            assert_eq!(runs_concat(&runs), b"badge".to_vec());
            assert_eq!(
                runs[0].link_url.as_deref(),
                Some(b"https://example.org/b.svg".as_slice()),
            );
        },
        other => panic!("expected a rendered paragraph, got {:?}", other),
    }
}
