use markdown_preview::ParseScheduler;
use markdown_preview::ParseStatus;
use markdown_preview::parse_markdown;

#[test]
fn status_moves_through_all_three_states() {
    let mut s = ParseScheduler::new();
    assert_eq!(s.status(), ParseStatus::NoContent);
    let g = s.request();
    assert_eq!(s.status(), ParseStatus::InProgress);
    let doc = parse_markdown(b"# done");
    let applied = s.deliver(g, doc);
    assert!(applied);
    assert_eq!(s.status(), ParseStatus::Complete);
    assert!(s.contents.is_some());
}

#[test]
fn stale_result_arriving_late_is_discarded() {
    let mut s = ParseScheduler::new();
    let ga = s.request();
    let gb = s.request();
    let doc_a = parse_markdown(b"from request A");
    let doc_b = parse_markdown(b"from request B");
    let expected = parse_markdown(b"from request B");

    // the first worker finishes after the second request was issued
    assert!(!s.deliver(ga, doc_a));
    assert_eq!(s.status(), ParseStatus::InProgress);
    assert!(s.deliver(gb, doc_b));
    assert_eq!(s.contents, Some(expected));
}

#[test]
fn newest_result_is_kept_when_it_arrives_first() {
    let mut s = ParseScheduler::new();
    let ga = s.request();
    let gb = s.request();
    let doc_a = parse_markdown(b"from request A");
    let doc_b = parse_markdown(b"from request B");
    let expected = parse_markdown(b"from request B");

    // the second worker finishes first; the first result comes too late
    assert!(s.deliver(gb, doc_b));
    assert_eq!(s.status(), ParseStatus::Complete);
    assert!(!s.deliver(ga, doc_a));
    assert_eq!(s.contents, Some(expected));
}

#[test]
fn unrequested_generation_changes_nothing() {
    let mut s = ParseScheduler::new();
    let doc = parse_markdown(b"text");
    assert!(!s.deliver(7, doc));
    assert_eq!(s.status(), ParseStatus::NoContent);
    assert_eq!(s.contents, None);
}

#[test]
fn generations_are_handed_out_in_order() {
    let mut s = ParseScheduler::new();
    assert_eq!(s.request(), 0);
    assert_eq!(s.request(), 1);
    assert_eq!(s.request(), 2);
}
