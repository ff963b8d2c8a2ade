use pii_vault::analyzer::Analyzer;
use pii_vault::clock::format_utc;
use pii_vault::entity::{EntityType, RecognizerResult};

fn r(entity: &str, start: usize, end: usize, score: u64) -> RecognizerResult {
    RecognizerResult {
        entity_type: EntityType::new(entity),
        start,
        end,
        score,
        recognizer_name: None,
    }
}

fn spans(rs: &[RecognizerResult]) -> Vec<(usize, usize, u64)> {
    rs.iter().map(|x| (x.start, x.end, x.score)).collect()
}

#[test]
fn resolve_overlaps_drops_contained_lower_scores() {
    let out = Analyzer::resolve_overlaps(vec![r("A", 0, 10, 5), r("B", 2, 5, 3), r("C", 20, 25, 1)]);
    assert_eq!(spans(&out), vec![(0, 10, 5), (20, 25, 1)]);
}

#[test]
fn resolve_overlaps_keeps_contained_higher_score() {
    let out = Analyzer::resolve_overlaps(vec![r("A", 0, 10, 5), r("B", 2, 5, 7)]);
    assert_eq!(spans(&out), vec![(0, 10, 5), (2, 5, 7)]);
}

#[test]
fn resolve_overlaps_later_result_removes_dominated() {
    let out = Analyzer::resolve_overlaps(vec![r("B", 2, 5, 3), r("A", 0, 10, 5)]);
    assert_eq!(spans(&out), vec![(0, 10, 5)]);
}

#[test]
fn resolve_overlaps_keeps_partial_overlaps_sorted_by_start() {
    let out = Analyzer::resolve_overlaps(vec![r("B", 5, 15, 3), r("A", 0, 10, 5)]);
    assert_eq!(spans(&out), vec![(0, 10, 5), (5, 15, 3)]);
}

#[test]
fn resolve_overlaps_equal_duplicates_keep_first() {
    let out = Analyzer::resolve_overlaps(vec![r("A", 0, 4, 2), r("B", 0, 4, 2)]);
    assert_eq!(out.len(), 1);
    assert_eq!(out[0].entity_type.as_str(), "A");
}

#[test]
fn rank_results_filters_sorts_and_resolves() {
    let res = Analyzer::rank_results(
        vec![r("LOW", 0, 3, 1), r("B", 4, 8, 6), r("A", 4, 12, 5), r("C", 0, 2, 9)],
        5,
    );
    // LOW is under the threshold; at start 4 the higher score comes first, so B
    // is kept and A (which B does not dominate) is kept too.
    assert_eq!(spans(&res.entities), vec![(0, 2, 9), (4, 8, 6), (4, 12, 5)]);
}

#[test]
fn rank_results_higher_score_first_at_equal_start() {
    let res = Analyzer::rank_results(vec![r("A", 0, 10, 3), r("B", 0, 10, 8)], 0);
    assert_eq!(res.entities.len(), 1);
    assert_eq!(res.entities[0].entity_type.as_str(), "B");
}

#[test]
fn rank_results_empty() {
    assert!(Analyzer::rank_results(vec![], 0).entities.is_empty());
}

#[test]
fn analyzer_without_recognizers() {
    let a = Analyzer::new(vec![]);
    assert_eq!(a.recognizer_count(), 0);
    assert!(a.analyze("alice@example.com", &[], 0).entities.is_empty());
}

#[test]
fn entity_type_is_uppercased() {
    assert_eq!(EntityType::new("email_address").as_str(), "EMAIL_ADDRESS");
    assert_eq!(EntityType::new("straße").as_str(), "STRASSE");
}

#[test]
fn result_text_and_overlap() {
    let a = r("A", 6, 11, 1);
    let b = r("B", 10, 12, 1);
    let c = r("C", 11, 12, 1);
    assert_eq!(a.text("hello world!"), "world");
    assert!(a.overlaps(&b));
    assert!(!a.overlaps(&c));
}

#[test]
fn format_utc_epoch_and_known_dates() {
    assert_eq!(format_utc(0), "1970-01-01T00:00:00Z");
    assert_eq!(format_utc(951782400), "2000-02-29T00:00:00Z");
    assert_eq!(format_utc(1700000000), "2023-11-14T22:13:20Z");
}
