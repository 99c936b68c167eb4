use chain_emulator::channel::ChainId;
use chain_emulator::event::{EventLogEntry, EventPattern, FieldCheck, check_events};

fn entry(tag: u64, attr: u64) -> EventLogEntry {
    EventLogEntry { chain: ChainId::Para(1), round: 1, tag, attrs: vec![attr] }
}

fn pattern(tag: u64, attr: u64) -> EventPattern {
    EventPattern { tag, checks: vec![FieldCheck { index: 0, expected: attr }] }
}

#[test]
fn ordered_subsequence_matches_with_interleaving() {
    let log = vec![entry(9, 0), entry(1, 5), entry(9, 0), entry(2, 6), entry(9, 0)];
    let pats = vec![pattern(1, 5), pattern(2, 6)];
    assert!(check_events(&log, 0, &pats).is_ok());
}

#[test]
fn out_of_order_patterns_fail() {
    // Y stands before X: expecting [X, Y] must fail although both occur.
    let log = vec![entry(2, 6), entry(1, 5)];
    let pats = vec![pattern(1, 5), pattern(2, 6)];
    let failure = check_events(&log, 0, &pats).unwrap_err();
    assert_eq!(failure.expected_pattern_index, 1);
}

#[test]
fn field_predicate_mismatch_fails_with_observed_log() {
    let log = vec![entry(1, 7)];
    let pats = vec![pattern(1, 5)];
    let failure = check_events(&log, 0, &pats).unwrap_err();
    assert_eq!(failure.expected_pattern_index, 0);
    assert_eq!(failure.observed, log);
}

#[test]
fn field_index_out_of_range_never_matches() {
    let log = vec![entry(1, 5)];
    let pats = vec![EventPattern { tag: 1, checks: vec![FieldCheck { index: 3, expected: 5 }] }];
    assert!(check_events(&log, 0, &pats).is_err());
}

#[test]
fn empty_pattern_list_matches_any_log() {
    let log = vec![entry(1, 5)];
    let pats: Vec<EventPattern> = Vec::new();
    assert!(check_events(&log, 0, &pats).is_ok());
    let empty: Vec<EventLogEntry> = Vec::new();
    assert!(check_events(&empty, 0, &pats).is_ok());
}

#[test]
fn scan_starts_at_the_given_cursor() {
    let log = vec![entry(1, 5), entry(2, 6)];
    let pats = vec![pattern(1, 5)];
    assert!(check_events(&log, 0, &pats).is_ok());
    let failure = check_events(&log, 1, &pats).unwrap_err();
    assert_eq!(failure.expected_pattern_index, 0);
    assert_eq!(failure.observed.len(), 1);
}
