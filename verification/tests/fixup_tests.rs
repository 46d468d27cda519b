use guitar_tab::errors::{BackendErrorKind, DiagnosticKind, ErrorLocation};
use guitar_tab::fixup::{run_fixup, LocationTracker};

fn to_lines(s: &str) -> Vec<Vec<u8>> {
    s.lines().map(|l| l.bytes().collect()).collect()
}

#[test]
fn fixup_appends_a_missing_barline() {
    let input = r#"e|--1-2-|
B|--1-2-
G|------|
D|------|
A|------|
E|------|"#;
    let r = run_fixup(to_lines(input));
    assert!(r.err.is_none(), "{:?}", r.err);
    assert_eq!(r.diagnostics.len(), 1);
    assert_eq!(r.diagnostics[0].kind, DiagnosticKind::FormatAddedBarline);
    assert_eq!(r.corrected[1].as_slice(), b"B|--1-2-|");
}

#[test]
fn fixup_replaces_an_invalid_character() {
    let input = r#"e|--q-2-|
B|------|
G|------|
D|------|
A|------|
E|------|"#;
    let r = run_fixup(to_lines(input));
    assert!(r.err.is_none(), "{:?}", r.err);
    assert_eq!(r.diagnostics.len(), 1);
    assert_eq!(r.diagnostics[0].kind, DiagnosticKind::FormatReplacedInvalid);
    assert_eq!(r.corrected[0].as_slice(), b"e|----2-|");
}

#[test]
fn fixup_appends_a_barline_on_the_first_line() {
    let input = r#"e|--1-2-
B|------|
G|------|
D|------|
A|------|
E|------|"#;
    let r = run_fixup(to_lines(input));
    assert!(r.err.is_none(), "{:?}", r.err);
    assert_eq!(r.diagnostics.len(), 1);
    assert_eq!(r.diagnostics[0].kind, DiagnosticKind::FormatAddedBarline);
    assert_eq!(r.corrected[0].as_slice(), b"e|--1-2-|");
}

#[test]
fn fixup_leaves_a_clean_score_alone() {
    let input = r#"e|--1-2-|
B|------|
G|------|
D|------|
A|------|
E|------|"#;
    let r = run_fixup(to_lines(input));
    assert!(r.err.is_none());
    assert!(r.diagnostics.is_empty());
    assert_eq!(r.corrected, to_lines(input));
}

#[test]
fn fixup_stalls_after_exactly_five_identical_locations() {
    // no correction exists for an invalid string name, so the identical
    // error recurs until the five-slot history fills
    let input = r#"1|----|
B|----|
G|----|
D|----|
A|----|
E|----|"#;
    let r = run_fixup(to_lines(input));
    let err = r.err.expect("the driver cannot make progress");
    assert!(matches!(err.kind, BackendErrorKind::FixupFailed));
    assert_eq!(err.main_location, ErrorLocation::LineOnly(0));
    assert!(r.diagnostics.is_empty());
}

#[test]
fn tracker_reports_a_stall_only_at_five_identical_entries() {
    let mut t = LocationTracker::new();
    let l = ErrorLocation::LineAndChar(3, 7);
    for i in 0..5 {
        assert!(!t.is_same(), "no stall before the fifth entry (i = {i})");
        t.add(l);
    }
    assert!(t.is_same(), "five identical entries are a stall");
    // a different location interrupts the run of identical ones
    t.add(ErrorLocation::LineOnly(2));
    assert!(!t.is_same());
}

#[test]
fn tracker_needs_identical_locations_not_just_count() {
    let mut t = LocationTracker::new();
    for i in 0..7 {
        t.add(ErrorLocation::LineOnly(i));
    }
    assert!(!t.is_same());
}
