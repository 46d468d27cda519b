use guitar_tab::errors::{BackendErrorKind, DiagnosticKind, ErrorLocation};
use guitar_tab::parser::parse;
use guitar_tab::parser2::Parser2;
use guitar_tab::tab::{Section, TabElement};

fn to_lines(s: &str) -> Vec<Vec<u8>> {
    s.lines().map(|l| l.bytes().collect()).collect()
}

#[test]
fn test_parse2() {
    let parser = Parser2::default();
    let i1 = r#"
e|---|
B|-3-|
G|6-6|
D|---|
A|---|
E|---|

// This is a comment

e|---|
B|3-3|
G|-6-|
D|---|
A|---|
E|---|"#;
    let r1 = parser.parse(&to_lines(i1)).expect("first input parses");
    assert_eq!(r1.sections.len(), 3);
    assert!(matches!(r1.sections[0], Section::Part { .. }));
    assert!(matches!(r1.sections[1], Section::Comment(_)));
    assert!(matches!(r1.sections[2], Section::Part { .. }));
    if let Section::Comment(c) = &r1.sections[1] {
        assert_eq!(c.as_slice(), b" This is a comment");
    }
    assert_eq!(r1.string_names, b"eBGDAE".to_vec());
    for k in 0..6 {
        assert_eq!(r1.strings[k].len(), 6);
        assert_eq!(r1.measures[k].len(), 2);
    }
    assert_eq!(r1.strings[1][1].element, TabElement::Fret(3));
    assert_eq!(r1.strings[2][0].element, TabElement::Fret(6));

    let i2 = r#"
e|---|
B|-3-|
G|6-6|
D|---|
A|-o-|
E|---|

// This is a comment

e|---|
B|3-3|
G|-6-|
D|---|
A|---|
E|---|"#;
    let r2 = parser.parse(&to_lines(i2));
    let err = r2.expect_err("the 'o' is not a tab element");
    assert!(matches!(err.kind, BackendErrorKind::InvalidPartlineSyntax(_)));
    assert_eq!(err.main_location, ErrorLocation::LineOnly(5));

    let i3 = r#"
e|-------------12---------------------|
B|-------------3---0--------------3---|
G|---------0-2-------2-0--------------|
D|---0-2-3---------------3-2-0--------|
A|-3---------------------------3------|
E|------------------------------------|"#;
    let r3 = parser.parse(&to_lines(i3)).expect("two-digit fret absorbs rests");
    for k in 0..6 {
        assert_eq!(r3.strings[k].len(), 35, "every track aligns to 35 ticks");
    }
    assert_eq!(r3.strings[0][13].element, TabElement::Fret(12));

    let i4 = r#"
e|-------------12---------------------|
B|-------------3---0--------------3---|
G|---------0-2-------2-0--------------|
D|---0-2-3---------------3-2-0--------|
A|-3---------------------------3------|
E|0-----------------------------------|"#;
    let r4 = parser.parse(&to_lines(i4)).expect("fourth input parses");
    for k in 0..6 {
        assert_eq!(r4.strings[k].len(), 35);
    }
}

#[test]
fn test_parse3() {
    let example_score = r#"
e|--12-12|--12-12|--12-12|
B|3------|3------|3----11|
G|-6-3-3-|-6-3-3-|-6-3-11|
D|-------|-------|-----11|
A|-------|-------|-----11|
E|-----9-|-----9-|-----11|

// This is a comment!

e|--12-12|--12-12|
B|3------|3------|
G|-6-3-3-|-6-3-3-|
D|-------|-------|
A|-------|-------|
E|-----9-|-----9-|
"#;
    let lines = to_lines(example_score);
    let r = parse(&lines);
    // the third measure aligns two-digit frets on every string: a fatal
    // ambiguity at the tick where 12 and the 11s coincide
    let err = r.error.clone().expect("two tracks hold a wide fret at one tick");
    assert!(matches!(err.kind, BackendErrorKind::BothSlotsMultichar(1)));
    // two measures of the first part were already complete
    assert_eq!(r.tick_stream.len(), 90);
    assert_eq!(r.measures.len(), 2);
    assert_eq!(r.base_notes, b"eBGDAE".to_vec());
    assert_eq!(r.offsets, vec![(1, 0)]);
    assert_eq!(r.measures[0].data_range.start, 0);
    assert_eq!(r.measures[0].data_range.end, 30);
    assert_eq!(r.measures[1].data_range.start, 30);
    assert_eq!(r.measures[1].data_range.end, 60);
    // the first string of the first measure after multichar repair
    assert_eq!(r.tick_stream[0], TabElement::Rest);
    assert_eq!(r.tick_stream[6], TabElement::Rest);
    assert_eq!(r.tick_stream[12], TabElement::Fret(12));
    assert_eq!(r.tick_stream[18], TabElement::Rest);
    assert_eq!(r.tick_stream[24], TabElement::Fret(12));
    // all six printed lines align to the same width
    let dump = r.dump_tracks();
    let text_lines: Vec<&[u8]> = dump.split(|b| *b == b'\n').filter(|l| !l.is_empty()).collect();
    assert_eq!(text_lines.len(), 6);
    for l in &text_lines {
        assert_eq!(l.len(), text_lines[0].len());
    }
    assert_eq!(&text_lines[0][0..7], b"--12-12");
}

#[test]
fn six_lines_of_seven_columns_absorb_the_two_digit_frets() {
    // the two-digit 12s absorb the adjacent rests on every other track
    let input = r#"e|--12-12|
B|3------|
G|-6-3-3-|
D|-------|
A|-------|
E|-----9-|"#;
    let r = parse(&to_lines(input));
    assert!(r.error.is_none(), "{:?}", r.error);
    assert_eq!(r.tick_stream.len(), 30);
    let e_track: Vec<TabElement> = (0..5).map(|t| r.tick_stream[6 * t]).collect();
    assert_eq!(
        e_track,
        vec![
            TabElement::Rest,
            TabElement::Rest,
            TabElement::Fret(12),
            TabElement::Rest,
            TabElement::Fret(12),
        ]
    );
}

#[test]
fn invalid_character_is_located_at_its_exact_column() {
    let input = r#"e|--q-2-|
B|------|
G|------|
D|------|
A|------|
E|------|"#;
    let r = parse(&to_lines(input));
    let err = r.error.expect("the q is unscannable");
    assert!(matches!(err.kind, BackendErrorKind::InvalidCharacter(b'q')));
    assert_eq!(err.main_location, ErrorLocation::LineAndChar(0, 4));
}

#[test]
fn missing_closing_barline_on_the_first_line_is_reported() {
    // the window that finds a part does not require the trailing
    // separator, so the prelude reports the missing barline instead of
    // the part being skipped
    let input = r#"e|--1-2-
B|------|
G|------|
D|------|
A|------|
E|------|"#;
    let r = parse(&to_lines(input));
    let err = r.error.expect("the e line has no closing barline");
    assert!(matches!(err.kind, BackendErrorKind::NoClosingBarline));
    assert_eq!(err.main_location, ErrorLocation::LineOnly(0));
}

#[test]
fn aligned_two_digit_frets_on_two_tracks_are_rejected() {
    let input = r#"e|--12--|
B|--34--|
G|------|
D|------|
A|------|
E|------|"#;
    let r = parse(&to_lines(input));
    let err = r.error.expect("both tracks scan a wide fret at one tick");
    assert!(matches!(err.kind, BackendErrorKind::BothSlotsMultichar(0)));
}

#[test]
fn unequal_tick_counts_are_an_irreconcilable_mismatch() {
    let parser = Parser2::default();
    let input = "e|---|\nB|----|\nG|----|\nD|----|\nA|----|\nE|----|";
    let err = parser.parse(&to_lines(input)).expect_err("three ticks against four");
    assert!(matches!(err.kind, BackendErrorKind::BadMulticharTick { .. }));
}

#[test]
fn absorbing_across_a_measure_boundary_keeps_the_partition() {
    let parser = Parser2::default();
    let input = "e|---|12-|\nB|---|3x-|\nG|---|---|\nD|---|---|\nA|---|---|\nE|---|---|";
    let r = parser.parse(&to_lines(input)).expect("the boundary rest absorbs");
    for k in 0..6 {
        assert_eq!(r.strings[k].len(), 5, "track {k} aligns to five ticks");
        // the two measures of each track partition its five ticks
        assert_eq!(r.measures[k][0].content.start, 0);
        assert_eq!(r.measures[k][0].content.end, r.measures[k][1].content.start);
        assert_eq!(r.measures[k][1].content.end, 5);
    }
    // the B track absorbed the rest that closed its first measure
    assert_eq!(r.measures[1][0].content.end, 2);
}

#[test]
fn missing_closing_barline_is_reported_on_its_line() {
    let input = r#"e|--1-2-|
B|--1-2-
G|------|
D|------|
A|------|
E|------|"#;
    let r = parse(&to_lines(input));
    let err = r.error.expect("the B line has no closing barline");
    assert!(matches!(err.kind, BackendErrorKind::NoClosingBarline));
    assert_eq!(err.main_location, ErrorLocation::LineOnly(1));
}

#[test]
fn two_simultaneous_multichar_frets_are_rejected() {
    let input = r#"e|--12--|
B|---34-|
G|------|
D|------|
A|------|
E|------|"#;
    let r = parse(&to_lines(input));
    let err = r.error.expect("both slots hold a two-digit fret");
    assert!(matches!(err.kind, BackendErrorKind::BothSlotsMultichar(_)));
}

#[test]
fn a_note_with_no_adjacent_rest_cannot_absorb() {
    let input = r#"e|--12--|
B|3x5x9x|
G|------|
D|------|
A|------|
E|------|"#;
    let r = parse(&to_lines(input));
    let err = r.error.expect("the B track has nothing to absorb");
    assert!(matches!(err.kind, BackendErrorKind::MultiBothSlotsFilled));
}

#[test]
fn invalid_string_name_is_rejected() {
    let input = r#"1|----|
B|----|
G|----|
D|----|
A|----|
E|----|"#;
    let r = parse(&to_lines(input));
    let err = r.error.expect("a digit is not a string name");
    assert!(matches!(err.kind, BackendErrorKind::InvalidStringName));
    assert_eq!(err.main_location, ErrorLocation::LineOnly(0));
}

#[test]
fn blank_line_inside_a_part_is_diagnosed() {
    let parser = Parser2::default();
    let input = "e|--|\nB|--|\n\nG|--|\nD|--|\nA|--|\nE|--|";
    let r = parser.parse(&to_lines(input)).expect("blank lines do not fail the parse");
    assert_eq!(r.diagnostics.len(), 1);
    assert_eq!(r.diagnostics[0].kind, DiagnosticKind::EmptyLineInPart);
}

#[test]
fn comment_inside_a_part_is_diagnosed() {
    let parser = Parser2::default();
    let input = "e|--|\nB|--|\n//note\nG|--|\nD|--|\nA|--|\nE|--|";
    let r = parser.parse(&to_lines(input)).expect("comments do not fail the parse");
    assert_eq!(r.diagnostics.len(), 1);
    assert_eq!(r.diagnostics[0].kind, DiagnosticKind::CommentInPart);
    assert!(matches!(&r.sections[0], Section::Comment(c) if c.as_slice() == b"note"));
}
