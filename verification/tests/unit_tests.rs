use guitar_tab::backend::{BackendResult, BackendSelector};
use guitar_tab::errors::{BackendError, BackendErrorKind, Diagnostic, DiagnosticKind, ErrorLocation, Severity};
use guitar_tab::fixup::FixupBackendSettings;
use guitar_tab::format::FormatBackend;
use guitar_tab::midi::{gen_note_events, raw_tracks_to_midi, MidiEvent, MidiEventKind, LENGTH_OF_EIGHT};
use guitar_tab::muxml::{get_fretboard_note2, MuxmlNote2, Settings};
use guitar_tab::parser::{line_is_valid, source_location_from_stream, source_location_while_parsing, parse, trim};
use guitar_tab::tab::{elem_width, partline, push_elem_repr, string_name, tab_element, Measure, Partline, RawTick, TabElement};
use guitar_tab::{rcontains, ricontains, rlen, IdxRange, IdxRangeIncl};

#[test]
fn scanner_recognizes_each_element() {
    let s = b"-x12q";
    assert_eq!(tab_element(s, 0), Some((TabElement::Rest, 1)));
    assert_eq!(tab_element(s, 1), Some((TabElement::DeadNote, 2)));
    assert_eq!(tab_element(s, 2), Some((TabElement::Fret(12), 4)));
    assert_eq!(tab_element(s, 4), None);
    assert_eq!(tab_element(s, 5), None);
}

#[test]
fn scanner_takes_digit_runs_of_any_practical_size() {
    assert_eq!(tab_element(b"256", 0), Some((TabElement::Fret(256), 3)));
    assert_eq!(tab_element(b"999", 0), Some((TabElement::Fret(999), 3)));
    assert_eq!(tab_element(b"007", 0), Some((TabElement::Fret(7), 3)));
    assert_eq!(
        tab_element(b"18446744073709551615", 0),
        Some((TabElement::Fret(u64::MAX), 20)),
    );
    // only a run past the fret representation fails the scan
    assert_eq!(tab_element(b"99999999999999999999", 0), None);
}

#[test]
fn string_name_takes_one_letter() {
    assert_eq!(string_name(b"e|--|"), Some(b'e'));
    assert_eq!(string_name(b"B|"), Some(b'B'));
    assert_eq!(string_name(b"1|--|"), None);
    assert_eq!(string_name(b""), None);
}

#[test]
fn elements_print_back_to_their_digits() {
    let mut out = Vec::new();
    push_elem_repr(&mut out, TabElement::Fret(7));
    push_elem_repr(&mut out, TabElement::Fret(12));
    push_elem_repr(&mut out, TabElement::Fret(255));
    push_elem_repr(&mut out, TabElement::Fret(1234567890));
    push_elem_repr(&mut out, TabElement::Rest);
    push_elem_repr(&mut out, TabElement::DeadNote);
    assert_eq!(out.as_slice(), b"7122551234567890-x");
    assert_eq!(elem_width(TabElement::Fret(7)), 1);
    assert_eq!(elem_width(TabElement::Fret(12)), 2);
    assert_eq!(elem_width(TabElement::Fret(255)), 3);
    assert_eq!(elem_width(TabElement::Fret(1234567890)), 10);
    assert_eq!(elem_width(TabElement::Rest), 1);
}

#[test]
fn ranges_measure_and_contain() {
    let r = IdxRangeIncl { start: 2, end: 5 };
    assert_eq!(rlen(&r), 4);
    assert!(ricontains(&r, 2) && ricontains(&r, 5) && !ricontains(&r, 6));
    let h = IdxRange { start: 2, end: 5 };
    assert!(rcontains(&h, 2) && rcontains(&h, 4) && !rcontains(&h, 5));
}

#[test]
fn measure_tracks_its_ticks() {
    let mut m = Measure {
        content: IdxRange { start: 3, end: 3 },
        parent_line: 0,
        index_on_parent_line: 1,
    };
    assert!(m.is_empty());
    m.extend_1();
    m.extend_1();
    assert_eq!(m.len(), 2);
    m.pop_1();
    assert_eq!(m.len(), 1);
    let buf = vec![
        RawTick { element: TabElement::Rest, idx_on_parent_line: 2, parent_line: 0 },
        RawTick { element: TabElement::Fret(3), idx_on_parent_line: 3, parent_line: 0 },
        RawTick { element: TabElement::Fret(12), idx_on_parent_line: 5, parent_line: 0 },
        RawTick { element: TabElement::DeadNote, idx_on_parent_line: 6, parent_line: 0 },
    ];
    let all = Measure {
        content: IdxRange { start: 0, end: 4 },
        parent_line: 0,
        index_on_parent_line: 1,
    };
    assert_eq!(all.get_content(&buf).len(), 4);
    assert_eq!(all.print_pretty_string(&buf).as_slice(), b"-312x");
    let pl = Partline { string_name: b'e', measures: IdxRange { start: 0, end: 1 } };
    assert_eq!(pl.len(), 1);
    assert!(!pl.is_empty());
    let line = FormatBackend::render_measure_line(&pl, &all, &buf);
    assert_eq!(line.as_slice(), b"e|-312x|\n");
}

#[test]
fn partline_fills_the_track_buffers() {
    let mut ticks = Vec::new();
    let mut measures = Vec::new();
    let mut offsets = Vec::new();
    let pl = partline(b"e|-3|12x|", 4, 100, &mut ticks, &mut measures, &mut offsets)
        .expect("a well-formed part line");
    assert_eq!(pl.string_name, b'e');
    assert_eq!(pl.measures, IdxRange { start: 0, end: 2 });
    assert_eq!(ticks.len(), 4);
    assert_eq!(ticks[1].element, TabElement::Fret(3));
    assert_eq!(ticks[2].element, TabElement::Fret(12));
    assert_eq!(measures.len(), 2);
    assert_eq!(measures[0].content, IdxRange { start: 0, end: 2 });
    assert_eq!(measures[1].content, IdxRange { start: 2, end: 4 });
    // each tick records its source offset: line start plus its column
    assert_eq!(offsets.len(), 4);
    assert_eq!(offsets[0], 102);
    assert_eq!(offsets[1], 103);
    assert_eq!(offsets[2], 106);

    let err = partline(b"e|--q|", 0, 0, &mut ticks, &mut measures, &mut offsets);
    assert_eq!(err.expect_err("q stops the scan"), 4);

    // a line with nothing after its prelude has no measure at all
    let err2 = partline(b"e|", 0, 0, &mut ticks, &mut measures, &mut offsets);
    assert_eq!(err2.expect_err("the closing separator is missing"), 2);
}

#[test]
fn trim_and_line_validity() {
    assert_eq!(trim(b"  e|--|\t "), &b"e|--|"[..]);
    assert_eq!(trim(b"   "), &b""[..]);
    assert!(line_is_valid(b" e|--| "));
    assert!(line_is_valid(b"e||"));
    assert!(!line_is_valid(b"e|--"));
    assert!(!line_is_valid(b"|--|"));
    assert!(!line_is_valid(b""));
}

#[test]
fn forward_and_backward_locators_agree_at_an_error() {
    // build the partial state an invalid character leaves behind, and ask
    // both directions for the stalled coordinate
    let input = vec![
        b"e|--3-2-|".to_vec(),
        b"B|--q---|".to_vec(),
        b"G|------|".to_vec(),
        b"D|------|".to_vec(),
        b"A|------|".to_vec(),
        b"E|------|".to_vec(),
    ];
    let r = parse(&input);
    let err = r.error.clone().expect("the q fails the scan");
    match err.main_location {
        ErrorLocation::LineAndChar(line, ch) => {
            assert_eq!((line, ch), (1, 4));
            let fwd = source_location_while_parsing(&r, 0, 1);
            assert_eq!(fwd, (1, 4));
            let bwd = source_location_from_stream(&r, r.tick_stream.len());
            assert_eq!(bwd, (1, 4));
        }
        other => panic!("unexpected location {:?}", other),
    }
}

#[test]
fn fretboard_notes_and_their_octaves() {
    let n = get_fretboard_note2(b'e', 5).unwrap();
    assert_eq!(n, MuxmlNote2 { step: 69, dead: false });
    let (letter, octave, sharp) = n.step_octave_sharp();
    assert_eq!((letter, octave, sharp), ('A', 5, false));
    let n2 = guitar_tab::muxml2::get_fretboard_note2(b'E', 0).unwrap();
    assert_eq!(n2.step, 40);
    let (l2, o2, s2) = n2.step_octave_sharp();
    assert_eq!((l2, o2, s2), ('E', 3, false));
}

#[test]
fn midi_events_for_a_short_track() {
    assert_eq!(LENGTH_OF_EIGHT, 375);
    let (on, off) = gen_note_events(64, 42);
    assert_eq!(on, MidiEvent { delta: 42, kind: MidiEventKind::NoteOn { key: 64, vel: 100 } });
    assert_eq!(off, MidiEvent { delta: 375, kind: MidiEventKind::NoteOff { key: 64, vel: 100 } });

    let names = b"EADGBe".to_vec();
    let mut tracks: Vec<Vec<TabElement>> = vec![Vec::new(); 6];
    tracks[0] = vec![TabElement::Rest, TabElement::Fret(3), TabElement::DeadNote];
    let evs = raw_tracks_to_midi(&names, &tracks);
    assert_eq!(evs[0].len(), 3);
    assert_eq!(
        evs[0][0],
        MidiEvent { delta: 375, kind: MidiEventKind::NoteOn { key: 55, vel: 100 } },
    );
    assert_eq!(
        evs[0][1],
        MidiEvent { delta: 375, kind: MidiEventKind::NoteOff { key: 55, vel: 100 } },
    );
    assert_eq!(evs[0][2], MidiEvent { delta: 0, kind: MidiEventKind::EndOfTrack });
    for k in 1..6 {
        assert_eq!(evs[k].len(), 1);
    }
}

#[test]
fn backend_surface_carries_its_fields() {
    let d = Diagnostic::info(ErrorLocation::NoLocation, DiagnosticKind::FormatAddedBarline);
    assert_eq!(d.severity, Severity::Info);
    let w = Diagnostic::warn(ErrorLocation::LineOnly(3), DiagnosticKind::EmptyLineInPart);
    assert_eq!(w.severity, Severity::Warning);
    let e = BackendError::fixup_failed(
        ErrorLocation::SourceOffset(17),
        IdxRangeIncl { start: 1, end: 2 },
    );
    assert!(matches!(e.kind, BackendErrorKind::FixupFailed));
    let r = BackendResult::new(vec![d], Some(e), Some(10), None);
    assert_eq!(r.diagnostics.len(), 1);
    assert!(r.err.is_some());
    assert_eq!(r.timing_parse, Some(10));
    assert_eq!(r.timing_gen, None);
    let sel = BackendSelector::Muxml(Settings {
        remove_rest_between_notes: false,
        trim_measure: false,
        simplify_time_signature: true,
    });
    assert!(matches!(sel, BackendSelector::Muxml(_)));
    let fx = BackendSelector::Fixup(FixupBackendSettings { dump: None });
    assert!(matches!(fx, BackendSelector::Fixup(_)));
}
