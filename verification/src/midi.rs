//! The MIDI backend's computation: each track's elements become a plain
//! sequence of note events with running deltas; writing them into a MIDI
//! file is left to the output layer.

use vstd::prelude::*;

use crate::tab::TabElement;

verus! {

pub const BPM: u32 = 80;

pub const MINUTE_IN_MICROSECONDS: u32 = 60 * 1000;

pub const LENGTH_OF_QUARTER: u32 = MINUTE_IN_MICROSECONDS / BPM;

pub const LENGTH_OF_EIGHT: u32 = LENGTH_OF_QUARTER / 2;

/// The MIDI backend.
pub struct MidiBackend();

/// One track event, as plain values.
#[derive(Debug, Clone, Copy, PartialEq, Eq, Structural)]
pub enum MidiEventKind {
    NoteOn { key: u8, vel: u8 },
    NoteOff { key: u8, vel: u8 },
    EndOfTrack,
}

/// An event and the delta time before it.
#[derive(Debug, Clone, Copy, PartialEq, Eq, Structural)]
pub struct MidiEvent {
    pub delta: u32,
    pub kind: MidiEventKind,
}

/// The base key of each supported string name byte, for playback.
pub open spec fn midi_base(name: u8) -> Option<u8> {
    if name == 69 {
        Some(52u8)  // E
    } else if name == 65 {
        Some(57u8)  // A
    } else if name == 68 {
        Some(62u8)  // D
    } else if name == 71 {
        Some(67u8)  // G
    } else if name == 66 {
        Some(71u8)  // B
    } else if name == 100 {
        Some(74u8)  // d
    } else if name == 101 {
        Some(76u8)  // e
    } else {
        None
    }
}

/// Whether the playback table knows this string name.
pub fn midi_base_exists(name: u8) -> (b: bool)
    ensures
        b == midi_base(name) is Some,
{
    name == 69 || name == 65 || name == 68 || name == 71 || name == 66 || name == 100
        || name == 101
}

/// The note-on/note-off pair of one fretted note.
pub fn gen_note_events(key: u8, initial_delta: u32) -> (r: (MidiEvent, MidiEvent))
    ensures
        r.0 == (MidiEvent { delta: initial_delta, kind: MidiEventKind::NoteOn { key, vel: 100 } }),
        r.1 == (MidiEvent { delta: LENGTH_OF_EIGHT, kind: MidiEventKind::NoteOff { key, vel: 100 } }),
{
    let note_on = MidiEvent { delta: initial_delta, kind: MidiEventKind::NoteOn { key, vel: 100 } };
    let note_off = MidiEvent {
        delta: LENGTH_OF_EIGHT,
        kind: MidiEventKind::NoteOff { key, vel: 100 },
    };
    (note_on, note_off)
}

/// The events of one track: every fret sounds for an eighth, rests extend
/// the delta before the next note, dead notes are purely cosmetic, and
/// the track ends with an end-of-track event.
pub open spec fn track_events(elems: Seq<TabElement>, base: u8, delta: int) -> Seq<MidiEvent>
    decreases elems.len()
{
    if elems.len() == 0 {
        seq![MidiEvent { delta: 0, kind: MidiEventKind::EndOfTrack }]
    } else {
        match elems[0] {
            TabElement::Fret(f) => seq![
                MidiEvent {
                    delta: delta as u32,
                    kind: MidiEventKind::NoteOn { key: (base + f) as u8, vel: 100 },
                },
                MidiEvent {
                    delta: LENGTH_OF_EIGHT,
                    kind: MidiEventKind::NoteOff { key: (base + f) as u8, vel: 100 },
                },
            ] + track_events(elems.drop_first(), base, 0),
            TabElement::Rest => track_events(elems.drop_first(), base, delta + LENGTH_OF_EIGHT),
            TabElement::DeadNote => track_events(elems.drop_first(), base, delta),
        }
    }
}

/// Turn six named tracks of elements into six tracks of MIDI events.
pub fn raw_tracks_to_midi(string_names: &Vec<u8>, tracks: &Vec<Vec<TabElement>>) -> (r: Vec<
    Vec<MidiEvent>,
>)
    requires
        string_names@.len() == 6,
        tracks@.len() == 6,
        forall|i: int| 0 <= i < 6 ==> midi_base(string_names@[i]) is Some,
        forall|i: int, j: int| 0 <= i < 6 && 0 <= j < tracks@[i]@.len()
            ==> ((#[trigger] tracks@[i]@[j]) matches TabElement::Fret(f)
                ==> midi_base(string_names@[i])->0 + f <= 255),
        forall|i: int| 0 <= i < 6 ==> (#[trigger] tracks@[i])@.len() <= 0x0010_0000,
    ensures
        r@.len() == 6,
        forall|i: int| 0 <= i < 6
            ==> (#[trigger] r@[i])@ == track_events(tracks@[i]@, midi_base(string_names@[i])->0, 0),
{
    let mut out: Vec<Vec<MidiEvent>> = Vec::new();
    let mut i: usize = 0;
    while i < 6
        invariant
            0 <= i <= 6,
            string_names@.len() == 6,
            tracks@.len() == 6,
            out@.len() == i,
            forall|k: int| 0 <= k < 6 ==> midi_base(string_names@[k]) is Some,
            forall|k: int, j: int| 0 <= k < 6 && 0 <= j < tracks@[k]@.len()
                ==> ((#[trigger] tracks@[k]@[j]) matches TabElement::Fret(f)
                    ==> midi_base(string_names@[k])->0 + f <= 255),
            forall|k: int| 0 <= k < 6 ==> (#[trigger] tracks@[k])@.len() <= 0x0010_0000,
            forall|k: int| 0 <= k < i
                ==> (#[trigger] out@[k])@ == track_events(
                    tracks@[k]@,
                    midi_base(string_names@[k])->0,
                    0,
                ),
        decreases 6 - i,
    {
        let name = string_names[i];
        let base: u8 = if name == 69 {
            52
        } else if name == 65 {
            57
        } else if name == 68 {
            62
        } else if name == 71 {
            67
        } else if name == 66 {
            71
        } else if name == 100 {
            74
        } else {
            76
        };
        let track: &Vec<TabElement> = &tracks[i];
        let mut evs: Vec<MidiEvent> = Vec::new();
        let mut delta_carry: u32 = 0;
        let mut j: usize = 0;
        let ghost full = track_events(track@, base, 0);
        proof {
            assert(track@.skip(0) =~= track@);
        }
        while j < track.len()
            invariant
                0 <= j <= track@.len(),
                track@.len() <= 0x0010_0000,
                delta_carry <= j * (LENGTH_OF_EIGHT as int),
                LENGTH_OF_EIGHT == 375,
                full == evs@ + track_events(track@.skip(j as int), base, delta_carry as int),
                forall|jj: int| j <= jj < track@.len()
                    ==> ((#[trigger] track@[jj]) matches TabElement::Fret(f) ==> base + f <= 255),
                base as int == midi_base(string_names@[i as int])->0,
                full == track_events(track@, base, 0),
            decreases track@.len() - j,
        {
            let ghost rem = track@.skip(j as int);
            proof {
                assert(rem[0] == track@[j as int]);
                assert(rem.drop_first() =~= track@.skip(j + 1));
            }
            match track[j] {
                TabElement::Fret(f) => {
                    let (on, off) = gen_note_events(((base as u64) + f) as u8, delta_carry);
                    delta_carry = 0;
                    evs.push(on);
                    evs.push(off);
                    proof {
                        assert(evs@ + track_events(track@.skip(j + 1), base, 0) =~= evs@.subrange(
                            0,
                            evs@.len() - 2,
                        ) + (seq![on, off] + track_events(track@.skip(j + 1), base, 0)));
                    }
                }
                TabElement::Rest => {
                    delta_carry = delta_carry + LENGTH_OF_EIGHT;
                }
                TabElement::DeadNote => {}
            }
            j += 1;
        }
        proof {
            assert(track@.skip(track@.len() as int) =~= Seq::<TabElement>::empty());
        }
        evs.push(MidiEvent { delta: 0, kind: MidiEventKind::EndOfTrack });
        proof {
            assert(evs@ =~= full);
        }
        out.push(evs);
        i += 1;
    }
    out
}

} // verus!
