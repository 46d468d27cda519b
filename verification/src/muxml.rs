//! The notation backend's note model: a numeric pitch step and its
//! letter/octave/sharp decomposition, and the fretboard lookup from a
//! string name and fret to a step.

use vstd::prelude::*;

use crate::errors::BackendError;

verus! {

/// Settings of the notation backend.
#[derive(Debug, Clone, Copy, PartialEq, Eq, Structural)]
pub struct Settings {
    pub remove_rest_between_notes: bool,
    pub trim_measure: bool,
    pub simplify_time_signature: bool,
}

/// A note for the notation backend.
///
/// `step` is the numeric pitch: step 0 is an octave-0 C, step 1 an
/// octave-0 C sharp, and so on, twelve steps per octave.
#[derive(Debug, Clone, Copy, PartialEq, Eq, Structural)]
pub struct MuxmlNote2 {
    pub step: u8,
    pub dead: bool,
}

/// The letter and sharpness of each of the twelve steps of an octave.
pub open spec fn step_letter(idx: int) -> (char, bool) {
    if idx == 0 {
        ('C', false)
    } else if idx == 1 {
        ('C', true)
    } else if idx == 2 {
        ('D', false)
    } else if idx == 3 {
        ('D', true)
    } else if idx == 4 {
        ('E', false)
    } else if idx == 5 {
        ('F', false)
    } else if idx == 6 {
        ('F', true)
    } else if idx == 7 {
        ('G', false)
    } else if idx == 8 {
        ('G', true)
    } else if idx == 9 {
        ('A', false)
    } else if idx == 10 {
        ('A', true)
    } else {
        ('B', false)
    }
}

impl MuxmlNote2 {
    /// The note's letter, octave and sharpness.
    pub fn step_octave_sharp(&self) -> (r: (char, u8, bool))
        ensures
            r.0 == step_letter(self.step as int % 12).0,
            r.2 == step_letter(self.step as int % 12).1,
            r.1 == self.step / 12,
    {
        let stepidx = self.step % 12;
        let octave = self.step / 12;
        let (letter, sharp): (char, bool) = if stepidx == 0 {
            ('C', false)
        } else if stepidx == 1 {
            ('C', true)
        } else if stepidx == 2 {
            ('D', false)
        } else if stepidx == 3 {
            ('D', true)
        } else if stepidx == 4 {
            ('E', false)
        } else if stepidx == 5 {
            ('F', false)
        } else if stepidx == 6 {
            ('F', true)
        } else if stepidx == 7 {
            ('G', false)
        } else if stepidx == 8 {
            ('G', true)
        } else if stepidx == 9 {
            ('A', false)
        } else if stepidx == 10 {
            ('A', true)
        } else {
            ('B', false)
        };
        (letter, octave, sharp)
    }
}

/// The base step of each supported string name byte.
pub open spec fn string_base_note(name: u8) -> Option<u8> {
    if name == 65 {
        Some(45u8)  // A
    } else if name == 66 {
        Some(59u8)  // B
    } else if name == 68 {
        Some(50u8)  // D
    } else if name == 69 {
        Some(40u8)  // E
    } else if name == 71 {
        Some(55u8)  // G
    } else if name == 101 {
        Some(64u8)  // e
    } else {
        None
    }
}

/// Look up the note a fret on a named string sounds as.
pub fn get_fretboard_note2(string: u8, fret: u8) -> (r: Result<MuxmlNote2, BackendError>)
    requires
        string_base_note(string) is Some,
        string_base_note(string)->0 + fret <= 255,
    ensures
        r == Ok::<MuxmlNote2, BackendError>(MuxmlNote2 {
            step: (string_base_note(string)->0 + fret) as u8,
            dead: false,
        }),
{
    let base: u8 = if string == 65 {
        45
    } else if string == 66 {
        59
    } else if string == 68 {
        50
    } else if string == 69 {
        40
    } else if string == 71 {
        55
    } else {
        64
    };
    Ok(MuxmlNote2 { step: base + fret, dead: false })
}

} // verus!
