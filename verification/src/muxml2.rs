//! The second notation backend's fretboard lookup; it shares the note
//! model of the first.

use vstd::prelude::*;

use crate::errors::BackendError;
use crate::muxml::{string_base_note, MuxmlNote2};

verus! {

/// Look up the note a fret on a named string sounds as.
pub fn get_fretboard_note2(string: u8, fret: u8) -> (r: Result<MuxmlNote2, BackendError>)
    requires
        string_base_note(string) is Some,
        string_base_note(string)->0 + fret <= 255,
    ensures
        r == Ok::<MuxmlNote2, BackendError>(MuxmlNote2 {
            step: (string_base_note(string)->0 + fret) as u8,
            dead: false,
        }),
{
    let base: u8 = if string == 65 {
        45
    } else if string == 66 {
        59
    } else if string == 68 {
        50
    } else if string == 69 {
        40
    } else if string == 71 {
        55
    } else {
        64
    };
    Ok(MuxmlNote2 { step: base + fret, dead: false })
}

} // verus!
