//! Backend surface shared by the output generators: the result type every
//! backend returns, and the selector a caller dispatches on.

use vstd::prelude::*;

use crate::errors::{BackendError, Diagnostic};
use crate::fixup::FixupBackendSettings;
use crate::muxml::Settings;

verus! {

/// What a backend run produced: diagnostics, the terminal error if any,
/// and how long parsing and generation took (in milliseconds, when
/// measured).
#[derive(Debug, Clone, PartialEq, Eq)]
pub struct BackendResult {
    pub diagnostics: Vec<Diagnostic>,
    pub err: Option<BackendError>,
    pub timing_parse: Option<u64>,
    pub timing_gen: Option<u64>,
}

impl BackendResult {
    pub fn new(
        diagnostics: Vec<Diagnostic>,
        err: Option<BackendError>,
        timing_parse: Option<u64>,
        timing_gen: Option<u64>,
    ) -> (r: BackendResult)
        ensures
            r.diagnostics == diagnostics,
            r.err == err,
            r.timing_parse == timing_parse,
            r.timing_gen == timing_gen,
    {
        BackendResult { diagnostics, err, timing_parse, timing_gen }
    }
}

/// Which backend to run, with its settings. The dispatch itself performs
/// output and lives with the caller.
#[derive(Debug, Clone, PartialEq, Eq)]
pub enum BackendSelector {
    Midi,
    Muxml(Settings),
    Fixup(FixupBackendSettings),
}

} // verus!
