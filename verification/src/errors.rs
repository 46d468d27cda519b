//! Error and diagnostic model.
//!
//! Parse failures are carried as data next to the partial parse state, never
//! raised; diagnostics record non-fatal observations and the corrections the
//! fixup driver applied.

use vstd::prelude::*;

use crate::tab::TabElement;
use crate::IdxRangeIncl;

verus! {

/// The minimal coordinate needed to point a diagnostic at source text.
#[derive(Debug, Clone, Copy, PartialEq, Eq, Structural)]
pub enum ErrorLocation {
    NoLocation,
    LineOnly(usize),
    LineAndMeasure(usize, usize),
    LineAndChar(usize, usize),
    SourceOffset(u32),
}

impl ErrorLocation {
    /// The line the location points at, when it names one.
    pub fn get_line_idx(&self) -> (r: Option<usize>)
        ensures
            r == self.spec_line_idx(),
    {
        match self {
            ErrorLocation::LineOnly(l) => Some(*l),
            ErrorLocation::LineAndMeasure(l, _) => Some(*l),
            ErrorLocation::LineAndChar(l, _) => Some(*l),
            _ => None,
        }
    }

    pub open spec fn spec_line_idx(self) -> Option<usize> {
        match self {
            ErrorLocation::LineOnly(l) => Some(l),
            ErrorLocation::LineAndMeasure(l, _) => Some(l),
            ErrorLocation::LineAndChar(l, _) => Some(l),
            _ => None,
        }
    }

    /// The character column the location points at, when it names one.
    pub fn get_char_idx(&self) -> (r: Option<usize>)
        ensures
            r == self.spec_char_idx(),
    {
        match self {
            ErrorLocation::LineAndChar(_, c) => Some(*c),
            _ => None,
        }
    }

    pub open spec fn spec_char_idx(self) -> Option<usize> {
        match self {
            ErrorLocation::LineAndChar(_, c) => Some(c),
            _ => None,
        }
    }
}

/// Severity of a non-fatal observation.
#[derive(Debug, Clone, Copy, PartialEq, Eq, Structural)]
pub enum Severity {
    Info,
    Warning,
}

/// What a diagnostic reports.
#[derive(Debug, Clone, Copy, PartialEq, Eq, Structural)]
pub enum DiagnosticKind {
    EmptyLineInPart,
    CommentInPart,
    FormatAddedBarline,
    FormatReplacedInvalid,
}

/// A non-fatal observation accumulated during parsing or fixup.
#[derive(Debug, Clone, Copy, PartialEq, Eq, Structural)]
pub struct Diagnostic {
    pub severity: Severity,
    pub location: ErrorLocation,
    pub kind: DiagnosticKind,
}

impl Diagnostic {
    pub fn warn(location: ErrorLocation, kind: DiagnosticKind) -> (r: Diagnostic)
        ensures
            r == (Diagnostic { severity: Severity::Warning, location, kind }),
    {
        Diagnostic { severity: Severity::Warning, location, kind }
    }

    pub fn info(location: ErrorLocation, kind: DiagnosticKind) -> (r: Diagnostic)
        ensures
            r == (Diagnostic { severity: Severity::Info, location, kind }),
    {
        Diagnostic { severity: Severity::Info, location, kind }
    }
}

/// The closed set of failure kinds.
///
/// `IOError` and `FmtError` wrap lower-level failures of the unverified
/// output layer; they are the only unrecoverable kinds for the fixup driver.
#[derive(Debug, Clone, PartialEq, Eq)]
pub enum BackendErrorKind {
    IOError(Vec<u8>),
    FmtError,
    EmptyScore,
    InvalidStringName,
    NoClosingBarline,
    /// The position on the line where a partline stopped parsing.
    InvalidPartlineSyntax(usize),
    /// The byte that could not be scanned as a tab element.
    InvalidCharacter(u8),
    /// A one-character element next to a multi-character fret had no
    /// adjacent rest to absorb.
    BadMulticharTick {
        multichar_name: u8,
        multichar_fret: u64,
        invalid_name: u8,
        invalid: TabElement,
        tick_idx: u32,
    },
    /// Both the multi-character slot and the following slot hold notes.
    MultiBothSlotsFilled,
    /// Two tracks show a multi-character fret at the same tick; the payload
    /// is another line involved.
    BothSlotsMultichar(usize),
    FixupFailed,
}

/// A terminal or recoverable parse failure, pinned to a location.
#[derive(Debug, Clone, PartialEq, Eq)]
pub struct BackendError {
    pub main_location: ErrorLocation,
    pub relevant_lines: IdxRangeIncl,
    pub kind: BackendErrorKind,
}

impl BackendError {
    /// The error for a part line whose string name is not a single letter
    /// followed by a separator.
    pub fn parse3_invalid_string_name(line: usize) -> (r: BackendError)
        ensures
            r == Self::spec_invalid_string_name(line),
    {
        BackendError {
            main_location: ErrorLocation::LineOnly(line),
            relevant_lines: IdxRangeIncl { start: line, end: line },
            kind: BackendErrorKind::InvalidStringName,
        }
    }

    pub open spec fn spec_invalid_string_name(line: usize) -> BackendError {
        BackendError {
            main_location: ErrorLocation::LineOnly(line),
            relevant_lines: IdxRangeIncl { start: line, end: line },
            kind: BackendErrorKind::InvalidStringName,
        }
    }

    /// The error for a part line that does not end with a separator.
    pub fn no_closing_barline(line: usize) -> (r: BackendError)
        ensures
            r == Self::spec_no_closing_barline(line),
    {
        BackendError {
            main_location: ErrorLocation::LineOnly(line),
            relevant_lines: IdxRangeIncl { start: line, end: line },
            kind: BackendErrorKind::NoClosingBarline,
        }
    }

    pub open spec fn spec_no_closing_barline(line: usize) -> BackendError {
        BackendError {
            main_location: ErrorLocation::LineOnly(line),
            relevant_lines: IdxRangeIncl { start: line, end: line },
            kind: BackendErrorKind::NoClosingBarline,
        }
    }

    /// The error for a byte inside a measure that is not a tab element.
    pub fn parse3_invalid_character(line: usize, ch: usize, invalid: u8) -> (r: BackendError)
        ensures
            r == Self::spec_invalid_character(line, ch, invalid),
    {
        BackendError {
            main_location: ErrorLocation::LineAndChar(line, ch),
            relevant_lines: IdxRangeIncl { start: line, end: line },
            kind: BackendErrorKind::InvalidCharacter(invalid),
        }
    }

    pub open spec fn spec_invalid_character(line: usize, ch: usize, invalid: u8) -> BackendError {
        BackendError {
            main_location: ErrorLocation::LineAndChar(line, ch),
            relevant_lines: IdxRangeIncl { start: line, end: line },
            kind: BackendErrorKind::InvalidCharacter(invalid),
        }
    }

    /// The error for two tracks showing a multi-character fret at one tick.
    pub fn both_slots_multichar(line: usize, ch: usize, other_line: usize) -> (r: BackendError)
        ensures
            r == Self::spec_both_slots_multichar(line, ch, other_line),
    {
        BackendError {
            main_location: ErrorLocation::LineAndChar(line, ch),
            relevant_lines: IdxRangeIncl { start: line, end: line },
            kind: BackendErrorKind::BothSlotsMultichar(other_line),
        }
    }

    pub open spec fn spec_both_slots_multichar(line: usize, ch: usize, other_line: usize) -> BackendError {
        BackendError {
            main_location: ErrorLocation::LineAndChar(line, ch),
            relevant_lines: IdxRangeIncl { start: line, end: line },
            kind: BackendErrorKind::BothSlotsMultichar(other_line),
        }
    }

    /// The error for a note that sits beside a multi-character fret with no
    /// rest after it to absorb.
    pub fn multi_both_slots_filled(line: usize, ch: usize) -> (r: BackendError)
        ensures
            r == Self::spec_multi_both_slots_filled(line, ch),
    {
        BackendError {
            main_location: ErrorLocation::LineAndChar(line, ch),
            relevant_lines: IdxRangeIncl { start: line, end: line },
            kind: BackendErrorKind::MultiBothSlotsFilled,
        }
    }

    pub open spec fn spec_multi_both_slots_filled(line: usize, ch: usize) -> BackendError {
        BackendError {
            main_location: ErrorLocation::LineAndChar(line, ch),
            relevant_lines: IdxRangeIncl { start: line, end: line },
            kind: BackendErrorKind::MultiBothSlotsFilled,
        }
    }

    /// The terminal error of the fixup driver, pinned to the stalled
    /// location.
    pub fn fixup_failed(location: ErrorLocation, lines: IdxRangeIncl) -> (r: BackendError)
        ensures
            r == Self::spec_fixup_failed(location, lines),
    {
        BackendError { main_location: location, relevant_lines: lines, kind: BackendErrorKind::FixupFailed }
    }

    pub open spec fn spec_fixup_failed(location: ErrorLocation, lines: IdxRangeIncl) -> BackendError {
        BackendError { main_location: location, relevant_lines: lines, kind: BackendErrorKind::FixupFailed }
    }
}

} // verus!
