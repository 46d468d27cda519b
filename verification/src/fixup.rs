//! The fixup driver: parse the document, apply one targeted textual
//! correction per failure, and re-parse from scratch, until the parse
//! succeeds or the same error location recurs five times in a row.

use vstd::prelude::*;

use crate::errors::{BackendError, BackendErrorKind, Diagnostic, DiagnosticKind, ErrorLocation, Severity};
use crate::parser::{parse, parse_spec, seq_views, total_len, ws_suffix_len, MAX_DOC, MAX_LINES};
use vstd::pervasive::VecAdditionalExecFns;
use crate::IdxRangeIncl;

verus! {

/// The self-repairing backend.
pub struct FixupBackend();

/// What of the parse state the caller wants dumped.
#[derive(Debug, Clone, Copy, PartialEq, Eq, Structural)]
pub enum FixupDumpOptions {
    AST,
    PrettyTracks,
}

#[derive(Debug, Clone, Copy, PartialEq, Eq, Structural)]
pub struct FixupBackendSettings {
    pub dump: Option<FixupDumpOptions>,
}

/// Whether the five recorded locations are all equal.
pub open spec fn locs_all_same(d: Seq<ErrorLocation>) -> bool {
    forall|i: int| 0 <= i < 4 ==> #[trigger] d[i] == d[i + 1]
}

/// A fixed five-slot rolling history of error locations, used to detect
/// that repeated corrections are not making progress.
pub struct LocationTracker {
    pub data: Vec<ErrorLocation>,
    pub push_cnt: u32,
}

impl LocationTracker {
    pub open spec fn wf(self) -> bool {
        self.data@.len() == 5
    }

    /// Whether the five recorded locations are all the same, after at
    /// least five entries were recorded.
    pub open spec fn spec_is_same(self) -> bool {
        self.push_cnt > 4 && locs_all_same(self.data@)
    }

    pub fn new() -> (r: LocationTracker)
        ensures
            r.wf(),
            r.push_cnt == 0,
            forall|i: int| 0 <= i < 5 ==> r.data@[i] == ErrorLocation::NoLocation,
    {
        let mut data: Vec<ErrorLocation> = Vec::new();
        data.push(ErrorLocation::NoLocation);
        data.push(ErrorLocation::NoLocation);
        data.push(ErrorLocation::NoLocation);
        data.push(ErrorLocation::NoLocation);
        data.push(ErrorLocation::NoLocation);
        LocationTracker { data, push_cnt: 0 }
    }

    /// Record a location, shifting the oldest one out.
    pub fn add(&mut self, l: ErrorLocation)
        requires
            old(self).wf(),
            old(self).push_cnt < u32::MAX,
        ensures
            final(self).wf(),
            final(self).data@ == old(self).data@.skip(1).push(l),
            final(self).push_cnt == old(self).push_cnt + 1,
    {
        self.data.remove(0);
        self.data.push(l);
        self.push_cnt += 1;
    }

    /// Whether the driver is stalled: five locations recorded and all of
    /// them identical.
    pub fn is_same(&self) -> (r: bool)
        requires
            self.wf(),
        ensures
            r == self.spec_is_same(),
    {
        if self.push_cnt <= 4 {
            return false;
        }
        let mut i: usize = 0;
        while i < 4
            invariant
                0 <= i <= 4,
                self.wf(),
                forall|j: int| 0 <= j < i ==> #[trigger] self.data@[j] == self.data@[j + 1],
            decreases 4 - i,
        {
            if !(self.data[i] == self.data[i + 1]) {
                return false;
            }
            i += 1;
        }
        true
    }
}

/// Cap on full re-parse attempts; the five-slot stall detector fires long
/// before this bound can be reached on any input it detects.
pub const MAX_FIXUP_ATTEMPTS: usize = 0x0100_0000;

/// The outcome of a fixup run: the (possibly corrected) lines, the
/// diagnostics describing every correction applied, and the terminal
/// error, if the run did not converge.
#[derive(Debug, Clone, PartialEq, Eq)]
pub struct FixupResult {
    pub diagnostics: Vec<Diagnostic>,
    pub err: Option<BackendError>,
    pub corrected: Vec<Vec<u8>>,
}

/// The mathematical content of a `FixupResult`.
pub ghost struct FixupModel {
    pub diagnostics: Seq<Diagnostic>,
    pub err: Option<BackendError>,
    pub corrected: Seq<Seq<u8>>,
}

impl View for FixupResult {
    type V = FixupModel;

    open spec fn view(&self) -> FixupModel {
        FixupModel {
            diagnostics: self.diagnostics@,
            err: self.err,
            corrected: seq_views(self.corrected@),
        }
    }
}

/// A line with its trailing ASCII whitespace removed.
pub open spec fn trim_end_ws(s: Seq<u8>) -> Seq<u8> {
    s.take(s.len() - ws_suffix_len(s))
}

/// The line range a terminal failure points at.
pub open spec fn stall_range(l: ErrorLocation) -> IdxRangeIncl {
    match l.spec_line_idx() {
        Some(x) => IdxRangeIncl { start: x, end: x },
        None => IdxRangeIncl { start: 0, end: 0 },
    }
}

/// The terminal outcome when the driver gives up without a location to
/// pin: the attempt budget or the supported document size ran out.
pub open spec fn driver_gave_up(ls: Seq<Seq<u8>>, diags: Seq<Diagnostic>) -> FixupModel {
    FixupModel {
        diagnostics: diags,
        err: Some(BackendError::spec_fixup_failed(
            ErrorLocation::NoLocation,
            IdxRangeIncl { start: 0, end: 0 },
        )),
        corrected: ls,
    }
}

/// One state of the repair loop and everything that follows from it:
/// parse the lines; on success stop; otherwise record the error location,
/// stop with a fixup-failed error pinned there if the last five recorded
/// locations are identical, apply the one correction keyed by the error
/// kind — the trimmed line gets its separator appended for a missing
/// closing barline, the offending byte becomes a rest for an invalid
/// character — record one diagnostic per applied correction, and repeat.
pub open spec fn driver_rec(
    ls: Seq<Seq<u8>>,
    diags: Seq<Diagnostic>,
    tdata: Seq<ErrorLocation>,
    tcnt: int,
    fuel: nat,
) -> FixupModel
    decreases fuel
{
    if fuel == 0 {
        driver_gave_up(ls, diags)
    } else if total_len(ls) > MAX_DOC {
        driver_gave_up(ls, diags)
    } else {
        match parse_spec(ls).error {
            None => FixupModel { diagnostics: diags, err: None, corrected: ls },
            Some(err) => {
                let td2 = tdata.skip(1).push(err.main_location);
                let tc2 = tcnt + 1;
                if tc2 > 4 && locs_all_same(td2) {
                    FixupModel {
                        diagnostics: diags,
                        err: Some(BackendError::spec_fixup_failed(
                            err.main_location,
                            stall_range(err.main_location),
                        )),
                        corrected: ls,
                    }
                } else {
                    match err.kind {
                        BackendErrorKind::IOError(_) | BackendErrorKind::FmtError => FixupModel {
                            diagnostics: diags,
                            err: Some(err),
                            corrected: ls,
                        },
                        BackendErrorKind::NoClosingBarline => {
                            match err.main_location.spec_line_idx() {
                                Some(l) => if l < ls.len() {
                                    driver_rec(
                                        ls.update(l as int, trim_end_ws(ls[l as int]).push(124)),
                                        diags.push(Diagnostic {
                                            severity: Severity::Info,
                                            location: err.main_location,
                                            kind: DiagnosticKind::FormatAddedBarline,
                                        }),
                                        td2,
                                        tc2,
                                        (fuel - 1) as nat,
                                    )
                                } else {
                                    driver_rec(ls, diags, td2, tc2, (fuel - 1) as nat)
                                },
                                None => driver_rec(ls, diags, td2, tc2, (fuel - 1) as nat),
                            }
                        }
                        BackendErrorKind::InvalidCharacter(_) => {
                            if err.main_location matches ErrorLocation::LineAndChar(l, c) && l
                                < ls.len() && c < ls[l as int].len() {
                                let l2 = err.main_location->LineAndChar_0;
                                let c2 = err.main_location->LineAndChar_1;
                                driver_rec(
                                    ls.update(l2 as int, ls[l2 as int].update(c2 as int, 45)),
                                    diags.push(Diagnostic {
                                        severity: Severity::Info,
                                        location: err.main_location,
                                        kind: DiagnosticKind::FormatReplacedInvalid,
                                    }),
                                    td2,
                                    tc2,
                                    (fuel - 1) as nat,
                                )
                            } else {
                                driver_rec(ls, diags, td2, tc2, (fuel - 1) as nat)
                            }
                        }
                        _ => driver_rec(ls, diags, td2, tc2, (fuel - 1) as nat),
                    }
                }
            }
        }
    }
}

/// What `run_fixup` returns on a document.
pub open spec fn run_fixup_spec(input: Seq<Seq<u8>>) -> FixupModel {
    driver_rec(
        input,
        seq![],
        seq![
            ErrorLocation::NoLocation,
            ErrorLocation::NoLocation,
            ErrorLocation::NoLocation,
            ErrorLocation::NoLocation,
            ErrorLocation::NoLocation,
        ],
        0,
        MAX_FIXUP_ATTEMPTS as nat,
    )
}

/// Total byte count of the lines, capped just past the supported
/// document size.
fn sum_lens_capped(lines: &Vec<Vec<u8>>) -> (t: usize)
    ensures
        t <= MAX_DOC ==> t as int == total_len(seq_views(lines@)),
        t > MAX_DOC ==> total_len(seq_views(lines@)) > MAX_DOC,
{
    let ghost lv = seq_views(lines@);
    let mut t: usize = 0;
    let mut i: usize = 0;
    proof {
        assert(lv.take(0int) =~= Seq::<Seq<u8>>::empty());
    }
    while i < lines.len()
        invariant
            lv == seq_views(lines@),
            0 <= i <= lines@.len(),
            t <= MAX_DOC,
            t as int == total_len(lv.take(i as int)),
        decreases lines@.len() - i,
    {
        proof {
            assert(lv.take(i + 1).drop_last() =~= lv.take(i as int));
            assert(lv.take(i + 1).last() == lv[i as int]);
        }
        let add = lines[i].len();
        if add > MAX_DOC - t {
            proof {
                crate::parser::lemma_total_len_take_le(lv, i + 1);
            }
            return MAX_DOC + 1;
        }
        t += add;
        i += 1;
    }
    proof {
        assert(lv.take(lv.len() as int) =~= lv);
    }
    t
}

/// Remove the trailing ASCII whitespace of one owned line.
fn trim_end_exec(line: &mut Vec<u8>)
    ensures
        final(line)@ == trim_end_ws(old(line)@),
{
    let ghost orig = line@;
    proof {
        crate::parser::lemma_ws_suffix_le(orig);
        assert(orig.take(orig.len() as int) =~= orig);
    }
    while line.len() > 0 && (line[line.len() - 1] == 32 || (9 <= line[line.len() - 1]
        && line[line.len() - 1] <= 13))
        invariant
            orig == old(line)@,
            line@.len() <= orig.len(),
            line@ == orig.take(line@.len() as int),
            ws_suffix_len(orig) == (orig.len() - line@.len()) + ws_suffix_len(line@),
        decreases line@.len(),
    {
        proof {
            assert(orig.take(line@.len() as int).drop_last() =~= orig.take(line@.len() - 1));
            assert(ws_suffix_len(line@) == 1 + ws_suffix_len(line@.drop_last()));
        }
        line.pop();
    }
    proof {
        assert(ws_suffix_len(line@) == 0);
        assert(line@ =~= trim_end_ws(orig));
    }
}

/// Run the fixup driver on a document, owned as a buffer of lines.
///
/// The result equals `run_fixup_spec` of the input exactly: a document
/// that parses cleanly comes back unchanged with no error and no
/// diagnostic; a missing closing barline has the trimmed line's separator
/// appended, an invalid character is replaced by a rest, each applied
/// correction records one diagnostic and triggers a full re-parse; five
/// identical recurring error locations end the run with a fixup-failed
/// error pinned to that location.
pub fn run_fixup(input: Vec<Vec<u8>>) -> (r: FixupResult)
    requires
        input@.len() <= MAX_LINES,
        total_len(seq_views(input@)) <= MAX_DOC,
    ensures
        r@ == run_fixup_spec(seq_views(input@)),
        parse_spec(seq_views(input@)).error is None ==> r.err is None
            && seq_views(r.corrected@) == seq_views(input@) && r.diagnostics@.len() == 0,
        r.corrected@.len() == input@.len(),
        r.err is None ==> parse_spec(seq_views(r.corrected@)).error is None,
        r.err matches Some(e) ==> (e.kind is FixupFailed || e.kind is IOError
            || e.kind is FmtError),
        forall|i: int| 0 <= i < r.diagnostics@.len()
            ==> ((#[trigger] r.diagnostics@[i]).kind is FormatAddedBarline
                || r.diagnostics@[i].kind is FormatReplacedInvalid),
{
    let ghost n0 = input@.len();
    let ghost full = run_fixup_spec(seq_views(input@));
    let mut lines = input;
    let mut diagnostics: Vec<Diagnostic> = Vec::new();
    let mut tracker = LocationTracker::new();
    let mut attempts: usize = 0;
    proof {
        assert(tracker.data@ =~= seq![
            ErrorLocation::NoLocation,
            ErrorLocation::NoLocation,
            ErrorLocation::NoLocation,
            ErrorLocation::NoLocation,
            ErrorLocation::NoLocation,
        ]);
    }
    while attempts < MAX_FIXUP_ATTEMPTS
        invariant
            n0 == input@.len(),
            lines@.len() == n0,
            lines@.len() <= MAX_LINES,
            tracker.wf(),
            tracker.push_cnt <= attempts,
            attempts <= MAX_FIXUP_ATTEMPTS,
            full == run_fixup_spec(seq_views(input@)),
            full == driver_rec(
                seq_views(lines@),
                diagnostics@,
                tracker.data@,
                tracker.push_cnt as int,
                (MAX_FIXUP_ATTEMPTS - attempts) as nat,
            ),
            total_len(seq_views(input@)) <= MAX_DOC,
            forall|i: int| 0 <= i < diagnostics@.len()
                ==> ((#[trigger] diagnostics@[i]).kind is FormatAddedBarline
                    || diagnostics@[i].kind is FormatReplacedInvalid),
        decreases MAX_FIXUP_ATTEMPTS - attempts,
    {
        let ghost lsit = seq_views(lines@);
        let ghost dit = diagnostics@;
        let ghost tdit = tracker.data@;
        let ghost tcit = tracker.push_cnt as int;
        let ghost fuelit = (MAX_FIXUP_ATTEMPTS - attempts) as nat;
        attempts += 1;
        let total = sum_lens_capped(&lines);
        if total > MAX_DOC {
            // the document grew past the supported size while repairing
            proof {
                assert(full == driver_gave_up(lsit, dit));
            }
            return FixupResult {
                diagnostics,
                err: Some(BackendError::fixup_failed(
                    ErrorLocation::NoLocation,
                    IdxRangeIncl { start: 0, end: 0 },
                )),
                corrected: lines,
            };
        }
        let parsed = parse(lines.as_slice());
        match parsed.error {
            None => {
                proof {
                    assert(full == (FixupModel { diagnostics: dit, err: None, corrected: lsit }));
                }
                return FixupResult { diagnostics, err: None, corrected: lines };
            }
            Some(err) => {
                tracker.add(err.main_location);
                if tracker.is_same() {
                    let lines_range = match err.main_location.get_line_idx() {
                        Some(x) => IdxRangeIncl { start: x, end: x },
                        None => IdxRangeIncl { start: 0, end: 0 },
                    };
                    proof {
                        assert(lines_range == stall_range(err.main_location));
                    }
                    return FixupResult {
                        diagnostics,
                        err: Some(BackendError::fixup_failed(err.main_location, lines_range)),
                        corrected: lines,
                    };
                }
                match &err.kind {
                    BackendErrorKind::IOError(_) | BackendErrorKind::FmtError => {
                        // unrecoverable failures of the output layer abort
                        // the run; the parser itself never produces them
                        return FixupResult { diagnostics, err: Some(err), corrected: lines };
                    }
                    BackendErrorKind::NoClosingBarline => {
                        if let Some(l_idx) = err.main_location.get_line_idx() {
                            if l_idx < lines.len() {
                                let mut line = vstd::slice::slice_to_vec(lines[l_idx].as_slice());
                                trim_end_exec(&mut line);
                                line.push(124);
                                lines.set(l_idx, line);
                                diagnostics.push(Diagnostic::info(
                                    err.main_location,
                                    DiagnosticKind::FormatAddedBarline,
                                ));
                                proof {
                                    assert(seq_views(lines@) =~= lsit.update(
                                        l_idx as int,
                                        trim_end_ws(lsit[l_idx as int]).push(124u8),
                                    ));
                                }
                            }
                        }
                    }
                    BackendErrorKind::InvalidCharacter(_) => {
                        let li = err.main_location.get_line_idx();
                        let ci = err.main_location.get_char_idx();
                        if let (Some(l_idx), Some(c_idx)) = (li, ci) {
                            if l_idx < lines.len() && c_idx < lines[l_idx].len() {
                                let mut line = vstd::slice::slice_to_vec(lines[l_idx].as_slice());
                                line.set(c_idx, 45);
                                lines.set(l_idx, line);
                                diagnostics.push(Diagnostic::info(
                                    err.main_location,
                                    DiagnosticKind::FormatReplacedInvalid,
                                ));
                                proof {
                                    assert(seq_views(lines@) =~= lsit.update(
                                        l_idx as int,
                                        lsit[l_idx as int].update(c_idx as int, 45u8),
                                    ));
                                }
                            }
                        }
                    }
                    _ => {
                        // no correction is defined for the other kinds;
                        // re-parsing unchanged input repeats the same error
                        // until the stall detector ends the run
                    }
                }
                proof {
                    assert(driver_rec(lsit, dit, tdit, tcit, fuelit) == driver_rec(
                        seq_views(lines@),
                        diagnostics@,
                        tracker.data@,
                        tracker.push_cnt as int,
                        (MAX_FIXUP_ATTEMPTS - attempts) as nat,
                    ));
                }
            }
        }
    }
    // the attempt cap was exhausted without converging
    proof {
        assert(full == driver_gave_up(seq_views(lines@), diagnostics@));
    }
    FixupResult {
        diagnostics,
        err: Some(BackendError::fixup_failed(
            ErrorLocation::NoLocation,
            IdxRangeIncl { start: 0, end: 0 },
        )),
        corrected: lines,
    }
}

/// Recording the same location five times in a row — and only five or
/// more times — makes the tracker report a stall: the driver applies at
/// most four fruitless corrections to one spot before giving up.
pub proof fn lemma_stall_after_five(l: ErrorLocation, t0: LocationTracker, ts: Seq<LocationTracker>)
    requires
        t0.wf(),
        t0.push_cnt == 0,
        ts.len() > 0,
        ts[0].data@ == t0.data@.skip(1).push(l),
        ts[0].push_cnt == 1,
        forall|i: int| 0 < i < ts.len() ==> (#[trigger] ts[i]).data@ == ts[i - 1].data@.skip(1).push(l),
        forall|i: int| 0 < i < ts.len() ==> (#[trigger] ts[i]).push_cnt == ts[i - 1].push_cnt + 1,
    ensures
        forall|i: int| 0 <= i < ts.len() && i < 4 ==> !(#[trigger] ts[i]).spec_is_same(),
        ts.len() >= 5 ==> ts[4].spec_is_same(),
{
    assert forall|i: int| 0 <= i < ts.len() implies (#[trigger] ts[i]).push_cnt == i + 1
        && ts[i].data@.len() == 5 by {
        lemma_tracker_counts(l, t0, ts, i);
    }
    assert forall|i: int| 0 <= i < ts.len() && i < 4 implies !(#[trigger] ts[i]).spec_is_same() by {
        assert(ts[i].push_cnt <= 4);
    }
    if ts.len() >= 5 {
        assert forall|k: int| 0 <= k < 5 implies ts[4].data@[k] == l by {
            lemma_tracker_tail(l, t0, ts, 4, k);
        }
    }
}

proof fn lemma_tracker_counts(l: ErrorLocation, t0: LocationTracker, ts: Seq<LocationTracker>, i: int)
    requires
        t0.wf(),
        t0.push_cnt == 0,
        0 <= i < ts.len(),
        ts[0].data@ == t0.data@.skip(1).push(l),
        ts[0].push_cnt == 1,
        forall|j: int| 0 < j < ts.len() ==> (#[trigger] ts[j]).data@ == ts[j - 1].data@.skip(1).push(l),
        forall|j: int| 0 < j < ts.len() ==> (#[trigger] ts[j]).push_cnt == ts[j - 1].push_cnt + 1,
    ensures
        ts[i].push_cnt == i + 1,
        ts[i].data@.len() == 5,
    decreases i,
{
    if i > 0 {
        lemma_tracker_counts(l, t0, ts, i - 1);
    }
}

/// The last `min(i + 1, 5)` slots of the `i`-th tracker state all hold `l`.
proof fn lemma_tracker_tail(l: ErrorLocation, t0: LocationTracker, ts: Seq<LocationTracker>, i: int, k: int)
    requires
        t0.wf(),
        t0.push_cnt == 0,
        0 <= i < ts.len(),
        ts[0].data@ == t0.data@.skip(1).push(l),
        ts[0].push_cnt == 1,
        forall|j: int| 0 < j < ts.len() ==> (#[trigger] ts[j]).data@ == ts[j - 1].data@.skip(1).push(l),
        forall|j: int| 0 < j < ts.len() ==> (#[trigger] ts[j]).push_cnt == ts[j - 1].push_cnt + 1,
        0 <= k < 5,
        k >= 4 - i,
    ensures
        ts[i].data@[k] == l,
    decreases i,
{
    lemma_tracker_counts(l, t0, ts, i);
    if k == 4 {
        // the newest slot is the pushed location
    } else {
        assert(i > 0);
        lemma_tracker_tail(l, t0, ts, i - 1, k + 1);
        assert(ts[i].data@[k] == ts[i - 1].data@[k + 1]);
    }
}

} // verus!
