//! The section parser: walks the document line by line, collecting
//! comments and six-line parts into `Section`s with per-string tick,
//! measure and source-offset tables, and repairs the multi-character fret
//! alignment of each completed part by absorbing displaced rests.

use vstd::prelude::*;

use crate::errors::{
    BackendError, BackendErrorKind, Diagnostic, DiagnosticKind, ErrorLocation, Severity,
};
use crate::parser::{total_len, ws_prefix_len, MAX_DOC, MAX_LINES};
use crate::tab::{
    partline, partline_spec, sec_view, tick_offset, Measure, Partline, RawTick, SecModel,
    Section, TabElement,
};
use crate::{IdxRange, IdxRangeIncl};
use vstd::pervasive::VecAdditionalExecFns;

verus! {

/// The view of each inner buffer of a table of buffers.
pub open spec fn views_of<T>(s: Seq<Vec<T>>) -> Seq<Seq<T>> {
    Seq::new(s.len(), |i: int| s[i]@)
}

/// Position of the first line-break byte at or after `i`.
pub open spec fn line_break_pos(s: Seq<u8>, i: int) -> int
    decreases s.len() - i when i <= s.len()
{
    if 0 <= i < s.len() && s[i] != 10 && s[i] != 13 {
        line_break_pos(s, i + 1)
    } else {
        i
    }
}

/// The first line break at or after `i` lies between `i` and the end.
pub proof fn lemma_line_break_pos_bounds(s: Seq<u8>, i: int)
    requires
        0 <= i <= s.len(),
    ensures
        i <= line_break_pos(s, i) <= s.len(),
    decreases s.len() - i,
{
    if 0 <= i < s.len() && s[i] != 10 && s[i] != 13 {
        lemma_line_break_pos_bounds(s, i + 1);
    }
}

/// Relies on nom's `preceded` of nom-supreme's `tag("//")` and nom's
/// `is_not("\n\r")`: recognizes a line that starts with `//` followed by at
/// least one byte that is not a line break, and splits the rest of the
/// line at the first line break.
#[verifier::external_body]
fn comment_line(s: &[u8]) -> (r: Option<(&[u8], &[u8])>)
    ensures
        r is Some <==> (s@.len() > 2 && s@[0] == 47 && s@[1] == 47 && s@[2] != 10 && s@[2] != 13),
        r matches Some((rem, com)) ==> ({
            let e = line_break_pos(s@, 2);
            &&& com@ == s@.subrange(2, e)
            &&& rem@ == s@.subrange(e, s@.len() as int)
        }),
{
    let res: nom::IResult<&[u8], &[u8], nom::error::VerboseError<&[u8]>> = nom::sequence::preceded(
        nom_supreme::tag::complete::tag("//"),
        nom::bytes::complete::is_not("\n\r"),
    )(s);
    match res {
        Ok((rem, com)) => Some((rem, com)),
        Err(_) => None,
    }
}

/// The lexicographically least `(tick count, track index)` pair over the
/// tracks `k..6`: the track with the fewest ticks, ties broken towards the
/// lower index.
pub open spec fn least_of(strings: Seq<Seq<RawTick>>, k: int) -> (int, int)
    decreases 6 - k
{
    if k >= 5 {
        (strings[5].len() as int, 5)
    } else {
        let rest = least_of(strings, k + 1);
        if (strings[k].len() as int) < rest.0 || ((strings[k].len() as int) == rest.0 && k
            < rest.1) {
            (strings[k].len() as int, k)
        } else {
            rest
        }
    }
}

/// The first track from `k` on whose element at `tick` is a
/// multi-character fret; 6 when there is none.
pub open spec fn first_fret10(strings: Seq<Seq<RawTick>>, tick: int, k: int) -> int
    decreases 6 - k
{
    if k >= 6 {
        6
    } else {
        match strings[k][tick].element {
            TabElement::Fret(f) => if f >= 10 {
                k
            } else {
                first_fret10(strings, tick, k + 1)
            },
            _ => first_fret10(strings, tick, k + 1),
        }
    }
}

/// The first track that does not reach `tick`; 6 when all six do.
pub open spec fn short_track(strings: Seq<Seq<RawTick>>, tick: int, k: int) -> int
    decreases 6 - k
{
    if k >= 6 {
        6
    } else if strings[k].len() <= tick {
        k
    } else {
        short_track(strings, tick, k + 1)
    }
}

/// When no track is short of `tick`, every track from `k` on reaches it.
pub proof fn lemma_short_track_all(strings: Seq<Seq<RawTick>>, tick: int, k: int)
    requires
        0 <= k <= 6,
        short_track(strings, tick, k) == 6,
    ensures
        forall|j: int| k <= j < 6 ==> (#[trigger] strings[j]).len() > tick,
    decreases 6 - k,
{
    if k < 6 {
        lemma_short_track_all(strings, tick, k + 1);
    }
}

/// The source offset reported for a failed absorption: the offset of the
/// tick after the ambiguous one, when the track has one.
pub open spec fn guarded_offset(offs: Seq<u32>, tick_idx: int) -> u32 {
    if 0 <= tick_idx + 1 < offs.len() {
        offs[tick_idx + 1]
    } else if offs.len() > 0 {
        (offs[offs.len() - 1] + 1) as u32
    } else {
        0
    }
}

/// How one measure's range moves when the tick at index `removed` of its
/// track is removed: a range past it shifts left, the range across it
/// shrinks, so a partition of the track stays a partition.
pub open spec fn shift_one(m: Measure, removed: int) -> Measure {
    if m.content.start > removed {
        Measure {
            content: IdxRange {
                start: (m.content.start - 1) as usize,
                end: (m.content.end - 1) as usize,
            },
            ..m
        }
    } else if m.content.end > removed {
        Measure { content: IdxRange { start: m.content.start, end: (m.content.end - 1) as usize }, ..m }
    } else {
        m
    }
}

/// The measure table of one track after the removal at index `removed`,
/// with only the measures `range` of this part adjusted.
pub open spec fn shift_measures(ms: Seq<Measure>, range: IdxRange, removed: int) -> Seq<Measure> {
    Seq::new(ms.len(), |mi: int| if range.start <= mi < range.end {
        shift_one(ms[mi], removed)
    } else {
        ms[mi]
    })
}

/// The first track whose tick count differs from `cnt`; 6 when all agree.
pub open spec fn mismatch_track(strings: Seq<Seq<RawTick>>, cnt: int, k: int) -> int
    decreases 6 - k
{
    if k >= 6 {
        6
    } else if strings[k].len() != cnt {
        k
    } else {
        mismatch_track(strings, cnt, k + 1)
    }
}

/// The measure count a partline contributed.
pub open spec fn measure_span(pl: Partline) -> int {
    pl.measures.end - pl.measures.start
}

/// The first partline whose measure count differs from the first line's;
/// 6 when all agree.
pub open spec fn mismatch_measures(part: Seq<Partline>, k: int) -> int
    decreases 6 - k
{
    if k >= 6 {
        6
    } else if measure_span(part[k]) != measure_span(part[0]) {
        k
    } else {
        mismatch_measures(part, k + 1)
    }
}

/// The fret of a fretted element; 0 otherwise.
pub open spec fn fret_of(e: TabElement) -> u64 {
    match e {
        TabElement::Fret(f) => f,
        _ => 0,
    }
}

/// Absorb the displaced rest on every track that shows a one-character
/// element beside the multi-character fret of track `t_multi`, walking the
/// tracks from `s` up.
pub open spec fn fix_strings(
    part: Seq<Partline>,
    names: Seq<u8>,
    offsets: Seq<Seq<u32>>,
    t_multi: int,
    fret: u64,
    least: int,
    start_tick: int,
    tick_idx: int,
    s: int,
    strings: Seq<Seq<RawTick>>,
    measures: Seq<Seq<Measure>>,
    tick_count: int,
) -> Result<(Seq<Seq<RawTick>>, Seq<Seq<Measure>>, int), (BackendErrorKind, u32, usize)>
    decreases 6 - s
{
    if s >= 6 {
        Ok((strings, measures, tick_count))
    } else {
        let elem = strings[s][tick_idx].element;
        let onechar = match elem {
            TabElement::Fret(x) => x < 10,
            _ => true,
        };
        if onechar {
            let track = strings[s];
            let idx_rm = if tick_idx + 1 < track.len() && track[tick_idx + 1].element is Rest {
                tick_idx + 1
            } else if tick_idx >= start_tick + 1 && tick_idx - 1 < track.len() && track[tick_idx
                - 1].element is Rest {
                // a rest before the tick may be absorbed only inside this
                // part, never from the part before it
                tick_idx - 1
            } else {
                -1
            };
            if idx_rm < 0 {
                Err((
                    BackendErrorKind::BadMulticharTick {
                        multichar_name: names[t_multi],
                        multichar_fret: fret,
                        invalid_name: names[s],
                        invalid: elem,
                        tick_idx: tick_idx as u32,
                    },
                    guarded_offset(offsets[s], tick_idx),
                    s as usize,
                ))
            } else {
                let strings2 = strings.update(s, track.remove(idx_rm));
                let measures2 = measures.update(
                    s,
                    shift_measures(measures[s], part[s].measures, idx_rm),
                );
                let tc2 = if s == least {
                    tick_count - 1
                } else {
                    tick_count
                };
                fix_strings(
                    part, names, offsets, t_multi, fret, least, start_tick, tick_idx, s + 1,
                    strings2, measures2, tc2,
                )
            }
        } else {
            fix_strings(
                part, names, offsets, t_multi, fret, least, start_tick, tick_idx, s + 1, strings,
                measures, tick_count,
            )
        }
    }
}

/// The multichar-fixup pass over one completed part, from tick
/// `tick_idx` on: find each tick where some track holds a multi-character
/// fret and absorb the displaced rests on the other tracks. A track that
/// runs out of ticks is an irreconcilable mismatch and fails the part.
pub open spec fn fixup_rec(
    part: Seq<Partline>,
    names: Seq<u8>,
    offsets: Seq<Seq<u32>>,
    least: int,
    start_tick: int,
    tick_idx: int,
    tick_count: int,
    strings: Seq<Seq<RawTick>>,
    measures: Seq<Seq<Measure>>,
) -> Result<(Seq<Seq<RawTick>>, Seq<Seq<Measure>>), (BackendErrorKind, u32, usize)>
    decreases (if tick_count - tick_idx > 0 { tick_count - tick_idx } else { 0 }) via fixup_rec_decreases
{
    if tick_idx >= tick_count {
        // after the repair every track must agree on tick and measure
        // counts; a leftover mismatch is irreconcilable
        let bad = mismatch_track(strings, tick_count, 0);
        if bad < 6 {
            Err((
                BackendErrorKind::BadMulticharTick {
                    multichar_name: names[least],
                    multichar_fret: 0,
                    invalid_name: names[bad],
                    invalid: TabElement::Rest,
                    tick_idx: tick_count as u32,
                },
                guarded_offset(offsets[bad], tick_count),
                bad as usize,
            ))
        } else {
            let badm = mismatch_measures(part, 0);
            if badm < 6 {
                Err((
                    BackendErrorKind::BadMulticharTick {
                        multichar_name: names[least],
                        multichar_fret: 0,
                        invalid_name: names[badm],
                        invalid: TabElement::Rest,
                        tick_idx: tick_count as u32,
                    },
                    guarded_offset(offsets[badm], tick_count),
                    badm as usize,
                ))
            } else {
                Ok((strings, measures))
            }
        }
    } else {
        let short = short_track(strings, tick_idx, 0);
        if short < 6 {
            Err((
                BackendErrorKind::BadMulticharTick {
                    multichar_name: names[least],
                    multichar_fret: 0,
                    invalid_name: names[short],
                    invalid: TabElement::Rest,
                    tick_idx: tick_idx as u32,
                },
                guarded_offset(offsets[short], tick_idx),
                short as usize,
            ))
        } else {
            let t = first_fret10(strings, tick_idx, 0);
            if t >= 6 {
                fixup_rec(
                    part, names, offsets, least, start_tick, tick_idx + 1, tick_count, strings,
                    measures,
                )
            } else {
                let t2 = first_fret10(strings, tick_idx, t + 1);
                if t2 < 6 {
                    // two tracks hold a multi-character fret at one tick: a
                    // fatal ambiguity, never silently resolved
                    Err((
                        BackendErrorKind::BothSlotsMultichar(t as usize),
                        guarded_offset(offsets[t2], tick_idx),
                        t2 as usize,
                    ))
                } else {
                    let fret = fret_of(strings[t][tick_idx].element);
                    match fix_strings(
                        part, names, offsets, t, fret, least, start_tick, tick_idx, 0, strings,
                        measures, tick_count,
                    ) {
                        Err(e) => Err(e),
                        Ok((s2, m2, tc2)) => fixup_rec(
                            part, names, offsets, least, start_tick, tick_idx + 1, tc2, s2, m2,
                        ),
                    }
                }
            }
        }
    }
}

/// Repair the multi-character fret alignment of one completed part, from
/// tick `start_tick` on: wherever one track shows a fret of two or more
/// digits, every other track absorbs the rest its extra columns displaced,
/// and that track's measure ranges shift accordingly. A tick with no
/// absorbable rest, or a track that runs out of ticks, fails the part with
/// the ambiguity pinned to a source offset.
#[verifier::rlimit(100)]
pub fn fixup_part(
    start_tick: usize,
    part: &Vec<Partline>,
    strings: &mut Vec<Vec<RawTick>>,
    measures: &mut Vec<Vec<Measure>>,
    offsets: &Vec<Vec<u32>>,
    string_names: &Vec<u8>,
) -> (r: Result<(), (BackendErrorKind, u32, usize)>)
    requires
        part@.len() == 6,
        old(strings)@.len() == 6,
        old(measures)@.len() == 6,
        offsets@.len() == 6,
        string_names@.len() == 6,
        forall|s: int, j: int| 0 <= s < 6 && 0 <= j < offsets@[s]@.len()
            ==> (#[trigger] offsets@[s]@[j]) < 0xFFFF0000u32,
        forall|s: int| 0 <= s < 6
            ==> (#[trigger] part@[s]).measures.wf() && part@[s].measures.end
                <= old(measures)@[s]@.len(),
        forall|s: int| 0 <= s < 6 ==> (#[trigger] old(strings)@[s])@.len() <= MAX_DOC,
        forall|s: int, j: int| 0 <= s < 6 && 0 <= j < old(measures)@[s]@.len()
            ==> (#[trigger] old(measures)@[s]@[j]).content.wf(),
        start_tick <= MAX_DOC,
    ensures
        ({
            let lt = least_of(views_of(old(strings)@), 0);
            let fr = fixup_rec(
                part@,
                string_names@,
                views_of(offsets@),
                lt.1,
                start_tick as int,
                start_tick as int,
                lt.0,
                views_of(old(strings)@),
                views_of(old(measures)@),
            );
            &&& (fr is Ok <==> r is Ok)
            &&& fr matches Ok(t) ==> views_of(final(strings)@) == t.0
                && views_of(final(measures)@) == t.1
            &&& fr matches Err(e) ==> r == Err::<(), (BackendErrorKind, u32, usize)>(e)
        }),
        final(strings)@.len() == 6,
        final(measures)@.len() == 6,
        forall|s: int| 0 <= s < 6
            ==> (#[trigger] final(strings)@[s])@.len() <= old(strings)@[s]@.len(),
        forall|s: int| 0 <= s < 6
            ==> (#[trigger] final(measures)@[s])@.len() == old(measures)@[s]@.len(),
        forall|s: int, j: int| 0 <= s < 6 && 0 <= j < final(measures)@[s]@.len()
            ==> (#[trigger] final(measures)@[s]@[j]).content.wf(),
{
    let ghost v0 = views_of(old(strings)@);
    let ghost m0 = views_of(old(measures)@);
    let ghost offv = views_of(offsets@);

    // the track with the fewest ticks has the most two-character frets
    let mut least: usize = 5;
    let mut tick_count: usize = strings[5].len();
    let mut k: usize = 5;
    while k > 0
        invariant
            0 <= k <= 5,
            strings@.len() == 6,
            v0 == views_of(strings@),
            least_of(v0, k as int) == (tick_count as int, least as int),
            least < 6,
        decreases k,
    {
        k -= 1;
        let l = strings[k].len();
        if l < tick_count || (l == tick_count && k < least) {
            tick_count = l;
            least = k;
        }
    }
    proof {
        assert(least_of(v0, 0) == (tick_count as int, least as int));
    }
    let ghost full = fixup_rec(
        part@, string_names@, offv, least as int, start_tick as int, start_tick as int,
        tick_count as int, v0, m0,
    );

    let mut tick_idx = start_tick;
    while tick_idx < tick_count
        invariant
            part@.len() == 6,
            strings@.len() == 6,
            measures@.len() == 6,
            offsets@.len() == 6,
            string_names@.len() == 6,
            offv == views_of(offsets@),
            least < 6,
            forall|s: int, j: int| 0 <= s < 6 && 0 <= j < offsets@[s]@.len()
                ==> (#[trigger] offsets@[s]@[j]) < 0xFFFF0000u32,
            forall|s: int| 0 <= s < 6
                ==> (#[trigger] part@[s]).measures.wf() && part@[s].measures.end
                    <= measures@[s]@.len(),
            full == fixup_rec(
                part@,
                string_names@,
                offv,
                least as int,
                start_tick as int,
                tick_idx as int,
                tick_count as int,
                views_of(strings@),
                views_of(measures@),
            ),
            forall|s: int| 0 <= s < 6
                ==> (#[trigger] strings@[s])@.len() <= old(strings)@[s]@.len(),
            forall|s: int| 0 <= s < 6
                ==> (#[trigger] measures@[s])@.len() == old(measures)@[s]@.len(),
            forall|s: int| 0 <= s < 6 ==> (#[trigger] old(strings)@[s])@.len() <= MAX_DOC,
            tick_count <= MAX_DOC,
            start_tick <= MAX_DOC,
            v0 == views_of(old(strings)@),
            m0 == views_of(old(measures)@),
            full == fixup_rec(
                part@, string_names@, offv, least as int, start_tick as int, start_tick as int,
                least_of(v0, 0).0, v0, m0,
            ),
            least as int == least_of(v0, 0).1,
            forall|s: int, j: int| 0 <= s < 6 && 0 <= j < measures@[s]@.len()
                ==> (#[trigger] measures@[s]@[j]).content.wf(),
        decreases (if (tick_count as int) - (tick_idx as int) > 0 {
            (tick_count as int) - (tick_idx as int)
        } else {
            0int
        }),
    {
        let ghost vit = views_of(strings@);
        let ghost mit = views_of(measures@);
        let ghost tcit = tick_count as int;
        // every track must still reach this tick
        let mut short: usize = 6;
        let mut s: usize = 0;
        while s < 6 && short == 6
            invariant
                0 <= s <= 6,
                strings@.len() == 6,
                vit == views_of(strings@),
                short == 6 ==> short_track(vit, tick_idx as int, 0) == short_track(
                    vit,
                    tick_idx as int,
                    s as int,
                ),
                short < 6 ==> short_track(vit, tick_idx as int, 0) == short as int,
                short <= 6,
            decreases 6 - s + (if short == 6 { 1int } else { 0int }),
        {
            if strings[s].len() <= tick_idx {
                short = s;
            } else {
                s += 1;
            }
        }
        if short < 6 {
            let offs_s = &offsets[short];
            let off = if tick_idx + 1 < offs_s.len() {
                offs_s[tick_idx + 1]
            } else if offs_s.len() > 0 {
                offs_s[offs_s.len() - 1] + 1
            } else {
                0
            };
            let e = (
                BackendErrorKind::BadMulticharTick {
                    multichar_name: string_names[least],
                    multichar_fret: 0,
                    invalid_name: string_names[short],
                    invalid: TabElement::Rest,
                    tick_idx: tick_idx as u32,
                },
                off,
                short,
            );
            proof {
                assert(short_track(vit, tick_idx as int, 0) == short as int);
                assert(off == guarded_offset(offv[short as int], tick_idx as int));
                assert(full == fixup_rec(
                    part@, string_names@, offv, least as int, start_tick as int, tick_idx as int,
                    tcit, vit, mit,
                ));
                assert(full == Err::<
                    (Seq<Seq<RawTick>>, Seq<Seq<Measure>>),
                    (BackendErrorKind, u32, usize),
                >(e));
            }
            return Err(e);
        }
        proof {
            assert(short_track(vit, tick_idx as int, 6) == 6);
            assert(short_track(vit, tick_idx as int, 0) == 6);
            lemma_short_track_all(vit, tick_idx as int, 0);
        }
        // find the track showing a multi-character fret at this tick
        let mut t_multi: usize = 6;
        let mut fret: u64 = 0;
        let mut s2: usize = 0;
        while s2 < 6 && t_multi == 6
            invariant
                0 <= s2 <= 6,
                strings@.len() == 6,
                vit == views_of(strings@),
                short_track(vit, tick_idx as int, 0) == 6,
                forall|j: int| 0 <= j < 6 ==> (#[trigger] vit[j]).len() > tick_idx,
                t_multi == 6 ==> first_fret10(vit, tick_idx as int, 0) == first_fret10(
                    vit,
                    tick_idx as int,
                    s2 as int,
                ),
                t_multi < 6 ==> first_fret10(vit, tick_idx as int, 0) == t_multi as int
                    && fret == fret_of(vit[t_multi as int][tick_idx as int].element) && fret >= 10,
                t_multi <= 6,
            decreases 6 - s2 + (if t_multi == 6 { 1int } else { 0int }),
        {
            let mut advance = true;
            match strings[s2][tick_idx].element {
                TabElement::Fret(f) => {
                    if f >= 10 {
                        t_multi = s2;
                        fret = f;
                        advance = false;
                    }
                }
                _ => {}
            }
            if advance {
                s2 += 1;
            }
        }
        if t_multi >= 6 {
            proof {
                assert(first_fret10(vit, tick_idx as int, 0) == 6);
                assert(full == fixup_rec(
                    part@, string_names@, offv, least as int, start_tick as int, tick_idx + 1,
                    tcit, views_of(strings@), views_of(measures@),
                ));
            }
            tick_idx += 1;
            continue;
        }
        proof {
            assert(first_fret10(vit, tick_idx as int, 0) == t_multi as int);
            assert(fret == fret_of(vit[t_multi as int][tick_idx as int].element));
        }
        // a second track with a multi-character fret at the same tick is a
        // fatal ambiguity
        let mut t2: usize = 6;
        let mut s4: usize = t_multi + 1;
        while s4 < 6 && t2 == 6
            invariant
                t_multi < s4 <= 6 || (t_multi < 6 && s4 == t_multi + 1),
                t_multi + 1 <= s4 <= 6,
                strings@.len() == 6,
                vit == views_of(strings@),
                forall|j: int| 0 <= j < 6 ==> (#[trigger] vit[j]).len() > tick_idx,
                t2 == 6 ==> first_fret10(vit, tick_idx as int, t_multi + 1) == first_fret10(
                    vit,
                    tick_idx as int,
                    s4 as int,
                ),
                t2 < 6 ==> first_fret10(vit, tick_idx as int, t_multi + 1) == t2 as int,
                t2 <= 6,
            decreases 6 - s4 + (if t2 == 6 { 1int } else { 0int }),
        {
            let mut advance = true;
            match strings[s4][tick_idx].element {
                TabElement::Fret(f) => {
                    if f >= 10 {
                        t2 = s4;
                        advance = false;
                    }
                }
                _ => {}
            }
            if advance {
                s4 += 1;
            }
        }
        if t2 < 6 {
            let offs_s = &offsets[t2];
            let off = if tick_idx + 1 < offs_s.len() {
                offs_s[tick_idx + 1]
            } else if offs_s.len() > 0 {
                offs_s[offs_s.len() - 1] + 1
            } else {
                0
            };
            let e = (BackendErrorKind::BothSlotsMultichar(t_multi), off, t2);
            proof {
                assert(first_fret10(vit, tick_idx as int, t_multi + 1) == t2 as int);
                assert(off == guarded_offset(offv[t2 as int], tick_idx as int));
                assert(full == fixup_rec(
                    part@, string_names@, offv, least as int, start_tick as int, tick_idx as int,
                    tcit, vit, mit,
                ));
                assert(full == Err::<
                    (Seq<Seq<RawTick>>, Seq<Seq<Measure>>),
                    (BackendErrorKind, u32, usize),
                >(e));
            }
            return Err(e);
        }
        proof {
            assert(first_fret10(vit, tick_idx as int, t_multi + 1) == 6);
        }
        // absorb the displaced rest on every one-character track
        let ghost fsfull = fix_strings(
            part@, string_names@, offv, t_multi as int, fret, least as int, start_tick as int,
            tick_idx as int, 0, vit, mit, tcit,
        );
        let mut s3: usize = 0;
        while s3 < 6
            invariant
                0 <= s3 <= 6,
                part@.len() == 6,
                strings@.len() == 6,
                measures@.len() == 6,
                offsets@.len() == 6,
                string_names@.len() == 6,
                offv == views_of(offsets@),
                least < 6,
                t_multi < 6,
                tick_idx < tcit,
                forall|s: int, j: int| 0 <= s < 6 && 0 <= j < offsets@[s]@.len()
                    ==> (#[trigger] offsets@[s]@[j]) < 0xFFFF0000u32,
                forall|s: int| 0 <= s < 6
                    ==> (#[trigger] part@[s]).measures.wf() && part@[s].measures.end
                        <= measures@[s]@.len(),
                fsfull == fix_strings(
                    part@, string_names@, offv, t_multi as int, fret, least as int,
                    start_tick as int, tick_idx as int, s3 as int, views_of(strings@),
                    views_of(measures@), tick_count as int,
                ),
                fsfull == fix_strings(
                    part@, string_names@, offv, t_multi as int, fret, least as int,
                    start_tick as int, tick_idx as int, 0, vit, mit, tcit,
                ),
                full == fixup_rec(
                    part@, string_names@, offv, least as int, start_tick as int, tick_idx as int,
                    tcit, vit, mit,
                ),
                short_track(vit, tick_idx as int, 0) == 6,
                first_fret10(vit, tick_idx as int, 0) == t_multi as int,
                first_fret10(vit, tick_idx as int, t_multi + 1) == 6,
                fret == fret_of(vit[t_multi as int][tick_idx as int].element),
                start_tick <= MAX_DOC,
                forall|j: int| 0 <= j < 6 ==> (#[trigger] vit[j]).len() > tick_idx,
                forall|j: int| s3 <= j < 6 ==> (#[trigger] strings@[j])@ == vit[j],
                tick_idx <= MAX_DOC,
                forall|s: int| 0 <= s < 6 ==> (#[trigger] old(strings)@[s])@.len() <= MAX_DOC,
                tick_count as int <= tcit,
                tcit <= MAX_DOC,
                tcit - tick_count <= s3,
                s3 <= least ==> tick_count as int == tcit,
                forall|s: int, j: int| 0 <= s < 6 && 0 <= j < measures@[s]@.len()
                    ==> (#[trigger] measures@[s]@[j]).content.wf(),
                v0 == views_of(old(strings)@),
                m0 == views_of(old(measures)@),
                full == fixup_rec(
                    part@, string_names@, offv, least as int, start_tick as int, start_tick as int,
                    least_of(v0, 0).0, v0, m0,
                ),
                least as int == least_of(v0, 0).1,
                forall|s: int| 0 <= s < 6
                    ==> (#[trigger] strings@[s])@.len() <= old(strings)@[s]@.len(),
                forall|s: int| 0 <= s < 6
                    ==> (#[trigger] measures@[s])@.len() == old(measures)@[s]@.len(),
            decreases 6 - s3,
        {
            let ghost vcur = views_of(strings@);
            let ghost mcur = views_of(measures@);
            let elem = strings[s3][tick_idx].element;
            let onechar = match elem {
                TabElement::Fret(x) => x < 10,
                _ => true,
            };
            if onechar {
                let track_len = strings[s3].len();
                let idx_rm: usize = if tick_idx + 1 < track_len
                    && matches!(strings[s3][tick_idx + 1].element, TabElement::Rest) {
                    tick_idx + 1
                } else if tick_idx >= start_tick + 1 && tick_idx - 1 < track_len
                    && matches!(strings[s3][tick_idx - 1].element, TabElement::Rest) {
                    tick_idx - 1
                } else {
                    usize::MAX
                };
                if idx_rm == usize::MAX {
                    let offs_s = &offsets[s3];
                    let off = if tick_idx + 1 < offs_s.len() {
                        offs_s[tick_idx + 1]
                    } else if offs_s.len() > 0 {
                        offs_s[offs_s.len() - 1] + 1
                    } else {
                        0
                    };
                    let e = (
                        BackendErrorKind::BadMulticharTick {
                            multichar_name: string_names[t_multi],
                            multichar_fret: fret,
                            invalid_name: string_names[s3],
                            invalid: elem,
                            tick_idx: tick_idx as u32,
                        },
                        off,
                        s3,
                    );
                    proof {
                        assert(off == guarded_offset(offv[s3 as int], tick_idx as int));
                        assert(fsfull == fix_strings(
                            part@, string_names@, offv, t_multi as int, fret, least as int,
                            start_tick as int, tick_idx as int, s3 as int, vcur, mcur,
                            tick_count as int,
                        ));
                        assert(fsfull == Err::<
                            (Seq<Seq<RawTick>>, Seq<Seq<Measure>>, int),
                            (BackendErrorKind, u32, usize),
                        >(e));
                        assert(full == fixup_rec(
                            part@, string_names@, offv, least as int, start_tick as int,
                            tick_idx as int, tcit, vit, mit,
                        ));
                        assert(full == Err::<
                            (Seq<Seq<RawTick>>, Seq<Seq<Measure>>),
                            (BackendErrorKind, u32, usize),
                        >(e));
                    }
                    return Err(e);
                }
                // remove the absorbed rest from this track
                let mut track = strings.remove(s3);
                track.remove(idx_rm);
                strings.insert(s3, track);
                proof {
                    assert(views_of(strings@) =~= vcur.update(
                        s3 as int,
                        vcur[s3 as int].remove(idx_rm as int),
                    ));
                }
                // shift this track's measure ranges past the removal
                let mut mb = measures.remove(s3);
                let ghost mb0 = mb@;
                let rng = part[s3].measures;
                let mut mi = rng.start;
                while mi < rng.end
                    invariant
                        rng.start <= mi <= rng.end,
                        rng.end <= mb@.len(),
                        mb@.len() == mb0.len(),
                        forall|j: int| rng.start <= j < mi
                            ==> mb@[j] == shift_one(mb0[j], idx_rm as int),
                        forall|j: int| (0 <= j < rng.start || mi <= j < mb@.len())
                            ==> mb@[j] == mb0[j],
                        forall|j: int| 0 <= j < mb@.len() ==> (#[trigger] mb@[j]).content.wf(),
                        forall|j: int| 0 <= j < mb0.len() ==> (#[trigger] mb0[j]).content.wf(),
                        idx_rm <= MAX_DOC,
                    decreases rng.end - mi,
                {
                    let m = mb[mi];
                    let m2 = if m.content.start > idx_rm {
                        Measure {
                            content: IdxRange {
                                start: m.content.start - 1,
                                end: m.content.end - 1,
                            },
                            ..m
                        }
                    } else if m.content.end > idx_rm {
                        Measure {
                            content: IdxRange { start: m.content.start, end: m.content.end - 1 },
                            ..m
                        }
                    } else {
                        m
                    };
                    proof {
                        assert(m2 == shift_one(mb0[mi as int], idx_rm as int));
                        assert(m2.content.wf());
                    }
                    mb.set(mi, m2);
                    mi += 1;
                }
                proof {
                    assert(mb@ =~= shift_measures(mb0, rng, idx_rm as int));
                }
                measures.insert(s3, mb);
                proof {
                    assert(views_of(measures@) =~= mcur.update(
                        s3 as int,
                        shift_measures(mcur[s3 as int], part@[s3 as int].measures, idx_rm as int),
                    ));
                }
                if s3 == least {
                    tick_count = tick_count - 1;
                }
                proof {
                    assert(fix_strings(
                        part@, string_names@, offv, t_multi as int, fret, least as int,
                        start_tick as int, tick_idx as int, s3 as int, vcur, mcur, (if s3
                            == least {
                            tick_count + 1
                        } else {
                            tick_count as int
                        }),
                    ) == fix_strings(
                        part@, string_names@, offv, t_multi as int, fret, least as int,
                        start_tick as int, tick_idx as int, s3 + 1, views_of(strings@),
                        views_of(measures@), tick_count as int,
                    ));
                }
            } else {
                proof {
                    assert(fix_strings(
                        part@, string_names@, offv, t_multi as int, fret, least as int,
                        start_tick as int, tick_idx as int, s3 as int, vcur, mcur,
                        tick_count as int,
                    ) == fix_strings(
                        part@, string_names@, offv, t_multi as int, fret, least as int,
                        start_tick as int, tick_idx as int, s3 + 1, vcur, mcur,
                        tick_count as int,
                    ));
                }
            }
            s3 += 1;
        }
        proof {
            assert(fsfull == Ok::<_, (BackendErrorKind, u32, usize)>((
                views_of(strings@),
                views_of(measures@),
                tick_count as int,
            )));
            assert(full == fixup_rec(
                part@, string_names@, offv, least as int, start_tick as int, tick_idx + 1,
                tick_count as int, views_of(strings@), views_of(measures@),
            ));
        }
        tick_idx += 1;
    }
    // all six tracks must agree on tick and measure counts
    let mut bad: usize = 6;
    let mut s5: usize = 0;
    while s5 < 6 && bad == 6
        invariant
            0 <= s5 <= 6,
            strings@.len() == 6,
            bad == 6 ==> mismatch_track(views_of(strings@), tick_count as int, 0)
                == mismatch_track(views_of(strings@), tick_count as int, s5 as int),
            bad < 6 ==> mismatch_track(views_of(strings@), tick_count as int, 0) == bad as int,
            bad <= 6,
        decreases 6 - s5 + (if bad == 6 { 1int } else { 0int }),
    {
        if strings[s5].len() != tick_count {
            bad = s5;
        } else {
            s5 += 1;
        }
    }
    if bad == 6 {
        proof {
            assert(mismatch_track(views_of(strings@), tick_count as int, 6) == 6);
        }
        let mut s6: usize = 0;
        let span0 = part[0].measures.end - part[0].measures.start;
        while s6 < 6 && bad == 6
            invariant
                0 <= s6 <= 6,
                part@.len() == 6,
                forall|s: int| 0 <= s < 6 ==> (#[trigger] part@[s]).measures.wf(),
                span0 == measure_span(part@[0]),
                bad == 6 ==> mismatch_measures(part@, 0) == mismatch_measures(part@, s6 as int),
                bad < 6 ==> mismatch_measures(part@, 0) == bad as int,
                bad <= 6,
            decreases 6 - s6 + (if bad == 6 { 1int } else { 0int }),
        {
            if part[s6].measures.end - part[s6].measures.start != span0 {
                bad = s6;
            } else {
                s6 += 1;
            }
        }
        proof {
            if bad == 6 {
                assert(mismatch_measures(part@, 6) == 6);
            }
        }
    }
    if bad < 6 {
        let offs_s = &offsets[bad];
        let off = if tick_count + 1 < offs_s.len() {
            offs_s[tick_count + 1]
        } else if offs_s.len() > 0 {
            offs_s[offs_s.len() - 1] + 1
        } else {
            0
        };
        let e = (
            BackendErrorKind::BadMulticharTick {
                multichar_name: string_names[least],
                multichar_fret: 0,
                invalid_name: string_names[bad],
                invalid: TabElement::Rest,
                tick_idx: tick_count as u32,
            },
            off,
            bad,
        );
        proof {
            assert(off == guarded_offset(offv[bad as int], tick_count as int));
            assert(full == Err::<
                (Seq<Seq<RawTick>>, Seq<Seq<Measure>>),
                (BackendErrorKind, u32, usize),
            >(e));
        }
        return Err(e);
    }
    proof {
        assert(full == Ok::<_, (BackendErrorKind, u32, usize)>((
            views_of(strings@),
            views_of(measures@),
        )));
    }
    Ok(())
}

/// The mathematical content of a `Parse2Result`.
pub ghost struct Parse2Model {
    pub diagnostics: Seq<Diagnostic>,
    pub sections: Seq<SecModel>,
    pub string_names: Seq<u8>,
    pub strings: Seq<Seq<RawTick>>,
    pub measures: Seq<Seq<Measure>>,
    pub offsets: Seq<Seq<u32>>,
}

/// The walking state of the section parser.
pub ghost struct P2State {
    pub diagnostics: Seq<Diagnostic>,
    pub sections: Seq<SecModel>,
    pub part_buf: Seq<Partline>,
    pub part_start_tick: int,
    pub string_names: Seq<u8>,
    pub strings: Seq<Seq<RawTick>>,
    pub measures: Seq<Seq<Measure>>,
    pub offsets: Seq<Seq<u32>>,
    pub source_offset: int,
}

/// One step of the section parser per line: a blank line separates (and is
/// diagnosed inside a part), a line starting with `//` stores a comment,
/// and any other line is a partline; a sixth partline completes a part,
/// which is repaired and appended to the sections.
pub open spec fn parse2_rec(lines: Seq<Vec<u8>>, i: int, st: P2State) -> Result<
    P2State,
    BackendError,
>
    decreases lines.len() - i when i >= 0
{
    if i >= lines.len() {
        Ok(st)
    } else {
        let line = lines[i]@;
        let t0 = line.skip(ws_prefix_len(line) as int);
        if crate::parser::trim_spec(line).len() == 0 {
            let st1 = if st.part_buf.len() > 0 {
                P2State {
                    diagnostics: st.diagnostics.push(Diagnostic {
                        severity: Severity::Warning,
                        location: ErrorLocation::LineOnly(i as usize),
                        kind: DiagnosticKind::EmptyLineInPart,
                    }),
                    ..st
                }
            } else {
                st
            };
            parse2_rec(lines, i + 1, P2State { source_offset: st1.source_offset + line.len() + 1, ..st1 })
        } else if t0.len() >= 2 && t0[0] == 47 && t0[1] == 47 {
            let st1 = if st.part_buf.len() > 0 {
                P2State {
                    diagnostics: st.diagnostics.push(Diagnostic {
                        severity: Severity::Warning,
                        location: ErrorLocation::LineOnly(i as usize),
                        kind: DiagnosticKind::CommentInPart,
                    }),
                    ..st
                }
            } else {
                st
            };
            let st2 = P2State { sections: st1.sections.push(SecModel::Comment(t0.skip(2))), ..st1 };
            parse2_rec(lines, i + 1, P2State { source_offset: st2.source_offset + line.len() + 1, ..st2 })
        } else {
            let k = st.part_buf.len() as int;
            let pr = partline_spec(line, i as usize, st.strings[k].len() as int, st.measures[k].len() as int);
            match pr.res {
                Err(p) => Err(BackendError {
                    main_location: ErrorLocation::LineOnly(i as usize),
                    relevant_lines: IdxRangeIncl { start: i as usize, end: i as usize },
                    kind: BackendErrorKind::InvalidPartlineSyntax(p as usize),
                }),
                Ok(pl) => {
                    let st1 = P2State {
                        strings: st.strings.update(k, st.strings[k] + pr.out.ticks),
                        measures: st.measures.update(k, st.measures[k] + pr.out.measures),
                        offsets: st.offsets.update(
                            k,
                            st.offsets[k] + pr.out.ticks.map_values(
                                |tk: RawTick| tick_offset(st.source_offset as u32, tk),
                            ),
                        ),
                        string_names: st.string_names.update(k, pl.string_name),
                        part_buf: st.part_buf.push(pl),
                        ..st
                    };
                    if st1.part_buf.len() == 6 {
                        let lt = least_of(st1.strings, 0);
                        match fixup_rec(
                            st1.part_buf,
                            st1.string_names,
                            st1.offsets,
                            lt.1,
                            st1.part_start_tick,
                            st1.part_start_tick,
                            lt.0,
                            st1.strings,
                            st1.measures,
                        ) {
                            Err(e) => Err(BackendError {
                                main_location: ErrorLocation::SourceOffset(e.1),
                                relevant_lines: IdxRangeIncl { start: e.2, end: e.2 },
                                kind: e.0,
                            }),
                            Ok(sm) => {
                                let st2 = P2State {
                                    strings: sm.0,
                                    measures: sm.1,
                                    sections: st1.sections.push(SecModel::Part(st1.part_buf)),
                                    part_buf: seq![],
                                    part_start_tick: sm.0[0].len() as int,
                                    ..st1
                                };
                                parse2_rec(lines, i + 1, P2State {
                                    source_offset: st2.source_offset + line.len() + 1,
                                    ..st2
                                })
                            }
                        }
                    } else {
                        parse2_rec(lines, i + 1, P2State {
                            source_offset: st1.source_offset + line.len() + 1,
                            ..st1
                        })
                    }
                }
            }
        }
    }
}

/// The starting state: six empty tracks and zeroed string names.
pub open spec fn parse2_init() -> P2State {
    P2State {
        diagnostics: seq![],
        sections: seq![],
        part_buf: seq![],
        part_start_tick: 0,
        string_names: seq![0u8, 0u8, 0u8, 0u8, 0u8, 0u8],
        strings: seq![seq![], seq![], seq![], seq![], seq![], seq![]],
        measures: seq![seq![], seq![], seq![], seq![], seq![], seq![]],
        offsets: seq![seq![], seq![], seq![], seq![], seq![], seq![]],
        source_offset: 0,
    }
}

/// What `Parser2::parse` returns on `lines`.
pub open spec fn parse2_spec(lines: Seq<Vec<u8>>) -> Result<Parse2Model, BackendError> {
    match parse2_rec(lines, 0, parse2_init()) {
        Ok(st) => Ok(Parse2Model {
            diagnostics: st.diagnostics,
            sections: st.sections,
            string_names: st.string_names,
            strings: st.strings,
            measures: st.measures,
            offsets: st.offsets,
        }),
        Err(e) => Err(e),
    }
}

/// The aggregate output of the section parser: the document's sections and
/// six per-string tick, measure and source-offset tables.
#[derive(Debug, Clone, PartialEq, Eq)]
pub struct Parse2Result {
    pub diagnostics: Vec<Diagnostic>,
    pub sections: Vec<Section>,
    pub string_names: Vec<u8>,
    pub strings: Vec<Vec<RawTick>>,
    pub measures: Vec<Vec<Measure>>,
    pub offsets: Vec<Vec<u32>>,
}

impl View for Parse2Result {
    type V = Parse2Model;

    open spec fn view(&self) -> Parse2Model {
        Parse2Model {
            diagnostics: self.diagnostics@,
            sections: self.sections@.map_values(|x: Section| sec_view(x)),
            string_names: self.string_names@,
            strings: views_of(self.strings@),
            measures: views_of(self.measures@),
            offsets: views_of(self.offsets@),
        }
    }
}

/// The section parser with its tracking switches.
pub struct Parser2 {
    pub track_measures: bool,
    pub track_sections: bool,
    pub track_offsets: bool,
}

impl Default for Parser2 {
    /// Track everything.
    fn default() -> (r: Self)
        ensures
            r.track_measures && r.track_sections && r.track_offsets,
    {
        Parser2 { track_measures: true, track_sections: true, track_offsets: true }
    }
}

/// Length of the leading ASCII-whitespace run of `s`.
fn ws_prefix_exec(s: &[u8]) -> (a: usize)
    ensures
        a == ws_prefix_len(s@),
        a <= s@.len(),
{
    proof {
        assert(s@.skip(0) =~= s@);
    }
    let mut a: usize = 0;
    while a < s.len() && (s[a] == 32 || (9 <= s[a] && s[a] <= 13))
        invariant
            0 <= a <= s@.len(),
            ws_prefix_len(s@) == a + ws_prefix_len(s@.skip(a as int)),
        decreases s@.len() - a,
    {
        proof {
            assert(s@.skip(a as int).drop_first() =~= s@.skip(a + 1));
            assert(ws_prefix_len(s@.skip(a as int)) == 1 + ws_prefix_len(s@.skip(a + 1)));
        }
        a += 1;
    }
    proof {
        assert(ws_prefix_len(s@.skip(a as int)) == 0);
    }
    a
}

impl Parser2 {
    /// Parse a whole document into sections: blank lines separate, `//`
    /// lines are stored as comments, and every six consecutive part lines
    /// form a part whose multi-character frets are repaired before it is
    /// appended. The first failure is returned with its location; the
    /// tracking switches are accepted for compatibility and do not change
    /// what is recorded.
    #[verifier::rlimit(100)]
    pub fn parse(&self, lines: &[Vec<u8>]) -> (r: Result<Parse2Result, BackendError>)
        requires
            lines@.len() <= MAX_LINES,
            total_len(views_of(lines@)) <= MAX_DOC,
        ensures
            ({
                let sp = parse2_spec(lines@);
                &&& (r is Ok <==> sp is Ok)
                &&& r matches Ok(p2) ==> sp == Ok::<Parse2Model, BackendError>(p2@)
                &&& r matches Err(e) ==> sp == Err::<Parse2Model, BackendError>(e)
            }),
    {
        let mut diagnostics: Vec<Diagnostic> = Vec::new();
        let mut sections: Vec<Section> = Vec::new();
        let mut part_buf: Vec<Partline> = Vec::new();
        let mut part_start_tick: usize = 0;
        let mut string_names: Vec<u8> = vec![0, 0, 0, 0, 0, 0];
        let mut strings: Vec<Vec<RawTick>> = Vec::new();
        let mut measures: Vec<Vec<Measure>> = Vec::new();
        let mut offsets: Vec<Vec<u32>> = Vec::new();
        let mut j6: usize = 0;
        while j6 < 6
            invariant
                0 <= j6 <= 6,
                strings@.len() == j6,
                measures@.len() == j6,
                offsets@.len() == j6,
                forall|k: int| 0 <= k < j6 ==> (#[trigger] strings@[k])@.len() == 0,
                forall|k: int| 0 <= k < j6 ==> (#[trigger] measures@[k])@.len() == 0,
                forall|k: int| 0 <= k < j6 ==> (#[trigger] offsets@[k])@.len() == 0,
            decreases 6 - j6,
        {
            strings.push(Vec::new());
            measures.push(Vec::new());
            offsets.push(Vec::new());
            j6 += 1;
        }
        let ghost lv = views_of(lines@);
        let mut source_offset: u32 = 0;
        let mut i: usize = 0;
        let ghost full = parse2_rec(lines@, 0, parse2_init());
        proof {
            assert(views_of(strings@) =~~= parse2_init().strings);
            assert(views_of(measures@) =~~= parse2_init().measures);
            assert(views_of(offsets@) =~~= parse2_init().offsets);
            assert(string_names@ =~= parse2_init().string_names);
            assert(sections@.map_values(|x: Section| sec_view(x)) =~= parse2_init().sections);
            assert(lines@.take(0int) =~= Seq::<Vec<u8>>::empty());
            assert(lv.take(0int) =~= Seq::<Seq<u8>>::empty());
        }
        while i < lines.len()
            invariant
                lv == views_of(lines@),
                lines@.len() <= MAX_LINES,
                total_len(lv) <= MAX_DOC,
                0 <= i <= lines@.len(),
                strings@.len() == 6,
                measures@.len() == 6,
                offsets@.len() == 6,
                string_names@.len() == 6,
                part_buf@.len() <= 5,
                source_offset as int == total_len(lv.take(i as int)) + i,
                full == parse2_rec(lines@, 0, parse2_init()),
                ({
                    let cur = P2State {
                        diagnostics: diagnostics@,
                        sections: sections@.map_values(|x: Section| sec_view(x)),
                        part_buf: part_buf@,
                        part_start_tick: part_start_tick as int,
                        string_names: string_names@,
                        strings: views_of(strings@),
                        measures: views_of(measures@),
                        offsets: views_of(offsets@),
                        source_offset: source_offset as int,
                    };
                    full == parse2_rec(lines@, i as int, cur)
                }),
                forall|k: int| 0 <= k < 6
                    ==> (#[trigger] strings@[k])@.len() <= total_len(lv.take(i as int)),
                forall|k: int| 0 <= k < 6
                    ==> (#[trigger] measures@[k])@.len() <= total_len(lv.take(i as int)) + i,
                forall|k: int, j: int| 0 <= k < 6 && 0 <= j < offsets@[k]@.len()
                    ==> (#[trigger] offsets@[k]@[j]) < 0xFFFF0000u32,
                forall|k: int, j: int| 0 <= k < 6 && 0 <= j < measures@[k]@.len()
                    ==> (#[trigger] measures@[k]@[j]).content.wf(),
                forall|j: int| 0 <= j < part_buf@.len()
                    ==> (#[trigger] part_buf@[j]).measures.wf() && part_buf@[j].measures.end
                        <= measures@[j]@.len(),
                part_start_tick <= MAX_DOC,
            decreases lines@.len() - i,
        {
            let ghost stit = P2State {
                diagnostics: diagnostics@,
                sections: sections@.map_values(|x: Section| sec_view(x)),
                part_buf: part_buf@,
                part_start_tick: part_start_tick as int,
                string_names: string_names@,
                strings: views_of(strings@),
                measures: views_of(measures@),
                offsets: views_of(offsets@),
                source_offset: source_offset as int,
            };
            proof {
                crate::parser::lemma_total_len_step(lv, i as int);
                crate::parser::lemma_total_len_take_le(lv, i + 1);
                crate::parser::lemma_total_len_nonneg(lv.take(i as int));
                crate::parser::lemma_total_len_elem(lv, i as int);
                assert(lv[i as int] == lines@[i as int]@);
            }
            let line: &Vec<u8> = &lines[i];
            let t = crate::parser::trim(line.as_slice());
            if t.len() == 0 {
                if part_buf.len() > 0 {
                    diagnostics.push(Diagnostic::warn(
                        ErrorLocation::LineOnly(i),
                        DiagnosticKind::EmptyLineInPart,
                    ));
                }
                source_offset = source_offset + (line.len() as u32) + 1;
                proof {
                    let stn = P2State {
                        diagnostics: diagnostics@,
                        source_offset: source_offset as int,
                        ..stit
                    };
                    assert(parse2_rec(lines@, i as int, stit) == parse2_rec(lines@, i + 1, stn));
                }
                i += 1;
                continue;
            }
            let a = ws_prefix_exec(line.as_slice());
            let t0 = vstd::slice::slice_subrange(line.as_slice(), a, line.len());
            if t0.len() >= 2 && t0[0] == 47 && t0[1] == 47 {
                if part_buf.len() > 0 {
                    diagnostics.push(Diagnostic::warn(
                        ErrorLocation::LineOnly(i),
                        DiagnosticKind::CommentInPart,
                    ));
                }
                // split the comment text off through the line recognizer
                let text: Vec<u8> = match comment_line(t0) {
                    Some((rem, com)) => {
                        let mut v = vstd::slice::slice_to_vec(com);
                        let mut j: usize = 0;
                        while j < rem.len()
                            invariant
                                0 <= j <= rem@.len(),
                                v@ == com@ + rem@.take(j as int),
                            decreases rem@.len() - j,
                        {
                            v.push(rem[j]);
                            proof {
                                assert(v@ =~= com@ + rem@.take(j + 1));
                            }
                            j += 1;
                        }
                        proof {
                            assert(rem@.take(rem@.len() as int) =~= rem@);
                        }
                        v
                    }
                    None => vstd::slice::slice_to_vec(
                        vstd::slice::slice_subrange(t0, 2, t0.len()),
                    ),
                };
                proof {
                    lemma_line_break_pos_bounds(t0@, 2);
                    assert(text@ =~= t0@.skip(2));
                }
                sections.push(Section::Comment(text));
                source_offset = source_offset + (line.len() as u32) + 1;
                proof {
                    assert(sections@.map_values(|x: Section| sec_view(x)) =~= stit.sections.push(
                        SecModel::Comment(line@.skip(ws_prefix_len(line@) as int).skip(2)),
                    ));
                    let stn = P2State {
                        diagnostics: diagnostics@,
                        sections: sections@.map_values(|x: Section| sec_view(x)),
                        source_offset: source_offset as int,
                        ..stit
                    };
                    assert(parse2_rec(lines@, i as int, stit) == parse2_rec(lines@, i + 1, stn));
                }
                i += 1;
                continue;
            }
            // a partline
            let k = part_buf.len();
            let ghost prspec = partline_spec(
                line@,
                i,
                stit.strings[k as int].len() as int,
                stit.measures[k as int].len() as int,
            );
            let mut sbuf = strings.remove(k);
            let mut mbuf = measures.remove(k);
            let mut obuf = offsets.remove(k);
            let pl_res = partline(line.as_slice(), i, source_offset, &mut sbuf, &mut mbuf, &mut obuf);
            match pl_res {
                Err(p) => {
                    let e = BackendError {
                        main_location: ErrorLocation::LineOnly(i),
                        relevant_lines: IdxRangeIncl { start: i, end: i },
                        kind: BackendErrorKind::InvalidPartlineSyntax(p),
                    };
                    proof {
                        assert(parse2_rec(lines@, i as int, stit) == Err::<P2State, BackendError>(e));
                    }
                    return Err(e);
                }
                Ok(pl) => {
                    strings.insert(k, sbuf);
                    measures.insert(k, mbuf);
                    offsets.insert(k, obuf);
                    string_names.set(k, pl.string_name);
                    part_buf.push(pl);
                    proof {
                        assert(line@.len() > 1);
                        crate::tab::lemma_partline_rec_bounds(
                            line@, 2, i, stit.strings[k as int].len() as int, 1,
                        );
                        crate::tab::lemma_partline_out_bounds(
                            line@, 2, i, stit.strings[k as int].len() as int, 1,
                        );
                        assert(views_of(strings@) =~= stit.strings.update(
                            k as int,
                            stit.strings[k as int] + prspec.out.ticks,
                        ));
                        assert(views_of(measures@) =~= stit.measures.update(
                            k as int,
                            stit.measures[k as int] + prspec.out.measures,
                        ));
                        assert(views_of(offsets@) =~= stit.offsets.update(
                            k as int,
                            stit.offsets[k as int] + prspec.out.ticks.map_values(
                                |tk: RawTick| tick_offset(source_offset, tk),
                            ),
                        ));
                        assert forall|kk: int, j: int| 0 <= kk < 6 && 0 <= j
                            < measures@[kk]@.len() implies (#[trigger] measures@[kk]@[j]).content.wf() by {
                            if kk == k as int {
                                if j < stit.measures[kk].len() {
                                    assert(measures@[kk]@[j] == stit.measures[kk][j]);
                                } else {
                                    assert(measures@[kk]@[j] == prspec.out.measures[j - stit.measures[kk].len()]);
                                }
                            } else {
                                assert(measures@[kk]@ == stit.measures[kk]);
                            }
                        }
                        assert forall|kk: int, j: int| 0 <= kk < 6 && 0 <= j
                            < offsets@[kk]@.len() implies (#[trigger] offsets@[kk]@[j]) < 0xFFFF0000u32 by {
                            if kk == k as int {
                                if j < stit.offsets[kk].len() {
                                    assert(offsets@[kk]@[j] == stit.offsets[kk][j]);
                                } else {
                                    let tk = prspec.out.ticks[j - stit.offsets[kk].len()];
                                    assert(offsets@[kk]@[j] == tick_offset(source_offset, tk));
                                    assert(tk.idx_on_parent_line < line@.len());
                                }
                            } else {
                                assert(offsets@[kk]@ == stit.offsets[kk]);
                            }
                        }
                    }
                    let ghost st1 = P2State {
                        strings: views_of(strings@),
                        measures: views_of(measures@),
                        offsets: views_of(offsets@),
                        string_names: string_names@,
                        part_buf: part_buf@,
                        ..stit
                    };
                    if part_buf.len() == 6 {
                        let fres = fixup_part(
                            part_start_tick,
                            &part_buf,
                            &mut strings,
                            &mut measures,
                            &offsets,
                            &string_names,
                        );
                        match fres {
                            Err((kind, off, sidx)) => {
                                let e = BackendError {
                                    main_location: ErrorLocation::SourceOffset(off),
                                    relevant_lines: IdxRangeIncl { start: sidx, end: sidx },
                                    kind,
                                };
                                proof {
                                    assert(parse2_rec(lines@, i as int, stit)
                                        == Err::<P2State, BackendError>(e));
                                }
                                return Err(e);
                            }
                            Ok(()) => {
                                let part_arr: [Partline; 6] = [
                                    part_buf[0],
                                    part_buf[1],
                                    part_buf[2],
                                    part_buf[3],
                                    part_buf[4],
                                    part_buf[5],
                                ];
                                proof {
                                    assert(part_arr@ =~= part_buf@);
                                }
                                sections.push(Section::Part { part: part_arr });
                                part_buf = Vec::new();
                                part_start_tick = strings[0].len();
                                source_offset = source_offset + (line.len() as u32) + 1;
                                proof {
                                    assert(sections@.map_values(|x: Section| sec_view(x))
                                        =~= st1.sections.push(SecModel::Part(st1.part_buf)));
                                    let stn = P2State {
                                        sections: sections@.map_values(|x: Section| sec_view(x)),
                                        part_buf: part_buf@,
                                        part_start_tick: part_start_tick as int,
                                        strings: views_of(strings@),
                                        measures: views_of(measures@),
                                        source_offset: source_offset as int,
                                        ..st1
                                    };
                                    assert(part_buf@ =~= Seq::<Partline>::empty());
                                    assert(parse2_rec(lines@, i as int, stit)
                                        == parse2_rec(lines@, i + 1, stn));
                                }
                                i += 1;
                            }
                        }
                    } else {
                        source_offset = source_offset + (line.len() as u32) + 1;
                        proof {
                            let stn = P2State { source_offset: source_offset as int, ..st1 };
                            assert(parse2_rec(lines@, i as int, stit) == parse2_rec(
                                lines@,
                                i + 1,
                                stn,
                            ));
                        }
                        i += 1;
                    }
                }
            }
        }
        proof {
            assert(lv.take(lv.len() as int) =~= lv);
        }
        let ghost stfin = P2State {
            diagnostics: diagnostics@,
            sections: sections@.map_values(|x: Section| sec_view(x)),
            part_buf: part_buf@,
            part_start_tick: part_start_tick as int,
            string_names: string_names@,
            strings: views_of(strings@),
            measures: views_of(measures@),
            offsets: views_of(offsets@),
            source_offset: source_offset as int,
        };
        proof {
            assert(full == parse2_rec(lines@, i as int, stfin));
            assert(full == Ok::<P2State, BackendError>(stfin));
        }
        let result = Parse2Result {
            diagnostics,
            sections,
            string_names,
            strings,
            measures,
            offsets,
        };
        proof {
            assert(result@ == (Parse2Model {
                diagnostics: stfin.diagnostics,
                sections: stfin.sections,
                string_names: stfin.string_names,
                strings: stfin.strings,
                measures: stfin.measures,
                offsets: stfin.offsets,
            }));
        }
        Ok(result)
    }
}

/// Absorption only ever lowers the running tick count, by at most one
/// per track.
proof fn lemma_fix_strings_bounds(
    part: Seq<Partline>,
    names: Seq<u8>,
    offsets: Seq<Seq<u32>>,
    t_multi: int,
    fret: u64,
    least: int,
    start_tick: int,
    tick_idx: int,
    s: int,
    strings: Seq<Seq<RawTick>>,
    measures: Seq<Seq<Measure>>,
    tick_count: int,
)
    requires
        s <= 6,
    ensures
        fix_strings(part, names, offsets, t_multi, fret, least, start_tick, tick_idx, s, strings, measures, tick_count)
            matches Ok(t) ==> tick_count - (6 - s) <= t.2 <= tick_count,
    decreases 6 - s,
{
    if s < 6 {
        let elem = strings[s][tick_idx].element;
        let onechar = match elem {
            TabElement::Fret(x) => x < 10,
            _ => true,
        };
        if onechar {
            let track = strings[s];
            let idx_rm = if tick_idx + 1 < track.len() && track[tick_idx + 1].element is Rest {
                tick_idx + 1
            } else if tick_idx >= start_tick + 1 && tick_idx - 1 < track.len() && track[tick_idx
                - 1].element is Rest {
                tick_idx - 1
            } else {
                -1
            };
            if idx_rm >= 0 {
                let strings2 = strings.update(s, track.remove(idx_rm));
                let measures2 = measures.update(
                    s,
                    shift_measures(measures[s], part[s].measures, idx_rm),
                );
                let tc2 = if s == least {
                    tick_count - 1
                } else {
                    tick_count
                };
                lemma_fix_strings_bounds(
                    part, names, offsets, t_multi, fret, least, start_tick, tick_idx, s + 1,
                    strings2, measures2, tc2,
                );
                assert(fix_strings(
                    part, names, offsets, t_multi, fret, least, start_tick, tick_idx, s, strings,
                    measures, tick_count,
                ) == fix_strings(
                    part, names, offsets, t_multi, fret, least, start_tick, tick_idx, s + 1,
                    strings2, measures2, tc2,
                ));
            }
        } else {
            lemma_fix_strings_bounds(
                part, names, offsets, t_multi, fret, least, start_tick, tick_idx, s + 1, strings,
                measures, tick_count,
            );
            assert(fix_strings(
                part, names, offsets, t_multi, fret, least, start_tick, tick_idx, s, strings,
                measures, tick_count,
            ) == fix_strings(
                part, names, offsets, t_multi, fret, least, start_tick, tick_idx, s + 1, strings,
                measures, tick_count,
            ));
        }
    }
}

#[via_fn]
proof fn fixup_rec_decreases(
    part: Seq<Partline>,
    names: Seq<u8>,
    offsets: Seq<Seq<u32>>,
    least: int,
    start_tick: int,
    tick_idx: int,
    tick_count: int,
    strings: Seq<Seq<RawTick>>,
    measures: Seq<Seq<Measure>>,
) {
    if tick_idx < tick_count && short_track(strings, tick_idx, 0) >= 6 {
        let t = first_fret10(strings, tick_idx, 0);
        if t < 6 && first_fret10(strings, tick_idx, t + 1) >= 6 {
            let fret = fret_of(strings[t][tick_idx].element);
            lemma_fix_strings_bounds(
                part, names, offsets, t, fret, least, start_tick, tick_idx, 0, strings, measures,
                tick_count,
            );
        }
    }
}

} // verus!
