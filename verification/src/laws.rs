//! The library's stated laws: properties of the parser model that hold
//! for every input, proved once and for all.

use vstd::prelude::*;

use crate::parser::{
    bsearch_measures, bsearch_offsets, dump_line, line_is_candidate, parse_from, parse_spec,
    pad_elem, prelude_step, scan6, fix6, slfs_spec, slwp_spec, spaces, tick_width,
    tick_width_rec, ticks_spec, total_len, width_sum, Measure, ParseModel,
};
use crate::tab::{
    elem_repr, partline_rec, repr_len, run_ticks, scan_elem, scan_next, is_digit, RawTick,
    TabElement,
};

verus! {

// ---------------------------------------------------------------------
// Measure partition
// ---------------------------------------------------------------------

/// The measure table partitions the tick stream: the first measure starts
/// at zero, each next one starts where the previous ended, every range is
/// well-formed and inside the stream, and a stream without measures is
/// empty.
pub open spec fn measures_chained(m: ParseModel) -> bool {
    &&& (m.measures.len() > 0 ==> m.measures[0].data_range.start == 0)
    &&& forall|i: int| 0 < i < m.measures.len()
        ==> (#[trigger] m.measures[i]).data_range.start == m.measures[i - 1].data_range.end
    &&& forall|i: int| 0 <= i < m.measures.len()
        ==> (#[trigger] m.measures[i]).data_range.start <= m.measures[i].data_range.end
            <= m.stream.len()
}

/// The last measure, when the parse succeeded, ends exactly at the end of
/// the stream.
pub open spec fn measures_close(m: ParseModel) -> bool {
    m.measures.len() > 0 ==> m.measures.last().data_range.end == m.stream.len()
}

proof fn lemma_scan6_chained(
    content: Seq<Seq<u8>>,
    p: Seq<usize>,
    s: int,
    flags: Seq<bool>,
    m: ParseModel,
    pfl: usize,
)
    requires
        0 <= s <= 6,
        measures_chained(m),
        m.stream.len() + (6 - s) <= usize::MAX,
    ensures
        scan6(content, p, s, flags, m, pfl) matches Ok(t) ==> measures_chained(t.2)
            && t.2.measures == m.measures && t.2.stream.len() == m.stream.len() + (6 - s)
            && t.2.error == m.error,
        scan6(content, p, s, flags, m, pfl) matches Err(me) ==> measures_chained(me)
            && me.measures == m.measures && me.stream.len() <= m.stream.len() + (6 - s)
            && me.error is Some,
    decreases 6 - s,
{
    if s < 6 {
        let line = content[s];
        let i = p[s] as int;
        match scan_elem(line, i) {
            None => {}
            Some(e) => {
                lemma_scan6_chained(
                    content,
                    p.update(s, scan_next(line, i) as usize),
                    s + 1,
                    flags.push(scan_next(line, i) - i > 1),
                    ParseModel { stream: m.stream.push(e), ..m },
                    pfl,
                );
            }
        }
    }
}

proof fn lemma_fix6_chained(
    content: Seq<Seq<u8>>,
    p: Seq<usize>,
    s: int,
    flags: Seq<bool>,
    m: ParseModel,
    pfl: usize,
)
    requires
        measures_chained(m),
        m.stream.len() + s >= 6,
    ensures
        fix6(content, p, s, flags, m, pfl) matches Ok(t) ==> measures_chained(t.1)
            && t.1.measures == m.measures && t.1.stream.len() == m.stream.len()
            && t.1.error == m.error,
        fix6(content, p, s, flags, m, pfl) matches Err(me) ==> measures_chained(me)
            && me.measures == m.measures && me.error is Some,
    decreases 6 - s,
{
    if s < 6 && !flags[s] {
        let elem_idx = m.stream.len() - (6 - s);
        let line = content[s];
        let i = p[s] as int;
        if m.stream[elem_idx] is Rest {
            match scan_elem(line, i) {
                None => {}
                Some(e2) => {
                    let j = scan_next(line, i);
                    if !(j - i > 1) {
                        lemma_fix6_chained(
                            content,
                            p.update(s, j as usize),
                            s + 1,
                            flags,
                            ParseModel { stream: m.stream.update(elem_idx, e2), ..m },
                            pfl,
                        );
                    }
                }
            }
        } else {
            if 0 <= i < line.len() && line[i] == 45 {
                lemma_fix6_chained(content, p.update(s, (i + 1) as usize), s + 1, flags, m, pfl);
            }
        }
    } else if s < 6 {
        lemma_fix6_chained(content, p, s + 1, flags, m, pfl);
    }
}

/// Pushing the measure that closes at the current end of the stream keeps
/// the chain and closes it.
proof fn lemma_push_measure_chained(m: ParseModel)
    requires
        measures_chained(m),
        m.stream.len() <= usize::MAX,
    ensures
        ({
            let m2 = ParseModel {
                measures: m.measures.push(Measure {
                    data_range: crate::IdxRange {
                        start: crate::parser::next_measure_start(m),
                        end: m.stream.len() as usize,
                    },
                }),
                ..m
            };
            measures_chained(m2) && measures_close(m2) && m2.measures.len() > 0
        }),
{
    let m2 = ParseModel {
        measures: m.measures.push(Measure {
            data_range: crate::IdxRange {
                start: crate::parser::next_measure_start(m),
                end: m.stream.len() as usize,
            },
        }),
        ..m
    };
    assert forall|i: int| 0 < i < m2.measures.len() implies (#[trigger] m2.measures[i]).data_range.start
        == m2.measures[i - 1].data_range.end by {
        if i < m.measures.len() {
            assert(m2.measures[i] == m.measures[i]);
            assert(m2.measures[i - 1] == m.measures[i - 1]);
        } else {
            assert(m2.measures[i - 1] == m.measures[i - 1]);
            assert(m2.measures[i].data_range.start == crate::parser::next_measure_start(m));
        }
    }
    assert forall|i: int| 0 <= i < m2.measures.len() implies
        (#[trigger] m2.measures[i]).data_range.start <= m2.measures[i].data_range.end
            <= m2.stream.len() by {
        if i < m.measures.len() {
            assert(m2.measures[i] == m.measures[i]);
        }
    }
    if m.measures.len() > 0 {
        assert(m2.measures[0] == m.measures[0]);
    }
}

proof fn lemma_scan6_growth(
    content: Seq<Seq<u8>>,
    p: Seq<usize>,
    s: int,
    flags: Seq<bool>,
    m: ParseModel,
    pfl: usize,
)
    requires
        0 <= s <= 6,
    ensures
        scan6(content, p, s, flags, m, pfl) matches Ok(t) ==> t.2.stream.len()
            == m.stream.len() + (6 - s),
        scan6(content, p, s, flags, m, pfl) matches Err(me) ==> me.stream.len()
            <= m.stream.len() + (6 - s),
    decreases 6 - s,
{
    if s < 6 {
        let line = content[s];
        let i = p[s] as int;
        match scan_elem(line, i) {
            None => {}
            Some(e) => {
                lemma_scan6_growth(
                    content,
                    p.update(s, scan_next(line, i) as usize),
                    s + 1,
                    flags.push(scan_next(line, i) - i > 1),
                    ParseModel { stream: m.stream.push(e), ..m },
                    pfl,
                );
            }
        }
    }
}

proof fn lemma_fix6_len(
    content: Seq<Seq<u8>>,
    p: Seq<usize>,
    s: int,
    flags: Seq<bool>,
    m: ParseModel,
    pfl: usize,
)
    requires
        m.stream.len() + s >= 6,
        0 <= s <= 6,
    ensures
        fix6(content, p, s, flags, m, pfl) matches Ok(t) ==> t.1.stream.len() == m.stream.len(),
        fix6(content, p, s, flags, m, pfl) matches Err(me) ==> me.stream.len() == m.stream.len(),
    decreases 6 - s,
{
    if s < 6 && !flags[s] {
        let elem_idx = m.stream.len() - (6 - s);
        let line = content[s];
        let i = p[s] as int;
        if m.stream[elem_idx] is Rest {
            match scan_elem(line, i) {
                None => {}
                Some(e2) => {
                    let j = scan_next(line, i);
                    if !(j - i > 1) {
                        lemma_fix6_len(
                            content,
                            p.update(s, j as usize),
                            s + 1,
                            flags,
                            ParseModel { stream: m.stream.update(elem_idx, e2), ..m },
                            pfl,
                        );
                    }
                }
            }
        } else {
            if 0 <= i < line.len() && line[i] == 45 {
                lemma_fix6_len(content, p.update(s, (i + 1) as usize), s + 1, flags, m, pfl);
            }
        }
    } else if s < 6 {
        lemma_fix6_len(content, p, s + 1, flags, m, pfl);
    }
}

/// The stream grows by at most six elements per remaining tick.
proof fn lemma_ticks_growth(
    content: Seq<Seq<u8>>,
    p: Seq<usize>,
    tick: int,
    est: int,
    m: ParseModel,
    pfl: usize,
)
    ensures
        ticks_spec(content, p, tick, est, m, pfl).stream.len() <= m.stream.len() + 6 * (
        if est - tick > 0 {
            est - tick
        } else {
            0
        }),
    decreases (if est - tick > 0 { est - tick } else { 0 }),
{
    if tick < est {
        let sep = (p[0] as int) < content[0].len() && content[0][p[0] as int] == 124;
        let m1 = if sep {
            ParseModel {
                measures: m.measures.push(Measure {
                    data_range: crate::IdxRange {
                        start: crate::parser::next_measure_start(m),
                        end: m.stream.len() as usize,
                    },
                }),
                ..m
            }
        } else {
            m
        };
        let p1 = if sep {
            Seq::new(6, |k: int| (p[k] + 1) as usize)
        } else {
            p
        };
        let est1 = if sep {
            est - 1
        } else {
            est
        };
        match scan6(content, p1, 0, seq![], m1, pfl) {
            Err(me) => {
                lemma_scan6_growth(content, p1, 0, seq![], m1, pfl);
            }
            Ok((p2, flags, m2)) => {
                lemma_scan6_growth(content, p1, 0, seq![], m1, pfl);
                let fm = crate::parser::first_multi_from(flags, 0);
                if fm < 6 {
                    let fm2 = crate::parser::first_multi_from(flags, fm + 1);
                    if fm2 < 6 {
                    } else {
                        match fix6(content, p2, 0, flags, m2, pfl) {
                            Err(me) => {
                                lemma_fix6_len(content, p2, 0, flags, m2, pfl);
                            }
                            Ok((p3, m3)) => {
                                lemma_fix6_len(content, p2, 0, flags, m2, pfl);
                                lemma_ticks_growth(content, p3, tick + 1, est1 - 1, m3, pfl);
                            }
                        }
                    }
                } else {
                    lemma_ticks_growth(content, p2, tick + 1, est1, m2, pfl);
                }
            }
        }
    }
}

#[verifier::rlimit(100)]
proof fn lemma_ticks_chained(
    content: Seq<Seq<u8>>,
    p: Seq<usize>,
    tick: int,
    est: int,
    m: ParseModel,
    pfl: usize,
)
    requires
        measures_chained(m),
        m.stream.len() + 6 * (if est - tick > 0 { est - tick } else { 0 }) + 6 <= usize::MAX,
    ensures
        measures_chained(ticks_spec(content, p, tick, est, m, pfl)),
        m.error is None && ticks_spec(content, p, tick, est, m, pfl).error is None
            ==> measures_close(ticks_spec(content, p, tick, est, m, pfl)),
        ticks_spec(content, p, tick, est, m, pfl).error is None
            ==> ticks_spec(content, p, tick, est, m, pfl).measures.len() > 0,
    decreases (if est - tick > 0 { est - tick } else { 0 }),
{
    if tick >= est {
        lemma_push_measure_chained(m);
    } else {
        let sep = (p[0] as int) < content[0].len() && content[0][p[0] as int] == 124;
        let m1 = if sep {
            ParseModel {
                measures: m.measures.push(Measure {
                    data_range: crate::IdxRange {
                        start: crate::parser::next_measure_start(m),
                        end: m.stream.len() as usize,
                    },
                }),
                ..m
            }
        } else {
            m
        };
        let p1 = if sep {
            Seq::new(6, |k: int| (p[k] + 1) as usize)
        } else {
            p
        };
        let est1 = if sep {
            est - 1
        } else {
            est
        };
        if sep {
            lemma_push_measure_chained(m);
        }
        assert(measures_chained(m1));
        let res = ticks_spec(content, p, tick, est, m, pfl);
        match scan6(content, p1, 0, seq![], m1, pfl) {
            Err(me) => {
                lemma_scan6_chained(content, p1, 0, seq![], m1, pfl);
                assert(res == me);
            }
            Ok((p2, flags, m2)) => {
                lemma_scan6_chained(content, p1, 0, seq![], m1, pfl);
                assert(m2.stream.len() == m1.stream.len() + 6);
                let fm = crate::parser::first_multi_from(flags, 0);
                if fm < 6 {
                    let fm2 = crate::parser::first_multi_from(flags, fm + 1);
                    if fm2 < 6 {
                        // the aligned-multichar error keeps the state of the
                        // scanned tick
                        assert(res.measures == m2.measures);
                        assert(res.error is Some);
                    } else {
                        match fix6(content, p2, 0, flags, m2, pfl) {
                            Err(me) => {
                                lemma_fix6_chained(content, p2, 0, flags, m2, pfl);
                                assert(res == me);
                            }
                            Ok((p3, m3)) => {
                                lemma_fix6_chained(content, p2, 0, flags, m2, pfl);
                                lemma_ticks_chained(content, p3, tick + 1, est1 - 1, m3, pfl);
                                assert(res == ticks_spec(content, p3, tick + 1, est1 - 1, m3, pfl));
                            }
                        }
                    }
                } else {
                    lemma_ticks_chained(content, p2, tick + 1, est1, m2, pfl);
                    assert(res == ticks_spec(content, p2, tick + 1, est1, m2, pfl));
                }
            }
        }
    }
}

proof fn lemma_parse_from_chained(lines: Seq<Seq<u8>>, pfl: int, m: ParseModel)
    requires
        pfl >= 0,
        m.error is None,
        measures_chained(m),
        measures_close(m),
        m.measures.len() == 0 ==> m.stream.len() == 0,
        total_len(lines) <= crate::parser::MAX_DOC,
        lines.len() <= crate::parser::MAX_LINES,
        m.stream.len() <= 6 * total_len(lines.take(if pfl <= lines.len() { pfl } else { lines.len() as int })),
    ensures
        measures_chained(parse_from(lines, pfl, m)),
        parse_from(lines, pfl, m).error is None && m.error is None
            ==> measures_close(parse_from(lines, pfl, m)),
        parse_from(lines, pfl, m).error is None && m.error is None
            ==> (parse_from(lines, pfl, m).measures.len() == 0
                ==> parse_from(lines, pfl, m).stream.len() == 0),
    decreases lines.len() - pfl,
{
    if pfl + 5 >= lines.len() {
    } else if !(line_is_candidate(lines[pfl]) && line_is_candidate(lines[pfl + 5])) {
        crate::parser::lemma_total_len_step(lines, pfl);
        crate::parser::lemma_total_len_elem(lines, pfl);
        crate::parser::lemma_total_len_nonneg(lines.take(pfl));
        lemma_parse_from_chained(lines, pfl + 1, m);
    } else {
        crate::parser::lemma_total_len_step(lines, pfl);
        crate::parser::lemma_total_len_step(lines, pfl + 1);
        crate::parser::lemma_total_len_step(lines, pfl + 2);
        crate::parser::lemma_total_len_step(lines, pfl + 3);
        crate::parser::lemma_total_len_step(lines, pfl + 4);
        crate::parser::lemma_total_len_step(lines, pfl + 5);
        crate::parser::lemma_total_len_take_le(lines, pfl + 1);
        crate::parser::lemma_total_len_take_le(lines, pfl + 6);
        crate::parser::lemma_total_len_nonneg(lines.take(pfl));
        let m1 = ParseModel {
            offsets: m.offsets.push((pfl as usize, m.stream.len() as usize)),
            ..m
        };
        assert(measures_chained(m1));
        match prelude_step(lines, pfl as usize, 0, seq![], m1) {
            Err(me) => {
                lemma_prelude_chained(lines, pfl as usize, 0, seq![], m1);
            }
            Ok((content, m2)) => {
                lemma_prelude_chained(lines, pfl as usize, 0, seq![], m1);
                assert(m2.stream.len() <= 6 * total_len(lines.take(pfl)));
                assert(content[0].len() <= lines[pfl].len());
                assert(total_len(lines.take(pfl + 1)) <= crate::parser::MAX_DOC);
                let m3 = ticks_spec(
                    content,
                    seq![0, 0, 0, 0, 0, 0],
                    0,
                    content[0].len() as int,
                    m2,
                    pfl as usize,
                );
                lemma_ticks_growth(
                    content,
                    seq![0, 0, 0, 0, 0, 0],
                    0,
                    content[0].len() as int,
                    m2,
                    pfl as usize,
                );
                lemma_ticks_chained(
                    content,
                    seq![0, 0, 0, 0, 0, 0],
                    0,
                    content[0].len() as int,
                    m2,
                    pfl as usize,
                );
                if m3.error is Some {
                } else {
                    lemma_parse_from_chained(lines, pfl + 6, m3);
                }
            }
        }
    }
}

proof fn lemma_prelude_chained(
    lines: Seq<Seq<u8>>,
    pfl: usize,
    s: int,
    content: Seq<Seq<u8>>,
    m: ParseModel,
)
    requires
        measures_chained(m),
        content.len() == s,
        0 <= s <= 6,
    ensures
        prelude_step(lines, pfl, s, content, m) matches Ok(t) ==> measures_chained(t.1)
            && t.1.measures == m.measures && t.1.stream == m.stream && t.1.error == m.error
            && t.0.len() == 6
            && (forall|k: int| s <= k < 6
                ==> #[trigger] t.0[k].len() <= lines[pfl + k].len())
            && (forall|k: int| 0 <= k < s && k < content.len() ==> #[trigger] t.0[k] == content[k]),
        prelude_step(lines, pfl, s, content, m) matches Err(me) ==> measures_chained(me)
            && me.measures == m.measures && me.stream == m.stream,
    decreases 6 - s,
{
    if s < 6 {
        let t = crate::parser::trim_spec(lines[pfl + s]);
        crate::parser::lemma_ws_prefix_le(lines[pfl + s]);
        crate::parser::lemma_ws_suffix_le(
            lines[pfl + s].skip(crate::parser::ws_prefix_len(lines[pfl + s]) as int),
        );
        if t.len() > 0 && crate::tab::is_ascii_letter(t[0]) {
            let m1 = ParseModel { base_notes: m.base_notes.push(t[0]), ..m };
            if t.len() > 1 && t[1] == 124 && t.len() > 2 && t.last() == 124 {
                lemma_prelude_chained(
                    lines,
                    pfl,
                    s + 1,
                    content.push(t.subrange(2, t.len() - 1)),
                    m1,
                );
            }
        }
    }
}

/// Measure partition law: for every document, the measure table of the
/// parse partitions the tick stream — the first measure starts at zero,
/// consecutive measures meet exactly, and on success the last measure
/// ends at the stream's end, so the union of the ranges covers the stream
/// with no gap and no overlap.
pub proof fn lemma_measure_partition(lines: Seq<Seq<u8>>)
    requires
        total_len(lines) <= crate::parser::MAX_DOC,
        lines.len() <= crate::parser::MAX_LINES,
    ensures
        measures_chained(parse_spec(lines)),
        parse_spec(lines).error is None ==> measures_close(parse_spec(lines)),
        parse_spec(lines).error is None ==> (parse_spec(lines).measures.len() == 0
            ==> parse_spec(lines).stream.len() == 0),
{
    let init = ParseModel {
        error: None,
        stream: seq![],
        measures: seq![],
        base_notes: seq![],
        offsets: seq![],
    };
    assert(lines.take(0int) =~= Seq::<Seq<u8>>::empty());
    crate::parser::lemma_total_len_nonneg(lines);
    lemma_parse_from_chained(lines, 0, init);
}

// ---------------------------------------------------------------------
// Width invariant
// ---------------------------------------------------------------------

/// Each element of a tick is at most as wide as the tick.
proof fn lemma_tick_width_ge(stream: Seq<TabElement>, base: int, k: int, s: int)
    requires
        0 <= s < k <= 6,
        base + s < stream.len(),
    ensures
        tick_width_rec(stream, base, k) >= repr_len(stream[base + s]),
    decreases k,
{
    if s == k - 1 {
    } else {
        lemma_tick_width_ge(stream, base, k - 1, s);
    }
}

/// The printed length of `t` ticks of any track.
proof fn lemma_dump_line_len(stream: Seq<TabElement>, s: int, t: int)
    requires
        0 <= s < 6,
        6 * t <= stream.len(),
        0 <= t,
    ensures
        dump_line(stream, s, t).len() == width_sum(stream, 0, t),
    decreases t,
{
    if t > 0 {
        lemma_dump_line_len(stream, s, t - 1);
        lemma_tick_width_ge(stream, 6 * (t - 1), 6, s);
        crate::tab::lemma_repr_len_bounds(stream[6 * (t - 1) + s]);
        let e = stream[6 * (t - 1) + s];
        let w = tick_width(stream, t - 1);
        assert(pad_elem(e, w).len() == repr_len(e) + spaces(w - repr_len(e)).len());
        lemma_spaces_len(w - repr_len(e));
    }
}

proof fn lemma_spaces_len(n: int)
    ensures
        spaces(n).len() == (if n > 0 { n } else { 0 }),
    decreases n,
{
    if n > 0 {
        lemma_spaces_len(n - 1);
    }
}

/// Width invariant law: in the printed stream every tick occupies exactly
/// the width of its widest element across the six strings, so all six
/// printed lines have the same length — the sum of the tick widths — and
/// no track is mis-aligned relative to that width.
pub proof fn lemma_width_invariant(stream: Seq<TabElement>)
    ensures
        forall|s: int| 0 <= s < 6
            ==> #[trigger] dump_line(stream, s, stream.len() as int / 6).len() == width_sum(
                stream,
                0,
                stream.len() as int / 6,
            ),
{
    assert forall|s: int| 0 <= s < 6 implies #[trigger] dump_line(
        stream,
        s,
        stream.len() as int / 6,
    ).len() == width_sum(stream, 0, stream.len() as int / 6) by {
        lemma_dump_line_len(stream, s, stream.len() as int / 6);
    }
}

// ---------------------------------------------------------------------
// Location agreement
// ---------------------------------------------------------------------

proof fn lemma_bsearch_offsets_full(offs: Seq<(usize, usize)>, key: int, lo: int, hi: int)
    requires
        0 <= lo <= hi <= offs.len(),
        forall|i: int, j: int| 0 <= i < j < offs.len()
            ==> (#[trigger] offs[i]).1 < (#[trigger] offs[j]).1,
    ensures
        ({
            let (found, idx) = bsearch_offsets(offs, key, lo, hi);
            &&& lo <= idx <= hi
            &&& found ==> idx < hi && offs[idx].1 == key
            &&& !found ==> forall|i: int| lo <= i < hi ==> (#[trigger] offs[i]).1 != key
            &&& !found && idx < hi ==> offs[idx].1 > key
            &&& !found && idx > lo ==> offs[idx - 1].1 < key
        }),
    decreases hi - lo,
{
    if lo < hi {
        let mid = lo + (hi - lo) / 2;
        if offs[mid].1 < key {
            lemma_bsearch_offsets_full(offs, key, mid + 1, hi);
        } else if offs[mid].1 > key {
            lemma_bsearch_offsets_full(offs, key, lo, mid);
        }
    }
}

proof fn lemma_bsearch_measures_full(ms: Seq<Measure>, key: int, lo: int, hi: int)
    requires
        0 <= lo <= hi <= ms.len(),
        forall|i: int| 0 <= i < ms.len() ==> (#[trigger] ms[i]).data_range.end < key,
    ensures
        ({
            let (found, idx) = bsearch_measures(ms, key, lo, hi);
            !found && idx == hi
        }),
    decreases hi - lo,
{
    if lo < hi {
        let mid = lo + (hi - lo) / 2;
        if ms[mid].data_range.end < key {
            lemma_bsearch_measures_full(ms, key, mid + 1, hi);
        } else if ms[mid].data_range.end > key {
            lemma_bsearch_measures_full(ms, key, lo, mid);
        }
    }
}

/// Location agreement law: at an in-progress scan position — the end of
/// the stream, reached inside the part that the last recorded offset
/// opened, with at least one element scanned since the last closed
/// measure — the forward locator and the backward locator compute the
/// same line and the same column.
pub proof fn lemma_location_agreement(m: ParseModel, line_in_part: int)
    requires
        m.wf(),
        m.offsets.len() > 0,
        0 <= line_in_part < 6,
        ((m.stream.len() - m.offsets.last().1) % 6) == line_in_part,
        forall|i: int, j: int| 0 <= i < j < m.offsets.len()
            ==> (#[trigger] m.offsets[i]).1 < (#[trigger] m.offsets[j]).1,
        forall|i: int| 0 <= i < m.measures.len()
            ==> (#[trigger] m.measures[i]).data_range.end < m.stream.len(),
    ensures
        ({
            let fwd = slwp_spec(m, m.offsets.last().0 as int, line_in_part);
            let bwd = slfs_spec(m, m.stream.len() as int);
            fwd == bwd
        }),
{
    let tl = m.stream.len() as int;
    let ps = m.offsets.last().1 as int;
    let n = m.offsets.len() as int;
    lemma_bsearch_offsets_full(m.offsets, tl, 0, n);
    let sr = bsearch_offsets(m.offsets, tl, 0, n);
    let section = if sr.0 {
        sr.1
    } else if sr.1 > 0 {
        sr.1 - 1
    } else {
        0
    };
    // the search lands on the last (current) part
    if sr.0 {
        // a key equals the stream end: only the last can, keys being
        // strictly increasing and bounded by the stream length
        if sr.1 < n - 1 {
            assert(m.offsets[sr.1].1 < m.offsets[n - 1].1);
            assert(m.offsets[n - 1].1 <= m.stream.len());
            assert(false);
        }
        assert(section == n - 1);
    } else {
        assert(m.offsets[n - 1].1 != tl);
        assert(m.offsets[n - 1].1 <= m.stream.len());
        assert(m.offsets[n - 1].1 < tl);
        if sr.1 < n {
            assert(m.offsets[sr.1].1 > tl);
            assert(sr.1 == n - 1 ==> false);
            if sr.1 < n - 1 {
                assert(m.offsets[sr.1].1 < m.offsets[n - 1].1);
                assert(false);
            }
            assert(false);
        }
        assert(sr.1 == n);
        assert(section == n - 1);
    }
    assert(m.offsets[section] == m.offsets.last());
    // no measure ends at the stream end, so the backward search counts
    // every measure
    lemma_bsearch_measures_full(m.measures, tl, 0, m.measures.len() as int);
    let mr = bsearch_measures(m.measures, tl, 0, m.measures.len() as int);
    assert(mr.1 == m.measures.len());
    assert(m.measures.take(m.measures.len() as int) =~= m.measures);
    // both columns count the same closed measures and the same tick widths
    assert(((tl - ps) % 6) == line_in_part);
}

/// A line slice with no multi-digit frets: no two adjacent digits from
/// `pos` on.
pub open spec fn no_wide_elements(s: Seq<u8>, pos: int) -> bool {
    forall|i: int| pos <= i && i + 1 < s.len() ==> (is_digit(s[i]) ==> !is_digit(#[trigger] s[i + 1]))
}

/// The content of a line from `pos` on with the separators removed.
pub open spec fn strip_separators(s: Seq<u8>, pos: int) -> Seq<u8>
    decreases s.len() - pos when pos <= s.len()
{
    if 0 <= pos < s.len() {
        if s[pos] == 124 {
            strip_separators(s, pos + 1)
        } else {
            seq![s[pos]] + strip_separators(s, pos + 1)
        }
    } else {
        seq![]
    }
}

/// The printed form of a run of ticks, concatenated.
pub open spec fn render_seq(ticks: Seq<RawTick>) -> Seq<u8>
    decreases ticks.len()
{
    if ticks.len() == 0 {
        seq![]
    } else {
        elem_repr(ticks[0].element) + render_seq(ticks.drop_first())
    }
}

proof fn lemma_render_seq_add(a: Seq<RawTick>, b: Seq<RawTick>)
    ensures
        render_seq(a + b) == render_seq(a) + render_seq(b),
    decreases a.len(),
{
    if a.len() == 0 {
        assert(a + b =~= b);
        assert(render_seq(a) + render_seq(b) =~= render_seq(b));
    } else {
        assert((a + b).drop_first() =~= a.drop_first() + b);
        lemma_render_seq_add(a.drop_first(), b);
        assert(render_seq(a + b) =~= render_seq(a) + render_seq(b));
    }
}

/// A run scanned from a line with no multi-digit frets prints back to the
/// very bytes it consumed.
proof fn lemma_run_round_trip(s: Seq<u8>, pos: int, line: usize)
    requires
        0 <= pos <= s.len(),
        no_wide_elements(s, pos),
    ensures
        ({
            let r = run_ticks(s, pos, line);
            render_seq(r.0) == s.subrange(pos, r.1)
        }),
    decreases s.len() - pos,
{
    let r = run_ticks(s, pos, line);
    match scan_elem(s, pos) {
        None => {
            assert(s.subrange(pos, pos) =~= Seq::<u8>::empty());
        }
        Some(e) => {
            let j = scan_next(s, pos);
            crate::tab::lemma_digit_run_len_bounds(s, pos);
            crate::tab::lemma_run_ticks_bounds(s, j, line);
            // a single-width element prints as its own byte
            if is_digit(s[pos]) {
                assert(crate::tab::digit_run_len(s, pos + 1) == 0);
                assert(j == pos + 1);
                assert(crate::tab::digits_value_acc(s, pos + 1, s[pos] - 48) == s[pos] - 48);
                assert(crate::tab::digit_run_value(s, pos) == s[pos] - 48);
                assert(crate::tab::fret_digits(s[pos] - 48) == seq![s[pos]]);
                assert(elem_repr(e) =~= seq![s[pos]]);
            } else {
                assert(j == pos + 1);
                assert(elem_repr(e) =~= seq![s[pos]]);
            }
            lemma_run_round_trip(s, j, line);
            let rest = run_ticks(s, j, line);
            assert(r.0 == seq![RawTick {
                element: e,
                idx_on_parent_line: (j - 1) as usize,
                parent_line: line,
            }] + rest.0);
            lemma_render_seq_add(
                seq![RawTick { element: e, idx_on_parent_line: (j - 1) as usize, parent_line: line }],
                rest.0,
            );
            let single = seq![RawTick {
                element: e,
                idx_on_parent_line: (j - 1) as usize,
                parent_line: line,
            }];
            assert(single.drop_first() =~= Seq::<RawTick>::empty());
            assert(render_seq(Seq::<RawTick>::empty()) =~= Seq::<u8>::empty());
            assert(render_seq(single) =~= elem_repr(e) + Seq::<u8>::empty());
            assert(render_seq(single) =~= elem_repr(e));
            assert(r.1 == rest.1);
            assert(render_seq(rest.0) == s.subrange(j, rest.1));
            assert(s.subrange(pos, rest.1) =~= seq![s[pos]] + s.subrange(pos + 1, rest.1));
            assert(render_seq(r.0) =~= elem_repr(e) + render_seq(rest.0));
            assert(render_seq(r.0) =~= s.subrange(pos, r.1));
        }
    }
}

/// Round-trip law: a part line that contains no multi-digit fret prints
/// back, tick for tick, to exactly its own measure content — the bytes of
/// the line from the given position with the separators removed.
pub proof fn lemma_partline_round_trip(s: Seq<u8>, pos: int, line: usize, buf_len: int, m_ord: int)
    requires
        0 <= pos <= s.len(),
        no_wide_elements(s, pos),
        partline_rec(s, pos, line, buf_len, m_ord).err is None,
    ensures
        render_seq(partline_rec(s, pos, line, buf_len, m_ord).ticks) == strip_separators(s, pos),
    decreases s.len() - pos,
{
    let out = partline_rec(s, pos, line, buf_len, m_ord);
    if pos >= s.len() {
        assert(strip_separators(s, pos) =~= Seq::<u8>::empty());
    } else {
        let r = run_ticks(s, pos, line);
        crate::tab::lemma_run_ticks_bounds(s, pos, line);
        lemma_run_round_trip(s, pos, line);
        assert(r.1 < s.len() && s[r.1] == 124);
        lemma_partline_round_trip(s, r.1 + 1, line, buf_len + r.0.len(), m_ord + 1);
        let rest = partline_rec(s, r.1 + 1, line, buf_len + r.0.len(), m_ord + 1);
        lemma_render_seq_add(r.0, rest.ticks);
        lemma_strip_run(s, pos, r.1, line);
        assert(strip_separators(s, r.1) == strip_separators(s, r.1 + 1));
        assert(render_seq(out.ticks) =~= strip_separators(s, pos));
    }
}

/// Round-trip law at the grammar entry: when a part line with no
/// multi-digit fret parses, its ticks print back to exactly the line's
/// content — the bytes after the name and leading separator, with the
/// separators removed.
pub proof fn lemma_partline_spec_round_trip(s: Seq<u8>, line: usize, buf_len: int, mbuf_len: int)
    requires
        no_wide_elements(s, 2),
        crate::tab::partline_spec(s, line, buf_len, mbuf_len).res is Ok,
    ensures
        render_seq(crate::tab::partline_spec(s, line, buf_len, mbuf_len).out.ticks)
            == strip_separators(s, 2),
{
    lemma_partline_round_trip(s, 2, line, buf_len, 1);
}

/// Up to where a run stops, stripping separators changes nothing: the run
/// consumed only element bytes.
proof fn lemma_strip_run(s: Seq<u8>, pos: int, stop: int, line: usize)
    requires
        0 <= pos <= s.len(),
        run_ticks(s, pos, line).1 == stop,
        no_wide_elements(s, pos),
    ensures
        strip_separators(s, pos) == s.subrange(pos, stop) + strip_separators(s, stop),
    decreases s.len() - pos,
{
    match scan_elem(s, pos) {
        None => {
            assert(s.subrange(pos, pos) =~= Seq::<u8>::empty());
            assert(strip_separators(s, pos) =~= s.subrange(pos, pos) + strip_separators(s, pos));
        }
        Some(e) => {
            let j = scan_next(s, pos);
            crate::tab::lemma_digit_run_len_bounds(s, pos);
            crate::tab::lemma_run_ticks_bounds(s, j, line);
            if is_digit(s[pos]) {
                assert(crate::tab::digit_run_len(s, pos + 1) == 0);
            }
            assert(j == pos + 1);
            assert(run_ticks(s, pos, line).1 == run_ticks(s, j, line).1);
            lemma_strip_run(s, j, stop, line);
            assert(s[pos] != 124);
            assert(strip_separators(s, pos) == seq![s[pos]] + strip_separators(s, pos + 1));
            assert(s.subrange(pos, stop) =~= seq![s[pos]] + s.subrange(pos + 1, stop));
            assert(strip_separators(s, pos) =~= s.subrange(pos, stop) + strip_separators(s, stop));
        }
    }
}

} // verus!
