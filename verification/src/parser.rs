//! The position-synchronized parser: six lines of a part are scanned in
//! lock-step into one flat, interleaved tick stream, with measures, string
//! names and per-part offsets recorded, and the error locator that maps a
//! stream position back to a source coordinate.

use vstd::prelude::*;

use crate::errors::BackendError;
use crate::tab::{
    elem_repr, is_ascii_letter, is_digit, repr_len, scan_elem, scan_next, TabElement,
};
use crate::IdxRange;

verus! {

/// Bound on the number of input lines a document may have.
pub const MAX_LINES: usize = 0x0010_0000;

/// Bound on the total number of input bytes a document may have.
pub const MAX_DOC: usize = 0x0100_0000;

/// A measure of the flat tick stream: the element indices
/// `data_range.start..data_range.end`.
#[derive(Debug, Clone, Copy, PartialEq, Eq, Structural)]
pub struct Measure {
    pub data_range: IdxRange,
}

impl Measure {
    pub fn from(range: IdxRange) -> (r: Measure)
        ensures
            r == (Measure { data_range: range }),
    {
        Measure { data_range: range }
    }
}

/// The mathematical content of a `ParseResult`.
pub ghost struct ParseModel {
    pub error: Option<BackendError>,
    pub stream: Seq<TabElement>,
    pub measures: Seq<Measure>,
    pub base_notes: Seq<u8>,
    pub offsets: Seq<(usize, usize)>,
}

/// The aggregate output of a parse attempt.
///
/// This is not a `Result` because the partial parse state is preserved for
/// fixup and recovery: all failure is communicated through `error`.
#[derive(Debug, Clone, PartialEq, Eq)]
pub struct ParseResult {
    pub error: Option<BackendError>,
    pub tick_stream: Vec<TabElement>,
    pub measures: Vec<Measure>,
    pub base_notes: Vec<u8>,
    /// For each part: the line on which it begins and the index of its
    /// first tick in the stream.
    pub offsets: Vec<(usize, usize)>,
}

impl View for ParseResult {
    type V = ParseModel;

    open spec fn view(&self) -> ParseModel {
        ParseModel {
            error: self.error,
            stream: self.tick_stream@,
            measures: self.measures@,
            base_notes: self.base_notes@,
            offsets: self.offsets@,
        }
    }
}

impl ParseModel {
    /// Shape constraints every state built by the parser meets; the error
    /// locator needs them for its arithmetic.
    pub open spec fn wf(self) -> bool {
        &&& self.stream.len() <= 6 * MAX_DOC
        &&& self.measures.len() <= MAX_DOC + MAX_LINES
        &&& self.offsets.len() <= MAX_LINES
        &&& forall|i: int| 0 <= i < self.measures.len()
            ==> (#[trigger] self.measures[i]).data_range.start <= self.measures[i].data_range.end
                <= self.stream.len()
        &&& forall|i: int, j: int| 0 <= i < j < self.measures.len()
            ==> (#[trigger] self.measures[i]).data_range.end
                <= (#[trigger] self.measures[j]).data_range.end
        &&& forall|i: int, j: int| 0 <= i < j < self.offsets.len()
            ==> (#[trigger] self.offsets[i]).1 <= (#[trigger] self.offsets[j]).1
        &&& forall|i: int| 0 <= i < self.offsets.len()
            ==> (#[trigger] self.offsets[i]).1 <= self.stream.len()
        &&& forall|i: int| 0 <= i < self.offsets.len()
            ==> (#[trigger] self.offsets[i]).0 + 6 <= MAX_LINES
    }
}

impl ParseResult {
    pub fn new() -> (r: ParseResult)
        ensures
            r@ == (ParseModel {
                error: None::<BackendError>,
                stream: Seq::<TabElement>::empty(),
                measures: Seq::<Measure>::empty(),
                base_notes: Seq::<u8>::empty(),
                offsets: Seq::<(usize, usize)>::empty(),
            }),
    {
        let r = ParseResult {
            error: None,
            tick_stream: Vec::new(),
            measures: Vec::new(),
            base_notes: Vec::new(),
            offsets: Vec::new(),
        };
        proof {
            assert(r@.stream =~= Seq::<TabElement>::empty());
            assert(r@.measures =~= Seq::<Measure>::empty());
            assert(r@.base_notes =~= Seq::<u8>::empty());
            assert(r@.offsets =~= Seq::<(usize, usize)>::empty());
        }
        r
    }
}

/// ASCII whitespace.
pub open spec fn is_ws(b: u8) -> bool {
    b == 32 || 9 <= b <= 13
}

/// Length of the whitespace prefix of `s`.
pub open spec fn ws_prefix_len(s: Seq<u8>) -> nat
    decreases s.len()
{
    if s.len() > 0 && is_ws(s[0]) {
        1 + ws_prefix_len(s.drop_first())
    } else {
        0
    }
}

/// Length of the whitespace suffix of `s`.
pub open spec fn ws_suffix_len(s: Seq<u8>) -> nat
    decreases s.len()
{
    if s.len() > 0 && is_ws(s.last()) {
        1 + ws_suffix_len(s.drop_last())
    } else {
        0
    }
}

pub proof fn lemma_ws_prefix_le(s: Seq<u8>)
    ensures
        ws_prefix_len(s) <= s.len(),
    decreases s.len(),
{
    if s.len() > 0 && is_ws(s[0]) {
        lemma_ws_prefix_le(s.drop_first());
    }
}

pub proof fn lemma_ws_suffix_le(s: Seq<u8>)
    ensures
        ws_suffix_len(s) <= s.len(),
    decreases s.len(),
{
    if s.len() > 0 && is_ws(s.last()) {
        lemma_ws_suffix_le(s.drop_last());
    }
}

/// `s` with leading and trailing ASCII whitespace removed.
pub open spec fn trim_spec(s: Seq<u8>) -> Seq<u8> {
    let t = s.skip(ws_prefix_len(s) as int);
    t.take(t.len() - ws_suffix_len(t))
}

/// Remove leading and trailing ASCII whitespace.
pub fn trim(s: &[u8]) -> (r: &[u8])
    ensures
        r@ == trim_spec(s@),
        r@.len() <= s@.len(),
{
    proof {
        lemma_ws_prefix_le(s@);
        assert(s@.skip(0) =~= s@);
    }
    let mut a: usize = 0;
    while a < s.len() && (s[a] == 32 || (9 <= s[a] && s[a] <= 13))
        invariant
            0 <= a <= s@.len(),
            ws_prefix_len(s@) == a + ws_prefix_len(s@.skip(a as int)),
        decreases s@.len() - a,
    {
        proof {
            assert(s@.skip(a as int).drop_first() =~= s@.skip(a + 1));
            assert(ws_prefix_len(s@.skip(a as int))
                == 1 + ws_prefix_len(s@.skip(a + 1)));
        }
        a += 1;
    }
    proof {
        assert(ws_prefix_len(s@.skip(a as int)) == 0);
        assert(ws_prefix_len(s@) == a);
        lemma_ws_suffix_le(s@.skip(a as int));
    }
    let ghost t = s@.skip(a as int);
    let mut b: usize = s.len();
    proof {
        assert(t.take(b - a) =~= t);
    }
    while b > a && (s[b - 1] == 32 || (9 <= s[b - 1] && s[b - 1] <= 13))
        invariant
            a <= b <= s@.len(),
            t == s@.skip(a as int),
            ws_prefix_len(s@) == a,
            ws_suffix_len(t) == (s@.len() - b) + ws_suffix_len(t.take(b - a)),
        decreases b,
    {
        proof {
            assert(t.take(b - a).drop_last() =~= t.take(b - 1 - a));
            assert(t.take(b - a).last() == s@[b - 1]);
            assert(ws_suffix_len(t.take(b - a)) == 1 + ws_suffix_len(t.take(b - 1 - a)));
        }
        b -= 1;
    }
    proof {
        if b > a {
            assert(t.take(b - a).last() == s@[b - 1]);
        }
        assert(ws_suffix_len(t.take(b - a)) == 0);
        assert(ws_suffix_len(t) == s@.len() - b);
        assert(s@.subrange(a as int, b as int) =~= t.take(t.len() - ws_suffix_len(t)));
    }
    vstd::slice::slice_subrange(s, a, b)
}

/// Whether `s` is alphanumeric ASCII.
pub open spec fn is_alnum(b: u8) -> bool {
    is_ascii_letter(b) || is_digit(b)
}

/// Whether a trimmed line has the shape of a part line: an alphanumeric
/// byte, a separator right after it, and a separator at the end.
pub open spec fn line_is_valid_spec(s: Seq<u8>) -> bool {
    let t = trim_spec(s);
    &&& t.len() > 1
    &&& is_alnum(t[0])
    &&& t[1] == 124
    &&& t.last() == 124
}

/// Whether this line can begin or end a six-line part.
pub fn line_is_valid(line: &[u8]) -> (r: bool)
    ensures
        r == line_is_valid_spec(line@),
{
    let t = trim(line);
    if t.len() < 2 {
        return false;
    }
    let b0 = t[0];
    let alnum = (65 <= b0 && b0 <= 90) || (97 <= b0 && b0 <= 122) || (48 <= b0 && b0 <= 57);
    alnum && t[1] == 124 && t[t.len() - 1] == 124
}

/// The printed width of tick `t` of the stream: the widest of its (up to
/// six) elements.
pub open spec fn tick_width_rec(stream: Seq<TabElement>, base: int, k: int) -> int
    decreases k
{
    if k <= 0 {
        0
    } else if base + k - 1 >= stream.len() {
        tick_width_rec(stream, base, k - 1)
    } else {
        let w = repr_len(stream[base + k - 1]);
        let rest = tick_width_rec(stream, base, k - 1);
        if w > rest {
            w
        } else {
            rest
        }
    }
}

pub open spec fn tick_width(stream: Seq<TabElement>, t: int) -> int {
    tick_width_rec(stream, 6 * t, 6)
}

/// Sum of the printed widths of ticks `t0..t1`.
pub open spec fn width_sum(stream: Seq<TabElement>, t0: int, t1: int) -> int
    decreases t1 - t0
{
    if t0 >= t1 {
        0
    } else {
        width_sum(stream, t0, t1 - 1) + tick_width(stream, t1 - 1)
    }
}

/// How many measures at the end of `measures` start at or after
/// `part_start` — the measures already closed in the current part.
pub open spec fn suffix_measures(measures: Seq<Measure>, part_start: int) -> int
    decreases measures.len()
{
    if measures.len() > 0 && measures.last().data_range.start >= part_start {
        1 + suffix_measures(measures.drop_last(), part_start)
    } else {
        0
    }
}

proof fn lemma_suffix_measures_le(measures: Seq<Measure>, part_start: int)
    ensures
        0 <= suffix_measures(measures, part_start) <= measures.len(),
    decreases measures.len(),
{
    if measures.len() > 0 && measures.last().data_range.start >= part_start {
        lemma_suffix_measures_le(measures.drop_last(), part_start);
    }
}

proof fn lemma_tick_width_bounds(stream: Seq<TabElement>, base: int, k: int)
    requires
        0 <= k <= 6,
    ensures
        0 <= tick_width_rec(stream, base, k) <= 20,
    decreases k,
{
    if k > 0 {
        lemma_tick_width_bounds(stream, base, k - 1);
        if base + k - 1 < stream.len() {
            crate::tab::lemma_repr_len_bounds(stream[base + k - 1]);
        }
    }
}

proof fn lemma_width_sum_bounds(stream: Seq<TabElement>, t0: int, t1: int)
    ensures
        0 <= width_sum(stream, t0, t1) <= (if t1 >= t0 { 20 * (t1 - t0) } else { 0 }),
    decreases t1 - t0,
{
    if t0 < t1 {
        lemma_width_sum_bounds(stream, t0, t1 - 1);
        lemma_tick_width_bounds(stream, 6 * (t1 - 1), 6);
    }
}

/// The widest element of tick `t`.
pub fn tick_width_exec(stream: &Vec<TabElement>, t: usize) -> (w: usize)
    requires
        6 * t + 6 <= stream@.len() || stream@.len() <= 6 * t + 6,
        t <= MAX_DOC,
    ensures
        w == tick_width(stream@, t as int),
        0 <= w <= 20,
{
    proof {
        lemma_tick_width_bounds(stream@, 6 * t as int, 6);
    }
    let base = 6 * t;
    let mut w: usize = 0;
    let mut k: usize = 0;
    while k < 6
        invariant
            0 <= k <= 6,
            base == 6 * t,
            t <= MAX_DOC,
            w == tick_width_rec(stream@, base as int, k as int),
            0 <= w <= 20,
        decreases 6 - k,
    {
        proof {
            lemma_tick_width_bounds(stream@, base as int, k + 1);
            crate::tab::lemma_repr_len_bounds(if base + k < stream@.len() {
                stream@[base as int + k as int]
            } else {
                TabElement::Rest
            });
        }
        if base + k < stream.len() {
            let e = stream[base + k];
            let ew = crate::tab::elem_width(e);
            if ew > w {
                w = ew;
            }
        }
        k += 1;
    }
    w
}

/// The forward error locator: the source coordinate the scanner is stalled
/// at, while scanning string `line_in_part` of the part that starts at line
/// `part_first_line`, given the partial result so far.
pub open spec fn slwp_spec(m: ParseModel, part_first_line: int, line_in_part: int) -> (int, int) {
    let actual_line = part_first_line + line_in_part;
    let error_tick = m.stream.len() as int / 6;
    let part_start = if m.offsets.len() > 0 {
        m.offsets.last().1 as int
    } else {
        0
    };
    let measure_lines = suffix_measures(m.measures, part_start);
    let start = part_start / 6;
    let col = 1 + measure_lines + width_sum(m.stream, start, error_tick) + 1;
    (actual_line, col)
}

/// Compute the forward (in-progress) error location: the line being
/// scanned, and the column after the line prelude, every closed measure
/// separator of this part, and the full printed width of every tick already
/// consumed in this part.
pub fn source_location_while_parsing(r: &ParseResult, part_first_line: usize, line_in_part: usize) -> (lc: (usize, usize))
    requires
        r@.wf(),
        part_first_line + line_in_part + 6 <= MAX_LINES + 6,
    ensures
        lc.0 as int == slwp_spec(r@, part_first_line as int, line_in_part as int).0,
        lc.1 as int == slwp_spec(r@, part_first_line as int, line_in_part as int).1,
{
    let actual_line = part_first_line + line_in_part;
    let error_tick = r.tick_stream.len() / 6;
    let part_start = if r.offsets.len() > 0 {
        r.offsets[r.offsets.len() - 1].1
    } else {
        0
    };
    let measure_lines = count_suffix_measures_upto(&r.measures, r.measures.len(), part_start);
    proof {
        assert(r@.measures.take(r@.measures.len() as int) =~= r@.measures);
    }
    let start = part_start / 6;
    let widths = width_sum_exec(&r.tick_stream, start, error_tick);
    proof {
        lemma_suffix_measures_le(r@.measures, part_start as int);
        lemma_width_sum_bounds(r@.stream, start as int, error_tick as int);
    }
    (actual_line, 1 + measure_lines + widths + 1)
}

/// Binary search over the part offsets, keyed by a part's first tick
/// index: whether the key occurs, and its position or insertion point.
pub open spec fn bsearch_offsets(offs: Seq<(usize, usize)>, key: int, lo: int, hi: int) -> (bool, int)
    decreases hi - lo
{
    if lo >= hi || lo < 0 || hi > offs.len() {
        (false, lo)
    } else {
        let mid = lo + (hi - lo) / 2;
        if offs[mid].1 < key {
            bsearch_offsets(offs, key, mid + 1, hi)
        } else if offs[mid].1 > key {
            bsearch_offsets(offs, key, lo, mid)
        } else {
            (true, mid)
        }
    }
}

/// Binary search over the measures, keyed by the index just past each
/// measure's last element.
pub open spec fn bsearch_measures(ms: Seq<Measure>, key: int, lo: int, hi: int) -> (bool, int)
    decreases hi - lo
{
    if lo >= hi || lo < 0 || hi > ms.len() {
        (false, lo)
    } else {
        let mid = lo + (hi - lo) / 2;
        if ms[mid].data_range.end < key {
            bsearch_measures(ms, key, mid + 1, hi)
        } else if ms[mid].data_range.end > key {
            bsearch_measures(ms, key, lo, mid)
        } else {
            (true, mid)
        }
    }
}

/// The result of either search lies between its bounds, and everything
/// strictly below the result compares below the key.
proof fn lemma_bsearch_offsets_props(offs: Seq<(usize, usize)>, key: int, lo: int, hi: int)
    requires
        0 <= lo <= hi <= offs.len(),
        forall|i: int, j: int| 0 <= i < j < offs.len()
            ==> (#[trigger] offs[i]).1 <= (#[trigger] offs[j]).1,
    ensures
        ({
            let (found, idx) = bsearch_offsets(offs, key, lo, hi);
            &&& lo <= idx <= hi
            &&& found ==> idx < hi && offs[idx].1 == key
            &&& !found && idx > lo ==> offs[idx - 1].1 < key
        }),
    decreases hi - lo,
{
    if lo < hi {
        let mid = lo + (hi - lo) / 2;
        if offs[mid].1 < key {
            lemma_bsearch_offsets_props(offs, key, mid + 1, hi);
        } else if offs[mid].1 > key {
            lemma_bsearch_offsets_props(offs, key, lo, mid);
        }
    }
}

proof fn lemma_bsearch_measures_props(ms: Seq<Measure>, key: int, lo: int, hi: int)
    requires
        0 <= lo <= hi <= ms.len(),
    ensures
        ({
            let (found, idx) = bsearch_measures(ms, key, lo, hi);
            &&& lo <= idx <= hi
            &&& found ==> idx < hi && ms[idx].data_range.end == key
        }),
    decreases hi - lo,
{
    if lo < hi {
        let mid = lo + (hi - lo) / 2;
        if ms[mid].data_range.end < key {
            lemma_bsearch_measures_props(ms, key, mid + 1, hi);
        } else if ms[mid].data_range.end > key {
            lemma_bsearch_measures_props(ms, key, lo, mid);
        }
    }
}

fn bsearch_offsets_exec(offs: &Vec<(usize, usize)>, key: usize) -> (r: (bool, usize))
    ensures
        ({
            let s = bsearch_offsets(offs@, key as int, 0, offs@.len() as int);
            r.0 == s.0 && r.1 as int == s.1
        }),
{
    let mut lo: usize = 0;
    let mut hi: usize = offs.len();
    loop
        invariant
            0 <= lo <= hi <= offs@.len(),
            bsearch_offsets(offs@, key as int, 0, offs@.len() as int)
                == bsearch_offsets(offs@, key as int, lo as int, hi as int),
        decreases hi - lo,
    {
        if lo >= hi {
            return (false, lo);
        }
        let mid = lo + (hi - lo) / 2;
        let v = offs[mid].1;
        if v < key {
            lo = mid + 1;
        } else if v > key {
            hi = mid;
        } else {
            return (true, mid);
        }
    }
}

fn bsearch_measures_exec(ms: &Vec<Measure>, key: usize) -> (r: (bool, usize))
    ensures
        ({
            let s = bsearch_measures(ms@, key as int, 0, ms@.len() as int);
            r.0 == s.0 && r.1 as int == s.1
        }),
{
    let mut lo: usize = 0;
    let mut hi: usize = ms.len();
    loop
        invariant
            0 <= lo <= hi <= ms@.len(),
            bsearch_measures(ms@, key as int, 0, ms@.len() as int)
                == bsearch_measures(ms@, key as int, lo as int, hi as int),
        decreases hi - lo,
    {
        if lo >= hi {
            return (false, lo);
        }
        let mid = lo + (hi - lo) / 2;
        let v = ms[mid].data_range.end;
        if v < key {
            lo = mid + 1;
        } else if v > key {
            hi = mid;
        } else {
            return (true, mid);
        }
    }
}

/// The backward error locator: the source coordinate of the element at
/// stream index `tick_location`, recovered from the recorded per-part
/// offsets and measure table.
pub open spec fn slfs_spec(m: ParseModel, tick_location: int) -> (int, int) {
    let sr = bsearch_offsets(m.offsets, tick_location, 0, m.offsets.len() as int);
    let section = if sr.0 {
        sr.1
    } else if sr.1 > 0 {
        sr.1 - 1
    } else {
        0
    };
    let part_line = m.offsets[section].0 as int;
    let part_start = m.offsets[section].1 as int;
    let idx_in_part = tick_location - part_start;
    let line_in_part = idx_in_part % 6;
    let actual_line = part_line + line_in_part;
    let error_tick = tick_location / 6;
    let mr = bsearch_measures(m.measures, tick_location, 0, m.measures.len() as int);
    let last_measure = mr.1;
    let measure_lines = suffix_measures(m.measures.take(last_measure), part_start) + 1;
    let col = 1 + measure_lines + width_sum(m.stream, part_start / 6, error_tick);
    (actual_line, col)
}

/// Compute the backward error location for the element at stream index
/// `tick_location`: its part is found by binary search over the part
/// offsets, its line from the index within the part, and its column from
/// the closed measures and full tick widths before it.
pub fn source_location_from_stream(r: &ParseResult, tick_location: usize) -> (lc: (usize, usize))
    requires
        r@.wf(),
        r@.offsets.len() > 0,
        r@.offsets[0].1 <= tick_location <= r@.stream.len(),
    ensures
        lc.0 as int == slfs_spec(r@, tick_location as int).0,
        lc.1 as int == slfs_spec(r@, tick_location as int).1,
{
    proof {
        lemma_bsearch_offsets_props(r@.offsets, tick_location as int, 0, r@.offsets.len() as int);
        lemma_bsearch_measures_props(r@.measures, tick_location as int, 0, r@.measures.len() as int);
    }
    let (found, idx) = bsearch_offsets_exec(&r.offsets, tick_location);
    let section = if found {
        idx
    } else if idx > 0 {
        idx - 1
    } else {
        0
    };
    let part_line = r.offsets[section].0;
    let part_start = r.offsets[section].1;
    let idx_in_part = tick_location - part_start;
    let line_in_part = idx_in_part % 6;
    let actual_line = part_line + line_in_part;
    let error_tick = tick_location / 6;
    let (_mfound, last_measure) = bsearch_measures_exec(&r.measures, tick_location);
    let raw_lines = count_suffix_measures_upto(&r.measures, last_measure, part_start);
    proof {
        lemma_suffix_measures_le(r@.measures.take(last_measure as int), part_start as int);
        lemma_width_sum_bounds(r@.stream, part_start as int / 6, error_tick as int);
    }
    let measure_lines = raw_lines + 1;
    let widths = width_sum_exec(&r.tick_stream, part_start / 6, error_tick);
    (actual_line, 1 + measure_lines + widths)
}

/// Count the measures of the current part among the first `upto` entries
/// of the measure table, walking back from entry `upto`.
fn count_suffix_measures_upto(measures: &Vec<Measure>, upto: usize, part_start: usize) -> (n: usize)
    requires
        upto <= measures@.len(),
        measures@.len() <= MAX_DOC + MAX_LINES,
    ensures
        n == suffix_measures(measures@.take(upto as int), part_start as int),
{
    let mut n: usize = 0;
    let mut i = upto;
    proof {
        lemma_suffix_measures_le(measures@.take(upto as int), part_start as int);
        assert(measures@.take(upto as int).take(i as int) =~= measures@.take(upto as int));
    }
    while i > 0 && measures[i - 1].data_range.start >= part_start
        invariant
            0 <= i <= upto <= measures@.len(),
            measures@.len() <= MAX_DOC + MAX_LINES,
            n == upto - i,
            suffix_measures(measures@.take(upto as int), part_start as int)
                == n + suffix_measures(measures@.take(i as int), part_start as int),
        decreases i,
    {
        proof {
            assert(measures@.take(i as int).drop_last() =~= measures@.take(i - 1));
            assert(measures@.take(i as int).last() == measures@[i - 1]);
        }
        i -= 1;
        n += 1;
    }
    proof {
        if i > 0 {
            assert(measures@.take(i as int).last() == measures@[i - 1]);
        }
        assert(suffix_measures(measures@.take(i as int), part_start as int) == 0);
    }
    n
}

/// `n` space bytes.
pub open spec fn spaces(n: int) -> Seq<u8>
    decreases n
{
    if n <= 0 {
        seq![]
    } else {
        spaces(n - 1).push(32u8)
    }
}

/// An element printed left-aligned in a field of `w` columns.
pub open spec fn pad_elem(e: TabElement, w: int) -> Seq<u8> {
    elem_repr(e) + spaces(w - repr_len(e))
}

/// Track `s` of the stream printed back to text: each of the first `tcnt`
/// ticks occupies the widest width of its six elements.
pub open spec fn dump_line(stream: Seq<TabElement>, s: int, tcnt: int) -> Seq<u8>
    decreases tcnt
{
    if tcnt <= 0 {
        seq![]
    } else {
        dump_line(stream, s, tcnt - 1) + pad_elem(
            stream[6 * (tcnt - 1) + s],
            tick_width(stream, tcnt - 1),
        )
    }
}

/// The first `s` tracks printed, each followed by a newline.
pub open spec fn dump_prefix(stream: Seq<TabElement>, s: int) -> Seq<u8>
    decreases s
{
    if s <= 0 {
        seq![]
    } else {
        dump_prefix(stream, s - 1) + dump_line(stream, s - 1, stream.len() as int / 6) + seq![10u8]
    }
}

/// What `dump_tracks` prints: all six tracks, one line each.
pub open spec fn dump_spec(stream: Seq<TabElement>) -> Seq<u8> {
    dump_prefix(stream, 6)
}

impl ParseResult {
    /// Print the tick stream back to six aligned text lines, one per
    /// string, every tick padded to the widest of its six elements.
    pub fn dump_tracks(&self) -> (out: Vec<u8>)
        requires
            self@.wf(),
        ensures
            out@ == dump_spec(self@.stream),
    {
        let ghost stream = self@.stream;
        let tcnt = self.tick_stream.len() / 6;
        let mut out: Vec<u8> = Vec::new();
        let mut s: usize = 0;
        proof {
            assert(out@ =~= dump_prefix(stream, 0));
        }
        while s < 6
            invariant
                0 <= s <= 6,
                stream == self@.stream,
                self@.wf(),
                tcnt == stream.len() as int / 6,
                out@ == dump_prefix(stream, s as int),
            decreases 6 - s,
        {
            let mut t: usize = 0;
            let ghost line0 = out@;
            proof {
                assert(line0 + dump_line(stream, s as int, 0) =~= line0);
            }
            while t < tcnt
                invariant
                    0 <= t <= tcnt,
                    0 <= s < 6,
                    stream == self@.stream,
                    self@.wf(),
                    tcnt == stream.len() as int / 6,
                    out@ == line0 + dump_line(stream, s as int, t as int),
                decreases tcnt - t,
            {
                proof {
                    assert(6 * (t as int) + 6 <= stream.len()) by {
                        assert(tcnt == stream.len() as int / 6);
                    }
                    lemma_tick_width_bounds(stream, 6 * t as int, 6);
                }
                let w = tick_width_exec(&self.tick_stream, t);
                let e = self.tick_stream[6 * t + s];
                proof {
                    crate::tab::lemma_repr_len_bounds(e);
                }
                crate::tab::push_elem_repr(&mut out, e);
                let ew = crate::tab::elem_width(e);
                let pad = if w > ew {
                    w - ew
                } else {
                    0
                };
                let mut k: usize = 0;
                let ghost padded0 = out@;
                proof {
                    assert(padded0 + spaces(0) =~= padded0);
                }
                while k < pad
                    invariant
                        0 <= k <= pad <= 20,
                        out@ == padded0 + spaces(k as int),
                    decreases pad - k,
                {
                    out.push(32);
                    proof {
                        assert(out@ =~= padded0 + spaces(k + 1));
                    }
                    k += 1;
                }
                proof {
                    assert(w <= 20 && ew >= 1);
                    assert(spaces(w - ew) =~= spaces(pad as int));
                    assert(out@ =~= line0 + dump_line(stream, s as int, t as int) + pad_elem(
                        stream[6 * (t as int) + s], tick_width(stream, t as int),
                    ));
                    assert(out@ =~= line0 + dump_line(stream, s as int, t + 1));
                }
                t += 1;
            }
            out.push(10);
            proof {
                assert(out@ =~= dump_prefix(stream, s + 1));
            }
            s += 1;
        }
        out
    }
}

/// Total number of bytes over all lines.
pub open spec fn total_len(lines: Seq<Seq<u8>>) -> int
    decreases lines.len()
{
    if lines.len() == 0 {
        0
    } else {
        total_len(lines.drop_last()) + lines.last().len()
    }
}

/// The view of each line of a sequence of lines.
pub open spec fn seq_views(c: Seq<Vec<u8>>) -> Seq<Seq<u8>> {
    Seq::new(c.len(), |i: int| c[i]@)
}

/// The prelude pass over the six lines of a part: each line must begin
/// with a string name and a separator and end with a separator; the names
/// are recorded and the lines are stripped to their measure content.
pub open spec fn prelude_step(
    lines: Seq<Seq<u8>>,
    pfl: usize,
    s: int,
    content: Seq<Seq<u8>>,
    m: ParseModel,
) -> Result<(Seq<Seq<u8>>, ParseModel), ParseModel>
    decreases 6 - s
{
    if s >= 6 {
        Ok((content, m))
    } else {
        let t = trim_spec(lines[pfl + s]);
        if !(t.len() > 0 && is_ascii_letter(t[0])) {
            Err(ParseModel {
                error: Some(BackendError::spec_invalid_string_name((pfl + s) as usize)),
                ..m
            })
        } else {
            let m1 = ParseModel { base_notes: m.base_notes.push(t[0]), ..m };
            if !(t.len() > 1 && t[1] == 124) {
                Err(ParseModel {
                    error: Some(BackendError::spec_invalid_string_name((pfl + s) as usize)),
                    ..m1
                })
            } else if !(t.len() > 2 && t.last() == 124) {
                Err(ParseModel {
                    error: Some(BackendError::spec_no_closing_barline((pfl + s) as usize)),
                    ..m1
                })
            } else {
                prelude_step(lines, pfl, s + 1, content.push(t.subrange(2, t.len() - 1)), m1)
            }
        }
    }
}

/// Index of the first string marked as holding a multi-character element,
/// from `s` on; 6 when there is none.
pub open spec fn first_multi_from(flags: Seq<bool>, s: int) -> int
    decreases 6 - s
{
    if s < 0 || s >= 6 || s >= flags.len() {
        6
    } else if flags[s] {
        s
    } else {
        first_multi_from(flags, s + 1)
    }
}

/// Scan one element on each of the six strings, in string order, pushing
/// each element onto the stream and marking which strings consumed more
/// than one column.
pub open spec fn scan6(
    content: Seq<Seq<u8>>,
    p: Seq<usize>,
    s: int,
    flags: Seq<bool>,
    m: ParseModel,
    pfl: usize,
) -> Result<(Seq<usize>, Seq<bool>, ParseModel), ParseModel>
    decreases 6 - s
{
    if s >= 6 {
        Ok((p, flags, m))
    } else {
        let line = content[s];
        let i = p[s] as int;
        match scan_elem(line, i) {
            None => {
                let lc = slwp_spec(m, pfl as int, s);
                let invalid = if 0 <= i < line.len() {
                    line[i]
                } else {
                    0
                };
                Err(ParseModel {
                    error: Some(BackendError::spec_invalid_character(
                        lc.0 as usize,
                        lc.1 as usize,
                        invalid,
                    )),
                    ..m
                })
            }
            Some(e) => {
                let j = scan_next(line, i);
                scan6(
                    content,
                    p.update(s, j as usize),
                    s + 1,
                    flags.push(j - i > 1),
                    ParseModel { stream: m.stream.push(e), ..m },
                    pfl,
                )
            }
        }
    }
}

/// The repair of one just-scanned tick on which some string consumed more
/// than one column: every other string must absorb the rest that the extra
/// columns displaced, either by replacing its own rest with the next
/// element or by skipping a following rest.
pub open spec fn fix6(
    content: Seq<Seq<u8>>,
    p: Seq<usize>,
    s: int,
    flags: Seq<bool>,
    m: ParseModel,
    pfl: usize,
) -> Result<(Seq<usize>, ParseModel), ParseModel>
    decreases 6 - s
{
    if s >= 6 {
        Ok((p, m))
    } else if flags[s] {
        fix6(content, p, s + 1, flags, m, pfl)
    } else {
        let elem_idx = m.stream.len() - (6 - s);
        let line = content[s];
        let i = p[s] as int;
        if m.stream[elem_idx] is Rest {
            match scan_elem(line, i) {
                None => {
                    let lc = slwp_spec(m, pfl as int, s);
                    let invalid = if 0 <= i < line.len() {
                        line[i]
                    } else {
                        0
                    };
                    Err(ParseModel {
                        error: Some(BackendError::spec_invalid_character(
                            lc.0 as usize,
                            lc.1 as usize,
                            invalid,
                        )),
                        ..m
                    })
                }
                Some(e2) => {
                    let j = scan_next(line, i);
                    if j - i > 1 {
                        let lc = slfs_spec(m, elem_idx);
                        let other = (first_multi_from(flags, 0) + pfl) as usize;
                        Err(ParseModel {
                            error: Some(BackendError::spec_both_slots_multichar(
                                lc.0 as usize,
                                lc.1 as usize,
                                other,
                            )),
                            ..m
                        })
                    } else {
                        fix6(
                            content,
                            p.update(s, j as usize),
                            s + 1,
                            flags,
                            ParseModel { stream: m.stream.update(elem_idx, e2), ..m },
                            pfl,
                        )
                    }
                }
            }
        } else {
            if 0 <= i < line.len() && line[i] == 45 {
                fix6(content, p.update(s, (i + 1) as usize), s + 1, flags, m, pfl)
            } else {
                let lc = slfs_spec(m, elem_idx);
                Err(ParseModel {
                    error: Some(BackendError::spec_multi_both_slots_filled(
                        lc.0 as usize,
                        lc.1 as usize,
                    )),
                    ..m
                })
            }
        }
    }
}

/// Where the measure that is about to be closed begins: just past the last
/// closed measure.
pub open spec fn next_measure_start(m: ParseModel) -> usize {
    if m.measures.len() > 0 {
        m.measures.last().data_range.end
    } else {
        0
    }
}

/// The tick loop of one part: close a measure at each separator, scan the
/// six strings in lock-step, and repair multi-character ticks; ends by
/// closing the part's final measure.
pub open spec fn ticks_spec(
    content: Seq<Seq<u8>>,
    p: Seq<usize>,
    tick: int,
    est: int,
    m: ParseModel,
    pfl: usize,
) -> ParseModel
    decreases (if est - tick > 0 { est - tick } else { 0 })
{
    if tick >= est {
        let mstart = next_measure_start(m);
        ParseModel {
            measures: m.measures.push(Measure {
                data_range: IdxRange { start: mstart, end: m.stream.len() as usize },
            }),
            ..m
        }
    } else {
        let sep = (p[0] as int) < content[0].len() && content[0][p[0] as int] == 124;
        let m1 = if sep {
            ParseModel {
                measures: m.measures.push(Measure {
                    data_range: IdxRange {
                        start: next_measure_start(m),
                        end: m.stream.len() as usize,
                    },
                }),
                ..m
            }
        } else {
            m
        };
        let p1 = if sep {
            Seq::new(6, |k: int| (p[k] + 1) as usize)
        } else {
            p
        };
        let est1 = if sep {
            est - 1
        } else {
            est
        };
        match scan6(content, p1, 0, seq![], m1, pfl) {
            Err(me) => me,
            Ok((p2, flags, m2)) => {
                let fm = first_multi_from(flags, 0);
                if fm < 6 {
                    let fm2 = first_multi_from(flags, fm + 1);
                    if fm2 < 6 {
                        // two tracks hold a multi-character fret at one tick:
                        // a fatal ambiguity, never silently resolved
                        let lc = slfs_spec(m2, m2.stream.len() - (6 - fm2));
                        ParseModel {
                            error: Some(BackendError::spec_both_slots_multichar(
                                lc.0 as usize,
                                lc.1 as usize,
                                (pfl + fm) as usize,
                            )),
                            ..m2
                        }
                    } else {
                        match fix6(content, p2, 0, flags, m2, pfl) {
                            Err(me) => me,
                            Ok((p3, m3)) => ticks_spec(content, p3, tick + 1, est1 - 1, m3, pfl),
                        }
                    }
                } else {
                    ticks_spec(content, p2, tick + 1, est1, m2, pfl)
                }
            }
        }
    }
}

/// Whether a line can open or close a six-line part: an alphanumeric byte
/// followed by a separator, regardless of how the line ends. A candidate
/// line that lacks its trailing separator still forms a part, so that the
/// missing barline is reported rather than the part skipped.
pub open spec fn line_is_candidate(s: Seq<u8>) -> bool {
    let t = trim_spec(s);
    &&& t.len() > 1
    &&& is_alnum(t[0])
    &&& t[1] == 124
}

/// One full parse pass from line `pfl` on, carrying the result built so
/// far: skip lines until six consecutive lines shaped like part lines are
/// found, record the part's offset, run the prelude and the tick loop, and
/// continue after the part.
pub open spec fn parse_from(lines: Seq<Seq<u8>>, pfl: int, m: ParseModel) -> ParseModel
    decreases lines.len() - pfl when pfl >= 0
{
    if pfl + 5 >= lines.len() {
        m
    } else if !(line_is_candidate(lines[pfl]) && line_is_candidate(lines[pfl + 5])) {
        parse_from(lines, pfl + 1, m)
    } else {
        let m1 = ParseModel {
            offsets: m.offsets.push((pfl as usize, m.stream.len() as usize)),
            ..m
        };
        match prelude_step(lines, pfl as usize, 0, seq![], m1) {
            Err(me) => me,
            Ok((content, m2)) => {
                let m3 = ticks_spec(content, seq![0, 0, 0, 0, 0, 0], 0, content[0].len() as int, m2, pfl as usize);
                if m3.error is Some {
                    m3
                } else {
                    parse_from(lines, pfl + 6, m3)
                }
            }
        }
    }
}

/// What `parse` returns on `lines`.
pub open spec fn parse_spec(lines: Seq<Seq<u8>>) -> ParseModel {
    parse_from(
        lines,
        0,
        ParseModel {
            error: None,
            stream: seq![],
            measures: seq![],
            base_notes: seq![],
            offsets: seq![],
        },
    )
}

/// Scan one element on each of the six strings; on a scan failure, record
/// an invalid-character error at the forward location and stop.
fn scan_tick(
    content: &Vec<Vec<u8>>,
    p: &mut Vec<usize>,
    r: &mut ParseResult,
    pfl: usize,
) -> (flags_or: Option<Vec<bool>>)
    requires
        content@.len() == 6,
        old(p)@.len() == 6,
        old(r)@.wf(),
        old(r)@.stream.len() + 6 <= 6 * MAX_DOC,
        pfl + 6 <= MAX_LINES,
    ensures
        ({
            let sr = scan6(seq_views(content@), old(p)@, 0, seq![], old(r)@, pfl);
            &&& (sr is Ok <==> flags_or is Some)
            &&& sr matches Ok(t) ==> {
                &&& final(p)@ == t.0
                &&& flags_or->0@ == t.1
                &&& final(r)@ == t.2
            }
            &&& sr matches Err(me) ==> final(r)@ == me
        }),
        final(p)@.len() == 6,
        final(r)@.wf(),
        final(r)@.measures == old(r)@.measures,
        final(r)@.offsets == old(r)@.offsets,
        final(r)@.base_notes == old(r)@.base_notes,
        old(r)@.stream.len() <= final(r)@.stream.len() <= old(r)@.stream.len() + 6,
        flags_or is Some ==> {
            &&& final(r)@.stream.len() == old(r)@.stream.len() + 6
            &&& final(r)@.error == old(r)@.error
            &&& flags_or->0@.len() == 6
            &&& forall|k: int| 0 <= k < 6
                ==> #[trigger] final(p)@[k] <= seq_views(content@)[k].len()
            &&& (old(p)@[0] as int) < seq_views(content@)[0].len()
            &&& final(p)@[0] > old(p)@[0]
        },
        flags_or is None ==> final(r)@.error is Some,
{
    let ghost cv = seq_views(content@);
    let ghost p0 = p@;
    let ghost m0 = r@;
    let ghost full = scan6(cv, p0, 0, seq![], m0, pfl);
    let mut flags: Vec<bool> = Vec::new();
    let mut s: usize = 0;
    while s < 6
        invariant
            content@.len() == 6,
            cv == seq_views(content@),
            p@.len() == 6,
            0 <= s <= 6,
            flags@.len() == s,
            m0 == old(r)@,
            p0 == old(p)@,
            full == scan6(cv, p0, 0, seq![], m0, pfl),
            full == scan6(cv, p@, s as int, flags@, r@, pfl),
            r@.wf(),
            r@.stream.len() == m0.stream.len() + s,
            r@.measures == m0.measures,
            r@.offsets == m0.offsets,
            r@.base_notes == m0.base_notes,
            r@.error == m0.error,
            m0.stream.len() + 6 <= 6 * MAX_DOC,
            pfl + 6 <= MAX_LINES,
            forall|k: int| 0 <= k < s ==> #[trigger] p@[k] <= cv[k].len(),
            forall|k: int| s <= k < 6 ==> #[trigger] p@[k] == p0[k],
            s > 0 ==> (p0[0] as int) < cv[0].len() && p@[0] > p0[0],
        decreases 6 - s,
    {
        let ghost pit = p@;
        let ghost fit = flags@;
        let ghost mit = r@;
        let line: &Vec<u8> = &content[s];
        let i = p[s];
        let scanned = if i >= line.len() {
            None
        } else {
            crate::tab::tab_element(line.as_slice(), i)
        };
        match scanned {
            None => {
                proof {
                    assert(scan_elem(cv[s as int], i as int) is None);
                }
                let invalid = if i < line.len() {
                    line[i]
                } else {
                    0
                };
                let lc = source_location_while_parsing(r, pfl, s);
                r.error = Some(crate::errors::BackendError::parse3_invalid_character(
                    lc.0, lc.1, invalid,
                ));
                proof {
                    let me = scan6(cv, pit, s as int, fit, mit, pfl)->Err_0;
                    assert(r@ == me);
                }
                return None;
            }
            Some((e, j)) => {
                proof {
                    assert(scan_elem(cv[s as int], i as int) == Some(e));
                    crate::tab::lemma_digit_run_len_bounds(cv[s as int], i as int);
                    assert((j as int) == scan_next(cv[s as int], i as int));
                    assert((j as int) > i as int);
                }
                r.tick_stream.push(e);
                p.set(s, j);
                let w_multi = j - i > 1;
                flags.push(w_multi);
                proof {
                    assert(r@ == (ParseModel { stream: mit.stream.push(e), ..mit }));
                    assert(scan6(cv, pit, s as int, fit, mit, pfl)
                        == scan6(cv, p@, s + 1, flags@, r@, pfl));
                }
                s += 1;
            }
        }
    }
    proof {
        assert(flags@.len() == 6);
        assert(full == scan6(cv, p@, 6, flags@, r@, pfl));
    }
    Some(flags)
}

/// Repair one just-scanned multi-character tick: each string that consumed
/// a single column must absorb a displaced rest, or the tick is a fatal
/// ambiguity.
fn fix_tick(
    content: &Vec<Vec<u8>>,
    p: &mut Vec<usize>,
    flags: &Vec<bool>,
    r: &mut ParseResult,
    pfl: usize,
) -> (ok: bool)
    requires
        content@.len() == 6,
        old(p)@.len() == 6,
        flags@.len() == 6,
        old(r)@.wf(),
        old(r)@.stream.len() >= 6,
        old(r)@.offsets.len() > 0,
        old(r)@.offsets.last().1 + 6 <= old(r)@.stream.len(),
        pfl + 6 <= MAX_LINES,
    ensures
        ({
            let fr = fix6(seq_views(content@), old(p)@, 0, flags@, old(r)@, pfl);
            &&& (fr is Ok <==> ok)
            &&& fr matches Ok(t) ==> final(p)@ == t.0 && final(r)@ == t.1
            &&& fr matches Err(me) ==> final(r)@ == me
        }),
        final(p)@.len() == 6,
        final(r)@.wf(),
        final(r)@.stream.len() == old(r)@.stream.len(),
        final(r)@.measures == old(r)@.measures,
        final(r)@.offsets == old(r)@.offsets,
        final(r)@.base_notes == old(r)@.base_notes,
        ok ==> final(r)@.error == old(r)@.error,
        ok ==> forall|k: int| 0 <= k < 6
            ==> #[trigger] final(p)@[k] <= seq_views(content@)[k].len()
                || final(p)@[k] == old(p)@[k],
        ok ==> forall|k: int| 0 <= k < 6 ==> #[trigger] final(p)@[k] >= old(p)@[k],
        !ok ==> final(r)@.error is Some,
{
    let ghost cv = seq_views(content@);
    let ghost p0 = p@;
    let ghost m0 = r@;
    let ghost full = fix6(cv, p0, 0, flags@, m0, pfl);
    let mut s: usize = 0;
    while s < 6
        invariant
            content@.len() == 6,
            cv == seq_views(content@),
            p@.len() == 6,
            flags@.len() == 6,
            0 <= s <= 6,
            m0 == old(r)@,
            p0 == old(p)@,
            full == fix6(cv, p0, 0, flags@, m0, pfl),
            full == fix6(cv, p@, s as int, flags@, r@, pfl),
            r@.wf(),
            r@.stream.len() == m0.stream.len(),
            r@.measures == m0.measures,
            r@.offsets == m0.offsets,
            r@.base_notes == m0.base_notes,
            r@.error == m0.error,
            m0.stream.len() >= 6,
            m0.offsets.len() > 0,
            m0.offsets.last().1 + 6 <= m0.stream.len(),
            pfl + 6 <= MAX_LINES,
            forall|k: int| 0 <= k < s
                ==> #[trigger] p@[k] <= cv[k].len() || p@[k] == p0[k],
            forall|k: int| 0 <= k < 6 ==> #[trigger] p@[k] >= p0[k],
            forall|k: int| s <= k < 6 ==> #[trigger] p@[k] == p0[k],
        decreases 6 - s,
    {
        if flags[s] {
            s += 1;
            continue;
        }
        let elem_idx = r.tick_stream.len() - (6 - s);
        let line: &Vec<u8> = &content[s];
        let i = p[s];
        proof {
            assert(m0.offsets[0].1 <= m0.offsets.last().1);
        }
        let is_rest = matches!(r.tick_stream[elem_idx], TabElement::Rest);
        if is_rest {
            let scanned = if i >= line.len() {
                None
            } else {
                crate::tab::tab_element(line.as_slice(), i)
            };
            match scanned {
                None => {
                    proof {
                        assert(scan_elem(cv[s as int], i as int) is None);
                    }
                    let invalid = if i < line.len() {
                        line[i]
                    } else {
                        0
                    };
                    let lc = source_location_while_parsing(r, pfl, s);
                    r.error = Some(crate::errors::BackendError::parse3_invalid_character(
                        lc.0, lc.1, invalid,
                    ));
                    return false;
                }
                Some((e2, j)) => {
                    proof {
                        assert(scan_elem(cv[s as int], i as int) == Some(e2));
                        crate::tab::lemma_digit_run_len_bounds(cv[s as int], i as int);
                    }
                    if j - i > 1 {
                        let lc = source_location_from_stream(r, elem_idx);
                        let other = first_multi_exec(flags, 0) + pfl;
                        r.error = Some(crate::errors::BackendError::both_slots_multichar(
                            lc.0, lc.1, other,
                        ));
                        return false;
                    } else {
                        r.tick_stream.set(elem_idx, e2);
                        p.set(s, j);
                        s += 1;
                    }
                }
            }
        } else {
            if i < line.len() && line[i] == 45 {
                p.set(s, i + 1);
                s += 1;
            } else {
                let lc = source_location_from_stream(r, elem_idx);
                r.error = Some(crate::errors::BackendError::multi_both_slots_filled(lc.0, lc.1));
                return false;
            }
        }
    }
    true
}

/// Index of the first string from `from` on that consumed more than one
/// column; 6 when none did.
fn first_multi_exec(flags: &Vec<bool>, from: usize) -> (k: usize)
    requires
        flags@.len() == 6,
        from <= 6,
    ensures
        k as int == first_multi_from(flags@, from as int),
        k <= 6,
{
    let mut k: usize = from;
    while k < 6
        invariant
            from <= k <= 6,
            flags@.len() == 6,
            first_multi_from(flags@, from as int) == first_multi_from(flags@, k as int),
        decreases 6 - k,
    {
        if flags[k] {
            return k;
        }
        k += 1;
    }
    6
}

pub proof fn lemma_total_len_step(lines: Seq<Seq<u8>>, k: int)
    requires
        0 <= k < lines.len(),
    ensures
        total_len(lines.take(k + 1)) == total_len(lines.take(k)) + lines[k].len(),
{
    assert(lines.take(k + 1).drop_last() =~= lines.take(k));
    assert(lines.take(k + 1).last() == lines[k]);
}

pub proof fn lemma_total_len_nonneg(lines: Seq<Seq<u8>>)
    ensures
        total_len(lines) >= 0,
    decreases lines.len(),
{
    if lines.len() > 0 {
        lemma_total_len_nonneg(lines.drop_last());
    }
}

pub proof fn lemma_total_len_elem(lines: Seq<Seq<u8>>, i: int)
    requires
        0 <= i < lines.len(),
    ensures
        lines[i].len() <= total_len(lines),
    decreases lines.len(),
{
    lemma_total_len_nonneg(lines.drop_last());
    if i + 1 < lines.len() {
        assert(lines.drop_last()[i] == lines[i]);
        lemma_total_len_elem(lines.drop_last(), i);
        assert(total_len(lines) == total_len(lines.drop_last()) + lines.last().len());
    }
}

pub proof fn lemma_total_len_take_le(lines: Seq<Seq<u8>>, k: int)
    requires
        0 <= k <= lines.len(),
    ensures
        total_len(lines.take(k)) <= total_len(lines),
    decreases lines.len() - k,
{
    if k < lines.len() {
        lemma_total_len_step(lines, k);
        lemma_total_len_take_le(lines, k + 1);
    } else {
        assert(lines.take(k) =~= lines);
    }
}

/// The byte total of a document is the byte total of its line views.
pub proof fn lemma_total_len_views(lines: Seq<Vec<u8>>)
    ensures
        total_len(seq_views(lines)) == total_len_lines(lines),
    decreases lines.len(),
{
    if lines.len() > 0 {
        lemma_total_len_views(lines.drop_last());
        assert(seq_views(lines).drop_last() =~= seq_views(lines.drop_last()));
        assert(seq_views(lines).last() == lines.last()@);
    }
}

/// Total number of bytes over all lines of an owned document.
pub open spec fn total_len_lines(lines: Seq<Vec<u8>>) -> int
    decreases lines.len()
{
    if lines.len() == 0 {
        0
    } else {
        total_len_lines(lines.drop_last()) + lines.last()@.len()
    }
}

/// Run the prelude over the six lines starting at `pfl`: record the six
/// string names and return the six lines stripped to their measure
/// content, or record the prelude error.
fn parse_prelude(lines: &[Vec<u8>], pfl: usize, r: &mut ParseResult) -> (content_or: Option<
    Vec<Vec<u8>>,
>)
    requires
        pfl + 6 <= lines@.len(),
        lines@.len() <= MAX_LINES,
        old(r)@.wf(),
    ensures
        ({
            let pr = prelude_step(seq_views(lines@), pfl, 0, seq![], old(r)@);
            &&& (pr is Ok <==> content_or is Some)
            &&& pr matches Ok(t) ==> {
                &&& seq_views(content_or->0@) == t.0
                &&& final(r)@ == t.1
                &&& content_or->0@.len() == 6
            }
            &&& pr matches Err(me) ==> final(r)@ == me
        }),
        final(r)@.wf(),
        final(r)@.stream == old(r)@.stream,
        final(r)@.measures == old(r)@.measures,
        final(r)@.offsets == old(r)@.offsets,
        content_or is Some ==> final(r)@.error == old(r)@.error,
        content_or is None ==> final(r)@.error is Some,
        content_or matches Some(c) ==> forall|k: int| 0 <= k < 6
            ==> #[trigger] c@[k]@.len() + 3 <= lines@[pfl + k]@.len(),
{
    let ghost lv = seq_views(lines@);
    let ghost m0 = r@;
    let ghost full = prelude_step(lv, pfl, 0, seq![], m0);
    let mut content: Vec<Vec<u8>> = Vec::new();
    proof {
        assert(seq_views(content@) =~= Seq::<Seq<u8>>::empty());
    }
    let mut s: usize = 0;
    while s < 6
        invariant
            pfl + 6 <= lines@.len(),
            lines@.len() <= MAX_LINES,
            0 <= s <= 6,
            content@.len() == s,
            m0 == old(r)@,
            lv == seq_views(lines@),
            full == prelude_step(lv, pfl, 0, seq![], m0),
            full == prelude_step(lv, pfl, s as int, seq_views(content@), r@),
            r@.wf(),
            r@.stream == m0.stream,
            r@.measures == m0.measures,
            r@.offsets == m0.offsets,
            r@.error == m0.error,
            forall|k: int| 0 <= k < s
                ==> #[trigger] content@[k]@.len() + 3 <= lines@[pfl + k]@.len(),
        decreases 6 - s,
    {
        let ghost cit = seq_views(content@);
        let ghost mit = r@;
        let t = trim(lines[pfl + s].as_slice());
        let ghost ts = trim_spec(lv[pfl + s]);
        proof {
            assert(lv[pfl + s] == lines@[pfl + s]@);
        }
        let name_ok = t.len() > 0 && {
            let b0 = t[0];
            (65 <= b0 && b0 <= 90) || (97 <= b0 && b0 <= 122)
        };
        if !name_ok {
            r.error = Some(BackendError::parse3_invalid_string_name(pfl + s));
            proof {
                assert(r@ == prelude_step(lv, pfl, s as int, cit, mit)->Err_0);
            }
            return None;
        }
        r.base_notes.push(t[0]);
        if !(t.len() > 1 && t[1] == 124) {
            r.error = Some(BackendError::parse3_invalid_string_name(pfl + s));
            proof {
                assert(r@ == prelude_step(lv, pfl, s as int, cit, mit)->Err_0);
            }
            return None;
        }
        if !(t.len() > 2 && t[t.len() - 1] == 124) {
            r.error = Some(BackendError::no_closing_barline(pfl + s));
            proof {
                assert(ts.last() == ts[ts.len() - 1]);
                assert(r@ == prelude_step(lv, pfl, s as int, cit, mit)->Err_0);
            }
            return None;
        }
        let stripped = vstd::slice::slice_subrange(t, 2, t.len() - 1);
        let cvec = vstd::slice::slice_to_vec(stripped);
        content.push(cvec);
        proof {
            assert(ts.last() == ts[ts.len() - 1]);
            assert(seq_views(content@) =~= cit.push(ts.subrange(2, ts.len() - 1)));
            assert(prelude_step(lv, pfl, s as int, cit, mit)
                == prelude_step(lv, pfl, s + 1, seq_views(content@), r@));
        }
        s += 1;
    }
    Some(content)
}

/// One iteration of the tick loop: consume a leading separator on the
/// first string, scan the six strings, and repair a multi-character tick.
/// Returns whether the tick completed and the updated tick estimate.
fn tick_step(
    content: &Vec<Vec<u8>>,
    p: &mut Vec<usize>,
    r: &mut ParseResult,
    pfl: usize,
    tick: usize,
    est: usize,
) -> (res: (bool, usize))
    requires
        content@.len() == 6,
        old(p)@.len() == 6,
        old(r)@.wf(),
        old(r)@.error is None,
        tick < est,
        est <= MAX_DOC,
        (seq_views(content@)[0].len() as int) - (old(p)@[0] as int) <= est as int,
        forall|k: int| 0 <= k < 6 ==> #[trigger] seq_views(content@)[k].len() <= MAX_DOC,
        forall|k: int| 0 <= k < 6 ==> #[trigger] old(p)@[k] <= seq_views(content@)[k].len(),
        old(r)@.stream.len() + 6 <= 6 * MAX_DOC,
        old(r)@.measures.len() + 1 <= MAX_DOC + MAX_LINES,
        pfl + 6 <= MAX_LINES,
        old(r)@.offsets.len() > 0,
        old(r)@.offsets.last().1 + 6 * tick == old(r)@.stream.len(),
    ensures
        ({
            let step = ticks_spec(seq_views(content@), old(p)@, tick as int, est as int, old(r)@, pfl);
            &&& res.0 ==> step == ticks_spec(
                seq_views(content@),
                final(p)@,
                tick + 1,
                res.1 as int,
                final(r)@,
                pfl,
            )
            &&& !res.0 ==> step == final(r)@
        }),
        final(p)@.len() == 6,
        final(r)@.wf(),
        res.1 <= est,
        est - res.1 <= 2,
        final(r)@.measures.len() <= old(r)@.measures.len() + (est - res.1),
        final(r)@.offsets == old(r)@.offsets,
        final(r)@.base_notes == old(r)@.base_notes,
        old(r)@.stream.len() <= final(r)@.stream.len() <= old(r)@.stream.len() + 6,
        res.0 ==> final(r)@.stream.len() == old(r)@.stream.len() + 6,
        res.0 ==> final(r)@.error is None,
        !res.0 ==> final(r)@.error is Some,
        res.0 ==> (seq_views(content@)[0].len() as int) - (final(p)@[0] as int) <= res.1 as int,
        res.0 ==> forall|k: int| 0 <= k < 6
            ==> #[trigger] final(p)@[k] <= seq_views(content@)[k].len(),
{
    let ghost cv = seq_views(content@);
    let ghost pit = p@;
    let ghost mit = r@;
    let mut est_now = est;
    let c0len = content[0].len();
    let p0v = p[0];
    let sep = p0v < c0len && content[0][p0v] == 124;
    if sep {
        let mstart = if r.measures.len() > 0 {
            r.measures[r.measures.len() - 1].data_range.end
        } else {
            0
        };
        let slen = r.tick_stream.len();
        r.measures.push(Measure { data_range: IdxRange { start: mstart, end: slen } });
        let mut k: usize = 0;
        while k < 6
            invariant
                0 <= k <= 6,
                p@.len() == 6,
                pit.len() == 6,
                cv == seq_views(content@),
                forall|j: int| 0 <= j < k ==> #[trigger] p@[j] == pit[j] + 1,
                forall|j: int| k <= j < 6 ==> #[trigger] p@[j] == pit[j],
                forall|j: int| 0 <= j < 6 ==> #[trigger] pit[j] <= cv[j].len() <= MAX_DOC,
            decreases 6 - k,
        {
            let pv = p[k];
            p.set(k, pv + 1);
            k += 1;
        }
        est_now = est_now - 1;
        proof {
            assert(p@ =~= Seq::new(6, |j: int| (pit[j] + 1) as usize));
        }
    }
    let ghost msep = r@;
    let ghost psep = p@;
    let ghost estsep = est_now as int;
    proof {
        if sep {
            assert(msep == (ParseModel {
                measures: mit.measures.push(Measure {
                    data_range: IdxRange {
                        start: next_measure_start(mit),
                        end: mit.stream.len() as usize,
                    },
                }),
                ..mit
            }));
        }
        assert(msep.wf());
    }
    let flags_or = scan_tick(content, p, r, pfl);
    match flags_or {
        None => {
            proof {
                let me = scan6(cv, psep, 0, seq![], msep, pfl)->Err_0;
                assert(r@ == me);
                assert(ticks_spec(cv, pit, tick as int, est as int, mit, pfl) == me);
            }
            (false, est_now)
        }
        Some(flags) => {
            let fm = first_multi_exec(&flags, 0);
            let ghost sr = scan6(cv, psep, 0, seq![], msep, pfl)->Ok_0;
            if fm < 6 {
                let fm2 = first_multi_exec(&flags, fm + 1);
                if fm2 < 6 {
                    // a second track also consumed a multi-character fret
                    let elem_idx = r.tick_stream.len() - (6 - fm2);
                    let lc = source_location_from_stream(r, elem_idx);
                    r.error = Some(crate::errors::BackendError::both_slots_multichar(
                        lc.0, lc.1, fm + pfl,
                    ));
                    proof {
                        assert(ticks_spec(cv, pit, tick as int, est as int, mit, pfl) == r@);
                    }
                    return (false, est_now);
                }
                let okf = fix_tick(content, p, &flags, r, pfl);
                if !okf {
                    proof {
                        let me = fix6(cv, sr.0, 0, sr.1, sr.2, pfl)->Err_0;
                        assert(r@ == me);
                        assert(ticks_spec(cv, pit, tick as int, est as int, mit, pfl) == me);
                    }
                    return (false, est_now);
                }
                est_now = est_now - 1;
                proof {
                    assert(ticks_spec(cv, pit, tick as int, est as int, mit, pfl)
                        == ticks_spec(cv, p@, tick + 1, est_now as int, r@, pfl));
                }
                (true, est_now)
            } else {
                proof {
                    assert(ticks_spec(cv, pit, tick as int, est as int, mit, pfl)
                        == ticks_spec(cv, p@, tick + 1, est_now as int, r@, pfl));
                }
                (true, est_now)
            }
        }
    }
}

/// Parse a whole document of lines: find each six-line part, scan it in
/// lock-step with multi-character repair, and record ticks, measures,
/// string names and per-part offsets. Never panics; all failure is
/// reported through the `error` field of the result, next to the partial
/// state built so far.
#[verifier::rlimit(100)]
pub fn parse(lines: &[Vec<u8>]) -> (r: ParseResult)
    requires
        lines@.len() <= MAX_LINES,
        total_len(seq_views(lines@)) <= MAX_DOC,
    ensures
        r@ == parse_spec(seq_views(lines@)),
        r@.wf(),
{
    let ghost lv = seq_views(lines@);
    let mut r = ParseResult::new();
    proof {
        assert(lv.take(0int) =~= Seq::<Seq<u8>>::empty());
    }
    let mut pfl: usize = 0;
    while pfl + 5 < lines.len()
        invariant
            lv == seq_views(lines@),
            lines@.len() <= MAX_LINES,
            total_len(lv) <= MAX_DOC,
            0 <= pfl <= lines@.len(),
            parse_spec(lv) == parse_from(lv, pfl as int, r@),
            r@.error is None,
            r@.wf(),
            r@.stream.len() <= 6 * total_len(lv.take(pfl as int)),
            r@.measures.len() <= total_len(lv.take(pfl as int)) + pfl,
            6 * r@.offsets.len() <= pfl,
        decreases lines@.len() - pfl,
    {
        proof {
            lemma_total_len_nonneg(lv.take(pfl as int));
            lemma_total_len_take_le(lv, pfl as int);
        }
        let v0 = line_candidate(lines[pfl].as_slice());
        let v5 = line_candidate(lines[pfl + 5].as_slice());
        if !(v0 && v5) {
            proof {
                assert(parse_from(lv, pfl as int, r@) == parse_from(lv, pfl + 1, r@));
                assert(lv.take(pfl + 1).drop_last() =~= lv.take(pfl as int));
                lemma_total_len_step(lv, pfl as int);
            }
            pfl += 1;
            continue;
        }
        let ghost pflg = pfl as int;
        let ghost mpart0 = r@;
        r.offsets.push((pfl, r.tick_stream.len()));
        let ghost m1 = r@;
        proof {
            assert(m1 == (ParseModel {
                offsets: mpart0.offsets.push((pfl, mpart0.stream.len() as usize)),
                ..mpart0
            }));
            assert(m1.offsets.last() == (pfl, mpart0.stream.len() as usize));
            assert(m1.wf());
        }
        let content_or = parse_prelude(lines, pfl, &mut r);
        let content = match content_or {
            None => {
                proof {
                    let me = prelude_step(lv, pfl, 0, seq![], m1)->Err_0;
                    assert(r@ == me);
                    assert(parse_from(lv, pflg, mpart0) == me);
                }
                return r;
            }
            Some(c) => c,
        };
        let ghost cv = seq_views(content@);
        let ghost m2 = r@;
        let ghost s0 = r@.stream.len() as int;
        let est0 = content[0].len();
        let mut est = est0;
        let mut tick: usize = 0;
        let mut p: Vec<usize> = vec![0, 0, 0, 0, 0, 0];
        proof {
            assert(p@ =~= seq![0usize, 0usize, 0usize, 0usize, 0usize, 0usize]);
        }
        let ghost tfull = ticks_spec(cv, p@, 0, est0 as int, m2, pfl);
        proof {
            lemma_total_len_step(lv, pflg);
            lemma_total_len_take_le(lv, pflg + 1);
            lemma_total_len_nonneg(lv.take(pflg));
            assert forall|k: int| 0 <= k < 6 implies #[trigger] lv[pflg + k].len() <= MAX_DOC by {
                lemma_total_len_elem(lv, pflg + k);
            }
            assert forall|k: int| 0 <= k < 6 implies #[trigger] lv[pflg + k] == lines@[pflg
                + k]@ by {}
            assert forall|k: int| 0 <= k < 6 implies #[trigger] cv[k].len() + 3 <= lv[pfl
                + k].len() by {
                assert(cv[k] == content@[k]@);
                assert(content@[k]@.len() + 3 <= lines@[pfl + k]@.len());
                assert(lv[pfl + k] == lines@[pfl + k]@);
            }
            if tfull.error is Some {
                assert(parse_from(lv, pflg, mpart0) == tfull);
            } else {
                assert(parse_from(lv, pflg, mpart0) == parse_from(lv, pflg + 6, tfull));
            }
        }
        while tick < est
            invariant
                lv == seq_views(lines@),
                pflg == pfl as int,
                content@.len() == 6,
                cv == seq_views(content@),
                p@.len() == 6,
                tfull == ticks_spec(cv, p@, tick as int, est as int, r@, pfl),
                parse_spec(lv) == parse_from(lv, pflg, mpart0),
                (if tfull.error is Some {
                    parse_from(lv, pflg, mpart0) == tfull
                } else {
                    parse_from(lv, pflg, mpart0) == parse_from(lv, pflg + 6, tfull)
                }),
                r@.wf(),
                r@.error is None,
                r@.stream.len() == s0 + 6 * tick,
                r@.offsets == m2.offsets,
                r@.base_notes == m2.base_notes,
                r@.offsets.len() > 0,
                r@.offsets.last().1 == s0,
                r@.measures.len() <= m2.measures.len() + (est0 - est),
                (cv[0].len() as int) - (p@[0] as int) <= est as int,
                tick <= est0,
                est <= est0,
                est0 == cv[0].len(),
                forall|k: int| 0 <= k < 6 ==> #[trigger] p@[k] <= cv[k].len(),
                forall|k: int| 0 <= k < 6 ==> #[trigger] cv[k].len() <= MAX_DOC,
                s0 + 6 * est0 + 6 <= 6 * MAX_DOC,
                m2.measures.len() + est0 + 1 <= MAX_DOC + MAX_LINES,
                pfl + 6 <= MAX_LINES,
                s0 >= 0,
            decreases (if (est as int) - (tick as int) > 0 { (est as int) - (tick as int) } else { 0int }),
        {
            let step = tick_step(&content, &mut p, &mut r, pfl, tick, est);
            if !step.0 {
                proof {
                    assert(tfull == r@);
                    assert(r@.error is Some);
                    assert(parse_from(lv, pflg, mpart0) == r@);
                }
                return r;
            }
            est = step.1;
            tick += 1;
        }
        // close the part's final measure
        let ghost mpre = r@;
        let mstart = if r.measures.len() > 0 {
            r.measures[r.measures.len() - 1].data_range.end
        } else {
            0
        };
        let slen = r.tick_stream.len();
        r.measures.push(Measure { data_range: IdxRange { start: mstart, end: slen } });
        proof {
            assert(r@ == (ParseModel {
                measures: mpre.measures.push(Measure {
                    data_range: IdxRange {
                        start: next_measure_start(mpre),
                        end: mpre.stream.len() as usize,
                    },
                }),
                ..mpre
            }));
            assert(tfull == r@);
            assert(r@.error is None);
            assert(parse_from(lv, pflg, mpart0) == parse_from(lv, pflg + 6, r@));
            // outer bounds for the next round
            lemma_total_len_step(lv, pflg);
            lemma_total_len_step(lv, pflg + 1);
            lemma_total_len_step(lv, pflg + 2);
            lemma_total_len_step(lv, pflg + 3);
            lemma_total_len_step(lv, pflg + 4);
            lemma_total_len_step(lv, pflg + 5);
            lemma_total_len_nonneg(lv.take(pflg));
        }
        pfl += 6;
    }
    proof {
        assert(parse_from(lv, pfl as int, r@) == r@);
    }
    r
}

/// Whether this line can open or close a six-line part.
fn line_candidate(line: &[u8]) -> (r: bool)
    ensures
        r == line_is_candidate(line@),
{
    let t = trim(line);
    if t.len() < 2 {
        return false;
    }
    let b0 = t[0];
    let alnum = (65 <= b0 && b0 <= 90) || (97 <= b0 && b0 <= 122) || (48 <= b0 && b0 <= 57);
    alnum && t[1] == 124
}


/// Sum of printed tick widths over ticks `t0..t1`.
fn width_sum_exec(stream: &Vec<TabElement>, t0: usize, t1: usize) -> (w: usize)
    requires
        t1 <= MAX_DOC,
        6 * t1 <= stream@.len() + 6,
    ensures
        w as int == width_sum(stream@, t0 as int, t1 as int),
{
    proof {
        lemma_width_sum_bounds(stream@, t0 as int, t1 as int);
    }
    if t0 >= t1 {
        return 0;
    }
    let mut w: usize = 0;
    let mut t = t0;
    while t < t1
        invariant
            t0 <= t <= t1,
            t1 <= MAX_DOC,
            6 * t1 <= stream@.len() + 6,
            w == width_sum(stream@, t0 as int, t as int),
            0 <= w <= 20 * (t - t0),
        decreases t1 - t,
    {
        proof {
            lemma_width_sum_bounds(stream@, t0 as int, t as int);
            lemma_tick_width_bounds(stream@, 6 * t as int, 6);
        }
        let tw = tick_width_exec(stream, t);
        w += tw;
        t += 1;
    }
    w
}

} // verus!
