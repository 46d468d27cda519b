//! Core tab-notation data model and the element scanner.
//!
//! Lines of tablature are handled as byte slices; every recognized lexeme is
//! ASCII (`-`, `x`, decimal digits, `|`).

use vstd::prelude::*;

use crate::IdxRange;

verus! {

/// One element of a tab line: a rest, a dead (muted) note, or a fretted note.
#[derive(Debug, Clone, Copy, PartialEq, Eq, Structural)]
pub enum TabElement {
    Fret(u64),
    Rest,
    DeadNote,
}

/// One scanned element together with the line it came from and the scanner
/// position just after it on that line.
#[derive(Debug, Clone, Copy, PartialEq, Eq, Structural)]
pub struct RawTick {
    pub element: TabElement,
    pub idx_on_parent_line: usize,
    pub parent_line: usize,
}

pub open spec fn is_digit(b: u8) -> bool {
    48 <= b <= 57
}

pub open spec fn is_ascii_letter(b: u8) -> bool {
    (65 <= b <= 90) || (97 <= b <= 122)
}

/// Number of consecutive decimal digits starting at position `i`.
pub open spec fn digit_run_len(s: Seq<u8>, i: int) -> nat
    decreases s.len() - i when i <= s.len()
{
    if 0 <= i < s.len() && is_digit(s[i]) {
        1 + digit_run_len(s, i + 1)
    } else {
        0
    }
}

/// Value of the digit run starting at `i`, folded left onto `acc`.
pub open spec fn digits_value_acc(s: Seq<u8>, i: int, acc: int) -> int
    decreases s.len() - i when i <= s.len()
{
    if 0 <= i < s.len() && is_digit(s[i]) {
        digits_value_acc(s, i + 1, acc * 10 + (s[i] - 48))
    } else {
        acc
    }
}

/// Numeric value of the digit run starting at `i`.
pub open spec fn digit_run_value(s: Seq<u8>, i: int) -> int {
    digits_value_acc(s, i, 0)
}

/// The element the scanner recognizes at position `i`, if any. Any digit
/// run scans as a fret; only a run whose value does not fit the fret
/// representation fails.
pub open spec fn scan_elem(s: Seq<u8>, i: int) -> Option<TabElement> {
    if 0 <= i < s.len() {
        if s[i] == 45 {
            Some(TabElement::Rest)
        } else if s[i] == 120 {
            Some(TabElement::DeadNote)
        } else if is_digit(s[i]) {
            if digit_run_value(s, i) <= u64::MAX {
                Some(TabElement::Fret(digit_run_value(s, i) as u64))
            } else {
                None
            }
        } else {
            None
        }
    } else {
        None
    }
}

/// Position just after the element scanned at `i` (meaningful when the scan
/// succeeds).
pub open spec fn scan_next(s: Seq<u8>, i: int) -> int {
    if 0 <= i < s.len() && is_digit(s[i]) {
        i + digit_run_len(s, i)
    } else {
        i + 1
    }
}

/// A left fold already above the fret bound stays above it.
proof fn lemma_digits_value_acc_monotone(s: Seq<u8>, i: int, acc: int)
    requires
        i <= s.len(),
        acc > u64::MAX,
    ensures
        digits_value_acc(s, i, acc) > u64::MAX,
    decreases s.len() - i,
{
    if 0 <= i < s.len() && is_digit(s[i]) {
        assert(acc * 10 + (s[i] - 48) > u64::MAX) by (nonlinear_arith)
            requires acc > u64::MAX;
        lemma_digits_value_acc_monotone(s, i + 1, acc * 10 + (s[i] - 48));
    }
}

/// Scan one tab element at position `i` of `s`.
///
/// Returns the element and the position just past it, or `None` when no
/// element starts at `i`.
pub fn tab_element(s: &[u8], i: usize) -> (r: Option<(TabElement, usize)>)
    requires
        i <= s@.len(),
    ensures
        r is Some <==> scan_elem(s@, i as int) is Some,
        r is Some ==> {
            let (e, j) = r->0;
            scan_elem(s@, i as int) == Some(e) && j as int == scan_next(s@, i as int)
        },
{
    if i >= s.len() {
        return None;
    }
    let b = s[i];
    if b == 45 {
        Some((TabElement::Rest, i + 1))
    } else if b == 120 {
        Some((TabElement::DeadNote, i + 1))
    } else if 48 <= b && b <= 57 {
        let mut j = i;
        let mut v: u64 = 0;
        let mut fits = true;
        let ghost mut acc: int = 0int;
        while j < s.len() && 48 <= s[j] && s[j] <= 57
            invariant
                i <= j <= s@.len(),
                digit_run_len(s@, i as int) == (j - i) + digit_run_len(s@, j as int),
                digits_value_acc(s@, i as int, 0) == digits_value_acc(s@, j as int, acc),
                fits ==> v == acc,
                fits <==> acc <= u64::MAX,
            decreases s@.len() - j,
        {
            let d = (s[j] - 48) as u64;
            proof {
                if acc > u64::MAX {
                    assert(acc * 10 + (s@[j as int] - 48) > u64::MAX) by (nonlinear_arith)
                        requires acc > u64::MAX;
                }
            }
            if fits {
                if v > (u64::MAX - d) / 10 {
                    fits = false;
                    proof {
                        assert(v * 10 + d > u64::MAX) by (nonlinear_arith)
                            requires v > (u64::MAX - d) / 10, 0 <= d <= 9, v >= 0;
                    }
                } else {
                    proof {
                        assert(v * 10 + d <= u64::MAX) by (nonlinear_arith)
                            requires v <= (u64::MAX - d) / 10, 0 <= d <= 9, v >= 0;
                    }
                    v = v * 10 + d;
                }
            }
            proof {
                acc = acc * 10 + (s@[j as int] - 48);
            }
            j += 1;
        }
        assert(digit_run_len(s@, j as int) == 0);
        assert(digits_value_acc(s@, j as int, acc) == acc);
        if fits {
            Some((TabElement::Fret(v), j))
        } else {
            None
        }
    } else {
        None
    }
}

/// Decimal digits of a fret value, most significant first.
pub open spec fn fret_digits(n: int) -> Seq<u8>
    decreases n when n >= 0
{
    if 0 <= n < 10 {
        seq![(48 + n) as u8]
    } else {
        fret_digits(n / 10).push((48 + n % 10) as u8)
    }
}

/// The bytes an element prints as.
pub open spec fn elem_repr(e: TabElement) -> Seq<u8> {
    match e {
        TabElement::Fret(n) => fret_digits(n as int),
        TabElement::Rest => seq![45u8],
        TabElement::DeadNote => seq![120u8],
    }
}

/// The printed width of an element.
pub open spec fn repr_len(e: TabElement) -> int {
    elem_repr(e).len() as int
}

pub open spec fn pow10(k: nat) -> int
    decreases k
{
    if k == 0 {
        1
    } else {
        10 * pow10((k - 1) as nat)
    }
}

/// A value below the `k`-th power of ten prints as at most `k` digits.
proof fn lemma_fret_digits_len(n: int, k: nat)
    requires
        k >= 1,
        0 <= n < pow10(k),
    ensures
        fret_digits(n).len() <= k,
    decreases k,
{
    if n >= 10 {
        let p = pow10((k - 1) as nat);
        assert(pow10(k) == 10 * p);
        assert(n / 10 < p && p >= 1) by (nonlinear_arith)
            requires n < 10 * p, n >= 10, p >= 1 || pow10((k - 1) as nat) >= 0, 10 * p > n;
        lemma_fret_digits_len(n / 10, (k - 1) as nat);
    }
}

proof fn lemma_pow10_pos(k: nat)
    ensures
        pow10(k) >= 1,
    decreases k,
{
    if k > 0 {
        lemma_pow10_pos((k - 1) as nat);
    }
}

/// Every element prints as one to twenty bytes (a fret holds at most
/// twenty decimal digits).
pub proof fn lemma_repr_len_bounds(e: TabElement)
    ensures
        1 <= repr_len(e) <= 20,
        e is Rest ==> repr_len(e) == 1,
        e is DeadNote ==> repr_len(e) == 1,
        e matches TabElement::Fret(n) ==> (n < 10 ==> repr_len(e) == 1),
{
    if let TabElement::Fret(n) = e {
        lemma_pow10_pos(19);
        assert(pow10(20) == 100000000000000000000) by {
            reveal_with_fuel(pow10, 21);
        }
        lemma_fret_digits_len(n as int, 20);
    }
}

/// The printed width of an element.
pub fn elem_width(e: TabElement) -> (w: usize)
    ensures
        w == repr_len(e),
        1 <= w <= 20,
{
    proof {
        lemma_repr_len_bounds(e);
    }
    match e {
        TabElement::Rest => 1,
        TabElement::DeadNote => 1,
        TabElement::Fret(n) => {
            let mut w: usize = 1;
            let mut x = n;
            while x >= 10
                invariant
                    1 <= w,
                    repr_len(TabElement::Fret(n)) == w - 1 + fret_digits(x as int).len(),
                    fret_digits(x as int).len() >= 1,
                    w + fret_digits(x as int).len() <= 21,
                decreases x,
            {
                proof {
                    assert(fret_digits(x as int) == fret_digits(x as int / 10).push(
                        (48 + x as int % 10) as u8,
                    ));
                    lemma_fret_digits_min_len(x as int / 10);
                }
                x = x / 10;
                w += 1;
            }
            w
        }
    }
}

/// A printed fret always has at least one digit.
proof fn lemma_fret_digits_min_len(n: int)
    requires
        n >= 0,
    ensures
        fret_digits(n).len() >= 1,
    decreases n,
{
    if n >= 10 {
        lemma_fret_digits_min_len(n / 10);
    }
}

/// Append the decimal digits of `n`, most significant first.
fn push_decimal(out: &mut Vec<u8>, n: u64)
    ensures
        final(out)@ == old(out)@ + fret_digits(n as int),
    decreases n,
{
    if n < 10 {
        out.push(48 + n as u8);
        proof {
            assert(out@ =~= old(out)@ + fret_digits(n as int));
        }
    } else {
        push_decimal(out, n / 10);
        out.push(48 + (n % 10) as u8);
        proof {
            assert(fret_digits(n as int) == fret_digits(n as int / 10).push(
                (48 + n as int % 10) as u8,
            ));
            assert(out@ =~= old(out)@ + fret_digits(n as int));
        }
    }
}

/// Append the printed form of one element.
pub fn push_elem_repr(out: &mut Vec<u8>, e: TabElement)
    ensures
        final(out)@ == old(out)@ + elem_repr(e),
{
    match e {
        TabElement::Rest => out.push(45),
        TabElement::DeadNote => out.push(120),
        TabElement::Fret(n) => {
            push_decimal(out, n);
        }
    }
    proof {
        assert(out@ =~= old(out)@ + elem_repr(e));
    }
}

/// The printed form of the elements `buf[i..j)`, concatenated.
pub open spec fn render_ticks(buf: Seq<RawTick>, i: int, j: int) -> Seq<u8>
    decreases j - i
{
    if i < j {
        render_ticks(buf, i, j - 1) + elem_repr(buf[j - 1].element)
    } else {
        seq![]
    }
}

/// A contiguous run of ticks bounded by separators: the indices
/// `content.start..content.end` of the owning track's tick buffer, plus where
/// on its source line the measure sits.
#[derive(Debug, Clone, Copy, PartialEq, Eq, Structural)]
pub struct Measure {
    pub content: IdxRange,
    pub parent_line: usize,
    pub index_on_parent_line: usize,
}

impl Measure {
    /// Grow the measure by one tick at its end.
    pub fn extend_1(&mut self)
        requires
            old(self).content.end < usize::MAX,
        ensures
            *final(self) == (Measure {
                content: IdxRange { start: old(self).content.start, end: (old(self).content.end + 1) as usize },
                ..*old(self)
            }),
    {
        self.content = IdxRange { start: self.content.start, end: self.content.end + 1 };
    }

    /// Shrink the measure by one tick at its end.
    pub fn pop_1(&mut self)
        requires
            old(self).content.start < old(self).content.end,
        ensures
            *final(self) == (Measure {
                content: IdxRange { start: old(self).content.start, end: (old(self).content.end - 1) as usize },
                ..*old(self)
            }),
    {
        self.content = IdxRange { start: self.content.start, end: self.content.end - 1 };
    }

    /// Number of ticks in the measure.
    pub fn len(&self) -> (n: usize)
        requires
            self.content.wf(),
        ensures
            n == self.content.spec_len(),
    {
        self.content.end - self.content.start
    }

    pub fn is_empty(&self) -> (b: bool)
        requires
            self.content.wf(),
        ensures
            b == (self.content.spec_len() == 0),
    {
        self.len() == 0
    }

    /// The ticks of this measure, as a slice of the track's tick buffer.
    pub fn get_content<'a>(&self, string_buf: &'a [RawTick]) -> (r: &'a [RawTick])
        requires
            self.content.wf(),
            self.content.end <= string_buf@.len(),
        ensures
            r@ == string_buf@.subrange(self.content.start as int, self.content.end as int),
    {
        vstd::slice::slice_subrange(string_buf, self.content.start, self.content.end)
    }

    /// Print the measure's elements back to text, one element after another.
    pub fn print_pretty_string(&self, string_buf: &[RawTick]) -> (r: Vec<u8>)
        requires
            self.content.wf(),
            self.content.end <= string_buf@.len(),
        ensures
            r@ == render_ticks(string_buf@, self.content.start as int, self.content.end as int),
    {
        let mut out: Vec<u8> = Vec::new();
        let mut k = self.content.start;
        while k < self.content.end
            invariant
                self.content.start <= k <= self.content.end,
                self.content.end <= string_buf@.len(),
                out@ == render_ticks(string_buf@, self.content.start as int, k as int),
            decreases self.content.end - k,
        {
            push_elem_repr(&mut out, string_buf[k].element);
            k += 1;
        }
        out
    }
}

/// One string's line within a part: its name and the measure-table indices
/// `measures.start..measures.end` that originated from this line.
#[derive(Debug, Clone, Copy, PartialEq, Eq, Structural)]
pub struct Partline {
    pub string_name: u8,
    pub measures: IdxRange,
}

impl Partline {
    /// The measure count of this partline.
    pub fn len(&self) -> (n: usize)
        requires
            self.measures.wf(),
        ensures
            n == self.measures.spec_len(),
    {
        self.measures.end - self.measures.start
    }

    #[must_use]
    pub fn is_empty(&self) -> (b: bool)
        requires
            self.measures.wf(),
        ensures
            b == (self.measures.spec_len() == 0),
    {
        self.len() == 0
    }
}

/// A section of the document: either a part of six string lines, or a
/// comment's text.
#[derive(Debug, Clone, PartialEq, Eq)]
pub enum Section {
    Part { part: [Partline; 6] },
    Comment(Vec<u8>),
}

/// The ordered sections of a parsed document.
#[derive(Debug, Clone, PartialEq, Eq)]
pub struct Score(pub Vec<Section>);

/// The mathematical content of a `Section`.
pub ghost enum SecModel {
    Part(Seq<Partline>),
    Comment(Seq<u8>),
}

/// The model of a section.
pub open spec fn sec_view(s: Section) -> SecModel {
    match s {
        Section::Part { part } => SecModel::Part(part@),
        Section::Comment(c) => SecModel::Comment(c@),
    }
}

/// What one partline appends to the track buffers, and where it stops on
/// failure.
pub ghost struct PartlineOut {
    /// The position at which the line stopped parsing, if it did.
    pub err: Option<int>,
    pub ticks: Seq<RawTick>,
    pub measures: Seq<Measure>,
}

/// The greedy element run starting at position `i`: the ticks scanned, and
/// the position where scanning stops.
pub open spec fn run_ticks(s: Seq<u8>, i: int, line: usize) -> (Seq<RawTick>, int)
    decreases s.len() - i via run_ticks_decreases
{
    match scan_elem(s, i) {
        Some(e) => {
            let j = scan_next(s, i);
            let t = RawTick { element: e, idx_on_parent_line: (j - 1) as usize, parent_line: line };
            let rest = run_ticks(s, j, line);
            (seq![t] + rest.0, rest.1)
        }
        None => (seq![], i),
    }
}

#[via_fn]
proof fn run_ticks_decreases(s: Seq<u8>, i: int, line: usize) {
    if scan_elem(s, i) is Some {
        lemma_digit_run_len_bounds(s, i);
    }
}

/// A digit run never runs past the end of the line.
pub proof fn lemma_digit_run_len_bounds(s: Seq<u8>, i: int)
    requires
        0 <= i < s.len(),
    ensures
        i + digit_run_len(s, i) <= s.len(),
    decreases s.len() - i,
{
    if is_digit(s[i]) {
        if i + 1 < s.len() {
            lemma_digit_run_len_bounds(s, i + 1);
        } else {
            assert(digit_run_len(s, i + 1) == 0);
        }
    }
}

/// Positions and counts of a greedy element run stay within the line.
pub proof fn lemma_run_ticks_bounds(s: Seq<u8>, i: int, line: usize)
    requires
        0 <= i <= s.len(),
    ensures
        i <= run_ticks(s, i, line).1 <= s.len(),
        run_ticks(s, i, line).0.len() <= run_ticks(s, i, line).1 - i,
    decreases s.len() - i,
{
    if scan_elem(s, i) is Some {
        lemma_digit_run_len_bounds(s, i);
        lemma_run_ticks_bounds(s, scan_next(s, i), line);
    }
}

/// The measures-and-separators loop of one partline, starting at `pos` with
/// the track's tick buffer already `buf_len` long and `m_ord` measures of
/// this line already emitted.
pub open spec fn partline_rec(s: Seq<u8>, pos: int, line: usize, buf_len: int, m_ord: int) -> PartlineOut
    decreases s.len() - pos via partline_rec_decreases
{
    if pos >= s.len() || pos < 0 {
        PartlineOut { err: None, ticks: seq![], measures: seq![] }
    } else {
        let r = run_ticks(s, pos, line);
        let ts = r.0;
        let p2 = r.1;
        let m = Measure {
            content: IdxRange { start: buf_len as usize, end: (buf_len + ts.len()) as usize },
            parent_line: line,
            index_on_parent_line: m_ord as usize,
        };
        if p2 < s.len() && s[p2] == 124 {
            let rest = partline_rec(s, p2 + 1, line, buf_len + ts.len(), m_ord + 1);
            PartlineOut {
                err: rest.err,
                ticks: ts + rest.ticks,
                measures: seq![m] + rest.measures,
            }
        } else {
            PartlineOut { err: Some(p2), ticks: ts, measures: seq![m] }
        }
    }
}

#[via_fn]
proof fn partline_rec_decreases(s: Seq<u8>, pos: int, line: usize, buf_len: int, m_ord: int) {
    if 0 <= pos < s.len() {
        lemma_run_ticks_bounds(s, pos, line);
    }
}

/// Everything one partline does: the appended ticks and measures, and either
/// the parsed `Partline` or the position where parsing stopped.
pub ghost struct PartlineResult {
    pub out: PartlineOut,
    pub res: Result<Partline, int>,
}

/// The full partline grammar `<letter>|<measure>(|<measure>)*|` over the
/// line `s`, appending to a tick buffer of length `buf_len` and a measure
/// buffer of length `mbuf_len`.
pub open spec fn partline_spec(s: Seq<u8>, line: usize, buf_len: int, mbuf_len: int) -> PartlineResult {
    let empty = PartlineOut { err: None, ticks: seq![], measures: seq![] };
    if !(s.len() > 0 && is_ascii_letter(s[0])) {
        PartlineResult { out: empty, res: Err(0) }
    } else if !(s.len() > 1 && s[1] == 124) {
        PartlineResult { out: empty, res: Err(1) }
    } else if s.len() == 2 {
        // the grammar asks for at least one measure and its closing
        // separator after the prelude
        PartlineResult { out: empty, res: Err(2) }
    } else {
        let out = partline_rec(s, 2, line, buf_len, 1);
        match out.err {
            Some(p) => PartlineResult { out, res: Err(p) },
            None => PartlineResult {
                out,
                res: Ok(Partline {
                    string_name: s[0],
                    measures: IdxRange {
                        start: mbuf_len as usize,
                        end: (mbuf_len + out.measures.len()) as usize,
                    },
                }),
            },
        }
    }
}

/// The ticks and measures of a partline stay within the length of the line.
pub proof fn lemma_partline_rec_bounds(s: Seq<u8>, pos: int, line: usize, buf_len: int, m_ord: int)
    requires
        0 <= pos <= s.len() + 1,
    ensures
        partline_rec(s, pos, line, buf_len, m_ord).ticks.len() <= s.len() - pos + 1,
        partline_rec(s, pos, line, buf_len, m_ord).measures.len() <= s.len() - pos + 1,
    decreases s.len() - pos,
{
    if pos < s.len() {
        lemma_run_ticks_bounds(s, pos, line);
        let r = run_ticks(s, pos, line);
        if r.1 < s.len() && s[r.1] == 124 {
            lemma_partline_rec_bounds(s, r.1 + 1, line, buf_len + r.0.len(), m_ord + 1);
            assert(partline_rec(s, pos, line, buf_len, m_ord).ticks
                == r.0 + partline_rec(s, r.1 + 1, line, buf_len + r.0.len(), m_ord + 1).ticks);
        } else {
            assert(partline_rec(s, pos, line, buf_len, m_ord).ticks == r.0);
        }
    }
}

/// Every tick of a greedy run records a column inside the line.
pub proof fn lemma_run_ticks_idx(s: Seq<u8>, i: int, line: usize)
    requires
        0 <= i <= s.len(),
    ensures
        forall|j: int| 0 <= j < run_ticks(s, i, line).0.len()
            ==> (#[trigger] run_ticks(s, i, line).0[j]).idx_on_parent_line < s.len(),
    decreases s.len() - i,
{
    if scan_elem(s, i) is Some {
        lemma_digit_run_len_bounds(s, i);
        lemma_run_ticks_idx(s, scan_next(s, i), line);
        let r = run_ticks(s, i, line);
        let rest = run_ticks(s, scan_next(s, i), line);
        assert forall|j: int| 0 <= j < r.0.len() implies (#[trigger] r.0[j]).idx_on_parent_line
            < s.len() by {
            if j > 0 {
                assert(r.0[j] == rest.0[j - 1]);
            }
        }
    }
}

/// The measures a partline appends are well-formed ranges over exactly the
/// ticks it appends, and every appended tick's column is inside the line.
pub proof fn lemma_partline_out_bounds(s: Seq<u8>, pos: int, line: usize, buf_len: int, m_ord: int)
    requires
        0 <= pos,
        0 <= buf_len,
        buf_len + (s.len() - pos) <= usize::MAX,
    ensures
        ({
            let out = partline_rec(s, pos, line, buf_len, m_ord);
            &&& forall|j: int| 0 <= j < out.ticks.len()
                ==> (#[trigger] out.ticks[j]).idx_on_parent_line < s.len()
            &&& forall|j: int| 0 <= j < out.measures.len()
                ==> (#[trigger] out.measures[j]).content.wf()
                    && out.measures[j].content.start >= buf_len
                    && out.measures[j].content.end <= buf_len + out.ticks.len()
        }),
    decreases s.len() - pos,
{
    if 0 <= pos < s.len() {
        lemma_run_ticks_bounds(s, pos, line);
        lemma_run_ticks_idx(s, pos, line);
        let r = run_ticks(s, pos, line);
        let out = partline_rec(s, pos, line, buf_len, m_ord);
        if r.1 < s.len() && s[r.1] == 124 {
            lemma_partline_out_bounds(s, r.1 + 1, line, buf_len + r.0.len(), m_ord + 1);
            let rest = partline_rec(s, r.1 + 1, line, buf_len + r.0.len(), m_ord + 1);
            assert forall|j: int| 0 <= j < out.ticks.len() implies (#[trigger] out.ticks[j]).idx_on_parent_line
                < s.len() by {
                if j >= r.0.len() {
                    assert(out.ticks[j] == rest.ticks[j - r.0.len()]);
                }
            }
            assert forall|j: int| 0 <= j < out.measures.len() implies
                (#[trigger] out.measures[j]).content.wf()
                    && out.measures[j].content.start >= buf_len
                    && out.measures[j].content.end <= buf_len + out.ticks.len() by {
                if j >= 1 {
                    assert(out.measures[j] == rest.measures[j - 1]);
                    assert(out.ticks.len() == r.0.len() + rest.ticks.len());
                }
            }
        } else {
            assert(out.ticks == r.0);
            assert(out.measures.len() == 1);
            assert(out.measures[0].content.start == buf_len as usize);
            assert(out.measures[0].content.end == (buf_len + r.0.len()) as usize);
        }
    }
}

/// The source-offset entry recorded for a tick scanned on a line that starts
/// at byte `source_offset` of the document.
pub open spec fn tick_offset(source_offset: u32, t: RawTick) -> u32 {
    (source_offset + t.idx_on_parent_line) as u32
}

/// Parse one line of a part: `<letter>|<measure>(|<measure>)*|`.
///
/// Every accepted element is appended to the track's tick buffer along with
/// its absolute source offset, and one `Measure` is appended per separator
/// pair. On failure the position where scanning stopped is returned; the
/// entries appended up to that point stay in the buffers.
pub fn partline(
    s: &[u8],
    parent_line_idx: usize,
    source_offset: u32,
    string_buf: &mut Vec<RawTick>,
    string_measure_buf: &mut Vec<Measure>,
    offsets_buf: &mut Vec<u32>,
) -> (r: Result<Partline, usize>)
    requires
        s@.len() <= u32::MAX - source_offset,
        old(string_buf)@.len() + s@.len() < usize::MAX,
        old(string_measure_buf)@.len() + s@.len() < usize::MAX,
    ensures
        ({
            let pr = partline_spec(
                s@,
                parent_line_idx,
                old(string_buf)@.len() as int,
                old(string_measure_buf)@.len() as int,
            );
            &&& final(string_buf)@ == old(string_buf)@ + pr.out.ticks
            &&& final(string_measure_buf)@ == old(string_measure_buf)@ + pr.out.measures
            &&& final(offsets_buf)@ == old(offsets_buf)@ + pr.out.ticks.map_values(
                |t: RawTick| tick_offset(source_offset, t),
            )
            &&& match r {
                Ok(pl) => pr.res == Ok::<Partline, int>(pl),
                Err(p) => pr.res == Err::<Partline, int>(p as int),
            }
        }),
{
    let ghost buf0 = string_buf@;
    let ghost mbuf0 = string_measure_buf@;
    let ghost offs0 = offsets_buf@;
    let ghost pr = partline_spec(s@, parent_line_idx, buf0.len() as int, mbuf0.len() as int);

    let name = match string_name(s) {
        Some(n) => n,
        None => {
            proof {
                assert(string_buf@ =~= buf0 + pr.out.ticks);
                assert(string_measure_buf@ =~= mbuf0 + pr.out.measures);
                assert(offsets_buf@ =~= offs0 + pr.out.ticks.map_values(
                    |t: RawTick| tick_offset(source_offset, t),
                ));
            }
            return Err(0);
        }
    };
    if !(s.len() > 1 && s[1] == 124) {
        proof {
            assert(string_buf@ =~= buf0 + pr.out.ticks);
            assert(string_measure_buf@ =~= mbuf0 + pr.out.measures);
            assert(offsets_buf@ =~= offs0 + pr.out.ticks.map_values(
                |t: RawTick| tick_offset(source_offset, t),
            ));
        }
        return Err(1);
    }
    if s.len() == 2 {
        proof {
            assert(string_buf@ =~= buf0 + pr.out.ticks);
            assert(string_measure_buf@ =~= mbuf0 + pr.out.measures);
            assert(offsets_buf@ =~= offs0 + pr.out.ticks.map_values(
                |t: RawTick| tick_offset(source_offset, t),
            ));
        }
        return Err(2);
    }
    let ghost full = partline_rec(s@, 2, parent_line_idx, buf0.len() as int, 1);

    let mut pos: usize = 2;
    let mut m_ord: usize = 1;
    while pos < s.len()
        invariant
            buf0 == old(string_buf)@,
            mbuf0 == old(string_measure_buf)@,
            offs0 == old(offsets_buf)@,
            2 <= pos <= s@.len(),
            s@.len() <= u32::MAX - source_offset,
            buf0.len() + s@.len() < usize::MAX,
            mbuf0.len() + s@.len() < usize::MAX,
            string_buf@.len() - buf0.len() <= pos - 2,
            string_measure_buf@.len() - mbuf0.len() <= pos - 2,
            string_buf@.len() >= buf0.len(),
            string_measure_buf@.len() >= mbuf0.len(),
            m_ord == string_measure_buf@.len() - mbuf0.len() + 1,
            string_buf@.take(buf0.len() as int) == buf0,
            string_measure_buf@.take(mbuf0.len() as int) == mbuf0,
            full == partline_rec(s@, 2, parent_line_idx, buf0.len() as int, 1),
            pr == partline_spec(s@, parent_line_idx, buf0.len() as int, mbuf0.len() as int),
            pr.out == full,
            s@.len() > 1 && is_ascii_letter(s@[0]) && s@[1] == 124,
            name == s@[0],
            ({
                let cur = partline_rec(s@, pos as int, parent_line_idx, string_buf@.len() as int, m_ord as int);
                &&& full.err == cur.err
                &&& full.ticks == string_buf@.skip(buf0.len() as int) + cur.ticks
                &&& full.measures == string_measure_buf@.skip(mbuf0.len() as int) + cur.measures
            }),
            offsets_buf@ == offs0 + string_buf@.skip(buf0.len() as int).map_values(
                |t: RawTick| tick_offset(source_offset, t),
            ),
        decreases s@.len() - pos,
    {
        let ghost bufit = string_buf@;
        let ghost smbit = string_measure_buf@;
        let ghost posit = pos as int;
        let ghost cur0 = partline_rec(s@, pos as int, parent_line_idx, string_buf@.len() as int, m_ord as int);
        let ghost run = run_ticks(s@, pos as int, parent_line_idx);
        proof {
            lemma_run_ticks_bounds(s@, pos as int, parent_line_idx);
        }
        let mstart = string_buf.len();
        // scan one measure's elements greedily
        let mut stop = false;
        while !stop
            invariant
                2 <= posit <= pos <= s@.len(),
                s@.len() <= u32::MAX - source_offset,
                buf0.len() + s@.len() < usize::MAX,
                string_buf@.len() - buf0.len() <= pos - 2,
                string_buf@.len() >= buf0.len() >= 0,
                buf0.len() <= mstart <= string_buf@.len(),
                mstart == bufit.len(),
                string_buf@.take(mstart as int) == bufit,
                run == run_ticks(s@, posit, parent_line_idx),
                ({
                    let crun = run_ticks(s@, pos as int, parent_line_idx);
                    &&& run.0 == string_buf@.skip(mstart as int) + crun.0
                    &&& run.1 == crun.1
                }),
                stop ==> run_ticks(s@, pos as int, parent_line_idx).0.len() == 0,
                stop ==> run_ticks(s@, pos as int, parent_line_idx).1 == pos,
                offsets_buf@ == offs0 + string_buf@.skip(buf0.len() as int).map_values(
                    |t: RawTick| tick_offset(source_offset, t),
                ),
                string_buf@.take(buf0.len() as int) == buf0,
            decreases s@.len() - pos + (if stop { 0int } else { 1int }),
        {
            let ghost crun_pre = run_ticks(s@, pos as int, parent_line_idx);
            match tab_element(s, pos) {
                Some((e, npos)) => {
                    proof {
                        lemma_digit_run_len_bounds(s@, pos as int);
                        lemma_run_ticks_bounds(s@, npos as int, parent_line_idx);
                    }
                    let t = RawTick {
                        element: e,
                        idx_on_parent_line: npos - 1,
                        parent_line: parent_line_idx,
                    };
                    string_buf.push(t);
                    offsets_buf.push(source_offset + (npos - 1) as u32);
                    proof {
                        let crun_post = run_ticks(s@, npos as int, parent_line_idx);
                        assert(crun_pre.0 == seq![t] + crun_post.0);
                        assert(run.0 =~= string_buf@.skip(mstart as int) + crun_post.0);
                        assert(string_buf@.skip(buf0.len() as int)
                            =~= string_buf@.drop_last().skip(buf0.len() as int).push(t));
                        assert(offsets_buf@ =~= offs0 + string_buf@.skip(buf0.len() as int).map_values(
                            |tt: RawTick| tick_offset(source_offset, tt),
                        ));
                        assert(string_buf@.take(buf0.len() as int) =~= buf0);
                        assert(string_buf@.take(mstart as int) =~= bufit);
                    }
                    pos = npos;
                }
                None => {
                    stop = true;
                }
            }
        }
        let mend = string_buf.len();
        proof {
            assert(run.0 =~= string_buf@.skip(mstart as int));
            assert(run.0.len() == mend - mstart);
            assert(run.1 == pos as int);
        }
        // the measure just scanned, then its closing separator
        let m = Measure {
            content: IdxRange { start: mstart, end: mend },
            parent_line: parent_line_idx,
            index_on_parent_line: m_ord,
        };
        string_measure_buf.push(m);
        proof {
            assert(string_measure_buf@ =~= smbit.push(m));
            assert(string_measure_buf@.take(mbuf0.len() as int) =~= mbuf0);
            assert(string_buf@ =~= bufit + run.0);
            // the spec-level measure of this iteration
            let mm = Measure {
                content: IdxRange {
                    start: (bufit.len() as int) as usize,
                    end: (bufit.len() as int + run.0.len()) as usize,
                },
                parent_line: parent_line_idx,
                index_on_parent_line: (m_ord as int) as usize,
            };
            assert(m == mm);
        }
        if !(pos < s.len() && s[pos] == 124) {
            proof {
                assert(cur0.err == Some(pos as int));
                assert(cur0.ticks == run.0);
                assert(cur0.measures =~= seq![m]);
                assert(full.err == Some(pos as int));
                assert(full.ticks =~= bufit.skip(buf0.len() as int) + run.0);
                assert(full.ticks =~= string_buf@.skip(buf0.len() as int));
                assert(full.measures =~= smbit.skip(mbuf0.len() as int) + seq![m]);
                assert(full.measures =~= string_measure_buf@.skip(mbuf0.len() as int));
                assert(string_buf@ =~= buf0 + full.ticks);
                assert(string_measure_buf@ =~= mbuf0 + full.measures);
                assert(pr.res == Err::<Partline, int>(pos as int));
                assert(offsets_buf@ =~= offs0 + full.ticks.map_values(
                    |t: RawTick| tick_offset(source_offset, t),
                ));
            }
            return Err(pos);
        }
        proof {
            let rest = partline_rec(
                s@,
                pos + 1,
                parent_line_idx,
                string_buf@.len() as int,
                m_ord + 1,
            );
            assert(cur0.err == rest.err);
            assert(cur0.ticks == run.0 + rest.ticks);
            assert(cur0.measures == seq![m] + rest.measures);
            assert(full.ticks =~= string_buf@.skip(buf0.len() as int) + rest.ticks);
            assert(full.measures =~= string_measure_buf@.skip(mbuf0.len() as int) + rest.measures);
        }
        pos = pos + 1;
        m_ord = m_ord + 1;
    }
    proof {
        let cur = partline_rec(s@, pos as int, parent_line_idx, string_buf@.len() as int, m_ord as int);
        assert(cur.ticks == Seq::<RawTick>::empty());
        assert(cur.measures == Seq::<Measure>::empty());
        assert(full.err is None);
        assert(full.ticks =~= string_buf@.skip(buf0.len() as int));
        assert(full.measures =~= string_measure_buf@.skip(mbuf0.len() as int));
        assert(string_buf@ =~= buf0 + full.ticks);
        assert(string_measure_buf@ =~= mbuf0 + full.measures);
        assert(offsets_buf@ =~= offs0 + full.ticks.map_values(
            |t: RawTick| tick_offset(source_offset, t),
        ));
        assert(string_measure_buf@.len() == mbuf0.len() + full.measures.len());
    }
    Ok(Partline {
        string_name: name,
        measures: IdxRange { start: string_measure_buf.len() + 1 - m_ord, end: string_measure_buf.len() },
    })
}

/// The string-name scanner: a single ASCII letter at the start of the line.
pub fn string_name(s: &[u8]) -> (r: Option<u8>)
    ensures
        r == (if s@.len() > 0 && is_ascii_letter(s@[0]) {
            Some(s@[0])
        } else {
            None::<u8>
        }),
{
    if s.len() > 0 {
        let b = s[0];
        if (65 <= b && b <= 90) || (97 <= b && b <= 122) {
            return Some(b);
        }
    }
    None
}

} // verus!
