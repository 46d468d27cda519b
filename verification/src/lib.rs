use vstd::prelude::*;

pub mod backend;
pub mod errors;
pub mod fixup;
pub mod laws;
pub mod format;
pub mod midi;
pub mod muxml;
pub mod muxml2;
pub mod parser;
pub mod parser2;
pub mod tab;

verus! {

/// A half-open index range `start..end`.
#[derive(Debug, Clone, Copy, PartialEq, Eq, Structural)]
pub struct IdxRange {
    pub start: usize,
    pub end: usize,
}

impl IdxRange {
    /// Number of indices covered; meaningful when `start <= end`.
    pub open spec fn spec_len(self) -> int {
        self.end - self.start
    }

    pub open spec fn wf(self) -> bool {
        self.start <= self.end
    }
}

/// An inclusive index range `start..=end`.
#[derive(Debug, Clone, Copy, PartialEq, Eq, Structural)]
pub struct IdxRangeIncl {
    pub start: usize,
    pub end: usize,
}

/// Length of an inclusive range.
pub fn rlen(r: &IdxRangeIncl) -> (n: usize)
    requires
        r.start <= r.end,
        r.end < usize::MAX,
    ensures
        n == r.end - r.start + 1,
{
    r.end - r.start + 1
}

/// Whether `elem` lies in the half-open range `r`.
pub fn rcontains(r: &IdxRange, elem: usize) -> (b: bool)
    ensures
        b == (r.start <= elem && elem < r.end),
{
    elem >= r.start && elem < r.end
}

/// Whether `elem` lies in the inclusive range `r`.
pub fn ricontains(r: &IdxRangeIncl, elem: usize) -> (b: bool)
    ensures
        b == (r.start <= elem && elem <= r.end),
{
    elem >= r.start && elem <= r.end
}

} // verus!
