//! The formatting backend's building blocks: re-printing one measure of a
//! track as a `name|...|` line. Stitching whole documents back together
//! and writing them out is left to the output layer.

use vstd::prelude::*;

use crate::tab::{render_ticks, Measure, Partline, RawTick};

verus! {

/// The formatting backend.
pub struct FormatBackend();

#[derive(Debug, Clone, Copy, PartialEq, Eq, Structural)]
pub struct FormatBackendSettings {
    pub dump: bool,
}

/// What one formatted measure line holds: the string name, a separator,
/// the printed elements of the measure, a separator, and a newline.
pub open spec fn measure_line_spec(pl: Partline, m: Measure, buf: Seq<RawTick>) -> Seq<u8> {
    seq![pl.string_name, 124u8] + render_ticks(buf, m.content.start as int, m.content.end as int)
        + seq![124u8, 10u8]
}

impl FormatBackend {
    /// Print one measure of one track back to a part line.
    pub fn render_measure_line(pl: &Partline, m: &Measure, string_buf: &[RawTick]) -> (r: Vec<u8>)
        requires
            m.content.wf(),
            m.content.end <= string_buf@.len(),
        ensures
            r@ == measure_line_spec(*pl, *m, string_buf@),
    {
        let mut out: Vec<u8> = Vec::new();
        out.push(pl.string_name);
        out.push(124);
        let mut body = m.print_pretty_string(string_buf);
        let mut j: usize = 0;
        while j < body.len()
            invariant
                0 <= j <= body@.len(),
                out@ == seq![pl.string_name, 124u8] + body@.take(j as int),
            decreases body@.len() - j,
        {
            out.push(body[j]);
            proof {
                assert(out@ =~= seq![pl.string_name, 124u8] + body@.take(j + 1));
            }
            j += 1;
        }
        proof {
            assert(body@.take(body@.len() as int) =~= body@);
        }
        out.push(124);
        out.push(10);
        proof {
            assert(out@ =~= measure_line_spec(*pl, *m, string_buf@));
        }
        out
    }
}

} // verus!
