//! One laid-out line.

use vstd::prelude::*;

use crate::run::{Run, RunView};

verus! {

/// The mathematical value of a line.
#[verifier::ext_equal]
pub struct LineView {
    pub runs: Seq<RunView>,
    pub start: int,
    pub end: int,
}

/// The total number of glyphs over a sequence of runs.
pub open spec fn glyph_total(runs: Seq<RunView>) -> nat
    decreases runs.len(),
{
    if runs.len() == 0 {
        0
    } else {
        glyph_total(runs.drop_last()) + runs.last().glyphs.len()
    }
}

/// One more run adds its glyphs to the total.
pub proof fn lemma_glyph_total_push(runs: Seq<RunView>, r: RunView)
    ensures
        glyph_total(runs.push(r)) == glyph_total(runs) + r.glyphs.len(),
{
    assert(runs.push(r).drop_last() =~= runs);
    assert(runs.push(r).last() == r);
}

/// Glyph totals add over concatenation.
pub proof fn lemma_glyph_total_concat(x: Seq<RunView>, y: Seq<RunView>)
    ensures
        glyph_total(x + y) == glyph_total(x) + glyph_total(y),
    decreases y.len(),
{
    if y.len() == 0 {
        assert(x + y =~= x);
    } else {
        assert((x + y).drop_last() =~= x + y.drop_last());
        assert((x + y).last() == y.last());
        lemma_glyph_total_concat(x, y.drop_last());
    }
}

/// An ordered sequence of [`Run`]s together with the byte range of the
/// document they cover. Created by line assembly; immutable; holds no
/// reference back to what produced it.
#[derive(Clone, Debug, PartialEq)]
pub struct Line {
    runs: Vec<Run>,
    string_start: usize,
    string_end: usize,
}

impl View for Line {
    type V = LineView;

    closed spec fn view(&self) -> LineView {
        LineView {
            runs: self.runs@.map_values(|r: Run| r@),
            start: self.string_start as int,
            end: self.string_end as int,
        }
    }
}

impl Line {
    pub(crate) fn from_runs_and_range(runs: Vec<Run>, start: usize, end: usize) -> (line: Line)
        ensures
            line@ == (LineView { runs: runs@.map_values(|r: Run| r@), start: start as int, end: end as int }),
    {
        Line { runs, string_start: start, string_end: end }
    }

    /// The line's runs, in document order.
    pub fn runs(&self) -> (r: &Vec<Run>)
        ensures
            r@.map_values(|x: Run| x@) == self@.runs,
    {
        &self.runs
    }

    /// The byte range of the document this line covers.
    pub fn string_range(&self) -> (r: core::ops::Range<usize>)
        ensures
            r.start == self@.start,
            r.end == self@.end,
    {
        self.string_start..self.string_end
    }
}

} // verus!
