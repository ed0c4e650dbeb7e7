//! One shaped glyph run.

use vstd::prelude::*;

use crate::styled_text::Scalar;

verus! {

/// The mathematical value of a run.
#[verifier::ext_equal]
pub struct RunView {
    pub glyphs: Seq<u32>,
    pub advances: Seq<Scalar>,
    pub face_index: i32,
    pub size: Scalar,
}

/// A contiguous sequence of glyphs, all selected from the same face,
/// shaped at one size: parallel arrays of glyph ids and advance widths,
/// the index of the face the shaping engine assigned, and the point size
/// (a [`Scalar`]) the run was shaped at.
///
/// Runs are created during line assembly and immutable afterwards.
#[derive(Clone, Debug, PartialEq)]
pub struct Run {
    glyphs: Vec<u32>,
    advances: Vec<Scalar>,
    face_index: i32,
    size: Scalar,
}

impl View for Run {
    type V = RunView;

    closed spec fn view(&self) -> RunView {
        RunView {
            glyphs: self.glyphs@,
            advances: self.advances@,
            face_index: self.face_index,
            size: self.size,
        }
    }
}

impl Run {
    pub(crate) fn new(glyphs: Vec<u32>, advances: Vec<Scalar>, face_index: i32, size: Scalar) -> (r:
        Run)
        ensures
            r@ == (RunView { glyphs: glyphs@, advances: advances@, face_index, size }),
    {
        Run { glyphs, advances, face_index, size }
    }

    /// The glyph ids, one per shaped code unit.
    pub fn glyphs(&self) -> (r: &Vec<u32>)
        ensures
            r@ == self@.glyphs,
    {
        &self.glyphs
    }

    /// The advance widths, parallel to the glyph ids.
    pub fn advances(&self) -> (r: &Vec<Scalar>)
        ensures
            r@ == self@.advances,
    {
        &self.advances
    }

    /// The face the shaping engine assigned to every glyph of this run.
    pub fn face_index(&self) -> (r: i32)
        ensures
            r == self@.face_index,
    {
        self.face_index
    }

    /// The point size the run was shaped at.
    pub fn size(&self) -> (r: Scalar)
        ensures
            r == self@.size,
    {
        self.size
    }

    /// How many glyphs the run holds.
    pub fn glyph_count(&self) -> (n: usize)
        ensures
            n == self@.glyphs.len(),
    {
        self.glyphs.len()
    }
}

} // verus!
