//! Drawing with a pen that moves through signed space.
//!
//! A pen travels anywhere, also left of and above the canvas. What it draws
//! is pressed onto the canvas: every coordinate below zero counts as zero.

use vstd::prelude::*;

use crate::canvas::{Canvas, CanvasView};

verus! {

/// The canvas coordinate for a pen coordinate: the same number, or zero where
/// the pen is below zero.
pub open spec fn clamp_coordinate(position: int) -> int {
    if position < 0 {
        0
    } else {
        position
    }
}

/// The canvas after a pen moved from `from` to `to`: with the pen down, the
/// segment between the two positions, clamped, is drawn; with the pen up,
/// nothing changes.
pub open spec fn stroked(
    canvas: CanvasView,
    pen_down: bool,
    from: (int, int),
    to: (int, int),
) -> CanvasView {
    if pen_down {
        canvas.line(
            clamp_coordinate(from.0),
            clamp_coordinate(from.1),
            clamp_coordinate(to.0),
            clamp_coordinate(to.1),
        )
    } else {
        canvas
    }
}

/// The canvas coordinate for a pen coordinate.
pub fn pixel_coordinate(position: isize) -> (pixel: usize)
    ensures
        pixel == clamp_coordinate(position as int),
{
    if position < 0 {
        0
    } else {
        position as usize
    }
}

impl Canvas {
    /// Records the move of a pen from `from` to `to`, both given as
    /// `(x, y)`: draws the clamped segment if the pen is down, and nothing
    /// if it is up.
    pub fn stroke(&mut self, pen_down: bool, from: (isize, isize), to: (isize, isize))
        requires
            old(self).wf(),
        ensures
            final(self).wf(),
            final(self)@ == stroked(
                old(self)@,
                pen_down,
                (from.0 as int, from.1 as int),
                (to.0 as int, to.1 as int),
            ),
            !pen_down ==> final(self)@ == old(self)@,
    {
        if pen_down {
            self.line(
                pixel_coordinate(from.0),
                pixel_coordinate(from.1),
                pixel_coordinate(to.0),
                pixel_coordinate(to.1),
            );
        }
    }
}

} // verus!
