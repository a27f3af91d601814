//! The results of analyzing a stroke.

use crate::Point;
use vstd::prelude::*;

verus! {

/// A near-straight piece of a stroke between two pivot points, quantized.
#[derive(Debug, Clone, Copy, PartialEq, Eq, Structural)]
pub struct SubStroke {
    /// Direction from the first pivot to the second: the full turn is
    /// divided into 256 steps, 0 points right and 64 points up.
    pub direction: u8,
    /// Distance between the pivots, where 255 is the diagonal of the square
    /// around the character.
    pub length: u8,
    /// Column of the midpoint in a 16 by 16 grid on the square around the
    /// character.
    pub center_x: u8,
    /// Row of the midpoint in that grid.
    pub center_y: u8,
}

impl SubStroke {
    /// Both center coordinates lie on the 16 by 16 grid.
    pub open spec fn wf(&self) -> bool {
        self.center_x <= 15 && self.center_y <= 15
    }
}

/// One stroke after analysis.
pub struct AnalyzedStroke<'a> {
    /// The stroke's points.
    pub points: &'a Vec<Point>,
    /// Indexes of the pivot points that delimit the sub-strokes.
    pub pivot_indexes: Vec<usize>,
    /// The sub-strokes between consecutive pivot points.
    pub sub_strokes: Vec<SubStroke>,
}

} // verus!
