//! Replaying characters stroke by stroke, as they come in while a user
//! writes.

use crate::analyzed_character::stroke_points;
use crate::{Point, Stroke};
use vstd::prelude::*;

verus! {

/// A copy of a stroke.
pub fn clone_stroke(stroke: &Stroke) -> (res: Stroke)
    ensures
        res.points@ == stroke.points@,
{
    let mut res = Stroke { points: Vec::with_capacity(stroke.points.len()) };
    let mut i: usize = 0;
    while i < stroke.points.len()
        invariant
            0 <= i <= stroke.points@.len(),
            res.points@ == stroke.points@.take(i as int),
        decreases stroke.points@.len() - i,
    {
        res.points.push(Point { x: stroke.points[i].x, y: stroke.points[i].y });
        i += 1;
        assert(stroke.points@.take(i as int) == stroke.points@.take(i as int - 1).push(
            stroke.points@[i as int - 1],
        ));
    }
    assert(stroke.points@.take(i as int) == stroke.points@);
    res
}

/// The points of each character's strokes.
pub open spec fn character_points(chars: Seq<Vec<Stroke>>) -> Seq<Seq<Seq<Point>>> {
    Seq::new(chars.len(), |i: int| stroke_points(chars[i]@))
}

/// The beginnings of a character that a user has on the page before the
/// last stroke: the first stroke, the first two strokes, and so on up to
/// all strokes but the last.
pub open spec fn beginnings(strokes: Seq<Seq<Point>>, upto: int) -> Seq<Seq<Seq<Point>>>
    decreases upto,
{
    if upto <= 1 {
        Seq::empty()
    } else {
        beginnings(strokes, upto - 1).push(strokes.take(upto - 1))
    }
}

/// The beginnings of the first `upto` characters, one character after the
/// other.
pub open spec fn replayed(chars: Seq<Seq<Seq<Point>>>, upto: int) -> Seq<Seq<Seq<Point>>>
    decreases upto,
{
    if upto <= 0 {
        Seq::empty()
    } else {
        replayed(chars, upto - 1) + beginnings(chars[upto - 1], chars[upto - 1].len() as int)
    }
}

/// For each character, in turn, its beginnings: the inputs that a lookup
/// gets while the character is written stroke by stroke.
pub fn incremental_replay(chars: &Vec<Vec<Stroke>>) -> (res: Vec<Vec<Stroke>>)
    ensures
        character_points(res@) == replayed(character_points(chars@), chars@.len() as int),
{
    let ghost all = character_points(chars@);
    let mut res: Vec<Vec<Stroke>> = Vec::new();
    let mut i: usize = 0;
    while i < chars.len()
        invariant
            0 <= i <= chars@.len(),
            all == character_points(chars@),
            character_points(res@) == replayed(all, i as int),
        decreases chars@.len() - i,
    {
        let this_char = &chars[i];
        let ghost points = stroke_points(this_char@);
        assert(all[i as int] == points);
        let ghost before = character_points(res@);
        let mut j: usize = 1;
        while j < this_char.len()
            invariant
                1 <= j,
                j <= this_char@.len() || j == 1,
                points == stroke_points(this_char@),
                character_points(res@) == before + beginnings(points, j as int),
            decreases this_char@.len() - j,
        {
            let mut strokes: Vec<Stroke> = Vec::new();
            let mut k: usize = 0;
            while k < j
                invariant
                    0 <= k <= j < this_char@.len(),
                    points == stroke_points(this_char@),
                    stroke_points(strokes@) == points.take(k as int),
                decreases j - k,
            {
                let ghost had = stroke_points(strokes@);
                strokes.push(clone_stroke(&this_char[k]));
                k += 1;
                assert(stroke_points(strokes@) =~= had.push(points[k - 1]));
                assert(points.take(k as int) =~= points.take(k as int - 1).push(points[k - 1]));
            }
            let ghost held = character_points(res@);
            res.push(strokes);
            j += 1;
            assert(character_points(res@) =~= held.push(points.take(j as int - 1)));
            assert(before + beginnings(points, j as int) =~= (before + beginnings(
                points,
                j as int - 1,
            )).push(points.take(j as int - 1)));
        }
        assert(beginnings(points, j as int) == beginnings(points, points.len() as int)) by {
            if j > this_char@.len() {
                assert(beginnings(points, 1) == beginnings(points, 0));
            }
        }
        i += 1;
    }
    res
}

} // verus!
