//! Handwritten Chinese character recognition.
//!
//! A character drawn as an ordered list of pen strokes is reduced to a short
//! sequence of quantized sub-strokes, compared against every character of a
//! reference database, and the best candidates are returned in rank order.
//!
//! All arithmetic is done on integers. Quantities that are fractional by
//! nature (distances, curve parameters, scores) are fixed-point numbers: an
//! integer `v` stands for the real number `v / SCALE` (see [`fixed`]).

use vstd::prelude::*;

use crate::analyzed_character::stroke_points;
use crate::match_collector::{descending, distinct_hanzi, has_hanzi, MatchCollector};
use crate::matcher::{in_database, lookup_result, CharData, Matcher};

pub mod analyzed_character;
pub mod collector_laws;
pub mod cubic_curve_2d;
pub mod database;
pub mod entities;
pub mod fixed;
pub mod match_collector;
pub mod matcher;
pub mod replay;
pub mod sample;

verus! {

/// One point of a stroke; both coordinates lie in `[0, 255]`.
#[derive(Debug, Clone, Copy, PartialEq, Eq, Structural)]
pub struct Point {
    pub x: u8,
    pub y: u8,
}

/// One pen-down-to-pen-up gesture: the points in the order they were drawn.
#[derive(Debug)]
pub struct Stroke {
    pub points: Vec<Point>,
}

/// A candidate character with its similarity score.
///
/// The score is a fixed-point number; only the order of scores matters to
/// the ranking.
#[derive(Debug, Clone, Copy, PartialEq, Eq, Structural)]
pub struct Match {
    pub hanzi: char,
    pub score: i64,
}

/// Looks up the character drawn with `strokes` in the reference database
/// `char_data` and returns the best candidates, best first: at most
/// `limit` of them, each character once.
pub fn match_typed(
    strokes: &Vec<Stroke>,
    limit: u32,
    matcher: &mut Matcher,
    char_data: &Vec<CharData>,
) -> (res: Vec<Match>)
    requires
        limit >= 1,
        old(matcher).wf(),
    ensures
        final(matcher).wf(),
        final(matcher).tables() == old(matcher).tables(),
        res@ == lookup_result(
            old(matcher).tables(),
            stroke_points(strokes@),
            char_data@,
            Seq::empty(),
            limit as nat,
        ),
        res@.len() <= limit,
        descending(res@),
        distinct_hanzi(res@),
        forall|k: int| 0 <= k < res@.len() ==> in_database(char_data@, (#[trigger] res@[k]).hanzi),
        strokes@.len() == 0 ==> res@.len() == 0,
{
    let mut res: Vec<Match> = Vec::with_capacity(limit as usize);
    let mut collector = MatchCollector::new(&mut res, limit);
    matcher.lookup(strokes, char_data, &mut collector);
    proof {
        let entries = collector.matches@;
        assert forall|k: int| 0 <= k < entries.len() implies in_database(
            char_data@,
            (#[trigger] entries[k]).hanzi,
        ) by {
            assert(has_hanzi(entries, entries[k].hanzi));
        }
    }
    res
}

} // verus!
