//! Characters written down as JSON text: a list of strokes, each a list
//! of points, each a list of two numbers.

use crate::{Point, Stroke};
use vstd::prelude::*;

verus! {

/// The error of `serde_json`, of which nothing is looked at.
#[verifier::external_type_specification]
#[verifier::external_body]
pub struct ExJsonError(serde_json::Error);

/// What `serde_json::from_str` reads from `text` as a list of lists of
/// lists of bytes: nothing, if it reports an error.
pub uninterp spec fn json_numbers(text: Seq<char>) -> Option<Seq<Seq<Seq<u8>>>>;

/// Calls `serde_json::from_str` for a list of lists of lists of bytes.
/// The call succeeds exactly when [`json_numbers`] is something, and then
/// returns that.
#[verifier::external_body]
fn numbers_from_json(text: &str) -> (res: Result<Vec<Vec<Vec<u8>>>, serde_json::Error>)
    ensures
        res is Ok <==> json_numbers(text@) is Some,
        res is Ok ==> Some(res->Ok_0.deep_view()) == json_numbers(text@),
{
    serde_json::from_str(text)
}

/// Why a text is not a character.
#[derive(Debug, Clone, Copy, PartialEq, Eq, Structural)]
pub enum SampleError {
    /// The text is not a JSON list of lists of lists of numbers from 0 to
    /// 255.
    Json,
    /// A point has fewer than two numbers.
    Point,
}

/// Every point of every stroke has at least two numbers.
pub open spec fn all_points_complete(numbers: Seq<Seq<Seq<u8>>>) -> bool {
    forall|i: int, j: int|
        0 <= i < numbers.len() && 0 <= j < numbers[i].len() ==> (#[trigger] numbers[i][j]).len()
            >= 2
}

/// The points are those that the numbers give: the first number of each
/// point is x, the second is y.
pub open spec fn are_points_of(points: Seq<Point>, numbers: Seq<Seq<u8>>) -> bool {
    &&& points.len() == numbers.len()
    &&& forall|j: int|
        0 <= j < numbers.len() ==> #[trigger] points[j] == (Point {
            x: numbers[j][0],
            y: numbers[j][1],
        })
}

/// The strokes are those that the numbers give.
pub open spec fn are_strokes_of(strokes: Seq<Stroke>, numbers: Seq<Seq<Seq<u8>>>) -> bool {
    &&& strokes.len() == numbers.len()
    &&& forall|i: int|
        0 <= i < numbers.len() ==> are_points_of((#[trigger] strokes[i]).points@, numbers[i])
}

/// Turns lists of numbers into strokes.
pub fn strokes_from_numbers(numbers: &Vec<Vec<Vec<u8>>>) -> (res: Result<Vec<Stroke>, SampleError>)
    ensures
        res is Ok <==> all_points_complete(numbers.deep_view()),
        res is Ok ==> are_strokes_of(res->Ok_0@, numbers.deep_view()),
        res is Err ==> res->Err_0 == SampleError::Point,
{
    let ghost deep = numbers.deep_view();
    let mut strokes: Vec<Stroke> = Vec::new();
    let mut i: usize = 0;
    while i < numbers.len()
        invariant
            0 <= i <= numbers@.len(),
            deep == numbers.deep_view(),
            deep.len() == numbers@.len(),
            strokes@.len() == i,
            forall|k: int, j: int|
                0 <= k < i && 0 <= j < deep[k].len() ==> (#[trigger] deep[k][j]).len() >= 2,
            forall|k: int| 0 <= k < i ==> are_points_of((#[trigger] strokes@[k]).points@, deep[k]),
        decreases numbers@.len() - i,
    {
        let stroke_numbers = &numbers[i];
        assert(deep[i as int] =~= stroke_numbers.deep_view());
        let mut points: Vec<Point> = Vec::new();
        let mut j: usize = 0;
        while j < stroke_numbers.len()
            invariant
                0 <= i < numbers@.len(),
                0 <= j <= stroke_numbers@.len(),
                deep == numbers.deep_view(),
                deep[i as int] == stroke_numbers.deep_view(),
                deep[i as int].len() == stroke_numbers@.len(),
                points@.len() == j,
                forall|k: int| 0 <= k < j ==> (#[trigger] deep[i as int][k]).len() >= 2,
                forall|k: int|
                    0 <= k < j ==> #[trigger] points@[k] == (Point {
                        x: deep[i as int][k][0],
                        y: deep[i as int][k][1],
                    }),
            decreases stroke_numbers@.len() - j,
        {
            let point_numbers = &stroke_numbers[j];
            assert(deep[i as int][j as int] =~= point_numbers@);
            if point_numbers.len() < 2 {
                return Err(SampleError::Point);
            }
            points.push(Point { x: point_numbers[0], y: point_numbers[1] });
            j += 1;
        }
        strokes.push(Stroke { points });
        i += 1;
    }
    Ok(strokes)
}

/// Reads a character from JSON text such as `[[[70,124],[191,124]]]`.
pub fn parse_sample(str_strokes: &str) -> (res: Result<Vec<Stroke>, SampleError>)
    ensures
        res is Ok <==> json_numbers(str_strokes@) is Some && all_points_complete(
            json_numbers(str_strokes@)->Some_0,
        ),
        res is Ok ==> are_strokes_of(res->Ok_0@, json_numbers(str_strokes@)->Some_0),
        res is Err ==> (res->Err_0 == SampleError::Json <==> json_numbers(str_strokes@) is None),
{
    match numbers_from_json(str_strokes) {
        Ok(numbers) => strokes_from_numbers(&numbers),
        Err(_) => Err(SampleError::Json),
    }
}

} // verus!
