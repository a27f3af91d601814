//! Stroke analysis: from raw points to quantized sub-strokes.

use crate::entities::{AnalyzedStroke, SubStroke};
use crate::fixed::{integer_sqrt, lemma_sqrt_floor, sqrt_floor, SCALE};
use crate::{Point, Stroke};
use vstd::prelude::*;

verus! {

/// A pivot closer than this to the pivot before it is taken for noise: 12.5.
pub const MIN_SEGMENT_LENGTH: u128 = 12_800_000_000;

/// A corner is found where the path over three consecutive points is
/// longer than this many times their direct distance: 1.1.
pub const MAX_LOCAL_LENGTH_RATIO: u128 = 1_126_400_000;

/// A bend is found where the path since the last pivot is longer than this
/// many times the direct distance: 1.09.
pub const MAX_RUNNING_LENGTH_RATIO: u128 = 1_116_160_000;

/// The square of the Euclidean distance between two points.
pub open spec fn squared_distance(a: Point, b: Point) -> int {
    (a.x - b.x) * (a.x - b.x) + (a.y - b.y) * (a.y - b.y)
}

/// The Euclidean distance between two points as a fixed-point number,
/// rounded down.
pub open spec fn distance(a: Point, b: Point) -> int {
    sqrt_floor(squared_distance(a, b) * SCALE * SCALE)
}

/// The squared distance between two points is at most `2 * 255 * 255`.
pub proof fn lemma_squared_distance_bound(a: Point, b: Point)
    ensures
        0 <= squared_distance(a, b) <= 130050,
        squared_distance(a, b) == 0 <==> a == b,
{
    let dx = a.x - b.x;
    let dy = a.y - b.y;
    assert(0 <= dx * dx <= 65025 && (dx * dx == 0 <==> dx == 0)) by (nonlinear_arith)
        requires
            -255 <= dx <= 255,
    ;
    assert(0 <= dy * dy <= 65025 && (dy * dy == 0 <==> dy == 0)) by (nonlinear_arith)
        requires
            -255 <= dy <= 255,
    ;
}

/// Computes the square of the distance between two points.
fn squared_dist(a: Point, b: Point) -> (d: u32)
    ensures
        d == squared_distance(a, b),
        d <= 130050,
{
    proof {
        lemma_squared_distance_bound(a, b);
    }
    let dx: u32 = if a.x >= b.x {
        (a.x - b.x) as u32
    } else {
        (b.x - a.x) as u32
    };
    let dy: u32 = if a.y >= b.y {
        (a.y - b.y) as u32
    } else {
        (b.y - a.y) as u32
    };
    assert(dx * dx == (a.x - b.x) * (a.x - b.x) && dx * dx <= 65025) by (nonlinear_arith)
        requires
            dx == a.x - b.x || dx == b.x - a.x,
            0 <= dx <= 255,
    ;
    assert(dy * dy == (a.y - b.y) * (a.y - b.y) && dy * dy <= 65025) by (nonlinear_arith)
        requires
            dy == a.y - b.y || dy == b.y - a.y,
            0 <= dy <= 255,
    ;
    dx * dx + dy * dy
}

/// The distance between two points.
pub fn dist(a: Point, b: Point) -> (d: u128)
    ensures
        d == distance(a, b),
        d < 0x100_0000_0000,
{
    let d2: u128 = squared_dist(a, b) as u128;
    assert(d2 * 1_024_000_000 * 1_024_000_000 < 0x100_0000_0000 * 0x100_0000_0000)
        by (nonlinear_arith)
        requires
            0 <= d2 <= 130050,
    ;
    assert(d2 * 1_024_000_000 <= 130050 * 1_024_000_000) by (nonlinear_arith)
        requires
            0 <= d2 <= 130050,
    ;
    let d: u128 = integer_sqrt(d2 * 1_024_000_000 * 1_024_000_000);
    assert(d < 0x100_0000_0000) by (nonlinear_arith)
        requires
            d * d < 0x100_0000_0000 * 0x100_0000_0000,
            0 <= d,
    ;
    d
}

/// The smallest upright rectangle around all points of a character.
#[derive(Debug, Clone, Copy, PartialEq, Eq, Structural)]
pub struct Rect {
    pub top: u8,
    pub bottom: u8,
    pub left: u8,
    pub right: u8,
}

impl Rect {
    /// The sides are in order.
    pub open spec fn wf(&self) -> bool {
        self.left <= self.right && self.top <= self.bottom
    }

    /// The point lies in the rectangle or on its border.
    pub open spec fn holds(&self, p: Point) -> bool {
        self.left <= p.x <= self.right && self.top <= p.y <= self.bottom
    }

    /// Every point of the sequence lies in the rectangle or on its border.
    pub open spec fn covers(&self, points: Seq<Point>) -> bool {
        forall|j: int| 0 <= j < points.len() ==> self.holds(#[trigger] points[j])
    }

    /// The rectangle's width.
    pub open spec fn width(&self) -> int {
        self.right - self.left
    }

    /// The rectangle's height.
    pub open spec fn height(&self) -> int {
        self.bottom - self.top
    }

    /// The side of the smallest square that holds the rectangle.
    pub open spec fn side(&self) -> int {
        if self.width() > self.height() {
            self.width()
        } else {
            self.height()
        }
    }
}

/// The point sequences of the strokes.
pub open spec fn stroke_points(strokes: Seq<Stroke>) -> Seq<Seq<Point>> {
    Seq::new(strokes.len(), |i: int| strokes[i].points@)
}

/// `p` is one of the first `upto` points of stroke `si`, or a point of an
/// earlier stroke.
pub open spec fn drawn_before(strokes: Seq<Seq<Point>>, si: int, upto: int, p: Point) -> bool {
    exists|i: int, j: int|
        0 <= i < strokes.len() && 0 <= j < strokes[i].len() && (i < si || (i == si && j < upto))
            && #[trigger] strokes[i][j] == p
}

/// `p` is a point of one of the strokes.
pub open spec fn drawn(strokes: Seq<Seq<Point>>, p: Point) -> bool {
    drawn_before(strokes, strokes.len() as int, 0, p)
}

/// `rect` is the bounding rectangle of the strokes: it holds every point
/// and each of its sides passes through one. Without any point it is the
/// whole coordinate range.
pub open spec fn is_bounding_rect(strokes: Seq<Seq<Point>>, rect: Rect) -> bool {
    if exists|p: Point| drawn(strokes, p) {
        &&& forall|p: Point| drawn(strokes, p) ==> rect.holds(p)
        &&& exists|p: Point| drawn(strokes, p) && p.x == rect.left
        &&& exists|p: Point| drawn(strokes, p) && p.x == rect.right
        &&& exists|p: Point| drawn(strokes, p) && p.y == rect.top
        &&& exists|p: Point| drawn(strokes, p) && p.y == rect.bottom
    } else {
        rect == (Rect { top: 0, bottom: 255, left: 0, right: 255 })
    }
}

/// The bounding rectangle of the strokes.
pub open spec fn bounding_rect(strokes: Seq<Seq<Point>>) -> Rect {
    choose|rect: Rect| is_bounding_rect(strokes, rect)
}

/// The strokes have one bounding rectangle only.
pub proof fn lemma_bounding_rect_unique(strokes: Seq<Seq<Point>>, r1: Rect, r2: Rect)
    requires
        is_bounding_rect(strokes, r1),
        is_bounding_rect(strokes, r2),
    ensures
        r1 == r2,
{
    if exists|p: Point| drawn(strokes, p) {
        let a = choose|p: Point| drawn(strokes, p) && p.x == r1.left;
        let b = choose|p: Point| drawn(strokes, p) && p.x == r2.left;
        assert(r2.holds(a) && r1.holds(b));
        let a = choose|p: Point| drawn(strokes, p) && p.x == r1.right;
        let b = choose|p: Point| drawn(strokes, p) && p.x == r2.right;
        assert(r2.holds(a) && r1.holds(b));
        let a = choose|p: Point| drawn(strokes, p) && p.y == r1.top;
        let b = choose|p: Point| drawn(strokes, p) && p.y == r2.top;
        assert(r2.holds(a) && r1.holds(b));
        let a = choose|p: Point| drawn(strokes, p) && p.y == r1.bottom;
        let b = choose|p: Point| drawn(strokes, p) && p.y == r2.bottom;
        assert(r2.holds(a) && r1.holds(b));
    }
}

/// The bounding rectangle is well-formed and covers every stroke.
pub proof fn lemma_bounding_rect(strokes: Seq<Seq<Point>>, rect: Rect)
    requires
        is_bounding_rect(strokes, rect),
    ensures
        rect == bounding_rect(strokes),
        rect.wf(),
        forall|i: int| 0 <= i < strokes.len() ==> rect.covers(#[trigger] strokes[i]),
{
    lemma_bounding_rect_unique(strokes, rect, bounding_rect(strokes));
    if exists|p: Point| drawn(strokes, p) {
        let a = choose|p: Point| drawn(strokes, p) && p.x == rect.left;
        assert(rect.holds(a));
    }
    assert forall|i: int| 0 <= i < strokes.len() implies rect.covers(#[trigger] strokes[i]) by {
        assert forall|j: int| 0 <= j < strokes[i].len() implies rect.holds(
            #[trigger] strokes[i][j],
        ) by {
            assert(drawn(strokes, strokes[i][j]));
        }
    }
}

/// Finds the bounding rectangle of a character.
pub fn get_bounding_rect(strokes: &Vec<Stroke>) -> (rect: Rect)
    ensures
        is_bounding_rect(stroke_points(strokes@), rect),
        rect == bounding_rect(stroke_points(strokes@)),
        rect.wf(),
        forall|i: int| 0 <= i < strokes@.len() ==> rect.covers(#[trigger] strokes@[i].points@),
{
    let ghost all = stroke_points(strokes@);
    let mut seen = false;
    let mut res = Rect { top: 255, bottom: 0, left: 255, right: 0 };
    let mut si: usize = 0;
    while si < strokes.len()
        invariant
            0 <= si <= strokes@.len(),
            all == stroke_points(strokes@),
            seen <==> exists|p: Point| drawn_before(all, si as int, 0, p),
            !seen ==> res == (Rect { top: 255, bottom: 0, left: 255, right: 0 }),
            forall|p: Point| drawn_before(all, si as int, 0, p) ==> res.holds(p),
            seen ==> exists|p: Point| drawn_before(all, si as int, 0, p) && p.x == res.left,
            seen ==> exists|p: Point| drawn_before(all, si as int, 0, p) && p.x == res.right,
            seen ==> exists|p: Point| drawn_before(all, si as int, 0, p) && p.y == res.top,
            seen ==> exists|p: Point| drawn_before(all, si as int, 0, p) && p.y == res.bottom,
        decreases strokes@.len() - si,
    {
        let points = &strokes[si].points;
        assert(all[si as int] == points@);
        let mut pj: usize = 0;
        while pj < points.len()
            invariant
                0 <= si < strokes@.len(),
                0 <= pj <= points@.len(),
                all == stroke_points(strokes@),
                all[si as int] == points@,
                seen <==> exists|p: Point| drawn_before(all, si as int, pj as int, p),
                !seen ==> res == (Rect { top: 255, bottom: 0, left: 255, right: 0 }),
                forall|p: Point| drawn_before(all, si as int, pj as int, p) ==> res.holds(p),
                seen ==> exists|p: Point|
                    drawn_before(all, si as int, pj as int, p) && p.x == res.left,
                seen ==> exists|p: Point|
                    drawn_before(all, si as int, pj as int, p) && p.x == res.right,
                seen ==> exists|p: Point|
                    drawn_before(all, si as int, pj as int, p) && p.y == res.top,
                seen ==> exists|p: Point|
                    drawn_before(all, si as int, pj as int, p) && p.y == res.bottom,
            decreases points@.len() - pj,
        {
            let pt = points[pj];
            let ghost before = res;
            let ghost had = seen;
            if pt.x < res.left {
                res.left = pt.x;
            }
            if pt.x > res.right {
                res.right = pt.x;
            }
            if pt.y < res.top {
                res.top = pt.y;
            }
            if pt.y > res.bottom {
                res.bottom = pt.y;
            }
            seen = true;
            pj += 1;
            proof {
                lemma_one_more_point(all, si as int, pj as int - 1, pj as int, before, had, res);
            }
        }
        si += 1;
        proof {
            lemma_next_stroke(all, si as int - 1, pj as int, si as int);
        }
    }
    assert(si as int == all.len());
    assert(forall|p: Point| drawn(all, p) <==> drawn_before(all, si as int, 0, p));
    if !seen {
        res = Rect { top: 0, bottom: 255, left: 0, right: 255 };
    }
    proof {
        if seen {
            let a = choose|p: Point| drawn_before(all, si as int, 0, p) && p.x == res.left;
            assert(drawn(all, a) && a.x == res.left);
            let a = choose|p: Point| drawn_before(all, si as int, 0, p) && p.x == res.right;
            assert(drawn(all, a) && a.x == res.right);
            let a = choose|p: Point| drawn_before(all, si as int, 0, p) && p.y == res.top;
            assert(drawn(all, a) && a.y == res.top);
            let a = choose|p: Point| drawn_before(all, si as int, 0, p) && p.y == res.bottom;
            assert(drawn(all, a) && a.y == res.bottom);
        }
        assert(is_bounding_rect(all, res));
        lemma_bounding_rect(all, res);
        assert forall|i: int| 0 <= i < strokes@.len() implies res.covers(
            #[trigger] strokes@[i].points@,
        ) by {
            assert(all[i] == strokes@[i].points@);
        }
    }
    res
}

/// The points drawn before the end of stroke `si` are those drawn before
/// the start of the next stroke.
proof fn lemma_next_stroke(strokes: Seq<Seq<Point>>, si: int, len: int, next: int)
    requires
        0 <= si < strokes.len(),
        len == strokes[si].len(),
        next == si + 1,
    ensures
        forall|p: Point|
            drawn_before(strokes, si, len, p) <==> drawn_before(strokes, next, 0, p),
{
    assert forall|i: int, j: int|
        0 <= i < strokes.len() && 0 <= j < strokes[i].len() && (i < si || (i == si && j
            < len)) implies drawn_before(strokes, next, 0, #[trigger] strokes[i][j]) by {}
    assert forall|i: int, j: int|
        0 <= i < strokes.len() && 0 <= j < strokes[i].len() && (i < next || (i == next && j
            < 0)) implies drawn_before(strokes, si, len, #[trigger] strokes[i][j]) by {}
}

/// What widening a rectangle by the next point keeps and gains.
proof fn lemma_one_more_point(
    strokes: Seq<Seq<Point>>,
    si: int,
    pj: int,
    next: int,
    before: Rect,
    had: bool,
    after: Rect,
)
    requires
        0 <= si < strokes.len(),
        0 <= pj < strokes[si].len(),
        next == pj + 1,
        had <==> exists|p: Point| drawn_before(strokes, si, pj, p),
        !had ==> before == (Rect { top: 255, bottom: 0, left: 255, right: 0 }),
        forall|p: Point| drawn_before(strokes, si, pj, p) ==> before.holds(p),
        had ==> exists|p: Point| drawn_before(strokes, si, pj, p) && p.x == before.left,
        had ==> exists|p: Point| drawn_before(strokes, si, pj, p) && p.x == before.right,
        had ==> exists|p: Point| drawn_before(strokes, si, pj, p) && p.y == before.top,
        had ==> exists|p: Point| drawn_before(strokes, si, pj, p) && p.y == before.bottom,
        after.left == (if strokes[si][pj].x < before.left {
            strokes[si][pj].x
        } else {
            before.left
        }),
        after.right == (if strokes[si][pj].x > before.right {
            strokes[si][pj].x
        } else {
            before.right
        }),
        after.top == (if strokes[si][pj].y < before.top {
            strokes[si][pj].y
        } else {
            before.top
        }),
        after.bottom == (if strokes[si][pj].y > before.bottom {
            strokes[si][pj].y
        } else {
            before.bottom
        }),
    ensures
        exists|p: Point| drawn_before(strokes, si, next, p),
        forall|p: Point| drawn_before(strokes, si, next, p) ==> after.holds(p),
        exists|p: Point| drawn_before(strokes, si, next, p) && p.x == after.left,
        exists|p: Point| drawn_before(strokes, si, next, p) && p.x == after.right,
        exists|p: Point| drawn_before(strokes, si, next, p) && p.y == after.top,
        exists|p: Point| drawn_before(strokes, si, next, p) && p.y == after.bottom,
{
    let pt = strokes[si][pj];
    assert(drawn_before(strokes, si, next, pt));
    assert forall|i: int, j: int|
        0 <= i < strokes.len() && 0 <= j < strokes[i].len() && (i < si || (i == si && j
            < pj)) implies drawn_before(strokes, si, next, #[trigger] strokes[i][j]) by {}
    assert forall|i: int, j: int|
        0 <= i < strokes.len() && 0 <= j < strokes[i].len() && (i < si || (i == si && j
            < next)) implies after.holds(#[trigger] strokes[i][j]) by {
        if i != si || j != pj {
            assert(drawn_before(strokes, si, pj, strokes[i][j]));
            assert(before.holds(strokes[i][j]));
        }
    }
    if had {
        let a = choose|p: Point| drawn_before(strokes, si, pj, p) && p.x == before.left;
        assert(drawn_before(strokes, si, next, a));
        let a = choose|p: Point| drawn_before(strokes, si, pj, p) && p.x == before.right;
        assert(drawn_before(strokes, si, next, a));
        let a = choose|p: Point| drawn_before(strokes, si, pj, p) && p.y == before.top;
        assert(drawn_before(strokes, si, next, a));
        let a = choose|p: Point| drawn_before(strokes, si, pj, p) && p.y == before.bottom;
        assert(drawn_before(strokes, si, next, a));
    }
}

/// The state of the search for pivots along a stroke.
pub struct PivotScan {
    /// For each point, whether it is currently taken for a pivot.
    pub markers: Seq<bool>,
    /// Index of the last pivot: the start of the current sub-stroke.
    pub first: int,
    /// Length of the path from that pivot to the point reached.
    pub running: int,
}

/// The state before the third point is looked at: the first point is a
/// pivot, and the path runs from the first point to the second.
pub open spec fn scan_start(points: Seq<Point>) -> PivotScan {
    PivotScan {
        markers: Seq::new(points.len(), |i: int| i == 0),
        first: 0,
        running: distance(points[0], points[1]),
    }
}

/// Looks at point `i` and decides whether point `i - 1` is a pivot.
///
/// It is one if the path over the points `i - 2`, `i - 1`, `i` is longer
/// than `MAX_LOCAL_LENGTH_RATIO` times the distance from `i - 2` to `i`, or
/// if the path from the last pivot to `i` is longer than
/// `MAX_RUNNING_LENGTH_RATIO` times the distance from the last pivot to
/// `i`. A pivot at `i - 2` that lies closer to `i - 1` than
/// `MIN_SEGMENT_LENGTH` then gives way.
pub open spec fn scan_step(points: Seq<Point>, st: PivotScan, i: int) -> PivotScan {
    let prev = points[i - 2];
    let pivot = points[i - 1];
    let next = points[i];
    let pivot_length = distance(pivot, next);
    let local_length = distance(prev, pivot) + pivot_length;
    let running_length = st.running + pivot_length;
    if local_length * SCALE > MAX_LOCAL_LENGTH_RATIO * distance(prev, next) || running_length
        * SCALE > MAX_RUNNING_LENGTH_RATIO * distance(points[st.first], next) {
        let cleared = if st.markers[i - 2] && distance(prev, pivot) < MIN_SEGMENT_LENGTH {
            st.markers.update(i - 2, false)
        } else {
            st.markers
        };
        PivotScan { markers: cleared.update(i - 1, true), first: i - 1, running: pivot_length }
    } else {
        PivotScan { markers: st.markers, first: st.first, running: running_length }
    }
}

/// The state after the points before `upto` have been looked at.
pub open spec fn scan(points: Seq<Point>, upto: int) -> PivotScan
    decreases upto,
{
    if upto <= 2 {
        scan_start(points)
    } else {
        scan_step(points, scan(points, upto - 1), upto - 1)
    }
}

/// The last point is a pivot. A pivot just before it that lies closer to
/// it than `MIN_SEGMENT_LENGTH` gives way, unless it is the first point.
pub open spec fn scan_finish(points: Seq<Point>, st: PivotScan) -> Seq<bool> {
    let n = points.len() as int;
    let marked = st.markers.update(n - 1, true);
    if marked[n - 2] && distance(points[n - 2], points[n - 1]) < MIN_SEGMENT_LENGTH && n - 2 != 0 {
        marked.update(n - 2, false)
    } else {
        marked
    }
}

/// For each point of a stroke, whether it is a pivot. In a stroke of fewer
/// than two points every point is one.
pub open spec fn pivot_markers(points: Seq<Point>) -> Seq<bool> {
    if points.len() < 2 {
        Seq::new(points.len(), |i: int| true)
    } else {
        scan_finish(points, scan(points, points.len() as int))
    }
}

/// The indexes below `upto` that are marked, in ascending order.
pub open spec fn marked_indexes(markers: Seq<bool>, upto: int) -> Seq<usize>
    decreases upto,
{
    if upto <= 0 {
        Seq::empty()
    } else if markers[upto - 1] {
        marked_indexes(markers, upto - 1).push((upto - 1) as usize)
    } else {
        marked_indexes(markers, upto - 1)
    }
}

/// The indexes of a stroke's pivots, in ascending order.
pub open spec fn pivot_indexes(points: Seq<Point>) -> Seq<usize> {
    marked_indexes(pivot_markers(points), points.len() as int)
}

/// Marked indexes ascend and stay below `upto`; the last of them is the
/// highest marked index.
pub proof fn lemma_marked_indexes(markers: Seq<bool>, upto: int)
    requires
        0 <= upto <= markers.len(),
        upto <= usize::MAX,
    ensures
        marked_indexes(markers, upto).len() <= upto,
        forall|k: int|
            0 <= k < marked_indexes(markers, upto).len() ==> {
                &&& (#[trigger] marked_indexes(markers, upto)[k]) < upto
                &&& markers[marked_indexes(markers, upto)[k] as int]
            },
        forall|j: int, k: int|
            0 <= j < k < marked_indexes(markers, upto).len() ==> marked_indexes(markers, upto)[j]
                < marked_indexes(markers, upto)[k],
        upto > 0 && markers[upto - 1] ==> marked_indexes(markers, upto).len() > 0
            && marked_indexes(markers, upto).last() == upto - 1,
    decreases upto,
{
    if upto > 0 {
        lemma_marked_indexes(markers, upto - 1);
    }
}

/// Finds the pivots of a stroke: the points where it starts, ends, or
/// changes direction enough to begin a new sub-stroke.
pub fn get_pivot_indexes(stroke: &Stroke) -> (res: Vec<usize>)
    ensures
        res@ == pivot_indexes(stroke.points@),
        forall|k: int| 0 <= k < res@.len() ==> (#[trigger] res@[k]) < stroke.points@.len(),
        forall|j: int, k: int| 0 <= j < k < res@.len() ==> res@[j] < res@[k],
        stroke.points@.len() > 0 ==> res@.len() > 0 && res@.last() == stroke.points@.len() - 1,
{
    let points = &stroke.points;
    let n = points.len();
    let mut markers: Vec<bool> = Vec::new();
    let mut k: usize = 0;
    while k < n
        invariant
            0 <= k <= n,
            markers@.len() == k,
            forall|j: int| 0 <= j < k ==> markers@[j] == (n < 2 || j == 0),
        decreases n - k,
    {
        markers.push(n < 2 || k == 0);
        k += 1;
    }
    if n >= 2 {
        assert(markers@ =~= scan_start(points@).markers);
        let mut first_pt_ix: usize = 0;
        let mut running_length: u128 = dist(points[0], points[1]);
        let mut i: usize = 2;
        while i < n
            invariant
                2 <= i <= n,
                n == points@.len(),
                markers@ == scan(points@, i as int).markers,
                markers@.len() == n,
                first_pt_ix == scan(points@, i as int).first,
                first_pt_ix < i - 1,
                running_length == scan(points@, i as int).running,
                running_length < 0x200_0000_0000,
            decreases n - i,
        {
            let prev = points[i - 2];
            let pivot = points[i - 1];
            let next = points[i];
            let pivot_length = dist(pivot, next);
            let prev_length = dist(prev, pivot);
            let local_length = prev_length + pivot_length;
            let run = running_length + pivot_length;
            let dist_from_previous = dist(prev, next);
            let dist_from_first = dist(points[first_pt_ix], next);
            if local_length * 1_024_000_000 > MAX_LOCAL_LENGTH_RATIO * dist_from_previous || run
                * 1_024_000_000 > MAX_RUNNING_LENGTH_RATIO * dist_from_first {
                if markers[i - 2] && prev_length < MIN_SEGMENT_LENGTH {
                    markers.set(i - 2, false);
                }
                markers.set(i - 1, true);
                running_length = pivot_length;
                first_pt_ix = i - 1;
            } else {
                running_length = run;
            }
            i += 1;
        }
        markers.set(n - 1, true);
        if markers[n - 2] && n - 2 != 0 && dist(points[n - 2], points[n - 1])
            < MIN_SEGMENT_LENGTH {
            markers.set(n - 2, false);
        }
        assert(markers@ == pivot_markers(points@));
    } else {
        assert(markers@ =~= pivot_markers(points@));
    }
    let mut res: Vec<usize> = Vec::new();
    let mut ix: usize = 0;
    while ix < n
        invariant
            0 <= ix <= n,
            n == markers@.len(),
            res@ == marked_indexes(markers@, ix as int),
        decreases n - ix,
    {
        if markers[ix] {
            res.push(ix);
        }
        ix += 1;
    }
    proof {
        lemma_marked_indexes(markers@, n as int);
    }
    res
}

/// Scale of the entries of [`SECTOR_BOUNDARIES`]: two to the power of 40.
pub const ANGLE_SCALE: u64 = 0x100_0000_0000;

/// The tangents of the angles that separate the first 33 direction steps,
/// times [`ANGLE_SCALE`], to the nearest integer. Entry `k` is for the
/// angle of `k + 1/2` steps, where 256 steps make the full turn. No
/// direction between two points with coordinates in `[0, 255]` comes
/// closer to one of these angles than the entries are exact.
pub const SECTOR_BOUNDARIES: [u64; 32] = [
    13_493_715_088, 40_497_411_280, 67_549_984_032, 94_684_280_216,
    121_933_543_296, 149_331_577_682, 176_912_918_943, 204_713_011_703,
    232_768_397_233, 261_116_912_889, 289_797_905_789, 318_852_463_403,
    348_323_664_047, 378_256_850_669, 408_699_931_828, 439_703_714_310,
    471_322_272_536, 503_613_360_779, 536_638_875_159, 570_465_373_672,
    605_164_663_922, 640_814_470_056, 677_499_192_567, 715_310_777_305,
    754_349_713_316, 794_726_183_182, 836_561_394_571, 879_989_127_962,
    925_157_543_378, 972_231_298_876, 1_021_394_046_122, 1_072_851_384_434,
];

/// For a direction `(q, p)` with `0 <= p <= q` and `q > 0`, that is, up to
/// an eighth of a turn above the positive x axis: if the direction lies
/// beyond the first `upto` boundaries, then `upto`, else the number of
/// boundaries it lies beyond.
pub open spec fn sectors_passed(p: int, q: int, upto: int) -> int
    decreases upto,
{
    if upto <= 0 {
        0
    } else if sectors_passed(p, q, upto - 1) == upto - 1 && p * ANGLE_SCALE > q
        * SECTOR_BOUNDARIES[upto - 1] {
        upto
    } else {
        sectors_passed(p, q, upto - 1)
    }
}

/// The angle of the direction `(ax, ay)`, with `ax >= 0` and `ay >= 0`, in
/// steps of 1/256 of the full turn and rounded to the nearest step: from 0
/// for a direction along the x axis to 64 for one along the y axis.
pub open spec fn quadrant_steps(ax: int, ay: int) -> int {
    if ay <= ax {
        sectors_passed(ay, ax, 32)
    } else {
        64 - sectors_passed(ax, ay, 32)
    }
}

/// The angle of the direction `(wx, wy)` in steps of 1/256 of the full
/// turn, rounded to the nearest step; a full turn counts as none. The
/// angle is measured from the positive x axis towards the positive y axis.
/// The direction without length has the angle 128.
pub open spec fn direction_of(wx: int, wy: int) -> int {
    let ax = if wx < 0 {
        -wx
    } else {
        wx
    };
    let ay = if wy < 0 {
        -wy
    } else {
        wy
    };
    let m = quadrant_steps(ax, ay);
    if wx == 0 && wy == 0 {
        128
    } else if wx >= 0 && wy >= 0 {
        m
    } else if wx < 0 && wy >= 0 {
        128 - m
    } else if wx < 0 {
        128 + m
    } else if m == 0 {
        0
    } else {
        256 - m
    }
}

/// The direction from `a` to `b`, where x grows to the right and y grows
/// downwards: 0 is to the right, 64 is up, 128 is to the left, 192 is down.
pub open spec fn direction(a: Point, b: Point) -> int {
    direction_of(b.x - a.x, a.y - b.y)
}

/// Once a boundary is not passed, the count stays.
proof fn lemma_sectors_stay(p: int, q: int, from: int, upto: int)
    requires
        0 <= from <= upto,
        sectors_passed(p, q, from) < from,
    ensures
        sectors_passed(p, q, upto) == sectors_passed(p, q, from),
    decreases upto - from,
{
    if from < upto {
        lemma_sectors_stay(p, q, from, upto - 1);
    }
}

/// The count of boundaries passed is at most the number looked at.
pub proof fn lemma_sectors_passed(p: int, q: int, upto: int)
    requires
        0 <= upto,
    ensures
        0 <= sectors_passed(p, q, upto) <= upto,
    decreases upto,
{
    if upto > 0 {
        lemma_sectors_passed(p, q, upto - 1);
    }
}

/// The direction is a step count below 256.
pub proof fn lemma_direction_of(wx: int, wy: int)
    ensures
        0 <= direction_of(wx, wy) <= 255,
{
    let ax = if wx < 0 {
        -wx
    } else {
        wx
    };
    let ay = if wy < 0 {
        -wy
    } else {
        wy
    };
    lemma_sectors_passed(ay, ax, 32);
    lemma_sectors_passed(ax, ay, 32);
    if ax > 0 && ay == 0 {
        assert(sectors_passed(ay, ax, 0) == 0);
        assert(sectors_passed(ay, ax, 1) == 0) by {
            assert(0 * ANGLE_SCALE == 0);
            assert(ax * SECTOR_BOUNDARIES[0] >= 0) by (nonlinear_arith)
                requires
                    ax > 0,
                    SECTOR_BOUNDARIES[0] > 0,
            ;
        }
        lemma_sectors_stay(ay, ax, 1, 32);
    }
}

/// Counts the boundaries that the direction `(q, p)` lies beyond.
fn sector_count(p: u64, q: u64) -> (n: u8)
    requires
        p <= q <= 255,
    ensures
        n == sectors_passed(p as int, q as int, 32),
        n <= 32,
{
    let mut k: u8 = 0;
    let mut beyond: bool = true;
    assert(p * ANGLE_SCALE <= 255 * ANGLE_SCALE) by (nonlinear_arith)
        requires
            0 <= p <= 255,
    ;
    while k < 32 && beyond
        invariant
            0 <= k <= 32,
            p <= q <= 255,
            p * ANGLE_SCALE <= 255 * ANGLE_SCALE,
            beyond ==> sectors_passed(p as int, q as int, k as int) == k,
            !beyond ==> k < 32 && sectors_passed(p as int, q as int, k as int + 1) == k,
        decreases 32 - k + (if beyond { 1int } else { 0int }),
    {
        let b: u64 = SECTOR_BOUNDARIES[k as usize];
        assert(q * b <= 255 * (ANGLE_SCALE + ANGLE_SCALE)) by (nonlinear_arith)
            requires
                0 <= q <= 255,
                0 <= b < ANGLE_SCALE + ANGLE_SCALE,
        ;
        if p * ANGLE_SCALE > q * b {
            k += 1;
        } else {
            beyond = false;
        }
    }
    proof {
        if !beyond {
            lemma_sectors_stay(p as int, q as int, k as int + 1, 32);
        }
    }
    k
}

/// Computes the direction from `a` to `b`.
pub fn dir(a: Point, b: Point) -> (d: u8)
    ensures
        d == direction(a, b),
{
    proof {
        lemma_direction_of(b.x - a.x, a.y - b.y);
    }
    let right = b.x >= a.x;
    let up = a.y >= b.y;
    let ax: u64 = if right {
        (b.x - a.x) as u64
    } else {
        (a.x - b.x) as u64
    };
    let ay: u64 = if up {
        (a.y - b.y) as u64
    } else {
        (b.y - a.y) as u64
    };
    if ax == 0 && ay == 0 {
        return 128;
    }
    let m: u8 = if ay <= ax {
        sector_count(ay, ax)
    } else {
        64 - sector_count(ax, ay)
    };
    if right && up {
        m
    } else if up {
        128 - m
    } else if !right {
        128 + m
    } else if m == 0 {
        0
    } else {
        ((256 - m as u16) as u8)
    }
}

/// The distance from `a` to `b` as a fraction of the diagonal of the
/// square around the character, times 255 and rounded to the nearest
/// integer, and at most 255.
///
/// With `d2` the squared distance and `s` the side of the square, twice
/// that fraction times 255 is the square root of `130050 * d2 / (s * s)`.
pub open spec fn normalized_length(a: Point, b: Point, rect: Rect) -> int {
    let twice = sqrt_floor(130050 * squared_distance(a, b) / (rect.side() * rect.side()));
    if (twice + 1) / 2 > 255 {
        255
    } else {
        (twice + 1) / 2
    }
}

/// Twice the distance of the midpoint of `a` and `b` from the left side of
/// the square around the character.
pub open spec fn center_offset_x(a: Point, b: Point, rect: Rect) -> int {
    a.x + b.x - 2 * rect.left + (if rect.width() > rect.height() {
        0
    } else {
        rect.side() - rect.width()
    })
}

/// Twice the distance of the midpoint of `a` and `b` from the top side of
/// the square around the character.
pub open spec fn center_offset_y(a: Point, b: Point, rect: Rect) -> int {
    a.y + b.y - 2 * rect.top + (if rect.width() > rect.height() {
        rect.side() - rect.height()
    } else {
        0
    })
}

/// The position `offset / 2` within a square of the given side as a
/// fraction of the side, times 15 and rounded to the nearest integer.
pub open spec fn grid_position(offset: int, side: int) -> int {
    (15 * offset + side) / (2 * side)
}

/// The midpoint of `a` and `b` on the 16 by 16 grid laid over the square
/// around the character. The square has the bounding rectangle in its
/// middle: the shorter dimension is padded evenly on both sides.
pub open spec fn normalized_center(a: Point, b: Point, rect: Rect) -> (int, int) {
    (
        grid_position(center_offset_x(a, b, rect), rect.side()),
        grid_position(center_offset_y(a, b, rect), rect.side()),
    )
}

/// The sub-stroke from `a` to `b` in a character with the bounding
/// rectangle `rect`.
pub open spec fn sub_stroke_between(a: Point, b: Point, rect: Rect) -> SubStroke {
    SubStroke {
        direction: direction(a, b) as u8,
        length: normalized_length(a, b, rect) as u8,
        center_x: normalized_center(a, b, rect).0 as u8,
        center_y: normalized_center(a, b, rect).1 as u8,
    }
}

/// A rectangle that holds two different points has a positive side.
pub proof fn lemma_side_positive(a: Point, b: Point, rect: Rect)
    requires
        rect.holds(a),
        rect.holds(b),
        a != b,
    ensures
        0 < rect.side() <= 255,
{
}

/// Computes the normalized length of the segment from `a` to `b`.
pub fn norm_dist(a: Point, b: Point, rect: &Rect) -> (len: u8)
    requires
        rect.wf(),
        rect.side() > 0,
    ensures
        len == normalized_length(a, b, *rect),
        len >= 1 ==> (2 * len - 1) * (2 * len - 1) * (rect.side() * rect.side()) <= 130050
            * squared_distance(a, b),
        len < 255 ==> 130050 * squared_distance(a, b) < (2 * len + 1) * (2 * len + 1) * (
        rect.side() * rect.side()),
{
    proof {
        lemma_normalized_length(a, b, *rect);
    }
    let width: u64 = (rect.right - rect.left) as u64;
    let height: u64 = (rect.bottom - rect.top) as u64;
    let side: u64 = if width > height {
        width
    } else {
        height
    };
    let d2: u64 = squared_dist(a, b) as u64;
    assert(0 < side * side <= 65025) by (nonlinear_arith)
        requires
            0 < side <= 255,
    ;
    let q: u64 = 130050 * d2 / (side * side);
    assert(q <= 130050 * d2) by (nonlinear_arith)
        requires
            q == 130050 * d2 / (side * side),
            side * side > 0,
            d2 >= 0,
    ;
    let twice: u128 = integer_sqrt(q as u128);
    let len: u128 = (twice + 1) / 2;
    if len > 255 {
        255
    } else {
        len as u8
    }
}

/// Computes a grid position.
fn grid_pos(offset: u32, side: u32) -> (pos: u8)
    requires
        0 < side <= 255,
        offset <= 2 * side,
    ensures
        pos == grid_position(offset as int, side as int),
        pos <= 15,
        (2 * pos - 1) * side <= 15 * offset < (2 * pos + 1) * side,
{
    proof {
        lemma_grid_position(offset as int, side as int);
    }
    ((15 * offset + side) / (2 * side)) as u8
}

/// Computes the normalized center of the segment from `a` to `b`.
pub fn get_norm_center(a: Point, b: Point, rect: &Rect) -> (center: (u8, u8))
    requires
        rect.holds(a),
        rect.holds(b),
        rect.side() > 0,
    ensures
        center.0 == normalized_center(a, b, *rect).0,
        center.1 == normalized_center(a, b, *rect).1,
        center.0 <= 15,
        center.1 <= 15,
{
    let width: u32 = (rect.right - rect.left) as u32;
    let height: u32 = (rect.bottom - rect.top) as u32;
    let x: u32 = a.x as u32 + b.x as u32 - 2 * (rect.left as u32);
    let y: u32 = a.y as u32 + b.y as u32 - 2 * (rect.top as u32);
    if width > height {
        (grid_pos(x, width), grid_pos(y + (width - height), width))
    } else {
        (grid_pos(x + (height - width), height), grid_pos(y, height))
    }
}

/// The sub-strokes that the first `k` pivots of a stroke give. Each pivot
/// ends a segment that starts at the pivot before it, the first one a
/// segment that starts at the stroke's first point. A segment between two
/// points at the same place has no length and gives no sub-stroke.
pub open spec fn sub_strokes_upto(
    points: Seq<Point>,
    pivots: Seq<usize>,
    rect: Rect,
    k: int,
) -> Seq<SubStroke>
    decreases k,
{
    if k <= 0 {
        Seq::empty()
    } else {
        let a = points[if k == 1 {
            0
        } else {
            pivots[k - 2] as int
        }];
        let b = points[pivots[k - 1] as int];
        if a == b {
            sub_strokes_upto(points, pivots, rect, k - 1)
        } else {
            sub_strokes_upto(points, pivots, rect, k - 1).push(sub_stroke_between(a, b, rect))
        }
    }
}

/// The sub-strokes of a stroke in a character with the bounding rectangle
/// `rect`.
pub open spec fn sub_strokes_of(points: Seq<Point>, rect: Rect) -> Seq<SubStroke> {
    sub_strokes_upto(points, pivot_indexes(points), rect, pivot_indexes(points).len() as int)
}

/// Builds the sub-strokes of a stroke from its pivots.
pub fn build_sub_strokes(stroke: &Stroke, pivot_indexes: &Vec<usize>, rect: &Rect) -> (res: Vec<
    SubStroke,
>)
    requires
        rect.covers(stroke.points@),
        forall|k: int|
            0 <= k < pivot_indexes@.len() ==> (#[trigger] pivot_indexes@[k]) < stroke.points@.len(),
    ensures
        res@ == sub_strokes_upto(
            stroke.points@,
            pivot_indexes@,
            *rect,
            pivot_indexes@.len() as int,
        ),
        res@.len() <= pivot_indexes@.len(),
        forall|k: int| 0 <= k < res@.len() ==> (#[trigger] res@[k]).wf(),
{
    let mut res: Vec<SubStroke> = Vec::new();
    let mut prev_ix: usize = 0;
    let mut i: usize = 0;
    while i < pivot_indexes.len()
        invariant
            0 <= i <= pivot_indexes@.len(),
            rect.covers(stroke.points@),
            forall|k: int|
                0 <= k < pivot_indexes@.len() ==> (#[trigger] pivot_indexes@[k])
                    < stroke.points@.len(),
            prev_ix == (if i == 0 {
                0
            } else {
                pivot_indexes@[i - 1]
            }),
            res@ == sub_strokes_upto(stroke.points@, pivot_indexes@, *rect, i as int),
            res@.len() <= i,
            forall|k: int| 0 <= k < res@.len() ==> (#[trigger] res@[k]).wf(),
        decreases pivot_indexes@.len() - i,
    {
        let ix: usize = pivot_indexes[i];
        let a = stroke.points[prev_ix];
        let b = stroke.points[ix];
        if a.x != b.x || a.y != b.y {
            proof {
                lemma_side_positive(a, b, *rect);
                lemma_direction_of(b.x - a.x, a.y - b.y);
            }
            let direction = dir(a, b);
            let length = norm_dist(a, b, rect);
            let center = get_norm_center(a, b, rect);
            res.push(SubStroke { direction, length, center_x: center.0, center_y: center.1 });
        }
        prev_ix = ix;
        i += 1;
    }
    res
}

/// A character after analysis: its strokes with their pivots and
/// sub-strokes.
pub struct AnalyzedCharacter<'a> {
    pub analyzed_strokes: Vec<AnalyzedStroke<'a>>,
    pub sub_stroke_count: usize,
}

/// The sub-strokes of the first `upto` strokes, one stroke after the
/// other.
pub open spec fn sub_strokes_before(strokes: Seq<Seq<Point>>, rect: Rect, upto: int) -> Seq<
    SubStroke,
>
    decreases upto,
{
    if upto <= 0 {
        Seq::empty()
    } else {
        sub_strokes_before(strokes, rect, upto - 1) + sub_strokes_of(strokes[upto - 1], rect)
    }
}

/// All sub-strokes of a character, in the order drawn.
pub open spec fn character_sub_strokes(strokes: Seq<Seq<Point>>) -> Seq<SubStroke> {
    sub_strokes_before(strokes, bounding_rect(strokes), strokes.len() as int)
}

/// The sub-strokes of the first `upto` analyzed strokes.
pub open spec fn gathered(analyzed: Seq<AnalyzedStroke<'_>>, upto: int) -> Seq<SubStroke>
    decreases upto,
{
    if upto <= 0 {
        Seq::empty()
    } else {
        gathered(analyzed, upto - 1) + analyzed[upto - 1].sub_strokes@
    }
}

/// The analyzed stroke is the analysis of `points` in a character with the
/// bounding rectangle `rect`.
pub open spec fn analyzes(analyzed: AnalyzedStroke<'_>, points: Seq<Point>, rect: Rect) -> bool {
    &&& analyzed.points@ == points
    &&& analyzed.pivot_indexes@ == pivot_indexes(points)
    &&& analyzed.sub_strokes@ == sub_strokes_of(points, rect)
}

/// Every sub-stroke of the sequence lies on the grid.
pub open spec fn all_on_grid(sub_strokes: Seq<SubStroke>) -> bool {
    forall|k: int| 0 <= k < sub_strokes.len() ==> (#[trigger] sub_strokes[k]).wf()
}

/// Gathering the sub-strokes of analyzed strokes gives the sub-strokes of
/// the strokes they analyze.
pub proof fn lemma_gathered(
    analyzed: Seq<AnalyzedStroke<'_>>,
    strokes: Seq<Seq<Point>>,
    rect: Rect,
    upto: int,
)
    requires
        0 <= upto <= analyzed.len(),
        upto <= strokes.len(),
        forall|i: int| 0 <= i < upto ==> analyzes(#[trigger] analyzed[i], strokes[i], rect),
    ensures
        gathered(analyzed, upto) == sub_strokes_before(strokes, rect, upto),
    decreases upto,
{
    if upto > 0 {
        lemma_gathered(analyzed, strokes, rect, upto - 1);
        assert(analyzes(analyzed[upto - 1], strokes[upto - 1], rect));
    }
}

impl<'a> AnalyzedCharacter<'a> {
    /// All sub-strokes of the character, in the order drawn.
    pub open spec fn view(&self) -> Seq<SubStroke> {
        gathered(self.analyzed_strokes@, self.analyzed_strokes@.len() as int)
    }

    /// This is the analysis of the character drawn with `strokes`.
    pub open spec fn analysis_of(&self, strokes: Seq<Seq<Point>>) -> bool {
        &&& self.analyzed_strokes@.len() == strokes.len()
        &&& forall|i: int|
            0 <= i < strokes.len() ==> analyzes(
                #[trigger] self.analyzed_strokes@[i],
                strokes[i],
                bounding_rect(strokes),
            )
        &&& self.sub_stroke_count == self@.len()
        &&& self@ == character_sub_strokes(strokes)
        &&& all_on_grid(self@)
    }

    /// Analyzes a character: finds the bounding rectangle of all strokes,
    /// then the pivots and sub-strokes of each stroke.
    pub fn from_strokes(strokes: &'a Vec<Stroke>) -> (res: AnalyzedCharacter<'a>)
        ensures
            res.analysis_of(stroke_points(strokes@)),
    {
        let bounding_rect = get_bounding_rect(strokes);
        let analyzed_strokes = build_analyzed_strokes(strokes, &bounding_rect);
        let flat = gather(&analyzed_strokes);
        proof {
            let points = stroke_points(strokes@);
            assert forall|i: int| 0 <= i < points.len() implies analyzes(
                #[trigger] analyzed_strokes@[i],
                points[i],
                bounding_rect,
            ) by {
                assert(analyzes(analyzed_strokes@[i], strokes@[i].points@, bounding_rect));
            }
            lemma_gathered(analyzed_strokes@, points, bounding_rect, points.len() as int);
            lemma_gathered_on_grid(analyzed_strokes@, analyzed_strokes@.len() as int);
        }
        AnalyzedCharacter { analyzed_strokes, sub_stroke_count: flat.len() }
    }

    /// The character's sub-strokes as one list.
    pub fn get_analyzed_strokes(&self) -> (res: Vec<SubStroke>)
        ensures
            res@ == self@,
    {
        gather(&self.analyzed_strokes)
    }
}

/// Whether all sub-strokes of the first `upto` analyzed strokes lie on the
/// grid.
pub open spec fn strokes_on_grid(analyzed: Seq<AnalyzedStroke<'_>>, upto: int) -> bool {
    forall|i: int| 0 <= i < upto ==> all_on_grid(#[trigger] analyzed[i].sub_strokes@)
}

/// Gathered sub-strokes lie on the grid if those of each stroke do.
pub proof fn lemma_gathered_on_grid(analyzed: Seq<AnalyzedStroke<'_>>, upto: int)
    requires
        0 <= upto <= analyzed.len(),
        strokes_on_grid(analyzed, upto),
    ensures
        all_on_grid(gathered(analyzed, upto)),
    decreases upto,
{
    if upto > 0 {
        lemma_gathered_on_grid(analyzed, upto - 1);
        assert(all_on_grid(analyzed[upto - 1].sub_strokes@));
    }
}

/// Copies the sub-strokes of all analyzed strokes into one list.
fn gather(analyzed_strokes: &Vec<AnalyzedStroke<'_>>) -> (res: Vec<SubStroke>)
    ensures
        res@ == gathered(analyzed_strokes@, analyzed_strokes@.len() as int),
{
    let mut res: Vec<SubStroke> = Vec::new();
    let mut i: usize = 0;
    while i < analyzed_strokes.len()
        invariant
            0 <= i <= analyzed_strokes@.len(),
            res@ == gathered(analyzed_strokes@, i as int),
        decreases analyzed_strokes@.len() - i,
    {
        let sub_strokes = &analyzed_strokes[i].sub_strokes;
        let ghost before = res@;
        let mut j: usize = 0;
        while j < sub_strokes.len()
            invariant
                0 <= j <= sub_strokes@.len(),
                res@ == before + sub_strokes@.take(j as int),
            decreases sub_strokes@.len() - j,
        {
            res.push(sub_strokes[j]);
            j += 1;
            assert(sub_strokes@.take(j as int) == sub_strokes@.take(j as int - 1).push(
                sub_strokes@[j as int - 1],
            ));
        }
        assert(sub_strokes@.take(j as int) == sub_strokes@);
        i += 1;
    }
    res
}

/// Analyzes each stroke of a character with the bounding rectangle `rect`.
pub fn build_analyzed_strokes<'a>(strokes: &'a Vec<Stroke>, rect: &Rect) -> (res: Vec<
    AnalyzedStroke<'a>,
>)
    requires
        forall|i: int| 0 <= i < strokes@.len() ==> rect.covers(#[trigger] strokes@[i].points@),
    ensures
        res@.len() == strokes@.len(),
        forall|i: int|
            0 <= i < strokes@.len() ==> analyzes(#[trigger] res@[i], strokes@[i].points@, *rect),
        strokes_on_grid(res@, res@.len() as int),
{
    let mut res: Vec<AnalyzedStroke<'a>> = Vec::new();
    let mut i: usize = 0;
    while i < strokes.len()
        invariant
            0 <= i <= strokes@.len(),
            res@.len() == i,
            forall|k: int| 0 <= k < strokes@.len() ==> rect.covers(#[trigger] strokes@[k].points@),
            forall|k: int| 0 <= k < i ==> analyzes(#[trigger] res@[k], strokes@[k].points@, *rect),
            strokes_on_grid(res@, i as int),
        decreases strokes@.len() - i,
    {
        let stroke = &strokes[i];
        let pivot_indexes = get_pivot_indexes(stroke);
        let sub_strokes = build_sub_strokes(stroke, &pivot_indexes, rect);
        res.push(AnalyzedStroke { points: &stroke.points, pivot_indexes, sub_strokes });
        i += 1;
    }
    res
}

/// The analysis is a function of the points drawn: two analyses of the
/// same strokes have the same pivots and the same sub-strokes, stroke by
/// stroke, and so the same list of sub-strokes.
pub proof fn law_analysis_is_repeatable(
    one: AnalyzedCharacter<'_>,
    other: AnalyzedCharacter<'_>,
    strokes: Seq<Seq<Point>>,
)
    requires
        one.analysis_of(strokes),
        other.analysis_of(strokes),
    ensures
        one@ == other@,
        one.sub_stroke_count == other.sub_stroke_count,
        one.analyzed_strokes@.len() == other.analyzed_strokes@.len(),
        forall|i: int|
            0 <= i < strokes.len() ==> {
                &&& (#[trigger] one.analyzed_strokes@[i]).pivot_indexes@
                    == other.analyzed_strokes@[i].pivot_indexes@
                &&& one.analyzed_strokes@[i].sub_strokes@ == other.analyzed_strokes@[i].sub_strokes@
                &&& one.analyzed_strokes@[i].points@ == other.analyzed_strokes@[i].points@
            },
{
    assert forall|i: int| 0 <= i < strokes.len() implies {
        &&& (#[trigger] one.analyzed_strokes@[i]).pivot_indexes@
            == other.analyzed_strokes@[i].pivot_indexes@
        &&& one.analyzed_strokes@[i].sub_strokes@ == other.analyzed_strokes@[i].sub_strokes@
        &&& one.analyzed_strokes@[i].points@ == other.analyzed_strokes@[i].points@
    } by {
        assert(analyzes(one.analyzed_strokes@[i], strokes[i], bounding_rect(strokes)));
        assert(analyzes(other.analyzed_strokes@[i], strokes[i], bounding_rect(strokes)));
    }
}

/// The normalized length is the nearest integer to 255 times the distance
/// over the diagonal of the square around the character: with `d2` the
/// squared distance and `s` the side of the square, the squares of twice
/// the length less one and of twice the length plus one, times `s * s`,
/// enclose `130050 * d2`.
pub proof fn lemma_normalized_length(a: Point, b: Point, rect: Rect)
    requires
        rect.side() > 0,
    ensures
        0 <= normalized_length(a, b, rect) <= 255,
        normalized_length(a, b, rect) >= 1 ==> (2 * normalized_length(a, b, rect) - 1) * (2
            * normalized_length(a, b, rect) - 1) * (rect.side() * rect.side()) <= 130050
            * squared_distance(a, b),
        normalized_length(a, b, rect) < 255 ==> 130050 * squared_distance(a, b) < (2
            * normalized_length(a, b, rect) + 1) * (2 * normalized_length(a, b, rect) + 1) * (
        rect.side() * rect.side()),
{
    lemma_squared_distance_bound(a, b);
    let d2 = squared_distance(a, b);
    let ss = rect.side() * rect.side();
    assert(ss > 0) by (nonlinear_arith)
        requires
            rect.side() > 0,
            ss == rect.side() * rect.side(),
    ;
    let n = 130050 * d2;
    let q = n / ss;
    assert(0 <= q && q * ss <= n < (q + 1) * ss) by (nonlinear_arith)
        requires
            n >= 0,
            ss > 0,
            q == n / ss,
    ;
    lemma_sqrt_floor(q);
    let twice = sqrt_floor(q);
    let k = (twice + 1) / 2;
    if k <= 255 {
        assert(normalized_length(a, b, rect) == k);
        if k >= 1 {
            assert((2 * k - 1) * (2 * k - 1) <= twice * twice) by (nonlinear_arith)
                requires
                    0 <= 2 * k - 1 <= twice,
            ;
            assert((2 * k - 1) * (2 * k - 1) * ss <= q * ss) by (nonlinear_arith)
                requires
                    (2 * k - 1) * (2 * k - 1) <= q,
                    ss > 0,
            ;
        }
        assert((twice + 1) * (twice + 1) <= (2 * k + 1) * (2 * k + 1)) by (nonlinear_arith)
            requires
                0 <= twice + 1 <= 2 * k + 1,
        ;
        assert((q + 1) * ss <= (2 * k + 1) * (2 * k + 1) * ss) by (nonlinear_arith)
            requires
                q + 1 <= (2 * k + 1) * (2 * k + 1),
                ss > 0,
        ;
    } else {
        assert(normalized_length(a, b, rect) == 255);
        assert(509 * 509 <= twice * twice) by (nonlinear_arith)
            requires
                509 <= twice,
        ;
        assert(509 * 509 * ss <= q * ss) by (nonlinear_arith)
            requires
                509 * 509 <= q,
                ss > 0,
        ;
    }
}

/// A grid position is the nearest integer to 15 times the position over
/// the side.
pub proof fn lemma_grid_position(offset: int, side: int)
    requires
        side > 0,
        0 <= offset <= 2 * side,
    ensures
        0 <= grid_position(offset, side) <= 15,
        (2 * grid_position(offset, side) - 1) * side <= 15 * offset < (2 * grid_position(
            offset,
            side,
        ) + 1) * side,
{
    let n = 15 * offset + side;
    let c = n / (2 * side);
    assert(0 <= c <= 15 && c * (2 * side) <= n < (c + 1) * (2 * side)) by (nonlinear_arith)
        requires
            side > 0,
            0 <= offset <= 2 * side,
            n == 15 * offset + side,
            c == n / (2 * side),
    ;
    assert((2 * c - 1) * side == c * (2 * side) - side && (2 * c + 1) * side == (c + 1) * (2
        * side) - side) by (nonlinear_arith);
}

} // verus!
