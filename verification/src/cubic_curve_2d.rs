//! Cubic curves in the plane, and the search for the point of a curve
//! with a given x.

use crate::fixed::floor_div;
use vstd::prelude::*;

verus! {

/// The curve parameter runs from 0 to `PARAM_SCALE`, which stands for 1.
pub const PARAM_SCALE: i128 = 0x1000_0000;

/// No coordinate of a curve is larger in magnitude than this.
pub const COORD_LIMIT: i128 = 0x1_0000_0000_0000_0000_0000_0000;

/// The point between `a` and `b` at the fraction `t / PARAM_SCALE` of the
/// way, rounded down.
pub open spec fn lerp(a: int, b: int, t: int) -> int {
    (a * (PARAM_SCALE - t) + b * t) / (PARAM_SCALE as int)
}

/// One coordinate of the cubic curve with the control values `c0`, `c1`,
/// `c2`, `c3` at the parameter `t`, by repeated interpolation.
pub open spec fn bezier(c0: int, c1: int, c2: int, c3: int, t: int) -> int {
    let q0 = lerp(c0, c1, t);
    let q1 = lerp(c1, c2, t);
    let q2 = lerp(c2, c3, t);
    let r0 = lerp(q0, q1, t);
    let r1 = lerp(q1, q2, t);
    lerp(r0, r1, t)
}

/// The smaller of two integers.
pub open spec fn min2(a: int, b: int) -> int {
    if a <= b {
        a
    } else {
        b
    }
}

/// The larger of two integers.
pub open spec fn max2(a: int, b: int) -> int {
    if a >= b {
        a
    } else {
        b
    }
}

/// An interpolated point lies between the two points, and at them for the
/// parameters 0 and `PARAM_SCALE`.
pub proof fn lemma_lerp(a: int, b: int, t: int)
    requires
        0 <= t <= PARAM_SCALE,
    ensures
        min2(a, b) <= lerp(a, b, t) <= max2(a, b),
        lerp(a, b, 0) == a,
        lerp(a, b, PARAM_SCALE as int) == b,
{
    let lo = min2(a, b);
    let hi = max2(a, b);
    let n = a * (PARAM_SCALE - t) + b * t;
    assert(lo * PARAM_SCALE <= n <= hi * PARAM_SCALE) by (nonlinear_arith)
        requires
            0 <= t <= PARAM_SCALE,
            lo <= a <= hi,
            lo <= b <= hi,
            n == a * (PARAM_SCALE - t) + b * t,
    ;
    assert(a * (PARAM_SCALE - 0) + b * 0 == a * PARAM_SCALE) by (nonlinear_arith);
    assert(a * (PARAM_SCALE - PARAM_SCALE) + b * PARAM_SCALE == b * PARAM_SCALE)
        by (nonlinear_arith);
}

/// A point of a cubic curve lies between the smallest and the largest
/// control value; the curve starts at the first and ends at the last.
pub proof fn lemma_bezier(c0: int, c1: int, c2: int, c3: int, t: int)
    requires
        0 <= t <= PARAM_SCALE,
    ensures
        min2(min2(c0, c1), min2(c2, c3)) <= bezier(c0, c1, c2, c3, t) <= max2(
            max2(c0, c1),
            max2(c2, c3),
        ),
        bezier(c0, c1, c2, c3, 0) == c0,
        bezier(c0, c1, c2, c3, PARAM_SCALE as int) == c3,
{
    let q0 = lerp(c0, c1, t);
    let q1 = lerp(c1, c2, t);
    let q2 = lerp(c2, c3, t);
    let r0 = lerp(q0, q1, t);
    let r1 = lerp(q1, q2, t);
    lemma_lerp(c0, c1, t);
    lemma_lerp(c1, c2, t);
    lemma_lerp(c2, c3, t);
    lemma_lerp(q0, q1, t);
    lemma_lerp(q1, q2, t);
    lemma_lerp(r0, r1, t);
    lemma_lerp(c0, c1, 0);
    lemma_lerp(c1, c2, 0);
    lemma_lerp(c2, c3, 0);
    lemma_lerp(c0, c1, PARAM_SCALE as int);
    lemma_lerp(c1, c2, PARAM_SCALE as int);
    lemma_lerp(c2, c3, PARAM_SCALE as int);
    lemma_lerp(c0, c2, PARAM_SCALE as int);
    lemma_lerp(c1, c3, PARAM_SCALE as int);
    lemma_lerp(c0, c3, PARAM_SCALE as int);
}

/// Computes the point between `a` and `b` at the parameter `t`.
fn interpolate(a: i128, b: i128, t: i128) -> (r: i128)
    requires
        -COORD_LIMIT <= a <= COORD_LIMIT,
        -COORD_LIMIT <= b <= COORD_LIMIT,
        0 <= t <= PARAM_SCALE,
    ensures
        r == lerp(a as int, b as int, t as int),
        min2(a as int, b as int) <= r <= max2(a as int, b as int),
{
    proof {
        lemma_lerp(a as int, b as int, t as int);
    }
    let u: i128 = PARAM_SCALE - t;
    assert(-COORD_LIMIT * PARAM_SCALE <= a * u <= COORD_LIMIT * PARAM_SCALE) by (nonlinear_arith)
        requires
            -COORD_LIMIT <= a <= COORD_LIMIT,
            0 <= u <= PARAM_SCALE,
    ;
    assert(-COORD_LIMIT * PARAM_SCALE <= b * t <= COORD_LIMIT * PARAM_SCALE) by (nonlinear_arith)
        requires
            -COORD_LIMIT <= b <= COORD_LIMIT,
            0 <= t <= PARAM_SCALE,
    ;
    floor_div(a * u + b * t, PARAM_SCALE)
}

/// Computes one coordinate of a cubic curve at the parameter `t`.
fn cubic(c0: i128, c1: i128, c2: i128, c3: i128, t: i128) -> (r: i128)
    requires
        -COORD_LIMIT <= c0 <= COORD_LIMIT,
        -COORD_LIMIT <= c1 <= COORD_LIMIT,
        -COORD_LIMIT <= c2 <= COORD_LIMIT,
        -COORD_LIMIT <= c3 <= COORD_LIMIT,
        0 <= t <= PARAM_SCALE,
    ensures
        r == bezier(c0 as int, c1 as int, c2 as int, c3 as int, t as int),
{
    let q0 = interpolate(c0, c1, t);
    let q1 = interpolate(c1, c2, t);
    let q2 = interpolate(c2, c3, t);
    let r0 = interpolate(q0, q1, t);
    let r1 = interpolate(q1, q2, t);
    interpolate(r0, r1, t)
}

/// A cubic curve from `(x1, y1)` to `(x2, y2)` that is drawn towards the
/// control points `(ctrlx1, ctrly1)` and `(ctrlx2, ctrly2)`. The
/// coordinates are fixed-point numbers.
pub struct CubicCurve2D {
    pub x1: i128,
    pub y1: i128,
    pub ctrlx1: i128,
    pub ctrly1: i128,
    pub ctrlx2: i128,
    pub ctrly2: i128,
    pub x2: i128,
    pub y2: i128,
}

/// The magnitude of `v` is at most [`COORD_LIMIT`].
pub open spec fn within_limit(v: i128) -> bool {
    -COORD_LIMIT <= v <= COORD_LIMIT
}

impl CubicCurve2D {
    /// All coordinates are within [`COORD_LIMIT`].
    pub open spec fn wf(&self) -> bool {
        &&& within_limit(self.x1)
        &&& within_limit(self.y1)
        &&& within_limit(self.ctrlx1)
        &&& within_limit(self.ctrly1)
        &&& within_limit(self.ctrlx2)
        &&& within_limit(self.ctrly2)
        &&& within_limit(self.x2)
        &&& within_limit(self.y2)
    }

    /// The x coordinate of the curve's point at the parameter `t`.
    pub open spec fn x_at(&self, t: int) -> int {
        bezier(self.x1 as int, self.ctrlx1 as int, self.ctrlx2 as int, self.x2 as int, t)
    }

    /// The y coordinate of the curve's point at the parameter `t`.
    pub open spec fn y_at(&self, t: int) -> int {
        bezier(self.y1 as int, self.ctrly1 as int, self.ctrly2 as int, self.y2 as int, t)
    }

    /// At the parameter `t` the curve has reached `x`, and just after it
    /// the curve is beyond `x`, unless `t` is the end of the curve.
    pub open spec fn crosses(&self, x: int, t: int) -> bool {
        &&& 0 <= t <= PARAM_SCALE
        &&& self.x_at(t) <= x
        &&& t < PARAM_SCALE ==> x < self.x_at(t + 1)
    }

    /// The parameter that bisection finds between `lo`, where the curve has
    /// reached `x`, and `hi`, where it is beyond.
    pub open spec fn bisected(&self, x: int, lo: int, hi: int) -> int
        decreases hi - lo,
    {
        if hi - lo <= 1 {
            lo
        } else if self.x_at((lo + hi) / 2) <= x {
            self.bisected(x, (lo + hi) / 2, hi)
        } else {
            self.bisected(x, lo, (lo + hi) / 2)
        }
    }

    /// The parameter that bisection of the whole parameter range finds for
    /// `x`.
    pub open spec fn solution(&self, x: int) -> int {
        self.bisected(x, 0, PARAM_SCALE + 1)
    }

    /// The parameter that [`Self::solve_for_x`] finds for `x`: none if the
    /// curve starts beyond `x`.
    pub open spec fn solved(&self, x: int) -> Option<int> {
        if self.x1 <= x {
            Some(self.solution(x))
        } else {
            None
        }
    }

    /// The parameter that [`Self::get_first_solution_for_x`] finds for
    /// `x`: none if the curve starts beyond `x` or ends before it.
    pub open spec fn first_solution(&self, x: int) -> Option<int> {
        if x <= self.x2 {
            self.solved(x)
        } else {
            None
        }
    }

    /// Bisection between a point that has reached `x` and one beyond it
    /// ends at a point where the curve crosses `x`.
    pub proof fn lemma_bisected(&self, x: int, lo: int, hi: int)
        requires
            0 <= lo < hi <= PARAM_SCALE + 1,
            self.x_at(lo) <= x,
            hi <= PARAM_SCALE ==> x < self.x_at(hi),
        ensures
            self.crosses(x, self.bisected(x, lo, hi)),
            lo <= self.bisected(x, lo, hi) < hi,
        decreases hi - lo,
    {
        if hi - lo > 1 {
            let mid = (lo + hi) / 2;
            if self.x_at(mid) <= x {
                self.lemma_bisected(x, mid, hi);
            } else {
                self.lemma_bisected(x, lo, mid);
            }
        }
    }

    /// A curve through the given points.
    pub fn new(
        x1: i128,
        y1: i128,
        ctrlx1: i128,
        ctrly1: i128,
        ctrlx2: i128,
        ctrly2: i128,
        x2: i128,
        y2: i128,
    ) -> (curve: CubicCurve2D)
        ensures
            curve == (CubicCurve2D { x1, y1, ctrlx1, ctrly1, ctrlx2, ctrly2, x2, y2 }),
    {
        CubicCurve2D { x1, y1, ctrlx1, ctrly1, ctrlx2, ctrly2, x2, y2 }
    }

    /// Finds a parameter at which the curve crosses `x`, by bisection of
    /// the parameter range. There is none if the curve starts beyond `x`.
    /// If the curve ends before `x`, the parameter is the end of the curve.
    /// A curve whose x grows along the curve crosses `x` once only.
    pub fn solve_for_x(&self, x: i128) -> (t: Option<i128>)
        requires
            self.wf(),
        ensures
            t is Some <==> self.x1 <= x,
            t is Some ==> self.solved(x as int) == Some(t->Some_0 as int) && self.crosses(
                x as int,
                t->Some_0 as int,
            ),
            t is None ==> self.solved(x as int) is None,
            t is Some && x_never_falls(*self) ==> forall|other: int|
                self.crosses(x as int, other) ==> other == t->Some_0,
    {
        if x < self.x1 {
            return None;
        }
        proof {
            if x_never_falls(*self) {
                assert forall|other: int| self.crosses(x as int, other) implies other
                    == self.solution(x as int) by {
                    lemma_bezier(
                        self.x1 as int,
                        self.ctrlx1 as int,
                        self.ctrlx2 as int,
                        self.x2 as int,
                        0,
                    );
                    self.lemma_bisected(x as int, 0, PARAM_SCALE + 1);
                    lemma_one_crossing(*self, x as int, other, self.solution(x as int));
                }
            }
            lemma_bezier(
                self.x1 as int,
                self.ctrlx1 as int,
                self.ctrlx2 as int,
                self.x2 as int,
                0,
            );
            self.lemma_bisected(x as int, 0, PARAM_SCALE + 1);
        }
        let mut lo: i128 = 0;
        let mut hi: i128 = PARAM_SCALE + 1;
        while hi - lo > 1
            invariant
                self.wf(),
                0 <= lo < hi <= PARAM_SCALE + 1,
                self.bisected(x as int, lo as int, hi as int) == self.solution(x as int),
            decreases hi - lo,
        {
            let mid: i128 = (lo + hi) / 2;
            if cubic(self.x1, self.ctrlx1, self.ctrlx2, self.x2, mid) <= x {
                lo = mid;
            } else {
                hi = mid;
            }
        }
        Some(lo)
    }

    /// Finds a parameter at which the curve crosses `x`, if the curve
    /// starts at or before `x` and ends at or after it.
    pub fn get_first_solution_for_x(&self, x: i128) -> (t: Option<i128>)
        requires
            self.wf(),
        ensures
            t is Some <==> self.x1 <= x <= self.x2,
            t is Some ==> self.first_solution(x as int) == Some(t->Some_0 as int) && self.crosses(
                x as int,
                t->Some_0 as int,
            ),
            t is None ==> self.first_solution(x as int) is None,
    {
        if x <= self.x2 {
            self.solve_for_x(x)
        } else {
            None
        }
    }

    /// The y coordinate of the curve's point at the parameter `t`.
    pub fn get_y_on_curve(&self, t: i128) -> (y: i128)
        requires
            self.wf(),
            0 <= t <= PARAM_SCALE,
        ensures
            y == self.y_at(t as int),
            min2(min2(self.y1 as int, self.ctrly1 as int), min2(self.ctrly2 as int, self.y2 as int))
                <= y <= max2(
                max2(self.y1 as int, self.ctrly1 as int),
                max2(self.ctrly2 as int, self.y2 as int),
            ),
    {
        proof {
            lemma_bezier(
                self.y1 as int,
                self.ctrly1 as int,
                self.ctrly2 as int,
                self.y2 as int,
                t as int,
            );
        }
        cubic(self.y1, self.ctrly1, self.ctrly2, self.y2, t)
    }
}

/// The x of the curve does not fall from any parameter to the next.
pub open spec fn x_never_falls(curve: CubicCurve2D) -> bool {
    forall|t: int| 0 <= t < PARAM_SCALE ==> curve.x_at(t) <= #[trigger] curve.x_at(t + 1)
}

/// On a curve whose x never falls, the x at an earlier parameter is at
/// most the x at a later one.
pub proof fn lemma_x_grows(curve: CubicCurve2D, from: int, to: int)
    requires
        x_never_falls(curve),
        0 <= from <= to <= PARAM_SCALE,
    ensures
        curve.x_at(from) <= curve.x_at(to),
    decreases to - from,
{
    if from < to {
        lemma_x_grows(curve, from, to - 1);
        assert(curve.x_at(to - 1) <= curve.x_at(to - 1 + 1));
    }
}

/// A curve whose x never falls crosses an x at one parameter only: what
/// [`CubicCurve2D::solve_for_x`] finds is the solution.
pub proof fn lemma_one_crossing(curve: CubicCurve2D, x: int, t1: int, t2: int)
    requires
        x_never_falls(curve),
        curve.crosses(x, t1),
        curve.crosses(x, t2),
    ensures
        t1 == t2,
{
    if t1 < t2 {
        lemma_x_grows(curve, t1 + 1, t2);
    } else if t2 < t1 {
        lemma_x_grows(curve, t2 + 1, t1);
    }
}

} // verus!
