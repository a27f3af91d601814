//! Matching an analyzed character against the reference characters.

use crate::analyzed_character::{character_sub_strokes, stroke_points, AnalyzedCharacter};
use crate::cubic_curve_2d::{lemma_bezier, max2, min2, CubicCurve2D, PARAM_SCALE};
use crate::entities::SubStroke;
use crate::fixed::{
    floor_div, integer_sqrt, lemma_sqrt_floor, lemma_sqrt_floor_of_square, sqrt_floor, SCALE,
};
use crate::match_collector::{filed, has_hanzi, well_formed, MatchCollector};
use crate::{Match, Point, Stroke};
use vstd::prelude::*;

verus! {

/// No reference character has more strokes than this.
pub const MAX_CHARACTER_STROKE_COUNT: usize = 48;

/// No reference character has more sub-strokes than this.
pub const MAX_CHARACTER_SUB_STROKE_COUNT: usize = 64;

/// How far the stroke counts of input and reference may differ, on a scale
/// from 0 (not at all) to 1 (by any number): 0.15.
pub const DEFAULT_LOOSENESS: i64 = 153_600_000;

/// The average length of a sub-stroke, where 1 is the longest: 0.33.
pub const AVG_SUBSTROKE_LENGTH: i64 = 337_920_000;

/// What skipping a sub-stroke costs, as a multiple of its length: 1.75.
pub const SKIP_PENALTY_MULTIPLIER: i64 = 1_792_000_000;

/// The largest bonus for a reference character with as many strokes as the
/// input, as a fraction of the score: 0.1.
pub const CORRECT_NUM_STROKES_BONUS: i64 = 102_400_000;

/// Characters with this many strokes or more get no such bonus.
pub const CORRECT_NUM_STROKES_CAP: usize = 10;

/// No coordinate of a curve that is sampled into a score table is larger
/// in magnitude than this.
pub const SAMPLED_LIMIT: i128 = 0x100_0000_0000;

/// One sub-stroke of a reference character.
#[derive(Debug, Clone, Copy, PartialEq, Eq, Structural)]
pub struct SubStrokeTriple {
    /// Direction, as in [`SubStroke`].
    pub dir: u8,
    /// Length, as in [`SubStroke`].
    pub length: u8,
    /// The center: the column in the high four bits, the row in the low.
    pub center: u8,
}

/// One character of the reference database.
#[derive(Debug)]
pub struct CharData {
    pub hanzi: char,
    pub stroke_count: u16,
    pub sub_strokes: Vec<SubStrokeTriple>,
}

/// The three tables from which the score of a pair of sub-strokes is read.
pub struct ScoreTables {
    /// By the difference of two directions.
    pub direction: Seq<i64>,
    /// By the ratio of the shorter length to the longer, in steps of 1/128.
    pub length: Seq<i64>,
    /// By the squared distance of two centers on the grid.
    pub pos: Seq<i64>,
}

/// The curve of the direction score over the difference of two
/// directions, where 1 is the full turn: high where the directions agree,
/// negative around a quarter turn, and a little above zero at the half
/// turn, for a sub-stroke drawn backwards. It runs from `(0, 1)` to
/// `(1, 1)` with the control points `(0.5, 1)` and `(0.25, -2)`.
pub open spec fn direction_curve() -> CubicCurve2D {
    CubicCurve2D {
        x1: 0,
        y1: 1_024_000_000,
        ctrlx1: 512_000_000,
        ctrly1: 1_024_000_000,
        ctrlx2: 256_000_000,
        ctrly2: -2_048_000_000i128,
        x2: 1_024_000_000,
        y2: 1_024_000_000,
    }
}

/// The curve of the length score over the ratio of the shorter length to
/// the longer: it rises fast and levels off early. It runs from `(0, 0)`
/// to `(1, 1)` with the control points `(0.25, 1)` and `(0.75, 1)`.
pub open spec fn length_curve() -> CubicCurve2D {
    CubicCurve2D {
        x1: 0,
        y1: 0,
        ctrlx1: 256_000_000,
        ctrly1: 1_024_000_000,
        ctrlx2: 768_000_000,
        ctrly2: 1_024_000_000,
        x2: 1_024_000_000,
        y2: 1_024_000_000,
    }
}

/// The curve can be sampled into a score table: its coordinates are within
/// [`SAMPLED_LIMIT`] and it does not end before it starts.
pub open spec fn can_be_sampled(curve: CubicCurve2D) -> bool {
    &&& curve.x1 <= curve.x2
    &&& -SAMPLED_LIMIT <= curve.x1 <= SAMPLED_LIMIT
    &&& -SAMPLED_LIMIT <= curve.y1 <= SAMPLED_LIMIT
    &&& -SAMPLED_LIMIT <= curve.ctrlx1 <= SAMPLED_LIMIT
    &&& -SAMPLED_LIMIT <= curve.ctrly1 <= SAMPLED_LIMIT
    &&& -SAMPLED_LIMIT <= curve.ctrlx2 <= SAMPLED_LIMIT
    &&& -SAMPLED_LIMIT <= curve.ctrly2 <= SAMPLED_LIMIT
    &&& -SAMPLED_LIMIT <= curve.x2 <= SAMPLED_LIMIT
    &&& -SAMPLED_LIMIT <= curve.y2 <= SAMPLED_LIMIT
}

/// The x of the sample `i` out of `samples` that are spread evenly from
/// the start of the curve towards its end.
pub open spec fn sample_x(curve: CubicCurve2D, samples: int, i: int) -> int {
    curve.x1 + (curve.x2 - curve.x1) * i / samples
}

/// The y of the curve where it crosses the x of the sample `i`.
pub open spec fn curve_sample(curve: CubicCurve2D, samples: int, i: int) -> int {
    y_at_x(curve, sample_x(curve, samples, i))
}

/// The y of the curve where it crosses `x`, or 0 if the curve does not
/// reach from before `x` to after it.
pub open spec fn y_at_x(curve: CubicCurve2D, x: int) -> int {
    match curve.first_solution(x) {
        Some(t) => curve.y_at(t),
        None => 0,
    }
}

/// The score for two centers at the squared distance `i`: one minus the
/// distance over 22.
pub open spec fn position_score(i: int) -> int {
    SCALE - sqrt_floor(i * SCALE * SCALE) / 22
}

/// The score tables of the matcher.
pub open spec fn score_tables() -> ScoreTables {
    ScoreTables {
        direction: Seq::new(256, |i: int| curve_sample(direction_curve(), 256, i) as i64),
        length: Seq::new(129, |i: int| curve_sample(length_curve(), 129, i) as i64),
        pos: Seq::new(450, |i: int| position_score(i) as i64),
    }
}

/// The tables have the sizes 256, 129 and 450, the score for centers at
/// the same place is 1, and every entry is within the range that the
/// scoring relies on.
pub open spec fn tables_wf(tables: ScoreTables) -> bool {
    &&& tables.direction.len() == 256
    &&& tables.length.len() == 129
    &&& tables.pos.len() == 450
    &&& tables.pos[0] == SCALE
    &&& forall|i: int|
        0 <= i < 256 ==> -2 * SCALE <= #[trigger] tables.direction[i] <= SCALE
    &&& forall|i: int| 0 <= i < 129 ==> 0 <= #[trigger] tables.length[i] <= SCALE
    &&& forall|i: int| 0 <= i < 450 ==> SCALE / 64 <= #[trigger] tables.pos[i] <= SCALE
}

/// The x of a sample lies on the curve's range of x.
pub proof fn lemma_sample_x(curve: CubicCurve2D, samples: int, i: int)
    requires
        curve.x1 <= curve.x2,
        0 <= i < samples,
    ensures
        curve.x1 <= sample_x(curve, samples, i) <= curve.x2,
{
    let w = curve.x2 - curve.x1;
    assert(0 <= w * i / samples <= w) by (nonlinear_arith)
        requires
            0 <= w,
            0 <= i < samples,
    ;
}

/// A sample of a curve lies between its smallest and largest control y.
pub proof fn lemma_curve_sample(curve: CubicCurve2D, samples: int, i: int)
    requires
        curve.x1 <= curve.x2,
        0 <= i < samples,
    ensures
        min2(
            min2(curve.y1 as int, curve.ctrly1 as int),
            min2(curve.ctrly2 as int, curve.y2 as int),
        ) <= curve_sample(curve, samples, i) <= max2(
            max2(curve.y1 as int, curve.ctrly1 as int),
            max2(curve.ctrly2 as int, curve.y2 as int),
        ),
{
    lemma_sample_x(curve, samples, i);
    let x = sample_x(curve, samples, i);
    lemma_bezier(curve.x1 as int, curve.ctrlx1 as int, curve.ctrlx2 as int, curve.x2 as int, 0);
    curve.lemma_bisected(x, 0, PARAM_SCALE + 1);
    lemma_bezier(
        curve.y1 as int,
        curve.ctrly1 as int,
        curve.ctrly2 as int,
        curve.y2 as int,
        curve.solution(x),
    );
}

/// The position score is 1 at the distance 0, and stays above 1/64 up to
/// the squared distance 449.
pub proof fn lemma_position_score(i: int)
    requires
        0 <= i < 450,
    ensures
        SCALE / 64 <= position_score(i) <= SCALE,
        position_score(0) == SCALE,
{
    let n = i * SCALE * SCALE;
    assert(0 <= n <= 449 * SCALE * SCALE) by (nonlinear_arith)
        requires
            0 <= i <= 449,
            n == i * SCALE * SCALE,
    ;
    lemma_sqrt_floor(n);
    let r = sqrt_floor(n);
    if r >= 22_176_000_000 {
        assert(r * r >= 22_176_000_000 * 22_176_000_000) by (nonlinear_arith)
            requires
                r >= 22_176_000_000,
        ;
    }
    lemma_sqrt_floor_of_square(0);
    assert(0 * SCALE * SCALE == 0);
}

/// The matcher's score tables are well-formed.
pub proof fn lemma_score_tables()
    ensures
        tables_wf(score_tables()),
{
    let t = score_tables();
    assert forall|i: int| 0 <= i < 256 implies -2 * SCALE <= #[trigger] t.direction[i]
        <= SCALE by {
        lemma_curve_sample(direction_curve(), 256, i);
    }
    assert forall|i: int| 0 <= i < 129 implies 0 <= #[trigger] t.length[i] <= SCALE by {
        lemma_curve_sample(length_curve(), 129, i);
    }
    assert forall|i: int| 0 <= i < 450 implies SCALE / 64 <= #[trigger] t.pos[i] <= SCALE by {
        lemma_position_score(i);
    }
    lemma_position_score(0);
}

/// Fills a score table with samples of a curve, spread evenly over the
/// curve's range of x.
pub fn init_sc_from_curve(score_table: &mut Vec<i64>, curve: &CubicCurve2D, samples: usize)
    requires
        can_be_sampled(*curve),
    ensures
        final(score_table)@.len() == samples,
        forall|i: int|
            0 <= i < samples ==> #[trigger] final(score_table)@[i] == curve_sample(
                *curve,
                samples as int,
                i,
            ),
{
    score_table.clear();
    let range: i128 = curve.x2 - curve.x1;
    let mut i: usize = 0;
    while i < samples
        invariant
            0 <= i <= samples,
            can_be_sampled(*curve),
            range == curve.x2 - curve.x1,
            score_table@.len() == i,
            forall|k: int|
                0 <= k < i ==> #[trigger] score_table@[k] == curve_sample(
                    *curve,
                    samples as int,
                    k,
                ),
        decreases samples - i,
    {
        proof {
            lemma_sample_x(*curve, samples as int, i as int);
            lemma_curve_sample(*curve, samples as int, i as int);
        }
        assert(0 <= range * i <= 0x200_0000_0000 * 0x1_0000_0000_0000_0000) by (nonlinear_arith)
            requires
                0 <= range <= 0x200_0000_0000,
                0 <= i <= 0x1_0000_0000_0000_0000,
        ;
        let x: i128 = curve.x1 + range * (i as i128) / (samples as i128);
        let y: i128 = match curve.get_first_solution_for_x(x) {
            Some(t) => curve.get_y_on_curve(t),
            None => 0,
        };
        score_table.push(y as i64);
        i += 1;
    }
}

/// Builds the three score tables.
pub fn init_score_tables(
    direction_score_table: &mut Vec<i64>,
    length_score_table: &mut Vec<i64>,
    pos_score_table: &mut Vec<i64>,
)
    ensures
        final(direction_score_table)@ == score_tables().direction,
        final(length_score_table)@ == score_tables().length,
        final(pos_score_table)@ == score_tables().pos,
        final(direction_score_table)@.len() == 256,
        final(length_score_table)@.len() == 129,
        final(pos_score_table)@.len() == 450,
        final(pos_score_table)@[0] == SCALE,
{
    let curve = CubicCurve2D::new(
        0,
        1_024_000_000,
        512_000_000,
        1_024_000_000,
        256_000_000,
        -2_048_000_000,
        1_024_000_000,
        1_024_000_000,
    );
    init_sc_from_curve(direction_score_table, &curve, 256);
    assert(direction_score_table@ =~= score_tables().direction);
    let curve = CubicCurve2D::new(
        0,
        0,
        256_000_000,
        1_024_000_000,
        768_000_000,
        1_024_000_000,
        1_024_000_000,
        1_024_000_000,
    );
    init_sc_from_curve(length_score_table, &curve, 129);
    assert(length_score_table@ =~= score_tables().length);
    pos_score_table.clear();
    let mut i: u128 = 0;
    while i < 450
        invariant
            0 <= i <= 450,
            pos_score_table@.len() == i,
            forall|k: int| 0 <= k < i ==> #[trigger] pos_score_table@[k] == position_score(k),
        decreases 450 - i,
    {
        proof {
            lemma_position_score(i as int);
        }
        assert(i * 1_024_000_000 * 1_024_000_000 <= 449 * 1_024_000_000 * 1_024_000_000)
            by (nonlinear_arith)
            requires
                0 <= i <= 449,
        ;
        let root: u128 = integer_sqrt(i * 1_024_000_000 * 1_024_000_000);
        pos_score_table.push((1_024_000_000 - root / 22) as i64);
        i += 1;
    }
    assert(pos_score_table@ =~= score_tables().pos);
    proof {
        lemma_position_score(0);
    }
}

/// The curve of the stroke range over the looseness, for an input of
/// `stroke_count` strokes: it grows slowly at first and fast towards the
/// end. It runs from `(0, 0)` to `(1, MAX_CHARACTER_STROKE_COUNT)` with the
/// control points `(0.35, 0.4 * stroke_count)` and `(0.6, stroke_count)`.
pub open spec fn strokes_curve(stroke_count: int) -> CubicCurve2D {
    CubicCurve2D {
        x1: 0,
        y1: 0,
        ctrlx1: 358_400_000,
        ctrly1: (stroke_count * 409_600_000) as i128,
        ctrlx2: 614_400_000,
        ctrly2: (stroke_count * SCALE) as i128,
        x2: 1_024_000_000,
        y2: (MAX_CHARACTER_STROKE_COUNT * SCALE) as i128,
    }
}

/// The curve of the sub-stroke range over the looseness, for an input of
/// `sub_stroke_count` sub-strokes. With `y0` a quarter of that count, it
/// runs from `(0, y0)` to `(1, MAX_CHARACTER_SUB_STROKE_COUNT)` with the
/// control points `(0.4, 1.5 * y0)` and `(0.75, 2.25 * y0)`.
pub open spec fn sub_strokes_curve(sub_stroke_count: int) -> CubicCurve2D {
    CubicCurve2D {
        x1: 0,
        y1: (sub_stroke_count * 256_000_000) as i128,
        ctrlx1: 409_600_000,
        ctrly1: (sub_stroke_count * 384_000_000) as i128,
        ctrlx2: 768_000_000,
        ctrly2: (sub_stroke_count * 576_000_000) as i128,
        x2: 1_024_000_000,
        y2: (MAX_CHARACTER_SUB_STROKE_COUNT * SCALE) as i128,
    }
}

/// The fixed-point number `y`, rounded to the nearest integer.
pub open spec fn rounded(y: int) -> int {
    (y + SCALE / 2) / (SCALE as int)
}

/// The y of the curve where it crosses `x`, rounded to the nearest
/// integer, or 0 if the curve does not reach from before `x` to after it.
pub open spec fn rounded_y_at_x(curve: CubicCurve2D, x: int) -> int {
    rounded(y_at_x(curve, x))
}

/// By how many strokes a reference character may differ from an input of
/// `stroke_count` strokes at the given looseness.
pub open spec fn strokes_range_at(stroke_count: int, looseness: int) -> int {
    if looseness == 0 {
        0
    } else if looseness == SCALE {
        MAX_CHARACTER_STROKE_COUNT as int
    } else {
        rounded_y_at_x(strokes_curve(stroke_count), looseness)
    }
}

/// By how many sub-strokes a reference character may differ from an input
/// of `sub_stroke_count` sub-strokes at the given looseness, and how far
/// apart in sequence two sub-strokes may be that are compared.
pub open spec fn sub_strokes_range_at(sub_stroke_count: int, looseness: int) -> int {
    if looseness == SCALE {
        MAX_CHARACTER_SUB_STROKE_COUNT as int
    } else {
        rounded_y_at_x(sub_strokes_curve(sub_stroke_count), looseness)
    }
}

/// Computes the rounded y of a curve above the x axis at `x`.
fn rounded_y(curve: &CubicCurve2D, x: i128, top: usize) -> (res: usize)
    requires
        curve.wf(),
        0 <= curve.y1 <= top * SCALE,
        0 <= curve.ctrly1 <= top * SCALE,
        0 <= curve.ctrly2 <= top * SCALE,
        0 <= curve.y2 <= top * SCALE,
    ensures
        res == rounded_y_at_x(*curve, x as int),
        res <= top,
{
    match curve.get_first_solution_for_x(x) {
        Some(t) => {
            let y: i128 = curve.get_y_on_curve(t);
            assert(0 <= y <= top * SCALE);
            assert(top * SCALE <= 0x1_0000_0000_0000_0000 * SCALE) by (nonlinear_arith)
                requires
                    0 <= top <= 0x1_0000_0000_0000_0000,
            ;
            let res: i128 = (y + 512_000_000) / 1_024_000_000;
            res as usize
        },
        None => 0,
    }
}

/// Computes the stroke range.
pub fn get_strokes_range(stroke_count: usize, looseness: i64) -> (res: usize)
    ensures
        res == strokes_range_at(stroke_count as int, looseness as int),
        looseness == 0 ==> res == 0,
        looseness == SCALE ==> res == MAX_CHARACTER_STROKE_COUNT,
        res <= stroke_count || res <= MAX_CHARACTER_STROKE_COUNT,
{
    if looseness == 0 {
        return 0;
    }
    if looseness == SCALE {
        return MAX_CHARACTER_STROKE_COUNT;
    }
    let n: i128 = stroke_count as i128;
    assert(n * 409_600_000 <= n * 1_024_000_000 <= 0x1_0000_0000_0000_0000 * 1_024_000_000)
        by (nonlinear_arith)
        requires
            0 <= n <= 0x1_0000_0000_0000_0000,
    ;
    let curve = CubicCurve2D::new(
        0,
        0,
        358_400_000,
        n * 409_600_000,
        614_400_000,
        n * 1_024_000_000,
        1_024_000_000,
        49_152_000_000,
    );
    let top: usize = if stroke_count > MAX_CHARACTER_STROKE_COUNT {
        stroke_count
    } else {
        MAX_CHARACTER_STROKE_COUNT
    };
    assert(n * 1_024_000_000 <= top * SCALE && 49_152_000_000 <= top * SCALE)
        by (nonlinear_arith)
        requires
            0 <= n <= top,
            48 <= top,
    ;
    rounded_y(&curve, looseness as i128, top)
}

/// Computes the sub-stroke range.
pub fn get_sub_strokes_range(sub_stroke_count: usize, looseness: i64) -> (res: usize)
    ensures
        res == sub_strokes_range_at(sub_stroke_count as int, looseness as int),
        looseness == SCALE ==> res == MAX_CHARACTER_SUB_STROKE_COUNT,
        res <= sub_stroke_count || res <= MAX_CHARACTER_SUB_STROKE_COUNT,
{
    if looseness == SCALE {
        return MAX_CHARACTER_SUB_STROKE_COUNT;
    }
    let m: i128 = sub_stroke_count as i128;
    assert(m * 256_000_000 <= m * 384_000_000 <= m * 576_000_000 <= m * 1_024_000_000
        <= 0x1_0000_0000_0000_0000 * 1_024_000_000) by (nonlinear_arith)
        requires
            0 <= m <= 0x1_0000_0000_0000_0000,
    ;
    let curve = CubicCurve2D::new(
        0,
        m * 256_000_000,
        409_600_000,
        m * 384_000_000,
        768_000_000,
        m * 576_000_000,
        1_024_000_000,
        65_536_000_000,
    );
    let top: usize = if sub_stroke_count > MAX_CHARACTER_SUB_STROKE_COUNT {
        sub_stroke_count
    } else {
        MAX_CHARACTER_SUB_STROKE_COUNT
    };
    assert(m * 1_024_000_000 <= top * SCALE && 65_536_000_000 <= top * SCALE)
        by (nonlinear_arith)
        requires
            0 <= m <= top,
            64 <= top,
    ;
    rounded_y(&curve, looseness as i128, top)
}

/// The score for the directions of two sub-strokes. A short input
/// sub-stroke gets a bonus, since the direction of a dot says little: of
/// what is missing to the score 1, and at most 1, the part by which its
/// length falls short of 64.
pub open spec fn direction_score(
    tables: ScoreTables,
    direction1: u8,
    direction2: u8,
    input_length: u8,
) -> int {
    let theta = if direction1 >= direction2 {
        direction1 - direction2
    } else {
        direction2 - direction1
    };
    let score = tables.direction[theta] as int;
    if input_length < 64 {
        let bonus_max = if SCALE - score < SCALE {
            SCALE - score
        } else {
            SCALE as int
        };
        score + bonus_max * (64 - input_length) / 64
    } else {
        score
    }
}

/// The shorter of two lengths over the longer, times 128 and rounded to
/// the nearest integer; 0 if both are 0.
pub open spec fn length_ratio(length1: u8, length2: u8) -> int {
    if length1 > length2 {
        (256 * length2 + length1) / (2 * length1)
    } else if length2 == 0 {
        0
    } else {
        (256 * length1 + length2) / (2 * length2)
    }
}

/// The score for the lengths of two sub-strokes.
pub open spec fn length_score(tables: ScoreTables, length1: u8, length2: u8) -> int {
    tables.length[length_ratio(length1, length2)] as int
}

/// The score for the centers of two sub-strokes, by their squared
/// distance. Distances beyond the table get the table's last score.
pub open spec fn closeness(tables: ScoreTables, input_center: Point, repo_center: Point) -> int {
    let dx = input_center.x - repo_center.x;
    let dy = input_center.y - repo_center.y;
    let d2 = dx * dx + dy * dy;
    tables.pos[if d2 < 450 {
        d2
    } else {
        449
    }] as int
}

/// The score for a pair of sub-strokes: the product of the length score
/// and the direction score, made smaller by the distance of the centers if
/// it is positive, and more negative if it is not.
pub open spec fn sub_stroke_score(
    tables: ScoreTables,
    input_direction: u8,
    input_length: u8,
    repo_direction: u8,
    repo_length: u8,
    input_center: Point,
    repo_center: Point,
) -> int {
    let raw = length_score(tables, input_length, repo_length) * direction_score(
        tables,
        input_direction,
        repo_direction,
        input_length,
    ) / (SCALE as int);
    if raw > 0 {
        raw * closeness(tables, input_center, repo_center) / (SCALE as int)
    } else {
        raw * SCALE / closeness(tables, input_center, repo_center)
    }
}

/// The center of a reference sub-stroke: the column is in the high four
/// bits of the byte, the row in the low four.
pub open spec fn triple_center(triple: SubStrokeTriple) -> Point {
    Point { x: triple.center / 16, y: triple.center % 16 }
}

/// The score for an input sub-stroke and a reference sub-stroke.
pub open spec fn pair_score(tables: ScoreTables, input: SubStroke, repo: SubStrokeTriple) -> int {
    sub_stroke_score(
        tables,
        input.direction,
        input.length,
        repo.dir,
        repo.length,
        Point { x: input.center_x, y: input.center_y },
        triple_center(repo),
    )
}

/// The score of a cell of the score matrix that cannot be used.
pub const LEAST: i64 = i64::MIN;

/// No usable cell `(x, y)` of the score matrix is larger in magnitude than
/// `x + y` times this.
pub const CELL_STEP: i64 = 133_120_000_000;

/// What skipping a sub-stroke of average length costs:
/// `AVG_SUBSTROKE_LENGTH` times `SKIP_PENALTY_MULTIPLIER`.
pub const AVERAGE_SKIP_PENALTY: i64 = 591_360_000;

/// What skipping a sub-stroke costs for each unit of its length, of which
/// 256 make the longest sub-stroke: `SKIP_PENALTY_MULTIPLIER` over 256.
pub const SKIP_PENALTY_PER_UNIT: i64 = 7_000_000;

/// The score in row 0 and in column 0 of the score matrix at the distance
/// `i` from the corner: what skipping `i` sub-strokes of average length
/// costs.
pub open spec fn seed(i: int) -> int {
    -(AVG_SUBSTROKE_LENGTH * SKIP_PENALTY_MULTIPLIER / (SCALE as int)) * i
}

/// What skipping a sub-stroke of the given length costs.
pub open spec fn skip_penalty(length: u8) -> int {
    length * SKIP_PENALTY_MULTIPLIER / 256
}

/// A score changed by `by`; a cell that cannot be used stays so.
pub open spec fn shifted(score: int, by: int) -> int {
    if score == LEAST {
        LEAST as int
    } else {
        score + by
    }
}

/// The cell `(x, y)` of the score matrix: the best score of matching the
/// first `x` sub-strokes of the input against the first `y` of the
/// reference character. It is the best of three: the cell before in the
/// diagonal plus the score of the pair, and the cell above and the cell to
/// the left, each less the cost of skipping a sub-stroke. Pairs of
/// sub-strokes that are more than `range` places apart are not compared:
/// their cell cannot be used.
pub open spec fn cell(
    tables: ScoreTables,
    input: Seq<SubStroke>,
    repo: Seq<SubStrokeTriple>,
    range: int,
    x: int,
    y: int,
) -> int
    decreases
            if x > 0 {
                x
            } else {
                0
            } + if y > 0 {
                y
            } else {
                0
            },
{
    if x <= 0 {
        seed(y)
    } else if y <= 0 {
        seed(x)
    } else if x - y > range || y - x > range {
        LEAST as int
    } else {
        let skip1 = shifted(
            cell(tables, input, repo, range, x - 1, y),
            -skip_penalty(input[x - 1].length),
        );
        let skip2 = shifted(
            cell(tables, input, repo, range, x, y - 1),
            -skip_penalty(repo[y - 1].length),
        );
        let matched = shifted(
            cell(tables, input, repo, range, x - 1, y - 1),
            pair_score(tables, input[x - 1], repo[y - 1]),
        );
        max2(matched, max2(skip1, skip2))
    }
}

/// The score of an input against a reference character: the last cell of
/// the score matrix.
pub open spec fn match_score(
    tables: ScoreTables,
    input: Seq<SubStroke>,
    repo: Seq<SubStrokeTriple>,
    range: int,
) -> int {
    cell(tables, input, repo, range, input.len() as int, repo.len() as int)
}

/// The score with the bonus for a reference character that has as many
/// strokes as the input. The bonus is the part
/// `CORRECT_NUM_STROKES_BONUS` of the score at no strokes, and falls
/// evenly to nothing at `CORRECT_NUM_STROKES_CAP` strokes.
pub open spec fn with_bonus(score: int, input_stroke_count: int, repo_stroke_count: int) -> int {
    if input_stroke_count == repo_stroke_count && input_stroke_count < CORRECT_NUM_STROKES_CAP {
        let bonus = CORRECT_NUM_STROKES_BONUS * (CORRECT_NUM_STROKES_CAP - input_stroke_count)
            / (CORRECT_NUM_STROKES_CAP as int);
        shifted(score, bonus * score / (SCALE as int))
    } else {
        score
    }
}

/// The direction score lies between -2 and 1.
pub proof fn lemma_direction_score(
    tables: ScoreTables,
    direction1: u8,
    direction2: u8,
    input_length: u8,
)
    requires
        tables_wf(tables),
    ensures
        -2 * SCALE <= direction_score(tables, direction1, direction2, input_length) <= SCALE,
{
    let theta = if direction1 >= direction2 {
        direction1 - direction2
    } else {
        direction2 - direction1
    };
    let score = tables.direction[theta] as int;
    if input_length < 64 {
        let bonus_max = if SCALE - score < SCALE {
            SCALE - score
        } else {
            SCALE as int
        };
        let k = 64 - input_length;
        assert(0 <= bonus_max * k / 64 <= bonus_max) by (nonlinear_arith)
            requires
                0 <= bonus_max,
                0 <= k <= 64,
        ;
    }
}

/// The length ratio is an index into the table of length scores.
pub proof fn lemma_length_ratio(length1: u8, length2: u8)
    ensures
        0 <= length_ratio(length1, length2) <= 128,
{
    if length1 > length2 {
        assert(0 <= (256 * length2 + length1) / (2 * length1) <= 128) by (nonlinear_arith)
            requires
                0 <= length2 < length1,
        ;
    } else if length2 > 0 {
        assert(0 <= (256 * length1 + length2) / (2 * length2) <= 128) by (nonlinear_arith)
            requires
                0 <= length1 <= length2,
                0 < length2,
        ;
    }
}

/// The squared distance of two centers is not negative.
pub proof fn lemma_center_distance(a: Point, b: Point)
    ensures
        0 <= (a.x - b.x) * (a.x - b.x) + (a.y - b.y) * (a.y - b.y) <= 130050,
{
    crate::analyzed_character::lemma_squared_distance_bound(a, b);
}

/// The score of a pair of sub-strokes lies between -128 and 1.
pub proof fn lemma_sub_stroke_score(
    tables: ScoreTables,
    input_direction: u8,
    input_length: u8,
    repo_direction: u8,
    repo_length: u8,
    input_center: Point,
    repo_center: Point,
)
    requires
        tables_wf(tables),
    ensures
        -128 * SCALE <= sub_stroke_score(
            tables,
            input_direction,
            input_length,
            repo_direction,
            repo_length,
            input_center,
            repo_center,
        ) <= SCALE,
{
    lemma_direction_score(tables, input_direction, repo_direction, input_length);
    lemma_length_ratio(input_length, repo_length);
    lemma_center_distance(input_center, repo_center);
    let ls = length_score(tables, input_length, repo_length);
    let ds = direction_score(tables, input_direction, repo_direction, input_length);
    let c = closeness(tables, input_center, repo_center);
    let raw = ls * ds / (SCALE as int);
    assert(-2 * SCALE * SCALE <= ls * ds <= SCALE * SCALE) by (nonlinear_arith)
        requires
            0 <= ls <= SCALE,
            -2 * SCALE <= ds <= SCALE,
    ;
    assert(-2 * SCALE <= raw <= SCALE);
    if raw > 0 {
        assert(0 <= raw * c <= SCALE * SCALE) by (nonlinear_arith)
            requires
                0 < raw <= SCALE,
                0 < c <= SCALE,
        ;
    } else {
        lemma_scaled_up(raw, c);
    }
}

/// A score that is not positive, divided by a closeness of at least 1/64.
pub proof fn lemma_scaled_up(raw: int, c: int)
    requires
        -2 * SCALE <= raw <= 0,
        SCALE / 64 <= c <= SCALE,
    ensures
        -128 * SCALE <= raw * SCALE / c <= 0,
{
    let n = raw * SCALE;
    assert(-2 * SCALE * SCALE <= n <= 0) by (nonlinear_arith)
        requires
            -2 * SCALE <= raw <= 0,
            n == raw * SCALE,
    ;
    let q = n / c;
    assert(n == c * q + n % c && 0 <= n % c < c) by (nonlinear_arith)
        requires
            c > 0,
            q == n / c,
    ;
    assert(q <= 0) by (nonlinear_arith)
        requires
            n == c * q + n % c,
            0 <= n % c < c,
            n <= 0,
            c > 0,
    ;
    assert(q >= -128 * SCALE) by (nonlinear_arith)
        requires
            n == c * q + n % c,
            0 <= n % c < c,
            n >= -2 * SCALE * SCALE,
            c >= 16_000_000,
            SCALE == 1_024_000_000,
    ;
}

/// The seeds and the cost of a skip, worked out.
pub proof fn lemma_penalties(i: int, length: u8)
    ensures
        seed(i) == -AVERAGE_SKIP_PENALTY * i,
        skip_penalty(length) == SKIP_PENALTY_PER_UNIT * length,
        0 <= skip_penalty(length) <= 1_785_000_000,
        AVERAGE_SKIP_PENALTY == 591_360_000,
        SKIP_PENALTY_PER_UNIT == 7_000_000,
{
    assert(AVG_SUBSTROKE_LENGTH * SKIP_PENALTY_MULTIPLIER / (SCALE as int) == 591_360_000)
        by (nonlinear_arith)
        requires
            AVG_SUBSTROKE_LENGTH == 337_920_000,
            SKIP_PENALTY_MULTIPLIER == 1_792_000_000,
            SCALE == 1_024_000_000,
    ;
    assert(length * SKIP_PENALTY_MULTIPLIER / 256 == 7_000_000 * length) by (nonlinear_arith)
        requires
            SKIP_PENALTY_MULTIPLIER == 1_792_000_000,
    ;
}

/// A cell of the score matrix cannot be used, or is at most `x + y` times
/// [`CELL_STEP`] in magnitude.
pub proof fn lemma_cell(
    tables: ScoreTables,
    input: Seq<SubStroke>,
    repo: Seq<SubStrokeTriple>,
    range: int,
    x: int,
    y: int,
)
    requires
        tables_wf(tables),
        0 <= x,
        0 <= y,
    ensures
        cell(tables, input, repo, range, x, y) == LEAST || -(x + y) * CELL_STEP <= cell(
            tables,
            input,
            repo,
            range,
            x,
            y,
        ) <= (x + y) * CELL_STEP,
    decreases x + y,
{
    lemma_penalties(x, 0);
    lemma_penalties(y, 0);
    if x > 0 && y > 0 && !(x - y > range || y - x > range) {
        lemma_penalties(0, input[x - 1].length);
        lemma_penalties(0, repo[y - 1].length);
        lemma_cell(tables, input, repo, range, x - 1, y);
        lemma_cell(tables, input, repo, range, x, y - 1);
        lemma_cell(tables, input, repo, range, x - 1, y - 1);
        let a = input[x - 1];
        let r = repo[y - 1];
        lemma_sub_stroke_score(
            tables,
            a.direction,
            a.length,
            r.dir,
            r.length,
            Point { x: a.center_x, y: a.center_y },
            triple_center(r),
        );
    }
}

/// The number of rows, and of columns, of the score matrix: one more than
/// [`MAX_CHARACTER_SUB_STROKE_COUNT`].
pub const MATRIX_SIDE: usize = 65;

/// The cell `(x, y)` of a score matrix that is stored row after row.
pub open spec fn at(sm: Seq<i64>, x: int, y: int) -> int {
    sm[x * 65 + y] as int
}

/// The matrix has its full size, and row 0 and column 0 hold the seeds.
pub open spec fn seeded(sm: Seq<i64>) -> bool {
    &&& sm.len() == 65 * 65
    &&& forall|i: int| 0 <= i <= 64 ==> at(sm, i, 0) == #[trigger] seed(i)
    &&& forall|i: int| 0 <= i <= 64 ==> at(sm, 0, i) == #[trigger] seed(i)
}

/// The first `rows` rows of the matrix, and the first `cols` cells of the
/// row after them, hold the scores for `input` and `repo` in the columns
/// up to `width`.
pub open spec fn filled(
    sm: Seq<i64>,
    tables: ScoreTables,
    input: Seq<SubStroke>,
    repo: Seq<SubStrokeTriple>,
    range: int,
    rows: int,
    cols: int,
    width: int,
) -> bool {
    forall|i: int, j: int|
        0 <= i <= rows && 0 <= j <= width && (i < rows || j < cols) ==> at(sm, i, j)
            == #[trigger] cell(tables, input, repo, range, i, j)
}

/// Clears the score matrix and seeds row 0 and column 0.
pub fn init_score_matrix(sm: &mut Vec<i64>)
    ensures
        seeded(final(sm)@),
        forall|x: int, y: int|
            1 <= x <= 64 && 1 <= y <= 64 ==> #[trigger] at(final(sm)@, x, y) == 0,
{
    if sm.len() != MATRIX_SIDE * MATRIX_SIDE {
        sm.clear();
        let mut k: usize = 0;
        while k < MATRIX_SIDE * MATRIX_SIDE
            invariant
                0 <= k <= 65 * 65,
                sm@.len() == k,
            decreases 65 * 65 - k,
        {
            sm.push(0);
            k += 1;
        }
    }
    let mut i: usize = 0;
    while i < MATRIX_SIDE
        invariant
            0 <= i <= 65,
            sm@.len() == 65 * 65,
            forall|x: int, y: int|
                0 <= x < i && 0 <= y <= 64 ==> #[trigger] at(sm@, x, y) == (if x == 0 {
                    seed(y)
                } else if y == 0 {
                    seed(x)
                } else {
                    0
                }),
        decreases 65 - i,
    {
        let mut j: usize = 0;
        while j < MATRIX_SIDE
            invariant
                0 <= i < 65,
                0 <= j <= 65,
                sm@.len() == 65 * 65,
                forall|x: int, y: int|
                    0 <= x <= i && 0 <= y <= 64 && (x < i || y < j) ==> #[trigger] at(sm@, x, y)
                        == (if x == 0 {
                        seed(y)
                    } else if y == 0 {
                        seed(x)
                    } else {
                        0
                    }),
            decreases 65 - j,
        {
            proof {
                lemma_penalties(i as int, 0);
                lemma_penalties(j as int, 0);
            }
            let value: i64 = if i == 0 {
                -AVERAGE_SKIP_PENALTY * (j as i64)
            } else if j == 0 {
                -AVERAGE_SKIP_PENALTY * (i as i64)
            } else {
                0
            };
            let ghost before = sm@;
            sm.set(i * MATRIX_SIDE + j, value);
            assert forall|x: int, y: int|
                0 <= x <= i && 0 <= y <= 64 && (x < i || y < j + 1) implies #[trigger] at(
                sm@,
                x,
                y,
            ) == (if x == 0 {
                seed(y)
            } else if y == 0 {
                seed(x)
            } else {
                0
            }) by {
                if x != i || y != j {
                    assert(at(sm@, x, y) == at(before, x, y));
                }
            }
            j += 1;
        }
        i += 1;
    }
    assert forall|k: int| 0 <= k <= 64 implies at(sm@, k, 0) == #[trigger] seed(k) by {
        assert(at(sm@, k, 0) == seed(k));
    }
    assert forall|k: int| 0 <= k <= 64 implies at(sm@, 0, k) == #[trigger] seed(k) by {
        assert(at(sm@, 0, k) == seed(k));
    }
}

/// Scores an input character against reference characters.
pub struct Matcher {
    score_matrix: Vec<i64>,
    direction_score_table: Vec<i64>,
    length_score_table: Vec<i64>,
    pos_score_table: Vec<i64>,
}

impl Matcher {
    /// The matcher's score tables.
    pub closed spec fn tables(&self) -> ScoreTables {
        ScoreTables {
            direction: self.direction_score_table@,
            length: self.length_score_table@,
            pos: self.pos_score_table@,
        }
    }

    /// The score matrix is not allocated yet, or it is seeded.
    pub closed spec fn matrix_ok(&self) -> bool {
        self.score_matrix@.len() == 0 || seeded(self.score_matrix@)
    }

    /// The tables are those of [`score_tables`] and the score matrix is in
    /// order.
    pub open spec fn wf(&self) -> bool {
        self.tables() == score_tables() && self.matrix_ok()
    }

    /// The matcher is ready to score: it is well-formed and its score
    /// matrix is seeded.
    pub closed spec fn ready(&self) -> bool {
        self.wf() && seeded(self.score_matrix@)
    }

    /// A matcher with its score tables built.
    pub fn new() -> (matcher: Matcher)
        ensures
            matcher.wf(),
            tables_wf(matcher.tables()),
    {
        let mut res = Matcher {
            score_matrix: Vec::new(),
            direction_score_table: Vec::new(),
            length_score_table: Vec::new(),
            pos_score_table: Vec::new(),
        };
        init_score_tables(
            &mut res.direction_score_table,
            &mut res.length_score_table,
            &mut res.pos_score_table,
        );
        proof {
            lemma_score_tables();
        }
        res
    }

    /// Computes the score for the directions of two sub-strokes.
    pub fn get_direction_score(&self, direction1: u8, direction2: u8, input_length: u8) -> (score:
        i64)
        requires
            self.wf(),
        ensures
            score == direction_score(self.tables(), direction1, direction2, input_length),
            -2 * SCALE <= score <= SCALE,
    {
        proof {
            lemma_score_tables();
            lemma_direction_score(self.tables(), direction1, direction2, input_length);
        }
        let theta: usize = if direction1 >= direction2 {
            (direction1 - direction2) as usize
        } else {
            (direction2 - direction1) as usize
        };
        let mut direction_score: i64 = self.direction_score_table[theta];
        if input_length < 64 {
            let rest: i64 = SCALE - direction_score;
            let short_length_bonus_max: i64 = if rest < SCALE {
                rest
            } else {
                SCALE
            };
            let k: i64 = 64 - input_length as i64;
            assert(0 <= short_length_bonus_max * k <= SCALE * 64) by (nonlinear_arith)
                requires
                    0 <= short_length_bonus_max <= SCALE,
                    0 <= k <= 64,
            ;
            let short_length_bonus: i64 = short_length_bonus_max * k / 64;
            direction_score = direction_score + short_length_bonus;
        }
        direction_score
    }

    /// Computes the score for the lengths of two sub-strokes.
    pub fn get_length_score(&self, length1: u8, length2: u8) -> (score: i64)
        requires
            self.wf(),
        ensures
            score == length_score(self.tables(), length1, length2),
            0 <= score <= SCALE,
    {
        proof {
            lemma_score_tables();
            lemma_length_ratio(length1, length2);
        }
        let ratio: usize = if length1 > length2 {
            ((256 * (length2 as u32) + length1 as u32) / (2 * (length1 as u32))) as usize
        } else if length2 == 0 {
            0
        } else {
            ((256 * (length1 as u32) + length2 as u32) / (2 * (length2 as u32))) as usize
        };
        self.length_score_table[ratio]
    }

    /// Computes the score for a pair of sub-strokes.
    pub fn compute_sub_stroke_score(
        &self,
        input_direction: u8,
        input_length: u8,
        repo_direction: u8,
        repo_length: u8,
        input_center: Point,
        repo_center: Point,
    ) -> (score: i64)
        requires
            self.wf(),
        ensures
            score == sub_stroke_score(
                self.tables(),
                input_direction,
                input_length,
                repo_direction,
                repo_length,
                input_center,
                repo_center,
            ),
            -128 * SCALE <= score <= SCALE,
    {
        proof {
            lemma_score_tables();
            lemma_sub_stroke_score(
                self.tables(),
                input_direction,
                input_length,
                repo_direction,
                repo_length,
                input_center,
                repo_center,
            );
            lemma_center_distance(input_center, repo_center);
        }
        let direction_score: i128 = self.get_direction_score(
            input_direction,
            repo_direction,
            input_length,
        ) as i128;
        let length_score: i128 = self.get_length_score(input_length, repo_length) as i128;
        assert(-2 * SCALE * SCALE <= length_score * direction_score <= SCALE * SCALE)
            by (nonlinear_arith)
            requires
                0 <= length_score <= SCALE,
                -2 * SCALE <= direction_score <= SCALE,
        ;
        let raw: i128 = floor_div(length_score * direction_score, SCALE as i128);
        let dx: i32 = input_center.x as i32 - repo_center.x as i32;
        let dy: i32 = input_center.y as i32 - repo_center.y as i32;
        assert(0 <= dx * dx <= 65025) by (nonlinear_arith)
            requires
                -255 <= dx <= 255,
        ;
        assert(0 <= dy * dy <= 65025) by (nonlinear_arith)
            requires
                -255 <= dy <= 255,
        ;
        let d2: i32 = dx * dx + dy * dy;
        let ix: usize = if d2 < 450 {
            d2 as usize
        } else {
            449
        };
        let closeness: i128 = self.pos_score_table[ix] as i128;
        if raw > 0 {
            assert(0 <= raw * closeness <= SCALE * SCALE) by (nonlinear_arith)
                requires
                    0 < raw <= SCALE,
                    0 < closeness <= SCALE,
            ;
            (raw * closeness / (SCALE as i128)) as i64
        } else {
            assert(-2 * SCALE * SCALE <= raw * SCALE <= 0) by (nonlinear_arith)
                requires
                    -2 * SCALE <= raw <= 0,
            ;
            floor_div(raw * (SCALE as i128), closeness) as i64
        }
    }
}

/// Whether a reference character with `repo_count` strokes (or
/// sub-strokes) is near enough to an input with `input_count`: the counts
/// differ by `range` at most, and the reference has at least one and at
/// most `most`.
pub open spec fn count_fits(input_count: int, range: int, most: int, repo_count: int) -> bool {
    max2(input_count - range, 1) <= repo_count <= min2(input_count + range, most)
}

/// Whether the reference character is compared with an input of
/// `stroke_count` strokes and `sub_stroke_count` sub-strokes.
pub open spec fn is_candidate(repo: CharData, stroke_count: int, sub_stroke_count: int) -> bool {
    &&& count_fits(
        stroke_count,
        strokes_range_at(stroke_count, DEFAULT_LOOSENESS as int),
        MAX_CHARACTER_STROKE_COUNT as int,
        repo.stroke_count as int,
    )
    &&& count_fits(
        sub_stroke_count,
        sub_strokes_range_at(sub_stroke_count, DEFAULT_LOOSENESS as int),
        MAX_CHARACTER_SUB_STROKE_COUNT as int,
        repo.sub_strokes@.len() as int,
    )
}

/// The match of an input against a reference character.
pub open spec fn match_of(
    tables: ScoreTables,
    input: Seq<SubStroke>,
    stroke_count: int,
    sub_strokes_range: int,
    repo: CharData,
) -> Match {
    Match {
        hanzi: repo.hanzi,
        score: with_bonus(
            match_score(tables, input, repo.sub_strokes@, sub_strokes_range),
            stroke_count,
            repo.stroke_count as int,
        ) as i64,
    }
}

/// The candidate list after the first `upto` reference characters have
/// been looked at, in the order of the database.
pub open spec fn looked_up(
    tables: ScoreTables,
    input: Seq<SubStroke>,
    stroke_count: int,
    char_data: Seq<CharData>,
    upto: int,
    entries: Seq<Match>,
    max: nat,
) -> Seq<Match>
    decreases upto,
{
    if upto <= 0 {
        entries
    } else {
        let before = looked_up(tables, input, stroke_count, char_data, upto - 1, entries, max);
        let repo = char_data[upto - 1];
        if is_candidate(repo, stroke_count, input.len() as int) {
            filed(
                before,
                max,
                match_of(
                    tables,
                    input,
                    stroke_count,
                    sub_strokes_range_at(input.len() as int, DEFAULT_LOOSENESS as int),
                    repo,
                ),
            )
        } else {
            before
        }
    }
}

/// The candidate list after a lookup of the character drawn with
/// `strokes`. A character without strokes, or with more sub-strokes than
/// a reference character can have, matches nothing.
pub open spec fn lookup_result(
    tables: ScoreTables,
    strokes: Seq<Seq<Point>>,
    char_data: Seq<CharData>,
    entries: Seq<Match>,
    max: nat,
) -> Seq<Match> {
    let input = character_sub_strokes(strokes);
    if strokes.len() == 0 || input.len() > MAX_CHARACTER_SUB_STROKE_COUNT {
        entries
    } else {
        looked_up(
            tables,
            input,
            strokes.len() as int,
            char_data,
            char_data.len() as int,
            entries,
            max,
        )
    }
}

/// Whether the database has the character `hanzi`.
pub open spec fn in_database(char_data: Seq<CharData>, hanzi: char) -> bool {
    exists|k: int| 0 <= k < char_data.len() && (#[trigger] char_data[k]).hanzi == hanzi
}

/// A lookup keeps the candidate list well-formed, and every character it
/// brings in is one of the database.
pub proof fn lemma_looked_up(
    tables: ScoreTables,
    input: Seq<SubStroke>,
    stroke_count: int,
    char_data: Seq<CharData>,
    upto: int,
    entries: Seq<Match>,
    max: nat,
)
    requires
        well_formed(entries, max),
        0 <= upto <= char_data.len(),
    ensures
        well_formed(looked_up(tables, input, stroke_count, char_data, upto, entries, max), max),
        forall|h: char|
            has_hanzi(looked_up(tables, input, stroke_count, char_data, upto, entries, max), h)
                ==> has_hanzi(entries, h) || in_database(char_data, h),
    decreases upto,
{
    if upto > 0 {
        lemma_looked_up(tables, input, stroke_count, char_data, upto - 1, entries, max);
        let before = looked_up(tables, input, stroke_count, char_data, upto - 1, entries, max);
        let repo = char_data[upto - 1];
        let mc = match_of(
            tables,
            input,
            stroke_count,
            sub_strokes_range_at(input.len() as int, DEFAULT_LOOSENESS as int),
            repo,
        );
        crate::match_collector::lemma_filed_well_formed(before, max, mc);
        assert(in_database(char_data, repo.hanzi));
    }
}

/// The best of the three ways to reach a cell: from the cell before in
/// the diagonal by matching the pair, from the cell above by skipping the
/// input sub-stroke, and from the cell to the left by skipping the
/// reference sub-stroke.
pub open spec fn best_score(
    tables: ScoreTables,
    diagonal: int,
    above: int,
    beside: int,
    input: SubStroke,
    repo: SubStrokeTriple,
) -> int {
    max2(
        shifted(diagonal, pair_score(tables, input, repo)),
        max2(
            shifted(above, -skip_penalty(input.length)),
            shifted(beside, -skip_penalty(repo.length)),
        ),
    )
}

/// Storing the score of the cell `(x + 1, y + 1)` extends the filled part
/// of the matrix by that cell and leaves the seeds alone.
pub proof fn lemma_cell_stored(
    before: Seq<i64>,
    after: Seq<i64>,
    tables: ScoreTables,
    input: Seq<SubStroke>,
    repo: Seq<SubStrokeTriple>,
    range: int,
    x: int,
    y: int,
    width: int,
    score: i64,
)
    requires
        0 <= x < 64,
        0 <= y < width <= 64,
        seeded(before),
        filled(before, tables, input, repo, range, x + 1, y + 1, width),
        after == before.update((x + 1) * 65 + y + 1, score),
        score == cell(tables, input, repo, range, x + 1, y + 1),
    ensures
        seeded(after),
        filled(after, tables, input, repo, range, x + 1, y + 2, width),
{
    assert forall|i: int, j: int|
        0 <= i <= x + 1 && 0 <= j <= width && (i < x + 1 || j < y + 2) implies at(after, i, j)
        == #[trigger] cell(tables, input, repo, range, i, j) by {
        if i != x + 1 || j != y + 1 {
            assert(at(after, i, j) == at(before, i, j));
        }
    }
    assert forall|i: int| 0 <= i <= 64 implies at(after, i, 0) == #[trigger] seed(i) by {
        assert(at(after, i, 0) == at(before, i, 0));
    }
    assert forall|i: int| 0 <= i <= 64 implies at(after, 0, i) == #[trigger] seed(i) by {
        assert(at(after, 0, i) == at(before, 0, i));
    }
}

impl Matcher {
    /// Computes the best of the three ways to reach a cell.
    fn best_of_three(
        &self,
        prev_score: i64,
        above: i64,
        beside: i64,
        input: SubStroke,
        repo: SubStrokeTriple,
    ) -> (new_score: i64)
        requires
            self.wf(),
            prev_score == LEAST || -127 * CELL_STEP <= prev_score <= 127 * CELL_STEP,
            above == LEAST || -127 * CELL_STEP <= above <= 127 * CELL_STEP,
            beside == LEAST || -127 * CELL_STEP <= beside <= 127 * CELL_STEP,
        ensures
            new_score == best_score(
                self.tables(),
                prev_score as int,
                above as int,
                beside as int,
                input,
                repo,
            ),
    {
        proof {
            lemma_penalties(0, input.length);
            lemma_penalties(0, repo.length);
        }
        let skip1_score: i64 = if above == LEAST {
            LEAST
        } else {
            above - SKIP_PENALTY_PER_UNIT * (input.length as i64)
        };
        let skip2_score: i64 = if beside == LEAST {
            LEAST
        } else {
            beside - SKIP_PENALTY_PER_UNIT * (repo.length as i64)
        };
        let skip_score: i64 = if skip1_score >= skip2_score {
            skip1_score
        } else {
            skip2_score
        };
        let pair: i64 = self.compute_sub_stroke_score(
            input.direction,
            input.length,
            repo.dir,
            repo.length,
            Point { x: input.center_x, y: input.center_y },
            Point { x: repo.center / 16, y: repo.center % 16 },
        );
        let matched: i64 = if prev_score == LEAST {
            LEAST
        } else {
            prev_score + pair
        };
        if matched >= skip_score {
            matched
        } else {
            skip_score
        }
    }
}

impl Matcher {
    /// Fills the score matrix for an input and a reference character and
    /// returns the score in its last cell.
    fn compute_match_score(
        &mut self,
        input_sub_strokes: &Vec<SubStroke>,
        sub_strokes_range: usize,
        repo_char: &CharData,
    ) -> (score: i64)
        requires
            old(self).ready(),
            input_sub_strokes@.len() <= MAX_CHARACTER_SUB_STROKE_COUNT,
            repo_char.sub_strokes@.len() <= MAX_CHARACTER_SUB_STROKE_COUNT,
        ensures
            final(self).ready(),
            final(self).tables() == old(self).tables(),
            score == match_score(
                old(self).tables(),
                input_sub_strokes@,
                repo_char.sub_strokes@,
                sub_strokes_range as int,
            ),
            score == LEAST || -128 * CELL_STEP <= score <= 128 * CELL_STEP,
    {
        let ghost tables = self.tables();
        let ghost input = input_sub_strokes@;
        let ghost repo = repo_char.sub_strokes@;
        let ghost range = sub_strokes_range as int;
        let rows: usize = input_sub_strokes.len();
        let width: usize = repo_char.sub_strokes.len();
        proof {
            lemma_score_tables();
        }
        let mut x: usize = 0;
        while x < rows
            invariant
                0 <= x <= rows <= 64,
                width <= 64,
                rows == input.len(),
                width == repo.len(),
                input == input_sub_strokes@,
                repo == repo_char.sub_strokes@,
                range == sub_strokes_range,
                self.ready(),
                self.tables() == tables,
                tables_wf(tables),
                filled(self.score_matrix@, tables, input, repo, range, x as int, width + 1, width as int),
            decreases rows - x,
        {
            assert(at(self.score_matrix@, x + 1, 0) == cell(tables, input, repo, range, x + 1, 0))
                by {
                assert(at(self.score_matrix@, x + 1, 0) == seed(x + 1));
            }
            let mut y: usize = 0;
            while y < width
                invariant
                    0 <= x < rows <= 64,
                    0 <= y <= width <= 64,
                    rows == input.len(),
                    width == repo.len(),
                    input == input_sub_strokes@,
                    repo == repo_char.sub_strokes@,
                    range == sub_strokes_range,
                    self.ready(),
                    self.tables() == tables,
                    tables_wf(tables),
                    filled(
                        self.score_matrix@,
                        tables,
                        input,
                        repo,
                        range,
                        x + 1,
                        y + 1,
                        width as int,
                    ),
                decreases width - y,
            {
                let out_of_range: bool = (x > y && x - y > sub_strokes_range) || (y > x && y - x
                    > sub_strokes_range);
                proof {
                    lemma_cell(tables, input, repo, range, x as int, y + 1);
                    lemma_cell(tables, input, repo, range, x + 1, y as int);
                    lemma_cell(tables, input, repo, range, x as int, y as int);
                    assert(at(self.score_matrix@, x as int, y + 1) == cell(
                        tables,
                        input,
                        repo,
                        range,
                        x as int,
                        y + 1,
                    ));
                    assert(at(self.score_matrix@, x + 1, y as int) == cell(
                        tables,
                        input,
                        repo,
                        range,
                        x + 1,
                        y as int,
                    ));
                    assert(at(self.score_matrix@, x as int, y as int) == cell(
                        tables,
                        input,
                        repo,
                        range,
                        x as int,
                        y as int,
                    ));
                }
                let new_score: i64 = if out_of_range {
                    LEAST
                } else {
                    self.best_of_three(
                        self.score_matrix[x * MATRIX_SIDE + y],
                        self.score_matrix[x * MATRIX_SIDE + y + 1],
                        self.score_matrix[(x + 1) * MATRIX_SIDE + y],
                        input_sub_strokes[x],
                        repo_char.sub_strokes[y],
                    )
                };
                let ghost before = self.score_matrix@;
                self.score_matrix.set((x + 1) * MATRIX_SIDE + y + 1, new_score);
                proof {
                    lemma_cell_stored(
                        before,
                        self.score_matrix@,
                        tables,
                        input,
                        repo,
                        range,
                        x as int,
                        y as int,
                        width as int,
                        new_score,
                    );
                }
                y += 1;
            }
            x += 1;
        }
        proof {
            lemma_cell(tables, input, repo, range, rows as int, width as int);
            assert(at(self.score_matrix@, rows as int, width as int) == cell(
                tables,
                input,
                repo,
                range,
                rows as int,
                width as int,
            ));
        }
        self.score_matrix[rows * MATRIX_SIDE + width]
    }

    /// Matches an input against one reference character.
    fn match_one(
        &mut self,
        input_stroke_count: usize,
        input_sub_strokes: &Vec<SubStroke>,
        sub_strokes_range: usize,
        repo_char: &CharData,
    ) -> (res: Match)
        requires
            old(self).ready(),
            input_sub_strokes@.len() <= MAX_CHARACTER_SUB_STROKE_COUNT,
            repo_char.sub_strokes@.len() <= MAX_CHARACTER_SUB_STROKE_COUNT,
        ensures
            final(self).ready(),
            final(self).tables() == old(self).tables(),
            res == match_of(
                old(self).tables(),
                input_sub_strokes@,
                input_stroke_count as int,
                sub_strokes_range as int,
                *repo_char,
            ),
    {
        let mut score: i64 = self.compute_match_score(
            input_sub_strokes,
            sub_strokes_range,
            repo_char,
        );
        if input_stroke_count == repo_char.stroke_count as usize && input_stroke_count
            < CORRECT_NUM_STROKES_CAP {
            let left: i64 = (CORRECT_NUM_STROKES_CAP - input_stroke_count) as i64;
            assert(CORRECT_NUM_STROKES_BONUS * left / 10 == 10_240_000 * left) by (nonlinear_arith)
                requires
                    CORRECT_NUM_STROKES_BONUS == 102_400_000,
            ;
            let bonus: i128 = (CORRECT_NUM_STROKES_BONUS * left / 10) as i128;
            if score != LEAST {
                assert(-102_400_000 * (128 * CELL_STEP) <= bonus * score <= 102_400_000 * (
                128 * CELL_STEP)) by (nonlinear_arith)
                    requires
                        0 <= bonus <= 102_400_000,
                        -128 * CELL_STEP <= score <= 128 * CELL_STEP,
                ;
                let extra: i128 = floor_div(bonus * (score as i128), SCALE as i128);
                score = (score as i128 + extra) as i64;
            }
        }
        Match { hanzi: repo_char.hanzi, score }
    }

    /// Looks an input character up: every reference character whose
    /// stroke count and sub-stroke count are near enough to the input's is
    /// scored against it, in the order of the database, and filed into the
    /// collector.
    pub fn lookup(
        &mut self,
        strokes: &Vec<Stroke>,
        char_data: &Vec<CharData>,
        collector: &mut MatchCollector<'_>,
    )
        requires
            old(self).wf(),
            old(collector).wf(),
        ensures
            final(self).wf(),
            final(self).tables() == old(self).tables(),
            final(collector).max == old(collector).max,
            final(collector).matches@ == lookup_result(
                old(self).tables(),
                stroke_points(strokes@),
                char_data@,
                old(collector).matches@,
                old(collector).max as nat,
            ),
            final(collector).wf(),
            forall|h: char|
                has_hanzi(final(collector).matches@, h) ==> has_hanzi(old(collector).matches@, h)
                    || in_database(char_data@, h),
            strokes@.len() == 0 ==> final(collector).matches@ == old(collector).matches@,
            final(final(collector).matches)@ == final(old(collector).matches)@,
    {
        let ghost tables = self.tables();
        let ghost entries = collector.matches@;
        let ghost max = collector.max as nat;
        init_score_matrix(&mut self.score_matrix);
        let input_char = AnalyzedCharacter::from_strokes(strokes);
        if input_char.analyzed_strokes.len() == 0 {
            return ;
        }
        let input_sub_strokes = input_char.get_analyzed_strokes();
        let stroke_count: usize = input_char.analyzed_strokes.len();
        let sub_stroke_count: usize = input_char.sub_stroke_count;
        if sub_stroke_count > MAX_CHARACTER_SUB_STROKE_COUNT {
            return ;
        }
        let ghost input = input_sub_strokes@;
        let stroke_range: usize = get_strokes_range(stroke_count, DEFAULT_LOOSENESS);
        let minimum_strokes: usize = if stroke_range >= stroke_count {
            1
        } else if stroke_count - stroke_range < 1 {
            1
        } else {
            stroke_count - stroke_range
        };
        let maximum_strokes: usize = if stroke_range >= MAX_CHARACTER_STROKE_COUNT || stroke_count
            >= MAX_CHARACTER_STROKE_COUNT - stroke_range {
            MAX_CHARACTER_STROKE_COUNT
        } else {
            stroke_count + stroke_range
        };
        let sub_strokes_range: usize = get_sub_strokes_range(sub_stroke_count, DEFAULT_LOOSENESS);
        let min_sub_strokes: usize = if sub_strokes_range >= sub_stroke_count {
            1
        } else if sub_stroke_count - sub_strokes_range < 1 {
            1
        } else {
            sub_stroke_count - sub_strokes_range
        };
        let max_sub_strokes: usize = if sub_strokes_range >= MAX_CHARACTER_SUB_STROKE_COUNT
            || sub_stroke_count >= MAX_CHARACTER_SUB_STROKE_COUNT - sub_strokes_range {
            MAX_CHARACTER_SUB_STROKE_COUNT
        } else {
            sub_stroke_count + sub_strokes_range
        };
        let mut cix: usize = 0;
        while cix < char_data.len()
            invariant
                0 <= cix <= char_data@.len(),
                self.ready(),
                self.tables() == tables,
                input == input_sub_strokes@,
                input.len() == sub_stroke_count,
                sub_stroke_count <= MAX_CHARACTER_SUB_STROKE_COUNT,
                stroke_range == strokes_range_at(stroke_count as int, DEFAULT_LOOSENESS as int),
                sub_strokes_range == sub_strokes_range_at(
                    sub_stroke_count as int,
                    DEFAULT_LOOSENESS as int,
                ),
                minimum_strokes == max2(stroke_count - stroke_range, 1),
                maximum_strokes == min2(
                    stroke_count + stroke_range,
                    MAX_CHARACTER_STROKE_COUNT as int,
                ),
                min_sub_strokes == max2(sub_stroke_count - sub_strokes_range, 1),
                max_sub_strokes == min2(
                    sub_stroke_count + sub_strokes_range,
                    MAX_CHARACTER_SUB_STROKE_COUNT as int,
                ),
                collector.max == max,
                well_formed(entries, max),
                collector.matches@ == looked_up(
                    tables,
                    input,
                    stroke_count as int,
                    char_data@,
                    cix as int,
                    entries,
                    max,
                ),
                final(collector.matches)@ == final(old(collector).matches)@,
            decreases char_data@.len() - cix,
        {
            proof {
                lemma_looked_up(
                    tables,
                    input,
                    stroke_count as int,
                    char_data@,
                    cix as int,
                    entries,
                    max,
                );
            }
            let repo_char = &char_data[cix];
            let repo_stroke_count: usize = repo_char.stroke_count as usize;
            let repo_sub_strokes = &repo_char.sub_strokes;
            cix += 1;
            if repo_stroke_count < minimum_strokes || repo_stroke_count > maximum_strokes {
                continue ;
            }
            if repo_sub_strokes.len() < min_sub_strokes || repo_sub_strokes.len()
                > max_sub_strokes {
                continue ;
            }
            let char_match = self.match_one(
                stroke_count,
                &input_sub_strokes,
                sub_strokes_range,
                repo_char,
            );
            collector.file_match(char_match);
        }
        proof {
            lemma_looked_up(
                tables,
                input,
                stroke_count as int,
                char_data@,
                char_data@.len() as int,
                entries,
                max,
            );
        }
    }
}

/// A reference character with as many strokes as the input, and fewer
/// than `CORRECT_NUM_STROKES_CAP`, gets a bonus in proportion to the
/// strokes that are missing to the cap: a hundredth of the score for each.
/// From the cap on, and for any other reference character, the score
/// stays as it is.
pub proof fn law_bonus(score: int, input_stroke_count: int, repo_stroke_count: int)
    requires
        0 <= input_stroke_count,
        score != LEAST,
    ensures
        input_stroke_count != repo_stroke_count || input_stroke_count >= CORRECT_NUM_STROKES_CAP
            ==> with_bonus(score, input_stroke_count, repo_stroke_count) == score,
        input_stroke_count == repo_stroke_count && input_stroke_count < CORRECT_NUM_STROKES_CAP
            ==> with_bonus(score, input_stroke_count, repo_stroke_count) == score + score * (
        CORRECT_NUM_STROKES_CAP - input_stroke_count) / 100,
{
    if input_stroke_count == repo_stroke_count && input_stroke_count < CORRECT_NUM_STROKES_CAP {
        let left = CORRECT_NUM_STROKES_CAP - input_stroke_count;
        let bonus = CORRECT_NUM_STROKES_BONUS * left / (CORRECT_NUM_STROKES_CAP as int);
        assert(bonus == 10_240_000 * left) by (nonlinear_arith)
            requires
                bonus == CORRECT_NUM_STROKES_BONUS * left / (CORRECT_NUM_STROKES_CAP as int),
                CORRECT_NUM_STROKES_BONUS == 102_400_000,
                CORRECT_NUM_STROKES_CAP == 10,
        ;
        let n = score * left;
        assert(bonus * score == 10_240_000 * n) by (nonlinear_arith)
            requires
                bonus == 10_240_000 * left,
                n == score * left,
        ;
        assert((10_240_000 * n) / (SCALE as int) == n / 100) by (nonlinear_arith)
            requires
                SCALE == 1_024_000_000,
        ;
    }
}

} // verus!
