//! The recognizer computes with fixed-point numbers. These tests do the same computations with
//! floating-point numbers, solving the curves by the cubic formula, and compare.

use hanzi_lookup::analyzed_character::AnalyzedCharacter;
use hanzi_lookup::entities::SubStroke;
use hanzi_lookup::fixed::SCALE;
use hanzi_lookup::match_typed;
use hanzi_lookup::matcher::{
    get_strokes_range, get_sub_strokes_range, init_score_tables, CharData, Matcher,
    SubStrokeTriple, DEFAULT_LOOSENESS,
};
use hanzi_lookup::sample::parse_sample;
use hanzi_lookup::Stroke;

// A hand-drawn 一, 十, 元 and 氣.
const STROKES_1: &str = "[[[70,124],[71,124],[79,124],[104,124],[119,124],[132,125],[151,126],[168,126],[169,126],[189,125],[191,124],[191,124]]]";
const STROKES_2: &str = "[[[76,127],[77,127],[84,127],[97,128],[119,128],[125,129],[138,130],[147,130],[153,131],[154,131],[158,131],[162,131],[167,131],[168,131],[169,131],[169,131]],[[129,60],[129,62],[128,74],[128,102],[128,118],[129,143],[130,162],[130,170],[130,178],[131,184],[131,188],[131,193],[131,196],[131,198],[131,203],[131,203]]]";
const STROKES_3: &str = "[[[86,65],[98,66],[146,69],[152,69],[161,69],[166,69],[170,68],[170,68]],[[47,97],[48,97],[54,97],[89,103],[117,104],[146,101],[169,100],[176,98],[180,98],[184,98],[189,98],[193,98],[195,98],[195,98]],[[103,109],[103,110],[99,132],[91,156],[70,180],[56,190],[53,192]],[[143,105],[143,106],[142,114],[140,134],[138,149],[138,160],[138,167],[140,174],[144,182],[150,186],[155,190],[161,193],[166,194],[172,196],[188,197],[193,197],[197,197],[206,197],[206,196],[207,196],[208,196],[208,194],[204,182],[203,174],[202,174],[202,175],[202,176]]]";
const STROKES_4: &str = "[[[76,32],[76,33],[75,37],[73,43],[70,51],[67,58],[64,66],[61,72],[57,77],[52,82],[50,85],[50,85]],[[68,58],[69,58],[76,58],[90,59],[100,60],[110,62],[118,62],[132,62],[136,62],[141,62],[145,62],[146,62],[148,62],[148,62]],[[68,95],[69,95],[77,96],[96,96],[105,96],[110,96],[126,97],[144,98],[146,98],[154,98],[156,98],[156,98]],[[59,126],[60,126],[67,126],[90,130],[107,131],[120,132],[134,132],[149,132],[151,132],[156,132],[158,133],[158,134],[156,142],[154,147],[153,155],[152,160],[151,166],[150,172],[150,179],[150,183],[150,186],[150,190],[151,194],[152,199],[156,204],[158,206],[162,209],[167,213],[171,215],[175,216],[184,220],[192,222],[196,223],[200,224],[204,225],[208,225],[210,225],[214,225],[218,223],[218,222],[216,214],[214,208],[214,207],[214,207]],[[79,147],[82,148],[87,155],[91,161],[91,161]],[[124,148],[123,148],[116,155],[110,162],[108,164],[108,164]],[[73,175],[75,175],[88,178],[98,180],[104,180],[111,182],[117,182],[122,182],[125,182]],[[100,148],[100,151],[102,172],[102,195],[103,204],[103,211],[104,216],[104,220],[104,224]],[[94,189],[93,189],[81,204],[72,210],[71,210]],[[109,192],[112,194],[120,199],[132,208],[133,210],[133,210]]]";

struct Curve {
    x1: f32,
    y1: f32,
    ctrlx1: f32,
    ctrly1: f32,
    ctrlx2: f32,
    ctrly2: f32,
    x2: f32,
    y2: f32,
}

impl Curve {
    fn cx(&self) -> f32 {
        3.0 * (self.ctrlx1 - self.x1)
    }
    fn bx(&self) -> f32 {
        3.0 * (self.ctrlx2 - self.ctrlx1) - self.cx()
    }
    fn ax(&self) -> f32 {
        self.x2 - self.x1 - self.bx() - self.cx()
    }
    fn cy(&self) -> f32 {
        3.0 * (self.ctrly1 - self.y1)
    }
    fn by(&self) -> f32 {
        3.0 * (self.ctrly2 - self.ctrly1) - self.cy()
    }
    fn ay(&self) -> f32 {
        self.y2 - self.y1 - self.by() - self.cy()
    }

    /// The parameters at which the curve has the x, by the cubic formula.
    fn solve_for_x(&self, x: f32) -> Vec<f32> {
        let a = self.ax();
        let b = self.bx();
        let c = self.cx();
        let d = self.x1 - x;
        let f = ((3.0 * c / a) - (b * b / (a * a))) / 3.0;
        let g = ((2.0 * b * b * b / (a * a * a)) - (9.0 * b * c / (a * a)) + (27.0 * d / a)) / 27.0;
        let h = (g * g / 4.0) + (f * f * f / 27.0);
        if h > 0f32 {
            // One real root.
            let u = 0f32 - g;
            let r = (u / 2.0) + h.powf(0.5);
            let s = r.powf(1.0 / 3.0);
            let t = (u / 2.0) - h.powf(0.5);
            let v = (0f32 - t).powf(1.0 / 3.0);
            vec![(s - v) - (b / (3.0 * a))]
        } else if f == 0.0 && g == 0.0 && h == 0.0 {
            // Three equal real roots.
            vec![-(d / a).powf(1.0 / 3.0)]
        } else {
            // Three real roots.
            let i = ((g * g / 4.0) - h).sqrt();
            let j = i.powf(1.0 / 3.0);
            let k = (-g / (2.0 * i)).acos();
            let l = j * -1.0;
            let m = (k / 3.0).cos();
            let n = (3f32).sqrt() * (k / 3.0).sin();
            let p = (b / (3.0 * a)) * -1.0;
            vec![2.0 * j * (k / 3.0).cos() - (b / (3.0 * a)), l * (m + n) + p, l * (m - n) + p]
        }
    }

    fn get_first_solution_for_x(&self, x: f32) -> f32 {
        for d in self.solve_for_x(x) {
            if d >= -0.0000001 && d <= 1.0000001 {
                if d >= 0.0 && d <= 1.0 {
                    return d;
                }
                if d < 0.0 {
                    return 0.0;
                }
                return 1.0;
            }
        }
        f32::NAN
    }

    fn get_y_on_curve(&self, t: f32) -> f32 {
        (self.ay() * t * t * t) + (self.by() * t * t) + (self.cy() * t) + self.y1
    }
}

fn table_from_curve(curve: &Curve, samples: usize) -> Vec<f32> {
    let x_inc = (curve.x2 - curve.x1) / (samples as f32);
    let mut x = curve.x1;
    let mut table: Vec<f32> = Vec::new();
    for _ in 0..samples {
        let t = curve.get_first_solution_for_x(f32::min(x, curve.x2));
        table.push(curve.get_y_on_curve(t));
        x += x_inc;
    }
    table
}

struct Tables {
    direction: Vec<f32>,
    length: Vec<f32>,
    pos: Vec<f32>,
}

fn float_tables() -> Tables {
    let direction = Curve {
        x1: 0.0,
        y1: 1.0,
        ctrlx1: 0.5,
        ctrly1: 1.0,
        ctrlx2: 0.25,
        ctrly2: -2.0,
        x2: 1.0,
        y2: 1.0,
    };
    let length = Curve {
        x1: 0.0,
        y1: 0.0,
        ctrlx1: 0.25,
        ctrly1: 1.0,
        ctrlx2: 0.75,
        ctrly2: 1.0,
        x2: 1.0,
        y2: 1.0,
    };
    Tables {
        direction: table_from_curve(&direction, 256),
        length: table_from_curve(&length, 129),
        pos: (0..450).map(|i| 1.0 - (i as f32).sqrt() / 22.0).collect(),
    }
}

fn float_strokes_range(stroke_count: usize, looseness: f32) -> usize {
    if looseness == 0f32 {
        return 0;
    }
    if looseness == 1f32 {
        return 48;
    }
    let curve = Curve {
        x1: 0.0,
        y1: 0.0,
        ctrlx1: 0.35,
        ctrly1: (stroke_count as f32) * 0.4,
        ctrlx2: 0.6,
        ctrly2: stroke_count as f32,
        x2: 1.0,
        y2: 48.0,
    };
    curve.get_y_on_curve(curve.get_first_solution_for_x(looseness)).round() as usize
}

fn float_sub_strokes_range(sub_stroke_count: usize, looseness: f32) -> usize {
    if looseness == 1.0 {
        return 64;
    }
    let y0 = (sub_stroke_count as f32) * 0.25;
    let curve = Curve {
        x1: 0.0,
        y1: y0,
        ctrlx1: 0.4,
        ctrly1: 1.5 * y0,
        ctrlx2: 0.75,
        ctrly2: 1.5 * (1.5 * y0),
        x2: 1.0,
        y2: 64.0,
    };
    curve.get_y_on_curve(curve.get_first_solution_for_x(looseness)).round() as usize
}

fn float_pair_score(tables: &Tables, input: &SubStroke, repo: &SubStrokeTriple) -> f32 {
    let theta = (input.direction as i32 - repo.dir as i32).abs() as usize;
    let mut direction_score = tables.direction[theta];
    if input.length < 64 {
        let short_length_bonus_max = f32::min(1.0, 1.0 - direction_score);
        direction_score += short_length_bonus_max * (1.0 - (input.length as f32 / 64.0));
    }
    let ratio = if input.length > repo.length {
        ((repo.length as f32 * 128.0) / input.length as f32).round() as usize
    } else {
        ((input.length as f32 * 128.0) / repo.length as f32).round() as usize
    };
    let mut score = tables.length[ratio] * direction_score;
    let dx = input.center_x as i32 - (repo.center >> 4) as i32;
    let dy = input.center_y as i32 - (repo.center & 0x0f) as i32;
    let closeness = tables.pos[std::cmp::min((dx * dx + dy * dy) as usize, 449)];
    if score > 0.0 {
        score *= closeness;
    } else {
        score /= closeness;
    }
    score
}

fn float_match(
    tables: &Tables,
    input_stroke_count: usize,
    input: &Vec<SubStroke>,
    sub_strokes_range: usize,
    repo: &CharData,
) -> f32 {
    let mut sm = vec![vec![0f32; 65]; 65];
    for i in 0..65 {
        let penalty = -0.33 * 1.75 * (i as f32);
        sm[i][0] = penalty;
        sm[0][i] = penalty;
    }
    for x in 0..input.len() {
        for y in 0..repo.sub_strokes.len() {
            let mut new_score = f32::MIN;
            let range = (x as i32 - y as i32).abs() as usize;
            if range <= sub_strokes_range {
                let skip1 = sm[x][y + 1] - (input[x].length as f32 / 256.0 * 1.75);
                let skip2 = sm[x + 1][y] - (repo.sub_strokes[y].length as f32 / 256.0 * 1.75);
                let skip = f32::max(skip1, skip2);
                let pair = float_pair_score(tables, &input[x], &repo.sub_strokes[y]);
                new_score = f32::max(sm[x][y] + pair, skip);
            }
            sm[x + 1][y + 1] = new_score;
        }
    }
    let mut score = sm[input.len()][repo.sub_strokes.len()];
    if input_stroke_count == repo.stroke_count as usize && input_stroke_count < 10 {
        let bonus = 0.1 * ((10 - input_stroke_count) as f32) / 10.0;
        score += bonus * score;
    }
    score
}

fn as_float(score: i64) -> f64 {
    score as f64 / SCALE as f64
}

#[test]
fn the_score_tables_agree() {
    let mut direction: Vec<i64> = Vec::new();
    let mut length: Vec<i64> = Vec::new();
    let mut pos: Vec<i64> = Vec::new();
    init_score_tables(&mut direction, &mut length, &mut pos);
    let float = float_tables();
    assert_eq!((float.direction.len(), float.length.len(), float.pos.len()), (256, 129, 450));
    for i in 0..256 {
        assert!((as_float(direction[i]) - float.direction[i] as f64).abs() < 2e-5, "{}", i);
    }
    for i in 0..129 {
        assert!((as_float(length[i]) - float.length[i] as f64).abs() < 2e-5, "{}", i);
    }
    for i in 0..450 {
        assert!((as_float(pos[i]) - float.pos[i] as f64).abs() < 1e-6, "{}", i);
    }
}

#[test]
fn the_ranges_agree() {
    for count in 0..150usize {
        assert_eq!(get_strokes_range(count, DEFAULT_LOOSENESS), float_strokes_range(count, 0.15));
        assert_eq!(
            get_sub_strokes_range(count, DEFAULT_LOOSENESS),
            float_sub_strokes_range(count, 0.15)
        );
    }
}

/// Reference characters with sub-strokes from a generator of numbers.
fn database(strokes: std::ops::Range<usize>, sub_strokes: std::ops::Range<usize>) -> Vec<CharData> {
    let mut seed: u32 = 2024;
    let mut number = move || {
        seed = seed.wrapping_mul(1664525).wrapping_add(1013904223);
        (seed >> 16) as u8
    };
    let mut char_data: Vec<CharData> = Vec::new();
    for k in 0..400u32 {
        let count = sub_strokes.start + (k as usize) % (sub_strokes.end - sub_strokes.start);
        char_data.push(CharData {
            hanzi: char::from_u32(0x4e00 + k).unwrap(),
            stroke_count: (strokes.start + (k as usize / 7) % (strokes.end - strokes.start)) as u16,
            sub_strokes: (0..count)
                .map(|_| SubStrokeTriple { dir: number(), length: number(), center: number() })
                .collect(),
        });
    }
    char_data
}

fn scores_agree(strokes: &Vec<Stroke>) {
    let analyzed = AnalyzedCharacter::from_strokes(strokes);
    let input = analyzed.get_analyzed_strokes();
    let range = get_sub_strokes_range(input.len(), DEFAULT_LOOSENESS);
    let low = std::cmp::max(input.len() - range, 1);
    let high = input.len() + range;
    let stroke_range = get_strokes_range(strokes.len(), DEFAULT_LOOSENESS);
    let fewest = std::cmp::max(strokes.len() - stroke_range, 1);
    let most = strokes.len() + stroke_range;
    let tables = float_tables();
    let mut matcher = Matcher::new();
    let mut compared = 0;
    for repo in database(fewest..most + 1, low..high + 1) {
        let expected = float_match(&tables, strokes.len(), &input, range, &repo);
        let found = match_typed(strokes, 1, &mut matcher, &vec![repo]);
        assert_eq!(found.len(), 1);
        let score = as_float(found[0].score);
        let tolerance = 1e-4 * (1.0 + expected.abs() as f64);
        assert!((score - expected as f64).abs() < tolerance, "{} and {}", score, expected);
        compared += 1;
    }
    assert_eq!(compared, 400);
}

#[test]
fn the_scores_agree() {
    for strokes in [STROKES_1, STROKES_2, STROKES_3, STROKES_4] {
        scores_agree(&parse_sample(strokes).unwrap());
    }
}
