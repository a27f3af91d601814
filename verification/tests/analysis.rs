use hanzi_lookup::analyzed_character::{
    build_sub_strokes, dir, dist, get_bounding_rect, get_norm_center, get_pivot_indexes,
    norm_dist, AnalyzedCharacter, Rect,
};
use hanzi_lookup::fixed::SCALE;
use hanzi_lookup::sample::parse_sample;
use hanzi_lookup::{Point, Stroke};

// These samples were saved from a demo of the recognizer.
// A hand-drawn 一, 十, 元 and 氣.
const STROKES_1: &str = "[[[70,124],[71,124],[79,124],[104,124],[119,124],[132,125],[151,126],[168,126],[169,126],[189,125],[191,124],[191,124]]]";
const AN_CHAR_1: &str = "{\"top\":124,\"bottom\":126,\"left\":70,\"right\":191,\"analyzedStrokes\":[{\"points\":[[70,124],[71,124],[79,124],[104,124],[119,124],[132,125],[151,126],[168,126],[169,126],[189,125],[191,124],[191,124]],\"pivotIndexes\":[0,11],\"subStrokes\":[{\"direction\":0,\"length\":180,\"centerX\":8,\"centerY\":7}]}],\"subStrokeCount\":1}";
const STROKES_2: &str = "[[[76,127],[77,127],[84,127],[97,128],[119,128],[125,129],[138,130],[147,130],[153,131],[154,131],[158,131],[162,131],[167,131],[168,131],[169,131],[169,131]],[[129,60],[129,62],[128,74],[128,102],[128,118],[129,143],[130,162],[130,170],[130,178],[131,184],[131,188],[131,193],[131,196],[131,198],[131,203],[131,203]]]";
const AN_CHAR_2: &str = "{\"top\":60,\"bottom\":203,\"left\":76,\"right\":169,\"analyzedStrokes\":[{\"points\":[[76,127],[77,127],[84,127],[97,128],[119,128],[125,129],[138,130],[147,130],[153,131],[154,131],[158,131],[162,131],[167,131],[168,131],[169,131],[169,131]],\"pivotIndexes\":[0,15],\"subStrokes\":[{\"direction\":254,\"length\":117,\"centerX\":8,\"centerY\":7}]},{\"points\":[[129,60],[129,62],[128,74],[128,102],[128,118],[129,143],[130,162],[130,170],[130,178],[131,184],[131,188],[131,193],[131,196],[131,198],[131,203],[131,203]],\"pivotIndexes\":[0,15],\"subStrokes\":[{\"direction\":193,\"length\":180,\"centerX\":8,\"centerY\":8}]}],\"subStrokeCount\":2}";
const STROKES_3: &str = "[[[86,65],[98,66],[146,69],[152,69],[161,69],[166,69],[170,68],[170,68]],[[47,97],[48,97],[54,97],[89,103],[117,104],[146,101],[169,100],[176,98],[180,98],[184,98],[189,98],[193,98],[195,98],[195,98]],[[103,109],[103,110],[99,132],[91,156],[70,180],[56,190],[53,192]],[[143,105],[143,106],[142,114],[140,134],[138,149],[138,160],[138,167],[140,174],[144,182],[150,186],[155,190],[161,193],[166,194],[172,196],[188,197],[193,197],[197,197],[206,197],[206,196],[207,196],[208,196],[208,194],[204,182],[203,174],[202,174],[202,175],[202,176]]]";
const AN_CHAR_3: &str = "{\"top\":65,\"bottom\":197,\"left\":47,\"right\":208,\"analyzedStrokes\":[{\"points\":[[86,65],[98,66],[146,69],[152,69],[161,69],[166,69],[170,68],[170,68]],\"pivotIndexes\":[0,7],\"subStrokes\":[{\"direction\":255,\"length\":94,\"centerX\":8,\"centerY\":1}]},{\"points\":[[47,97],[48,97],[54,97],[89,103],[117,104],[146,101],[169,100],[176,98],[180,98],[184,98],[189,98],[193,98],[195,98],[195,98]],\"pivotIndexes\":[0,13],\"subStrokes\":[{\"direction\":0,\"length\":166,\"centerX\":7,\"centerY\":4}]},{\"points\":[[103,109],[103,110],[99,132],[91,156],[70,180],[56,190],[53,192]],\"pivotIndexes\":[0,6],\"subStrokes\":[{\"direction\":170,\"length\":109,\"centerX\":3,\"centerY\":9}]},{\"points\":[[143,105],[143,106],[142,114],[140,134],[138,149],[138,160],[138,167],[140,174],[144,182],[150,186],[155,190],[161,193],[166,194],[172,196],[188,197],[193,197],[197,197],[206,197],[206,196],[207,196],[208,196],[208,194],[204,182],[203,174],[202,174],[202,175],[202,176]],\"pivotIndexes\":[0,10,18,20,24,26],\"subStrokes\":[{\"direction\":198,\"length\":96,\"centerX\":10,\"centerY\":9},{\"direction\":251,\"length\":58,\"centerX\":12,\"centerY\":13},{\"direction\":0,\"length\":2,\"centerX\":15,\"centerY\":14},{\"direction\":75,\"length\":26,\"centerX\":15,\"centerY\":13},{\"direction\":192,\"length\":2,\"centerX\":14,\"centerY\":12}]}],\"subStrokeCount\":8}";
const STROKES_4: &str = "[[[76,32],[76,33],[75,37],[73,43],[70,51],[67,58],[64,66],[61,72],[57,77],[52,82],[50,85],[50,85]],[[68,58],[69,58],[76,58],[90,59],[100,60],[110,62],[118,62],[132,62],[136,62],[141,62],[145,62],[146,62],[148,62],[148,62]],[[68,95],[69,95],[77,96],[96,96],[105,96],[110,96],[126,97],[144,98],[146,98],[154,98],[156,98],[156,98]],[[59,126],[60,126],[67,126],[90,130],[107,131],[120,132],[134,132],[149,132],[151,132],[156,132],[158,133],[158,134],[156,142],[154,147],[153,155],[152,160],[151,166],[150,172],[150,179],[150,183],[150,186],[150,190],[151,194],[152,199],[156,204],[158,206],[162,209],[167,213],[171,215],[175,216],[184,220],[192,222],[196,223],[200,224],[204,225],[208,225],[210,225],[214,225],[218,223],[218,222],[216,214],[214,208],[214,207],[214,207]],[[79,147],[82,148],[87,155],[91,161],[91,161]],[[124,148],[123,148],[116,155],[110,162],[108,164],[108,164]],[[73,175],[75,175],[88,178],[98,180],[104,180],[111,182],[117,182],[122,182],[125,182]],[[100,148],[100,151],[102,172],[102,195],[103,204],[103,211],[104,216],[104,220],[104,224]],[[94,189],[93,189],[81,204],[72,210],[71,210]],[[109,192],[112,194],[120,199],[132,208],[133,210],[133,210]]]";
const AN_CHAR_4: &str = "{\"top\":32,\"bottom\":225,\"left\":50,\"right\":218,\"analyzedStrokes\":[{\"points\":[[76,32],[76,33],[75,37],[73,43],[70,51],[67,58],[64,66],[61,72],[57,77],[52,82],[50,85],[50,85]],\"pivotIndexes\":[0,11],\"subStrokes\":[{\"direction\":173,\"length\":55,\"centerX\":2,\"centerY\":2}]},{\"points\":[[68,58],[69,58],[76,58],[90,59],[100,60],[110,62],[118,62],[132,62],[136,62],[141,62],[145,62],[146,62],[148,62],[148,62]],\"pivotIndexes\":[0,13],\"subStrokes\":[{\"direction\":254,\"length\":75,\"centerX\":5,\"centerY\":2}]},{\"points\":[[68,95],[69,95],[77,96],[96,96],[105,96],[110,96],[126,97],[144,98],[146,98],[154,98],[156,98],[156,98]],\"pivotIndexes\":[0,11],\"subStrokes\":[{\"direction\":255,\"length\":82,\"centerX\":6,\"centerY\":5}]},{\"points\":[[59,126],[60,126],[67,126],[90,130],[107,131],[120,132],[134,132],[149,132],[151,132],[156,132],[158,133],[158,134],[156,142],[154,147],[153,155],[152,160],[151,166],[150,172],[150,179],[150,183],[150,186],[150,190],[151,194],[152,199],[156,204],[158,206],[162,209],[167,213],[171,215],[175,216],[184,220],[192,222],[196,223],[200,224],[204,225],[208,225],[210,225],[214,225],[218,223],[218,222],[216,214],[214,208],[214,207],[214,207]],\"pivotIndexes\":[0,10,26,39,43],\"subStrokes\":[{\"direction\":253,\"length\":93,\"centerX\":6,\"centerY\":8},{\"direction\":194,\"length\":71,\"centerX\":10,\"centerY\":11},{\"direction\":247,\"length\":54,\"centerX\":12,\"centerY\":14},{\"direction\":75,\"length\":15,\"centerX\":14,\"centerY\":14}]},{\"points\":[[79,147],[82,148],[87,155],[91,161],[91,161]],\"pivotIndexes\":[0,4],\"subStrokes\":[{\"direction\":221,\"length\":17,\"centerX\":4,\"centerY\":9}]},{\"points\":[[124,148],[123,148],[116,155],[110,162],[108,164],[108,164]],\"pivotIndexes\":[0,5],\"subStrokes\":[{\"direction\":160,\"length\":21,\"centerX\":6,\"centerY\":10}]},{\"points\":[[73,175],[75,175],[88,178],[98,180],[104,180],[111,182],[117,182],[122,182],[125,182]],\"pivotIndexes\":[0,8],\"subStrokes\":[{\"direction\":251,\"length\":49,\"centerX\":5,\"centerY\":11}]},{\"points\":[[100,148],[100,151],[102,172],[102,195],[103,204],[103,211],[104,216],[104,220],[104,224]],\"pivotIndexes\":[0,8],\"subStrokes\":[{\"direction\":194,\"length\":71,\"centerX\":5,\"centerY\":12}]},{\"points\":[[94,189],[93,189],[81,204],[72,210],[71,210]],\"pivotIndexes\":[0,4],\"subStrokes\":[{\"direction\":158,\"length\":29,\"centerX\":3,\"centerY\":13}]},{\"points\":[[109,192],[112,194],[120,199],[132,208],[133,210],[133,210]],\"pivotIndexes\":[0,5],\"subStrokes\":[{\"direction\":230,\"length\":28,\"centerX\":6,\"centerY\":13}]}],\"subStrokeCount\":13}";

fn number(value: &serde_json::Value) -> u64 {
    value.as_u64().unwrap()
}

fn sample(str_strokes: &str, str_an_char: &str) -> (Vec<Stroke>, serde_json::Value) {
    let strokes = parse_sample(str_strokes).unwrap();
    let an_char: serde_json::Value = serde_json::from_str(str_an_char).unwrap();
    (strokes, an_char)
}

fn assert_same(sample_anc: &serde_json::Value, anc: &AnalyzedCharacter) {
    let sample_strokes = sample_anc["analyzedStrokes"].as_array().unwrap();
    assert!(
        sample_strokes.len() == anc.analyzed_strokes.len(),
        "Expected same number of analyzed strokes."
    );
    for as_ix in 0..sample_strokes.len() {
        // Reference same analyzed stroke
        let sample_ans = &sample_strokes[as_ix];
        let ans = &anc.analyzed_strokes[as_ix];
        // Analyzed stroke must have same points
        let sample_points = sample_ans["points"].as_array().unwrap();
        assert!(
            sample_points.len() == ans.points.len(),
            "Analyzed stroke expected to have same number of points."
        );
        for pt_ix in 0..sample_points.len() {
            assert!(
                number(&sample_points[pt_ix][0]) == ans.points[pt_ix].x as u64,
                "Analyzed stroke expected to have the exact same points."
            );
            assert!(
                number(&sample_points[pt_ix][1]) == ans.points[pt_ix].y as u64,
                "Analyzed stroke expected to have the exact same points."
            );
        }
        // Analyzed stroke must have same pivot indexes
        let sample_pivots = sample_ans["pivotIndexes"].as_array().unwrap();
        assert!(
            sample_pivots.len() == ans.pivot_indexes.len(),
            "Analyzed stroke expected to have same number of pivot indexes."
        );
        for pivot_ix in 0..sample_pivots.len() {
            assert!(
                number(&sample_pivots[pivot_ix]) == ans.pivot_indexes[pivot_ix] as u64,
                "Analyzed stroke expected to have the exact same pivot indexes."
            );
        }
        // Analyzed stroke must have same substrokes
        let sample_subs = sample_ans["subStrokes"].as_array().unwrap();
        assert!(
            sample_subs.len() == ans.sub_strokes.len(),
            "Analyzed stroke expected to have same number of substrokes."
        );
        for ss_ix in 0..sample_subs.len() {
            assert!(
                number(&sample_subs[ss_ix]["direction"]) == ans.sub_strokes[ss_ix].direction as u64,
                "Analyzed stroke must have the exact same substrokes."
            );
            assert!(
                number(&sample_subs[ss_ix]["length"]) == ans.sub_strokes[ss_ix].length as u64,
                "Analyzed stroke must have the exact same substrokes."
            );
            assert!(
                number(&sample_subs[ss_ix]["centerX"]) == ans.sub_strokes[ss_ix].center_x as u64,
                "Analyzed stroke must have the exact same substrokes."
            );
            assert!(
                number(&sample_subs[ss_ix]["centerY"]) == ans.sub_strokes[ss_ix].center_y as u64,
                "Analyzed stroke must have the exact same substrokes."
            );
        }
    }
    assert!(number(&sample_anc["subStrokeCount"]) == anc.sub_stroke_count as u64);
}

#[test]
fn test_samples() {
    {
        let sample = sample(STROKES_1, AN_CHAR_1);
        let ac = AnalyzedCharacter::from_strokes(&sample.0);
        assert_same(&sample.1, &ac);
    }
    {
        let sample = sample(STROKES_2, AN_CHAR_2);
        let ac = AnalyzedCharacter::from_strokes(&sample.0);
        assert_same(&sample.1, &ac);
    }
    {
        let sample = sample(STROKES_3, AN_CHAR_3);
        let ac = AnalyzedCharacter::from_strokes(&sample.0);
        assert_same(&sample.1, &ac);
    }
    {
        let sample = sample(STROKES_4, AN_CHAR_4);
        let ac = AnalyzedCharacter::from_strokes(&sample.0);
        assert_same(&sample.1, &ac);
    }
}

#[test]
fn horizontal_stroke_is_one_sub_stroke() {
    let strokes = parse_sample(STROKES_1).unwrap();
    let ac = AnalyzedCharacter::from_strokes(&strokes);
    assert_eq!(ac.analyzed_strokes.len(), 1);
    assert_eq!(ac.analyzed_strokes[0].pivot_indexes, vec![0, 11]);
    assert_eq!(ac.sub_stroke_count, 1);
    let only = ac.get_analyzed_strokes()[0];
    assert_eq!((only.direction, only.length, only.center_x, only.center_y), (0, 180, 8, 7));
}

#[test]
fn cross_has_two_sub_strokes() {
    let strokes = parse_sample(STROKES_2).unwrap();
    let ac = AnalyzedCharacter::from_strokes(&strokes);
    assert_eq!(ac.sub_stroke_count, 2);
    assert_eq!(ac.analyzed_strokes[0].pivot_indexes, vec![0, 15]);
    assert_eq!(ac.analyzed_strokes[1].pivot_indexes, vec![0, 15]);
}

#[test]
fn four_strokes_give_eight_sub_strokes() {
    let strokes = parse_sample(STROKES_3).unwrap();
    let ac = AnalyzedCharacter::from_strokes(&strokes);
    assert_eq!(ac.sub_stroke_count, 8);
    assert_eq!(ac.analyzed_strokes[3].pivot_indexes, vec![0, 10, 18, 20, 24, 26]);
}

#[test]
fn ten_strokes_give_thirteen_sub_strokes() {
    let strokes = parse_sample(STROKES_4).unwrap();
    let ac = AnalyzedCharacter::from_strokes(&strokes);
    assert_eq!(ac.analyzed_strokes.len(), 10);
    assert_eq!(ac.sub_stroke_count, 13);
    assert_eq!(ac.get_analyzed_strokes().len(), 13);
}

#[test]
fn analysis_is_repeatable() {
    let strokes = parse_sample(STROKES_3).unwrap();
    let first = AnalyzedCharacter::from_strokes(&strokes).get_analyzed_strokes();
    let second = AnalyzedCharacter::from_strokes(&strokes).get_analyzed_strokes();
    assert_eq!(first, second);
}

#[test]
fn empty_input_has_no_sub_strokes() {
    let strokes: Vec<Stroke> = Vec::new();
    let ac = AnalyzedCharacter::from_strokes(&strokes);
    assert_eq!(ac.analyzed_strokes.len(), 0);
    assert_eq!(ac.sub_stroke_count, 0);
    assert!(ac.get_analyzed_strokes().is_empty());
}

#[test]
fn strokes_without_two_places_have_no_sub_strokes() {
    let p = Point { x: 40, y: 50 };
    let strokes = vec![
        Stroke { points: vec![] },
        Stroke { points: vec![p] },
        Stroke { points: vec![p, p] },
        Stroke { points: vec![p, p, p, p] },
    ];
    let ac = AnalyzedCharacter::from_strokes(&strokes);
    assert_eq!(ac.analyzed_strokes.len(), 4);
    assert_eq!(ac.analyzed_strokes[0].pivot_indexes, Vec::<usize>::new());
    assert_eq!(ac.analyzed_strokes[1].pivot_indexes, vec![0]);
    assert_eq!(ac.analyzed_strokes[2].pivot_indexes, vec![0, 1]);
    assert_eq!(ac.sub_stroke_count, 0);
}

#[test]
fn bounding_rect_of_nothing_is_everything() {
    let rect = get_bounding_rect(&Vec::new());
    assert_eq!(rect, Rect { top: 0, bottom: 255, left: 0, right: 255 });
    let rect = get_bounding_rect(&vec![Stroke { points: vec![] }]);
    assert_eq!(rect, Rect { top: 0, bottom: 255, left: 0, right: 255 });
}

#[test]
fn bounding_rect_touches_the_outermost_points() {
    let strokes = parse_sample(STROKES_2).unwrap();
    assert_eq!(get_bounding_rect(&strokes), Rect { top: 60, bottom: 203, left: 76, right: 169 });
    let one = vec![Stroke { points: vec![Point { x: 7, y: 9 }] }];
    assert_eq!(get_bounding_rect(&one), Rect { top: 9, bottom: 9, left: 7, right: 7 });
}

#[test]
fn distance_is_the_rounded_down_root() {
    let a = Point { x: 0, y: 0 };
    assert_eq!(dist(a, a), 0);
    assert_eq!(dist(a, Point { x: 3, y: 4 }), 5 * SCALE as u128);
    assert_eq!(dist(Point { x: 255, y: 0 }, Point { x: 0, y: 0 }), 255 * SCALE as u128);
    // The square root of 2 is 1.41421356237...
    assert_eq!(dist(a, Point { x: 1, y: 1 }), 1_448_154_687);
}

#[test]
fn a_corner_is_a_pivot() {
    // Right by 100, then down by 100.
    let mut points: Vec<Point> = Vec::new();
    for k in 0..=10u8 {
        points.push(Point { x: 10 * k, y: 0 });
    }
    for k in 1..=10u8 {
        points.push(Point { x: 100, y: 10 * k });
    }
    let stroke = Stroke { points };
    assert_eq!(get_pivot_indexes(&stroke), vec![0, 10, 20]);
}

#[test]
fn a_pivot_close_to_the_next_gives_way() {
    // The corner at the second point is 10 away from the first point, which is less than the
    // shortest segment: the first point is no pivot any more.
    let stroke = Stroke {
        points: vec![Point { x: 0, y: 0 }, Point { x: 10, y: 0 }, Point { x: 10, y: 30 }],
    };
    let pivots = get_pivot_indexes(&stroke);
    assert_eq!(pivots, vec![1, 2]);
    // The first sub-stroke still starts at the first point.
    let rect = get_bounding_rect(&vec![Stroke { points: stroke.points.clone() }]);
    let sub_strokes = build_sub_strokes(&stroke, &pivots, &rect);
    assert_eq!(sub_strokes.len(), 2);
    assert_eq!(sub_strokes[0].direction, 0);
    assert_eq!(sub_strokes[1].direction, 192);
}

#[test]
fn a_short_tail_is_dropped() {
    // A corner 5 before the end: the corner is no pivot, the end is.
    let mut points: Vec<Point> = Vec::new();
    for k in 0..=10u8 {
        points.push(Point { x: 10 * k, y: 0 });
    }
    points.push(Point { x: 100, y: 5 });
    let stroke = Stroke { points };
    assert_eq!(get_pivot_indexes(&stroke), vec![0, 11]);
}

#[test]
fn direction_agrees_with_the_arc_tangent() {
    // From each corner of the coordinate range to every other point.
    for ax in [0u8, 255u8] {
        for ay in [0u8, 255u8] {
            for bx in 0..=255u8 {
                for by in 0..=255u8 {
                    if ax == bx && ay == by {
                        continue;
                    }
                    let a = Point { x: ax, y: ay };
                    let b = Point { x: bx, y: by };
                    let dx = (a.x as f64) - (b.x as f64);
                    let dy = (a.y as f64) - (b.y as f64);
                    let angle = std::f64::consts::PI - dy.atan2(dx);
                    let mut direction = (angle * 256.0 / std::f64::consts::PI / 2.0).round();
                    if direction >= 256.0 {
                        direction = 0.0;
                    }
                    assert_eq!(dir(a, b), direction as u8, "from {:?} to {:?}", a, b);
                }
            }
        }
    }
}

#[test]
fn direction_of_the_main_axes() {
    let o = Point { x: 100, y: 100 };
    assert_eq!(dir(o, Point { x: 200, y: 100 }), 0);
    assert_eq!(dir(o, Point { x: 200, y: 0 }), 32);
    assert_eq!(dir(o, Point { x: 100, y: 0 }), 64);
    assert_eq!(dir(o, Point { x: 0, y: 100 }), 128);
    assert_eq!(dir(o, Point { x: 100, y: 200 }), 192);
    assert_eq!(dir(o, Point { x: 200, y: 101 }), 0);
    assert_eq!(dir(o, Point { x: 200, y: 102 }), 255);
    assert_eq!(dir(o, o), 128);
}

#[test]
fn length_and_center_agree_with_the_formulas() {
    let rects = [
        Rect { top: 60, bottom: 203, left: 76, right: 169 },
        Rect { top: 124, bottom: 126, left: 70, right: 191 },
        Rect { top: 0, bottom: 255, left: 0, right: 255 },
        Rect { top: 10, bottom: 11, left: 3, right: 250 },
    ];
    let mut checked = 0;
    for rect in rects.iter() {
        let width = (rect.right - rect.left) as f64;
        let height = (rect.bottom - rect.top) as f64;
        let side = width.max(height);
        let mut seed: u32 = 12345;
        for _ in 0..2000 {
            let mut coordinate = |low: u8, high: u8| {
                seed = seed.wrapping_mul(1664525).wrapping_add(1013904223);
                low + ((seed >> 8) % (high as u32 - low as u32 + 1)) as u8
            };
            let a = Point { x: coordinate(rect.left, rect.right), y: coordinate(rect.top, rect.bottom) };
            let b = Point { x: coordinate(rect.left, rect.right), y: coordinate(rect.top, rect.bottom) };
            let dx = a.x as f64 - b.x as f64;
            let dy = a.y as f64 - b.y as f64;
            let length = ((dx * dx + dy * dy).sqrt() / (2.0 * side * side).sqrt()).min(1.0) * 255.0;
            let mut x = (a.x as f64 + b.x as f64) / 2.0 - rect.left as f64;
            let mut y = (a.y as f64 + b.y as f64) / 2.0 - rect.top as f64;
            if width > height {
                y += (side - height) / 2.0;
            } else {
                x += (side - width) / 2.0;
            }
            let cx = x / side * 15.0;
            let cy = y / side * 15.0;
            let near_tie = |v: f64| ((v - v.floor()) - 0.5).abs() < 1e-9;
            if !near_tie(length) {
                assert_eq!(norm_dist(a, b, rect), length.round() as u8);
                checked += 1;
            }
            let center = get_norm_center(a, b, rect);
            if !near_tie(cx) {
                assert_eq!(center.0, cx.round() as u8);
            }
            if !near_tie(cy) {
                assert_eq!(center.1, cy.round() as u8);
            }
        }
    }
    assert!(checked > 7000);
}

#[test]
fn length_and_center_round_halves_up() {
    // The segment is 1.5/255 of the diagonal of the square with the side 170.
    let rect = Rect { top: 0, bottom: 170, left: 0, right: 170 };
    assert_eq!(norm_dist(Point { x: 0, y: 0 }, Point { x: 1, y: 1 }, &rect), 2);
    // The middle of the square is at 7.5 on both axes.
    assert_eq!(get_norm_center(Point { x: 85, y: 85 }, Point { x: 85, y: 85 }, &rect), (8, 8));
    assert_eq!(get_norm_center(Point { x: 0, y: 0 }, Point { x: 0, y: 0 }, &rect), (0, 0));
    assert_eq!(get_norm_center(Point { x: 170, y: 170 }, Point { x: 170, y: 170 }, &rect), (15, 15));
}
