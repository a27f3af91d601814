use hanzi_lookup::replay::{clone_stroke, incremental_replay};
use hanzi_lookup::{Point, Stroke};

fn stroke(points: &[(u8, u8)]) -> Stroke {
    Stroke { points: points.iter().map(|p| Point { x: p.0, y: p.1 }).collect() }
}

#[test]
fn a_copy_has_the_same_points() {
    let drawn = stroke(&[(1, 2), (3, 4), (5, 6)]);
    assert_eq!(clone_stroke(&drawn).points, drawn.points);
    assert!(clone_stroke(&stroke(&[])).points.is_empty());
}

#[test]
fn a_replay_has_the_beginnings_of_each_character() {
    let chars = vec![
        vec![stroke(&[(1, 1)]), stroke(&[(2, 2)]), stroke(&[(3, 3)])],
        vec![],
        vec![stroke(&[(4, 4)])],
        vec![stroke(&[(5, 5)]), stroke(&[(6, 6), (7, 7)])],
    ];
    let replay = incremental_replay(&chars);
    let points: Vec<Vec<Vec<Point>>> =
        replay.iter().map(|c| c.iter().map(|s| s.points.clone()).collect()).collect();
    let at = |x: u8| Point { x, y: x };
    assert_eq!(
        points,
        vec![vec![vec![at(1)]], vec![vec![at(1)], vec![at(2)]], vec![vec![at(5)]]]
    );
    assert!(incremental_replay(&Vec::new()).is_empty());
}
