use hanzi_lookup::sample::{parse_sample, strokes_from_numbers, SampleError};
use hanzi_lookup::Point;

#[test]
fn a_character_is_read_from_text() {
    let strokes = parse_sample("[[[70,124],[71,124]],[],[[0,255]]]").unwrap();
    assert_eq!(strokes.len(), 3);
    assert_eq!(strokes[0].points, vec![Point { x: 70, y: 124 }, Point { x: 71, y: 124 }]);
    assert!(strokes[1].points.is_empty());
    assert_eq!(strokes[2].points, vec![Point { x: 0, y: 255 }]);
    assert!(parse_sample(" [ ] ").unwrap().is_empty());
}

#[test]
fn what_is_not_a_list_of_strokes_is_refused() {
    for text in ["", "[[[1,2]]", "[[[1,256]]]", "[[[1,-2]]]", "[[[1.5,2]]]", "[[1,2]]", "{}"] {
        assert_eq!(parse_sample(text).unwrap_err(), SampleError::Json, "{}", text);
    }
}

#[test]
fn a_point_needs_two_numbers() {
    assert_eq!(parse_sample("[[[1,2],[3]]]").unwrap_err(), SampleError::Point);
    assert_eq!(parse_sample("[[[]]]").unwrap_err(), SampleError::Point);
    let strokes = parse_sample("[[[1,2,3]]]").unwrap();
    assert_eq!(strokes[0].points, vec![Point { x: 1, y: 2 }]);
}

#[test]
fn strokes_are_made_of_numbers() {
    let numbers = vec![vec![vec![5u8, 6], vec![7, 8]], vec![vec![9, 10]]];
    let strokes = strokes_from_numbers(&numbers).unwrap();
    assert_eq!(strokes[0].points, vec![Point { x: 5, y: 6 }, Point { x: 7, y: 8 }]);
    assert_eq!(strokes[1].points, vec![Point { x: 9, y: 10 }]);
    let numbers = vec![vec![vec![5u8, 6], vec![7]]];
    assert_eq!(strokes_from_numbers(&numbers).unwrap_err(), SampleError::Point);
}
