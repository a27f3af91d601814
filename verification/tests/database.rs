use hanzi_lookup::database::{
    assemble, from_records, load_strokes, parse_json_strokes, save_strokes, to_records,
    CorpusChar, CorpusError, DatabaseError,
};
use hanzi_lookup::matcher::{CharData, SubStrokeTriple};

fn triple(dir: u8, length: u8, center: u8) -> SubStrokeTriple {
    SubStrokeTriple { dir, length, center }
}

fn same(a: &Vec<CharData>, b: &Vec<CharData>) -> bool {
    a.len() == b.len()
        && a.iter().zip(b.iter()).all(|(x, y)| {
            x.hanzi == y.hanzi && x.stroke_count == y.stroke_count && x.sub_strokes == y.sub_strokes
        })
}

fn two_characters() -> Vec<CharData> {
    vec![
        CharData { hanzi: '一', stroke_count: 1, sub_strokes: vec![triple(0, 180, 0x87)] },
        CharData {
            hanzi: '十',
            stroke_count: 2,
            sub_strokes: vec![triple(254, 117, 0x87), triple(193, 180, 0x88)],
        },
    ]
}

/// The binary form of `two_characters`: every list begins with its length in eight bytes, the
/// low byte first; a character is written in UTF-8, a stroke count in two bytes.
fn two_characters_bytes() -> Vec<u8> {
    vec![
        2, 0, 0, 0, 0, 0, 0, 0, // two characters
        0xe4, 0xb8, 0x80, // 一
        1, 0, // one stroke
        1, 0, 0, 0, 0, 0, 0, 0, // one sub-stroke
        0, 180, 0x87, //
        0xe5, 0x8d, 0x81, // 十
        2, 0, // two strokes
        2, 0, 0, 0, 0, 0, 0, 0, // two sub-strokes
        254, 117, 0x87, //
        193, 180, 0x88,
    ]
}

#[test]
fn a_database_is_read_from_its_binary_form() {
    let char_data = load_strokes(&two_characters_bytes()).unwrap();
    assert!(same(&char_data, &two_characters()));
}

#[test]
fn a_database_is_written_in_its_binary_form() {
    assert_eq!(save_strokes(&two_characters()).unwrap(), two_characters_bytes());
    assert_eq!(save_strokes(&Vec::new()).unwrap(), vec![0u8; 8]);
}

#[test]
fn what_is_written_is_read_back() {
    let mut char_data: Vec<CharData> = Vec::new();
    for k in 0..200u32 {
        let sub_strokes = (0..(k % 64)).map(|j| triple((k + j) as u8, (3 * j) as u8, (k * j) as u8));
        char_data.push(CharData {
            hanzi: char::from_u32(0x4e00 + 97 * k).unwrap(),
            stroke_count: (k % 48) as u16,
            sub_strokes: sub_strokes.collect(),
        });
    }
    let bytes = save_strokes(&char_data).unwrap();
    assert!(same(&load_strokes(&bytes).unwrap(), &char_data));
}

#[test]
fn the_binary_form_is_that_of_bincode() {
    let records = to_records(&two_characters());
    assert_eq!(records[1], ('十', 2u16, vec![(254u8, 117u8, 0x87u8), (193, 180, 0x88)]));
    assert_eq!(bincode::serialize(&records).unwrap(), two_characters_bytes());
    let read: Vec<(char, u16, Vec<(u8, u8, u8)>)> =
        bincode::deserialize(&two_characters_bytes()).unwrap();
    assert!(same(&from_records(&read), &two_characters()));
}

#[test]
fn corrupt_bytes_are_no_database() {
    assert_eq!(load_strokes(&[]).unwrap_err(), DatabaseError::Corrupt);
    let mut bytes = two_characters_bytes();
    bytes.truncate(30);
    assert_eq!(load_strokes(&bytes).unwrap_err(), DatabaseError::Corrupt);
    // A byte that cannot begin a character.
    let mut bytes = two_characters_bytes();
    bytes[8] = 0xff;
    assert_eq!(load_strokes(&bytes).unwrap_err(), DatabaseError::Corrupt);
    // More characters announced than there are.
    let mut bytes = two_characters_bytes();
    bytes[0] = 3;
    assert_eq!(load_strokes(&bytes).unwrap_err(), DatabaseError::Corrupt);
}

#[test]
fn an_empty_database_is_a_database() {
    assert!(load_strokes(&[0u8; 8]).unwrap().is_empty());
}

fn corpus() -> Vec<CorpusChar> {
    vec![
        CorpusChar { hanzi: '丿', stroke_count: 1, sub_stroke_count: 2, start: 0 },
        CorpusChar { hanzi: '一', stroke_count: 1, sub_stroke_count: 1, start: 6 },
        CorpusChar { hanzi: '丶', stroke_count: 1, sub_stroke_count: 0, start: 9 },
    ]
}

#[test]
fn a_corpus_is_put_together() {
    let bytes: Vec<u8> = vec![10, 11, 12, 20, 21, 22, 30, 31, 32];
    let char_data = assemble(&corpus(), &bytes).unwrap();
    let expected = vec![
        CharData {
            hanzi: '丿',
            stroke_count: 1,
            sub_strokes: vec![triple(10, 11, 12), triple(20, 21, 22)],
        },
        CharData { hanzi: '一', stroke_count: 1, sub_strokes: vec![triple(30, 31, 32)] },
        CharData { hanzi: '丶', stroke_count: 1, sub_strokes: vec![] },
    ];
    assert!(same(&char_data, &expected));
}

#[test]
fn sub_strokes_beyond_the_block_are_refused() {
    let bytes: Vec<u8> = vec![10, 11, 12, 20, 21, 22, 30, 31];
    assert_eq!(assemble(&corpus(), &bytes).unwrap_err(), CorpusError::OutOfRange);
    let far = vec![CorpusChar { hanzi: '一', stroke_count: 1, sub_stroke_count: 0, start: 9 }];
    assert_eq!(assemble(&far, &bytes).unwrap_err(), CorpusError::OutOfRange);
    let huge = vec![CorpusChar {
        hanzi: '一',
        stroke_count: 1,
        sub_stroke_count: u64::MAX,
        start: u64::MAX,
    }];
    assert_eq!(assemble(&huge, &bytes).unwrap_err(), CorpusError::OutOfRange);
    assert!(assemble(&Vec::new(), &Vec::new()).unwrap().is_empty());
}

#[test]
fn the_block_of_a_corpus_is_base64() {
    // "CgsMFBUWHh8g" is the base64 of 10, 11, 12, 20, 21, 22, 30, 31, 32.
    let char_data = parse_json_strokes(&corpus(), "CgsMFBUWHh8g").unwrap();
    assert_eq!(char_data[0].sub_strokes, vec![triple(10, 11, 12), triple(20, 21, 22)]);
    assert_eq!(char_data[1].sub_strokes, vec![triple(30, 31, 32)]);
    assert_eq!(char_data[1].hanzi, '一');
    assert_eq!(parse_json_strokes(&corpus(), "CgsM").unwrap_err(), CorpusError::OutOfRange);
    assert_eq!(parse_json_strokes(&corpus(), "C").unwrap_err(), CorpusError::Encoding);
    assert_eq!(parse_json_strokes(&corpus(), "!!!!").unwrap_err(), CorpusError::Encoding);
    assert!(parse_json_strokes(&Vec::new(), "").unwrap().is_empty());
}
