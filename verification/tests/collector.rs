use hanzi_lookup::match_collector::MatchCollector;
use hanzi_lookup::Match;

fn file_all(max: u32, candidates: &[Match]) -> Vec<Match> {
    let mut matches: Vec<Match> = Vec::new();
    let mut collector = MatchCollector::new(&mut matches, max);
    for mc in candidates {
        collector.file_match(*mc);
    }
    matches
}

fn mc(hanzi: char, score: i64) -> Match {
    Match { hanzi, score }
}

#[test]
fn test_filing() {
    let mut matches: Vec<Match> = Vec::new();
    let mut collector = MatchCollector::new(&mut matches, 3);
    // The scores 0.8, 0.9, 0.7, 0.7 and 1.0.
    let mc1 = Match { hanzi: '我', score: 819_200_000 };
    let mc2 = Match { hanzi: '你', score: 921_600_000 };
    let mc3 = Match { hanzi: '我', score: 716_800_000 };
    let mc4 = Match { hanzi: '他', score: 716_800_000 };
    let mc5 = Match { hanzi: '鸡', score: 1_024_000_000 };
    collector.file_match(mc1);
    collector.file_match(mc2);
    collector.file_match(mc3);
    collector.file_match(mc4);
    collector.file_match(mc5);
    assert_eq!(matches, [mc5, mc2, mc1]);
}

#[test]
fn a_new_collector_is_empty() {
    let mut matches: Vec<Match> = Vec::new();
    let collector = MatchCollector::new(&mut matches, 1);
    assert_eq!(collector.max, 1);
    assert!(collector.matches.is_empty());
}

#[test]
fn filing_respects_the_limit() {
    let candidates: Vec<Match> =
        (0..20).map(|k| mc(char::from_u32(0x4e00 + k).unwrap(), (k as i64 * 37) % 11)).collect();
    for max in 1..=8u32 {
        let matches = file_all(max, &candidates);
        assert_eq!(matches.len(), max as usize);
    }
    assert_eq!(file_all(30, &candidates).len(), 20);
}

#[test]
fn filing_keeps_order_and_one_entry_per_character() {
    let mut seed: u32 = 99;
    let mut candidates: Vec<Match> = Vec::new();
    for _ in 0..300 {
        seed = seed.wrapping_mul(1664525).wrapping_add(1013904223);
        let hanzi = char::from_u32(0x4e00 + (seed >> 10) % 25).unwrap();
        let score = ((seed >> 3) % 40) as i64 - 20;
        candidates.push(mc(hanzi, score));
    }
    for max in [1u32, 2, 5, 13, 40] {
        let matches = file_all(max, &candidates);
        assert!(matches.len() <= max as usize);
        for i in 1..matches.len() {
            assert!(matches[i - 1].score >= matches[i].score);
        }
        for i in 0..matches.len() {
            for j in 0..i {
                assert_ne!(matches[i].hanzi, matches[j].hanzi);
            }
            assert!(candidates.contains(&matches[i]));
        }
    }
}

#[test]
fn the_best_score_of_a_character_is_kept() {
    let matches = file_all(5, &[mc('一', 3), mc('二', 9), mc('一', 7), mc('一', 5)]);
    assert_eq!(matches, [mc('二', 9), mc('一', 7)]);
}

#[test]
fn a_higher_score_replaces_in_place() {
    let held = [mc('一', 9), mc('二', 6), mc('三', 3)];
    let mut candidates = held.to_vec();
    candidates.push(mc('二', 8));
    assert_eq!(file_all(3, &candidates), [mc('一', 9), mc('二', 8), mc('三', 3)]);
}

#[test]
fn a_higher_score_moves_its_character_up() {
    let held = [mc('一', 9), mc('二', 6), mc('三', 3)];
    let mut candidates = held.to_vec();
    candidates.push(mc('三', 7));
    assert_eq!(file_all(3, &candidates), [mc('一', 9), mc('三', 7), mc('二', 6)]);
    let mut candidates = held.to_vec();
    candidates.push(mc('三', 9));
    assert_eq!(file_all(3, &candidates), [mc('一', 9), mc('三', 9), mc('二', 6)]);
}

#[test]
fn a_lower_or_equal_score_changes_nothing() {
    let held = [mc('一', 9), mc('二', 6), mc('三', 3)];
    for score in [6, 5, -100] {
        let mut candidates = held.to_vec();
        candidates.push(mc('二', score));
        assert_eq!(file_all(3, &candidates), held);
        assert_eq!(file_all(4, &candidates), held);
    }
}

#[test]
fn a_full_collector_takes_only_better_candidates() {
    let held = [mc('一', 9), mc('二', 6)];
    let mut candidates = held.to_vec();
    candidates.push(mc('三', 6));
    assert_eq!(file_all(2, &candidates), held);
    let mut candidates = held.to_vec();
    candidates.push(mc('三', 7));
    assert_eq!(file_all(2, &candidates), [mc('一', 9), mc('三', 7)]);
}

#[test]
fn the_order_of_filing_is_irrelevant() {
    let held = [mc('一', 9), mc('二', 6), mc('三', 3)];
    let pairs = [
        (mc('四', 7), mc('五', 1)),
        (mc('四', 10), mc('二', 8)),
        (mc('三', 12), mc('一', 2)),
        (mc('四', 3), mc('五', 6)),
        (mc('四', 4), mc('三', 5)),
    ];
    for max in 3..=5u32 {
        for (m1, m2) in pairs.iter() {
            let mut one = held.to_vec();
            one.push(*m1);
            one.push(*m2);
            let mut other = held.to_vec();
            other.push(*m2);
            other.push(*m1);
            assert_eq!(file_all(max, &one), file_all(max, &other));
        }
    }
}

#[test]
fn equal_scores_stand_in_the_order_of_arrival() {
    assert_eq!(file_all(2, &[mc('一', 5), mc('二', 5)]), [mc('一', 5), mc('二', 5)]);
    assert_eq!(file_all(2, &[mc('二', 5), mc('一', 5)]), [mc('二', 5), mc('一', 5)]);
}
