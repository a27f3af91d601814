//! What holds of filing candidates, whatever the candidates are.

use crate::match_collector::{
    capped, descending, distinct_hanzi, filed, holds_as_good, lemma_insert_at, lemma_placed,
    lemma_position_of, lemma_remove_at, lemma_slot_for, lemma_without, placed, position_of,
    slot_for, strictly_descending, well_formed, without,
};
use crate::Match;
use vstd::prelude::*;

verus! {

/// The list after `mc` has been filed with no limit on the length.
pub open spec fn merged(entries: Seq<Match>, mc: Match) -> Seq<Match> {
    if holds_as_good(entries, mc) {
        entries
    } else {
        placed(without(entries, mc.hanzi), mc)
    }
}

/// The slot for a score is the one index with no lower score before it
/// and a lower score at it.
proof fn lemma_slot_is(entries: Seq<Match>, score: i64, slot: int)
    requires
        0 <= slot <= entries.len(),
        forall|i: int| 0 <= i < slot ==> (#[trigger] entries[i]).score >= score,
        slot < entries.len() ==> entries[slot].score < score,
    ensures
        slot_for(entries, score, entries.len() as int) == slot,
{
    lemma_slot_for(entries, score, entries.len() as int);
    let found = slot_for(entries, score, entries.len() as int);
    if found < slot {
        assert(entries[found].score >= score);
    } else if slot < found {
        assert(entries[slot].score >= score);
    }
}

/// The position of a character is the first index that has it.
proof fn lemma_position_is(entries: Seq<Match>, hanzi: char, at: int)
    requires
        0 <= at < entries.len(),
        entries[at].hanzi == hanzi,
        forall|i: int| 0 <= i < at ==> (#[trigger] entries[i]).hanzi != hanzi,
    ensures
        position_of(entries, hanzi, entries.len() as int) == at,
{
    lemma_position_of(entries, hanzi, entries.len() as int);
    let found = position_of(entries, hanzi, entries.len() as int);
    if found < at {
        assert(entries[found].hanzi != hanzi);
    }
}

/// A character that no entry has, has no position.
proof fn lemma_position_none(entries: Seq<Match>, hanzi: char)
    requires
        forall|i: int| 0 <= i < entries.len() ==> (#[trigger] entries[i]).hanzi != hanzi,
    ensures
        position_of(entries, hanzi, entries.len() as int) == -1,
{
    lemma_position_of(entries, hanzi, entries.len() as int);
    let found = position_of(entries, hanzi, entries.len() as int);
    if found >= 0 {
        assert(entries[found].hanzi != hanzi);
    }
}

/// In a list without repeated characters, an entry at least as good as
/// `mc` is held exactly if some entry has `mc`'s character and at least
/// its score.
proof fn lemma_holds_as_good(entries: Seq<Match>, mc: Match)
    requires
        distinct_hanzi(entries),
    ensures
        holds_as_good(entries, mc) <==> exists|i: int|
            0 <= i < entries.len() && (#[trigger] entries[i]).hanzi == mc.hanzi && mc.score
                <= entries[i].score,
{
    lemma_position_of(entries, mc.hanzi, entries.len() as int);
    let found = position_of(entries, mc.hanzi, entries.len() as int);
    if holds_as_good(entries, mc) {
        assert(entries[found].hanzi == mc.hanzi && mc.score <= entries[found].score);
    }
    if exists|i: int|
        0 <= i < entries.len() && (#[trigger] entries[i]).hanzi == mc.hanzi && mc.score
            <= entries[i].score {
        let i = choose|i: int|
            0 <= i < entries.len() && (#[trigger] entries[i]).hanzi == mc.hanzi && mc.score
                <= entries[i].score;
        assert(0 <= found <= i);
        if found < i {
            assert(entries[found].hanzi != entries[i].hanzi);
        }
    }
}

/// Filing without a limit keeps order and distinctness and adds at most
/// one entry.
proof fn lemma_merged(entries: Seq<Match>, mc: Match)
    requires
        descending(entries),
        distinct_hanzi(entries),
    ensures
        descending(merged(entries, mc)),
        distinct_hanzi(merged(entries, mc)),
        merged(entries, mc).len() <= entries.len() + 1,
{
    lemma_without(entries, mc.hanzi);
    lemma_placed(without(entries, mc.hanzi), mc);
}

/// Filing is filing without a limit, followed by the cut to the limit.
proof fn lemma_filed_is_capped(entries: Seq<Match>, max: nat, mc: Match)
    requires
        well_formed(entries, max),
    ensures
        filed(entries, max, mc) == capped(merged(entries, mc), max),
{
    lemma_position_of(entries, mc.hanzi, entries.len() as int);
    let ix = position_of(entries, mc.hanzi, entries.len() as int);
    if entries.len() == max && mc.score <= entries.last().score {
        if !holds_as_good(entries, mc) {
            if ix >= 0 {
                if ix < entries.len() - 1 {
                    assert(entries[ix].score >= entries[entries.len() - 1].score);
                }
                assert(false);
            }
            assert(without(entries, mc.hanzi) == entries);
            assert forall|i: int| 0 <= i < entries.len() implies (#[trigger] entries[i]).score
                >= mc.score by {
                if i < entries.len() - 1 {
                    assert(entries[i].score >= entries[entries.len() - 1].score);
                }
            }
            lemma_slot_is(entries, mc.score, entries.len() as int);
            lemma_insert_at(entries, entries.len() as int, mc);
            assert(placed(entries, mc).take(max as int) =~= entries);
        }
    }
}

/// Two candidates with different scores can be put in in either order.
proof fn lemma_placed_commutes(entries: Seq<Match>, m1: Match, m2: Match)
    requires
        m1.score > m2.score,
    ensures
        placed(placed(entries, m1), m2) == placed(placed(entries, m2), m1),
{
    let n = entries.len() as int;
    lemma_slot_for(entries, m1.score, n);
    lemma_slot_for(entries, m2.score, n);
    let s1 = slot_for(entries, m1.score, n);
    let s2 = slot_for(entries, m2.score, n);
    if s2 < s1 {
        assert(entries[s2].score >= m1.score);
        assert(false);
    }
    let u1 = entries.insert(s1, m1);
    let u2 = entries.insert(s2, m2);
    lemma_insert_at(entries, s1, m1);
    lemma_insert_at(entries, s2, m2);
    assert forall|i: int| 0 <= i < s2 + 1 implies (#[trigger] u1[i]).score >= m2.score by {
        if i < s1 {
            assert(entries[i].score >= m1.score);
        } else if i > s1 {
            assert(entries[i - 1].score >= m2.score);
        }
    }
    lemma_slot_is(u1, m2.score, s2 + 1);
    assert forall|i: int| 0 <= i < s1 implies (#[trigger] u2[i]).score >= m1.score by {
        assert(entries[i].score >= m1.score);
    }
    lemma_slot_is(u2, m1.score, s1);
    lemma_insert_at(u1, s2 + 1, m2);
    lemma_insert_at(u2, s1, m1);
    assert(u1.insert(s2 + 1, m2) =~= u2.insert(s1, m1));
}

/// Taking one character out and putting a candidate for another in can be
/// done in either order.
proof fn lemma_without_placed(entries: Seq<Match>, hanzi: char, mc: Match)
    requires
        descending(entries),
        distinct_hanzi(entries),
        mc.hanzi != hanzi,
    ensures
        without(placed(entries, mc), hanzi) == placed(without(entries, hanzi), mc),
{
    let n = entries.len() as int;
    lemma_slot_for(entries, mc.score, n);
    lemma_position_of(entries, hanzi, n);
    let s = slot_for(entries, mc.score, n);
    let ix = position_of(entries, hanzi, n);
    let u = entries.insert(s, mc);
    lemma_insert_at(entries, s, mc);
    if ix < 0 {
        assert forall|i: int| 0 <= i < u.len() implies (#[trigger] u[i]).hanzi != hanzi by {
            if i < s {
                assert(entries[i].hanzi != hanzi);
            } else if i > s {
                assert(entries[i - 1].hanzi != hanzi);
            }
        }
        lemma_position_none(u, hanzi);
    } else {
        let moved = if ix < s {
            ix
        } else {
            ix + 1
        };
        assert forall|i: int| 0 <= i < moved implies (#[trigger] u[i]).hanzi != hanzi by {
            if i < s {
                if i < ix {
                    assert(entries[i].hanzi != entries[ix].hanzi);
                } else {
                    assert(entries[ix].hanzi != entries[i].hanzi);
                }
            } else if i > s {
                assert(entries[i - 1].hanzi != entries[ix].hanzi);
            }
        }
        lemma_position_is(u, hanzi, moved);
        let w = entries.remove(ix);
        lemma_remove_at(entries, ix);
        let slot = if ix < s {
            s - 1
        } else {
            s
        };
        assert forall|i: int| 0 <= i < slot implies (#[trigger] w[i]).score >= mc.score by {
            if i < ix {
                assert(entries[i].score >= mc.score);
            } else {
                assert(entries[i + 1].score >= mc.score);
            }
        }
        if slot < w.len() {
            if ix < s {
                assert(w[slot] == entries[s]);
            } else if s < ix {
                assert(w[slot] == entries[s]);
            } else {
                assert(w[slot] == entries[s + 1]);
                assert(entries[s].score >= entries[s + 1].score);
            }
        }
        lemma_slot_is(w, mc.score, slot);
        lemma_remove_at(u, moved);
        lemma_insert_at(w, slot, mc);
        assert(u.remove(moved) =~= w.insert(slot, mc));
    }
}

/// Two characters can be taken out in either order.
proof fn lemma_without_commutes(entries: Seq<Match>, h1: char, h2: char)
    requires
        distinct_hanzi(entries),
        h1 != h2,
    ensures
        without(without(entries, h1), h2) == without(without(entries, h2), h1),
{
    let n = entries.len() as int;
    lemma_position_of(entries, h1, n);
    lemma_position_of(entries, h2, n);
    let i1 = position_of(entries, h1, n);
    let i2 = position_of(entries, h2, n);
    if i1 < 0 && i2 < 0 {
    } else if i1 < 0 {
        let w = entries.remove(i2);
        lemma_remove_at(entries, i2);
        assert forall|i: int| 0 <= i < w.len() implies (#[trigger] w[i]).hanzi != h1 by {
            if i < i2 {
                assert(entries[i].hanzi != h1);
            } else {
                assert(entries[i + 1].hanzi != h1);
            }
        }
        lemma_position_none(w, h1);
    } else if i2 < 0 {
        let w = entries.remove(i1);
        lemma_remove_at(entries, i1);
        assert forall|i: int| 0 <= i < w.len() implies (#[trigger] w[i]).hanzi != h2 by {
            if i < i1 {
                assert(entries[i].hanzi != h2);
            } else {
                assert(entries[i + 1].hanzi != h2);
            }
        }
        lemma_position_none(w, h2);
    } else {
        let w1 = entries.remove(i1);
        let w2 = entries.remove(i2);
        lemma_remove_at(entries, i1);
        lemma_remove_at(entries, i2);
        let j2 = if i2 < i1 {
            i2
        } else {
            i2 - 1
        };
        let j1 = if i1 < i2 {
            i1
        } else {
            i1 - 1
        };
        assert forall|i: int| 0 <= i < j2 implies (#[trigger] w1[i]).hanzi != h2 by {
            let a = if i < i1 {
                i
            } else {
                i + 1
            };
            assert(entries[a].hanzi != entries[i2].hanzi);
        }
        lemma_position_is(w1, h2, j2);
        assert forall|i: int| 0 <= i < j1 implies (#[trigger] w2[i]).hanzi != h1 by {
            let a = if i < i2 {
                i
            } else {
                i + 1
            };
            assert(entries[a].hanzi != entries[i1].hanzi);
        }
        lemma_position_is(w2, h1, j1);
        lemma_remove_at(w1, j2);
        lemma_remove_at(w2, j1);
        assert(w1.remove(j2) =~= w2.remove(j1));
    }
}

/// Whether a candidate is held as good does not change when a candidate
/// for another character is filed without a limit.
proof fn lemma_good_after_merge(entries: Seq<Match>, m1: Match, m2: Match)
    requires
        descending(entries),
        distinct_hanzi(entries),
        m1.hanzi != m2.hanzi,
    ensures
        holds_as_good(merged(entries, m1), m2) == holds_as_good(entries, m2),
{
    let n = entries.len() as int;
    lemma_merged(entries, m1);
    lemma_holds_as_good(entries, m2);
    lemma_holds_as_good(merged(entries, m1), m2);
    if !holds_as_good(entries, m1) {
        lemma_without(entries, m1.hanzi);
        lemma_position_of(entries, m1.hanzi, n);
        let ix = position_of(entries, m1.hanzi, n);
        let w = without(entries, m1.hanzi);
        lemma_slot_for(w, m1.score, w.len() as int);
        let s = slot_for(w, m1.score, w.len() as int);
        let u = w.insert(s, m1);
        lemma_insert_at(w, s, m1);
        if ix >= 0 {
            lemma_remove_at(entries, ix);
        }
        if holds_as_good(entries, m2) {
            let i = choose|i: int|
                0 <= i < entries.len() && (#[trigger] entries[i]).hanzi == m2.hanzi && m2.score
                    <= entries[i].score;
            let j = if ix >= 0 && i > ix {
                i - 1
            } else {
                i
            };
            assert(w[j] == entries[i]);
            let k = if j < s {
                j
            } else {
                j + 1
            };
            assert(u[k] == entries[i]);
            assert(u[k].hanzi == m2.hanzi && m2.score <= u[k].score);
        }
        if holds_as_good(u, m2) {
            let k = choose|k: int|
                0 <= k < u.len() && (#[trigger] u[k]).hanzi == m2.hanzi && m2.score
                    <= u[k].score;
            let j = if k < s {
                k
            } else {
                k - 1
            };
            assert(u[k] == w[j]);
            let i = if ix >= 0 && j >= ix {
                j + 1
            } else {
                j
            };
            assert(w[j] == entries[i]);
            assert(entries[i].hanzi == m2.hanzi && m2.score <= entries[i].score);
        }
    }
}

/// Without a limit, candidates for different characters with different
/// scores can be filed in either order.
proof fn lemma_merged_commutes(entries: Seq<Match>, m1: Match, m2: Match)
    requires
        descending(entries),
        distinct_hanzi(entries),
        m1.hanzi != m2.hanzi,
        m1.score > m2.score,
    ensures
        merged(merged(entries, m1), m2) == merged(merged(entries, m2), m1),
{
    lemma_good_after_merge(entries, m1, m2);
    lemma_good_after_merge(entries, m2, m1);
    if !holds_as_good(entries, m1) && !holds_as_good(entries, m2) {
        let w1 = without(entries, m1.hanzi);
        let w2 = without(entries, m2.hanzi);
        lemma_without(entries, m1.hanzi);
        lemma_without(entries, m2.hanzi);
        lemma_without_placed(w1, m2.hanzi, m1);
        lemma_without_placed(w2, m1.hanzi, m2);
        lemma_without_commutes(entries, m1.hanzi, m2.hanzi);
        lemma_placed_commutes(without(w1, m2.hanzi), m1, m2);
    }
}

/// Filing into a list that is one entry over the limit and then cutting
/// gives what cutting first gives.
proof fn lemma_capped_merge(entries: Seq<Match>, max: nat, mc: Match)
    requires
        max >= 1,
        descending(entries),
        distinct_hanzi(entries),
        entries.len() <= max + 1,
    ensures
        capped(merged(capped(entries, max), mc), max) == capped(merged(entries, mc), max),
{
    if entries.len() == max + 1 {
        let n = entries.len() as int;
        let cut = entries.take(max as int);
        let last = entries[max as int];
        assert(cut.len() == max);
        assert forall|i: int| 0 <= i < max implies #[trigger] cut[i] == entries[i] by {}
        assert(descending(cut) && distinct_hanzi(cut)) by {
            assert forall|i: int, j: int| 0 <= i < j < cut.len() implies cut[i].score
                >= cut[j].score && cut[i].hanzi != cut[j].hanzi by {
                assert(entries[i].score >= entries[j].score);
                assert(entries[i].hanzi != entries[j].hanzi);
            }
        }
        lemma_position_of(entries, mc.hanzi, n);
        lemma_position_of(cut, mc.hanzi, max as int);
        let ix = position_of(entries, mc.hanzi, n);
        if ix >= 0 && ix < max {
            assert forall|i: int| 0 <= i < ix implies (#[trigger] cut[i]).hanzi != mc.hanzi by {
                assert(entries[i].hanzi != entries[ix].hanzi);
            }
            lemma_position_is(cut, mc.hanzi, ix);
        } else {
            assert forall|i: int| 0 <= i < cut.len() implies (#[trigger] cut[i]).hanzi
                != mc.hanzi by {
                if ix >= 0 {
                    assert(entries[i].hanzi != entries[ix].hanzi);
                } else {
                    assert(entries[i].hanzi != mc.hanzi);
                }
            }
            lemma_position_none(cut, mc.hanzi);
        }
        if holds_as_good(entries, mc) {
            if ix == max {
                assert forall|i: int| 0 <= i < cut.len() implies (#[trigger] cut[i]).score
                    >= mc.score by {
                    assert(entries[i].score >= entries[max as int].score);
                }
                lemma_slot_is(cut, mc.score, max as int);
                lemma_insert_at(cut, max as int, mc);
                assert(placed(cut, mc).take(max as int) =~= cut);
            }
        } else if ix < 0 {
            lemma_slot_for(entries, mc.score, n);
            let s = slot_for(entries, mc.score, n);
            let slot = if s <= max {
                s
            } else {
                max as int
            };
            assert forall|i: int| 0 <= i < slot implies (#[trigger] cut[i]).score
                >= mc.score by {
                assert(entries[i].score >= mc.score);
            }
            lemma_slot_is(cut, mc.score, slot);
            lemma_insert_at(entries, s, mc);
            lemma_insert_at(cut, slot, mc);
            assert(placed(entries, mc).take(max as int) =~= placed(cut, mc).take(max as int));
        } else if ix < max {
            let w = entries.remove(ix);
            let v = cut.remove(ix);
            lemma_remove_at(entries, ix);
            lemma_remove_at(cut, ix);
            lemma_without(entries, mc.hanzi);
            lemma_slot_for(w, mc.score, w.len() as int);
            let s = slot_for(w, mc.score, w.len() as int);
            if s > ix {
                assert(w[ix] == entries[ix + 1]);
                assert(w[ix].score >= mc.score);
                assert(entries[ix].score >= entries[ix + 1].score);
                assert(false);
            }
            assert forall|i: int| 0 <= i < s implies (#[trigger] v[i]).score >= mc.score by {
                assert(w[i].score >= mc.score);
            }
            if s < v.len() {
                assert(v[s] == w[s]);
            }
            lemma_slot_is(v, mc.score, s);
            lemma_insert_at(w, s, mc);
            lemma_insert_at(v, s, mc);
            assert(placed(w, mc).take(max as int) =~= placed(v, mc));
        } else {
            assert(entries.remove(max as int) =~= cut);
        }
    }
}

/// A list in strictly descending order stays so when a candidate is filed
/// whose score no entry for another character has.
pub proof fn law_strict_order_kept(entries: Seq<Match>, max: nat, mc: Match)
    requires
        well_formed(entries, max),
        strictly_descending(entries),
        forall|i: int|
            0 <= i < entries.len() && (#[trigger] entries[i]).hanzi != mc.hanzi ==> entries[i].score
                != mc.score,
    ensures
        strictly_descending(filed(entries, max, mc)),
{
    lemma_filed_is_capped(entries, max, mc);
    if !holds_as_good(entries, mc) {
        lemma_without(entries, mc.hanzi);
        lemma_position_of(entries, mc.hanzi, entries.len() as int);
        let ix = position_of(entries, mc.hanzi, entries.len() as int);
        let w = without(entries, mc.hanzi);
        if ix >= 0 {
            lemma_remove_at(entries, ix);
        }
        assert forall|k: int| 0 <= k < w.len() implies (#[trigger] w[k]).score != mc.score by {
            let a = if ix >= 0 && k >= ix {
                k + 1
            } else {
                k
            };
            assert(w[k] == entries[a]);
        }
        assert(strictly_descending(w)) by {
            assert forall|i: int, j: int| 0 <= i < j < w.len() implies w[i].score
                > w[j].score by {
                let a = if ix >= 0 && i >= ix {
                    i + 1
                } else {
                    i
                };
                let b = if ix >= 0 && j >= ix {
                    j + 1
                } else {
                    j
                };
                assert(w[i] == entries[a] && w[j] == entries[b]);
                assert(entries[a].score > entries[b].score);
            }
        }
        lemma_slot_for(w, mc.score, w.len() as int);
        let p = slot_for(w, mc.score, w.len() as int);
        lemma_insert_at(w, p, mc);
        let put = placed(w, mc);
        assert(strictly_descending(put)) by {
            assert forall|i: int, j: int| 0 <= i < j < put.len() implies put[i].score
                > put[j].score by {
                if j == p {
                    assert(w[i].score >= mc.score);
                } else if i == p {
                    assert(w[p].score < mc.score);
                    if j - 1 > p {
                        assert(w[p].score > w[j - 1].score);
                    }
                } else {
                    let a = if i < p {
                        i
                    } else {
                        i - 1
                    };
                    let b = if j < p {
                        j
                    } else {
                        j - 1
                    };
                    assert(w[a].score > w[b].score);
                }
            }
        }
        let out = capped(put, max);
        assert forall|i: int, j: int| 0 <= i < j < out.len() implies out[i].score
            > out[j].score by {
            assert(out[i] == put[i] && out[j] == put[j]);
        }
    }
}

/// Filing a candidate for a character that is held with a lower score
/// replaces the entry: the list keeps its length, the old entry is gone,
/// and the candidate stands where its score belongs, which is at the old
/// entry's place or before it. Where the score of the entry before is not
/// lower than the candidate's, or there is none, the candidate stands at
/// the very place of the old entry.
pub proof fn law_higher_score_replaces(entries: Seq<Match>, max: nat, held: int, mc: Match)
    requires
        well_formed(entries, max),
        0 <= held < entries.len(),
        entries[held].hanzi == mc.hanzi,
        entries[held].score < mc.score,
    ensures
        filed(entries, max, mc) == placed(entries.remove(held), mc),
        filed(entries, max, mc).len() == entries.len(),
        slot_for(entries.remove(held), mc.score, entries.len() - 1) <= held,
        filed(entries, max, mc)[slot_for(entries.remove(held), mc.score, entries.len() - 1)]
            == mc,
        held == 0 || entries[held - 1].score >= mc.score ==> filed(entries, max, mc)
            == entries.update(held, mc),
{
    let n = entries.len() as int;
    lemma_position_of(entries, mc.hanzi, n);
    let ix = position_of(entries, mc.hanzi, n);
    if ix < held {
        assert(entries[ix].hanzi != entries[held].hanzi);
    }
    if held < n - 1 {
        assert(entries[held].score >= entries[n - 1].score);
    }
    let w = entries.remove(held);
    lemma_remove_at(entries, held);
    lemma_slot_for(w, mc.score, n - 1);
    let s = slot_for(w, mc.score, n - 1);
    if s > held {
        assert(w[held] == entries[held + 1]);
        assert(w[held].score >= mc.score);
        assert(entries[held].score >= entries[held + 1].score);
    }
    lemma_insert_at(w, s, mc);
    if held == 0 || entries[held - 1].score >= mc.score {
        if s < held {
            assert(w[s] == entries[s]);
            if s < held - 1 {
                assert(entries[s].score >= entries[held - 1].score);
            }
        }
        assert(w.insert(s, mc) =~= entries.update(held, mc));
    }
}

/// Filing a candidate for a character that is held with a score at least
/// as high changes nothing.
pub proof fn law_lower_score_ignored(entries: Seq<Match>, max: nat, held: int, mc: Match)
    requires
        well_formed(entries, max),
        0 <= held < entries.len(),
        entries[held].hanzi == mc.hanzi,
        mc.score <= entries[held].score,
    ensures
        filed(entries, max, mc) == entries,
{
    lemma_holds_as_good(entries, mc);
}

/// Two candidates for different characters with different scores can be
/// filed in either order: the list that results is the same.
pub proof fn law_order_of_filing(entries: Seq<Match>, max: nat, m1: Match, m2: Match)
    requires
        well_formed(entries, max),
        m1.hanzi != m2.hanzi,
        m1.score != m2.score,
    ensures
        filed(filed(entries, max, m1), max, m2) == filed(filed(entries, max, m2), max, m1),
{
    crate::match_collector::lemma_filed_well_formed(entries, max, m1);
    crate::match_collector::lemma_filed_well_formed(entries, max, m2);
    lemma_filed_is_capped(entries, max, m1);
    lemma_filed_is_capped(entries, max, m2);
    lemma_filed_is_capped(filed(entries, max, m1), max, m2);
    lemma_filed_is_capped(filed(entries, max, m2), max, m1);
    lemma_merged(entries, m1);
    lemma_merged(entries, m2);
    lemma_capped_merge(merged(entries, m1), max, m2);
    lemma_capped_merge(merged(entries, m2), max, m1);
    if m1.score > m2.score {
        lemma_merged_commutes(entries, m1, m2);
    } else {
        lemma_merged_commutes(entries, m2, m1);
    }
}

} // verus!
