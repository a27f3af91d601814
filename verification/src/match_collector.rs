//! The bounded list of best candidates.

use crate::Match;
use vstd::prelude::*;

verus! {

/// Index of the entry for character `hanzi` among the first `upto` entries
/// of `entries`, or `-1` if there is none.
pub open spec fn position_of(entries: Seq<Match>, hanzi: char, upto: int) -> int
    decreases upto,
{
    if upto <= 0 {
        -1
    } else if position_of(entries, hanzi, upto - 1) >= 0 {
        position_of(entries, hanzi, upto - 1)
    } else if entries[upto - 1].hanzi == hanzi {
        upto - 1
    } else {
        -1
    }
}

/// Number of leading entries, among the first `upto`, that come before the
/// first entry whose score is strictly below `score`.
pub open spec fn slot_for(entries: Seq<Match>, score: i64, upto: int) -> int
    decreases upto,
{
    if upto <= 0 {
        0
    } else if slot_for(entries, score, upto - 1) < upto - 1 {
        slot_for(entries, score, upto - 1)
    } else if entries[upto - 1].score < score {
        upto - 1
    } else {
        upto
    }
}

/// The entries without the one for `hanzi`, if there is one.
pub open spec fn without(entries: Seq<Match>, hanzi: char) -> Seq<Match> {
    let ix = position_of(entries, hanzi, entries.len() as int);
    if ix >= 0 {
        entries.remove(ix)
    } else {
        entries
    }
}

/// The entries with `mc` put in front of the first entry that scores
/// strictly lower, or at the end if there is no such entry.
pub open spec fn placed(entries: Seq<Match>, mc: Match) -> Seq<Match> {
    entries.insert(slot_for(entries, mc.score, entries.len() as int), mc)
}

/// Whether the entries already hold `mc`'s character with a score that is
/// at least as good.
pub open spec fn holds_as_good(entries: Seq<Match>, mc: Match) -> bool {
    let ix = position_of(entries, mc.hanzi, entries.len() as int);
    ix >= 0 && mc.score <= entries[ix].score
}

/// The first `max` entries.
pub open spec fn capped(entries: Seq<Match>, max: nat) -> Seq<Match> {
    if entries.len() > max {
        entries.take(max as int)
    } else {
        entries
    }
}

/// The list that results from filing `mc` into `entries` under the limit
/// `max`.
pub open spec fn filed(entries: Seq<Match>, max: nat, mc: Match) -> Seq<Match> {
    if entries.len() == max && mc.score <= entries.last().score {
        entries
    } else if holds_as_good(entries, mc) {
        entries
    } else {
        capped(placed(without(entries, mc.hanzi), mc), max)
    }
}

/// Scores never increase from one entry to the next.
pub open spec fn descending(entries: Seq<Match>) -> bool {
    forall|i: int, j: int| 0 <= i < j < entries.len() ==> entries[i].score >= entries[j].score
}

/// Scores decrease from each entry to the next.
pub open spec fn strictly_descending(entries: Seq<Match>) -> bool {
    forall|i: int, j: int| 0 <= i < j < entries.len() ==> entries[i].score > entries[j].score
}

/// No character occurs twice.
pub open spec fn distinct_hanzi(entries: Seq<Match>) -> bool {
    forall|i: int, j: int| 0 <= i < j < entries.len() ==> entries[i].hanzi != entries[j].hanzi
}

/// Whether some entry is for the character `hanzi`.
pub open spec fn has_hanzi(entries: Seq<Match>, hanzi: char) -> bool {
    exists|i: int| 0 <= i < entries.len() && entries[i].hanzi == hanzi
}

/// A well-formed candidate list under the limit `max`.
pub open spec fn well_formed(entries: Seq<Match>, max: nat) -> bool {
    &&& max >= 1
    &&& entries.len() <= max
    &&& descending(entries)
    &&& distinct_hanzi(entries)
}

/// Keeps the best candidates seen so far in a caller-supplied buffer: at
/// most `max` of them, best first, one per character.
pub struct MatchCollector<'a> {
    pub max: u32,
    pub matches: &'a mut Vec<Match>,
}

/// The position of a character is an index among the first `upto`, or
/// -1; the entry there has the character, and no entry before it has.
pub proof fn lemma_position_of(entries: Seq<Match>, hanzi: char, upto: int)
    requires
        0 <= upto <= entries.len(),
    ensures
        -1 <= position_of(entries, hanzi, upto) < upto,
        position_of(entries, hanzi, upto) >= 0 ==> entries[position_of(
            entries,
            hanzi,
            upto,
        )].hanzi == hanzi,
        forall|i: int|
            0 <= i < upto && entries[i].hanzi == hanzi ==> 0 <= position_of(entries, hanzi, upto)
                <= i,
    decreases upto,
{
    if upto > 0 {
        lemma_position_of(entries, hanzi, upto - 1);
    }
}

/// The slot for a score is an index up to `upto`; the entry there, if
/// there is one, scores lower, and no entry before it does.
pub proof fn lemma_slot_for(entries: Seq<Match>, score: i64, upto: int)
    requires
        0 <= upto <= entries.len(),
    ensures
        0 <= slot_for(entries, score, upto) <= upto,
        slot_for(entries, score, upto) < upto ==> entries[slot_for(entries, score, upto)].score
            < score,
        forall|i: int| 0 <= i < slot_for(entries, score, upto) ==> entries[i].score >= score,
    decreases upto,
{
    if upto > 0 {
        lemma_slot_for(entries, score, upto - 1);
    }
}

/// Once a slot is found among the first `from` entries, looking further
/// does not change it.
pub proof fn lemma_slot_stays(entries: Seq<Match>, score: i64, from: int, upto: int)
    requires
        0 <= from <= upto <= entries.len(),
        slot_for(entries, score, from) < from,
    ensures
        slot_for(entries, score, upto) == slot_for(entries, score, from),
    decreases upto - from,
{
    if from < upto {
        lemma_slot_stays(entries, score, from, upto - 1);
    }
}

/// The elements of a list with one more element.
pub proof fn lemma_insert_at(entries: Seq<Match>, at: int, mc: Match)
    requires
        0 <= at <= entries.len(),
    ensures
        entries.insert(at, mc).len() == entries.len() + 1,
        forall|k: int|
            0 <= k <= entries.len() ==> #[trigger] entries.insert(at, mc)[k] == (if k < at {
                entries[k]
            } else if k == at {
                mc
            } else {
                entries[k - 1]
            }),
{
}

/// The elements of a list with one element less.
pub proof fn lemma_remove_at(entries: Seq<Match>, at: int)
    requires
        0 <= at < entries.len(),
    ensures
        entries.remove(at).len() == entries.len() - 1,
        forall|k: int|
            0 <= k < entries.len() - 1 ==> #[trigger] entries.remove(at)[k] == (if k < at {
                entries[k]
            } else {
                entries[k + 1]
            }),
{
}

/// Taking a character out keeps order and distinctness, and what is left
/// are the other entries in their order.
pub proof fn lemma_without(entries: Seq<Match>, hanzi: char)
    requires
        descending(entries),
        distinct_hanzi(entries),
    ensures
        descending(without(entries, hanzi)),
        distinct_hanzi(without(entries, hanzi)),
        forall|k: int|
            0 <= k < without(entries, hanzi).len() ==> (#[trigger] without(
                entries,
                hanzi,
            )[k]).hanzi != hanzi,
        forall|k: int|
            0 <= k < without(entries, hanzi).len() ==> has_hanzi(
                entries,
                (#[trigger] without(entries, hanzi)[k]).hanzi,
            ),
        position_of(entries, hanzi, entries.len() as int) < 0 ==> without(entries, hanzi)
            == entries,
        position_of(entries, hanzi, entries.len() as int) >= 0 ==> without(entries, hanzi).len()
            == entries.len() - 1,
{
    lemma_position_of(entries, hanzi, entries.len() as int);
    let ix = position_of(entries, hanzi, entries.len() as int);
    if ix >= 0 {
        lemma_remove_at(entries, ix);
        let rest = entries.remove(ix);
        assert forall|i: int, j: int| 0 <= i < j < rest.len() implies rest[i].score
            >= rest[j].score && rest[i].hanzi != rest[j].hanzi by {
            let a = if i < ix {
                i
            } else {
                i + 1
            };
            let b = if j < ix {
                j
            } else {
                j + 1
            };
            assert(entries[a].score >= entries[b].score);
            assert(entries[a].hanzi != entries[b].hanzi);
        }
        assert forall|k: int| 0 <= k < rest.len() implies (#[trigger] rest[k]).hanzi != hanzi
            && has_hanzi(entries, rest[k].hanzi) by {
            let a = if k < ix {
                k
            } else {
                k + 1
            };
            assert(rest[k] == entries[a]);
            if a < ix {
                assert(entries[a].hanzi != entries[ix].hanzi);
            } else {
                assert(entries[ix].hanzi != entries[a].hanzi);
            }
        }
    } else {
        assert forall|k: int| 0 <= k < entries.len() implies (#[trigger] entries[k]).hanzi
            != hanzi && has_hanzi(entries, entries[k].hanzi) by {}
    }
}

/// Putting a candidate in keeps the order, and keeps the characters
/// distinct if the candidate's character is new.
pub proof fn lemma_placed(entries: Seq<Match>, mc: Match)
    requires
        descending(entries),
    ensures
        descending(placed(entries, mc)),
        placed(entries, mc).len() == entries.len() + 1,
        distinct_hanzi(entries) && (forall|k: int|
            0 <= k < entries.len() ==> (#[trigger] entries[k]).hanzi != mc.hanzi)
            ==> distinct_hanzi(placed(entries, mc)),
{
    lemma_slot_for(entries, mc.score, entries.len() as int);
    let p = slot_for(entries, mc.score, entries.len() as int);
    lemma_insert_at(entries, p, mc);
    let put = placed(entries, mc);
    assert forall|i: int, j: int| 0 <= i < j < put.len() implies put[i].score
        >= put[j].score by {
        if j == p {
        } else if i == p {
            assert(entries[p].score < mc.score);
            if j - 1 > p {
                assert(entries[p].score >= entries[j - 1].score);
            }
        } else {
            let a = if i < p {
                i
            } else {
                i - 1
            };
            let b = if j < p {
                j
            } else {
                j - 1
            };
            assert(entries[a].score >= entries[b].score);
        }
    }
    if distinct_hanzi(entries) && (forall|k: int|
        0 <= k < entries.len() ==> (#[trigger] entries[k]).hanzi != mc.hanzi) {
        assert forall|i: int, j: int| 0 <= i < j < put.len() implies put[i].hanzi
            != put[j].hanzi by {
            if i == p {
                assert(entries[j - 1].hanzi != mc.hanzi);
            } else if j == p {
                assert(entries[if i < p {
                    i
                } else {
                    i - 1
                }].hanzi != mc.hanzi);
            } else {
                let a = if i < p {
                    i
                } else {
                    i - 1
                };
                let b = if j < p {
                    j
                } else {
                    j - 1
                };
                assert(entries[a].hanzi != entries[b].hanzi);
            }
        }
    }
}

/// Filing keeps a well-formed list well-formed, and brings in no character
/// but the one filed.
pub proof fn lemma_filed_well_formed(entries: Seq<Match>, max: nat, mc: Match)
    requires
        well_formed(entries, max),
    ensures
        well_formed(filed(entries, max, mc), max),
        forall|h: char|
            has_hanzi(filed(entries, max, mc), h) ==> h == mc.hanzi || has_hanzi(entries, h),
{
    lemma_without(entries, mc.hanzi);
    let rest = without(entries, mc.hanzi);
    lemma_placed(rest, mc);
    lemma_slot_for(rest, mc.score, rest.len() as int);
    let p = slot_for(rest, mc.score, rest.len() as int);
    lemma_insert_at(rest, p, mc);
    let put = placed(rest, mc);
    let out = filed(entries, max, mc);
    if out != entries {
        assert forall|i: int, j: int| 0 <= i < j < out.len() implies out[i].score
            >= out[j].score && out[i].hanzi != out[j].hanzi by {
            assert(out[i] == put[i] && out[j] == put[j]);
        }
        assert forall|h: char| has_hanzi(out, h) implies h == mc.hanzi || has_hanzi(
            entries,
            h,
        ) by {
            let k = choose|k: int| 0 <= k < out.len() && out[k].hanzi == h;
            assert(out[k] == put[k]);
            if k != p {
                let a = if k < p {
                    k
                } else {
                    k - 1
                };
                assert(has_hanzi(entries, rest[a].hanzi));
            }
        }
    }
}

impl<'a> MatchCollector<'a> {
    /// The limit is positive and the list respects it, is ordered by
    /// descending score and names no character twice.
    pub open spec fn wf(&self) -> bool {
        well_formed(self.matches@, self.max as nat)
    }

    /// A collector over the empty buffer `matches` that keeps at most `max`
    /// candidates.
    pub fn new(matches: &'a mut Vec<Match>, max: u32) -> (collector: MatchCollector<'a>)
        requires
            max > 0,
            old(matches)@.len() == 0,
        ensures
            collector.max == max,
            collector.matches@ == Seq::<Match>::empty(),
            collector.wf(),
            final(collector.matches)@ == final(matches)@,
    {
        MatchCollector { max, matches }
    }

    /// Looks for an entry for `mc`'s character. Returns `true` if there is
    /// one that scores at least as well, and leaves the list alone; removes
    /// the entry if it scores lower.
    pub fn remove_existing_lower(&mut self, mc: &Match) -> (skip: bool)
        ensures
            skip == holds_as_good(old(self).matches@, *mc),
            final(self).max == old(self).max,
            final(self).matches@ == (if skip {
                old(self).matches@
            } else {
                without(old(self).matches@, mc.hanzi)
            }),
            final(final(self).matches)@ == final(old(self).matches)@,
    {
        let n: usize = self.matches.len();
        let mut i: usize = 0;
        while i < n && self.matches[i].hanzi != mc.hanzi
            invariant
                0 <= i <= n,
                n == self.matches@.len(),
                self.matches@ == old(self).matches@,
                self.max == old(self).max,
                final(self.matches)@ == final(old(self).matches)@,
                position_of(self.matches@, mc.hanzi, i as int) == -1,
            decreases n - i,
        {
            i += 1;
        }
        proof {
            lemma_position_of(self.matches@, mc.hanzi, n as int);
            if i < n {
                lemma_position_of(self.matches@, mc.hanzi, i as int + 1);
            }
        }
        if i == n {
            return false;
        }
        assert(position_of(self.matches@, mc.hanzi, n as int) == i);
        if mc.score <= self.matches[i].score {
            return true;
        }
        self.matches.remove(i);
        false
    }

    /// Files a candidate: it is kept if it is among the `max` best seen and
    /// scores higher than any earlier candidate for the same character.
    pub fn file_match(&mut self, mc: Match)
        requires
            old(self).wf(),
        ensures
            final(self).max == old(self).max,
            final(self).matches@ == filed(old(self).matches@, old(self).max as nat, mc),
            final(self).wf(),
            forall|h: char|
                has_hanzi(final(self).matches@, h) ==> h == mc.hanzi || has_hanzi(
                    old(self).matches@,
                    h,
                ),
            final(final(self).matches)@ == final(old(self).matches)@,
    {
        proof {
            lemma_filed_well_formed(self.matches@, self.max as nat, mc);
        }
        let n: usize = self.matches.len();
        if n == self.max as usize && mc.score <= self.matches[n - 1].score {
            return ;
        }
        if self.remove_existing_lower(&mc) {
            return ;
        }
        let m: usize = self.matches.len();
        let mut ix: usize = 0;
        while ix < m && self.matches[ix].score >= mc.score
            invariant
                0 <= ix <= m,
                m == self.matches@.len(),
                self.matches@ == without(old(self).matches@, mc.hanzi),
                self.max == old(self).max,
                final(self.matches)@ == final(old(self).matches)@,
                slot_for(self.matches@, mc.score, ix as int) == ix,
            decreases m - ix,
        {
            ix += 1;
        }
        proof {
            lemma_slot_for(self.matches@, mc.score, m as int);
            if ix < m {
                lemma_slot_for(self.matches@, mc.score, ix as int + 1);
                lemma_slot_stays(self.matches@, mc.score, ix as int + 1, m as int);
            }
            lemma_position_of(old(self).matches@, mc.hanzi, old(self).matches@.len() as int);
        }
        self.matches.insert(ix, mc);
        if self.matches.len() > self.max as usize {
            self.matches.pop();
            assert(self.matches@ =~= capped(
                placed(without(old(self).matches@, mc.hanzi), mc),
                self.max as nat,
            ));
        }
    }
}

} // verus!
