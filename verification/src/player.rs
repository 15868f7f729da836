//! A participant: identity, display name, hand of cards and score.

use vstd::prelude::*;

use crate::ranks::{
    all_valid, count_rank, groups_of, groups_upto, kept_cards, kept_rec, of_rank, valid_rank,
    without_rank,
};
use crate::ranks::{
    lemma_count_push, lemma_groups_upto_len, lemma_kept_push, lemma_split_push,
};

verus! {

/// The mathematical image of a [`Player`]: plain sequences and numbers.
#[verifier::ext_equal]
pub struct PlayerView {
    pub id: Seq<char>,
    pub name: Seq<char>,
    pub cards: Seq<u8>,
    pub score: u8,
}

/// A participant in one game: a unique identity, a display name, the hand
/// (a bag of ranks, order immaterial to the rules) and the score counter.
#[derive(Debug)]
pub struct Player {
    pub id: String,
    pub name: String,
    pub cards: Vec<u8>,
    pub score: u8,
}

impl View for Player {
    type V = PlayerView;

    open spec fn view(&self) -> PlayerView {
        PlayerView {
            id: self.id@,
            name: self.name@,
            cards: self.cards@,
            score: self.score,
        }
    }
}

impl DeepView for Player {
    type V = PlayerView;

    open spec fn deep_view(&self) -> PlayerView {
        self.view()
    }
}

impl Clone for Player {
    /// A clone carries the same identity, name, hand and score.
    fn clone(&self) -> (res: Self)
        ensures
            res@ == self@,
    {
        let mut cards: Vec<u8> = Vec::new();
        let mut i: usize = 0;
        while i < self.cards.len()
            invariant
                i <= self.cards.len(),
                cards@ == self.cards@.take(i as int),
            decreases self.cards.len() - i,
        {
            cards.push(self.cards[i]);
            proof {
                assert(self.cards@.take(i + 1) =~= self.cards@.take(i as int).push(
                    self.cards@[i as int],
                ));
            }
            i = i + 1;
        }
        proof {
            assert(self.cards@.take(self.cards@.len() as int) =~= self.cards@);
        }
        Player {
            id: self.id.clone(),
            name: self.name.clone(),
            cards,
            score: self.score,
        }
    }
}

impl Player {
    /// Removes every copy of `card` from the hand and hands them back;
    /// an empty result when none is present, which is not an error.
    pub fn remove_cards(&mut self, card: u8) -> (removed: Vec<u8>)
        ensures
            final(self)@.cards == without_rank(old(self)@.cards, card),
            removed@ == of_rank(old(self)@.cards, card),
            final(self)@.id == old(self)@.id,
            final(self)@.name == old(self)@.name,
            final(self)@.score == old(self)@.score,
    {
        let ghost orig = self.cards@;
        let mut removed: Vec<u8> = Vec::new();
        let mut kept: Vec<u8> = Vec::new();
        let mut i: usize = 0;
        while i < self.cards.len()
            invariant
                i <= self.cards.len(),
                self.cards@ == orig,
                removed@ == of_rank(orig.take(i as int), card),
                kept@ == without_rank(orig.take(i as int), card),
            decreases self.cards.len() - i,
        {
            let c = self.cards[i];
            proof {
                assert(orig.take(i + 1) =~= orig.take(i as int).push(orig[i as int]));
                lemma_split_push(orig.take(i as int), c, card);
            }
            if c == card {
                removed.push(c);
            } else {
                kept.push(c);
            }
            i = i + 1;
        }
        proof {
            assert(orig.take(orig.len() as int) =~= orig);
        }
        self.cards = kept;
        removed
    }

    /// True iff the hand is not empty.
    pub fn has_cards(&self) -> (b: bool)
        ensures
            b == (self@.cards.len() > 0),
    {
        self.cards.len() > 0
    }

    /// Appends the given cards to the hand.
    pub fn add_cards(&mut self, cards: &[u8])
        ensures
            final(self)@.cards == old(self)@.cards + cards@,
            final(self)@.id == old(self)@.id,
            final(self)@.name == old(self)@.name,
            final(self)@.score == old(self)@.score,
    {
        self.cards.extend_from_slice(cards);
        proof {
            assert(self.cards@ =~= old(self)@.cards + cards@);
        }
    }

    /// Scores every completed group: removes all copies of each rank that
    /// reached four, counts one point per such rank, and returns the matched
    /// ranks in ascending order — an empty list when there is nothing to
    /// group.
    pub fn reduce_groups(&mut self) -> (groups: Vec<u8>)
        requires
            all_valid(old(self)@.cards),
            old(self)@.score <= 243,
        ensures
            final(self)@.cards == kept_cards(old(self)@.cards),
            groups@ == groups_of(old(self)@.cards),
            final(self)@.score == old(self)@.score + groups_of(old(self)@.cards).len(),
            final(self)@.id == old(self)@.id,
            final(self)@.name == old(self)@.name,
    {
        let ghost orig = self.cards@;
        // Count the copies of each rank.
        let mut counter: Vec<usize> = vec![0, 0, 0, 0, 0, 0, 0, 0, 0, 0, 0, 0];
        let mut i: usize = 0;
        while i < self.cards.len()
            invariant
                i <= self.cards.len(),
                self.cards@ == orig,
                all_valid(orig),
                counter@.len() == 12,
                forall|r: u8|
                    1 <= r <= 12 ==> #[trigger] counter@[r - 1] == count_rank(
                        orig.take(i as int),
                        r,
                    ),
            decreases self.cards.len() - i,
        {
            let c = self.cards[i];
            assert(valid_rank(c));
            let idx = (c - 1) as usize;
            proof {
                crate::ranks::lemma_count_occurs(orig.take(i as int), c);
                assert(counter@[c - 1] == count_rank(orig.take(i as int), c));
            }
            counter[idx] = counter[idx] + 1;
            proof {
                assert(orig.take(i + 1) =~= orig.take(i as int).push(orig[i as int]));
                assert forall|r: u8| 1 <= r <= 12 implies #[trigger] counter@[r - 1]
                    == count_rank(orig.take(i + 1), r) by {
                    lemma_count_push(orig.take(i as int), c, r);
                }
            }
            i = i + 1;
        }
        proof {
            assert(orig.take(orig.len() as int) =~= orig);
        }
        // Keep only the cards whose rank did not reach four copies.
        let mut kept: Vec<u8> = Vec::new();
        let mut j: usize = 0;
        while j < self.cards.len()
            invariant
                j <= self.cards.len(),
                self.cards@ == orig,
                all_valid(orig),
                counter@.len() == 12,
                forall|r: u8|
                    1 <= r <= 12 ==> #[trigger] counter@[r - 1] == count_rank(orig, r),
                kept@ == kept_rec(orig.take(j as int), orig),
            decreases self.cards.len() - j,
        {
            let c = self.cards[j];
            assert(valid_rank(c));
            proof {
                assert(orig.take(j + 1) =~= orig.take(j as int).push(orig[j as int]));
                lemma_kept_push(orig.take(j as int), c, orig);
                assert(counter@[c - 1] == count_rank(orig, c));
            }
            if counter[(c - 1) as usize] < 4 {
                kept.push(c);
            }
            j = j + 1;
        }
        proof {
            assert(orig.take(orig.len() as int) =~= orig);
        }
        // Collect the grouped ranks in ascending order.
        let mut groups: Vec<u8> = Vec::new();
        let mut r: u8 = 1;
        while r <= 12
            invariant
                1 <= r <= 13,
                counter@.len() == 12,
                forall|q: u8|
                    1 <= q <= 12 ==> #[trigger] counter@[q - 1] == count_rank(orig, q),
                groups@ == groups_upto(orig, r - 1),
            decreases 13 - r,
        {
            if counter[(r - 1) as usize] >= 4 {
                groups.push(r);
                proof {
                    assert(groups@ =~= groups_upto(orig, r - 1) + seq![r]);
                }
            } else {
                proof {
                    assert(groups@ =~= groups_upto(orig, r - 1) + Seq::<u8>::empty());
                }
            }
            r = r + 1;
        }
        proof {
            lemma_groups_upto_len(orig, 12);
        }
        self.cards = kept;
        self.score = self.score + (groups.len() as u8);
        groups
    }
}

} // verus!
