//! The deck: a bag of rank tokens, four copies of each rank 1 through 12.

use vstd::prelude::*;

use rand::seq::SliceRandom;

use crate::ranks::{all_valid, count_rank, lemma_count_occurs, valid_rank};

verus! {

/// A deck of rank tokens. A fresh deck holds exactly four copies of each
/// rank in `1..=12`, 48 tokens in all; draws remove tokens from the top.
#[derive(Debug)]
pub struct Deck {
    cards: Vec<u8>,
}

/// Relies on rand's `SliceRandom::shuffle` (a Fisher-Yates shuffle driven by
/// `rand::thread_rng`): it permutes the elements of the vector in place by
/// swapping, so the length and the multiset of elements are unchanged;
/// nothing is promised about the resulting order.
#[verifier::external_body]
pub(crate) fn shuffle_values<T>(values: &mut Vec<T>)
    ensures
        final(values)@.len() == old(values)@.len(),
        final(values)@.to_multiset() == old(values)@.to_multiset(),
{
    values.shuffle(&mut rand::thread_rng());
}

impl Deck {
    /// The tokens still in the deck, top of the deck last.
    pub closed spec fn view(&self) -> Seq<u8> {
        self.cards@
    }

    /// The canonical fresh ordering: four copies of each rank, ascending.
    pub open spec fn full_deck() -> Seq<u8> {
        Seq::new(48, |i: int| (i / 4 + 1) as u8)
    }

    /// A fresh, unshuffled deck of the canonical 48 tokens.
    pub fn new() -> (d: Deck)
        ensures
            d@ == Deck::full_deck(),
    {
        let mut cards: Vec<u8> = Vec::new();
        let mut i: usize = 0;
        while i < 48
            invariant
                i <= 48,
                cards@ =~= Deck::full_deck().take(i as int),
            decreases 48 - i,
        {
            cards.push((i / 4 + 1) as u8);
            proof {
                assert(Deck::full_deck().take(i + 1) =~= Deck::full_deck().take(i as int).push(
                    Deck::full_deck()[i as int],
                ));
            }
            i = i + 1;
        }
        proof {
            assert(Deck::full_deck().take(48) =~= Deck::full_deck());
        }
        Deck { cards }
    }

    /// A deck holding exactly the given tokens, the last one on top.
    pub fn from_cards(cards: Vec<u8>) -> (d: Deck)
        ensures
            d@ == cards@,
    {
        Deck { cards }
    }

    /// How many tokens remain.
    pub fn len(&self) -> (n: usize)
        ensures
            n == self@.len(),
    {
        self.cards.len()
    }

    /// True iff `card` is a playable rank, `1..=12`.
    pub fn valid_card(card: u8) -> (b: bool)
        ensures
            b == valid_rank(card),
    {
        card >= 1 && card <= 12
    }

    /// Reorders the deck at random; the tokens themselves are unchanged.
    pub fn shuffle(&mut self)
        ensures
            final(self)@.len() == old(self)@.len(),
            final(self)@.to_multiset() == old(self)@.to_multiset(),
    {
        shuffle_values(&mut self.cards);
    }

    /// Removes up to `n` tokens from the top and returns them in the order
    /// drawn. When fewer than `n` remain only those are returned: a partial
    /// or empty draw is not an error, it signals exhaustion to the caller.
    pub fn draw_n(&mut self, n: usize) -> (drawn: Vec<u8>)
        ensures
            ({
                let k = if n as int <= old(self)@.len() {
                    n as int
                } else {
                    old(self)@.len() as int
                };
                &&& drawn@.len() == k
                &&& final(self)@ == old(self)@.take(old(self)@.len() - k)
                &&& drawn@ == old(self)@.skip(old(self)@.len() - k).reverse()
            }),
    {
        let ghost orig = self.cards@;
        let mut drawn: Vec<u8> = Vec::new();
        let mut i: usize = 0;
        while i < n && self.cards.len() > 0
            invariant
                i <= n,
                i as int <= orig.len(),
                self.cards@ == orig.take(orig.len() - i),
                drawn@ =~= orig.skip(orig.len() - i).reverse(),
                drawn@.len() == i,
            decreases n - i,
        {
            let c = match self.cards.pop() {
                Some(c) => c,
                None => {
                    proof {
                        assert(false);
                    }
                    0
                },
            };
            drawn.push(c);
            proof {
                assert(self.cards@ =~= orig.take(orig.len() - (i + 1)));
                assert(drawn@ =~= orig.skip(orig.len() - (i + 1)).reverse());
            }
            i = i + 1;
        }
        proof {
            if i < n {
                assert(orig.take(orig.len() - i).len() == 0);
                assert(i as int == orig.len());
            }
        }
        drawn
    }
}

/// The canonical deck is 48 valid tokens, exactly four of each rank and
/// none of any other value.
pub proof fn lemma_full_deck()
    ensures
        Deck::full_deck().len() == 48,
        all_valid(Deck::full_deck()),
        forall|r: u8| valid_rank(r) ==> count_rank(Deck::full_deck(), r) == 4,
        forall|r: u8| !valid_rank(r) ==> count_rank(Deck::full_deck(), r) == 0,
{
    assert(all_valid(Deck::full_deck()));
    assert forall|r: u8| valid_rank(r) implies count_rank(Deck::full_deck(), r) == 4 by {
        lemma_full_deck_prefix_count(48, r);
        assert(Deck::full_deck().take(48) =~= Deck::full_deck());
    }
    assert forall|r: u8| !valid_rank(r) implies count_rank(Deck::full_deck(), r) == 0 by {
        lemma_count_occurs(Deck::full_deck(), r);
    }
}

/// In the first `k` tokens of the canonical deck, rank `r` occurs once for
/// each covered position of its block of four.
proof fn lemma_full_deck_prefix_count(k: int, r: u8)
    requires
        0 <= k <= 48,
        valid_rank(r),
    ensures
        count_rank(Deck::full_deck().take(k), r) == if k <= 4 * (r - 1) {
            0int
        } else if k >= 4 * r {
            4int
        } else {
            k - 4 * (r - 1)
        },
    decreases k,
{
    if k == 0 {
        assert(Deck::full_deck().take(0).len() == 0);
    } else {
        lemma_full_deck_prefix_count(k - 1, r);
        let s = Deck::full_deck().take(k);
        assert(s.drop_last() =~= Deck::full_deck().take(k - 1));
        assert(s.last() == ((k - 1) / 4 + 1) as u8);
        assert((k - 1) / 4 + 1 == r <==> 4 * (r - 1) <= k - 1 < 4 * r) by (nonlinear_arith)
            requires
                1 <= r <= 12,
                0 <= k - 1 < 48,
        ;
    }
}

} // verus!
