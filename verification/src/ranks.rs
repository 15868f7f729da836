//! Counting cards by rank: the spec-level vocabulary for hands and decks,
//! and the lemmas that relate counts, lengths, grouping and removal.

use vstd::prelude::*;

verus! {

/// True iff `card` is a playable rank, `1..=12`.
pub open spec fn valid_rank(card: u8) -> bool {
    1 <= card && card <= 12
}

/// Every card of the sequence is a playable rank.
pub open spec fn all_valid(s: Seq<u8>) -> bool {
    forall|i: int| 0 <= i < s.len() ==> valid_rank(#[trigger] s[i])
}

/// How many copies of rank `r` the sequence holds.
pub open spec fn count_rank(s: Seq<u8>, r: u8) -> nat
    decreases s.len(),
{
    if s.len() == 0 {
        0
    } else {
        count_rank(s.drop_last(), r) + if s.last() == r {
            1nat
        } else {
            0nat
        }
    }
}

/// The hand with every copy of rank `x` removed, order preserved.
pub open spec fn without_rank(s: Seq<u8>, x: u8) -> Seq<u8>
    decreases s.len(),
{
    if s.len() == 0 {
        Seq::empty()
    } else if s.last() == x {
        without_rank(s.drop_last(), x)
    } else {
        without_rank(s.drop_last(), x).push(s.last())
    }
}

/// The copies of rank `x` alone, in their original order.
pub open spec fn of_rank(s: Seq<u8>, x: u8) -> Seq<u8>
    decreases s.len(),
{
    if s.len() == 0 {
        Seq::empty()
    } else if s.last() == x {
        of_rank(s.drop_last(), x).push(s.last())
    } else {
        of_rank(s.drop_last(), x)
    }
}

/// The cards of `s` whose rank does not reach four copies in `orig`,
/// order preserved.
pub open spec fn kept_rec(s: Seq<u8>, orig: Seq<u8>) -> Seq<u8>
    decreases s.len(),
{
    if s.len() == 0 {
        Seq::empty()
    } else if count_rank(orig, s.last()) >= 4 {
        kept_rec(s.drop_last(), orig)
    } else {
        kept_rec(s.drop_last(), orig).push(s.last())
    }
}

/// The hand after every completed group has been removed: the cards whose
/// rank does not reach four copies, in their original order.
pub open spec fn kept_cards(s: Seq<u8>) -> Seq<u8> {
    kept_rec(s, s)
}

/// The copies of all ranks `1..=r` taken together.
pub open spec fn sum_counts(s: Seq<u8>, r: int) -> nat
    decreases r,
{
    if r <= 0 {
        0
    } else {
        sum_counts(s, r - 1) + count_rank(s, r as u8)
    }
}

/// The ranks among `1..=r` of which the hand holds four or more copies,
/// in ascending order.
pub open spec fn groups_upto(s: Seq<u8>, r: int) -> Seq<u8>
    decreases r,
{
    if r <= 0 {
        Seq::empty()
    } else {
        groups_upto(s, r - 1) + if count_rank(s, r as u8) >= 4 {
            seq![r as u8]
        } else {
            Seq::empty()
        }
    }
}

/// The ranks of which the hand holds a complete group of four or more,
/// in ascending order.
pub open spec fn groups_of(s: Seq<u8>) -> Seq<u8> {
    groups_upto(s, 12)
}

/// Appending one card raises its rank's count by one and no other.
pub proof fn lemma_count_push(s: Seq<u8>, x: u8, r: u8)
    ensures
        count_rank(s.push(x), r) == count_rank(s, r) + if x == r {
            1nat
        } else {
            0nat
        },
{
    assert(s.push(x).drop_last() =~= s);
    assert(s.push(x).last() == x);
}

/// How removal and selection grow when the hand grows by one card.
pub proof fn lemma_split_push(s: Seq<u8>, x: u8, r: u8)
    ensures
        without_rank(s.push(x), r) == if x == r {
            without_rank(s, r)
        } else {
            without_rank(s, r).push(x)
        },
        of_rank(s.push(x), r) == if x == r {
            of_rank(s, r).push(x)
        } else {
            of_rank(s, r)
        },
{
    assert(s.push(x).drop_last() =~= s);
    assert(s.push(x).last() == x);
}

/// How the kept part grows when the scanned prefix grows by one card.
pub proof fn lemma_kept_push(s: Seq<u8>, x: u8, orig: Seq<u8>)
    ensures
        kept_rec(s.push(x), orig) == if count_rank(orig, x) >= 4 {
            kept_rec(s, orig)
        } else {
            kept_rec(s, orig).push(x)
        },
{
    assert(s.push(x).drop_last() =~= s);
    assert(s.push(x).last() == x);
}

/// The count of a rank is its multiplicity in the sequence's multiset, so
/// counts survive any reordering.
pub proof fn lemma_count_multiset(s: Seq<u8>, r: u8)
    ensures
        count_rank(s, r) == s.to_multiset().count(r),
    decreases s.len(),
{
    broadcast use vstd::multiset::group_multiset_axioms;
    broadcast use vstd::seq_lib::group_to_multiset_ensures;

    if s.len() > 0 {
        lemma_count_multiset(s.drop_last(), r);
        assert(s =~= s.drop_last().push(s.last()));
    }
}

/// Reversal changes no count.
pub proof fn lemma_count_reverse(s: Seq<u8>, r: u8)
    ensures
        count_rank(s.reverse(), r) == count_rank(s, r),
{
    lemma_count_multiset(s, r);
    lemma_count_multiset(s.reverse(), r);
    s.lemma_reverse_to_multiset();
}

/// Removing a rank of which there are no copies changes nothing.
pub proof fn lemma_without_absent_rank(s: Seq<u8>, x: u8)
    requires
        count_rank(s, x) == 0,
    ensures
        without_rank(s, x) == s,
    decreases s.len(),
{
    if s.len() > 0 {
        lemma_without_absent_rank(s.drop_last(), x);
        assert(without_rank(s, x) =~= s);
    }
}

/// Two valid hands joined are a valid hand.
pub proof fn lemma_concat_valid(a: Seq<u8>, b: Seq<u8>)
    requires
        all_valid(a),
        all_valid(b),
    ensures
        all_valid(a + b),
{
    assert forall|i: int| 0 <= i < (a + b).len() implies valid_rank(#[trigger] (a + b)[i]) by {
        if i < a.len() {
            assert((a + b)[i] == a[i]);
        } else {
            assert((a + b)[i] == b[i - a.len()]);
        }
    }
}

/// A count never exceeds the length, and a positive count means the rank
/// occurs somewhere.
pub proof fn lemma_count_occurs(s: Seq<u8>, r: u8)
    ensures
        count_rank(s, r) <= s.len(),
        count_rank(s, r) > 0 <==> exists|i: int| 0 <= i < s.len() && s[i] == r,
    decreases s.len(),
{
    if s.len() > 0 {
        lemma_count_occurs(s.drop_last(), r);
        if s.last() == r {
            assert(s[s.len() - 1] == r);
        } else if exists|i: int| 0 <= i < s.len() && s[i] == r {
            let i = choose|i: int| 0 <= i < s.len() && s[i] == r;
            assert(s.drop_last()[i] == r);
        }
    }
}

/// Counting distributes over concatenation.
pub proof fn lemma_count_concat(a: Seq<u8>, b: Seq<u8>, r: u8)
    ensures
        count_rank(a + b, r) == count_rank(a, r) + count_rank(b, r),
    decreases b.len(),
{
    if b.len() == 0 {
        assert(a + b =~= a);
    } else {
        assert((a + b).drop_last() =~= a + b.drop_last());
        lemma_count_concat(a, b.drop_last(), r);
    }
}

/// Removing one rank splits the hand: what stays and the removed copies
/// make up the original, and only that rank's count changes.
pub proof fn lemma_split_counts(s: Seq<u8>, x: u8, r: u8)
    ensures
        without_rank(s, x).len() + count_rank(s, x) == s.len(),
        of_rank(s, x).len() == count_rank(s, x),
        count_rank(without_rank(s, x), r) == if r == x {
            0nat
        } else {
            count_rank(s, r)
        },
        count_rank(of_rank(s, x), r) == if r == x {
            count_rank(s, x)
        } else {
            0nat
        },
    decreases s.len(),
{
    if s.len() > 0 {
        lemma_split_counts(s.drop_last(), x, r);
        if s.last() != x {
            lemma_count_push(without_rank(s.drop_last(), x), s.last(), r);
        } else {
            lemma_count_push(of_rank(s.drop_last(), x), s.last(), r);
        }
    }
}

/// Every card that removal keeps, or that selection returns, comes from
/// the original hand, so validity carries over.
pub proof fn lemma_split_valid(s: Seq<u8>, x: u8)
    requires
        all_valid(s),
    ensures
        all_valid(without_rank(s, x)),
        all_valid(of_rank(s, x)),
    decreases s.len(),
{
    if s.len() > 0 {
        assert(all_valid(s.drop_last())) by {
            assert(forall|i: int|
                0 <= i < s.len() - 1 ==> #[trigger] s.drop_last()[i] == s[i]);
        }
        lemma_split_valid(s.drop_last(), x);
        assert(valid_rank(s[s.len() - 1]));
    }
}

/// Grouping keeps only cards of the original hand, so validity carries
/// over; and of each rank it keeps either all copies (below four) or none.
pub proof fn lemma_kept_counts(s: Seq<u8>, orig: Seq<u8>, r: u8)
    ensures
        count_rank(kept_rec(s, orig), r) == if count_rank(orig, r) >= 4 {
            0nat
        } else {
            count_rank(s, r)
        },
        all_valid(s) ==> all_valid(kept_rec(s, orig)),
    decreases s.len(),
{
    if s.len() > 0 {
        assert(all_valid(s) ==> all_valid(s.drop_last())) by {
            assert(forall|i: int|
                0 <= i < s.len() - 1 ==> #[trigger] s.drop_last()[i] == s[i]);
        }
        lemma_kept_counts(s.drop_last(), orig, r);
        if count_rank(orig, s.last()) < 4 {
            lemma_count_push(kept_rec(s.drop_last(), orig), s.last(), r);
        }
        assert(all_valid(s) ==> valid_rank(s[s.len() - 1]));
    }
}

/// After grouping, every rank is below four copies.
pub proof fn lemma_kept_below_four(s: Seq<u8>, r: u8)
    ensures
        count_rank(kept_cards(s), r) < 4,
        count_rank(kept_cards(s), r) == if count_rank(s, r) >= 4 {
            0nat
        } else {
            count_rank(s, r)
        },
        all_valid(s) ==> all_valid(kept_cards(s)),
{
    lemma_kept_counts(s, s, r);
}

proof fn lemma_sum_counts_drop_last(s: Seq<u8>, r: int)
    requires
        s.len() > 0,
        r <= 12,
    ensures
        sum_counts(s, r) == sum_counts(s.drop_last(), r) + if 1 <= s.last() && s.last() <= r {
            1nat
        } else {
            0nat
        },
    decreases r,
{
    if r > 0 {
        lemma_sum_counts_drop_last(s, r - 1);
    }
}

/// For a hand of valid cards, the counts of the twelve ranks add up to the
/// length of the hand.
pub proof fn lemma_sum_counts_total(s: Seq<u8>)
    requires
        all_valid(s),
    ensures
        sum_counts(s, 12) == s.len(),
    decreases s.len(),
{
    if s.len() > 0 {
        assert(all_valid(s.drop_last())) by {
            assert(forall|i: int|
                0 <= i < s.len() - 1 ==> #[trigger] s.drop_last()[i] == s[i]);
        }
        lemma_sum_counts_total(s.drop_last());
        lemma_sum_counts_drop_last(s, 12);
        assert(valid_rank(s[s.len() - 1]));
    } else {
        lemma_sum_counts_empty(s, 12);
    }
}

proof fn lemma_sum_counts_empty(s: Seq<u8>, r: int)
    requires
        s.len() == 0,
    ensures
        sum_counts(s, r) == 0,
    decreases r,
{
    if r > 0 {
        lemma_sum_counts_empty(s, r - 1);
    }
}

/// There are never more groups among the ranks `1..=r` than there are
/// ranks.
pub proof fn lemma_groups_upto_len(s: Seq<u8>, r: int)
    ensures
        groups_upto(s, r).len() <= if r >= 0 {
            r
        } else {
            0
        },
    decreases r,
{
    if r > 0 {
        lemma_groups_upto_len(s, r - 1);
    }
}

/// Removing the completed groups removes exactly four cards for each
/// group, provided no rank is over-represented (more than four copies).
pub proof fn lemma_kept_len(s: Seq<u8>)
    requires
        all_valid(s),
        forall|r: u8| count_rank(s, r) <= 4,
    ensures
        kept_cards(s).len() + 4 * groups_of(s).len() == s.len(),
{
    assert(all_valid(kept_cards(s))) by {
        lemma_kept_below_four(s, 1);
    }
    lemma_sum_counts_total(s);
    lemma_sum_counts_total(kept_cards(s));
    lemma_kept_sum(s, 12);
}

proof fn lemma_kept_sum(s: Seq<u8>, r: int)
    requires
        forall|q: u8| count_rank(s, q) <= 4,
    ensures
        sum_counts(kept_cards(s), r) + 4 * groups_upto(s, r).len() == sum_counts(s, r),
    decreases r,
{
    if r > 0 {
        lemma_kept_sum(s, r - 1);
        lemma_kept_below_four(s, r as u8);
    }
}

/// A hand in which no rank reaches four copies has no groups to remove:
/// grouping leaves it unchanged and reports nothing.
pub proof fn lemma_reduce_idempotent(s: Seq<u8>)
    requires
        forall|r: u8| count_rank(s, r) < 4,
    ensures
        groups_of(s) =~= Seq::<u8>::empty(),
        kept_cards(s) == s,
{
    lemma_groups_upto_empty(s, 12);
    lemma_kept_rec_id(s, s);
}

proof fn lemma_groups_upto_empty(s: Seq<u8>, r: int)
    requires
        forall|q: u8| count_rank(s, q) < 4,
    ensures
        groups_upto(s, r) =~= Seq::<u8>::empty(),
    decreases r,
{
    if r > 0 {
        lemma_groups_upto_empty(s, r - 1);
        assert(groups_upto(s, r) =~= groups_upto(s, r - 1));
    }
}

proof fn lemma_kept_rec_id(s: Seq<u8>, orig: Seq<u8>)
    requires
        forall|q: u8| count_rank(orig, q) < 4,
    ensures
        kept_rec(s, orig) == s,
    decreases s.len(),
{
    if s.len() > 0 {
        lemma_kept_rec_id(s.drop_last(), orig);
        assert(kept_rec(s, orig) =~= s);
    }
}

} // verus!
