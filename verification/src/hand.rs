//! Hands: ordered collections of cards and their point value, with
//! soft-ace reduction.

use vstd::prelude::*;
use crate::card::Card;

verus! {

/// The sum of the base values of the cards, every ace counted as eleven.
pub open spec fn raw_points(s: Seq<Card>) -> int
    decreases s.len(),
{
    if s.len() == 0 {
        0
    } else {
        raw_points(s.drop_last()) + s.last().value
    }
}

/// How many aces the cards hold.
pub open spec fn ace_count(s: Seq<Card>) -> nat
    decreases s.len(),
{
    if s.len() == 0 {
        0
    } else {
        ace_count(s.drop_last()) + if s.last().rank is Ace {
            1nat
        } else {
            0nat
        }
    }
}

/// Soft-ace reduction: while the total exceeds 21 and an ace is still counted
/// as eleven, one ace is demoted from eleven to one (ten is subtracted).
/// Demotion stops as soon as the total is at most 21 or no soft ace remains.
pub open spec fn reduce_points(total: int, aces: nat) -> int
    decreases aces,
{
    if total > 21 && aces > 0 {
        reduce_points(total - 10, (aces - 1) as nat)
    } else {
        total
    }
}

/// The point value of a hand: the raw sum with as many aces demoted from
/// eleven to one as are needed to come down to 21, if that many are held.
pub open spec fn hand_points(s: Seq<Card>) -> int {
    reduce_points(raw_points(s), ace_count(s))
}

/// A hand is bust when its point value exceeds 21.
pub open spec fn is_bust(s: Seq<Card>) -> bool {
    hand_points(s) > 21
}

/// The raw sum never decreases when cards are dropped from the end:
/// a prefix sums to at most the whole.
pub proof fn lemma_raw_points_prefix_le(s: Seq<Card>, j: int)
    requires
        0 <= j <= s.len(),
    ensures
        raw_points(s.subrange(0, j)) <= raw_points(s),
    decreases s.len() - j,
{
    if j == s.len() {
        assert(s.subrange(0, j) =~= s);
    } else {
        assert(s.subrange(0, j + 1).drop_last() =~= s.subrange(0, j));
        assert(raw_points(s.subrange(0, j + 1)) == raw_points(s.subrange(0, j)) + s[j].value);
        lemma_raw_points_prefix_le(s, j + 1);
    }
}

/// When every card past position `j` is worth at most eleven, the raw sum of
/// the whole exceeds the raw sum of the prefix by at most eleven per card.
pub proof fn lemma_raw_points_extension(s: Seq<Card>, j: int)
    requires
        0 <= j <= s.len(),
        forall|k: int| j <= k < s.len() ==> s[k].value <= 11,
    ensures
        raw_points(s) <= raw_points(s.subrange(0, j)) + 11 * (s.len() - j),
    decreases s.len() - j,
{
    if j == s.len() {
        assert(s.subrange(0, j) =~= s);
    } else {
        assert(s.subrange(0, j + 1).drop_last() =~= s.subrange(0, j));
        assert(raw_points(s.subrange(0, j + 1)) == raw_points(s.subrange(0, j)) + s[j].value);
        lemma_raw_points_extension(s, j + 1);
    }
}

/// An ordered hand of cards; cards are only ever appended, in draw order.
#[derive(Debug)]
pub struct Hand {
    cards: Vec<Card>,
}

impl View for Hand {
    type V = Seq<Card>;

    closed spec fn view(&self) -> Seq<Card> {
        self.cards@
    }
}

impl Hand {
    /// An empty hand.
    pub fn new() -> (h: Hand)
        ensures
            h@ =~= Seq::<Card>::empty(),
    {
        Hand { cards: Vec::new() }
    }

    /// True when the hand holds no card.
    pub fn is_empty(&self) -> (r: bool)
        ensures
            r == (self@.len() == 0),
    {
        self.cards.len() == 0
    }

    /// Appends one card to the hand.
    pub fn add_card(&mut self, new_card: Card)
        ensures
            final(self)@ == old(self)@.push(new_card),
    {
        self.cards.push(new_card);
    }

    /// A read-only view of the cards, in draw order.
    pub fn get_cards(&self) -> (r: &Vec<Card>)
        ensures
            r@ == self@,
    {
        &self.cards
    }

    /// How many aces the hand holds.
    fn ace_cards(&self) -> (count: usize)
        ensures
            count == ace_count(self@),
    {
        let mut count: usize = 0;
        let n = self.cards.len();
        let mut i: usize = 0;
        while i < n
            invariant
                i <= n,
                n == self@.len(),
                count <= i,
                count == ace_count(self@.subrange(0, i as int)),
            decreases n - i,
        {
            proof {
                assert(self@.subrange(0, i + 1).drop_last() =~= self@.subrange(0, i as int));
            }
            if self.cards[i].is_ace() {
                count = count + 1;
            }
            i = i + 1;
        }
        proof {
            assert(self@.subrange(0, n as int) =~= self@);
        }
        count
    }

    /// The point value of the hand: the base values are summed with every ace
    /// at eleven; while the total exceeds 21 and a soft ace remains, one ace
    /// is demoted to one. An empty hand is worth 0.
    pub fn points(&self) -> (r: u32)
        requires
            raw_points(self@) <= u32::MAX,
        ensures
            r == hand_points(self@),
    {
        let mut total: u32 = 0;
        let n = self.cards.len();
        let mut i: usize = 0;
        proof {
            assert(self@.subrange(0, 0) =~= Seq::<Card>::empty());
        }
        while i < n
            invariant
                i <= n,
                n == self@.len(),
                raw_points(self@) <= u32::MAX,
                total == raw_points(self@.subrange(0, i as int)),
            decreases n - i,
        {
            proof {
                assert(self@.subrange(0, i + 1).drop_last() =~= self@.subrange(0, i as int));
                lemma_raw_points_prefix_le(self@, i + 1);
            }
            total = total + self.cards[i].get_value() as u32;
            i = i + 1;
        }
        proof {
            assert(self@.subrange(0, n as int) =~= self@);
        }
        let mut aces = self.ace_cards();
        while total > 21 && aces > 0
            invariant
                reduce_points(total as int, aces as nat) == hand_points(self@),
            decreases aces,
        {
            total = total - 10;
            aces = aces - 1;
        }
        total
    }

    /// True when the hand's point value exceeds 21.
    pub fn check_bust(&self) -> (r: bool)
        requires
            raw_points(self@) <= u32::MAX,
        ensures
            r == is_bust(self@),
    {
        self.points() > 21
    }
}

} // verus!
