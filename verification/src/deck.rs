//! The 52-card population and draw-without-replacement logic.

use vstd::prelude::*;
use rand::seq::IndexedRandom;
use crate::card::{Card, Rank, Suit, rank_value, same_identity};

verus! {

/// The typed failure of a draw from a deck whose 52 identities have all been
/// consumed. Recoverable by resetting the deck.
#[derive(Clone, Copy, PartialEq, Eq, Structural, Debug)]
pub struct DeckExhausted;

/// The rank standing at position `j` of each thirteen-card suit run.
pub open spec fn rank_at(j: int) -> Rank {
    if j == 0 {
        Rank::Two
    } else if j == 1 {
        Rank::Three
    } else if j == 2 {
        Rank::Four
    } else if j == 3 {
        Rank::Five
    } else if j == 4 {
        Rank::Six
    } else if j == 5 {
        Rank::Seven
    } else if j == 6 {
        Rank::Eight
    } else if j == 7 {
        Rank::Nine
    } else if j == 8 {
        Rank::Ten
    } else if j == 9 {
        Rank::Jack
    } else if j == 10 {
        Rank::Queen
    } else if j == 11 {
        Rank::King
    } else {
        Rank::Ace
    }
}

/// The suit of each thirteen-card run of the population.
pub open spec fn suit_at(k: int) -> Suit {
    if k == 0 {
        Suit::Club
    } else if k == 1 {
        Suit::Spade
    } else if k == 2 {
        Suit::Diamond
    } else {
        Suit::Heart
    }
}

/// The canonical card at population index `i` (0 up to 51): thirteen-card
/// runs per suit, each run in rank order, values fixed by the rank.
pub open spec fn card_for(i: int) -> Card {
    Card { rank: rank_at(i % 13), suit: suit_at(i / 13), value: rank_value(rank_at(i % 13)) }
}

/// The mathematical model of a deck: the fixed population and one consumed
/// flag per identity.
pub struct DeckView {
    pub cards: Seq<Card>,
    pub taken: Seq<bool>,
}

/// A well-formed deck holds exactly the canonical 52-card population and one
/// consumed flag per identity.
pub open spec fn deck_wf(d: DeckView) -> bool {
    &&& d.cards.len() == 52
    &&& d.taken.len() == 52
    &&& forall|i: int| 0 <= i < 52 ==> d.cards[i] == card_for(i)
}

/// How many of the first `n` flags are set.
pub open spec fn taken_count(s: Seq<bool>, n: int) -> int
    decreases n,
{
    if n <= 0 {
        0
    } else {
        taken_count(s, n - 1) + if s[n - 1] {
            1int
        } else {
            0int
        }
    }
}

/// How many identities the deck can still produce.
pub open spec fn drawable_count(d: DeckView) -> int {
    52 - taken_count(d.taken, 52)
}

/// The count of set flags lies between zero and `n`.
pub proof fn lemma_taken_count_bounds(s: Seq<bool>, n: int)
    requires
        0 <= n <= s.len(),
    ensures
        0 <= taken_count(s, n) <= n,
    decreases n,
{
    if n > 0 {
        lemma_taken_count_bounds(s, n - 1);
    }
}

/// Setting one clear flag raises the count by exactly one.
pub proof fn lemma_taken_count_update(s: Seq<bool>, n: int, i: int)
    requires
        0 <= i < n <= s.len(),
        !s[i],
    ensures
        taken_count(s.update(i, true), n) == taken_count(s, n) + 1,
    decreases n,
{
    if i == n - 1 {
        assert(taken_count(s.update(i, true), n - 1) == taken_count(s, n - 1)) by {
            lemma_taken_count_agree(s, s.update(i, true), n - 1);
        }
    } else {
        lemma_taken_count_update(s, n - 1, i);
    }
}

/// Flag counts agree on any prefix where the flags agree.
pub proof fn lemma_taken_count_agree(s1: Seq<bool>, s2: Seq<bool>, n: int)
    requires
        n <= s1.len(),
        n <= s2.len(),
        forall|j: int| 0 <= j < n ==> s1[j] == s2[j],
    ensures
        taken_count(s1, n) == taken_count(s2, n),
    decreases n,
{
    if n > 0 {
        lemma_taken_count_agree(s1, s2, n - 1);
    }
}

/// When every flag is clear, the count is zero.
pub proof fn lemma_taken_count_none(s: Seq<bool>, n: int)
    requires
        0 <= n <= s.len(),
        forall|j: int| 0 <= j < n ==> !s[j],
    ensures
        taken_count(s, n) == 0,
    decreases n,
{
    if n > 0 {
        assert(!s[n - 1]);
        lemma_taken_count_none(s, n - 1);
    }
}

/// When every flag is set, the count is `n`.
pub proof fn lemma_taken_count_all(s: Seq<bool>, n: int)
    requires
        0 <= n <= s.len(),
        forall|j: int| 0 <= j < n ==> s[j],
    ensures
        taken_count(s, n) == n,
    decreases n,
{
    if n > 0 {
        assert(s[n - 1]);
        lemma_taken_count_all(s, n - 1);
    }
}

/// A full count means every flag is set.
pub proof fn lemma_taken_count_full(s: Seq<bool>, n: int)
    requires
        0 <= n <= s.len(),
        taken_count(s, n) == n,
    ensures
        forall|j: int| 0 <= j < n ==> s[j],
    decreases n,
{
    if n > 0 {
        lemma_taken_count_bounds(s, n - 1);
        lemma_taken_count_full(s, n - 1);
    }
}

/// Distinct population indices name cards of distinct (rank, suit) identity.
pub proof fn lemma_card_for_injective(i: int, j: int)
    requires
        0 <= i < 52,
        0 <= j < 52,
        i != j,
    ensures
        !same_identity(card_for(i), card_for(j)),
{
    if same_identity(card_for(i), card_for(j)) {
        assert(i % 13 == j % 13 && i / 13 == j / 13) by {
            assert(0 <= i % 13 < 13 && 0 <= i / 13 < 4) by (nonlinear_arith)
                requires 0 <= i < 52;
            assert(0 <= j % 13 < 13 && 0 <= j / 13 < 4) by (nonlinear_arith)
                requires 0 <= j < 52;
        }
        assert(i == 13 * (i / 13) + i % 13) by (nonlinear_arith);
        assert(j == 13 * (j / 13) + j % 13) by (nonlinear_arith);
    }
}

/// Draw-without-replacement produces pairwise-distinct cards within one deck
/// lifetime: a draw's identity is outside the consumed set it entered, and
/// the consumed set only grows until a reset. So if a first draw takes
/// identity `i1` out of flags `t1`, the flags later become `t2` having only
/// grown, and a second draw takes `i2` out of `t2`, the two cards differ in
/// (rank, suit) identity.
pub proof fn lemma_draws_distinct(t1: Seq<bool>, t2: Seq<bool>, i1: int, i2: int)
    requires
        t1.len() == 52,
        t2.len() == 52,
        0 <= i1 < 52,
        !t1[i1],
        forall|j: int| 0 <= j < 52 && t1.update(i1, true)[j] ==> t2[j],
        0 <= i2 < 52,
        !t2[i2],
    ensures
        i1 != i2,
        !same_identity(card_for(i1), card_for(i2)),
{
    assert(t1.update(i1, true)[i1]);
    lemma_card_for_injective(i1, i2);
}

/// The consumed flags after the first `k` draws of one deck lifetime that
/// starts with flags `start` and consumes the identities `ids` in order.
pub open spec fn lifetime_flags(start: Seq<bool>, ids: Seq<int>, k: int) -> Seq<bool>
    decreases k,
{
    if k <= 0 {
        start
    } else {
        lifetime_flags(start, ids, k - 1).update(ids[k - 1], true)
    }
}

/// One deck lifetime, seen as the identities its draws consumed in order:
/// every draw takes an identity not yet consumed and marks it consumed,
/// which is what each successful get_random_card call ensures.
pub open spec fn valid_lifetime(start: Seq<bool>, ids: Seq<int>) -> bool {
    forall|k: int|
        0 <= k < ids.len() ==> 0 <= #[trigger] ids[k] < 52 && !lifetime_flags(start, ids, k)[ids[k]]
}

/// The flags of a lifetime keep their length.
pub proof fn lemma_lifetime_flags_len(start: Seq<bool>, ids: Seq<int>, k: int)
    requires
        start.len() == 52,
        valid_lifetime(start, ids),
        0 <= k <= ids.len(),
    ensures
        lifetime_flags(start, ids, k).len() == 52,
    decreases k,
{
    if k > 0 {
        lemma_lifetime_flags_len(start, ids, k - 1);
    }
}

/// A consumed flag stays consumed for the rest of the lifetime.
pub proof fn lemma_lifetime_flags_monotone(start: Seq<bool>, ids: Seq<int>, j: int, k: int, i: int)
    requires
        start.len() == 52,
        valid_lifetime(start, ids),
        0 <= j <= k <= ids.len(),
        0 <= i < 52,
        lifetime_flags(start, ids, j)[i],
    ensures
        lifetime_flags(start, ids, k)[i],
    decreases k - j,
{
    if k > j {
        lemma_lifetime_flags_monotone(start, ids, j, k - 1, i);
        lemma_lifetime_flags_len(start, ids, k - 1);
    }
}

/// Any sequence of draws within one deck lifetime, however long, returns
/// cards of pairwise-distinct (rank, suit) identities: any two draws of the
/// lifetime consumed different identities, hence cards that differ in rank
/// or suit.
pub proof fn lemma_lifetime_draws_distinct(start: Seq<bool>, ids: Seq<int>, a: int, b: int)
    requires
        start.len() == 52,
        valid_lifetime(start, ids),
        0 <= a < b < ids.len(),
    ensures
        ids[a] != ids[b],
        !same_identity(card_for(ids[a]), card_for(ids[b])),
{
    let fa = lifetime_flags(start, ids, a);
    let fb = lifetime_flags(start, ids, b);
    lemma_lifetime_flags_len(start, ids, a);
    lemma_lifetime_flags_len(start, ids, a + 1);
    lemma_lifetime_flags_len(start, ids, b);
    assert forall|j: int| 0 <= j < 52 && fa.update(ids[a], true)[j] implies fb[j] by {
        assert(fa.update(ids[a], true) == lifetime_flags(start, ids, a + 1));
        lemma_lifetime_flags_monotone(start, ids, a + 1, b, j);
    }
    lemma_draws_distinct(fa, fb, ids[a], ids[b]);
}

/// The fixed 52-card population plus one consumed flag per identity.
#[derive(Debug)]
pub struct Deck {
    cards: Vec<Card>,
    taken: Vec<bool>,
}

/// Relies on rand::seq::IndexedRandom::choose, driven by the thread-local
/// generator of rand::rng(): on a non-empty slice it returns Some of one
/// uniformly sampled element, and None only on an empty slice. rand::rng()
/// itself can abort only if the operating system's generator cannot seed it.
#[verifier::external_body]
fn choose_random(candidates: &Vec<u8>) -> (r: u8)
    requires
        candidates@.len() > 0,
    ensures
        candidates@.contains(r),
{
    *candidates.as_slice().choose(&mut rand::rng()).unwrap()
}

impl View for Deck {
    type V = DeckView;

    closed spec fn view(&self) -> DeckView {
        DeckView { cards: self.cards@, taken: self.taken@ }
    }
}

impl Deck {
    /// A fresh deck: the canonical 52-card population, nothing consumed yet.
    pub fn new() -> (d: Deck)
        ensures
            deck_wf(d@),
            forall|i: int| 0 <= i < 52 ==> !d@.taken[i],
            drawable_count(d@) == 52,
    {
        let mut cards: Vec<Card> = Vec::new();
        let mut taken: Vec<bool> = Vec::new();
        let mut i: usize = 0;
        while i < 52
            invariant
                i <= 52,
                cards@.len() == i,
                taken@.len() == i,
                forall|n: int| 0 <= n < i ==> cards@[n] == card_for(n),
                forall|n: int| 0 <= n < i ==> !taken@[n],
            decreases 52 - i,
        {
            let rank = Self::rank_of_position(i % 13);
            let suit = Self::suit_of_position(i / 13);
            let value = Self::base_value(rank);
            cards.push(Card::new(rank, suit, value));
            taken.push(false);
            i = i + 1;
        }
        let d = Deck { cards, taken };
        proof {
            lemma_taken_count_none(d@.taken, 52);
        }
        d
    }

    /// The rank at position `j` of a suit run.
    fn rank_of_position(j: usize) -> (r: Rank)
        requires
            j < 13,
        ensures
            r == rank_at(j as int),
    {
        if j == 0 {
            Rank::Two
        } else if j == 1 {
            Rank::Three
        } else if j == 2 {
            Rank::Four
        } else if j == 3 {
            Rank::Five
        } else if j == 4 {
            Rank::Six
        } else if j == 5 {
            Rank::Seven
        } else if j == 6 {
            Rank::Eight
        } else if j == 7 {
            Rank::Nine
        } else if j == 8 {
            Rank::Ten
        } else if j == 9 {
            Rank::Jack
        } else if j == 10 {
            Rank::Queen
        } else if j == 11 {
            Rank::King
        } else {
            Rank::Ace
        }
    }

    /// The suit of run `k` of the population.
    fn suit_of_position(k: usize) -> (r: Suit)
        requires
            k < 4,
        ensures
            r == suit_at(k as int),
    {
        if k == 0 {
            Suit::Club
        } else if k == 1 {
            Suit::Spade
        } else if k == 2 {
            Suit::Diamond
        } else {
            Suit::Heart
        }
    }

    /// The base point value of a rank.
    fn base_value(r: Rank) -> (v: u8)
        ensures
            v == rank_value(r),
    {
        match r {
            Rank::Two => 2,
            Rank::Three => 3,
            Rank::Four => 4,
            Rank::Five => 5,
            Rank::Six => 6,
            Rank::Seven => 7,
            Rank::Eight => 8,
            Rank::Nine => 9,
            Rank::Ten => 10,
            Rank::Jack => 10,
            Rank::Queen => 10,
            Rank::King => 10,
            Rank::Ace => 11,
        }
    }

    /// Draws one identity uniformly at random from those not yet consumed,
    /// marks it consumed, and returns an owned copy of its card. Fails with
    /// DeckExhausted, leaving the deck unchanged, exactly when every identity
    /// is already consumed.
    pub fn get_random_card(&mut self) -> (r: Result<Card, DeckExhausted>)
        requires
            deck_wf(old(self)@),
        ensures
            deck_wf(final(self)@),
            final(self)@.cards == old(self)@.cards,
            forall|i: int| 0 <= i < 52 && old(self)@.taken[i] ==> final(self)@.taken[i],
            match r {
                Ok(card) => exists|i: int|
                    0 <= i < 52 && !old(self)@.taken[i] && card == card_for(i)
                        && final(self)@.taken =~= old(self)@.taken.update(i, true),
                Err(_) => final(self)@ == old(self)@ && forall|i: int|
                    0 <= i < 52 ==> old(self)@.taken[i],
            },
            (r is Ok) <==> drawable_count(old(self)@) > 0,
            r is Ok ==> drawable_count(final(self)@) == drawable_count(old(self)@) - 1,
            r is Err ==> drawable_count(old(self)@) == 0,
            r matches Ok(card) ==> card.value <= 11,
    {
        let mut candidates: Vec<u8> = Vec::new();
        let mut i: usize = 0;
        while i < 52
            invariant
                i <= 52,
                deck_wf(self@),
                *self == *old(self),
                forall|n: int| 0 <= n < candidates@.len()
                    ==> (candidates@[n] as int) < 52 && !self@.taken[candidates@[n] as int],
                forall|n: int| 0 <= n < i && !self@.taken[n]
                    ==> exists|m: int| 0 <= m < candidates@.len() && candidates@[m] as int == n,
            decreases 52 - i,
        {
            let ghost pre = candidates@;
            if !self.taken[i] {
                candidates.push(i as u8);
            }
            proof {
                assert forall|n: int| 0 <= n < i + 1 && !self@.taken[n] implies exists|m: int|
                    0 <= m < candidates@.len() && candidates@[m] as int == n by {
                    if n < i {
                        let m = choose|m: int| 0 <= m < pre.len() && pre[m] as int == n;
                        assert(candidates@[m] as int == n);
                    } else {
                        assert(candidates@[candidates@.len() - 1] as int == n);
                    }
                }
            }
            i = i + 1;
        }
        if candidates.len() == 0 {
            proof {
                assert forall|n: int| 0 <= n < 52 implies self@.taken[n] by {
                    if !self@.taken[n] {
                        assert(exists|m: int|
                            0 <= m < candidates@.len() && candidates@[m] as int == n);
                    }
                }
                lemma_taken_count_all(self@.taken, 52);
            }
            return Err(DeckExhausted);
        }
        let id = choose_random(&candidates) as usize;
        proof {
            let m = choose|m: int|
                0 <= m < candidates@.len() && candidates@[m] == (id as u8);
            assert((candidates@[m] as int) < 52 && !self@.taken[candidates@[m] as int]);
            assert(!self@.taken[id as int]);
            lemma_taken_count_bounds(self@.taken, 52);
            lemma_taken_count_update(self@.taken, 52, id as int);
            if taken_count(self@.taken, 52) == 52 {
                lemma_taken_count_full(self@.taken, 52);
            }
        }
        let card = self.cards[id];
        self.taken[id] = true;
        proof {
            assert((id as int) < 52 && !old(self)@.taken[id as int] && card == card_for(
                id as int,
            ) && self@.taken =~= old(self)@.taken.update(id as int, true));
        }
        Ok(card)
    }

    /// Clears the consumed set; the population is unchanged. Afterwards the
    /// drawable count is exactly 52 again, whatever had been consumed.
    pub fn reset(&mut self)
        requires
            deck_wf(old(self)@),
        ensures
            deck_wf(final(self)@),
            final(self)@.cards == old(self)@.cards,
            forall|i: int| 0 <= i < 52 ==> !final(self)@.taken[i],
            drawable_count(final(self)@) == 52,
    {
        let mut i: usize = 0;
        while i < 52
            invariant
                i <= 52,
                self@.cards == old(self)@.cards,
                self@.taken.len() == 52,
                forall|n: int| 0 <= n < i ==> !self@.taken[n],
            decreases 52 - i,
        {
            self.taken[i] = false;
            i = i + 1;
        }
        proof {
            lemma_taken_count_none(self@.taken, 52);
        }
    }
}

} // verus!
