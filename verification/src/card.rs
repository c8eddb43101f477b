//! Immutable card values: suit, rank, and base point value.

use vstd::prelude::*;

verus! {

/// The four suits of a standard deck.
#[derive(Clone, Copy, PartialEq, Eq, Structural, Debug)]
pub enum Suit {
    Heart,
    Diamond,
    Spade,
    Club,
}

/// The thirteen standard ranks.
#[derive(Clone, Copy, PartialEq, Eq, Structural, Debug)]
pub enum Rank {
    Two,
    Three,
    Four,
    Five,
    Six,
    Seven,
    Eight,
    Nine,
    Ten,
    Jack,
    Queen,
    King,
    Ace,
}

/// A playing card. The base value is fixed at construction: number ranks
/// carry their number, face ranks ten, the ace eleven.
#[derive(Clone, Copy, PartialEq, Eq, Structural, Debug)]
pub struct Card {
    pub rank: Rank,
    pub suit: Suit,
    pub value: u8,
}

/// The base point value that belongs to each rank.
pub open spec fn rank_value(r: Rank) -> u8 {
    match r {
        Rank::Two => 2,
        Rank::Three => 3,
        Rank::Four => 4,
        Rank::Five => 5,
        Rank::Six => 6,
        Rank::Seven => 7,
        Rank::Eight => 8,
        Rank::Nine => 9,
        Rank::Ten => 10,
        Rank::Jack => 10,
        Rank::Queen => 10,
        Rank::King => 10,
        Rank::Ace => 11,
    }
}

/// Two cards are the same member of the population when rank and suit agree;
/// the base value is derived from the rank.
pub open spec fn same_identity(a: Card, b: Card) -> bool {
    a.rank == b.rank && a.suit == b.suit
}

/// The display symbol of each rank.
pub open spec fn rank_symbol(r: Rank) -> Seq<char> {
    match r {
        Rank::Two => "2"@,
        Rank::Three => "3"@,
        Rank::Four => "4"@,
        Rank::Five => "5"@,
        Rank::Six => "6"@,
        Rank::Seven => "7"@,
        Rank::Eight => "8"@,
        Rank::Nine => "9"@,
        Rank::Ten => "10"@,
        Rank::Jack => "J"@,
        Rank::Queen => "Q"@,
        Rank::King => "K"@,
        Rank::Ace => "A"@,
    }
}

/// The display symbol of each suit.
pub open spec fn suit_symbol(s: Suit) -> Seq<char> {
    match s {
        Suit::Club => "♣"@,
        Suit::Spade => "♠"@,
        Suit::Diamond => "♦"@,
        Suit::Heart => "♥"@,
    }
}

impl Card {
    /// Builds a card from its parts.
    pub fn new(rank: Rank, suit: Suit, value: u8) -> (c: Card)
        ensures
            c == (Card { rank, suit, value }),
    {
        Card { rank, suit, value }
    }

    /// The card's rank.
    pub fn get_name(&self) -> (r: Rank)
        ensures
            r == self.rank,
    {
        self.rank
    }

    /// The card's suit.
    pub fn get_suit(&self) -> (r: Suit)
        ensures
            r == self.suit,
    {
        self.suit
    }

    /// The card's base point value.
    pub fn get_value(&self) -> (r: u8)
        ensures
            r == self.value,
    {
        self.value
    }

    /// True exactly when the rank is the ace.
    pub fn is_ace(&self) -> (r: bool)
        ensures
            r == (self.rank is Ace),
    {
        matches!(self.rank, Rank::Ace)
    }

    /// The display symbol of the card's rank.
    pub fn get_number_symbol(&self) -> (r: &'static str)
        ensures
            r@ == rank_symbol(self.rank),
    {
        match self.rank {
            Rank::Two => "2",
            Rank::Three => "3",
            Rank::Four => "4",
            Rank::Five => "5",
            Rank::Six => "6",
            Rank::Seven => "7",
            Rank::Eight => "8",
            Rank::Nine => "9",
            Rank::Ten => "10",
            Rank::Jack => "J",
            Rank::Queen => "Q",
            Rank::King => "K",
            Rank::Ace => "A",
        }
    }

    /// The display symbol of the card's suit.
    pub fn get_suit_symbol(&self) -> (r: &'static str)
        ensures
            r@ == suit_symbol(self.suit),
    {
        match self.suit {
            Suit::Club => "♣",
            Suit::Spade => "♠",
            Suit::Diamond => "♦",
            Suit::Heart => "♥",
        }
    }
}

} // verus!
