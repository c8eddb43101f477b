//! Players: a name, an exclusively owned hand, and a cumulative score.

use vstd::prelude::*;
use crate::card::Card;
use crate::hand::{Hand, hand_points, raw_points};

verus! {

/// The mathematical model of a player.
pub struct PlayerView {
    pub name: Seq<char>,
    pub hand: Seq<Card>,
    pub score: int,
}

/// A participant: a name, an owned hand, and a cumulative cross-round score.
pub struct Player {
    name: String,
    hand: Hand,
    score: usize,
}

impl View for Player {
    type V = PlayerView;

    closed spec fn view(&self) -> PlayerView {
        PlayerView { name: self.name@, hand: self.hand@, score: self.score as int }
    }
}

impl Player {
    /// A new player with the given name, an empty hand, and score zero.
    pub fn new(name: &str) -> (p: Player)
        ensures
            p@.name == name@,
            p@.hand =~= Seq::<Card>::empty(),
            p@.score == 0,
    {
        Player { name: name.to_owned(), hand: Hand::new(), score: 0 }
    }

    /// The player's name.
    pub fn get_name(&self) -> (r: &String)
        ensures
            r@ == self@.name,
    {
        &self.name
    }

    /// A read-only view of the player's hand.
    pub fn get_hand(&self) -> (r: &Hand)
        ensures
            r@ == self@.hand,
    {
        &self.hand
    }

    /// The player's cumulative score.
    pub fn get_score(&self) -> (r: usize)
        ensures
            r as int == self@.score,
    {
        self.score
    }

    /// Appends one card to the player's hand.
    pub fn add_card(&mut self, card: Card)
        ensures
            final(self)@.hand == old(self)@.hand.push(card),
            final(self)@.name == old(self)@.name,
            final(self)@.score == old(self)@.score,
    {
        self.hand.add_card(card);
    }

    /// The point value of the player's hand.
    pub fn points(&self) -> (r: u32)
        requires
            raw_points(self@.hand) <= u32::MAX,
        ensures
            r == hand_points(self@.hand),
    {
        self.hand.points()
    }

    /// Raises the score by exactly one; no decrement or cap exists.
    pub fn add_score(&mut self)
        requires
            old(self)@.score < usize::MAX,
        ensures
            final(self)@.score == old(self)@.score + 1,
            final(self)@.name == old(self)@.name,
            final(self)@.hand == old(self)@.hand,
    {
        self.score = self.score + 1;
    }
}

} // verus!
