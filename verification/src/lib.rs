//! A single-deck blackjack round engine: cards, hands with soft-ace point
//! reduction, a draw-without-replacement deck, players, and a turn-based
//! round controller.

pub mod card;
pub mod deck;
pub mod game;
pub mod hand;
pub mod player;
