use blackjack::card::{Card, Rank, Suit};

#[test]
fn card_exposes_its_parts() {
    let c = Card::new(Rank::Queen, Suit::Diamond, 10);
    assert_eq!(c.get_name(), Rank::Queen);
    assert_eq!(c.get_suit(), Suit::Diamond);
    assert_eq!(c.get_value(), 10);
    assert!(!c.is_ace());
}

#[test]
fn only_the_ace_is_an_ace() {
    assert!(Card::new(Rank::Ace, Suit::Heart, 11).is_ace());
    assert!(!Card::new(Rank::King, Suit::Heart, 10).is_ace());
    assert!(!Card::new(Rank::Two, Suit::Heart, 2).is_ace());
}

#[test]
fn rank_symbols() {
    assert_eq!(Card::new(Rank::Two, Suit::Club, 2).get_number_symbol(), "2");
    assert_eq!(Card::new(Rank::Nine, Suit::Club, 9).get_number_symbol(), "9");
    assert_eq!(Card::new(Rank::Ten, Suit::Club, 10).get_number_symbol(), "10");
    assert_eq!(Card::new(Rank::Jack, Suit::Club, 10).get_number_symbol(), "J");
    assert_eq!(Card::new(Rank::Queen, Suit::Club, 10).get_number_symbol(), "Q");
    assert_eq!(Card::new(Rank::King, Suit::Club, 10).get_number_symbol(), "K");
    assert_eq!(Card::new(Rank::Ace, Suit::Club, 11).get_number_symbol(), "A");
}

#[test]
fn suit_symbols() {
    assert_eq!(Card::new(Rank::Ace, Suit::Club, 11).get_suit_symbol(), "♣");
    assert_eq!(Card::new(Rank::Ace, Suit::Spade, 11).get_suit_symbol(), "♠");
    assert_eq!(Card::new(Rank::Ace, Suit::Diamond, 11).get_suit_symbol(), "♦");
    assert_eq!(Card::new(Rank::Ace, Suit::Heart, 11).get_suit_symbol(), "♥");
}
