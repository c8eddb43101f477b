use blackjack::card::{Card, Rank, Suit};
use blackjack::hand::Hand;

fn card(rank: Rank, value: u8) -> Card {
    Card::new(rank, Suit::Spade, value)
}

#[test]
fn empty_hand_is_worth_zero_and_not_bust() {
    let h = Hand::new();
    assert!(h.is_empty());
    assert_eq!(h.points(), 0);
    assert!(!h.check_bust());
}

#[test]
fn ace_and_king_make_twenty_one() {
    let mut h = Hand::new();
    h.add_card(card(Rank::Ace, 11));
    h.add_card(card(Rank::King, 10));
    assert_eq!(h.points(), 21);
    assert!(!h.check_bust());
}

#[test]
fn two_aces_and_a_nine_make_twenty_one() {
    let mut h = Hand::new();
    h.add_card(card(Rank::Ace, 11));
    h.add_card(card(Rank::Ace, 11));
    h.add_card(card(Rank::Nine, 9));
    // one ace stays at eleven, one is demoted to one
    assert_eq!(h.points(), 21);
    assert!(!h.check_bust());
}

#[test]
fn ten_nine_five_busts_at_twenty_four() {
    let mut h = Hand::new();
    h.add_card(card(Rank::Ten, 10));
    h.add_card(card(Rank::Nine, 9));
    h.add_card(card(Rank::Five, 5));
    assert_eq!(h.points(), 24);
    assert!(h.check_bust());
}

#[test]
fn four_aces_and_two_sevens_reduce_to_eighteen() {
    let mut h = Hand::new();
    for _ in 0..4 {
        h.add_card(card(Rank::Ace, 11));
    }
    h.add_card(card(Rank::Seven, 7));
    h.add_card(card(Rank::Seven, 7));
    // raw total 58; four demotions of ten bring it to 18
    assert_eq!(h.points(), 18);
    assert!(!h.check_bust());
}

#[test]
fn all_aces_demoted_can_still_bust() {
    let mut h = Hand::new();
    h.add_card(card(Rank::Ace, 11));
    for _ in 0..3 {
        h.add_card(card(Rank::Ten, 10));
    }
    // raw 41, one demotion gives 31, no soft ace remains: bust at 31
    assert_eq!(h.points(), 31);
    assert!(h.check_bust());
}

#[test]
fn cards_keep_insertion_order() {
    let mut h = Hand::new();
    h.add_card(card(Rank::Two, 2));
    h.add_card(card(Rank::Queen, 10));
    assert!(!h.is_empty());
    let cards = h.get_cards();
    assert_eq!(cards.len(), 2);
    assert_eq!(cards[0].get_name(), Rank::Two);
    assert_eq!(cards[1].get_name(), Rank::Queen);
}
