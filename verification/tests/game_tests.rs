use blackjack::card::{Card, Rank, Suit};
use blackjack::game::{parse_action, round_outcome, Action, Game, Outcome};
use blackjack::hand::Hand;
use blackjack::player::Player;

#[test]
fn parse_action_recognizes_exactly_stand_and_hit_lines() {
    assert_eq!(parse_action("s\n"), Some(Action::Stand));
    assert_eq!(parse_action("t\n"), Some(Action::Hit));
    assert_eq!(parse_action("x\n"), None);
    assert_eq!(parse_action("s"), None);
    assert_eq!(parse_action("t"), None);
    assert_eq!(parse_action(""), None);
    assert_eq!(parse_action("st\n"), None);
    assert_eq!(parse_action("\n"), None);
}

#[test]
fn outcome_compares_points() {
    assert_eq!(round_outcome(20, 19), Outcome::PlayerWins);
    assert_eq!(round_outcome(19, 20), Outcome::DealerWins);
    assert_eq!(round_outcome(20, 20), Outcome::Draw);
}

#[test]
fn player_wraps_name_hand_and_score() {
    let mut p = Player::new("John");
    assert_eq!(p.get_name().as_str(), "John");
    assert!(p.get_hand().get_cards().is_empty());
    assert_eq!(p.get_score(), 0);
    assert_eq!(p.points(), 0);
    p.add_card(Card::new(Rank::Eight, Suit::Heart, 8));
    p.add_card(Card::new(Rank::Ace, Suit::Club, 11));
    assert_eq!(p.points(), 19);
    assert_eq!(p.get_hand().get_cards().len(), 2);
    p.add_score();
    p.add_score();
    assert_eq!(p.get_score(), 2);
}

#[test]
fn new_game_has_a_dealer_and_no_participants() {
    let g = Game::new();
    assert_eq!(g.num_players(), 0);
    assert_eq!(g.get_dealer().get_name().as_str(), "Dealer");
    assert!(g.get_dealer().get_hand().get_cards().is_empty());
}

#[test]
fn round_deals_two_cards_to_dealer_and_each_empty_hand() {
    let mut g = Game::new();
    g.add_player("John");
    let used = g.round(&vec![Action::Stand]).expect("a fresh deck deals one player");
    assert_eq!(used, 1);
    assert_eq!(g.get_dealer().get_hand().get_cards().len(), 2);
    assert_eq!(g.get_player(0).get_hand().get_cards().len(), 2);
    assert_eq!(g.get_player(0).get_name().as_str(), "John");
}

#[test]
fn repeating_a_round_deals_nothing_to_dealt_hands() {
    let mut g = Game::new();
    g.add_player("John");
    g.add_player("Jane");
    g.round(&vec![Action::Stand, Action::Stand]).expect("first round deals");
    g.round(&vec![Action::Stand, Action::Stand]).expect("second round deals nothing");
    assert_eq!(g.get_dealer().get_hand().get_cards().len(), 2);
    assert_eq!(g.get_player(0).get_hand().get_cards().len(), 2);
    assert_eq!(g.get_player(1).get_hand().get_cards().len(), 2);
}

#[test]
fn a_single_hit_draws_exactly_one_card() {
    let mut g = Game::new();
    g.add_player("John");
    let used = g.round(&vec![Action::Hit]).expect("a fresh deck serves one hit");
    assert_eq!(used, 1);
    assert_eq!(g.get_dealer().get_hand().get_cards().len(), 2);
    assert_eq!(g.get_player(0).get_hand().get_cards().len(), 3);
}

#[test]
fn a_busting_hit_ends_the_turn_at_once() {
    let mut g = Game::new();
    g.add_player("John");
    let actions = vec![Action::Hit; 30];
    g.round(&actions).expect("thirty hits fit one deck");
    let cards = g.get_player(0).get_hand().get_cards();
    // every hand state a further card was drawn onto was not yet bust, so
    // only the very last prefix may exceed 21
    let mut prefix = Hand::new();
    let total = cards.len();
    for (seen, c) in cards.iter().enumerate() {
        let copy: Card = *c;
        prefix.add_card(copy);
        if seen + 1 >= 2 && seen + 1 < total {
            assert!(prefix.points() <= 21, "a busted participant was dealt another card");
        }
    }
}

#[test]
fn round_surfaces_deck_exhaustion_and_reset_recovers() {
    let mut g = Game::new();
    for i in 0..26 {
        let name = format!("P{}", i);
        g.add_player(&name);
    }
    // the deal needs 54 cards; the deck holds 52
    assert!(g.round(&vec![]).is_err());
    g.reset_deck();
    // every hand dealt before the failure is kept; the rest are dealt now
    g.round(&vec![]).expect("a fresh deck finishes the deal");
    assert_eq!(g.get_dealer().get_hand().get_cards().len(), 2);
    for i in 0..26 {
        assert_eq!(g.get_player(i).get_hand().get_cards().len(), 2);
    }
}

#[test]
fn player_round_alone_consumes_no_action_on_empty_list() {
    let mut g = Game::new();
    g.add_player("John");
    let used = g.player_round(&vec![]).expect("no draw happens without actions");
    assert_eq!(used, 0);
    assert!(g.get_player(0).get_hand().get_cards().is_empty());
}
