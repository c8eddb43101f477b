use blackjack::card::{Card, Rank, Suit};
use blackjack::deck::{Deck, DeckExhausted};

fn draw_all(deck: &mut Deck) -> Vec<Card> {
    let mut cards = Vec::new();
    for _ in 0..52 {
        cards.push(deck.get_random_card().expect("a fresh lifetime holds 52 draws"));
    }
    cards
}

#[test]
fn fifty_two_draws_have_pairwise_distinct_identities() {
    let mut deck = Deck::new();
    let cards = draw_all(&mut deck);
    for a in 0..cards.len() {
        for b in (a + 1)..cards.len() {
            let same = cards[a].get_name() == cards[b].get_name()
                && cards[a].get_suit() == cards[b].get_suit();
            assert!(!same, "duplicate identity drawn");
        }
    }
}

#[test]
fn fifty_third_draw_fails_and_reset_recovers() {
    let mut deck = Deck::new();
    let _ = draw_all(&mut deck);
    assert_eq!(deck.get_random_card(), Err(DeckExhausted));
    deck.reset();
    assert!(deck.get_random_card().is_ok());
}

#[test]
fn reset_restores_fifty_two_drawables_regardless_of_consumption() {
    let mut deck = Deck::new();
    for _ in 0..17 {
        deck.get_random_card().expect("seventeen draws fit one lifetime");
    }
    deck.reset();
    let _ = draw_all(&mut deck);
    assert_eq!(deck.get_random_card(), Err(DeckExhausted));
}

#[test]
fn population_is_the_canonical_fifty_two() {
    let mut deck = Deck::new();
    let cards = draw_all(&mut deck);
    let suits = [Suit::Heart, Suit::Diamond, Suit::Spade, Suit::Club];
    for suit in suits {
        let run: Vec<&Card> = cards.iter().filter(|c| c.get_suit() == suit).collect();
        assert_eq!(run.len(), 13, "thirteen cards per suit");
        assert_eq!(run.iter().filter(|c| c.is_ace()).count(), 1);
    }
    for c in &cards {
        let expected = match c.get_name() {
            Rank::Two => 2,
            Rank::Three => 3,
            Rank::Four => 4,
            Rank::Five => 5,
            Rank::Six => 6,
            Rank::Seven => 7,
            Rank::Eight => 8,
            Rank::Nine => 9,
            Rank::Ten | Rank::Jack | Rank::Queen | Rank::King => 10,
            Rank::Ace => 11,
        };
        assert_eq!(c.get_value(), expected);
    }
}
