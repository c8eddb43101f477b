//! The game aggregate and the turn-based round controller.

use vstd::prelude::*;
use crate::card::Card;
use crate::deck::{Deck, DeckExhausted, DeckView, deck_wf, drawable_count,
    lemma_taken_count_bounds};
use crate::hand::{hand_points, is_bust, raw_points, lemma_raw_points_extension};
use crate::player::{Player, PlayerView};

verus! {

/// One recognized action of a participant's turn.
#[derive(Clone, Copy, PartialEq, Eq, Structural, Debug)]
pub enum Action {
    Stand,
    Hit,
}

/// How the single-player flow resolves a finished round, by comparing the
/// participant's points against the dealer's.
#[derive(Clone, Copy, PartialEq, Eq, Structural, Debug)]
pub enum Outcome {
    PlayerWins,
    DealerWins,
    Draw,
}

/// Parses one line of action input: exactly "s" followed by a newline stands,
/// exactly "t" followed by a newline hits. Anything else is not an action: it
/// must be re-requested, and no state advances.
pub fn parse_action(input: &str) -> (r: Option<Action>)
    ensures
        (r == Some(Action::Stand)) <==> input@ =~= seq!['s', '\n'],
        (r == Some(Action::Hit)) <==> input@ =~= seq!['t', '\n'],
{
    let len = input.unicode_len();
    if len != 2 {
        return None;
    }
    let c1 = input.get_char(1);
    if c1 != '\n' {
        return None;
    }
    let c0 = input.get_char(0);
    if c0 == 's' {
        proof {
            assert(input@ =~= seq!['s', '\n']);
        }
        Some(Action::Stand)
    } else if c0 == 't' {
        proof {
            assert(input@ =~= seq!['t', '\n']);
        }
        Some(Action::Hit)
    } else {
        None
    }
}

/// The end-of-round comparison: the participant beats the dealer exactly when
/// their points are higher, loses exactly when lower, and draws on equality.
pub fn round_outcome(player_points: u32, dealer_points: u32) -> (r: Outcome)
    ensures
        (r is PlayerWins) <==> player_points > dealer_points,
        (r is DealerWins) <==> player_points < dealer_points,
        (r is Draw) <==> player_points == dealer_points,
{
    if player_points > dealer_points {
        Outcome::PlayerWins
    } else if player_points < dealer_points {
        Outcome::DealerWins
    } else {
        Outcome::Draw
    }
}

/// How many of the actions in positions `a` up to `b` are Hit.
pub open spec fn hit_count(actions: Seq<Action>, a: int, b: int) -> int
    decreases b - a,
{
    if b <= a {
        0
    } else {
        hit_count(actions, a, b - 1) + if actions[b - 1] is Hit {
            1int
        } else {
            0int
        }
    }
}

/// Hit counts add up over adjacent ranges.
pub proof fn lemma_hit_count_split(actions: Seq<Action>, a: int, b: int, c: int)
    requires
        a <= b <= c,
    ensures
        hit_count(actions, a, c) == hit_count(actions, a, b) + hit_count(actions, b, c),
    decreases c - b,
{
    if c > b {
        lemma_hit_count_split(actions, a, b, c - 1);
    }
}

/// A range of nothing but Hits counts its full width.
pub proof fn lemma_hit_count_all_hit(actions: Seq<Action>, a: int, b: int)
    requires
        a <= b,
        forall|k: int| a <= k < b ==> actions[k] is Hit,
    ensures
        hit_count(actions, a, b) == b - a,
    decreases b - a,
{
    if b > a {
        assert(actions[b - 1] is Hit);
        lemma_hit_count_all_hit(actions, a, b - 1);
    }
}

/// A hit count lies between zero and the range's width.
pub proof fn lemma_hit_count_bounds(actions: Seq<Action>, a: int, b: int)
    requires
        a <= b,
    ensures
        0 <= hit_count(actions, a, b) <= b - a,
    decreases b - a,
{
    if b > a {
        lemma_hit_count_bounds(actions, a, b - 1);
    }
}

/// One participant's turn over its contiguous action segment `[a, b)`: the
/// hand grows by exactly one card per Hit consumed; only the segment's last
/// action may be a Stand; and a segment ends before the actions run out only
/// by a Stand or by a Hit that busted the hand.
pub open spec fn turn_segment(
    pre: PlayerView,
    post: PlayerView,
    actions: Seq<Action>,
    a: int,
    b: int,
) -> bool {
    &&& 0 <= a <= b <= actions.len()
    &&& post.name == pre.name
    &&& post.score == pre.score
    &&& pre.hand.is_prefix_of(post.hand)
    &&& post.hand.len() - pre.hand.len() == hit_count(actions, a, b)
    &&& forall|k: int| a <= k < b - 1 ==> actions[k] is Hit
    &&& (b < actions.len() ==> a < b && (actions[b - 1] is Stand || (actions[b - 1] is Hit
        && is_bust(post.hand))))
}

/// The consumed prefix of the action list splits into contiguous segments,
/// one per participant, in players-list order and without interleaving:
/// participant `i` consumed exactly the actions in `[cuts[i], cuts[i + 1])`.
pub open spec fn turn_partition(
    pre: Seq<PlayerView>,
    post: Seq<PlayerView>,
    actions: Seq<Action>,
    used: int,
    cuts: Seq<int>,
) -> bool {
    &&& post.len() == pre.len()
    &&& cuts.len() == pre.len() + 1
    &&& cuts[0] == 0
    &&& cuts[pre.len() as int] == used
    &&& forall|i: int|
        0 <= i < pre.len() ==> #[trigger] turn_segment(pre[i], post[i], actions, cuts[i], cuts[i
            + 1])
}

/// The turns' overall effect: some split of the consumed action prefix into
/// per-participant segments, in list order, accounts for every card added.
pub open spec fn turns_partitioned(
    pre: Seq<PlayerView>,
    post: Seq<PlayerView>,
    actions: Seq<Action>,
    used: int,
) -> bool {
    exists|cuts: Seq<int>| turn_partition(pre, post, actions, used, cuts)
}

/// The whole round's effect on the participants: some dealt state — two
/// cards to each empty hand, dealt hands untouched — is carried by the turns
/// to the final state, the consumed actions split among the participants.
pub open spec fn round_shape(
    pre: Seq<PlayerView>,
    post: Seq<PlayerView>,
    actions: Seq<Action>,
    used: int,
) -> bool {
    exists|mid: Seq<PlayerView>|
        #[trigger] dealt_players(pre, mid) && turns_partitioned(mid, post, actions, used)
}

/// How many cards the first `n` participants gained between two states.
pub open spec fn total_cards_added(pre: Seq<PlayerView>, post: Seq<PlayerView>, n: int) -> int
    decreases n,
{
    if n <= 0 {
        0
    } else {
        total_cards_added(pre, post, n - 1) + (post[n - 1].hand.len() - pre[n - 1].hand.len())
    }
}

/// Changing only participant `i` moves the total by that hand's growth.
pub proof fn lemma_total_cards_added_update(
    pre: Seq<PlayerView>,
    p1: Seq<PlayerView>,
    p2: Seq<PlayerView>,
    n: int,
    i: int,
)
    requires
        0 <= i < n,
        forall|t: int| 0 <= t < n && t != i ==> p2[t] == p1[t],
    ensures
        total_cards_added(pre, p2, n) == total_cards_added(pre, p1, n) + (p2[i].hand.len()
            - p1[i].hand.len()),
    decreases n,
{
    if i < n - 1 {
        lemma_total_cards_added_update(pre, p1, p2, n - 1, i);
    } else {
        lemma_total_cards_added_agree(pre, p1, p2, n - 1);
    }
}

/// The total depends only on the first `n` entries.
pub proof fn lemma_total_cards_added_agree(
    pre: Seq<PlayerView>,
    p1: Seq<PlayerView>,
    p2: Seq<PlayerView>,
    n: int,
)
    requires
        forall|t: int| 0 <= t < n ==> p2[t] == p1[t],
    ensures
        total_cards_added(pre, p1, n) == total_cards_added(pre, p2, n),
    decreases n,
{
    if n > 0 {
        lemma_total_cards_added_agree(pre, p1, p2, n - 1);
    }
}

/// When no hand changed its length, the total growth is zero.
pub proof fn lemma_total_cards_added_same(pre: Seq<PlayerView>, post: Seq<PlayerView>, n: int)
    requires
        forall|t: int| 0 <= t < n ==> post[t].hand.len() == pre[t].hand.len(),
    ensures
        total_cards_added(pre, post, n) == 0,
    decreases n,
{
    if n > 0 {
        lemma_total_cards_added_same(pre, post, n - 1);
    }
}

/// Growth totals add up across an intermediate state.
pub proof fn lemma_total_cards_added_transitive(
    pre: Seq<PlayerView>,
    mid: Seq<PlayerView>,
    post: Seq<PlayerView>,
    n: int,
)
    ensures
        total_cards_added(pre, post, n) == total_cards_added(pre, mid, n) + total_cards_added(
            mid,
            post,
            n,
        ),
    decreases n,
{
    if n > 0 {
        lemma_total_cards_added_transitive(pre, mid, post, n - 1);
    }
}

/// How many of the first `n` participants hold an empty hand.
pub open spec fn empty_hands(players: Seq<PlayerView>, n: int) -> int
    decreases n,
{
    if n <= 0 {
        0
    } else {
        empty_hands(players, n - 1) + if players[n - 1].hand.len() == 0 {
            1int
        } else {
            0int
        }
    }
}

/// The count of empty hands never decreases as more participants are seen.
pub proof fn lemma_empty_hands_mono(players: Seq<PlayerView>, m: int, n: int)
    requires
        0 <= m <= n,
    ensures
        empty_hands(players, m) <= empty_hands(players, n),
    decreases n - m,
{
    if n > m {
        lemma_empty_hands_mono(players, m, n - 1);
    }
}

/// A participant with an empty hand raises the count past its position.
pub proof fn lemma_empty_hands_at(players: Seq<PlayerView>, i: int, n: int)
    requires
        0 <= i < n,
        players[i].hand.len() == 0,
    ensures
        empty_hands(players, n) >= empty_hands(players, i) + 1,
{
    lemma_empty_hands_mono(players, i + 1, n);
}

/// What the deal phase does to the participants: an empty hand receives
/// exactly two cards, a hand already dealt is left alone.
pub open spec fn dealt_players(pre: Seq<PlayerView>, mid: Seq<PlayerView>) -> bool {
    &&& mid.len() == pre.len()
    &&& forall|i: int|
        0 <= i < pre.len() ==> #[trigger] mid[i].name == pre[i].name && mid[i].score
            == pre[i].score && (pre[i].hand.len() == 0 ==> mid[i].hand.len() == 2) && (
        pre[i].hand.len() > 0 ==> mid[i].hand == pre[i].hand) && pre[i].hand.is_prefix_of(
            mid[i].hand,
        )
}

/// Draws one card from the deck into the given player's hand. Fails, leaving
/// both unchanged, exactly when the deck is exhausted.
fn hit(deck: &mut Deck, player: &mut Player) -> (r: Result<(), DeckExhausted>)
    requires
        deck_wf(old(deck)@),
    ensures
        deck_wf(final(deck)@),
        final(deck)@.cards == old(deck)@.cards,
        forall|i: int| 0 <= i < 52 && old(deck)@.taken[i] ==> final(deck)@.taken[i],
        final(player)@.name == old(player)@.name,
        final(player)@.score == old(player)@.score,
        match r {
            Ok(_) => final(player)@.hand.len() == old(player)@.hand.len() + 1
                && old(player)@.hand.is_prefix_of(final(player)@.hand)
                && final(player)@.hand.last().value <= 11
                && drawable_count(final(deck)@) == drawable_count(old(deck)@) - 1,
            Err(_) => final(player)@ == old(player)@ && final(deck)@ == old(deck)@
                && drawable_count(old(deck)@) == 0,
        },
        (r is Ok) <==> drawable_count(old(deck)@) > 0,
{
    match deck.get_random_card() {
        Ok(card) => {
            let ghost pre_hand = player@.hand;
            player.add_card(card);
            proof {
                assert(pre_hand.is_prefix_of(player@.hand)) by {
                    assert(player@.hand.subrange(0, pre_hand.len() as int) =~= pre_hand);
                }
            }
            Ok(())
        },
        Err(e) => Err(e),
    }
}

/// Runs one participant's turn, consuming actions from position `start`:
/// Stand ends the turn; Hit draws one card and, if the hand then busts, ends
/// the turn involuntarily, so a busted participant is asked nothing further
/// this round. When the actions run out the turn ends as if standing.
fn player_turn(deck: &mut Deck, player: &mut Player, actions: &Vec<Action>, start: usize) -> (r:
    Result<usize, DeckExhausted>)
    requires
        deck_wf(old(deck)@),
        start <= actions@.len(),
        raw_points(old(player)@.hand) + 11 * drawable_count(old(deck)@) <= u32::MAX,
    ensures
        deck_wf(final(deck)@),
        final(deck)@.cards == old(deck)@.cards,
        forall|i: int| 0 <= i < 52 && old(deck)@.taken[i] ==> final(deck)@.taken[i],
        final(player)@.name == old(player)@.name,
        final(player)@.score == old(player)@.score,
        old(player)@.hand.is_prefix_of(final(player)@.hand),
        forall|k: int|
            old(player)@.hand.len() <= k < final(player)@.hand.len()
                ==> final(player)@.hand[k].value <= 11,
        drawable_count(final(deck)@) == drawable_count(old(deck)@) - (final(player)@.hand.len()
            - old(player)@.hand.len()),
        raw_points(final(player)@.hand) + 11 * drawable_count(final(deck)@) <= u32::MAX,
        forall|j: int|
            old(player)@.hand.len() < j < final(player)@.hand.len()
                ==> hand_points(final(player)@.hand.subrange(0, j)) <= 21,
        r matches Ok(end) ==> start <= end <= actions@.len(),
        r matches Ok(end) ==> turn_segment(
            old(player)@,
            final(player)@,
            actions@,
            start as int,
            end as int,
        ),
        r matches Ok(end) ==> (start < actions@.len() && actions@[start as int] is Stand
            ==> end == start + 1 && final(player)@ == old(player)@ && final(deck)@ == old(deck)@),
        r matches Ok(end) ==> (start == actions@.len()
            ==> end == start && final(player)@ == old(player)@ && final(deck)@ == old(deck)@),
        r is Err ==> drawable_count(final(deck)@) == 0,
        drawable_count(old(deck)@) >= hit_count(actions@, start as int, actions@.len() as int)
            ==> r is Ok,
{
    let mut pos = start;
    while pos < actions.len()
        invariant
            start <= pos <= actions@.len(),
            deck_wf(deck@),
            deck@.cards == old(deck)@.cards,
            forall|i: int| 0 <= i < 52 && old(deck)@.taken[i] ==> deck@.taken[i],
            player@.name == old(player)@.name,
            player@.score == old(player)@.score,
            old(player)@.hand.is_prefix_of(player@.hand),
            forall|k: int|
                old(player)@.hand.len() <= k < player@.hand.len()
                    ==> player@.hand[k].value <= 11,
            drawable_count(deck@) == drawable_count(old(deck)@) - (player@.hand.len()
                - old(player)@.hand.len()),
            player@.hand.len() - old(player)@.hand.len() == pos - start,
            forall|k: int| start <= k < pos ==> actions@[k] is Hit,
            raw_points(player@.hand) + 11 * drawable_count(deck@) <= u32::MAX,
            forall|j: int|
                old(player)@.hand.len() < j < player@.hand.len()
                    ==> hand_points(player@.hand.subrange(0, j)) <= 21,
            player@.hand.len() > old(player)@.hand.len() ==> hand_points(player@.hand) <= 21,
            pos == start ==> player@ == old(player)@ && deck@ == old(deck)@,
        decreases actions@.len() - pos,
    {
        let a = actions[pos];
        pos = pos + 1;
        match a {
            Action::Stand => {
                proof {
                    lemma_hit_count_all_hit(actions@, start as int, pos - 1);
                }
                return Ok(pos);
            },
            Action::Hit => {
                let ghost pre_hand = player@.hand;
                match hit(deck, player) {
                    Ok(_) => {},
                    Err(e) => {
                        proof {
                            lemma_hit_count_all_hit(actions@, start as int, pos - 1);
                            lemma_hit_count_split(actions@, start as int, pos - 1, pos as int);
                            lemma_hit_count_split(
                                actions@,
                                start as int,
                                pos as int,
                                actions@.len() as int,
                            );
                            lemma_hit_count_bounds(actions@, pos as int, actions@.len() as int);
                        }
                        return Err(e);
                    },
                }
                proof {
                    lemma_hit_count_all_hit(actions@, start as int, pos - 1);
                    lemma_taken_count_bounds(deck@.taken, 52);
                    assert(player@.hand.subrange(0, pre_hand.len() as int) =~= pre_hand);
                    lemma_raw_points_extension(player@.hand, pre_hand.len() as int);
                    assert(old(player)@.hand.is_prefix_of(player@.hand)) by {
                        assert(player@.hand.subrange(0, old(player)@.hand.len() as int)
                            =~= old(player)@.hand);
                    }
                    assert forall|k: int|
                        old(player)@.hand.len() <= k < player@.hand.len()
                            implies player@.hand[k].value <= 11 by {
                        if k < pre_hand.len() {
                            assert(player@.hand[k] == pre_hand[k]);
                        } else {
                            assert(player@.hand[k] == player@.hand.last());
                        }
                    }
                    assert forall|j: int|
                        old(player)@.hand.len() < j < player@.hand.len()
                            implies hand_points(player@.hand.subrange(0, j)) <= 21 by {
                        assert(player@.hand.subrange(0, j) =~= pre_hand.subrange(0, j));
                        if j == pre_hand.len() {
                            assert(pre_hand.subrange(0, j) =~= pre_hand);
                        }
                    }
                }
                if player.points() > 21 {
                    return Ok(pos);
                }
            },
        }
    }
    proof {
        lemma_hit_count_all_hit(actions@, start as int, pos as int);
    }
    Ok(pos)
}

/// Deals two cards into an empty hand. Fails exactly when fewer than two
/// identities are still drawable; the cards drawn before the failure stay.
fn deal_two(deck: &mut Deck, player: &mut Player) -> (r: Result<(), DeckExhausted>)
    requires
        deck_wf(old(deck)@),
        old(player)@.hand.len() == 0,
        11 * drawable_count(old(deck)@) <= u32::MAX,
    ensures
        deck_wf(final(deck)@),
        final(deck)@.cards == old(deck)@.cards,
        forall|i: int| 0 <= i < 52 && old(deck)@.taken[i] ==> final(deck)@.taken[i],
        final(player)@.name == old(player)@.name,
        final(player)@.score == old(player)@.score,
        old(player)@.hand.is_prefix_of(final(player)@.hand),
        drawable_count(final(deck)@) == drawable_count(old(deck)@) - final(player)@.hand.len(),
        raw_points(final(player)@.hand) + 11 * drawable_count(final(deck)@) <= 11 * drawable_count(
            old(deck)@,
        ),
        r is Ok ==> final(player)@.hand.len() == 2,
        r is Err ==> drawable_count(final(deck)@) == 0,
        (r is Ok) <==> drawable_count(old(deck)@) >= 2,
{
    proof {
        assert(old(player)@.hand =~= Seq::<Card>::empty());
    }
    match hit(deck, player) {
        Ok(_) => {},
        Err(e) => {
            return Err(e);
        },
    }
    let ghost h1 = player@.hand;
    proof {
        assert(raw_points(h1) == h1.last().value) by {
            assert(h1.drop_last() =~= Seq::<Card>::empty());
            assert(raw_points(Seq::<Card>::empty()) == 0);
        }
    }
    match hit(deck, player) {
        Ok(_) => {},
        Err(e) => {
            proof {
                assert(old(player)@.hand.is_prefix_of(player@.hand)) by {
                    assert(player@.hand.subrange(0, 0) =~= old(player)@.hand);
                }
            }
            return Err(e);
        },
    }
    proof {
        assert(raw_points(player@.hand) == raw_points(h1) + player@.hand.last().value) by {
            assert(player@.hand.drop_last() =~= h1);
        }
        assert(old(player)@.hand.is_prefix_of(player@.hand)) by {
            assert(player@.hand.subrange(0, 0) =~= old(player)@.hand);
        }
    }
    Ok(())
}

/// The hand length a participant holds right after the deal phase: an empty
/// hand is dealt exactly two cards; a non-empty hand is left alone.
pub open spec fn dealt_len(old_len: int) -> int {
    if old_len == 0 {
        2
    } else {
        old_len
    }
}

/// The mathematical model of a game.
pub struct GameView {
    pub dealer: PlayerView,
    pub players: Seq<PlayerView>,
    pub deck: DeckView,
    pub rounds: int,
}

/// One game: an owned deck, the dealer, the ordered participants, and a round
/// counter.
pub struct Game {
    dealer: Player,
    players: Vec<Player>,
    deck: Deck,
    rounds: usize,
}

impl View for Game {
    type V = GameView;

    closed spec fn view(&self) -> GameView {
        GameView {
            dealer: self.dealer@,
            players: self.players@.map_values(|p: Player| p@),
            deck: self.deck@,
            rounds: self.rounds as int,
        }
    }
}

impl Game {
    /// A fresh game: the dealer with an empty hand, no participants yet, a
    /// full fresh deck, and round counter zero.
    pub fn new() -> (g: Game)
        ensures
            g@.dealer.name == "Dealer"@,
            g@.dealer.hand =~= Seq::<Card>::empty(),
            g@.dealer.score == 0,
            g@.players =~= Seq::<PlayerView>::empty(),
            deck_wf(g@.deck),
            forall|i: int| 0 <= i < 52 ==> !g@.deck.taken[i],
            drawable_count(g@.deck) == 52,
            g@.rounds == 0,
    {
        Game {
            dealer: Player::new("Dealer"),
            players: Vec::new(),
            deck: Deck::new(),
            rounds: 0,
        }
    }

    /// Replaces the deck with a fresh one: nothing consumed, 52 drawable.
    pub fn reset_deck(&mut self)
        ensures
            deck_wf(final(self)@.deck),
            forall|i: int| 0 <= i < 52 ==> !final(self)@.deck.taken[i],
            drawable_count(final(self)@.deck) == 52,
            final(self)@.dealer == old(self)@.dealer,
            final(self)@.players == old(self)@.players,
            final(self)@.rounds == old(self)@.rounds,
    {
        self.deck = Deck::new();
    }

    /// Appends a new participant with the given name, an empty hand, and
    /// score zero.
    pub fn add_player(&mut self, player_name: &str)
        ensures
            final(self)@.players =~= old(self)@.players.push(
                (PlayerView { name: player_name@, hand: Seq::<Card>::empty(), score: 0 }),
            ),
            final(self)@.dealer == old(self)@.dealer,
            final(self)@.deck == old(self)@.deck,
            final(self)@.rounds == old(self)@.rounds,
    {
        let p = Player::new(player_name);
        proof {
            assert(p@.hand =~= Seq::<Card>::empty());
        }
        self.players.push(p);
    }

    /// Runs the participants' turns in list order, consuming actions from the
    /// front of `actions`: Stand ends a turn, Hit draws one card and ends the
    /// turn involuntarily on bust, so a busted participant is asked nothing
    /// further this round. When the actions run out, the remaining
    /// participants stand. Returns how many actions were consumed, or the
    /// deck's failure if a draw found it exhausted.
    pub fn player_round(&mut self, actions: &Vec<Action>) -> (r: Result<usize, DeckExhausted>)
        requires
            deck_wf(old(self)@.deck),
            forall|i: int|
                0 <= i < old(self)@.players.len()
                    ==> raw_points(old(self)@.players[i].hand) + 11 * drawable_count(
                    old(self)@.deck,
                ) <= u32::MAX,
        ensures
            deck_wf(final(self)@.deck),
            final(self)@.deck.cards == old(self)@.deck.cards,
            forall|i: int|
                0 <= i < 52 && old(self)@.deck.taken[i] ==> final(self)@.deck.taken[i],
            final(self)@.dealer == old(self)@.dealer,
            final(self)@.rounds == old(self)@.rounds,
            final(self)@.players.len() == old(self)@.players.len(),
            forall|i: int|
                0 <= i < old(self)@.players.len()
                    ==> final(self)@.players[i].name == old(self)@.players[i].name
                    && final(self)@.players[i].score == old(self)@.players[i].score,
            forall|i: int|
                0 <= i < old(self)@.players.len()
                    ==> old(self)@.players[i].hand.is_prefix_of(final(self)@.players[i].hand),
            forall|i: int, j: int|
                0 <= i < old(self)@.players.len() && old(self)@.players[i].hand.len() < j
                    && j < final(self)@.players[i].hand.len()
                    ==> hand_points(final(self)@.players[i].hand.subrange(0, j)) <= 21,
            r matches Ok(used) ==> used <= actions@.len(),
            drawable_count(final(self)@.deck) == drawable_count(old(self)@.deck)
                - total_cards_added(
                old(self)@.players,
                final(self)@.players,
                old(self)@.players.len() as int,
            ),
            r matches Ok(used) ==> turns_partitioned(
                old(self)@.players,
                final(self)@.players,
                actions@,
                used as int,
            ),
            (r is Ok && (forall|k: int| 0 <= k < actions@.len() ==> actions@[k] is Stand))
                ==> (forall|i: int|
                0 <= i < old(self)@.players.len()
                    ==> final(self)@.players[i].hand == old(self)@.players[i].hand),
            r is Err ==> drawable_count(final(self)@.deck) == 0,
            drawable_count(old(self)@.deck) >= hit_count(actions@, 0, actions@.len() as int)
                ==> r is Ok,
    {
        let n = self.players.len();
        let mut idx: usize = 0;
        let mut pos: usize = 0;
        let ghost mut cuts: Seq<int> = seq![0int];
        proof {
            lemma_total_cards_added_same(old(self)@.players, self@.players, n as int);
        }
        while idx < n
            invariant
                idx <= n,
                n == self@.players.len(),
                n == old(self)@.players.len(),
                pos <= actions@.len(),
                deck_wf(self@.deck),
                self@.deck.cards == old(self)@.deck.cards,
                forall|i: int| 0 <= i < 52 && old(self)@.deck.taken[i] ==> self@.deck.taken[i],
                self@.dealer == old(self)@.dealer,
                self@.rounds == old(self)@.rounds,
                total_cards_added(old(self)@.players, self@.players, n as int) == hit_count(
                    actions@,
                    0,
                    pos as int,
                ),
                drawable_count(self@.deck) == drawable_count(old(self)@.deck) - hit_count(
                    actions@,
                    0,
                    pos as int,
                ),
                cuts.len() == idx + 1,
                cuts[0] == 0,
                cuts[idx as int] == pos as int,
                forall|i: int|
                    0 <= i < idx ==> #[trigger] turn_segment(
                        old(self)@.players[i],
                        self@.players[i],
                        actions@,
                        cuts[i],
                        cuts[i + 1],
                    ),
                forall|i: int|
                    0 <= i < n ==> self@.players[i].name == old(self)@.players[i].name
                        && self@.players[i].score == old(self)@.players[i].score,
                forall|i: int|
                    0 <= i < n ==> old(self)@.players[i].hand.is_prefix_of(self@.players[i].hand),
                forall|i: int, j: int|
                    0 <= i < n && old(self)@.players[i].hand.len() < j < self@.players[i].hand.len()
                        ==> hand_points(self@.players[i].hand.subrange(0, j)) <= 21,
                forall|i: int| idx <= i < n ==> self@.players[i] == old(self)@.players[i],
                forall|i: int|
                    0 <= i < n ==> raw_points(self@.players[i].hand) + 11 * drawable_count(
                        self@.deck,
                    ) <= u32::MAX,
                (forall|k: int| 0 <= k < actions@.len() ==> actions@[k] is Stand) ==> (forall|
                    i: int,
                |
                    0 <= i < idx ==> self@.players[i].hand == old(self)@.players[i].hand),
            decreases n - idx,
        {
            let ghost pre = self@;
            proof {
                assert(self@.players[idx as int] == self.players@[idx as int]@);
                assert(raw_points(self@.players[idx as int].hand) + 11 * drawable_count(self@.deck)
                    <= u32::MAX);
            }
            let r = player_turn(&mut self.deck, &mut self.players[idx], actions, pos);
            proof {
                assert(self@.players =~= pre.players.update(
                    idx as int,
                    self@.players[idx as int],
                ));
                assert forall|i: int|
                    0 <= i < n implies old(self)@.players[i].hand.is_prefix_of(
                    self@.players[i].hand,
                ) by {
                    if i != idx {
                        assert(self@.players[i] == pre.players[i]);
                    } else {
                        assert(pre.players[i].hand.is_prefix_of(self@.players[i].hand));
                        assert(self@.players[i].hand.subrange(
                            0,
                            old(self)@.players[i].hand.len() as int,
                        ) =~= old(self)@.players[i].hand);
                    }
                }
                assert forall|i: int, j: int|
                    0 <= i < n && old(self)@.players[i].hand.len() < j
                        < self@.players[i].hand.len() implies hand_points(
                    self@.players[i].hand.subrange(0, j),
                ) <= 21 by {
                    if i == idx {
                        if j < pre.players[i].hand.len() {
                            assert(self@.players[i].hand.subrange(0, j)
                                =~= pre.players[i].hand.subrange(0, j));
                        } else if j == pre.players[i].hand.len() {
                            assert(self@.players[i].hand.subrange(0, j) =~= pre.players[i].hand);
                        }
                    }
                }
                assert forall|i: int|
                    0 <= i < n implies raw_points(self@.players[i].hand) + 11 * drawable_count(
                    self@.deck,
                ) <= u32::MAX by {
                    if i != idx {
                        assert(self@.players[i] == pre.players[i]);
                    }
                }
                lemma_total_cards_added_update(
                    old(self)@.players,
                    pre.players,
                    self@.players,
                    n as int,
                    idx as int,
                );
            }
            match r {
                Ok(np) => {
                    proof {
                        lemma_hit_count_split(actions@, 0, pos as int, np as int);
                        cuts = cuts.push(np as int);
                        assert(turn_segment(
                            old(self)@.players[idx as int],
                            self@.players[idx as int],
                            actions@,
                            pos as int,
                            np as int,
                        ));
                        assert forall|i: int|
                            0 <= i < idx + 1 implies #[trigger] turn_segment(
                            old(self)@.players[i],
                            self@.players[i],
                            actions@,
                            cuts[i],
                            cuts[i + 1],
                        ) by {
                            if i < idx {
                                assert(self@.players[i] == pre.players[i]);
                                assert(turn_segment(
                                    old(self)@.players[i],
                                    pre.players[i],
                                    actions@,
                                    cuts[i],
                                    cuts[i + 1],
                                ));
                            }
                        }
                    }
                    pos = np;
                },
                Err(e) => {
                    proof {
                        lemma_hit_count_split(actions@, 0, pos as int, actions@.len() as int);
                    }
                    return Err(e);
                },
            }
            idx = idx + 1;
        }
        proof {
            assert(turns_partitioned(old(self)@.players, self@.players, actions@, pos as int)) by {
                assert(turn_partition(
                    old(self)@.players,
                    self@.players,
                    actions@,
                    pos as int,
                    cuts,
                ));
            }
        }
        Ok(pos)
    }

    /// Plays one round. First the deal: if the dealer's hand is empty it
    /// receives two cards, then each participant whose hand is empty receives
    /// two cards; hands already dealt are left alone, so repeating a round
    /// without clearing hands deals nothing further. Then the participants
    /// take their turns in list order, driven by `actions`: Stand ends a
    /// turn, Hit draws one card and ends the turn involuntarily on bust.
    /// Returns how many actions were consumed; fails with the deck's error,
    /// keeping the cards already dealt, when a draw finds the deck exhausted.
    /// The round ends after the last participant's turn: it runs no dealer
    /// turn and declares no winner itself. Resolution is the caller's choice,
    /// made by comparing points with `round_outcome`; the deck is likewise
    /// never reset here, only by an explicit `reset_deck`.
    pub fn round(&mut self, actions: &Vec<Action>) -> (r: Result<usize, DeckExhausted>)
        requires
            deck_wf(old(self)@.deck),
            raw_points(old(self)@.dealer.hand) + 11 * drawable_count(old(self)@.deck) <= u32::MAX,
            forall|i: int|
                0 <= i < old(self)@.players.len()
                    ==> raw_points(old(self)@.players[i].hand) + 11 * drawable_count(
                    old(self)@.deck,
                ) <= u32::MAX,
        ensures
            deck_wf(final(self)@.deck),
            final(self)@.deck.cards == old(self)@.deck.cards,
            forall|i: int|
                0 <= i < 52 && old(self)@.deck.taken[i] ==> final(self)@.deck.taken[i],
            final(self)@.rounds == old(self)@.rounds,
            final(self)@.dealer.name == old(self)@.dealer.name,
            final(self)@.dealer.score == old(self)@.dealer.score,
            final(self)@.players.len() == old(self)@.players.len(),
            forall|i: int|
                0 <= i < old(self)@.players.len()
                    ==> final(self)@.players[i].name == old(self)@.players[i].name
                    && final(self)@.players[i].score == old(self)@.players[i].score,
            old(self)@.dealer.hand.len() > 0 ==> final(self)@.dealer == old(self)@.dealer,
            (r is Ok && old(self)@.dealer.hand.len() == 0)
                ==> final(self)@.dealer.hand.len() == 2,
            forall|i: int|
                0 <= i < old(self)@.players.len()
                    ==> old(self)@.players[i].hand.is_prefix_of(final(self)@.players[i].hand),
            r is Ok ==> (forall|i: int|
                0 <= i < old(self)@.players.len() ==> final(self)@.players[i].hand.len()
                    >= dealt_len(old(self)@.players[i].hand.len() as int)),
            r is Ok ==> (forall|i: int, j: int|
                0 <= i < old(self)@.players.len()
                    && dealt_len(old(self)@.players[i].hand.len() as int) < j
                    && j < final(self)@.players[i].hand.len()
                    ==> hand_points(final(self)@.players[i].hand.subrange(0, j)) <= 21),
            (r is Ok && (forall|k: int| 0 <= k < actions@.len() ==> actions@[k] is Stand))
                ==> (forall|i: int|
                0 <= i < old(self)@.players.len() ==> final(self)@.players[i].hand.len()
                    == dealt_len(old(self)@.players[i].hand.len() as int) && (old(
                    self,
                )@.players[i].hand.len() > 0 ==> final(self)@.players[i].hand == old(
                    self,
                )@.players[i].hand)),
            r matches Ok(used) ==> used <= actions@.len(),
            drawable_count(final(self)@.deck) == drawable_count(old(self)@.deck)
                - (final(self)@.dealer.hand.len() - old(self)@.dealer.hand.len())
                - total_cards_added(
                old(self)@.players,
                final(self)@.players,
                old(self)@.players.len() as int,
            ),
            r matches Ok(used) ==> round_shape(
                old(self)@.players,
                final(self)@.players,
                actions@,
                used as int,
            ),
            r is Err ==> drawable_count(final(self)@.deck) == 0,
            drawable_count(old(self)@.deck) >= (if old(self)@.dealer.hand.len() == 0 {
                2int
            } else {
                0int
            }) + 2 * empty_hands(old(self)@.players, old(self)@.players.len() as int) + hit_count(
                actions@,
                0,
                actions@.len() as int,
            ) ==> r is Ok,
    {
        if self.dealer.get_hand().is_empty() {
            proof {
                assert(raw_points(self@.dealer.hand) == 0) by {
                    assert(self@.dealer.hand =~= Seq::<Card>::empty());
                }
            }
            match deal_two(&mut self.deck, &mut self.dealer) {
                Ok(_) => {},
                Err(e) => {
                    proof {
                        lemma_total_cards_added_same(
                            old(self)@.players,
                            self@.players,
                            old(self)@.players.len() as int,
                        );
                        lemma_empty_hands_mono(
                            old(self)@.players,
                            0,
                            old(self)@.players.len() as int,
                        );
                        lemma_hit_count_bounds(actions@, 0, actions@.len() as int);
                    }
                    return Err(e);
                },
            }
        }
        let n = self.players.len();
        let mut i: usize = 0;
        proof {
            lemma_total_cards_added_same(old(self)@.players, self@.players, n as int);
        }
        while i < n
            invariant
                i <= n,
                n == self@.players.len(),
                n == old(self)@.players.len(),
                deck_wf(self@.deck),
                self@.deck.cards == old(self)@.deck.cards,
                forall|t: int| 0 <= t < 52 && old(self)@.deck.taken[t] ==> self@.deck.taken[t],
                self@.rounds == old(self)@.rounds,
                self@.dealer.name == old(self)@.dealer.name,
                self@.dealer.score == old(self)@.dealer.score,
                old(self)@.dealer.hand.len() > 0 ==> self@.dealer == old(self)@.dealer,
                old(self)@.dealer.hand.len() == 0 ==> self@.dealer.hand.len() == 2,
                raw_points(self@.dealer.hand) + 11 * drawable_count(self@.deck) <= u32::MAX,
                forall|t: int|
                    0 <= t < n ==> self@.players[t].name == old(self)@.players[t].name
                        && self@.players[t].score == old(self)@.players[t].score,
                forall|t: int| i <= t < n ==> self@.players[t] == old(self)@.players[t],
                forall|t: int|
                    0 <= t < i ==> self@.players[t].hand.len() == dealt_len(
                        old(self)@.players[t].hand.len() as int,
                    ),
                forall|t: int|
                    0 <= t < i && old(self)@.players[t].hand.len() > 0 ==> self@.players[t].hand
                        == old(self)@.players[t].hand,
                forall|t: int|
                    0 <= t < n ==> old(self)@.players[t].hand.is_prefix_of(self@.players[t].hand),
                forall|t: int|
                    0 <= t < n ==> raw_points(self@.players[t].hand) + 11 * drawable_count(
                        self@.deck,
                    ) <= u32::MAX,
                drawable_count(self@.deck) <= drawable_count(old(self)@.deck),
                drawable_count(self@.deck) == drawable_count(old(self)@.deck) - (
                self@.dealer.hand.len() - old(self)@.dealer.hand.len()) - total_cards_added(
                    old(self)@.players,
                    self@.players,
                    n as int,
                ),
                total_cards_added(old(self)@.players, self@.players, n as int) == 2 * empty_hands(
                    old(self)@.players,
                    i as int,
                ),
            decreases n - i,
        {
            if self.players[i].get_hand().is_empty() {
                let ghost pre = self@;
                proof {
                    assert(self@.players[i as int] == self.players@[i as int]@);
                    assert(raw_points(self@.players[i as int].hand) == 0) by {
                        assert(self@.players[i as int].hand =~= Seq::<Card>::empty());
                    }
                }
                match deal_two(&mut self.deck, &mut self.players[i]) {
                    Ok(_) => {},
                    Err(e) => {
                        proof {
                            assert(self@.players =~= pre.players.update(
                                i as int,
                                self@.players[i as int],
                            ));
                            lemma_total_cards_added_update(
                                old(self)@.players,
                                pre.players,
                                self@.players,
                                n as int,
                                i as int,
                            );
                            lemma_empty_hands_at(old(self)@.players, i as int, n as int);
                            lemma_hit_count_bounds(actions@, 0, actions@.len() as int);
                        }
                        return Err(e);
                    },
                }
                proof {
                    assert(self@.players =~= pre.players.update(
                        i as int,
                        self@.players[i as int],
                    ));
                    lemma_total_cards_added_update(
                        old(self)@.players,
                        pre.players,
                        self@.players,
                        n as int,
                        i as int,
                    );
                    assert forall|t: int|
                        0 <= t < n implies old(self)@.players[t].hand.is_prefix_of(
                        self@.players[t].hand,
                    ) by {
                        if t == i {
                            assert(self@.players[t].hand.subrange(0, 0)
                                =~= old(self)@.players[t].hand);
                        } else {
                            assert(self@.players[t] == pre.players[t]);
                        }
                    }
                    assert forall|t: int|
                        0 <= t < n implies raw_points(self@.players[t].hand) + 11
                        * drawable_count(self@.deck) <= u32::MAX by {
                        if t != i {
                            assert(self@.players[t] == pre.players[t]);
                        }
                    }
                }
            }
            i = i + 1;
        }
        let ghost mid = self@;
        let r = self.player_round(actions);
        proof {
            assert forall|t: int|
                0 <= t < n implies old(self)@.players[t].hand.is_prefix_of(
                self@.players[t].hand,
            ) by {
                let a = old(self)@.players[t].hand;
                let b = mid.players[t].hand;
                let c = self@.players[t].hand;
                assert(a =~= b.subrange(0, a.len() as int));
                assert(b =~= c.subrange(0, b.len() as int));
                assert(a =~= c.subrange(0, a.len() as int));
            }
            lemma_total_cards_added_transitive(
                old(self)@.players,
                mid.players,
                self@.players,
                n as int,
            );
            if r is Ok {
                let used = r->Ok_0;
                assert(round_shape(old(self)@.players, self@.players, actions@, used as int)) by {
                    assert(dealt_players(old(self)@.players, mid.players));
                    assert(turns_partitioned(mid.players, self@.players, actions@, used as int));
                }
            }
        }
        r
    }

    /// The dealer.
    pub fn get_dealer(&self) -> (r: &Player)
        ensures
            r@ == self@.dealer,
    {
        &self.dealer
    }

    /// How many participants the game has.
    pub fn num_players(&self) -> (r: usize)
        ensures
            r == self@.players.len(),
    {
        self.players.len()
    }

    /// The participant at the given position.
    pub fn get_player(&self, i: usize) -> (r: &Player)
        requires
            i < self@.players.len(),
        ensures
            r@ == self@.players[i as int],
    {
        &self.players[i]
    }
}


/// A Hit against a non-exhausted deck draws exactly one card: with a single
/// participant and the single action Hit, any turn outcome the round
/// contract admits consumed that action and grew the hand by one card.
pub proof fn lemma_hit_draws_exactly_one(
    pre: Seq<PlayerView>,
    post: Seq<PlayerView>,
    actions: Seq<Action>,
    used: int,
)
    requires
        pre.len() == 1,
        actions.len() == 1,
        actions[0] is Hit,
        turns_partitioned(pre, post, actions, used),
    ensures
        used == 1,
        post[0].hand.len() == pre[0].hand.len() + 1,
{
    let cuts = choose|c: Seq<int>| turn_partition(pre, post, actions, used, c);
    assert(turn_partition(pre, post, actions, used, cuts));
    assert(turn_segment(pre[0], post[0], actions, cuts[0], cuts[0int + 1]));
    assert(hit_count(actions, 0, 1) == hit_count(actions, 0, 0) + 1);
}

/// A Stand ends the acting participant's turn at once, drawing nothing:
/// when the first action is a Stand, the first participant's segment is that
/// one action and their hand comes out unchanged.
pub proof fn lemma_stand_draws_nothing(
    pre: Seq<PlayerView>,
    post: Seq<PlayerView>,
    actions: Seq<Action>,
    used: int,
)
    requires
        pre.len() == 1,
        actions.len() >= 1,
        actions[0] is Stand,
        turns_partitioned(pre, post, actions, used),
    ensures
        post[0].hand == pre[0].hand,
{
    let cuts = choose|c: Seq<int>| turn_partition(pre, post, actions, used, c);
    assert(turn_partition(pre, post, actions, used, cuts));
    assert(turn_segment(pre[0], post[0], actions, cuts[0], cuts[0int + 1]));
    let b = cuts[1];
    if b > 1 {
        assert(actions[0] is Hit);
    }
    assert(b == 1);
    assert(hit_count(actions, 0, 1) == hit_count(actions, 0, 0));
    assert(post[0].hand =~= pre[0].hand);
}

} // verus!
