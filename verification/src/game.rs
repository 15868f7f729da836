//! The game engine: a deterministic state machine that owns all rules,
//! turn order, scoring and win detection, and reports each action as a
//! list of domain events.

use vstd::prelude::*;

use crate::deck::{lemma_full_deck, shuffle_values, Deck};
use crate::errors::ActionError;
use crate::player::{Player, PlayerView};
use crate::ranks::{
    all_valid, count_rank, groups_of, kept_cards, of_rank, valid_rank, without_rank,
};

verus! {

/// One observable outcome of applying a single action.
#[derive(Debug, Clone, Copy, PartialEq)]
pub enum TurnEvent {
    /// The game left the waiting phase.
    Started,
    /// A player entered the roster.
    Joined,
    /// The acting player completed a group of four of this rank.
    Group(u8),
    /// The acting player drew a card of this rank.
    Drawn(u8),
    /// This many cards moved from the asked player to the asker.
    Took(u8),
    /// A draw was attempted with nothing left in the deck.
    DeckEmpty,
}

/// An inbound action for the state machine.
#[derive(Debug, Clone)]
pub enum Action {
    Start,
    /// `Join(identity, display name)`.
    Join(String, String),
    /// `Ask(identity, target index, card)`.
    Ask(String, usize, u8),
    /// `Draw(identity, the card the player had asked for)`.
    Draw(String, u8),
}

/// The outcome of a finished round: the names of all players tied for the
/// highest score, and that score.
#[derive(Debug, Clone, PartialEq)]
pub struct GameResults {
    pub winners: Vec<String>,
    pub score: u8,
}

/// Which actions are currently legal; the embedded index is the position
/// in the roster whose turn it is.
#[derive(Debug, Clone, PartialEq)]
pub enum GameState {
    Waiting,
    Asking(usize),
    Drawing(usize),
    GameOver(GameResults),
}

/// One game: the deck, the current phase and the roster in turn order.
#[derive(Debug)]
pub struct Game {
    pub deck: Deck,
    pub state: GameState,
    pub players: Vec<Player>,
}

/// The mathematical image of [`GameResults`].
#[verifier::ext_equal]
pub struct ResultsView {
    pub winners: Seq<Seq<char>>,
    pub score: u8,
}

/// The mathematical image of [`GameState`].
#[verifier::ext_equal]
pub enum StateView {
    Waiting,
    Asking(int),
    Drawing(int),
    GameOver(ResultsView),
}

/// The mathematical image of a [`Game`]: the deck as a sequence (top last)
/// and the roster as a sequence of player images.
#[verifier::ext_equal]
pub struct GameView {
    pub deck: Seq<u8>,
    pub state: StateView,
    pub players: Seq<PlayerView>,
}

impl View for GameResults {
    type V = ResultsView;

    open spec fn view(&self) -> ResultsView {
        ResultsView { winners: self.winners.deep_view(), score: self.score }
    }
}

impl View for GameState {
    type V = StateView;

    open spec fn view(&self) -> StateView {
        match self {
            GameState::Waiting => StateView::Waiting,
            GameState::Asking(i) => StateView::Asking(*i as int),
            GameState::Drawing(i) => StateView::Drawing(*i as int),
            GameState::GameOver(res) => StateView::GameOver(res@),
        }
    }
}

impl View for Game {
    type V = GameView;

    open spec fn view(&self) -> GameView {
        GameView {
            deck: self.deck@,
            state: self.state@,
            players: self.players.deep_view(),
        }
    }
}

/// No two players share an identity.
pub open spec fn ids_unique(ps: Seq<PlayerView>) -> bool {
    forall|i: int, j: int| 0 <= i < j < ps.len() ==> ps[i].id != ps[j].id
}

/// How many copies of rank `r` the players hold between them.
pub open spec fn hands_count(ps: Seq<PlayerView>, r: u8) -> nat
    decreases ps.len(),
{
    if ps.len() == 0 {
        0
    } else {
        hands_count(ps.drop_last(), r) + count_rank(ps.last().cards, r)
    }
}

/// How many cards the players hold between them.
pub open spec fn sum_hands(ps: Seq<PlayerView>) -> nat
    decreases ps.len(),
{
    if ps.len() == 0 {
        0
    } else {
        sum_hands(ps.drop_last()) + ps.last().cards.len()
    }
}

/// The players' scores added up.
pub open spec fn sum_scores(ps: Seq<PlayerView>) -> nat
    decreases ps.len(),
{
    if ps.len() == 0 {
        0
    } else {
        sum_scores(ps.drop_last()) + ps.last().score as nat
    }
}

/// The position of the first player with this identity, or `-1` if the
/// identity is not in the roster.
pub open spec fn find_player(ps: Seq<PlayerView>, id: Seq<char>) -> int
    decreases ps.len(),
{
    if ps.len() == 0 {
        -1
    } else if ps[0].id == id {
        0
    } else {
        let rest = find_player(ps.drop_first(), id);
        if rest < 0 {
            -1
        } else {
            1 + rest
        }
    }
}

/// `find_player` names the first matching position, and `-1` means there
/// is none.
pub proof fn lemma_find_player(ps: Seq<PlayerView>, id: Seq<char>)
    ensures
        -1 <= find_player(ps, id) < ps.len(),
        find_player(ps, id) >= 0 ==> ps[find_player(ps, id)].id == id && forall|j: int|
            0 <= j < find_player(ps, id) ==> ps[j].id != id,
        find_player(ps, id) == -1 ==> forall|j: int| 0 <= j < ps.len() ==> ps[j].id != id,
    decreases ps.len(),
{
    if ps.len() > 0 && ps[0].id != id {
        lemma_find_player(ps.drop_first(), id);
        assert(forall|j: int| 1 <= j < ps.len() ==> #[trigger] ps[j] == ps.drop_first()[j - 1]);
    }
}

/// Replacing one player changes the shared counts by exactly the
/// difference between the old and the new hand (and score).
pub proof fn lemma_counts_update(ps: Seq<PlayerView>, i: int, p: PlayerView, r: u8)
    requires
        0 <= i < ps.len(),
    ensures
        hands_count(ps.update(i, p), r) + count_rank(ps[i].cards, r) == hands_count(ps, r)
            + count_rank(p.cards, r),
        sum_hands(ps.update(i, p)) + ps[i].cards.len() == sum_hands(ps) + p.cards.len(),
        sum_scores(ps.update(i, p)) + ps[i].score == sum_scores(ps) + p.score,
    decreases ps.len(),
{
    let ps2 = ps.update(i, p);
    if i == ps.len() - 1 {
        assert(ps2.drop_last() =~= ps.drop_last());
        assert(ps2.last() == p);
    } else {
        assert(ps2.drop_last() =~= ps.drop_last().update(i, p));
        assert(ps2.last() == ps.last());
        lemma_counts_update(ps.drop_last(), i, p, r);
    }
}

/// Appending one player adds that player's hand and score to the shared
/// counts.
pub proof fn lemma_counts_push(ps: Seq<PlayerView>, p: PlayerView, r: u8)
    ensures
        hands_count(ps.push(p), r) == hands_count(ps, r) + count_rank(p.cards, r),
        sum_hands(ps.push(p)) == sum_hands(ps) + p.cards.len(),
        sum_scores(ps.push(p)) == sum_scores(ps) + p.score,
{
    assert(ps.push(p).drop_last() =~= ps);
    assert(ps.push(p).last() == p);
}

/// No player's score exceeds the scores' sum.
pub proof fn lemma_score_le_sum(ps: Seq<PlayerView>, i: int)
    requires
        0 <= i < ps.len(),
    ensures
        ps[i].score <= sum_scores(ps),
    decreases ps.len(),
{
    if i < ps.len() - 1 {
        lemma_score_le_sum(ps.drop_last(), i);
    }
}

/// One hand holds no more of a rank than all hands together.
pub proof fn lemma_hand_le_hands(ps: Seq<PlayerView>, i: int, r: u8)
    requires
        0 <= i < ps.len(),
    ensures
        count_rank(ps[i].cards, r) <= hands_count(ps, r),
        ps[i].cards.len() <= sum_hands(ps),
    decreases ps.len(),
{
    if i < ps.len() - 1 {
        lemma_hand_le_hands(ps.drop_last(), i, r);
    }
}

/// Two different hands together hold no more of a rank than all hands.
pub proof fn lemma_two_hands_le(ps: Seq<PlayerView>, i: int, j: int, r: u8)
    requires
        0 <= i < j < ps.len(),
    ensures
        count_rank(ps[i].cards, r) + count_rank(ps[j].cards, r) <= hands_count(ps, r),
    decreases ps.len(),
{
    if j == ps.len() - 1 {
        lemma_hand_le_hands(ps.drop_last(), i, r);
    } else {
        lemma_two_hands_le(ps.drop_last(), i, j, r);
    }
}

/// The highest score in the roster (zero for an empty roster).
pub open spec fn max_score(ps: Seq<PlayerView>) -> u8
    decreases ps.len(),
{
    if ps.len() == 0 {
        0
    } else {
        let m = max_score(ps.drop_last());
        if ps.last().score >= m {
            ps.last().score
        } else {
            m
        }
    }
}

/// Law: the recorded winning score dominates every score in the roster
/// and is attained by at least one player, so the winners — the players
/// tied for it — are never an empty set.
pub proof fn lemma_max_score(ps: Seq<PlayerView>)
    requires
        ps.len() > 0,
    ensures
        forall|j: int| 0 <= j < ps.len() ==> (#[trigger] ps[j]).score <= max_score(ps),
        exists|j: int| 0 <= j < ps.len() && (#[trigger] ps[j]).score == max_score(ps),
    decreases ps.len(),
{
    assert(forall|j: int| 0 <= j < ps.len() - 1 ==> #[trigger] ps[j] == ps.drop_last()[j]);
    if ps.len() > 1 {
        lemma_max_score(ps.drop_last());
        if ps.last().score >= max_score(ps.drop_last()) {
            assert(ps[ps.len() - 1].score == max_score(ps));
        } else {
            let j = choose|j: int|
                0 <= j < ps.len() - 1 && (#[trigger] ps.drop_last()[j]).score == max_score(
                    ps.drop_last(),
                );
            assert(ps[j].score == max_score(ps));
        }
    } else {
        assert(ps.drop_last() =~= Seq::<PlayerView>::empty());
        assert(max_score(Seq::<PlayerView>::empty()) == 0);
        assert(ps[0] == ps.last());
        assert(ps[0].score == max_score(ps));
    }
}

/// The names of all players whose score is `m`, in roster order.
pub open spec fn names_with_score(ps: Seq<PlayerView>, m: u8) -> Seq<Seq<char>>
    decreases ps.len(),
{
    if ps.len() == 0 {
        Seq::empty()
    } else if ps.last().score == m {
        names_with_score(ps.drop_last(), m).push(ps.last().name)
    } else {
        names_with_score(ps.drop_last(), m)
    }
}

/// The names of all players tied for the highest score, in roster order.
pub open spec fn winner_names(ps: Seq<PlayerView>) -> Seq<Seq<char>> {
    names_with_score(ps, max_score(ps))
}

/// The game the instant a round ends: the winners and their score are
/// recorded, the roster is cleared and the deck is reinitialised, so the
/// same value can host a fresh round.
pub open spec fn game_over_view(ps: Seq<PlayerView>) -> GameView {
    GameView {
        deck: Deck::full_deck(),
        state: StateView::GameOver(
            ResultsView { winners: winner_names(ps), score: max_score(ps) },
        ),
        players: Seq::empty(),
    }
}

/// The asked player after every copy of `card` left the hand.
pub open spec fn target_after(p: PlayerView, card: u8) -> PlayerView {
    PlayerView {
        id: p.id,
        name: p.name,
        cards: without_rank(p.cards, card),
        score: p.score,
    }
}

/// The asker's hand the moment the taken cards arrive, before grouping:
/// own hand (already stripped of `card` when asking oneself) plus the
/// taken copies.
pub open spec fn ask_mid_hand(ps: Seq<PlayerView>, i: int, to: int, card: u8) -> Seq<u8> {
    ps.update(to, target_after(ps[to], card))[i].cards + of_rank(ps[to].cards, card)
}

/// A player after grouping a freshly extended hand `mid`.
pub open spec fn grouped_after(p: PlayerView, mid: Seq<u8>) -> PlayerView {
    PlayerView {
        id: p.id,
        name: p.name,
        cards: kept_cards(mid),
        score: (p.score + groups_of(mid).len()) as u8,
    }
}

/// The roster after a successful ask that took at least one card: the
/// target loses every copy of `card`, the asker absorbs them and scores
/// any completed groups.
pub open spec fn ask_players(ps: Seq<PlayerView>, i: int, to: int, card: u8) -> Seq<PlayerView> {
    let ps1 = ps.update(to, target_after(ps[to], card));
    let mid = ask_mid_hand(ps, i, to, card);
    ps1.update(i, grouped_after(ps1[i], mid))
}

/// A question is valid iff the target index is in range, the card is a
/// playable rank, and the asker holds at least one copy of it.
pub open spec fn valid_question(ps: Seq<PlayerView>, i: int, to: int, card: u8) -> bool {
    &&& 0 <= to < ps.len()
    &&& valid_rank(card)
    &&& count_rank(ps[i].cards, card) > 0
}

/// One `Group` event per scored rank, in the order they were scored.
pub open spec fn group_events(gs: Seq<u8>) -> Seq<TurnEvent>
    decreases gs.len(),
{
    if gs.len() == 0 {
        Seq::empty()
    } else {
        group_events(gs.drop_last()).push(TurnEvent::Group(gs.last()))
    }
}

/// What a legal ask does, exactly. Taking nothing is the normal "go fish"
/// outcome: the turn moves to drawing (unless the target's empty hand ends
/// the round on the spot). Taking `k >= 1` cards keeps the turn, groups
/// are scored at once, and if either involved hand is now empty the round
/// is over.
pub open spec fn ask_outcome(
    gv: GameView,
    gv2: GameView,
    es: Seq<TurnEvent>,
    i: int,
    to: int,
    card: u8,
) -> bool {
    let k = count_rank(gv.players[to].cards, card);
    if k == 0 {
        &&& es == seq![TurnEvent::Took(0u8)]
        &&& if gv.players[to].cards.len() == 0 {
            gv2 == game_over_view(gv.players)
        } else {
            gv2 == GameView { state: StateView::Drawing(i), ..gv }
        }
    } else {
        let mid = ask_mid_hand(gv.players, i, to, card);
        let ps2 = ask_players(gv.players, i, to, card);
        &&& es == seq![TurnEvent::Took(k as u8)] + group_events(groups_of(mid))
        &&& if ps2[i].cards.len() == 0 || ps2[to].cards.len() == 0 {
            gv2 == game_over_view(ps2)
        } else {
            gv2 == GameView { players: ps2, ..gv }
        }
    }
}

/// What an Ask attempt does, exactly, for every input: which refusal comes
/// back on which input (leaving the game untouched), and what a legal ask
/// changes.
pub open spec fn ask_result(
    gv: GameView,
    id: Seq<char>,
    to: int,
    card: u8,
    gv2: GameView,
    r: Result<Vec<TurnEvent>, ActionError>,
) -> bool {
    let idx = find_player(gv.players, id);
    match r {
        Err(ActionError::InvalidPlayerId(s)) => s@ == id && idx < 0 && gv2 == gv,
        Err(ActionError::CannotAsk(s)) => {
            &&& s@ == id
            &&& idx >= 0
            &&& gv.state != StateView::Asking(idx)
            &&& gv2 == gv
        },
        Err(ActionError::InvalidQuestion(t, c)) => {
            &&& t == to
            &&& c == card
            &&& idx >= 0
            &&& gv.state == StateView::Asking(idx)
            &&& !valid_question(gv.players, idx, to, card)
            &&& gv2 == gv
        },
        Ok(events) => {
            &&& idx >= 0
            &&& gv.state == StateView::Asking(idx)
            &&& valid_question(gv.players, idx, to, card)
            &&& ask_outcome(gv, gv2, events@, idx, to, card)
        },
        _ => false,
    }
}

/// After a successful take of at least one card, the updated roster keeps
/// every invariant clause: valid hands, unchanged identities, the per-rank
/// bound, and the conservation of cards against scores.
proof fn lemma_ask_players_wf(gv: GameView, i: int, to: int, card: u8)
    requires
        gv.wf(),
        0 <= i < gv.players.len(),
        0 <= to < gv.players.len(),
        valid_rank(card),
        count_rank(gv.players[i].cards, card) > 0,
    ensures
        ({
            let ps2 = ask_players(gv.players, i, to, card);
            &&& ps2.len() == gv.players.len()
            &&& forall|j: int| 0 <= j < ps2.len() ==> all_valid(#[trigger] ps2[j].cards)
            &&& forall|j: int| 0 <= j < ps2.len() ==> (#[trigger] ps2[j]).id == gv.players[j].id
            &&& ids_unique(ps2)
            &&& forall|j: int, r: u8|
                0 <= j < ps2.len() ==> #[trigger] count_rank(ps2[j].cards, r) < 4
            &&& forall|r: u8|
                valid_rank(r) ==> count_rank(gv.deck, r) + #[trigger] hands_count(ps2, r) <= 4
            &&& sum_hands(ps2) + gv.deck.len() + 4 * sum_scores(ps2) == 48
        }),
{
    let ps = gv.players;
    let k = count_rank(ps[to].cards, card);
    let ps1 = ps.update(to, target_after(ps[to], card));
    let mid = ask_mid_hand(ps, i, to, card);
    let ps2 = ask_players(ps, i, to, card);
    crate::ranks::lemma_split_valid(ps[to].cards, card);
    crate::ranks::lemma_concat_valid(ps1[i].cards, of_rank(ps[to].cards, card));
    assert(all_valid(mid));
    assert forall|r: u8| count_rank(mid, r) <= 4 by {
        crate::ranks::lemma_count_concat(ps1[i].cards, of_rank(ps[to].cards, card), r);
        crate::ranks::lemma_split_counts(ps[to].cards, card, r);
        crate::ranks::lemma_count_occurs(ps1[i].cards, r);
        if valid_rank(r) {
            if i == to {
                lemma_hand_le_hands(ps, to, r);
            } else if i < to {
                lemma_two_hands_le(ps, i, to, r);
            } else {
                lemma_two_hands_le(ps, to, i, r);
            }
        } else {
            assert(count_rank(ps1[i].cards, r) == 0);
        }
    }
    crate::ranks::lemma_kept_len(mid);
    lemma_score_le_sum(ps, i);
    crate::ranks::lemma_groups_upto_len(mid, 12);
    let g = groups_of(mid).len();
    // Validity and identities of the new roster.
    assert forall|j: int| 0 <= j < ps2.len() implies all_valid(#[trigger] ps2[j].cards) by {
        if j == i {
            crate::ranks::lemma_kept_counts(mid, mid, card);
        } else if j == to {
            assert(ps2[j].cards == without_rank(ps[to].cards, card));
        } else {
            assert(ps2[j].cards == ps[j].cards);
        }
    }
    assert(forall|j: int| 0 <= j < ps2.len() ==> (#[trigger] ps2[j]).id == ps[j].id);
    assert(ids_unique(ps2)) by {
        assert(forall|a: int, b: int|
            0 <= a < b < ps2.len() ==> ps2[a].id == ps[a].id && ps2[b].id == ps[b].id);
    }
    // No hand reaches four copies of a rank.
    assert forall|j: int, r: u8|
        0 <= j < ps2.len() implies #[trigger] count_rank(ps2[j].cards, r) < 4 by {
        if j == i {
            crate::ranks::lemma_kept_below_four(mid, r);
        } else if j == to {
            crate::ranks::lemma_split_counts(ps[to].cards, card, r);
            assert(count_rank(ps[to].cards, r) < 4);
        } else {
            assert(ps2[j].cards == ps[j].cards);
            assert(count_rank(ps[j].cards, r) < 4);
        }
    }
    // Per-rank bound.
    assert forall|r: u8|
        valid_rank(r) implies count_rank(gv.deck, r) + #[trigger] hands_count(ps2, r) <= 4 by {
        lemma_counts_update(ps, to, target_after(ps[to], card), r);
        crate::ranks::lemma_split_counts(ps[to].cards, card, r);
        lemma_counts_update(ps1, i, grouped_after(ps1[i], mid), r);
        crate::ranks::lemma_count_concat(ps1[i].cards, of_rank(ps[to].cards, card), r);
        crate::ranks::lemma_kept_counts(mid, mid, r);
    }
    // Conservation of cards against scores.
    assert(sum_hands(ps2) + gv.deck.len() + 4 * sum_scores(ps2) == 48) by {
        lemma_counts_update(ps, to, target_after(ps[to], card), card);
        crate::ranks::lemma_split_counts(ps[to].cards, card, card);
        lemma_counts_update(ps1, i, grouped_after(ps1[i], mid), card);
        assert(mid.len() == ps1[i].cards.len() + k);
        assert(grouped_after(ps1[i], mid).cards.len() + 4 * g == mid.len());
        assert(grouped_after(ps1[i], mid).score == ps1[i].score + g);
    }
}

/// What a legal draw does, exactly. An exhausted deck silently passes the
/// turn. Otherwise the top card joins the hand and groups are scored at
/// once; a hand emptied by that grouping ends the round on the spot,
/// whichever card came up — a hand reaching zero during any Ask or Draw
/// ends the game. Otherwise drawing the very card that was asked for
/// keeps the turn, and anything else passes it.
pub open spec fn draw_outcome(
    gv: GameView,
    gv2: GameView,
    es: Seq<TurnEvent>,
    i: int,
    chosen: u8,
) -> bool {
    let n = gv.players.len() as int;
    if gv.deck.len() == 0 {
        &&& es == seq![TurnEvent::DeckEmpty]
        &&& gv2 == GameView { state: StateView::Asking((i + 1) % n), ..gv }
    } else {
        let c = gv.deck.last();
        let mid = gv.players[i].cards.push(c);
        let ps2 = gv.players.update(i, grouped_after(gv.players[i], mid));
        let deck2 = gv.deck.drop_last();
        &&& es == seq![TurnEvent::Drawn(c)] + group_events(groups_of(mid))
        &&& if ps2[i].cards.len() == 0 {
            gv2 == game_over_view(ps2)
        } else if c != chosen {
            gv2 == GameView {
                deck: deck2,
                state: StateView::Asking((i + 1) % n),
                players: ps2,
            }
        } else {
            gv2 == GameView { deck: deck2, state: StateView::Asking(i), players: ps2 }
        }
    }
}

/// What a Draw attempt does, exactly, for every input: which refusal comes
/// back on which input (leaving the game untouched), and what a legal draw
/// changes.
pub open spec fn draw_result(
    gv: GameView,
    id: Seq<char>,
    chosen: u8,
    gv2: GameView,
    r: Result<Vec<TurnEvent>, ActionError>,
) -> bool {
    let idx = find_player(gv.players, id);
    match r {
        Err(ActionError::InvalidPlayerId(s)) => s@ == id && idx < 0 && gv2 == gv,
        Err(ActionError::CannotDraw(s)) => {
            &&& s@ == id
            &&& idx >= 0
            &&& gv.state != StateView::Drawing(idx)
            &&& gv2 == gv
        },
        Ok(events) => {
            &&& idx >= 0
            &&& gv.state == StateView::Drawing(idx)
            &&& draw_outcome(gv, gv2, events@, idx, chosen)
        },
        _ => false,
    }
}

/// After a draw from a nonempty deck, the updated roster and shortened
/// deck keep every invariant clause.
proof fn lemma_draw_players_wf(gv: GameView, i: int)
    requires
        gv.wf(),
        0 <= i < gv.players.len(),
        gv.deck.len() > 0,
    ensures
        ({
            let c = gv.deck.last();
            let mid = gv.players[i].cards.push(c);
            let ps2 = gv.players.update(i, grouped_after(gv.players[i], mid));
            let deck2 = gv.deck.drop_last();
            &&& ps2.len() == gv.players.len()
            &&& all_valid(deck2)
            &&& all_valid(mid)
            &&& forall|j: int| 0 <= j < ps2.len() ==> all_valid(#[trigger] ps2[j].cards)
            &&& forall|j: int| 0 <= j < ps2.len() ==> (#[trigger] ps2[j]).id == gv.players[j].id
            &&& ids_unique(ps2)
            &&& forall|j: int, r: u8|
                0 <= j < ps2.len() ==> #[trigger] count_rank(ps2[j].cards, r) < 4
            &&& forall|r: u8|
                valid_rank(r) ==> count_rank(deck2, r) + #[trigger] hands_count(ps2, r) <= 4
            &&& sum_hands(ps2) + deck2.len() + 4 * sum_scores(ps2) == 48
        }),
{
    let ps = gv.players;
    let c = gv.deck.last();
    let mid = ps[i].cards.push(c);
    let ps2 = ps.update(i, grouped_after(ps[i], mid));
    let deck2 = gv.deck.drop_last();
    assert(valid_rank(c)) by {
        assert(gv.deck[gv.deck.len() - 1] == c);
    }
    assert(all_valid(deck2)) by {
        assert(forall|j: int| 0 <= j < deck2.len() ==> #[trigger] deck2[j] == gv.deck[j]);
    }
    assert(all_valid(mid)) by {
        assert(forall|j: int| 0 <= j < mid.len() - 1 ==> #[trigger] mid[j] == ps[i].cards[j]);
        assert(mid[mid.len() - 1] == c);
    }
    assert forall|r: u8| count_rank(mid, r) <= 4 by {
        crate::ranks::lemma_count_push(ps[i].cards, c, r);
        crate::ranks::lemma_count_occurs(ps[i].cards, r);
        if valid_rank(r) {
            lemma_hand_le_hands(ps, i, r);
        }
    }
    crate::ranks::lemma_kept_len(mid);
    lemma_score_le_sum(ps, i);
    crate::ranks::lemma_groups_upto_len(mid, 12);
    assert forall|j: int| 0 <= j < ps2.len() implies all_valid(#[trigger] ps2[j].cards) by {
        if j == i {
            crate::ranks::lemma_kept_counts(mid, mid, c);
        } else {
            assert(ps2[j].cards == ps[j].cards);
        }
    }
    assert(forall|j: int| 0 <= j < ps2.len() ==> (#[trigger] ps2[j]).id == ps[j].id);
    assert(ids_unique(ps2)) by {
        assert(forall|a: int, b: int|
            0 <= a < b < ps2.len() ==> ps2[a].id == ps[a].id && ps2[b].id == ps[b].id);
    }
    // No hand reaches four copies of a rank.
    assert forall|j: int, r: u8|
        0 <= j < ps2.len() implies #[trigger] count_rank(ps2[j].cards, r) < 4 by {
        if j == i {
            crate::ranks::lemma_kept_below_four(mid, r);
        } else {
            assert(ps2[j].cards == ps[j].cards);
            assert(count_rank(ps[j].cards, r) < 4);
        }
    }
    assert forall|r: u8|
        valid_rank(r) implies count_rank(deck2, r) + #[trigger] hands_count(ps2, r) <= 4 by {
        lemma_counts_update(ps, i, grouped_after(ps[i], mid), r);
        crate::ranks::lemma_count_push(ps[i].cards, c, r);
        crate::ranks::lemma_kept_counts(mid, mid, r);
    }
    assert(sum_hands(ps2) + deck2.len() + 4 * sum_scores(ps2) == 48) by {
        lemma_counts_update(ps, i, grouped_after(ps[i], mid), c);
        assert(mid.len() == ps[i].cards.len() + 1);
        assert(grouped_after(ps[i], mid).cards.len() + 4 * groups_of(mid).len() == mid.len());
        assert(grouped_after(ps[i], mid).score == ps[i].score + groups_of(mid).len());
    }
}

/// Law: before the game starts, the roster holds every joined identity
/// exactly once, each with an empty hand and a zero score. (Join itself
/// appends one such player and refuses duplicates: see `join_outcome`.)
pub proof fn lemma_waiting_roster(gv: GameView)
    requires
        gv.wf(),
        gv.state is Waiting,
    ensures
        forall|i: int, j: int| 0 <= i < j < gv.players.len() ==> gv.players[i].id != gv.players[j].id,
        forall|i: int| 0 <= i < gv.players.len() ==> (#[trigger] gv.players[i]).cards.len() == 0,
        forall|i: int| 0 <= i < gv.players.len() ==> (#[trigger] gv.players[i]).score == 0,
{
}

/// Law: cards are conserved. At every reachable point the cards in the
/// hands, the cards in the deck and four cards for every scored point add
/// up to the full 48. In particular, while nothing has been scored the
/// hands and the deck alone add up to 48; once a group has been scored,
/// its four cards have left play, so the bare sum falls short by four per
/// point.
pub proof fn lemma_card_conservation(gv: GameView)
    requires
        gv.wf(),
    ensures
        sum_hands(gv.players) + gv.deck.len() + 4 * sum_scores(gv.players) == 48,
        sum_scores(gv.players) == 0 ==> sum_hands(gv.players) + gv.deck.len() == 48,
{
}

/// Law: no hand ever holds four or more copies of a rank between
/// actions. A quadruplet is removed and scored in the same step that
/// created it — at the opening deal as much as after an ask or a draw.
pub proof fn lemma_no_quadruplets(gv: GameView)
    requires
        gv.wf(),
    ensures
        forall|i: int, r: u8|
            0 <= i < gv.players.len() ==> #[trigger] count_rank(gv.players[i].cards, r) < 4,
{
}

/// Law: the go-fish round trip. A legal ask that removes no cards moves
/// the game to `Drawing` at the same index (provided the target still
/// holds cards — asking an empty-handed player ends the round instead),
/// and a legal ask that removes at least one card keeps `Asking` at the
/// same index (provided neither involved hand was emptied, which would
/// end the round instead).
pub proof fn lemma_ask_round_trip(
    gv: GameView,
    gv2: GameView,
    es: Seq<TurnEvent>,
    i: int,
    to: int,
    card: u8,
)
    requires
        0 <= to < gv.players.len(),
        gv.state == StateView::Asking(i),
        ask_outcome(gv, gv2, es, i, to, card),
    ensures
        count_rank(gv.players[to].cards, card) == 0 && gv.players[to].cards.len() > 0
            ==> gv2.state == StateView::Drawing(i),
        ({
            let ps2 = ask_players(gv.players, i, to, card);
            count_rank(gv.players[to].cards, card) > 0 && ps2[i].cards.len() > 0
                && ps2[to].cards.len() > 0 ==> gv2.state == StateView::Asking(i)
        }),
{
}

/// Law: the draw's turn rule. Drawing a card other than the one asked
/// for passes the turn to the next position, and drawing the asked-for
/// card keeps it — in either case provided the draw's own grouping did
/// not empty the hand, which ends the round instead (a hand reaching
/// zero during any ask or draw ends the game).
pub proof fn lemma_draw_turn(
    gv: GameView,
    gv2: GameView,
    es: Seq<TurnEvent>,
    i: int,
    chosen: u8,
)
    requires
        0 <= i < gv.players.len(),
        gv.state == StateView::Drawing(i),
        gv.deck.len() > 0,
        draw_outcome(gv, gv2, es, i, chosen),
    ensures
        ({
            let c = gv.deck.last();
            let mid = gv.players[i].cards.push(c);
            let ps2 = gv.players.update(i, grouped_after(gv.players[i], mid));
            &&& c != chosen && ps2[i].cards.len() > 0 ==> gv2.state == StateView::Asking(
                (i + 1) % (gv.players.len() as int),
            )
            &&& c == chosen && ps2[i].cards.len() > 0 ==> gv2.state == StateView::Asking(i)
            &&& ps2[i].cards.len() == 0 ==> gv2.state is GameOver
        }),
{
}

/// A permutation of the positions `0..n`.
pub open spec fn is_perm(perm: Seq<int>, n: int) -> bool {
    &&& perm.len() == n
    &&& forall|j: int| 0 <= j < n ==> 0 <= #[trigger] perm[j] < n
    &&& perm.no_duplicates()
}

/// The roster reordered by a permutation of its positions.
pub open spec fn reorder(ps: Seq<PlayerView>, perm: Seq<int>) -> Seq<PlayerView> {
    Seq::new(perm.len(), |j: int| ps[perm[j]])
}

/// Dealing the opening hands: each player in roster order draws seven
/// cards from the top of the deck, or whatever remains, and a quadruplet
/// that arrives already complete is removed and scored in that same step
/// — no hand ever holds four copies of a rank after an action completes.
/// The deal reports no events of its own: Start announces only that the
/// game began.
pub open spec fn deal(ps: Seq<PlayerView>, d: Seq<u8>) -> (Seq<PlayerView>, Seq<u8>)
    decreases ps.len(),
{
    if ps.len() == 0 {
        (ps, d)
    } else {
        let k = if 7 <= d.len() {
            7int
        } else {
            d.len() as int
        };
        let mid = ps[0].cards + d.skip(d.len() - k).reverse();
        let rest = deal(ps.drop_first(), d.take(d.len() - k));
        (seq![grouped_after(ps[0], mid)] + rest.0, rest.1)
    }
}

/// One way a Start can have gone: some reordering of the roster and some
/// reordering of the deck, followed by the deterministic deal.
pub open spec fn start_witness(
    gv: GameView,
    gv2: GameView,
    perm: Seq<int>,
    d1: Seq<u8>,
) -> bool {
    &&& is_perm(perm, gv.players.len() as int)
    &&& d1.len() == gv.deck.len()
    &&& d1.to_multiset() == gv.deck.to_multiset()
    &&& ({
        let dealt = deal(reorder(gv.players, perm), d1);
        gv2 == GameView { deck: dealt.1, state: StateView::Asking(0), players: dealt.0 }
    })
}

/// What a Start attempt does, exactly: it is refused once the game has
/// started, and refused while nobody has joined — a running game's turn
/// index must always name a real player. Otherwise the deck and the
/// roster are reordered at random, every player is dealt seven cards — a
/// quadruplet dealt complete is removed and scored in that same step,
/// silently: Start announces only `Started` — and the first position is
/// asking.
pub open spec fn start_outcome(
    gv: GameView,
    gv2: GameView,
    r: Result<Vec<TurnEvent>, ActionError>,
) -> bool {
    match r {
        Ok(events) => {
            &&& gv.state is Waiting
            &&& gv.players.len() > 0
            &&& events@ == seq![TurnEvent::Started]
            &&& exists|perm: Seq<int>, d1: Seq<u8>| start_witness(gv, gv2, perm, d1)
        },
        Err(ActionError::GameAlreadyStarted) => !(gv.state is Waiting) && gv2 == gv,
        Err(ActionError::CannotStart) => {
            &&& gv.state is Waiting
            &&& gv.players.len() == 0
            &&& gv2 == gv
        },
        _ => false,
    }
}

/// Prepending one player adds that player's hand and score to the shared
/// counts.
proof fn lemma_counts_cons(p: PlayerView, s: Seq<PlayerView>, r: u8)
    ensures
        hands_count(seq![p] + s, r) == count_rank(p.cards, r) + hands_count(s, r),
        sum_hands(seq![p] + s) == p.cards.len() + sum_hands(s),
        sum_scores(seq![p] + s) == p.score + sum_scores(s),
    decreases s.len(),
{
    if s.len() == 0 {
        assert(seq![p] + s =~= seq![p]);
        assert((seq![p]).drop_last() =~= Seq::<PlayerView>::empty());
        assert((seq![p]).last() == p);
        assert(hands_count(Seq::<PlayerView>::empty(), r) == 0);
        assert(sum_hands(Seq::<PlayerView>::empty()) == 0);
        assert(sum_scores(Seq::<PlayerView>::empty()) == 0);
    } else {
        assert((seq![p] + s).drop_last() =~= seq![p] + s.drop_last());
        assert((seq![p] + s).last() == s.last());
        lemma_counts_cons(p, s.drop_last(), r);
    }
}

/// A roster of empty hands and zero scores holds nothing and has scored
/// nothing.
proof fn lemma_blank_roster(ps: Seq<PlayerView>, r: u8)
    requires
        forall|j: int| 0 <= j < ps.len() ==> (#[trigger] ps[j]).cards.len() == 0,
        forall|j: int| 0 <= j < ps.len() ==> (#[trigger] ps[j]).score == 0,
    ensures
        hands_count(ps, r) == 0,
        sum_hands(ps) == 0,
        sum_scores(ps) == 0,
    decreases ps.len(),
{
    if ps.len() > 0 {
        lemma_blank_roster(ps.drop_last(), r);
        assert(ps[ps.len() - 1].cards.len() == 0);
    }
}

/// Dealing moves cards from the deck into the hands, grouping on the
/// way: identities and names survive, no dealt hand reaches four copies
/// of a rank, per-rank totals can only shrink (a scored group retires its
/// four cards), and cards plus four per scored point are conserved.
proof fn lemma_deal_conserves(ps: Seq<PlayerView>, d: Seq<u8>)
    requires
        all_valid(d),
        forall|j: int| 0 <= j < ps.len() ==> all_valid((#[trigger] ps[j]).cards),
        forall|j: int| 0 <= j < ps.len() ==> (#[trigger] ps[j]).score <= 243,
        forall|r: u8| #[trigger] hands_count(ps, r) + count_rank(d, r) <= 4,
    ensures
        ({
            let out = deal(ps, d);
            &&& out.0.len() == ps.len()
            &&& out.1.len() <= d.len()
            &&& all_valid(out.1)
            &&& forall|j: int| 0 <= j < ps.len() ==> all_valid((#[trigger] out.0[j]).cards)
            &&& forall|j: int|
                0 <= j < ps.len() ==> (#[trigger] out.0[j]).id == ps[j].id && out.0[j].name
                    == ps[j].name
            &&& forall|j: int, r: u8|
                0 <= j < ps.len() ==> #[trigger] count_rank(out.0[j].cards, r) < 4
            &&& forall|r: u8|
                #[trigger] hands_count(out.0, r) + count_rank(out.1, r) <= hands_count(ps, r)
                    + count_rank(d, r)
            &&& sum_hands(out.0) + out.1.len() + 4 * sum_scores(out.0) == sum_hands(ps) + d.len()
                + 4 * sum_scores(ps)
        }),
    decreases ps.len(),
{
    let out = deal(ps, d);
    if ps.len() == 0 {
        assert forall|r: u8| #[trigger] hands_count(out.0, r) + count_rank(out.1, r)
            <= hands_count(ps, r) + count_rank(d, r) by {}
    } else {
        let len = d.len() as int;
        let k = if 7 <= d.len() {
            7int
        } else {
            len
        };
        let front = d.take(len - k);
        let tail = d.skip(len - k);
        let drawn = tail.reverse();
        let mid = ps[0].cards + drawn;
        let p = grouped_after(ps[0], mid);
        let rest = deal(ps.drop_first(), front);
        assert(d =~= front + tail);
        assert(all_valid(front)) by {
            assert(forall|j: int| 0 <= j < front.len() ==> #[trigger] front[j] == d[j]);
        }
        assert(all_valid(tail)) by {
            assert(forall|j: int|
                0 <= j < tail.len() ==> #[trigger] tail[j] == d[j + (len - k)]);
        }
        assert(all_valid(drawn)) by {
            assert(forall|j: int|
                0 <= j < drawn.len() ==> #[trigger] drawn[j] == tail[tail.len() - 1 - j]);
        }
        assert(all_valid(mid)) by {
            crate::ranks::lemma_concat_valid(ps[0].cards, drawn);
        }
        // The freshly extended hand stays within four copies per rank.
        assert forall|r: u8| count_rank(mid, r) <= 4 by {
            crate::ranks::lemma_count_concat(ps[0].cards, drawn, r);
            crate::ranks::lemma_count_concat(front, tail, r);
            crate::ranks::lemma_count_reverse(tail, r);
            lemma_counts_cons(ps[0], ps.drop_first(), r);
            assert(ps =~= seq![ps[0]] + ps.drop_first());
        }
        crate::ranks::lemma_kept_len(mid);
        crate::ranks::lemma_groups_upto_len(mid, 12);
        let g = groups_of(mid).len();
        assert(p.cards.len() + 4 * g == mid.len());
        assert(p.score == ps[0].score + g);
        assert(all_valid(p.cards)) by {
            crate::ranks::lemma_kept_counts(mid, mid, 1);
        }
        assert(forall|j: int|
            0 <= j < ps.len() - 1 ==> #[trigger] ps.drop_first()[j] == ps[j + 1]);
        // The rest of the roster and the remaining deck stay within the
        // per-rank bound, so the recursive deal applies.
        assert forall|r: u8| #[trigger] hands_count(ps.drop_first(), r) + count_rank(front, r)
            <= 4 by {
            lemma_counts_cons(ps[0], ps.drop_first(), r);
            assert(ps =~= seq![ps[0]] + ps.drop_first());
            crate::ranks::lemma_count_concat(front, tail, r);
        }
        lemma_deal_conserves(ps.drop_first(), front);
        assert(out.0 == seq![p] + rest.0);
        assert(forall|j: int| 1 <= j < out.0.len() ==> #[trigger] out.0[j] == rest.0[j - 1]);
        assert(out.0[0] == p);
        assert forall|j: int, r: u8|
            0 <= j < ps.len() implies #[trigger] count_rank(out.0[j].cards, r) < 4 by {
            if j == 0 {
                crate::ranks::lemma_kept_below_four(mid, r);
            }
        }
        assert forall|r: u8| #[trigger] hands_count(out.0, r) + count_rank(out.1, r)
            <= hands_count(ps, r) + count_rank(d, r) by {
            lemma_counts_cons(p, rest.0, r);
            lemma_counts_cons(ps[0], ps.drop_first(), r);
            assert(ps =~= seq![ps[0]] + ps.drop_first());
            crate::ranks::lemma_count_concat(ps[0].cards, drawn, r);
            crate::ranks::lemma_count_concat(front, tail, r);
            crate::ranks::lemma_count_reverse(tail, r);
            crate::ranks::lemma_kept_below_four(mid, r);
        }
        assert(sum_hands(out.0) + out.1.len() + 4 * sum_scores(out.0) == sum_hands(ps) + d.len()
            + 4 * sum_scores(ps)) by {
            lemma_counts_cons(p, rest.0, 1);
            lemma_counts_cons(ps[0], ps.drop_first(), 1);
            assert(ps =~= seq![ps[0]] + ps.drop_first());
            assert(mid.len() == ps[0].cards.len() + k);
        }
    }
}

/// What a Join attempt does, exactly: a new identity in the waiting phase
/// is appended with an empty hand and zero score; a started game refuses;
/// a known identity is reported under its original display name, and in
/// both refusals the game is untouched.
pub open spec fn join_outcome(
    gv: GameView,
    id: Seq<char>,
    name: Seq<char>,
    gv2: GameView,
    r: Result<Vec<TurnEvent>, ActionError>,
) -> bool {
    match r {
        Ok(events) => {
            &&& gv.state is Waiting
            &&& find_player(gv.players, id) == -1
            &&& events@ == seq![TurnEvent::Joined]
            &&& gv2 == GameView {
                players: gv.players.push(
                    PlayerView { id: id, name: name, cards: Seq::empty(), score: 0 },
                ),
                ..gv
            }
        },
        Err(ActionError::GameAlreadyStarted) => !(gv.state is Waiting) && gv2 == gv,
        Err(ActionError::PlayerAlreadyJoined(n)) => {
            &&& gv.state is Waiting
            &&& find_player(gv.players, id) >= 0
            &&& n@ == gv.players[find_player(gv.players, id)].name
            &&& gv2 == gv
        },
        _ => false,
    }
}

impl GameView {
    /// The game has left the waiting phase.
    pub open spec fn started(self) -> bool {
        !(self.state is Waiting)
    }

    /// Everything the rules guarantee of a reachable game value.
    ///
    /// The conservation clause is the heart: cards only move between the
    /// deck and the hands, except that a scored group retires exactly four
    /// cards and adds one point, so hands plus deck plus four per point is
    /// always the full 48. And because a quadruplet is removed and scored
    /// in the same step that created it — at the deal as much as after an
    /// ask or a draw — no hand ever holds four copies of a rank between
    /// actions.
    pub open spec fn wf(self) -> bool {
        &&& all_valid(self.deck)
        &&& forall|i: int|
            0 <= i < self.players.len() ==> all_valid(#[trigger] self.players[i].cards)
        &&& ids_unique(self.players)
        &&& forall|i: int, r: u8|
            0 <= i < self.players.len() ==> #[trigger] count_rank(self.players[i].cards, r) < 4
        &&& forall|r: u8|
            valid_rank(r) ==> count_rank(self.deck, r) + #[trigger] hands_count(self.players, r)
                <= 4
        &&& sum_hands(self.players) + self.deck.len() + 4 * sum_scores(self.players) == 48
        &&& match self.state {
            StateView::Waiting => {
                &&& self.deck == Deck::full_deck()
                &&& forall|i: int|
                    0 <= i < self.players.len() ==> (#[trigger] self.players[i].cards).len() == 0
                &&& forall|i: int|
                    0 <= i < self.players.len() ==> (#[trigger] self.players[i].score) == 0
            },
            StateView::Asking(i) => 0 <= i < self.players.len(),
            StateView::Drawing(i) => 0 <= i < self.players.len(),
            StateView::GameOver(_) => self.players.len() == 0 && self.deck == Deck::full_deck(),
        }
    }
}

impl Game {
    /// A fresh game: full deck, empty roster, waiting for players.
    pub fn new() -> (g: Game)
        ensures
            g@.state == StateView::Waiting,
            g@.players.len() == 0,
            g@.deck == Deck::full_deck(),
            g@.wf(),
    {
        let g = Game { deck: Deck::new(), state: GameState::Waiting, players: Vec::new() };
        proof {
            lemma_full_deck();
            assert(g@.players =~= Seq::<PlayerView>::empty());
        }
        g
    }

    /// The game has left the waiting phase.
    fn has_started(&self) -> (b: bool)
        ensures
            b == self@.started(),
    {
        !(matches!(self.state, GameState::Waiting))
    }

    /// The position of the first roster entry with this identity.
    fn get_player_index(&self, player_id: &String) -> (r: Option<usize>)
        ensures
            match r {
                Some(i) => 0 <= i < self@.players.len() && find_player(
                    self@.players,
                    player_id@,
                ) == i,
                None => find_player(self@.players, player_id@) == -1,
            },
    {
        let mut i: usize = 0;
        while i < self.players.len()
            invariant
                i <= self.players.len(),
                forall|j: int| 0 <= j < i ==> (#[trigger] self@.players[j]).id != player_id@,
            decreases self.players.len() - i,
        {
            if self.players[i].id == *player_id {
                proof {
                    lemma_find_player(self@.players, player_id@);
                    let f = find_player(self@.players, player_id@);
                    assert(self@.players[i as int].id == player_id@);
                    assert(f >= 0);
                    if f < i {
                        assert(self@.players[f].id != player_id@);
                        assert(self@.players[f].id == player_id@);
                    }
                    if f > i {
                        assert(self@.players[i as int].id != player_id@);
                    }
                }
                return Some(i);
            }
            i = i + 1;
        }
        proof {
            lemma_find_player(self@.players, player_id@);
        }
        None
    }

    /// Appends a new player in the waiting phase. Refused once the game
    /// has started, and for an identity that already joined.
    fn join_player(&mut self, player_id: &str, name: &str) -> (r: Result<
        Vec<TurnEvent>,
        ActionError,
    >)
        requires
            old(self)@.wf(),
        ensures
            final(self)@.wf(),
            join_outcome(old(self)@, player_id@, name@, final(self)@, r),
    {
        if self.has_started() {
            return Err(ActionError::GameAlreadyStarted);
        }
        let id_owned = player_id.to_owned();
        if let Some(index) = self.get_player_index(&id_owned) {
            let player_name = self.players[index].name.clone();
            return Err(ActionError::PlayerAlreadyJoined(player_name));
        }
        proof {
            lemma_find_player(self@.players, player_id@);
        }
        self.players.push(
            Player { cards: Vec::new(), score: 0, name: name.to_owned(), id: id_owned },
        );
        proof {
            let gv = old(self)@;
            let pv = PlayerView { id: player_id@, name: name@, cards: Seq::empty(), score: 0 };
            assert(self@.players =~= gv.players.push(pv));
            lemma_counts_push(gv.players, pv, 0);
            assert forall|r: u8| valid_rank(r) implies count_rank(self@.deck, r)
                + #[trigger] hands_count(self@.players, r) <= 4 by {
                lemma_counts_push(gv.players, pv, r);
            }
            assert(sum_hands(self@.players) + self@.deck.len() + 4 * sum_scores(self@.players)
                == 48) by {
                lemma_counts_push(gv.players, pv, 0);
            }
            assert(ids_unique(self@.players)) by {
                assert(forall|j: int|
                    0 <= j < gv.players.len() ==> (#[trigger] gv.players[j]).id != player_id@);
                assert(forall|j: int|
                    0 <= j < gv.players.len() ==> self@.players[j] == gv.players[j]);
            }
            assert(self@ =~= GameView { players: gv.players.push(pv), ..gv });
        }
        let events = vec![TurnEvent::Joined];
        proof {
            assert(events@ =~= seq![TurnEvent::Joined]);
        }
        Ok(events)
    }

    /// One Ask action: the named player asks the player at `to` for every
    /// copy of `card`. Taking none is the normal "go fish" outcome and
    /// sends the asker drawing; taking some keeps the turn and scores any
    /// completed groups at once; a hand emptied on either side ends the
    /// round on the spot.
    #[verifier::loop_isolation(false)]
    pub fn ask_to(&mut self, player_id: String, to: usize, card: u8) -> (r: Result<
        Vec<TurnEvent>,
        ActionError,
    >)
        requires
            old(self)@.wf(),
        ensures
            final(self)@.wf(),
            ask_result(old(self)@, player_id@, to as int, card, final(self)@, r),
    {
        let ghost gv = old(self)@;
        let index = match self.get_player_index(&player_id) {
            Some(i) => i,
            None => {
                return Err(ActionError::InvalidPlayerId(player_id));
            },
        };
        if !self.can_ask(index) {
            return Err(ActionError::CannotAsk(player_id));
        }
        if !self.is_valid_question(index, to, card) {
            return Err(ActionError::InvalidQuestion(to, card));
        }
        let ghost i = index as int;
        let ghost tgt = to as int;
        let ghost k = count_rank(gv.players[tgt].cards, card);
        proof {
            crate::ranks::lemma_split_counts(gv.players[tgt].cards, card, card);
            lemma_hand_le_hands(gv.players, tgt, card);
            crate::ranks::lemma_count_occurs(gv.players[i].cards, card);
        }
        let mut events: Vec<TurnEvent> = Vec::new();
        let taken = self.take_cards_from(to, card);
        let ghost ps1 = gv.players.update(tgt, target_after(gv.players[tgt], card));
        proof {
            assert(taken@.len() == k);
            assert(k <= 4);
        }
        events.push(TurnEvent::Took(taken.len() as u8));
        if taken.len() > 0 {
            let ghost mid = ask_mid_hand(gv.players, i, tgt, card);
            proof {
                crate::ranks::lemma_split_valid(gv.players[tgt].cards, card);
                if i != tgt {
                    assert(all_valid(ps1[i].cards));
                }
                crate::ranks::lemma_concat_valid(ps1[i].cards, taken@);
                assert(all_valid(mid));
                // Scores stay within bounds: four cards per point caps the
                // total at twelve.
                lemma_score_le_sum(gv.players, i);
                assert(ps1[i].score <= 12);
                assert(self@.players == ps1);
                assert(self@.players.len() == ps1.len());
                assert(self.players@.len() == self@.players.len());
            }
            self.players[index].add_cards(taken.as_slice());
            proof {
                let mid_p = PlayerView {
                    id: ps1[i].id,
                    name: ps1[i].name,
                    cards: mid,
                    score: ps1[i].score,
                };
                assert(self@.players[i] =~= mid_p);
                assert(self@.players =~= ps1.update(i, mid_p));
            }
            let groups = self.players[index].reduce_groups();
            let ghost ps2 = ask_players(gv.players, i, tgt, card);
            proof {
                assert(self@.players[i] =~= grouped_after(ps1[i], mid));
                assert(self@.players =~= ps2) by {
                    assert(ps1.update(
                        i,
                        PlayerView {
                            id: ps1[i].id,
                            name: ps1[i].name,
                            cards: mid,
                            score: ps1[i].score,
                        },
                    ).update(i, grouped_after(ps1[i], mid)) =~= ps1.update(
                        i,
                        grouped_after(ps1[i], mid),
                    ));
                }
            }
            // Report each completed group.
            let mut gi: usize = 0;
            proof {
                assert(events@ =~= seq![TurnEvent::Took(k as u8)] + group_events(
                    groups@.take(0),
                ));
            }
            while gi < groups.len()
                invariant
                    gi <= groups.len(),
                    events@ == seq![TurnEvent::Took(k as u8)] + group_events(
                        groups@.take(gi as int),
                    ),
                decreases groups.len() - gi,
            {
                events.push(TurnEvent::Group(groups[gi]));
                proof {
                    assert(groups@.take(gi + 1).drop_last() =~= groups@.take(gi as int));
                    assert(events@ =~= seq![TurnEvent::Took(k as u8)] + group_events(
                        groups@.take(gi + 1),
                    ));
                }
                gi = gi + 1;
            }
            proof {
                assert(groups@.take(groups@.len() as int) =~= groups@);
                // Every rank is bounded by four in the extended hand.
                assert forall|r: u8| count_rank(mid, r) <= 4 by {
                    crate::ranks::lemma_count_concat(ps1[i].cards, taken@, r);
                    crate::ranks::lemma_split_counts(gv.players[tgt].cards, card, r);
                    crate::ranks::lemma_count_occurs(ps1[i].cards, r);
                    if valid_rank(r) {
                        if i == tgt {
                            lemma_hand_le_hands(gv.players, tgt, r);
                        } else if i < tgt {
                            lemma_two_hands_le(gv.players, i, tgt, r);
                        } else {
                            lemma_two_hands_le(gv.players, tgt, i, r);
                        }
                    } else {
                        assert(count_rank(ps1[i].cards, r) == 0);
                    }
                }
                crate::ranks::lemma_kept_len(mid);
                // The new roster satisfies every invariant clause.
                lemma_ask_players_wf(gv, i, tgt, card);
            }
            let asker_has = self.players[index].has_cards();
            let target_has = self.players[to].has_cards();
            if !asker_has || !target_has {
                self.game_over();
            } else {
                proof {
                    assert(self@ =~= GameView { players: ps2, ..gv });
                }
            }
            Ok(events)
        } else {
            proof {
                crate::ranks::lemma_without_absent_rank(gv.players[tgt].cards, card);
                assert(target_after(gv.players[tgt], card) =~= gv.players[tgt]);
                assert(ps1 =~= gv.players);
                assert(self@.players == gv.players);
            }
            self.state = GameState::Drawing(index);
            proof {
                assert(events@ =~= seq![TurnEvent::Took(0u8)]);
                assert(self@ =~= GameView { state: StateView::Drawing(i), ..gv });
            }
            let asker_has = self.players[index].has_cards();
            let target_has = self.players[to].has_cards();
            if !asker_has || !target_has {
                self.game_over();
            }
            Ok(events)
        }
    }

    /// One Draw action: the named player draws a single card. An empty
    /// deck silently passes the turn; groups are scored at once, and a
    /// hand emptied by that grouping ends the round whichever card came
    /// up; otherwise drawing the very card that was asked for keeps the
    /// turn and anything else passes it.
    #[verifier::loop_isolation(false)]
    pub fn draw_card(&mut self, player_id: String, chosen_card: u8) -> (r: Result<
        Vec<TurnEvent>,
        ActionError,
    >)
        requires
            old(self)@.wf(),
        ensures
            final(self)@.wf(),
            draw_result(old(self)@, player_id@, chosen_card, final(self)@, r),
    {
        let ghost gv = old(self)@;
        let index = match self.get_player_index(&player_id) {
            Some(i) => i,
            None => {
                return Err(ActionError::InvalidPlayerId(player_id));
            },
        };
        if !self.can_draw(index) {
            return Err(ActionError::CannotDraw(player_id));
        }
        let ghost i = index as int;
        let ghost n = gv.players.len() as int;
        let mut events: Vec<TurnEvent> = Vec::new();
        let drawn = self.deck.draw_n(1);
        if drawn.len() == 0 {
            proof {
                assert(gv.deck.len() == 0);
                assert(self@.deck =~= gv.deck);
            }
            events.push(TurnEvent::DeckEmpty);
            self.end_turn();
            proof {
                assert(events@ =~= seq![TurnEvent::DeckEmpty]);
                assert(self@ =~= GameView { state: StateView::Asking((i + 1) % n), ..gv });
            }
            Ok(events)
        } else {
            let card = drawn[0];
            let ghost c = gv.deck.last();
            let ghost mid = gv.players[i].cards.push(c);
            let ghost ps2 = gv.players.update(i, grouped_after(gv.players[i], mid));
            proof {
                assert(drawn@ =~= seq![c]);
                assert(self@.deck =~= gv.deck.drop_last());
                lemma_draw_players_wf(gv, i);
                lemma_score_le_sum(gv.players, i);
            }
            self.players[index].add_cards(drawn.as_slice());
            proof {
                assert(self@.players[i].cards =~= mid);
                assert(self@.players[i] =~= PlayerView {
                    id: gv.players[i].id,
                    name: gv.players[i].name,
                    cards: mid,
                    score: gv.players[i].score,
                });
            }
            events.push(TurnEvent::Drawn(card));
            let groups = self.players[index].reduce_groups();
            proof {
                assert(self@.players[i] =~= grouped_after(gv.players[i], mid));
                assert(self@.players =~= ps2);
            }
            // Report each completed group.
            let mut gi: usize = 0;
            proof {
                assert(events@ =~= seq![TurnEvent::Drawn(c)] + group_events(groups@.take(0)));
            }
            while gi < groups.len()
                invariant
                    gi <= groups.len(),
                    events@ == seq![TurnEvent::Drawn(c)] + group_events(groups@.take(gi as int)),
                decreases groups.len() - gi,
            {
                events.push(TurnEvent::Group(groups[gi]));
                proof {
                    assert(groups@.take(gi + 1).drop_last() =~= groups@.take(gi as int));
                    assert(events@ =~= seq![TurnEvent::Drawn(c)] + group_events(
                        groups@.take(gi + 1),
                    ));
                }
                gi = gi + 1;
            }
            proof {
                assert(groups@.take(groups@.len() as int) =~= groups@);
            }
            // A hand emptied by the grouping ends the round on the spot,
            // whichever card came up.
            if !self.players[index].has_cards() {
                self.game_over();
            } else if card != chosen_card {
                self.end_turn();
                proof {
                    assert(self@ =~= GameView {
                        deck: gv.deck.drop_last(),
                        state: StateView::Asking((i + 1) % n),
                        players: ps2,
                    });
                }
            } else {
                self.state = GameState::Asking(index);
                proof {
                    assert(self@ =~= GameView {
                        deck: gv.deck.drop_last(),
                        state: StateView::Asking(i),
                        players: ps2,
                    });
                }
            }
            Ok(events)
        }
    }

    /// Applies one action to the game: the single entry point through
    /// which a session drives Join, Start, Ask and Draw, and collects the
    /// resulting events. A refused action leaves the game exactly as it
    /// was.
    pub fn execute(&mut self, action: Action) -> (r: Result<Vec<TurnEvent>, ActionError>)
        requires
            old(self)@.wf(),
        ensures
            final(self)@.wf(),
            match action {
                Action::Start => start_outcome(old(self)@, final(self)@, r),
                Action::Join(id, name) => join_outcome(old(self)@, id@, name@, final(self)@, r),
                Action::Ask(id, to, card) => ask_result(
                    old(self)@,
                    id@,
                    to as int,
                    card,
                    final(self)@,
                    r,
                ),
                Action::Draw(id, last_card) => draw_result(
                    old(self)@,
                    id@,
                    last_card,
                    final(self)@,
                    r,
                ),
            },
    {
        match action {
            Action::Start => self.start_game(),
            Action::Join(id, name) => self.join_player(id.as_str(), name.as_str()),
            Action::Ask(id, to, card) => self.ask_to(id, to, card),
            Action::Draw(id, last_card) => self.draw_card(id, last_card),
        }
    }

    /// Puts the roster into a random order; the players themselves are
    /// unchanged.
    #[verifier::loop_isolation(false)]
    fn shuffle_players(&mut self)
        ensures
            exists|perm: Seq<int>|
                #[trigger] is_perm(perm, old(self)@.players.len() as int) && final(self)@.players
                    == reorder(old(self)@.players, perm),
            final(self)@.deck == old(self)@.deck,
            final(self)@.state == old(self)@.state,
    {
        let ghost ps0 = old(self)@.players;
        let n = self.players.len();
        // A vector of the positions, then shuffled: a random permutation.
        let mut idxs: Vec<usize> = Vec::new();
        let mut i: usize = 0;
        while i < n
            invariant
                i <= n,
                idxs@.len() == i,
                forall|j: int| 0 <= j < i ==> #[trigger] idxs@[j] == j,
            decreases n - i,
        {
            idxs.push(i);
            i = i + 1;
        }
        let ghost s0 = idxs@;
        shuffle_values(&mut idxs);
        let ghost s1 = idxs@;
        proof {
            broadcast use vstd::seq_lib::group_to_multiset_ensures;

            assert(s0.no_duplicates());
            s0.lemma_multiset_has_no_duplicates();
            assert(forall|x: usize|
                s1.to_multiset().contains(x) ==> #[trigger] s1.to_multiset().count(x) == 1);
            s1.lemma_multiset_has_no_duplicates_conv();
            assert forall|j: int| 0 <= j < s1.len() implies 0 <= #[trigger] s1[j] < n by {
                assert(s1.contains(s1[j]));
                assert(s1.to_multiset().count(s1[j]) > 0);
                assert(s0.contains(s1[j]));
                let l = choose|l: int| 0 <= l < s0.len() && s0[l] == s1[j];
                assert(s0[l] == l);
            }
        }
        let ghost perm = Seq::new(n as nat, |j: int| s1[j] as int);
        proof {
            assert(is_perm(perm, n as int)) by {
                assert forall|a: int, b: int|
                    0 <= a < perm.len() && 0 <= b < perm.len() && a != b implies perm[a]
                    != perm[b] by {
                    assert(s1[a] != s1[b]);
                }
            }
        }
        // Rebuild the roster in the drawn order.
        let mut new_players: Vec<Player> = Vec::new();
        let mut j: usize = 0;
        while j < n
            invariant
                j <= n,
                self@.players == ps0,
                idxs@ == s1,
                new_players.deep_view().len() == j,
                forall|l: int|
                    0 <= l < j ==> #[trigger] new_players.deep_view()[l] == ps0[perm[l]],
            decreases n - j,
        {
            let ghost dv = new_players.deep_view();
            let p = self.players[idxs[j]].clone();
            proof {
                assert(p@ == ps0[perm[j as int]]);
            }
            new_players.push(p);
            proof {
                assert(new_players.deep_view() =~= dv.push(ps0[perm[j as int]]));
            }
            j = j + 1;
        }
        self.players = new_players;
        proof {
            assert(self@.players =~= reorder(ps0, perm));
            assert(is_perm(perm, ps0.len() as int) && self@.players == reorder(ps0, perm));
        }
    }

    /// Leaves the waiting phase: the deck and the roster are put into a
    /// random order, every player is dealt seven cards, and the first
    /// position is asking. Refused once the game has started.
    #[verifier::loop_isolation(false)]
    #[verifier::rlimit(60)]
    fn start_game(&mut self) -> (r: Result<Vec<TurnEvent>, ActionError>)
        requires
            old(self)@.wf(),
        ensures
            final(self)@.wf(),
            start_outcome(old(self)@, final(self)@, r),
    {
        if self.has_started() {
            return Err(ActionError::GameAlreadyStarted);
        }
        if self.players.len() == 0 {
            return Err(ActionError::CannotStart);
        }
        let ghost gv = old(self)@;
        self.deck.shuffle();
        let ghost d1 = self@.deck;
        proof {
            lemma_full_deck();
            assert forall|r: u8| count_rank(d1, r) == count_rank(gv.deck, r) by {
                crate::ranks::lemma_count_multiset(d1, r);
                crate::ranks::lemma_count_multiset(gv.deck, r);
            }
            assert forall|j: int| 0 <= j < d1.len() implies valid_rank(#[trigger] d1[j]) by {
                crate::ranks::lemma_count_occurs(d1, d1[j]);
                crate::ranks::lemma_count_occurs(gv.deck, d1[j]);
                let l = choose|l: int| 0 <= l < gv.deck.len() && gv.deck[l] == d1[j];
                assert(valid_rank(gv.deck[l]));
            }
        }
        self.shuffle_players();
        let ghost perm = choose|perm: Seq<int>|
            #[trigger] is_perm(perm, gv.players.len() as int) && self@.players == reorder(
                gv.players,
                perm,
            );
        let ghost ps1 = self@.players;
        proof {
            assert(forall|j: int|
                0 <= j < ps1.len() ==> #[trigger] ps1[j] == gv.players[perm[j]]);
            assert(forall|j: int| 0 <= j < ps1.len() ==> (#[trigger] ps1[j]).cards.len() == 0);
            assert(forall|j: int| 0 <= j < ps1.len() ==> (#[trigger] ps1[j]).score == 0);
            assert(ids_unique(ps1)) by {
                assert forall|a: int, b: int| 0 <= a < b < ps1.len() implies ps1[a].id
                    != ps1[b].id by {
                    assert(perm[a] != perm[b]);
                    if perm[a] < perm[b] {
                        assert(gv.players[perm[a]].id != gv.players[perm[b]].id);
                    } else {
                        assert(gv.players[perm[b]].id != gv.players[perm[a]].id);
                    }
                }
            }
            assert(ps1.skip(0) =~= ps1);
            assert(self@.players.take(0) + deal(ps1.skip(0), self@.deck).0 =~= deal(
                ps1,
                d1,
            ).0);
        }
        // Deal seven cards to each player in the new order, grouping any
        // quadruplet that arrives complete in the same step.
        let mut i: usize = 0;
        while i < self.players.len()
            invariant
                i <= self.players.len(),
                self@.players.len() == ps1.len(),
                self@.state == gv.state,
                all_valid(self@.deck),
                forall|j: int| i <= j < ps1.len() ==> #[trigger] self@.players[j] == ps1[j],
                deal(ps1, d1).0 == self@.players.take(i as int) + deal(
                    ps1.skip(i as int),
                    self@.deck,
                ).0,
                deal(ps1, d1).1 == deal(ps1.skip(i as int), self@.deck).1,
            decreases self.players.len() - i,
        {
            let ghost dcur = self@.deck;
            let ghost len = dcur.len() as int;
            let ghost k = if 7 <= dcur.len() {
                7int
            } else {
                len
            };
            proof {
                assert(self@.players[i as int] == ps1[i as int]);
            }
            let drawn = self.deck.draw_n(7);
            proof {
                assert(self@.players[i as int] == ps1[i as int]);
                assert(ps1.skip(i as int).drop_first() =~= ps1.skip(i + 1));
                assert(ps1.skip(i as int)[0] == ps1[i as int]);
                assert(drawn@ == dcur.skip(len - k).reverse());
                assert(self@.deck == dcur.take(len - k));
            }
            let ghost before = self@.players;
            let ghost mid = ps1[i as int].cards + dcur.skip(len - k).reverse();
            self.players[i].add_cards(drawn.as_slice());
            proof {
                assert(self@.players[i as int] =~= PlayerView {
                    id: ps1[i as int].id,
                    name: ps1[i as int].name,
                    cards: mid,
                    score: ps1[i as int].score,
                });
                // The freshly dealt hand holds only valid cards (the hand
                // was empty in the waiting phase, and the deck is valid).
                assert(ps1[i as int].cards.len() == 0);
                assert(mid =~= dcur.skip(len - k).reverse());
                assert forall|j: int| 0 <= j < mid.len() implies valid_rank(
                    #[trigger] mid[j],
                ) by {
                    assert(mid[j] == dcur.skip(len - k)[mid.len() - 1 - j]);
                    assert(dcur.skip(len - k)[mid.len() - 1 - j] == dcur[len - k + (mid.len() - 1
                        - j)]);
                }
                assert(self@.players[i as int].score == 0);
            }
            let groups = self.players[i].reduce_groups();
            proof {
                crate::ranks::lemma_groups_upto_len(mid, 12);
                let p = grouped_after(ps1[i as int], mid);
                assert(self@.players[i as int] =~= p);
                assert(self@.players =~= before.update(i as int, p));
                assert forall|j: int| i + 1 <= j < ps1.len() implies #[trigger] self@.players[j]
                    == ps1[j] by {
                    assert(before[j] == ps1[j]);
                }
                assert(deal(ps1.skip(i as int), dcur).0 == seq![p] + deal(
                    ps1.skip(i + 1),
                    self@.deck,
                ).0);
                assert(deal(ps1.skip(i as int), dcur).1 == deal(ps1.skip(i + 1), self@.deck).1);
                assert(self@.players.take(i + 1) =~= self@.players.take(i as int).push(p));
                assert(self@.players.take(i as int).push(p) + deal(
                    ps1.skip(i + 1),
                    self@.deck,
                ).0 =~= self@.players.take(i as int) + (seq![p] + deal(
                    ps1.skip(i + 1),
                    self@.deck,
                ).0));
                assert(all_valid(self@.deck)) by {
                    assert(forall|j: int|
                        0 <= j < self@.deck.len() ==> #[trigger] self@.deck[j] == dcur[j]);
                }
            }
            i = i + 1;
        }
        proof {
            assert(ps1.skip(ps1.len() as int) =~= Seq::<PlayerView>::empty());
            assert(self@.players.take(ps1.len() as int) =~= self@.players);
            assert(deal(ps1, d1).0 == self@.players + Seq::<PlayerView>::empty());
            assert(self@.players + Seq::<PlayerView>::empty() =~= self@.players);
            assert(deal(ps1, d1).1 == self@.deck);
        }
        self.state = GameState::Asking(0);
        proof {
            assert(gv.deck == Deck::full_deck());
            assert(d1.len() == 48);
            lemma_blank_roster(ps1, 1);
            assert forall|r: u8| #[trigger] hands_count(ps1, r) + count_rank(d1, r) <= 4 by {
                lemma_blank_roster(ps1, r);
                assert(count_rank(d1, r) == count_rank(gv.deck, r));
                assert(count_rank(Deck::full_deck(), r) <= 4) by {
                    lemma_full_deck();
                    if valid_rank(r) {
                        assert(count_rank(Deck::full_deck(), r) == 4);
                    } else {
                        assert(count_rank(Deck::full_deck(), r) == 0);
                    }
                }
            }
            lemma_deal_conserves(ps1, d1);
            assert(all_valid(self@.deck));
            assert forall|j: int|
                0 <= j < self@.players.len() implies all_valid(
                (#[trigger] self@.players[j]).cards,
            ) by {}
            assert forall|j: int, r: u8|
                0 <= j < self@.players.len() implies #[trigger] count_rank(
                self@.players[j].cards,
                r,
            ) < 4 by {
                assert(count_rank(deal(ps1, d1).0[j].cards, r) < 4);
            }
            assert forall|r: u8|
                valid_rank(r) implies count_rank(self@.deck, r) + #[trigger] hands_count(
                self@.players,
                r,
            ) <= 4 by {
                assert(hands_count(self@.players, r) + count_rank(self@.deck, r)
                    <= hands_count(ps1, r) + count_rank(d1, r));
            }
            assert(ids_unique(self@.players)) by {
                assert(forall|j: int|
                    0 <= j < ps1.len() ==> (#[trigger] self@.players[j]).id == ps1[j].id);
            }
            assert(sum_hands(self@.players) + self@.deck.len() + 4 * sum_scores(self@.players)
                == 48);
            assert(self@.state == StateView::Asking(0));
            assert(self@.players.len() == ps1.len());
            assert(self@.wf());
            assert(start_witness(gv, self@, perm, d1));
        }
        let events = vec![TurnEvent::Started];
        proof {
            assert(events@ =~= seq![TurnEvent::Started]);
        }
        Ok(events)
    }

    /// It is this position's turn to ask.
    fn can_ask(&self, index: usize) -> (b: bool)
        ensures
            b == (self@.state == StateView::Asking(index as int)),
    {
        match self.state {
            GameState::Asking(i) => i == index,
            _ => false,
        }
    }

    /// It is this position's turn to draw.
    fn can_draw(&self, index: usize) -> (b: bool)
        ensures
            b == (self@.state == StateView::Drawing(index as int)),
    {
        match self.state {
            GameState::Drawing(i) => i == index,
            _ => false,
        }
    }

    /// The question names a real target, a playable rank, and a rank the
    /// asker holds.
    #[verifier::loop_isolation(false)]
    fn is_valid_question(&self, from: usize, to: usize, card: u8) -> (b: bool)
        requires
            (from as int) < self@.players.len(),
        ensures
            b == valid_question(self@.players, from as int, to as int, card),
    {
        if !(to < self.players.len() && Deck::valid_card(card)) {
            return false;
        }
        let hand = &self.players[from].cards;
        let mut i: usize = 0;
        while i < hand.len()
            invariant
                i <= hand.len(),
                forall|j: int| 0 <= j < i ==> hand@[j] != card,
            decreases hand.len() - i,
        {
            if hand[i] == card {
                proof {
                    crate::ranks::lemma_count_occurs(hand@, card);
                }
                return true;
            }
            i = i + 1;
        }
        proof {
            crate::ranks::lemma_count_occurs(hand@, card);
        }
        false
    }

    /// Moves every copy of `card` out of the hand at `from` and returns
    /// them.
    fn take_cards_from(&mut self, from: usize, card: u8) -> (taken: Vec<u8>)
        requires
            (from as int) < old(self)@.players.len(),
        ensures
            taken@ == of_rank(old(self)@.players[from as int].cards, card),
            final(self)@.players == old(self)@.players.update(
                from as int,
                target_after(old(self)@.players[from as int], card),
            ),
            final(self)@.deck == old(self)@.deck,
            final(self)@.state == old(self)@.state,
    {
        let taken = self.players[from].remove_cards(card);
        proof {
            assert(self@.players[from as int] =~= target_after(
                old(self)@.players[from as int],
                card,
            ));
            assert(self@.players =~= old(self)@.players.update(
                from as int,
                target_after(old(self)@.players[from as int], card),
            ));
        }
        taken
    }

    /// Hands the turn to the next position in roster order.
    fn end_turn(&mut self)
        requires
            old(self)@.state is Drawing,
            0 <= old(self)@.state->Drawing_0 < old(self)@.players.len(),
        ensures
            ({
                let i = old(self)@.state->Drawing_0;
                final(self)@ == GameView {
                    state: StateView::Asking((i + 1) % (old(self)@.players.len() as int)),
                    ..old(self)@
                }
            }),
    {
        let index = match self.state {
            GameState::Drawing(index) => index,
            _ => {
                proof {
                    assert(false);
                }
                0
            },
        };
        let n = self.players.len();
        let new_index = (index + 1) % n;
        self.state = GameState::Asking(new_index);
        proof {
            assert(final(self)@ =~= GameView {
                state: StateView::Asking(
                    (old(self)@.state->Drawing_0 + 1) % (old(self)@.players.len() as int),
                ),
                ..old(self)@
            });
        }
    }

    /// Ends the round: records the winners and the top score, clears the
    /// roster and reinitialises the deck.
    #[verifier::loop_isolation(false)]
    fn game_over(&mut self)
        requires
            old(self)@.players.len() > 0,
        ensures
            final(self)@ == game_over_view(old(self)@.players),
            final(self)@.wf(),
    {
        let ghost ps = old(self)@.players;
        // The highest score.
        let mut max: u8 = 0;
        let mut i: usize = 0;
        proof {
            assert(ps.take(0) =~= Seq::<PlayerView>::empty());
        }
        while i < self.players.len()
            invariant
                i <= self.players.len(),
                self@ == old(self)@,
                max == max_score(ps.take(i as int)),
            decreases self.players.len() - i,
        {
            if self.players[i].score >= max {
                max = self.players[i].score;
            }
            proof {
                assert(ps.take(i + 1).drop_last() =~= ps.take(i as int));
                assert(ps.take(i + 1).last() == ps[i as int]);
            }
            i = i + 1;
        }
        proof {
            assert(ps.take(ps.len() as int) =~= ps);
            // A nonempty roster's maximum is one of the scores, so the
            // initial 0 never wins on its own: max_score of the whole
            // equals the loop's result.
        }
        // Everyone tied for the highest score, in roster order.
        let mut winners: Vec<String> = Vec::new();
        let mut j: usize = 0;
        proof {
            assert(winners.deep_view() =~= names_with_score(ps.take(0), max));
        }
        while j < self.players.len()
            invariant
                j <= self.players.len(),
                self@ == old(self)@,
                max == max_score(ps),
                winners.deep_view() == names_with_score(ps.take(j as int), max),
            decreases self.players.len() - j,
        {
            proof {
                assert(ps.take(j + 1).drop_last() =~= ps.take(j as int));
                assert(ps.take(j + 1).last() == ps[j as int]);
            }
            if self.players[j].score == max {
                winners.push(self.players[j].name.clone());
                proof {
                    assert(winners.deep_view() =~= names_with_score(ps.take(j + 1), max));
                }
            } else {
                proof {
                    assert(winners.deep_view() =~= names_with_score(ps.take(j + 1), max));
                }
            }
            j = j + 1;
        }
        proof {
            assert(ps.take(ps.len() as int) =~= ps);
        }
        self.state = GameState::GameOver(GameResults { winners, score: max });
        self.deck = Deck::new();
        self.players = Vec::new();
        proof {
            lemma_full_deck();
            assert(self@.players =~= Seq::<PlayerView>::empty());
            assert(self@ =~= game_over_view(ps));
        }
    }
}


} // verus!
