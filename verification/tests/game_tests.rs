use gofish::deck::Deck;
use gofish::errors::ActionError;
use gofish::game::{Action, Game, GameState, TurnEvent};
use gofish::player::Player;

fn player(id: &str, name: &str, cards: Vec<u8>, score: u8) -> Player {
    Player { id: id.to_owned(), name: name.to_owned(), cards, score }
}

fn two_player_game(alice_cards: Vec<u8>, bob_cards: Vec<u8>, deck: Vec<u8>) -> Game {
    Game {
        deck: Deck::from_cards(deck),
        state: GameState::Asking(0),
        players: vec![
            player("1", "Alice", alice_cards, 0),
            player("2", "Bob", bob_cards, 0),
        ],
    }
}

#[test]
fn joins_with_distinct_identities() {
    let mut g = Game::new();
    let e1 = g.execute(Action::Join("1".to_owned(), "Alice".to_owned())).unwrap();
    let e2 = g.execute(Action::Join("2".to_owned(), "Bob".to_owned())).unwrap();
    assert_eq!(e1, vec![TurnEvent::Joined]);
    assert_eq!(e2, vec![TurnEvent::Joined]);
    assert_eq!(g.players.len(), 2);
    assert_eq!(g.players[0].id, "1");
    assert_eq!(g.players[0].name, "Alice");
    assert!(g.players[0].cards.is_empty());
    assert_eq!(g.players[0].score, 0);
    assert_eq!(g.players[1].id, "2");
    assert!(g.players[1].cards.is_empty());
    assert_eq!(g.players[1].score, 0);
}

#[test]
fn duplicate_join_is_refused_and_roster_unchanged() {
    let mut g = Game::new();
    g.execute(Action::Join("1".to_owned(), "Alice".to_owned())).unwrap();
    let r = g.execute(Action::Join("1".to_owned(), "Imposter".to_owned()));
    match r {
        Err(ActionError::PlayerAlreadyJoined(name)) => assert_eq!(name, "Alice"),
        other => panic!("expected PlayerAlreadyJoined, got {:?}", other),
    }
    assert_eq!(g.players.len(), 1);
    assert_eq!(g.players[0].name, "Alice");
}

#[test]
fn join_after_start_is_refused() {
    let mut g = Game::new();
    g.execute(Action::Join("1".to_owned(), "Alice".to_owned())).unwrap();
    g.execute(Action::Join("2".to_owned(), "Bob".to_owned())).unwrap();
    g.execute(Action::Start).unwrap();
    let r = g.execute(Action::Join("3".to_owned(), "Carol".to_owned()));
    assert!(matches!(r, Err(ActionError::GameAlreadyStarted)));
}

#[test]
fn start_deals_seven_each_and_first_position_asks() {
    let mut g = Game::new();
    g.execute(Action::Join("1".to_owned(), "Alice".to_owned())).unwrap();
    g.execute(Action::Join("2".to_owned(), "Bob".to_owned())).unwrap();
    let events = g.execute(Action::Start).unwrap();
    assert_eq!(events, vec![TurnEvent::Started]);
    assert_eq!(g.state, GameState::Asking(0));
    assert_eq!(g.players.len(), 2);
    for p in &g.players {
        // A quadruplet dealt complete is scored at once, retiring its
        // four cards, so a hand is seven cards less four per point.
        assert_eq!(p.cards.len() + 4 * (p.score as usize), 7);
        let mut counts = [0usize; 13];
        for &c in &p.cards {
            counts[c as usize] += 1;
        }
        for r in 1..=12 {
            assert!(counts[r] < 4);
        }
    }
    assert_eq!(g.deck.len(), 48 - 14);
}

#[test]
fn start_with_no_players_is_refused() {
    let mut g = Game::new();
    let r = g.execute(Action::Start);
    assert!(matches!(r, Err(ActionError::CannotStart)));
    assert_eq!(g.state, GameState::Waiting);
    assert!(g.players.is_empty());
    assert_eq!(g.deck.len(), 48);
    // The session stays usable: a join and a start still work.
    g.execute(Action::Join("1".to_owned(), "Alice".to_owned())).unwrap();
    g.execute(Action::Start).unwrap();
    assert_eq!(g.state, GameState::Asking(0));
}

#[test]
fn second_start_is_refused() {
    let mut g = Game::new();
    g.execute(Action::Join("1".to_owned(), "Alice".to_owned())).unwrap();
    g.execute(Action::Start).unwrap();
    let r = g.execute(Action::Start);
    assert!(matches!(r, Err(ActionError::GameAlreadyStarted)));
}

#[test]
fn cards_are_conserved_through_start_and_play() {
    let mut g = Game::new();
    g.execute(Action::Join("1".to_owned(), "Alice".to_owned())).unwrap();
    g.execute(Action::Join("2".to_owned(), "Bob".to_owned())).unwrap();
    g.execute(Action::Start).unwrap();
    let scores: usize = g.players.iter().map(|p| p.score as usize).sum();
    let total: usize =
        g.players.iter().map(|p| p.cards.len()).sum::<usize>() + g.deck.len();
    assert_eq!(total + 4 * scores, 48);
    // Find the asker and a card they hold, then play one legal ask.
    let i = match g.state {
        GameState::Asking(i) => i,
        ref s => panic!("expected an asking state, got {:?}", s),
    };
    let id = g.players[i].id.clone();
    let card = g.players[i].cards[0];
    g.execute(Action::Ask(id, 1 - i, card)).unwrap();
    if !matches!(g.state, GameState::GameOver(_)) {
        let scores: usize = g.players.iter().map(|p| p.score as usize).sum();
        let total: usize =
            g.players.iter().map(|p| p.cards.len()).sum::<usize>() + g.deck.len();
        assert_eq!(total + 4 * scores, 48);
    }
}

#[test]
fn scenario_took_zero_moves_to_drawing() {
    // Alice holds a 5, Bob has none: "go fish".
    let mut g = two_player_game(vec![5, 7], vec![8, 9], vec![1, 2, 3]);
    let events = g.execute(Action::Ask("1".to_owned(), 1, 5)).unwrap();
    assert_eq!(events, vec![TurnEvent::Took(0)]);
    assert_eq!(g.state, GameState::Drawing(0));
    assert_eq!(g.players[0].cards, vec![5, 7]);
    assert_eq!(g.players[1].cards, vec![8, 9]);
}

#[test]
fn scenario_drawing_the_asked_card_keeps_the_turn() {
    // Continuing the go-fish: the deck yields the very card Alice asked
    // for (the top of the deck is the last element).
    let mut g = two_player_game(vec![5, 7], vec![8, 9], vec![1, 2, 5]);
    g.execute(Action::Ask("1".to_owned(), 1, 5)).unwrap();
    let events = g.execute(Action::Draw("1".to_owned(), 5)).unwrap();
    assert_eq!(events, vec![TurnEvent::Drawn(5)]);
    assert_eq!(g.state, GameState::Asking(0));
    assert_eq!(g.players[0].cards, vec![5, 7, 5]);
    assert_eq!(g.deck.len(), 2);
}

#[test]
fn scenario_drawing_another_card_passes_the_turn() {
    // This time the deck yields a 9, not the requested 5.
    let mut g = two_player_game(vec![5, 7], vec![8, 9], vec![1, 2, 9]);
    g.execute(Action::Ask("1".to_owned(), 1, 5)).unwrap();
    let events = g.execute(Action::Draw("1".to_owned(), 5)).unwrap();
    assert_eq!(events, vec![TurnEvent::Drawn(9)]);
    assert_eq!(g.state, GameState::Asking(1));
    assert_eq!(g.players[0].cards, vec![5, 7, 9]);
}

#[test]
fn scenario_emptied_hand_ends_the_round() {
    // Bob's only cards are the 5s Alice asks for: his hand empties, the
    // round is over, Alice (who scored the group) wins, and the game
    // value is reset for a fresh round.
    let mut g = two_player_game(vec![5, 5, 3], vec![5, 5], vec![1, 2]);
    let events = g.execute(Action::Ask("1".to_owned(), 1, 5)).unwrap();
    assert_eq!(events, vec![TurnEvent::Took(2), TurnEvent::Group(5)]);
    match &g.state {
        GameState::GameOver(results) => {
            assert_eq!(results.winners, vec!["Alice".to_owned()]);
            assert_eq!(results.score, 1);
        },
        other => panic!("expected GameOver, got {:?}", other),
    }
    assert!(g.players.is_empty());
    assert_eq!(g.deck.len(), 48);
}

#[test]
fn scenario_draw_from_empty_deck_passes_the_turn() {
    let mut g = two_player_game(vec![5, 7], vec![8, 9], vec![]);
    g.state = GameState::Drawing(0);
    let events = g.execute(Action::Draw("1".to_owned(), 5)).unwrap();
    assert_eq!(events, vec![TurnEvent::DeckEmpty]);
    assert_eq!(g.state, GameState::Asking(1));
    assert_eq!(g.players[0].cards, vec![5, 7]);
    assert_eq!(g.players[1].cards, vec![8, 9]);
}

#[test]
fn taking_cards_keeps_the_turn() {
    let mut g = two_player_game(vec![5, 7], vec![5, 9, 5], vec![1, 2]);
    let events = g.execute(Action::Ask("1".to_owned(), 1, 5)).unwrap();
    assert_eq!(events, vec![TurnEvent::Took(2)]);
    assert_eq!(g.state, GameState::Asking(0));
    assert_eq!(g.players[0].cards, vec![5, 7, 5, 5]);
    assert_eq!(g.players[1].cards, vec![9]);
}

#[test]
fn taking_the_fourth_card_scores_a_group() {
    let mut g = two_player_game(vec![5, 5, 5, 2], vec![5, 9], vec![1, 2]);
    let events = g.execute(Action::Ask("1".to_owned(), 1, 5)).unwrap();
    assert_eq!(events, vec![TurnEvent::Took(1), TurnEvent::Group(5)]);
    assert_eq!(g.state, GameState::Asking(0));
    assert_eq!(g.players[0].cards, vec![2]);
    assert_eq!(g.players[0].score, 1);
}

#[test]
fn ask_errors() {
    let mut g = two_player_game(vec![5, 7], vec![8, 9], vec![1, 2]);
    // Unknown identity.
    match g.execute(Action::Ask("9".to_owned(), 1, 5)) {
        Err(ActionError::InvalidPlayerId(id)) => assert_eq!(id, "9"),
        other => panic!("expected InvalidPlayerId, got {:?}", other),
    }
    // Not this player's turn.
    match g.execute(Action::Ask("2".to_owned(), 0, 8)) {
        Err(ActionError::CannotAsk(id)) => assert_eq!(id, "2"),
        other => panic!("expected CannotAsk, got {:?}", other),
    }
    // Target index out of range.
    match g.execute(Action::Ask("1".to_owned(), 2, 5)) {
        Err(ActionError::InvalidQuestion(to, card)) => {
            assert_eq!(to, 2);
            assert_eq!(card, 5);
        },
        other => panic!("expected InvalidQuestion, got {:?}", other),
    }
    // A rank outside 1..=12.
    assert!(matches!(
        g.execute(Action::Ask("1".to_owned(), 1, 13)),
        Err(ActionError::InvalidQuestion(1, 13))
    ));
    // A rank the asker does not hold.
    assert!(matches!(
        g.execute(Action::Ask("1".to_owned(), 1, 8)),
        Err(ActionError::InvalidQuestion(1, 8))
    ));
    // Drawing while it is an asking turn.
    match g.execute(Action::Draw("1".to_owned(), 5)) {
        Err(ActionError::CannotDraw(id)) => assert_eq!(id, "1"),
        other => panic!("expected CannotDraw, got {:?}", other),
    }
    // Nothing changed along the way.
    assert_eq!(g.state, GameState::Asking(0));
    assert_eq!(g.players[0].cards, vec![5, 7]);
    assert_eq!(g.players[1].cards, vec![8, 9]);
}

#[test]
fn asking_an_empty_hand_ends_the_round() {
    let mut g = two_player_game(vec![5, 7], vec![], vec![1, 2]);
    g.players[0].score = 2;
    let events = g.execute(Action::Ask("1".to_owned(), 1, 5)).unwrap();
    assert_eq!(events, vec![TurnEvent::Took(0)]);
    match &g.state {
        GameState::GameOver(results) => {
            assert_eq!(results.winners, vec!["Alice".to_owned()]);
            assert_eq!(results.score, 2);
        },
        other => panic!("expected GameOver, got {:?}", other),
    }
}

#[test]
fn tied_winners_are_all_reported() {
    let mut g = two_player_game(vec![5, 5], vec![5, 5], vec![1, 2]);
    g.players[0].score = 3;
    g.players[1].score = 4;
    g.execute(Action::Ask("1".to_owned(), 1, 5)).unwrap();
    match &g.state {
        GameState::GameOver(results) => {
            // Alice grouped the four 5s, reaching Bob's score: a tie.
            assert_eq!(results.winners, vec!["Alice".to_owned(), "Bob".to_owned()]);
            assert_eq!(results.score, 4);
        },
        other => panic!("expected GameOver, got {:?}", other),
    }
}

#[test]
fn drawing_into_a_group_that_empties_the_hand_ends_the_round() {
    // Alice holds three 5s and draws the fourth while expecting a 7: the
    // group empties her hand, and a hand reaching zero during any draw
    // ends the game on the spot.
    let mut g = two_player_game(vec![5, 5, 5], vec![8, 9], vec![1, 2, 5]);
    g.state = GameState::Drawing(0);
    let events = g.execute(Action::Draw("1".to_owned(), 7)).unwrap();
    assert_eq!(events, vec![TurnEvent::Drawn(5), TurnEvent::Group(5)]);
    match &g.state {
        GameState::GameOver(results) => {
            assert_eq!(results.winners, vec!["Alice".to_owned()]);
            assert_eq!(results.score, 1);
        },
        other => panic!("expected GameOver, got {:?}", other),
    }
    assert!(g.players.is_empty());
    assert_eq!(g.deck.len(), 48);
}

#[test]
fn draw_with_unknown_identity_is_refused() {
    let mut g = two_player_game(vec![5], vec![8], vec![1]);
    g.state = GameState::Drawing(0);
    match g.execute(Action::Draw("9".to_owned(), 5)) {
        Err(ActionError::InvalidPlayerId(id)) => assert_eq!(id, "9"),
        other => panic!("expected InvalidPlayerId, got {:?}", other),
    }
    assert_eq!(g.state, GameState::Drawing(0));
}

#[test]
fn cards_are_conserved_through_a_draw() {
    let mut g = two_player_game(vec![5, 7], vec![8, 9], vec![1, 2, 3]);
    g.state = GameState::Drawing(0);
    g.execute(Action::Draw("1".to_owned(), 5)).unwrap();
    let total: usize =
        g.players.iter().map(|p| p.cards.len()).sum::<usize>() + g.deck.len();
    assert_eq!(total, 7);
}

#[test]
fn from_cards_puts_the_last_card_on_top() {
    let mut d = Deck::from_cards(vec![3, 1, 8]);
    assert_eq!(d.len(), 3);
    assert_eq!(d.draw_n(2), vec![8, 1]);
}

#[test]
fn deck_basics() {
    let mut d = Deck::new();
    assert_eq!(d.len(), 48);
    assert!(Deck::valid_card(1));
    assert!(Deck::valid_card(12));
    assert!(!Deck::valid_card(0));
    assert!(!Deck::valid_card(13));
    // Draws come from the top (the canonical deck ends with four 12s).
    let drawn = d.draw_n(5);
    assert_eq!(drawn, vec![12, 12, 12, 12, 11]);
    assert_eq!(d.len(), 43);
    // A partial draw is not an error.
    let rest = d.draw_n(100);
    assert_eq!(rest.len(), 43);
    assert_eq!(d.len(), 0);
    assert_eq!(d.draw_n(1), Vec::<u8>::new());
}

#[test]
fn shuffle_keeps_the_same_48_cards() {
    let mut d = Deck::new();
    d.shuffle();
    assert_eq!(d.len(), 48);
    let mut counts = [0usize; 13];
    for c in d.draw_n(48) {
        assert!(Deck::valid_card(c));
        counts[c as usize] += 1;
    }
    for r in 1..=12 {
        assert_eq!(counts[r], 4);
    }
}

#[test]
fn remove_cards_takes_every_copy() {
    let mut p = player("1", "Alice", vec![5, 2, 5, 9, 5], 0);
    let removed = p.remove_cards(5);
    assert_eq!(removed, vec![5, 5, 5]);
    assert_eq!(p.cards, vec![2, 9]);
    // No copies present: an empty result, not an error.
    let removed = p.remove_cards(7);
    assert_eq!(removed, Vec::<u8>::new());
    assert_eq!(p.cards, vec![2, 9]);
}

#[test]
fn add_cards_appends_and_has_cards_reports() {
    let mut p = player("1", "Alice", vec![], 0);
    assert!(!p.has_cards());
    p.add_cards(&[3, 4]);
    assert_eq!(p.cards, vec![3, 4]);
    assert!(p.has_cards());
}

#[test]
fn reduce_groups_scores_each_complete_rank() {
    let mut p = player("1", "Alice", vec![7, 3, 7, 7, 3, 7, 3, 3, 9], 1);
    let groups = p.reduce_groups();
    assert_eq!(groups, vec![3, 7]);
    assert_eq!(p.cards, vec![9]);
    assert_eq!(p.score, 3);
}

#[test]
fn reduce_groups_is_idempotent() {
    let mut p = player("1", "Alice", vec![7, 7, 7, 7, 3, 9], 0);
    let first = p.reduce_groups();
    assert_eq!(first, vec![7]);
    let hand = p.cards.clone();
    let score = p.score;
    let second = p.reduce_groups();
    assert_eq!(second, Vec::<u8>::new());
    assert_eq!(p.cards, hand);
    assert_eq!(p.score, score);
}

#[test]
fn reduce_groups_with_nothing_to_group_changes_nothing() {
    let mut p = player("1", "Alice", vec![1, 2, 3], 0);
    let groups = p.reduce_groups();
    assert_eq!(groups, Vec::<u8>::new());
    assert_eq!(p.cards, vec![1, 2, 3]);
    assert_eq!(p.score, 0);
}
