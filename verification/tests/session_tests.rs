use gofish::deck::Deck;
use gofish::errors::ActionError;
use gofish::game::{Game, GameState, TurnEvent};
use gofish::player::Player;
use gofish::session::{error_message, route_command, Command, GameActor, GameCommand, RegistryDecision};
use gofish::templates;

fn actor_with(alice_cards: Vec<u8>, bob_cards: Vec<u8>, deck: Vec<u8>) -> GameActor {
    GameActor {
        game: Game {
            deck: Deck::from_cards(deck),
            state: GameState::Asking(0),
            players: vec![
                Player { id: "1".to_owned(), name: "Alice".to_owned(), cards: alice_cards, score: 0 },
                Player { id: "2".to_owned(), name: "Bob".to_owned(), cards: bob_cards, score: 0 },
            ],
        },
    }
}

#[test]
fn command_mapping() {
    assert!(matches!(GameCommand::of_command(&Command::Join), Some(GameCommand::Join)));
    assert!(matches!(GameCommand::of_command(&Command::Start), Some(GameCommand::Start)));
    assert!(matches!(GameCommand::of_command(&Command::Status), Some(GameCommand::Status)));
    assert!(matches!(
        GameCommand::of_command(&Command::Ask { to: 1, card: 5 }),
        Some(GameCommand::Ask(1, 5))
    ));
    assert!(GameCommand::of_command(&Command::NewGame).is_none());
    assert!(GameCommand::of_command(&Command::EndGame).is_none());
    assert!(GameCommand::of_command(&Command::Help).is_none());
    assert!(GameCommand::of_command(&Command::MyStatus).is_none());
}

#[test]
fn routing_decides_session_lifecycle() {
    assert_eq!(route_command(&Command::Help, false), RegistryDecision::ShowHelp);
    assert_eq!(route_command(&Command::Help, true), RegistryDecision::ShowHelp);
    assert_eq!(route_command(&Command::NewGame, false), RegistryDecision::CreateSession);
    assert_eq!(route_command(&Command::NewGame, true), RegistryDecision::CreateSession);
    assert_eq!(route_command(&Command::EndGame, true), RegistryDecision::EndSession);
    assert_eq!(route_command(&Command::EndGame, false), RegistryDecision::EndSession);
    assert_eq!(route_command(&Command::Join, true), RegistryDecision::Forward);
    assert_eq!(route_command(&Command::Join, false), RegistryDecision::RejectNoSession);
    assert_eq!(
        route_command(&Command::Ask { to: 0, card: 3 }, true),
        RegistryDecision::Forward
    );
    assert_eq!(route_command(&Command::Status, false), RegistryDecision::RejectNoSession);
}

#[test]
fn every_error_has_a_stable_message() {
    assert_eq!(
        error_message(&ActionError::InvalidQuestion(1, 5)),
        templates::INVALID_QUESTION
    );
    assert_eq!(
        error_message(&ActionError::InvalidPlayerId("x".to_owned())),
        templates::INVALID_PLAYER
    );
    assert_eq!(
        error_message(&ActionError::CannotAsk("x".to_owned())),
        templates::NOT_YOUR_TURN
    );
    assert_eq!(
        error_message(&ActionError::CannotDraw("x".to_owned())),
        templates::ERROR_DRAWING
    );
    assert_eq!(
        error_message(&ActionError::GameAlreadyStarted),
        templates::GAME_ALREADY_STARTED
    );
    assert_eq!(
        error_message(&ActionError::PlayerAlreadyJoined("x".to_owned())),
        templates::ALREADY_JOINED
    );
}

#[test]
fn a_fresh_session_plays_a_round() {
    let mut actor = GameActor::new();
    assert!(!actor.is_over());
    actor.handle_command(&GameCommand::Join, "1", "Alice").unwrap();
    actor.handle_command(&GameCommand::Join, "2", "Bob").unwrap();
    let events = actor.handle_command(&GameCommand::Start, "1", "Alice").unwrap();
    assert_eq!(events, vec![TurnEvent::Started]);
    let status = actor.handle_command(&GameCommand::Status, "1", "Alice").unwrap();
    assert!(status.is_empty());
    assert!(!actor.is_over());
}

#[test]
fn a_session_command_failure_is_recoverable() {
    let mut actor = GameActor::new();
    actor.handle_command(&GameCommand::Join, "1", "Alice").unwrap();
    let r = actor.handle_command(&GameCommand::Join, "1", "Alice");
    assert!(matches!(r, Err(ActionError::PlayerAlreadyJoined(_))));
    // The session is still usable afterwards.
    actor.handle_command(&GameCommand::Join, "2", "Bob").unwrap();
    actor.handle_command(&GameCommand::Start, "1", "Alice").unwrap();
}

#[test]
fn go_fish_ask_draws_at_once() {
    // Alice asks for a 5 that Bob lacks; the deck then yields a 9, so the
    // one command reports the ask and the forced draw together.
    let mut actor = actor_with(vec![5, 7], vec![8, 9], vec![1, 2, 9]);
    let events = actor.handle_command(&GameCommand::Ask(1, 5), "1", "Alice").unwrap();
    assert_eq!(
        events,
        vec![TurnEvent::Took(0), TurnEvent::Drawn(9)]
    );
    assert_eq!(actor.game.state, GameState::Asking(1));
    assert_eq!(actor.game.players[0].cards, vec![5, 7, 9]);
}

#[test]
fn successful_ask_does_not_draw() {
    let mut actor = actor_with(vec![5, 7], vec![5, 9], vec![1, 2, 3]);
    let events = actor.handle_command(&GameCommand::Ask(1, 5), "1", "Alice").unwrap();
    assert_eq!(events, vec![TurnEvent::Took(1)]);
    assert_eq!(actor.game.state, GameState::Asking(0));
    assert_eq!(actor.game.deck.len(), 3);
}

#[test]
fn an_oversized_card_number_cannot_wrap_into_a_valid_rank() {
    // 261 wraps to rank 5 under a byte truncation; the saturating
    // conversion keeps it out of the playable domain, so the question is
    // refused even though Alice holds a 5.
    let mut actor = actor_with(vec![5, 7], vec![5, 9], vec![1, 2]);
    let r = actor.handle_command(&GameCommand::Ask(1, 261), "1", "Alice");
    assert!(matches!(r, Err(ActionError::InvalidQuestion(1, 255))));
    assert_eq!(actor.game.state, GameState::Asking(0));
    assert_eq!(actor.game.players[0].cards, vec![5, 7]);
    assert_eq!(actor.game.players[1].cards, vec![5, 9]);
}

#[test]
fn starting_an_empty_session_is_refused_with_its_own_message() {
    let mut actor = GameActor::new();
    let r = actor.handle_command(&GameCommand::Start, "1", "Alice");
    match r {
        Err(ActionError::CannotStart) => {
            assert_eq!(error_message(&ActionError::CannotStart), templates::NO_PLAYERS);
        },
        other => panic!("expected CannotStart, got {:?}", other),
    }
    assert!(!actor.is_over());
}

#[test]
fn an_ask_error_reaches_the_caller_unchanged() {
    let mut actor = actor_with(vec![5, 7], vec![8, 9], vec![1, 2]);
    let r = actor.handle_command(&GameCommand::Ask(1, 8), "1", "Alice");
    assert!(matches!(r, Err(ActionError::InvalidQuestion(1, 8))));
    assert_eq!(actor.game.state, GameState::Asking(0));
    assert_eq!(actor.game.players[0].cards, vec![5, 7]);
}

#[test]
fn session_reports_game_over() {
    let mut actor = actor_with(vec![5], vec![5, 9], vec![1, 2]);
    // Alice takes Bob's 5: her hand ends with two 5s, Bob keeps his 9,
    // nobody's hand is empty and the round goes on.
    let events = actor.handle_command(&GameCommand::Ask(1, 5), "1", "Alice").unwrap();
    assert_eq!(events, vec![TurnEvent::Took(1)]);
    assert!(!actor.is_over());
    // Now let Alice ask for Bob's last card: his hand empties.
    actor.game.players[1].cards = vec![9];
    actor.game.players[0].cards = vec![9];
    let events = actor.handle_command(&GameCommand::Ask(1, 9), "1", "Alice").unwrap();
    assert_eq!(events, vec![TurnEvent::Took(1)]);
    assert!(actor.is_over());
    assert!(matches!(actor.game.state, GameState::GameOver(_)));
}
