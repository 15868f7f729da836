use gofish::player::Player;
use gofish::templates::{
    ask_for_cards, drawn_card, drawn_expected_card, game_over, game_status, had_n_cards,
    made_group, no_cards, player_status,
};

fn player(name: &str, cards: Vec<u8>, score: u8) -> Player {
    Player { id: name.to_owned(), name: name.to_owned(), cards, score }
}

#[test]
fn no_cards_message() {
    assert_eq!(
        no_cards("Bob"),
        "Bob had no cards with that number, lets draw!"
    );
}

#[test]
fn had_n_cards_message() {
    assert_eq!(
        had_n_cards("Bob", 3, 12),
        "Bob had 3 cards with the number 12, keep asking!"
    );
}

#[test]
fn made_group_message() {
    assert_eq!(made_group("Alice", 7), "Alice has made a group of four 7");
}

#[test]
fn drawn_card_message() {
    assert_eq!(drawn_card("Alice"), "Alice has drawn a card");
}

#[test]
fn drawn_expected_card_message() {
    assert_eq!(drawn_expected_card("Alice", 10), "Alice has drawn a 10!! Keep asking!");
}

#[test]
fn game_status_message() {
    let players = vec![player("Alice", vec![1, 2, 3], 2), player("Bob", vec![4], 0)];
    assert_eq!(
        game_status(&players, 41),
        "GAME STATUS:\n\nPlayers info:\n\nAlice => Score: 2, Cards: 3\n\tBob => Score: 0, Cards: 1\n\nDeck remaining cards: 41"
    );
}

#[test]
fn game_status_with_no_players() {
    let players: Vec<Player> = vec![];
    assert_eq!(
        game_status(&players, 48),
        "GAME STATUS:\n\nPlayers info:\n\n\n\nDeck remaining cards: 48"
    );
}

#[test]
fn ask_for_cards_message() {
    let players = vec![player("Alice", vec![], 0), player("Bob", vec![], 0)];
    assert_eq!(
        ask_for_cards("Alice", &players),
        "Alice lets ask someone for a card\u{1F607}:\n\nType '/ask <option> <card> with one of the following options:\n\n0) Alice\n1) Bob'"
    );
}

#[test]
fn player_status_message() {
    let p = player("Alice", vec![11, 2, 7], 5);
    assert_eq!(
        player_status(&p),
        "Hi Alice! Here is your status \u{1F603}:\n\tCards: 11, 2, 7\n\tscore: 5"
    );
}

#[test]
fn game_over_message() {
    let winners = vec!["Alice".to_owned(), "Bob".to_owned()];
    assert_eq!(
        game_over(&winners, 6),
        "Game Over!\n\tWinners \u{1F451}: Alice, Bob\n\tScore: 6"
    );
}

#[test]
fn numbers_render_in_full() {
    assert_eq!(had_n_cards("X", 0, 10), "X had 0 cards with the number 10, keep asking!");
    assert_eq!(had_n_cards("X", 255, 1), "X had 255 cards with the number 1, keep asking!");
}
