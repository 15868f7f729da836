//! A verified "Go Fish" card game core: a deck of rank tokens, per-player
//! hands and scores, a deterministic state machine that sequences the game
//! actions, and the pure decision logic of the per-session actor wrapper.

pub mod deck;
pub mod errors;
pub mod game;
pub mod player;
pub mod ranks;
pub mod session;
pub mod templates;

pub use deck::Deck;
pub use errors::ActionError;
pub use game::{Action, Game, GameResults, GameState, TurnEvent};
pub use player::Player;
pub use session::{Command, GameActor, GameCommand};
