//! The structured rule violations an action can report. Every one of them
//! is an expected, recoverable outcome of a single action: it is returned
//! to the caller and never aborts a session.

use vstd::prelude::*;

verus! {

/// Why an action was refused. Each variant carries what the caller needs
/// to render the refusal.
#[derive(Debug, Clone)]
pub enum ActionError {
    /// The target index or the card is invalid, or the asker does not hold
    /// the card: `InvalidQuestion(target, card)`.
    InvalidQuestion(usize, u8),
    /// The action references an identity that is not in the roster.
    InvalidPlayerId(String),
    /// The identity is in the roster but it is not that player's turn to ask.
    CannotAsk(String),
    /// The identity is in the roster but it is not that player's turn to draw.
    CannotDraw(String),
    /// Start with an empty roster: there is nobody to deal to, and the
    /// turn index of a running game must always name a real player.
    CannotStart,
    /// Join or Start after the waiting phase has ended.
    GameAlreadyStarted,
    /// A second Join with an identity already in the roster; carries the
    /// display name under which that identity first joined.
    PlayerAlreadyJoined(String),
}

} // verus!
