//! The per-session actor and the registry's decisions, as pure logic.
//!
//! One session owns one [`Game`] and consumes a strictly ordered stream of
//! commands; everything it decides — which game action a command maps to,
//! the immediate follow-up draw after a "go fish", which message a rule
//! violation produces, and when the registry creates or removes a session
//! — is verified here. The surrounding runtime (mailboxes, tasks, the
//! shared session map, transport) only carries these decisions out.

use vstd::prelude::*;

use crate::errors::ActionError;
use crate::game::{
    ask_result, draw_outcome, find_player, join_outcome, start_outcome, Action, Game, GameView,
    StateView, TurnEvent,
};
use crate::game::{ask_outcome, valid_question};
use crate::templates;

verus! {

/// A user-level command, as the chat front end parses it.
#[derive(Debug, Clone)]
pub enum Command {
    /// Create a new session for this chat.
    NewGame,
    /// Join the current game.
    Join,
    /// Start the game.
    Start,
    /// End the session.
    EndGame,
    /// Ask the player at an index for a card: `Ask { to, card }`.
    Ask { to: usize, card: usize },
    /// Show the general game status.
    Status,
    /// Send the caller their own status.
    MyStatus,
    /// Show the command summary.
    Help,
}

/// A command addressed to one game session.
#[derive(Debug, Clone)]
pub enum GameCommand {
    Start,
    Join,
    Status,
    /// `Ask(target index, card)`.
    Ask(usize, usize),
}

impl GameCommand {
    /// The game-session command a user command stands for, if any; the
    /// commands the registry itself answers map to nothing.
    pub fn of_command(cmd: &Command) -> (r: Option<GameCommand>)
        ensures
            match cmd {
                Command::Join => r == Some(GameCommand::Join),
                Command::Start => r == Some(GameCommand::Start),
                Command::Ask { to, card } => r matches Some(GameCommand::Ask(t, c)) && t == to
                    && c == card,
                Command::Status => r == Some(GameCommand::Status),
                _ => r is None,
            },
    {
        match cmd {
            Command::Join => Some(GameCommand::Join),
            Command::Start => Some(GameCommand::Start),
            Command::Ask { to, card } => Some(GameCommand::Ask(*to, *card)),
            Command::Status => Some(GameCommand::Status),
            _ => None,
        }
    }
}

/// The stable message each rule violation maps to; a violation is a
/// normal, fully recovered-from outcome and never ends the session.
pub fn error_message(err: &ActionError) -> (r: &'static str)
    ensures
        match err {
            ActionError::InvalidQuestion(_, _) => r@ == templates::INVALID_QUESTION@,
            ActionError::InvalidPlayerId(_) => r@ == templates::INVALID_PLAYER@,
            ActionError::CannotAsk(_) => r@ == templates::NOT_YOUR_TURN@,
            ActionError::CannotDraw(_) => r@ == templates::ERROR_DRAWING@,
            ActionError::CannotStart => r@ == templates::NO_PLAYERS@,
            ActionError::GameAlreadyStarted => r@ == templates::GAME_ALREADY_STARTED@,
            ActionError::PlayerAlreadyJoined(_) => r@ == templates::ALREADY_JOINED@,
        },
{
    match err {
        ActionError::InvalidQuestion(_, _) => templates::INVALID_QUESTION,
        ActionError::InvalidPlayerId(_) => templates::INVALID_PLAYER,
        ActionError::CannotAsk(_) => templates::NOT_YOUR_TURN,
        ActionError::CannotDraw(_) => templates::ERROR_DRAWING,
        ActionError::CannotStart => templates::NO_PLAYERS,
        ActionError::GameAlreadyStarted => templates::GAME_ALREADY_STARTED,
        ActionError::PlayerAlreadyJoined(_) => templates::ALREADY_JOINED,
    }
}

/// The rank a user-typed card number plays as: values beyond a byte
/// saturate at 255 instead of wrapping, so a card outside the playable
/// domain `1..=12` can never come back inside it — the game then refuses
/// the question, exactly as it refuses 0 or 13.
pub open spec fn spec_card_of(card: usize) -> u8 {
    if card > 255 {
        255u8
    } else {
        card as u8
    }
}

/// The saturating conversion itself.
pub fn card_of(card: usize) -> (r: u8)
    ensures
        r == spec_card_of(card),
{
    if card > 255 {
        255u8
    } else {
        card as u8
    }
}

/// What one session answers to an Ask command: the ask itself and, when
/// the ask took nothing and sent the asker drawing, the immediate draw
/// for the same card, with the two event lists joined.
pub open spec fn ask_then_draw(
    gv: GameView,
    gv2: GameView,
    es: Seq<TurnEvent>,
    id: Seq<char>,
    to: int,
    card: u8,
) -> bool {
    let idx = find_player(gv.players, id);
    &&& idx >= 0
    &&& gv.state == StateView::Asking(idx)
    &&& valid_question(gv.players, idx, to, card)
    &&& exists|gmid: GameView, es1: Seq<TurnEvent>|
        {
            &&& #[trigger] ask_outcome(gv, gmid, es1, idx, to, card)
            &&& if gmid.state is Drawing {
                exists|es2: Seq<TurnEvent>|
                    {
                        &&& #[trigger] draw_outcome(gmid, gv2, es2, idx, card)
                        &&& es == es1 + es2
                    }
            } else {
                &&& gv2 == gmid
                &&& es == es1
            }
        }
}

/// One live session: the single owner of its game. Commands are applied
/// one at a time, which is what gives the game its single-writer
/// guarantee.
pub struct GameActor {
    pub game: Game,
}

impl GameActor {
    /// A session around a fresh game.
    pub fn new() -> (a: GameActor)
        ensures
            a.game@.state is Waiting,
            a.game@.players.len() == 0,
            a.game@.wf(),
    {
        GameActor { game: Game::new() }
    }

    /// Whether the game is finished, answered from the current state
    /// alone, with no mutation.
    pub fn is_over(&self) -> (b: bool)
        ensures
            b == (self.game@.state is GameOver),
    {
        match self.game.state {
            crate::game::GameState::GameOver(_) => true,
            _ => false,
        }
    }

    /// Applies one session command for the given caller and collects the
    /// resulting events. An Ask that takes nothing is followed at once by
    /// the draw it forces; a Status command reads state and changes
    /// nothing.
    pub fn handle_command(
        &mut self,
        cmd: &GameCommand,
        caller_id: &str,
        caller_name: &str,
    ) -> (r: Result<Vec<TurnEvent>, ActionError>)
        requires
            old(self).game@.wf(),
        ensures
            final(self).game@.wf(),
            match cmd {
                GameCommand::Join => join_outcome(
                    old(self).game@,
                    caller_id@,
                    caller_name@,
                    final(self).game@,
                    r,
                ),
                GameCommand::Start => start_outcome(old(self).game@, final(self).game@, r),
                GameCommand::Status => r matches Ok(es) && es@ == Seq::<TurnEvent>::empty()
                    && final(self).game@ == old(self).game@,
                GameCommand::Ask(to, card) => match r {
                    Ok(es) => ask_then_draw(
                        old(self).game@,
                        final(self).game@,
                        es@,
                        caller_id@,
                        *to as int,
                        spec_card_of(*card),
                    ),
                    Err(e) => ask_result(
                        old(self).game@,
                        caller_id@,
                        *to as int,
                        spec_card_of(*card),
                        final(self).game@,
                        Err(e),
                    ),
                },
            },
    {
        match cmd {
            GameCommand::Join => self.game.execute(
                Action::Join(caller_id.to_owned(), caller_name.to_owned()),
            ),
            GameCommand::Start => self.game.execute(Action::Start),
            GameCommand::Status => Ok(Vec::new()),
            GameCommand::Ask(to, card) => self.ask(caller_id, *to, *card),
        }
    }

    /// The ask, followed at once by the draw it forces when nothing was
    /// taken.
    fn ask(&mut self, caller_id: &str, to: usize, card: usize) -> (r: Result<
        Vec<TurnEvent>,
        ActionError,
    >)
        requires
            old(self).game@.wf(),
        ensures
            final(self).game@.wf(),
            match r {
                Ok(es) => ask_then_draw(
                    old(self).game@,
                    final(self).game@,
                    es@,
                    caller_id@,
                    to as int,
                    spec_card_of(card),
                ),
                Err(e) => ask_result(
                    old(self).game@,
                    caller_id@,
                    to as int,
                    spec_card_of(card),
                    final(self).game@,
                    Err(e),
                ),
            },
    {
        let ghost gv = self.game@;
        let card8 = card_of(card);
        let mut events = match self.game.ask_to(caller_id.to_owned(), to, card8) {
            Ok(events) => events,
            Err(e) => {
                return Err(e);
            },
        };
        let ghost gmid = self.game@;
        let ghost es1 = events@;
        let ghost idx = find_player(gv.players, caller_id@);
        let is_drawing = matches!(self.game.state, crate::game::GameState::Drawing(_));
        if is_drawing {
            proof {
                lemma_find_unchanged(gv, gmid, caller_id@, idx, to as int, card8, es1);
            }
            let drawn = match self.game.draw_card(caller_id.to_owned(), card8) {
                Ok(drawn) => drawn,
                Err(e) => {
                    proof {
                        assert(false);
                    }
                    return Err(e);
                },
            };
            let mut di: usize = 0;
            let ghost es2 = drawn@;
            proof {
                assert(events@ =~= es1 + es2.take(0));
            }
            while di < drawn.len()
                invariant
                    di <= drawn.len(),
                    drawn@ == es2,
                    events@ == es1 + es2.take(di as int),
                decreases drawn.len() - di,
            {
                events.push(drawn[di]);
                proof {
                    assert(es2.take(di + 1) =~= es2.take(di as int).push(es2[di as int]));
                    assert(events@ =~= es1 + es2.take(di + 1));
                }
                di = di + 1;
            }
            proof {
                assert(es2.take(es2.len() as int) =~= es2);
                assert(ask_outcome(gv, gmid, es1, idx, to as int, card8));
                assert(draw_outcome(gmid, self.game@, es2, idx, card8) && events@ == es1 + es2);
                assert(ask_then_draw(gv, self.game@, events@, caller_id@, to as int, card8));
            }
            Ok(events)
        } else {
            proof {
                assert(ask_outcome(gv, gmid, es1, idx, to as int, card8));
                assert(!(gmid.state is Drawing));
                assert(ask_then_draw(gv, self.game@, events@, caller_id@, to as int, card8));
            }
            Ok(events)
        }
    }
}

/// Why the ask's follow-up draw can never be refused: a "go fish" leaves
/// the same caller at the same position, now drawing.
proof fn lemma_find_unchanged(
    gv: GameView,
    gmid: GameView,
    id: Seq<char>,
    idx: int,
    to: int,
    card: u8,
    es1: Seq<TurnEvent>,
)
    requires
        idx == find_player(gv.players, id),
        idx >= 0,
        gv.state == StateView::Asking(idx),
        ask_outcome(gv, gmid, es1, idx, to, card),
        gmid.state is Drawing,
    ensures
        find_player(gmid.players, id) == idx,
        gmid.state == StateView::Drawing(idx),
{
    assert(gmid.players == gv.players);
}

/// What the registry decides for one inbound command, given whether the
/// session key is currently live.
#[derive(Debug, Clone, PartialEq)]
pub enum RegistryDecision {
    /// Answer with the command summary; no session involved.
    ShowHelp,
    /// Create the session if absent — a second request is a no-op — and
    /// confirm creation either way.
    CreateSession,
    /// Remove the session and confirm; report that none was in progress
    /// if the key was not live.
    EndSession,
    /// Report that no session exists for this key.
    RejectNoSession,
    /// Forward to the session's mailbox; afterwards query its liveness
    /// and remove the entry if the game is over.
    Forward,
}

/// Routes one user command: session lifecycle is decided here and nowhere
/// else; everything else is forwarded to the live session.
pub fn route_command(cmd: &Command, session_exists: bool) -> (d: RegistryDecision)
    ensures
        d == spec_route(*cmd, session_exists),
{
    match cmd {
        Command::Help => RegistryDecision::ShowHelp,
        Command::NewGame => RegistryDecision::CreateSession,
        Command::EndGame => RegistryDecision::EndSession,
        _ => if session_exists {
            RegistryDecision::Forward
        } else {
            RegistryDecision::RejectNoSession
        },
    }
}

/// The routing rule itself.
pub open spec fn spec_route(cmd: Command, session_exists: bool) -> RegistryDecision {
    match cmd {
        Command::Help => RegistryDecision::ShowHelp,
        Command::NewGame => RegistryDecision::CreateSession,
        Command::EndGame => RegistryDecision::EndSession,
        _ => if session_exists {
            RegistryDecision::Forward
        } else {
            RegistryDecision::RejectNoSession
        },
    }
}

} // verus!
