//! The fixed texts and message builders of the presentation layer, every
//! builder specified character for character.

use vstd::prelude::*;
use vstd::string::StringExecFns;

use crate::player::{Player, PlayerView};

verus! {

pub const GAME_STARTED: &'static str = "Game started, GO FISH! \u{1F9DC}\u{200D}\u{2640}\u{FE0F}";

pub const GAME_FINISHED: &'static str = "The game has finished!";

pub const NO_GAME_IN_PROGRESS: &'static str = "There is no game in progress";

pub const NO_GAME_CREATED: &'static str = "The game has not been created yet!";

pub const INVALID_QUESTION: &'static str =
    "Invalid question! Check if the option and the card provided are correct";

pub const INVALID_PLAYER: &'static str = "Sorry you can't ask you are not playing!";

pub const GAME_CREATED: &'static str = "Game created! Start joining and send start to start fishing";

pub const NOT_YOUR_TURN: &'static str = "Hey is not your turn! You can't ask!";

pub const ERROR_DRAWING: &'static str = "Error drawing :(";

pub const GAME_ALREADY_STARTED: &'static str = "The game has already started!";

pub const ALREADY_JOINED: &'static str = "You have already joined!";

pub const EMPTY_DECK: &'static str = "The deck is empty!!!";

pub const NO_PLAYERS: &'static str = "Nobody has joined the game yet!";

pub const UNKNOWN_ERROR: &'static str = "An error sending a message occurred!\n\nMake sure that all game participants have started the bot on their private chats to receive your cards!!";

/// The character for one decimal digit.
pub open spec fn digit_char(d: nat) -> char {
    if d == 0 {
        '0'
    } else if d == 1 {
        '1'
    } else if d == 2 {
        '2'
    } else if d == 3 {
        '3'
    } else if d == 4 {
        '4'
    } else if d == 5 {
        '5'
    } else if d == 6 {
        '6'
    } else if d == 7 {
        '7'
    } else if d == 8 {
        '8'
    } else {
        '9'
    }
}

/// The decimal writing of a number, most significant digit first.
pub open spec fn dec_str(n: nat) -> Seq<char>
    decreases n,
{
    if n < 10 {
        seq![digit_char(n)]
    } else {
        dec_str(n / 10).push(digit_char(n % 10))
    }
}

/// Appends one decimal digit.
fn push_digit(s: &mut String, d: u64)
    requires
        d < 10,
    ensures
        final(s)@ == old(s)@ + seq![digit_char(d as nat)],
{
    if d == 0 {
        s.append("0");
        proof {
            reveal_strlit("0");
            assert(final(s)@ =~= old(s)@ + seq![digit_char(d as nat)]);
        }
    } else if d == 1 {
        s.append("1");
        proof {
            reveal_strlit("1");
            assert(final(s)@ =~= old(s)@ + seq![digit_char(d as nat)]);
        }
    } else if d == 2 {
        s.append("2");
        proof {
            reveal_strlit("2");
            assert(final(s)@ =~= old(s)@ + seq![digit_char(d as nat)]);
        }
    } else if d == 3 {
        s.append("3");
        proof {
            reveal_strlit("3");
            assert(final(s)@ =~= old(s)@ + seq![digit_char(d as nat)]);
        }
    } else if d == 4 {
        s.append("4");
        proof {
            reveal_strlit("4");
            assert(final(s)@ =~= old(s)@ + seq![digit_char(d as nat)]);
        }
    } else if d == 5 {
        s.append("5");
        proof {
            reveal_strlit("5");
            assert(final(s)@ =~= old(s)@ + seq![digit_char(d as nat)]);
        }
    } else if d == 6 {
        s.append("6");
        proof {
            reveal_strlit("6");
            assert(final(s)@ =~= old(s)@ + seq![digit_char(d as nat)]);
        }
    } else if d == 7 {
        s.append("7");
        proof {
            reveal_strlit("7");
            assert(final(s)@ =~= old(s)@ + seq![digit_char(d as nat)]);
        }
    } else if d == 8 {
        s.append("8");
        proof {
            reveal_strlit("8");
            assert(final(s)@ =~= old(s)@ + seq![digit_char(d as nat)]);
        }
    } else {
        s.append("9");
        proof {
            reveal_strlit("9");
            assert(final(s)@ =~= old(s)@ + seq![digit_char(d as nat)]);
        }
    }
}

/// Appends the decimal writing of `n`.
fn push_number(s: &mut String, n: u64)
    ensures
        final(s)@ == old(s)@ + dec_str(n as nat),
    decreases n,
{
    if n >= 10 {
        push_number(s, n / 10);
        push_digit(s, n % 10);
        proof {
            assert(final(s)@ =~= old(s)@ + dec_str(n as nat));
        }
    } else {
        push_digit(s, n);
    }
}

/// A player had no copies of the asked card: time to draw.
pub fn no_cards(name: &str) -> (r: String)
    ensures
        r@ == name@ + " had no cards with that number, lets draw!"@,
{
    let mut s = String::new();
    s.append(name);
    s.append(" had no cards with that number, lets draw!");
    proof {
        assert(s@ =~= name@ + " had no cards with that number, lets draw!"@);
    }
    s
}

/// A player surrendered this many copies of the asked card.
pub fn had_n_cards(name: &str, quantity: u8, card: usize) -> (r: String)
    ensures
        r@ == name@ + " had "@ + dec_str(quantity as nat) + " cards with the number "@ + dec_str(
            card as nat,
        ) + ", keep asking!"@,
{
    let mut s = String::new();
    s.append(name);
    s.append(" had ");
    push_number(&mut s, quantity as u64);
    s.append(" cards with the number ");
    push_number(&mut s, card as u64);
    s.append(", keep asking!");
    proof {
        assert(s@ =~= name@ + " had "@ + dec_str(quantity as nat) + " cards with the number "@
            + dec_str(card as nat) + ", keep asking!"@);
    }
    s
}

/// A player completed a group of four.
pub fn made_group(name: &str, card: u8) -> (r: String)
    ensures
        r@ == name@ + " has made a group of four "@ + dec_str(card as nat),
{
    let mut s = String::new();
    s.append(name);
    s.append(" has made a group of four ");
    push_number(&mut s, card as u64);
    proof {
        assert(s@ =~= name@ + " has made a group of four "@ + dec_str(card as nat));
    }
    s
}

/// A player drew a card (which one stays private).
pub fn drawn_card(name: &str) -> (r: String)
    ensures
        r@ == name@ + " has drawn a card"@,
{
    let mut s = String::new();
    s.append(name);
    s.append(" has drawn a card");
    proof {
        assert(s@ =~= name@ + " has drawn a card"@);
    }
    s
}

/// A player drew exactly the card they had asked for.
pub fn drawn_expected_card(name: &str, card: u8) -> (r: String)
    ensures
        r@ == name@ + " has drawn a "@ + dec_str(card as nat) + "!! Keep asking!"@,
{
    let mut s = String::new();
    s.append(name);
    s.append(" has drawn a ");
    push_number(&mut s, card as u64);
    s.append("!! Keep asking!");
    proof {
        assert(s@ =~= name@ + " has drawn a "@ + dec_str(card as nat) + "!! Keep asking!"@);
    }
    s
}

/// One roster line of the game status: name, score and hand size.
pub open spec fn player_line(p: PlayerView) -> Seq<char> {
    p.name + " => Score: "@ + dec_str(p.score as nat) + ", Cards: "@ + dec_str(p.cards.len())
}

/// The roster lines joined by a newline and a tab.
pub open spec fn player_lines(ps: Seq<PlayerView>) -> Seq<char>
    decreases ps.len(),
{
    if ps.len() == 0 {
        Seq::empty()
    } else if ps.len() == 1 {
        player_line(ps[0])
    } else {
        player_lines(ps.drop_last()) + "\n\t"@ + player_line(ps.last())
    }
}

/// Appends one roster line.
fn push_player_line(s: &mut String, p: &Player)
    ensures
        final(s)@ == old(s)@ + player_line(p@),
{
    s.append(p.name.as_str());
    s.append(" => Score: ");
    push_number(s, p.score as u64);
    s.append(", Cards: ");
    let n = p.cards.len();
    push_number(s, n as u64);
    proof {
        assert(final(s)@ =~= old(s)@ + player_line(p@));
    }
}

/// The general game status: every player's score and hand size, and how
/// many cards the deck still holds.
pub fn game_status(players: &[Player], cards: usize) -> (r: String)
    ensures
        r@ == "GAME STATUS:\n\nPlayers info:\n\n"@ + player_lines(players.deep_view())
            + "\n\nDeck remaining cards: "@ + dec_str(cards as nat),
{
    let ghost ps = players.deep_view();
    let mut lines = String::new();
    let mut i: usize = 0;
    proof {
        assert(lines@ =~= player_lines(ps.take(0)));
    }
    while i < players.len()
        invariant
            i <= players.len(),
            ps == players.deep_view(),
            lines@ == player_lines(ps.take(i as int)),
        decreases players.len() - i,
    {
        if i > 0 {
            lines.append("\n\t");
        }
        push_player_line(&mut lines, &players[i]);
        proof {
            assert(ps.take(i + 1).drop_last() =~= ps.take(i as int));
            assert(ps.take(i + 1).last() == ps[i as int]);
            if i == 0 {
                assert(ps.take(1)[0] == ps[0]);
                assert(lines@ =~= player_lines(ps.take(1)));
            } else {
                assert(lines@ =~= player_lines(ps.take(i + 1)));
            }
        }
        i = i + 1;
    }
    proof {
        assert(ps.take(ps.len() as int) =~= ps);
    }
    let mut s = String::new();
    s.append("GAME STATUS:\n\nPlayers info:\n\n");
    s.append(lines.as_str());
    s.append("\n\nDeck remaining cards: ");
    push_number(&mut s, cards as u64);
    proof {
        assert(s@ =~= "GAME STATUS:\n\nPlayers info:\n\n"@ + player_lines(ps)
            + "\n\nDeck remaining cards: "@ + dec_str(cards as nat));
    }
    s
}

/// The numbered options a player can ask, one per roster position.
pub open spec fn option_lines(ps: Seq<PlayerView>) -> Seq<char>
    decreases ps.len(),
{
    if ps.len() == 0 {
        Seq::empty()
    } else if ps.len() == 1 {
        dec_str(0) + ") "@ + ps[0].name
    } else {
        option_lines(ps.drop_last()) + "\n"@ + dec_str((ps.len() - 1) as nat) + ") "@
            + ps.last().name
    }
}

/// The prompt to the player whose turn it is, with the numbered list of
/// players that can be asked.
pub fn ask_for_cards(from: &str, players: &[Player]) -> (r: String)
    ensures
        r@ == from@
            + " lets ask someone for a card\u{1F607}:\n\nType '/ask <option> <card> with one of the following options:\n\n"@
            + option_lines(players.deep_view()) + "'"@,
{
    let ghost ps = players.deep_view();
    let mut lines = String::new();
    let mut i: usize = 0;
    proof {
        assert(lines@ =~= option_lines(ps.take(0)));
    }
    while i < players.len()
        invariant
            i <= players.len(),
            ps == players.deep_view(),
            lines@ == option_lines(ps.take(i as int)),
        decreases players.len() - i,
    {
        if i > 0 {
            lines.append("\n");
        }
        push_number(&mut lines, i as u64);
        lines.append(") ");
        lines.append(players[i].name.as_str());
        proof {
            assert(ps.take(i + 1).drop_last() =~= ps.take(i as int));
            assert(ps.take(i + 1).last() == ps[i as int]);
            if i == 0 {
                assert(ps.take(1)[0] == ps[0]);
                assert(lines@ =~= option_lines(ps.take(1)));
            } else {
                assert(lines@ =~= option_lines(ps.take(i + 1)));
            }
        }
        i = i + 1;
    }
    proof {
        assert(ps.take(ps.len() as int) =~= ps);
    }
    let mut s = String::new();
    s.append(from);
    s.append(
        " lets ask someone for a card\u{1F607}:\n\nType '/ask <option> <card> with one of the following options:\n\n",
    );
    s.append(lines.as_str());
    s.append("'");
    proof {
        assert(s@ =~= from@
            + " lets ask someone for a card\u{1F607}:\n\nType '/ask <option> <card> with one of the following options:\n\n"@
            + option_lines(ps) + "'"@);
    }
    s
}

/// The cards of a hand as decimal numbers joined by a comma.
pub open spec fn number_list(s: Seq<u8>) -> Seq<char>
    decreases s.len(),
{
    if s.len() == 0 {
        Seq::empty()
    } else if s.len() == 1 {
        dec_str(s[0] as nat)
    } else {
        number_list(s.drop_last()) + ", "@ + dec_str(s.last() as nat)
    }
}

/// A private status report: the player's own cards and score.
pub fn player_status(player: &Player) -> (r: String)
    ensures
        r@ == "Hi "@ + player@.name + "! Here is your status \u{1F603}:\n\tCards: "@
            + number_list(player@.cards) + "\n\tscore: "@ + dec_str(player@.score as nat),
{
    let ghost cs = player.cards@;
    let mut list = String::new();
    let mut i: usize = 0;
    proof {
        assert(list@ =~= number_list(cs.take(0)));
    }
    while i < player.cards.len()
        invariant
            i <= player.cards.len(),
            cs == player.cards@,
            list@ == number_list(cs.take(i as int)),
        decreases player.cards.len() - i,
    {
        if i > 0 {
            list.append(", ");
        }
        push_number(&mut list, player.cards[i] as u64);
        proof {
            assert(cs.take(i + 1).drop_last() =~= cs.take(i as int));
            assert(cs.take(i + 1).last() == cs[i as int]);
            if i == 0 {
                assert(cs.take(1)[0] == cs[0]);
                assert(list@ =~= number_list(cs.take(1)));
            } else {
                assert(list@ =~= number_list(cs.take(i + 1)));
            }
        }
        i = i + 1;
    }
    proof {
        assert(cs.take(cs.len() as int) =~= cs);
    }
    let mut s = String::new();
    s.append("Hi ");
    s.append(player.name.as_str());
    s.append("! Here is your status \u{1F603}:\n\tCards: ");
    s.append(list.as_str());
    s.append("\n\tscore: ");
    push_number(&mut s, player.score as u64);
    proof {
        assert(s@ =~= "Hi "@ + player@.name + "! Here is your status \u{1F603}:\n\tCards: "@
            + number_list(player@.cards) + "\n\tscore: "@ + dec_str(player@.score as nat));
    }
    s
}

/// The winners' names joined by a comma.
pub open spec fn name_list(ns: Seq<Seq<char>>) -> Seq<char>
    decreases ns.len(),
{
    if ns.len() == 0 {
        Seq::empty()
    } else if ns.len() == 1 {
        ns[0]
    } else {
        name_list(ns.drop_last()) + ", "@ + ns.last()
    }
}

/// The end-of-round announcement: every winner and the winning score.
pub fn game_over(winners: &[String], score: u8) -> (r: String)
    ensures
        r@ == "Game Over!\n\tWinners \u{1F451}: "@ + name_list(winners.deep_view())
            + "\n\tScore: "@ + dec_str(score as nat),
{
    let ghost ns = winners.deep_view();
    let mut list = String::new();
    let mut i: usize = 0;
    proof {
        assert(list@ =~= name_list(ns.take(0)));
    }
    while i < winners.len()
        invariant
            i <= winners.len(),
            ns == winners.deep_view(),
            list@ == name_list(ns.take(i as int)),
        decreases winners.len() - i,
    {
        if i > 0 {
            list.append(", ");
        }
        list.append(winners[i].as_str());
        proof {
            assert(ns.take(i + 1).drop_last() =~= ns.take(i as int));
            assert(ns.take(i + 1).last() == ns[i as int]);
            if i == 0 {
                assert(ns.take(1)[0] == ns[0]);
                assert(list@ =~= name_list(ns.take(1)));
            } else {
                assert(list@ =~= name_list(ns.take(i + 1)));
            }
        }
        i = i + 1;
    }
    proof {
        assert(ns.take(ns.len() as int) =~= ns);
    }
    let mut s = String::new();
    s.append("Game Over!\n\tWinners \u{1F451}: ");
    s.append(list.as_str());
    s.append("\n\tScore: ");
    push_number(&mut s, score as u64);
    proof {
        assert(s@ =~= "Game Over!\n\tWinners \u{1F451}: "@ + name_list(ns) + "\n\tScore: "@
            + dec_str(score as nat));
    }
    s
}

} // verus!
