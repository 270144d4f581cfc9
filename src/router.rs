//! What the assistant does with an incoming chat message or command: the
//! decisions only; sending, relaying and storing are left to the caller.

use vstd::prelude::*;
use crate::grammar::{parse, parse_spec, GameResult};
use crate::leaderboard::{is_ranking, leaderboard, render_spec, scores_spec, Member, ScoreInformation};
use crate::text::{contains_exec, contains_text, replace_all, replace_exec, same_text};

verus! {

/// The commands that the assistant answers.
#[derive(Clone, Copy, Debug, PartialEq, Eq, Structural)]
pub enum Command {
    Averages,
    Advent,
}

pub open spec fn command_spec(name: Seq<char>) -> Option<Command> {
    if name == "averages"@ {
        Some(Command::Averages)
    } else if name == "advent"@ {
        Some(Command::Advent)
    } else {
        None
    }
}

/// The command registered under `name`, if any.
pub fn command_named(name: &str) -> (r: Option<Command>)
    ensures
        r == command_spec(name@),
{
    if same_text(name, "averages") {
        Some(Command::Averages)
    } else if same_text(name, "advent") {
        Some(Command::Advent)
    } else {
        None
    }
}

/// What to do with one chat message.
pub struct MessageActions {
    /// A reply to send to the message's channel.
    pub reply: Option<String>,
    /// A text to relay to the notification channel.
    pub relay: Option<String>,
    /// A game result to record for the author.
    pub result: Option<GameResult>,
}

pub open spec fn relay_marker() -> Seq<char> {
    "@everyone"@
}

/// The text relayed for a message: the message with each broadcast marker
/// written as a plain word, where the message holds one.
pub open spec fn relay_spec(content: Seq<char>) -> Option<Seq<char>> {
    if contains_text(content, relay_marker()) {
        Some(replace_all(content, relay_marker(), "everyone"@))
    } else {
        None
    }
}

pub open spec fn reply_spec(content: Seq<char>) -> Option<Seq<char>> {
    if content == "!hello"@ {
        Some("world!"@)
    } else {
        None
    }
}

pub open spec fn string_opt_view(o: Option<String>) -> Option<Seq<char>> {
    match o {
        Some(s) => Some(s@),
        None => None,
    }
}

/// Decides what to do with a chat message.
pub fn route_message(content: &str) -> (r: MessageActions)
    ensures
        string_opt_view(r.reply) == reply_spec(content@),
        string_opt_view(r.relay) == relay_spec(content@),
        r.result == parse_spec(content@),
{
    let reply = if same_text(content, "!hello") {
        Some(String::from_str("world!"))
    } else {
        None
    };
    let marker = "@everyone";
    proof {
        reveal_strlit("@everyone");
    }
    let relay = if contains_exec(content, marker) {
        Some(replace_exec(content, marker, "everyone"))
    } else {
        None
    };
    MessageActions { reply, relay, result: parse(content) }
}

/// The notice sent back to the channel after relaying.
pub fn relay_notice(delivered: bool) -> (r: &'static str)
    ensures
        r@ == if delivered {
            "Sent email"@
        } else {
            "Failed to send email"@
        },
{
    if delivered {
        "Sent email"
    } else {
        "Failed to send email"
    }
}

/// The answer to the leaderboard command: the rendered ranking of the
/// snapshot, or a failure notice where none could be had.
pub fn advent_reply(snapshot: Option<&Vec<Member>>) -> (r: String)
    ensures
        snapshot is None ==> r@ == "Encountered an error fetching the data"@,
        snapshot matches Some(m) ==> exists|ranked: Seq<ScoreInformation>|
            is_ranking(scores_spec(m@), ranked) && r@ == render_spec(ranked),
{
    match snapshot {
        None => String::from_str("Encountered an error fetching the data"),
        Some(m) => leaderboard(m),
    }
}

} // verus!
