use progle_bot::grammar::{GameResult, Mode};
use progle_bot::leaderboard::Member;
use progle_bot::router::{advent_reply, command_named, relay_notice, route_message, Command};

#[test]
fn hello_gets_world() {
    let a = route_message("!hello");
    assert_eq!(a.reply.as_deref(), Some("world!"));
    assert_eq!(a.relay, None);
    assert_eq!(a.result, None);
    assert_eq!(route_message("!hello there").reply, None);
}

#[test]
fn broadcast_marker_is_relayed_as_word() {
    let a = route_message("@everyone meet at @everyone's place @every");
    assert_eq!(a.relay.as_deref(), Some("everyone meet at everyone's place @every"));
    assert_eq!(route_message("nothing to see").relay, None);
    assert_eq!(route_message("@@everyone").relay.as_deref(), Some("@everyone"));
}

#[test]
fn announcement_yields_result() {
    let a = route_message("Found #progle language in 2 attempts! 💥 Try and beat me 💥\nGuess today's code snippet!");
    assert_eq!(a.result, Some(GameResult { mode: Mode::Code, attempts: 2 }));
    assert_eq!(a.reply, None);
}

#[test]
fn commands_by_name() {
    assert_eq!(command_named("averages"), Some(Command::Averages));
    assert_eq!(command_named("advent"), Some(Command::Advent));
    assert_eq!(command_named("adventure"), None);
    assert_eq!(command_named(""), None);
}

#[test]
fn relay_notices() {
    assert_eq!(relay_notice(true), "Sent email");
    assert_eq!(relay_notice(false), "Failed to send email");
}

#[test]
fn advent_reply_cases() {
    assert_eq!(advent_reply(None), "Encountered an error fetching the data");
    let members = vec![Member { name: "q".to_string(), local_score: Some(3), stars: Some(4), days: 0 }];
    assert_eq!(
        advent_reply(Some(&members)),
        format!("1. q who has score 3 and 4 stars\n{}", "🟥".repeat(15))
    );
}
