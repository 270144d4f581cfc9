use progle_bot::grammar::{parse, GameResult, Mode};

const PLURAL: &str = " attempts! 💥 Try and beat me 💥\n";
const SINGULAR: &str = " attempt! 💥 Try and beat me 💥\n";

fn line(digits: &str, suffix: &str, tail: &str) -> String {
    format!("Found #progle language in {}{}{}", digits, suffix, tail)
}

#[test]
fn plural_suffix_with_one_still_parses() {
    let r = parse("Found #progle language in 1 attempts! 💥 Try and beat me 💥\n");
    assert_eq!(r, Some(GameResult { mode: Mode::Classic, attempts: 1 }));
}

#[test]
fn singular_suffix_with_any_number_parses() {
    assert_eq!(
        parse(&line("4", SINGULAR, "")),
        Some(GameResult { mode: Mode::Classic, attempts: 4 })
    );
    assert_eq!(
        parse(&line("1", SINGULAR, "")),
        Some(GameResult { mode: Mode::Classic, attempts: 1 })
    );
}

#[test]
fn code_marker_sets_code_mode() {
    let r = parse(&line("3", PLURAL, "Guess today's code snippet!\nhttps://example.org"));
    assert_eq!(r, Some(GameResult { mode: Mode::Code, attempts: 3 }));
}

#[test]
fn marker_must_follow_immediately() {
    let r = parse(&line("3", PLURAL, " Guess today's code snippet!"));
    assert_eq!(r, Some(GameResult { mode: Mode::Classic, attempts: 3 }));
}

#[test]
fn trailing_text_is_ignored() {
    let r = parse(&line("12", PLURAL, "anything at all\nmore lines"));
    assert_eq!(r, Some(GameResult { mode: Mode::Classic, attempts: 12 }));
}

#[test]
fn leading_zeros_are_read() {
    assert_eq!(
        parse(&line("007", PLURAL, "")),
        Some(GameResult { mode: Mode::Classic, attempts: 7 })
    );
}

#[test]
fn largest_count_is_read() {
    assert_eq!(
        parse(&line("65535", PLURAL, "")),
        Some(GameResult { mode: Mode::Classic, attempts: 65535 })
    );
}

#[test]
fn huge_counts_are_read_and_saturate() {
    assert_eq!(
        parse("Found #progle language in 70000 attempts! 💥 Try and beat me 💥\n"),
        Some(GameResult { mode: Mode::Classic, attempts: 65535 })
    );
    assert_eq!(
        parse(&line("65536", SINGULAR, "")),
        Some(GameResult { mode: Mode::Classic, attempts: 65535 })
    );
    assert_eq!(
        parse(&line("99999999999999999999999", PLURAL, "Guess today's code snippet!")),
        Some(GameResult { mode: Mode::Code, attempts: 65535 })
    );
    assert_eq!(
        parse(&line("0000000000000000000000012", PLURAL, "")),
        Some(GameResult { mode: Mode::Classic, attempts: 12 })
    );
}

#[test]
fn missing_digits_is_no_result() {
    assert_eq!(parse(&line("", PLURAL, "")), None);
}

#[test]
fn other_suffix_is_no_result() {
    assert_eq!(parse(&line("3", " attempts!\n", "")), None);
    assert_eq!(parse(&line("3", " tries! 💥 Try and beat me 💥\n", "")), None);
    assert_eq!(parse("Found #progle language in 3"), None);
}

#[test]
fn prefix_must_open_the_line() {
    assert_eq!(parse(&format!("hey {}", line("3", PLURAL, ""))), None);
    assert_eq!(parse(""), None);
    assert_eq!(parse("hello there"), None);
}
