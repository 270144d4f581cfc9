use progle_bot::averages::{averages_intro, averages_sentence, mode_totals};
use progle_bot::facts::{Attempt, FactStore};
use progle_bot::grammar::{GameResult, Mode};

fn average(sum: u128, count: usize) -> Option<String> {
    if count == 0 {
        None
    } else {
        Some((sum as f64 / count as f64).to_string())
    }
}

#[test]
fn classic_only_average() {
    let mut store = FactStore::new();
    store.record(Some(1), 5, GameResult { mode: Mode::Classic, attempts: 3 }, 739000);
    store.record(Some(1), 5, GameResult { mode: Mode::Classic, attempts: 5 }, 739001);
    let t = mode_totals(store.attempts(), 5);
    assert_eq!((t.classic_sum, t.classic_count, t.code_sum, t.code_count), (8, 2, 0, 0));
    let classic = average(t.classic_sum, t.classic_count);
    let code = average(t.code_sum, t.code_count);
    assert_eq!(classic.as_deref(), Some("4"));
    let (intro, neg) = averages_intro(None);
    let s = averages_sentence(&intro, &neg, classic.as_deref(), code.as_deref());
    assert_eq!(s, "you have an average of 4 of classic");
}

#[test]
fn totals_ignore_other_players() {
    let rows = vec![
        Attempt { user_id: 1, day: 10, mode: Mode::Code, attempts: 2 },
        Attempt { user_id: 2, day: 10, mode: Mode::Code, attempts: 9 },
        Attempt { user_id: 1, day: 11, mode: Mode::Code, attempts: 3 },
        Attempt { user_id: 1, day: 11, mode: Mode::Classic, attempts: 6 },
    ];
    let t = mode_totals(&rows, 1);
    assert_eq!((t.classic_sum, t.classic_count, t.code_sum, t.code_count), (6, 1, 5, 2));
    let none = mode_totals(&rows, 3);
    assert_eq!((none.classic_count, none.code_count), (0, 0));
}

#[test]
fn sentence_for_each_case() {
    assert_eq!(
        averages_sentence("you have", "you haven't", Some("4"), Some("2.5")),
        "you have an average of 4 of classic and 2.5 for code"
    );
    assert_eq!(
        averages_sentence("you have", "you haven't", None, Some("2.5")),
        "you have an average of 2.5 of codemode"
    );
    assert_eq!(
        averages_sentence("you have", "you haven't", None, None),
        "you haven't sent any progle scores yet"
    );
}

#[test]
fn intro_for_named_player() {
    let (intro, neg) = averages_intro(Some("bob"));
    assert_eq!(intro, "bob has ");
    assert_eq!(neg, "bob hasn't");
    assert_eq!(
        averages_sentence(&intro, &neg, None, None),
        "bob hasn't sent any progle scores yet"
    );
}
