use progle_bot::leaderboard::{
    generate_scores, leaderboard, progress_bar, render_leaderboard, sort_by_score, Member,
    ScoreInformation,
};

fn member(name: &str, local_score: Option<u64>, stars: Option<u64>, days: u64) -> Member {
    Member { name: name.to_string(), local_score, stars, days }
}

fn entry(name: &str, score: u128) -> ScoreInformation {
    ScoreInformation { username: name.to_string(), score, stars: 0, days: 0 }
}

fn bar(green: usize) -> String {
    "🟩".repeat(green) + &"🟥".repeat(15 - green)
}

#[test]
fn score_without_local_score() {
    let scores = generate_scores(&vec![member("ann", None, None, 10)]);
    assert_eq!(scores[0].score, 10);
    assert_eq!(scores[0].stars, 0);
    assert_eq!(scores[0].days, 10);
    assert_eq!(progress_bar(10), bar(6));
}

#[test]
fn score_formula() {
    let scores = generate_scores(&vec![
        member("a", Some(7), Some(12), 3),
        member("b", Some(0), Some(1), 0),
        member("c", Some(4), None, 0),
        member("d", Some(u64::MAX), None, u64::MAX),
    ]);
    assert_eq!(scores[0].score, 21);
    assert_eq!(scores[0].stars, 12);
    assert_eq!(scores[1].score, 1);
    assert_eq!(scores[2].score, 4);
    assert_eq!(scores[3].score, u64::MAX as u128 * u64::MAX as u128);
    assert_eq!(scores[3].username, "d");
}

#[test]
fn ordering_is_descending_and_stable() {
    let sorted = sort_by_score(vec![entry("a", 10), entry("b", 25), entry("c", 10)]);
    let names: Vec<&str> = sorted.iter().map(|e| e.username.as_str()).collect();
    assert_eq!(names, vec!["b", "a", "c"]);
    assert!(sort_by_score(Vec::new()).is_empty());
}

#[test]
fn progress_bar_edges() {
    assert_eq!(progress_bar(0), bar(0));
    assert_eq!(progress_bar(1), bar(1));
    assert_eq!(progress_bar(5), bar(3));
    assert_eq!(progress_bar(24), bar(15));
    assert_eq!(progress_bar(25), bar(15));
    assert_eq!(progress_bar(40), bar(15));
    assert_eq!(progress_bar(5).chars().count(), 15);
}

#[test]
fn render_lines() {
    let entries = vec![
        ScoreInformation { username: "bo".to_string(), score: 25, stars: 3, days: 2 },
        ScoreInformation { username: "al".to_string(), score: 10, stars: 0, days: 0 },
    ];
    let text = render_leaderboard(&entries);
    let expected = format!(
        "1. bo who has score 25 and 3 stars\n{}\n2. al who has score 10 and 0 stars\n{}",
        bar(2),
        bar(0)
    );
    assert_eq!(text, expected);
    assert_eq!(render_leaderboard(&Vec::new()), "");
}

#[test]
fn leaderboard_ranks_members() {
    let text = leaderboard(&vec![
        member("x", Some(10), Some(2), 1),
        member("y", Some(5), Some(20), 5),
        member("z", None, Some(1), 10),
    ]);
    let expected = format!(
        "1. y who has score 25 and 20 stars\n{}\n2. x who has score 10 and 2 stars\n{}\n3. z who has score 10 and 1 stars\n{}",
        bar(3),
        bar(1),
        bar(6)
    );
    assert_eq!(text, expected);
}
