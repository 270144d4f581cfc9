use progle_bot::facts::{record_plan, today_plan, Attempt, FactStore, FactWrite, Membership};
use progle_bot::grammar::{GameResult, Mode};

fn classic(n: u16) -> GameResult {
    GameResult { mode: Mode::Classic, attempts: n }
}

#[test]
fn record_twice_keeps_one_row() {
    let mut store = FactStore::new();
    assert_eq!(store.record(Some(1), 42, classic(3), 739000), 2);
    assert_eq!(store.record(Some(1), 42, classic(3), 739000), 0);
    assert_eq!(store.attempts().len(), 1);
    assert_eq!(store.memberships().len(), 1);
    assert_eq!(store.slot_value(42, 739000, Mode::Classic), Some(3));
}

#[test]
fn record_keeps_first_value() {
    let mut store = FactStore::new();
    store.record(Some(1), 42, classic(3), 739000);
    assert_eq!(store.record(Some(1), 42, classic(5), 739000), 0);
    assert_eq!(store.attempts().len(), 1);
    assert_eq!(store.slot_value(42, 739000, Mode::Classic), Some(3));
}

#[test]
fn record_without_community_writes_nothing() {
    let mut store = FactStore::new();
    assert_eq!(store.record(None, 42, classic(3), 739000), 0);
    assert!(store.attempts().is_empty());
    assert!(store.memberships().is_empty());
    assert!(record_plan(None, 42, classic(3), 739000).is_empty());
    assert!(today_plan(None, 42, classic(3)).is_empty());
}

#[test]
fn modes_and_days_are_separate_keys() {
    let mut store = FactStore::new();
    store.record(Some(1), 42, classic(3), 739000);
    assert_eq!(store.record(Some(1), 42, GameResult { mode: Mode::Code, attempts: 2 }, 739000), 1);
    assert_eq!(store.record(Some(1), 42, classic(6), 739001), 1);
    assert_eq!(store.record(Some(2), 42, classic(6), 739001), 1);
    assert_eq!(store.attempts().len(), 3);
    assert_eq!(store.memberships().len(), 2);
    assert_eq!(store.slot_value(42, 739000, Mode::Code), Some(2));
    assert_eq!(store.slot_value(42, 739001, Mode::Classic), Some(6));
    assert_eq!(store.slot_value(43, 739001, Mode::Classic), None);
}

#[test]
fn plan_writes_membership_then_attempt() {
    let plan = record_plan(Some(7), 9, GameResult { mode: Mode::Code, attempts: 4 }, 100);
    assert_eq!(
        plan,
        vec![
            FactWrite::Membership(Membership { community_id: 7, user_id: 9 }),
            FactWrite::Attempt(Attempt { user_id: 9, day: 100, mode: Mode::Code, attempts: 4 }),
        ]
    );
}

#[test]
fn today_plan_uses_the_current_day() {
    let plan = today_plan(Some(7), 9, classic(4));
    assert_eq!(plan.len(), 2);
    match plan[1] {
        FactWrite::Attempt(a) => {
            // 1 January 2024 is day 738886 counted from 1 January of year 1.
            assert!(a.day >= 738886);
            assert_eq!(a.user_id, 9);
            assert_eq!(a.attempts, 4);
        }
        FactWrite::Membership(_) => panic!("second write is the attempt"),
    }
}

#[test]
fn apply_is_insert_if_absent() {
    let mut store = FactStore::new();
    let w = FactWrite::Membership(Membership { community_id: 1, user_id: 2 });
    assert!(store.apply(w));
    assert!(!store.apply(w));
    assert!(store.has_membership(Membership { community_id: 1, user_id: 2 }));
    assert!(!store.has_membership(Membership { community_id: 2, user_id: 1 }));
}
