use zk_spaced::db::{Card, Database};
use zk_spaced::state::{CardState, DAY_NANOS};

const HOUR: i128 = 3_600_000_000_000;
const T0: i128 = 1_700_000_000_000_000_000;

fn card(name: &str) -> Card {
    Card {
        filename: name.to_string(),
        title: format!("title of {}", name),
        body: format!("body of {}", name),
    }
}

fn state(streak: u32, ease: i64, interval: i128, failed: bool) -> CardState {
    CardState {
        last_reviewed: T0,
        num_recalled: streak,
        easiness_factor: ease,
        interval,
        failed,
    }
}

#[test]
fn new_record_has_defaults() {
    let s = CardState::new(T0);
    assert_eq!(s.last_reviewed, T0);
    assert_eq!(s.num_recalled, 0);
    assert_eq!(s.easiness_factor, 250);
    assert_eq!(s.interval, 0);
    assert!(s.failed);
}

#[test]
fn three_successes_give_one_six_and_scaled_days() {
    for grade in 3..=5u16 {
        let mut s = CardState::new(T0);
        s.update(grade);
        assert_eq!(s.interval, DAY_NANOS);
        assert_eq!(s.num_recalled, 1);
        assert!(!s.failed);
        s.update(grade);
        assert_eq!(s.interval, 6 * DAY_NANOS);
        assert_eq!(s.num_recalled, 2);
        let ease = s.easiness_factor;
        s.update(grade);
        // round(6 * ease / 100), halves away from zero
        let expected = (6 * ease as i128 + 50) / 100;
        assert_eq!(s.interval, expected * DAY_NANOS);
        assert_eq!(s.num_recalled, 3);
    }
}

#[test]
fn third_success_at_grade_four_is_eight_days() {
    let mut s = CardState::new(T0);
    s.update(4);
    s.update(4);
    assert_eq!(s.easiness_factor, 130);
    s.update(4);
    // 6 * 1.3 = 7.8, rounded to 8
    assert_eq!(s.interval, 8 * DAY_NANOS);
}

#[test]
fn failure_resets_whatever_the_record() {
    for grade in 0..3u16 {
        let mut s = state(7, 130, 40 * DAY_NANOS, false);
        s.update(grade);
        assert_eq!(s.num_recalled, 0);
        assert_eq!(s.interval, DAY_NANOS);
        assert!(s.failed);
        assert_eq!(s.last_reviewed, T0);
    }
}

#[test]
fn easiness_follows_the_formula() {
    // deltas in hundredths for grades 0..=5: -80, -54, -32, -14, 0, +10
    let expected = [20, 46, 68, 86, 100, 110];
    for grade in 0..=5u16 {
        let mut s = state(0, 100, 0, true);
        s.update(grade);
        assert_eq!(s.easiness_factor, expected[grade as usize]);
    }
}

#[test]
fn easiness_is_capped_at_one_point_three() {
    let mut s = CardState::new(T0);
    s.update(5);
    assert_eq!(s.easiness_factor, 130);
    s.update(5);
    assert_eq!(s.easiness_factor, 130);
    s.update(0);
    assert_eq!(s.easiness_factor, 50);
}

#[test]
fn interval_rounds_halves_away_from_zero() {
    let mut s = state(2, 130, 5 * DAY_NANOS, false);
    s.update(4);
    assert_eq!(s.interval, 7 * DAY_NANOS);
    let mut n = state(2, -130, 5 * DAY_NANOS, false);
    n.update(4);
    assert_eq!(n.interval, -7 * DAY_NANOS);
}

#[test]
fn interval_counts_whole_days_only() {
    let mut s = state(2, 200, 3 * DAY_NANOS + DAY_NANOS - 1, false);
    s.update(3);
    assert_eq!(s.interval, 6 * DAY_NANOS);
    let mut n = state(2, 200, -DAY_NANOS + 1, false);
    n.update(3);
    assert_eq!(n.interval, 0);
}

#[test]
fn needs_review_at_the_boundary() {
    let s = state(1, 130, DAY_NANOS, false);
    assert!(!s.needs_review(T0 + DAY_NANOS - 1));
    assert!(s.needs_review(T0 + DAY_NANOS));
    assert!(s.needs_review(T0 + DAY_NANOS + 1));
    let f = state(1, 130, DAY_NANOS, true);
    assert!(f.needs_review(T0));
}

#[test]
fn needs_review_without_overflow() {
    let mut s = state(1, 130, 1, false);
    s.last_reviewed = i128::MAX;
    assert!(!s.needs_review(i128::MAX));
    s.last_reviewed = i128::MIN;
    s.interval = -1;
    assert!(s.needs_review(i128::MIN));
}

#[test]
fn can_update_refuses_what_would_overflow() {
    let s = state(u32::MAX, 130, DAY_NANOS, false);
    assert!(!s.can_update(4));
    assert!(s.can_update(1));
    let e = state(0, i64::MIN + 10, 0, true);
    assert!(!e.can_update(0));
    assert!(e.can_update(4));
    let big = state(2, 130, 100_000_000_000_000 * DAY_NANOS, false);
    assert!(!big.can_update(4));
    assert!(big.can_update(2));
    assert!(CardState::new(T0).can_update(5));
}

#[test]
fn open_then_grade_then_reopen() {
    let mut db = Database::open(Vec::new(), T0, vec![card("a")]);
    let review = db.candidate(T0).expect("a is due");
    assert_eq!(*review.card, card("a"));
    assert!(review.state.can_update(4));
    review.state.update(4);
    let s = db.state_of(&"a".to_string()).unwrap();
    assert_eq!(s.num_recalled, 1);
    assert_eq!(s.interval, DAY_NANOS);
    assert!(!s.failed);

    let saved = db.snapshot();
    let mut later = Database::open(saved.clone(), T0 + 25 * HOUR, vec![card("a")]);
    assert_eq!(later.candidate(T0 + 25 * HOUR).unwrap().card.filename, "a");

    let mut soon = Database::open(saved, T0 + HOUR, vec![card("a")]);
    assert!(soon.candidate(T0 + HOUR).is_none());
}

#[test]
fn reopening_keeps_saved_records() {
    let mut db = Database::open(Vec::new(), T0, vec![card("a"), card("b")]);
    for _ in 0..2 {
        let review = db.candidate(T0).expect("both are due");
        let grade = if review.card.filename == "a" { 5 } else { 1 };
        review.state.update(grade);
    }
    assert!(db.candidate(T0).is_some());
    let saved = db.snapshot();
    let again = Database::open(saved, T0 + 1000 * DAY_NANOS, vec![card("a"), card("b")]);
    for id in ["a", "b"] {
        let id = id.to_string();
        assert_eq!(again.state_of(&id), db.state_of(&id));
    }
    assert_eq!(again.snapshot().len(), 2);
}

#[test]
fn new_items_get_default_records() {
    let old = state(3, 120, 9 * DAY_NANOS, false);
    let saved = vec![("a".to_string(), old)];
    let db = Database::open(saved, T0 + 5, vec![card("a"), card("b")]);
    assert_eq!(db.state_of(&"a".to_string()), Some(old));
    assert_eq!(db.state_of(&"b".to_string()), Some(CardState::new(T0 + 5)));
}

#[test]
fn stale_records_are_kept_but_not_offered() {
    let saved = vec![("gone".to_string(), state(0, 250, 0, true))];
    let mut db = Database::open(saved, T0, Vec::new());
    assert!(db.candidate(T0).is_none());
    assert!(db.state_of(&"gone".to_string()).is_some());
    assert_eq!(db.snapshot().len(), 1);
}

#[test]
fn later_item_of_the_same_name_wins() {
    let mut second = card("a");
    second.title = "second".to_string();
    let mut db = Database::open(Vec::new(), T0, vec![card("a"), second]);
    assert_eq!(db.candidate(T0).unwrap().card.title, "second");
    assert_eq!(db.snapshot().len(), 1);
}

#[test]
fn later_snapshot_pair_of_the_same_name_wins() {
    let saved = vec![
        ("a".to_string(), state(1, 130, DAY_NANOS, false)),
        ("a".to_string(), state(2, 120, 6 * DAY_NANOS, false)),
    ];
    let db = Database::open(saved, T0, vec![card("a")]);
    assert_eq!(db.state_of(&"a".to_string()).unwrap().num_recalled, 2);
}

#[test]
fn candidate_skips_items_not_due() {
    let saved = vec![("a".to_string(), state(1, 130, DAY_NANOS, false))];
    let mut db = Database::open(saved, T0, vec![card("a"), card("b")]);
    assert_eq!(db.candidate(T0).unwrap().card.filename, "b");
}

#[test]
fn empty_store_offers_nothing() {
    let mut db = Database::open(Vec::new(), T0, Vec::new());
    assert!(db.candidate(T0).is_none());
    assert!(db.snapshot().is_empty());
    assert!(db.state_of(&"a".to_string()).is_none());
}
