use mdict_cli_rs::error::Error;
use mdict_cli_rs::rating::{rating_checked_from_u8, rating_from_u8, Rating};
use mdict_cli_rs::scheduler::{should_ignore, Scheduler};

const NOW: i64 = 1_700_000_000;
const DAY: i64 = 86_400;

#[test]
fn rating_decoding() {
    assert_eq!(rating_from_u8(1), Rating::Again);
    assert_eq!(rating_from_u8(2), Rating::Hard);
    assert_eq!(rating_from_u8(3), Rating::Good);
    assert_eq!(rating_from_u8(4), Rating::Easy);
    assert_eq!(rating_checked_from_u8(0), None);
    assert_eq!(rating_checked_from_u8(3), Some(Rating::Good));
    assert_eq!(rating_checked_from_u8(5), None);
}

#[test]
fn fresh_store_is_empty() {
    let mut s = Scheduler::new();
    assert_eq!(s.all_keys().len(), 0);
    assert!(s.get_item("anything").is_none());
    assert_eq!(s.next_due(NOW), None);
}

#[test]
fn ensure_item_makes_item_due_now() {
    let mut s = Scheduler::new();
    s.ensure_item("hello", NOW);
    let item = s.get_item("hello").expect("item stored");
    assert_eq!(item.key, "hello");
    assert_eq!(item.due_at, NOW);
    assert_eq!(item.last_reviewed_at, NOW);
    assert_eq!(item.session_marker, 0);
    assert_eq!(s.all_keys(), vec!["hello".to_string()]);
}

#[test]
fn ensure_item_is_idempotent() {
    let mut s = Scheduler::new();
    s.ensure_item("hello", NOW);
    s.ensure_item("hello", NOW + 500);
    let item = s.get_item("hello").expect("item stored");
    assert_eq!(item.due_at, NOW, "second ensure must not reset the due time");
    assert_eq!(item.last_reviewed_at, NOW);
    assert_eq!(s.all_keys().len(), 1);
}

#[test]
fn ensure_item_does_not_reset_reviewed_state() {
    let mut s = Scheduler::new();
    s.ensure_item("hello", NOW);
    s.apply_rating("hello", Rating::Easy, NOW).expect("rating applies");
    let due_after_review = s.get_item("hello").unwrap().due_at;
    assert!(due_after_review > NOW);
    s.ensure_item("hello", NOW + 1);
    assert_eq!(s.get_item("hello").unwrap().due_at, due_after_review);
}

#[test]
fn review_pass_on_single_item() {
    // An empty store, one looked-up word, one full pass.
    let mut s = Scheduler::new();
    s.ensure_item("hello", NOW);
    assert_eq!(s.next_due(NOW), Some("hello".to_string()));
    s.apply_rating("hello", Rating::Easy, NOW).expect("rating applies");
    assert!(s.get_item("hello").unwrap().due_at > NOW);
    assert_eq!(s.next_due(NOW), None, "nothing else is due in this pass");
}

#[test]
fn pass_skips_item_not_yet_due() {
    // "cat" is due now, "dog" only tomorrow: a full pass delivers exactly
    // "cat" once.
    let mut s = Scheduler::new();
    s.ensure_item("cat", NOW);
    s.ensure_item("dog", NOW);
    s.update_item("dog", NOW + DAY, rs_fsrs::Card::new(), NOW)
        .expect("dog exists");
    assert_eq!(s.next_due(NOW), Some("cat".to_string()));
    assert_eq!(s.next_due(NOW), None);
    // Tomorrow, a fresh pass delivers both, "cat" first by row order.
    s.start_new_pass();
    let tomorrow = NOW + DAY;
    assert_eq!(s.next_due(tomorrow), Some("cat".to_string()));
    assert_eq!(s.next_due(tomorrow), Some("dog".to_string()));
    assert_eq!(s.next_due(tomorrow), None);
}

#[test]
fn pass_is_exhaustive_without_duplicates() {
    let mut s = Scheduler::new();
    s.ensure_item("alpha", NOW);
    s.ensure_item("beta", NOW);
    s.ensure_item("gamma", NOW);
    let mut seen = Vec::new();
    for _ in 0..3 {
        let word = s.next_due(NOW).expect("an item is still due");
        assert!(!seen.contains(&word), "no key twice in one pass");
        seen.push(word);
    }
    assert_eq!(s.next_due(NOW), None, "the fourth call ends the pass");
    seen.sort();
    assert_eq!(seen, vec!["alpha", "beta", "gamma"]);
}

#[test]
fn wrap_around_finds_rows_before_cursor() {
    let mut s = Scheduler::new();
    s.ensure_item("first", NOW);
    s.ensure_item("second", NOW + 10);
    // Only "first" is due yet; after it is delivered the cursor sits past
    // row 0.
    assert_eq!(s.next_due(NOW), Some("first".to_string()));
    assert_eq!(s.next_due(NOW), None);
    // Later in the same pass "second" has become due; it sits at the tail,
    // and a row inserted before the cursor is found by the wrap-around.
    assert_eq!(s.next_due(NOW + 10), Some("second".to_string()));
    s.start_new_pass();
    assert_eq!(s.next_due(NOW + 10), Some("first".to_string()));
    assert_eq!(s.next_due(NOW + 10), Some("second".to_string()));
    assert_eq!(s.next_due(NOW + 10), None);
}

#[test]
fn apply_rating_missing_key_is_not_found() {
    let mut s = Scheduler::new();
    s.ensure_item("kept", NOW);
    let before_due = s.get_item("kept").unwrap().due_at;
    assert_eq!(s.apply_rating("missing", Rating::Good, NOW), Err(Error::NotFound));
    assert_eq!(s.get_item("kept").unwrap().due_at, before_due);
    assert_eq!(s.all_keys().len(), 1);
}

#[test]
fn apply_rating_out_of_range_time_is_model_error() {
    let mut s = Scheduler::new();
    s.ensure_item("hello", NOW);
    let before = {
        let item = s.get_item("hello").unwrap();
        (item.due_at, item.last_reviewed_at, item.session_marker)
    };
    assert_eq!(s.apply_rating("hello", Rating::Again, -7), Err(Error::ModelError));
    let item = s.get_item("hello").unwrap();
    assert_eq!(
        (item.due_at, item.last_reviewed_at, item.session_marker),
        before,
        "a failed rating must not write anything"
    );
}

#[test]
fn apply_rating_updates_review_time() {
    let mut s = Scheduler::new();
    s.ensure_item("word", NOW);
    s.apply_rating("word", Rating::Again, NOW + 30).expect("rating applies");
    let item = s.get_item("word").unwrap();
    assert_eq!(item.last_reviewed_at, NOW + 30);
    assert!(item.due_at >= NOW + 30);
}

#[test]
fn remove_item_deletes_exactly_one_row() {
    let mut s = Scheduler::new();
    s.ensure_item("one", NOW);
    s.ensure_item("two", NOW);
    assert_eq!(s.remove_item("one"), 1);
    assert_eq!(s.remove_item("one"), 0);
    assert!(s.get_item("one").is_none());
    assert_eq!(s.all_keys(), vec!["two".to_string()]);
}

#[test]
fn update_item_missing_key_fails() {
    let mut s = Scheduler::new();
    assert_eq!(
        s.update_item("ghostly", NOW, rs_fsrs::Card::new(), NOW),
        Err(Error::NotFound)
    );
}

#[test]
fn sessions_are_lazy_and_strictly_increasing() {
    let mut s = Scheduler::new();
    // Nothing due: no session is opened by a fruitless search.
    assert_eq!(s.next_due(NOW), None);
    assert_eq!(s.current_session(NOW), 1, "first real use opens session 1");
    assert_eq!(s.current_session(NOW), 1, "the open session is reused");
    s.start_new_pass();
    assert_eq!(s.current_session(NOW + 5), 2, "each pass gets a greater id");
}

#[test]
fn mark_shown_hides_item_from_session() {
    let mut s = Scheduler::new();
    s.ensure_item("cat", NOW);
    let sid = s.current_session(NOW);
    s.mark_shown("cat", sid);
    assert_eq!(s.get_item("cat").unwrap().session_marker, sid);
    assert_eq!(s.next_due(NOW), None, "a marked item is not delivered again");
}

#[test]
fn ignored_lines_never_enter_history() {
    assert!(should_ignore(""));
    assert!(should_ignore(" leading space"));
    assert!(should_ignore("\tleading tab"));
    assert!(!should_ignore("word"));
    assert!(!should_ignore("two words"));
}

#[test]
fn check_wf_accepts_built_state_and_rejects_tampering() {
    let mut s = Scheduler::new();
    s.ensure_item("alpha", NOW);
    s.ensure_item("beta", NOW);
    assert!(s.check_wf());
    // A secondary index out of step with the rows is a broken store.
    s.keys[1] = "gamma".to_string();
    assert!(!s.check_wf());
    // So is a duplicate key.
    let mut t = Scheduler::new();
    t.ensure_item("alpha", NOW);
    let row = t.items[0].key.clone();
    t.items.push(mdict_cli_rs::item::Item {
        key: row.clone(),
        due_at: NOW,
        strength: rs_fsrs::Card::new(),
        last_reviewed_at: NOW,
        session_marker: 0,
    });
    t.keys.push(row);
    assert!(!t.check_wf());
    // And a session ledger out of order.
    let mut u = Scheduler::new();
    u.sessions.push((5, NOW));
    u.sessions.push((3, NOW));
    assert!(!u.check_wf());
}

#[test]
fn can_open_session_reports_headroom() {
    let mut s = Scheduler::new();
    assert!(s.can_open_session());
    s.ensure_item("word", NOW);
    assert_eq!(s.next_due(NOW), Some("word".to_string()));
    assert!(s.can_open_session(), "an open session always has room");
}

#[test]
fn model_output_is_deterministic() {
    // Spec-wise the persisted state is exactly the model's output for the
    // stored card, the rating and the time; so two stores holding the same
    // card and given the same rating at the same time end up identical.
    let card = rs_fsrs::Card::new();
    let mut a = Scheduler::new();
    let mut b = Scheduler::new();
    for s in [&mut a, &mut b] {
        s.ensure_item("word", NOW);
        s.update_item("word", NOW, card.clone(), NOW).expect("word exists");
    }
    a.apply_rating("word", Rating::Good, NOW + 60).expect("rating applies");
    b.apply_rating("word", Rating::Good, NOW + 60).expect("rating applies");
    let ia = a.get_item("word").unwrap();
    let ib = b.get_item("word").unwrap();
    assert_eq!(ia.due_at, ib.due_at);
    assert_eq!(ia.last_reviewed_at, ib.last_reviewed_at);
    assert_eq!(ia.strength, ib.strength);
    assert!(ia.due_at >= NOW + 60);
}
