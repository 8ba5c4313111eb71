use dining_philosophers::philosopher::actors_valid;
use dining_philosophers::philosopher::make_ring;
use dining_philosophers::philosopher::Philosopher;
use dining_philosophers::table::AcquireOutcome;
use dining_philosophers::table::SlotTable;

fn five_names() -> Vec<String> {
    vec![
        "Baruch Spinoza".to_string(),
        "Gilles Deleuze".to_string(),
        "Karl Marx".to_string(),
        "Friedrich Nietzsche".to_string(),
        "Michel Foucault".to_string(),
    ]
}

#[test]
fn new_keeps_fields() {
    let p = Philosopher::new("Baruch Spinoza", 0, 1);
    assert_eq!(p.name, "Baruch Spinoza");
    assert_eq!(p.left, 0);
    assert_eq!(p.right, 1);
}

#[test]
fn ring_of_five_matches_adjacency() {
    let names = five_names();
    let actors = make_ring(&names);
    assert_eq!(actors.len(), 5);
    for i in 0..5 {
        assert_eq!(actors[i].name, names[i]);
        assert_eq!(actors[i].left, i);
        assert_eq!(actors[i].right, (i + 1) % 5);
    }
}

#[test]
fn order_differs_from_left_right_for_last_actor() {
    let actors = make_ring(&five_names());
    // Actor 4 has left 4 and right 0; the policy makes it take 0 first,
    // the opposite of its descriptor's left-then-right order.
    assert_eq!(actors[4].left, 4);
    assert_eq!(actors[4].right, 0);
    assert_eq!(actors[4].first_slot(), 0);
    assert_eq!(actors[4].second_slot(), 4);
}

#[test]
fn order_is_plain_for_first_actor() {
    let actors = make_ring(&five_names());
    assert_eq!(actors[0].first_slot(), 0);
    assert_eq!(actors[0].second_slot(), 1);
}

#[test]
fn actors_valid_accepts_the_ring() {
    let actors = make_ring(&five_names());
    assert!(actors_valid(&actors, 5));
}

#[test]
fn actors_valid_rejects_out_of_range_index() {
    let actors = vec![Philosopher::new("A", 0, 5), Philosopher::new("B", 1, 2)];
    assert!(!actors_valid(&actors, 5));
}

#[test]
fn actors_valid_rejects_equal_slots() {
    let actors = vec![Philosopher::new("A", 2, 2)];
    assert!(!actors_valid(&actors, 5));
}

#[test]
fn fresh_table_is_all_free() {
    let t = SlotTable::new(5);
    assert_eq!(t.slot_count(), 5);
    for s in 0..5 {
        assert!(t.is_free(s));
        assert_eq!(t.holder_of(s), None);
    }
}

#[test]
fn acquire_grants_a_free_slot() {
    let mut t = SlotTable::new(5);
    assert_eq!(t.try_acquire(2, 0), AcquireOutcome::Acquired);
    assert_eq!(t.holder_of(2), Some(0));
    assert!(!t.is_free(2));
}

#[test]
fn acquire_refuses_a_held_slot() {
    let mut t = SlotTable::new(5);
    assert_eq!(t.try_acquire(2, 0), AcquireOutcome::Acquired);
    assert_eq!(t.try_acquire(2, 1), AcquireOutcome::Unavailable);
    // The holder did not change: exclusion was preserved.
    assert_eq!(t.holder_of(2), Some(0));
}

#[test]
fn release_by_holder_frees_the_slot() {
    let mut t = SlotTable::new(5);
    t.try_acquire(3, 1);
    assert!(t.release(3, 1));
    assert!(t.is_free(3));
}

#[test]
fn release_by_non_holder_is_a_no_op() {
    let mut t = SlotTable::new(5);
    t.try_acquire(3, 1);
    assert!(!t.release(3, 2));
    assert_eq!(t.holder_of(3), Some(1));
}

#[test]
fn double_release_never_over_releases() {
    let mut t = SlotTable::new(5);
    t.try_acquire(3, 1);
    assert!(t.release(3, 1));
    // Releasing an already-released slot is a no-op...
    assert!(!t.release(3, 1));
    assert!(t.is_free(3));
    // ...so another actor's fresh possession is not corrupted by it.
    assert_eq!(t.try_acquire(3, 2), AcquireOutcome::Acquired);
    assert!(!t.release(3, 1));
    assert_eq!(t.holder_of(3), Some(2));
}

#[test]
fn tainted_slot_is_still_acquirable() {
    let mut t = SlotTable::new(5);
    t.try_acquire(1, 0);
    // The holder ends abnormally: the slot comes back free but tainted.
    t.mark_abnormal_end(1);
    assert!(t.is_free(1));
    assert_eq!(t.try_acquire(1, 3), AcquireOutcome::Tainted);
    assert_eq!(t.holder_of(1), Some(3));
    assert!(t.release(1, 3));
}
