use dining_philosophers::philosopher::make_ring;
use dining_philosophers::sim::Event;
use dining_philosophers::sim::RunState;

fn ring_names() -> Vec<String> {
    vec![
        "Baruch Spinoza".to_string(),
        "Gilles Deleuze".to_string(),
        "Karl Marx".to_string(),
        "Friedrich Nietzsche".to_string(),
        "Michel Foucault".to_string(),
    ]
}

fn count(log: &[Event], e: Event) -> usize {
    log.iter().filter(|x| **x == e).count()
}

fn position(log: &[Event], e: Event) -> usize {
    log.iter().position(|x| *x == e).expect("event missing from log")
}

fn check_complete_log(log: &[Event], n: usize) {
    assert_eq!(log.len(), 2 * n);
    for a in 0..n {
        assert_eq!(count(log, Event::Started(a)), 1);
        assert_eq!(count(log, Event::Finished(a)), 1);
        assert!(position(log, Event::Started(a)) < position(log, Event::Finished(a)));
    }
}

#[test]
fn scenario_five_actors_full_run() {
    // Five actors, five slots, the ring adjacency: the run completes and
    // shows exactly five start lines and five completion lines, each
    // actor's start before its own completion.
    let actors = make_ring(&ring_names());
    let log = RunState::run(&actors, 5, &Vec::new());
    check_complete_log(&log, 5);
}

#[test]
fn first_fit_schedule_runs_actors_in_order() {
    let actors = make_ring(&ring_names());
    let log = RunState::run(&actors, 5, &Vec::new());
    let expected = vec![
        Event::Started(0),
        Event::Finished(0),
        Event::Started(1),
        Event::Finished(1),
        Event::Started(2),
        Event::Finished(2),
        Event::Started(3),
        Event::Finished(3),
        Event::Started(4),
        Event::Finished(4),
    ];
    assert_eq!(log, expected);
}

#[test]
fn reverse_schedule_still_completes() {
    // An adversarial interleaving: every actor grabs its first slot
    // before any gets its second, the classic circular-wait setup.  The
    // lowest-first policy still drives the run to completion.
    let actors = make_ring(&ring_names());
    let schedule = vec![4, 3, 2, 1, 0, 4, 3, 2, 1, 0, 4, 3, 2, 1, 0];
    let log = RunState::run(&actors, 5, &schedule);
    check_complete_log(&log, 5);
}

#[test]
fn scrambled_schedules_complete_with_paired_lines() {
    let actors = make_ring(&ring_names());
    // A handful of arbitrary interleavings, including hints that name
    // blocked or finished actors and hints that are out of range.
    let schedules: Vec<Vec<usize>> = vec![
        vec![0, 0, 0, 0, 0, 0],
        vec![1, 3, 0, 2, 4, 1, 3, 0, 2, 4, 1, 3, 0, 2, 4],
        vec![2, 2, 4, 4, 1, 1, 3, 3, 0, 0],
        vec![9, 7, 5, 4, 4, 4, 2, 2, 2],
        vec![4, 0, 4, 0, 4, 0, 3, 1, 2],
    ];
    for schedule in schedules {
        let log = RunState::run(&actors, 5, &schedule);
        check_complete_log(&log, 5);
    }
}

#[test]
fn holdings_are_exclusive_while_stepping() {
    // Instrumented run: drive single steps and watch slot possession.
    let actors = make_ring(&ring_names());
    let mut st = RunState::new(&actors, 5);
    // Actor 0 takes its first slot, slot 0.
    assert!(st.can_step(&actors, 0));
    st.step(&actors, 0);
    assert_eq!(st.table.holder_of(0), Some(0));
    // Actor 4 wants slot 0 first (the wrap-around of the ring): it is
    // blocked while actor 0 holds that slot, and the slot's holder never
    // changes behind actor 0's back.
    assert!(!st.can_step(&actors, 4));
    assert_eq!(st.table.holder_of(0), Some(0));
    // Actor 0 takes slot 1 and eats; actor 1 is blocked on slot 1.
    assert!(st.can_step(&actors, 0));
    st.step(&actors, 0);
    assert_eq!(st.table.holder_of(1), Some(0));
    assert!(!st.can_step(&actors, 1));
    // Actor 0 finishes: both slots come back, both neighbours can move.
    st.step(&actors, 0);
    assert_eq!(st.table.holder_of(0), None);
    assert_eq!(st.table.holder_of(1), None);
    assert!(st.can_step(&actors, 1));
    assert!(st.can_step(&actors, 4));
    assert_eq!(st.log, vec![Event::Started(0), Event::Finished(0)]);
}

#[test]
fn run_never_leaves_slots_held() {
    let actors = make_ring(&ring_names());
    let mut st = RunState::new(&actors, 5);
    while !st.all_done() {
        let a = st.find_steppable(&actors);
        st.step(&actors, a);
    }
    for s in 0..5 {
        assert!(st.table.is_free(s));
    }
    check_complete_log(&st.log, 5);
}
