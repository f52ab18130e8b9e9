use dining_philosophers::arrangement::build_arrangement;
use dining_philosophers::harness::Verdict;
use dining_philosophers::harness::explore;
use dining_philosophers::harness::fork_order_valid;
use dining_philosophers::harness::is_default_ring;
use dining_philosophers::harness::reach_deadlock;
use dining_philosophers::harness::run_to_completion;
use dining_philosophers::harness::wiring_valid;
use dining_philosophers::model::ModelState;
use dining_philosophers::model::Phase;

fn roster(n: usize) -> Vec<String> {
    let all = ["Socrates", "Hypatia", "Plato", "Aristotle", "Pythagoras"];
    let mut v: Vec<String> = Vec::new();
    for name in all.iter().take(n) {
        v.push(name.to_string());
    }
    v
}

#[test]
fn naive_ring_reaches_deadlock() {
    let table = build_arrangement(roster(3), false);
    let r = explore(table, 10);
    assert_eq!(r.verdict, Verdict::DeadlockReached);
    assert!(r.state.check_deadlocked());
    for (f, holder) in r.state.forks.iter().enumerate() {
        assert_eq!(*holder, Some(f));
    }
    for st in r.state.actors.iter() {
        assert_eq!(st.phase, Phase::AcquiringRight);
    }
}

#[test]
fn fixed_ring_never_deadlocks() {
    let table = build_arrangement(roster(3), true);
    let r = explore(table, 10);
    assert_eq!(r.verdict, Verdict::DeadlockFree);
    assert!(r.state.finished());
    assert!(!r.state.check_deadlocked());
    assert_eq!(r.state.log.len(), 30);
    for st in r.state.actors.iter() {
        assert_eq!(st.phase, Phase::Done);
        assert_eq!(st.thoughts_sent, 10);
        assert_eq!(st.remaining, 0);
    }
    for f in r.state.forks.iter() {
        assert!(f.is_none());
    }
}

#[test]
fn five_seats_behave_like_three() {
    let naive = explore(build_arrangement(roster(5), false), 1);
    assert_eq!(naive.verdict, Verdict::DeadlockReached);
    let fixed = explore(build_arrangement(roster(5), true), 100);
    assert_eq!(fixed.verdict, Verdict::DeadlockFree);
    assert_eq!(fixed.state.log.len(), 500);
}

#[test]
fn log_keeps_per_actor_send_order() {
    let r = explore(build_arrangement(roster(5), true), 4);
    assert_eq!(r.verdict, Verdict::DeadlockFree);
    let mut seen = [0u32; 5];
    for e in r.state.log.iter() {
        assert_eq!(e.seq_no, seen[e.actor]);
        seen[e.actor] += 1;
    }
    assert_eq!(seen, [4, 4, 4, 4, 4]);
}

#[test]
fn witness_run_lands_in_the_deadlock_state() {
    let table = build_arrangement(roster(4), false);
    assert!(wiring_valid(&table));
    assert!(is_default_ring(&table));
    assert!(!fork_order_valid(&table));
    let mut s = ModelState::new(table, 7);
    reach_deadlock(&mut s);
    assert!(s.check_deadlocked());
    assert_eq!(s.log.len(), 4);
}

#[test]
fn sequential_schedule_completes_any_valid_wiring() {
    let table = build_arrangement(roster(2), true);
    assert!(fork_order_valid(&table));
    let mut s = ModelState::new(table, 3);
    run_to_completion(&mut s);
    assert!(s.finished());
    assert_eq!(s.log.len(), 6);
}

#[test]
fn degenerate_tables_get_no_verdict() {
    let single = explore(build_arrangement(roster(1), false), 5);
    assert_eq!(single.verdict, Verdict::Unknown);
    let zero_rounds = explore(build_arrangement(roster(3), false), 0);
    assert_eq!(zero_rounds.verdict, Verdict::Unknown);
}

#[test]
fn empty_table_is_trivially_free() {
    let r = explore(Vec::new(), 10);
    assert_eq!(r.verdict, Verdict::DeadlockFree);
    assert!(r.state.finished());
    assert_eq!(r.state.log.len(), 0);
}
