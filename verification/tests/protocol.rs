use dining_philosophers::arrangement::build_arrangement;
use dining_philosophers::harness::MealOutcome;
use dining_philosophers::harness::eat_outcome;
use dining_philosophers::model::ModelState;
use dining_philosophers::model::Phase;

fn names(list: &[&str]) -> Vec<String> {
    let mut v: Vec<String> = Vec::new();
    for n in list {
        v.push(n.to_string());
    }
    v
}

#[test]
fn initial_state_is_all_thinking() {
    let table = build_arrangement(names(&["a", "b", "c"]), false);
    let s = ModelState::new(table, 10);
    assert!(!s.finished());
    assert!(!s.check_deadlocked());
    for st in s.actors.iter() {
        assert_eq!(st.phase, Phase::Thinking);
        assert_eq!(st.remaining, 10);
        assert_eq!(st.thoughts_sent, 0);
    }
    for f in s.forks.iter() {
        assert!(f.is_none());
    }
    assert!(s.log.is_empty());
}

#[test]
fn one_actor_walks_its_cycle() {
    let table = build_arrangement(names(&["a", "b"]), false);
    let mut s = ModelState::new(table, 2);
    s.step(0);
    assert_eq!(s.actors[0].phase, Phase::AcquiringLeft);
    assert_eq!(s.log.len(), 1);
    assert_eq!(s.log[0].actor, 0);
    assert_eq!(s.log[0].seq_no, 0);
    s.step(0);
    assert_eq!(s.actors[0].phase, Phase::AcquiringRight);
    assert_eq!(s.forks[0], Some(0));
    s.step(0);
    assert_eq!(s.actors[0].phase, Phase::Eating);
    assert_eq!(s.forks[1], Some(0));
    s.step(0);
    assert_eq!(s.actors[0].phase, Phase::Releasing);
    s.step(0);
    assert_eq!(s.actors[0].phase, Phase::Thinking);
    assert_eq!(s.forks[0], None);
    assert_eq!(s.forks[1], None);
    assert_eq!(s.actors[0].remaining, 1);
    assert_eq!(s.actors[0].thoughts_sent, 1);
}

#[test]
fn neighbors_block_on_held_forks() {
    let table = build_arrangement(names(&["a", "b"]), false);
    let mut s = ModelState::new(table, 5);
    s.step(0);
    s.step(0);
    s.step(1);
    s.step(1);
    assert_eq!(s.forks[0], Some(0));
    assert_eq!(s.forks[1], Some(1));
    assert_eq!(s.actors[0].phase, Phase::AcquiringRight);
    assert_eq!(s.actors[1].phase, Phase::AcquiringRight);
    assert!(!s.is_enabled(0));
    assert!(!s.is_enabled(1));
    assert!(s.find_enabled().is_none());
    assert!(s.check_deadlocked());
}

#[test]
fn second_thought_carries_next_number() {
    let table = build_arrangement(names(&["a", "b"]), true);
    let mut s = ModelState::new(table, 3);
    for _ in 0..5 {
        s.step(0);
    }
    s.step(0);
    assert_eq!(s.log.len(), 2);
    assert_eq!(s.log[0].seq_no, 0);
    assert_eq!(s.log[1].seq_no, 1);
    assert_eq!(s.log[1].actor, 0);
}

#[test]
fn eating_needs_both_forks() {
    assert_eq!(eat_outcome(true, true), MealOutcome::Ate);
    assert_eq!(eat_outcome(true, false), MealOutcome::MissedForks);
    assert_eq!(eat_outcome(false, true), MealOutcome::MissedForks);
    assert_eq!(eat_outcome(false, false), MealOutcome::MissedForks);
}
