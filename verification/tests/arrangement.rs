use dining_philosophers::arrangement::Philosopher;
use dining_philosophers::arrangement::build_arrangement;

fn names(list: &[&str]) -> Vec<String> {
    let mut v: Vec<String> = Vec::new();
    for n in list {
        v.push(n.to_string());
    }
    v
}

#[test]
fn philosopher_new_keeps_fields() {
    let p = Philosopher::new("Hypatia".to_string(), 3, 4);
    assert_eq!(p.name, "Hypatia");
    assert_eq!(p.left_fork, 3);
    assert_eq!(p.right_fork, 4);
}

#[test]
fn default_ring_wires_forward() {
    let table = build_arrangement(
        names(&["Socrates", "Hypatia", "Plato", "Aristotle", "Pythagoras"]),
        false,
    );
    assert_eq!(table.len(), 5);
    for (i, p) in table.iter().enumerate() {
        assert_eq!(p.left_fork, i);
        assert_eq!(p.right_fork, (i + 1) % 5);
    }
    assert_eq!(table[0].name, "Socrates");
    assert_eq!(table[4].name, "Pythagoras");
}

#[test]
fn fix_swaps_only_the_last_pair() {
    let table = build_arrangement(
        names(&["Socrates", "Hypatia", "Plato", "Aristotle", "Pythagoras"]),
        true,
    );
    for (i, p) in table.iter().enumerate().take(4) {
        assert_eq!(p.left_fork, i);
        assert_eq!(p.right_fork, i + 1);
    }
    assert_eq!(table[4].left_fork, 0);
    assert_eq!(table[4].right_fork, 4);
}

#[test]
fn fixed_ring_is_ascending_everywhere() {
    let table = build_arrangement(names(&["a", "b", "c"]), true);
    for p in table.iter() {
        assert!(p.left_fork < p.right_fork);
    }
}

#[test]
fn two_seats_share_both_forks() {
    let table = build_arrangement(names(&["left", "right"]), false);
    assert_eq!((table[0].left_fork, table[0].right_fork), (0, 1));
    assert_eq!((table[1].left_fork, table[1].right_fork), (1, 0));
    let fixed = build_arrangement(names(&["left", "right"]), true);
    assert_eq!((fixed[0].left_fork, fixed[0].right_fork), (0, 1));
    assert_eq!((fixed[1].left_fork, fixed[1].right_fork), (0, 1));
}
