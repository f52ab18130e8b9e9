//! The arrangement builder: wires N actors and N forks into a ring.
//!
//! The default wiring gives actor `i` the pair `(i, i+1 mod n)`, acquired
//! left-first, so all actors follow the same rotational direction; the fix
//! swaps the last actor's pair, after which every actor acquires its
//! lower-numbered fork first.

use vstd::prelude::*;

verus! {

/// One actor of the arrangement: a name and the indices of the two forks it
/// contends for, acquired left-first.
pub struct Philosopher {
    pub name: String,
    pub left_fork: usize,
    pub right_fork: usize,
}

impl Philosopher {
    pub fn new(name: String, left_fork: usize, right_fork: usize) -> (p: Philosopher)
        ensures
            p.name@ == name@,
            p.left_fork == left_fork,
            p.right_fork == right_fork,
    {
        Philosopher { name, left_fork, right_fork }
    }
}

/// The seat to the right of seat `i` at a round table of `n` seats.
pub open spec fn next_seat(n: int, i: int) -> int {
    if i + 1 < n {
        i + 1
    } else {
        0
    }
}

/// The left fork the builder assigns to actor `i` of `n`.
pub open spec fn assigned_left(n: int, i: int, apply_fix: bool) -> int {
    if apply_fix && i == n - 1 {
        next_seat(n, i)
    } else {
        i
    }
}

/// The right fork the builder assigns to actor `i` of `n`.
pub open spec fn assigned_right(n: int, i: int, apply_fix: bool) -> int {
    if apply_fix && i == n - 1 {
        i
    } else {
        next_seat(n, i)
    }
}

/// The table is exactly what the builder produces for `apply_fix`:
/// a full ring, with the last actor's pair swapped when the fix is on.
pub open spec fn ring_table(table: Seq<Philosopher>, apply_fix: bool) -> bool {
    forall|i: int|
        0 <= i < table.len() ==> {
            &&& (#[trigger] table[i]).left_fork == assigned_left(
                table.len() as int,
                i,
                apply_fix,
            )
            &&& table[i].right_fork == assigned_right(table.len() as int, i, apply_fix)
        }
}

/// Every fork index is in range and no actor's two forks coincide: what the
/// protocol model needs of a table.
pub open spec fn wiring_ok(table: Seq<Philosopher>) -> bool {
    forall|i: int|
        0 <= i < table.len() ==> {
            &&& (#[trigger] table[i]).left_fork < table.len()
            &&& table[i].right_fork < table.len()
            &&& table[i].left_fork != table[i].right_fork
        }
}

/// Every actor acquires its lower-numbered fork first. This is the ordering
/// property the fix establishes, and it is what rules deadlock out.
pub open spec fn ordered_forks(table: Seq<Philosopher>) -> bool {
    forall|i: int|
        0 <= i < table.len() ==> (#[trigger] table[i]).left_fork < table[i].right_fork
}

/// A full ring (two or more seats) is always admissible wiring, and the fixed
/// ring acquires forks in ascending order.
pub proof fn lemma_ring_table_properties(table: Seq<Philosopher>, apply_fix: bool)
    requires
        ring_table(table, apply_fix),
        table.len() >= 2,
    ensures
        wiring_ok(table),
        apply_fix ==> ordered_forks(table),
{
}

/// Fork adjacency is the same ring with or without the fix: fork `f` belongs
/// to actor `f` and to the actor before seat `f`, and to no other.
pub proof fn lemma_ring_forks_shared_by_neighbors(
    table: Seq<Philosopher>,
    apply_fix: bool,
    f: int,
    j: int,
)
    requires
        ring_table(table, apply_fix),
        table.len() >= 2,
        0 <= f < table.len(),
        0 <= j < table.len(),
    ensures
        (table[j].left_fork == f || table[j].right_fork == f) <==> (j == f || next_seat(
            table.len() as int,
            j,
        ) == f),
{
}

/// Builds the ring: actor `i` is named `names[i]` and holds the pair
/// `(i, i+1 mod n)`, with the last actor's pair swapped when `apply_fix` is
/// set. Fewer than two names give a degenerate (empty or single-seat) table.
pub fn build_arrangement(names: Vec<String>, apply_fix: bool) -> (table: Vec<Philosopher>)
    ensures
        table@.len() == names@.len(),
        forall|i: int| 0 <= i < table@.len() ==> (#[trigger] table@[i]).name@ == names@[i]@,
        ring_table(table@, apply_fix),
{
    let n = names.len();
    let ghost all_names = names@;
    let mut rest = names;
    let mut table: Vec<Philosopher> = Vec::new();
    let mut i: usize = 0;
    while i < n
        invariant
            n == all_names.len(),
            i <= n,
            rest@ == all_names.subrange(i as int, n as int),
            table@.len() == i,
            forall|k: int| 0 <= k < i ==> (#[trigger] table@[k]).name@ == all_names[k]@,
            forall|k: int|
                0 <= k < i ==> {
                    &&& (#[trigger] table@[k]).left_fork == assigned_left(
                        n as int,
                        k,
                        apply_fix,
                    )
                    &&& table@[k].right_fork == assigned_right(n as int, k, apply_fix)
                },
        decreases n - i,
    {
        let name = rest.remove(0);
        let nxt = if i + 1 < n {
            i + 1
        } else {
            0
        };
        let (lf, rf) = if apply_fix && i == n - 1 {
            (nxt, i)
        } else {
            (i, nxt)
        };
        table.push(Philosopher::new(name, lf, rf));
        proof {
            assert(rest@ =~= all_names.subrange(i + 1, n as int));
        }
        i = i + 1;
    }
    table
}

} // verus!
