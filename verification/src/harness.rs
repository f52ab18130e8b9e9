//! The exhaustive-interleaving side of the execution harness.
//!
//! A scheduling history is a sequence of actor choices, each enabled when
//! taken; `reachable` says which states the legal interleavings can produce.
//! For the naive full ring, `reach_deadlock` drives the system into the
//! deadlock state along one such history, so deadlock is reachable. For an
//! ordered arrangement — what the fix produces — `lemma_ordered_not_deadlocked`
//! shows that no reachable state is ever the deadlock, which covers every
//! interleaving at once, and `run_to_completion` executes one interleaving to
//! the end, draining every thought. `explore` packages both verdicts.

use crate::arrangement::Philosopher;
use crate::arrangement::assigned_left;
use crate::arrangement::assigned_right;
use crate::arrangement::ordered_forks;
use crate::arrangement::ring_table;
use crate::arrangement::wiring_ok;
use crate::model::ActorState;
use crate::model::ModelState;
use crate::model::Phase;
use crate::model::actor_ok;
use crate::model::all_done;
use crate::model::deadlocked;
use crate::model::enabled;
use crate::model::holder_ok;
use crate::model::holds_fork;
use crate::model::initial_state;
use crate::model::lemma_all_thoughts_drained;
use crate::model::lemma_initial_wf;
use crate::model::lemma_step_preserves_wf;
use crate::model::step_spec;
use crate::model::wf;
use vstd::prelude::*;

verus! {

/// Running the actors of `trace` in order from `init`, each enabled when its
/// turn comes, leaves the system in state `s`: one legal interleaving.
pub open spec fn reachable(init: ModelState, s: ModelState, trace: Seq<int>) -> bool
    decreases trace.len(),
{
    if trace.len() == 0 {
        s == init
    } else {
        exists|mid: ModelState|
            {
                &&& reachable(init, mid, trace.drop_last())
                &&& enabled(mid, trace.last())
                &&& #[trigger] step_spec(mid, s, trace.last())
            }
    }
}

/// One more enabled step extends a history.
pub proof fn lemma_reachable_extend(
    init: ModelState,
    mid: ModelState,
    s: ModelState,
    trace: Seq<int>,
    a: int,
)
    requires
        reachable(init, mid, trace),
        enabled(mid, a),
        step_spec(mid, s, a),
    ensures
        reachable(init, s, trace.push(a)),
{
    let t2 = trace.push(a);
    assert(t2.drop_last() =~= trace);
    assert(t2.last() == a);
    assert(t2.len() == trace.len() + 1);
    assert(reachable(init, mid, t2.drop_last()));
    assert(exists|m: ModelState|
        {
            &&& reachable(init, m, t2.drop_last())
            &&& enabled(m, t2.last())
            &&& #[trigger] step_spec(m, s, t2.last())
        });
}

/// Every reachable state of a well-formed system is well formed, over the
/// same table and iteration count.
pub proof fn lemma_reachable_wf(init: ModelState, s: ModelState, trace: Seq<int>)
    requires
        wf(init),
        reachable(init, s, trace),
    ensures
        wf(s),
        s.table@ == init.table@,
        s.iterations == init.iterations,
    decreases trace.len(),
{
    if trace.len() != 0 {
        assert(exists|mid: ModelState|
            {
                &&& reachable(init, mid, trace.drop_last())
                &&& enabled(mid, trace.last())
                &&& #[trigger] step_spec(mid, s, trace.last())
            });
        let mid = choose|mid: ModelState|
            {
                &&& reachable(init, mid, trace.drop_last())
                &&& enabled(mid, trace.last())
                &&& #[trigger] step_spec(mid, s, trace.last())
            };
        lemma_reachable_wf(init, mid, trace.drop_last());
        lemma_step_preserves_wf(mid, s, trace.last());
    }
}

/// Among the first `k` actors at least one of which is blocked on its right
/// fork, picks one whose held left fork has the highest number.
proof fn lemma_max_acquiring(s: ModelState, k: int) -> (m: int)
    requires
        wf(s),
        0 <= k <= s.table@.len(),
        exists|a: int|
            0 <= a < k && (#[trigger] s.actors@[a]).phase == Phase::AcquiringRight,
    ensures
        0 <= m < k,
        s.actors@[m].phase == Phase::AcquiringRight,
        forall|b: int|
            0 <= b < k && (#[trigger] s.actors@[b]).phase == Phase::AcquiringRight
                ==> s.table@[b].left_fork <= s.table@[m].left_fork,
    decreases k,
{
    if s.actors@[k - 1].phase == Phase::AcquiringRight {
        if exists|a: int|
            0 <= a < k - 1 && (#[trigger] s.actors@[a]).phase == Phase::AcquiringRight {
            let m0 = lemma_max_acquiring(s, k - 1);
            if s.table@[m0].left_fork >= s.table@[k - 1].left_fork {
                m0
            } else {
                k - 1
            }
        } else {
            k - 1
        }
    } else {
        let a0 = choose|a: int|
            0 <= a < k && (#[trigger] s.actors@[a]).phase == Phase::AcquiringRight;
        assert(a0 < k - 1);
        lemma_max_acquiring(s, k - 1)
    }
}

/// Deadlock freedom of ordered arrangements: in a well-formed state whose
/// actors all acquire their lower-numbered fork first — what the ordering
/// fix establishes — work left always means some actor can move. Were every
/// actor stuck, each held fork would belong to an actor blocked on a
/// higher-numbered fork, and the highest held fork's owner would have
/// nobody left to wait for.
pub proof fn lemma_ordered_not_deadlocked(s: ModelState)
    requires
        wf(s),
        ordered_forks(s.table@),
        !all_done(s),
    ensures
        !deadlocked(s),
        exists|a: int| 0 <= a < s.table@.len() && enabled(s, a),
{
    let n = s.table@.len() as int;
    if !(exists|a: int| 0 <= a < n && enabled(s, a)) {
        let a0 = choose|a: int|
            0 <= a < n && (#[trigger] s.actors@[a]).phase != Phase::Done;
        assert(exists|a: int|
            0 <= a < n && (#[trigger] s.actors@[a]).phase == Phase::AcquiringRight) by {
            match s.actors@[a0].phase {
                Phase::Thinking => {
                    assert(enabled(s, a0));
                },
                Phase::AcquiringLeft => {
                    let lf = s.table@[a0].left_fork as int;
                    assert(0 <= lf < n);
                    assert(!enabled(s, a0));
                    assert(s.forks@[lf] is Some);
                    assert(holder_ok(s, lf));
                    let h = s.forks@[lf]->Some_0 as int;
                    assert(holds_fork(s, h, lf));
                    if s.actors@[h].phase != Phase::AcquiringRight {
                        assert(enabled(s, h));
                    }
                },
                Phase::AcquiringRight => {},
                Phase::Eating => {
                    assert(enabled(s, a0));
                },
                Phase::Releasing => {
                    assert(enabled(s, a0));
                },
                Phase::Done => {
                    assert(false);
                },
            }
        }
        let m = lemma_max_acquiring(s, n);
        let r = s.table@[m].right_fork as int;
        assert(s.table@[m].left_fork < r);
        assert(0 <= r < n);
        assert(!enabled(s, m));
        assert(s.forks@[r] is Some);
        assert(holder_ok(s, r));
        let h2 = s.forks@[r]->Some_0 as int;
        assert(holds_fork(s, h2, r));
        if s.actors@[h2].phase != Phase::AcquiringRight {
            assert(enabled(s, h2));
        }
        assert(s.table@[h2].left_fork == r);
        assert(s.table@[h2].left_fork <= s.table@[m].left_fork);
        assert(false);
    }
}

/// The fixed arrangement never deadlocks: from the initial state of any
/// ordered wiring, no legal interleaving reaches the deadlock state.
pub proof fn lemma_no_interleaving_deadlocks(init: ModelState, s: ModelState, trace: Seq<int>)
    requires
        wf(init),
        ordered_forks(init.table@),
        reachable(init, s, trace),
    ensures
        !deadlocked(s),
{
    lemma_reachable_wf(init, s, trace);
    if !all_done(s) {
        lemma_ordered_not_deadlocked(s);
    }
}

/// Drives the naive full ring into the deadlock: scheduled left to right,
/// every actor thinks and takes its left fork, after which each is blocked
/// on the fork its neighbour holds. The ghost history witnesses that the
/// deadlock state is reachable by a legal interleaving.
pub fn reach_deadlock(s: &mut ModelState) -> (history: Ghost<Seq<int>>)
    requires
        wf(*old(s)),
        ring_table(old(s).table@, false),
        old(s).table@.len() >= 2,
        forall|a: int|
            0 <= a < old(s).actors@.len() ==> (#[trigger] old(s).actors@[a]).phase
                == Phase::Thinking,
        forall|f: int| 0 <= f < old(s).forks@.len() ==> old(s).forks@[f] is None,
    ensures
        wf(*final(s)),
        deadlocked(*final(s)),
        final(s).table@ == old(s).table@,
        reachable(*old(s), *final(s), history@),
{
    let ghost init = *s;
    let ghost mut tr: Seq<int> = Seq::empty();
    proof {
        assert(reachable(init, *s, tr));
    }
    let n = s.table.len();
    let mut i: usize = 0;
    while i < n
        invariant
            wf(*s),
            s.table@ == init.table@,
            n == s.table@.len(),
            n >= 2,
            i <= n,
            ring_table(s.table@, false),
            reachable(init, *s, tr),
            forall|a: int|
                0 <= a < i ==> (#[trigger] s.actors@[a]).phase == Phase::AcquiringRight,
            forall|a: int|
                i <= a < n ==> (#[trigger] s.actors@[a]).phase == Phase::Thinking,
            forall|f: int| 0 <= f < i ==> s.forks@[f] == Some(f as usize),
            forall|f: int| i <= f < n ==> s.forks@[f] is None,
        decreases n - i,
    {
        let ghost pre1 = *s;
        s.step(i);
        proof {
            lemma_reachable_extend(init, pre1, *s, tr, i as int);
            tr = tr.push(i as int);
        }
        let ghost pre2 = *s;
        proof {
            assert(s.table@[i as int].left_fork == assigned_left(n as int, i as int, false));
            assert(enabled(*s, i as int));
        }
        s.step(i);
        proof {
            lemma_reachable_extend(init, pre2, *s, tr, i as int);
            tr = tr.push(i as int);
        }
        i = i + 1;
    }
    proof {
        assert(s.actors@[0].phase == Phase::AcquiringRight);
        assert(!all_done(*s));
        assert forall|a: int| !enabled(*s, a) by {
            if 0 <= a < n {
                let r = s.table@[a].right_fork as int;
                assert(r == assigned_right(n as int, a, false));
                assert(0 <= r < n);
                assert(s.forks@[r] is Some);
            }
        }
    }
    Ghost(tr)
}

/// How far one actor still is from done, for termination of its run.
pub open spec fn phase_rank(ph: Phase) -> int {
    match ph {
        Phase::Thinking => 5,
        Phase::AcquiringLeft => 4,
        Phase::AcquiringRight => 3,
        Phase::Eating => 2,
        Phase::Releasing => 1,
        Phase::Done => 0,
    }
}

/// Strictly falls with every step the actor takes.
pub open spec fn actor_measure(st: ActorState) -> int {
    5 * st.remaining + phase_rank(st.phase)
}

/// Runs every actor to completion under the sequential schedule: actor 0
/// finishes all its iterations, then actor 1, and so on. Alone at the table,
/// an actor finds both its forks free, so each step taken is enabled and
/// this is one legal interleaving; it ends with all actors done and every
/// thought drained into the log.
pub fn run_to_completion(s: &mut ModelState) -> (history: Ghost<Seq<int>>)
    requires
        wf(*old(s)),
        forall|a: int|
            0 <= a < old(s).actors@.len() ==> ((#[trigger] old(s).actors@[a]).phase
                == Phase::Thinking || old(s).actors@[a].phase == Phase::Done),
        forall|f: int| 0 <= f < old(s).forks@.len() ==> old(s).forks@[f] is None,
    ensures
        wf(*final(s)),
        all_done(*final(s)),
        final(s).table@ == old(s).table@,
        final(s).iterations == old(s).iterations,
        forall|a: int|
            0 <= a < final(s).actors@.len() ==> (#[trigger] final(s).actors@[a]).thoughts_sent
                == final(s).iterations,
        final(s).log@.len() == final(s).table@.len() * final(s).iterations,
        reachable(*old(s), *final(s), history@),
{
    let ghost init = *s;
    let ghost mut tr: Seq<int> = Seq::empty();
    proof {
        assert(reachable(init, *s, tr));
    }
    let n = s.table.len();
    let mut i: usize = 0;
    while i < n
        invariant
            wf(*s),
            s.table@ == init.table@,
            s.iterations == init.iterations,
            n == s.table@.len(),
            i <= n,
            reachable(init, *s, tr),
            forall|a: int| 0 <= a < i ==> (#[trigger] s.actors@[a]).phase == Phase::Done,
            forall|a: int|
                i <= a < n ==> ((#[trigger] s.actors@[a]).phase == Phase::Thinking
                    || s.actors@[a].phase == Phase::Done),
            forall|f: int| 0 <= f < n ==> s.forks@[f] is None,
        decreases n - i,
    {
        while s.actors[i].phase != Phase::Done
            invariant
                wf(*s),
                s.table@ == init.table@,
                s.iterations == init.iterations,
                n == s.table@.len(),
                i < n,
                reachable(init, *s, tr),
                forall|a: int| 0 <= a < i ==> (#[trigger] s.actors@[a]).phase == Phase::Done,
                forall|a: int|
                    i < a < n ==> ((#[trigger] s.actors@[a]).phase == Phase::Thinking
                        || s.actors@[a].phase == Phase::Done),
                forall|f: int|
                    0 <= f < n ==> ((#[trigger] s.forks@[f]) matches Some(h) ==> h == i),
            decreases actor_measure(s.actors@[i as int]),
        {
            proof {
                let ii = i as int;
                if s.actors@[ii].phase == Phase::AcquiringLeft {
                    let lf = s.table@[ii].left_fork as int;
                    assert(holder_ok(*s, lf));
                    if s.forks@[lf] is Some {
                        assert(holds_fork(*s, s.forks@[lf]->Some_0 as int, lf));
                        assert(false);
                    }
                }
                if s.actors@[ii].phase == Phase::AcquiringRight {
                    let rf = s.table@[ii].right_fork as int;
                    assert(holder_ok(*s, rf));
                    if s.forks@[rf] is Some {
                        assert(holds_fork(*s, s.forks@[rf]->Some_0 as int, rf));
                        assert(false);
                    }
                }
                assert(enabled(*s, ii));
                assert(actor_ok(*s, ii));
            }
            let ghost pre = *s;
            s.step(i);
            proof {
                lemma_reachable_extend(init, pre, *s, tr, i as int);
                tr = tr.push(i as int);
                assert(actor_measure(s.actors@[i as int]) < actor_measure(
                    pre.actors@[i as int],
                ));
            }
        }
        proof {
            assert forall|f: int| 0 <= f < n implies s.forks@[f] is None by {
                assert(holder_ok(*s, f));
                if s.forks@[f] is Some {
                    assert(holds_fork(*s, s.forks@[f]->Some_0 as int, f));
                    assert(false);
                }
            }
        }
        i = i + 1;
    }
    proof {
        assert forall|a: int|
            0 <= a < s.actors@.len() implies (#[trigger] s.actors@[a]).thoughts_sent
            == s.iterations by {
            assert(actor_ok(*s, a));
        }
        lemma_all_thoughts_drained(*s);
    }
    Ghost(tr)
}

/// What the interleaving exploration concluded about an arrangement.
#[derive(Clone, Copy, PartialEq, Eq, Structural, Debug)]
pub enum Verdict {
    /// A legal interleaving reached the deadlock state.
    DeadlockReached,
    /// No interleaving can deadlock; one ran every actor to completion.
    DeadlockFree,
    /// The wiring is not one of the ring shapes this harness decides.
    Unknown,
}

/// A verdict, the system state the exploration ended in, and the ghost
/// provenance of that state: the initial state it was run from and the
/// interleaving that produced it.
pub struct Exploration {
    pub verdict: Verdict,
    pub state: ModelState,
    pub start: Ghost<ModelState>,
    pub history: Ghost<Seq<int>>,
}

/// The exhaustive-interleaving backend of the harness, run on a table for a
/// per-actor iteration count. For the naive full ring it reports the
/// deadlock, handing back the final state of an actual deadlocking schedule
/// from the table's initial state; for an ordered wiring — what the fix
/// produces — it reports that no legal interleaving from that initial state
/// ever deadlocks, and hands back the state of one run to completion.
pub fn explore(table: Vec<Philosopher>, iterations: u32) -> (r: Exploration)
    ensures
        wf(r.state),
        r.verdict == Verdict::DeadlockReached || r.verdict == Verdict::DeadlockFree ==> {
            &&& initial_state(r.start@, table@, iterations)
            &&& reachable(r.start@, r.state, r.history@)
        },
        r.verdict == Verdict::DeadlockReached ==> deadlocked(r.state),
        r.verdict == Verdict::DeadlockFree ==> all_done(r.state) && r.state.log@.len() == table@.len()
            * iterations && (forall|
            s2: ModelState,
            trace: Seq<int>,
        |
            #[trigger] reachable(r.start@, s2, trace) ==> !deadlocked(s2)),
        ring_table(table@, false) && table@.len() >= 2 && iterations >= 1 ==> r.verdict
            == Verdict::DeadlockReached,
        wiring_ok(table@) && ordered_forks(table@) ==> r.verdict == Verdict::DeadlockFree,
{
    let n = table.len();
    if !wiring_valid(&table) {
        proof {
            if ring_table(table@, false) && table@.len() >= 2 {
                crate::arrangement::lemma_ring_table_properties(table@, false);
            }
        }
        let s = ModelState::new(Vec::new(), 0);
        let ghost start = s;
        return Exploration {
            verdict: Verdict::Unknown,
            state: s,
            start: Ghost(start),
            history: Ghost(Seq::empty()),
        };
    }
    if fork_order_valid(&table) {
        proof {
            if ring_table(table@, false) && table@.len() >= 2 {
                let last = table@.len() - 1;
                assert(table@[last].left_fork == assigned_left(table@.len() as int, last, false));
                assert(table@[last].right_fork == assigned_right(
                    table@.len() as int,
                    last,
                    false,
                ));
                assert(false);
            }
        }
        let mut s = ModelState::new(table, iterations);
        let ghost start = s;
        let history = run_to_completion(&mut s);
        proof {
            assert forall|s2: ModelState, trace: Seq<int>| #[trigger] reachable(
                start,
                s2,
                trace,
            ) implies !deadlocked(s2) by {
                lemma_initial_wf(start, table@, iterations);
                lemma_no_interleaving_deadlocks(start, s2, trace);
            }
        }
        return Exploration { verdict: Verdict::DeadlockFree, state: s, start: Ghost(start), history };
    }
    if n >= 2 && iterations >= 1 && is_default_ring(&table) {
        let mut s = ModelState::new(table, iterations);
        let ghost start = s;
        let history = reach_deadlock(&mut s);
        return Exploration {
            verdict: Verdict::DeadlockReached,
            state: s,
            start: Ghost(start),
            history,
        };
    }
    let s = ModelState::new(table, iterations);
    let ghost start = s;
    Exploration { verdict: Verdict::Unknown, state: s, start: Ghost(start), history: Ghost(Seq::empty()) }
}

/// Runtime check for `wiring_ok`, so unverified callers can validate a table
/// before handing it to the model.
pub fn wiring_valid(table: &Vec<Philosopher>) -> (r: bool)
    ensures
        r == wiring_ok(table@),
{
    let n = table.len();
    let mut i: usize = 0;
    while i < n
        invariant
            n == table@.len(),
            i <= n,
            forall|k: int|
                0 <= k < i ==> {
                    &&& (#[trigger] table@[k]).left_fork < n
                    &&& table@[k].right_fork < n
                    &&& table@[k].left_fork != table@[k].right_fork
                },
        decreases n - i,
    {
        let lf = table[i].left_fork;
        let rf = table[i].right_fork;
        if lf >= n || rf >= n || lf == rf {
            return false;
        }
        i = i + 1;
    }
    true
}

/// Runtime check for `ordered_forks`.
pub fn fork_order_valid(table: &Vec<Philosopher>) -> (r: bool)
    ensures
        r == ordered_forks(table@),
{
    let n = table.len();
    let mut i: usize = 0;
    while i < n
        invariant
            n == table@.len(),
            i <= n,
            forall|k: int| 0 <= k < i ==> (#[trigger] table@[k]).left_fork < table@[k].right_fork,
        decreases n - i,
    {
        if table[i].left_fork >= table[i].right_fork {
            return false;
        }
        i = i + 1;
    }
    true
}

/// Runtime check for the naive full ring, `ring_table(table, false)`.
pub fn is_default_ring(table: &Vec<Philosopher>) -> (r: bool)
    ensures
        r == ring_table(table@, false),
{
    let n = table.len();
    let mut i: usize = 0;
    while i < n
        invariant
            n == table@.len(),
            i <= n,
            forall|k: int|
                0 <= k < i ==> {
                    &&& (#[trigger] table@[k]).left_fork == assigned_left(n as int, k, false)
                    &&& table@[k].right_fork == assigned_right(n as int, k, false)
                },
        decreases n - i,
    {
        let nxt = if i + 1 < n {
            i + 1
        } else {
            0
        };
        if table[i].left_fork != i || table[i].right_fork != nxt {
            return false;
        }
        i = i + 1;
    }
    true
}

/// The outcome of one eat attempt.
#[derive(Clone, Copy, PartialEq, Eq, Structural, Debug)]
pub enum MealOutcome {
    /// Both forks acquired: the actor eats and then releases both.
    Ate,
    /// An acquisition reported a poisoned lock: the non-fatal alternate
    /// outcome, no eating this round.
    MissedForks,
}

/// Decides an eat attempt from the two lock acquisitions: eating requires
/// both, and a poisoned lock on either side turns the round into the
/// "couldn't get both forks" outcome instead of an error.
pub fn eat_outcome(left_acquired: bool, right_acquired: bool) -> (r: MealOutcome)
    ensures
        (r == MealOutcome::Ate) <==> (left_acquired && right_acquired),
{
    if left_acquired && right_acquired {
        MealOutcome::Ate
    } else {
        MealOutcome::MissedForks
    }
}

/// All the steps the first `k` actors can still take.
pub open spec fn measure_sum(s: ModelState, k: int) -> int
    decreases k,
{
    if k <= 0 {
        0
    } else {
        measure_sum(s, k - 1) + actor_measure(s.actors@[k - 1])
    }
}

/// All the steps the whole system can still take.
pub open spec fn total_measure(s: ModelState) -> int {
    measure_sum(s, s.actors@.len() as int)
}

proof fn lemma_measure_sum_nonneg(s: ModelState, k: int)
    ensures
        measure_sum(s, k) >= 0,
    decreases k,
{
    if k > 0 {
        lemma_measure_sum_nonneg(s, k - 1);
    }
}

proof fn lemma_measure_sum_update(pre: ModelState, post: ModelState, a: int, k: int)
    requires
        post.actors@.len() == pre.actors@.len(),
        0 <= a < pre.actors@.len(),
        forall|b: int|
            0 <= b < pre.actors@.len() && b != a ==> post.actors@[b] == pre.actors@[b],
        0 <= k <= pre.actors@.len(),
    ensures
        measure_sum(post, k) == measure_sum(pre, k) + (if a < k {
            actor_measure(post.actors@[a]) - actor_measure(pre.actors@[a])
        } else {
            0int
        }),
    decreases k,
{
    if k > 0 {
        lemma_measure_sum_update(pre, post, a, k - 1);
    }
}

/// Every transition burns work: one phase forward, or one iteration closed.
pub proof fn lemma_step_decreases_measure(pre: ModelState, post: ModelState, a: int)
    requires
        wf(pre),
        enabled(pre, a),
        step_spec(pre, post, a),
    ensures
        total_measure(post) < total_measure(pre),
{
    assert(actor_ok(pre, a));
    lemma_measure_sum_update(pre, post, a, pre.actors@.len() as int);
    assert(actor_measure(post.actors@[a]) < actor_measure(pre.actors@[a]));
}

/// No interleaving runs forever: a history from `init` is never longer than
/// the work `init` holds. Together with `lemma_ordered_not_deadlocked` this
/// is why every actor of an ordered arrangement eventually completes: a run
/// that can no longer be extended is all done, and every run is finite.
pub proof fn lemma_runs_are_bounded(init: ModelState, s: ModelState, trace: Seq<int>)
    requires
        wf(init),
        reachable(init, s, trace),
    ensures
        trace.len() + total_measure(s) <= total_measure(init),
        trace.len() <= total_measure(init),
    decreases trace.len(),
{
    lemma_measure_sum_nonneg(s, s.actors@.len() as int);
    if trace.len() != 0 {
        let mid = choose|mid: ModelState|
            {
                &&& reachable(init, mid, trace.drop_last())
                &&& enabled(mid, trace.last())
                &&& #[trigger] step_spec(mid, s, trace.last())
            };
        lemma_runs_are_bounded(init, mid, trace.drop_last());
        lemma_reachable_wf(init, mid, trace.drop_last());
        lemma_step_decreases_measure(mid, s, trace.last());
    }
}

} // verus!
