//! The actor protocol as an explicit state machine over interleavings.
//!
//! Each actor cycles through think → acquire left → acquire right → eat →
//! release for a fixed number of iterations; a scheduler step runs one
//! enabled actor one transition forward. Acquisition steps are enabled only
//! while the wanted fork is free, which is where an actor can block. The
//! well-formedness predicate ties the fork ownership table to the actor
//! phases and the event log, and every step preserves it.

use crate::arrangement::Philosopher;
use crate::arrangement::wiring_ok;
use vstd::prelude::*;

verus! {

/// Where an actor stands in its think/acquire/eat/release cycle.
#[derive(Clone, Copy, PartialEq, Eq, Structural, Debug)]
pub enum Phase {
    Thinking,
    AcquiringLeft,
    AcquiringRight,
    Eating,
    Releasing,
    Done,
}

/// One "thought" message on the event channel: who sent it, and how many the
/// sender had sent before it.
#[derive(Clone, Copy, PartialEq, Eq, Structural, Debug)]
pub struct Event {
    pub actor: usize,
    pub seq_no: u32,
}

/// The scheduler-visible state of one actor.
#[derive(Clone, Copy, PartialEq, Eq, Structural, Debug)]
pub struct ActorState {
    pub phase: Phase,
    /// Iterations of the cycle still to run, this one included while in it.
    pub remaining: u32,
    /// Thoughts sent so far.
    pub thoughts_sent: u32,
}

/// A whole-system state: the wiring, each actor's progress, each fork's
/// holder, and the drained event log.
pub struct ModelState {
    pub table: Vec<Philosopher>,
    pub actors: Vec<ActorState>,
    pub forks: Vec<Option<usize>>,
    pub log: Vec<Event>,
    /// Iterations of the cycle each actor runs in total.
    pub iterations: u32,
}

/// Actor `a` holds fork `f`: it has taken its left fork and not yet released
/// (holding both while eating or releasing).
pub open spec fn holds_fork(s: ModelState, a: int, f: int) -> bool {
    &&& 0 <= a < s.table@.len()
    &&& {
        let p = s.table@[a];
        let ph = s.actors@[a].phase;
        ||| (ph == Phase::AcquiringRight && p.left_fork == f)
        ||| ((ph == Phase::Eating || ph == Phase::Releasing) && (p.left_fork == f
            || p.right_fork == f))
    }
}

/// The ownership table agrees with the phases at fork `f`: whoever the
/// protocol says holds `f` is recorded as its holder, and the recorded
/// holder really holds it.
pub open spec fn holder_ok(s: ModelState, f: int) -> bool {
    &&& forall|a: int| #[trigger] holds_fork(s, a, f) ==> s.forks@[f] == Some(a as usize)
    &&& (s.forks@[f] matches Some(h) ==> holds_fork(s, h as int, f))
}

/// How many of the first `upto` log entries actor `a` sent.
pub open spec fn thoughts_before(log: Seq<Event>, a: int, upto: int) -> nat
    decreases upto,
{
    if upto <= 0 {
        0
    } else {
        thoughts_before(log, a, upto - 1) + (if 0 <= upto - 1 < log.len() && log[upto - 1].actor
            == a {
            1nat
        } else {
            0nat
        })
    }
}

/// Actor `a`'s bookkeeping is consistent: it is done exactly when no
/// iterations remain, and thoughts sent plus iterations left account for the
/// whole run (one extra while inside an iteration's acquire/eat/release leg,
/// whose thought is already out).
pub open spec fn actor_ok(s: ModelState, a: int) -> bool {
    let st = s.actors@[a];
    &&& (st.phase == Phase::Done <==> st.remaining == 0)
    &&& st.remaining <= s.iterations
    &&& st.thoughts_sent + st.remaining == s.iterations + (if st.phase == Phase::Thinking
        || st.phase == Phase::Done {
        0int
    } else {
        1int
    })
    &&& st.thoughts_sent == thoughts_before(s.log@, a, s.log@.len() as int)
}

/// Every log entry carries its sender's running count at the time it was
/// sent: the channel preserves per-actor send order.
pub open spec fn log_ok(s: ModelState) -> bool {
    forall|i: int|
        0 <= i < s.log@.len() ==> {
            let e = #[trigger] s.log@[i];
            &&& (e.actor as int) < s.table@.len()
            &&& e.seq_no == thoughts_before(s.log@, e.actor as int, i)
        }
}

/// Well-formedness of a system state: established by `ModelState::new` and
/// preserved by every `step`.
pub open spec fn wf(s: ModelState) -> bool {
    let n = s.table@.len() as int;
    &&& s.table@.len() <= usize::MAX
    &&& s.actors@.len() == n
    &&& s.forks@.len() == n
    &&& wiring_ok(s.table@)
    &&& forall|f: int| 0 <= f < n ==> #[trigger] holder_ok(s, f)
    &&& forall|a: int| 0 <= a < n ==> #[trigger] actor_ok(s, a)
    &&& log_ok(s)
}

/// Actor `a` can take its next transition: thinking, eating and releasing
/// never block; an acquisition waits for its fork to be free; a done actor
/// has no transition.
pub open spec fn enabled(s: ModelState, a: int) -> bool {
    &&& 0 <= a < s.table@.len()
    &&& match s.actors@[a].phase {
        Phase::Thinking => true,
        Phase::AcquiringLeft => s.forks@[s.table@[a].left_fork as int] is None,
        Phase::AcquiringRight => s.forks@[s.table@[a].right_fork as int] is None,
        Phase::Eating => true,
        Phase::Releasing => true,
        Phase::Done => false,
    }
}

/// Every actor has finished its full iteration count.
pub open spec fn all_done(s: ModelState) -> bool {
    forall|a: int| 0 <= a < s.table@.len() ==> (#[trigger] s.actors@[a]).phase == Phase::Done
}

/// The deadlock state: work is left, yet no actor can move.
pub open spec fn deadlocked(s: ModelState) -> bool {
    &&& !all_done(s)
    &&& forall|a: int| !enabled(s, a)
}

impl ModelState {
    /// The initial state for a wired table: every actor about to think,
    /// every fork free, the log empty.
    pub fn new(table: Vec<Philosopher>, iterations: u32) -> (s: ModelState)
        requires
            wiring_ok(table@),
        ensures
            wf(s),
            initial_state(s, table@, iterations),
            s.table@ == table@,
            s.iterations == iterations,
            s.log@.len() == 0,
            forall|f: int| 0 <= f < s.forks@.len() ==> s.forks@[f] is None,
            forall|a: int|
                0 <= a < s.actors@.len() ==> (#[trigger] s.actors@[a]) == initial_actor(
                    iterations,
                ),
    {
        let n = table.len();
        let mut actors: Vec<ActorState> = Vec::new();
        let mut forks: Vec<Option<usize>> = Vec::new();
        let mut i: usize = 0;
        while i < n
            invariant
                i <= n,
                actors@.len() == i,
                forks@.len() == i,
                forall|k: int| 0 <= k < i ==> (#[trigger] actors@[k]) == initial_actor(iterations),
                forall|k: int| 0 <= k < i ==> forks@[k] is None,
            decreases n - i,
        {
            let phase = if iterations == 0 {
                Phase::Done
            } else {
                Phase::Thinking
            };
            actors.push(ActorState { phase, remaining: iterations, thoughts_sent: 0 });
            forks.push(None);
            i = i + 1;
        }
        let s = ModelState { table, actors, forks, log: Vec::new(), iterations };
        proof {
            lemma_initial_wf(s, s.table@, iterations);
        }
        s
    }
}

/// The state the model starts a table in: what `ModelState::new` builds —
/// every actor about to think, every fork free, the log empty.
pub open spec fn initial_state(s: ModelState, table: Seq<Philosopher>, iterations: u32) -> bool {
    &&& s.table@ == table
    &&& s.iterations == iterations
    &&& s.log@.len() == 0
    &&& s.actors@.len() == table.len()
    &&& s.forks@.len() == table.len()
    &&& table.len() <= usize::MAX
    &&& forall|a: int|
        0 <= a < s.actors@.len() ==> (#[trigger] s.actors@[a]) == initial_actor(iterations)
    &&& forall|f: int| 0 <= f < s.forks@.len() ==> s.forks@[f] is None
}

/// An initial state over admissible wiring is well formed.
pub proof fn lemma_initial_wf(s: ModelState, table: Seq<Philosopher>, iterations: u32)
    requires
        initial_state(s, table, iterations),
        wiring_ok(table),
    ensures
        wf(s),
{
    assert forall|f: int| 0 <= f < s.table@.len() implies #[trigger] holder_ok(s, f) by {
        assert forall|a: int| !holds_fork(s, a, f) by {}
    }
    assert forall|a: int| 0 <= a < s.table@.len() implies #[trigger] actor_ok(s, a) by {}
}

/// What every actor's state is before its first step.
pub open spec fn initial_actor(iterations: u32) -> ActorState {
    ActorState {
        phase: if iterations == 0 {
            Phase::Done
        } else {
            Phase::Thinking
        },
        remaining: iterations,
        thoughts_sent: 0,
    }
}

/// The transition relation of the scheduler: `post` is `pre` after actor
/// `a`'s next move. Thinking sends one thought and turns to the left fork;
/// each acquisition records the actor as its fork's holder; releasing frees
/// both forks at once and closes the iteration.
pub open spec fn step_spec(pre: ModelState, post: ModelState, a: int) -> bool {
    let st = pre.actors@[a];
    let lf = pre.table@[a].left_fork as int;
    let rf = pre.table@[a].right_fork as int;
    &&& 0 <= a < pre.table@.len()
    &&& post.table@ == pre.table@
    &&& post.iterations == pre.iterations
    &&& match st.phase {
        Phase::Thinking => {
            &&& post.actors@ == pre.actors@.update(
                a,
                ActorState {
                    phase: Phase::AcquiringLeft,
                    remaining: st.remaining,
                    thoughts_sent: (st.thoughts_sent + 1) as u32,
                },
            )
            &&& post.forks@ == pre.forks@
            &&& post.log@ == pre.log@.push(
                Event { actor: a as usize, seq_no: st.thoughts_sent },
            )
        },
        Phase::AcquiringLeft => {
            &&& post.actors@ == pre.actors@.update(
                a,
                ActorState {
                    phase: Phase::AcquiringRight,
                    remaining: st.remaining,
                    thoughts_sent: st.thoughts_sent,
                },
            )
            &&& post.forks@ == pre.forks@.update(lf, Some(a as usize))
            &&& post.log@ == pre.log@
        },
        Phase::AcquiringRight => {
            &&& post.actors@ == pre.actors@.update(
                a,
                ActorState {
                    phase: Phase::Eating,
                    remaining: st.remaining,
                    thoughts_sent: st.thoughts_sent,
                },
            )
            &&& post.forks@ == pre.forks@.update(rf, Some(a as usize))
            &&& post.log@ == pre.log@
        },
        Phase::Eating => {
            &&& post.actors@ == pre.actors@.update(
                a,
                ActorState {
                    phase: Phase::Releasing,
                    remaining: st.remaining,
                    thoughts_sent: st.thoughts_sent,
                },
            )
            &&& post.forks@ == pre.forks@
            &&& post.log@ == pre.log@
        },
        Phase::Releasing => {
            &&& post.actors@ == pre.actors@.update(
                a,
                ActorState {
                    phase: if st.remaining == 1 {
                        Phase::Done
                    } else {
                        Phase::Thinking
                    },
                    remaining: (st.remaining - 1) as u32,
                    thoughts_sent: st.thoughts_sent,
                },
            )
            &&& post.forks@ == pre.forks@.update(lf, None).update(rf, None)
            &&& post.log@ == pre.log@
        },
        Phase::Done => false,
    }
}

/// Counting an actor's entries looks only at the log's first `upto` slots.
proof fn lemma_thoughts_before_agrees(l1: Seq<Event>, l2: Seq<Event>, a: int, upto: int)
    requires
        0 <= upto,
        upto <= l1.len(),
        upto <= l2.len(),
        forall|i: int| 0 <= i < upto ==> l1[i] == l2[i],
    ensures
        thoughts_before(l1, a, upto) == thoughts_before(l2, a, upto),
    decreases upto,
{
    if upto > 0 {
        lemma_thoughts_before_agrees(l1, l2, a, upto - 1);
    }
}

/// An actor's entry count never shrinks along the log.
proof fn lemma_thoughts_before_mono(log: Seq<Event>, a: int, i: int, j: int)
    requires
        0 <= i <= j,
    ensures
        thoughts_before(log, a, i) <= thoughts_before(log, a, j),
    decreases j - i,
{
    if i < j {
        lemma_thoughts_before_mono(log, a, i, j - 1);
    }
}

/// Every transition keeps the system well formed: the ownership table stays
/// in agreement with the phases, and the log keeps per-actor send order.
pub proof fn lemma_step_preserves_wf(pre: ModelState, post: ModelState, a: int)
    requires
        wf(pre),
        enabled(pre, a),
        step_spec(pre, post, a),
    ensures
        wf(post),
{
    let n = pre.table@.len() as int;
    let st = pre.actors@[a];
    let lf = pre.table@[a].left_fork as int;
    let rf = pre.table@[a].right_fork as int;
    assert(actor_ok(pre, a));
    assert(wiring_ok(post.table@));
    match st.phase {
        Phase::Thinking => {
            assert forall|f: int| 0 <= f < n implies #[trigger] holder_ok(post, f) by {
                assert(holder_ok(pre, f));
                assert forall|x: int| #[trigger] holds_fork(post, x, f) implies post.forks@[f]
                    == Some(x as usize) by {
                    assert(holds_fork(pre, x, f));
                }
                if post.forks@[f] is Some {
                    let h = post.forks@[f]->Some_0 as int;
                    assert(holds_fork(pre, h, f));
                    assert(holds_fork(post, h, f));
                }
            }
            let prelen = pre.log@.len() as int;
            assert(post.log@.len() == prelen + 1);
            assert(post.log@[prelen].actor == a as usize);
            assert forall|x: int| 0 <= x < n implies #[trigger] actor_ok(post, x) by {
                assert(actor_ok(pre, x));
                lemma_thoughts_before_agrees(pre.log@, post.log@, x, prelen);
                assert(thoughts_before(post.log@, x, prelen + 1) == thoughts_before(
                    post.log@,
                    x,
                    prelen,
                ) + (if post.log@[prelen].actor == x {
                    1int
                } else {
                    0int
                }));
            }
            assert forall|i: int| 0 <= i < post.log@.len() implies ((#[trigger] post.log@[i]).actor
                as int) < post.table@.len() && post.log@[i].seq_no == thoughts_before(
                post.log@,
                post.log@[i].actor as int,
                i,
            ) by {
                lemma_thoughts_before_agrees(pre.log@, post.log@, post.log@[i].actor as int, i);
                if i < pre.log@.len() {
                    assert(pre.log@[i] == post.log@[i]);
                } else {
                    assert(post.log@[i].seq_no == st.thoughts_sent);
                }
            }
        },
        Phase::AcquiringLeft => {
            assert(pre.forks@[lf] is None);
            assert forall|f: int| 0 <= f < n implies #[trigger] holder_ok(post, f) by {
                assert(holder_ok(pre, f));
                assert forall|x: int| #[trigger] holds_fork(post, x, f) implies post.forks@[f]
                    == Some(x as usize) by {
                    if x != a {
                        assert(holds_fork(pre, x, f));
                        assert(f != lf);
                    } else {
                        assert(f == lf);
                    }
                }
                if post.forks@[f] is Some {
                    let h = post.forks@[f]->Some_0 as int;
                    if f == lf {
                        assert(holds_fork(post, a, f));
                    } else {
                        assert(holds_fork(pre, h, f));
                        assert(holds_fork(post, h, f));
                    }
                }
            }
            assert forall|x: int| 0 <= x < n implies #[trigger] actor_ok(post, x) by {
                assert(actor_ok(pre, x));
            }
        },
        Phase::AcquiringRight => {
            assert(pre.forks@[rf] is None);
            assert(lf != rf);
            assert(holder_ok(pre, lf));
            assert(holds_fork(pre, a, lf));
            assert(pre.forks@[lf] == Some(a as usize));
            assert forall|f: int| 0 <= f < n implies #[trigger] holder_ok(post, f) by {
                assert(holder_ok(pre, f));
                assert forall|x: int| #[trigger] holds_fork(post, x, f) implies post.forks@[f]
                    == Some(x as usize) by {
                    if x != a {
                        assert(holds_fork(pre, x, f));
                        assert(f != rf);
                    } else {
                        assert(f == lf || f == rf);
                    }
                }
                if post.forks@[f] is Some {
                    let h = post.forks@[f]->Some_0 as int;
                    if f == rf {
                        assert(holds_fork(post, a, f));
                    } else {
                        assert(holds_fork(pre, h, f));
                        assert(holds_fork(post, h, f));
                    }
                }
            }
            assert forall|x: int| 0 <= x < n implies #[trigger] actor_ok(post, x) by {
                assert(actor_ok(pre, x));
            }
        },
        Phase::Eating => {
            assert forall|f: int| 0 <= f < n implies #[trigger] holder_ok(post, f) by {
                assert(holder_ok(pre, f));
                assert forall|x: int| #[trigger] holds_fork(post, x, f) implies post.forks@[f]
                    == Some(x as usize) by {
                    assert(holds_fork(pre, x, f));
                }
                if post.forks@[f] is Some {
                    let h = post.forks@[f]->Some_0 as int;
                    assert(holds_fork(pre, h, f));
                    assert(holds_fork(post, h, f));
                }
            }
            assert forall|x: int| 0 <= x < n implies #[trigger] actor_ok(post, x) by {
                assert(actor_ok(pre, x));
            }
        },
        Phase::Releasing => {
            assert(lf != rf);
            assert(holder_ok(pre, lf));
            assert(holder_ok(pre, rf));
            assert(holds_fork(pre, a, lf));
            assert(holds_fork(pre, a, rf));
            assert(post.forks@ == pre.forks@.update(lf, None).update(rf, None));
            assert(post.log@ == pre.log@);
            assert(pre.forks@[lf] == Some(a as usize));
            assert(pre.forks@[rf] == Some(a as usize));
            assert forall|f: int| 0 <= f < n implies #[trigger] holder_ok(post, f) by {
                assert(holder_ok(pre, f));
                assert forall|x: int| #[trigger] holds_fork(post, x, f) implies post.forks@[f]
                    == Some(x as usize) by {
                    assert(x != a);
                    assert(holds_fork(pre, x, f));
                    assert(f != lf && f != rf);
                }
                if post.forks@[f] is Some {
                    let h = post.forks@[f]->Some_0 as int;
                    assert(f != lf && f != rf);
                    assert(holds_fork(pre, h, f));
                    assert(holds_fork(post, h, f));
                }
            }
            assert forall|x: int| 0 <= x < n implies #[trigger] actor_ok(post, x) by {
                assert(actor_ok(pre, x));
            }
        },
        Phase::Done => {
            assert(false);
        },
    }
}

impl ModelState {
    /// Runs actor `a`'s next transition. The caller picks any enabled actor:
    /// this is the scheduler's one nondeterministic choice, so chaining
    /// `step` calls walks exactly the legal interleavings.
    pub fn step(&mut self, a: usize)
        requires
            wf(*old(self)),
            enabled(*old(self), a as usize as int),
        ensures
            wf(*final(self)),
            step_spec(*old(self), *final(self), a as int),
    {
        proof {
            assert(actor_ok(*old(self), a as int));
        }
        let st = self.actors[a];
        match st.phase {
            Phase::Thinking => {
                self.log.push(Event { actor: a, seq_no: st.thoughts_sent });
                self.actors[a] = ActorState {
                    phase: Phase::AcquiringLeft,
                    remaining: st.remaining,
                    thoughts_sent: st.thoughts_sent + 1,
                };
            },
            Phase::AcquiringLeft => {
                let lf = self.table[a].left_fork;
                self.forks[lf] = Some(a);
                self.actors[a] = ActorState {
                    phase: Phase::AcquiringRight,
                    remaining: st.remaining,
                    thoughts_sent: st.thoughts_sent,
                };
            },
            Phase::AcquiringRight => {
                let rf = self.table[a].right_fork;
                self.forks[rf] = Some(a);
                self.actors[a] = ActorState {
                    phase: Phase::Eating,
                    remaining: st.remaining,
                    thoughts_sent: st.thoughts_sent,
                };
            },
            Phase::Eating => {
                self.actors[a] = ActorState {
                    phase: Phase::Releasing,
                    remaining: st.remaining,
                    thoughts_sent: st.thoughts_sent,
                };
            },
            Phase::Releasing => {
                let lf = self.table[a].left_fork;
                let rf = self.table[a].right_fork;
                self.forks[lf] = None;
                self.forks[rf] = None;
                let nrem = st.remaining - 1;
                self.actors[a] = ActorState {
                    phase: if nrem == 0 {
                        Phase::Done
                    } else {
                        Phase::Thinking
                    },
                    remaining: nrem,
                    thoughts_sent: st.thoughts_sent,
                };
            },
            Phase::Done => {
                proof {
                    assert(false);
                }
            },
        }
        proof {
            lemma_step_preserves_wf(*old(self), *self, a as int);
        }
    }

    /// Whether actor `a` can move now.
    pub fn is_enabled(&self, a: usize) -> (r: bool)
        requires
            wf(*self),
        ensures
            r == enabled(*self, a as int),
    {
        if a >= self.table.len() {
            return false;
        }
        let lf = self.table[a].left_fork;
        let rf = self.table[a].right_fork;
        match self.actors[a].phase {
            Phase::Thinking => true,
            Phase::AcquiringLeft => self.forks[lf].is_none(),
            Phase::AcquiringRight => self.forks[rf].is_none(),
            Phase::Eating => true,
            Phase::Releasing => true,
            Phase::Done => false,
        }
    }

    /// Whether every actor has completed its iterations.
    pub fn finished(&self) -> (r: bool)
        requires
            wf(*self),
        ensures
            r == all_done(*self),
    {
        let n = self.actors.len();
        let mut i: usize = 0;
        while i < n
            invariant
                wf(*self),
                n == self.actors@.len(),
                i <= n,
                forall|k: int| 0 <= k < i ==> (#[trigger] self.actors@[k]).phase == Phase::Done,
            decreases n - i,
        {
            if self.actors[i].phase != Phase::Done {
                return false;
            }
            i = i + 1;
        }
        true
    }

    /// The lowest-numbered actor that can move now, if any can.
    pub fn find_enabled(&self) -> (r: Option<usize>)
        requires
            wf(*self),
        ensures
            match r {
                Some(a) => enabled(*self, a as int),
                None => forall|a: int| !enabled(*self, a),
            },
    {
        let n = self.table.len();
        let mut i: usize = 0;
        while i < n
            invariant
                wf(*self),
                n == self.table@.len(),
                i <= n,
                forall|k: int| 0 <= k < i ==> !enabled(*self, k),
            decreases n - i,
        {
            if self.is_enabled(i) {
                return Some(i);
            }
            i = i + 1;
        }
        None
    }

    /// Whether this state is the deadlock: work left, nobody able to move.
    pub fn check_deadlocked(&self) -> (r: bool)
        requires
            wf(*self),
        ensures
            r == deadlocked(*self),
    {
        !self.finished() && self.find_enabled().is_none()
    }
}

/// Per-actor send order is preserved: of two log entries from the same
/// actor, the earlier one carries the smaller running count, so the k-th
/// thought of an actor is always emitted before its (k+1)-th.
pub proof fn lemma_per_actor_order(s: ModelState, i: int, j: int)
    requires
        wf(s),
        0 <= i < j < s.log@.len(),
        s.log@[i].actor == s.log@[j].actor,
    ensures
        s.log@[i].seq_no < s.log@[j].seq_no,
{
    let a = s.log@[i].actor as int;
    assert(thoughts_before(s.log@, a, i + 1) == thoughts_before(s.log@, a, i) + 1);
    lemma_thoughts_before_mono(s.log@, a, i + 1, j);
}

/// Mutual exclusion: two actors never hold the same fork at the same time.
pub proof fn lemma_mutual_exclusion(s: ModelState, a: int, b: int, f: int)
    requires
        wf(s),
        holds_fork(s, a, f),
        holds_fork(s, b, f),
    ensures
        a == b,
{
    assert(wiring_ok(s.table@));
    assert(0 <= f < s.table@.len());
    assert(holder_ok(s, f));
    assert(s.forks@[f] == Some(a as usize));
    assert(s.forks@[f] == Some(b as usize));
}

/// How many of the log's first `upto` entries the first `k` actors sent, in
/// all.
spec fn counts_sum(log: Seq<Event>, k: int, upto: int) -> int
    decreases k,
{
    if k <= 0 {
        0
    } else {
        counts_sum(log, k - 1, upto) + thoughts_before(log, k - 1, upto)
    }
}

proof fn lemma_counts_sum_zero(log: Seq<Event>, k: int)
    ensures
        counts_sum(log, k, 0) == 0,
    decreases k,
{
    if k > 0 {
        lemma_counts_sum_zero(log, k - 1);
    }
}

proof fn lemma_counts_sum_step(log: Seq<Event>, k: int, upto: int)
    requires
        0 <= upto < log.len(),
    ensures
        counts_sum(log, k, upto + 1) == counts_sum(log, k, upto) + (if 0 <= log[upto].actor < k {
            1int
        } else {
            0int
        }),
    decreases k,
{
    if k > 0 {
        lemma_counts_sum_step(log, k - 1, upto);
        assert(thoughts_before(log, k - 1, upto + 1) == thoughts_before(log, k - 1, upto) + (
        if log[upto].actor == k - 1 {
            1nat
        } else {
            0nat
        }));
    }
}

proof fn lemma_counts_sum_total(log: Seq<Event>, n: int, upto: int)
    requires
        0 <= upto <= log.len(),
        forall|i: int| 0 <= i < log.len() ==> (#[trigger] log[i]).actor < n,
    ensures
        counts_sum(log, n, upto) == upto,
    decreases upto,
{
    if upto == 0 {
        lemma_counts_sum_zero(log, n);
    } else {
        lemma_counts_sum_total(log, n, upto - 1);
        lemma_counts_sum_step(log, n, upto - 1);
    }
}

proof fn lemma_done_counts(s: ModelState, k: int)
    requires
        wf(s),
        all_done(s),
        0 <= k <= s.table@.len(),
    ensures
        counts_sum(s.log@, k, s.log@.len() as int) == k * s.iterations,
    decreases k,
{
    if k > 0 {
        lemma_done_counts(s, k - 1);
        assert(actor_ok(s, k - 1));
        assert(s.actors@[k - 1].phase == Phase::Done);
        assert(thoughts_before(s.log@, k - 1, s.log@.len() as int) == s.iterations);
        assert((k - 1) * s.iterations + s.iterations == k * s.iterations) by (nonlinear_arith);
    } else {
        assert(k * s.iterations == 0) by (nonlinear_arith)
            requires
                k == 0,
        ;
    }
}

/// With every actor done, the log holds exactly one thought per actor per
/// iteration: the channel was fully drained, nothing lost and nothing extra.
pub proof fn lemma_all_thoughts_drained(s: ModelState)
    requires
        wf(s),
        all_done(s),
    ensures
        s.log@.len() == s.table@.len() * s.iterations,
{
    let n = s.table@.len() as int;
    let len = s.log@.len() as int;
    assert forall|i: int| 0 <= i < s.log@.len() implies (#[trigger] s.log@[i]).actor < n by {}
    lemma_counts_sum_total(s.log@, n, len);
    lemma_done_counts(s, n);
}

} // verus!
