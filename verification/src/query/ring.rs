//! The order in which the references of a file are worked on.
//!
//! Coverage is computed for several references at once, each by a worker
//! of its own. The workers stand in a ring of slots. A step of the ring
//! waits for the oldest worker where the ring is full or nothing is left to
//! start, and starts the next reference where one is left. Results are
//! therefore taken in the order of the references, whatever the size of
//! the ring.

use vstd::prelude::*;

verus! {

/// The largest number of references that are worked on at once.
pub const RING_LIMIT: usize = 8;

/// The counters of a ring: its size, the number of references, how many
/// were started and how many were waited for.
pub struct RingState {
    pub cap: nat,
    pub total: nat,
    pub spawned: nat,
    pub joined: nat,
}

/// What one step asks of the caller: first to wait for the worker of a
/// reference and take its result, then to start the worker of another.
/// Each is given as the slot of the ring and the number of the reference.
#[derive(Clone, Copy, Debug)]
pub struct RingStep {
    pub join: Option<(usize, usize)>,
    pub spawn: Option<(usize, usize)>,
    pub done: bool,
}

impl RingState {
    /// A ring in which nothing was started.
    pub open spec fn init(cap: nat, total: nat) -> RingState {
        RingState { cap, total, spawned: 0, joined: 0 }
    }

    /// The counters are consistent: no more workers than slots, none
    /// waited for before it was started.
    pub open spec fn wf(self) -> bool {
        &&& self.cap >= 1
        &&& self.joined <= self.spawned <= self.total
        &&& self.spawned - self.joined <= self.cap
    }

    /// The next step waits for a worker: the ring is full, or every
    /// reference was started and some worker still runs.
    pub open spec fn joins(self) -> bool {
        self.spawned - self.joined == self.cap || (self.spawned == self.total && self.joined
            < self.total)
    }

    /// The next step starts a worker: a reference is left.
    pub open spec fn spawns(self) -> bool {
        self.spawned < self.total
    }

    /// The counters after the next step.
    pub open spec fn next(self) -> RingState {
        RingState {
            cap: self.cap,
            total: self.total,
            spawned: if self.spawns() {
                self.spawned + 1
            } else {
                self.spawned
            },
            joined: if self.joins() {
                self.joined + 1
            } else {
                self.joined
            },
        }
    }

    /// Every reference was started and waited for.
    pub open spec fn done(self) -> bool {
        self.joined == self.total
    }

    /// The counters after `steps` steps.
    pub open spec fn run(self, steps: nat) -> RingState
        decreases steps,
    {
        if steps == 0 {
            self
        } else {
            self.run((steps - 1) as nat).next()
        }
    }

    /// The references whose results are taken in the next `steps` steps, in
    /// the order in which they are taken.
    pub open spec fn joined_in(self, steps: nat) -> Seq<nat>
        decreases steps,
    {
        if steps == 0 {
            Seq::empty()
        } else {
            let before = self.run((steps - 1) as nat);
            if before.joins() {
                self.joined_in((steps - 1) as nat).push(before.joined)
            } else {
                self.joined_in((steps - 1) as nat)
            }
        }
    }
}

/// Steps keep the counters consistent, and each step that does not end the
/// run starts or takes at least one reference.
pub proof fn lemma_ring_progress(s: RingState, steps: nat)
    requires
        s.wf(),
    ensures
        s.run(steps).wf(),
        s.run(steps).cap == s.cap,
        s.run(steps).total == s.total,
        s.run(steps).joined >= s.joined,
        s.run(steps).done() || s.run(steps).spawned + s.run(steps).joined >= s.spawned + s.joined
            + steps,
        s.joined_in(steps) == Seq::new(
            (s.run(steps).joined - s.joined) as nat,
            |i: int| (s.joined + i) as nat,
        ),
    decreases steps,
{
    if steps > 0 {
        lemma_ring_progress(s, (steps - 1) as nat);
        let before = s.run((steps - 1) as nat);
        let earlier = s.joined_in((steps - 1) as nat);
        if before.joins() {
            assert(earlier.push(before.joined) =~= Seq::new(
                (before.joined + 1 - s.joined) as nat,
                |i: int| (s.joined + i) as nat,
            ));
        }
    } else {
        assert(s.joined_in(0) =~= Seq::new(0, |i: int| (s.joined + i) as nat));
    }
}

/// The results of the references are taken in the order of the references,
/// each once, whatever the size of the ring: after twice as many steps as
/// there are references the run has ended, and the references taken are
/// `0, 1, 2, ..` up to the last.
pub proof fn lemma_ring_order(cap: nat, total: nat)
    requires
        cap >= 1,
    ensures
        RingState::init(cap, total).run(2 * total).done(),
        RingState::init(cap, total).joined_in(2 * total) == Seq::new(total, |i: int| i as nat),
{
    let s = RingState::init(cap, total);
    lemma_ring_progress(s, 2 * total);
    assert(s.joined_in(2 * total) =~= Seq::new(total, |i: int| i as nat));
}

/// Two rings of different sizes take the results of the same references in
/// the same order.
pub proof fn lemma_ring_size_independent(cap_a: nat, cap_b: nat, total: nat)
    requires
        cap_a >= 1,
        cap_b >= 1,
    ensures
        RingState::init(cap_a, total).joined_in(2 * total) == RingState::init(
            cap_b,
            total,
        ).joined_in(2 * total),
{
    lemma_ring_order(cap_a, total);
    lemma_ring_order(cap_b, total);
}

/// The ring of workers of one depth run.
pub struct Ring {
    cap: usize,
    total: usize,
    spawned: usize,
    joined: usize,
}

impl View for Ring {
    type V = RingState;

    closed spec fn view(&self) -> RingState {
        RingState {
            cap: self.cap as nat,
            total: self.total as nat,
            spawned: self.spawned as nat,
            joined: self.joined as nat,
        }
    }
}

impl Ring {
    #[verifier::type_invariant]
    spec fn inv(self) -> bool {
        self@.wf() && self.cap <= RING_LIMIT
    }

    /// A ring for `total` references. It has as many slots as there are
    /// threads, at least one and at most `RING_LIMIT`; one slot where the
    /// number of threads is not given.
    pub fn new(thread_num: Option<usize>, total: usize) -> (ring: Self)
        ensures
            ring@ == RingState::init(
                match thread_num {
                    None => 1,
                    Some(t) => if t < 1 {
                        1
                    } else if t > RING_LIMIT {
                        RING_LIMIT as nat
                    } else {
                        t as nat
                    },
                },
                total as nat,
            ),
    {
        let cap: usize = match thread_num {
            None => 1,
            Some(t) => if t < 1 {
                1
            } else if t > RING_LIMIT {
                RING_LIMIT
            } else {
                t
            },
        };
        Ring { cap, total, spawned: 0, joined: 0 }
    }

    /// Number of slots.
    pub fn capacity(&self) -> (cap: usize)
        ensures
            cap == self@.cap,
            1 <= cap <= RING_LIMIT,
    {
        proof {
            use_type_invariant(self);
        }
        self.cap
    }

    /// Number of workers that were started and not yet waited for.
    pub fn in_flight(&self) -> (n: usize)
        ensures
            n == self@.spawned - self@.joined,
            n <= self@.cap,
    {
        proof {
            use_type_invariant(self);
        }
        self.spawned - self.joined
    }

    /// Whether every reference was started and waited for.
    pub fn is_done(&self) -> (done: bool)
        ensures
            done == self@.done(),
    {
        self.joined == self.total
    }

    /// One step of the ring. Where the ring is full, or every reference was
    /// started and a worker still runs, the step takes the oldest worker:
    /// that of the reference after the one taken last. Where a reference is
    /// left, the step starts it. A reference stands in the slot that its
    /// number gives modulo the size of the ring.
    pub fn step(&mut self) -> (step: RingStep)
        ensures
            old(self)@.wf(),
            final(self)@ == old(self)@.next(),
            step.join == if old(self)@.joins() {
                Some(
                    (
                        (old(self)@.joined % old(self)@.cap) as usize,
                        old(self)@.joined as usize,
                    ),
                )
            } else {
                None
            },
            step.spawn == if old(self)@.spawns() {
                Some(
                    (
                        (old(self)@.spawned % old(self)@.cap) as usize,
                        old(self)@.spawned as usize,
                    ),
                )
            } else {
                None
            },
            step.done == final(self)@.done(),
    {
        proof {
            use_type_invariant(&*self);
        }
        let full: bool = self.spawned - self.joined == self.cap;
        let drained: bool = self.spawned == self.total && self.joined < self.total;
        let join = if full || drained {
            let taken: usize = self.joined;
            self.joined = taken + 1;
            Some((taken % self.cap, taken))
        } else {
            None
        };
        let spawn = if self.spawned < self.total {
            let started: usize = self.spawned;
            self.spawned = started + 1;
            Some((started % self.cap, started))
        } else {
            None
        };
        RingStep { join, spawn, done: self.joined == self.total }
    }
}

} // verus!
