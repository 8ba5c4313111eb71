//! A verified run of the whole acquisition protocol.
//!
//! The concurrency of a real run is modelled by an explicit scheduler: a
//! run is a sequence of atomic steps, each taken by one actor, and the
//! schedule that picks the next actor is an arbitrary input.  Everything
//! proved here therefore holds under every interleaving the model can
//! express: slots are never held by two actors at once, a run can never
//! get stuck while an actor still has work left (no deadlock), and a full
//! run ends with every actor having announced its start and its
//! completion exactly once, the start before the completion.

use crate::philosopher::lemma_order_is_strict;
use crate::philosopher::Philosopher;
use crate::table::SlotTable;
use vstd::prelude::*;

verus! {

/// Where one actor stands in its acquire-hold-release cycle.
#[derive(Clone, Copy, PartialEq, Eq, Structural, Debug)]
pub enum Phase {
    /// Holds nothing yet; next wants its first slot.
    Hungry,
    /// Holds its first slot; next wants its second.
    HasFirst,
    /// Holds both slots: inside the critical section.
    Eating,
    /// Finished: both slots given back.
    Done,
}

/// One observable line of a run's log.
#[derive(Clone, Copy, PartialEq, Eq, Structural, Debug)]
pub enum Event {
    /// The actor announced that it started eating: it holds both slots.
    Started(usize),
    /// The actor announced that it is done eating and gave both slots back.
    Finished(usize),
}

/// Steps the actor still has ahead of it.
pub open spec fn phase_work(p: Phase) -> nat {
    match p {
        Phase::Hungry => 3,
        Phase::HasFirst => 2,
        Phase::Eating => 1,
        Phase::Done => 0,
    }
}

/// Events the actor has emitted so far.
pub open spec fn phase_emitted(p: Phase) -> nat {
    match p {
        Phase::Hungry => 0,
        Phase::HasFirst => 0,
        Phase::Eating => 1,
        Phase::Done => 2,
    }
}

/// The phase the actor moves to when it takes a step.
pub open spec fn next_phase(p: Phase) -> Phase {
    match p {
        Phase::Hungry => Phase::HasFirst,
        Phase::HasFirst => Phase::Eating,
        Phase::Eating => Phase::Done,
        Phase::Done => Phase::Done,
    }
}

/// Total work left across all actors: the run's termination measure.
pub open spec fn work_of(s: Seq<Phase>) -> nat
    decreases s.len(),
{
    if s.len() == 0 {
        0
    } else {
        work_of(s.drop_last()) + phase_work(s.last())
    }
}

/// Total events emitted across all actors: the length the log must have.
pub open spec fn emitted_of(s: Seq<Phase>) -> nat
    decreases s.len(),
{
    if s.len() == 0 {
        0
    } else {
        emitted_of(s.drop_last()) + phase_emitted(s.last())
    }
}

pub proof fn lemma_work_of_update(s: Seq<Phase>, i: int, p: Phase)
    requires
        0 <= i < s.len(),
    ensures
        work_of(s.update(i, p)) + phase_work(s[i]) == work_of(s) + phase_work(p),
    decreases s.len(),
{
    if i == s.len() - 1 {
        assert(s.update(i, p).drop_last() =~= s.drop_last());
    } else {
        assert(s.update(i, p).drop_last() =~= s.drop_last().update(i, p));
        lemma_work_of_update(s.drop_last(), i, p);
    }
}

pub proof fn lemma_emitted_of_update(s: Seq<Phase>, i: int, p: Phase)
    requires
        0 <= i < s.len(),
    ensures
        emitted_of(s.update(i, p)) + phase_emitted(s[i]) == emitted_of(s) + phase_emitted(p),
    decreases s.len(),
{
    if i == s.len() - 1 {
        assert(s.update(i, p).drop_last() =~= s.drop_last());
    } else {
        assert(s.update(i, p).drop_last() =~= s.drop_last().update(i, p));
        lemma_emitted_of_update(s.drop_last(), i, p);
    }
}

/// Before anything has happened nothing has been emitted.
pub proof fn lemma_emitted_of_all_hungry(s: Seq<Phase>)
    requires
        forall|i: int| 0 <= i < s.len() ==> s[i] == Phase::Hungry,
    ensures
        emitted_of(s) == 0,
    decreases s.len(),
{
    if s.len() > 0 {
        lemma_emitted_of_all_hungry(s.drop_last());
    }
}

/// When every actor is done, exactly two events per actor were emitted.
pub proof fn lemma_emitted_of_all_done(s: Seq<Phase>)
    requires
        forall|i: int| 0 <= i < s.len() ==> s[i] == Phase::Done,
    ensures
        emitted_of(s) == 2 * s.len(),
    decreases s.len(),
{
    if s.len() > 0 {
        lemma_emitted_of_all_done(s.drop_last());
    }
}

/// Number of occurrences of `e` in `log`.
pub open spec fn count_events(log: Seq<Event>, e: Event) -> nat
    decreases log.len(),
{
    if log.len() == 0 {
        0
    } else {
        count_events(log.drop_last(), e) + if log.last() == e {
            1nat
        } else {
            0
        }
    }
}

pub proof fn lemma_count_events_push(log: Seq<Event>, e: Event, x: Event)
    ensures
        count_events(log.push(x), e) == count_events(log, e) + if x == e {
            1nat
        } else {
            0
        },
{
    assert(log.push(x).drop_last() =~= log);
}

/// What the log shows of actor `a` in phase `ph`: nothing before it holds
/// both slots, one start line while it eats, and exactly one start line
/// followed by exactly one completion line once it is done.
pub open spec fn log_ok(log: Seq<Event>, ph: Phase, a: int) -> bool {
    let started = Event::Started(a as usize);
    let finished = Event::Finished(a as usize);
    match ph {
        Phase::Hungry => count_events(log, started) == 0 && count_events(log, finished) == 0,
        Phase::HasFirst => count_events(log, started) == 0 && count_events(log, finished) == 0,
        Phase::Eating => count_events(log, started) == 1 && count_events(log, finished) == 0
            && exists|i: int| 0 <= i < log.len() && log[i] == started,
        Phase::Done => count_events(log, started) == 1 && count_events(log, finished) == 1
            && exists|i: int, j: int|
            0 <= i < j < log.len() && log[i] == started && log[j] == finished,
    }
}

/// An event of another actor changes nothing in what the log shows of
/// this one.
pub proof fn lemma_log_ok_push_other(log: Seq<Event>, ph: Phase, a: int, x: Event)
    requires
        log_ok(log, ph, a),
        x != Event::Started(a as usize),
        x != Event::Finished(a as usize),
    ensures
        log_ok(log.push(x), ph, a),
{
    let started = Event::Started(a as usize);
    let finished = Event::Finished(a as usize);
    lemma_count_events_push(log, started, x);
    lemma_count_events_push(log, finished, x);
    match ph {
        Phase::Eating => {
            let i = choose|i: int| 0 <= i < log.len() && log[i] == started;
            assert(log.push(x)[i] == started);
        },
        Phase::Done => {
            let (i, j) = choose|i: int, j: int|
                0 <= i < j < log.len() && log[i] == started && log[j] == finished;
            assert(log.push(x)[i] == started && log.push(x)[j] == finished);
        },
        _ => {},
    }
}

/// Announcing the start moves the actor's log record from the quiet
/// phases to the eating one.
pub proof fn lemma_log_ok_start(log: Seq<Event>, a: int)
    requires
        log_ok(log, Phase::HasFirst, a),
    ensures
        log_ok(log.push(Event::Started(a as usize)), Phase::Eating, a),
{
    let started = Event::Started(a as usize);
    let finished = Event::Finished(a as usize);
    lemma_count_events_push(log, started, started);
    lemma_count_events_push(log, finished, started);
    assert(log.push(started)[log.len() as int] == started);
}

/// Announcing the completion moves the actor's log record from eating to
/// done, with the start line strictly before the completion line.
pub proof fn lemma_log_ok_finish(log: Seq<Event>, a: int)
    requires
        log_ok(log, Phase::Eating, a),
    ensures
        log_ok(log.push(Event::Finished(a as usize)), Phase::Done, a),
{
    let started = Event::Started(a as usize);
    let finished = Event::Finished(a as usize);
    lemma_count_events_push(log, started, finished);
    lemma_count_events_push(log, finished, finished);
    let i = choose|i: int| 0 <= i < log.len() && log[i] == started;
    let j = log.len() as int;
    assert(log.push(finished)[i] == started && log.push(finished)[j] == finished);
}

/// The state of one modelled run: the exclusion state of the slots, each
/// actor's phase, and the log of observations emitted so far.
pub struct RunState {
    pub table: SlotTable,
    pub phases: Vec<Phase>,
    pub log: Vec<Event>,
}

impl RunState {
    pub open spec fn n_actors(self) -> int {
        self.phases@.len() as int
    }

    /// The actor's holdings match its phase exactly: nothing before its
    /// first acquisition and after its release, its first slot alone in
    /// between, both slots inside the critical section.
    pub open spec fn actor_consistent(self, actors: Seq<Philosopher>, a: int) -> bool {
        let first = actors[a].spec_first_slot() as int;
        let second = actors[a].spec_second_slot() as int;
        match self.phases@[a] {
            Phase::Hungry => self.table.holds_nothing(a),
            Phase::HasFirst => self.table.holds(a, first) && self.table.holds_outside_none(
                a,
                first,
                first,
            ),
            Phase::Eating => self.table.holds(a, first) && self.table.holds(a, second)
                && self.table.holds_outside_none(a, first, second),
            Phase::Done => self.table.holds_nothing(a),
        }
    }

    /// A held slot is held by a known actor, as one of the two slots its
    /// phase entitles it to.
    pub open spec fn slot_consistent(self, actors: Seq<Philosopher>, s: int) -> bool {
        self.table.holder@[s] is Some ==> {
            let a = self.table.holder@[s]->0 as int;
            &&& 0 <= a < actors.len()
            &&& (self.phases@[a] == Phase::HasFirst && s == actors[a].spec_first_slot() as int) || (
            self.phases@[a] == Phase::Eating && (s == actors[a].spec_first_slot() as int || s
                == actors[a].spec_second_slot() as int))
        }
    }

    /// The log lines the actor has emitted match its phase: none before
    /// it holds both slots, one start announcement while it eats, and a
    /// start followed by a completion once it is done.
    pub open spec fn log_consistent(self, a: int) -> bool {
        log_ok(self.log@, self.phases@[a], a)
    }

    /// The run's whole invariant, preserved by every step under every
    /// schedule.
    pub open spec fn wf(self, actors: Seq<Philosopher>) -> bool {
        &&& self.table.wf()
        &&& self.phases@.len() == actors.len()
        &&& forall|a: int|
            0 <= a < actors.len() ==> (#[trigger] actors[a]).valid(self.table.n_slots())
        &&& forall|a: int| 0 <= a < actors.len() ==> self.actor_consistent(actors, a)
        &&& forall|s: int| 0 <= s < self.table.n_slots() ==> self.slot_consistent(actors, s)
        &&& self.log@.len() == emitted_of(self.phases@)
        &&& forall|a: int| 0 <= a < actors.len() ==> self.log_consistent(a)
    }

    /// The actor can take its next step now: the slot it needs is free,
    /// or it is eating and only has to finish.
    pub open spec fn spec_can_step(self, actors: Seq<Philosopher>, a: int) -> bool {
        match self.phases@[a] {
            Phase::Hungry => self.table.slot_free(actors[a].spec_first_slot() as int),
            Phase::HasFirst => self.table.slot_free(actors[a].spec_second_slot() as int),
            Phase::Eating => true,
            Phase::Done => false,
        }
    }

    /// A fresh run: every slot free, every actor hungry, nothing logged.
    pub fn new(actors: &Vec<Philosopher>, n_slots: usize) -> (st: RunState)
        requires
            forall|i: int|
                0 <= i < actors@.len() ==> (#[trigger] actors@[i]).valid(n_slots as int),
        ensures
            st.wf(actors@),
            st.n_actors() == actors@.len(),
            st.table.n_slots() == n_slots,
            forall|a: int| 0 <= a < actors@.len() ==> st.phases@[a] == Phase::Hungry,
            st.log@.len() == 0,
    {
        let table = SlotTable::new(n_slots);
        let mut phases: Vec<Phase> = Vec::new();
        let mut i: usize = 0;
        let n = actors.len();
        while i < n
            invariant
                i <= n,
                phases@.len() == i,
                forall|a: int| 0 <= a < i ==> phases@[a] == Phase::Hungry,
            decreases n - i,
        {
            phases.push(Phase::Hungry);
            i = i + 1;
        }
        let log: Vec<Event> = Vec::new();
        let st = RunState { table, phases, log };
        proof {
            lemma_emitted_of_all_hungry(st.phases@);
            assert forall|a: int| 0 <= a < actors@.len() implies st.actor_consistent(
                actors@,
                a,
            ) by {
                assert forall|s: int|
                    0 <= s < st.table.holder@.len() implies !(#[trigger] st.table.holds(
                    a,
                    s,
                )) by {
                    assert(st.table.slot_free(s));
                }
                assert(st.table.holds_nothing(a));
            }
            assert forall|s: int| 0 <= s < st.table.n_slots() implies st.slot_consistent(
                actors@,
                s,
            ) by {
                assert(st.table.slot_free(s));
            }
        }
        st
    }

    /// Whether actor `a` could take its next step right now.
    pub fn can_step(&self, actors: &Vec<Philosopher>, a: usize) -> (b: bool)
        requires
            self.wf(actors@),
            a < actors@.len(),
        ensures
            b == self.spec_can_step(actors@, a as int),
    {
        proof {
            assert(actors@[a as int].valid(self.table.n_slots()));
        }
        let ph = self.phases[a];
        match ph {
            Phase::Hungry => {
                let f = actors[a].first_slot();
                self.table.is_free(f)
            },
            Phase::HasFirst => {
                let s = actors[a].second_slot();
                self.table.is_free(s)
            },
            Phase::Eating => true,
            Phase::Done => false,
        }
    }

    /// Whether every actor has finished its whole cycle.
    pub fn all_done(&self) -> (b: bool)
        ensures
            b == (forall|a: int|
                0 <= a < self.phases@.len() ==> self.phases@[a] == Phase::Done),
    {
        let n = self.phases.len();
        let mut i: usize = 0;
        while i < n
            invariant
                i <= n == self.phases@.len(),
                forall|j: int| 0 <= j < i ==> self.phases@[j] == Phase::Done,
            decreases n - i,
        {
            let ph = self.phases[i];
            match ph {
                Phase::Done => {},
                _ => {
                    return false;
                },
            }
            i = i + 1;
        }
        true
    }

    /// One atomic step of actor `a`: take the next slot it needs, or, if
    /// it is eating, announce completion and give both slots back.  The
    /// step is only allowed when it can go through, so a verified caller
    /// never blocks the model; the run's invariant is preserved and the
    /// actor's remaining work shrinks by exactly one.
    pub fn step(&mut self, actors: &Vec<Philosopher>, a: usize)
        requires
            old(self).wf(actors@),
            a < actors@.len(),
            old(self).spec_can_step(actors@, a as int),
        ensures
            final(self).wf(actors@),
            final(self).phases@ == old(self).phases@.update(
                a as int,
                next_phase(old(self).phases@[a as int]),
            ),
            final(self).table.tainted@ == old(self).table.tainted@,
            work_of(final(self).phases@) + 1 == work_of(old(self).phases@),
            old(self).phases@[a as int] == Phase::Hungry ==> {
                &&& final(self).log@ == old(self).log@
                &&& final(self).table.holder@ == old(self).table.holder@.update(
                    actors@[a as int].spec_first_slot() as int,
                    Some(a),
                )
            },
            old(self).phases@[a as int] == Phase::HasFirst ==> {
                &&& final(self).log@ == old(self).log@.push(Event::Started(a))
                &&& final(self).table.holder@ == old(self).table.holder@.update(
                    actors@[a as int].spec_second_slot() as int,
                    Some(a),
                )
            },
            old(self).phases@[a as int] == Phase::Eating ==> {
                &&& final(self).log@ == old(self).log@.push(Event::Finished(a))
                &&& final(self).table.holder@ == old(self).table.holder@.update(
                    actors@[a as int].spec_first_slot() as int,
                    None::<usize>,
                ).update(actors@[a as int].spec_second_slot() as int, None::<usize>)
            },
    {
        let ghost aa = a as int;
        let ghost n_slots = self.table.n_slots();
        let n_actors = actors.len();
        proof {
            assert(actors@.len() == n_actors);
            assert(actors@[aa].valid(n_slots));
            lemma_order_is_strict(actors@[aa], n_slots);
        }
        let first = actors[a].first_slot();
        let second = actors[a].second_slot();
        let ph = self.phases[a];
        match ph {
            Phase::Hungry => {
                let _outcome = self.table.try_acquire(first, a);
                self.phases.set(a, Phase::HasFirst);
                proof {
                    lemma_work_of_update(old(self).phases@, aa, Phase::HasFirst);
                    lemma_wf_after_step(*old(self), *self, actors@, a);
                }
            },
            Phase::HasFirst => {
                let _outcome = self.table.try_acquire(second, a);
                self.phases.set(a, Phase::Eating);
                self.log.push(Event::Started(a));
                proof {
                    lemma_work_of_update(old(self).phases@, aa, Phase::Eating);
                    lemma_wf_after_step(*old(self), *self, actors@, a);
                }
            },
            Phase::Eating => {
                proof {
                    assert(old(self).actor_consistent(actors@, aa));
                    assert(old(self).table.holds(aa, first as int));
                    assert(old(self).table.holds(aa, second as int));
                    assert(old(self).table.holder@[first as int] == Some(a));
                    assert(old(self).table.holder@[second as int] == Some(a));
                }
                let _r1 = self.table.release(first, a);
                let _r2 = self.table.release(second, a);
                self.phases.set(a, Phase::Done);
                self.log.push(Event::Finished(a));
                proof {
                    lemma_work_of_update(old(self).phases@, aa, Phase::Done);
                    lemma_wf_after_step(*old(self), *self, actors@, a);
                }
            },
            Phase::Done => {
                proof {
                    assert(false);
                }
            },
        }
    }

    /// Find some actor that can take its next step.  While any actor
    /// still has work left one always exists: that is the no-deadlock
    /// guarantee, so the scan can never come up empty.
    pub fn find_steppable(&self, actors: &Vec<Philosopher>) -> (a: usize)
        requires
            self.wf(actors@),
            exists|b: int| 0 <= b < actors@.len() && self.phases@[b] != Phase::Done,
        ensures
            a < actors@.len(),
            self.spec_can_step(actors@, a as int),
    {
        let n = actors.len();
        let mut i: usize = 0;
        while i < n
            invariant
                self.wf(actors@),
                exists|b: int| 0 <= b < actors@.len() && self.phases@[b] != Phase::Done,
                n == actors@.len(),
                i <= n,
                forall|j: int| 0 <= j < i ==> !self.spec_can_step(actors@, j),
            decreases n - i,
        {
            if self.can_step(actors, i) {
                return i;
            }
            i = i + 1;
        }
        proof {
            lemma_progress(*self, actors@);
            assert(false);
        }
        0
    }

    /// Execute one full run under the given schedule: at each step the
    /// next schedule entry names the actor to try; if it cannot step (or
    /// the schedule has run out) the first actor that can is taken
    /// instead.  Whatever the schedule, the run terminates — every actor
    /// completes its whole cycle in exactly three steps each — and the
    /// log records, for every actor, exactly one start announcement
    /// followed by exactly one completion announcement.
    pub fn run(actors: &Vec<Philosopher>, n_slots: usize, schedule: &Vec<usize>) -> (log: Vec<
        Event,
    >)
        requires
            forall|i: int|
                0 <= i < actors@.len() ==> (#[trigger] actors@[i]).valid(n_slots as int),
        ensures
            log@.len() == 2 * actors@.len(),
            forall|a: int|
                0 <= a < actors@.len() ==> {
                    &&& #[trigger] count_events(log@, Event::Started(a as usize)) == 1
                    &&& count_events(log@, Event::Finished(a as usize)) == 1
                    &&& exists|i: int, j: int|
                        0 <= i < j < log@.len() && log@[i] == Event::Started(a as usize) && log@[j]
                            == Event::Finished(a as usize)
                },
    {
        let mut st = RunState::new(actors, n_slots);
        let n = actors.len();
        let mut k: usize = 0;
        loop
            invariant
                st.wf(actors@),
                n == actors@.len(),
                k <= schedule@.len(),
            ensures
                st.wf(actors@),
                forall|a: int| 0 <= a < st.phases@.len() ==> st.phases@[a] == Phase::Done,
            decreases work_of(st.phases@),
        {
            if st.all_done() {
                break ;
            }
            let hint = if k < schedule.len() {
                let h = schedule[k];
                k = k + 1;
                h
            } else {
                0
            };
            let a = if hint < n && st.can_step(actors, hint) {
                hint
            } else {
                st.find_steppable(actors)
            };
            st.step(actors, a);
        }
        proof {
            lemma_emitted_of_all_done(st.phases@);
            assert forall|a: int| 0 <= a < actors@.len() implies {
                &&& #[trigger] count_events(st.log@, Event::Started(a as usize)) == 1
                &&& count_events(st.log@, Event::Finished(a as usize)) == 1
                &&& exists|i: int, j: int|
                    0 <= i < j < st.log@.len() && st.log@[i] == Event::Started(a as usize)
                        && st.log@[j] == Event::Finished(a as usize)
            } by {
                assert(st.log_consistent(a));
            }
        }
        st.log
    }
}

/// The heart of the no-deadlock argument: follow the chain of waiting
/// actors upward.  Whoever holds slot `s` either eats (and can step) or
/// waits for its second slot, which under the lowest-first policy has a
/// strictly higher index than the one it holds; the chain of held slots
/// climbs strictly and must end at a free slot or an eating actor.
proof fn lemma_chain(st: RunState, actors: Seq<Philosopher>, s: int)
    requires
        st.wf(actors),
        0 <= s < st.table.n_slots(),
        st.table.holder@[s] is Some,
    ensures
        exists|b: int| 0 <= b < actors.len() && st.spec_can_step(actors, b),
    decreases st.table.n_slots() - s,
{
    assert(st.slot_consistent(actors, s));
    let h = st.table.holder@[s]->0 as int;
    assert(0 <= h < actors.len());
    if st.phases@[h] == Phase::Eating {
        assert(st.spec_can_step(actors, h));
    } else {
        assert(st.phases@[h] == Phase::HasFirst);
        assert(s == actors[h].spec_first_slot() as int);
        let t = actors[h].spec_second_slot() as int;
        assert(actors[h].valid(st.table.n_slots()));
        lemma_order_is_strict(actors[h], st.table.n_slots());
        assert(s < t < st.table.n_slots());
        if st.table.holder@[t] is None {
            assert(st.table.slot_free(t));
            assert(st.spec_can_step(actors, h));
        } else {
            lemma_chain(st, actors, t);
        }
    }
}

/// No deadlock: in every reachable state in which some actor still has
/// work left, some actor can take its next step.  No cycle of actors each
/// waiting on a slot held by the next can ever form, because every actor
/// acquires its slots in increasing index order.
pub proof fn lemma_progress(st: RunState, actors: Seq<Philosopher>)
    requires
        st.wf(actors),
        exists|a: int| 0 <= a < actors.len() && st.phases@[a] != Phase::Done,
    ensures
        exists|b: int| 0 <= b < actors.len() && st.spec_can_step(actors, b),
{
    let a = choose|a: int| 0 <= a < actors.len() && st.phases@[a] != Phase::Done;
    assert(st.actor_consistent(actors, a));
    assert(actors[a].valid(st.table.n_slots()));
    match st.phases@[a] {
        Phase::Hungry => {
            let f = actors[a].spec_first_slot() as int;
            if st.table.holder@[f] is None {
                assert(st.table.slot_free(f));
                assert(st.spec_can_step(actors, a));
            } else {
                lemma_chain(st, actors, f);
            }
        },
        Phase::HasFirst => {
            let t = actors[a].spec_second_slot() as int;
            lemma_order_is_strict(actors[a], st.table.n_slots());
            if st.table.holder@[t] is None {
                assert(st.table.slot_free(t));
                assert(st.spec_can_step(actors, a));
            } else {
                lemma_chain(st, actors, t);
            }
        },
        Phase::Eating => {
            assert(st.spec_can_step(actors, a));
        },
        Phase::Done => {
            assert(false);
        },
    }
}

/// One step by an eligible actor preserves the run's whole invariant,
/// whatever the schedule chose: this is what makes every property below
/// hold at every instant of every interleaving.
proof fn lemma_wf_after_step(pre: RunState, post: RunState, actors: Seq<Philosopher>, a: usize)
    requires
        pre.wf(actors),
        actors.len() <= usize::MAX,
        a < actors.len(),
        pre.spec_can_step(actors, a as int),
        post.phases@ == pre.phases@.update(a as int, next_phase(pre.phases@[a as int])),
        post.table.tainted@ == pre.table.tainted@,
        pre.phases@[a as int] == Phase::Hungry ==> {
            &&& post.log@ == pre.log@
            &&& post.table.holder@ == pre.table.holder@.update(
                actors[a as int].spec_first_slot() as int,
                Some(a),
            )
        },
        pre.phases@[a as int] == Phase::HasFirst ==> {
            &&& post.log@ == pre.log@.push(Event::Started(a))
            &&& post.table.holder@ == pre.table.holder@.update(
                actors[a as int].spec_second_slot() as int,
                Some(a),
            )
        },
        pre.phases@[a as int] == Phase::Eating ==> {
            &&& post.log@ == pre.log@.push(Event::Finished(a))
            &&& post.table.holder@ == pre.table.holder@.update(
                actors[a as int].spec_first_slot() as int,
                None::<usize>,
            ).update(actors[a as int].spec_second_slot() as int, None::<usize>)
        },
    ensures
        post.wf(actors),
{
    let aa = a as int;
    let n_slots = pre.table.holder@.len() as int;
    let p = actors[aa];
    let f = p.spec_first_slot() as int;
    let sec = p.spec_second_slot() as int;
    assert(p.valid(n_slots));
    lemma_order_is_strict(p, n_slots);
    assert(pre.actor_consistent(actors, aa));
    assert(post.table.holder@.len() == n_slots);
    match pre.phases@[aa] {
        Phase::Hungry => {
            lemma_emitted_of_update(pre.phases@, aa, Phase::HasFirst);
            assert forall|b: int| 0 <= b < actors.len() implies post.actor_consistent(
                actors,
                b,
            ) by {
                assert(pre.actor_consistent(actors, b));
                if b == aa {
                    assert(post.table.holds(aa, f));
                    assert forall|s: int|
                        0 <= s < post.table.holder@.len() && s != f implies !(
                    #[trigger] post.table.holds(aa, s)) by {
                        assert(!pre.table.holds(aa, s));
                    }
                    assert(post.table.holds_outside_none(aa, f, f));
                } else {
                    assert forall|s: int|
                        0 <= s < post.table.holder@.len() implies #[trigger] post.table.holds(b, s)
                        == pre.table.holds(b, s) by {
                        if s == f {
                            assert(!pre.table.holds(b, s));
                            assert(!post.table.holds(b, s));
                        }
                    }
                }
            }
            assert forall|s: int| 0 <= s < n_slots implies post.slot_consistent(actors, s) by {
                assert(pre.slot_consistent(actors, s));
                if s != f && post.table.holder@[s] is Some {
                    let h = post.table.holder@[s]->0 as int;
                    assert(pre.table.holds(h, s));
                }
            }
            assert forall|b: int| 0 <= b < actors.len() implies post.log_consistent(b) by {
                assert(pre.log_consistent(b));
            }
        },
        Phase::HasFirst => {
            lemma_emitted_of_update(pre.phases@, aa, Phase::Eating);
            assert forall|b: int| 0 <= b < actors.len() implies post.actor_consistent(
                actors,
                b,
            ) by {
                assert(pre.actor_consistent(actors, b));
                if b == aa {
                    assert(post.table.holds(aa, f));
                    assert(post.table.holds(aa, sec));
                    assert forall|s: int|
                        0 <= s < post.table.holder@.len() && s != f && s != sec implies !(
                    #[trigger] post.table.holds(aa, s)) by {
                        assert(!pre.table.holds(aa, s));
                    }
                    assert(post.table.holds_outside_none(aa, f, sec));
                } else {
                    assert forall|s: int|
                        0 <= s < post.table.holder@.len() implies #[trigger] post.table.holds(b, s)
                        == pre.table.holds(b, s) by {
                        if s == sec {
                            assert(!pre.table.holds(b, s));
                            assert(!post.table.holds(b, s));
                        }
                    }
                }
            }
            assert forall|s: int| 0 <= s < n_slots implies post.slot_consistent(actors, s) by {
                assert(pre.slot_consistent(actors, s));
                if s != sec && post.table.holder@[s] is Some {
                    let h = post.table.holder@[s]->0 as int;
                    assert(pre.table.holds(h, s));
                }
            }
            assert forall|b: int| 0 <= b < actors.len() implies post.log_consistent(b) by {
                assert(pre.log_consistent(b));
                if b == aa {
                    lemma_log_ok_start(pre.log@, aa);
                } else {
                    assert(b as usize != a);
                    lemma_log_ok_push_other(pre.log@, pre.phases@[b], b, Event::Started(a));
                }
            }
        },
        Phase::Eating => {
            lemma_emitted_of_update(pre.phases@, aa, Phase::Done);
            assert forall|b: int| 0 <= b < actors.len() implies post.actor_consistent(
                actors,
                b,
            ) by {
                assert(pre.actor_consistent(actors, b));
                if b == aa {
                    assert forall|s: int|
                        0 <= s < post.table.holder@.len() implies !(#[trigger] post.table.holds(
                        aa,
                        s,
                    )) by {
                        if s != f && s != sec {
                            assert(!pre.table.holds(aa, s));
                        }
                    }
                    assert(post.table.holds_nothing(aa));
                } else {
                    assert forall|s: int|
                        0 <= s < post.table.holder@.len() implies #[trigger] post.table.holds(b, s)
                        == pre.table.holds(b, s) by {
                        if s == f || s == sec {
                            assert(pre.table.holds(aa, s));
                            assert(!pre.table.holds(b, s));
                            assert(!post.table.holds(b, s));
                        }
                    }
                }
            }
            assert forall|s: int| 0 <= s < n_slots implies post.slot_consistent(actors, s) by {
                assert(pre.slot_consistent(actors, s));
                if s != f && s != sec && post.table.holder@[s] is Some {
                    let h = post.table.holder@[s]->0 as int;
                    assert(pre.table.holds(h, s));
                    assert(!pre.table.holds(aa, s));
                }
            }
            assert forall|b: int| 0 <= b < actors.len() implies post.log_consistent(b) by {
                assert(pre.log_consistent(b));
                if b == aa {
                    lemma_log_ok_finish(pre.log@, aa);
                } else {
                    assert(b as usize != a);
                    lemma_log_ok_push_other(pre.log@, pre.phases@[b], b, Event::Finished(a));
                }
            }
        },
        Phase::Done => {
            assert(false);
        },
    }
}

} // verus!
