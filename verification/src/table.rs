//! The resource table: a fixed row of independently lockable slots.
//!
//! The table records, for each slot, which actor (if any) currently holds
//! it, and whether a previous holder ended abnormally while holding it.
//! Possession is exclusive by construction: a slot's holder is a single
//! `Option`, so two actors can never hold the same slot at the same
//! instant.  A tainted slot guards no corrupted data (the slots guard
//! nothing but themselves), so the policy is to hand it out anyway and
//! leave it to the caller to log a warning.

use vstd::prelude::*;

verus! {

/// What one acquisition attempt produced.
#[derive(Clone, Copy, PartialEq, Eq, Structural, Debug)]
pub enum AcquireOutcome {
    /// The slot was free and is now held by the caller.
    Acquired,
    /// The slot was free and is now held by the caller, but a previous
    /// holder ended abnormally while holding it: proceed, with a warning.
    Tainted,
    /// Another actor holds the slot; nothing changed.
    Unavailable,
}

/// The exclusion state of a fixed row of lockable slots.
pub struct SlotTable {
    /// For each slot, the actor holding it, if any.
    pub holder: Vec<Option<usize>>,
    /// For each slot, whether some holder once ended abnormally with it.
    pub tainted: Vec<bool>,
}

impl SlotTable {
    pub open spec fn wf(self) -> bool {
        self.tainted@.len() == self.holder@.len()
    }

    pub open spec fn n_slots(self) -> int {
        self.holder@.len() as int
    }

    /// Actor `a` holds slot `s`.
    pub open spec fn holds(self, a: int, s: int) -> bool {
        &&& 0 <= s < self.holder@.len()
        &&& self.holder@[s] is Some
        &&& self.holder@[s]->0 == a
    }

    /// Slot `s` is free.
    pub open spec fn slot_free(self, s: int) -> bool {
        &&& 0 <= s < self.holder@.len()
        &&& self.holder@[s] is None
    }

    /// Actor `a` holds no slot at all.
    pub open spec fn holds_nothing(self, a: int) -> bool {
        forall|s: int| 0 <= s < self.holder@.len() ==> !(#[trigger] self.holds(a, s))
    }

    /// Actor `a` holds no slot outside `{t, u}`.
    pub open spec fn holds_outside_none(self, a: int, t: int, u: int) -> bool {
        forall|s: int|
            0 <= s < self.holder@.len() && s != t && s != u ==> !(#[trigger] self.holds(a, s))
    }

    /// A table of `n` slots, all free and untainted.
    pub fn new(n: usize) -> (t: SlotTable)
        ensures
            t.wf(),
            t.n_slots() == n,
            forall|s: int| 0 <= s < n ==> t.slot_free(s),
            forall|s: int| 0 <= s < n ==> !t.tainted@[s],
    {
        let mut holder: Vec<Option<usize>> = Vec::new();
        let mut tainted: Vec<bool> = Vec::new();
        let mut i: usize = 0;
        while i < n
            invariant
                i <= n,
                holder@.len() == i,
                tainted@.len() == i,
                forall|s: int| 0 <= s < i ==> holder@[s] is None,
                forall|s: int| 0 <= s < i ==> !tainted@[s],
            decreases n - i,
        {
            holder.push(None);
            tainted.push(false);
            i = i + 1;
        }
        SlotTable { holder, tainted }
    }

    pub fn slot_count(&self) -> (n: usize)
        ensures
            n == self.n_slots(),
    {
        self.holder.len()
    }

    /// Who holds slot `s`, for instrumented observation of a run.
    pub fn holder_of(&self, s: usize) -> (h: Option<usize>)
        requires
            s < self.n_slots(),
        ensures
            h == self.holder@[s as int],
    {
        self.holder[s]
    }

    pub fn is_free(&self, s: usize) -> (b: bool)
        requires
            s < self.n_slots(),
        ensures
            b == self.slot_free(s as int),
    {
        match self.holder[s] {
            None => true,
            Some(_) => false,
        }
    }

    /// Try to take slot `s` for actor `a` without blocking.  A free slot
    /// is always granted, tainted or not; a held slot leaves the table
    /// unchanged.
    pub fn try_acquire(&mut self, s: usize, a: usize) -> (r: AcquireOutcome)
        requires
            old(self).wf(),
            s < old(self).n_slots(),
        ensures
            final(self).wf(),
            final(self).tainted@ == old(self).tainted@,
            old(self).holder@[s as int] is Some ==> {
                &&& r == AcquireOutcome::Unavailable
                &&& final(self).holder@ == old(self).holder@
            },
            old(self).holder@[s as int] is None ==> {
                &&& final(self).holder@ == old(self).holder@.update(s as int, Some(a))
                &&& r == if old(self).tainted@[s as int] {
                    AcquireOutcome::Tainted
                } else {
                    AcquireOutcome::Acquired
                }
            },
    {
        match self.holder[s] {
            Some(_) => AcquireOutcome::Unavailable,
            None => {
                self.holder.set(s, Some(a));
                if self.tainted[s] {
                    AcquireOutcome::Tainted
                } else {
                    AcquireOutcome::Acquired
                }
            },
        }
    }

    /// Give slot `s` back on behalf of actor `a`.  Releasing a slot the
    /// actor does not hold is a no-op: it never frees a slot that another
    /// actor holds, so an over-release cannot corrupt the exclusion
    /// state.
    pub fn release(&mut self, s: usize, a: usize) -> (released: bool)
        requires
            old(self).wf(),
            s < old(self).n_slots(),
        ensures
            final(self).wf(),
            final(self).tainted@ == old(self).tainted@,
            old(self).holder@[s as int] == Some(a) ==> {
                &&& released
                &&& final(self).holder@ == old(self).holder@.update(s as int, None::<usize>)
            },
            old(self).holder@[s as int] != Some(a) ==> {
                &&& !released
                &&& final(self).holder@ == old(self).holder@
            },
    {
        let held_by_a = match self.holder[s] {
            Some(h) => h == a,
            None => false,
        };
        if held_by_a {
            self.holder.set(s, None);
            true
        } else {
            false
        }
    }

    /// Record that the holder of slot `s` ended abnormally: the slot
    /// becomes free again but stays marked tainted from then on.
    pub fn mark_abnormal_end(&mut self, s: usize)
        requires
            old(self).wf(),
            s < old(self).n_slots(),
        ensures
            final(self).wf(),
            final(self).holder@ == old(self).holder@.update(s as int, None::<usize>),
            final(self).tainted@ == old(self).tainted@.update(s as int, true),
    {
        self.holder.set(s, None);
        self.tainted.set(s, true);
    }
}

/// Mutual exclusion: in any table state, a slot has at most one holder,
/// so for every slot and every instant of a run two distinct actors never
/// possess it at once.
pub proof fn lemma_mutual_exclusion(t: SlotTable, a: int, b: int, s: int)
    requires
        t.holds(a, s),
        t.holds(b, s),
    ensures
        a == b,
{
}

} // verus!
