//! Actor descriptors and the acquisition-order policy.
//!
//! Each actor names the two slots it needs.  The one correctness-critical
//! algorithmic decision of the whole system lives here: every actor
//! acquires its lower-indexed slot first, whichever side of it that slot
//! is on.  That single global total order over slot indices is what rules
//! out a circular wait on the ring.

use vstd::arithmetic::div_mod::lemma_small_mod;
use vstd::prelude::*;

verus! {

broadcast use vstd::string::group_string_axioms;

/// One actor of the simulation: a display name and the indices of the two
/// slots it must hold at the same time.
pub struct Philosopher {
    pub name: String,
    pub left: usize,
    pub right: usize,
}

impl Philosopher {
    /// A descriptor is well formed for a table of `n_slots` slots when
    /// both indices are in range and name two distinct slots.
    pub open spec fn valid(self, n_slots: int) -> bool {
        &&& self.left < n_slots
        &&& self.right < n_slots
        &&& self.left != self.right
    }

    /// The slot this actor acquires first: the lower-indexed of its two.
    pub open spec fn spec_first_slot(self) -> usize {
        if self.left <= self.right {
            self.left
        } else {
            self.right
        }
    }

    /// The slot this actor acquires second: the higher-indexed of its two.
    pub open spec fn spec_second_slot(self) -> usize {
        if self.left <= self.right {
            self.right
        } else {
            self.left
        }
    }

    pub fn new(name: &str, left: usize, right: usize) -> (p: Philosopher)
        ensures
            p.name@ == name@,
            p.left == left,
            p.right == right,
    {
        Philosopher { name: name.to_string(), left, right }
    }

    /// The effective acquisition order is lowest index first, not
    /// left-then-right as the descriptor happens to be written.
    pub fn first_slot(&self) -> (s: usize)
        ensures
            s == self.spec_first_slot(),
    {
        if self.left <= self.right {
            self.left
        } else {
            self.right
        }
    }

    pub fn second_slot(&self) -> (s: usize)
        ensures
            s == self.spec_second_slot(),
    {
        if self.left <= self.right {
            self.right
        } else {
            self.left
        }
    }
}

/// A valid descriptor's acquisition order is strict: the first slot is
/// strictly below the second, so the orders of all actors embed in one
/// global total order over slot indices.
pub proof fn lemma_order_is_strict(p: Philosopher, n_slots: int)
    requires
        p.valid(n_slots),
    ensures
        p.spec_first_slot() < p.spec_second_slot(),
        p.spec_second_slot() < n_slots,
{
}

/// Right slot of actor `i` on a ring of `n` actors: the slot it shares
/// with its successor.
pub open spec fn ring_right(i: int, n: int) -> int
    recommends
        0 < n,
{
    (i + 1) % n
}

/// Build the classic ring of `names.len()` actors over as many slots:
/// actor `i` has slot `i` on its left and slot `(i + 1) % n` on its
/// right, so each slot is shared by exactly one pair of neighbours.
pub fn make_ring(names: &Vec<String>) -> (ps: Vec<Philosopher>)
    requires
        2 <= names@.len(),
    ensures
        ps@.len() == names@.len(),
        forall|i: int|
            0 <= i < ps@.len() ==> {
                &&& (#[trigger] ps@[i]).name@ == names@[i]@
                &&& ps@[i].left == i
                &&& ps@[i].right == ring_right(i, names@.len() as int)
                &&& ps@[i].valid(names@.len() as int)
            },
{
    let n = names.len();
    let mut ps: Vec<Philosopher> = Vec::new();
    let mut i: usize = 0;
    while i < n
        invariant
            2 <= n == names@.len(),
            i <= n,
            ps@.len() == i,
            forall|j: int|
                0 <= j < i ==> {
                    &&& (#[trigger] ps@[j]).name@ == names@[j]@
                    &&& ps@[j].left == j
                    &&& ps@[j].right == ring_right(j, n as int)
                    &&& ps@[j].valid(n as int)
                },
        decreases n - i,
    {
        let right = if i + 1 == n {
            0
        } else {
            i + 1
        };
        proof {
            if i + 1 == n {
                assert(ring_right(i as int, n as int) == 0);
            } else {
                lemma_small_mod((i + 1) as nat, n as nat);
            }
        }
        let p = Philosopher::new(names[i].as_str(), i, right);
        ps.push(p);
        i = i + 1;
    }
    ps
}

/// Check every descriptor against the table size before anything is
/// spawned: a malformed descriptor is a configuration error and must be
/// rejected up front, not discovered mid-run.
pub fn actors_valid(ps: &Vec<Philosopher>, n_slots: usize) -> (b: bool)
    ensures
        b == forall|i: int| 0 <= i < ps@.len() ==> (#[trigger] ps@[i]).valid(n_slots as int),
{
    let n = ps.len();
    let mut i: usize = 0;
    while i < n
        invariant
            i <= n == ps@.len(),
            forall|j: int| 0 <= j < i ==> (#[trigger] ps@[j]).valid(n_slots as int),
        decreases n - i,
    {
        let p = &ps[i];
        if !(p.left < n_slots && p.right < n_slots && p.left != p.right) {
            return false;
        }
        i = i + 1;
    }
    true
}

/// Acquisition-order correctness on the ring: under the global
/// lowest-slot-first policy at least one actor acquires its slots in the
/// opposite order from its descriptor's plain left-then-right reading.
/// The last actor's right slot wraps to 0, below its left slot, so that
/// actor starts with its right slot and the circular wait is broken.
pub proof fn lemma_ring_order_breaks_symmetry(ps: Seq<Philosopher>, n: int)
    requires
        2 <= n,
        ps.len() == n,
        forall|i: int|
            0 <= i < n ==> (#[trigger] ps[i]).left == i && ps[i].right == ring_right(i, n),
    ensures
        exists|i: int| 0 <= i < n && (#[trigger] ps[i]).spec_first_slot() != ps[i].left,
{
    let i = n - 1;
    assert(ps[i].right == 0) by {
        assert(ring_right(i, n) == n % n);
    }
    assert(ps[i].spec_first_slot() != ps[i].left);
}

} // verus!
