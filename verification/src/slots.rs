//! The allocator of duplicate slots: small numbers that tell the scopes of one stream
//! apart while they are open, and that are used again once their scope has ended.

use crate::min_heap::{heap_pop_min, heap_push, is_min_heap};
use vstd::prelude::*;

verus! {

/// One duplicate slot of a stream. The numbers below `RESERVE` are set aside and are
/// never handed out by an allocator.
#[derive(Debug, Clone, Copy, PartialEq, Eq, Hash)]
pub struct Slot<const RESERVE: usize> {
    s: usize,
}

impl<const RESERVE: usize> View for Slot<RESERVE> {
    type V = nat;

    /// The slot's number.
    closed spec fn view(&self) -> nat {
        self.s as nat
    }
}

impl<const RESERVE: usize> Slot<RESERVE> {
    /// The slot's number: below `RESERVE` for a reserved slot, and from `RESERVE`
    /// upwards for a slot that an allocator handed out.
    pub fn to_usize(&self) -> (n: usize)
        ensures
            n == self@,
    {
        self.s
    }
}

/// `n` is the smallest number that is not below `reserve` and not in `taken`.
pub open spec fn is_lowest_free(taken: Set<nat>, reserve: nat, n: nat) -> bool {
    &&& reserve <= n
    &&& !taken.contains(n)
    &&& forall|m: nat| reserve <= m < n ==> taken.contains(m)
}

/// Hands out the numbers from `RESERVE` upwards and takes them back for reuse.
///
/// The numbers that were handed out and not yet returned are the allocator's view.
#[derive(Debug)]
pub struct Slots<const RESERVE: usize> {
    /// Every number from here upwards is free.
    counter: usize,
    /// The free numbers below `counter`, as a binary min-heap.
    holes: Vec<usize>,
}

impl<const RESERVE: usize> View for Slots<RESERVE> {
    type V = Set<nat>;

    /// The slots that are outstanding: those above the reserved ones and below the
    /// counter that are no holes.
    open spec fn view(&self) -> Set<nat> {
        Set::new(|n: nat| RESERVE <= n < self.counter() && !self.holes().contains(n))
    }
}

impl<const RESERVE: usize> Slots<RESERVE> {
    /// The representation is consistent: the holes are distinct free numbers between the
    /// reserved range and the counter, kept in heap order.
    pub closed spec fn wf(&self) -> bool {
        &&& RESERVE <= self.counter
        &&& is_min_heap(self.holes@)
        &&& self.holes@.no_duplicates()
        &&& forall|i: int|
            0 <= i < self.holes@.len() ==> RESERVE <= #[trigger] self.holes@[i] < self.counter
    }

    /// The counter: every number from here upwards is free.
    pub closed spec fn counter(&self) -> nat {
        self.counter as nat
    }

    /// The holes: the numbers below the counter that came back.
    pub closed spec fn holes(&self) -> Set<nat> {
        Set::new(|n: nat| n <= usize::MAX && self.holes@.contains(n as usize))
    }

    /// In a consistent allocator the counter is not below the reserve, and every hole
    /// lies between the reserve and the counter.
    pub proof fn lemma_holes_lie_below_counter(&self)
        requires
            self.wf(),
        ensures
            RESERVE <= self.counter() <= usize::MAX,
            forall|n: nat| self.holes().contains(n) ==> RESERVE <= n < self.counter(),
    {
        assert forall|n: nat| self.holes().contains(n) implies RESERVE <= n < self.counter() by {
            let k = choose|k: int| 0 <= k < self.holes@.len() && self.holes@[k] == n as usize;
            assert(RESERVE <= self.holes@[k] < self.counter);
        }
    }

    /// Some number below the largest `usize` can still be handed out.
    pub open spec fn has_room(&self) -> bool {
        exists|n: nat| RESERVE <= n < usize::MAX && !self@.contains(n)
    }

    /// An allocator with nothing outstanding.
    pub fn new() -> (slots: Self)
        ensures
            slots.wf(),
            slots@ == Set::<nat>::empty(),
            slots.counter() == RESERVE,
            slots.holes() == Set::<nat>::empty(),
    {
        let slots = Slots { counter: RESERVE, holes: Vec::new() };
        assert(slots@ =~= Set::<nat>::empty());
        assert(slots.holes() =~= Set::<nat>::empty());
        slots
    }

    /// Hands out the smallest number at or above `RESERVE` that is not outstanding:
    /// the lowest hole if there is one, else the counter, which then moves up by one.
    pub fn allocate(&mut self) -> (slot: Slot<RESERVE>)
        requires
            old(self).wf(),
            old(self).has_room(),
        ensures
            final(self).wf(),
            is_lowest_free(old(self)@, RESERVE as nat, slot@),
            final(self)@ == old(self)@.insert(slot@),
            slot@ < usize::MAX,
            old(self).holes().contains(slot@) ==> {
                &&& final(self).holes() == old(self).holes().remove(slot@)
                &&& final(self).counter() == old(self).counter()
            },
            !old(self).holes().contains(slot@) ==> {
                &&& old(self).holes() == Set::<nat>::empty()
                &&& slot@ == old(self).counter()
                &&& final(self).holes() == old(self).holes()
                &&& final(self).counter() == old(self).counter() + 1
            },
    {
        let ghost before = self.holes@;
        match heap_pop_min(&mut self.holes) {
            Some(slot) => {
                proof {
                    let after = self.holes@;
                    let k = choose|k: int| 0 <= k < before.len() && before[k] == slot;
                    assert(RESERVE <= before[k] < self.counter);
                    assert forall|n: nat| #[trigger]
                        self.holes().contains(n) == old(self).holes().remove(slot as nat).contains(
                            n,
                        ) by {
                        if n <= usize::MAX {
                            let m = n as usize;
                            assert(after.to_set().contains(m) == (before.to_set().contains(m) && m
                                != slot));
                        }
                    }
                    assert(self.holes() =~= old(self).holes().remove(slot as nat));
                    assert(old(self).holes().contains(slot as nat));
                    assert forall|m: nat| RESERVE <= m < slot implies old(self)@.contains(m) by {
                        if before.contains(m as usize) {
                        }
                    }
                    assert forall|i: int| 0 <= i < after.len() implies RESERVE <= #[trigger] after[i]
                        < self.counter by {
                        assert(after.to_set().contains(after[i]));
                        assert(before.contains(after[i]));
                        let j = choose|j: int| 0 <= j < before.len() && before[j] == after[i];
                        assert(RESERVE <= before[j] < self.counter);
                    }
                    assert(self@ =~= old(self)@.insert(slot as nat));
                }
                Slot { s: slot }
            },
            None => {
                let slot = self.counter;
                proof {
                    assert(old(self).holes() =~= Set::<nat>::empty());
                    let free = choose|n: nat| RESERVE <= n < usize::MAX && !old(self)@.contains(n);
                    assert(slot <= free);
                }
                self.counter += 1;
                proof {
                    assert(self.holes() =~= old(self).holes());
                    assert(self@ =~= old(self)@.insert(slot as nat));
                }
                Slot { s: slot }
            },
        }
    }

    /// Takes an outstanding slot back. The most recently issued number lowers the counter;
    /// any other becomes a hole.
    pub fn deallocate(&mut self, slot: Slot<RESERVE>)
        requires
            old(self).wf(),
            old(self)@.contains(slot@),
        ensures
            final(self).wf(),
            final(self)@ == old(self)@.remove(slot@),
            slot@ + 1 == old(self).counter() ==> {
                &&& final(self).counter() == slot@
                &&& final(self).holes() == old(self).holes()
            },
            slot@ + 1 != old(self).counter() ==> {
                &&& final(self).counter() == old(self).counter()
                &&& final(self).holes() == old(self).holes().insert(slot@)
            },
    {
        let Slot { s: slot } = slot;
        let ghost before = self.holes@;
        proof {
            assert(!old(self).holes().contains(slot as nat));
            assert(!before.contains(slot));
        }
        if self.counter == slot + 1 {
            self.counter -= 1;
            proof {
                assert(self.holes() =~= old(self).holes());
                assert forall|i: int| 0 <= i < self.holes@.len() implies RESERVE
                    <= #[trigger] self.holes@[i] < self.counter by {
                    assert(RESERVE <= before[i] < old(self).counter);
                    assert(before.contains(before[i]));
                }
                assert(self@ =~= old(self)@.remove(slot as nat));
            }
        } else {
            heap_push(&mut self.holes, slot);
            proof {
                let after = self.holes@;
                assert forall|n: nat| #[trigger]
                    self.holes().contains(n) == old(self).holes().insert(slot as nat).contains(
                        n,
                    ) by {
                    if n <= usize::MAX {
                        let m = n as usize;
                        assert(after.to_set().contains(m) == (before.to_set().contains(m) || m
                            == slot));
                    }
                }
                assert(self.holes() =~= old(self).holes().insert(slot as nat));
                assert forall|i: int| 0 <= i < after.len() implies RESERVE <= #[trigger] after[i]
                    < self.counter by {
                    let h = after[i];
                    assert(after.to_set().contains(h));
                    if h != slot {
                        assert(before.to_set().contains(h));
                        let j = choose|j: int| 0 <= j < before.len() && before[j] == h;
                        assert(RESERVE <= before[j] < self.counter);
                    }
                }
                assert(self@ =~= old(self)@.remove(slot as nat));
            }
        }
    }

    /// The slot numbered `res`, if `res` lies in the reserved range.
    pub fn reserved(res: usize) -> (slot: Option<Slot<RESERVE>>)
        ensures
            match slot {
                Some(s) => res < RESERVE && s@ == res,
                None => res >= RESERVE,
            },
    {
        if res < RESERVE {
            Some(Slot { s: res })
        } else {
            None
        }
    }

    /// Whether `slot` is outstanding.
    pub fn is_allocated(&self, slot: &Slot<RESERVE>) -> (outstanding: bool)
        requires
            self.wf(),
        ensures
            outstanding == self@.contains(slot@),
    {
        if slot.s < RESERVE || slot.s >= self.counter {
            return false;
        }
        let mut i: usize = 0;
        while i < self.holes.len()
            invariant
                0 <= i <= self.holes@.len(),
                forall|k: int| 0 <= k < i ==> self.holes@[k] != slot.s,
            decreases self.holes@.len() - i,
        {
            if self.holes[i] == slot.s {
                return false;
            }
            i += 1;
        }
        true
    }

    /// Whether `allocate` may be called: some number below the largest `usize` is free.
    pub fn can_allocate(&self) -> (room: bool)
        requires
            self.wf(),
        ensures
            room == self.has_room(),
    {
        if self.holes.len() > 0 {
            proof {
                let h = self.holes@[0];
                assert(self.holes@.contains(h));
                assert(RESERVE <= h < usize::MAX && !self@.contains(h as nat));
            }
            true
        } else if self.counter < usize::MAX {
            proof {
                assert(!self@.contains(self.counter as nat));
            }
            true
        } else {
            false
        }
    }
}

/// Handing a slot out and taking it straight back leaves the outstanding slots as
/// they were, so the next slot handed out is the same one again.
pub proof fn lemma_allocate_then_deallocate(taken: Set<nat>, reserve: nat, n: nat, next: nat)
    requires
        is_lowest_free(taken, reserve, n),
        is_lowest_free(taken.insert(n).remove(n), reserve, next),
    ensures
        taken.insert(n).remove(n) == taken,
        next == n,
{
    assert(taken.insert(n).remove(n) =~= taken);
    if next < n {
        assert(taken.contains(next));
    }
    if n < next {
        assert(taken.contains(n));
    }
}

/// The slot that an allocator hands out is determined by its outstanding slots alone.
pub proof fn lemma_lowest_free_is_unique(taken: Set<nat>, reserve: nat, a: nat, b: nat)
    requires
        is_lowest_free(taken, reserve, a),
        is_lowest_free(taken, reserve, b),
    ensures
        a == b,
{
    if a < b {
        assert(taken.contains(a));
    }
    if b < a {
        assert(taken.contains(b));
    }
}

} // verus!
