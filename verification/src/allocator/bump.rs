//! Bump allocation: a monotonic cursor through the heap region.
//!
//! Allocation aligns the cursor up and advances it past the new object;
//! deallocation only decrements a live-object counter and reclaims the whole
//! region at once when the counter reaches zero. Individual objects are never
//! reclaimed — the deliberate trade-off is O(1) allocate / deallocate at the
//! price of reuse only when all outstanding allocations are freed together.

use crate::allocator::{align_up, lemma_align_up, spec_align_up};
use vstd::prelude::*;

verus! {

/// The state of the bump strategy: fixed heap bounds, the cursor `next`
/// (the lowest address not yet handed out) and the live-object counter.
pub struct BumpAllocator {
    pub heap_start: u64,
    pub heap_end: u64,
    pub next: u64,
    pub allocations: u64,
}

/// One call against the allocator, for stating properties of whole call
/// sequences.
pub enum BumpOp {
    /// An `allocate(size, align)` request.
    Allocate(u64, u64),
    /// A `deallocate` of one earlier allocation.
    Deallocate,
}

impl BumpAllocator {
    /// Lowest address of the heap region.
    pub open spec fn spec_heap_start(self) -> int {
        self.heap_start as int
    }

    /// One past the highest address of the heap region.
    pub open spec fn spec_heap_end(self) -> int {
        self.heap_end as int
    }

    /// The cursor: the lowest address that has never been handed out.
    pub open spec fn spec_next(self) -> int {
        self.next as int
    }

    /// The number of allocations not yet deallocated.
    pub open spec fn spec_allocations(self) -> int {
        self.allocations as int
    }

    /// Internal invariant: the cursor stays within the heap bounds, and when
    /// nothing is live it stands at the very start of the region.
    pub open spec fn wf(self) -> bool {
        &&& self.spec_heap_start() <= self.spec_next() <= self.spec_heap_end()
        &&& self.spec_allocations() == 0 ==> self.spec_next() == self.spec_heap_start()
    }

    /// An `allocate(size, align)` request succeeds exactly when the aligned
    /// cursor plus the requested size stays within the heap.
    pub open spec fn can_allocate(self, size: u64, align: u64) -> bool {
        spec_align_up(self.spec_next(), align as int) + size <= self.spec_heap_end()
    }

    /// The state after a successful `allocate(size, align)`.
    pub open spec fn after_allocate(self, size: u64, align: u64) -> BumpAllocator {
        BumpAllocator {
            next: (spec_align_up(self.spec_next(), align as int) + size) as u64,
            allocations: (self.allocations + 1) as u64,
            ..self
        }
    }

    /// The state after a `deallocate`: one less live object, and a wholesale
    /// reset of the cursor once nothing is live any more.
    pub open spec fn after_deallocate(self) -> BumpAllocator {
        BumpAllocator {
            allocations: (self.allocations - 1) as u64,
            next: if self.allocations == 1 {
                self.heap_start
            } else {
                self.next
            },
            ..self
        }
    }

    /// Creates a new empty bump allocator; it owns no memory until `init`.
    pub fn new() -> (r: Self)
        ensures
            r.wf(),
            r.spec_heap_start() == 0,
            r.spec_heap_end() == 0,
            r.spec_next() == 0,
            r.spec_allocations() == 0,
    {
        BumpAllocator { heap_start: 0, heap_end: 0, next: 0, allocations: 0 }
    }

    /// Initializes the bump allocator with the given heap bounds.
    ///
    /// The caller must call this exactly once, on a freshly created
    /// allocator, with a range that is mapped and otherwise unused.
    pub fn init(&mut self, heap_start: u64, heap_size: u64)
        requires
            old(self).spec_heap_start() == 0,
            old(self).spec_heap_end() == 0,
            old(self).spec_next() == 0,
            old(self).spec_allocations() == 0,
            heap_start + heap_size <= u64::MAX,
        ensures
            final(self).wf(),
            final(self).spec_heap_start() == heap_start,
            final(self).spec_heap_end() == heap_start + heap_size,
            final(self).spec_next() == heap_start,
            final(self).spec_allocations() == 0,
    {
        self.heap_start = heap_start;
        self.heap_end = heap_start + heap_size;
        self.next = heap_start;
    }

    /// Serves one allocation request of `size` bytes aligned to `align`.
    ///
    /// Succeeds, returning the aligned former cursor, exactly when the
    /// request fits below the end of the heap; running out of space is a
    /// normal outcome reported as `None`.
    pub fn allocate(&mut self, size: u64, align: u64) -> (r: Option<u64>)
        requires
            old(self).wf(),
            1 <= align,
            old(self).spec_allocations() < u64::MAX,
        ensures
            final(self).wf(),
            old(self).can_allocate(size, align) ==> {
                &&& r == Some(spec_align_up(old(self).spec_next(), align as int) as u64)
                &&& *final(self) == old(self).after_allocate(size, align)
            },
            !old(self).can_allocate(size, align) ==> {
                &&& r is None
                &&& *final(self) == *old(self)
            },
            r matches Some(a) ==> a % align == 0 && old(self).spec_next() <= a && a + size
                <= old(self).spec_heap_end(),
    {
        proof {
            lemma_align_up(self.spec_next(), align as int);
        }
        let rem = self.next % align;
        let pad = if rem == 0 {
            0
        } else {
            align - rem
        };
        let alloc_start = match self.next.checked_add(pad) {
            Some(s) => s,
            None => {
                return None;
            },
        };
        let alloc_end = match alloc_start.checked_add(size) {
            Some(e) => e,
            None => {
                return None;
            },
        };
        if alloc_end > self.heap_end {
            None
        } else {
            self.next = alloc_end;
            self.allocations = self.allocations + 1;
            Some(alloc_start)
        }
    }

    /// Records that one earlier allocation has been freed.
    ///
    /// The address and layout of the freed object are irrelevant to this
    /// strategy; only the counter matters. When the counter returns to zero
    /// the whole region is reclaimed by resetting the cursor. Deallocating
    /// more often than allocating is a caller-contract violation, excluded
    /// here rather than checked at run time.
    pub fn deallocate(&mut self, _addr: u64, _size: u64, _align: u64)
        requires
            old(self).wf(),
            old(self).spec_allocations() > 0,
        ensures
            final(self).wf(),
            *final(self) == old(self).after_deallocate(),
    {
        self.allocations = self.allocations - 1;
        if self.allocations == 0 {
            self.next = self.heap_start;
        }
    }
}

/// The state reached by running a sequence of calls, oldest first, from `s`.
/// A `Deallocate` that does not follow an outstanding allocation is ignored;
/// sequences that respect call-for-call pairing never hit that case.
pub open spec fn bump_run(s: BumpAllocator, ops: Seq<BumpOp>) -> BumpAllocator
    decreases ops.len(),
{
    if ops.len() == 0 {
        s
    } else {
        let rest = bump_run(s, ops.drop_last());
        match ops.last() {
            BumpOp::Allocate(size, align) => if 1 <= align && rest.can_allocate(size, align)
                && rest.spec_allocations() < u64::MAX {
                rest.after_allocate(size, align)
            } else {
                rest
            },
            BumpOp::Deallocate => if rest.spec_allocations() > 0 {
                rest.after_deallocate()
            } else {
                rest
            },
        }
    }
}

/// Bump counter invariant: after any sequence of allocate / deallocate
/// calls, whenever the outstanding count has returned to zero the cursor
/// stands at the original heap start again.
pub proof fn lemma_bump_counter_invariant(s: BumpAllocator, ops: Seq<BumpOp>)
    requires
        s.wf(),
    ensures
        bump_run(s, ops).wf(),
        bump_run(s, ops).spec_heap_start() == s.spec_heap_start(),
        bump_run(s, ops).spec_allocations() == 0 ==> bump_run(s, ops).spec_next()
            == s.spec_heap_start(),
    decreases ops.len(),
{
    if ops.len() > 0 {
        lemma_bump_counter_invariant(s, ops.drop_last());
        let rest = bump_run(s, ops.drop_last());
        match ops.last() {
            BumpOp::Allocate(size, align) => {
                if 1 <= align && rest.can_allocate(size, align) && rest.spec_allocations()
                    < u64::MAX {
                    lemma_align_up(rest.spec_next(), align as int);
                }
            },
            BumpOp::Deallocate => {},
        }
    }
}

/// Exhaustion and reuse, bump variant: with exactly one object live at a
/// time, an allocate followed by its deallocate returns the allocator to
/// exactly the state it started from — the wholesale reset reclaims the
/// region — so the pairing can repeat without bound, never running out of
/// memory. With more than one object live at once no such guarantee holds
/// for this strategy.
pub proof fn lemma_exhaustion_reuse_bump(b: BumpAllocator, size: u64, align: u64)
    requires
        b.wf(),
        1 <= align,
        b.spec_allocations() == 0,
        b.can_allocate(size, align),
    ensures
        b.after_allocate(size, align).after_deallocate() == b,
        b.after_allocate(size, align).after_deallocate().can_allocate(size, align),
{
    lemma_align_up(b.spec_next(), align as int);
}

} // verus!
