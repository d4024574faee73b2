//! Segregated fixed-size-block allocation.
//!
//! Requests are bucketed into a fixed ascending table of power-of-two block
//! sizes (8 … 2048 bytes); each class keeps its own list of freed blocks for
//! O(1) reuse, and each class size doubles as the alignment of its blocks.
//! A request too large for every class — and any class request whose list is
//! empty — falls through to the embedded free-list allocator. Freed class
//! blocks are retained by their class forever: memory reserved for a class
//! never shrinks, an accepted trade for speed and determinism.

use crate::allocator::linked_list::{
    lemma_pow2_divides, ll_alloc_spec, ll_dealloc_spec, region_free_of, spec_adjusted_size,
    spec_is_pow2, LinkedListAllocator,
};
use crate::allocator::linked_list::{
    lemma_aligned_to_divisor, lemma_single_word_first_alloc, NODE_ALIGN, NODE_SIZE,
};
use vstd::prelude::*;

verus! {

/// Number of size classes.
pub const BLOCK_CLASS_COUNT: usize = 9;

/// The block size of class `i`: powers of two from 8 to 2048 bytes.
///
/// Block sizes double as block alignments, which is sound only because each
/// is a power of two.
pub open spec fn spec_block_size(i: int) -> u64 {
    if i == 0 {
        8
    } else if i == 1 {
        16
    } else if i == 2 {
        32
    } else if i == 3 {
        64
    } else if i == 4 {
        128
    } else if i == 5 {
        256
    } else if i == 6 {
        512
    } else if i == 7 {
        1024
    } else {
        2048
    }
}

/// The class that serves a request, if any: the smallest class whose block
/// size reaches both the requested size and the requested alignment.
pub open spec fn spec_list_index(size: u64, align: u64) -> Option<int> {
    let required = if size >= align {
        size
    } else {
        align
    };
    if required <= 8 {
        Some(0)
    } else if required <= 16 {
        Some(1)
    } else if required <= 32 {
        Some(2)
    } else if required <= 64 {
        Some(3)
    } else if required <= 128 {
        Some(4)
    } else if required <= 256 {
        Some(5)
    } else if required <= 512 {
        Some(6)
    } else if required <= 1024 {
        Some(7)
    } else if required <= 2048 {
        Some(8)
    } else {
        None
    }
}

/// Every class block size is a power of two between 8 and 2048.
pub proof fn lemma_block_size_pow2(i: int)
    ensures
        spec_is_pow2(spec_block_size(i) as int),
        8 <= spec_block_size(i) <= 2048,
{
    reveal_with_fuel(spec_is_pow2, 12);
}

/// A linear scan that stops at the first class reaching the required size
/// agrees with the class-choice function.
proof fn lemma_list_index_from_scan(size: u64, align: u64, i: int)
    requires
        0 <= i < BLOCK_CLASS_COUNT,
        spec_block_size(i) >= if size >= align {
            size
        } else {
            align
        },
        forall|k: int|
            0 <= k < i ==> spec_block_size(k) < if size >= align {
                size
            } else {
                align
            },
    ensures
        spec_list_index(size, align) == Some(i),
{
    let required = if size >= align {
        size
    } else {
        align
    };
    if i > 0 {
        assert(spec_block_size(0) < required);
    }
    if i > 1 {
        assert(spec_block_size(1) < required);
    }
    if i > 2 {
        assert(spec_block_size(2) < required);
    }
    if i > 3 {
        assert(spec_block_size(3) < required);
    }
    if i > 4 {
        assert(spec_block_size(4) < required);
    }
    if i > 5 {
        assert(spec_block_size(5) < required);
    }
    if i > 6 {
        assert(spec_block_size(6) < required);
    }
    if i > 7 {
        assert(spec_block_size(7) < required);
    }
}

/// A scan that finds no class at all means the request exceeds the largest
/// class.
proof fn lemma_list_index_none(size: u64, align: u64)
    requires
        forall|k: int|
            0 <= k < BLOCK_CLASS_COUNT ==> spec_block_size(k) < if size >= align {
                size
            } else {
                align
            },
    ensures
        spec_list_index(size, align) is None,
{
    assert(spec_block_size(8) == 2048);
}

/// A request for exactly one class's block size, at no stricter an
/// alignment, is assigned exactly that class — never a smaller one — and a
/// request one byte beyond the largest class is assigned none and so goes
/// to the fallback allocator.
pub proof fn lemma_size_class_boundary(i: int, align: u64)
    requires
        0 <= i < BLOCK_CLASS_COUNT,
        1 <= align <= spec_block_size(i),
    ensures
        spec_list_index(spec_block_size(i), align) == Some(i),
        spec_list_index(2049, 1) is None,
{
}

/// One freed block of a size class: its address and the link to the next
/// freed block of the same class.
pub struct ListNode {
    pub addr: u64,
    pub next: Option<Box<ListNode>>,
}

/// The block addresses held by a class list, in list order.
pub open spec fn spec_blocks(n: Option<Box<ListNode>>) -> Seq<u64>
    decreases n,
{
    match n {
        None => Seq::empty(),
        Some(b) => seq![b.addr] + spec_blocks(b.next),
    }
}

/// Every block in a class list is aligned to the class block size.
pub open spec fn wf_blocks(n: Option<Box<ListNode>>, block_size: u64) -> bool
    decreases n,
{
    match n {
        None => true,
        Some(b) => b.addr % block_size == 0 && wf_blocks(b.next, block_size),
    }
}

/// Segregated-storage allocator state: one list head per size class and the
/// embedded free-list allocator serving as fallback.
pub struct FixedSizeBlockAllocator {
    list_heads: Vec<Option<Box<ListNode>>>,
    fallback_allocator: LinkedListAllocator,
}

/// Returns the block size of class `index`.
pub fn block_size(index: usize) -> (r: u64)
    requires
        index < BLOCK_CLASS_COUNT,
    ensures
        r == spec_block_size(index as int),
{
    if index == 0 {
        8
    } else if index == 1 {
        16
    } else if index == 2 {
        32
    } else if index == 3 {
        64
    } else if index == 4 {
        128
    } else if index == 5 {
        256
    } else if index == 6 {
        512
    } else if index == 7 {
        1024
    } else {
        2048
    }
}

/// Chooses the size class for a request, returning an index into the class
/// table, or `None` when the request exceeds the largest class and must go
/// to the fallback allocator.
pub fn list_index(size: u64, align: u64) -> (r: Option<usize>)
    ensures
        match spec_list_index(size, align) {
            None => r is None,
            Some(i) => r == Some(i as usize),
        },
{
    let required_block_size = if size >= align {
        size
    } else {
        align
    };
    let mut index: usize = 0;
    while index < BLOCK_CLASS_COUNT
        invariant
            index <= BLOCK_CLASS_COUNT,
            required_block_size == if size >= align {
                size
            } else {
                align
            },
            forall|k: int| 0 <= k < index ==> spec_block_size(k) < required_block_size,
        decreases BLOCK_CLASS_COUNT - index,
    {
        if block_size(index) >= required_block_size {
            proof {
                lemma_list_index_from_scan(size, align, index as int);
            }
            return Some(index);
        }
        index = index + 1;
    }
    proof {
        lemma_list_index_none(size, align);
    }
    None
}

impl FixedSizeBlockAllocator {
    /// The freed blocks of class `i`, in list order.
    pub closed spec fn class_blocks(self, i: int) -> Seq<u64> {
        spec_blocks(self.list_heads@[i])
    }

    /// The free regions of the fallback allocator, in list order.
    pub closed spec fn fallback_regions(self) -> Seq<(u64, u64)> {
        self.fallback_allocator.regions()
    }

    /// Internal invariant: one list per class, every listed block aligned to
    /// its class size, and a well-formed fallback.
    pub closed spec fn wf(self) -> bool {
        &&& self.list_heads@.len() == BLOCK_CLASS_COUNT
        &&& forall|i: int|
            0 <= i < BLOCK_CLASS_COUNT ==> wf_blocks(#[trigger] self.list_heads@[i], spec_block_size(i))
        &&& self.fallback_allocator.wf()
    }

    /// Creates an empty allocator: all class lists empty and an empty
    /// fallback; it owns no memory until `init`.
    pub fn new() -> (r: Self)
        ensures
            r.wf(),
            forall|i: int| 0 <= i < BLOCK_CLASS_COUNT ==> r.class_blocks(i) == Seq::<u64>::empty(),
            r.fallback_regions() == Seq::<(u64, u64)>::empty(),
    {
        let mut list_heads: Vec<Option<Box<ListNode>>> = Vec::new();
        while list_heads.len() < BLOCK_CLASS_COUNT
            invariant
                list_heads@.len() <= BLOCK_CLASS_COUNT,
                forall|i: int| 0 <= i < list_heads@.len() ==> list_heads@[i] is None,
        decreases BLOCK_CLASS_COUNT - list_heads.len(),
        {
            list_heads.push(None);
        }
        FixedSizeBlockAllocator { list_heads, fallback_allocator: LinkedListAllocator::new() }
    }

    /// Initializes the allocator with the given heap bounds; the whole heap
    /// is seeded into the fallback allocator, from which classes draw their
    /// blocks on demand.
    ///
    /// The caller must call this exactly once, on a freshly created
    /// allocator, with a range that is mapped and otherwise unused.
    pub fn init(&mut self, heap_start: u64, heap_size: u64)
        requires
            old(self).wf(),
            old(self).fallback_regions() == Seq::<(u64, u64)>::empty(),
            heap_start % 8 == 0,
            heap_size >= 16,
            heap_start + heap_size <= u64::MAX,
        ensures
            final(self).wf(),
            final(self).fallback_regions() == seq![(heap_start, heap_size)],
            forall|i: int|
                0 <= i < BLOCK_CLASS_COUNT ==> final(self).class_blocks(i) == old(self).class_blocks(i),
    {
        self.fallback_allocator.init(heap_start, heap_size);
    }

    /// Allocates using the fallback allocator.
    pub fn fallback_alloc(&mut self, size: u64, align: u64) -> (r: Option<u64>)
        requires
            old(self).wf(),
            spec_is_pow2(align as int),
            spec_adjusted_size(size, align) <= u64::MAX,
        ensures
            final(self).wf(),
            match ll_alloc_spec(old(self).fallback_regions(), size, align) {
                None => r is None && final(self).fallback_regions() == old(self).fallback_regions(),
                Some((addr, regions)) => r == Some(addr) && final(self).fallback_regions()
                    == regions,
            },
            r matches Some(a) ==> a % align == 0,
            forall|i: int|
                0 <= i < BLOCK_CLASS_COUNT ==> final(self).class_blocks(i) == old(self).class_blocks(i),
    {
        self.fallback_allocator.allocate(size, align)
    }

    /// Serves one allocation request of `size` bytes aligned to `align`.
    ///
    /// A request with a size class is served from that class's list when the
    /// list is non-empty — never from a smaller class — and otherwise by
    /// drawing one fresh block of exactly the class size (and class
    /// alignment) from the fallback; a request without a class goes to the
    /// fallback with its own layout. Exhaustion is a normal outcome reported
    /// as `None`.
    pub fn allocate(&mut self, size: u64, align: u64) -> (r: Option<u64>)
        requires
            old(self).wf(),
            spec_is_pow2(align as int),
            spec_adjusted_size(size, align) <= u64::MAX,
        ensures
            final(self).wf(),
            match spec_list_index(size, align) {
                Some(i) => if old(self).class_blocks(i).len() > 0 {
                    &&& r == Some(old(self).class_blocks(i)[0])
                    &&& final(self).class_blocks(i) == old(self).class_blocks(i).subrange(
                        1,
                        old(self).class_blocks(i).len() as int,
                    )
                    &&& final(self).fallback_regions() == old(self).fallback_regions()
                    &&& forall|j: int|
                        0 <= j < BLOCK_CLASS_COUNT && j != i ==> final(self).class_blocks(j)
                            == old(self).class_blocks(j)
                } else {
                    &&& match ll_alloc_spec(
                        old(self).fallback_regions(),
                        spec_block_size(i),
                        spec_block_size(i),
                    ) {
                        None => r is None && final(self).fallback_regions() == old(self).fallback_regions(),
                        Some((addr, regions)) => r == Some(addr) && final(self).fallback_regions() == regions,
                    }
                    &&& forall|j: int|
                        0 <= j < BLOCK_CLASS_COUNT ==> final(self).class_blocks(j) == old(self).class_blocks(j)
                },
                None => {
                    &&& match ll_alloc_spec(old(self).fallback_regions(), size, align) {
                        None => r is None && final(self).fallback_regions() == old(self).fallback_regions(),
                        Some((addr, regions)) => r == Some(addr) && final(self).fallback_regions() == regions,
                    }
                    &&& forall|j: int|
                        0 <= j < BLOCK_CLASS_COUNT ==> final(self).class_blocks(j) == old(self).class_blocks(j)
                },
            },
            r matches Some(a) ==> a % align == 0,
    {
        match list_index(size, align) {
            Some(index) => {
                let ghost i = index as int;
                let mut head = self.list_heads.remove(index);
                match head.take() {
                    Some(node) => {
                        self.list_heads.insert(index, node.next);
                        proof {
                            assert(self.list_heads@ =~= old(self).list_heads@.update(
                                i,
                                node.next,
                            ));
                            assert(old(self).class_blocks(i).subrange(
                                1,
                                old(self).class_blocks(i).len() as int,
                            ) =~= spec_blocks(node.next));
                            lemma_block_size_pow2(i);
                            lemma_pow2_divides(align as int, spec_block_size(i) as int);
                            lemma_aligned_to_divisor(
                                node.addr as int,
                                align as int,
                                spec_block_size(i) as int,
                            );
                        }
                        Some(node.addr)
                    },
                    None => {
                        self.list_heads.insert(index, None);
                        proof {
                            assert(self.list_heads@ =~= old(self).list_heads@);
                        }
                        let bs = block_size(index);
                        proof {
                            lemma_block_size_pow2(i);
                        }
                        let r = self.fallback_alloc(bs, bs);
                        proof {
                            match r {
                                Some(a) => {
                                    lemma_pow2_divides(align as int, spec_block_size(i) as int);
                                    lemma_aligned_to_divisor(
                                        a as int,
                                        align as int,
                                        spec_block_size(i) as int,
                                    );
                                },
                                None => {},
                            }
                        }
                        r
                    },
                }
            },
            None => self.fallback_alloc(size, align),
        }
    }

    /// Returns one allocation to the allocator.
    ///
    /// The layout must be the one the matching `allocate` was called with;
    /// freeing memory not obtained from this allocator is a caller-contract
    /// violation, excluded here rather than checked at run time. A block
    /// with a size class is pushed onto that class's list and retained for
    /// the class forever; anything else goes back to the fallback.
    pub fn deallocate(&mut self, addr: u64, size: u64, align: u64)
        requires
            old(self).wf(),
            spec_is_pow2(align as int),
            spec_adjusted_size(size, align) <= u64::MAX,
            spec_list_index(size, align) matches Some(i) ==> addr % spec_block_size(i) == 0,
            spec_list_index(size, align) is None ==> addr % 8 == 0 && addr + spec_adjusted_size(
                size,
                align,
            ) <= u64::MAX && region_free_of(
                old(self).fallback_regions(),
                addr,
                spec_adjusted_size(size, align) as u64,
            ),
        ensures
            final(self).wf(),
            match spec_list_index(size, align) {
                Some(i) => {
                    &&& final(self).class_blocks(i) == seq![addr] + old(self).class_blocks(i)
                    &&& final(self).fallback_regions() == old(self).fallback_regions()
                    &&& forall|j: int|
                        0 <= j < BLOCK_CLASS_COUNT && j != i ==> final(self).class_blocks(j)
                            == old(self).class_blocks(j)
                },
                None => {
                    &&& final(self).fallback_regions() == ll_dealloc_spec(
                        old(self).fallback_regions(),
                        addr,
                        size,
                        align,
                    )
                    &&& forall|j: int|
                        0 <= j < BLOCK_CLASS_COUNT ==> final(self).class_blocks(j) == old(self).class_blocks(j)
                },
            },
    {
        match list_index(size, align) {
            Some(index) => {
                let ghost i = index as int;
                // The in-place header of a freed block always fits: every
                // class is at least as large and as aligned as one machine
                // word.
                proof {
                    lemma_block_size_pow2(i);
                    assert(8 <= spec_block_size(i));
                }
                let mut head = self.list_heads.remove(index);
                let new_node = ListNode { addr, next: head.take() };
                self.list_heads.insert(index, Some(Box::new(new_node)));
                proof {
                    assert(self.list_heads@ =~= old(self).list_heads@.update(
                        i,
                        self.list_heads@[i],
                    ));
                }
            },
            None => {
                self.fallback_allocator.deallocate(addr, size, align);
            },
        }
    }
}

/// One allocate of a single machine word immediately followed by freeing
/// it, at the level of the smallest class's block list and the fallback's
/// free regions: a listed block is popped and pushed back; an empty list
/// draws one block of the class size from the fallback and keeps it.
pub open spec fn fsb_churn_step(class0: Seq<u64>, fallback: Seq<(u64, u64)>) -> Option<
    (Seq<u64>, Seq<(u64, u64)>),
> {
    if class0.len() > 0 {
        Some((seq![class0[0]] + class0.subrange(1, class0.len() as int), fallback))
    } else {
        match ll_alloc_spec(fallback, spec_block_size(0), spec_block_size(0)) {
            None => None,
            Some((addr, rest)) => Some((seq![addr], rest)),
        }
    }
}

/// `n` rounds of allocate-then-free of a single word; `None` as soon as
/// one allocation fails.
pub open spec fn fsb_churn_iter(class0: Seq<u64>, fallback: Seq<(u64, u64)>, n: nat) -> Option<
    (Seq<u64>, Seq<(u64, u64)>),
>
    decreases n,
{
    if n == 0 {
        Some((class0, fallback))
    } else {
        match fsb_churn_iter(class0, fallback, (n - 1) as nat) {
            None => None,
            Some((c, f)) => fsb_churn_step(c, f),
        }
    }
}

/// Exhaustion and reuse: from a freshly seeded heap, allocating and
/// immediately freeing a single-word object succeeds for every round, no
/// matter how many rounds are made. After the first round the freed block
/// sits in the smallest class's list and every later round reuses it.
pub proof fn lemma_exhaustion_reuse_fixed_size(heap_start: u64, heap_size: u64, n: nat)
    requires
        heap_start % NODE_ALIGN == 0,
        heap_size == NODE_SIZE || heap_size >= 2 * NODE_SIZE,
        heap_start + heap_size <= u64::MAX,
    ensures
        fsb_churn_iter(Seq::<u64>::empty(), seq![(heap_start, heap_size)], n) is Some,
    decreases n,
{
    let f0 = seq![(heap_start, heap_size)];
    let tail = if heap_size > NODE_SIZE {
        seq![(((heap_start + NODE_SIZE) as u64), ((heap_size - NODE_SIZE) as u64))]
    } else {
        Seq::<(u64, u64)>::empty()
    };
    lemma_single_word_first_alloc(heap_start, heap_size);
    assert(fsb_churn_step(Seq::<u64>::empty(), f0) == Some((seq![heap_start], tail)));
    assert(fsb_churn_step(seq![heap_start], tail) == Some((seq![heap_start], tail))) by {
        assert(seq![heap_start].subrange(1, 1) =~= Seq::<u64>::empty());
        assert(seq![seq![heap_start][0]] + seq![heap_start].subrange(1, 1) =~= seq![heap_start]);
    }
    if n > 0 {
        lemma_exhaustion_reuse_fixed_size(heap_start, heap_size, (n - 1) as nat);
        lemma_fsb_churn_stable(f0, seq![heap_start], tail, (n - 1) as nat);
    }
}

/// Once the churn has reached its steady state, it stays there.
proof fn lemma_fsb_churn_stable(f0: Seq<(u64, u64)>, c1: Seq<u64>, f1: Seq<(u64, u64)>, n: nat)
    requires
        fsb_churn_step(Seq::<u64>::empty(), f0) == Some((c1, f1)),
        fsb_churn_step(c1, f1) == Some((c1, f1)),
    ensures
        fsb_churn_iter(Seq::<u64>::empty(), f0, n) == Some(
            if n == 0 {
                (Seq::<u64>::empty(), f0)
            } else {
                (c1, f1)
            },
        ),
    decreases n,
{
    if n > 0 {
        lemma_fsb_churn_stable(f0, c1, f1, (n - 1) as nat);
    }
}

} // verus!
