//! Free-list allocation: a singly linked list of free regions.
//!
//! Every free region is described by a node holding its start address and
//! size; the allocator keeps the nodes in one list, seeded at `init` with
//! the whole heap as a single region. Allocation is a linear first-fit scan;
//! the chosen region is unlinked and any tail excess is put back at the head
//! of the list. Freed regions are pushed at the head as they come: adjacent
//! free regions are never merged, a deliberate, documented fragmentation
//! trade-off of this strategy.

use crate::allocator::{align_up, lemma_align_up, lemma_mod_le, spec_align_up};
use vstd::arithmetic::div_mod::{
    lemma_add_mod_noop, lemma_fundamental_div_mod, lemma_mod_multiples_basic, lemma_mod_self_0,
};
use vstd::prelude::*;

verus! {

/// Size in bytes of the in-place header a free region must be able to hold:
/// one machine word for the region size and one for the link to the next
/// node.
pub const NODE_SIZE: u64 = 16;

/// Alignment in bytes that an in-place header requires of its region.
pub const NODE_ALIGN: u64 = 8;

/// One free region: its start address, its size in bytes, and the link to
/// the next free region.
pub struct ListNode {
    pub addr: u64,
    pub size: u64,
    pub next: Option<Box<ListNode>>,
}

impl ListNode {
    /// Creates a detached node describing the region `[addr, addr + size)`.
    pub fn new(addr: u64, size: u64) -> (r: ListNode)
        ensures
            r.addr == addr,
            r.size == size,
            r.next is None,
    {
        ListNode { addr, size, next: None }
    }

    /// First address of the region.
    pub fn start_addr(&self) -> (r: u64)
        ensures
            r == self.addr,
    {
        self.addr
    }

    /// One past the last address of the region.
    pub fn end_addr(&self) -> (r: u64)
        requires
            self.addr + self.size <= u64::MAX,
        ensures
            r == self.addr + self.size,
    {
        self.addr + self.size
    }
}

/// The free regions held by a list, in list order, each as
/// `(start address, size)`.
pub open spec fn spec_regions(n: Option<Box<ListNode>>) -> Seq<(u64, u64)>
    decreases n,
{
    match n {
        None => Seq::empty(),
        Some(b) => seq![(b.addr, b.size)] + spec_regions(b.next),
    }
}

/// Every region in the list can hold its own in-place header: it is aligned
/// for the header, at least as large as the header, and does not wrap around
/// the address space.
pub open spec fn wf_list(n: Option<Box<ListNode>>) -> bool
    decreases n,
{
    match n {
        None => true,
        Some(b) => {
            &&& b.addr % NODE_ALIGN == 0
            &&& b.size >= NODE_SIZE
            &&& b.addr + b.size <= u64::MAX
            &&& wf_list(b.next)
        },
    }
}

/// Whether an allocation of `size` bytes aligned to `align` fits into the
/// free region `[addr, addr + rsize)`: after aligning the start up, the
/// allocation must end within the region, and any leftover tail must be
/// either empty or large enough to host a new header.
pub open spec fn region_fits(addr: u64, rsize: u64, size: u64, align: u64) -> bool {
    let start = spec_align_up(addr as int, align as int);
    let end = addr + rsize;
    &&& start + size <= end
    &&& (end - (start + size) == 0 || end - (start + size) >= NODE_SIZE)
}

/// Index of the first region in `regions` that fits an allocation of
/// `size` bytes aligned to `align`, if any: the first-fit policy.
pub open spec fn find_fit_index(regions: Seq<(u64, u64)>, size: u64, align: u64) -> Option<int>
    decreases regions.len(),
{
    if regions.len() == 0 {
        None
    } else if region_fits(regions[0].0, regions[0].1, size, align) {
        Some(0)
    } else {
        match find_fit_index(regions.subrange(1, regions.len() as int), size, align) {
            None => None,
            Some(i) => Some(i + 1),
        }
    }
}

/// A successful first-fit scan yields an index within bounds, at a region
/// that fits the request while no earlier region does.
pub proof fn lemma_find_fit_index_props(regions: Seq<(u64, u64)>, size: u64, align: u64)
    ensures
        match find_fit_index(regions, size, align) {
            None => forall|j: int|
                0 <= j < regions.len() ==> !region_fits(regions[j].0, regions[j].1, size, align),
            Some(i) => {
                &&& 0 <= i < regions.len()
                &&& region_fits(regions[i].0, regions[i].1, size, align)
                &&& forall|j: int|
                    0 <= j < i ==> !region_fits(regions[j].0, regions[j].1, size, align)
            },
        },
    decreases regions.len(),
{
    if regions.len() > 0 && !region_fits(regions[0].0, regions[0].1, size, align) {
        let tail = regions.subrange(1, regions.len() as int);
        lemma_find_fit_index_props(tail, size, align);
        match find_fit_index(regions, size, align) {
            None => {
                assert forall|j: int| 0 <= j < regions.len() implies !region_fits(
                    regions[j].0,
                    regions[j].1,
                    size,
                    align,
                ) by {
                    if j > 0 {
                        assert(regions[j] == tail[j - 1]);
                    }
                }
            },
            Some(i) => {
                assert forall|j: int| 0 <= j < i implies !region_fits(
                    regions[j].0,
                    regions[j].1,
                    size,
                    align,
                ) by {
                    if j > 0 {
                        assert(regions[j] == tail[j - 1]);
                    }
                }
            },
        }
    }
}

/// `regions` without its `i`-th element.
pub open spec fn remove_region(regions: Seq<(u64, u64)>, i: int) -> Seq<(u64, u64)> {
    regions.subrange(0, i) + regions.subrange(i + 1, regions.len() as int)
}

/// The byte ranges `[addr1, addr1 + size1)` and `[addr2, addr2 + size2)`
/// share no byte.
pub open spec fn regions_disjoint(addr1: u64, size1: u64, addr2: u64, size2: u64) -> bool {
    addr1 + size1 <= addr2 || addr2 + size2 <= addr1
}

/// No two regions of the list overlap: freeing the same memory twice, or
/// memory still inside another free region, never yields such a list.
pub open spec fn regions_pairwise_disjoint(regions: Seq<(u64, u64)>) -> bool {
    forall|i: int, j: int|
        0 <= i < j < regions.len() ==> regions_disjoint(
            (#[trigger] regions[i]).0,
            regions[i].1,
            (#[trigger] regions[j]).0,
            regions[j].1,
        )
}

/// The byte range `[addr, addr + size)` lies outside every region of the
/// list.
pub open spec fn region_free_of(regions: Seq<(u64, u64)>, addr: u64, size: u64) -> bool {
    forall|i: int|
        0 <= i < regions.len() ==> regions_disjoint(
            addr,
            size,
            (#[trigger] regions[i]).0,
            regions[i].1,
        )
}

/// Removing a region keeps the rest pairwise disjoint, and each survivor
/// stays disjoint from the removed region.
pub proof fn lemma_remove_region_disjoint(regions: Seq<(u64, u64)>, i: int)
    requires
        regions_pairwise_disjoint(regions),
        0 <= i < regions.len(),
    ensures
        regions_pairwise_disjoint(remove_region(regions, i)),
        forall|k: int|
            0 <= k < remove_region(regions, i).len() ==> regions_disjoint(
                regions[i].0,
                regions[i].1,
                (#[trigger] remove_region(regions, i)[k]).0,
                remove_region(regions, i)[k].1,
            ),
{
    let rest = remove_region(regions, i);
    assert forall|k: int| 0 <= k < rest.len() implies rest[k] == (if k < i {
        regions[k]
    } else {
        regions[k + 1]
    }) by {}
    assert forall|k: int| 0 <= k < rest.len() implies regions_disjoint(
        regions[i].0,
        regions[i].1,
        (#[trigger] rest[k]).0,
        rest[k].1,
    ) by {
        if k < i {
            assert(regions_disjoint(regions[k].0, regions[k].1, regions[i].0, regions[i].1));
        } else {
            assert(regions_disjoint(regions[i].0, regions[i].1, regions[k + 1].0, regions[k + 1].1));
        }
    }
    assert forall|a: int, b: int| 0 <= a < b < rest.len() implies regions_disjoint(
        (#[trigger] rest[a]).0,
        rest[a].1,
        (#[trigger] rest[b]).0,
        rest[b].1,
    ) by {
        let a2 = if a < i { a } else { a + 1 };
        let b2 = if b < i { b } else { b + 1 };
        assert(regions_disjoint(regions[a2].0, regions[a2].1, regions[b2].0, regions[b2].1));
    }
}

/// A power of two: one, or twice a smaller power of two.
pub open spec fn spec_is_pow2(a: int) -> bool
    decreases a,
{
    if a <= 0 {
        false
    } else if a == 1 {
        true
    } else {
        a % 2 == 0 && spec_is_pow2(a / 2)
    }
}

/// The small powers of two up to the header alignment.
proof fn lemma_pow2_small()
    ensures
        spec_is_pow2(1),
        spec_is_pow2(2),
        spec_is_pow2(4),
        spec_is_pow2(8),
{
    reveal_with_fuel(spec_is_pow2, 5);
}

/// Distinct powers of two are at least a factor of two apart.
pub proof fn lemma_pow2_double(a: int, b: int)
    requires
        spec_is_pow2(a),
        spec_is_pow2(b),
        a < b,
    ensures
        2 * a <= b,
    decreases b,
{
    if a > 1 {
        lemma_pow2_double(a / 2, b / 2);
    }
}

/// A smaller power of two divides a larger one.
pub proof fn lemma_pow2_divides(a: int, b: int)
    requires
        spec_is_pow2(a),
        spec_is_pow2(b),
        a <= b,
    ensures
        b % a == 0,
    decreases b,
{
    if a == b {
        lemma_mod_self_0(a);
    } else {
        lemma_pow2_double(a, b);
        assert(b > 1);
        lemma_fundamental_div_mod(b, 2);
        lemma_pow2_divides(a, b / 2);
        let q = (b / 2) / a;
        lemma_fundamental_div_mod(b / 2, a);
        assert(b == (2 * q) * a) by (nonlinear_arith)
            requires
                b == 2 * (b / 2),
                b / 2 == a * q,
        ;
        lemma_mod_multiples_basic(2 * q, a);
    }
}

/// If `align2` is a multiple of `align1` then anything aligned to `align2`
/// is also aligned to `align1`.
pub proof fn lemma_aligned_to_divisor(x: int, align1: int, align2: int)
    requires
        1 <= align1,
        1 <= align2,
        x % align2 == 0,
        align2 % align1 == 0,
        0 <= x,
    ensures
        x % align1 == 0,
{
    lemma_fundamental_div_mod(x, align2);
    lemma_fundamental_div_mod(align2, align1);
    let q = x / align2;
    let p = align2 / align1;
    assert(x == (q * p) * align1) by (nonlinear_arith)
        requires
            x == align2 * q,
            align2 == align1 * p,
    ;
    lemma_mod_multiples_basic(q * p, align1);
}

/// The alignment an allocation request is widened to, so that the region
/// can later hold a header: at least the header's own alignment.
pub open spec fn spec_adjusted_align(align: u64) -> u64 {
    if align >= NODE_ALIGN {
        align
    } else {
        NODE_ALIGN
    }
}

/// The size an allocation request is widened to: padded to the adjusted
/// alignment and at least as large as a header.
pub open spec fn spec_adjusted_size(size: u64, align: u64) -> int {
    let padded = spec_align_up(size as int, spec_adjusted_align(align) as int);
    if padded >= NODE_SIZE {
        padded
    } else {
        NODE_SIZE as int
    }
}

/// Outcome of an `allocate(size, align)` request against a list holding
/// `regions`: `None` when no region fits the adjusted request, otherwise the
/// returned address and the regions left afterwards — the chosen region is
/// removed and its tail excess, if any, is pushed at the head.
pub open spec fn ll_alloc_spec(regions: Seq<(u64, u64)>, size: u64, align: u64) -> Option<
    (u64, Seq<(u64, u64)>),
> {
    let asize = spec_adjusted_size(size, align);
    let aalign = spec_adjusted_align(align);
    match find_fit_index(regions, asize as u64, aalign) {
        None => None,
        Some(i) => {
            let (raddr, rsize) = regions[i];
            let start = spec_align_up(raddr as int, aalign as int);
            let end = raddr + rsize;
            let excess = end - (start + asize);
            let removed = remove_region(regions, i);
            let after = if excess > 0 {
                seq![(((start + asize) as u64), excess as u64)] + removed
            } else {
                removed
            };
            Some((start as u64, after))
        },
    }
}

/// The regions after a `deallocate(addr, size, align)`: the freed region,
/// widened the same way as at allocation, pushed at the head of the list.
pub open spec fn ll_dealloc_spec(regions: Seq<(u64, u64)>, addr: u64, size: u64, align: u64) -> Seq<
    (u64, u64),
> {
    seq![(addr, spec_adjusted_size(size, align) as u64)] + regions
}

/// Free-list allocator state: a dummy head node whose tail is the list of
/// free regions.
pub struct LinkedListAllocator {
    head: ListNode,
}

impl LinkedListAllocator {
    /// The free regions, in list order.
    pub closed spec fn regions(self) -> Seq<(u64, u64)> {
        spec_regions(self.head.next)
    }

    /// Internal invariant: every free region can hold its own header, and
    /// no two free regions overlap.
    pub closed spec fn wf(self) -> bool {
        &&& wf_list(self.head.next)
        &&& regions_pairwise_disjoint(self.regions())
    }

    /// Creates an empty allocator; it owns no memory until `init`.
    pub fn new() -> (r: Self)
        ensures
            r.wf(),
            r.regions() == Seq::<(u64, u64)>::empty(),
    {
        let r = LinkedListAllocator { head: ListNode::new(0, 0) };
        proof {
            assert(r.regions() =~= Seq::<(u64, u64)>::empty());
        }
        r
    }

    /// Initializes the allocator with the given heap bounds, seeding the
    /// list with the whole heap as one free region.
    ///
    /// The caller must call this exactly once, on a freshly created
    /// allocator, with a range that is mapped and otherwise unused.
    pub fn init(&mut self, heap_start: u64, heap_size: u64)
        requires
            old(self).wf(),
            old(self).regions() == Seq::<(u64, u64)>::empty(),
            heap_start % NODE_ALIGN == 0,
            heap_size >= NODE_SIZE,
            heap_start + heap_size <= u64::MAX,
        ensures
            final(self).wf(),
            final(self).regions() == seq![(heap_start, heap_size)],
    {
        self.add_free_region(heap_start, heap_size);
        proof {
            assert(final(self).regions() =~= seq![(heap_start, heap_size)]);
        }
    }

    /// Adds the region `[addr, addr + size)` to the front of the list.
    fn add_free_region(&mut self, addr: u64, size: u64)
        requires
            old(self).wf(),
            addr % NODE_ALIGN == 0,
            size >= NODE_SIZE,
            addr + size <= u64::MAX,
            region_free_of(old(self).regions(), addr, size),
        ensures
            final(self).wf(),
            final(self).regions() == seq![(addr, size)] + old(self).regions(),
    {
        let mut node = ListNode::new(addr, size);
        node.next = self.head.next.take();
        self.head.next = Some(Box::new(node));
        proof {
            let rs = self.regions();
            let old_rs = old(self).regions();
            assert(rs =~= seq![(addr, size)] + old_rs);
            assert forall|i: int, j: int| 0 <= i < j < rs.len() implies regions_disjoint(
                (#[trigger] rs[i]).0,
                rs[i].1,
                (#[trigger] rs[j]).0,
                rs[j].1,
            ) by {
                if i == 0 {
                    assert(rs[j] == old_rs[j - 1]);
                    assert(regions_disjoint(addr, size, old_rs[j - 1].0, old_rs[j - 1].1));
                } else {
                    assert(rs[i] == old_rs[i - 1]);
                    assert(rs[j] == old_rs[j - 1]);
                    assert(regions_disjoint(
                        old_rs[i - 1].0,
                        old_rs[i - 1].1,
                        old_rs[j - 1].0,
                        old_rs[j - 1].1,
                    ));
                }
            }
        }
    }

    /// Tries to use the region described by `region` for an allocation of
    /// `size` bytes aligned to `align`; on success returns the allocation
    /// start address.
    pub fn alloc_from_region(region: &ListNode, size: u64, align: u64) -> (r: Result<u64, ()>)
        requires
            region.addr + region.size <= u64::MAX,
            1 <= align,
        ensures
            r is Ok <==> region_fits(region.addr, region.size, size, align),
            r matches Ok(start) ==> start == spec_align_up(region.addr as int, align as int),
    {
        proof {
            lemma_align_up(region.addr as int, align as int);
            lemma_mod_le(region.addr as int, align as int);
        }
        let rem = region.addr % align;
        let pad = if rem == 0 {
            0
        } else {
            align - rem
        };
        let alloc_start = match region.addr.checked_add(pad) {
            Some(s) => s,
            None => {
                return Err(());
            },
        };
        let alloc_end = match alloc_start.checked_add(size) {
            Some(e) => e,
            None => {
                return Err(());
            },
        };
        let region_end = region.addr + region.size;
        if alloc_end > region_end {
            return Err(());
        }
        let excess_size = region_end - alloc_end;
        if excess_size > 0 && excess_size < NODE_SIZE {
            return Err(());
        }
        Ok(alloc_start)
    }

    /// First-fit scan of the tail of `node`: removes and returns the first
    /// region that fits, together with the allocation start address inside
    /// it.
    fn find_in_list(node: &mut Option<Box<ListNode>>, size: u64, align: u64) -> (r: Option<
        (ListNode, u64),
    >)
        requires
            wf_list(*old(node)),
            1 <= align,
        ensures
            wf_list(*final(node)),
            match find_fit_index(spec_regions(*old(node)), size, align) {
                None => r is None && *final(node) == *old(node),
                Some(i) => {
                    &&& r matches Some((region, start))
                    &&& region.addr == spec_regions(*old(node))[i].0
                    &&& region.size == spec_regions(*old(node))[i].1
                    &&& region.next is None
                    &&& start == spec_align_up(region.addr as int, align as int)
                    &&& spec_regions(*final(node)) == remove_region(
                        spec_regions(*old(node)),
                        i,
                    )
                },
            },
        decreases *old(node),
    {
        let ghost old_regions = spec_regions(*node);
        proof {
            lemma_find_fit_index_props(old_regions, size, align);
        }
        match node.take() {
            None => None,
            Some(mut boxed) => {
                proof {
                    assert(old_regions.subrange(1, old_regions.len() as int) =~= spec_regions(
                        boxed.next,
                    ));
                    lemma_find_fit_index_props(spec_regions(boxed.next), size, align);
                }
                match Self::alloc_from_region(&boxed, size, align) {
                    Ok(alloc_start) => {
                        let next = boxed.next.take();
                        *node = next;
                        proof {
                            assert(spec_regions(*node) =~= remove_region(old_regions, 0));
                        }
                        Some((*boxed, alloc_start))
                    },
                    Err(()) => {
                        let r = Self::find_in_list(&mut boxed.next, size, align);
                        let ghost tail_final = spec_regions(boxed.next);
                        *node = Some(boxed);
                        proof {
                            let tail_old = old_regions.subrange(1, old_regions.len() as int);
                            match find_fit_index(tail_old, size, align) {
                                None => {},
                                Some(i) => {
                                    assert(spec_regions(*node) =~= remove_region(
                                        old_regions,
                                        i + 1,
                                    ));
                                },
                            }
                        }
                        r
                    },
                }
            },
        }
    }

    /// Looks for a free region fitting `size` bytes aligned to `align` and
    /// removes it from the list; returns the detached region and the
    /// allocation start address inside it.
    pub fn find_region(&mut self, size: u64, align: u64) -> (r: Option<(ListNode, u64)>)
        requires
            old(self).wf(),
            1 <= align,
        ensures
            final(self).wf(),
            match find_fit_index(old(self).regions(), size, align) {
                None => r is None && final(self).regions() == old(self).regions(),
                Some(i) => {
                    &&& r matches Some((region, start))
                    &&& region.addr == old(self).regions()[i].0
                    &&& region.size == old(self).regions()[i].1
                    &&& region.next is None
                    &&& region.addr % NODE_ALIGN == 0
                    &&& region.size >= NODE_SIZE
                    &&& region.addr + region.size <= u64::MAX
                    &&& start == spec_align_up(region.addr as int, align as int)
                    &&& final(self).regions() == remove_region(old(self).regions(), i)
                },
            },
    {
        proof {
            lemma_find_fit_in_list(self.head.next, size, align);
        }
        let r = Self::find_in_list(&mut self.head.next, size, align);
        proof {
            match find_fit_index(old(self).regions(), size, align) {
                Some(i) => {
                    lemma_find_fit_index_props(old(self).regions(), size, align);
                    lemma_remove_region_disjoint(old(self).regions(), i);
                },
                None => {},
            }
        }
        r
    }

    /// Adjusts an allocation request so the resulting region can later hold
    /// an in-place header: alignment at least the header's, size padded to
    /// that alignment and at least the header's size.
    pub fn size_align(size: u64, align: u64) -> (r: (u64, u64))
        requires
            1 <= align,
            spec_adjusted_size(size, align) <= u64::MAX,
        ensures
            r.0 == spec_adjusted_size(size, align),
            r.1 == spec_adjusted_align(align),
    {
        let adj_align = if align >= NODE_ALIGN {
            align
        } else {
            NODE_ALIGN
        };
        let padded = align_up(size, adj_align);
        let adj_size = if padded >= NODE_SIZE {
            padded
        } else {
            NODE_SIZE
        };
        (adj_size, adj_align)
    }

    /// Serves one allocation request of `size` bytes aligned to `align`:
    /// first-fit over the free list, with the request widened so the region
    /// stays reusable. Succeeds exactly when some free region fits the
    /// widened request; running out of usable space is a normal outcome
    /// reported as `None`.
    pub fn allocate(&mut self, size: u64, align: u64) -> (r: Option<u64>)
        requires
            old(self).wf(),
            spec_is_pow2(align as int),
            spec_adjusted_size(size, align) <= u64::MAX,
        ensures
            final(self).wf(),
            match ll_alloc_spec(old(self).regions(), size, align) {
                None => r is None && final(self).regions() == old(self).regions(),
                Some((addr, regions)) => r == Some(addr) && final(self).regions() == regions,
            },
            r matches Some(a) ==> a % align == 0,
    {
        let (asize, aalign) = Self::size_align(size, align);
        proof {
            lemma_find_fit_index_props(self.regions(), asize, aalign);
        }
        match self.find_region(asize, aalign) {
            Some((region, alloc_start)) => {
                proof {
                    lemma_align_up(region.addr as int, aalign as int);
                }
                let alloc_end = alloc_start + asize;
                let excess_size = region.addr + region.size - alloc_end;
                if excess_size > 0 {
                    proof {
                        lemma_alloc_end_header_aligned(size, align, alloc_start as int);
                        let old_rs = old(self).regions();
                        let i = find_fit_index(old_rs, asize, aalign)->Some_0;
                        lemma_remove_region_disjoint(old_rs, i);
                        assert forall|k: int| 0 <= k < self.regions().len() implies
                            regions_disjoint(
                            alloc_end,
                            excess_size,
                            (#[trigger] self.regions()[k]).0,
                            self.regions()[k].1,
                        ) by {
                            assert(self.regions()[k] == remove_region(old_rs, i)[k]);
                            assert(regions_disjoint(
                                old_rs[i].0,
                                old_rs[i].1,
                                remove_region(old_rs, i)[k].0,
                                remove_region(old_rs, i)[k].1,
                            ));
                        }
                    }
                    self.add_free_region(alloc_end, excess_size);
                }
                proof {
                    lemma_pow2_align_divides(align);
                    lemma_aligned_to_divisor(
                        alloc_start as int,
                        align as int,
                        spec_adjusted_align(align) as int,
                    );
                }
                Some(alloc_start)
            },
            None => None,
        }
    }

    /// Returns the region `[addr, addr + size)` — widened exactly as the
    /// matching `allocate` widened it — to the front of the free list.
    /// Freeing memory that was not obtained from this allocator — in
    /// particular freeing twice, or freeing into a region that is already
    /// free — is a caller-contract violation, excluded here rather than
    /// checked at run time.
    pub fn deallocate(&mut self, addr: u64, size: u64, align: u64)
        requires
            old(self).wf(),
            spec_is_pow2(align as int),
            spec_adjusted_size(size, align) <= u64::MAX,
            addr % NODE_ALIGN == 0,
            addr + spec_adjusted_size(size, align) <= u64::MAX,
            region_free_of(old(self).regions(), addr, spec_adjusted_size(size, align) as u64),
        ensures
            final(self).wf(),
            final(self).regions() == ll_dealloc_spec(old(self).regions(), addr, size, align),
    {
        let (asize, _) = Self::size_align(size, align);
        self.add_free_region(addr, asize);
    }
}

/// The end of an adjusted allocation that starts on the adjusted alignment
/// is itself aligned enough to host a header.
proof fn lemma_alloc_end_header_aligned(size: u64, align: u64, start: int)
    requires
        spec_is_pow2(align as int),
        0 <= start,
        start % spec_adjusted_align(align) as int == 0,
    ensures
        (start + spec_adjusted_size(size, align)) % NODE_ALIGN as int == 0,
{
    let aa = spec_adjusted_align(align) as int;
    lemma_pow2_small();
    lemma_pow2_divides(NODE_ALIGN as int, aa);
    lemma_aligned_to_divisor(start, NODE_ALIGN as int, aa);
    let padded = spec_align_up(size as int, aa);
    lemma_align_up(size as int, aa);
    let asize = spec_adjusted_size(size, align);
    if padded >= NODE_SIZE {
        lemma_aligned_to_divisor(padded, NODE_ALIGN as int, aa);
    }
    assert(asize % NODE_ALIGN as int == 0);
    lemma_add_mod_noop(start, asize, NODE_ALIGN as int);
}

/// The alignment adjustment keeps the requested alignment as a divisor: the
/// adjusted alignment is a multiple of the requested power-of-two alignment.
proof fn lemma_pow2_align_divides(align: u64)
    requires
        spec_is_pow2(align as int),
    ensures
        spec_adjusted_align(align) as int % align as int == 0,
        1 <= spec_adjusted_align(align),
{
    if align >= NODE_ALIGN {
        lemma_mod_self_0(align as int);
    } else {
        lemma_pow2_small();
        lemma_pow2_divides(align as int, NODE_ALIGN as int);
    }
}

/// Every region a well-formed list yields through the first-fit scan lies
/// within the address space and can hold a header.
proof fn lemma_find_fit_in_list(n: Option<Box<ListNode>>, size: u64, align: u64)
    requires
        wf_list(n),
    ensures
        match find_fit_index(spec_regions(n), size, align) {
            None => true,
            Some(i) => {
                &&& 0 <= i < spec_regions(n).len()
                &&& spec_regions(n)[i].0 % NODE_ALIGN == 0
                &&& spec_regions(n)[i].1 >= NODE_SIZE
                &&& spec_regions(n)[i].0 + spec_regions(n)[i].1 <= u64::MAX
            },
        },
    decreases n,
{
    match n {
        None => {},
        Some(b) => {
            let regions = spec_regions(n);
            assert(regions.subrange(1, regions.len() as int) =~= spec_regions(b.next));
            lemma_find_fit_in_list(b.next, size, align);
        },
    }
}

/// A freshly seeded heap region serves a single-word request from its
/// start, leaving the tail (if any) as the one free region.
pub proof fn lemma_single_word_first_alloc(heap_start: u64, heap_size: u64)
    requires
        heap_start % NODE_ALIGN == 0,
        heap_size == NODE_SIZE || heap_size >= 2 * NODE_SIZE,
        heap_start + heap_size <= u64::MAX,
    ensures
        ll_alloc_spec(seq![(heap_start, heap_size)], 8, 8) == Some(
            (
                heap_start,
                if heap_size > NODE_SIZE {
                    seq![(((heap_start + NODE_SIZE) as u64), ((heap_size - NODE_SIZE) as u64))]
                } else {
                    Seq::<(u64, u64)>::empty()
                },
            ),
        ),
{
    let regions = seq![(heap_start, heap_size)];
    assert(spec_adjusted_align(8) == 8);
    assert(spec_align_up(8, 8) == 8);
    assert(spec_adjusted_size(8, 8) == 16);
    assert(spec_align_up(heap_start as int, 8) == heap_start);
    assert(region_fits(heap_start, heap_size, 16, 8));
    assert(regions.subrange(1, 1) =~= Seq::<(u64, u64)>::empty());
    assert(find_fit_index(regions, 16, 8) == Some(0int));
    assert(remove_region(regions, 0) =~= Seq::<(u64, u64)>::empty());
    if heap_size > NODE_SIZE {
        assert(seq![(((heap_start + NODE_SIZE) as u64), ((heap_size - NODE_SIZE) as u64))]
            + Seq::<(u64, u64)>::empty() =~= seq![
            (((heap_start + NODE_SIZE) as u64), ((heap_size - NODE_SIZE) as u64)),
        ]);
    }
}

/// A free list whose head is one single-word-sized region serves a
/// single-word request from that head, removing it exactly.
pub proof fn lemma_single_word_refit(head: u64, rest: Seq<(u64, u64)>)
    requires
        head % NODE_ALIGN == 0,
        head + NODE_SIZE <= u64::MAX,
    ensures
        ll_alloc_spec(seq![(head, NODE_SIZE)] + rest, 8, 8) == Some((head, rest)),
{
    let regions = seq![(head, NODE_SIZE)] + rest;
    assert(spec_adjusted_align(8) == 8);
    assert(spec_align_up(8, 8) == 8);
    assert(spec_adjusted_size(8, 8) == 16);
    assert(regions[0] == (head, NODE_SIZE));
    assert(spec_align_up(head as int, 8) == head);
    assert(region_fits(head, NODE_SIZE, 16, 8));
    assert(find_fit_index(regions, 16, 8) == Some(0int));
    assert(remove_region(regions, 0) =~= rest);
}

/// One allocate of a single machine word immediately followed by freeing
/// it, at the level of the free-region list.
pub open spec fn churn_step(regions: Seq<(u64, u64)>) -> Option<Seq<(u64, u64)>> {
    match ll_alloc_spec(regions, 8, 8) {
        None => None,
        Some((addr, rest)) => Some(ll_dealloc_spec(rest, addr, 8, 8)),
    }
}

/// `n` rounds of allocate-then-free of a single word, oldest first; `None`
/// as soon as one allocation fails.
pub open spec fn churn_iter(regions: Seq<(u64, u64)>, n: nat) -> Option<Seq<(u64, u64)>>
    decreases n,
{
    if n == 0 {
        Some(regions)
    } else {
        match churn_iter(regions, (n - 1) as nat) {
            None => None,
            Some(rs) => churn_step(rs),
        }
    }
}

/// Exhaustion and reuse: from a freshly seeded heap, allocating and
/// immediately freeing a single-word object succeeds for every round, no
/// matter how many rounds are made — far beyond what the heap could hold
/// if freed memory were not reused.
pub proof fn lemma_exhaustion_reuse_linked_list(heap_start: u64, heap_size: u64, n: nat)
    requires
        heap_start % NODE_ALIGN == 0,
        heap_size == NODE_SIZE || heap_size >= 2 * NODE_SIZE,
        heap_start + heap_size <= u64::MAX,
    ensures
        churn_iter(seq![(heap_start, heap_size)], n) is Some,
    decreases n,
{
    let s0 = seq![(heap_start, heap_size)];
    let tail = if heap_size > NODE_SIZE {
        seq![(((heap_start + NODE_SIZE) as u64), ((heap_size - NODE_SIZE) as u64))]
    } else {
        Seq::<(u64, u64)>::empty()
    };
    let s1 = seq![(heap_start, NODE_SIZE)] + tail;
    lemma_single_word_first_alloc(heap_start, heap_size);
    assert(churn_step(s0) == Some(s1)) by {
        assert(ll_dealloc_spec(tail, heap_start, 8, 8) == s1);
    }
    lemma_single_word_refit(heap_start, tail);
    assert(churn_step(s1) == Some(s1)) by {
        assert(ll_dealloc_spec(tail, heap_start, 8, 8) == s1);
    }
    if n > 0 {
        lemma_exhaustion_reuse_linked_list(heap_start, heap_size, (n - 1) as nat);
        lemma_churn_stable(s0, s1, (n - 1) as nat);
    }
}

/// Once the churn has reached its steady state, it stays there.
proof fn lemma_churn_stable(s0: Seq<(u64, u64)>, s1: Seq<(u64, u64)>, n: nat)
    requires
        churn_step(s0) == Some(s1),
        churn_step(s1) == Some(s1),
    ensures
        churn_iter(s0, n) == Some(if n == 0 {
            s0
        } else {
            s1
        }),
    decreases n,
{
    if n > 0 {
        lemma_churn_stable(s0, s1, (n - 1) as nat);
    }
}

} // verus!
