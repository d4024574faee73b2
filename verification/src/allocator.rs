//! The heap allocator layer.
//!
//! [`init_heap`] maps a fixed virtual heap range to freshly allocated
//! physical frames and then hands the range to the active allocation
//! strategy. The three strategies live in the submodules [`bump`],
//! [`linked_list`] and [`fixed_size_block`]; each serves the standard
//! allocate / deallocate contract against the mapped range.
//!
//! The global-allocator singleton itself (a spin lock around one strategy)
//! cannot be expressed here; the strategies take `&mut self` and the lock
//! wrapper around them is ordinary unverified kernel glue.

pub mod bump;
pub mod fixed_size_block;
pub mod linked_list;

use crate::allocator::bump::BumpAllocator;
use crate::allocator::fixed_size_block::{
    spec_list_index, FixedSizeBlockAllocator, BLOCK_CLASS_COUNT,
};
use crate::allocator::linked_list::{
    find_fit_index, lemma_find_fit_index_props, ll_alloc_spec, spec_adjusted_align,
    spec_adjusted_size, spec_is_pow2, LinkedListAllocator,
};
use crate::heap_data::{lemma_store_read_round_trip, spec_read_u64, spec_write_u64, HeapData};
use crate::memory::{
    frame_from, frame_of, lemma_distinct_vpn_chain, lemma_frame_at_increasing,
    lemma_frame_from_widen, lemma_frame_in_usable_region, lemma_missing_tables_bounds,
    mapped_writable, spec_frame_at, BootInfoFrameAllocator, MapError, PageTables, PAGE_SIZE,
};
use vstd::arithmetic::div_mod::{
    lemma_fundamental_div_mod, lemma_mod_division_less_than_divisor, lemma_mod_multiples_basic,
};
use vstd::arithmetic::mul::lemma_mul_inequality;
use vstd::prelude::*;

verus! {

/// Lowest virtual address of the heap region, fixed for the process lifetime.
pub const HEAP_START: u64 = 0x4444_4444_0000;

/// Total size of the heap region in bytes, a multiple of the 4 KiB page size.
pub const HEAP_SIZE: u64 = 100 * 1024;

/// The smallest multiple of `align` that is at least `addr`.
pub open spec fn spec_align_up(addr: int, align: int) -> int
    recommends
        0 <= addr,
        1 <= align,
{
    if addr % align == 0 {
        addr
    } else {
        addr + align - addr % align
    }
}

/// Aligning up stays within one `align` of `addr` and lands on a multiple of
/// `align`.
pub proof fn lemma_align_up(addr: int, align: int)
    requires
        0 <= addr,
        1 <= align,
    ensures
        addr <= spec_align_up(addr, align) < addr + align,
        spec_align_up(addr, align) % align == 0,
{
    lemma_mod_division_less_than_divisor(addr, align);
    lemma_fundamental_div_mod(addr, align);
    if addr % align != 0 {
        let q = addr / align;
        assert(addr == align * q + addr % align);
        assert(addr + align - addr % align == (q + 1) * align) by (nonlinear_arith)
            requires
                addr == align * q + addr % align,
        ;
        lemma_mod_multiples_basic(q + 1, align);
    }
}

/// The remainder of a nonnegative number never exceeds the number itself.
pub proof fn lemma_mod_le(addr: int, align: int)
    requires
        0 <= addr,
        1 <= align,
    ensures
        addr % align <= addr,
{
    lemma_mod_division_less_than_divisor(addr, align);
    lemma_fundamental_div_mod(addr, align);
    let q = addr / align;
    if q > 0 {
        assert(align * q >= 0) by (nonlinear_arith)
            requires
                align >= 1,
                q > 0,
        ;
    } else if q == 0 {
    } else {
        assert(align * q <= -align) by (nonlinear_arith)
            requires
                align >= 1,
                q <= -1,
        ;
    }
}

/// Rounds `addr` up to the next multiple of `align`.
pub fn align_up(addr: u64, align: u64) -> (r: u64)
    requires
        1 <= align,
        spec_align_up(addr as int, align as int) <= u64::MAX,
    ensures
        r == spec_align_up(addr as int, align as int),
        r % align == 0,
        addr <= r < addr + align,
{
    proof {
        lemma_align_up(addr as int, align as int);
        lemma_mod_le(addr as int, align as int);
    }
    let rem = addr % align;
    if rem == 0 {
        addr
    } else {
        addr - rem + align
    }
}

/// Number of 4 KiB pages the heap region covers.
pub const HEAP_PAGE_COUNT: u64 = HEAP_SIZE / PAGE_SIZE;

/// The virtual address of the `p`-th page of the heap region.
pub open spec fn heap_page_addr(p: int) -> u64 {
    (HEAP_START + p * PAGE_SIZE) as u64
}

/// Heap page addresses are page-aligned, their page numbers follow the
/// heap start page by `p`, and they stay within the four-level address
/// space.
pub proof fn lemma_heap_page_addr(p: int)
    requires
        0 <= p <= HEAP_PAGE_COUNT,
    ensures
        heap_page_addr(p) == HEAP_START + p * PAGE_SIZE,
        heap_page_addr(p) % PAGE_SIZE == 0,
        heap_page_addr(p) as int / PAGE_SIZE as int == HEAP_START as int / PAGE_SIZE as int + p,
        (heap_page_addr(p) as int / PAGE_SIZE as int) < 68719476736,
{
    let sz = PAGE_SIZE as int;
    let h = HEAP_START as int / sz;
    assert(HEAP_START as int % sz == 0);
    lemma_fundamental_div_mod(HEAP_START as int, sz);
    assert(p * sz <= HEAP_PAGE_COUNT as int * sz) by {
        lemma_mul_inequality(p, HEAP_PAGE_COUNT as int, sz);
    }
    assert(0 <= p * sz) by (nonlinear_arith)
        requires
            0 <= p,
            0 <= sz,
    ;
    assert(HEAP_START as int + p * sz == sz * (h + p)) by (nonlinear_arith)
        requires
            HEAP_START as int == sz * h,
    ;
    vstd::arithmetic::div_mod::lemma_div_multiples_vanish(h + p, sz);
    lemma_mod_multiples_basic(h + p, sz);
    assert((h + p) * sz == sz * (h + p)) by (nonlinear_arith);
}

/// Maps every page of the heap region to a freshly allocated frame,
/// present and writable, propagating the first failure.
///
/// Success is owed whenever physical memory suffices: each page costs one
/// frame plus at most three intermediate tables, so four frames per heap
/// page always cover the whole range.
fn map_heap_pages(
    mapper: &mut PageTables,
    frame_allocator: &mut BootInfoFrameAllocator,
) -> (r: Result<(), MapError>)
    requires
        old(mapper).wf(),
        old(frame_allocator).wf(),
        forall|p: int|
            0 <= p < HEAP_PAGE_COUNT ==> old(mapper).spec_translate(#[trigger] heap_page_addr(p))
                is Unmapped,
    ensures
        final(mapper).wf(),
        final(frame_allocator).wf(),
        final(frame_allocator).spec_regions() == old(frame_allocator).spec_regions(),
        old(frame_allocator).frames_remaining() >= 4 * HEAP_PAGE_COUNT ==> r is Ok,
        match r {
            Ok(()) => {
                &&& forall|p: int|
                    0 <= p < HEAP_PAGE_COUNT ==> mapped_writable(
                        final(mapper).spec_translate(#[trigger] heap_page_addr(p)),
                    )
                &&& forall|p: int|
                    0 <= p < HEAP_PAGE_COUNT ==> frame_from(
                        old(frame_allocator).spec_regions(),
                        final(frame_allocator).spec_next(),
                        frame_of(final(mapper).spec_translate(#[trigger] heap_page_addr(p))),
                    )
                &&& forall|p1: int, p2: int|
                    0 <= p1 < p2 < HEAP_PAGE_COUNT ==> frame_of(
                        final(mapper).spec_translate(#[trigger] heap_page_addr(p1)),
                    ) != frame_of(final(mapper).spec_translate(#[trigger] heap_page_addr(p2)))
            },
            Err(e) => {
                &&& e == MapError::FrameAllocationFailed
                &&& final(frame_allocator).frames_remaining() == 0
            },
        },
{
    let mut page_index: u64 = 0;
    while page_index < HEAP_PAGE_COUNT
        invariant
            mapper.wf(),
            frame_allocator.wf(),
            frame_allocator.spec_regions() == old(frame_allocator).spec_regions(),
            frame_allocator.spec_next() - old(frame_allocator).spec_next() <= 4 * page_index,
            0 <= page_index <= HEAP_PAGE_COUNT,
            forall|p: int|
                0 <= p < page_index ==> mapped_writable(
                    mapper.spec_translate(#[trigger] heap_page_addr(p)),
                ),
            forall|p: int|
                0 <= p < page_index ==> frame_from(
                    old(frame_allocator).spec_regions(),
                    frame_allocator.spec_next(),
                    frame_of(mapper.spec_translate(#[trigger] heap_page_addr(p))),
                ),
            forall|p: int|
                page_index <= p < HEAP_PAGE_COUNT ==> mapper.spec_translate(
                    #[trigger] heap_page_addr(p),
                ) is Unmapped,
            forall|p1: int, p2: int|
                0 <= p1 < p2 < page_index ==> frame_of(
                    mapper.spec_translate(#[trigger] heap_page_addr(p1)),
                ) != frame_of(mapper.spec_translate(#[trigger] heap_page_addr(p2))),
        decreases HEAP_PAGE_COUNT - page_index,
    {
        proof {
            lemma_heap_page_addr(page_index as int);
        }
        let page = HEAP_START + page_index * PAGE_SIZE;
        let ghost fa0 = *frame_allocator;
        let frame = match frame_allocator.allocate_frame() {
            Some(f) => f,
            None => {
                proof {
                    assert(old(frame_allocator).frames_remaining() <= 4 * page_index);
                }
                return Err(MapError::FrameAllocationFailed);
            },
        };
        proof {
            lemma_frame_in_usable_region(fa0.spec_regions(), fa0.spec_next());
        }
        let ghost mapper0 = *mapper;
        match mapper.map(page, frame, true, frame_allocator) {
            Ok(()) => {},
            Err(e) => {
                proof {
                    lemma_missing_tables_bounds(mapper0.root, 4, (page / PAGE_SIZE) as u64);
                    assert(old(frame_allocator).frames_remaining() <= 4 * page_index + fa0
                        .frames_remaining());
                    assert(fa0.frames_remaining() <= 4);
                }
                return Err(e);
            },
        }
        proof {
            let regions = frame_allocator.spec_regions();
            let vpn_new = page as int / PAGE_SIZE as int;
            assert forall|p: int| 0 <= p < page_index implies mapper.spec_translate(
                #[trigger] heap_page_addr(p),
            ) == mapper0.spec_translate(heap_page_addr(p)) by {
                lemma_heap_page_addr(p);
                lemma_distinct_vpn_chain(
                    (page / PAGE_SIZE) as u64,
                    (heap_page_addr(p) as int / PAGE_SIZE as int) as u64,
                );
            }
            assert forall|p: int| page_index + 1 <= p < HEAP_PAGE_COUNT implies mapper
                .spec_translate(#[trigger] heap_page_addr(p)) is Unmapped by {
                lemma_heap_page_addr(p);
                lemma_distinct_vpn_chain(
                    (page / PAGE_SIZE) as u64,
                    (heap_page_addr(p) as int / PAGE_SIZE as int) as u64,
                );
            }
            assert(mapper.spec_translate(heap_page_addr(page_index as int))
                == crate::memory::WalkResult::Mapped(frame, true));
            assert(frame == spec_frame_at(regions, fa0.spec_next()));
            lemma_missing_tables_bounds(mapper0.root, 4, (page / PAGE_SIZE) as u64);
            assert(fa0.spec_next() < frame_allocator.spec_next());
            assert forall|p: int| 0 <= p < page_index + 1 implies frame_from(
                old(frame_allocator).spec_regions(),
                frame_allocator.spec_next(),
                frame_of(mapper.spec_translate(#[trigger] heap_page_addr(p))),
            ) by {
                if p < page_index {
                    lemma_frame_from_widen(
                        old(frame_allocator).spec_regions(),
                        fa0.spec_next(),
                        frame_allocator.spec_next(),
                        frame_of(mapper.spec_translate(heap_page_addr(p))),
                    );
                } else {
                    let k1 = fa0.spec_next();
                    assert(0 <= k1 < frame_allocator.spec_next() && frame_of(
                        mapper.spec_translate(heap_page_addr(p)),
                    ) == spec_frame_at(old(frame_allocator).spec_regions(), k1));
                }
            }
            assert forall|p1: int, p2: int| 0 <= p1 < p2 < page_index + 1 implies frame_of(
                mapper.spec_translate(#[trigger] heap_page_addr(p1)),
            ) != frame_of(mapper.spec_translate(#[trigger] heap_page_addr(p2))) by {
                if p2 == page_index as int {
                    let k1 = choose|k: int|
                        0 <= k < fa0.spec_next() && frame_of(
                            mapper0.spec_translate(heap_page_addr(p1)),
                        ) == spec_frame_at(old(frame_allocator).spec_regions(), k);
                    lemma_frame_at_increasing(regions, k1, fa0.spec_next());
                }
            }
        }
        page_index = page_index + 1;
    }
    Ok(())
}

/// Establishes the kernel heap: maps the fixed virtual range
/// `[HEAP_START, HEAP_START + HEAP_SIZE)` page by page to freshly
/// allocated physical frames, all present and writable and pairwise
/// distinct, and only then hands the whole range to the allocation
/// strategy.
///
/// Any mapping failure is propagated immediately and leaves the strategy
/// untouched: there is no partial-heap success, a heap that failed to map
/// must be considered unusable. Success is owed whenever physical memory
/// suffices: four frames per heap page — one for the page and at most
/// three for intermediate tables — always cover the whole range.
pub fn init_heap(
    mapper: &mut PageTables,
    frame_allocator: &mut BootInfoFrameAllocator,
    allocator: &mut FixedSizeBlockAllocator,
) -> (r: Result<(), MapError>)
    requires
        old(mapper).wf(),
        old(frame_allocator).wf(),
        old(allocator).wf(),
        old(allocator).fallback_regions() == Seq::<(u64, u64)>::empty(),
        forall|p: int|
            0 <= p < HEAP_PAGE_COUNT ==> old(mapper).spec_translate(#[trigger] heap_page_addr(p))
                is Unmapped,
    ensures
        final(mapper).wf(),
        final(frame_allocator).wf(),
        final(allocator).wf(),
        final(frame_allocator).spec_regions() == old(frame_allocator).spec_regions(),
        old(frame_allocator).frames_remaining() >= 4 * HEAP_PAGE_COUNT ==> r is Ok,
        match r {
            Ok(()) => {
                &&& forall|p: int|
                    0 <= p < HEAP_PAGE_COUNT ==> mapped_writable(
                        final(mapper).spec_translate(#[trigger] heap_page_addr(p)),
                    )
                &&& forall|p: int|
                    0 <= p < HEAP_PAGE_COUNT ==> frame_from(
                        old(frame_allocator).spec_regions(),
                        final(frame_allocator).spec_next(),
                        frame_of(final(mapper).spec_translate(#[trigger] heap_page_addr(p))),
                    )
                &&& forall|p1: int, p2: int|
                    0 <= p1 < p2 < HEAP_PAGE_COUNT ==> frame_of(
                        final(mapper).spec_translate(#[trigger] heap_page_addr(p1)),
                    ) != frame_of(final(mapper).spec_translate(#[trigger] heap_page_addr(p2)))
                &&& final(allocator).fallback_regions() == seq![(HEAP_START, HEAP_SIZE)]
                &&& forall|j: int|
                    0 <= j < BLOCK_CLASS_COUNT ==> final(allocator).class_blocks(j) == old(allocator).class_blocks(j)
            },
            Err(e) => {
                &&& e == MapError::FrameAllocationFailed
                &&& final(frame_allocator).frames_remaining() == 0
                &&& final(allocator).fallback_regions() == old(allocator).fallback_regions()
                &&& forall|j: int|
                    0 <= j < BLOCK_CLASS_COUNT ==> final(allocator).class_blocks(j) == old(allocator).class_blocks(j)
            },
        },
{
    match map_heap_pages(mapper, frame_allocator) {
        Ok(()) => {},
        Err(e) => {
            return Err(e);
        },
    }
    allocator.init(HEAP_START, HEAP_SIZE);
    Ok(())
}

/// Round-trip store and read through the bump strategy: the address a
/// successful allocation of at least one machine word returns lies within
/// the heap, and a value stored there reads back unchanged.
pub proof fn lemma_round_trip_bump(
    b: BumpAllocator,
    data: HeapData,
    size: u64,
    align: u64,
    v: u64,
)
    requires
        b.wf(),
        1 <= align,
        8 <= size,
        b.can_allocate(size, align),
        data.wf(),
        data.spec_base() <= b.spec_heap_start(),
        b.spec_heap_end() <= data.spec_end(),
    ensures
        ({
            let addr = spec_align_up(b.spec_next(), align as int);
            let off = addr - data.spec_base();
            &&& data.spec_base() <= addr
            &&& addr + 8 <= data.spec_end()
            &&& spec_read_u64(spec_write_u64(data.view(), off, v), off) == v
        }),
{
    lemma_align_up(b.spec_next(), align as int);
    let addr = spec_align_up(b.spec_next(), align as int);
    lemma_store_read_round_trip(data.view(), addr - data.spec_base(), v);
}

/// Round-trip store and read through the free-list strategy: the address a
/// successful allocation of at least one machine word returns lies within
/// the heap whenever every free region does, and a value stored there
/// reads back unchanged.
pub proof fn lemma_round_trip_linked_list(
    ll: LinkedListAllocator,
    data: HeapData,
    size: u64,
    align: u64,
    addr: u64,
    v: u64,
)
    requires
        ll.wf(),
        spec_is_pow2(align as int),
        spec_adjusted_size(size, align) <= u64::MAX,
        ll_alloc_spec(ll.regions(), size, align) matches Some((a, _)) && a == addr,
        data.wf(),
        forall|i: int|
            0 <= i < ll.regions().len() ==> data.spec_base() <= (#[trigger] ll.regions()[i]).0
                && ll.regions()[i].0 + ll.regions()[i].1 <= data.spec_end(),
    ensures
        ({
            let off = addr - data.spec_base();
            &&& data.spec_base() <= addr
            &&& addr + 8 <= data.spec_end()
            &&& spec_read_u64(spec_write_u64(data.view(), off, v), off) == v
        }),
{
    let asize = spec_adjusted_size(size, align) as u64;
    let aalign = spec_adjusted_align(align);
    lemma_find_fit_index_props(ll.regions(), asize, aalign);
    let i = find_fit_index(ll.regions(), asize, aalign)->Some_0;
    let (raddr, rsize) = ll.regions()[i];
    lemma_align_up(raddr as int, aalign as int);
    lemma_align_up(size as int, aalign as int);
    lemma_store_read_round_trip(data.view(), addr - data.spec_base(), v);
}

/// Round-trip store and read through the segregated strategy, on the path
/// that reuses a listed class block: the block at the head of the class
/// list is returned, and a value stored there reads back unchanged. On the
/// paths that draw from the fallback, the free-list round trip applies to
/// the fallback's regions.
pub proof fn lemma_round_trip_fixed_size(
    a: FixedSizeBlockAllocator,
    data: HeapData,
    size: u64,
    align: u64,
    v: u64,
)
    requires
        a.wf(),
        8 <= size,
        spec_list_index(size, align) matches Some(i) && a.class_blocks(i).len() > 0,
        data.wf(),
        ({
            let i = spec_list_index(size, align)->Some_0;
            &&& data.spec_base() <= a.class_blocks(i)[0]
            &&& a.class_blocks(i)[0] + 8 <= data.spec_end()
        }),
    ensures
        ({
            let i = spec_list_index(size, align)->Some_0;
            let addr = a.class_blocks(i)[0];
            let off = addr - data.spec_base();
            spec_read_u64(spec_write_u64(data.view(), off, v), off) == v
        }),
{
    let i = spec_list_index(size, align)->Some_0;
    let addr = a.class_blocks(i)[0];
    lemma_store_read_round_trip(data.view(), addr - data.spec_base(), v);
}

} // verus!
