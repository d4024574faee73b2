//! The virtual-memory layer: physical frames and four-level page tables.
//!
//! [`BootInfoFrameAllocator`] partitions the usable regions of the boot
//! memory map into 4 KiB frames and hands them out one per call, advancing a
//! cursor; frames are never returned. The page-table types model the
//! four-level translation structure: [`PageTables::map`] extends the
//! structure with a mapping, creating intermediate tables on demand from
//! freshly allocated frames, and [`translate_address`] walks the same four
//! levels read-only. The hardware side — reading the page-table base
//! register and dereferencing table memory through the physical-memory
//! offset — stays outside this crate; here the structure itself is data,
//! each table owning its child tables.

use vstd::arithmetic::div_mod::{
    lemma_add_mod_noop, lemma_fundamental_div_mod, lemma_mod_division_less_than_divisor,
    lemma_mod_multiples_basic, lemma_small_mod, lemma_sub_mod_noop,
};
use vstd::arithmetic::mul::{lemma_mul_inequality, lemma_mul_strict_inequality};
use vstd::prelude::*;

verus! {

/// Size in bytes of one physical frame and of one virtual page.
pub const PAGE_SIZE: u64 = 4096;

/// One region of the boot memory map: `[start, end)`, and whether the
/// bootloader marked it usable for allocation.
#[derive(Clone, Copy)]
pub struct MemoryRegion {
    pub start: u64,
    pub end: u64,
    pub usable: bool,
}

/// A well-formed boot memory map: each region is frame-aligned and ordered,
/// and the regions are sorted and pairwise disjoint.
pub open spec fn wf_regions(regions: Seq<MemoryRegion>) -> bool {
    &&& forall|i: int|
        0 <= i < regions.len() ==> {
            &&& (#[trigger] regions[i]).start % PAGE_SIZE == 0
            &&& regions[i].end % PAGE_SIZE == 0
            &&& regions[i].start <= regions[i].end
        }
    &&& forall|i: int, j: int|
        0 <= i < j < regions.len() ==> (#[trigger] regions[i]).end <= (#[trigger] regions[j]).start
}

/// How many frames a region contributes: its whole extent if usable, none
/// otherwise.
pub open spec fn region_frame_count(r: MemoryRegion) -> int {
    if r.usable {
        (r.end - r.start) / (PAGE_SIZE as int)
    } else {
        0
    }
}

/// Total number of frames the memory map contributes.
pub open spec fn frame_count(regions: Seq<MemoryRegion>) -> int
    decreases regions.len(),
{
    if regions.len() == 0 {
        0
    } else {
        region_frame_count(regions[0]) + frame_count(regions.subrange(1, regions.len() as int))
    }
}

/// The `n`-th frame of the memory map, counting only usable regions, in
/// region order and ascending within each region.
pub open spec fn spec_frame_at(regions: Seq<MemoryRegion>, n: int) -> u64
    decreases regions.len(),
{
    if regions.len() == 0 {
        0
    } else if n < region_frame_count(regions[0]) {
        (regions[0].start + n * PAGE_SIZE) as u64
    } else {
        spec_frame_at(regions.subrange(1, regions.len() as int), n - region_frame_count(regions[0]))
    }
}

/// Every region contributes a nonnegative number of frames.
pub proof fn lemma_frame_count_nonneg(regions: Seq<MemoryRegion>)
    requires
        wf_regions(regions),
    ensures
        frame_count(regions) >= 0,
        regions.len() > 0 ==> region_frame_count(regions[0]) >= 0,
        regions.len() > 0 ==> frame_count(regions) >= region_frame_count(regions[0]),
    decreases regions.len(),
{
    if regions.len() > 0 {
        let tail = regions.subrange(1, regions.len() as int);
        assert(wf_regions(tail)) by {
            assert(forall|i: int| 0 <= i < tail.len() ==> tail[i] == regions[i + 1]);
        }
        lemma_frame_count_nonneg(tail);
        if regions[0].usable {
            vstd::arithmetic::div_mod::lemma_div_pos_is_pos(
                regions[0].end - regions[0].start,
                PAGE_SIZE as int,
            );
        }
    }
}

/// In a well-formed usable region the frame count measures the region
/// exactly: count times the frame size is the region's extent.
pub proof fn lemma_region_exact(r: MemoryRegion)
    requires
        r.start % PAGE_SIZE == 0,
        r.end % PAGE_SIZE == 0,
        r.start <= r.end,
    ensures
        r.usable ==> region_frame_count(r) * PAGE_SIZE == r.end - r.start,
        region_frame_count(r) >= 0,
{
    if r.usable {
        let extent = r.end - r.start;
        lemma_sub_mod_noop(r.end as int, r.start as int, PAGE_SIZE as int);
        assert(extent % PAGE_SIZE as int == 0);
        lemma_fundamental_div_mod(extent, PAGE_SIZE as int);
        vstd::arithmetic::div_mod::lemma_div_pos_is_pos(extent, PAGE_SIZE as int);
    }
}

/// Every frame the map yields is frame-aligned and lies wholly inside some
/// usable region of the map.
pub proof fn lemma_frame_in_usable_region(regions: Seq<MemoryRegion>, n: int)
    requires
        wf_regions(regions),
        0 <= n < frame_count(regions),
    ensures
        spec_frame_at(regions, n) % PAGE_SIZE == 0,
        exists|j: int|
            {
                &&& 0 <= j < regions.len()
                &&& (#[trigger] regions[j]).usable
                &&& regions[j].start <= spec_frame_at(regions, n)
                &&& spec_frame_at(regions, n) + PAGE_SIZE <= regions[j].end
            },
    decreases regions.len(),
{
    lemma_frame_count_nonneg(regions);
    let tail = regions.subrange(1, regions.len() as int);
    assert(wf_regions(tail)) by {
        assert(forall|i: int| 0 <= i < tail.len() ==> tail[i] == regions[i + 1]);
    }
    let c0 = region_frame_count(regions[0]);
    lemma_region_exact(regions[0]);
    if n < c0 {
        let f = regions[0].start + n * PAGE_SIZE;
        assert((n + 1) * PAGE_SIZE <= c0 * PAGE_SIZE) by {
            lemma_mul_inequality(n + 1, c0, PAGE_SIZE as int);
        }
        assert((n + 1) * PAGE_SIZE == n * PAGE_SIZE + PAGE_SIZE) by (nonlinear_arith);
        assert(f + PAGE_SIZE <= regions[0].end);
        assert(f % PAGE_SIZE as int == 0) by {
            lemma_mod_multiples_basic(n, PAGE_SIZE as int);
            lemma_add_mod_noop(regions[0].start as int, n * PAGE_SIZE, PAGE_SIZE as int);
        }
        assert(n * PAGE_SIZE >= 0) by (nonlinear_arith)
            requires
                n >= 0,
        ;
        assert(regions[0].usable);
    } else {
        lemma_frame_in_usable_region(tail, n - c0);
        let j = choose|j: int|
            {
                &&& 0 <= j < tail.len()
                &&& (#[trigger] tail[j]).usable
                &&& tail[j].start <= spec_frame_at(tail, n - c0)
                &&& spec_frame_at(tail, n - c0) + PAGE_SIZE <= tail[j].end
            };
        assert(tail[j] == regions[j + 1]);
    }
}

/// The frames of the map are handed out in strictly ascending address
/// order; in particular no frame is ever repeated.
pub proof fn lemma_frame_at_increasing(regions: Seq<MemoryRegion>, n1: int, n2: int)
    requires
        wf_regions(regions),
        0 <= n1 < n2 < frame_count(regions),
    ensures
        spec_frame_at(regions, n1) < spec_frame_at(regions, n2),
    decreases regions.len(),
{
    lemma_frame_count_nonneg(regions);
    let tail = regions.subrange(1, regions.len() as int);
    assert(wf_regions(tail)) by {
        assert(forall|i: int| 0 <= i < tail.len() ==> tail[i] == regions[i + 1]);
    }
    let c0 = region_frame_count(regions[0]);
    lemma_region_exact(regions[0]);
    if n2 < c0 {
        assert(n1 * PAGE_SIZE < n2 * PAGE_SIZE) by {
            lemma_mul_strict_inequality(n1, n2, PAGE_SIZE as int);
        }
    } else if n1 < c0 {
        let f1 = regions[0].start + n1 * PAGE_SIZE;
        assert((n1 + 1) * PAGE_SIZE <= c0 * PAGE_SIZE) by {
            lemma_mul_inequality(n1 + 1, c0, PAGE_SIZE as int);
        }
        assert((n1 + 1) * PAGE_SIZE == n1 * PAGE_SIZE + PAGE_SIZE) by (nonlinear_arith);
        assert(f1 + PAGE_SIZE <= regions[0].end);
        lemma_frame_in_usable_region(tail, n2 - c0);
        let j = choose|j: int|
            {
                &&& 0 <= j < tail.len()
                &&& (#[trigger] tail[j]).usable
                &&& tail[j].start <= spec_frame_at(tail, n2 - c0)
                &&& spec_frame_at(tail, n2 - c0) + PAGE_SIZE <= tail[j].end
            };
        assert(tail[j] == regions[j + 1]);
        assert(regions[0].end <= regions[j + 1].start);
    } else {
        lemma_frame_at_increasing(tail, n1 - c0, n2 - c0);
    }
}

/// The frame count of a well-formed map is bounded by the address space:
/// all frames fit below the end of the last region.
pub proof fn lemma_frame_count_bound(regions: Seq<MemoryRegion>)
    requires
        wf_regions(regions),
    ensures
        regions.len() == 0 ==> frame_count(regions) == 0,
        regions.len() > 0 ==> frame_count(regions) * PAGE_SIZE <= regions.last().end,
    decreases regions.len(),
{
    if regions.len() > 0 {
        let tail = regions.subrange(1, regions.len() as int);
        assert(wf_regions(tail)) by {
            assert(forall|i: int| 0 <= i < tail.len() ==> tail[i] == regions[i + 1]);
        }
        lemma_frame_count_bound(tail);
        lemma_frame_count_nonneg(tail);
        lemma_region_exact(regions[0]);
        let c0 = region_frame_count(regions[0]);
        let ct = frame_count(tail);
        if regions.len() == 1 {
            assert(frame_count(regions) * PAGE_SIZE == c0 * PAGE_SIZE) by (nonlinear_arith)
                requires
                    frame_count(regions) == c0 + ct,
                    ct == 0,
            ;
        } else {
            assert(tail.last() == regions.last());
            assert(regions[0].end <= regions[1].start);
            assert(tail[0] == regions[1]);
            assert((c0 + ct) * PAGE_SIZE == c0 * PAGE_SIZE + ct * PAGE_SIZE) by (nonlinear_arith);
            assert(ct * PAGE_SIZE <= tail.last().end - tail[0].start) by {
                lemma_frame_count_partial_bound(tail);
            }
        }
    }
}

/// In a nonempty well-formed map, the frames fit between the start of the
/// first region and the end of the last.
pub proof fn lemma_frame_count_partial_bound(regions: Seq<MemoryRegion>)
    requires
        wf_regions(regions),
        regions.len() > 0,
    ensures
        frame_count(regions) * PAGE_SIZE <= regions.last().end - regions[0].start,
    decreases regions.len(),
{
    let tail = regions.subrange(1, regions.len() as int);
    assert(wf_regions(tail)) by {
        assert(forall|i: int| 0 <= i < tail.len() ==> tail[i] == regions[i + 1]);
    }
    lemma_frame_count_nonneg(tail);
    lemma_region_exact(regions[0]);
    let c0 = region_frame_count(regions[0]);
    let ct = frame_count(tail);
    assert((c0 + ct) * PAGE_SIZE == c0 * PAGE_SIZE + ct * PAGE_SIZE) by (nonlinear_arith);
    if regions.len() == 1 {
        assert(ct * PAGE_SIZE == 0) by (nonlinear_arith)
            requires
                ct == 0,
        ;
    } else {
        lemma_frame_count_partial_bound(tail);
        assert(tail.last() == regions.last());
        assert(tail[0] == regions[1]);
        assert(regions[0].end <= regions[1].start);
    }
}

/// Tracks physical memory from the boot memory map and hands out unused
/// frames, one per call; frames are never taken back.
pub struct BootInfoFrameAllocator {
    regions: Vec<MemoryRegion>,
    next: u64,
}

impl BootInfoFrameAllocator {
    /// The boot memory map this allocator draws from.
    pub closed spec fn spec_regions(self) -> Seq<MemoryRegion> {
        self.regions@
    }

    /// How many frames have been handed out so far.
    pub closed spec fn spec_next(self) -> int {
        self.next as int
    }

    /// Internal invariant: the memory map is well-formed and the cursor
    /// never runs past the total frame count.
    pub open spec fn wf(self) -> bool {
        &&& wf_regions(self.spec_regions())
        &&& 0 <= self.spec_next() <= frame_count(self.spec_regions())
    }

    /// Number of frames not yet handed out.
    pub open spec fn frames_remaining(self) -> int {
        frame_count(self.spec_regions()) - self.spec_next()
    }

    /// Creates a frame allocator over the given boot memory map.
    ///
    /// The caller vouches that the map really describes physical memory:
    /// frame-aligned, sorted, disjoint regions, with only genuinely unused
    /// memory marked usable.
    pub fn init(regions: Vec<MemoryRegion>) -> (r: Self)
        requires
            wf_regions(regions@),
        ensures
            r.wf(),
            r.spec_regions() == regions@,
            r.spec_next() == 0,
    {
        proof {
            lemma_frame_count_nonneg(regions@);
        }
        BootInfoFrameAllocator { regions, next: 0 }
    }

    /// Hands out the next unused frame of the memory map, or `None` once
    /// physical memory is exhausted. Only usable regions contribute frames;
    /// a frame marked reserved in the boot map is never returned.
    pub fn allocate_frame(&mut self) -> (r: Option<u64>)
        requires
            old(self).wf(),
        ensures
            final(self).wf(),
            final(self).spec_regions() == old(self).spec_regions(),
            if old(self).frames_remaining() > 0 {
                &&& r == Some(spec_frame_at(old(self).spec_regions(), old(self).spec_next()))
                &&& final(self).spec_next() == old(self).spec_next() + 1
            } else {
                &&& r is None
                &&& *final(self) == *old(self)
            },
    {
        let ghost all = self.regions@;
        let ghost target = self.next as int;
        let mut i: usize = 0;
        let mut remaining: u64 = self.next;
        proof {
            lemma_frame_count_nonneg(all);
            assert(all.subrange(0, all.len() as int) =~= all);
        }
        while i < self.regions.len()
            invariant
                self.wf(),
                *self == *old(self),
                all == self.regions@,
                target == self.spec_next(),
                0 <= i <= all.len(),
                remaining <= target,
                target - remaining == frame_count(all) - frame_count(
                    all.subrange(i as int, all.len() as int),
                ),
                remaining < frame_count(all.subrange(i as int, all.len() as int)) ==> spec_frame_at(
                    all,
                    target,
                ) == spec_frame_at(all.subrange(i as int, all.len() as int), remaining as int),
            decreases all.len() - i,
        {
            let ghost suffix = all.subrange(i as int, all.len() as int);
            let region = self.regions[i];
            proof {
                assert(wf_regions(suffix)) by {
                    assert(forall|k: int| 0 <= k < suffix.len() ==> suffix[k] == all[k + i]);
                }
                lemma_frame_count_nonneg(suffix);
                lemma_region_exact(region);
                assert(suffix[0] == region);
                assert(suffix.subrange(1, suffix.len() as int) =~= all.subrange(
                    i + 1,
                    all.len() as int,
                ));
            }
            let count: u64 = if region.usable {
                (region.end - region.start) / PAGE_SIZE
            } else {
                0
            };
            if remaining < count {
                proof {
                    assert((remaining + 1) * PAGE_SIZE <= count * PAGE_SIZE) by {
                        lemma_mul_inequality(remaining as int + 1, count as int, PAGE_SIZE as int);
                    }
                    assert((remaining + 1) * PAGE_SIZE == remaining * PAGE_SIZE + PAGE_SIZE)
                        by (nonlinear_arith);
                    assert(remaining * PAGE_SIZE >= 0) by (nonlinear_arith);
                }
                let frame = region.start + remaining * PAGE_SIZE;
                proof {
                    assert(region_frame_count(region) <= frame_count(suffix));
                    lemma_frame_count_bound(all);
                    assert(frame_count(all) * PAGE_SIZE <= u64::MAX) by (nonlinear_arith)
                        requires
                            frame_count(all) * PAGE_SIZE <= all.last().end,
                            all.last().end <= u64::MAX,
                    ;
                    assert(frame_count(all) <= u64::MAX) by (nonlinear_arith)
                        requires
                            frame_count(all) * PAGE_SIZE <= u64::MAX,
                            PAGE_SIZE >= 1,
                            frame_count(all) >= 0,
                    ;
                }
                self.next = self.next + 1;
                return Some(frame);
            }
            remaining = remaining - count;
            i = i + 1;
        }
        proof {
            assert(all.subrange(all.len() as int, all.len() as int) =~= Seq::<
                MemoryRegion,
            >::empty());
        }
        None
    }
}

/// Number of entries in one page table.
pub const ENTRY_COUNT: usize = 512;

/// One entry of a page table: absent, a link to the next-level table, or a
/// pointer into physical memory. A `Frame` entry at the lowest level maps
/// one 4 KiB page `(frame base, writable)`; a `Frame` entry at a higher
/// level is a huge page, which this design never creates and refuses to
/// translate through.
pub enum PageTableEntry {
    Absent,
    Table(Box<PageTable>),
    Frame(u64, bool),
}

/// One page table: exactly [`ENTRY_COUNT`] entries, each possibly owning
/// the next-level table. Ownership replaces the raw frame pointers of the
/// hardware structure; the frames backing intermediate tables are still
/// drawn from the frame allocator when tables are created.
pub struct PageTable {
    pub entries: Vec<PageTableEntry>,
}

/// The four-level translation structure, from its level-4 root.
pub struct PageTables {
    pub root: PageTable,
}

/// What the four-level walk finds for one virtual page.
pub enum WalkResult {
    /// Mapped to the 4 KiB frame at this base address, with this
    /// writability.
    Mapped(u64, bool),
    /// Some entry on the walk is absent.
    Unmapped,
    /// Some entry on the walk is a huge-page mapping, which this design
    /// treats as a fatal configuration error rather than a translation.
    HugePage,
}

/// Why a `map` call failed.
#[derive(Clone, Copy, Debug, PartialEq, Eq, Structural)]
pub enum MapError {
    /// No frame could be allocated for a missing intermediate table.
    FrameAllocationFailed,
    /// The page already has a mapping.
    PageAlreadyMapped,
    /// An entry on the walk is a huge-page mapping.
    ParentEntryHugePage,
}

/// Why a `translate_address` call failed fatally.
#[derive(Clone, Copy, Debug, PartialEq, Eq, Structural)]
pub enum TranslateError {
    /// An entry on the walk is a huge-page mapping.
    HugePage,
}

/// 512 to the `l`-th power: how many pages one entry spans at walk depth
/// `l` levels above the leaves.
pub open spec fn pow512(l: int) -> int
    decreases l,
{
    if l <= 0 {
        1
    } else {
        512 * pow512(l - 1)
    }
}

/// The index a page number selects in a table at the given level.
pub open spec fn table_index(vpn: u64, level: int) -> int {
    (vpn as int / pow512(level - 1)) % 512
}

/// Two page numbers walk the same chain of entries below the given level.
pub open spec fn same_chain(vpn1: u64, vpn2: u64, level: int) -> bool {
    vpn1 as int % pow512(level) == vpn2 as int % pow512(level)
}

/// A well-formed table of the given level: full size, next-level links only
/// above the lowest level, and frame pointers frame-aligned.
pub open spec fn wf_table(t: PageTable, level: int) -> bool
    decreases level, 1int,
{
    &&& 1 <= level
    &&& t.entries@.len() == ENTRY_COUNT
    &&& forall|i: int| 0 <= i < ENTRY_COUNT ==> wf_entry(#[trigger] t.entries@[i], level)
}

/// A well-formed entry of a table of the given level.
pub open spec fn wf_entry(e: PageTableEntry, level: int) -> bool
    decreases level, 0int,
{
    match e {
        PageTableEntry::Absent => true,
        PageTableEntry::Frame(f, _) => f % PAGE_SIZE == 0,
        PageTableEntry::Table(sub) => 2 <= level && wf_table(*sub, level - 1),
    }
}

/// The walk from a table of the given level down to the page number's
/// mapping.
pub open spec fn spec_walk(t: PageTable, level: int, vpn: u64) -> WalkResult
    decreases level,
{
    if level < 1 {
        WalkResult::Unmapped
    } else {
        match t.entries@[table_index(vpn, level)] {
            PageTableEntry::Absent => WalkResult::Unmapped,
            PageTableEntry::Frame(f, w) => if level == 1 {
                WalkResult::Mapped(f, w)
            } else {
                WalkResult::HugePage
            },
            PageTableEntry::Table(sub) => if level == 1 {
                WalkResult::Unmapped
            } else {
                spec_walk(*sub, level - 1, vpn)
            },
        }
    }
}

/// How many intermediate tables a `map` of this page number still has to
/// create below a table of the given level.
pub open spec fn missing_tables(t: PageTable, level: int, vpn: u64) -> int
    decreases level,
{
    if level <= 1 {
        0
    } else {
        match t.entries@[table_index(vpn, level)] {
            PageTableEntry::Absent => level - 1,
            PageTableEntry::Frame(_, _) => 0,
            PageTableEntry::Table(sub) => missing_tables(*sub, level - 1, vpn),
        }
    }
}

/// The powers of 512 a four-level walk meets.
pub proof fn lemma_pow512_values()
    ensures
        pow512(0) == 1,
        pow512(1) == 512,
        pow512(2) == 262144,
        pow512(3) == 134217728,
        pow512(4) == 68719476736,
{
    reveal_with_fuel(pow512, 5);
}

/// Powers of 512 are positive.
pub proof fn lemma_pow512_pos(l: int)
    ensures
        pow512(l) >= 1,
    decreases l,
{
    if l > 0 {
        lemma_pow512_pos(l - 1);
        assert(512 * pow512(l - 1) >= pow512(l - 1)) by (nonlinear_arith)
            requires
                pow512(l - 1) >= 1,
        ;
    }
}

/// A table index is always within the table.
pub proof fn lemma_table_index_bound(vpn: u64, level: int)
    ensures
        0 <= table_index(vpn, level) < 512,
{
    lemma_pow512_pos(level - 1);
    lemma_mod_division_less_than_divisor(vpn as int / pow512(level - 1), 512);
}

/// At depth zero every pair of page numbers shares the (empty) chain.
pub proof fn lemma_same_chain_zero(vpn1: u64, vpn2: u64)
    ensures
        same_chain(vpn1, vpn2, 0),
{
    lemma_fundamental_div_mod(vpn1 as int, 1);
    lemma_mod_division_less_than_divisor(vpn1 as int, 1);
    lemma_fundamental_div_mod(vpn2 as int, 1);
    lemma_mod_division_less_than_divisor(vpn2 as int, 1);
}

/// Sharing a chain below `level` is sharing the entry index at `level` and
/// the chain below `level - 1`: the base-512 digit decomposition of a page
/// number.
pub proof fn lemma_chain_decompose(vpn1: u64, vpn2: u64, level: int)
    requires
        1 <= level,
    ensures
        same_chain(vpn1, vpn2, level) <==> (table_index(vpn1, level) == table_index(vpn2, level)
            && same_chain(vpn1, vpn2, level - 1)),
{
    let p = pow512(level - 1);
    lemma_pow512_pos(level - 1);
    assert(pow512(level) == 512 * p);
    vstd::arithmetic::div_mod::lemma_breakdown(vpn1 as int, p, 512);
    vstd::arithmetic::div_mod::lemma_breakdown(vpn2 as int, p, 512);
    let d1 = table_index(vpn1, level);
    let d2 = table_index(vpn2, level);
    let r1 = vpn1 as int % p;
    let r2 = vpn2 as int % p;
    lemma_mod_division_less_than_divisor(vpn1 as int / p, 512);
    lemma_mod_division_less_than_divisor(vpn2 as int / p, 512);
    lemma_mod_division_less_than_divisor(vpn1 as int, p);
    lemma_mod_division_less_than_divisor(vpn2 as int, p);
    assert(vpn1 as int % (p * 512) == p * d1 + r1);
    assert(vpn2 as int % (p * 512) == p * d2 + r2);
    assert(p * 512 == 512 * p);
    if d1 != d2 {
        assert(p * d1 + r1 != p * d2 + r2) by (nonlinear_arith)
            requires
                d1 != d2,
                0 <= r1 < p,
                0 <= r2 < p,
        ;
    }
}

/// Walking depends only on the entries, not on the table identity.
pub proof fn lemma_walk_congruent(t1: PageTable, t2: PageTable, level: int, vpn: u64)
    requires
        t1.entries@ == t2.entries@,
    ensures
        spec_walk(t1, level, vpn) == spec_walk(t2, level, vpn),
        missing_tables(t1, level, vpn) == missing_tables(t2, level, vpn),
{
}

/// A table whose entries are all absent maps nothing and still misses all
/// tables below it.
pub proof fn lemma_empty_walk(t: PageTable, level: int, vpn: u64)
    requires
        t.entries@.len() == ENTRY_COUNT,
        forall|i: int| 0 <= i < ENTRY_COUNT ==> (#[trigger] t.entries@[i]) is Absent,
    ensures
        spec_walk(t, level, vpn) is Unmapped,
        missing_tables(t, level, vpn) == if level <= 1 {
            0
        } else {
            level - 1
        },
{
    if level >= 1 {
        lemma_table_index_bound(vpn, level);
    }
}

/// Any frame a well-formed walk maps a page to is frame-aligned.
pub proof fn lemma_walk_mapped_aligned(t: PageTable, level: int, vpn: u64)
    requires
        wf_table(t, level),
    ensures
        spec_walk(t, level, vpn) matches WalkResult::Mapped(f, w) ==> f % PAGE_SIZE == 0,
    decreases level,
{
    lemma_table_index_bound(vpn, level);
    match t.entries@[table_index(vpn, level)] {
        PageTableEntry::Table(sub) => {
            if level >= 2 {
                lemma_walk_mapped_aligned(*sub, level - 1, vpn);
            }
        },
        _ => {},
    }
}

/// A frame-aligned address leaves room for a whole page below the top of
/// the address space.
pub proof fn lemma_frame_offset_fits(f: u64)
    requires
        f % PAGE_SIZE == 0,
    ensures
        f + PAGE_SIZE - 1 <= u64::MAX,
{
    lemma_fundamental_div_mod(f as int, PAGE_SIZE as int);
    let q = f as int / PAGE_SIZE as int;
    assert(q <= 4503599627370495) by (nonlinear_arith)
        requires
            f as int == PAGE_SIZE as int * q + f as int % (PAGE_SIZE as int),
            f as int % (PAGE_SIZE as int) == 0,
            0 <= f as int <= u64::MAX,
            PAGE_SIZE as int == 4096,
    ;
    assert(PAGE_SIZE as int * q <= PAGE_SIZE as int * 4503599627370495) by (nonlinear_arith)
        requires
            q <= 4503599627370495,
            0 <= PAGE_SIZE as int,
    ;
}

/// Creates a table with every entry absent.
fn new_table() -> (r: PageTable)
    ensures
        r.entries@.len() == ENTRY_COUNT,
        forall|i: int| 0 <= i < ENTRY_COUNT ==> (#[trigger] r.entries@[i]) is Absent,
{
    let mut entries: Vec<PageTableEntry> = Vec::new();
    while entries.len() < ENTRY_COUNT
        invariant
            entries@.len() <= ENTRY_COUNT,
            forall|i: int| 0 <= i < entries@.len() ==> (#[trigger] entries@[i]) is Absent,
        decreases ENTRY_COUNT - entries.len(),
    {
        entries.push(PageTableEntry::Absent);
    }
    PageTable { entries }
}

/// Takes the entry at `index` out of the table, leaving an absent entry in
/// its place: ownership transfer out of the slot.
fn take_entry(t: &mut PageTable, index: usize) -> (r: PageTableEntry)
    requires
        index < old(t).entries@.len(),
    ensures
        r == old(t).entries@[index as int],
        final(t).entries@ == old(t).entries@.update(index as int, PageTableEntry::Absent),
{
    let e = t.entries.remove(index);
    t.entries.insert(index, PageTableEntry::Absent);
    proof {
        assert(t.entries@ =~= old(t).entries@.update(index as int, PageTableEntry::Absent));
    }
    e
}

/// Computes the index a page number selects at the given level.
fn entry_index(vpn: u64, level: u64) -> (r: usize)
    requires
        1 <= level <= 4,
    ensures
        r as int == table_index(vpn, level as int),
        r < 512,
{
    proof {
        lemma_pow512_values();
        lemma_table_index_bound(vpn, level as int);
    }
    let stride: u64 = if level == 1 {
        1
    } else if level == 2 {
        512
    } else if level == 3 {
        262144
    } else {
        134217728
    };
    ((vpn / stride) % 512) as usize
}

/// Walks from a table of the given level down to the page number's
/// mapping, read-only.
fn lookup_in(t: &PageTable, level: u64, vpn: u64) -> (r: Result<Option<(u64, bool)>, TranslateError>)
    requires
        wf_table(*t, level as int),
        1 <= level <= 4,
    ensures
        match spec_walk(*t, level as int, vpn) {
            WalkResult::Mapped(f, w) => r == Ok::<Option<(u64, bool)>, TranslateError>(
                Some((f, w)),
            ),
            WalkResult::Unmapped => r == Ok::<Option<(u64, bool)>, TranslateError>(None),
            WalkResult::HugePage => r == Err::<Option<(u64, bool)>, TranslateError>(
                TranslateError::HugePage,
            ),
        },
    decreases level,
{
    let idx = entry_index(vpn, level);
    match &t.entries[idx] {
        PageTableEntry::Absent => Ok(None),
        PageTableEntry::Frame(f, w) => {
            if level == 1 {
                Ok(Some((*f, *w)))
            } else {
                Err(TranslateError::HugePage)
            }
        },
        PageTableEntry::Table(sub) => {
            proof {
                assert(wf_entry(t.entries@[idx as int], level as int));
            }
            lookup_in(&*sub, level - 1, vpn)
        },
    }
}

impl PageTables {
    /// A well-formed four-level structure.
    pub open spec fn wf(self) -> bool {
        wf_table(self.root, 4)
    }

    /// What the walk finds for the page holding this virtual address.
    pub open spec fn spec_translate(self, address: u64) -> WalkResult {
        spec_walk(self.root, 4, address / PAGE_SIZE)
    }

    /// Creates a structure that maps nothing.
    pub fn new() -> (r: Self)
        ensures
            r.wf(),
            forall|address: u64| r.spec_translate(address) is Unmapped,
    {
        let root = new_table();
        let r = PageTables { root };
        proof {
            assert forall|address: u64| r.spec_translate(address) is Unmapped by {
                lemma_empty_walk(r.root, 4, address / PAGE_SIZE);
            }
        }
        r
    }
}

impl PageTable {
    /// Wires the mapping `vpn -> frame` into a table of the given level,
    /// creating missing intermediate tables on demand, each from one
    /// freshly allocated frame, strictly before its entry is linked in.
    ///
    /// On success the whole chain for `vpn` maps to `frame`; every other
    /// chain translates exactly as before. On failure nothing reachable
    /// changes any translation: intermediate tables already created stay,
    /// but they are empty and map nothing.
    fn map_in(
        &mut self,
        level: u64,
        vpn: u64,
        frame: u64,
        writable: bool,
        frame_allocator: &mut BootInfoFrameAllocator,
    ) -> (r: Result<(), MapError>)
        requires
            wf_table(*old(self), level as int),
            1 <= level <= 4,
            old(frame_allocator).wf(),
            frame % PAGE_SIZE == 0,
        ensures
            wf_table(*final(self), level as int),
            final(frame_allocator).wf(),
            final(frame_allocator).spec_regions() == old(frame_allocator).spec_regions(),
            forall|vpn2: u64|
                !same_chain(vpn, vpn2, level as int) ==> spec_walk(
                    *final(self),
                    level as int,
                    vpn2,
                ) == spec_walk(*old(self), level as int, vpn2),
            (spec_walk(*old(self), level as int, vpn) is Unmapped && old(
                frame_allocator,
            ).frames_remaining() >= missing_tables(*old(self), level as int, vpn)) ==> r is Ok,
            match r {
                Ok(()) => {
                    &&& spec_walk(*old(self), level as int, vpn) is Unmapped
                    &&& forall|vpn2: u64|
                        same_chain(vpn, vpn2, level as int) ==> spec_walk(
                            *final(self),
                            level as int,
                            vpn2,
                        ) == WalkResult::Mapped(frame, writable)
                    &&& final(frame_allocator).spec_next() == old(frame_allocator).spec_next()
                        + missing_tables(*old(self), level as int, vpn)
                },
                Err(MapError::PageAlreadyMapped) => {
                    &&& spec_walk(*old(self), level as int, vpn) is Mapped
                    &&& forall|vpn2: u64|
                        spec_walk(*final(self), level as int, vpn2) == spec_walk(
                            *old(self),
                            level as int,
                            vpn2,
                        )
                    &&& final(frame_allocator).spec_next() == old(frame_allocator).spec_next()
                },
                Err(MapError::ParentEntryHugePage) => {
                    &&& spec_walk(*old(self), level as int, vpn) is HugePage
                    &&& forall|vpn2: u64|
                        spec_walk(*final(self), level as int, vpn2) == spec_walk(
                            *old(self),
                            level as int,
                            vpn2,
                        )
                    &&& final(frame_allocator).spec_next() == old(frame_allocator).spec_next()
                },
                Err(MapError::FrameAllocationFailed) => {
                    &&& spec_walk(*old(self), level as int, vpn) is Unmapped
                    &&& old(frame_allocator).frames_remaining() < missing_tables(
                        *old(self),
                        level as int,
                        vpn,
                    )
                    &&& final(frame_allocator).frames_remaining() == 0
                    &&& forall|vpn2: u64|
                        spec_walk(*final(self), level as int, vpn2) == spec_walk(
                            *old(self),
                            level as int,
                            vpn2,
                        )
                },
            },
        decreases level,
    {
        let ghost old_table = *self;
        let idx = entry_index(vpn, level);
        proof {
            assert(wf_entry(old_table.entries@[idx as int], level as int));
        }
        if level == 1 {
            let entry = take_entry(self, idx);
            match entry {
                PageTableEntry::Absent => {
                    self.entries[idx] = PageTableEntry::Frame(frame, writable);
                    proof {
                        assert(self.entries@ =~= old_table.entries@.update(
                            idx as int,
                            PageTableEntry::Frame(frame, writable),
                        ));
                        lemma_map_leaf_effect(old_table, *self, vpn, frame, writable);
                    }
                    Ok(())
                },
                PageTableEntry::Frame(f, w) => {
                    self.entries[idx] = PageTableEntry::Frame(f, w);
                    proof {
                        assert(self.entries@ =~= old_table.entries@);
                        lemma_walk_unchanged_all(old_table, *self, 1);
                    }
                    Err(MapError::PageAlreadyMapped)
                },
                PageTableEntry::Table(sub) => {
                    proof {
                        assert(false);
                    }
                    self.entries[idx] = PageTableEntry::Table(sub);
                    Err(MapError::PageAlreadyMapped)
                },
            }
        } else {
            let entry = take_entry(self, idx);
            match entry {
                PageTableEntry::Frame(f, w) => {
                    self.entries[idx] = PageTableEntry::Frame(f, w);
                    proof {
                        assert(self.entries@ =~= old_table.entries@);
                        lemma_walk_unchanged_all(old_table, *self, level as int);
                    }
                    Err(MapError::ParentEntryHugePage)
                },
                PageTableEntry::Table(mut sub) => {
                    let r = (&mut *sub).map_in(level - 1, vpn, frame, writable, frame_allocator);
                    let ghost sub_old = match old_table.entries@[idx as int] {
                        PageTableEntry::Table(s) => *s,
                        _ => arbitrary(),
                    };
                    let ghost sub_final = *sub;
                    self.entries[idx] = PageTableEntry::Table(sub);
                    proof {
                        let l = level as int;
                        assert(self.entries@ =~= old_table.entries@.update(
                            idx as int,
                            PageTableEntry::Table(Box::new(sub_final)),
                        ));
                        lemma_map_step_effect(old_table, *self, sub_old, sub_final, l, vpn);
                        assert forall|vpn2: u64| !same_chain(vpn, vpn2, l) implies spec_walk(
                            *self,
                            l,
                            vpn2,
                        ) == spec_walk(old_table, l, vpn2) by {
                            lemma_chain_decompose(vpn, vpn2, l);
                        }
                        if r is Ok {
                            assert forall|vpn2: u64| same_chain(vpn, vpn2, l) implies spec_walk(
                                *self,
                                l,
                                vpn2,
                            ) == WalkResult::Mapped(frame, writable) by {
                                lemma_chain_decompose(vpn, vpn2, l);
                            }
                        } else {
                            assert forall|vpn2: u64| true implies spec_walk(*self, l, vpn2)
                                == spec_walk(old_table, l, vpn2) by {
                                lemma_chain_decompose(vpn, vpn2, l);
                            }
                        }
                    }
                    r
                },
                PageTableEntry::Absent => {
                    match frame_allocator.allocate_frame() {
                        None => {
                            proof {
                                assert(self.entries@ =~= old_table.entries@);
                                lemma_walk_unchanged_all(old_table, *self, level as int);
                            }
                            Err(MapError::FrameAllocationFailed)
                        },
                        Some(_table_frame) => {
                            // The fresh frame backs the new table in real
                            // memory; the model keeps the table by ownership
                            // in the entry instead of by its physical
                            // address.
                            let mut sub = Box::new(new_table());
                            let ghost sub_empty = *sub;
                            let r = (&mut *sub).map_in(
                                level - 1,
                                vpn,
                                frame,
                                writable,
                                frame_allocator,
                            );
                            let ghost sub_final = *sub;
                            self.entries[idx] = PageTableEntry::Table(sub);
                            proof {
                                let l = level as int;
                                assert(self.entries@ =~= old_table.entries@.update(
                                    idx as int,
                                    PageTableEntry::Table(Box::new(sub_final)),
                                ));
                                lemma_empty_walk(sub_empty, l - 1, vpn);
                                lemma_map_create_effect(
                                    old_table,
                                    *self,
                                    sub_empty,
                                    sub_final,
                                    l,
                                    vpn,
                                );
                                assert forall|vpn2: u64| !same_chain(vpn, vpn2, l) implies
                                    spec_walk(*self, l, vpn2) == spec_walk(
                                    old_table,
                                    l,
                                    vpn2,
                                ) by {
                                    lemma_chain_decompose(vpn, vpn2, l);
                                    lemma_empty_walk(sub_empty, l - 1, vpn2);
                                }
                                if r is Ok {
                                    assert forall|vpn2: u64| same_chain(vpn, vpn2, l) implies
                                        spec_walk(*self, l, vpn2) == WalkResult::Mapped(
                                        frame,
                                        writable,
                                    ) by {
                                        lemma_chain_decompose(vpn, vpn2, l);
                                    }
                                } else {
                                    assert forall|vpn2: u64| true implies spec_walk(
                                        *self,
                                        l,
                                        vpn2,
                                    ) == spec_walk(old_table, l, vpn2) by {
                                        lemma_chain_decompose(vpn, vpn2, l);
                                        lemma_empty_walk(sub_empty, l - 1, vpn2);
                                    }
                                }
                            }
                            r
                        },
                    }
                },
            }
        }
    }
}

/// Writing the leaf entry for `vpn` maps exactly `vpn`'s chain and leaves
/// every other chain as it was.
proof fn lemma_map_leaf_effect(
    old_t: PageTable,
    new_t: PageTable,
    vpn: u64,
    frame: u64,
    writable: bool,
)
    requires
        old_t.entries@.len() == ENTRY_COUNT,
        new_t.entries@ == old_t.entries@.update(
            table_index(vpn, 1),
            PageTableEntry::Frame(frame, writable),
        ),
    ensures
        forall|vpn2: u64|
            same_chain(vpn, vpn2, 1) ==> spec_walk(new_t, 1, vpn2) == WalkResult::Mapped(
                frame,
                writable,
            ),
        forall|vpn2: u64|
            !same_chain(vpn, vpn2, 1) ==> spec_walk(new_t, 1, vpn2) == spec_walk(old_t, 1, vpn2),
{
    lemma_table_index_bound(vpn, 1);
    assert forall|vpn2: u64| same_chain(vpn, vpn2, 1) implies spec_walk(new_t, 1, vpn2)
        == WalkResult::Mapped(frame, writable) by {
        lemma_chain_decompose(vpn, vpn2, 1);
        lemma_table_index_bound(vpn2, 1);
    }
    assert forall|vpn2: u64| !same_chain(vpn, vpn2, 1) implies spec_walk(new_t, 1, vpn2)
        == spec_walk(old_t, 1, vpn2) by {
        lemma_chain_decompose(vpn, vpn2, 1);
        lemma_same_chain_zero(vpn, vpn2);
        lemma_table_index_bound(vpn2, 1);
    }
}

/// Two tables with equal entries walk every page number alike.
proof fn lemma_walk_unchanged_all(old_t: PageTable, new_t: PageTable, level: int)
    requires
        new_t.entries@ == old_t.entries@,
    ensures
        forall|vpn2: u64|
            spec_walk(new_t, level, vpn2) == spec_walk(old_t, level, vpn2),
{
    assert forall|vpn2: u64| spec_walk(new_t, level, vpn2) == spec_walk(old_t, level, vpn2) by {
        lemma_walk_congruent(new_t, old_t, level, vpn2);
    }
}

/// Replacing the subtable on `vpn`'s chain changes only what the subtable
/// change changes: chains sharing `vpn`'s entry walk into the new subtable,
/// all others are untouched.
proof fn lemma_map_step_effect(
    old_t: PageTable,
    new_t: PageTable,
    sub_old: PageTable,
    sub_final: PageTable,
    level: int,
    vpn: u64,
)
    requires
        2 <= level,
        old_t.entries@.len() == ENTRY_COUNT,
        old_t.entries@[table_index(vpn, level)] matches PageTableEntry::Table(s) && *s == sub_old,
        new_t.entries@ == old_t.entries@.update(
            table_index(vpn, level),
            PageTableEntry::Table(Box::new(sub_final)),
        ),
    ensures
        forall|vpn2: u64|
            same_chain(vpn, vpn2, level) ==> spec_walk(new_t, level, vpn2) == spec_walk(
                sub_final,
                level - 1,
                vpn2,
            ) && spec_walk(old_t, level, vpn2) == spec_walk(sub_old, level - 1, vpn2),
        forall|vpn2: u64|
            !same_chain(vpn, vpn2, level) && same_chain(vpn, vpn2, level - 1) ==> spec_walk(
                new_t,
                level,
                vpn2,
            ) == spec_walk(old_t, level, vpn2),
        forall|vpn2: u64|
            !same_chain(vpn, vpn2, level - 1) ==> (spec_walk(new_t, level, vpn2) == spec_walk(
                sub_final,
                level - 1,
                vpn2,
            ) && spec_walk(old_t, level, vpn2) == spec_walk(sub_old, level - 1, vpn2)) || (
            spec_walk(new_t, level, vpn2) == spec_walk(old_t, level, vpn2)),
        spec_walk(old_t, level, vpn) == spec_walk(sub_old, level - 1, vpn),
        missing_tables(old_t, level, vpn) == missing_tables(sub_old, level - 1, vpn),
{
    lemma_table_index_bound(vpn, level);
    assert forall|vpn2: u64| true implies {
        if table_index(vpn2, level) == table_index(vpn, level) {
            spec_walk(new_t, level, vpn2) == spec_walk(sub_final, level - 1, vpn2) && spec_walk(
                old_t,
                level,
                vpn2,
            ) == spec_walk(sub_old, level - 1, vpn2)
        } else {
            spec_walk(new_t, level, vpn2) == spec_walk(old_t, level, vpn2)
        }
    } by {
        lemma_table_index_bound(vpn2, level);
    }
    assert forall|vpn2: u64| same_chain(vpn, vpn2, level) implies table_index(vpn2, level)
        == table_index(vpn, level) by {
        lemma_chain_decompose(vpn, vpn2, level);
    }
    assert forall|vpn2: u64|
        !same_chain(vpn, vpn2, level) && same_chain(vpn, vpn2, level - 1) implies table_index(
        vpn2,
        level,
    ) != table_index(vpn, level) by {
        lemma_chain_decompose(vpn, vpn2, level);
    }
}

/// Linking a fresh subtable into an absent entry on `vpn`'s chain: chains
/// sharing the entry walk into the new subtable, all others still find what
/// they found before.
proof fn lemma_map_create_effect(
    old_t: PageTable,
    new_t: PageTable,
    sub_empty: PageTable,
    sub_final: PageTable,
    level: int,
    vpn: u64,
)
    requires
        2 <= level,
        old_t.entries@.len() == ENTRY_COUNT,
        old_t.entries@[table_index(vpn, level)] is Absent,
        new_t.entries@ == old_t.entries@.update(
            table_index(vpn, level),
            PageTableEntry::Table(Box::new(sub_final)),
        ),
    ensures
        forall|vpn2: u64|
            table_index(vpn2, level) == table_index(vpn, level) ==> spec_walk(new_t, level, vpn2)
                == spec_walk(sub_final, level - 1, vpn2) && spec_walk(old_t, level, vpn2)
                is Unmapped,
        forall|vpn2: u64|
            table_index(vpn2, level) != table_index(vpn, level) ==> spec_walk(new_t, level, vpn2)
                == spec_walk(old_t, level, vpn2),
        forall|vpn2: u64|
            same_chain(vpn, vpn2, level) ==> table_index(vpn2, level) == table_index(vpn, level),
        forall|vpn2: u64|
            !same_chain(vpn, vpn2, level) && same_chain(vpn, vpn2, level - 1) ==> table_index(
                vpn2,
                level,
            ) != table_index(vpn, level),
        spec_walk(old_t, level, vpn) is Unmapped,
        missing_tables(old_t, level, vpn) == level - 1,
{
    lemma_table_index_bound(vpn, level);
    assert forall|vpn2: u64| true implies #[trigger] table_index(vpn2, level) < 512 && 0
        <= table_index(vpn2, level) by {
        lemma_table_index_bound(vpn2, level);
    }
    assert forall|vpn2: u64| same_chain(vpn, vpn2, level) implies table_index(vpn2, level)
        == table_index(vpn, level) by {
        lemma_chain_decompose(vpn, vpn2, level);
    }
    assert forall|vpn2: u64|
        !same_chain(vpn, vpn2, level) && same_chain(vpn, vpn2, level - 1) implies table_index(
        vpn2,
        level,
    ) != table_index(vpn, level) by {
        lemma_chain_decompose(vpn, vpn2, level);
    }
}

/// A map never needs a negative number of tables, and at most one per
/// level below the one it starts from.
pub proof fn lemma_missing_tables_bounds(t: PageTable, level: int, vpn: u64)
    ensures
        0 <= missing_tables(t, level, vpn),
        missing_tables(t, level, vpn) <= if level <= 1 {
            0
        } else {
            level - 1
        },
    decreases level,
{
    if level > 1 {
        match t.entries@[table_index(vpn, level)] {
            PageTableEntry::Table(sub) => {
                lemma_missing_tables_bounds(*sub, level - 1, vpn);
            },
            _ => {},
        }
    }
}

/// Whether a walk result is a present, writable mapping.
pub open spec fn mapped_writable(r: WalkResult) -> bool {
    r matches WalkResult::Mapped(f, w) && w
}

/// The frame a walk result maps to, where it maps at all.
pub open spec fn frame_of(r: WalkResult) -> u64 {
    match r {
        WalkResult::Mapped(f, _) => f,
        WalkResult::Unmapped => 0,
        WalkResult::HugePage => 0,
    }
}

/// Whether `frame` is one of the first `count` frames the memory map
/// yields: the provenance of a frame handed out by the frame allocator.
pub open spec fn frame_from(regions: Seq<MemoryRegion>, count: int, frame: u64) -> bool {
    exists|k: int| 0 <= k < count && frame == spec_frame_at(regions, k)
}

/// A frame drawn among the first `b1` frames is also among the first `b2`
/// once `b1 <= b2`.
pub proof fn lemma_frame_from_widen(regions: Seq<MemoryRegion>, b1: int, b2: int, frame: u64)
    requires
        frame_from(regions, b1, frame),
        b1 <= b2,
    ensures
        frame_from(regions, b2, frame),
{
    let k = choose|k: int| 0 <= k < b1 && frame == spec_frame_at(regions, k);
    assert(0 <= k < b2 && frame == spec_frame_at(regions, k));
}

/// Distinct page numbers within the four-level address space never share
/// their whole chain of entries.
pub proof fn lemma_distinct_vpn_chain(vpn1: u64, vpn2: u64)
    requires
        vpn1 != vpn2,
        vpn1 < 68719476736,
        vpn2 < 68719476736,
    ensures
        !same_chain(vpn1, vpn2, 4),
{
    lemma_pow512_values();
    lemma_small_mod(vpn1 as nat, 68719476736);
    lemma_small_mod(vpn2 as nat, 68719476736);
}

impl PageTables {
    /// Maps the 4 KiB page at `page` to the physical frame at `frame`,
    /// walking the four levels from the root and creating each missing
    /// intermediate table from a freshly allocated frame — allocated
    /// strictly before the child entry is wired in, so no present entry
    /// ever points at garbage.
    ///
    /// Succeeds exactly when the page is yet unmapped, no huge page stands
    /// on its walk, and the frame allocator can still cover the missing
    /// intermediate tables; every other address translates afterwards
    /// exactly as before, whether the call succeeded or failed.
    pub fn map(
        &mut self,
        page: u64,
        frame: u64,
        writable: bool,
        frame_allocator: &mut BootInfoFrameAllocator,
    ) -> (r: Result<(), MapError>)
        requires
            old(self).wf(),
            old(frame_allocator).wf(),
            page % PAGE_SIZE == 0,
            frame % PAGE_SIZE == 0,
        ensures
            final(self).wf(),
            final(frame_allocator).wf(),
            final(frame_allocator).spec_regions() == old(frame_allocator).spec_regions(),
            forall|address: u64|
                !same_chain(page / PAGE_SIZE, address / PAGE_SIZE, 4) ==> final(self).spec_translate(address) == old(self).spec_translate(address),
            (old(self).spec_translate(page) is Unmapped && old(
                frame_allocator,
            ).frames_remaining() >= missing_tables(old(self).root, 4, page / PAGE_SIZE)) ==> r
                is Ok,
            match r {
                Ok(()) => {
                    &&& old(self).spec_translate(page) is Unmapped
                    &&& forall|address: u64|
                        same_chain(page / PAGE_SIZE, address / PAGE_SIZE, 4) ==> final(self).spec_translate(address) == WalkResult::Mapped(frame, writable)
                    &&& final(frame_allocator).spec_next() == old(frame_allocator).spec_next()
                        + missing_tables(old(self).root, 4, page / PAGE_SIZE)
                },
                Err(MapError::PageAlreadyMapped) => {
                    &&& old(self).spec_translate(page) is Mapped
                    &&& forall|address: u64|
                        final(self).spec_translate(address) == old(self).spec_translate(address)
                    &&& final(frame_allocator).spec_next() == old(frame_allocator).spec_next()
                },
                Err(MapError::ParentEntryHugePage) => {
                    &&& old(self).spec_translate(page) is HugePage
                    &&& forall|address: u64|
                        final(self).spec_translate(address) == old(self).spec_translate(address)
                    &&& final(frame_allocator).spec_next() == old(frame_allocator).spec_next()
                },
                Err(MapError::FrameAllocationFailed) => {
                    &&& old(self).spec_translate(page) is Unmapped
                    &&& old(frame_allocator).frames_remaining() < missing_tables(
                        old(self).root,
                        4,
                        page / PAGE_SIZE,
                    )
                    &&& final(frame_allocator).frames_remaining() == 0
                    &&& forall|address: u64|
                        final(self).spec_translate(address) == old(self).spec_translate(address)
                },
            },
    {
        let vpn = page / PAGE_SIZE;
        self.root.map_in(4, vpn, frame, writable, frame_allocator)
    }
}

/// Translates a virtual address to the physical address its page maps to:
/// the read-only four-level walk. `Ok(None)` reports an unmapped address; a
/// huge-page entry on the walk is a fatal configuration error, reported as
/// `Err` — this design never produces huge pages and refuses to translate
/// through one rather than risk a mistranslation.
pub fn translate_address(page_tables: &PageTables, address: u64) -> (r: Result<
    Option<u64>,
    TranslateError,
>)
    requires
        page_tables.wf(),
    ensures
        match page_tables.spec_translate(address) {
            WalkResult::Mapped(f, w) => r == Ok::<Option<u64>, TranslateError>(
                Some((f + address % PAGE_SIZE) as u64),
            ),
            WalkResult::Unmapped => r == Ok::<Option<u64>, TranslateError>(None),
            WalkResult::HugePage => r == Err::<Option<u64>, TranslateError>(
                TranslateError::HugePage,
            ),
        },
{
    let vpn = address / PAGE_SIZE;
    match lookup_in(&page_tables.root, 4, vpn) {
        Ok(Some((frame, _writable))) => {
            proof {
                lemma_walk_mapped_aligned(page_tables.root, 4, vpn);
                lemma_frame_offset_fits(frame);
                lemma_mod_division_less_than_divisor(address as int, PAGE_SIZE as int);
            }
            Ok(Some(frame + address % PAGE_SIZE))
        },
        Ok(None) => Ok(None),
        Err(e) => Err(e),
    }
}

/// Translation correctness, at the level of byte addresses: every address
/// inside a page whose walk maps it to `frame` translates to `frame` plus
/// the address's offset within the page — never to a stale or unrelated
/// frame — and the offset arithmetic agrees with the distance from the
/// page's start.
pub proof fn lemma_translation_correctness(
    page_tables: PageTables,
    page: u64,
    frame: u64,
    writable: bool,
    address: u64,
)
    requires
        page_tables.wf(),
        page % PAGE_SIZE == 0,
        page <= address < page + PAGE_SIZE,
        page_tables.spec_translate(page) == WalkResult::Mapped(frame, writable),
    ensures
        page_tables.spec_translate(address) == WalkResult::Mapped(frame, writable),
        address % PAGE_SIZE == address - page,
        frame + address % PAGE_SIZE <= u64::MAX,
{
    let p = PAGE_SIZE as int;
    lemma_fundamental_div_mod(page as int, p);
    let h = page as int / p;
    assert(page as int == p * h);
    vstd::arithmetic::div_mod::lemma_fundamental_div_mod_converse(
        address as int,
        p,
        h,
        address as int - page as int,
    );
    lemma_walk_mapped_aligned(page_tables.root, 4, page as u64 / PAGE_SIZE);
    lemma_frame_offset_fits(frame);
}

} // verus!
