//! The byte contents of the mapped heap region.
//!
//! The allocator strategies hand out addresses; this module models what is
//! stored at them, so that writing a value through an allocated address and
//! reading it back can be reasoned about. The region is a run of bytes at a
//! fixed base address; multi-byte values are stored little-endian, as the
//! target hardware stores them.

use vstd::prelude::*;

verus! {

/// The bytes of one contiguous region of the virtual address space,
/// starting at `base`.
pub struct HeapData {
    base: u64,
    bytes: Vec<u8>,
}

/// The byte that a little-endian store of `v` places at offset `k`.
pub open spec fn u64_le_byte(v: u64, k: int) -> u8 {
    if k == 0 {
        v as u8
    } else if k == 1 {
        (v >> 8) as u8
    } else if k == 2 {
        (v >> 16) as u8
    } else if k == 3 {
        (v >> 24) as u8
    } else if k == 4 {
        (v >> 32) as u8
    } else if k == 5 {
        (v >> 40) as u8
    } else if k == 6 {
        (v >> 48) as u8
    } else {
        (v >> 56) as u8
    }
}

/// The bytes after a little-endian store of `v` at offset `off`.
pub open spec fn spec_write_u64(s: Seq<u8>, off: int, v: u64) -> Seq<u8> {
    s.update(off, u64_le_byte(v, 0)).update(off + 1, u64_le_byte(v, 1)).update(
        off + 2,
        u64_le_byte(v, 2),
    ).update(off + 3, u64_le_byte(v, 3)).update(off + 4, u64_le_byte(v, 4)).update(
        off + 5,
        u64_le_byte(v, 5),
    ).update(off + 6, u64_le_byte(v, 6)).update(off + 7, u64_le_byte(v, 7))
}

/// The value a little-endian load at offset `off` combines from the bytes.
pub open spec fn spec_read_u64(s: Seq<u8>, off: int) -> u64 {
    (s[off] as u64) | (s[off + 1] as u64) << 8 | (s[off + 2] as u64) << 16 | (s[off + 3] as u64)
        << 24 | (s[off + 4] as u64) << 32 | (s[off + 5] as u64) << 40 | (s[off + 6] as u64) << 48
        | (s[off + 7] as u64) << 56
}

impl HeapData {
    /// The base address of the region.
    pub closed spec fn spec_base(self) -> int {
        self.base as int
    }

    /// The bytes of the region, in address order.
    pub closed spec fn view(self) -> Seq<u8> {
        self.bytes@
    }

    /// One past the last address of the region.
    pub open spec fn spec_end(self) -> int {
        self.spec_base() + self.view().len()
    }

    /// The region does not wrap around the address space.
    pub open spec fn wf(self) -> bool {
        self.spec_end() <= u64::MAX + 1
    }

    /// Whether `[addr, addr + count)` lies inside the region.
    pub open spec fn contains(self, addr: u64, count: int) -> bool {
        self.spec_base() <= addr && addr + count <= self.spec_end()
    }

    /// Creates a zero-filled region of `size` bytes starting at `base`.
    pub fn new(base: u64, size: u64) -> (r: Self)
        requires
            base + size <= u64::MAX,
            size <= usize::MAX,
        ensures
            r.wf(),
            r.spec_base() == base,
            r.view().len() == size,
            forall|i: int| 0 <= i < size ==> r.view()[i] == 0u8,
    {
        let mut bytes: Vec<u8> = Vec::new();
        let count: usize = size as usize;
        while bytes.len() < count
            invariant
                bytes@.len() <= count,
                forall|i: int| 0 <= i < bytes@.len() ==> bytes@[i] == 0u8,
            decreases count - bytes.len(),
        {
            bytes.push(0);
        }
        HeapData { base, bytes }
    }

    /// Reads the byte at `addr`.
    pub fn read_byte(&self, addr: u64) -> (r: u8)
        requires
            self.contains(addr, 1),
        ensures
            r == self.view()[addr - self.spec_base()],
    {
        let n = self.bytes.len();
        let offset = (addr - self.base) as usize;
        self.bytes[offset]
    }

    /// Writes the byte `v` at `addr`.
    pub fn write_byte(&mut self, addr: u64, v: u8)
        requires
            old(self).contains(addr, 1),
        ensures
            final(self).spec_base() == old(self).spec_base(),
            final(self).view() == old(self).view().update(addr - old(self).spec_base(), v),
    {
        let n = self.bytes.len();
        let offset = (addr - self.base) as usize;
        self.bytes[offset] = v;
    }

    /// Stores `v` little-endian in the eight bytes at `addr`.
    pub fn write_u64(&mut self, addr: u64, v: u64)
        requires
            old(self).wf(),
            old(self).contains(addr, 8),
        ensures
            final(self).spec_base() == old(self).spec_base(),
            final(self).view() == spec_write_u64(
                old(self).view(),
                addr - old(self).spec_base(),
                v,
            ),
    {
        self.write_byte(addr, #[verifier::truncate] (v as u8));
        self.write_byte(addr + 1, #[verifier::truncate] ((v >> 8) as u8));
        self.write_byte(addr + 2, #[verifier::truncate] ((v >> 16) as u8));
        self.write_byte(addr + 3, #[verifier::truncate] ((v >> 24) as u8));
        self.write_byte(addr + 4, #[verifier::truncate] ((v >> 32) as u8));
        self.write_byte(addr + 5, #[verifier::truncate] ((v >> 40) as u8));
        self.write_byte(addr + 6, #[verifier::truncate] ((v >> 48) as u8));
        self.write_byte(addr + 7, #[verifier::truncate] ((v >> 56) as u8));
        proof {
            assert(self.bytes@ =~= spec_write_u64(
                old(self).view(),
                addr - old(self).spec_base(),
                v,
            ));
        }
    }

    /// Loads the little-endian value of the eight bytes at `addr`.
    pub fn read_u64(&self, addr: u64) -> (r: u64)
        requires
            self.wf(),
            self.contains(addr, 8),
        ensures
            r == spec_read_u64(self.view(), addr - self.spec_base()),
    {
        let b0 = self.read_byte(addr) as u64;
        let b1 = self.read_byte(addr + 1) as u64;
        let b2 = self.read_byte(addr + 2) as u64;
        let b3 = self.read_byte(addr + 3) as u64;
        let b4 = self.read_byte(addr + 4) as u64;
        let b5 = self.read_byte(addr + 5) as u64;
        let b6 = self.read_byte(addr + 6) as u64;
        let b7 = self.read_byte(addr + 7) as u64;
        b0 | b1 << 8 | b2 << 16 | b3 << 24 | b4 << 32 | b5 << 40 | b6 << 48 | b7 << 56
    }
}

/// Round-trip store and read: a value stored at any in-bounds address reads
/// back unchanged, and no byte outside the stored eight changes.
pub proof fn lemma_store_read_round_trip(s: Seq<u8>, off: int, v: u64)
    requires
        0 <= off,
        off + 8 <= s.len(),
    ensures
        spec_read_u64(spec_write_u64(s, off, v), off) == v,
        spec_write_u64(s, off, v).len() == s.len(),
        forall|i: int| 0 <= i < s.len() && !(off <= i < off + 8) ==> spec_write_u64(s, off, v)[i]
            == s[i],
{
    let w = spec_write_u64(s, off, v);
    assert(w[off] == u64_le_byte(v, 0));
    assert(w[off + 1] == u64_le_byte(v, 1));
    assert(w[off + 2] == u64_le_byte(v, 2));
    assert(w[off + 3] == u64_le_byte(v, 3));
    assert(w[off + 4] == u64_le_byte(v, 4));
    assert(w[off + 5] == u64_le_byte(v, 5));
    assert(w[off + 6] == u64_le_byte(v, 6));
    assert(w[off + 7] == u64_le_byte(v, 7));
    assert(((v as u8) as u64) | (((v >> 8) as u8) as u64) << 8 | (((v >> 16) as u8) as u64) << 16
        | (((v >> 24) as u8) as u64) << 24 | (((v >> 32) as u8) as u64) << 32 | (((v >> 40) as u8)
        as u64) << 40 | (((v >> 48) as u8) as u64) << 48 | (((v >> 56) as u8) as u64) << 56 == v)
        by (bit_vector);
}

} // verus!
