//! An explicit model of a span of writable process memory: the raw bytes
//! starting at a base address. The patching engine reads and writes process
//! memory only through this type, so every byte it touches is accounted for.

use vstd::bytes::{
    lemma_auto_spec_u32_to_from_le_bytes, spec_u32_from_le_bytes, spec_u32_to_le_bytes,
};
use vstd::prelude::*;

verus! {

/// The signed 32-bit value encoded little-endian in the four bytes `s`.
pub open spec fn spec_disp_value(s: Seq<u8>) -> int
    recommends
        s.len() == 4,
{
    let u = spec_u32_from_le_bytes(s);
    if u < 0x8000_0000 {
        u as int
    } else {
        u - 0x1_0000_0000
    }
}

/// The four little-endian bytes encoding the signed 32-bit value `d`.
pub open spec fn spec_disp_bytes(d: int) -> Seq<u8>
    recommends
        -0x8000_0000 <= d < 0x8000_0000,
{
    spec_u32_to_le_bytes(
        if d >= 0 {
            d as u32
        } else {
            (d + 0x1_0000_0000) as u32
        },
    )
}

/// Decoding a displacement that was just encoded yields the value back.
pub proof fn lemma_disp_round_trip(d: int)
    requires
        -0x8000_0000 <= d < 0x8000_0000,
    ensures
        spec_disp_value(spec_disp_bytes(d)) == d,
{
    lemma_auto_spec_u32_to_from_le_bytes();
    if d >= 0 {
        let enc = d as u32;
        assert(spec_u32_to_le_bytes(enc).len() == 4);
        assert(spec_u32_from_le_bytes(spec_u32_to_le_bytes(enc)) == enc);
        assert(enc < 0x8000_0000);
    } else {
        let enc = (d + 0x1_0000_0000) as u32;
        assert(spec_u32_to_le_bytes(enc).len() == 4);
        assert(spec_u32_from_le_bytes(spec_u32_to_le_bytes(enc)) == enc);
        assert(enc as int == d + 0x1_0000_0000);
        assert(enc >= 0x8000_0000);
    }
}


/// The bytes of `m` after `x` has been written at offset `off`.
pub open spec fn write_bytes(m: Seq<u8>, off: int, x: Seq<u8>) -> Seq<u8> {
    Seq::new(
        m.len(),
        |i: int|
            if off <= i < off + x.len() {
                x[i - off]
            } else {
                m[i]
            },
    )
}

/// A span of writable process memory.
pub struct ProcessMemory {
    base: usize,
    bytes: Vec<u8>,
}

impl ProcessMemory {
    /// The address of the first byte of the span.
    pub closed spec fn spec_base(self) -> int {
        self.base as int
    }

    /// The bytes of the span.
    pub closed spec fn contents(self) -> Seq<u8> {
        self.bytes@
    }

    /// Addresses inside the span never wrap around the address space.
    pub open spec fn wf(self) -> bool {
        self.spec_base() + self.contents().len() <= usize::MAX
    }

    /// Whether the address range `[addr, addr + len)` lies inside the span.
    pub open spec fn in_range(self, addr: int, len: int) -> bool {
        self.spec_base() <= addr && addr + len <= self.spec_base() + self.contents().len()
    }

    pub fn new(base: usize, bytes: Vec<u8>) -> (r: ProcessMemory)
        requires
            base + bytes@.len() <= usize::MAX,
        ensures
            r.wf(),
            r.spec_base() == base,
            r.contents() == bytes@,
    {
        ProcessMemory { base, bytes }
    }

    pub fn base(&self) -> (r: usize)
        ensures
            r == self.spec_base(),
    {
        self.base
    }

    pub fn len(&self) -> (r: usize)
        ensures
            r == self.contents().len(),
    {
        self.bytes.len()
    }

    /// Copies `len` bytes starting at the absolute address `addr`.
    pub fn read_bytes(&self, addr: usize, len: usize) -> (r: Vec<u8>)
        requires
            self.wf(),
            self.in_range(addr as int, len as int),
        ensures
            r@ == self.contents().subrange(
                addr - self.spec_base(),
                addr - self.spec_base() + len,
            ),
    {
        let off = addr - self.base;
        let mut out: Vec<u8> = Vec::new();
        let mut k: usize = 0;
        while k < len
            invariant
                self.wf(),
                self.in_range(addr as int, len as int),
                off == addr - self.spec_base(),
                k <= len,
                out@ =~= self.contents().subrange(off as int, off + k),
            decreases len - k,
        {
            out.push(self.bytes[off + k]);
            proof {
                assert(out@ =~= self.contents().subrange(off as int, off + k + 1));
            }
            k += 1;
        }
        proof {
            assert(out@ =~= self.contents().subrange(
                addr - self.spec_base(),
                addr - self.spec_base() + len,
            ));
        }
        out
    }

    /// Overwrites the bytes at the absolute address `addr` with `data`.
    pub fn write(&mut self, addr: usize, data: &[u8])
        requires
            old(self).wf(),
            old(self).in_range(addr as int, data@.len() as int),
        ensures
            final(self).wf(),
            final(self).spec_base() == old(self).spec_base(),
            final(self).contents() == write_bytes(
                old(self).contents(),
                addr - old(self).spec_base(),
                data@,
            ),
    {
        let off = addr - self.base;
        let len = data.len();
        let mut k: usize = 0;
        while k < len
            invariant
                self.wf(),
                self.spec_base() == old(self).spec_base(),
                self.contents().len() == old(self).contents().len(),
                off == addr - self.spec_base(),
                len == data@.len(),
                off + len <= self.contents().len(),
                k <= len,
                forall|i: int|
                    0 <= i < self.contents().len() && !(off <= i < off + k) ==> self.contents()[i]
                        == old(self).contents()[i],
                forall|i: int| off <= i < off + k ==> self.contents()[i] == data@[i - off],
            decreases len - k,
        {
            self.bytes[off + k] = data[k];
            k += 1;
        }
        proof {
            assert(final(self).contents() =~= write_bytes(
                old(self).contents(),
                addr - old(self).spec_base(),
                data@,
            ));
        }
    }
}

} // verus!
