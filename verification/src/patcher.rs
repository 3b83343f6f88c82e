//! The binary patch ledger: applies raw byte overwrites to process memory and
//! guarantees that every patched address can be reverted to its true original
//! bytes, however many times it was re-patched. Outstanding patches are
//! reverted in reverse insertion order on teardown.

use crate::memory::{
    lemma_disp_round_trip, spec_disp_bytes, spec_disp_value, write_bytes, ProcessMemory,
};
use vstd::bytes::{u32_from_le_bytes, u32_to_le_bytes};
use vstd::prelude::*;

verus! {

/// The original bytes recorded for `addr`, if the ledger holds an entry for it.
pub open spec fn find_entry(l: Seq<(int, Seq<u8>)>, addr: int) -> Option<Seq<u8>>
    decreases l.len(),
{
    if l.len() == 0 {
        None
    } else if l[0].0 == addr {
        Some(l[0].1)
    } else {
        find_entry(l.drop_first(), addr)
    }
}

/// Whether the ledger holds an entry for `addr`.
pub open spec fn has_entry(l: Seq<(int, Seq<u8>)>, addr: int) -> bool {
    find_entry(l, addr) is Some
}

/// The ledger with the entry for `addr` removed, if present.
pub open spec fn remove_entry(l: Seq<(int, Seq<u8>)>, addr: int) -> Seq<(int, Seq<u8>)>
    decreases l.len(),
{
    if l.len() == 0 {
        l
    } else if l[0].0 == addr {
        l.drop_first()
    } else {
        seq![l[0]] + remove_entry(l.drop_first(), addr)
    }
}

/// The ledger after a patch at `addr` whose pre-patch bytes were `orig`:
/// the first-seen original bytes win, a re-patch records nothing new.
pub open spec fn record_patch(l: Seq<(int, Seq<u8>)>, addr: int, orig: Seq<u8>) -> Seq<
    (int, Seq<u8>),
> {
    if has_entry(l, addr) {
        l
    } else {
        l.push((addr, orig))
    }
}

/// Memory contents after every ledger entry has been restored, newest first.
pub open spec fn spec_restore(m: Seq<u8>, base: int, l: Seq<(int, Seq<u8>)>) -> Seq<u8>
    decreases l.len(),
{
    if l.len() == 0 {
        m
    } else {
        spec_restore(write_bytes(m, l.last().0 - base, l.last().1), base, l.drop_last())
    }
}

proof fn lemma_find_entry_at(l: Seq<(int, Seq<u8>)>, addr: int, i: int)
    requires
        0 <= i < l.len(),
        l[i].0 == addr,
        forall|j: int| 0 <= j < i ==> l[j].0 != addr,
    ensures
        find_entry(l, addr) == Some(l[i].1),
        remove_entry(l, addr) =~= l.remove(i),
    decreases i,
{
    if i == 0 {
        assert(remove_entry(l, addr) =~= l.remove(0));
    } else {
        lemma_find_entry_at(l.drop_first(), addr, i - 1);
        assert(seq![l[0]] + l.drop_first().remove(i - 1) =~= l.remove(i));
    }
}

proof fn lemma_find_entry_none(l: Seq<(int, Seq<u8>)>, addr: int)
    requires
        forall|j: int| 0 <= j < l.len() ==> l[j].0 != addr,
    ensures
        find_entry(l, addr) is None,
    decreases l.len(),
{
    if l.len() > 0 {
        lemma_find_entry_none(l.drop_first(), addr);
    }
}

/// One recorded patch: the target address and the bytes that stood there
/// before the first patch at that address.
pub struct Patch {
    address: usize,
    original_bytes: Vec<u8>,
}

impl Patch {
    pub closed spec fn spec_address(self) -> int {
        self.address as int
    }

    pub closed spec fn spec_original_bytes(self) -> Seq<u8> {
        self.original_bytes@
    }

    pub fn address(&self) -> (r: usize)
        ensures
            r == self.spec_address(),
    {
        self.address
    }

    /// The bytes that stood at the address before the first patch there.
    pub fn original_bytes(&self) -> (r: &[u8])
        ensures
            r@ == self.spec_original_bytes(),
    {
        self.original_bytes.as_slice()
    }
}

/// The ledger of raw-byte patches applied to process memory.
pub struct Patcher {
    patches: Vec<Patch>,
}

impl Patcher {
    /// The ledger in insertion order: address and first-seen original bytes.
    pub closed spec fn ledger(self) -> Seq<(int, Seq<u8>)> {
        self.patches@.map_values(|p: Patch| (p.spec_address(), p.spec_original_bytes()))
    }

    /// No address is recorded twice.
    pub open spec fn wf(self) -> bool {
        forall|i: int, j: int|
            0 <= i < j < self.ledger().len() ==> (#[trigger] self.ledger()[i]).0 != (
            #[trigger] self.ledger()[j]).0
    }

    /// Every recorded entry lies inside `mem`.
    pub open spec fn entries_in_range(self, mem: ProcessMemory) -> bool {
        forall|i: int|
            0 <= i < self.ledger().len() ==> mem.in_range(
                (#[trigger] self.ledger()[i]).0,
                self.ledger()[i].1.len() as int,
            )
    }

    pub fn new() -> (r: Patcher)
        ensures
            r.wf(),
            r.ledger() =~= Seq::<(int, Seq<u8>)>::empty(),
    {
        Patcher { patches: Vec::new() }
    }

    fn find_index(&self, address: usize) -> (r: Option<usize>)
        ensures
            match r {
                Some(i) => 0 <= i < self.ledger().len() && self.ledger()[i as int].0 == address
                    && forall|j: int| 0 <= j < i ==> (#[trigger] self.ledger()[j]).0 != address,
                None => forall|j: int|
                    0 <= j < self.ledger().len() ==> (#[trigger] self.ledger()[j]).0 != address,
            },
    {
        let mut i: usize = 0;
        while i < self.patches.len()
            invariant
                i <= self.ledger().len(),
                self.ledger().len() == self.patches@.len(),
                forall|j: int| 0 <= j < i ==> (#[trigger] self.ledger()[j]).0 != address,
            decreases self.patches@.len() - i,
        {
            if self.patches[i].address == address {
                return Some(i);
            }
            i += 1;
        }
        None
    }

    /// The length of the original bytes recorded for `address`, if any.
    pub fn recorded_len(&self, address: usize) -> (r: Option<usize>)
        ensures
            match find_entry(self.ledger(), address as int) {
                Some(o) => r == Some(o.len() as usize) && o.len() <= usize::MAX,
                None => r is None,
            },
    {
        match self.find_index(address) {
            Some(i) => {
                proof {
                    lemma_find_entry_at(self.ledger(), address as int, i as int);
                }
                Some(self.patches[i].original_bytes.len())
            },
            None => {
                proof {
                    lemma_find_entry_none(self.ledger(), address as int);
                }
                None
            },
        }
    }

    /// Writes `bytes` at `ptr` without recording anything in the ledger.
    pub fn safe_write(&self, mem: &mut ProcessMemory, ptr: usize, bytes: &[u8])
        requires
            old(mem).wf(),
            old(mem).in_range(ptr as int, bytes@.len() as int),
        ensures
            final(mem).wf(),
            final(mem).spec_base() == old(mem).spec_base(),
            final(mem).contents().len() == old(mem).contents().len(),
            final(mem).contents() == write_bytes(
                old(mem).contents(),
                ptr - old(mem).spec_base(),
                bytes@,
            ),
    {
        mem.write(ptr, bytes);
    }

    /// Overwrites the bytes at `address` with `bytes` and records the bytes
    /// that stood there, unless an earlier patch at the same address already
    /// recorded them: the first-seen original bytes are preserved, so a later
    /// `unpatch` restores the true pre-instrumentation bytes.
    pub fn patch(&mut self, mem: &mut ProcessMemory, address: usize, bytes: &[u8])
        requires
            old(self).wf(),
            old(mem).wf(),
            old(mem).in_range(address as int, bytes@.len() as int),
            find_entry(old(self).ledger(), address as int) matches Some(o) ==> o.len()
                == bytes@.len(),
        ensures
            final(self).wf(),
            final(mem).wf(),
            final(mem).spec_base() == old(mem).spec_base(),
            final(mem).contents().len() == old(mem).contents().len(),
            final(mem).contents() == write_bytes(
                old(mem).contents(),
                address - old(mem).spec_base(),
                bytes@,
            ),
            final(self).ledger() == record_patch(
                old(self).ledger(),
                address as int,
                old(mem).contents().subrange(
                    address - old(mem).spec_base(),
                    address - old(mem).spec_base() + bytes@.len(),
                ),
            ),
            old(self).entries_in_range(*old(mem)) ==> final(self).entries_in_range(*final(mem)),
    {
        match self.find_index(address) {
            Some(i) => {
                proof {
                    lemma_find_entry_at(self.ledger(), address as int, i as int);
                }
            },
            None => {
                proof {
                    lemma_find_entry_none(self.ledger(), address as int);
                }
                let orig = mem.read_bytes(address, bytes.len());
                self.patches.push(Patch { address, original_bytes: orig });
                proof {
                    assert(final(self).ledger() =~= old(self).ledger().push(
                        (
                            address as int,
                            old(mem).contents().subrange(
                                address - old(mem).spec_base(),
                                address - old(mem).spec_base() + bytes@.len(),
                            ),
                        ),
                    ));
                }
            },
        }
        mem.write(address, bytes);
    }

    /// Restores the original bytes recorded for `address` and removes the
    /// ledger entry. Returns `None`, changing nothing, if no patch is
    /// recorded there.
    pub fn unpatch(&mut self, mem: &mut ProcessMemory, address: usize) -> (r: Option<()>)
        requires
            old(self).wf(),
            old(mem).wf(),
            old(self).entries_in_range(*old(mem)),
        ensures
            final(self).wf(),
            final(mem).wf(),
            final(mem).spec_base() == old(mem).spec_base(),
            final(mem).contents().len() == old(mem).contents().len(),
            final(self).entries_in_range(*final(mem)),
            match find_entry(old(self).ledger(), address as int) {
                Some(o) => r is Some && final(mem).contents() == write_bytes(
                    old(mem).contents(),
                    address - old(mem).spec_base(),
                    o,
                ) && final(self).ledger() == remove_entry(old(self).ledger(), address as int),
                None => r is None && final(mem).contents() == old(mem).contents()
                    && final(self).ledger() == old(self).ledger(),
            },
    {
        match self.find_index(address) {
            Some(i) => {
                proof {
                    lemma_find_entry_at(self.ledger(), address as int, i as int);
                    self.ledger().remove_ensures(i as int);
                }
                let p = self.patches.remove(i);
                proof {
                    assert(final(self).ledger() =~= old(self).ledger().remove(i as int));
                }
                mem.write(p.address, p.original_bytes.as_slice());
                Some(())
            },
            None => {
                proof {
                    lemma_find_entry_none(self.ledger(), address as int);
                }
                None
            },
        }
    }

    /// Reverts every outstanding patch, newest first, and empties the ledger.
    /// Reverse insertion order keeps one patch from clobbering memory another
    /// patch straddles.
    pub fn restore_all(&mut self, mem: &mut ProcessMemory)
        requires
            old(mem).wf(),
            old(self).entries_in_range(*old(mem)),
        ensures
            final(self).wf(),
            final(self).ledger() =~= Seq::<(int, Seq<u8>)>::empty(),
            final(mem).wf(),
            final(mem).spec_base() == old(mem).spec_base(),
            final(mem).contents().len() == old(mem).contents().len(),
            final(mem).contents() == spec_restore(
                old(mem).contents(),
                old(mem).spec_base(),
                old(self).ledger(),
            ),
    {
        while self.patches.len() > 0
            invariant
                mem.wf(),
                mem.spec_base() == old(mem).spec_base(),
                mem.contents().len() == old(mem).contents().len(),
                self.entries_in_range(*mem),
                spec_restore(old(mem).contents(), old(mem).spec_base(), old(self).ledger())
                    == spec_restore(mem.contents(), mem.spec_base(), self.ledger()),
            decreases self.patches@.len(),
        {
            let ghost l_before = self.ledger();
            let p = self.patches.pop().unwrap();
            proof {
                assert(self.ledger() =~= l_before.drop_last());
                assert(l_before.last() == (p.spec_address(), p.spec_original_bytes()));
            }
            mem.write(p.address, p.original_bytes.as_slice());
        }
    }

    /// Treats the five bytes at `src` as a near-relative call, returns the
    /// call's original destination, and patches the five bytes to call `dst`
    /// instead. The new displacement must fit in 32 bits; a destination out
    /// of range is a configuration error this function does not accept.
    pub fn replace_call_destination(&mut self, mem: &mut ProcessMemory, src: usize, dst: usize) -> (r:
        usize)
        requires
            old(self).wf(),
            old(mem).wf(),
            old(mem).in_range(src as int, 5),
            find_entry(old(self).ledger(), src as int) matches Some(o) ==> o.len() == 5,
            -0x8000_0000 <= dst - src - 5 < 0x8000_0000,
            ({
                let off = src - old(mem).spec_base();
                let dest = src + 5 + spec_disp_value(old(mem).contents().subrange(off + 1, off + 5));
                0 <= dest <= usize::MAX
            }),
        ensures
            final(self).wf(),
            final(mem).wf(),
            final(mem).spec_base() == old(mem).spec_base(),
            final(mem).contents().len() == old(mem).contents().len(),
            r == src + 5 + spec_disp_value(
                old(mem).contents().subrange(
                    src - old(mem).spec_base() + 1,
                    src - old(mem).spec_base() + 5,
                ),
            ),
            final(mem).contents() == write_bytes(
                old(mem).contents(),
                src - old(mem).spec_base(),
                seq![0xE8u8] + spec_disp_bytes(dst - src - 5),
            ),
            final(self).ledger() == record_patch(
                old(self).ledger(),
                src as int,
                old(mem).contents().subrange(
                    src - old(mem).spec_base(),
                    src - old(mem).spec_base() + 5,
                ),
            ),
            old(self).entries_in_range(*old(mem)) ==> final(self).entries_in_range(*final(mem)),
    {
        let disp_bytes = mem.read_bytes(src + 1, 4);
        let u = u32_from_le_bytes(disp_bytes.as_slice());
        let dest_i: i128 = if u < 0x8000_0000 {
            src as i128 + 5 + u as i128
        } else {
            src as i128 + 5 + u as i128 - 0x1_0000_0000
        };
        let orig_dest: usize = dest_i as usize;
        let d_i: i128 = dst as i128 - src as i128 - 5;
        let enc: u32 = if d_i >= 0 {
            d_i as u32
        } else {
            (d_i + 0x1_0000_0000) as u32
        };
        let mut new_bytes = u32_to_le_bytes(enc);
        new_bytes.insert(0, 0xE8);
        proof {
            assert(new_bytes@ =~= seq![0xE8u8] + spec_disp_bytes(dst - src - 5));
        }
        self.patch(mem, src, new_bytes.as_slice());
        orig_dest
    }

    /// Like `replace_call_destination`, but declines, changing nothing, when
    /// the new displacement does not fit in 32 bits.
    pub fn try_replace_call_destination(
        &mut self,
        mem: &mut ProcessMemory,
        src: usize,
        dst: usize,
    ) -> (r: Option<usize>)
        requires
            old(self).wf(),
            old(mem).wf(),
            old(mem).in_range(src as int, 5),
            find_entry(old(self).ledger(), src as int) matches Some(o) ==> o.len() == 5,
            (-0x8000_0000 <= dst - src - 5 < 0x8000_0000) ==> ({
                let off = src - old(mem).spec_base();
                let dest = src + 5 + spec_disp_value(old(mem).contents().subrange(off + 1, off + 5));
                0 <= dest <= usize::MAX
            }),
        ensures
            final(self).wf(),
            final(mem).wf(),
            final(mem).spec_base() == old(mem).spec_base(),
            final(mem).contents().len() == old(mem).contents().len(),
            if -0x8000_0000 <= dst - src - 5 < 0x8000_0000 {
                r == Some(
                    (src + 5 + spec_disp_value(
                        old(mem).contents().subrange(
                            src - old(mem).spec_base() + 1,
                            src - old(mem).spec_base() + 5,
                        ),
                    )) as usize,
                ) && final(mem).contents() == write_bytes(
                    old(mem).contents(),
                    src - old(mem).spec_base(),
                    seq![0xE8u8] + spec_disp_bytes(dst - src - 5),
                ) && final(self).ledger() == record_patch(
                    old(self).ledger(),
                    src as int,
                    old(mem).contents().subrange(
                        src - old(mem).spec_base(),
                        src - old(mem).spec_base() + 5,
                    ),
                )
            } else {
                r is None && final(mem).contents() == old(mem).contents() && final(self).ledger()
                    == old(self).ledger()
            },
            old(self).entries_in_range(*old(mem)) ==> final(self).entries_in_range(*final(mem)),
    {
        let d_i: i128 = dst as i128 - src as i128 - 5;
        if -0x8000_0000 <= d_i && d_i < 0x8000_0000 {
            Some(self.replace_call_destination(mem, src, dst))
        } else {
            None
        }
    }
}


/// A ledger without an entry for `a` gains one by a push, and loses exactly
/// it again on removal.
proof fn lemma_find_push_self(l: Seq<(int, Seq<u8>)>, a: int, o: Seq<u8>)
    requires
        !has_entry(l, a),
    ensures
        find_entry(l.push((a, o)), a) == Some(o),
        remove_entry(l.push((a, o)), a) =~= l,
    decreases l.len(),
{
    if l.len() == 0 {
        assert(l.push((a, o)).drop_first() =~= Seq::<(int, Seq<u8>)>::empty());
    } else {
        assert(l[0].0 != a);
        assert(l.push((a, o)).drop_first() =~= l.drop_first().push((a, o)));
        lemma_find_push_self(l.drop_first(), a, o);
        assert(seq![l[0]] + l.drop_first() =~= l);
    }
}

/// Patch then unpatch at a fresh address: the memory bytes and the ledger
/// are exactly as before, whatever replacement bytes were written.
pub proof fn lemma_patch_unpatch_round_trip(
    l: Seq<(int, Seq<u8>)>,
    m: Seq<u8>,
    base: int,
    a: int,
    x: Seq<u8>,
)
    requires
        !has_entry(l, a),
        base <= a,
        a + x.len() <= base + m.len(),
    ensures
        ({
            let orig = m.subrange(a - base, a - base + x.len());
            let l1 = record_patch(l, a, orig);
            let m1 = write_bytes(m, a - base, x);
            &&& find_entry(l1, a) == Some(orig)
            &&& remove_entry(l1, a) == l
            &&& write_bytes(m1, a - base, orig) == m
        }),
{
    let orig = m.subrange(a - base, a - base + x.len());
    lemma_find_push_self(l, a, orig);
    let m1 = write_bytes(m, a - base, x);
    assert(write_bytes(m1, a - base, orig) =~= m);
}

/// Re-patching preserves the true original: after two patches at the same
/// address and one unpatch, the bytes before the first patch are back.
pub proof fn lemma_double_patch_preserves_original(
    l: Seq<(int, Seq<u8>)>,
    m: Seq<u8>,
    base: int,
    a: int,
    x1: Seq<u8>,
    x2: Seq<u8>,
)
    requires
        !has_entry(l, a),
        base <= a,
        a + x1.len() <= base + m.len(),
        x2.len() == x1.len(),
    ensures
        ({
            let orig = m.subrange(a - base, a - base + x1.len());
            let l1 = record_patch(l, a, orig);
            let m1 = write_bytes(m, a - base, x1);
            let l2 = record_patch(l1, a, m1.subrange(a - base, a - base + x2.len()));
            let m2 = write_bytes(m1, a - base, x2);
            &&& l2 == l1
            &&& find_entry(l2, a) == Some(orig)
            &&& remove_entry(l2, a) == l
            &&& write_bytes(m2, a - base, orig) == m
        }),
{
    let orig = m.subrange(a - base, a - base + x1.len());
    lemma_find_push_self(l, a, orig);
    let m1 = write_bytes(m, a - base, x1);
    let m2 = write_bytes(m1, a - base, x2);
    assert(write_bytes(m2, a - base, orig) =~= m);
}

/// Teardown reverts outstanding patches newest first: with two recorded
/// patches, the second one's bytes go back before the first one's.
pub proof fn lemma_restore_reverse_order(
    m: Seq<u8>,
    base: int,
    a: int,
    oa: Seq<u8>,
    b: int,
    ob: Seq<u8>,
)
    ensures
        spec_restore(m, base, seq![(a, oa), (b, ob)]) == write_bytes(
            write_bytes(m, b - base, ob),
            a - base,
            oa,
        ),
{
    let l = seq![(a, oa), (b, ob)];
    let m1 = write_bytes(m, b - base, ob);
    assert(l.last() == (b, ob));
    assert(l.drop_last() =~= seq![(a, oa)]);
    assert(spec_restore(m, base, l) == spec_restore(m1, base, seq![(a, oa)]));
    assert(seq![(a, oa)].last() == (a, oa));
    assert(seq![(a, oa)].drop_last() =~= Seq::<(int, Seq<u8>)>::empty());
    assert(spec_restore(m1, base, seq![(a, oa)]) == spec_restore(
        write_bytes(m1, a - base, oa),
        base,
        Seq::<(int, Seq<u8>)>::empty(),
    ));
}

/// After a call redirect, the opcode at `src` is the near-call opcode and
/// decoding the displacement written there resolves to the new destination.
pub proof fn lemma_call_redirect_round_trip(m: Seq<u8>, base: int, src: int, dst: int)
    requires
        -0x8000_0000 <= dst - src - 5 < 0x8000_0000,
        base <= src,
        src + 5 <= base + m.len(),
    ensures
        ({
            let m1 = write_bytes(m, src - base, seq![0xE8u8] + spec_disp_bytes(dst - src - 5));
            &&& m1[src - base] == 0xE8u8
            &&& src + 5 + spec_disp_value(m1.subrange(src - base + 1, src - base + 5)) == dst
        }),
{
    let d = dst - src - 5;
    vstd::bytes::lemma_auto_spec_u32_to_from_le_bytes();
    assert(spec_disp_bytes(d).len() == 4);
    let m1 = write_bytes(m, src - base, seq![0xE8u8] + spec_disp_bytes(d));
    assert(m1.subrange(src - base + 1, src - base + 5) =~= spec_disp_bytes(d));
    lemma_disp_round_trip(d);
}

} // verus!
