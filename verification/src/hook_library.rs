//! The composition layer: a `HookLibrary` aggregates detour binders, raw byte
//! patches and custom callback tokens into one unit whose enable and disable
//! toggle everything together, in a fixed order. Enabling installs detours,
//! then runs enable callbacks, then applies raw patches; disabling reverses
//! the phases exactly: patches are removed first, then disable callbacks run,
//! then detours come off. Work only the embedder can do — installing a
//! machine-level detour, running a registered callback — is requested through
//! a dispatcher function and every outcome is accounted for.

use crate::detour_binder::{NonstaticDetourBinder, StaticDetourBinder};
use crate::memory::{write_bytes, ProcessMemory};
use crate::module::{Module, ScanError};
use crate::patcher::{find_entry, has_entry, record_patch, remove_entry, Patcher};
use vstd::prelude::*;
use vstd::slice::slice_to_vec;

verus! {

/// One piece of outside work the library asks the embedder to perform. The
/// embedder's dispatcher returns whether the work succeeded.
#[derive(Clone, Copy, PartialEq, Eq, Structural, Debug)]
pub enum HookAction {
    /// Install the detour bound at this address.
    EnableDetour(usize),
    /// Remove the detour bound at this address.
    DisableDetour(usize),
    /// Run the init callback registered under this token.
    RunInit(u64),
    /// Run the shutdown callback registered under this token.
    RunShutdown(u64),
    /// Run the enable callback registered under this token.
    RunEnable(u64),
    /// Run the disable callback registered under this token.
    RunDisable(u64),
}

/// Why an operation on a hook library failed.
#[derive(Debug)]
pub enum HookError {
    /// A signature failed to resolve; carries the binder's name.
    BindFailed { name: String, cause: ScanError },
    /// enable or disable was called on a binder that was never bound.
    NotBound { name: String },
    /// The embedder reported failure performing this action.
    ActionFailed { action: HookAction },
    /// enable could not apply the patch at this address: it falls outside
    /// the memory span, or re-patches a recorded address with another length.
    PatchFailed { address: usize },
}

/// Ledger and memory after recording and writing one patch.
pub open spec fn apply_one(
    l: Seq<(int, Seq<u8>)>,
    m: Seq<u8>,
    base: int,
    p: (int, Seq<u8>),
) -> (Seq<(int, Seq<u8>)>, Seq<u8>) {
    (
        record_patch(l, p.0, m.subrange(p.0 - base, p.0 - base + p.1.len())),
        write_bytes(m, p.0 - base, p.1),
    )
}

/// Ledger and memory after recording and writing every patch in `ps`, in
/// order.
pub open spec fn apply_patches(
    l: Seq<(int, Seq<u8>)>,
    m: Seq<u8>,
    base: int,
    ps: Seq<(int, Seq<u8>)>,
) -> (Seq<(int, Seq<u8>)>, Seq<u8>)
    decreases ps.len(),
{
    if ps.len() == 0 {
        (l, m)
    } else {
        let lm = apply_one(l, m, base, ps[0]);
        apply_patches(lm.0, lm.1, base, ps.drop_first())
    }
}

/// Whether every patch in `ps` can be applied in order: each falls inside
/// memory, and a re-patch of a recorded address keeps its length.
pub open spec fn patches_applicable(
    l: Seq<(int, Seq<u8>)>,
    m: Seq<u8>,
    base: int,
    ps: Seq<(int, Seq<u8>)>,
) -> bool
    decreases ps.len(),
{
    if ps.len() == 0 {
        true
    } else {
        let lm = apply_one(l, m, base, ps[0]);
        &&& base <= ps[0].0
        &&& ps[0].0 + ps[0].1.len() <= base + m.len()
        &&& (find_entry(l, ps[0].0) matches Some(o) ==> o.len() == ps[0].1.len())
        &&& patches_applicable(lm.0, lm.1, base, ps.drop_first())
    }
}

/// Ledger and memory after restoring and removing one patch, where recorded.
pub open spec fn remove_one(
    l: Seq<(int, Seq<u8>)>,
    m: Seq<u8>,
    base: int,
    addr: int,
) -> (Seq<(int, Seq<u8>)>, Seq<u8>) {
    match find_entry(l, addr) {
        Some(o) => (remove_entry(l, addr), write_bytes(m, addr - base, o)),
        None => (l, m),
    }
}

/// Ledger and memory after restoring and removing the patch recorded for
/// every address in `ps`, in order.
pub open spec fn remove_patches(
    l: Seq<(int, Seq<u8>)>,
    m: Seq<u8>,
    base: int,
    ps: Seq<(int, Seq<u8>)>,
) -> (Seq<(int, Seq<u8>)>, Seq<u8>)
    decreases ps.len(),
{
    if ps.len() == 0 {
        (l, m)
    } else {
        let lm = remove_one(l, m, base, ps[0].0);
        remove_patches(lm.0, lm.1, base, ps.drop_first())
    }
}

/// Whether the ledger holds an entry for every address in `ps` as they are
/// removed in order.
pub open spec fn patches_removable(l: Seq<(int, Seq<u8>)>, ps: Seq<(int, Seq<u8>)>) -> bool
    decreases ps.len(),
{
    if ps.len() == 0 {
        true
    } else {
        &&& find_entry(l, ps[0].0) is Some
        &&& patches_removable(remove_entry(l, ps[0].0), ps.drop_first())
    }
}

proof fn lemma_apply_patches_append(
    l: Seq<(int, Seq<u8>)>,
    m: Seq<u8>,
    base: int,
    ps: Seq<(int, Seq<u8>)>,
    p: (int, Seq<u8>),
)
    ensures
        apply_patches(l, m, base, ps.push(p)) == ({
            let lm = apply_patches(l, m, base, ps);
            apply_one(lm.0, lm.1, base, p)
        }),
        patches_applicable(l, m, base, ps.push(p)) == (patches_applicable(l, m, base, ps) && ({
            let lm = apply_patches(l, m, base, ps);
            &&& base <= p.0
            &&& p.0 + p.1.len() <= base + lm.1.len()
            &&& (find_entry(lm.0, p.0) matches Some(o) ==> o.len() == p.1.len())
        })),
    decreases ps.len(),
{
    if ps.len() == 0 {
        let lm0 = apply_one(l, m, base, p);
        assert(ps.push(p)[0] == p);
        assert(ps.push(p).drop_first() =~= Seq::<(int, Seq<u8>)>::empty());
        assert(apply_patches(lm0.0, lm0.1, base, Seq::<(int, Seq<u8>)>::empty()) == lm0);
        assert(apply_patches(l, m, base, ps) == (l, m));
        assert(patches_applicable(lm0.0, lm0.1, base, Seq::<(int, Seq<u8>)>::empty()));
    } else {
        let lm = apply_one(l, m, base, ps[0]);
        assert(ps.push(p)[0] == ps[0]);
        assert(ps.push(p).drop_first() =~= ps.drop_first().push(p));
        lemma_apply_patches_append(lm.0, lm.1, base, ps.drop_first(), p);
    }
}

proof fn lemma_remove_patches_append(
    l: Seq<(int, Seq<u8>)>,
    m: Seq<u8>,
    base: int,
    ps: Seq<(int, Seq<u8>)>,
    p: (int, Seq<u8>),
)
    ensures
        remove_patches(l, m, base, ps.push(p)) == ({
            let lm = remove_patches(l, m, base, ps);
            remove_one(lm.0, lm.1, base, p.0)
        }),
    decreases ps.len(),
{
    if ps.len() == 0 {
        let lm0 = remove_one(l, m, base, p.0);
        assert(ps.push(p)[0] == p);
        assert(ps.push(p).drop_first() =~= Seq::<(int, Seq<u8>)>::empty());
        assert(remove_patches(lm0.0, lm0.1, base, Seq::<(int, Seq<u8>)>::empty()) == lm0);
        assert(remove_patches(l, m, base, ps) == (l, m));
    } else {
        let lm = remove_one(l, m, base, ps[0].0);
        assert(ps.push(p)[0] == ps[0]);
        assert(ps.push(p).drop_first() =~= ps.drop_first().push(p));
        lemma_remove_patches_append(lm.0, lm.1, base, ps.drop_first(), p);
    }
}


/// The byte ranges of two patches do not overlap.
pub open spec fn patches_disjoint(p: (int, Seq<u8>), q: (int, Seq<u8>)) -> bool {
    p.0 + p.1.len() <= q.0 || q.0 + q.1.len() <= p.0
}

/// The patches stand on their own: each lies inside memory, none re-patches
/// an address the ledger already holds, and no two touch the same bytes.
pub open spec fn patches_independent(
    l: Seq<(int, Seq<u8>)>,
    base: int,
    mlen: int,
    ps: Seq<(int, Seq<u8>)>,
) -> bool {
    &&& forall|i: int|
        0 <= i < ps.len() ==> base <= (#[trigger] ps[i]).0 && ps[i].0 + ps[i].1.len() <= base
            + mlen
    &&& forall|i: int| 0 <= i < ps.len() ==> !has_entry(l, (#[trigger] ps[i]).0)
    &&& forall|i: int, j: int|
        0 <= i < j < ps.len() ==> (#[trigger] ps[i]).0 != (#[trigger] ps[j]).0
    &&& forall|i: int, j: int|
        0 <= i < j < ps.len() ==> patches_disjoint(#[trigger] ps[i], #[trigger] ps[j])
}

/// The ledger entries that applying `ps` to memory `m` records, in order.
pub open spec fn entries_of(m: Seq<u8>, base: int, ps: Seq<(int, Seq<u8>)>) -> Seq<
    (int, Seq<u8>),
> {
    Seq::new(ps.len(), |i: int| (ps[i].0, m.subrange(ps[i].0 - base, ps[i].0 - base + ps[i].1.len())))
}

proof fn lemma_find_push_other(l: Seq<(int, Seq<u8>)>, e: (int, Seq<u8>), a: int)
    requires
        e.0 != a,
    ensures
        find_entry(l.push(e), a) == find_entry(l, a),
    decreases l.len(),
{
    if l.len() == 0 {
        assert(l.push(e)[0] == e);
        assert(l.push(e).drop_first() =~= Seq::<(int, Seq<u8>)>::empty());
        assert(find_entry(l.push(e).drop_first(), a) is None);
    } else {
        assert(l.push(e)[0] == l[0]);
        assert(l.push(e).drop_first() =~= l.drop_first().push(e));
        lemma_find_push_other(l.drop_first(), e, a);
    }
}

proof fn lemma_find_concat(l: Seq<(int, Seq<u8>)>, e: Seq<(int, Seq<u8>)>, a: int)
    requires
        !has_entry(l, a),
    ensures
        find_entry(l + e, a) == find_entry(e, a),
        remove_entry(l + e, a) =~= l + remove_entry(e, a),
    decreases l.len(),
{
    if l.len() == 0 {
        assert(l + e =~= e);
    } else {
        assert(l[0].0 != a);
        assert((l + e).drop_first() =~= l.drop_first() + e);
        lemma_find_concat(l.drop_first(), e, a);
        assert(seq![l[0]] + (l.drop_first() + remove_entry(e, a)) =~= l + remove_entry(e, a));
    }
}

proof fn lemma_applicable_from_independent(
    l: Seq<(int, Seq<u8>)>,
    m: Seq<u8>,
    base: int,
    ps: Seq<(int, Seq<u8>)>,
)
    requires
        patches_independent(l, base, m.len() as int, ps),
    ensures
        patches_applicable(l, m, base, ps),
    decreases ps.len(),
{
    if ps.len() > 0 {
        let lm = apply_one(l, m, base, ps[0]);
        assert(!has_entry(l, ps[0].0));
        assert(lm.0 == l.push((ps[0].0, m.subrange(ps[0].0 - base, ps[0].0 - base + ps[0].1.len()))));
        let rest = ps.drop_first();
        assert forall|i: int| 0 <= i < rest.len() implies !has_entry(lm.0, (#[trigger] rest[i]).0) by {
            assert(rest[i] == ps[i + 1]);
            assert(ps[i + 1].0 != ps[0].0);
            lemma_find_push_other(
                l,
                (ps[0].0, m.subrange(ps[0].0 - base, ps[0].0 - base + ps[0].1.len())),
                ps[i + 1].0,
            );
        }
        assert forall|i: int|
            0 <= i < rest.len() implies base <= (#[trigger] rest[i]).0 && rest[i].0
            + rest[i].1.len() <= base + lm.1.len() by {
            assert(rest[i] == ps[i + 1]);
        }
        assert forall|i: int, j: int|
            0 <= i < j < rest.len() implies (#[trigger] rest[i]).0 != (#[trigger] rest[j]).0
            && patches_disjoint(rest[i], rest[j]) by {
            assert(rest[i] == ps[i + 1]);
            assert(rest[j] == ps[j + 1]);
        }
        lemma_applicable_from_independent(lm.0, lm.1, base, rest);
    }
}

proof fn lemma_apply_mem_pointwise(
    l: Seq<(int, Seq<u8>)>,
    m: Seq<u8>,
    base: int,
    ps: Seq<(int, Seq<u8>)>,
    q: int,
)
    requires
        forall|i: int, j: int|
            0 <= i < j < ps.len() ==> patches_disjoint(#[trigger] ps[i], #[trigger] ps[j]),
        forall|i: int|
            0 <= i < ps.len() ==> base <= (#[trigger] ps[i]).0 && ps[i].0 + ps[i].1.len() <= base
                + m.len(),
        0 <= q < m.len(),
    ensures
        apply_patches(l, m, base, ps).1.len() == m.len(),
        (forall|i: int|
            0 <= i < ps.len() ==> !((#[trigger] ps[i]).0 - base <= q < ps[i].0 - base
                + ps[i].1.len())) ==> apply_patches(l, m, base, ps).1[q] == m[q],
        forall|i: int|
            0 <= i < ps.len() && (#[trigger] ps[i]).0 - base <= q < ps[i].0 - base + ps[i].1.len()
                ==> apply_patches(l, m, base, ps).1[q] == ps[i].1[q - ps[i].0 + base],
    decreases ps.len(),
{
    if ps.len() > 0 {
        let lm = apply_one(l, m, base, ps[0]);
        let rest = ps.drop_first();
        assert forall|i: int, j: int|
            0 <= i < j < rest.len() implies patches_disjoint(
            #[trigger] rest[i],
            #[trigger] rest[j],
        ) by {
            assert(rest[i] == ps[i + 1]);
            assert(rest[j] == ps[j + 1]);
        }
        assert forall|i: int|
            0 <= i < rest.len() implies base <= (#[trigger] rest[i]).0 && rest[i].0
            + rest[i].1.len() <= base + lm.1.len() by {
            assert(rest[i] == ps[i + 1]);
        }
        lemma_apply_mem_pointwise(lm.0, lm.1, base, rest, q);
        assert forall|i: int|
            0 <= i < ps.len() && (#[trigger] ps[i]).0 - base <= q < ps[i].0 - base + ps[i].1.len()
            implies apply_patches(l, m, base, ps).1[q] == ps[i].1[q - ps[i].0 + base] by {
            if i == 0 {
                assert(lm.1[q] == ps[0].1[q - ps[0].0 + base]);
                assert(forall|i2: int|
                    0 <= i2 < rest.len() ==> !((#[trigger] rest[i2]).0 - base <= q < rest[i2].0
                        - base + rest[i2].1.len()));
            } else {
                assert(rest[i - 1] == ps[i]);
            }
        }
    }
}

proof fn lemma_apply_ledger_form(
    l: Seq<(int, Seq<u8>)>,
    m: Seq<u8>,
    base: int,
    ps: Seq<(int, Seq<u8>)>,
)
    requires
        patches_independent(l, base, m.len() as int, ps),
    ensures
        apply_patches(l, m, base, ps).0 =~= l + entries_of(m, base, ps),
    decreases ps.len(),
{
    if ps.len() == 0 {
        assert(l + entries_of(m, base, ps) =~= l);
    } else {
        let e0 = (ps[0].0, m.subrange(ps[0].0 - base, ps[0].0 - base + ps[0].1.len()));
        let lm = apply_one(l, m, base, ps[0]);
        assert(!has_entry(l, ps[0].0));
        assert(lm.0 == l.push(e0));
        let rest = ps.drop_first();
        assert forall|i: int| 0 <= i < rest.len() implies !has_entry(lm.0, (#[trigger] rest[i]).0) by {
            assert(rest[i] == ps[i + 1]);
            lemma_find_push_other(l, e0, ps[i + 1].0);
        }
        assert forall|i: int|
            0 <= i < rest.len() implies base <= (#[trigger] rest[i]).0 && rest[i].0
            + rest[i].1.len() <= base + lm.1.len() by {
            assert(rest[i] == ps[i + 1]);
        }
        assert forall|i: int, j: int|
            0 <= i < j < rest.len() implies (#[trigger] rest[i]).0 != (#[trigger] rest[j]).0
            && patches_disjoint(rest[i], rest[j]) by {
            assert(rest[i] == ps[i + 1]);
            assert(rest[j] == ps[j + 1]);
        }
        lemma_apply_ledger_form(lm.0, lm.1, base, rest);
        // the originals recorded for the remaining patches read the same
        // bytes from the already-written memory, because the ranges are
        // pairwise disjoint
        assert forall|i: int|
            0 <= i < rest.len() implies #[trigger] entries_of(lm.1, base, rest)[i] == entries_of(
            m,
            base,
            rest,
        )[i] by {
            assert(rest[i] == ps[i + 1]);
            assert(patches_disjoint(ps[0], ps[i + 1]));
            assert(lm.1.subrange(rest[i].0 - base, rest[i].0 - base + rest[i].1.len()) =~= m.subrange(
                rest[i].0 - base,
                rest[i].0 - base + rest[i].1.len(),
            ));
        }
        assert(entries_of(lm.1, base, rest) =~= entries_of(m, base, rest));
        assert(l.push(e0) + entries_of(m, base, rest) =~= l + entries_of(m, base, ps));
    }
}

proof fn lemma_remove_applied(
    l: Seq<(int, Seq<u8>)>,
    m: Seq<u8>,
    base: int,
    ps: Seq<(int, Seq<u8>)>,
    lcur: Seq<(int, Seq<u8>)>,
    mcur: Seq<u8>,
)
    requires
        patches_independent(l, base, m.len() as int, ps),
        lcur == l + entries_of(m, base, ps),
        mcur.len() == m.len(),
        forall|q: int|
            0 <= q < m.len() && (forall|i: int|
                0 <= i < ps.len() ==> !((#[trigger] ps[i]).0 - base <= q < ps[i].0 - base
                    + ps[i].1.len())) ==> (#[trigger] mcur[q]) == m[q],
        forall|i: int, q: int|
            #![trigger ps[i], mcur[q]]
            0 <= i < ps.len() && ps[i].0 - base <= q < ps[i].0 - base + ps[i].1.len() ==> mcur[q]
                == ps[i].1[q - ps[i].0 + base],
    ensures
        patches_removable(lcur, ps),
        remove_patches(lcur, mcur, base, ps).0 =~= l,
        remove_patches(lcur, mcur, base, ps).1 =~= m,
    decreases ps.len(),
{
    if ps.len() == 0 {
        assert(lcur =~= l);
        assert(mcur =~= m);
    } else {
        let a0 = ps[0].0;
        let orig0 = m.subrange(a0 - base, a0 - base + ps[0].1.len());
        let ents = entries_of(m, base, ps);
        assert(!has_entry(l, a0));
        lemma_find_concat(l, ents, a0);
        assert(ents[0] == (a0, orig0));
        assert(find_entry(ents, a0) == Some(orig0));
        assert(find_entry(lcur, a0) == Some(orig0));
        assert(remove_entry(ents, a0) =~= ents.drop_first());
        let lnext = l + entries_of(m, base, ps.drop_first());
        assert(ents.drop_first() =~= entries_of(m, base, ps.drop_first())) by {
            assert forall|i: int|
                0 <= i < ents.drop_first().len() implies ents.drop_first()[i] == entries_of(
                m,
                base,
                ps.drop_first(),
            )[i] by {
                assert(ps.drop_first()[i] == ps[i + 1]);
            }
        }
        assert(remove_entry(lcur, a0) =~= lnext);
        let mnext = write_bytes(mcur, a0 - base, orig0);
        let rest = ps.drop_first();
        assert forall|i: int| 0 <= i < rest.len() implies !has_entry(l, (#[trigger] rest[i]).0)
            && base <= rest[i].0 && rest[i].0 + rest[i].1.len() <= base + m.len() by {
            assert(rest[i] == ps[i + 1]);
        }
        assert forall|i: int, j: int|
            0 <= i < j < rest.len() implies (#[trigger] rest[i]).0 != (#[trigger] rest[j]).0
            && patches_disjoint(rest[i], rest[j]) by {
            assert(rest[i] == ps[i + 1]);
            assert(rest[j] == ps[j + 1]);
        }
        assert forall|q: int|
            0 <= q < m.len() && (forall|i: int|
                0 <= i < rest.len() ==> !((#[trigger] rest[i]).0 - base <= q < rest[i].0 - base
                    + rest[i].1.len())) implies mnext[q] == m[q] by {
            if a0 - base <= q < a0 - base + ps[0].1.len() {
                assert(mnext[q] == orig0[q - (a0 - base)]);
            } else {
                assert(mnext[q] == mcur[q]);
                assert forall|i: int|
                    0 <= i < ps.len() implies !((#[trigger] ps[i]).0 - base <= q < ps[i].0 - base
                    + ps[i].1.len()) by {
                    if i > 0 {
                        assert(rest[i - 1] == ps[i]);
                    }
                }
            }
        }
        assert forall|i: int, q: int|
            #![trigger rest[i], mnext[q]]
            0 <= i < rest.len() && rest[i].0 - base <= q < rest[i].0 - base + rest[i].1.len()
            implies mnext[q] == rest[i].1[q - rest[i].0 + base] by {
            assert(rest[i] == ps[i + 1]);
            assert(patches_disjoint(ps[0], ps[i + 1]));
            assert(mnext[q] == mcur[q]);
        }
        lemma_remove_applied(l, m, base, rest, lnext, mnext);
        assert(remove_one(lcur, mcur, base, a0) == (lnext, mnext)) by {
            assert(remove_entry(lcur, a0) == lnext);
        }
    }
}

/// Enable/disable symmetry: applying a library's patches makes every patched
/// range show its replacement bytes, and removing them in the same order
/// restores every original byte and returns the ledger to what it was —
/// provided the patches touch pairwise-disjoint ranges at addresses the
/// ledger does not already hold. Overlapping patch ranges fall outside this
/// law: removing them in application order need not restore the original
/// bytes.
pub proof fn lemma_enable_disable_symmetry(
    l: Seq<(int, Seq<u8>)>,
    m: Seq<u8>,
    base: int,
    ps: Seq<(int, Seq<u8>)>,
)
    requires
        patches_independent(l, base, m.len() as int, ps),
    ensures
        patches_applicable(l, m, base, ps),
        ({
            let en = apply_patches(l, m, base, ps);
            &&& (forall|i: int|
                0 <= i < ps.len() ==> en.1.subrange(
                    (#[trigger] ps[i]).0 - base,
                    ps[i].0 - base + ps[i].1.len(),
                ) =~= ps[i].1)
            &&& patches_removable(en.0, ps)
            &&& remove_patches(en.0, en.1, base, ps).0 =~= l
            &&& remove_patches(en.0, en.1, base, ps).1 =~= m
        }),
{
    lemma_applicable_from_independent(l, m, base, ps);
    lemma_apply_ledger_form(l, m, base, ps);
    let en = apply_patches(l, m, base, ps);
    assert(en.1.len() == m.len()) by {
        if m.len() > 0 {
            lemma_apply_mem_pointwise(l, m, base, ps, 0);
        } else {
            lemma_apply_len_zero(l, m, base, ps);
        }
    }
    assert forall|i: int|
        0 <= i < ps.len() implies en.1.subrange(
        (#[trigger] ps[i]).0 - base,
        ps[i].0 - base + ps[i].1.len(),
    ) =~= ps[i].1 by {
        assert forall|k: int| 0 <= k < ps[i].1.len() implies en.1.subrange(
            ps[i].0 - base,
            ps[i].0 - base + ps[i].1.len(),
        )[k] == ps[i].1[k] by {
            lemma_apply_mem_pointwise(l, m, base, ps, ps[i].0 - base + k);
        }
    }
    assert forall|q: int|
        #![trigger en.1[q]]
        0 <= q < m.len() && (forall|i: int|
            0 <= i < ps.len() ==> !((#[trigger] ps[i]).0 - base <= q < ps[i].0 - base
                + ps[i].1.len())) implies en.1[q] == m[q] by {
        lemma_apply_mem_pointwise(l, m, base, ps, q);
    }
    assert forall|i: int, q: int|
        #![trigger ps[i], en.1[q]]
        0 <= i < ps.len() && ps[i].0 - base <= q < ps[i].0 - base + ps[i].1.len() implies en.1[q]
        == ps[i].1[q - ps[i].0 + base] by {
        lemma_apply_mem_pointwise(l, m, base, ps, q);
    }
    lemma_remove_applied(l, m, base, ps, en.0, en.1);
}

proof fn lemma_apply_len_zero(
    l: Seq<(int, Seq<u8>)>,
    m: Seq<u8>,
    base: int,
    ps: Seq<(int, Seq<u8>)>,
)
    requires
        forall|i: int|
            0 <= i < ps.len() ==> base <= (#[trigger] ps[i]).0 && ps[i].0 + ps[i].1.len() <= base
                + m.len(),
    ensures
        apply_patches(l, m, base, ps).1.len() == m.len(),
    decreases ps.len(),
{
    if ps.len() > 0 {
        let lm = apply_one(l, m, base, ps[0]);
        let rest = ps.drop_first();
        assert forall|i: int|
            0 <= i < rest.len() implies base <= (#[trigger] rest[i]).0 && rest[i].0
            + rest[i].1.len() <= base + lm.1.len() by {
            assert(rest[i] == ps[i + 1]);
        }
        lemma_apply_len_zero(lm.0, lm.1, base, rest);
    }
}

/// A hook library: static binders, runtime binders, raw byte patches and
/// callback tokens, toggled together.
pub struct HookLibrary {
    binders: Vec<StaticDetourBinder>,
    owned_binders: Vec<NonstaticDetourBinder>,
    patches: Vec<(usize, Vec<u8>)>,
    inits: Vec<u64>,
    shutdowns: Vec<u64>,
    enablers: Vec<u64>,
    disablers: Vec<u64>,
}

impl HookLibrary {
    /// The static binders, in registration order.
    pub closed spec fn spec_binders(self) -> Seq<StaticDetourBinder> {
        self.binders@
    }

    /// The runtime binders, in registration order.
    pub closed spec fn spec_owned(self) -> Seq<NonstaticDetourBinder> {
        self.owned_binders@
    }

    /// The raw patches, in registration order: address and replacement bytes.
    pub closed spec fn spec_patches(self) -> Seq<(int, Seq<u8>)> {
        self.patches@.map_values(|p: (usize, Vec<u8>)| (p.0 as int, p.1@))
    }

    /// The registered init callback tokens.
    pub closed spec fn spec_inits(self) -> Seq<u64> {
        self.inits@
    }

    /// The registered shutdown callback tokens.
    pub closed spec fn spec_shutdowns(self) -> Seq<u64> {
        self.shutdowns@
    }

    /// The registered enable callback tokens.
    pub closed spec fn spec_enablers(self) -> Seq<u64> {
        self.enablers@
    }

    /// The registered disable callback tokens.
    pub closed spec fn spec_disablers(self) -> Seq<u64> {
        self.disablers@
    }

    /// How many binders the library holds, static binders first.
    pub open spec fn n_binders(self) -> int {
        self.spec_binders().len() + self.spec_owned().len() as int
    }

    /// Whether binder `j` (static binders first, then runtime binders)
    /// reports its detour installed.
    pub open spec fn binder_enabled(self, j: int) -> bool {
        if j < self.spec_binders().len() {
            self.spec_binders()[j].spec_enabled()
        } else {
            self.spec_owned()[j - self.spec_binders().len()].spec_enabled()
        }
    }

    /// Everything but the enabled flags is as before: the binders keep their
    /// identity, bound addresses and order, and the patch and token lists are
    /// untouched.
    pub open spec fn same_structure(pre: HookLibrary, post: HookLibrary) -> bool {
        &&& post.spec_binders().len() == pre.spec_binders().len()
        &&& forall|i: int|
            0 <= i < pre.spec_binders().len() ==> StaticDetourBinder::same_identity(
                pre.spec_binders()[i],
                #[trigger] post.spec_binders()[i],
            ) && post.spec_binders()[i].bound() == pre.spec_binders()[i].bound()
        &&& post.spec_owned().len() == pre.spec_owned().len()
        &&& forall|i: int|
            0 <= i < pre.spec_owned().len() ==> (#[trigger] post.spec_owned()[i]).spec_address()
                == pre.spec_owned()[i].spec_address()
        &&& post.spec_patches() == pre.spec_patches()
        &&& post.spec_inits() == pre.spec_inits()
        &&& post.spec_shutdowns() == pre.spec_shutdowns()
        &&& post.spec_enablers() == pre.spec_enablers()
        &&& post.spec_disablers() == pre.spec_disablers()
    }

    /// The first `k` binders report `enabled`, the rest as before.
    pub open spec fn flags_set_prefix(
        pre: HookLibrary,
        post: HookLibrary,
        k: int,
        enabled: bool,
    ) -> bool {
        &&& forall|j: int| 0 <= j < k ==> #[trigger] post.binder_enabled(j) == enabled
        &&& forall|j: int|
            k <= j < pre.n_binders() ==> #[trigger] post.binder_enabled(j) == pre.binder_enabled(j)
    }

    /// Every binder reports `enabled`.
    pub open spec fn all_flags(self, enabled: bool) -> bool {
        forall|j: int| 0 <= j < self.n_binders() ==> #[trigger] self.binder_enabled(j) == enabled
    }

    /// An empty library: toggling it is a no-op that succeeds.
    pub fn new() -> (r: HookLibrary)
        ensures
            r.spec_binders().len() == 0,
            r.spec_owned().len() == 0,
            r.spec_patches().len() == 0,
            r.spec_inits().len() == 0,
            r.spec_shutdowns().len() == 0,
            r.spec_enablers().len() == 0,
            r.spec_disablers().len() == 0,
    {
        HookLibrary {
            binders: Vec::new(),
            owned_binders: Vec::new(),
            patches: Vec::new(),
            inits: Vec::new(),
            shutdowns: Vec::new(),
            enablers: Vec::new(),
            disablers: Vec::new(),
        }
    }

    /// Registers a static binder.
    pub fn with_binder(self, binder: StaticDetourBinder) -> (r: HookLibrary)
        ensures
            r.spec_binders() == self.spec_binders().push(binder),
            r.spec_owned() == self.spec_owned(),
            r.spec_patches() == self.spec_patches(),
            r.spec_inits() == self.spec_inits(),
            r.spec_shutdowns() == self.spec_shutdowns(),
            r.spec_enablers() == self.spec_enablers(),
            r.spec_disablers() == self.spec_disablers(),
    {
        let mut s = self;
        s.binders.push(binder);
        s
    }

    /// Registers a runtime binder.
    pub fn with_runtime_binder(self, binder: NonstaticDetourBinder) -> (r: HookLibrary)
        ensures
            r.spec_owned() == self.spec_owned().push(binder),
            r.spec_binders() == self.spec_binders(),
            r.spec_patches() == self.spec_patches(),
            r.spec_inits() == self.spec_inits(),
            r.spec_shutdowns() == self.spec_shutdowns(),
            r.spec_enablers() == self.spec_enablers(),
            r.spec_disablers() == self.spec_disablers(),
    {
        let mut s = self;
        s.owned_binders.push(binder);
        s
    }

    /// Registers an enable and a disable callback token as one pair.
    pub fn with_callbacks(self, enable: u64, disable: u64) -> (r: HookLibrary)
        ensures
            r.spec_enablers() == self.spec_enablers().push(enable),
            r.spec_disablers() == self.spec_disablers().push(disable),
            r.spec_binders() == self.spec_binders(),
            r.spec_owned() == self.spec_owned(),
            r.spec_patches() == self.spec_patches(),
            r.spec_inits() == self.spec_inits(),
            r.spec_shutdowns() == self.spec_shutdowns(),
    {
        let mut s = self;
        s.enablers.push(enable);
        s.disablers.push(disable);
        s
    }

    /// Registers a raw byte patch to apply on enable and remove on disable.
    pub fn with_patch(self, address: usize, bytes: &[u8]) -> (r: HookLibrary)
        ensures
            r.spec_patches() == self.spec_patches().push((address as int, bytes@)),
            r.spec_binders() == self.spec_binders(),
            r.spec_owned() == self.spec_owned(),
            r.spec_inits() == self.spec_inits(),
            r.spec_shutdowns() == self.spec_shutdowns(),
            r.spec_enablers() == self.spec_enablers(),
            r.spec_disablers() == self.spec_disablers(),
    {
        let mut s = self;
        s.patches.push((address, slice_to_vec(bytes)));
        proof {
            assert(s.spec_patches() =~= self.spec_patches().push((address as int, bytes@)));
        }
        s
    }

    /// Registers an init callback token, run by `init` after binding.
    pub fn on_init(self, token: u64) -> (r: HookLibrary)
        ensures
            r.spec_inits() == self.spec_inits().push(token),
            r.spec_binders() == self.spec_binders(),
            r.spec_owned() == self.spec_owned(),
            r.spec_patches() == self.spec_patches(),
            r.spec_shutdowns() == self.spec_shutdowns(),
            r.spec_enablers() == self.spec_enablers(),
            r.spec_disablers() == self.spec_disablers(),
    {
        let mut s = self;
        s.inits.push(token);
        s
    }

    /// Registers a shutdown callback token, run exactly once by `shutdown`.
    pub fn on_shutdown(self, token: u64) -> (r: HookLibrary)
        ensures
            r.spec_shutdowns() == self.spec_shutdowns().push(token),
            r.spec_binders() == self.spec_binders(),
            r.spec_owned() == self.spec_owned(),
            r.spec_patches() == self.spec_patches(),
            r.spec_inits() == self.spec_inits(),
            r.spec_enablers() == self.spec_enablers(),
            r.spec_disablers() == self.spec_disablers(),
    {
        let mut s = self;
        s.shutdowns.push(token);
        s
    }

    /// Registers an enable callback token.
    pub fn on_enable(self, token: u64) -> (r: HookLibrary)
        ensures
            r.spec_enablers() == self.spec_enablers().push(token),
            r.spec_binders() == self.spec_binders(),
            r.spec_owned() == self.spec_owned(),
            r.spec_patches() == self.spec_patches(),
            r.spec_inits() == self.spec_inits(),
            r.spec_shutdowns() == self.spec_shutdowns(),
            r.spec_disablers() == self.spec_disablers(),
    {
        let mut s = self;
        s.enablers.push(token);
        s
    }

    /// Registers a disable callback token.
    pub fn on_disable(self, token: u64) -> (r: HookLibrary)
        ensures
            r.spec_disablers() == self.spec_disablers().push(token),
            r.spec_binders() == self.spec_binders(),
            r.spec_owned() == self.spec_owned(),
            r.spec_patches() == self.spec_patches(),
            r.spec_inits() == self.spec_inits(),
            r.spec_shutdowns() == self.spec_shutdowns(),
            r.spec_enablers() == self.spec_enablers(),
    {
        let mut s = self;
        s.disablers.push(token);
        s
    }

    /// The static binders, for inspection.
    pub fn binders(&self) -> (r: &Vec<StaticDetourBinder>)
        ensures
            r@ == self.spec_binders(),
    {
        &self.binders
    }

    /// The runtime binders, for inspection.
    pub fn runtime_binders(&self) -> (r: &Vec<NonstaticDetourBinder>)
        ensures
            r@ == self.spec_owned(),
    {
        &self.owned_binders
    }

    /// The binders keep their identity, enabled flags and order; bound
    /// addresses, once resolved, are kept; patches and tokens are untouched.
    pub open spec fn binders_kept(pre: HookLibrary, post: HookLibrary) -> bool {
        &&& post.spec_binders().len() == pre.spec_binders().len()
        &&& forall|i: int|
            0 <= i < pre.spec_binders().len() ==> StaticDetourBinder::same_identity(
                pre.spec_binders()[i],
                #[trigger] post.spec_binders()[i],
            ) && post.spec_binders()[i].spec_enabled() == pre.spec_binders()[i].spec_enabled() && (
            pre.spec_binders()[i].bound() is Some ==> post.spec_binders()[i].bound()
                == pre.spec_binders()[i].bound())
        &&& post.spec_owned() == pre.spec_owned()
        &&& post.spec_patches() == pre.spec_patches()
        &&& post.spec_inits() == pre.spec_inits()
        &&& post.spec_shutdowns() == pre.spec_shutdowns()
        &&& post.spec_enablers() == pre.spec_enablers()
        &&& post.spec_disablers() == pre.spec_disablers()
    }

    /// Binds every unbound static binder, in order, then runs the init
    /// callbacks. A binder already bound stays bound; a fixed source binds to
    /// its declared address. On the first failure the earlier binders keep
    /// their fresh bindings and the rest stay as they were.
    pub fn init<F: Copy + Fn(HookAction) -> bool>(
        &mut self,
        module: &mut Module,
        dispatch: F,
    ) -> (r: Result<(), HookError>)
        requires
            forall|a: HookAction| #[trigger] call_requires(dispatch, (a,)),
            old(module).wf(),
        ensures
            final(module).wf(),
            Module::same_image(*old(module), *final(module)),
            HookLibrary::binders_kept(*old(self), *final(self)),
            r is Ok ==> forall|i: int|
                0 <= i < final(self).spec_binders().len()
                    ==> (#[trigger] final(self).spec_binders()[i]).bound() is Some,
            r is Ok ==> forall|i: int|
                0 <= i < final(self).spec_binders().len() && old(self).spec_binders()[i].bound()
                    is None ==> #[trigger] StaticDetourBinder::fixed_bound_ok(
                    old(self).spec_binders()[i],
                    final(self).spec_binders()[i],
                ),
            r is Ok ==> forall|i: int|
                0 <= i < final(self).spec_binders().len() && old(self).spec_binders()[i].bound()
                    is None && old(self).spec_binders()[i].sig_source() is Some ==> ((
                #[trigger] final(self).spec_binders()[i]).bound() matches Some(a) && old(
                    module,
                ).spec_base() <= a <= old(module).spec_base() + old(module).scan_source().len()),
            r is Ok ==> forall|i: int|
                0 <= i < old(self).spec_inits().len() ==> #[trigger] call_ensures(
                    dispatch,
                    (HookAction::RunInit(old(self).spec_inits()[i]),),
                    true,
                ),
            r matches Err(e) ==> (e is BindFailed || e is ActionFailed),
            (forall|i: int|
                0 <= i < old(self).spec_binders().len() ==> ((#[trigger] old(
                    self,
                ).spec_binders()[i]).bound() is Some || old(self).spec_binders()[i].fixed_source()
                    is Some)) && old(self).spec_inits().len() == 0 ==> r is Ok,
            r matches Err(e) ==> (e matches HookError::BindFailed { name, cause } ==> exists|
                j: int,
            |
                0 <= j < old(self).spec_binders().len() && (#[trigger] old(
                    self,
                ).spec_binders()[j]).bound() is None && old(self).spec_binders()[j].sig_source()
                    is Some && name@ == old(self).spec_binders()[j].spec_name()
                    && final(self).spec_binders()[j].bound() is None && (forall|j2: int|
                    0 <= j2 < j ==> (#[trigger] final(self).spec_binders()[j2]).bound() is Some)
                    && (forall|j2: int|
                    j < j2 < old(self).spec_binders().len()
                        ==> (#[trigger] final(self).spec_binders()[j2]).bound() == old(
                        self,
                    ).spec_binders()[j2].bound())),
            r matches Err(e) ==> (e is ActionFailed ==> forall|i: int|
                0 <= i < final(self).spec_binders().len()
                    ==> (#[trigger] final(self).spec_binders()[i]).bound() is Some),
            r matches Err(e) ==> (e matches HookError::ActionFailed { action } ==> call_ensures(
                dispatch,
                (action,),
                false,
            )),
    {
        let ghost mb = module.spec_base();
        let ghost msl = module.scan_source().len() as int;
        let n = self.binders.len();
        let mut i: usize = 0;
        while i < n
            invariant
                forall|a: HookAction| #[trigger] call_requires(dispatch, (a,)),
                module.wf(),
                Module::same_image(*old(module), *module),
                n == self.spec_binders().len(),
                i <= n,
                HookLibrary::binders_kept(*old(self), *self),
                forall|j: int|
                    0 <= j < i ==> (#[trigger] self.spec_binders()[j]).bound() is Some,
                forall|j: int|
                    0 <= j < i && old(self).spec_binders()[j].bound() is None
                        ==> #[trigger] StaticDetourBinder::fixed_bound_ok(
                        old(self).spec_binders()[j],
                        self.spec_binders()[j],
                    ),
                forall|j: int|
                    i <= j < n ==> #[trigger] self.spec_binders()[j] == old(self).spec_binders()[j],
                mb == old(module).spec_base(),
                msl == old(module).scan_source().len(),
                forall|j: int|
                    0 <= j < i && old(self).spec_binders()[j].bound() is None && old(
                        self,
                    ).spec_binders()[j].sig_source() is Some ==> ((#[trigger] self.spec_binders()[j]).bound() matches Some(
                        a,
                    ) && mb <= a <= mb + msl),
            decreases n - i,
        {
            let ghost prev = *self;
            let ghost mod_prev = *module;
            let res = self.binders[i].bind(module);
            proof {
                assert(self.spec_binders().len() == n);
                assert(forall|j: int|
                    0 <= j < n && j != i ==> #[trigger] self.spec_binders()[j]
                        == prev.spec_binders()[j]);
                assert forall|j: int| 0 <= j < i implies (#[trigger] self.spec_binders()[j]).bound()
                    is Some by {
                    assert(prev.spec_binders()[j].bound() is Some);
                }
                assert forall|j: int|
                    0 <= j < i && old(self).spec_binders()[j].bound() is None
                        implies #[trigger] StaticDetourBinder::fixed_bound_ok(
                    old(self).spec_binders()[j],
                    self.spec_binders()[j],
                ) by {
                    assert(StaticDetourBinder::fixed_bound_ok(
                        old(self).spec_binders()[j],
                        prev.spec_binders()[j],
                    ));
                }
                assert forall|j: int|
                    i + 1 <= j < n implies #[trigger] self.spec_binders()[j] == old(
                    self,
                ).spec_binders()[j] by {
                    assert(prev.spec_binders()[j] == old(self).spec_binders()[j]);
                }
                assert(prev.spec_binders()[i as int] == old(self).spec_binders()[i as int]);
                if res is Ok {
                    assert forall|j: int|
                        0 <= j < i + 1 && old(self).spec_binders()[j].bound() is None && old(
                            self,
                        ).spec_binders()[j].sig_source() is Some implies ((
                        #[trigger] self.spec_binders()[j]).bound() matches Some(a) && mb <= a <= mb
                            + msl) by {
                        if j < i {
                            assert(prev.spec_binders()[j] == self.spec_binders()[j]);
                            assert((prev.spec_binders()[j].bound() matches Some(a) && mb <= a <= mb
                                + msl));
                        } else {
                            assert(mod_prev.spec_base() == mb);
                            assert(mod_prev.scan_source().len() == msl);
                        }
                    }
                }
            }
            if let Err(e) = res {
                proof {
                    assert(old(self).spec_binders()[i as int].bound() is None);
                    assert(old(self).spec_binders()[i as int].sig_source() is Some);
                    assert(self.spec_binders()[i as int].bound() is None);
                    assert forall|j2: int|
                        0 <= j2 < i implies (#[trigger] self.spec_binders()[j2]).bound()
                        is Some by {
                        assert(prev.spec_binders()[j2].bound() is Some);
                    }
                    assert forall|j2: int|
                        i < j2 < n implies (#[trigger] self.spec_binders()[j2]).bound() == old(
                        self,
                    ).spec_binders()[j2].bound() by {
                        assert(self.spec_binders()[j2] == prev.spec_binders()[j2]);
                        assert(prev.spec_binders()[j2] == old(self).spec_binders()[j2]);
                    }
                }
                return Err(e);
            }
            i += 1;
        }
        let rt = HookLibrary::run_tokens(&self.inits, TokenKind::Init, dispatch);
        match rt {
            Ok(()) => {
                proof {
                    assert forall|k: int|
                        0 <= k < old(self).spec_inits().len() implies #[trigger] call_ensures(
                        dispatch,
                        (HookAction::RunInit(old(self).spec_inits()[k]),),
                        true,
                    ) by {
                        assert(call_ensures(
                            dispatch,
                            (spec_token_action(TokenKind::Init, self.spec_inits()[k]),),
                            true,
                        ));
                    }
                }
                Ok(())
            },
            Err(e) => Err(e),
        }
    }

    /// Runs the shutdown callbacks. Consuming the library here is what makes
    /// them run exactly once.
    pub fn shutdown<F: Copy + Fn(HookAction) -> bool>(self, dispatch: F) -> (r: Result<
        (),
        HookError,
    >)
        requires
            forall|a: HookAction| #[trigger] call_requires(dispatch, (a,)),
        ensures
            r matches Err(e) ==> (e matches HookError::ActionFailed { action } && call_ensures(
                dispatch,
                (action,),
                false,
            )),
            self.spec_shutdowns().len() == 0 ==> r is Ok,
            r is Ok ==> forall|i: int|
                0 <= i < self.spec_shutdowns().len() ==> #[trigger] call_ensures(
                    dispatch,
                    (HookAction::RunShutdown(self.spec_shutdowns()[i]),),
                    true,
                ),
    {
        let r = HookLibrary::run_tokens(&self.shutdowns, TokenKind::Shutdown, dispatch);
        proof {
            if r is Ok {
                assert forall|k: int|
                    0 <= k < self.spec_shutdowns().len() implies #[trigger] call_ensures(
                    dispatch,
                    (HookAction::RunShutdown(self.spec_shutdowns()[k]),),
                    true,
                ) by {
                    assert(call_ensures(
                        dispatch,
                        (spec_token_action(TokenKind::Shutdown, self.spec_shutdowns()[k]),),
                        true,
                    ));
                }
            }
        }
        r
    }

    fn run_tokens<F: Copy + Fn(HookAction) -> bool>(
        tokens: &Vec<u64>,
        kind: TokenKind,
        dispatch: F,
    ) -> (r: Result<(), HookError>)
        requires
            forall|a: HookAction| #[trigger] call_requires(dispatch, (a,)),
        ensures
            r matches Err(e) ==> (e matches HookError::ActionFailed { action } && call_ensures(
                dispatch,
                (action,),
                false,
            )),
            tokens@.len() == 0 ==> r is Ok,
            r is Ok ==> forall|i: int|
                0 <= i < tokens@.len() ==> #[trigger] call_ensures(
                    dispatch,
                    (spec_token_action(kind, tokens@[i]),),
                    true,
                ),
    {
        let n = tokens.len();
        let mut i: usize = 0;
        while i < n
            invariant
                forall|a: HookAction| #[trigger] call_requires(dispatch, (a,)),
                n == tokens@.len(),
                i <= n,
                forall|j: int|
                    0 <= j < i ==> #[trigger] call_ensures(
                        dispatch,
                        (spec_token_action(kind, tokens@[j]),),
                        true,
                    ),
            decreases n - i,
        {
            let t = tokens[i];
            let action = match kind {
                TokenKind::Init => HookAction::RunInit(t),
                TokenKind::Shutdown => HookAction::RunShutdown(t),
                TokenKind::Enable => HookAction::RunEnable(t),
                TokenKind::Disable => HookAction::RunDisable(t),
            };
            if !dispatch(action) {
                return Err(HookError::ActionFailed { action });
            }
            i += 1;
        }
        Ok(())
    }

    /// Toggles every binder to `enabled`: static binders first, then runtime
    /// binders, each through the dispatcher. Stops at the first failure,
    /// leaving the earlier binders toggled.
    fn set_binders_enabled<F: Copy + Fn(HookAction) -> bool>(
        &mut self,
        dispatch: F,
        enabled: bool,
    ) -> (r: Result<(), HookError>)
        requires
            forall|a: HookAction| #[trigger] call_requires(dispatch, (a,)),
        ensures
            HookLibrary::same_structure(*old(self), *final(self)),
            old(self).n_binders() == 0 ==> r is Ok,
            match r {
                Ok(()) => final(self).all_flags(enabled),
                Err(e) => (exists|k: int|
                    0 <= k <= old(self).n_binders() && #[trigger] HookLibrary::flags_set_prefix(
                        *old(self),
                        *final(self),
                        k,
                        enabled,
                    )) && (e is NotBound || e is ActionFailed) && (e matches
                HookError::ActionFailed { action } ==> call_ensures(dispatch, (action,), false))
                    && (e matches HookError::NotBound { name } ==> exists|j: int|
                    0 <= j < old(self).spec_binders().len() && (#[trigger] old(
                        self,
                    ).spec_binders()[j]).bound() is None && name@ == old(
                        self,
                    ).spec_binders()[j].spec_name()),
            },
    {
        let nb = self.binders.len();
        let mut i: usize = 0;
        while i < nb
            invariant
                forall|a: HookAction| #[trigger] call_requires(dispatch, (a,)),
                nb == self.spec_binders().len(),
                i <= nb,
                HookLibrary::same_structure(*old(self), *self),
                forall|j: int| 0 <= j < i ==> #[trigger] self.binder_enabled(j) == enabled,
                forall|j: int|
                    i <= j < old(self).n_binders()
                        ==> #[trigger] self.binder_enabled(j) == old(self).binder_enabled(j),
            decreases nb - i,
        {
            let ghost prev = *self;
            let res = if enabled {
                self.binders[i].enable(dispatch)
            } else {
                self.binders[i].disable(dispatch)
            };
            proof {
                assert(self.spec_binders().len() == nb);
                assert(forall|j: int|
                    0 <= j < nb && j != i ==> #[trigger] self.spec_binders()[j]
                        == prev.spec_binders()[j]);
                assert(self.spec_owned() == prev.spec_owned());
                assert forall|j: int| 0 <= j < i implies #[trigger] self.binder_enabled(j)
                    == enabled by {
                    assert(prev.binder_enabled(j) == enabled);
                }
                assert forall|j: int|
                    i < j < old(self).n_binders() implies #[trigger] self.binder_enabled(j) == old(
                    self,
                ).binder_enabled(j) by {
                    assert(prev.binder_enabled(j) == old(self).binder_enabled(j));
                }
            }
            if let Err(e) = res {
                proof {
                    assert(self.binder_enabled(i as int) == prev.binder_enabled(i as int));
                    assert(prev.binder_enabled(i as int) == old(self).binder_enabled(i as int));
                    assert(HookLibrary::flags_set_prefix(*old(self), *self, i as int, enabled));
                }
                return Err(e);
            }
            proof {
                assert(self.spec_binders()[i as int].spec_enabled() == enabled);
                assert(self.binder_enabled(i as int) == enabled);
            }
            i += 1;
        }
        let no = self.owned_binders.len();
        let mut j: usize = 0;
        while j < no
            invariant
                forall|a: HookAction| #[trigger] call_requires(dispatch, (a,)),
                nb == self.spec_binders().len(),
                no == self.spec_owned().len(),
                j <= no,
                HookLibrary::same_structure(*old(self), *self),
                forall|q: int| 0 <= q < nb + j ==> #[trigger] self.binder_enabled(q) == enabled,
                forall|q: int|
                    nb + j <= q < old(self).n_binders() ==> #[trigger] self.binder_enabled(q)
                        == old(self).binder_enabled(q),
            decreases no - j,
        {
            let ghost prev = *self;
            let res = if enabled {
                self.owned_binders[j].enable(dispatch)
            } else {
                self.owned_binders[j].disable(dispatch)
            };
            proof {
                assert(self.spec_owned().len() == no);
                assert(forall|q: int|
                    0 <= q < no && q != j ==> #[trigger] self.spec_owned()[q]
                        == prev.spec_owned()[q]);
                assert(self.spec_binders() == prev.spec_binders());
                assert forall|q: int| 0 <= q < nb + j implies #[trigger] self.binder_enabled(q)
                    == enabled by {
                    assert(prev.binder_enabled(q) == enabled);
                }
                assert forall|q: int|
                    nb + j < q < old(self).n_binders() implies #[trigger] self.binder_enabled(q)
                    == old(self).binder_enabled(q) by {
                    assert(prev.binder_enabled(q) == old(self).binder_enabled(q));
                }
            }
            if let Err(e) = res {
                proof {
                    assert(self.binder_enabled(nb + j as int) == prev.binder_enabled(
                        nb + j as int,
                    ));
                    assert(prev.binder_enabled(nb + j as int) == old(self).binder_enabled(
                        nb + j as int,
                    ));
                    assert(HookLibrary::flags_set_prefix(
                        *old(self),
                        *self,
                        nb + j as int,
                        enabled,
                    ));
                }
                return Err(e);
            }
            proof {
                assert(self.spec_owned()[j as int].spec_enabled() == enabled);
                assert(self.binder_enabled(nb + j as int) == enabled);
            }
            j += 1;
        }
        Ok(())
    }

    /// Applies every registered patch, in order, through the patcher,
    /// checking each first: a patch outside the memory span, or one that
    /// re-patches a recorded address with another length, stops the sequence
    /// with the earlier patches applied.
    fn apply_patches_exec(&self, patcher: &mut Patcher, mem: &mut ProcessMemory) -> (r: Result<
        (),
        HookError,
    >)
        requires
            old(patcher).wf(),
            old(mem).wf(),
            old(patcher).entries_in_range(*old(mem)),
        ensures
            final(patcher).wf(),
            final(mem).wf(),
            final(mem).spec_base() == old(mem).spec_base(),
            final(mem).contents().len() == old(mem).contents().len(),
            final(patcher).entries_in_range(*final(mem)),
            match r {
                Ok(()) => patches_applicable(
                    old(patcher).ledger(),
                    old(mem).contents(),
                    old(mem).spec_base(),
                    self.spec_patches(),
                ) && final(patcher).ledger() == apply_patches(
                    old(patcher).ledger(),
                    old(mem).contents(),
                    old(mem).spec_base(),
                    self.spec_patches(),
                ).0 && final(mem).contents() == apply_patches(
                    old(patcher).ledger(),
                    old(mem).contents(),
                    old(mem).spec_base(),
                    self.spec_patches(),
                ).1,
                Err(e) => e matches HookError::PatchFailed { address } && (exists|k: int|
                    0 <= k < self.spec_patches().len() && ({
                        let lm = apply_patches(
                            old(patcher).ledger(),
                            old(mem).contents(),
                            old(mem).spec_base(),
                            #[trigger] self.spec_patches().subrange(0, k),
                        );
                        let p = self.spec_patches()[k];
                        &&& address == p.0
                        &&& final(patcher).ledger() == lm.0
                        &&& final(mem).contents() == lm.1
                        &&& !(old(mem).spec_base() <= p.0 && p.0 + p.1.len() <= old(
                            mem,
                        ).spec_base() + lm.1.len() && (find_entry(lm.0, p.0) matches Some(o)
                            ==> o.len() == p.1.len()))
                    })),
            },
            patches_applicable(
                old(patcher).ledger(),
                old(mem).contents(),
                old(mem).spec_base(),
                self.spec_patches(),
            ) ==> r is Ok,
    {
        let n = self.patches.len();
        let ghost base = mem.spec_base();
        let ghost full = self.spec_patches();
        let ghost l0 = patcher.ledger();
        let ghost m0 = mem.contents();
        proof {
            assert(full.subrange(0, 0) =~= Seq::<(int, Seq<u8>)>::empty());
            assert(full.subrange(0, n as int) =~= full);
        }
        let mut i: usize = 0;
        while i < n
            invariant
                patcher.wf(),
                mem.wf(),
                mem.spec_base() == base,
                mem.contents().len() == m0.len(),
                patcher.entries_in_range(*mem),
                n == full.len(),
                full == self.spec_patches(),
                l0 == old(patcher).ledger(),
                m0 == old(mem).contents(),
                base == old(mem).spec_base(),
                i <= n,
                patches_applicable(l0, m0, base, full.subrange(0, i as int)),
                patcher.ledger() == apply_patches(l0, m0, base, full.subrange(0, i as int)).0,
                mem.contents() == apply_patches(l0, m0, base, full.subrange(0, i as int)).1,
                patches_applicable(l0, m0, base, full) ==> patches_applicable(
                    patcher.ledger(),
                    mem.contents(),
                    base,
                    full.subrange(i as int, n as int),
                ),
            decreases n - i,
        {
            let ghost prefix = full.subrange(0, i as int);
            let ghost rem = full.subrange(i as int, n as int);
            proof {
                assert(full[i as int] == (self.patches@[i as int].0 as int, self.patches@[
                    i as int].1@));
                assert(prefix.push(full[i as int]) =~= full.subrange(0, i + 1));
                assert(rem[0] == full[i as int]);
                assert(rem.drop_first() =~= full.subrange(i + 1, n as int));
                lemma_apply_patches_append(l0, m0, base, prefix, full[i as int]);
            }
            let addr = self.patches[i].0;
            let blen = self.patches[i].1.len();
            let mb = mem.base();
            let ml = mem.len();
            let within = addr >= mb && addr - mb <= ml && blen <= ml - (addr - mb);
            let len_ok = match patcher.recorded_len(addr) {
                Some(l) => l == blen,
                None => true,
            };
            if !(within && len_ok) {
                proof {
                    assert(mem.spec_base() == base);
                    assert(patcher.ledger() == apply_patches(
                        l0,
                        m0,
                        base,
                        self.spec_patches().subrange(0, i as int),
                    ).0);
                    assert(mem.contents() == apply_patches(
                        l0,
                        m0,
                        base,
                        self.spec_patches().subrange(0, i as int),
                    ).1);
                    assert(!(base <= full[i as int].0 && full[i as int].0 + full[
                        i as int].1.len() <= base + mem.contents().len() && (find_entry(
                        patcher.ledger(),
                        full[i as int].0,
                    ) matches Some(o) ==> o.len() == full[i as int].1.len())));
                    assert(!patches_applicable(l0, m0, base, full));
                }
                return Err(HookError::PatchFailed { address: addr });
            }
            patcher.patch(mem, addr, self.patches[i].1.as_slice());
            i += 1;
        }
        proof {
            assert(full.subrange(0, n as int) =~= full);
        }
        Ok(())
    }

    /// Removes every registered patch, in order, restoring the recorded
    /// original bytes. Stops at the first address with no recorded patch.
    /// Removes every registered patch, in order, restoring the recorded
    /// original bytes. An address with no recorded patch is skipped — not
    /// found is not a failure — so the sequence always runs to the end.
    fn remove_patches_exec(&self, patcher: &mut Patcher, mem: &mut ProcessMemory)
        requires
            old(patcher).wf(),
            old(mem).wf(),
            old(patcher).entries_in_range(*old(mem)),
        ensures
            final(patcher).wf(),
            final(mem).wf(),
            final(mem).spec_base() == old(mem).spec_base(),
            final(mem).contents().len() == old(mem).contents().len(),
            final(patcher).entries_in_range(*final(mem)),
            final(patcher).ledger() == remove_patches(
                old(patcher).ledger(),
                old(mem).contents(),
                old(mem).spec_base(),
                self.spec_patches(),
            ).0,
            final(mem).contents() == remove_patches(
                old(patcher).ledger(),
                old(mem).contents(),
                old(mem).spec_base(),
                self.spec_patches(),
            ).1,
    {
        let n = self.patches.len();
        let ghost base = mem.spec_base();
        let ghost full = self.spec_patches();
        let ghost l0 = patcher.ledger();
        let ghost m0 = mem.contents();
        proof {
            assert(full.subrange(0, 0) =~= Seq::<(int, Seq<u8>)>::empty());
        }
        let mut i: usize = 0;
        while i < n
            invariant
                patcher.wf(),
                mem.wf(),
                mem.spec_base() == base,
                mem.contents().len() == m0.len(),
                patcher.entries_in_range(*mem),
                n == full.len(),
                full == self.spec_patches(),
                l0 == old(patcher).ledger(),
                m0 == old(mem).contents(),
                base == old(mem).spec_base(),
                i <= n,
                patcher.ledger() == remove_patches(l0, m0, base, full.subrange(0, i as int)).0,
                mem.contents() == remove_patches(l0, m0, base, full.subrange(0, i as int)).1,
            decreases n - i,
        {
            let ghost prefix = full.subrange(0, i as int);
            proof {
                assert(full[i as int] == (self.patches@[i as int].0 as int, self.patches@[
                    i as int].1@));
                assert(prefix.push(full[i as int]) =~= full.subrange(0, i + 1));
            }
            let addr = self.patches[i].0;
            let _ = patcher.unpatch(mem, addr);
            proof {
                lemma_remove_patches_append(l0, m0, base, prefix, full[i as int]);
            }
            i += 1;
        }
        proof {
            assert(full.subrange(0, n as int) =~= full);
        }
    }

    /// Enables or disables everything together. Enabling toggles the binders
    /// on, runs the enable callbacks, then applies the raw patches; disabling
    /// removes the raw patches, runs the disable callbacks, then toggles the
    /// binders off — the exact inverse order. A failure stops the sequence
    /// and leaves what succeeded in place; `set_enabled(false)` is the way to
    /// unwind a partial enable, and it skips patches that were never applied.
    #[verifier::spinoff_prover]
    #[verifier::rlimit(100)]
    pub fn set_enabled<F: Copy + Fn(HookAction) -> bool>(
        &mut self,
        patcher: &mut Patcher,
        mem: &mut ProcessMemory,
        dispatch: F,
        enabled: bool,
    ) -> (r: Result<(), HookError>)
        requires
            forall|a: HookAction| #[trigger] call_requires(dispatch, (a,)),
            old(patcher).wf(),
            old(mem).wf(),
            old(patcher).entries_in_range(*old(mem)),
        ensures
            HookLibrary::same_structure(*old(self), *final(self)),
            final(patcher).wf(),
            final(mem).wf(),
            final(mem).spec_base() == old(mem).spec_base(),
            final(mem).contents().len() == old(mem).contents().len(),
            final(patcher).entries_in_range(*final(mem)),
            enabled ==> match r {
                Ok(()) => final(self).all_flags(true) && (forall|i: int|
                    0 <= i < old(self).spec_enablers().len() ==> #[trigger] call_ensures(
                        dispatch,
                        (HookAction::RunEnable(old(self).spec_enablers()[i]),),
                        true,
                    )) && patches_applicable(
                    old(patcher).ledger(),
                    old(mem).contents(),
                    old(mem).spec_base(),
                    old(self).spec_patches(),
                ) && final(patcher).ledger() == apply_patches(
                    old(patcher).ledger(),
                    old(mem).contents(),
                    old(mem).spec_base(),
                    old(self).spec_patches(),
                ).0 && final(mem).contents() == apply_patches(
                    old(patcher).ledger(),
                    old(mem).contents(),
                    old(mem).spec_base(),
                    old(self).spec_patches(),
                ).1,
                Err(e) => {
                    &&& (exists|k: int|
                        0 <= k <= old(self).spec_patches().len() && final(patcher).ledger() == (
                        #[trigger] apply_patches(
                            old(patcher).ledger(),
                            old(mem).contents(),
                            old(mem).spec_base(),
                            old(self).spec_patches().subrange(0, k),
                        )).0 && final(mem).contents() == apply_patches(
                            old(patcher).ledger(),
                            old(mem).contents(),
                            old(mem).spec_base(),
                            old(self).spec_patches().subrange(0, k),
                        ).1)
                    &&& (exists|k: int|
                        0 <= k <= old(self).n_binders()
                            && #[trigger] HookLibrary::flags_set_prefix(
                            *old(self),
                            *final(self),
                            k,
                            true,
                        ))
                    &&& (e is NotBound || e is ActionFailed || e is PatchFailed)
                    &&& (e matches HookError::ActionFailed { action } ==> call_ensures(
                        dispatch,
                        (action,),
                        false,
                    ))
                    &&& (e matches HookError::NotBound { name } ==> exists|j: int|
                        0 <= j < old(self).spec_binders().len() && (#[trigger] old(
                            self,
                        ).spec_binders()[j]).bound() is None && name@ == old(
                            self,
                        ).spec_binders()[j].spec_name())
                    &&& ((e is NotBound || e is ActionFailed) ==> final(patcher).ledger() == old(
                        patcher,
                    ).ledger() && final(mem).contents() == old(mem).contents())
                    &&& (e is PatchFailed ==> final(self).all_flags(true))
                    &&& (e matches HookError::PatchFailed { address } ==> exists|k: int|
                        0 <= k < old(self).spec_patches().len() && ({
                            let lm = apply_patches(
                                old(patcher).ledger(),
                                old(mem).contents(),
                                old(mem).spec_base(),
                                #[trigger] old(self).spec_patches().subrange(0, k),
                            );
                            let p = old(self).spec_patches()[k];
                            &&& address == p.0
                            &&& final(patcher).ledger() == lm.0
                            &&& final(mem).contents() == lm.1
                            &&& !(old(mem).spec_base() <= p.0 && p.0 + p.1.len() <= old(
                                mem,
                            ).spec_base() + lm.1.len() && (find_entry(lm.0, p.0) matches Some(o)
                                ==> o.len() == p.1.len()))
                        }))
                },
            },
            enabled && old(self).n_binders() == 0 && old(self).spec_enablers().len() == 0
                && patches_applicable(
                old(patcher).ledger(),
                old(mem).contents(),
                old(mem).spec_base(),
                old(self).spec_patches(),
            ) ==> r is Ok,
            !enabled ==> final(patcher).ledger() == remove_patches(
                old(patcher).ledger(),
                old(mem).contents(),
                old(mem).spec_base(),
                old(self).spec_patches(),
            ).0 && final(mem).contents() == remove_patches(
                old(patcher).ledger(),
                old(mem).contents(),
                old(mem).spec_base(),
                old(self).spec_patches(),
            ).1,
            !enabled ==> match r {
                Ok(()) => final(self).all_flags(false) && (forall|i: int|
                    0 <= i < old(self).spec_disablers().len() ==> #[trigger] call_ensures(
                        dispatch,
                        (HookAction::RunDisable(old(self).spec_disablers()[i]),),
                        true,
                    )),
                Err(e) => {
                    &&& (exists|k: int|
                        0 <= k <= old(self).n_binders()
                            && #[trigger] HookLibrary::flags_set_prefix(
                            *old(self),
                            *final(self),
                            k,
                            false,
                        ))
                    &&& (e is NotBound || e is ActionFailed)
                    &&& (e matches HookError::ActionFailed { action } ==> call_ensures(
                        dispatch,
                        (action,),
                        false,
                    ))
                    &&& (e matches HookError::NotBound { name } ==> exists|j: int|
                        0 <= j < old(self).spec_binders().len() && (#[trigger] old(
                            self,
                        ).spec_binders()[j]).bound() is None && name@ == old(
                            self,
                        ).spec_binders()[j].spec_name())
                },
            },
            !enabled && old(self).n_binders() == 0 && old(self).spec_disablers().len() == 0
                ==> r is Ok,
    {
        let ghost ps0 = self.spec_patches();
        let ghost l0 = patcher.ledger();
        let ghost m0 = mem.contents();
        let ghost mb0 = mem.spec_base();
        if enabled {
            let rb = self.set_binders_enabled(dispatch, true);
            if let Err(e) = rb {
                proof {
                    assert(ps0.subrange(0, 0) =~= Seq::<(int, Seq<u8>)>::empty());
                    assert(apply_patches(l0, m0, mb0, ps0.subrange(0, 0)) == (l0, m0));
                }
                return Err(e);
            }
            let rt = HookLibrary::run_tokens(&self.enablers, TokenKind::Enable, dispatch);
            if let Err(e) = rt {
                proof {
                    assert(ps0.subrange(0, 0) =~= Seq::<(int, Seq<u8>)>::empty());
                    assert(apply_patches(l0, m0, mb0, ps0.subrange(0, 0)) == (l0, m0));
                    assert(HookLibrary::flags_set_prefix(
                        *old(self),
                        *self,
                        old(self).n_binders(),
                        true,
                    ));
                }
                return Err(e);
            }
            proof {
                assert forall|k: int|
                    0 <= k < old(self).spec_enablers().len() implies #[trigger] call_ensures(
                    dispatch,
                    (HookAction::RunEnable(old(self).spec_enablers()[k]),),
                    true,
                ) by {
                    assert(call_ensures(
                        dispatch,
                        (spec_token_action(TokenKind::Enable, self.spec_enablers()[k]),),
                        true,
                    ));
                }
            }
            let ra = self.apply_patches_exec(patcher, mem);
            if let Err(e) = ra {
                proof {
                    assert(HookLibrary::flags_set_prefix(
                        *old(self),
                        *self,
                        old(self).n_binders(),
                        true,
                    ));
                }
                return Err(e);
            }
            Ok(())
        } else {
            self.remove_patches_exec(patcher, mem);
            let rt = HookLibrary::run_tokens(&self.disablers, TokenKind::Disable, dispatch);
            if let Err(e) = rt {
                proof {
                    assert(HookLibrary::flags_set_prefix(*old(self), *self, 0, false));
                }
                return Err(e);
            }
            proof {
                assert forall|k: int|
                    0 <= k < old(self).spec_disablers().len() implies #[trigger] call_ensures(
                    dispatch,
                    (HookAction::RunDisable(old(self).spec_disablers()[k]),),
                    true,
                ) by {
                    assert(call_ensures(
                        dispatch,
                        (spec_token_action(TokenKind::Disable, self.spec_disablers()[k]),),
                        true,
                    ));
                }
            }
            let rb = self.set_binders_enabled(dispatch, false);
            if let Err(e) = rb {
                return Err(e);
            }
            Ok(())
        }
    }
}

/// Which callback list a token came from.
enum TokenKind {
    Init,
    Shutdown,
    Enable,
    Disable,
}

/// The action that runs the callback registered under `t` in this list.
spec fn spec_token_action(kind: TokenKind, t: u64) -> HookAction {
    match kind {
        TokenKind::Init => HookAction::RunInit(t),
        TokenKind::Shutdown => HookAction::RunShutdown(t),
        TokenKind::Enable => HookAction::RunEnable(t),
        TokenKind::Disable => HookAction::RunDisable(t),
    }
}

/// Ledger and memory after every library's patches have been applied, in
/// registration order.
pub open spec fn libs_apply(
    l: Seq<(int, Seq<u8>)>,
    m: Seq<u8>,
    base: int,
    libs: Seq<HookLibrary>,
) -> (Seq<(int, Seq<u8>)>, Seq<u8>)
    decreases libs.len(),
{
    if libs.len() == 0 {
        (l, m)
    } else {
        let lm = apply_patches(l, m, base, libs[0].spec_patches());
        libs_apply(lm.0, lm.1, base, libs.drop_first())
    }
}

/// Ledger and memory after every library's patches have been removed, in
/// registration order.
pub open spec fn libs_remove(
    l: Seq<(int, Seq<u8>)>,
    m: Seq<u8>,
    base: int,
    libs: Seq<HookLibrary>,
) -> (Seq<(int, Seq<u8>)>, Seq<u8>)
    decreases libs.len(),
{
    if libs.len() == 0 {
        (l, m)
    } else {
        let lm = remove_patches(l, m, base, libs[0].spec_patches());
        libs_remove(lm.0, lm.1, base, libs.drop_first())
    }
}

proof fn lemma_libs_apply_append(
    l: Seq<(int, Seq<u8>)>,
    m: Seq<u8>,
    base: int,
    libs: Seq<HookLibrary>,
    lib: HookLibrary,
)
    ensures
        libs_apply(l, m, base, libs.push(lib)) == ({
            let lm = libs_apply(l, m, base, libs);
            apply_patches(lm.0, lm.1, base, lib.spec_patches())
        }),
    decreases libs.len(),
{
    if libs.len() == 0 {
        let lm0 = apply_patches(l, m, base, lib.spec_patches());
        assert(libs.push(lib)[0] == lib);
        assert(libs.push(lib).drop_first() =~= Seq::<HookLibrary>::empty());
        assert(libs_apply(lm0.0, lm0.1, base, Seq::<HookLibrary>::empty()) == lm0);
        assert(libs_apply(l, m, base, libs) == (l, m));
    } else {
        let lm = apply_patches(l, m, base, libs[0].spec_patches());
        assert(libs.push(lib)[0] == libs[0]);
        assert(libs.push(lib).drop_first() =~= libs.drop_first().push(lib));
        lemma_libs_apply_append(lm.0, lm.1, base, libs.drop_first(), lib);
    }
}

proof fn lemma_libs_remove_append(
    l: Seq<(int, Seq<u8>)>,
    m: Seq<u8>,
    base: int,
    libs: Seq<HookLibrary>,
    lib: HookLibrary,
)
    ensures
        libs_remove(l, m, base, libs.push(lib)) == ({
            let lm = libs_remove(l, m, base, libs);
            remove_patches(lm.0, lm.1, base, lib.spec_patches())
        }),
    decreases libs.len(),
{
    if libs.len() == 0 {
        let lm0 = remove_patches(l, m, base, lib.spec_patches());
        assert(libs.push(lib)[0] == lib);
        assert(libs.push(lib).drop_first() =~= Seq::<HookLibrary>::empty());
        assert(libs_remove(lm0.0, lm0.1, base, Seq::<HookLibrary>::empty()) == lm0);
        assert(libs_remove(l, m, base, libs) == (l, m));
    } else {
        let lm = remove_patches(l, m, base, libs[0].spec_patches());
        assert(libs.push(lib)[0] == libs[0]);
        assert(libs.push(lib).drop_first() =~= libs.drop_first().push(lib));
        lemma_libs_remove_append(lm.0, lm.1, base, libs.drop_first(), lib);
    }
}

/// Independent hook libraries toggled together: operations fan out in
/// registration order and stop at the first failure, leaving earlier
/// libraries in whatever state their own operation left them.
pub struct HookLibraries {
    libraries: Vec<HookLibrary>,
}

impl HookLibraries {
    /// The libraries, in registration order.
    pub closed spec fn spec_libraries(self) -> Seq<HookLibrary> {
        self.libraries@
    }

    pub fn new(libraries: Vec<HookLibrary>) -> (r: HookLibraries)
        ensures
            r.spec_libraries() == libraries@,
    {
        HookLibraries { libraries }
    }

    /// Initialises every library against the module, in order, stopping at
    /// and returning the first failure; the libraries after the failing one
    /// are left untouched.
    pub fn init<F: Copy + Fn(HookAction) -> bool>(
        &mut self,
        module: &mut Module,
        dispatch: F,
    ) -> (r: Result<(), HookError>)
        requires
            forall|a: HookAction| #[trigger] call_requires(dispatch, (a,)),
            old(module).wf(),
        ensures
            final(module).wf(),
            Module::same_image(*old(module), *final(module)),
            final(self).spec_libraries().len() == old(self).spec_libraries().len(),
            forall|i: int|
                0 <= i < old(self).spec_libraries().len() ==> HookLibrary::binders_kept(
                    old(self).spec_libraries()[i],
                    #[trigger] final(self).spec_libraries()[i],
                ),
            r is Ok ==> forall|i: int, j: int|
                0 <= i < final(self).spec_libraries().len() && 0 <= j < final(self).spec_libraries()[i].spec_binders().len() ==> (
                #[trigger] final(self).spec_libraries()[i].spec_binders()[j]).bound() is Some,
            (forall|i: int, j: int|
                0 <= i < old(self).spec_libraries().len() && 0 <= j < old(
                    self,
                ).spec_libraries()[i].spec_binders().len() ==> ((#[trigger] old(
                    self,
                ).spec_libraries()[i].spec_binders()[j]).bound() is Some || old(
                    self,
                ).spec_libraries()[i].spec_binders()[j].fixed_source() is Some)) && (forall|i: int|
                0 <= i < old(self).spec_libraries().len() ==> (#[trigger] old(
                    self,
                ).spec_libraries()[i]).spec_inits().len() == 0) ==> r is Ok,
            r matches Err(e) ==> (e is BindFailed || e is ActionFailed) && (e matches
                HookError::ActionFailed { action } ==> call_ensures(dispatch, (action,), false))
                && (exists|k: int|
                #![trigger old(self).spec_libraries()[k]]
                0 <= k < old(self).spec_libraries().len() && (forall|q: int, j: int|
                    0 <= q < k && 0 <= j < final(self).spec_libraries()[q].spec_binders().len()
                        ==> (#[trigger] final(self).spec_libraries()[q].spec_binders()[j]).bound()
                        is Some) && (forall|q: int|
                    k < q < old(self).spec_libraries().len() ==> #[trigger] final(self).spec_libraries()[q] == old(self).spec_libraries()[q])),
    {
        let n = self.libraries.len();
        let mut i: usize = 0;
        while i < n
            invariant
                forall|a: HookAction| #[trigger] call_requires(dispatch, (a,)),
                module.wf(),
                Module::same_image(*old(module), *module),
                n == self.spec_libraries().len(),
                n == old(self).spec_libraries().len(),
                i <= n,
                forall|q: int|
                    0 <= q < n ==> HookLibrary::binders_kept(
                        old(self).spec_libraries()[q],
                        #[trigger] self.spec_libraries()[q],
                    ),
                forall|q: int|
                    i <= q < n ==> #[trigger] self.spec_libraries()[q] == old(
                        self,
                    ).spec_libraries()[q],
                forall|q: int, j: int|
                    0 <= q < i && 0 <= j < self.spec_libraries()[q].spec_binders().len() ==> (
                    #[trigger] self.spec_libraries()[q].spec_binders()[j]).bound() is Some,
            decreases n - i,
        {
            let ghost prev = *self;
            let res = self.libraries[i].init(module, dispatch);
            proof {
                assert(self.spec_libraries().len() == n);
                assert(forall|q: int|
                    0 <= q < n && q != i ==> #[trigger] self.spec_libraries()[q]
                        == prev.spec_libraries()[q]);
                assert forall|q: int|
                    i + 1 <= q < n implies #[trigger] self.spec_libraries()[q] == old(
                    self,
                ).spec_libraries()[q] by {
                    assert(prev.spec_libraries()[q] == old(self).spec_libraries()[q]);
                }
                assert forall|q: int, j: int|
                    0 <= q < i && 0 <= j < self.spec_libraries()[q].spec_binders().len() implies (
                    #[trigger] self.spec_libraries()[q].spec_binders()[j]).bound() is Some by {
                    assert(self.spec_libraries()[q] == prev.spec_libraries()[q]);
                    assert(prev.spec_libraries()[q].spec_binders()[j].bound() is Some);
                }
                assert(prev.spec_libraries()[i as int] == old(self).spec_libraries()[i as int]);
            }
            if let Err(e) = res {
                return Err(e);
            }
            i += 1;
        }
        Ok(())
    }

    /// Toggles every library, in order, stopping at and returning the first
    /// failure; the libraries after the failing one are left untouched, the
    /// earlier ones stay toggled.
    #[verifier::spinoff_prover]
    #[verifier::rlimit(100)]
    pub fn set_enabled<F: Copy + Fn(HookAction) -> bool>(
        &mut self,
        patcher: &mut Patcher,
        mem: &mut ProcessMemory,
        dispatch: F,
        enabled: bool,
    ) -> (r: Result<(), HookError>)
        requires
            forall|a: HookAction| #[trigger] call_requires(dispatch, (a,)),
            old(patcher).wf(),
            old(mem).wf(),
            old(patcher).entries_in_range(*old(mem)),
        ensures
            final(patcher).wf(),
            final(mem).wf(),
            final(mem).spec_base() == old(mem).spec_base(),
            final(mem).contents().len() == old(mem).contents().len(),
            final(patcher).entries_in_range(*final(mem)),
            final(self).spec_libraries().len() == old(self).spec_libraries().len(),
            forall|i: int|
                0 <= i < old(self).spec_libraries().len() ==> HookLibrary::same_structure(
                    old(self).spec_libraries()[i],
                    #[trigger] final(self).spec_libraries()[i],
                ),
            r is Ok ==> forall|i: int|
                0 <= i < final(self).spec_libraries().len()
                    ==> (#[trigger] final(self).spec_libraries()[i]).all_flags(enabled),
            r is Ok && enabled ==> final(patcher).ledger() == libs_apply(
                old(patcher).ledger(),
                old(mem).contents(),
                old(mem).spec_base(),
                old(self).spec_libraries(),
            ).0 && final(mem).contents() == libs_apply(
                old(patcher).ledger(),
                old(mem).contents(),
                old(mem).spec_base(),
                old(self).spec_libraries(),
            ).1,
            r is Ok && !enabled ==> final(patcher).ledger() == libs_remove(
                old(patcher).ledger(),
                old(mem).contents(),
                old(mem).spec_base(),
                old(self).spec_libraries(),
            ).0 && final(mem).contents() == libs_remove(
                old(patcher).ledger(),
                old(mem).contents(),
                old(mem).spec_base(),
                old(self).spec_libraries(),
            ).1,
            enabled && (forall|q: int|
                0 <= q < old(self).spec_libraries().len() ==> (#[trigger] old(
                    self,
                ).spec_libraries()[q]).n_binders() == 0 && old(
                    self,
                ).spec_libraries()[q].spec_enablers().len() == 0) && libs_applicable(
                old(patcher).ledger(),
                old(mem).contents(),
                old(mem).spec_base(),
                old(self).spec_libraries(),
            ) ==> r is Ok,
            !enabled && (forall|q: int|
                0 <= q < old(self).spec_libraries().len() ==> (#[trigger] old(
                    self,
                ).spec_libraries()[q]).n_binders() == 0 && old(
                    self,
                ).spec_libraries()[q].spec_disablers().len() == 0) ==> r is Ok,
            r matches Err(e) ==> (e is NotBound || e is ActionFailed || e is PatchFailed) && (
            e matches HookError::ActionFailed { action } ==> call_ensures(
                dispatch,
                (action,),
                false,
            )) && (exists|k: int|
                #![trigger old(self).spec_libraries()[k]]
                0 <= k < old(self).spec_libraries().len() && (forall|q: int|
                    0 <= q < k ==> (#[trigger] final(self).spec_libraries()[q]).all_flags(enabled))
                    && (forall|q: int|
                    k < q < old(self).spec_libraries().len() ==> #[trigger] final(self).spec_libraries()[q] == old(self).spec_libraries()[q]) && (enabled
                    ==> exists|k3: int|
                    0 <= k3 <= old(self).spec_libraries()[k].spec_patches().len() && ({
                        let lm = #[trigger] libs_enable_partial(
                            old(patcher).ledger(),
                            old(mem).contents(),
                            old(mem).spec_base(),
                            old(self).spec_libraries(),
                            k,
                            k3,
                        );
                        final(patcher).ledger() == lm.0 && final(mem).contents() == lm.1
                    })) && (!enabled ==> final(patcher).ledger() == libs_remove(
                    old(patcher).ledger(),
                    old(mem).contents(),
                    old(mem).spec_base(),
                    old(self).spec_libraries().subrange(0, k + 1),
                ).0 && final(mem).contents() == libs_remove(
                    old(patcher).ledger(),
                    old(mem).contents(),
                    old(mem).spec_base(),
                    old(self).spec_libraries().subrange(0, k + 1),
                ).1)),
    {
        let n = self.libraries.len();
        let ghost libs0 = self.spec_libraries();
        let ghost l0 = patcher.ledger();
        let ghost m0 = mem.contents();
        let ghost mb0 = mem.spec_base();
        proof {
            assert(libs0.subrange(0, 0) =~= Seq::<HookLibrary>::empty());
            assert(libs0.subrange(0, n as int) =~= libs0);
        }
        let mut i: usize = 0;
        while i < n
            invariant
                forall|a: HookAction| #[trigger] call_requires(dispatch, (a,)),
                patcher.wf(),
                mem.wf(),
                mem.spec_base() == old(mem).spec_base(),
                mem.contents().len() == old(mem).contents().len(),
                patcher.entries_in_range(*mem),
                n == self.spec_libraries().len(),
                n == old(self).spec_libraries().len(),
                libs0 == old(self).spec_libraries(),
                l0 == old(patcher).ledger(),
                m0 == old(mem).contents(),
                mb0 == old(mem).spec_base(),
                i <= n,
                forall|q: int|
                    0 <= q < n ==> HookLibrary::same_structure(
                        old(self).spec_libraries()[q],
                        #[trigger] self.spec_libraries()[q],
                    ),
                forall|q: int|
                    i <= q < n ==> #[trigger] self.spec_libraries()[q] == old(
                        self,
                    ).spec_libraries()[q],
                forall|q: int|
                    0 <= q < i ==> (#[trigger] self.spec_libraries()[q]).all_flags(enabled),
                enabled ==> patcher.ledger() == libs_apply(
                    l0,
                    m0,
                    mb0,
                    libs0.subrange(0, i as int),
                ).0 && mem.contents() == libs_apply(l0, m0, mb0, libs0.subrange(0, i as int)).1,
                !enabled ==> patcher.ledger() == libs_remove(
                    l0,
                    m0,
                    mb0,
                    libs0.subrange(0, i as int),
                ).0 && mem.contents() == libs_remove(l0, m0, mb0, libs0.subrange(0, i as int)).1,
                enabled && libs_applicable(l0, m0, mb0, libs0) ==> libs_applicable(
                    patcher.ledger(),
                    mem.contents(),
                    mb0,
                    libs0.subrange(i as int, n as int),
                ),
            decreases n - i,
        {
            let ghost prefix = libs0.subrange(0, i as int);
            let ghost rem = libs0.subrange(i as int, n as int);
            proof {
                assert(HookLibrary::same_structure(
                    libs0[i as int],
                    self.spec_libraries()[i as int],
                ));
                assert(prefix.push(libs0[i as int]) =~= libs0.subrange(0, i + 1));
                assert(rem[0] == libs0[i as int]);
                assert(rem.drop_first() =~= libs0.subrange(i + 1, n as int));
                lemma_libs_apply_append(l0, m0, mb0, prefix, libs0[i as int]);
                lemma_libs_remove_append(l0, m0, mb0, prefix, libs0[i as int]);
            }
            let ghost prev = *self;
            let ghost lcall = patcher.ledger();
            let ghost mcall = mem.contents();
            let res = self.libraries[i].set_enabled(patcher, mem, dispatch, enabled);
            proof {
                assert(self.spec_libraries().len() == n);
                assert(forall|q: int|
                    0 <= q < n && q != i ==> #[trigger] self.spec_libraries()[q]
                        == prev.spec_libraries()[q]);
                assert forall|q: int|
                    i + 1 <= q < n implies #[trigger] self.spec_libraries()[q] == old(
                    self,
                ).spec_libraries()[q] by {
                    assert(prev.spec_libraries()[q] == old(self).spec_libraries()[q]);
                }
                assert forall|q: int|
                    0 <= q < i implies (#[trigger] self.spec_libraries()[q]).all_flags(
                    enabled,
                ) by {
                    assert(self.spec_libraries()[q] == prev.spec_libraries()[q]);
                    assert(prev.spec_libraries()[q].all_flags(enabled));
                }
                assert(prev.spec_libraries()[i as int] == old(self).spec_libraries()[i as int]);
                if res is Err && enabled {
                    let lp = prev.spec_libraries()[i as int];
                    let k3 = choose|k3: int|
                        0 <= k3 <= lp.spec_patches().len() && patcher.ledger() == (
                        #[trigger] apply_patches(
                            lcall,
                            mcall,
                            mb0,
                            lp.spec_patches().subrange(0, k3),
                        )).0 && mem.contents() == apply_patches(
                            lcall,
                            mcall,
                            mb0,
                            lp.spec_patches().subrange(0, k3),
                        ).1;
                    assert(lp == libs0[i as int]);
                    assert(libs_enable_partial(l0, m0, mb0, libs0, i as int, k3)
                        == apply_patches(lcall, mcall, mb0, lp.spec_patches().subrange(0, k3)));
                }
                if res is Err && !enabled {
                    assert(patcher.ledger() == libs_remove(l0, m0, mb0, libs0.subrange(0, i + 1)).0);
                    assert(mem.contents() == libs_remove(l0, m0, mb0, libs0.subrange(0, i + 1)).1);
                }
            }
            if let Err(e) = res {
                return Err(e);
            }
            i += 1;
        }
        Ok(())
    }

    /// Initialises and enables every library, returning the libraries for
    /// later disabling; the first failure is returned instead, with the
    /// patcher and memory left in the state the failing step produced.
    pub fn init_and_enable<F: Copy + Fn(HookAction) -> bool>(
        self,
        module: &mut Module,
        patcher: &mut Patcher,
        mem: &mut ProcessMemory,
        dispatch: F,
    ) -> (r: Result<HookLibraries, HookError>)
        requires
            forall|a: HookAction| #[trigger] call_requires(dispatch, (a,)),
            old(module).wf(),
            old(patcher).wf(),
            old(mem).wf(),
            old(patcher).entries_in_range(*old(mem)),
        ensures
            final(module).wf(),
            Module::same_image(*old(module), *final(module)),
            final(patcher).wf(),
            final(mem).wf(),
            final(mem).spec_base() == old(mem).spec_base(),
            final(mem).contents().len() == old(mem).contents().len(),
            final(patcher).entries_in_range(*final(mem)),
            r matches Ok(libs) ==> (forall|i: int|
                0 <= i < libs.spec_libraries().len() ==> (#[trigger] libs.spec_libraries()[i]).all_flags(
                    true,
                )) && final(patcher).ledger() == libs_apply(
                old(patcher).ledger(),
                old(mem).contents(),
                old(mem).spec_base(),
                self.spec_libraries(),
            ).0 && final(mem).contents() == libs_apply(
                old(patcher).ledger(),
                old(mem).contents(),
                old(mem).spec_base(),
                self.spec_libraries(),
            ).1,
            (forall|q: int|
                0 <= q < self.spec_libraries().len() ==> (#[trigger] self.spec_libraries()[q]).n_binders()
                    == 0 && self.spec_libraries()[q].spec_inits().len() == 0
                    && self.spec_libraries()[q].spec_enablers().len() == 0) && libs_applicable(
                old(patcher).ledger(),
                old(mem).contents(),
                old(mem).spec_base(),
                self.spec_libraries(),
            ) ==> r is Ok,
            r is Err ==> exists|k: int, k3: int|
                0 <= k <= self.spec_libraries().len() && 0 <= k3 && ({
                    let lm = #[trigger] libs_enable_partial(
                        old(patcher).ledger(),
                        old(mem).contents(),
                        old(mem).spec_base(),
                        self.spec_libraries(),
                        k,
                        k3,
                    );
                    final(patcher).ledger() == lm.0 && final(mem).contents() == lm.1
                }),
    {
        let mut libs = self;
        let ghost libs_in = libs.spec_libraries();
        let ri = libs.init(module, dispatch);
        if let Err(e) = ri {
            proof {
                assert(libs_in.subrange(0, 0) =~= Seq::<HookLibrary>::empty());
                assert(libs_apply(
                    patcher.ledger(),
                    mem.contents(),
                    mem.spec_base(),
                    libs_in.subrange(0, 0),
                ) == (patcher.ledger(), mem.contents()));
                assert(libs_in[0].spec_patches().subrange(0, 0) =~= Seq::<(int, Seq<u8>)>::empty());
                assert(apply_patches(
                    patcher.ledger(),
                    mem.contents(),
                    mem.spec_base(),
                    Seq::<(int, Seq<u8>)>::empty(),
                ) == (patcher.ledger(), mem.contents()));
                assert(libs_enable_partial(
                    patcher.ledger(),
                    mem.contents(),
                    mem.spec_base(),
                    libs_in,
                    0,
                    0,
                ) == (patcher.ledger(), mem.contents()));
            }
            return Err(e);
        }
        let ghost libs_bound = libs.spec_libraries();
        proof {
            lemma_libs_folds_patches_eq(
                libs_in,
                libs_bound,
                patcher.ledger(),
                mem.contents(),
                mem.spec_base(),
            );
        }
        let ghost lcall = patcher.ledger();
        let ghost mcall = mem.contents();
        let ghost mbase = mem.spec_base();
        let re = libs.set_enabled(patcher, mem, dispatch, true);
        match re {
            Ok(()) => Ok(libs),
            Err(e) => {
                proof {
                    lemma_libs_partial_patches_eq(libs_in, libs_bound, lcall, mcall, mbase);
                }
                Err(e)
            },
        }
    }

    /// Enables every library, returning the libraries for later disabling;
    /// the first failure is returned instead, with the patcher and memory
    /// left in the state the failing step produced.
    pub fn enable<F: Copy + Fn(HookAction) -> bool>(
        self,
        patcher: &mut Patcher,
        mem: &mut ProcessMemory,
        dispatch: F,
    ) -> (r: Result<HookLibraries, HookError>)
        requires
            forall|a: HookAction| #[trigger] call_requires(dispatch, (a,)),
            old(patcher).wf(),
            old(mem).wf(),
            old(patcher).entries_in_range(*old(mem)),
        ensures
            final(patcher).wf(),
            final(mem).wf(),
            final(mem).spec_base() == old(mem).spec_base(),
            final(mem).contents().len() == old(mem).contents().len(),
            final(patcher).entries_in_range(*final(mem)),
            r matches Ok(libs) ==> (forall|i: int|
                0 <= i < libs.spec_libraries().len() ==> (#[trigger] libs.spec_libraries()[i]).all_flags(
                    true,
                )) && final(patcher).ledger() == libs_apply(
                old(patcher).ledger(),
                old(mem).contents(),
                old(mem).spec_base(),
                self.spec_libraries(),
            ).0 && final(mem).contents() == libs_apply(
                old(patcher).ledger(),
                old(mem).contents(),
                old(mem).spec_base(),
                self.spec_libraries(),
            ).1,
            (forall|q: int|
                0 <= q < self.spec_libraries().len() ==> (#[trigger] self.spec_libraries()[q]).n_binders()
                    == 0 && self.spec_libraries()[q].spec_enablers().len() == 0)
                && libs_applicable(
                old(patcher).ledger(),
                old(mem).contents(),
                old(mem).spec_base(),
                self.spec_libraries(),
            ) ==> r is Ok,
            r is Err ==> exists|k: int, k3: int|
                0 <= k <= self.spec_libraries().len() && 0 <= k3 && ({
                    let lm = #[trigger] libs_enable_partial(
                        old(patcher).ledger(),
                        old(mem).contents(),
                        old(mem).spec_base(),
                        self.spec_libraries(),
                        k,
                        k3,
                    );
                    final(patcher).ledger() == lm.0 && final(mem).contents() == lm.1
                }),
    {
        let mut libs = self;
        let re = libs.set_enabled(patcher, mem, dispatch, true);
        match re {
            Ok(()) => Ok(libs),
            Err(e) => Err(e),
        }
    }
}

/// Ledger and memory after the first `k` libraries' patches and then the
/// first `k3` patches of library `k` have been applied; past the end, `k3`
/// adds nothing.
pub open spec fn libs_enable_partial(
    l: Seq<(int, Seq<u8>)>,
    m: Seq<u8>,
    base: int,
    libs: Seq<HookLibrary>,
    k: int,
    k3: int,
) -> (Seq<(int, Seq<u8>)>, Seq<u8>) {
    let lm = libs_apply(l, m, base, libs.subrange(0, k));
    let ps = if 0 <= k < libs.len() {
        libs[k].spec_patches().subrange(0, k3)
    } else {
        Seq::<(int, Seq<u8>)>::empty()
    };
    apply_patches(lm.0, lm.1, base, ps)
}

/// Every library's patches can be applied, in registration order, from the
/// given ledger and memory on.
pub open spec fn libs_applicable(
    l: Seq<(int, Seq<u8>)>,
    m: Seq<u8>,
    base: int,
    libs: Seq<HookLibrary>,
) -> bool
    decreases libs.len(),
{
    if libs.len() == 0 {
        true
    } else {
        &&& patches_applicable(l, m, base, libs[0].spec_patches())
        &&& ({
            let lm = apply_patches(l, m, base, libs[0].spec_patches());
            libs_applicable(lm.0, lm.1, base, libs.drop_first())
        })
    }
}

proof fn lemma_libs_folds_patches_eq(
    a: Seq<HookLibrary>,
    b: Seq<HookLibrary>,
    l: Seq<(int, Seq<u8>)>,
    m: Seq<u8>,
    base: int,
)
    requires
        a.len() == b.len(),
        forall|i: int| 0 <= i < a.len() ==> (#[trigger] a[i]).spec_patches() == b[i].spec_patches(),
    ensures
        libs_apply(l, m, base, a) == libs_apply(l, m, base, b),
        libs_remove(l, m, base, a) == libs_remove(l, m, base, b),
        libs_applicable(l, m, base, a) == libs_applicable(l, m, base, b),
    decreases a.len(),
{
    if a.len() > 0 {
        assert(a[0].spec_patches() == b[0].spec_patches());
        let lma = apply_patches(l, m, base, a[0].spec_patches());
        let lmr = remove_patches(l, m, base, a[0].spec_patches());
        assert forall|i: int|
            0 <= i < a.drop_first().len() implies (#[trigger] a.drop_first()[i]).spec_patches()
            == b.drop_first()[i].spec_patches() by {
            assert(a.drop_first()[i] == a[i + 1]);
            assert(b.drop_first()[i] == b[i + 1]);
        }
        lemma_libs_folds_patches_eq(a.drop_first(), b.drop_first(), lma.0, lma.1, base);
        lemma_libs_folds_patches_eq(a.drop_first(), b.drop_first(), lmr.0, lmr.1, base);
    }
}

proof fn lemma_libs_partial_patches_eq(
    a: Seq<HookLibrary>,
    b: Seq<HookLibrary>,
    l: Seq<(int, Seq<u8>)>,
    m: Seq<u8>,
    base: int,
)
    requires
        a.len() == b.len(),
        forall|i: int| 0 <= i < a.len() ==> (#[trigger] a[i]).spec_patches() == b[i].spec_patches(),
    ensures
        forall|k: int, k3: int|
            #![trigger libs_enable_partial(l, m, base, b, k, k3)]
            0 <= k <= a.len() ==> libs_enable_partial(l, m, base, a, k, k3)
                == libs_enable_partial(l, m, base, b, k, k3),
{
    assert forall|k: int, k3: int|
        0 <= k <= a.len() implies #[trigger] libs_enable_partial(l, m, base, a, k, k3)
        == libs_enable_partial(l, m, base, b, k, k3) by {
        assert forall|i: int|
            0 <= i < a.subrange(0, k).len() implies (#[trigger] a.subrange(0, k)[i]).spec_patches()
            == b.subrange(0, k)[i].spec_patches() by {
            assert(a.subrange(0, k)[i] == a[i]);
            assert(b.subrange(0, k)[i] == b[i]);
        }
        lemma_libs_folds_patches_eq(a.subrange(0, k), b.subrange(0, k), l, m, base);
        if k < a.len() {
            assert(a[k].spec_patches() == b[k].spec_patches());
        }
    }
}

} // verus!
