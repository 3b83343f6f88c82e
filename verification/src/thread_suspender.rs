//! The thread-suspension guard: pauses every other thread of the process for
//! the duration of an operation, so a batch of patches appears atomic to
//! concurrently running code. The process's threads are modelled as an
//! explicit table of records — thread id, owning process id, suspend count —
//! taken from one OS snapshot; issuing the actual suspend and resume calls
//! against the OS is the embedder's work, mirrored here in the counts.

use vstd::prelude::*;

verus! {

/// One thread as a process snapshot reports it.
#[derive(Clone, Copy, PartialEq, Eq, Structural, Debug)]
pub struct ThreadRecord {
    pub thread_id: u32,
    pub owner_process_id: u32,
    pub suspend_count: u32,
}

/// Whether the suspender pauses this thread: it belongs to the process and
/// is not the calling thread.
pub open spec fn selected(t: ThreadRecord, process_id: u32, current_thread_id: u32) -> bool {
    t.owner_process_id == process_id && t.thread_id != current_thread_id
}

/// `post` is `pre` with every selected thread suspended once more and every
/// other thread untouched.
pub open spec fn suspend_transition(
    pre: Seq<ThreadRecord>,
    post: Seq<ThreadRecord>,
    process_id: u32,
    current_thread_id: u32,
) -> bool {
    &&& post.len() == pre.len()
    &&& forall|i: int|
        0 <= i < pre.len() && selected(pre[i], process_id, current_thread_id)
            ==> #[trigger] post[i] == ThreadRecord {
            suspend_count: (pre[i].suspend_count + 1) as u32,
            ..pre[i]
        }
    &&& forall|i: int|
        0 <= i < pre.len() && !selected(pre[i], process_id, current_thread_id)
            ==> #[trigger] post[i] == pre[i]
}

/// The threads of the process, captured at one snapshot.
pub struct ThreadTable {
    threads: Vec<ThreadRecord>,
}

impl ThreadTable {
    /// The records, in snapshot order.
    pub closed spec fn spec_threads(self) -> Seq<ThreadRecord> {
        self.threads@
    }

    /// Thread ids are unique in a snapshot.
    pub open spec fn wf(self) -> bool {
        forall|i: int, j: int|
            0 <= i < j < self.spec_threads().len() ==> (#[trigger] self.spec_threads()[i]).thread_id
                != (#[trigger] self.spec_threads()[j]).thread_id
    }

    /// Wraps a snapshot of thread records with distinct thread ids.
    pub fn new(threads: Vec<ThreadRecord>) -> (r: ThreadTable)
        requires
            forall|i: int, j: int|
                0 <= i < j < threads@.len() ==> (#[trigger] threads@[i]).thread_id != (
                #[trigger] threads@[j]).thread_id,
        ensures
            r.wf(),
            r.spec_threads() == threads@,
    {
        ThreadTable { threads }
    }

    pub fn len(&self) -> (r: usize)
        ensures
            r == self.spec_threads().len(),
    {
        self.threads.len()
    }

    /// The record at snapshot position `i`.
    pub fn get(&self, i: usize) -> (r: ThreadRecord)
        requires
            i < self.spec_threads().len(),
        ensures
            r == self.spec_threads()[i as int],
    {
        self.threads[i]
    }
}

fn ids_contain(ids: &Vec<u32>, id: u32) -> (r: bool)
    ensures
        r == ids@.contains(id),
{
    let n = ids.len();
    let mut i: usize = 0;
    while i < n
        invariant
            n == ids@.len(),
            i <= n,
            forall|j: int| 0 <= j < i ==> ids@[j] != id,
        decreases n - i,
    {
        if ids[i] == id {
            return true;
        }
        i += 1;
    }
    false
}

/// A scoped guard over the other threads of the process: constructing it
/// suspends every one of them, releasing it resumes them and lets the
/// handles go, in that order, exactly once each.
pub struct ThreadSuspender {
    suspended: Vec<u32>,
}

impl ThreadSuspender {
    /// The ids of the threads the guard suspended, in snapshot order.
    pub closed spec fn spec_suspended(self) -> Seq<u32> {
        self.suspended@
    }

    /// Suspends every thread of the process other than the calling thread:
    /// each selected record's suspend count rises by one, nothing else
    /// changes, and the guard remembers exactly the selected ids.
    pub fn new(table: &mut ThreadTable, process_id: u32, current_thread_id: u32) -> (r:
        ThreadSuspender)
        requires
            old(table).wf(),
            forall|i: int|
                0 <= i < old(table).spec_threads().len() && selected(
                    #[trigger] old(table).spec_threads()[i],
                    process_id,
                    current_thread_id,
                ) ==> old(table).spec_threads()[i].suspend_count < u32::MAX,
        ensures
            final(table).wf(),
            suspend_transition(
                old(table).spec_threads(),
                final(table).spec_threads(),
                process_id,
                current_thread_id,
            ),
            forall|i: int|
                0 <= i < old(table).spec_threads().len() ==> (r.spec_suspended().contains(
                    (#[trigger] old(table).spec_threads()[i]).thread_id,
                ) <==> selected(old(table).spec_threads()[i], process_id, current_thread_id)),
    {
        let n = table.threads.len();
        let mut suspended: Vec<u32> = Vec::new();
        let mut i: usize = 0;
        while i < n
            invariant
                n == table.spec_threads().len(),
                n == old(table).spec_threads().len(),
                table.wf(),
                i <= n,
                forall|q: int|
                    i <= q < n ==> #[trigger] table.spec_threads()[q] == old(
                        table,
                    ).spec_threads()[q],
                forall|q: int|
                    0 <= q < i && selected(
                        #[trigger] old(table).spec_threads()[q],
                        process_id,
                        current_thread_id,
                    ) ==> table.spec_threads()[q] == (ThreadRecord {
                        suspend_count: (old(table).spec_threads()[q].suspend_count + 1) as u32,
                        ..old(table).spec_threads()[q]
                    }),
                forall|q: int|
                    0 <= q < i && !selected(
                        #[trigger] old(table).spec_threads()[q],
                        process_id,
                        current_thread_id,
                    ) ==> table.spec_threads()[q] == old(table).spec_threads()[q],
                forall|q: int|
                    0 <= q < i && selected(
                        #[trigger] old(table).spec_threads()[q],
                        process_id,
                        current_thread_id,
                    ) ==> suspended@.contains(old(table).spec_threads()[q].thread_id),
                forall|id: u32|
                    #[trigger] suspended@.contains(id) ==> exists|q: int|
                        0 <= q < i && selected(
                            #[trigger] old(table).spec_threads()[q],
                            process_id,
                            current_thread_id,
                        ) && old(table).spec_threads()[q].thread_id == id,
                forall|i2: int|
                    0 <= i2 < old(table).spec_threads().len() && selected(
                        #[trigger] old(table).spec_threads()[i2],
                        process_id,
                        current_thread_id,
                    ) ==> old(table).spec_threads()[i2].suspend_count < u32::MAX,
            decreases n - i,
        {
            let t = table.threads[i];
            let ghost prev_susp = suspended@;
            if t.owner_process_id == process_id && t.thread_id != current_thread_id {
                suspended.push(t.thread_id);
                table.threads[i] = ThreadRecord { suspend_count: t.suspend_count + 1, ..t };
                proof {
                    assert(suspended@ == prev_susp.push(t.thread_id));
                    assert(suspended@[prev_susp.len() as int] == t.thread_id);
                }
            }
            proof {
                assert forall|q: int|
                    0 <= q < i + 1 && selected(
                        #[trigger] old(table).spec_threads()[q],
                        process_id,
                        current_thread_id,
                    ) implies suspended@.contains(old(table).spec_threads()[q].thread_id) by {
                    if q < i {
                        let id = old(table).spec_threads()[q].thread_id;
                        assert(prev_susp.contains(id));
                        let w = choose|w: int| 0 <= w < prev_susp.len() && prev_susp[w] == id;
                        assert(suspended@[w] == id);
                    }
                }
                assert forall|id: u32| #[trigger] suspended@.contains(id) implies exists|q: int|
                    0 <= q < i + 1 && selected(
                        #[trigger] old(table).spec_threads()[q],
                        process_id,
                        current_thread_id,
                    ) && old(table).spec_threads()[q].thread_id == id by {
                    let w = choose|w: int| 0 <= w < suspended@.len() && suspended@[w] == id;
                    if w < prev_susp.len() {
                        assert(prev_susp[w] == id);
                        assert(prev_susp.contains(id));
                    } else {
                        assert(selected(old(table).spec_threads()[i as int], process_id, current_thread_id));
                        assert(old(table).spec_threads()[i as int].thread_id == id);
                    }
                }
            }
            i += 1;
        }
        ThreadSuspender { suspended }
    }

    /// Resumes every thread the guard suspended — each one's count drops by
    /// one — and then lets the handles go by consuming the guard, so both
    /// happen exactly once.
    pub fn release(self, table: &mut ThreadTable)
        requires
            old(table).wf(),
            forall|i: int|
                0 <= i < old(table).spec_threads().len() && self.spec_suspended().contains(
                    (#[trigger] old(table).spec_threads()[i]).thread_id,
                ) ==> old(table).spec_threads()[i].suspend_count >= 1,
        ensures
            final(table).wf(),
            final(table).spec_threads().len() == old(table).spec_threads().len(),
            forall|i: int|
                0 <= i < old(table).spec_threads().len() && self.spec_suspended().contains(
                    (#[trigger] old(table).spec_threads()[i]).thread_id,
                ) ==> final(table).spec_threads()[i] == (ThreadRecord {
                    suspend_count: (old(table).spec_threads()[i].suspend_count - 1) as u32,
                    ..old(table).spec_threads()[i]
                }),
            forall|i: int|
                0 <= i < old(table).spec_threads().len() && !self.spec_suspended().contains(
                    (#[trigger] old(table).spec_threads()[i]).thread_id,
                ) ==> final(table).spec_threads()[i] == old(table).spec_threads()[i],
    {
        let n = table.threads.len();
        let mut i: usize = 0;
        while i < n
            invariant
                n == table.spec_threads().len(),
                n == old(table).spec_threads().len(),
                table.wf(),
                i <= n,
                forall|q: int|
                    i <= q < n ==> #[trigger] table.spec_threads()[q] == old(
                        table,
                    ).spec_threads()[q],
                forall|q: int|
                    0 <= q < i && self.spec_suspended().contains(
                        (#[trigger] old(table).spec_threads()[q]).thread_id,
                    ) ==> table.spec_threads()[q] == (ThreadRecord {
                        suspend_count: (old(table).spec_threads()[q].suspend_count - 1) as u32,
                        ..old(table).spec_threads()[q]
                    }),
                forall|q: int|
                    0 <= q < i && !self.spec_suspended().contains(
                        (#[trigger] old(table).spec_threads()[q]).thread_id,
                    ) ==> table.spec_threads()[q] == old(table).spec_threads()[q],
                forall|i2: int|
                    0 <= i2 < old(table).spec_threads().len() && self.spec_suspended().contains(
                        (#[trigger] old(table).spec_threads()[i2]).thread_id,
                    ) ==> old(table).spec_threads()[i2].suspend_count >= 1,
            decreases n - i,
        {
            let t = table.threads[i];
            if ids_contain(&self.suspended, t.thread_id) {
                table.threads[i] = ThreadRecord { suspend_count: t.suspend_count - 1, ..t };
            }
            i += 1;
        }
    }

    /// Runs `f` with every other thread of the process suspended, and
    /// resumes them on the way out whether `f` succeeded or failed. `f`
    /// receives the context value and hands it back beside its result.
    pub fn for_block<C, T, E, F: FnOnce(C) -> (C, Result<T, E>)>(
        table: &mut ThreadTable,
        process_id: u32,
        current_thread_id: u32,
        ctx: C,
        f: F,
    ) -> (r: (C, Result<T, E>))
        requires
            old(table).wf(),
            forall|i: int|
                0 <= i < old(table).spec_threads().len() && selected(
                    #[trigger] old(table).spec_threads()[i],
                    process_id,
                    current_thread_id,
                ) ==> old(table).spec_threads()[i].suspend_count < u32::MAX,
            call_requires(f, (ctx,)),
        ensures
            final(table).wf(),
            final(table).spec_threads() == old(table).spec_threads(),
            call_ensures(f, (ctx,), r),
    {
        let ghost t0 = table.spec_threads();
        let suspender = ThreadSuspender::new(table, process_id, current_thread_id);
        let ghost t1 = table.spec_threads();
        let out = f(ctx);
        suspender.release(table);
        proof {
            assert forall|i: int| 0 <= i < t0.len() implies table.spec_threads()[i] == t0[i] by {
                assert(t1[i].thread_id == t0[i].thread_id);
                if selected(t0[i], process_id, current_thread_id) {
                    assert(suspender.spec_suspended().contains(t0[i].thread_id));
                    assert(t1[i] == (ThreadRecord {
                        suspend_count: (t0[i].suspend_count + 1) as u32,
                        ..t0[i]
                    }));
                } else {
                    assert(!suspender.spec_suspended().contains(t0[i].thread_id));
                    assert(t1[i] == t0[i]);
                }
            }
            assert(table.spec_threads() =~= t0);
        }
        out
    }
}

/// Within a suspension scope no other live thread of the process is
/// scheduled: every thread the transition selects has a positive suspend
/// count afterwards.
pub proof fn lemma_suspender_coverage(
    pre: Seq<ThreadRecord>,
    post: Seq<ThreadRecord>,
    process_id: u32,
    current_thread_id: u32,
)
    requires
        suspend_transition(pre, post, process_id, current_thread_id),
        forall|i: int|
            0 <= i < pre.len() && selected(#[trigger] pre[i], process_id, current_thread_id)
                ==> pre[i].suspend_count < u32::MAX,
    ensures
        forall|i: int|
            0 <= i < pre.len() && selected(#[trigger] pre[i], process_id, current_thread_id)
                ==> post[i].suspend_count >= 1,
{
}

} // verus!
