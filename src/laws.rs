//! Properties that relate several operations, stated over the same spec
//! functions as the operations' own contracts.
use vstd::prelude::*;
use crate::ledger::column_sum;
use crate::process::{is_lowest_free, mutex_release, mutex_step, Next, ProcessSync, Reply};

verus! {

/// In every well-formed state, and so after every completed operation, the
/// free units of a semaphore plus the units threads hold add up to the units
/// in existence.
pub proof fn lemma_units_conserved(p: ProcessSync)
    requires
        p.wf(),
    ensures
        forall|s: int|
            0 <= s < p.semaphore_list@.len() ==> #[trigger] p.available_semaphore@[s] + column_sum(p.held(), s)
                == p.capacity_semaphore@[s],
{
    assert forall|s: int| 0 <= s < p.semaphore_list@.len() implies #[trigger] p.available_semaphore@[s] + column_sum(
        p.held(),
        s,
    ) == p.capacity_semaphore@[s] by {
        assert(p.semaphore_ok(s));
    }
}

/// When every slot is taken and one of them is then freed, the next creation
/// takes that slot rather than growing the registry.
pub proof fn lemma_freed_slot_reused<T>(slots: Seq<Option<T>>, i: int)
    requires
        0 <= i < slots.len(),
        forall|k: int| 0 <= k < slots.len() ==> (#[trigger] slots[k]) is Some,
    ensures
        is_lowest_free(slots.update(i, None), i),
{
}

/// A thread woken by a release of mutex `m` (an unlock, or a wait on a
/// condition variable that gives `m` up) is its recorded holder, and the
/// mutex stays locked for it.
pub proof fn lemma_woken_by_release_holds_mutex(pre: ProcessSync, post: ProcessSync, m: int, w: usize)
    requires
        pre.wf(),
        post.wf(),
        pre.has_mutex(m),
        mutex_release(pre, post, m, Some(w)),
    ensures
        post.allocated_mutex@[m] == Some(w),
        post.mutex(m).is_locked(),
{
}

/// A thread that asks for a free mutex `m` (a lock, or a signalled sleeper
/// taking back its mutex) leaves as its recorded holder.
pub proof fn lemma_free_mutex_granted(pre: ProcessSync, post: ProcessSync, tid: usize, m: int)
    requires
        pre.wf(),
        pre.has_mutex(m),
        !pre.mutex(m).is_locked(),
        mutex_step(pre, post, tid, m, Reply { code: 0, next: Next::Run, wake: None }),
    ensures
        post.allocated_mutex@[m] == Some(tid),
        post.mutex(m).is_locked(),
{
}

} // verus!
