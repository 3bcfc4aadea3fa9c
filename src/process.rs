//! One process's synchronization state: the registries of mutexes,
//! semaphores and condition variables, the deadlock-tracking tables, and the
//! operations a syscall dispatcher runs on them while holding the process's
//! exclusive-access guard.
use vstd::prelude::*;
use crate::ledger::{
    column_sum, lemma_column_entry_bounded, lemma_column_sum_nonneg, lemma_column_sum_same,
    lemma_column_sum_update, lemma_column_sum_zero, push_column, set_cell, zero_row,
};
use crate::primitives::{Acquire, Condvar, Mutex, Semaphore};
use crate::safety::{is_safe, is_safe_state, rows, tables_shaped};
use crate::wait_chain::{holders_in_range, wait_chain_has_cycle, waits_forever};

verus! {

/// Result code of an acquisition that detection aborted.
pub const DEADLOCK_DETECTED: isize = -0xDEAD;

/// Result code for an id that names no live resource.
pub const INVALID_HANDLE: isize = -1;

/// What the calling thread does after an operation.
#[derive(PartialEq, Eq, Structural, Clone, Copy, Debug)]
pub enum Next {
    /// Go on running.
    Run,
    /// Sleep until another operation names it in `wake`.
    Sleep,
    /// Yield, then call `mutex_lock_retry` (busy-wait mutex was taken).
    Retry,
}

/// Answer of an operation to the scheduler.
#[derive(PartialEq, Eq, Structural, Clone, Copy, Debug)]
pub struct Reply {
    /// 0 on success, else `INVALID_HANDLE` or `DEADLOCK_DETECTED`.
    pub code: isize,
    pub next: Next,
    /// A sleeping thread that may now run.
    pub wake: Option<usize>,
}

/// `r` is the lowest free slot of `slots`, or `slots.len()` if none is free.
pub open spec fn is_lowest_free<T>(slots: Seq<Option<T>>, r: int) -> bool {
    &&& 0 <= r <= slots.len()
    &&& forall|i: int| 0 <= i < r ==> (#[trigger] slots[i]) is Some
    &&& r < slots.len() ==> slots[r] is None
}

/// Index of the lowest free slot, or the length when every slot is taken.
pub fn lowest_free_slot<T>(slots: &Vec<Option<T>>) -> (r: usize)
    ensures
        is_lowest_free(slots@, r as int),
{
    let mut i: usize = 0;
    while i < slots.len()
        invariant
            i <= slots.len(),
            forall|k: int| 0 <= k < i ==> (#[trigger] slots@[k]) is Some,
        decreases slots.len() - i,
    {
        if slots[i].is_none() {
            return i;
        }
        i = i + 1;
    }
    i
}

/// Synchronization state of one process. Thread ids are `0..threads()`.
pub struct ProcessSync {
    pub mutex_list: Vec<Option<Mutex>>,
    pub semaphore_list: Vec<Option<Semaphore>>,
    pub condvar_list: Vec<Option<Condvar>>,
    /// Holder of each mutex.
    pub allocated_mutex: Vec<Option<usize>>,
    /// The mutex each thread is trying to acquire.
    pub request_mutex: Vec<Option<usize>>,
    /// Units of each semaphore in existence: its initial count plus units
    /// released by threads that held none.
    pub capacity_semaphore: Vec<usize>,
    /// Units of each semaphore that no thread holds.
    pub available_semaphore: Vec<usize>,
    /// Units of each semaphore held by each thread (`[thread][semaphore]`).
    pub allocated_semaphore: Vec<Vec<usize>>,
    /// Units of each semaphore each thread is trying to acquire.
    pub request_semaphore: Vec<Vec<usize>>,
    pub enable_lock_detect: bool,
}

impl ProcessSync {
    /// Number of threads known to the process.
    pub open spec fn threads(&self) -> nat {
        self.request_mutex@.len()
    }

    pub open spec fn held(&self) -> Seq<Seq<usize>> {
        rows(self.allocated_semaphore@)
    }

    pub open spec fn requested(&self) -> Seq<Seq<usize>> {
        rows(self.request_semaphore@)
    }

    pub open spec fn has_mutex(&self, m: int) -> bool {
        0 <= m < self.mutex_list@.len() && self.mutex_list@[m] is Some
    }

    pub open spec fn mutex(&self, m: int) -> Mutex {
        self.mutex_list@[m].unwrap()
    }

    pub open spec fn has_semaphore(&self, s: int) -> bool {
        0 <= s < self.semaphore_list@.len() && self.semaphore_list@[s] is Some
    }

    pub open spec fn semaphore(&self, s: int) -> Semaphore {
        self.semaphore_list@[s].unwrap()
    }

    pub open spec fn has_condvar(&self, c: int) -> bool {
        0 <= c < self.condvar_list@.len() && self.condvar_list@[c] is Some
    }

    pub open spec fn condvar(&self, c: int) -> Condvar {
        self.condvar_list@[c].unwrap()
    }

    /// Free units plus units held by threads make up all units of `s`.
    pub open spec fn units_conserved(&self, s: int) -> bool {
        self.available_semaphore@[s] + column_sum(self.held(), s) == self.capacity_semaphore@[s]
    }

    pub open spec fn mutex_ok(&self, m: int) -> bool {
        self.has_mutex(m) ==> {
            &&& self.mutex(m).wf()
            &&& forall|k: int| 0 <= k < self.mutex(m).waiters().len() ==> (#[trigger] self.mutex(m).waiters()[k]) < self.threads()
        }
    }

    pub open spec fn semaphore_ok(&self, s: int) -> bool {
        &&& self.units_conserved(s)
        &&& !self.has_semaphore(s) ==> self.capacity_semaphore@[s] == 0
        &&& self.has_semaphore(s) ==> {
            &&& self.semaphore(s).wf()
            &&& self.semaphore(s).count == self.available_semaphore@[s]
            &&& forall|k: int| 0 <= k < self.semaphore(s).wait_queue@.len() ==> (#[trigger] self.semaphore(s).wait_queue@[k]) < self.threads()
        }
    }

    pub open spec fn condvar_ok(&self, c: int) -> bool {
        self.has_condvar(c) ==> forall|k: int|
            0 <= k < self.condvar(c).wait_queue@.len() ==> (#[trigger] self.condvar(c).wait_queue@[k]).0 < self.threads()
    }

    /// The tables have one row per thread and one entry per slot, every
    /// recorded holder and sleeper is a thread, each primitive is consistent,
    /// and every semaphore's units are conserved.
    pub open spec fn wf(&self) -> bool {
        &&& self.allocated_mutex@.len() == self.mutex_list@.len()
        &&& self.available_semaphore@.len() == self.semaphore_list@.len()
        &&& self.capacity_semaphore@.len() == self.semaphore_list@.len()
        &&& self.allocated_semaphore@.len() == self.threads()
        &&& tables_shaped(self.requested(), self.held(), self.semaphore_list@.len())
        &&& holders_in_range(self.allocated_mutex@, self.request_mutex@)
        &&& forall|m: int| 0 <= m < self.mutex_list@.len() ==> #[trigger] self.mutex_ok(m)
        &&& forall|s: int| 0 <= s < self.semaphore_list@.len() ==> #[trigger] self.semaphore_ok(s)
        &&& forall|c: int| 0 <= c < self.condvar_list@.len() ==> #[trigger] self.condvar_ok(c)
    }

    /// No resources, no threads, detection off.
    pub fn new() -> (r: ProcessSync)
        ensures
            r.wf(),
            r.threads() == 0,
            r.mutex_list@.len() == 0,
            r.semaphore_list@.len() == 0,
            r.condvar_list@.len() == 0,
            !r.enable_lock_detect,
    {
        ProcessSync {
            mutex_list: Vec::new(),
            semaphore_list: Vec::new(),
            condvar_list: Vec::new(),
            allocated_mutex: Vec::new(),
            request_mutex: Vec::new(),
            capacity_semaphore: Vec::new(),
            available_semaphore: Vec::new(),
            allocated_semaphore: Vec::new(),
            request_semaphore: Vec::new(),
            enable_lock_detect: false,
        }
    }

    /// Gives a new thread its empty rows in every table; returns its id.
    pub fn add_thread(&mut self) -> (tid: usize)
        requires
            old(self).wf(),
        ensures
            final(self).wf(),
            tid == old(self).threads(),
            final(self).threads() == old(self).threads() + 1,
            final(self).request_mutex@ == old(self).request_mutex@.push(None),
            final(self).held() == old(self).held().push(Seq::new(old(self).semaphore_list@.len(), |s: int| 0usize)),
            final(self).requested() == old(self).requested().push(Seq::new(old(self).semaphore_list@.len(), |s: int| 0usize)),
            final(self).mutex_list == old(self).mutex_list,
            final(self).semaphore_list == old(self).semaphore_list,
            final(self).condvar_list == old(self).condvar_list,
            final(self).allocated_mutex == old(self).allocated_mutex,
            final(self).available_semaphore == old(self).available_semaphore,
            final(self).capacity_semaphore == old(self).capacity_semaphore,
            final(self).enable_lock_detect == old(self).enable_lock_detect,
    {
        let ghost pre = *self;
        let tid = self.request_mutex.len();
        let classes = self.semaphore_list.len();
        let ghost zeros = Seq::new(classes as nat, |s: int| 0usize);
        let z1 = zero_row(classes);
        let z2 = zero_row(classes);
        assert(z1@ =~= zeros);
        assert(z2@ =~= zeros);
        self.request_mutex.push(None);
        self.allocated_semaphore.push(z1);
        self.request_semaphore.push(z2);
        assert(self.held() =~= pre.held().push(zeros));
        assert(self.requested() =~= pre.requested().push(zeros));
        proof {
            assert forall|s: int| 0 <= s < self.semaphore_list@.len() implies #[trigger] self.semaphore_ok(s) by {
                assert(pre.semaphore_ok(s));
                assert(self.held().drop_last() =~= pre.held());
            }
            assert forall|m: int| 0 <= m < self.mutex_list@.len() implies #[trigger] self.mutex_ok(m) by {
                assert(pre.mutex_ok(m));
            }
            assert forall|c: int| 0 <= c < self.condvar_list@.len() implies #[trigger] self.condvar_ok(c) by {
                assert(pre.condvar_ok(c));
                if self.has_condvar(c) {
                    assert(self.condvar(c) == pre.condvar(c));
                    assert forall|k: int| 0 <= k < self.condvar(c).wait_queue@.len() implies (#[trigger] self.condvar(c).wait_queue@[k]).0 < self.threads() by {
                        assert(pre.condvar(c).wait_queue@[k].0 < pre.threads());
                    }
                }
            }
        }
        tid
    }
}

/// Computes when a thread that sleeps `ms` milliseconds from `now_ms` is due
/// to wake; a deadline past the clock's range becomes the last instant.
pub fn sys_sleep(now_ms: usize, ms: usize) -> (r: usize)
    ensures
        r as int == if now_ms + ms > usize::MAX { usize::MAX as int } else { now_ms + ms },
{
    now_ms.saturating_add(ms)
}

/// Turns deadlock detection on when `enabled` is 1 and off otherwise. Only
/// later acquisitions see the change; no table is touched.
pub fn sys_enable_deadlock_detect(p: &mut ProcessSync, enabled: usize) -> (r: isize)
    requires
        old(p).wf(),
    ensures
        final(p).wf(),
        r == 0,
        *final(p) == (ProcessSync { enable_lock_detect: enabled == 1, ..*old(p) }),
{
    let ghost pre = *p;
    p.enable_lock_detect = enabled == 1;
    proof {
        assert forall|s: int| 0 <= s < p.semaphore_list@.len() implies #[trigger] p.semaphore_ok(s) by {
            assert(pre.semaphore_ok(s));
        }
        assert forall|m: int| 0 <= m < p.mutex_list@.len() implies #[trigger] p.mutex_ok(m) by {
            assert(pre.mutex_ok(m));
        }
        assert forall|c: int| 0 <= c < p.condvar_list@.len() implies #[trigger] p.condvar_ok(c) by {
            assert(pre.condvar_ok(c));
            if p.has_condvar(c) {
                assert(p.condvar(c) == pre.condvar(c));
                assert forall|k: int| 0 <= k < p.condvar(c).wait_queue@.len() implies (#[trigger] p.condvar(c).wait_queue@[k]).0 < p.threads() by {
                    assert(pre.condvar(c).wait_queue@[k].0 < pre.threads());
                }
            }
        }
    }
    0
}

/// Puts `x` in slot `i` and hands back what was there.
fn swap_slot<T>(slots: &mut Vec<Option<T>>, i: usize, x: Option<T>) -> (r: Option<T>)
    requires
        i < old(slots).len(),
    ensures
        r == old(slots)@[i as int],
        final(slots)@ == old(slots)@.update(i as int, x),
{
    let r = slots.remove(i);
    slots.insert(i, x);
    assert(slots@ =~= old(slots)@.update(i as int, x));
    r
}

pub open spec fn mutexes_same(a: ProcessSync, b: ProcessSync) -> bool {
    &&& a.mutex_list@ == b.mutex_list@
    &&& a.allocated_mutex@ == b.allocated_mutex@
    &&& a.request_mutex@ == b.request_mutex@
}

pub open spec fn semaphores_same(a: ProcessSync, b: ProcessSync) -> bool {
    &&& a.semaphore_list@ == b.semaphore_list@
    &&& a.capacity_semaphore@ == b.capacity_semaphore@
    &&& a.available_semaphore@ == b.available_semaphore@
    &&& a.held() == b.held()
    &&& a.requested() == b.requested()
}

pub open spec fn condvars_same(a: ProcessSync, b: ProcessSync) -> bool {
    a.condvar_list@ == b.condvar_list@
}

/// Every table and registry of `a` and `b` holds the same contents.
pub open spec fn same_state(a: ProcessSync, b: ProcessSync) -> bool {
    &&& mutexes_same(a, b)
    &&& semaphores_same(a, b)
    &&& condvars_same(a, b)
    &&& a.enable_lock_detect == b.enable_lock_detect
}

proof fn lemma_semaphores_kept(pre: ProcessSync, post: ProcessSync)
    requires
        pre.wf(),
        semaphores_same(pre, post),
        post.threads() == pre.threads(),
    ensures
        forall|s: int| 0 <= s < post.semaphore_list@.len() ==> #[trigger] post.semaphore_ok(s),
{
    assert forall|s: int| 0 <= s < post.semaphore_list@.len() implies #[trigger] post.semaphore_ok(s) by {
        assert(pre.semaphore_ok(s));
        if post.has_semaphore(s) {
            assert(post.semaphore(s) == pre.semaphore(s));
        }
    }
}

proof fn lemma_condvars_kept(pre: ProcessSync, post: ProcessSync)
    requires
        pre.wf(),
        condvars_same(pre, post),
        post.threads() == pre.threads(),
    ensures
        forall|c: int| 0 <= c < post.condvar_list@.len() ==> #[trigger] post.condvar_ok(c),
{
    assert forall|c: int| 0 <= c < post.condvar_list@.len() implies #[trigger] post.condvar_ok(c) by {
        assert(pre.condvar_ok(c));
        if post.has_condvar(c) {
            assert(post.condvar(c) == pre.condvar(c));
            assert forall|k: int| 0 <= k < post.condvar(c).wait_queue@.len() implies (#[trigger] post.condvar(c).wait_queue@[k]).0 < post.threads() by {
                assert(pre.condvar(c).wait_queue@[k].0 < pre.threads());
            }
        }
    }
}

proof fn lemma_mutexes_kept_except(pre: ProcessSync, post: ProcessSync, m: int)
    requires
        pre.wf(),
        post.mutex_list@.len() == pre.mutex_list@.len(),
        forall|i: int| 0 <= i < pre.mutex_list@.len() && i != m ==> post.mutex_list@[i] == pre.mutex_list@[i],
        post.threads() == pre.threads(),
        post.mutex_ok(m),
    ensures
        forall|i: int| 0 <= i < post.mutex_list@.len() ==> #[trigger] post.mutex_ok(i),
{
    assert forall|i: int| 0 <= i < post.mutex_list@.len() implies #[trigger] post.mutex_ok(i) by {
        if i != m {
            assert(pre.mutex_ok(i));
            if post.has_mutex(i) {
                assert(post.mutex(i) == pre.mutex(i));
            }
        }
    }
}

proof fn lemma_mutexes_kept(pre: ProcessSync, post: ProcessSync)
    requires
        pre.wf(),
        post.mutex_list@ == pre.mutex_list@,
        post.threads() == pre.threads(),
    ensures
        forall|i: int| 0 <= i < post.mutex_list@.len() ==> #[trigger] post.mutex_ok(i),
{
    assert forall|i: int| 0 <= i < post.mutex_list@.len() implies #[trigger] post.mutex_ok(i) by {
        assert(pre.mutex_ok(i));
        if post.has_mutex(i) {
            assert(post.mutex(i) == pre.mutex(i));
        }
    }
}

/// Creates an unlocked mutex in the lowest free slot, or a new slot at the
/// end; `blocking` picks block-and-requeue over busy-wait. Returns its id.
pub fn sys_mutex_create(p: &mut ProcessSync, blocking: bool) -> (r: isize)
    requires
        old(p).wf(),
        old(p).mutex_list@.len() < isize::MAX,
    ensures
        final(p).wf(),
        is_lowest_free(old(p).mutex_list@, r as int),
        final(p).mutex_list@.len() == if r == old(p).mutex_list@.len() { r + 1 } else { old(p).mutex_list@.len() as int },
        final(p).has_mutex(r as int),
        !final(p).mutex(r as int).is_locked(),
        final(p).mutex(r as int).waiters().len() == 0,
        final(p).mutex(r as int).is_blocking() == blocking,
        forall|i: int| 0 <= i < old(p).mutex_list@.len() && i != r ==> final(p).mutex_list@[i] == old(p).mutex_list@[i],
        final(p).allocated_mutex@ == if r == old(p).mutex_list@.len() {
            old(p).allocated_mutex@.push(None)
        } else {
            old(p).allocated_mutex@.update(r as int, None)
        },
        final(p).request_mutex@ == old(p).request_mutex@,
        semaphores_same(*old(p), *final(p)),
        condvars_same(*old(p), *final(p)),
        final(p).enable_lock_detect == old(p).enable_lock_detect,
{
    let ghost pre = *p;
    let id = lowest_free_slot(&p.mutex_list);
    let mx = Mutex::new(blocking);
    if id < p.mutex_list.len() {
        swap_slot(&mut p.mutex_list, id, Some(mx));
        p.allocated_mutex.set(id, None);
    } else {
        p.mutex_list.push(Some(mx));
        p.allocated_mutex.push(None);
    }
    proof {
        assert(p.mutex_ok(id as int));
        assert forall|i: int| 0 <= i < p.mutex_list@.len() implies #[trigger] p.mutex_ok(i) by {
            if i != id {
                assert(pre.mutex_ok(i));
                if p.has_mutex(i) {
                    assert(p.mutex(i) == pre.mutex(i));
                }
            }
        }
        assert forall|m: int| 0 <= m < p.allocated_mutex@.len() && (#[trigger] p.allocated_mutex@[m]).is_some()
            implies p.allocated_mutex@[m].unwrap() < p.request_mutex@.len() by {
            assert(pre.allocated_mutex@[m] == p.allocated_mutex@[m]);
        }
        lemma_semaphores_kept(pre, *p);
        lemma_condvars_kept(pre, *p);
    }
    id as isize
}

/// What one attempt by `tid` on mutex `m` does, given the mutex's state.
pub open spec fn mutex_attempt(pre: ProcessSync, post: ProcessSync, tid: usize, m: int, r: Reply) -> bool {
    &&& mutex_step(pre, post, tid, m, r)
    &&& semaphores_same(pre, post)
    &&& condvars_same(pre, post)
    &&& post.enable_lock_detect == pre.enable_lock_detect
}

/// What a thread that asks for mutex `mx` is told to do next.
pub open spec fn attempt_next(mx: Mutex) -> Next {
    if !mx.is_locked() {
        Next::Run
    } else if mx.is_blocking() {
        Next::Sleep
    } else {
        Next::Retry
    }
}

/// The mutex side of an attempt by `tid` on mutex `m`.
pub open spec fn mutex_step(pre: ProcessSync, post: ProcessSync, tid: usize, m: int, r: Reply) -> bool {
    let mx = pre.mutex(m);
    &&& post.mutex_list@.len() == pre.mutex_list@.len()
    &&& forall|i: int| 0 <= i < pre.mutex_list@.len() && i != m ==> post.mutex_list@[i] == pre.mutex_list@[i]
    &&& post.has_mutex(m)
    &&& post.mutex(m).is_locked()
    &&& post.mutex(m).is_blocking() == mx.is_blocking()
    &&& r.code == 0
    &&& r.wake is None
    &&& !mx.is_locked() ==> {
        &&& r.next == Next::Run
        &&& post.mutex(m).waiters() == mx.waiters()
        &&& post.allocated_mutex@ == pre.allocated_mutex@.update(m, Some(tid))
        &&& post.request_mutex@ == pre.request_mutex@.update(tid as int, None)
    }
    &&& mx.is_locked() ==> {
        &&& r.next == if mx.is_blocking() { Next::Sleep } else { Next::Retry }
        &&& post.mutex(m).waiters() == if mx.is_blocking() { mx.waiters().push(tid) } else { mx.waiters() }
        &&& post.allocated_mutex@ == pre.allocated_mutex@
        &&& post.request_mutex@ == pre.request_mutex@.update(tid as int, Some(m as usize))
    }
}

/// Asks the primitive for mutex `m` on behalf of `tid` and records the grant,
/// or the pending request, in the tables.
fn attempt_mutex(p: &mut ProcessSync, tid: usize, m: usize) -> (r: Reply)
    requires
        old(p).wf(),
        tid < old(p).threads(),
        old(p).has_mutex(m as int),
    ensures
        final(p).wf(),
        mutex_attempt(*old(p), *final(p), tid, m as int, r),
{
    let ghost pre = *p;
    let slot = swap_slot(&mut p.mutex_list, m, None);
    let mut mx = match slot {
        Some(x) => x,
        None => {
            assert(false);
            return Reply { code: INVALID_HANDLE, next: Next::Run, wake: None };
        },
    };
    assert(pre.mutex_ok(m as int));
    let a = mx.lock(tid);
    swap_slot(&mut p.mutex_list, m, Some(mx));
    let r = match a {
        Acquire::Granted => {
            p.allocated_mutex.set(m, Some(tid));
            p.request_mutex.set(tid, None);
            Reply { code: 0, next: Next::Run, wake: None }
        },
        Acquire::Queued => {
            p.request_mutex.set(tid, Some(m));
            Reply { code: 0, next: Next::Sleep, wake: None }
        },
        Acquire::Busy => {
            p.request_mutex.set(tid, Some(m));
            Reply { code: 0, next: Next::Retry, wake: None }
        },
    };
    proof {
        assert(p.mutex_list@ =~= pre.mutex_list@.update(m as int, Some(p.mutex(m as int))));
        assert(p.mutex_ok(m as int));
        lemma_mutexes_kept_except(pre, *p, m as int);
        assert forall|k: int| 0 <= k < p.allocated_mutex@.len() && (#[trigger] p.allocated_mutex@[k]).is_some()
            implies p.allocated_mutex@[k].unwrap() < p.request_mutex@.len() by {
            if k != m {
                assert(pre.allocated_mutex@[k] == p.allocated_mutex@[k]);
            }
        }
        lemma_semaphores_kept(pre, *p);
        lemma_condvars_kept(pre, *p);
    }
    r
}

/// `tid` asks for mutex `mutex_id`. The request is recorded; with detection
/// on, a request that closes a circular wait is withdrawn and reported as
/// `DEADLOCK_DETECTED`, leaving every table as it was. Otherwise the mutex's
/// own strategy decides: granted now, sleep in its queue, or retry later.
pub fn sys_mutex_lock(p: &mut ProcessSync, tid: usize, mutex_id: usize) -> (r: Reply)
    requires
        old(p).wf(),
        tid < old(p).threads(),
    ensures
        final(p).wf(),
        !old(p).has_mutex(mutex_id as int) ==> r == (Reply { code: INVALID_HANDLE, next: Next::Run, wake: None })
            && same_state(*old(p), *final(p)),
        !old(p).enable_lock_detect && old(p).has_mutex(mutex_id as int) ==> r.code == 0
            && r.next == attempt_next(old(p).mutex(mutex_id as int)),
        old(p).has_mutex(mutex_id as int) ==> {
            let cycle = old(p).enable_lock_detect && waits_forever(
                old(p).allocated_mutex@,
                old(p).request_mutex@.update(tid as int, Some(mutex_id)),
                tid,
            );
            &&& cycle ==> r == (Reply { code: DEADLOCK_DETECTED, next: Next::Run, wake: None })
                && same_state(*old(p), *final(p))
            &&& !cycle ==> mutex_attempt(*old(p), *final(p), tid, mutex_id as int, r)
        },
{
    if !(mutex_id < p.mutex_list.len() && p.mutex_list[mutex_id].is_some()) {
        return Reply { code: INVALID_HANDLE, next: Next::Run, wake: None };
    }
    let ghost pre = *p;
    let prev = p.request_mutex[tid];
    p.request_mutex.set(tid, Some(mutex_id));
    assert(holders_in_range(p.allocated_mutex@, p.request_mutex@));
    if p.enable_lock_detect && wait_chain_has_cycle(&p.allocated_mutex, &p.request_mutex, tid) {
        p.request_mutex.set(tid, prev);
        assert(p.request_mutex@ =~= pre.request_mutex@);
        proof {
            lemma_mutexes_kept(pre, *p);
            lemma_semaphores_kept(pre, *p);
            lemma_condvars_kept(pre, *p);
        }
        return Reply { code: DEADLOCK_DETECTED, next: Next::Run, wake: None };
    }
    let ghost mid = *p;
    proof {
        lemma_mutexes_kept(pre, mid);
        lemma_semaphores_kept(pre, mid);
        lemma_condvars_kept(pre, mid);
    }
    let r = attempt_mutex(p, tid, mutex_id);
    assert(mid.request_mutex@.update(tid as int, None) =~= pre.request_mutex@.update(tid as int, None));
    assert(mid.request_mutex@.update(tid as int, Some(mutex_id)) =~= pre.request_mutex@.update(tid as int, Some(mutex_id)));
    r
}

/// A busy-wait contender tries mutex `mutex_id` again, without a new
/// deadlock check: its request is already on record.
pub fn mutex_lock_retry(p: &mut ProcessSync, tid: usize, mutex_id: usize) -> (r: Reply)
    requires
        old(p).wf(),
        tid < old(p).threads(),
    ensures
        final(p).wf(),
        !old(p).has_mutex(mutex_id as int) ==> r == (Reply { code: INVALID_HANDLE, next: Next::Run, wake: None })
            && same_state(*old(p), *final(p)),
        old(p).has_mutex(mutex_id as int) ==> mutex_attempt(*old(p), *final(p), tid, mutex_id as int, r),
{
    if !(mutex_id < p.mutex_list.len() && p.mutex_list[mutex_id].is_some()) {
        return Reply { code: INVALID_HANDLE, next: Next::Run, wake: None };
    }
    attempt_mutex(p, tid, mutex_id)
}

/// What releasing mutex `m` does: the lock passes to the oldest sleeper,
/// which is recorded as its holder and returned, or the mutex becomes free.
pub open spec fn mutex_release(pre: ProcessSync, post: ProcessSync, m: int, w: Option<usize>) -> bool {
    let mx = pre.mutex(m);
    &&& post.mutex_list@.len() == pre.mutex_list@.len()
    &&& forall|i: int| 0 <= i < pre.mutex_list@.len() && i != m ==> post.mutex_list@[i] == pre.mutex_list@[i]
    &&& post.has_mutex(m)
    &&& post.mutex(m).is_blocking() == mx.is_blocking()
    &&& mx.waiters().len() == 0 ==> {
        &&& w is None
        &&& !post.mutex(m).is_locked()
        &&& post.mutex(m).waiters().len() == 0
        &&& post.allocated_mutex@ == pre.allocated_mutex@.update(m, None)
        &&& post.request_mutex@ == pre.request_mutex@
    }
    &&& mx.waiters().len() > 0 ==> {
        &&& w == Some(mx.waiters()[0])
        &&& post.mutex(m).is_locked()
        &&& post.mutex(m).waiters() == mx.waiters().drop_first()
        &&& post.allocated_mutex@ == pre.allocated_mutex@.update(m, w)
        &&& post.request_mutex@ == pre.request_mutex@.update(w.unwrap() as int, None)
    }
}

fn release_mutex(p: &mut ProcessSync, m: usize) -> (w: Option<usize>)
    requires
        old(p).wf(),
        old(p).has_mutex(m as int),
    ensures
        final(p).wf(),
        mutex_release(*old(p), *final(p), m as int, w),
        semaphores_same(*old(p), *final(p)),
        condvars_same(*old(p), *final(p)),
        final(p).enable_lock_detect == old(p).enable_lock_detect,
{
    let ghost pre = *p;
    let slot = swap_slot(&mut p.mutex_list, m, None);
    let mut mx = match slot {
        Some(x) => x,
        None => {
            assert(false);
            return None;
        },
    };
    assert(pre.mutex_ok(m as int));
    let w = mx.unlock();
    swap_slot(&mut p.mutex_list, m, Some(mx));
    match w {
        Some(t) => {
            p.allocated_mutex.set(m, Some(t));
            p.request_mutex.set(t, None);
        },
        None => {
            p.allocated_mutex.set(m, None);
        },
    }
    proof {
        assert(p.mutex_list@ =~= pre.mutex_list@.update(m as int, Some(p.mutex(m as int))));
        assert forall|k: int| 0 <= k < p.mutex(m as int).waiters().len()
            implies (#[trigger] p.mutex(m as int).waiters()[k]) < p.threads() by {
            assert(p.mutex(m as int).waiters()[k] == pre.mutex(m as int).waiters()[k + 1]);
        }
        assert(p.mutex_ok(m as int));
        lemma_mutexes_kept_except(pre, *p, m as int);
        assert forall|k: int| 0 <= k < p.allocated_mutex@.len() && (#[trigger] p.allocated_mutex@[k]).is_some()
            implies p.allocated_mutex@[k].unwrap() < p.request_mutex@.len() by {
            if k != m {
                assert(pre.allocated_mutex@[k] == p.allocated_mutex@[k]);
            }
        }
        lemma_semaphores_kept(pre, *p);
        lemma_condvars_kept(pre, *p);
    }
    w
}

/// Releases mutex `mutex_id` and clears its holder. If threads sleep on it,
/// the oldest becomes the holder and is woken.
pub fn sys_mutex_unlock(p: &mut ProcessSync, mutex_id: usize) -> (r: Reply)
    requires
        old(p).wf(),
    ensures
        final(p).wf(),
        !old(p).has_mutex(mutex_id as int) ==> r == (Reply { code: INVALID_HANDLE, next: Next::Run, wake: None })
            && same_state(*old(p), *final(p)),
        old(p).has_mutex(mutex_id as int) ==> {
            &&& r.code == 0
            &&& r.next == Next::Run
            &&& mutex_release(*old(p), *final(p), mutex_id as int, r.wake)
            &&& semaphores_same(*old(p), *final(p))
            &&& condvars_same(*old(p), *final(p))
            &&& final(p).enable_lock_detect == old(p).enable_lock_detect
        },
{
    if !(mutex_id < p.mutex_list.len() && p.mutex_list[mutex_id].is_some()) {
        return Reply { code: INVALID_HANDLE, next: Next::Run, wake: None };
    }
    let w = release_mutex(p, mutex_id);
    Reply { code: 0, next: Next::Run, wake: w }
}

/// Creates a condition variable with no sleepers in the lowest free slot, or
/// a new slot at the end. Returns its id.
pub fn sys_condvar_create(p: &mut ProcessSync, _arg: usize) -> (r: isize)
    requires
        old(p).wf(),
        old(p).condvar_list@.len() < isize::MAX,
    ensures
        final(p).wf(),
        is_lowest_free(old(p).condvar_list@, r as int),
        final(p).condvar_list@.len() == if r == old(p).condvar_list@.len() { r + 1 } else { old(p).condvar_list@.len() as int },
        final(p).has_condvar(r as int),
        final(p).condvar(r as int).wait_queue@.len() == 0,
        forall|i: int| 0 <= i < old(p).condvar_list@.len() && i != r ==> final(p).condvar_list@[i] == old(p).condvar_list@[i],
        mutexes_same(*old(p), *final(p)),
        semaphores_same(*old(p), *final(p)),
        final(p).enable_lock_detect == old(p).enable_lock_detect,
{
    let ghost pre = *p;
    let id = lowest_free_slot(&p.condvar_list);
    if id < p.condvar_list.len() {
        swap_slot(&mut p.condvar_list, id, Some(Condvar::new()));
    } else {
        p.condvar_list.push(Some(Condvar::new()));
    }
    proof {
        assert forall|c: int| 0 <= c < p.condvar_list@.len() implies #[trigger] p.condvar_ok(c) by {
            if c != id {
                assert(pre.condvar_ok(c));
                if p.has_condvar(c) {
                    assert(p.condvar(c) == pre.condvar(c));
                    assert forall|k: int| 0 <= k < p.condvar(c).wait_queue@.len() implies (#[trigger] p.condvar(c).wait_queue@[k]).0 < p.threads() by {
                        assert(pre.condvar(c).wait_queue@[k].0 < pre.threads());
                    }
                }
            }
        }
        lemma_mutexes_kept(pre, *p);
        lemma_semaphores_kept(pre, *p);
    }
    id as isize
}

/// `tid` gives up mutex `mutex_id` (handing it to the oldest sleeper on it,
/// if any, who is woken) and sleeps on condition variable `condvar_id`. Once
/// signalled it holds the mutex again before it runs.
pub fn sys_condvar_wait(p: &mut ProcessSync, tid: usize, condvar_id: usize, mutex_id: usize) -> (r: Reply)
    requires
        old(p).wf(),
        tid < old(p).threads(),
    ensures
        final(p).wf(),
        !(old(p).has_condvar(condvar_id as int) && old(p).has_mutex(mutex_id as int)) ==> r == (Reply {
            code: INVALID_HANDLE,
            next: Next::Run,
            wake: None,
        }) && same_state(*old(p), *final(p)),
        old(p).has_condvar(condvar_id as int) && old(p).has_mutex(mutex_id as int) ==> {
            &&& r.code == 0
            &&& r.next == Next::Sleep
            &&& mutex_release(*old(p), *final(p), mutex_id as int, r.wake)
            &&& semaphores_same(*old(p), *final(p))
            &&& final(p).enable_lock_detect == old(p).enable_lock_detect
            &&& final(p).condvar_list@.len() == old(p).condvar_list@.len()
            &&& forall|i: int| 0 <= i < old(p).condvar_list@.len() && i != condvar_id ==> final(p).condvar_list@[i] == old(p).condvar_list@[i]
            &&& final(p).has_condvar(condvar_id as int)
            &&& final(p).condvar(condvar_id as int).wait_queue@ == old(p).condvar(condvar_id as int).wait_queue@.push((tid, mutex_id))
        },
{
    if !(condvar_id < p.condvar_list.len() && p.condvar_list[condvar_id].is_some()) {
        return Reply { code: INVALID_HANDLE, next: Next::Run, wake: None };
    }
    if !(mutex_id < p.mutex_list.len() && p.mutex_list[mutex_id].is_some()) {
        return Reply { code: INVALID_HANDLE, next: Next::Run, wake: None };
    }
    let ghost pre = *p;
    let w = release_mutex(p, mutex_id);
    let ghost mid = *p;
    let slot = swap_slot(&mut p.condvar_list, condvar_id, None);
    let mut cv = match slot {
        Some(x) => x,
        None => {
            assert(false);
            return Reply { code: INVALID_HANDLE, next: Next::Run, wake: None };
        },
    };
    cv.wait(tid, mutex_id);
    swap_slot(&mut p.condvar_list, condvar_id, Some(cv));
    proof {
        assert(p.condvar_list@ =~= mid.condvar_list@.update(condvar_id as int, Some(p.condvar(condvar_id as int))));
        assert forall|c: int| 0 <= c < p.condvar_list@.len() implies #[trigger] p.condvar_ok(c) by {
            assert(mid.condvar_ok(c));
            if p.has_condvar(c) {
                assert forall|k: int| 0 <= k < p.condvar(c).wait_queue@.len() implies (#[trigger] p.condvar(c).wait_queue@[k]).0 < p.threads() by {
                    if c != condvar_id || k < mid.condvar(c).wait_queue@.len() {
                        assert(p.condvar(c).wait_queue@[k] == mid.condvar(c).wait_queue@[k]);
                    }
                }
            }
        }
        lemma_mutexes_kept(mid, *p);
        lemma_semaphores_kept(mid, *p);
    }
    Reply { code: 0, next: Next::Sleep, wake: w }
}

/// Wakes the oldest sleeper on condition variable `condvar_id`, if any. The
/// sleeper first takes back the mutex it gave up: if the mutex is free it is
/// granted and the sleeper woken; if a block-and-requeue mutex is taken the
/// sleeper moves to that mutex's queue and is woken when it is handed the
/// lock; if a busy-wait mutex is taken the sleeper is woken to retry it. A
/// sleeper whose mutex has been destroyed is simply woken.
pub fn sys_condvar_signal(p: &mut ProcessSync, condvar_id: usize) -> (r: Reply)
    requires
        old(p).wf(),
    ensures
        final(p).wf(),
        !old(p).has_condvar(condvar_id as int) ==> r == (Reply { code: INVALID_HANDLE, next: Next::Run, wake: None })
            && same_state(*old(p), *final(p)),
        old(p).has_condvar(condvar_id as int) && old(p).condvar(condvar_id as int).wait_queue@.len() == 0 ==> r == (Reply {
            code: 0,
            next: Next::Run,
            wake: None,
        }) && same_state(*old(p), *final(p)),
        old(p).has_condvar(condvar_id as int) && old(p).condvar(condvar_id as int).wait_queue@.len() > 0 ==> {
            let (w, m) = old(p).condvar(condvar_id as int).wait_queue@[0];
            &&& r.code == 0
            &&& r.next == Next::Run
            &&& semaphores_same(*old(p), *final(p))
            &&& final(p).enable_lock_detect == old(p).enable_lock_detect
            &&& final(p).condvar_list@.len() == old(p).condvar_list@.len()
            &&& forall|i: int| 0 <= i < old(p).condvar_list@.len() && i != condvar_id ==> final(p).condvar_list@[i] == old(p).condvar_list@[i]
            &&& final(p).has_condvar(condvar_id as int)
            &&& final(p).condvar(condvar_id as int).wait_queue@ == old(p).condvar(condvar_id as int).wait_queue@.drop_first()
            &&& old(p).has_mutex(m as int) ==> {
                &&& mutex_step(*old(p), *final(p), w, m as int, Reply { code: 0, next: attempt_next(old(p).mutex(m as int)), wake: None })
                &&& r.wake == if old(p).mutex(m as int).is_locked() && old(p).mutex(m as int).is_blocking() { None } else { Some(w) }
            }
            &&& !old(p).has_mutex(m as int) ==> r.wake == Some(w) && mutexes_same(*old(p), *final(p))
        },
{
    if !(condvar_id < p.condvar_list.len() && p.condvar_list[condvar_id].is_some()) {
        return Reply { code: INVALID_HANDLE, next: Next::Run, wake: None };
    }
    let idle = match &p.condvar_list[condvar_id] {
        Some(cv) => cv.wait_queue.len() == 0,
        None => true,
    };
    if idle {
        return Reply { code: 0, next: Next::Run, wake: None };
    }
    let ghost pre = *p;
    let slot = swap_slot(&mut p.condvar_list, condvar_id, None);
    let mut cv = match slot {
        Some(x) => x,
        None => {
            assert(false);
            return Reply { code: INVALID_HANDLE, next: Next::Run, wake: None };
        },
    };
    let head = cv.signal();
    swap_slot(&mut p.condvar_list, condvar_id, Some(cv));
    let ghost mid = *p;
    proof {
        assert(p.condvar_list@ =~= pre.condvar_list@.update(condvar_id as int, Some(p.condvar(condvar_id as int))));
        assert forall|c: int| 0 <= c < p.condvar_list@.len() implies #[trigger] p.condvar_ok(c) by {
            assert(pre.condvar_ok(c));
            if p.has_condvar(c) {
                assert forall|k: int| 0 <= k < p.condvar(c).wait_queue@.len() implies (#[trigger] p.condvar(c).wait_queue@[k]).0 < p.threads() by {
                    if c != condvar_id {
                        assert(p.condvar(c).wait_queue@[k] == pre.condvar(c).wait_queue@[k]);
                    } else {
                        assert(p.condvar(c).wait_queue@[k] == pre.condvar(c).wait_queue@[k + 1]);
                    }
                }
            }
        }
        lemma_mutexes_kept(pre, *p);
        lemma_semaphores_kept(pre, *p);
    }
    match head {
        None => {
            assert(false);
            Reply { code: 0, next: Next::Run, wake: None }
        },
        Some((w, m)) => {
            assert(pre.condvar_ok(condvar_id as int));
            assert(pre.condvar(condvar_id as int).wait_queue@[0] == (w, m));
            if m < p.mutex_list.len() && p.mutex_list[m].is_some() {
                let a = attempt_mutex(p, w, m);
                let wake = match a.next {
                    Next::Sleep => None,
                    _ => Some(w),
                };
                Reply { code: 0, next: Next::Run, wake }
            } else {
                Reply { code: 0, next: Next::Run, wake: Some(w) }
            }
        },
    }
}

/// `rows` with the entry at row `t`, column `s` set to `v`.
pub open spec fn bump(rows: Seq<Seq<usize>>, t: int, s: int, v: usize) -> Seq<Seq<usize>> {
    rows.update(t, rows[t].update(s, v))
}

/// Every semaphore slot other than `s` keeps its books, so the whole table
/// stays well-formed once slot `s` is.
proof fn lemma_semaphores_kept_except(pre: ProcessSync, post: ProcessSync, s: int)
    requires
        pre.wf(),
        post.semaphore_list@.len() == pre.semaphore_list@.len(),
        post.threads() == pre.threads(),
        forall|q: int| 0 <= q < pre.semaphore_list@.len() && q != s ==> {
            &&& post.semaphore_list@[q] == pre.semaphore_list@[q]
            &&& post.available_semaphore@[q] == pre.available_semaphore@[q]
            &&& post.capacity_semaphore@[q] == pre.capacity_semaphore@[q]
            &&& #[trigger] column_sum(post.held(), q) == column_sum(pre.held(), q)
        },
        post.semaphore_ok(s),
    ensures
        forall|q: int| 0 <= q < post.semaphore_list@.len() ==> #[trigger] post.semaphore_ok(q),
{
    assert forall|q: int| 0 <= q < post.semaphore_list@.len() implies #[trigger] post.semaphore_ok(q) by {
        if q != s {
            assert(pre.semaphore_ok(q));
            assert(column_sum(post.held(), q) == column_sum(pre.held(), q));
            if post.has_semaphore(q) {
                assert(post.semaphore(q) == pre.semaphore(q));
            }
        }
    }
}

/// Writing `v` at (`t`, `s`) leaves the sums of the other columns alone.
proof fn lemma_other_columns(rows: Seq<Seq<usize>>, t: int, s: int, v: usize)
    requires
        0 <= t < rows.len(),
        0 <= s < rows[t].len(),
    ensures
        forall|q: int| 0 <= q < rows[t].len() && q != s ==> #[trigger] column_sum(bump(rows, t, s, v), q) == column_sum(rows, q),
        column_sum(bump(rows, t, s, v), s) == column_sum(rows, s) - rows[t][s] + v,
{
    lemma_column_sum_update(rows, t, rows[t].update(s, v), s);
    assert forall|q: int| 0 <= q < rows[t].len() && q != s implies #[trigger] column_sum(bump(rows, t, s, v), q) == column_sum(rows, q) by {
        lemma_column_sum_update(rows, t, rows[t].update(s, v), q);
    }
}

/// Creates a semaphore with `res_count` free units in the lowest free slot,
/// or a new slot at the end (every thread then gets a zero entry for it).
/// Returns its id.
pub fn sys_semaphore_create(p: &mut ProcessSync, res_count: usize) -> (r: isize)
    requires
        old(p).wf(),
        old(p).semaphore_list@.len() < isize::MAX,
    ensures
        final(p).wf(),
        is_lowest_free(old(p).semaphore_list@, r as int),
        final(p).semaphore_list@.len() == if r == old(p).semaphore_list@.len() { r + 1 } else { old(p).semaphore_list@.len() as int },
        final(p).has_semaphore(r as int),
        final(p).semaphore(r as int).count == res_count,
        final(p).semaphore(r as int).wait_queue@.len() == 0,
        final(p).available_semaphore@[r as int] == res_count,
        final(p).capacity_semaphore@[r as int] == res_count,
        forall|i: int| 0 <= i < old(p).semaphore_list@.len() && i != r ==> {
            &&& final(p).semaphore_list@[i] == old(p).semaphore_list@[i]
            &&& final(p).available_semaphore@[i] == old(p).available_semaphore@[i]
            &&& final(p).capacity_semaphore@[i] == old(p).capacity_semaphore@[i]
        },
        r < old(p).semaphore_list@.len() ==> final(p).held() == old(p).held() && final(p).requested() == old(p).requested(),
        r == old(p).semaphore_list@.len() ==> {
            &&& final(p).held() == old(p).held().map_values(|row: Seq<usize>| row.push(0))
            &&& final(p).requested() == old(p).requested().map_values(|row: Seq<usize>| row.push(0))
        },
        mutexes_same(*old(p), *final(p)),
        condvars_same(*old(p), *final(p)),
        final(p).enable_lock_detect == old(p).enable_lock_detect,
{
    let ghost pre = *p;
    let id = lowest_free_slot(&p.semaphore_list);
    if id < p.semaphore_list.len() {
        proof {
            assert(pre.semaphore_ok(id as int));
            lemma_column_sum_nonneg(pre.held(), id as int);
        }
        swap_slot(&mut p.semaphore_list, id, Some(Semaphore::new(res_count)));
        p.available_semaphore.set(id, res_count);
        p.capacity_semaphore.set(id, res_count);
        proof {
            assert(p.held() == pre.held());
            assert(p.semaphore_ok(id as int));
            lemma_semaphores_kept_except(pre, *p, id as int);
        }
    } else {
        p.semaphore_list.push(Some(Semaphore::new(res_count)));
        p.available_semaphore.push(res_count);
        p.capacity_semaphore.push(res_count);
        push_column(&mut p.allocated_semaphore, 0);
        push_column(&mut p.request_semaphore, 0);
        proof {
            assert(p.held() =~= pre.held().map_values(|row: Seq<usize>| row.push(0)));
            assert(p.requested() =~= pre.requested().map_values(|row: Seq<usize>| row.push(0)));
            assert forall|t: int| 0 <= t < p.held().len() implies (#[trigger] p.held()[t])[id as int] == 0 by {
                assert(p.held()[t] == pre.held()[t].push(0));
            }
            lemma_column_sum_zero(p.held(), id as int);
            assert(p.semaphore_ok(id as int));
            assert forall|q: int| 0 <= q < pre.semaphore_list@.len() && q != id implies {
                &&& p.semaphore_list@[q] == pre.semaphore_list@[q]
                &&& p.available_semaphore@[q] == pre.available_semaphore@[q]
                &&& p.capacity_semaphore@[q] == pre.capacity_semaphore@[q]
                &&& #[trigger] column_sum(p.held(), q) == column_sum(pre.held(), q)
            } by {
                assert forall|t: int| 0 <= t < p.held().len() implies (#[trigger] p.held()[t])[q] == pre.held()[t][q] by {
                    assert(p.held()[t] == pre.held()[t].push(0));
                }
                lemma_column_sum_same(p.held(), q, pre.held(), q);
            }
            assert forall|q: int| 0 <= q < p.semaphore_list@.len() implies #[trigger] p.semaphore_ok(q) by {
                if q != id {
                    assert(pre.semaphore_ok(q));
                    assert(column_sum(p.held(), q) == column_sum(pre.held(), q));
                    if p.has_semaphore(q) {
                        assert(p.semaphore(q) == pre.semaphore(q));
                    }
                }
            }
        }
    }
    proof {
        lemma_mutexes_kept(pre, *p);
        lemma_condvars_kept(pre, *p);
    }
    id as isize
}

/// `tid` asks for one unit of semaphore `sem_id`. The request is recorded;
/// with detection on, a request that leaves no order in which every thread
/// can finish is withdrawn and reported as `DEADLOCK_DETECTED`, leaving every
/// table as it was. Otherwise a free unit is granted at once (and the
/// request turned into a holding), or `tid` sleeps in the semaphore's queue
/// with its request outstanding.
pub fn sys_semaphore_down(p: &mut ProcessSync, tid: usize, sem_id: usize) -> (r: Reply)
    requires
        old(p).wf(),
        tid < old(p).threads(),
        old(p).has_semaphore(sem_id as int) ==> old(p).requested()[tid as int][sem_id as int] < usize::MAX,
    ensures
        final(p).wf(),
        !old(p).has_semaphore(sem_id as int) ==> r == (Reply { code: INVALID_HANDLE, next: Next::Run, wake: None })
            && same_state(*old(p), *final(p)),
        !old(p).enable_lock_detect && old(p).has_semaphore(sem_id as int) ==> r.code == 0
            && r.next == if old(p).semaphore(sem_id as int).count > 0 { Next::Run } else { Next::Sleep },
        old(p).has_semaphore(sem_id as int) ==> {
            let s = sem_id as int;
            let t = tid as int;
            let asked = bump(old(p).requested(), t, s, (old(p).requested()[t][s] + 1) as usize);
            let refused = old(p).enable_lock_detect && !is_safe(asked, old(p).held(), old(p).available_semaphore@);
            &&& refused ==> r == (Reply { code: DEADLOCK_DETECTED, next: Next::Run, wake: None })
                && same_state(*old(p), *final(p))
            &&& !refused ==> {
                &&& r.code == 0
                &&& r.wake is None
                &&& mutexes_same(*old(p), *final(p))
                &&& condvars_same(*old(p), *final(p))
                &&& final(p).enable_lock_detect == old(p).enable_lock_detect
                &&& final(p).semaphore_list@.len() == old(p).semaphore_list@.len()
                &&& forall|i: int| 0 <= i < old(p).semaphore_list@.len() && i != s ==> final(p).semaphore_list@[i] == old(p).semaphore_list@[i]
                &&& final(p).capacity_semaphore@ == old(p).capacity_semaphore@
                &&& final(p).has_semaphore(s)
                &&& old(p).semaphore(s).count > 0 ==> {
                    &&& r.next == Next::Run
                    &&& final(p).semaphore(s).count == old(p).semaphore(s).count - 1
                    &&& final(p).semaphore(s).wait_queue@ == old(p).semaphore(s).wait_queue@
                    &&& final(p).available_semaphore@ == old(p).available_semaphore@.update(s, (old(p).available_semaphore@[s] - 1) as usize)
                    &&& final(p).held() == bump(old(p).held(), t, s, (old(p).held()[t][s] + 1) as usize)
                    &&& final(p).requested() == old(p).requested()
                }
                &&& old(p).semaphore(s).count == 0 ==> {
                    &&& r.next == Next::Sleep
                    &&& final(p).semaphore(s).count == 0
                    &&& final(p).semaphore(s).wait_queue@ == old(p).semaphore(s).wait_queue@.push(tid)
                    &&& final(p).available_semaphore@ == old(p).available_semaphore@
                    &&& final(p).held() == old(p).held()
                    &&& final(p).requested() == asked
                }
            }
        },
{
    if !(sem_id < p.semaphore_list.len() && p.semaphore_list[sem_id].is_some()) {
        return Reply { code: INVALID_HANDLE, next: Next::Run, wake: None };
    }
    let ghost pre = *p;
    let ghost s = sem_id as int;
    let ghost t = tid as int;
    let q = p.request_semaphore[tid][sem_id];
    assert(q == pre.requested()[t][s]);
    set_cell(&mut p.request_semaphore, tid, sem_id, q + 1);
    assert(p.requested() =~= bump(pre.requested(), t, s, (q + 1) as usize));
    assert(p.held() == pre.held());
    assert forall|k: int| 0 <= k < p.requested().len() implies (#[trigger] p.requested()[k]).len() == p.semaphore_list@.len() by {
        assert(pre.requested()[k].len() == pre.semaphore_list@.len());
    }
    if p.enable_lock_detect {
        if !is_safe_state(&p.request_semaphore, &p.allocated_semaphore, &p.available_semaphore) {
            set_cell(&mut p.request_semaphore, tid, sem_id, q);
            assert(p.requested()[t] =~= pre.requested()[t]);
            assert(p.requested() =~= pre.requested());
            proof {
                lemma_mutexes_kept(pre, *p);
                lemma_semaphores_kept(pre, *p);
                lemma_condvars_kept(pre, *p);
            }
            return Reply { code: DEADLOCK_DETECTED, next: Next::Run, wake: None };
        }
    }
    let ghost asked = p.requested();
    assert(pre.semaphore_ok(s));
    let slot = swap_slot(&mut p.semaphore_list, sem_id, None);
    let mut sem = match slot {
        Some(x) => x,
        None => {
            assert(false);
            return Reply { code: INVALID_HANDLE, next: Next::Run, wake: None };
        },
    };
    let a = sem.down(tid);
    swap_slot(&mut p.semaphore_list, sem_id, Some(sem));
    assert(p.semaphore_list@ =~= pre.semaphore_list@.update(s, Some(p.semaphore(s))));
    let r = match a {
        Acquire::Granted => {
            assert(p.held() == pre.held());
            assert(p.allocated_semaphore@[t]@ == pre.held()[t]);
            let h = p.allocated_semaphore[tid][sem_id];
            proof {
                assert(h == pre.held()[t][s]);
                lemma_column_entry_bounded(pre.held(), t, s);
            }
            set_cell(&mut p.allocated_semaphore, tid, sem_id, h + 1);
            let av = p.available_semaphore[sem_id];
            p.available_semaphore.set(sem_id, av - 1);
            set_cell(&mut p.request_semaphore, tid, sem_id, q);
            proof {
                assert(p.held() =~= bump(pre.held(), t, s, (h + 1) as usize));
                assert(p.requested()[t] =~= pre.requested()[t]);
                assert(p.requested() =~= pre.requested());
                lemma_other_columns(pre.held(), t, s, (h + 1) as usize);
            }
            Reply { code: 0, next: Next::Run, wake: None }
        },
        _ => {
            proof {
                assert(p.held() == pre.held());
            }
            Reply { code: 0, next: Next::Sleep, wake: None }
        },
    };
    proof {
        assert forall|k: int| 0 <= k < p.requested().len() implies (#[trigger] p.requested()[k]).len() == p.semaphore_list@.len() by {
            assert(pre.requested()[k].len() == pre.semaphore_list@.len());
        }
        assert forall|k: int| 0 <= k < p.held().len() implies (#[trigger] p.held()[k]).len() == p.semaphore_list@.len() by {
            assert(pre.held()[k].len() == pre.semaphore_list@.len());
        }
        assert forall|k: int| 0 <= k < p.semaphore(s).wait_queue@.len() implies (#[trigger] p.semaphore(s).wait_queue@[k]) < p.threads() by {
            if k < pre.semaphore(s).wait_queue@.len() {
                assert(p.semaphore(s).wait_queue@[k] == pre.semaphore(s).wait_queue@[k]);
            }
        }
        assert(p.semaphore_ok(s));
        assert forall|i: int| 0 <= i < pre.semaphore_list@.len() && i != s implies {
            &&& p.semaphore_list@[i] == pre.semaphore_list@[i]
            &&& p.available_semaphore@[i] == pre.available_semaphore@[i]
            &&& p.capacity_semaphore@[i] == pre.capacity_semaphore@[i]
            &&& #[trigger] column_sum(p.held(), i) == column_sum(pre.held(), i)
        } by {
            assert(pre.held()[t].len() == pre.semaphore_list@.len());
        }
        lemma_semaphores_kept_except(pre, *p, s);
        lemma_mutexes_kept(pre, *p);
        lemma_condvars_kept(pre, *p);
    }
    r
}

/// `tid` returns one unit of semaphore `sem_id`. A unit `tid` held leaves
/// its holding; one it did not hold is a new unit. The unit goes to the
/// oldest sleeper, which then holds it, has its request lowered and is
/// woken, or else becomes free.
pub fn sys_semaphore_up(p: &mut ProcessSync, tid: usize, sem_id: usize) -> (r: Reply)
    requires
        old(p).wf(),
        tid < old(p).threads(),
        old(p).has_semaphore(sem_id as int) && old(p).held()[tid as int][sem_id as int] == 0
            ==> old(p).capacity_semaphore@[sem_id as int] < usize::MAX,
    ensures
        final(p).wf(),
        !old(p).has_semaphore(sem_id as int) ==> r == (Reply { code: INVALID_HANDLE, next: Next::Run, wake: None })
            && same_state(*old(p), *final(p)),
        old(p).has_semaphore(sem_id as int) ==> {
            let s = sem_id as int;
            let t = tid as int;
            let h = old(p).held()[t][s];
            let held1 = if h > 0 { bump(old(p).held(), t, s, (h - 1) as usize) } else { old(p).held() };
            let cap1 = if h > 0 { old(p).capacity_semaphore@[s] } else { (old(p).capacity_semaphore@[s] + 1) as usize };
            let sem = old(p).semaphore(s);
            &&& r.code == 0
            &&& r.next == Next::Run
            &&& mutexes_same(*old(p), *final(p))
            &&& condvars_same(*old(p), *final(p))
            &&& final(p).enable_lock_detect == old(p).enable_lock_detect
            &&& final(p).semaphore_list@.len() == old(p).semaphore_list@.len()
            &&& forall|i: int| 0 <= i < old(p).semaphore_list@.len() && i != s ==> final(p).semaphore_list@[i] == old(p).semaphore_list@[i]
            &&& final(p).has_semaphore(s)
            &&& final(p).capacity_semaphore@ == old(p).capacity_semaphore@.update(s, cap1)
            &&& sem.wait_queue@.len() == 0 ==> {
                &&& r.wake is None
                &&& final(p).semaphore(s).count == sem.count + 1
                &&& final(p).semaphore(s).wait_queue@.len() == 0
                &&& final(p).available_semaphore@ == old(p).available_semaphore@.update(s, (old(p).available_semaphore@[s] + 1) as usize)
                &&& final(p).held() == held1
                &&& final(p).requested() == old(p).requested()
            }
            &&& sem.wait_queue@.len() > 0 ==> {
                let w = sem.wait_queue@[0] as int;
                &&& r.wake == Some(sem.wait_queue@[0])
                &&& final(p).semaphore(s).count == sem.count
                &&& final(p).semaphore(s).wait_queue@ == sem.wait_queue@.drop_first()
                &&& final(p).available_semaphore@ == old(p).available_semaphore@
                &&& final(p).held() == bump(held1, w, s, (held1[w][s] + 1) as usize)
                &&& final(p).requested() == bump(old(p).requested(), w, s,
                    if old(p).requested()[w][s] > 0 { (old(p).requested()[w][s] - 1) as usize } else { 0 })
            }
        },
{
    if !(sem_id < p.semaphore_list.len() && p.semaphore_list[sem_id].is_some()) {
        return Reply { code: INVALID_HANDLE, next: Next::Run, wake: None };
    }
    let ghost pre = *p;
    let ghost s = sem_id as int;
    let ghost t = tid as int;
    assert(pre.semaphore_ok(s));
    assert(p.allocated_semaphore@[t]@ == pre.held()[t]);
    let h = p.allocated_semaphore[tid][sem_id];
    proof {
        lemma_column_entry_bounded(pre.held(), t, s);
    }
    if h > 0 {
        set_cell(&mut p.allocated_semaphore, tid, sem_id, h - 1);
        proof {
            assert(p.held() =~= bump(pre.held(), t, s, (h - 1) as usize));
            lemma_other_columns(pre.held(), t, s, (h - 1) as usize);
        }
    } else {
        let c = p.capacity_semaphore[sem_id];
        p.capacity_semaphore.set(sem_id, c + 1);
    }
    let ghost mid = *p;
    let av = p.available_semaphore[sem_id];
    p.available_semaphore.set(sem_id, av + 1);
    let slot = swap_slot(&mut p.semaphore_list, sem_id, None);
    let mut sem = match slot {
        Some(x) => x,
        None => {
            assert(false);
            return Reply { code: INVALID_HANDLE, next: Next::Run, wake: None };
        },
    };
    let w = sem.up();
    swap_slot(&mut p.semaphore_list, sem_id, Some(sem));
    assert(p.semaphore_list@ =~= pre.semaphore_list@.update(s, Some(p.semaphore(s))));
    match w {
        Some(w) => {
            let ghost wi = w as int;
            assert(w == pre.semaphore(s).wait_queue@[0]);
            assert(w < pre.threads());
            assert(mid.held()[wi].len() == pre.semaphore_list@.len()) by {
                assert(pre.held()[wi].len() == pre.semaphore_list@.len());
            }
            assert(p.allocated_semaphore@[wi]@ == mid.held()[wi]);
            let hw = p.allocated_semaphore[w][sem_id];
            proof {
                lemma_column_entry_bounded(mid.held(), wi, s);
            }
            set_cell(&mut p.allocated_semaphore, w, sem_id, hw + 1);
            p.available_semaphore.set(sem_id, av);
            assert(p.request_semaphore@[wi]@ == pre.requested()[wi]);
            assert(pre.requested()[wi].len() == pre.semaphore_list@.len());
            let rq = p.request_semaphore[w][sem_id];
            set_cell(&mut p.request_semaphore, w, sem_id, rq.saturating_sub(1));
            proof {
                assert(p.held() =~= bump(mid.held(), wi, s, (hw + 1) as usize));
                assert(p.requested() =~= bump(pre.requested(), wi, s, rq.saturating_sub(1)));
                lemma_other_columns(mid.held(), wi, s, (hw + 1) as usize);
                assert forall|k: int| 0 <= k < p.semaphore(s).wait_queue@.len() implies (#[trigger] p.semaphore(s).wait_queue@[k]) < p.threads() by {
                    assert(p.semaphore(s).wait_queue@[k] == pre.semaphore(s).wait_queue@[k + 1]);
                }
            }
        },
        None => {
            assert(p.requested() == pre.requested());
        },
    }
    proof {
        assert forall|k: int| 0 <= k < p.requested().len() implies (#[trigger] p.requested()[k]).len() == p.semaphore_list@.len() by {
            assert(pre.requested()[k].len() == pre.semaphore_list@.len());
        }
        assert forall|k: int| 0 <= k < p.held().len() implies (#[trigger] p.held()[k]).len() == p.semaphore_list@.len() by {
            assert(pre.held()[k].len() == pre.semaphore_list@.len());
        }
        assert(p.semaphore_ok(s));
        assert forall|i: int| 0 <= i < pre.semaphore_list@.len() && i != s implies {
            &&& p.semaphore_list@[i] == pre.semaphore_list@[i]
            &&& p.available_semaphore@[i] == pre.available_semaphore@[i]
            &&& p.capacity_semaphore@[i] == pre.capacity_semaphore@[i]
            &&& #[trigger] column_sum(p.held(), i) == column_sum(pre.held(), i)
        } by {
            assert(pre.held()[t].len() == pre.semaphore_list@.len());
        }
        lemma_semaphores_kept_except(pre, *p, s);
        lemma_mutexes_kept(pre, *p);
        lemma_condvars_kept(pre, *p);
    }
    Reply { code: 0, next: Next::Run, wake: w }
}

/// Frees the slot of mutex `mutex_id` and clears its holder; a later
/// creation may reuse the id.
pub fn destroy_mutex(p: &mut ProcessSync, mutex_id: usize)
    requires
        old(p).wf(),
        mutex_id < old(p).mutex_list@.len(),
    ensures
        final(p).wf(),
        final(p).mutex_list@ == old(p).mutex_list@.update(mutex_id as int, None),
        final(p).allocated_mutex@ == old(p).allocated_mutex@.update(mutex_id as int, None),
        final(p).request_mutex@ == old(p).request_mutex@,
        semaphores_same(*old(p), *final(p)),
        condvars_same(*old(p), *final(p)),
        final(p).enable_lock_detect == old(p).enable_lock_detect,
{
    let ghost pre = *p;
    swap_slot(&mut p.mutex_list, mutex_id, None);
    p.allocated_mutex.set(mutex_id, None);
    proof {
        lemma_mutexes_kept_except(pre, *p, mutex_id as int);
        assert forall|k: int| 0 <= k < p.allocated_mutex@.len() && (#[trigger] p.allocated_mutex@[k]).is_some()
            implies p.allocated_mutex@[k].unwrap() < p.request_mutex@.len() by {
            assert(pre.allocated_mutex@[k] == p.allocated_mutex@[k]);
        }
        lemma_semaphores_kept(pre, *p);
        lemma_condvars_kept(pre, *p);
    }
}

/// Frees the slot of condition variable `condvar_id`; a later creation may
/// reuse the id.
pub fn destroy_condvar(p: &mut ProcessSync, condvar_id: usize)
    requires
        old(p).wf(),
        condvar_id < old(p).condvar_list@.len(),
    ensures
        final(p).wf(),
        final(p).condvar_list@ == old(p).condvar_list@.update(condvar_id as int, None),
        mutexes_same(*old(p), *final(p)),
        semaphores_same(*old(p), *final(p)),
        final(p).enable_lock_detect == old(p).enable_lock_detect,
{
    let ghost pre = *p;
    swap_slot(&mut p.condvar_list, condvar_id, None);
    proof {
        assert forall|c: int| 0 <= c < p.condvar_list@.len() implies #[trigger] p.condvar_ok(c) by {
            assert(pre.condvar_ok(c));
            if p.has_condvar(c) {
                assert(p.condvar(c) == pre.condvar(c));
                assert forall|k: int| 0 <= k < p.condvar(c).wait_queue@.len() implies (#[trigger] p.condvar(c).wait_queue@[k]).0 < p.threads() by {
                    assert(pre.condvar(c).wait_queue@[k].0 < pre.threads());
                }
            }
        }
        lemma_mutexes_kept(pre, *p);
        lemma_semaphores_kept(pre, *p);
    }
}

/// Frees the slot of semaphore `sem_id` and clears its column in every
/// table: no unit of it is free, held or requested any more. A later
/// creation may reuse the id.
pub fn destroy_semaphore(p: &mut ProcessSync, sem_id: usize)
    requires
        old(p).wf(),
        sem_id < old(p).semaphore_list@.len(),
    ensures
        final(p).wf(),
        final(p).semaphore_list@ == old(p).semaphore_list@.update(sem_id as int, None),
        final(p).available_semaphore@ == old(p).available_semaphore@.update(sem_id as int, 0),
        final(p).capacity_semaphore@ == old(p).capacity_semaphore@.update(sem_id as int, 0),
        final(p).held().len() == old(p).held().len(),
        forall|t: int| 0 <= t < old(p).held().len() ==> (#[trigger] final(p).held()[t]) == old(p).held()[t].update(sem_id as int, 0),
        forall|t: int| 0 <= t < old(p).held().len() ==> (#[trigger] final(p).requested()[t]) == old(p).requested()[t].update(sem_id as int, 0),
        mutexes_same(*old(p), *final(p)),
        condvars_same(*old(p), *final(p)),
        final(p).enable_lock_detect == old(p).enable_lock_detect,
{
    let ghost pre = *p;
    let ghost s = sem_id as int;
    let n = p.allocated_semaphore.len();
    let mut t: usize = 0;
    while t < n
        invariant
            pre.wf(),
            s == sem_id as int,
            n == pre.held().len() == pre.requested().len(),
            p.allocated_semaphore@.len() == n,
            p.request_semaphore@.len() == n,
            sem_id < pre.semaphore_list@.len(),
            t <= n,
            forall|k: int| 0 <= k < t ==> (#[trigger] p.held()[k]) == pre.held()[k].update(s, 0),
            forall|k: int| 0 <= k < t ==> (#[trigger] p.requested()[k]) == pre.requested()[k].update(s, 0),
            forall|k: int| t <= k < n ==> (#[trigger] p.held()[k]) == pre.held()[k],
            forall|k: int| t <= k < n ==> (#[trigger] p.requested()[k]) == pre.requested()[k],
            mutexes_same(pre, *p),
            condvars_same(pre, *p),
            p.semaphore_list@ == pre.semaphore_list@,
            p.available_semaphore@ == pre.available_semaphore@,
            p.capacity_semaphore@ == pre.capacity_semaphore@,
            p.enable_lock_detect == pre.enable_lock_detect,
        decreases n - t,
    {
        assert(pre.held()[t as int].len() == pre.semaphore_list@.len());
        assert(pre.requested()[t as int].len() == pre.semaphore_list@.len());
        assert(p.allocated_semaphore@[t as int]@ == p.held()[t as int]);
        assert(p.request_semaphore@[t as int]@ == p.requested()[t as int]);
        let ghost before = *p;
        set_cell(&mut p.allocated_semaphore, t, sem_id, 0);
        set_cell(&mut p.request_semaphore, t, sem_id, 0);
        proof {
            assert forall|k: int| 0 <= k < n implies (#[trigger] p.held()[k]) == if k == t {
                pre.held()[k].update(s, 0)
            } else {
                before.held()[k]
            } by {
                assert(p.held()[k] == p.allocated_semaphore@[k]@);
                assert(before.held()[k] == before.allocated_semaphore@[k]@);
                if k != t {
                    assert(p.allocated_semaphore@[k] == before.allocated_semaphore@[k]);
                }
            }
            assert forall|k: int| 0 <= k < n implies (#[trigger] p.requested()[k]) == if k == t {
                pre.requested()[k].update(s, 0)
            } else {
                before.requested()[k]
            } by {
                assert(p.requested()[k] == p.request_semaphore@[k]@);
                assert(before.requested()[k] == before.request_semaphore@[k]@);
                if k != t {
                    assert(p.request_semaphore@[k] == before.request_semaphore@[k]);
                }
            }
        }
        t = t + 1;
    }
    let ghost cleared = *p;
    swap_slot(&mut p.semaphore_list, sem_id, None);
    p.available_semaphore.set(sem_id, 0);
    p.capacity_semaphore.set(sem_id, 0);
    proof {
        assert(p.held() == cleared.held());
        assert(p.requested() == cleared.requested());
        assert forall|k: int| 0 <= k < n implies (#[trigger] p.held()[k]) == pre.held()[k].update(s, 0) by {
            assert(cleared.held()[k] == pre.held()[k].update(s, 0));
        }
        assert forall|k: int| 0 <= k < n implies (#[trigger] p.requested()[k]) == pre.requested()[k].update(s, 0) by {
            assert(cleared.requested()[k] == pre.requested()[k].update(s, 0));
        }
        assert forall|k: int| 0 <= k < p.held().len() implies (#[trigger] p.held()[k])[s] == 0 by {
            assert(pre.held()[k].len() == pre.semaphore_list@.len());
            assert(p.held()[k] == pre.held()[k].update(s, 0));
        }
        lemma_column_sum_zero(p.held(), s);
        assert(p.semaphore_ok(s));
        assert forall|i: int| 0 <= i < pre.semaphore_list@.len() && i != s implies {
            &&& p.semaphore_list@[i] == pre.semaphore_list@[i]
            &&& p.available_semaphore@[i] == pre.available_semaphore@[i]
            &&& p.capacity_semaphore@[i] == pre.capacity_semaphore@[i]
            &&& #[trigger] column_sum(p.held(), i) == column_sum(pre.held(), i)
        } by {
            assert forall|k: int| 0 <= k < p.held().len() implies (#[trigger] p.held()[k])[i] == pre.held()[k][i] by {
                assert(pre.held()[k].len() == pre.semaphore_list@.len());
                assert(p.held()[k] == pre.held()[k].update(s, 0));
            }
            lemma_column_sum_same(p.held(), i, pre.held(), i);
        }
        assert forall|k: int| 0 <= k < p.requested().len() implies (#[trigger] p.requested()[k]).len() == p.semaphore_list@.len() by {
            assert(pre.requested()[k].len() == pre.semaphore_list@.len());
        }
        assert forall|k: int| 0 <= k < p.held().len() implies (#[trigger] p.held()[k]).len() == p.semaphore_list@.len() by {
            assert(pre.held()[k].len() == pre.semaphore_list@.len());
        }
        lemma_semaphores_kept_except(pre, *p, s);
        lemma_mutexes_kept(pre, *p);
        lemma_condvars_kept(pre, *p);
    }
}

} // verus!
