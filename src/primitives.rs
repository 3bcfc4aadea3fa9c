//! Blocking primitives as state machines. A call never suspends anything
//! itself: it says whether the caller got what it asked for, must sleep until
//! woken, or must yield and try again, and which sleeping thread to wake.
use vstd::prelude::*;

verus! {

/// What happened to a thread that asked for a lock or a unit.
#[derive(PartialEq, Eq, Structural, Clone, Copy, Debug)]
pub enum Acquire {
    /// The caller has it now.
    Granted,
    /// The caller was put at the back of the wait list and must sleep; it
    /// owns the resource once a release hands it over.
    Queued,
    /// The caller must yield and try again later (busy-wait strategy).
    Busy,
}

/// Busy-wait mutex: a single flag that contenders poll.
pub struct MutexSpin {
    pub locked: bool,
}

/// Block-and-requeue mutex: contenders sleep on a FIFO list and `unlock`
/// hands the lock straight to the oldest of them.
pub struct MutexBlocking {
    pub locked: bool,
    pub wait_queue: Vec<usize>,
}

/// A mutex with one of the two waiting strategies.
pub enum Mutex {
    Spin(MutexSpin),
    Blocking(MutexBlocking),
}

impl Mutex {
    pub open spec fn is_locked(&self) -> bool {
        match self {
            Mutex::Spin(m) => m.locked,
            Mutex::Blocking(m) => m.locked,
        }
    }

    /// Threads asleep on the mutex, oldest first (always empty for busy-wait).
    pub open spec fn waiters(&self) -> Seq<usize> {
        match self {
            Mutex::Spin(_) => Seq::empty(),
            Mutex::Blocking(m) => m.wait_queue@,
        }
    }

    pub open spec fn is_blocking(&self) -> bool {
        self is Blocking
    }

    /// An unlocked mutex has no sleepers.
    pub open spec fn wf(&self) -> bool {
        !self.is_locked() ==> self.waiters().len() == 0
    }

    /// A new, unlocked mutex; `blocking` picks the waiting strategy.
    pub fn new(blocking: bool) -> (r: Mutex)
        ensures
            r.wf(),
            !r.is_locked(),
            r.waiters().len() == 0,
            r.is_blocking() == blocking,
    {
        if blocking {
            Mutex::Blocking(MutexBlocking { locked: false, wait_queue: Vec::new() })
        } else {
            Mutex::Spin(MutexSpin { locked: false })
        }
    }

    /// Takes the lock for `tid` if it is free; otherwise queues `tid`
    /// (blocking) or tells it to retry (busy-wait).
    pub fn lock(&mut self, tid: usize) -> (r: Acquire)
        requires
            old(self).wf(),
        ensures
            final(self).wf(),
            final(self).is_locked(),
            final(self).is_blocking() == old(self).is_blocking(),
            !old(self).is_locked() ==> r == Acquire::Granted && final(self).waiters() == old(self).waiters(),
            old(self).is_locked() && old(self).is_blocking() ==> r == Acquire::Queued
                && final(self).waiters() == old(self).waiters().push(tid),
            old(self).is_locked() && !old(self).is_blocking() ==> r == Acquire::Busy
                && final(self).waiters() == old(self).waiters(),
    {
        match self {
            Mutex::Spin(m) => {
                if m.locked {
                    Acquire::Busy
                } else {
                    m.locked = true;
                    Acquire::Granted
                }
            },
            Mutex::Blocking(m) => {
                if m.locked {
                    m.wait_queue.push(tid);
                    Acquire::Queued
                } else {
                    m.locked = true;
                    Acquire::Granted
                }
            },
        }
    }

    /// Releases the lock. If a thread sleeps on it, the lock passes to the
    /// oldest sleeper, which is returned to be woken; otherwise it is freed.
    pub fn unlock(&mut self) -> (r: Option<usize>)
        requires
            old(self).wf(),
        ensures
            final(self).wf(),
            final(self).is_blocking() == old(self).is_blocking(),
            old(self).waiters().len() == 0 ==> r is None && !final(self).is_locked()
                && final(self).waiters().len() == 0,
            old(self).waiters().len() > 0 ==> r == Some(old(self).waiters()[0]) && final(self).is_locked()
                && final(self).waiters() == old(self).waiters().drop_first(),
    {
        match self {
            Mutex::Spin(m) => {
                m.locked = false;
                None
            },
            Mutex::Blocking(m) => {
                if m.wait_queue.len() > 0 {
                    let w = m.wait_queue.remove(0);
                    Some(w)
                } else {
                    m.locked = false;
                    None
                }
            },
        }
    }
}

/// Counting semaphore: free units plus a FIFO list of sleepers.
pub struct Semaphore {
    pub count: usize,
    pub wait_queue: Vec<usize>,
}

impl Semaphore {
    /// Nobody sleeps while units are free.
    pub open spec fn wf(&self) -> bool {
        self.count > 0 ==> self.wait_queue@.len() == 0
    }

    pub fn new(count: usize) -> (r: Semaphore)
        ensures
            r.wf(),
            r.count == count,
            r.wait_queue@.len() == 0,
    {
        Semaphore { count, wait_queue: Vec::new() }
    }

    /// Takes a unit for `tid` if one is free, else queues `tid`.
    pub fn down(&mut self, tid: usize) -> (r: Acquire)
        requires
            old(self).wf(),
        ensures
            final(self).wf(),
            old(self).count > 0 ==> r == Acquire::Granted && final(self).count == old(self).count - 1
                && final(self).wait_queue@ == old(self).wait_queue@,
            old(self).count == 0 ==> r == Acquire::Queued && final(self).count == 0
                && final(self).wait_queue@ == old(self).wait_queue@.push(tid),
    {
        if self.count > 0 {
            self.count = self.count - 1;
            Acquire::Granted
        } else {
            self.wait_queue.push(tid);
            Acquire::Queued
        }
    }

    /// Returns a unit: it goes straight to the oldest sleeper, which is
    /// returned to be woken, or back to the free count.
    pub fn up(&mut self) -> (r: Option<usize>)
        requires
            old(self).wf(),
            old(self).count < usize::MAX,
        ensures
            final(self).wf(),
            old(self).wait_queue@.len() == 0 ==> r is None && final(self).count == old(self).count + 1
                && final(self).wait_queue@.len() == 0,
            old(self).wait_queue@.len() > 0 ==> r == Some(old(self).wait_queue@[0]) && final(self).count
                == old(self).count && final(self).wait_queue@ == old(self).wait_queue@.drop_first(),
    {
        if self.wait_queue.len() > 0 {
            let w = self.wait_queue.remove(0);
            Some(w)
        } else {
            self.count = self.count + 1;
            None
        }
    }
}

/// Condition variable: a FIFO list of sleepers, each with the mutex it gave
/// up to sleep and must hold again before it returns.
pub struct Condvar {
    pub wait_queue: Vec<(usize, usize)>,
}

impl Condvar {
    pub fn new() -> (r: Condvar)
        ensures
            r.wait_queue@.len() == 0,
    {
        Condvar { wait_queue: Vec::new() }
    }

    /// Puts `tid` to sleep; `mutex_id` is the mutex it will take again.
    pub fn wait(&mut self, tid: usize, mutex_id: usize)
        ensures
            final(self).wait_queue@ == old(self).wait_queue@.push((tid, mutex_id)),
    {
        self.wait_queue.push((tid, mutex_id));
    }

    /// Takes the oldest sleeper off the list, if any.
    pub fn signal(&mut self) -> (r: Option<(usize, usize)>)
        ensures
            old(self).wait_queue@.len() == 0 ==> r is None && final(self).wait_queue@.len() == 0,
            old(self).wait_queue@.len() > 0 ==> r == Some(old(self).wait_queue@[0])
                && final(self).wait_queue@ == old(self).wait_queue@.drop_first(),
    {
        if self.wait_queue.len() > 0 {
            Some(self.wait_queue.remove(0))
        } else {
            None
        }
    }
}

} // verus!
