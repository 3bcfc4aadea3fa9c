use os8::lock_detect::{Allocation, Available, Need, MAX_THREADS};
use os8::primitives::{Acquire, Condvar, Mutex, Semaphore};
use os8::process::{
    destroy_condvar, destroy_mutex, destroy_semaphore, lowest_free_slot, mutex_lock_retry, sys_condvar_create,
    sys_condvar_signal, sys_condvar_wait, sys_enable_deadlock_detect, sys_mutex_create, sys_mutex_lock,
    sys_mutex_unlock, sys_semaphore_create, sys_semaphore_down, sys_semaphore_up, sys_sleep, Next, ProcessSync,
    Reply, DEADLOCK_DETECTED, INVALID_HANDLE,
};
use os8::safety::is_safe_state;
use os8::wait_chain::wait_chain_has_cycle;

fn process_with_threads(n: usize) -> ProcessSync {
    let mut p = ProcessSync::new();
    for i in 0..n {
        assert_eq!(p.add_thread(), i);
    }
    p
}

fn ok(next: Next) -> Reply {
    Reply { code: 0, next, wake: None }
}

fn units_balance(p: &ProcessSync, s: usize) -> bool {
    let held: usize = p.allocated_semaphore.iter().map(|row| row[s]).sum();
    p.available_semaphore[s] + held == p.capacity_semaphore[s]
}

#[test]
fn matrices_start_empty() {
    assert_eq!(Available::new().available, [0, 0, 0]);
    let a = Allocation::new();
    let n = Need::new();
    assert_eq!(a.allocation.len(), MAX_THREADS);
    assert!(a.allocation.iter().all(|row| *row == [0, 0, 0]));
    assert!(n.need.iter().all(|row| *row == [0, 0, 0]));
}

#[test]
fn crossed_mutex_requests_are_a_deadlock() {
    let mut p = process_with_threads(2);
    assert_eq!(sys_enable_deadlock_detect(&mut p, 1), 0);
    let a = sys_mutex_create(&mut p, true) as usize;
    let b = sys_mutex_create(&mut p, true) as usize;
    assert_eq!(sys_mutex_lock(&mut p, 0, a), ok(Next::Run));
    assert_eq!(sys_mutex_lock(&mut p, 1, b), ok(Next::Run));
    assert_eq!(sys_mutex_lock(&mut p, 0, b), ok(Next::Sleep));
    let before_alloc = p.allocated_mutex.clone();
    let before_req = p.request_mutex.clone();
    let r = sys_mutex_lock(&mut p, 1, a);
    assert_eq!(r.code, DEADLOCK_DETECTED);
    assert_eq!(r.next, Next::Run);
    assert_eq!(p.allocated_mutex, before_alloc);
    assert_eq!(p.request_mutex, before_req);
}

#[test]
fn crossed_mutex_requests_block_without_detection() {
    let mut p = process_with_threads(2);
    let a = sys_mutex_create(&mut p, true) as usize;
    let b = sys_mutex_create(&mut p, true) as usize;
    assert_eq!(sys_mutex_lock(&mut p, 0, a), ok(Next::Run));
    assert_eq!(sys_mutex_lock(&mut p, 1, b), ok(Next::Run));
    assert_eq!(sys_mutex_lock(&mut p, 0, b), ok(Next::Sleep));
    assert_eq!(sys_mutex_lock(&mut p, 1, a), ok(Next::Sleep));
    assert_eq!(p.request_mutex, vec![Some(b), Some(a)]);
    assert_eq!(p.allocated_mutex, vec![Some(0), Some(1)]);
}

#[test]
fn chain_without_cycle_is_granted_or_queued() {
    let mut p = process_with_threads(3);
    sys_enable_deadlock_detect(&mut p, 1);
    let a = sys_mutex_create(&mut p, true) as usize;
    let b = sys_mutex_create(&mut p, false) as usize;
    assert_eq!(sys_mutex_lock(&mut p, 0, a), ok(Next::Run));
    assert_eq!(sys_mutex_lock(&mut p, 1, b), ok(Next::Run));
    assert_eq!(sys_mutex_lock(&mut p, 1, a), ok(Next::Sleep));
    assert_eq!(sys_mutex_lock(&mut p, 2, b), ok(Next::Retry));
    assert_eq!(p.request_mutex[2], Some(b));
}

#[test]
fn busy_wait_mutex_retry_succeeds_after_unlock() {
    let mut p = process_with_threads(2);
    let m = sys_mutex_create(&mut p, false) as usize;
    assert_eq!(sys_mutex_lock(&mut p, 0, m), ok(Next::Run));
    assert_eq!(sys_mutex_lock(&mut p, 1, m), ok(Next::Retry));
    assert_eq!(mutex_lock_retry(&mut p, 1, m), ok(Next::Retry));
    assert_eq!(sys_mutex_unlock(&mut p, m), ok(Next::Run));
    assert_eq!(mutex_lock_retry(&mut p, 1, m), ok(Next::Run));
    assert_eq!(p.allocated_mutex[m], Some(1));
    assert_eq!(p.request_mutex[1], None);
}

#[test]
fn lock_unlock_without_detection_never_aborts() {
    let mut p = process_with_threads(3);
    let m = sys_mutex_create(&mut p, true) as usize;
    for round in 0..5 {
        let t = round % 3;
        assert_eq!(sys_mutex_lock(&mut p, t, m), ok(Next::Run));
        assert_eq!(p.allocated_mutex[m], Some(t));
        assert_eq!(sys_mutex_unlock(&mut p, m), ok(Next::Run));
        assert_eq!(p.allocated_mutex[m], None);
    }
}

#[test]
fn unlock_hands_blocking_mutex_to_oldest_waiter() {
    let mut p = process_with_threads(3);
    let m = sys_mutex_create(&mut p, true) as usize;
    sys_mutex_lock(&mut p, 0, m);
    assert_eq!(sys_mutex_lock(&mut p, 1, m), ok(Next::Sleep));
    assert_eq!(sys_mutex_lock(&mut p, 2, m), ok(Next::Sleep));
    assert_eq!(sys_mutex_unlock(&mut p, m), Reply { code: 0, next: Next::Run, wake: Some(1) });
    assert_eq!(p.allocated_mutex[m], Some(1));
    assert_eq!(p.request_mutex[1], None);
    assert_eq!(sys_mutex_unlock(&mut p, m), Reply { code: 0, next: Next::Run, wake: Some(2) });
    assert_eq!(sys_mutex_unlock(&mut p, m), ok(Next::Run));
    assert_eq!(p.allocated_mutex[m], None);
}

fn three_thread_semaphore_ring(second_unit_on_first: bool) -> (ProcessSync, Reply) {
    let mut p = process_with_threads(3);
    sys_enable_deadlock_detect(&mut p, 1);
    let first = if second_unit_on_first { 2 } else { 1 };
    let s0 = sys_semaphore_create(&mut p, first) as usize;
    let s1 = sys_semaphore_create(&mut p, 1) as usize;
    let s2 = sys_semaphore_create(&mut p, 1) as usize;
    assert_eq!(sys_semaphore_down(&mut p, 0, s0), ok(Next::Run));
    assert_eq!(sys_semaphore_down(&mut p, 1, s1), ok(Next::Run));
    assert_eq!(sys_semaphore_down(&mut p, 2, s2), ok(Next::Run));
    assert_eq!(sys_semaphore_down(&mut p, 0, s1), ok(Next::Sleep));
    assert_eq!(sys_semaphore_down(&mut p, 1, s2), ok(Next::Sleep));
    let r = sys_semaphore_down(&mut p, 2, s0);
    (p, r)
}

#[test]
fn semaphore_ring_is_unsafe() {
    let (p, r) = three_thread_semaphore_ring(false);
    assert_eq!(r, Reply { code: DEADLOCK_DETECTED, next: Next::Run, wake: None });
    assert_eq!(p.request_semaphore[2], vec![0, 0, 0]);
    assert_eq!(p.allocated_semaphore[2], vec![0, 0, 1]);
}

#[test]
fn semaphore_ring_with_spare_unit_is_granted() {
    let (p, r) = three_thread_semaphore_ring(true);
    assert_eq!(r, ok(Next::Run));
    assert_eq!(p.allocated_semaphore[2], vec![1, 0, 1]);
    assert_eq!(p.available_semaphore, vec![0, 0, 0]);
}

#[test]
fn semaphore_ring_without_detection_sleeps() {
    let mut p = process_with_threads(3);
    let s0 = sys_semaphore_create(&mut p, 1) as usize;
    let s1 = sys_semaphore_create(&mut p, 1) as usize;
    let s2 = sys_semaphore_create(&mut p, 1) as usize;
    sys_semaphore_down(&mut p, 0, s0);
    sys_semaphore_down(&mut p, 1, s1);
    sys_semaphore_down(&mut p, 2, s2);
    assert_eq!(sys_semaphore_down(&mut p, 0, s1), ok(Next::Sleep));
    assert_eq!(sys_semaphore_down(&mut p, 1, s2), ok(Next::Sleep));
    assert_eq!(sys_semaphore_down(&mut p, 2, s0), ok(Next::Sleep));
    assert_eq!(p.request_semaphore[2], vec![1, 0, 0]);
}

#[test]
fn down_up_pairs_keep_units_balanced() {
    let mut p = process_with_threads(2);
    let s = sys_semaphore_create(&mut p, 2) as usize;
    assert!(units_balance(&p, s));
    for _ in 0..3 {
        assert_eq!(sys_semaphore_down(&mut p, 0, s), ok(Next::Run));
        assert!(units_balance(&p, s));
        assert_eq!(sys_semaphore_down(&mut p, 1, s), ok(Next::Run));
        assert!(units_balance(&p, s));
        assert_eq!(sys_semaphore_up(&mut p, 0, s), ok(Next::Run));
        assert!(units_balance(&p, s));
        assert_eq!(sys_semaphore_up(&mut p, 1, s), ok(Next::Run));
        assert!(units_balance(&p, s));
    }
    assert_eq!(p.available_semaphore[s], 2);
    assert_eq!(p.capacity_semaphore[s], 2);
}

#[test]
fn up_hands_unit_to_oldest_sleeper() {
    let mut p = process_with_threads(3);
    let s = sys_semaphore_create(&mut p, 1) as usize;
    sys_semaphore_down(&mut p, 0, s);
    assert_eq!(sys_semaphore_down(&mut p, 1, s), ok(Next::Sleep));
    assert_eq!(sys_semaphore_down(&mut p, 2, s), ok(Next::Sleep));
    assert_eq!(p.request_semaphore[1][s], 1);
    assert_eq!(sys_semaphore_up(&mut p, 0, s), Reply { code: 0, next: Next::Run, wake: Some(1) });
    assert_eq!(p.allocated_semaphore[1][s], 1);
    assert_eq!(p.allocated_semaphore[0][s], 0);
    assert_eq!(p.request_semaphore[1][s], 0);
    assert_eq!(p.available_semaphore[s], 0);
    assert!(units_balance(&p, s));
}

#[test]
fn up_by_non_holder_adds_a_unit() {
    let mut p = process_with_threads(2);
    let s = sys_semaphore_create(&mut p, 0) as usize;
    assert_eq!(sys_semaphore_up(&mut p, 0, s), ok(Next::Run));
    assert_eq!(p.available_semaphore[s], 1);
    assert_eq!(p.capacity_semaphore[s], 1);
    assert_eq!(sys_semaphore_down(&mut p, 1, s), ok(Next::Run));
    assert_eq!(p.allocated_semaphore[1][s], 1);
    assert!(units_balance(&p, s));
}

#[test]
fn toggling_detection_keeps_tables() {
    let mut p = process_with_threads(2);
    let m = sys_mutex_create(&mut p, true) as usize;
    let s = sys_semaphore_create(&mut p, 1) as usize;
    sys_mutex_lock(&mut p, 0, m);
    sys_mutex_lock(&mut p, 1, m);
    sys_semaphore_down(&mut p, 1, s);
    let alloc_m = p.allocated_mutex.clone();
    let req_m = p.request_mutex.clone();
    let avail = p.available_semaphore.clone();
    let held = p.allocated_semaphore.clone();
    let req_s = p.request_semaphore.clone();
    for enabled in [1, 0, 1, 1, 7, 0] {
        assert_eq!(sys_enable_deadlock_detect(&mut p, enabled), 0);
        assert_eq!(p.enable_lock_detect, enabled == 1);
        assert_eq!(p.allocated_mutex, alloc_m);
        assert_eq!(p.request_mutex, req_m);
        assert_eq!(p.available_semaphore, avail);
        assert_eq!(p.allocated_semaphore, held);
        assert_eq!(p.request_semaphore, req_s);
    }
}

#[test]
fn freed_interior_slot_is_reused() {
    let mut p = process_with_threads(1);
    for i in 0..4 {
        assert_eq!(sys_mutex_create(&mut p, i % 2 == 0), i as isize);
        assert_eq!(sys_semaphore_create(&mut p, i), i as isize);
        assert_eq!(sys_condvar_create(&mut p, 0), i as isize);
    }
    destroy_mutex(&mut p, 2);
    destroy_semaphore(&mut p, 1);
    destroy_condvar(&mut p, 2);
    assert_eq!(sys_mutex_create(&mut p, true), 2);
    assert_eq!(sys_semaphore_create(&mut p, 5), 1);
    assert_eq!(sys_condvar_create(&mut p, 0), 2);
    assert_eq!(p.mutex_list.len(), 4);
    assert_eq!(p.semaphore_list.len(), 4);
    assert_eq!(p.condvar_list.len(), 4);
    assert_eq!(p.available_semaphore[1], 5);
    assert_eq!(sys_mutex_create(&mut p, true), 4);
}

#[test]
fn destroyed_semaphore_column_is_cleared() {
    let mut p = process_with_threads(2);
    let s = sys_semaphore_create(&mut p, 3) as usize;
    sys_semaphore_down(&mut p, 0, s);
    sys_semaphore_down(&mut p, 1, s);
    destroy_semaphore(&mut p, s);
    assert_eq!(p.allocated_semaphore, vec![vec![0], vec![0]]);
    assert_eq!(p.available_semaphore, vec![0]);
    assert_eq!(p.capacity_semaphore, vec![0]);
    assert_eq!(sys_semaphore_down(&mut p, 0, s).code, INVALID_HANDLE);
}

#[test]
fn condvar_waiters_get_the_mutex_back_one_at_a_time() {
    let mut p = process_with_threads(3);
    let m = sys_mutex_create(&mut p, true) as usize;
    let c = sys_condvar_create(&mut p, 0) as usize;
    assert_eq!(sys_mutex_lock(&mut p, 0, m), ok(Next::Run));
    assert_eq!(sys_condvar_wait(&mut p, 0, c, m), ok(Next::Sleep));
    assert_eq!(p.allocated_mutex[m], None);
    assert_eq!(sys_mutex_lock(&mut p, 1, m), ok(Next::Run));
    assert_eq!(sys_condvar_wait(&mut p, 1, c, m), ok(Next::Sleep));
    assert_eq!(sys_mutex_lock(&mut p, 2, m), ok(Next::Run));
    assert_eq!(sys_condvar_signal(&mut p, c), ok(Next::Run));
    assert_eq!(sys_mutex_unlock(&mut p, m), Reply { code: 0, next: Next::Run, wake: Some(0) });
    assert_eq!(p.allocated_mutex[m], Some(0));
    assert_eq!(sys_condvar_signal(&mut p, c), ok(Next::Run));
    assert_eq!(sys_mutex_unlock(&mut p, m), Reply { code: 0, next: Next::Run, wake: Some(1) });
    assert_eq!(p.allocated_mutex[m], Some(1));
    assert_eq!(sys_mutex_unlock(&mut p, m), ok(Next::Run));
    assert_eq!(sys_condvar_signal(&mut p, c), ok(Next::Run));
}

#[test]
fn signal_with_free_mutex_wakes_holder() {
    let mut p = process_with_threads(2);
    let m = sys_mutex_create(&mut p, true) as usize;
    let c = sys_condvar_create(&mut p, 0) as usize;
    sys_mutex_lock(&mut p, 0, m);
    sys_condvar_wait(&mut p, 0, c, m);
    assert_eq!(sys_condvar_signal(&mut p, c), Reply { code: 0, next: Next::Run, wake: Some(0) });
    assert_eq!(p.allocated_mutex[m], Some(0));
}

#[test]
fn invalid_handles_are_reported() {
    let mut p = process_with_threads(1);
    let bad = Reply { code: INVALID_HANDLE, next: Next::Run, wake: None };
    assert_eq!(sys_mutex_lock(&mut p, 0, 0), bad);
    assert_eq!(sys_mutex_unlock(&mut p, 3), bad);
    assert_eq!(mutex_lock_retry(&mut p, 0, 1), bad);
    assert_eq!(sys_semaphore_down(&mut p, 0, 0), bad);
    assert_eq!(sys_semaphore_up(&mut p, 0, 0), bad);
    assert_eq!(sys_condvar_signal(&mut p, 0), bad);
    let m = sys_mutex_create(&mut p, true) as usize;
    assert_eq!(sys_condvar_wait(&mut p, 0, 0, m), bad);
    destroy_mutex(&mut p, m);
    assert_eq!(sys_mutex_lock(&mut p, 0, m), bad);
    assert_ne!(DEADLOCK_DETECTED, INVALID_HANDLE);
    assert_eq!(DEADLOCK_DETECTED, -0xDEAD);
}

#[test]
fn sleep_deadline() {
    assert_eq!(sys_sleep(100, 50), 150);
    assert_eq!(sys_sleep(usize::MAX - 1, 5), usize::MAX);
}

#[test]
fn wait_chain_examples() {
    // thread 0 waits for mutex 1 (held by 1), thread 1 waits for mutex 0 (held by 0)
    let holder = vec![Some(0), Some(1)];
    assert!(wait_chain_has_cycle(&holder, &vec![Some(1), Some(0)], 0));
    assert!(!wait_chain_has_cycle(&holder, &vec![Some(1), None], 0));
    // a cycle further down the chain, not through the requester
    let holder = vec![Some(1), Some(2), Some(1)];
    assert!(wait_chain_has_cycle(&holder, &vec![Some(0), Some(1), Some(2)], 0));
    assert!(!wait_chain_has_cycle(&vec![None], &vec![Some(0)], 0));
}

#[test]
fn safety_examples() {
    let req = vec![vec![0, 1], vec![1, 0]];
    let held = vec![vec![1, 0], vec![0, 1]];
    assert!(!is_safe_state(&req, &held, &vec![0, 0]));
    assert!(is_safe_state(&req, &held, &vec![1, 0]));
    assert!(is_safe_state(&vec![], &vec![], &vec![]));
    // order matters only for speed: thread 1 must go first here
    let req = vec![vec![2], vec![1]];
    let held = vec![vec![0], vec![1]];
    assert!(is_safe_state(&req, &held, &vec![1]));
}

#[test]
fn primitives_directly() {
    let mut m = Mutex::new(true);
    assert_eq!(m.lock(4), Acquire::Granted);
    assert_eq!(m.lock(5), Acquire::Queued);
    assert_eq!(m.unlock(), Some(5));
    assert_eq!(m.unlock(), None);
    let mut spin = Mutex::new(false);
    assert_eq!(spin.lock(1), Acquire::Granted);
    assert_eq!(spin.lock(2), Acquire::Busy);
    assert_eq!(spin.unlock(), None);
    let mut s = Semaphore::new(1);
    assert_eq!(s.down(0), Acquire::Granted);
    assert_eq!(s.down(1), Acquire::Queued);
    assert_eq!(s.up(), Some(1));
    assert_eq!(s.count, 0);
    assert_eq!(s.up(), None);
    assert_eq!(s.count, 1);
    let mut c = Condvar::new();
    assert_eq!(c.signal(), None);
    c.wait(3, 0);
    c.wait(4, 0);
    assert_eq!(c.signal(), Some((3, 0)));
    assert_eq!(c.signal(), Some((4, 0)));
}

#[test]
fn lowest_free_slot_examples() {
    assert_eq!(lowest_free_slot::<u8>(&vec![]), 0);
    assert_eq!(lowest_free_slot(&vec![Some(1), None, None]), 1);
    assert_eq!(lowest_free_slot(&vec![Some(1), Some(2)]), 2);
}
