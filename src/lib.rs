//! Per-process synchronization core: mutexes, counting semaphores and
//! condition variables, guarded by optional deadlock detection.
pub mod lock_detect;
pub mod wait_chain;
pub mod safety;
pub mod primitives;
pub mod ledger;
pub mod process;
pub mod laws;
