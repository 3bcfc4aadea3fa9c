//! Fixed-size resource matrices of the banker's algorithm, sized for three
//! resource classes and a bounded number of threads.
use vstd::prelude::*;

verus! {

/// Largest number of threads the matrices have a row for.
pub const MAX_THREADS: usize = 100;

/// Units of each resource class that are free to be handed out.
#[derive(Copy, Clone)]
pub struct Available {
    pub available: [usize; 3],
}

/// Units of each resource class held by each thread.
#[derive(Copy, Clone)]
pub struct Allocation {
    pub allocation: [[usize; 3]; MAX_THREADS],
}

/// Units of each resource class each thread still needs.
#[derive(Copy, Clone)]
pub struct Need {
    pub need: [[usize; 3]; MAX_THREADS],
}

impl Available {
    /// No unit of any class is available.
    pub fn new() -> (r: Available)
        ensures
            forall|j: int| 0 <= j < 3 ==> r.available@[j] == 0,
    {
        Available { available: [0, 0, 0] }
    }
}

impl Allocation {
    /// No thread holds anything.
    pub fn new() -> (r: Allocation)
        ensures
            forall|i: int, j: int| 0 <= i < MAX_THREADS && 0 <= j < 3 ==> r.allocation@[i]@[j] == 0,
    {
        let row: [usize; 3] = [0, 0, 0];
        let r = Allocation { allocation: [row; MAX_THREADS] };
        proof {
            assert forall|i: int, j: int| 0 <= i < MAX_THREADS && 0 <= j < 3 implies r.allocation@[i]@[j] == 0 by {
                assert(r.allocation@[i] == row);
            }
        }
        r
    }
}

impl Need {
    /// No thread needs anything.
    pub fn new() -> (r: Need)
        ensures
            forall|i: int, j: int| 0 <= i < MAX_THREADS && 0 <= j < 3 ==> r.need@[i]@[j] == 0,
    {
        let row: [usize; 3] = [0, 0, 0];
        let r = Need { need: [row; MAX_THREADS] };
        proof {
            assert forall|i: int, j: int| 0 <= i < MAX_THREADS && 0 <= j < 3 implies r.need@[i]@[j] == 0 by {
                assert(r.need@[i] == row);
            }
        }
        r
    }
}

} // verus!
