//! Wait-for chain walk that decides whether a mutex request closes a cycle.
//!
//! Each thread waits for at most one mutex and each mutex has at most one
//! holder, so "thread -> holder of the mutex it waits for" is a partial
//! function, and following it from the requester either stops or loops.
use vstd::prelude::*;
use vstd::set_lib::{lemma_int_range, lemma_len_subset, set_int_range};

verus! {

/// The thread that `t` waits for: the holder of the mutex that `t` requests.
pub open spec fn waits_for(
    holder: Seq<Option<usize>>,
    request: Seq<Option<usize>>,
    t: usize,
) -> Option<usize> {
    if t < request.len() {
        match request[t as int] {
            Some(m) => if m < holder.len() {
                holder[m as int]
            } else {
                None
            },
            None => None,
        }
    } else {
        None
    }
}

/// The thread reached after following the wait-for relation `k` times from `t`.
pub open spec fn chain(
    holder: Seq<Option<usize>>,
    request: Seq<Option<usize>>,
    t: usize,
    k: nat,
) -> Option<usize>
    decreases k,
{
    if k == 0 {
        Some(t)
    } else {
        match chain(holder, request, t, (k - 1) as nat) {
            Some(c) => waits_for(holder, request, c),
            None => None,
        }
    }
}

/// Following the wait-for relation from `t` never ends: `t` is part of, or
/// waits on, a circular wait.
pub open spec fn waits_forever(
    holder: Seq<Option<usize>>,
    request: Seq<Option<usize>>,
    t: usize,
) -> bool {
    forall|k: nat| (#[trigger] chain(holder, request, t, k)).is_some()
}

/// Every holder recorded in `holder` is a thread with a request row.
pub open spec fn holders_in_range(holder: Seq<Option<usize>>, request: Seq<Option<usize>>) -> bool {
    forall|m: int| 0 <= m < holder.len() && (#[trigger] holder[m]).is_some() ==> holder[m].unwrap() < request.len()
}

proof fn lemma_chain_shift(
    holder: Seq<Option<usize>>,
    request: Seq<Option<usize>>,
    t: usize,
    i: nat,
    j: nat,
    d: nat,
)
    requires
        chain(holder, request, t, i) == chain(holder, request, t, j),
    ensures
        chain(holder, request, t, i + d) == chain(holder, request, t, j + d),
    decreases d,
{
    if d > 0 {
        lemma_chain_shift(holder, request, t, i, j, (d - 1) as nat);
        assert(chain(holder, request, t, i + d) == match chain(holder, request, t, (i + d - 1) as nat) {
            Some(c) => waits_for(holder, request, c),
            None => None,
        });
        assert(chain(holder, request, t, j + d) == match chain(holder, request, t, (j + d - 1) as nat) {
            Some(c) => waits_for(holder, request, c),
            None => None,
        });
        assert((i + d - 1) as nat == i + (d - 1) as nat);
        assert((j + d - 1) as nat == j + (d - 1) as nat);
    }
}

proof fn lemma_chain_periodic(
    holder: Seq<Option<usize>>,
    request: Seq<Option<usize>>,
    t: usize,
    i: nat,
    j: nat,
    k: nat,
)
    requires
        i < j,
        chain(holder, request, t, i) == chain(holder, request, t, j),
        forall|l: nat| l <= j ==> (#[trigger] chain(holder, request, t, l)).is_some(),
    ensures
        chain(holder, request, t, k).is_some(),
    decreases k,
{
    if k > j {
        let k2 = (k - (j - i)) as nat;
        lemma_chain_shift(holder, request, t, i, j, (k2 - i) as nat);
        assert(j + (k2 - i) as nat == k);
        lemma_chain_periodic(holder, request, t, i, j, k2);
    }
}

/// Walks the wait-for chain from `tid` and reports whether it comes back to a
/// thread it has already passed.
pub fn wait_chain_has_cycle(
    holder: &Vec<Option<usize>>,
    request: &Vec<Option<usize>>,
    tid: usize,
) -> (r: bool)
    requires
        tid < request.len(),
        holders_in_range(holder@, request@),
    ensures
        r == waits_forever(holder@, request@, tid),
{
    let n = request.len();
    let mut visited: Vec<bool> = Vec::new();
    let mut x: usize = 0;
    while x < n
        invariant
            x <= n,
            visited.len() == x,
            forall|y: int| 0 <= y < x ==> !visited@[y],
        decreases n - x,
    {
        visited.push(false);
        x = x + 1;
    }
    visited.set(tid, true);
    let mut cur: usize = tid;
    let ghost mut k: nat = 0;
    let ghost mut seen: Set<int> = set![tid as int];
    assert(chain(holder@, request@, tid, 0) == Some(tid));
    loop
        invariant
            n == request.len(),
            holders_in_range(holder@, request@),
            cur < n,
            visited.len() == n,
            chain(holder@, request@, tid, k) == Some(cur),
            forall|l: nat| l <= k ==> (#[trigger] chain(holder@, request@, tid, l)).is_some(),
            forall|y: int| 0 <= y < n ==> (visited@[y] <==> seen.contains(y)),
            forall|y: int|
                #![trigger seen.contains(y)]
                seen.contains(y) ==> exists|l: nat| l <= k && chain(holder@, request@, tid, l) == Some(y as usize),
            seen.finite(),
            seen.len() == k + 1,
            seen.subset_of(set_int_range(0, n as int)),
        decreases n - k,
    {
        let next: Option<usize> = match request[cur] {
            Some(m) => if m < holder.len() {
                holder[m]
            } else {
                None
            },
            None => None,
        };
        assert(chain(holder@, request@, tid, k + 1) == next);
        match next {
            None => {
                return false;
            },
            Some(h) => {
                if visited[h] {
                    proof {
                        assert(seen.contains(h as int));
                        let l = choose|l: nat| l <= k && chain(holder@, request@, tid, l) == Some(h);
                        assert forall|q: nat| q <= k + 1 implies (#[trigger] chain(holder@, request@, tid, q)).is_some() by {
                            if q <= k + 1 && q > k {
                                assert(q == k + 1);
                            }
                        }
                        assert forall|q: nat| #[trigger] chain(holder@, request@, tid, q).is_some() by {
                            lemma_chain_periodic(holder@, request@, tid, l, k + 1, q);
                        }
                    }
                    return true;
                }
                visited.set(h, true);
                proof {
                    assert(!seen.contains(h as int));
                    seen = seen.insert(h as int);
                    k = k + 1;
                    lemma_int_range(0, n as int);
                    lemma_len_subset(seen, set_int_range(0, n as int));
                }
                cur = h;
            },
        }
    }
}

} // verus!
