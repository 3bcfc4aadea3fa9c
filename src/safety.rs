//! Banker's-algorithm safety check over semaphore classes.
use vstd::prelude::*;

verus! {

/// `row` asks for no more of any class than `work` offers.
pub open spec fn fits(row: Seq<usize>, work: Seq<int>) -> bool {
    forall|s: int| 0 <= s < work.len() ==> row[s] <= #[trigger] work[s]
}

/// `work` after a thread holding `row` finishes and gives its units back.
pub open spec fn release(work: Seq<int>, row: Seq<usize>) -> Seq<int> {
    Seq::new(work.len(), |s: int| work[s] + row[s])
}

/// The threads in `pending` can all finish in some order: at each step some
/// thread's outstanding request fits in `work`, and that thread then returns
/// what it holds.
pub open spec fn can_finish(
    request: Seq<Seq<usize>>,
    held: Seq<Seq<usize>>,
    work: Seq<int>,
    pending: Seq<usize>,
) -> bool
    decreases pending.len(),
{
    if pending.len() == 0 {
        true
    } else {
        exists|i: int|
            #![trigger pending.remove(i)]
            0 <= i < pending.len() && fits(request[pending[i] as int], work) && can_finish(
                request,
                held,
                release(work, held[pending[i] as int]),
                pending.remove(i),
            )
    }
}

/// Every thread of `0..request.len()` can finish, starting from `available`.
pub open spec fn is_safe(request: Seq<Seq<usize>>, held: Seq<Seq<usize>>, available: Seq<usize>) -> bool {
    can_finish(
        request,
        held,
        Seq::new(available.len(), |s: int| available[s] as int),
        Seq::new(request.len(), |t: int| t as usize),
    )
}

/// The rows of a table of vectors, as sequences.
pub open spec fn rows(table: Seq<Vec<usize>>) -> Seq<Seq<usize>> {
    table.map_values(|v: Vec<usize>| v@)
}

/// `capped` is `work` with every entry cut down to `usize::MAX`.
pub open spec fn capped_at_max(capped: Seq<usize>, work: Seq<int>) -> bool {
    &&& capped.len() == work.len()
    &&& forall|s: int|
        0 <= s < work.len() ==> (#[trigger] capped[s]) as int == if work[s] > usize::MAX {
            usize::MAX as int
        } else {
            work[s]
        }
}

/// One row per thread, each with one entry per semaphore class.
pub open spec fn tables_shaped(
    request: Seq<Seq<usize>>,
    held: Seq<Seq<usize>>,
    classes: nat,
) -> bool {
    &&& request.len() == held.len()
    &&& forall|t: int| 0 <= t < request.len() ==> (#[trigger] request[t]).len() == classes
    &&& forall|t: int| 0 <= t < held.len() ==> (#[trigger] held[t]).len() == classes
}

pub open spec fn dominates(big: Seq<int>, small: Seq<int>) -> bool {
    big.len() == small.len() && forall|s: int| 0 <= s < big.len() ==> small[s] <= #[trigger] big[s]
}

proof fn lemma_can_finish_monotone(
    request: Seq<Seq<usize>>,
    held: Seq<Seq<usize>>,
    work: Seq<int>,
    more: Seq<int>,
    pending: Seq<usize>,
)
    requires
        can_finish(request, held, work, pending),
        dominates(more, work),
    ensures
        can_finish(request, held, more, pending),
    decreases pending.len(),
{
    if pending.len() > 0 {
        let i = choose|i: int|
            #![trigger pending.remove(i)]
            0 <= i < pending.len() && fits(request[pending[i] as int], work) && can_finish(
                request,
                held,
                release(work, held[pending[i] as int]),
                pending.remove(i),
            );
        let row = held[pending[i] as int];
        assert(dominates(release(more, row), release(work, row)));
        lemma_can_finish_monotone(request, held, release(work, row), release(more, row), pending.remove(i));
        assert(fits(request[pending[i] as int], more));
    }
}

/// Letting any thread whose request fits finish first keeps the verdict.
proof fn lemma_can_finish_pick(
    request: Seq<Seq<usize>>,
    held: Seq<Seq<usize>>,
    work: Seq<int>,
    pending: Seq<usize>,
    i: int,
)
    requires
        0 <= i < pending.len(),
        fits(request[pending[i] as int], work),
        can_finish(request, held, work, pending),
    ensures
        can_finish(request, held, release(work, held[pending[i] as int]), pending.remove(i)),
    decreases pending.len(),
{
    let j = choose|j: int|
        #![trigger pending.remove(j)]
        0 <= j < pending.len() && fits(request[pending[j] as int], work) && can_finish(
            request,
            held,
            release(work, held[pending[j] as int]),
            pending.remove(j),
        );
    if j != i {
        let ri = held[pending[i] as int];
        let rj = held[pending[j] as int];
        let wj = release(work, rj);
        let pj = pending.remove(j);
        let i2 = if i < j { i } else { i - 1 };
        assert(pj[i2] == pending[i]);
        assert(dominates(wj, work));
        assert(fits(request[pj[i2] as int], wj));
        lemma_can_finish_pick(request, held, wj, pj, i2);
        let wi = release(work, ri);
        let pi = pending.remove(i);
        let j2 = if j < i { j } else { j - 1 };
        assert(pi[j2] == pending[j]);
        assert(pi.remove(j2) =~= pj.remove(i2));
        assert(release(wi, rj) =~= release(wj, ri));
        assert(dominates(wi, work));
        assert(fits(request[pi[j2] as int], wi));
        assert(pi.len() > 0);
        assert(can_finish(request, held, release(wi, held[pi[j2] as int]), pi.remove(j2)));
    }
}

/// Index in `pending` of the first thread whose request fits in `work`.
fn first_fitting(request: &Vec<Vec<usize>>, work: &Vec<usize>, pending: &Vec<usize>) -> (r: Option<usize>)
    requires
        forall|k: int| 0 <= k < pending.len() ==> (#[trigger] pending@[k]) < request.len(),
        forall|t: int| 0 <= t < request.len() ==> (#[trigger] request@[t]).len() == work.len(),
    ensures
        match r {
            Some(i) => i < pending.len() && fits(request@[pending@[i as int] as int]@, work@.map_values(|x: usize| x as int)),
            None => forall|i: int| 0 <= i < pending.len() ==> !fits(request@[pending@[i] as int]@, work@.map_values(|x: usize| x as int)),
        },
{
    let ghost w = work@.map_values(|x: usize| x as int);
    let mut i: usize = 0;
    while i < pending.len()
        invariant
            i <= pending.len(),
            w == work@.map_values(|x: usize| x as int),
            forall|k: int| 0 <= k < pending.len() ==> (#[trigger] pending@[k]) < request.len(),
            forall|t: int| 0 <= t < request.len() ==> (#[trigger] request@[t]).len() == work.len(),
            forall|k: int| 0 <= k < i ==> !fits(request@[pending@[k] as int]@, w),
        decreases pending.len() - i,
    {
        let row = &request[pending[i]];
        let mut s: usize = 0;
        while s < work.len() && row[s] <= work[s]
            invariant
                s <= work.len(),
                row@.len() == work.len(),
                w == work@.map_values(|x: usize| x as int),
                forall|q: int| 0 <= q < s ==> row@[q] <= w[q],
            decreases work.len() - s,
        {
            s = s + 1;
        }
        let ok = s == work.len();
        assert(!ok ==> row@[s as int] > w[s as int]);
        if ok {
            return Some(i);
        }
        i = i + 1;
    }
    None
}

proof fn lemma_fits_capped(row: Seq<usize>, capped: Seq<usize>, work: Seq<int>)
    requires
        capped_at_max(capped, work),
    ensures
        fits(row, capped.map_values(|x: usize| x as int)) == fits(row, work),
{
    let c = capped.map_values(|x: usize| x as int);
    if fits(row, c) {
        assert forall|s: int| 0 <= s < work.len() implies row[s] <= #[trigger] work[s] by {
            assert(row[s] <= c[s]);
        }
    }
    if fits(row, work) {
        assert forall|s: int| 0 <= s < c.len() implies row[s] <= #[trigger] c[s] by {
            assert(row[s] <= work[s]);
        }
    }
}

/// Runs the safety simulation: repeatedly lets the first thread whose
/// outstanding request fits in the free units finish and return what it
/// holds, and reports whether every thread gets to finish.
pub fn is_safe_state(request: &Vec<Vec<usize>>, held: &Vec<Vec<usize>>, available: &Vec<usize>) -> (r: bool)
    requires
        tables_shaped(rows(request@), rows(held@), available.len() as nat),
    ensures
        r == is_safe(rows(request@), rows(held@), available@),
{
    let ghost req = rows(request@);
    let ghost hd = rows(held@);
    let classes = available.len();
    let threads = request.len();
    let mut work: Vec<usize> = Vec::new();
    let mut s: usize = 0;
    while s < classes
        invariant
            s <= classes == available.len(),
            work.len() == s,
            forall|q: int| 0 <= q < s ==> work@[q] == available@[q],
        decreases classes - s,
    {
        work.push(available[s]);
        s = s + 1;
    }
    let mut pending: Vec<usize> = Vec::new();
    let mut t: usize = 0;
    while t < threads
        invariant
            t <= threads == request.len(),
            pending@ == Seq::new(t as nat, |q: int| q as usize),
        decreases threads - t,
    {
        pending.push(t);
        t = t + 1;
        assert(pending@ =~= Seq::new(t as nat, |q: int| q as usize));
    }
    let ghost mut w: Seq<int> = Seq::new(available.len() as nat, |q: int| available@[q] as int);
    assert(capped_at_max(work@, w));
    loop
        invariant
            req == rows(request@),
            hd == rows(held@),
            tables_shaped(req, hd, classes as nat),
            classes == available.len(),
            w.len() == classes,
            capped_at_max(work@, w),
            forall|k: int| 0 <= k < pending.len() ==> (#[trigger] pending@[k]) < request.len(),
            is_safe(req, hd, available@) == can_finish(req, hd, w, pending@),
        decreases pending.len(),
    {
        if pending.len() == 0 {
            return true;
        }
        assert forall|q: int| 0 <= q < request.len() implies (#[trigger] request@[q]).len() == work.len() by {
            assert(req[q] == request@[q]@);
        }
        match first_fitting(request, &work, &pending) {
            None => {
                proof {
                    assert forall|i: int| 0 <= i < pending.len() implies !fits(req[pending@[i] as int], w) by {
                        lemma_fits_capped(req[pending@[i] as int], work@, w);
                    }
                }
                return false;
            },
            Some(i) => {
                let tid = pending[i];
                let ghost row = hd[tid as int];
                proof {
                    lemma_fits_capped(req[tid as int], work@, w);
                    let nw = release(w, row);
                    if can_finish(req, hd, w, pending@) {
                        lemma_can_finish_pick(req, hd, w, pending@, i as int);
                    }
                    if can_finish(req, hd, nw, pending@.remove(i as int)) {
                        assert(can_finish(req, hd, w, pending@));
                    }
                }
                let ghost w0 = w;
                let mut s: usize = 0;
                while s < classes
                    invariant
                        s <= classes == work.len() == w0.len(),
                        tid < held.len(),
                        hd == rows(held@),
                        tables_shaped(req, hd, classes as nat),
                        row == hd[tid as int],
                        capped_at_max(work@, Seq::new(classes as nat, |q: int| if q < s { w0[q] + row[q] } else { w0[q] })),
                    decreases classes - s,
                {
                    let add = held[tid][s];
                    let v = work[s].saturating_add(add);
                    work.set(s, v);
                    s = s + 1;
                }
                proof {
                    w = release(w0, row);
                    assert(Seq::new(classes as nat, |q: int| if q < classes { w0[q] + row[q] } else { w0[q] }) =~= w);
                }
                pending.remove(i);
            },
        }
    }
}

} // verus!
