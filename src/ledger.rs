//! Column sums over per-thread tables, and in-place edits of those tables.
use vstd::prelude::*;

verus! {

/// Sum over all rows of the entry in column `s`.
pub open spec fn column_sum(rows: Seq<Seq<usize>>, s: int) -> int
    decreases rows.len(),
{
    if rows.len() == 0 {
        0
    } else {
        column_sum(rows.drop_last(), s) + rows.last()[s]
    }
}

pub proof fn lemma_column_sum_update(rows: Seq<Seq<usize>>, t: int, row: Seq<usize>, s: int)
    requires
        0 <= t < rows.len(),
    ensures
        column_sum(rows.update(t, row), s) == column_sum(rows, s) - rows[t][s] + row[s],
    decreases rows.len(),
{
    let r2 = rows.update(t, row);
    if t < rows.len() - 1 {
        assert(r2.drop_last() =~= rows.drop_last().update(t, row));
        lemma_column_sum_update(rows.drop_last(), t, row, s);
    } else {
        assert(r2.drop_last() =~= rows.drop_last());
    }
}

pub proof fn lemma_column_entry_bounded(rows: Seq<Seq<usize>>, t: int, s: int)
    requires
        0 <= t < rows.len(),
    ensures
        0 <= rows[t][s] <= column_sum(rows, s),
        column_sum(rows, s) >= 0,
    decreases rows.len(),
{
    lemma_column_sum_nonneg(rows.drop_last(), s);
    if t < rows.len() - 1 {
        lemma_column_entry_bounded(rows.drop_last(), t, s);
    }
}

pub proof fn lemma_column_sum_nonneg(rows: Seq<Seq<usize>>, s: int)
    ensures
        column_sum(rows, s) >= 0,
    decreases rows.len(),
{
    if rows.len() > 0 {
        lemma_column_sum_nonneg(rows.drop_last(), s);
    }
}

/// Two tables whose columns `s1` and `s2` agree row by row have equal sums there.
pub proof fn lemma_column_sum_same(a: Seq<Seq<usize>>, s1: int, b: Seq<Seq<usize>>, s2: int)
    requires
        a.len() == b.len(),
        forall|t: int| 0 <= t < a.len() ==> (#[trigger] a[t])[s1] == b[t][s2],
    ensures
        column_sum(a, s1) == column_sum(b, s2),
    decreases a.len(),
{
    if a.len() > 0 {
        lemma_column_sum_same(a.drop_last(), s1, b.drop_last(), s2);
    }
}

/// A column of zeros sums to zero.
pub proof fn lemma_column_sum_zero(a: Seq<Seq<usize>>, s: int)
    requires
        forall|t: int| 0 <= t < a.len() ==> (#[trigger] a[t])[s] == 0,
    ensures
        column_sum(a, s) == 0,
    decreases a.len(),
{
    if a.len() > 0 {
        lemma_column_sum_zero(a.drop_last(), s);
    }
}

/// Writes `v` at row `t`, column `s`.
pub fn set_cell(table: &mut Vec<Vec<usize>>, t: usize, s: usize, v: usize)
    requires
        t < old(table).len(),
        s < old(table)@[t as int].len(),
    ensures
        final(table)@.len() == old(table)@.len(),
        forall|q: int| 0 <= q < old(table)@.len() && q != t ==> (#[trigger] final(table)@[q]) == old(table)@[q],
        final(table)@[t as int]@ == old(table)@[t as int]@.update(s as int, v),
{
    let mut row = table.remove(t);
    row.set(s, v);
    table.insert(t, row);
}

/// Appends `v` to every row.
pub fn push_column(table: &mut Vec<Vec<usize>>, v: usize)
    ensures
        final(table)@.len() == old(table)@.len(),
        forall|q: int| 0 <= q < old(table)@.len() ==> (#[trigger] final(table)@[q])@ == old(table)@[q]@.push(v),
{
    let n = table.len();
    let mut t: usize = 0;
    while t < n
        invariant
            n == old(table)@.len() == table@.len(),
            t <= n,
            forall|q: int| 0 <= q < t ==> (#[trigger] table@[q])@ == old(table)@[q]@.push(v),
            forall|q: int| t <= q < n ==> (#[trigger] table@[q]) == old(table)@[q],
        decreases n - t,
    {
        let mut row = table.remove(t);
        row.push(v);
        table.insert(t, row);
        t = t + 1;
    }
}

/// A row of `len` zeros.
pub fn zero_row(len: usize) -> (r: Vec<usize>)
    ensures
        r@.len() == len,
        forall|s: int| 0 <= s < len ==> r@[s] == 0,
{
    let mut r: Vec<usize> = Vec::new();
    let mut s: usize = 0;
    while s < len
        invariant
            s <= len,
            r@.len() == s,
            forall|q: int| 0 <= q < s ==> r@[q] == 0,
        decreases len - s,
    {
        r.push(0);
        s = s + 1;
    }
    r
}

} // verus!
