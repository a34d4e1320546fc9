//! Sets of small numbers held as rows of flags, and the size of such a set.
use vstd::prelude::*;

verus! {

/// The number of flags that are set.
pub open spec fn count_true(s: Seq<bool>) -> nat
    decreases s.len(),
{
    if s.len() == 0 {
        0
    } else {
        count_true(s.drop_last()) + if s.last() {
            1nat
        } else {
            0nat
        }
    }
}

/// No more flags are set than there are.
pub proof fn lemma_count_bound(s: Seq<bool>)
    ensures
        count_true(s) <= s.len(),
    decreases s.len(),
{
    if s.len() > 0 {
        lemma_count_bound(s.drop_last());
    }
}

/// Whether every flag set in `a` is set in `b`.
pub open spec fn below(a: Seq<bool>, b: Seq<bool>) -> bool {
    a.len() == b.len() && forall|i: int| 0 <= i < a.len() && a[i] ==> b[i]
}

/// A row below another has no more flags set, and fewer if the two differ.
pub proof fn lemma_count_below(a: Seq<bool>, b: Seq<bool>)
    requires
        below(a, b),
    ensures
        count_true(a) <= count_true(b),
        a != b ==> count_true(a) < count_true(b),
    decreases a.len(),
{
    if a.len() == 0 {
        assert(a =~= b);
    } else {
        lemma_count_below(a.drop_last(), b.drop_last());
        if a.drop_last() == b.drop_last() && a.last() == b.last() {
            assert(a =~= a.drop_last().push(a.last()));
            assert(b =~= b.drop_last().push(b.last()));
        }
    }
}

/// The sum of the sizes of the first `k` rows.
pub open spec fn total_true(rows: Seq<Seq<bool>>, k: nat) -> nat
    decreases k,
{
    if k == 0 {
        0
    } else {
        total_true(rows, (k - 1) as nat) + count_true(rows[k - 1])
    }
}

/// Replacing one row changes the sum by the difference of the two sizes.
pub proof fn lemma_total_update(rows: Seq<Seq<bool>>, k: nat, v: int, row: Seq<bool>)
    requires
        k <= rows.len(),
        0 <= v < rows.len(),
    ensures
        v < k ==> total_true(rows.update(v, row), k) + count_true(rows[v]) == total_true(rows, k)
            + count_true(row),
        v >= k ==> total_true(rows.update(v, row), k) == total_true(rows, k),
    decreases k,
{
    if k > 0 {
        lemma_total_update(rows, (k - 1) as nat, v, row);
    }
}

/// A row of `n` flags, all of them equal to `value`.
pub fn filled(n: usize, value: bool) -> (row: Vec<bool>)
    ensures
        row.len() == n,
        forall|i: int| 0 <= i < n ==> row[i] == value,
{
    let mut row: Vec<bool> = Vec::new();
    let mut i: usize = 0;
    while i < n
        invariant
            i <= n,
            row.len() == i,
            forall|j: int| 0 <= j < i ==> row[j] == value,
        decreases n - i,
    {
        row.push(value);
        i += 1;
    }
    row
}

/// Copies a row of flags.
pub fn copy_row(v: &Vec<bool>) -> (r: Vec<bool>)
    ensures
        r@ == v@,
{
    let mut out: Vec<bool> = Vec::new();
    let mut i: usize = 0;
    while i < v.len()
        invariant
            i <= v.len(),
            out@ == v@.take(i as int),
        decreases v.len() - i,
    {
        out.push(v[i]);
        assert(v@.take(i + 1) =~= v@.take(i as int).push(v[i as int]));
        i += 1;
    }
    assert(v@.take(i as int) =~= v@);
    out
}

/// Whether two rows hold the same flags.
pub fn same_row(a: &Vec<bool>, b: &Vec<bool>) -> (r: bool)
    ensures
        r == (a@ == b@),
{
    if a.len() != b.len() {
        return false;
    }
    let mut i: usize = 0;
    while i < a.len()
        invariant
            i <= a.len(),
            a.len() == b.len(),
            forall|j: int| 0 <= j < i ==> a[j] == b[j],
        decreases a.len() - i,
    {
        if a[i] != b[i] {
            return false;
        }
        i += 1;
    }
    assert(a@ =~= b@);
    true
}

} // verus!
