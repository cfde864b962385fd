//! The sparse count accumulator: one column-to-value map per feature row.
//!
//! Entries are created on first contribution and grow by saturating
//! addition afterwards (realistic counts sit far below the top of `u64`,
//! and the contracts say exactly when an addition is exact). The module also
//! carries the summation theory used to state that the total of all matrix
//! values equals the total of all contributions.

use std::collections::HashMap;
use vstd::prelude::*;

verus! {

broadcast use vstd::std_specs::hash::group_hash_axioms;

/// Addition on counts, saturating at the top of `u64`.
pub open spec fn sat_add(a: u64, w: u64) -> u64 {
    if a + w <= u64::MAX {
        (a + w) as u64
    } else {
        u64::MAX
    }
}

/// The value of a column in one row's map, zero when absent.
pub open spec fn entry_of(m: Map<u32, u64>, c: u32) -> u64 {
    if m.contains_key(c) {
        m[c]
    } else {
        0
    }
}

/// One contribution of weight `w` to row `r`, column `c`.
pub open spec fn mat_add(rows: Seq<Map<u32, u64>>, r: int, c: u32, w: u64) -> Seq<Map<u32, u64>> {
    if 0 <= r < rows.len() {
        rows.update(r, rows[r].insert(c, sat_add(entry_of(rows[r], c), w)))
    } else {
        rows
    }
}

/// Sum of one row's values.
pub open spec fn map_sum(m: Map<u32, u64>) -> int {
    m.dom().fold(0, sum_fn(m))
}

pub open spec fn sum_fn(m: Map<u32, u64>) -> spec_fn(int, u32) -> int {
    |a: int, k: u32| a + m[k]
}

proof fn lemma_sum_fn_commutative(m: Map<u32, u64>)
    ensures
        vstd::set::fold::is_fun_commutative(sum_fn(m)),
{
}

/// Folding the same values gives the same sum, whatever map carries them.
proof fn lemma_fold_sum_congruence(s: Set<u32>, m1: Map<u32, u64>, m2: Map<u32, u64>)
    requires
        s.finite(),
        forall|k: u32| s.contains(k) ==> m1[k] == m2[k],
    ensures
        s.fold(0, sum_fn(m1)) == s.fold(0, sum_fn(m2)),
    decreases s.len(),
{
    lemma_sum_fn_commutative(m1);
    lemma_sum_fn_commutative(m2);
    if s.is_empty() {
        vstd::set::fold::lemma_fold_empty(0, sum_fn(m1));
        vstd::set::fold::lemma_fold_empty(0, sum_fn(m2));
    } else {
        let x = s.choose();
        let s2 = s.remove(x);
        lemma_fold_sum_congruence(s2, m1, m2);
        vstd::set::fold::lemma_fold_insert(s2, 0, sum_fn(m1), x);
        vstd::set::fold::lemma_fold_insert(s2, 0, sum_fn(m2), x);
        assert(s2.insert(x) =~= s);
    }
}

/// Removing one key removes exactly its value from the sum.
proof fn lemma_fold_sum_remove(s: Set<u32>, m: Map<u32, u64>, x: u32)
    requires
        s.finite(),
        s.contains(x),
    ensures
        s.fold(0, sum_fn(m)) == s.remove(x).fold(0, sum_fn(m)) + m[x],
{
    lemma_sum_fn_commutative(m);
    let s2 = s.remove(x);
    vstd::set::fold::lemma_fold_insert(s2, 0, sum_fn(m), x);
    assert(s2.insert(x) =~= s);
}

/// The sum is nonnegative, and bounds every single value.
pub proof fn lemma_map_sum_bounds(m: Map<u32, u64>)
    requires
        m.dom().finite(),
    ensures
        map_sum(m) >= 0,
        forall|k: u32| m.contains_key(k) ==> m[k] <= map_sum(m),
    decreases m.dom().len(),
{
    lemma_sum_fn_commutative(m);
    if m.dom().is_empty() {
        vstd::set::fold::lemma_fold_empty(0, sum_fn(m));
        assert(m.dom() =~= Set::<u32>::empty());
    } else {
        let x = m.dom().choose();
        let m2 = m.remove(x);
        assert(m2.dom() =~= m.dom().remove(x));
        lemma_map_sum_bounds(m2);
        lemma_fold_sum_remove(m.dom(), m, x);
        lemma_fold_sum_congruence(m.dom().remove(x), m, m2);
        assert(m.dom().remove(x).fold(0, sum_fn(m)) == m.dom().remove(x).fold(0, sum_fn(m2)));
        assert(map_sum(m2) == m.dom().remove(x).fold(0, sum_fn(m2)));
        assert(map_sum(m) == map_sum(m2) + m[x]);
        assert forall|k: u32| m.contains_key(k) implies m[k] <= map_sum(m) by {
            if k != x {
                assert(m2.contains_key(k) && m2[k] == m[k]);
            }
        }
    }
}

/// Inserting or updating one key changes the sum by the difference.
pub proof fn lemma_map_sum_insert(m: Map<u32, u64>, k: u32, v: u64)
    requires
        m.dom().finite(),
    ensures
        map_sum(m.insert(k, v)) == map_sum(m) - entry_of(m, k) + v,
{
    lemma_sum_fn_commutative(m);
    let m2 = m.insert(k, v);
    if m.contains_key(k) {
        lemma_fold_sum_remove(m.dom(), m, k);
        assert(m2.dom() =~= m.dom());
        lemma_fold_sum_remove(m2.dom(), m2, k);
        assert(m2.dom().remove(k).fold(0, sum_fn(m2)) == m.dom().remove(k).fold(0, sum_fn(m)))
            by {
            lemma_fold_sum_congruence(m.dom().remove(k), m, m2);
        }
    } else {
        assert(m2.dom() =~= m.dom().insert(k));
        lemma_sum_fn_commutative(m2);
        vstd::set::fold::lemma_fold_insert(m.dom(), 0, sum_fn(m2), k);
        assert(m.dom().fold(0, sum_fn(m2)) == m.dom().fold(0, sum_fn(m))) by {
            lemma_fold_sum_congruence(m.dom(), m, m2);
        }
    }
}

/// Sum of all matrix values.
pub open spec fn mat_total(rows: Seq<Map<u32, u64>>) -> int
    decreases rows.len(),
{
    if rows.len() == 0 {
        0
    } else {
        map_sum(rows[0]) + mat_total(rows.drop_first())
    }
}

/// Number of nonzero entries.
pub open spec fn nnz(rows: Seq<Map<u32, u64>>) -> int
    decreases rows.len(),
{
    if rows.len() == 0 {
        0
    } else {
        rows[0].dom().len() + nnz(rows.drop_first())
    }
}

pub open spec fn doms_finite(rows: Seq<Map<u32, u64>>) -> bool {
    forall|r: int| 0 <= r < rows.len() ==> (#[trigger] rows[r]).dom().finite()
}

proof fn lemma_mat_total_update(rows: Seq<Map<u32, u64>>, r: int, m2: Map<u32, u64>)
    requires
        0 <= r < rows.len(),
    ensures
        mat_total(rows.update(r, m2)) == mat_total(rows) - map_sum(rows[r]) + map_sum(m2),
    decreases rows.len(),
{
    if r == 0 {
        assert(rows.update(0, m2).drop_first() =~= rows.drop_first());
    } else {
        lemma_mat_total_update(rows.drop_first(), r - 1, m2);
        assert(rows.update(r, m2).drop_first() =~= rows.drop_first().update(r - 1, m2));
    }
}

pub proof fn lemma_mat_total_nonneg(rows: Seq<Map<u32, u64>>)
    requires
        doms_finite(rows),
    ensures
        mat_total(rows) >= 0,
        forall|r: int| 0 <= r < rows.len() ==> map_sum(#[trigger] rows[r]) <= mat_total(rows),
    decreases rows.len(),
{
    if rows.len() > 0 {
        lemma_map_sum_bounds(rows[0]);
        lemma_mat_total_nonneg(rows.drop_first());
        assert forall|r: int| 0 <= r < rows.len() implies map_sum(#[trigger] rows[r]) <= mat_total(
            rows,
        ) by {
            if r > 0 {
                assert(rows.drop_first()[r - 1] == rows[r]);
            }
        }
    }
}

/// A contribution that stays within `u64` raises the matrix total by
/// exactly its weight; entries never shrink and no other entry moves.
pub proof fn lemma_mat_add_total(rows: Seq<Map<u32, u64>>, r: int, c: u32, w: u64)
    requires
        doms_finite(rows),
        0 <= r < rows.len(),
        mat_total(rows) + w <= u64::MAX,
    ensures
        mat_total(mat_add(rows, r, c, w)) == mat_total(rows) + w,
{
    lemma_mat_total_nonneg(rows);
    lemma_map_sum_bounds(rows[r]);
    assert(entry_of(rows[r], c) + w <= u64::MAX);
    lemma_map_sum_insert(rows[r], c, sat_add(entry_of(rows[r], c), w));
    lemma_mat_total_update(rows, r, rows[r].insert(c, sat_add(entry_of(rows[r], c), w)));
}

/// Entries of the matrix live only in columns below the column count, and
/// every row map is finite.
pub open spec fn wf_rows(rows: Seq<Map<u32, u64>>, ncols: u32) -> bool {
    &&& doms_finite(rows)
    &&& forall|r: int, c: u32|
        0 <= r < rows.len() && #[trigger] rows[r].contains_key(c) ==> c < ncols
}

/// The sparse feature-by-cell accumulator.
pub struct CountMatrix {
    pub rows: Vec<HashMap<u32, u64>>,
    pub ncols: u32,
}

impl View for CountMatrix {
    type V = Seq<Map<u32, u64>>;

    open spec fn view(&self) -> Seq<Map<u32, u64>> {
        self.rows@.map_values(|h: HashMap<u32, u64>| h@)
    }
}

impl CountMatrix {
    pub open spec fn wf(&self) -> bool {
        wf_rows(self@, self.ncols)
    }

    /// An all-zero matrix of `nrows` by `ncols`.
    pub fn new(nrows: u32, ncols: u32) -> (r: CountMatrix)
        ensures
            r.wf(),
            r@.len() == nrows,
            r.ncols == ncols,
            forall|i: int| 0 <= i < nrows ==> #[trigger] r@[i] == Map::<u32, u64>::empty(),
    {
        let mut rows: Vec<HashMap<u32, u64>> = Vec::new();
        let mut i: u32 = 0;
        while i < nrows
            invariant
                0 <= i <= nrows,
                rows@.len() == i,
                forall|j: int| 0 <= j < i ==> #[trigger] rows@[j]@ == Map::<u32, u64>::empty(),
            decreases nrows - i,
        {
            rows.push(HashMap::new());
            i += 1;
        }
        let r = CountMatrix { rows, ncols };
        proof {
            assert(forall|j: int| 0 <= j < nrows ==> #[trigger] r@[j] == Map::<u32, u64>::empty());
        }
        r
    }

    /// Add weight `w` to the entry at `(row, col)`, creating it at `w` if
    /// absent; the addition saturates at `u64::MAX`.
    pub fn add(&mut self, row: u32, col: u32, w: u64)
        requires
            old(self).wf(),
            row < old(self)@.len(),
            col < old(self).ncols,
        ensures
            final(self)@ == mat_add(old(self)@, row as int, col, w),
            final(self).wf(),
            final(self).ncols == old(self).ncols,
            final(self)@.len() == old(self)@.len(),
    {
        let ghost pre = self@;
        let m = &mut self.rows[row as usize];
        let cur: u64 = match m.get(&col) {
            Some(v) => *v,
            None => 0,
        };
        proof {
            assert(cur == entry_of(pre[row as int], col));
        }
        let newv: u64 = if cur <= u64::MAX - w {
            cur + w
        } else {
            u64::MAX
        };
        m.insert(col, newv);
        proof {
            assert(self@ =~= mat_add(pre, row as int, col, w));
        }
    }

    /// The value at one cell of the logical (dense) matrix: the stored
    /// entry, or zero where none was created.
    pub fn get(&self, row: u32, col: u32) -> (r: u64)
        requires
            row < self@.len(),
        ensures
            r == entry_of(self@[row as int], col),
    {
        match self.rows[row as usize].get(&col) {
            Some(v) => *v,
            None => 0,
        }
    }

    /// The number of feature rows.
    pub fn nrows(&self) -> (r: usize)
        ensures
            r == self@.len(),
    {
        self.rows.len()
    }

    /// The number of nonzero entries, exactly.
    pub fn nonzero(&self) -> (r: u128)
        ensures
            r as int == nnz(self@),
    {
        let n = self.rows.len();
        let mut total: u128 = 0;
        let mut i: usize = 0;
        proof {
            assert(self@.take(0) =~= Seq::<Map<u32, u64>>::empty());
        }
        while i < n
            invariant
                0 <= i <= n == self.rows@.len(),
                total as int == nnz(self@.take(i as int)),
                total <= (i as int) * 0xffff_ffff_ffff_ffff,
            decreases n - i,
        {
            let len = self.rows[i].len();
            proof {
                assert(self@.take(i as int + 1).drop_last() =~= self@.take(i as int));
                lemma_nnz_push(self@.take(i as int), self@[i as int]);
                assert(self@.take(i as int + 1) =~= self@.take(i as int).push(self@[i as int]));
                assert(len <= 0xffff_ffff_ffff_ffffu64);
            }
            total = total + len as u128;
            i += 1;
        }
        proof {
            assert(self@.take(n as int) =~= self@);
        }
        total
    }
}

pub proof fn lemma_nnz_push(rows: Seq<Map<u32, u64>>, m: Map<u32, u64>)
    ensures
        nnz(rows.push(m)) == nnz(rows) + m.dom().len(),
    decreases rows.len(),
{
    if rows.len() == 0 {
        assert(rows.push(m).drop_first() =~= Seq::<Map<u32, u64>>::empty());
        assert(nnz(Seq::<Map<u32, u64>>::empty()) == 0);
    } else {
        lemma_nnz_push(rows.drop_first(), m);
        assert(rows.push(m).drop_first() =~= rows.drop_first().push(m));
    }
}

pub proof fn lemma_mat_total_push(rows: Seq<Map<u32, u64>>, m: Map<u32, u64>)
    ensures
        mat_total(rows.push(m)) == mat_total(rows) + map_sum(m),
    decreases rows.len(),
{
    if rows.len() == 0 {
        assert(rows.push(m).drop_first() =~= Seq::<Map<u32, u64>>::empty());
        assert(mat_total(Seq::<Map<u32, u64>>::empty()) == 0);
    } else {
        lemma_mat_total_push(rows.drop_first(), m);
        assert(rows.push(m).drop_first() =~= rows.drop_first().push(m));
    }
}

} // verus!
