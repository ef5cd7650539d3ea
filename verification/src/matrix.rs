//! Compressed sparse row (CSR) cascade matrix.
//!
//! Weights are carried as `f32` bit patterns; the products and sums of the
//! sparse matrix-vector step are floating-point and live with the callers.

use vstd::prelude::*;

verus! {

/// An edge `(from, to, weight bits, lag_us)`.
pub type Edge = (u32, u32, u32, u32);

/// The CSR entry an edge contributes to its row: `(column, weight bits, lag_us)`.
pub open spec fn edge_entry(e: Edge) -> (u32, u32, u32) {
    (e.1, e.2, e.3)
}

/// The entries of row `r`: the edges leaving `r`, in their input order.
pub open spec fn row_entries(edges: Seq<Edge>, r: int) -> Seq<(u32, u32, u32)>
    decreases edges.len(),
{
    if edges.len() == 0 {
        Seq::empty()
    } else {
        let rest = row_entries(edges.drop_last(), r);
        if edges.last().0 as int == r {
            rest.push(edge_entry(edges.last()))
        } else {
            rest
        }
    }
}

/// The number of edges leaving a row below `r`.
pub open spec fn count_below(edges: Seq<Edge>, r: int) -> nat
    decreases edges.len(),
{
    if edges.len() == 0 {
        0
    } else {
        count_below(edges.drop_last(), r) + if (edges.last().0 as int) < r {
            1nat
        } else {
            0nat
        }
    }
}

/// Every endpoint of every edge is a row of an `n`-row matrix.
pub open spec fn edges_in_range(edges: Seq<Edge>, n: u32) -> bool {
    forall|i: int| 0 <= i < edges.len() ==> (#[trigger] edges[i]).0 < n && edges[i].1 < n
}

/// A sparse `n`×`n` cascade matrix in CSR form.
pub struct CascadeMatrix {
    /// Dimension `n`.
    pub n: u32,
    /// Row pointers (`n + 1` of them): row `i` owns entries `row_ptr[i]..row_ptr[i+1]`.
    pub row_ptr: Vec<u32>,
    /// Column of each entry.
    pub col_idx: Vec<u32>,
    /// Weight of each entry, as `f32` bits.
    pub values: Vec<u32>,
    /// Propagation lag of each entry (microseconds).
    pub time_lag_us: Vec<u32>,
}

impl CascadeMatrix {
    /// The `k`-th stored entry `(column, weight bits, lag_us)`.
    pub open spec fn entry(&self, k: int) -> (u32, u32, u32) {
        (self.col_idx@[k], self.values@[k], self.time_lag_us@[k])
    }

    /// The stored entries of row `r`.
    pub open spec fn row(&self, r: int) -> Seq<(u32, u32, u32)> {
        Seq::new(
            (self.row_ptr@[r + 1] - self.row_ptr@[r]) as nat,
            |q: int| self.entry(self.row_ptr@[r] + q),
        )
    }

    /// The matrix is the CSR form of `edges`: row pointers count the edges of the
    /// rows below, and each row holds the edges leaving it, in input order.
    pub open spec fn represents(&self, edges: Seq<Edge>) -> bool {
        &&& self.row_ptr@.len() == self.n + 1
        &&& self.col_idx@.len() == edges.len()
        &&& self.values@.len() == edges.len()
        &&& self.time_lag_us@.len() == edges.len()
        &&& forall|r: int| 0 <= r <= self.n ==> #[trigger] self.row_ptr@[r] == count_below(edges, r)
        &&& forall|r: int| 0 <= r < self.n ==> #[trigger] self.row(r) == row_entries(edges, r)
    }

    /// CSR shape: `n + 1` nondecreasing row pointers from `0` to the number of entries,
    /// and every column inside the matrix.
    pub open spec fn wf(&self) -> bool {
        &&& self.row_ptr@.len() == self.n + 1
        &&& self.row_ptr@[0] == 0
        &&& forall|a: int, b: int|
            0 <= a <= b <= self.n ==> #[trigger] self.row_ptr@[a] <= #[trigger] self.row_ptr@[b]
        &&& self.row_ptr@[self.n as int] == self.col_idx@.len()
        &&& self.values@.len() == self.col_idx@.len()
        &&& self.time_lag_us@.len() == self.col_idx@.len()
        &&& forall|k: int| 0 <= k < self.col_idx@.len() ==> #[trigger] self.col_idx@[k] < self.n
    }

    /// Builds the CSR matrix of `edges` (row = `from`).
    ///
    /// Every edge must lie inside the `n`×`n` matrix (the build refuses others).
    pub fn from_edges(n: u32, edges: &[Edge]) -> (r: Self)
        requires
            edges_in_range(edges@, n),
            edges@.len() <= u32::MAX,
            n as int + 1 <= usize::MAX,
        ensures
            r.n == n,
            r.represents(edges@),
            r.wf(),
    {
        let n_us = n as usize;
        let ghost s = edges@;
        // 1. Count the entries of each row.
        let mut row_ptr = zeros(n_us + 1);
        let mut j: usize = 0;
        while j < edges.len()
            invariant
                s == edges@,
                edges_in_range(s, n),
                s.len() <= u32::MAX,
                n_us == n,
                j <= s.len(),
                row_ptr@.len() == n_us + 1,
                row_ptr@[0] == 0,
                forall|r: int|
                    0 <= r < n_us ==> #[trigger] row_ptr@[r + 1] == row_entries(s.take(j as int), r).len(),
            decreases s.len() - j,
        {
            let from = edges[j].0;
            proof {
                lemma_take_step(s, j as int);
                lemma_row_entries_len_bound(s.take(j as int), from as int);
            }
            let c = row_ptr[from as usize + 1];
            row_ptr.set(from as usize + 1, c + 1);
            j = j + 1;
            proof {
                assert forall|r: int| 0 <= r < n_us implies #[trigger] row_ptr@[r + 1]
                    == row_entries(s.take(j as int), r).len() by {
                    lemma_take_step(s, j - 1);
                }
            }
        }
        proof {
            assert(s.take(s.len() as int) =~= s);
            lemma_count_below_zero(s);
            assert forall|r: int| 0 < r <= n_us implies #[trigger] row_ptr@[r] == row_entries(
                s,
                r - 1,
            ).len() by {
                assert(row_ptr@[(r - 1) + 1] == row_entries(s.take(s.len() as int), r - 1).len());
            }
        }
        // 2. Prefix sums.
        let mut i: usize = 0;
        while i < n_us
            invariant
                s == edges@,
                edges_in_range(s, n),
                s.len() <= u32::MAX,
                n_us == n,
                i <= n_us,
                row_ptr@.len() == n_us + 1,
                forall|r: int| 0 <= r <= i ==> #[trigger] row_ptr@[r] == count_below(s, r),
                forall|r: int|
                    i < r <= n_us ==> #[trigger] row_ptr@[r] == row_entries(s, r - 1).len(),
            decreases n_us - i,
        {
            proof {
                lemma_count_below_step(s, i as int);
                lemma_count_below_bound(s, i + 1);
            }
            let a = row_ptr[i];
            let b = row_ptr[i + 1];
            row_ptr.set(i + 1, a + b);
            i = i + 1;
        }
        proof {
            lemma_count_below_all(s, n);
        }
        let nnz = row_ptr[n_us] as usize;
        let mut col_idx = zeros(nnz);
        let mut values = zeros(nnz);
        let mut time_lag_us = zeros(nnz);
        let mut cursor = copy_u32(&row_ptr);
        // 3. Place every edge at the cursor of its row.
        let mut j: usize = 0;
        while j < edges.len()
            invariant
                s == edges@,
                edges_in_range(s, n),
                s.len() <= u32::MAX,
                n_us == n,
                nnz == s.len(),
                j <= s.len(),
                row_ptr@.len() == n_us + 1,
                cursor@.len() == n_us + 1,
                col_idx@.len() == nnz,
                values@.len() == nnz,
                time_lag_us@.len() == nnz,
                forall|r: int| 0 <= r <= n_us ==> #[trigger] row_ptr@[r] == count_below(s, r),
                forall|r: int|
                    0 <= r < n_us ==> #[trigger] cursor@[r] == row_ptr@[r] + row_entries(
                        s.take(j as int),
                        r,
                    ).len(),
                forall|r: int, q: int|
                    0 <= r < n_us && 0 <= q < row_entries(s.take(j as int), r).len() ==> (
                    col_idx@[row_ptr@[r] + q],
                    values@[row_ptr@[r] + q],
                    time_lag_us@[row_ptr@[r] + q],
                ) == #[trigger] row_entries(s.take(j as int), r)[q],
            decreases s.len() - j,
        {
            let (from, to, w, lag) = edges[j];
            let f = from as usize;
            let ghost old_cols = col_idx@;
            let ghost old_vals = values@;
            let ghost old_lags = time_lag_us@;
            let ghost t0 = s.take(j as int);
            let ghost t1 = s.take(j + 1);
            proof {
                lemma_take_step(s, j as int);
                lemma_row_entries_prefix(s, j + 1, from as int);
                lemma_count_below_step(s, from as int);
                lemma_count_below_bound(s, from + 1);
            }
            let pos = cursor[f] as usize;
            col_idx.set(pos, to);
            values.set(pos, w);
            time_lag_us.set(pos, lag);
            let c = cursor[f];
            cursor.set(f, c + 1);
            proof {
                assert(col_idx@ == old_cols.update(pos as int, to));
                assert(values@ == old_vals.update(pos as int, w));
                assert(time_lag_us@ == old_lags.update(pos as int, lag));
                assert forall|r: int| 0 <= r < n_us implies #[trigger] cursor@[r] == row_ptr@[r]
                    + row_entries(t1, r).len() by {}
                assert forall|r: int, q: int|
                    0 <= r < n_us && 0 <= q < row_entries(t1, r).len() implies (
                    col_idx@[row_ptr@[r] + q],
                    values@[row_ptr@[r] + q],
                    time_lag_us@[row_ptr@[r] + q],
                ) == #[trigger] row_entries(t1, r)[q] by {
                    let k = row_ptr@[r] + q;
                    if r != from as int {
                        assert(row_entries(t0, r)[q] == row_entries(t1, r)[q]);
                        lemma_row_entries_prefix(s, j as int, r);
                        lemma_count_below_step(s, r);
                        if r < from as int {
                            lemma_count_below_mono(s, r + 1, from as int);
                        } else {
                            lemma_count_below_mono(s, from + 1, r);
                        }
                        assert(k != pos);
                        lemma_count_below_bound(s, r + 1);
                        assert(0 <= k < old_cols.len());
                        assert(col_idx@[k] == old_cols[k]);
                        assert(values@[k] == old_vals[k]);
                        assert(time_lag_us@[k] == old_lags[k]);
                    } else if q < row_entries(t0, r).len() {
                        assert(row_entries(t0, r)[q] == row_entries(t1, r)[q]);
                        assert(k < pos);
                        assert(0 <= k < old_cols.len());
                        assert(col_idx@[k] == old_cols[k]);
                        assert(values@[k] == old_vals[k]);
                        assert(time_lag_us@[k] == old_lags[k]);
                    } else {
                        assert(k == pos);
                        assert(row_entries(t1, r)[q] == edge_entry(s[j as int]));
                    }
                }
            }
            j = j + 1;
        }
        let m = CascadeMatrix { n, row_ptr, col_idx, values, time_lag_us };
        proof {
            assert(s.take(s.len() as int) =~= s);
            assert forall|r: int| 0 <= r < n implies #[trigger] m.row(r) == row_entries(s, r) by {
                lemma_count_below_step(s, r);
                assert(m.row(r) =~= row_entries(s, r));
            }
            lemma_count_below_zero(s);
            assert forall|a: int, b: int| 0 <= a <= b <= n implies #[trigger] m.row_ptr@[a]
                <= #[trigger] m.row_ptr@[b] by {
                lemma_count_below_mono(s, a, b);
            }
            assert forall|k: int| 0 <= k < m.col_idx@.len() implies #[trigger] m.col_idx@[k] < n by {
                let r = lemma_entry_row(m, k, 0);
                lemma_count_below_step(s, r);
                let q = k - m.row_ptr@[r];
                assert(m.row(r)[q] == m.entry(k));
                lemma_row_entries_in_range(s, n, r, q);
            }
        }
        m
    }
}

/// The row that holds entry `k` (searching from row `r`).
proof fn lemma_entry_row(m: CascadeMatrix, k: int, r: int) -> (row: int)
    requires
        m.row_ptr@.len() == m.n + 1,
        forall|a: int, b: int|
            0 <= a <= b <= m.n ==> #[trigger] m.row_ptr@[a] <= #[trigger] m.row_ptr@[b],
        0 <= r < m.n,
        m.row_ptr@[r] <= k < m.row_ptr@[m.n as int],
    ensures
        r <= row < m.n,
        m.row_ptr@[row] <= k < m.row_ptr@[row + 1],
    decreases m.n - r,
{
    if k < m.row_ptr@[r + 1] {
        r
    } else {
        lemma_entry_row(m, k, r + 1)
    }
}

/// Every entry of a row points inside the matrix when every edge does.
proof fn lemma_row_entries_in_range(s: Seq<Edge>, n: u32, r: int, q: int)
    requires
        edges_in_range(s, n),
        0 <= q < row_entries(s, r).len(),
    ensures
        row_entries(s, r)[q].0 < n,
    decreases s.len(),
{
    let t = s.drop_last();
    assert(edges_in_range(t, n)) by {
        assert forall|i: int| 0 <= i < t.len() implies (#[trigger] t[i]).0 < n && t[i].1 < n by {
            assert(t[i] == s[i]);
        }
    }
    assert(s.last() == s[s.len() - 1]);
    if q < row_entries(t, r).len() {
        lemma_row_entries_in_range(t, n, r, q);
    }
}

/// `n` zeros.
fn zeros(n: usize) -> (r: Vec<u32>)
    ensures
        r@.len() == n,
        forall|i: int| 0 <= i < n ==> #[trigger] r@[i] == 0,
{
    let mut v: Vec<u32> = Vec::new();
    let mut i: usize = 0;
    while i < n
        invariant
            i <= n,
            v@.len() == i,
            forall|k: int| 0 <= k < i ==> #[trigger] v@[k] == 0,
        decreases n - i,
    {
        v.push(0);
        i = i + 1;
    }
    v
}

/// A copy of `src`.
fn copy_u32(src: &Vec<u32>) -> (r: Vec<u32>)
    ensures
        r@ == src@,
{
    let mut v: Vec<u32> = Vec::new();
    let mut i: usize = 0;
    while i < src.len()
        invariant
            i <= src@.len(),
            v@ == src@.take(i as int),
        decreases src@.len() - i,
    {
        v.push(src[i]);
        i = i + 1;
        assert(v@ =~= src@.take(i as int));
    }
    assert(src@.take(src@.len() as int) =~= src@);
    v
}

proof fn lemma_count_below_zero(s: Seq<Edge>)
    ensures
        count_below(s, 0) == 0,
    decreases s.len(),
{
    if s.len() > 0 {
        lemma_count_below_zero(s.drop_last());
    }
}

/// One more edge of the prefix: the rows it does not leave are unchanged.
proof fn lemma_take_step(s: Seq<Edge>, j: int)
    requires
        0 <= j < s.len(),
    ensures
        s.take(j + 1).drop_last() =~= s.take(j),
        s.take(j + 1).last() == s[j],
        forall|r: int| #[trigger]
            row_entries(s.take(j + 1), r) == if s[j].0 as int == r {
                row_entries(s.take(j), r).push(edge_entry(s[j]))
            } else {
                row_entries(s.take(j), r)
            },
{
    assert(s.take(j + 1).drop_last() =~= s.take(j));
}

proof fn lemma_row_entries_len_bound(s: Seq<Edge>, r: int)
    ensures
        row_entries(s, r).len() <= s.len(),
    decreases s.len(),
{
    if s.len() > 0 {
        lemma_row_entries_len_bound(s.drop_last(), r);
    }
}

proof fn lemma_count_below_bound(s: Seq<Edge>, r: int)
    ensures
        count_below(s, r) <= s.len(),
    decreases s.len(),
{
    if s.len() > 0 {
        lemma_count_below_bound(s.drop_last(), r);
    }
}

/// The edges below `r + 1` are those below `r` and those leaving `r`.
proof fn lemma_count_below_step(s: Seq<Edge>, r: int)
    ensures
        count_below(s, r + 1) == count_below(s, r) + row_entries(s, r).len(),
    decreases s.len(),
{
    if s.len() > 0 {
        lemma_count_below_step(s.drop_last(), r);
    }
}

proof fn lemma_count_below_mono(s: Seq<Edge>, a: int, b: int)
    requires
        a <= b,
    ensures
        count_below(s, a) <= count_below(s, b),
    decreases s.len(),
{
    if s.len() > 0 {
        lemma_count_below_mono(s.drop_last(), a, b);
    }
}

/// When every edge leaves a row below `n`, all of them are counted below `n`.
proof fn lemma_count_below_all(s: Seq<Edge>, n: u32)
    requires
        edges_in_range(s, n),
    ensures
        count_below(s, n as int) == s.len(),
    decreases s.len(),
{
    if s.len() > 0 {
        assert(edges_in_range(s.drop_last(), n)) by {
            assert forall|i: int| 0 <= i < s.drop_last().len() implies (
            #[trigger] s.drop_last()[i]).0 < n && s.drop_last()[i].1 < n by {
                assert(s.drop_last()[i] == s[i]);
            }
        }
        lemma_count_below_all(s.drop_last(), n);
        assert(s.last() == s[s.len() - 1]);
    }
}

/// A prefix of the edges has at most the entries of the whole list in each row.
proof fn lemma_row_entries_prefix(s: Seq<Edge>, j: int, r: int)
    requires
        0 <= j <= s.len(),
    ensures
        row_entries(s.take(j), r).len() <= row_entries(s, r).len(),
    decreases s.len() - j,
{
    if j < s.len() {
        lemma_take_step(s, j);
        lemma_row_entries_prefix(s, j + 1, r);
    } else {
        assert(s.take(j) =~= s);
    }
}

} // verus!
