use vstd::prelude::*;

use crate::order::{
    count_eq, dedup_cols, lemma_count_bounds, lemma_count_contains, lemma_count_multiset,
    lemma_count_push, lemma_dedup_props, lemma_dedup_push, lemma_strictly_increasing_unique,
    seq_sum, sorted, strictly_increasing,
};

verus! {

/// A compressed-sparse-row matrix of term counts.
///
/// `indptr` has one entry per row plus one; row `i` owns the slice
/// `indices[indptr[i] .. indptr[i + 1]]` of column indices, strictly
/// ascending, and the matching slice of `data` holds the counts.
#[derive(Debug)]
pub struct CsrMatrix {
    pub indptr: Vec<usize>,
    pub indices: Vec<usize>,
    pub data: Vec<usize>,
    pub n_rows: usize,
    pub n_cols: usize,
}

/// One finished row: `ind` lists the distinct columns of `cols` in strictly
/// ascending order and `dat` holds how often each occurs in `cols`.
pub open spec fn row_represents(ind: Seq<usize>, dat: Seq<usize>, cols: Seq<usize>) -> bool {
    &&& strictly_increasing(ind)
    &&& ind.len() == dat.len()
    &&& ind.to_set() == cols.to_set()
    &&& forall|j: int| 0 <= j < dat.len() ==> dat[j] == count_eq(cols, ind[j])
    &&& seq_sum(dat) == cols.len()
}

impl CsrMatrix {
    pub open spec fn row_indices(&self, i: int) -> Seq<usize> {
        self.indices@.subrange(self.indptr@[i] as int, self.indptr@[i + 1] as int)
    }

    pub open spec fn row_data(&self, i: int) -> Seq<usize> {
        self.data@.subrange(self.indptr@[i] as int, self.indptr@[i + 1] as int)
    }

    /// The state kept while rows are appended: the row pointer starts at zero,
    /// never decreases, and its last entry closes off everything pushed so far.
    pub open spec fn building(&self) -> bool {
        &&& self.indptr@.len() >= 1
        &&& self.indptr@[0] == 0
        &&& forall|i: int, j: int|
            0 <= i <= j < self.indptr@.len() ==> self.indptr@[i] <= self.indptr@[j]
        &&& self.indptr@.last() == self.indices@.len()
        &&& self.indices@.len() == self.data@.len()
    }

    /// Every row of the finished matrix aggregates the column-index sequence
    /// of the matching document, and all indices lie below `n_cols`.
    pub open spec fn represents(&self, rows: Seq<Seq<usize>>) -> bool {
        &&& self.n_rows == rows.len()
        &&& self.indptr@.len() == rows.len() + 1
        &&& self.indptr@[0] == 0
        &&& forall|i: int, j: int|
            0 <= i <= j < self.indptr@.len() ==> self.indptr@[i] <= self.indptr@[j]
        &&& self.indptr@.last() == self.indices@.len()
        &&& self.indices@.len() == self.data@.len()
        &&& forall|i: int|
            0 <= i < rows.len() ==> row_represents(
                #[trigger] self.row_indices(i),
                self.row_data(i),
                rows[i],
            )
        &&& forall|j: int| 0 <= j < self.indices@.len() ==> self.indices@[j] < self.n_cols
    }

    /// The standard CSR well-formedness conditions.
    pub open spec fn wf(&self) -> bool {
        &&& self.indptr@.len() == self.n_rows + 1
        &&& self.indptr@[0] == 0
        &&& forall|i: int, j: int|
            0 <= i <= j < self.indptr@.len() ==> self.indptr@[i] <= self.indptr@[j]
        &&& self.indptr@.last() == self.indices@.len()
        &&& self.indices@.len() == self.data@.len()
        &&& forall|i: int| 0 <= i < self.n_rows ==> strictly_increasing(#[trigger] self.row_indices(i))
        &&& forall|j: int| 0 <= j < self.indices@.len() ==> self.indices@[j] < self.n_cols
        &&& forall|j: int| 0 <= j < self.data@.len() ==> self.data@[j] >= 1
    }

    /// A fresh builder holding no rows yet.
    pub fn new_builder(n_cols: usize) -> (m: CsrMatrix)
        ensures
            m.building(),
            m.indptr@ == seq![0usize],
            m.indices@ == Seq::<usize>::empty(),
            m.data@ == Seq::<usize>::empty(),
            m.n_rows == 0,
            m.n_cols == n_cols,
    {
        let mut indptr: Vec<usize> = Vec::new();
        indptr.push(0);
        CsrMatrix { indptr, indices: Vec::new(), data: Vec::new(), n_rows: 0, n_cols }
    }

    /// Number of stored entries.
    pub fn nnz(&self) -> (r: usize)
        ensures
            r == self.indices@.len(),
    {
        self.indices.len()
    }

    /// Append one row: scan the sorted column indices of one document once,
    /// merge equal neighbours into a single entry with their count, and close
    /// the row by pushing the new total on the row pointer.
    pub fn sum_duplicates(&mut self, cols: &Vec<usize>)
        requires
            old(self).building(),
            sorted(cols@),
        ensures
            final(self).building(),
            final(self).indptr@ == old(self).indptr@.push(
                (old(self).indices@.len() + dedup_cols(cols@).len()) as usize,
            ),
            final(self).indices@ == old(self).indices@ + dedup_cols(cols@),
            final(self).data@.len() == final(self).indices@.len(),
            final(self).data@.subrange(0, old(self).data@.len() as int) == old(self).data@,
            row_represents(
                dedup_cols(cols@),
                final(self).data@.subrange(
                    old(self).data@.len() as int,
                    final(self).data@.len() as int,
                ),
                cols@,
            ),
            final(self).n_rows == old(self).n_rows,
            final(self).n_cols == old(self).n_cols,
    {
        let ghost base_ind = self.indices@;
        let ghost base_dat = self.data@;
        let base = self.data.len();
        let n = cols.len();
        let mut k: usize = 0;
        while k < n
            invariant
                k <= n,
                n == cols@.len(),
                sorted(cols@),
                base == base_dat.len(),
                base_ind.len() == base_dat.len(),
                self.indptr@ == old(self).indptr@,
                self.n_rows == old(self).n_rows,
                self.n_cols == old(self).n_cols,
                self.indices@ == base_ind + dedup_cols(cols@.subrange(0, k as int)),
                self.data@.len() == self.indices@.len(),
                self.data@.subrange(0, base as int) == base_dat,
                strictly_increasing(dedup_cols(cols@.subrange(0, k as int))),
                k > 0 ==> dedup_cols(cols@.subrange(0, k as int)).len() > 0 && dedup_cols(
                    cols@.subrange(0, k as int),
                ).last() == cols@[k - 1],
                forall|j: int|
                    base <= j < self.data@.len() ==> self.data@[j] == count_eq(
                        cols@.subrange(0, k as int),
                        self.indices@[j],
                    ),
                seq_sum(self.data@.subrange(base as int, self.data@.len() as int)) == k,
            decreases n - k,
        {
            let ghost pref = cols@.subrange(0, k as int);
            let ghost dpref = dedup_cols(pref);
            let c = cols[k];
            proof {
                assert(cols@.subrange(0, k + 1) =~= pref.push(cols@[k as int]));
                lemma_dedup_push(pref, c);
                lemma_dedup_props(pref);
                assert forall|y: usize|
                    count_eq(cols@.subrange(0, k + 1), y) == count_eq(pref, y) + (if y == c {
                        1int
                    } else {
                        0int
                    }) by {
                    lemma_count_push(pref, c, y);
                }
            }
            if k > 0 && c == cols[k - 1] {
                // same column as the previous entry: raise its count
                let m = self.data.len() - 1;
                let v = self.data[m];
                proof {
                    assert(self.indices@[m as int] == dpref.last());
                    assert(dpref.last() == c);
                    lemma_count_bounds(pref, c);
                    assert(v == count_eq(pref, c));
                    assert(v < n);
                    // entries below the last keep their count: they are smaller than c
                    assert forall|j: int| base <= j < m implies self.indices@[j] != c by {
                        assert(self.indices@[j] == dpref[j - base]);
                        assert(dpref[j - base] < dpref.last());
                    }
                }
                let ghost nd0 = self.data@.subrange(base as int, self.data@.len() as int);
                self.data.set(m, v + 1);
                proof {
                    assert(self.data@.subrange(0, base as int) =~= base_dat);
                    assert(dedup_cols(cols@.subrange(0, k + 1)) == dpref);
                    assert(self.data@.subrange(base as int, self.data@.len() as int)
                        =~= base_dat.subrange(base as int, base as int).add(
                        self.data@.subrange(base as int, self.data@.len() as int),
                    )) by {
                        assert(base_dat.subrange(base as int, base as int).len() == 0);
                    }
                    let ghost nd = self.data@.subrange(base as int, self.data@.len() as int);
                    assert(seq_sum(nd) == k + 1) by {
                        assert(nd =~= nd0.update(nd0.len() - 1, (v + 1) as usize));
                        assert(nd.drop_last() =~= nd0.drop_last());
                        assert(nd.last() == v + 1);
                        assert(nd0.last() == v);
                        assert(seq_sum(nd0) == k);
                        assert(seq_sum(nd) == seq_sum(nd.drop_last()) + nd.last());
                        assert(seq_sum(nd0) == seq_sum(nd0.drop_last()) + nd0.last());
                    }
                }
            } else {
                proof {
                    if k > 0 {
                        assert(cols@[k - 1] <= cols@[k as int]);
                        assert(cols@[k - 1] != c);
                        assert(cols@[k - 1] < c);
                        assert forall|j: int| base <= j < self.data@.len() implies self.indices@[j]
                            != c by {
                            assert(self.indices@[j] == dpref[j - base]);
                            assert(dpref[j - base] <= dpref.last());
                        }
                        assert(count_eq(pref, c) == 0) by {
                            lemma_count_contains(pref, c);
                            if pref.contains(c) {
                                let i = choose|i: int| 0 <= i < pref.len() && pref[i] == c;
                                assert(pref[i] <= pref[pref.len() - 1]);
                            }
                            lemma_count_bounds(pref, c);
                        }
                    } else {
                        assert(pref.len() == 0);
                        assert(count_eq(pref, c) == 0);
                    }
                }
                let ghost nd0 = self.data@.subrange(base as int, self.data@.len() as int);
                self.indices.push(c);
                self.data.push(1);
                proof {
                    assert(self.data@.subrange(0, base as int) =~= base_dat);
                    let ghost nd = self.data@.subrange(base as int, self.data@.len() as int);
                    assert(nd.drop_last() =~= nd0);
                    assert(nd.last() == 1);
                    assert(seq_sum(nd) == seq_sum(nd.drop_last()) + nd.last());
                    assert(seq_sum(nd) == k + 1);
                    // the new dedup sequence stays strictly increasing
                    if k > 0 {
                        assert(dedup_cols(cols@.subrange(0, k + 1)) == dpref.push(c));
                        assert(strictly_increasing(dpref.push(c))) by {
                            lemma_dedup_props(pref);
                            assert(forall|i: int|
                                0 <= i < dpref.len() ==> dpref[i] <= dpref.last());
                            assert(dpref.last() == cols@[k - 1]);
                            assert(forall|i: int|
                                0 <= i < dpref.len() ==> #[trigger] dpref.push(c)[i] == dpref[i]);
                        }
                    }
                }
            }
            k += 1;
        }
        proof {
            assert(cols@.subrange(0, n as int) =~= cols@);
        }
        let total = self.indices.len();
        self.indptr.push(total);
        proof {
            lemma_dedup_props(cols@);
            assert(self.indptr@ == old(self).indptr@.push(total));
            assert(forall|i: int, j: int|
                0 <= i <= j < self.indptr@.len() ==> self.indptr@[i] <= self.indptr@[j]) by {
                assert(forall|i: int|
                    0 <= i < old(self).indptr@.len() ==> old(self).indptr@[i] <= old(
                        self,
                    ).indptr@.last());
                assert(forall|i: int|
                    0 <= i < old(self).indptr@.len() ==> self.indptr@[i] == old(self).indptr@[i]);
            }
            assert(self.data@.subrange(0, base as int) == base_dat);
        }
    }
}

/// A finished row depends only on the multiset of submitted column indices:
/// the same counts come out in whatever order a document's columns arrived.
pub proof fn lemma_row_represents_multiset(
    ind: Seq<usize>,
    dat: Seq<usize>,
    c1: Seq<usize>,
    c2: Seq<usize>,
)
    requires
        row_represents(ind, dat, c1),
        c1.to_multiset() == c2.to_multiset(),
    ensures
        row_represents(ind, dat, c2),
{
    broadcast use vstd::seq_lib::group_to_multiset_ensures;
    broadcast use vstd::set::group_set_axioms;

    assert(c1.len() == c2.len()) by {
        assert(c1.to_multiset().len() == c1.len());
        assert(c2.to_multiset().len() == c2.len());
    }
    assert(c1.to_set() =~= c2.to_set()) by {
        assert forall|x: usize| c1.contains(x) implies c2.contains(x) by {
            assert(c1.to_multiset().count(x) > 0);
        }
        assert forall|x: usize| c2.contains(x) implies c1.contains(x) by {
            assert(c2.to_multiset().count(x) > 0);
        }
    }
    assert forall|j: int| 0 <= j < dat.len() implies dat[j] == count_eq(c2, ind[j]) by {
        lemma_count_multiset(c1, ind[j]);
        lemma_count_multiset(c2, ind[j]);
    }
}

/// Two matrices that represent the same per-document column sequences with
/// the same width are equal in all four arrays and the shape.
pub proof fn lemma_represents_unique(a: &CsrMatrix, b: &CsrMatrix, rows: Seq<Seq<usize>>)
    requires
        a.represents(rows),
        b.represents(rows),
        a.n_cols == b.n_cols,
    ensures
        a.indptr@ == b.indptr@,
        a.indices@ == b.indices@,
        a.data@ == b.data@,
        a.n_rows == b.n_rows,
{
    broadcast use vstd::set::group_set_axioms;

    assert(a.indptr@ =~= b.indptr@) by {
        assert forall|i: int| 0 <= i < a.indptr@.len() implies a.indptr@[i] == b.indptr@[i] by {
            lemma_represents_indptr(a, rows, i);
            lemma_represents_indptr(b, rows, i);
        }
    }
    assert forall|i: int| 0 <= i < rows.len() implies a.row_indices(i) == b.row_indices(i)
        && a.row_data(i) == b.row_data(i) by {
        assert(a.row_indices(i).to_set() == rows[i].to_set());
        assert(b.row_indices(i).to_set() == rows[i].to_set());
        lemma_strictly_increasing_unique(a.row_indices(i), b.row_indices(i));
        assert(a.row_data(i) =~= b.row_data(i)) by {
            assert(forall|j: int|
                0 <= j < a.row_data(i).len() ==> a.row_data(i)[j] == count_eq(
                    rows[i],
                    a.row_indices(i)[j],
                ));
        }
    }
    assert(a.indices@ =~= b.indices@) by {
        assert forall|j: int| 0 <= j < a.indices@.len() implies a.indices@[j] == b.indices@[j] by {
            let i = lemma_entry_row(a, rows, j);
            assert(a.row_indices(i)[j - a.indptr@[i]] == a.indices@[j]);
            assert(b.row_indices(i)[j - b.indptr@[i]] == b.indices@[j]);
        }
    }
    assert(a.data@ =~= b.data@) by {
        assert forall|j: int| 0 <= j < a.data@.len() implies a.data@[j] == b.data@[j] by {
            let i = lemma_entry_row(a, rows, j);
            assert(a.row_data(i)[j - a.indptr@[i]] == a.data@[j]);
            assert(b.row_data(i)[j - b.indptr@[i]] == b.data@[j]);
        }
    }
}

/// The row pointer of a representing matrix is forced: entry `i` is the sum
/// of the distinct-column counts of the first `i` documents.
pub proof fn lemma_represents_indptr(m: &CsrMatrix, rows: Seq<Seq<usize>>, i: int)
    requires
        m.represents(rows),
        0 <= i < m.indptr@.len(),
    ensures
        m.indptr@[i] == prefix_nnz(rows, i),
    decreases i,
{
    broadcast use vstd::set::group_set_axioms;

    if i == 0 {
    } else {
        lemma_represents_indptr(m, rows, i - 1);
        assert(m.row_indices(i - 1).len() == m.indptr@[i] - m.indptr@[i - 1]);
        lemma_row_distinct_count(m.row_indices(i - 1), rows[i - 1]);
    }
}

/// The number of entries owned by the first `i` rows.
pub open spec fn prefix_nnz(rows: Seq<Seq<usize>>, i: int) -> int
    decreases i,
{
    if i <= 0 {
        0
    } else {
        prefix_nnz(rows, i - 1) + rows[i - 1].to_set().len()
    }
}

/// A strictly increasing enumeration of a set has the set's cardinality.
pub proof fn lemma_row_distinct_count(ind: Seq<usize>, cols: Seq<usize>)
    requires
        strictly_increasing(ind),
        ind.to_set() == cols.to_set(),
    ensures
        ind.len() == cols.to_set().len(),
{
    assert(ind.no_duplicates());
    ind.unique_seq_to_set();
}

/// Which row owns entry `j`.
proof fn lemma_entry_row(m: &CsrMatrix, rows: Seq<Seq<usize>>, j: int) -> (i: int)
    requires
        m.represents(rows),
        0 <= j < m.indices@.len(),
    ensures
        0 <= i < rows.len(),
        m.indptr@[i] <= j < m.indptr@[i + 1],
    decreases rows.len(),
{
    lemma_entry_row_from(m, rows, j, 0)
}

proof fn lemma_entry_row_from(m: &CsrMatrix, rows: Seq<Seq<usize>>, j: int, lo: int) -> (i: int)
    requires
        m.represents(rows),
        0 <= j < m.indices@.len(),
        0 <= lo <= rows.len(),
        m.indptr@[lo] <= j,
    ensures
        lo <= i < rows.len(),
        m.indptr@[i] <= j < m.indptr@[i + 1],
    decreases rows.len() - lo,
{
    if lo == rows.len() {
        assert(m.indptr@[lo] == m.indices@.len());
        assert(false);
        lo
    } else if j < m.indptr@[lo + 1] {
        lo
    } else {
        lemma_entry_row_from(m, rows, j, lo + 1)
    }
}

/// A matrix that represents a corpus satisfies the standard CSR conditions:
/// monotone row pointer, strictly ascending indices per row below the width,
/// and every stored count at least one.
pub proof fn lemma_represents_wf(m: &CsrMatrix, rows: Seq<Seq<usize>>)
    requires
        m.represents(rows),
    ensures
        m.wf(),
{
    broadcast use vstd::set::group_set_axioms;

    assert forall|i: int| 0 <= i < m.n_rows implies strictly_increasing(
        #[trigger] m.row_indices(i),
    ) by {
        assert(row_represents(m.row_indices(i), m.row_data(i), rows[i]));
    }
    assert forall|j: int| 0 <= j < m.data@.len() implies m.data@[j] >= 1 by {
        let i = lemma_entry_row(m, rows, j);
        assert(row_represents(m.row_indices(i), m.row_data(i), rows[i]));
        let k = j - m.indptr@[i];
        assert(m.row_data(i)[k] == m.data@[j]);
        assert(m.row_data(i)[k] == count_eq(rows[i], m.row_indices(i)[k]));
        let x = m.row_indices(i)[k];
        assert(m.row_indices(i).contains(x));
        assert(m.row_indices(i).to_set().contains(x));
        assert(rows[i].to_set().contains(x));
        assert(rows[i].contains(x));
        lemma_count_contains(rows[i], x);
    }
}

} // verus!
