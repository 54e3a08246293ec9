//! The sparse matrix itself: an authoritative store of cells for
//! mutation, and a compressed-row cache rebuilt on demand.

use vstd::prelude::*;
use vstd::string::StringExecFns;

use crate::model::Entry;
use crate::model::ONE_WORD;
use crate::model::apply_triplets;
use crate::model::csr_valid;
use crate::model::entries_in_bounds;
use crate::model::entry_key;
use crate::model::first_oob;
use crate::model::identity_map;
use crate::model::lemma_apply_triplets_push;
use crate::model::lemma_first_oob;
use crate::model::lemma_map_of_contains_key;
use crate::model::lemma_map_of_contains_pair;
use crate::model::lemma_map_of_len;
use crate::model::lemma_map_of_push;
use crate::model::lemma_map_of_remove;
use crate::model::lemma_map_of_swapped;
use crate::model::dense_row;
use crate::model::lemma_map_keys_in_bounds;
use crate::model::lemma_map_of_update;
use crate::model::lemma_offsets_monotone;
use crate::model::lemma_scattered_row;
use crate::model::lemma_transpose_empty;
use crate::model::lemma_transpose_insert;
use crate::model::map_of;
use crate::model::transpose_map;
use crate::model::triplet_oob;
use crate::model::unique_keys;
use crate::text::boxed_layout;
use crate::text::cell_texts;
use crate::text::comma_join;
use crate::text::lemma_comma_join_step;
use crate::text::lemma_rows_block_step;
use crate::text::rows_block;
use crate::text::spaces;

verus! {

/// The ways a bounds- or shape-checked operation can be refused.
#[derive(Clone, Copy, Debug, PartialEq, Eq, Structural)]
pub enum MatrixError {
    /// A row coordinate at or beyond the row count.
    RowOutOfBounds,
    /// A column coordinate at or beyond the column count.
    ColOutOfBounds,
    /// An operation over two matrices whose shapes differ.
    ShapeMismatch,
}

/// A sparse matrix of 64-bit value words.
///
/// The `entries` store is authoritative: one cell per stored coordinate
/// pair, absence standing for an implicit zero. The three compressed
/// arrays are a cache of the store in compressed-row form; `fresh` says
/// whether they still reflect it. Every mutation clears `fresh`, and
/// `rebuild_compressed` re-derives the arrays on demand.
pub struct SparseMatrix {
    pub(crate) shape: (u64, u64),
    pub(crate) entries: Vec<Entry>,
    pub(crate) fresh: bool,
    pub(crate) row_offsets: Vec<u64>,
    pub(crate) col_indices: Vec<u64>,
    pub(crate) cell_values: Vec<u64>,
}

impl View for SparseMatrix {
    type V = Map<(u64, u64), u64>;

    /// The mapping from coordinates to stored words.
    closed spec fn view(&self) -> Map<(u64, u64), u64> {
        map_of(self.entries@)
    }
}

impl SparseMatrix {
    /// The number of rows of the shape.
    pub closed spec fn spec_rows(self) -> u64 {
        self.shape.0
    }

    /// The number of columns of the shape.
    pub closed spec fn spec_cols(self) -> u64 {
        self.shape.1
    }

    /// Whether the compressed-row cache reflects the store.
    pub closed spec fn spec_fresh(self) -> bool {
        self.fresh
    }

    /// The cached row-offset array.
    pub closed spec fn spec_row_offsets(self) -> Seq<u64> {
        self.row_offsets@
    }

    /// The cached column-index array.
    pub closed spec fn spec_col_indices(self) -> Seq<u64> {
        self.col_indices@
    }

    /// The cached value array, co-indexed with the column-index array.
    pub closed spec fn spec_cell_values(self) -> Seq<u64> {
        self.cell_values@
    }

    /// Well-formedness: stored cells are in bounds and carry distinct
    /// coordinates, and a fresh cache is a faithful compressed-row
    /// rendering of the store.
    pub closed spec fn wf(self) -> bool {
        &&& unique_keys(self.entries@)
        &&& entries_in_bounds(self.entries@, self.shape.0, self.shape.1)
        &&& self.fresh ==> csr_valid(
            self.shape.0 as int,
            self.row_offsets@,
            self.col_indices@,
            self.cell_values@,
            map_of(self.entries@),
        )
    }

    /// An empty matrix of shape `(0, 0)` with a stale cache.
    pub fn new() -> (m: SparseMatrix)
        ensures
            m.wf(),
            m.spec_rows() == 0,
            m.spec_cols() == 0,
            m@ == Map::<(u64, u64), u64>::empty(),
            !m.spec_fresh(),
    {
        SparseMatrix {
            shape: (0, 0),
            entries: Vec::new(),
            fresh: false,
            row_offsets: Vec::new(),
            col_indices: Vec::new(),
            cell_values: Vec::new(),
        }
    }

    /// An empty matrix of the given shape with a stale cache. The store
    /// is pre-sized to roughly a quarter of the cell count, a sparsity
    /// heuristic and not a limit.
    pub fn empty_with_shape(n: u64, m: u64) -> (res: SparseMatrix)
        ensures
            res.wf(),
            res.spec_rows() == n,
            res.spec_cols() == m,
            res@ == Map::<(u64, u64), u64>::empty(),
            !res.spec_fresh(),
    {
        let quarter: u64 = if m == 0 {
            0
        } else if n <= u64::MAX / m {
            assert((n * m) as int <= u64::MAX as int) by (nonlinear_arith)
                requires n <= u64::MAX / m && m > 0;
            n * m / 4
        } else {
            u64::MAX / 4
        };
        let capacity: usize = if quarter <= usize::MAX as u64 {
            quarter as usize
        } else {
            usize::MAX
        };
        SparseMatrix {
            shape: (n, m),
            entries: Vec::with_capacity(capacity),
            fresh: false,
            row_offsets: Vec::new(),
            col_indices: Vec::new(),
            cell_values: Vec::new(),
        }
    }

    /// The shape as a `(rows, cols)` pair.
    pub fn shape(&self) -> (s: (u64, u64))
        ensures
            s == (self.spec_rows(), self.spec_cols()),
    {
        self.shape
    }

    /// Whether the compressed-row cache reflects the store.
    pub fn is_fresh(&self) -> (b: bool)
        ensures
            b == self.spec_fresh(),
    {
        self.fresh
    }

    /// The count of stored cells, independent of the cache.
    pub fn num_nonzero(&self) -> (n: u64)
        requires
            self.wf(),
        ensures
            n as int == self@.dom().len(),
    {
        proof {
            lemma_map_of_len(self.entries@);
        }
        self.entries.len() as u64
    }

    /// Stores a word at an in-bounds coordinate, overwriting any cell
    /// already there, and marks the cache stale.
    pub(crate) fn set_entry(&mut self, row: u64, col: u64, word: u64)
        requires
            old(self).wf(),
            row < old(self).spec_rows(),
            col < old(self).spec_cols(),
        ensures
            final(self).wf(),
            final(self).spec_rows() == old(self).spec_rows(),
            final(self).spec_cols() == old(self).spec_cols(),
            final(self)@ == old(self)@.insert((row, col), word),
            !final(self).spec_fresh(),
    {
        self.fresh = false;
        let ghost s0 = self.entries@;
        let mut i: usize = 0;
        while i < self.entries.len()
            invariant
                0 <= i <= self.entries.len(),
                self.entries@ == s0,
                s0 == old(self).entries@,
                self.shape == old(self).shape,
                self.fresh == false,
                unique_keys(s0),
                entries_in_bounds(s0, self.shape.0, self.shape.1),
                row < self.shape.0,
                col < self.shape.1,
                forall|j: int| 0 <= j < i ==> entry_key(s0[j]) != (row, col),
            decreases self.entries.len() - i,
        {
            let e = self.entries[i];
            if e.0 == row && e.1 == col {
                self.entries.set(i, (row, col, word));
                proof {
                    assert(entry_key(s0[i as int]) == (row, col));
                    lemma_map_of_update(s0, i as int, (row, col, word));
                    assert(entries_in_bounds(self.entries@, self.shape.0, self.shape.1)) by {
                        assert(forall|a: int|
                            0 <= a < s0.len() && a != i ==> self.entries@[a] == s0[a]);
                    }
                }
                return;
            }
            i += 1;
        }
        self.entries.push((row, col, word));
        proof {
            lemma_map_of_push(s0, (row, col, word));
            assert(unique_keys(self.entries@)) by {
                assert(forall|j: int|
                    0 <= j < s0.len() ==> self.entries@[j] == s0[j]);
                assert(entry_key(self.entries@[s0.len() as int]) == (row, col));
            }
        }
    }

    /// Stores a word at a coordinate. Refuses an out-of-range row or
    /// column (row checked first) and leaves the matrix untouched; on
    /// success overwrites any cell already there and marks the cache
    /// stale.
    pub fn insert(&mut self, row: u64, col: u64, word: u64) -> (result: Result<(), MatrixError>)
        requires
            old(self).wf(),
        ensures
            final(self).wf(),
            final(self).spec_rows() == old(self).spec_rows(),
            final(self).spec_cols() == old(self).spec_cols(),
            match result {
                Ok(()) => {
                    &&& row < old(self).spec_rows()
                    &&& col < old(self).spec_cols()
                    &&& final(self)@ == old(self)@.insert((row, col), word)
                    &&& !final(self).spec_fresh()
                },
                Err(e) => {
                    &&& (row >= old(self).spec_rows() || col >= old(self).spec_cols())
                    &&& *final(self) == *old(self)
                    &&& e == (if row >= old(self).spec_rows() {
                        MatrixError::RowOutOfBounds
                    } else {
                        MatrixError::ColOutOfBounds
                    })
                },
            },
    {
        if row >= self.shape.0 {
            return Err(MatrixError::RowOutOfBounds);
        }
        if col >= self.shape.1 {
            return Err(MatrixError::ColOutOfBounds);
        }
        self.set_entry(row, col, word);
        Ok(())
    }

    /// Looks up the word stored at a coordinate, `None` when the cell is
    /// absent. Refuses an out-of-range row or column; never mutates.
    pub fn peek_at(&self, row: u64, col: u64) -> (result: Result<Option<u64>, MatrixError>)
        requires
            self.wf(),
        ensures
            match result {
                Ok(found) => {
                    &&& row < self.spec_rows()
                    &&& col < self.spec_cols()
                    &&& match found {
                        Some(w) => self@.contains_pair((row, col), w),
                        None => !self@.dom().contains((row, col)),
                    }
                },
                Err(e) => {
                    &&& (row >= self.spec_rows() || col >= self.spec_cols())
                    &&& e == (if row >= self.spec_rows() {
                        MatrixError::RowOutOfBounds
                    } else {
                        MatrixError::ColOutOfBounds
                    })
                },
            },
    {
        if row >= self.shape.0 {
            return Err(MatrixError::RowOutOfBounds);
        }
        if col >= self.shape.1 {
            return Err(MatrixError::ColOutOfBounds);
        }
        let mut i: usize = 0;
        while i < self.entries.len()
            invariant
                self.wf(),
                row < self.spec_rows(),
                col < self.spec_cols(),
                0 <= i <= self.entries.len(),
                forall|j: int| 0 <= j < i ==> entry_key(self.entries@[j]) != (row, col),
            decreases self.entries.len() - i,
        {
            let e = self.entries[i];
            if e.0 == row && e.1 == col {
                proof {
                    assert(self.entries@[i as int] == (row, col, e.2));
                    lemma_map_of_contains_pair(self.entries@, (row, col), e.2);
                }
                return Ok(Some(e.2));
            }
            i += 1;
        }
        proof {
            lemma_map_of_contains_key(self.entries@, (row, col));
        }
        Ok(None)
    }

    /// Removes the cell at a coordinate, returning the word it held, or
    /// `None` when the cell was absent. Refuses an out-of-range row or
    /// column and leaves the matrix untouched; on success marks the
    /// cache stale whether or not a cell was removed.
    pub fn clear_at(&mut self, row: u64, col: u64) -> (result: Result<
        Option<u64>,
        MatrixError,
    >)
        requires
            old(self).wf(),
        ensures
            final(self).wf(),
            final(self).spec_rows() == old(self).spec_rows(),
            final(self).spec_cols() == old(self).spec_cols(),
            match result {
                Ok(removed) => {
                    &&& row < old(self).spec_rows()
                    &&& col < old(self).spec_cols()
                    &&& !final(self).spec_fresh()
                    &&& match removed {
                        Some(w) => {
                            &&& old(self)@.contains_pair((row, col), w)
                            &&& final(self)@ == old(self)@.remove((row, col))
                        },
                        None => {
                            &&& !old(self)@.dom().contains((row, col))
                            &&& final(self)@ == old(self)@
                        },
                    }
                },
                Err(e) => {
                    &&& (row >= old(self).spec_rows() || col >= old(self).spec_cols())
                    &&& *final(self) == *old(self)
                    &&& e == (if row >= old(self).spec_rows() {
                        MatrixError::RowOutOfBounds
                    } else {
                        MatrixError::ColOutOfBounds
                    })
                },
            },
    {
        if row >= self.shape.0 {
            return Err(MatrixError::RowOutOfBounds);
        }
        if col >= self.shape.1 {
            return Err(MatrixError::ColOutOfBounds);
        }
        self.fresh = false;
        let ghost s0 = self.entries@;
        let mut i: usize = 0;
        while i < self.entries.len()
            invariant
                0 <= i <= self.entries.len(),
                self.entries@ == s0,
                s0 == old(self).entries@,
                self.shape == old(self).shape,
                self.fresh == false,
                unique_keys(s0),
                entries_in_bounds(s0, self.shape.0, self.shape.1),
                forall|j: int| 0 <= j < i ==> entry_key(s0[j]) != (row, col),
            decreases self.entries.len() - i,
        {
            let e = self.entries[i];
            if e.0 == row && e.1 == col {
                self.entries.remove(i);
                proof {
                    assert(s0[i as int] == (row, col, e.2));
                    lemma_map_of_contains_pair(s0, (row, col), e.2);
                    lemma_map_of_remove(s0, i as int);
                    assert(entries_in_bounds(self.entries@, self.shape.0, self.shape.1)) by {
                        assert(forall|a: int|
                            0 <= a < i ==> self.entries@[a] == s0[a]);
                        assert(forall|a: int|
                            i <= a < self.entries@.len() ==> self.entries@[a] == s0[a + 1]);
                    }
                }
                return Ok(Some(e.2));
            }
            i += 1;
        }
        proof {
            lemma_map_of_contains_key(s0, (row, col));
        }
        Ok(None)
    }
}

impl SparseMatrix {
    /// The identity matrix of order `n`: shape `(n, n)` with the word
    /// for one stored at each diagonal cell.
    pub fn identity(n: u64) -> (m: SparseMatrix)
        ensures
            m.wf(),
            m.spec_rows() == n,
            m.spec_cols() == n,
            m@ == identity_map(n as int),
            !m.spec_fresh(),
    {
        let mut local = SparseMatrix::empty_with_shape(n, n);
        proof {
            assert(identity_map(0) == Map::<(u64, u64), u64>::empty());
        }
        let mut diag_idx: u64 = 0;
        while diag_idx < n
            invariant
                local.wf(),
                local.spec_rows() == n,
                local.spec_cols() == n,
                !local.spec_fresh(),
                0 <= diag_idx <= n,
                local@ == identity_map(diag_idx as int),
            decreases n - diag_idx,
        {
            local.set_entry(diag_idx, diag_idx, ONE_WORD);
            proof {
                assert(identity_map(diag_idx as int + 1) == identity_map(
                    diag_idx as int,
                ).insert((diag_idx, diag_idx), ONE_WORD));
            }
            diag_idx += 1;
        }
        local
    }

    /// Stores each triplet of the list in order, under the same bounds
    /// check as `insert`. The first out-of-range triplet stops the call
    /// with its error; the triplets before it stay applied. The cache is
    /// marked stale in every case.
    pub fn insert_triplets(&mut self, triplets: &Vec<Entry>) -> (result: Result<
        (),
        MatrixError,
    >)
        requires
            old(self).wf(),
        ensures
            final(self).wf(),
            final(self).spec_rows() == old(self).spec_rows(),
            final(self).spec_cols() == old(self).spec_cols(),
            !final(self).spec_fresh(),
            match result {
                Ok(()) => {
                    &&& entries_in_bounds(
                        triplets@,
                        old(self).spec_rows(),
                        old(self).spec_cols(),
                    )
                    &&& final(self)@ == apply_triplets(old(self)@, triplets@)
                },
                Err(e) => {
                    let j = first_oob(triplets@, old(self).spec_rows(), old(self).spec_cols());
                    &&& !entries_in_bounds(
                        triplets@,
                        old(self).spec_rows(),
                        old(self).spec_cols(),
                    )
                    &&& 0 <= j < triplets@.len()
                    &&& triplet_oob(triplets@[j], old(self).spec_rows(), old(self).spec_cols())
                    &&& final(self)@ == apply_triplets(old(self)@, triplets@.take(j))
                    &&& e == (if triplets@[j].0 >= old(self).spec_rows() {
                        MatrixError::RowOutOfBounds
                    } else {
                        MatrixError::ColOutOfBounds
                    })
                },
            },
    {
        self.fresh = false;
        let mut j: usize = 0;
        while j < triplets.len()
            invariant
                self.wf(),
                self.shape == old(self).shape,
                self.fresh == false,
                0 <= j <= triplets@.len(),
                forall|i: int|
                    0 <= i < j ==> !triplet_oob(triplets@[i], self.shape.0, self.shape.1),
                self@ == apply_triplets(old(self)@, triplets@.take(j as int)),
            decreases triplets@.len() - j,
        {
            let t = triplets[j];
            if t.0 >= self.shape.0 {
                proof {
                    lemma_first_oob(triplets@, self.shape.0, self.shape.1, j as int);
                    assert(!entries_in_bounds(triplets@, self.shape.0, self.shape.1));
                }
                return Err(MatrixError::RowOutOfBounds);
            }
            if t.1 >= self.shape.1 {
                proof {
                    lemma_first_oob(triplets@, self.shape.0, self.shape.1, j as int);
                    assert(!entries_in_bounds(triplets@, self.shape.0, self.shape.1));
                }
                return Err(MatrixError::ColOutOfBounds);
            }
            self.set_entry(t.0, t.1, t.2);
            proof {
                assert(triplets@.take(j as int + 1) =~= triplets@.take(j as int).push(
                    triplets@[j as int],
                ));
                lemma_apply_triplets_push(old(self)@, triplets@.take(j as int), triplets@[j as int]);
            }
            j += 1;
        }
        proof {
            assert(triplets@.take(triplets@.len() as int) =~= triplets@);
        }
        Ok(())
    }

    /// A new matrix of the swapped shape where every stored cell
    /// `(r, c)` of this one appears at `(c, r)`; this matrix is left
    /// untouched.
    pub fn create_transpose(&self) -> (t: SparseMatrix)
        requires
            self.wf(),
        ensures
            t.wf(),
            t.spec_rows() == self.spec_cols(),
            t.spec_cols() == self.spec_rows(),
            t@ == transpose_map(self@),
            !t.spec_fresh(),
    {
        let mut local = SparseMatrix::empty_with_shape(self.shape.1, self.shape.0);
        proof {
            lemma_transpose_empty();
            assert(map_of(self.entries@.take(0)) == Map::<(u64, u64), u64>::empty());
        }
        let mut i: usize = 0;
        while i < self.entries.len()
            invariant
                self.wf(),
                local.wf(),
                local.spec_rows() == self.spec_cols(),
                local.spec_cols() == self.spec_rows(),
                !local.spec_fresh(),
                0 <= i <= self.entries@.len(),
                local@ == transpose_map(map_of(self.entries@.take(i as int))),
            decreases self.entries@.len() - i,
        {
            let e = self.entries[i];
            local.set_entry(e.1, e.0, e.2);
            proof {
                assert(self.entries@.take(i as int + 1) =~= self.entries@.take(i as int).push(e));
                lemma_map_of_push(self.entries@.take(i as int), e);
                lemma_transpose_insert(map_of(self.entries@.take(i as int)), entry_key(e), e.2);
            }
            i += 1;
        }
        proof {
            assert(self.entries@.take(self.entries@.len() as int) =~= self.entries@);
        }
        local
    }

    /// Finds the smallest stored column at or after `lower` within row
    /// `r`, together with its word; `None` when the row holds no such
    /// cell.
    fn find_next_in_row(&self, r: u64, lower: u64) -> (best: Option<(u64, u64)>)
        requires
            unique_keys(self.entries@),
            entries_in_bounds(self.entries@, self.spec_rows(), self.spec_cols()),
        ensures
            match best {
                None => forall|key: (u64, u64)|
                    #[trigger] map_of(self.entries@).dom().contains(key) && key.0 == r
                        ==> key.1 < lower,
                Some(cw) => {
                    &&& lower <= cw.0 < self.spec_cols()
                    &&& map_of(self.entries@).contains_pair((r, cw.0), cw.1)
                    &&& forall|key: (u64, u64)|
                        #[trigger] map_of(self.entries@).dom().contains(key) && key.0 == r
                            && key.1 >= lower ==> cw.0 <= key.1
                },
            },
    {
        let mut best: Option<(u64, u64)> = None;
        let mut i: usize = 0;
        while i < self.entries.len()
            invariant
                unique_keys(self.entries@),
                entries_in_bounds(self.entries@, self.spec_rows(), self.spec_cols()),
                0 <= i <= self.entries@.len(),
                match best {
                    None => forall|a: int|
                        0 <= a < i ==> !((#[trigger] self.entries@[a]).0 == r
                            && self.entries@[a].1 >= lower),
                    Some(cw) => {
                        &&& lower <= cw.0
                        &&& exists|a: int|
                            0 <= a < self.entries@.len() && self.entries@[a] == (r, cw.0, cw.1)
                        &&& forall|a: int|
                            0 <= a < i && (#[trigger] self.entries@[a]).0 == r
                                && self.entries@[a].1 >= lower ==> cw.0 <= self.entries@[a].1
                    },
                },
            decreases self.entries@.len() - i,
        {
            let e = self.entries[i];
            if e.0 == r && e.1 >= lower {
                best = match best {
                    None => Some((e.1, e.2)),
                    Some(cw) => if e.1 < cw.0 {
                        Some((e.1, e.2))
                    } else {
                        Some(cw)
                    },
                };
                proof {
                    assert(self.entries@[i as int] == e);
                }
            }
            i += 1;
        }
        proof {
            match best {
                None => {
                    assert forall|key: (u64, u64)|
                        #[trigger] map_of(self.entries@).dom().contains(key) && key.0 == r
                            implies key.1 < lower by {
                        lemma_map_of_contains_key(self.entries@, key);
                        let a = choose|a: int|
                            0 <= a < self.entries@.len() && entry_key(self.entries@[a]) == key;
                        assert(!(self.entries@[a].0 == r && self.entries@[a].1 >= lower));
                    };
                },
                Some(cw) => {
                    let a = choose|a: int|
                        0 <= a < self.entries@.len() && self.entries@[a] == (r, cw.0, cw.1);
                    assert(self.entries@[a].1 < self.spec_cols());
                    lemma_map_of_contains_pair(self.entries@, (r, cw.0), cw.1);
                    assert forall|key: (u64, u64)|
                        #[trigger] map_of(self.entries@).dom().contains(key) && key.0 == r
                            && key.1 >= lower implies cw.0 <= key.1 by {
                        lemma_map_of_contains_key(self.entries@, key);
                        let a2 = choose|a2: int|
                            0 <= a2 < self.entries@.len() && entry_key(self.entries@[a2]) == key;
                        assert(self.entries@[a2].0 == r && self.entries@[a2].1 >= lower);
                    };
                },
            }
        }
        best
    }

    /// Recomputes the compressed-row arrays from the store and marks
    /// the cache fresh. Rows are emitted in order; within each row the
    /// stored cells are emitted by ascending column, found by repeated
    /// selection of the smallest admissible column.
    #[verifier::rlimit(100)]
    pub fn rebuild_compressed(&mut self)
        requires
            old(self).wf(),
        ensures
            final(self).wf(),
            final(self).spec_rows() == old(self).spec_rows(),
            final(self).spec_cols() == old(self).spec_cols(),
            final(self)@ == old(self)@,
            final(self).spec_fresh(),
            csr_valid(
                final(self).spec_rows() as int,
                final(self).spec_row_offsets(),
                final(self).spec_col_indices(),
                final(self).spec_cell_values(),
                final(self)@,
            ),
    {
        self.fresh = false;
        self.row_offsets.clear();
        self.col_indices.clear();
        self.cell_values.clear();
        self.row_offsets.push(0);
        let ghost m = map_of(self.entries@);
        let mut r: u64 = 0;
        while r < self.shape.0
            invariant
                self.entries@ == old(self).entries@,
                self.shape == old(self).shape,
                self.fresh == false,
                unique_keys(self.entries@),
                entries_in_bounds(self.entries@, self.shape.0, self.shape.1),
                m == map_of(self.entries@),
                0 <= r <= self.shape.0,
                self.row_offsets@.len() == r as int + 1,
                self.row_offsets@[0] == 0,
                self.cell_values@.len() == self.col_indices@.len(),
                self.row_offsets@[r as int] as int == self.col_indices@.len(),
                forall|a: int|
                    0 <= a < r as int ==> #[trigger] self.row_offsets@[a] <= self.row_offsets@[a
                        + 1],
                forall|a: int|
                    0 <= a <= r as int ==> (#[trigger] self.row_offsets@[a]) as int
                        <= self.col_indices@.len(),
                forall|a: int, k: int|
                    #![trigger self.row_offsets@[a], self.col_indices@[k]]
                    0 <= a < r as int && self.row_offsets@[a] as int <= k < self.row_offsets@[a
                        + 1] as int ==> m.contains_pair(
                        ((a as u64), self.col_indices@[k]),
                        self.cell_values@[k],
                    ),
                forall|a: int, k1: int, k2: int|
                    #![trigger self.row_offsets@[a], self.col_indices@[k1], self.col_indices@[k2]]
                    0 <= a < r as int && self.row_offsets@[a] as int <= k1 < k2
                        < self.row_offsets@[a + 1] as int ==> self.col_indices@[k1]
                        < self.col_indices@[k2],
                forall|key: (u64, u64)|
                    #[trigger] m.dom().contains(key) && (key.0 as int) < r as int
                        ==> exists|kk: int|
                        self.row_offsets@[key.0 as int] as int <= kk < self.row_offsets@[key.0
                            as int + 1] as int && self.col_indices@[kk] == key.1,
            decreases self.shape.0 - r,
        {
            let ghost base = self.col_indices@.len() as int;
            let mut lower: u64 = 0;
            let mut more: bool = true;
            while more
                invariant
                    !more ==> (forall|key: (u64, u64)|
                        #[trigger] m.dom().contains(key) && key.0 == r ==> key.1 < lower),
                    self.entries@ == old(self).entries@,
                    self.shape == old(self).shape,
                    self.fresh == false,
                    unique_keys(self.entries@),
                    entries_in_bounds(self.entries@, self.shape.0, self.shape.1),
                    m == map_of(self.entries@),
                    0 <= r < self.shape.0,
                    lower <= self.shape.1,
                    self.row_offsets@.len() == r as int + 1,
                    self.row_offsets@[0] == 0,
                    self.row_offsets@[r as int] as int == base,
                    forall|a: int|
                        0 <= a < r as int ==> #[trigger] self.row_offsets@[a]
                            <= self.row_offsets@[a + 1],
                    forall|a: int|
                        0 <= a <= r as int ==> (#[trigger] self.row_offsets@[a]) as int
                            <= self.col_indices@.len(),
                    forall|a: int, k: int|
                        #![trigger self.row_offsets@[a], self.col_indices@[k]]
                        0 <= a < r as int && self.row_offsets@[a] as int <= k < self.row_offsets@[a
                            + 1] as int ==> m.contains_pair(
                            ((a as u64), self.col_indices@[k]),
                            self.cell_values@[k],
                        ),
                    forall|a: int, k1: int, k2: int|
                        #![trigger self.row_offsets@[a], self.col_indices@[k1], self.col_indices@[k2]]
                        0 <= a < r as int && self.row_offsets@[a] as int <= k1 < k2
                            < self.row_offsets@[a + 1] as int ==> self.col_indices@[k1]
                            < self.col_indices@[k2],
                    forall|key: (u64, u64)|
                        #[trigger] m.dom().contains(key) && (key.0 as int) < r as int
                            ==> exists|kk: int|
                            self.row_offsets@[key.0 as int] as int <= kk < self.row_offsets@[key.0
                                as int + 1] as int && self.col_indices@[kk] == key.1,
                    self.cell_values@.len() == self.col_indices@.len(),
                    base <= self.col_indices@.len(),
                    forall|k: int|
                        base <= k < self.col_indices@.len() ==> m.contains_pair(
                            (r, #[trigger] self.col_indices@[k]),
                            self.cell_values@[k],
                        ),
                    forall|k: int|
                        base <= k < self.col_indices@.len() ==> #[trigger] self.col_indices@[k]
                            < lower,
                    forall|k1: int, k2: int|
                        #![trigger self.col_indices@[k1], self.col_indices@[k2]]
                        base <= k1 < k2 < self.col_indices@.len() ==> self.col_indices@[k1]
                            < self.col_indices@[k2],
                    forall|key: (u64, u64)|
                        #[trigger] m.dom().contains(key) && key.0 == r && key.1 < lower
                            ==> exists|kk: int|
                            base <= kk < self.col_indices@.len() && self.col_indices@[kk] == key.1,
                decreases self.shape.1 - lower, (if more { 1int } else { 0int }),
            {
                let best = self.find_next_in_row(r, lower);
                match best {
                    None => {
                        more = false;
                    },
                    Some(cw) => {
                        let (c, w) = cw;
                        let ghost cols0 = self.col_indices@;
                        let ghost vals0 = self.cell_values@;
                        self.col_indices.push(c);
                        self.cell_values.push(w);
                        proof {
                            assert(forall|k: int|
                                0 <= k < cols0.len() ==> #[trigger] self.col_indices@[k]
                                    == cols0[k]);
                            assert(forall|k: int|
                                0 <= k < vals0.len() ==> #[trigger] self.cell_values@[k]
                                    == vals0[k]);
                            assert(self.col_indices@[cols0.len() as int] == c);
                            assert forall|key: (u64, u64)|
                                #[trigger] m.dom().contains(key) && key.0 == r && key.1 < c + 1
                                    implies exists|kk: int|
                                base <= kk < self.col_indices@.len() && self.col_indices@[kk]
                                    == key.1 by {
                                if key.1 < lower {
                                    let kk = choose|kk: int|
                                        base <= kk < cols0.len() && cols0[kk] == key.1;
                                    assert(self.col_indices@[kk] == key.1);
                                } else {
                                    assert(c <= key.1);
                                    assert(key.1 == c);
                                    assert(self.col_indices@[cols0.len() as int] == key.1);
                                }
                            };
                            // The rows already emitted keep their slices: a push
                            // only appends.
                            assert forall|a: int, k: int|
                                #![trigger self.row_offsets@[a], self.col_indices@[k]]
                                0 <= a < r as int && self.row_offsets@[a] as int <= k
                                    < self.row_offsets@[a + 1] as int implies m.contains_pair(
                                ((a as u64), self.col_indices@[k]),
                                self.cell_values@[k],
                            ) by {
                                assert(self.row_offsets@[a + 1] as int <= cols0.len());
                                assert(self.col_indices@[k] == cols0[k]);
                                assert(self.cell_values@[k] == vals0[k]);
                            };
                            assert forall|a: int, k1: int, k2: int|
                                #![trigger self.row_offsets@[a], self.col_indices@[k1], self.col_indices@[k2]]
                                0 <= a < r as int && self.row_offsets@[a] as int <= k1 < k2
                                    < self.row_offsets@[a + 1] as int implies self.col_indices@[k1]
                                < self.col_indices@[k2] by {
                                assert(self.row_offsets@[a + 1] as int <= cols0.len());
                                assert(self.col_indices@[k1] == cols0[k1]);
                                assert(self.col_indices@[k2] == cols0[k2]);
                            };
                            assert forall|key: (u64, u64)|
                                #[trigger] m.dom().contains(key) && (key.0 as int) < r as int
                                    implies exists|kk: int|
                                self.row_offsets@[key.0 as int] as int <= kk
                                    < self.row_offsets@[key.0 as int + 1] as int
                                    && self.col_indices@[kk] == key.1 by {
                                let kk = choose|kk: int|
                                    self.row_offsets@[key.0 as int] as int <= kk
                                        < self.row_offsets@[key.0 as int + 1] as int
                                        && cols0[kk] == key.1;
                                assert(self.row_offsets@[key.0 as int + 1] as int <= cols0.len());
                                assert(self.col_indices@[kk] == cols0[kk]);
                            };
                        }
                        lower = c + 1;
                    },
                }
            }
            let ghost offs0 = self.row_offsets@;
            self.row_offsets.push(self.col_indices.len() as u64);
            proof {
                assert(forall|a: int|
                    0 <= a < offs0.len() ==> #[trigger] self.row_offsets@[a] == offs0[a]);
                assert(self.row_offsets@[r as int + 1] as int == self.col_indices@.len());
                assert forall|a: int, k: int|
                    #![trigger self.row_offsets@[a], self.col_indices@[k]]
                    0 <= a < r as int + 1 && self.row_offsets@[a] as int <= k
                        < self.row_offsets@[a + 1] as int implies m.contains_pair(
                    ((a as u64), self.col_indices@[k]),
                    self.cell_values@[k],
                ) by {
                    assert(self.row_offsets@[a] == offs0[a]);
                    if a < r as int {
                        assert(self.row_offsets@[a + 1] == offs0[a + 1]);
                    } else {
                        assert(a as u64 == r);
                        assert(self.row_offsets@[a] as int == base);
                    }
                };
                assert forall|a: int, k1: int, k2: int|
                    #![trigger self.row_offsets@[a], self.col_indices@[k1], self.col_indices@[k2]]
                    0 <= a < r as int + 1 && self.row_offsets@[a] as int <= k1 < k2
                        < self.row_offsets@[a + 1] as int implies self.col_indices@[k1]
                    < self.col_indices@[k2] by {
                    assert(self.row_offsets@[a] == offs0[a]);
                    if a < r as int {
                        assert(self.row_offsets@[a + 1] == offs0[a + 1]);
                    } else {
                        assert(self.row_offsets@[a] as int == base);
                    }
                };
                assert forall|key: (u64, u64)|
                    #[trigger] m.dom().contains(key) && (key.0 as int) < r as int + 1
                        implies exists|kk: int|
                    self.row_offsets@[key.0 as int] as int <= kk < self.row_offsets@[key.0 as int
                        + 1] as int && self.col_indices@[kk] == key.1 by {
                    if (key.0 as int) < r as int {
                        let kk = choose|kk: int|
                            offs0[key.0 as int] as int <= kk < offs0[key.0 as int + 1] as int
                                && self.col_indices@[kk] == key.1;
                        assert(self.row_offsets@[key.0 as int] == offs0[key.0 as int]);
                        assert(self.row_offsets@[key.0 as int + 1] == offs0[key.0 as int + 1]);
                    } else {
                        assert(key.0 == r);
                        assert(key.1 < lower);
                        let kk = choose|kk: int|
                            base <= kk < self.col_indices@.len() && self.col_indices@[kk] == key.1;
                        assert(self.row_offsets@[key.0 as int] as int == base);
                    }
                };
            }
            r += 1;
        }
        self.fresh = true;
        proof {
            assert(csr_valid(
                self.shape.0 as int,
                self.row_offsets@,
                self.col_indices@,
                self.cell_values@,
                m,
            ));
        }
    }

    /// Element-wise addition with an explicit combining function, e.g.
    /// one that adds two words as the numbers they encode. Refuses a
    /// pair of differently shaped matrices; neither operand is mutated.
    ///
    /// The result starts as a copy of `self`; then, for every stored
    /// cell of `other`, the cell's word and the word already present
    /// (the zero word when absent) are handed to `combine` and the
    /// outcome stored. A cell stored only in `self` is kept unchanged —
    /// `combine` is never consulted for it.
    pub fn add_with<F: Fn(u64, u64) -> u64>(&self, other: &SparseMatrix, combine: F) -> (result:
        Result<SparseMatrix, MatrixError>)
        requires
            self.wf(),
            other.wf(),
            forall|a: u64, b: u64| #[trigger] call_requires(combine, (a, b)),
        ensures
            match result {
                Ok(sum) => {
                    &&& self.spec_rows() == other.spec_rows()
                    &&& self.spec_cols() == other.spec_cols()
                    &&& sum.wf()
                    &&& sum.spec_rows() == self.spec_rows()
                    &&& sum.spec_cols() == self.spec_cols()
                    &&& !sum.spec_fresh()
                    &&& sum@.dom() == self@.dom().union(other@.dom())
                    &&& forall|k: (u64, u64)| #[trigger] other@.dom().contains(k)
                        ==> call_ensures(
                            combine,
                            (
                                (if self@.dom().contains(k) {
                                    self@[k]
                                } else {
                                    0u64
                                }),
                                other@[k],
                            ),
                            sum@[k],
                        )
                    &&& forall|k: (u64, u64)|
                        #[trigger] self@.dom().contains(k) && !other@.dom().contains(k)
                            ==> sum@[k] == self@[k]
                },
                Err(e) => {
                    &&& (self.spec_rows() != other.spec_rows() || self.spec_cols()
                        != other.spec_cols())
                    &&& e == MatrixError::ShapeMismatch
                },
            },
    {
        if self.shape.0 != other.shape.0 || self.shape.1 != other.shape.1 {
            return Err(MatrixError::ShapeMismatch);
        }
        let mut sum = SparseMatrix {
            shape: self.shape,
            entries: Vec::new(),
            fresh: false,
            row_offsets: Vec::new(),
            col_indices: Vec::new(),
            cell_values: Vec::new(),
        };
        let mut i: usize = 0;
        while i < self.entries.len()
            invariant
                0 <= i <= self.entries@.len(),
                sum.shape == self.shape,
                sum.fresh == false,
                sum.entries@ == self.entries@.take(i as int),
            decreases self.entries@.len() - i,
        {
            let e = self.entries[i];
            sum.entries.push(e);
            proof {
                assert(self.entries@.take(i as int + 1) =~= self.entries@.take(i as int).push(
                    self.entries@[i as int],
                ));
            }
            i += 1;
        }
        proof {
            assert(sum.entries@ =~= self.entries@);
            assert(sum.wf());
        }
        let mut j: usize = 0;
        while j < other.entries.len()
            invariant
                self.wf(),
                other.wf(),
                forall|a: u64, b: u64| #[trigger] call_requires(combine, (a, b)),
                sum.shape == self.shape,
                other.shape == self.shape,
                sum.fresh == false,
                sum.wf(),
                0 <= j <= other.entries@.len(),
                sum@.dom() == self@.dom().union(
                    map_of(other.entries@.take(j as int)).dom(),
                ),
                forall|k: (u64, u64)|
                    #[trigger] map_of(other.entries@.take(j as int)).dom().contains(k)
                        ==> call_ensures(
                        combine,
                        (
                            (if self@.dom().contains(k) {
                                self@[k]
                            } else {
                                0u64
                            }),
                            other@[k],
                        ),
                        sum@[k],
                    ),
                forall|k: (u64, u64)|
                    #[trigger] self@.dom().contains(k) && !map_of(
                        other.entries@.take(j as int),
                    ).dom().contains(k) ==> sum@[k] == self@[k],
            decreases other.entries@.len() - j,
        {
            let e = other.entries[j];
            let ghost kj = entry_key(other.entries@[j as int]);
            let ghost prefix = other.entries@.take(j as int);
            proof {
                assert(e.0 < self.shape.0 && e.1 < self.shape.1);
                // The cell at hand is not among those already merged.
                lemma_map_of_contains_key(prefix, kj);
                if map_of(prefix).dom().contains(kj) {
                    let a = choose|a: int| 0 <= a < prefix.len() && entry_key(prefix[a]) == kj;
                    assert(entry_key(other.entries@[a]) == entry_key(other.entries@[j as int]));
                    assert(false);
                }
                lemma_map_of_contains_pair(other.entries@, kj, e.2);
                assert(other.entries@[j as int] == (kj.0, kj.1, e.2));
                assert(other@.contains_pair(kj, e.2));
            }
            let existing: u64 = match sum.peek_at(e.0, e.1) {
                Ok(Some(w)) => w,
                Ok(None) => 0,
                Err(_) => vstd::pervasive::unreached(),
            };
            proof {
                assert(existing == (if self@.dom().contains(kj) {
                    self@[kj]
                } else {
                    0u64
                }));
            }
            let w = combine(existing, e.2);
            sum.set_entry(e.0, e.1, w);
            proof {
                assert(other.entries@.take(j as int + 1) =~= prefix.push(
                    other.entries@[j as int],
                ));
                lemma_map_of_push(prefix, other.entries@[j as int]);
                assert(sum@.dom() =~= self@.dom().union(
                    map_of(other.entries@.take(j as int + 1)).dom(),
                ));
            }
            j += 1;
        }
        proof {
            assert(other.entries@.take(other.entries@.len() as int) =~= other.entries@);
        }
        Ok(sum)
    }

    /// Swaps the shape components and re-keys every stored cell from
    /// `(r, c)` to `(c, r)` in place; marks the cache stale.
    pub fn transpose_inplace(&mut self)
        requires
            old(self).wf(),
        ensures
            final(self).wf(),
            final(self).spec_rows() == old(self).spec_cols(),
            final(self).spec_cols() == old(self).spec_rows(),
            final(self)@ == transpose_map(old(self)@),
            !final(self).spec_fresh(),
    {
        self.shape = (self.shape.1, self.shape.0);
        self.fresh = false;
        let ghost s0 = self.entries@;
        let mut i: usize = 0;
        while i < self.entries.len()
            invariant
                s0 == old(self).entries@,
                self.entries@.len() == s0.len(),
                self.shape == (old(self).shape.1, old(self).shape.0),
                self.fresh == false,
                unique_keys(s0),
                entries_in_bounds(s0, old(self).shape.0, old(self).shape.1),
                0 <= i <= s0.len(),
                forall|a: int| 0 <= a < i ==> self.entries@[a] == (s0[a].1, s0[a].0, s0[a].2),
                forall|a: int| i <= a < s0.len() ==> self.entries@[a] == s0[a],
            decreases s0.len() - i,
        {
            let e = self.entries[i];
            self.entries.set(i, (e.1, e.0, e.2));
            i += 1;
        }
        proof {
            lemma_map_of_swapped(s0, self.entries@);
            assert(entries_in_bounds(self.entries@, self.shape.0, self.shape.1));
        }
    }
}

impl SparseMatrix {
    /// The cached row-offset array, read-only; meaningful only while
    /// the cache is fresh.
    pub fn row_offsets(&self) -> (r: &Vec<u64>)
        ensures
            r@ == self.spec_row_offsets(),
    {
        &self.row_offsets
    }

    /// The cached column-index array, read-only; meaningful only while
    /// the cache is fresh.
    pub fn col_indices(&self) -> (r: &Vec<u64>)
        ensures
            r@ == self.spec_col_indices(),
    {
        &self.col_indices
    }

    /// The cached value array, read-only; meaningful only while the
    /// cache is fresh.
    pub fn cell_values(&self) -> (r: &Vec<u64>)
        ensures
            r@ == self.spec_cell_values(),
    {
        &self.cell_values
    }

    /// The boxed textual rendering of a table of pre-rendered cell
    /// texts, one text per cell of this matrix: a top border, one line
    /// per row with the cells comma-separated, and a bottom border.
    /// Callers produce the cell texts themselves, e.g. a fixed-width
    /// decimal rendering of each word of a dense row.
    #[verifier::rlimit(50)]
    pub fn render(&self, cells: &Vec<Vec<String>>) -> (out: String)
        requires
            cells@.len() == self.spec_rows() as int,
            forall|i: int|
                0 <= i < cells@.len() ==> (#[trigger] cells@[i])@.len() == self.spec_cols() as int,
            self.spec_cols() <= u64::MAX / 8,
        ensures
            out@ == boxed_layout(cell_texts(cells@), 8 * self.spec_cols() as int),
    {
        let width: u64 = 8 * self.shape.1;
        let ghost table = cell_texts(cells@);
        let mut out = String::new();
        out.append("\t/");
        proof {
            reveal_strlit("\t/");
            assert(out@ =~= seq!['\t', '/'] + spaces(0));
        }
        let mut w: u64 = 0;
        while w < width
            invariant
                0 <= w <= width,
                out@ == seq!['\t', '/'] + spaces(w as int),
            decreases width - w,
        {
            out.append(" ");
            proof {
                reveal_strlit(" ");
                assert(spaces(w as int + 1) =~= spaces(w as int) + seq![' ']);
                assert(out@ =~= seq!['\t', '/'] + spaces(w as int + 1));
            }
            w += 1;
        }
        out.append("\\\n");
        let ghost top = seq!['\t', '/'] + spaces(width as int) + seq!['\\', '\n'];
        proof {
            reveal_strlit("\\\n");
            assert(out@ =~= top + rows_block(table.take(0)));
        }
        let mut i: usize = 0;
        while i < cells.len()
            invariant
                0 <= i <= cells@.len(),
                cells@.len() == self.spec_rows() as int,
                forall|a: int|
                    0 <= a < cells@.len() ==> (#[trigger] cells@[a])@.len() == self.spec_cols()
                        as int,
                width == 8 * self.spec_cols(),
                table == cell_texts(cells@),
                top == seq!['\t', '/'] + spaces(width as int) + seq!['\\', '\n'],
                out@ == top + rows_block(table.take(i as int)),
            decreases cells@.len() - i,
        {
            out.append("\t| ");
            let ghost rowpfx = top + rows_block(table.take(i as int)) + seq!['\t', '|', ' '];
            proof {
                reveal_strlit("\t| ");
                assert(out@ =~= rowpfx + comma_join(table[i as int].take(0)));
            }
            let mut j: usize = 0;
            while j < cells[i].len()
                invariant
                    0 <= i < cells@.len(),
                    0 <= j <= cells@[i as int]@.len(),
                    cells@.len() == self.spec_rows() as int,
                    forall|a: int|
                        0 <= a < cells@.len() ==> (#[trigger] cells@[a])@.len()
                            == self.spec_cols() as int,
                    table == cell_texts(cells@),
                    rowpfx == top + rows_block(table.take(i as int)) + seq!['\t', '|', ' '],
                    out@ == rowpfx + comma_join(table[i as int].take(j as int)),
                decreases cells@[i as int]@.len() - j,
            {
                if j != 0 {
                    out.append(", ");
                }
                out.append(cells[i][j].as_str());
                proof {
                    reveal_strlit(", ");
                    lemma_comma_join_step(table[i as int], j as int);
                    assert(table[i as int][j as int] == cells@[i as int]@[j as int]@);
                    assert(out@ =~= rowpfx + comma_join(table[i as int].take(j as int + 1)));
                }
                j += 1;
            }
            out.append(" |\n");
            proof {
                reveal_strlit(" |\n");
                assert(table[i as int].take(cells@[i as int]@.len() as int) =~= table[i as int]);
                lemma_rows_block_step(table, i as int);
                assert(out@ =~= top + rows_block(table.take(i as int + 1)));
            }
            i += 1;
        }
        let ghost mid = top + rows_block(table);
        proof {
            assert(table.take(table.len() as int) =~= table);
        }
        out.append("\t\\");
        proof {
            reveal_strlit("\t\\");
            assert(out@ =~= mid + seq!['\t', '\\'] + spaces(0));
        }
        let mut w2: u64 = 0;
        while w2 < width
            invariant
                0 <= w2 <= width,
                mid == top + rows_block(table),
                top == seq!['\t', '/'] + spaces(width as int) + seq!['\\', '\n'],
                out@ == mid + seq!['\t', '\\'] + spaces(w2 as int),
            decreases width - w2,
        {
            out.append(" ");
            proof {
                reveal_strlit(" ");
                assert(spaces(w2 as int + 1) =~= spaces(w2 as int) + seq![' ']);
                assert(out@ =~= mid + seq!['\t', '\\'] + spaces(w2 as int + 1));
            }
            w2 += 1;
        }
        out.append("/\n");
        proof {
            reveal_strlit("/\n");
            assert(out@ =~= boxed_layout(table, width as int));
        }
        out
    }
}

/// A restartable walk over the dense rows of a matrix, read from the
/// fresh compressed-row view: one vector of width `cols` per row, the
/// zero word standing in for absent cells.
pub struct RowIterator<'a> {
    pub(crate) matrix: &'a SparseMatrix,
    pub(crate) row_iter_idx: usize,
}

impl<'a> RowIterator<'a> {
    /// The matrix being walked.
    pub closed spec fn target(self) -> SparseMatrix {
        *self.matrix
    }

    /// How many rows have been produced so far.
    pub closed spec fn pos(self) -> int {
        self.row_iter_idx as int
    }

    /// Well-formedness: the matrix is well formed, its cache is fresh,
    /// and its row width is addressable.
    pub closed spec fn wf(self) -> bool {
        &&& self.matrix.wf()
        &&& self.matrix.spec_fresh()
        &&& self.matrix.spec_cols() <= usize::MAX as u64
    }

    /// Produces the next dense row, or `None` once every row has been
    /// produced.
    #[verifier::rlimit(50)]
    pub fn next(&mut self) -> (row: Option<Vec<u64>>)
        requires
            old(self).wf(),
        ensures
            final(self).wf(),
            final(self).target() == old(self).target(),
            match row {
                Some(v) => {
                    &&& old(self).pos() < old(self).target().spec_rows() as int
                    &&& final(self).pos() == old(self).pos() + 1
                    &&& v@ == dense_row(
                        old(self).target()@,
                        old(self).pos() as u64,
                        old(self).target().spec_cols() as nat,
                    )
                },
                None => {
                    &&& old(self).pos() >= old(self).target().spec_rows() as int
                    &&& *final(self) == *old(self)
                },
            },
    {
        let idx = self.row_iter_idx;
        let mat = self.matrix;
        let ghost m = map_of(mat.entries@);
        let ghost nrows = mat.shape.0 as int;
        if (idx as u64) < mat.shape.0 {
            proof {
                lemma_offsets_monotone(
                    nrows,
                    mat.row_offsets@,
                    mat.col_indices@,
                    mat.cell_values@,
                    m,
                    idx as int + 1,
                    nrows,
                );
                assert(mat.row_offsets@[idx as int] <= mat.row_offsets@[idx as int + 1]);
                assert(mat.row_offsets@[idx as int + 1] as int <= mat.col_indices@.len());
                assert(mat.row_offsets@.len() == nrows + 1);
                // The concrete lengths bound the ghost ones by the machine word.
                assert(mat.row_offsets.len() == mat.row_offsets@.len());
                assert(mat.col_indices.len() == mat.col_indices@.len());
                assert(idx as int + 1 < mat.row_offsets@.len());
            }
            let start = mat.row_offsets[idx] as usize;
            let end = mat.row_offsets[idx + 1] as usize;
            let width = mat.shape.1 as usize;
            proof {
                assert(start as int == mat.row_offsets@[idx as int] as int);
                assert(end as int == mat.row_offsets@[idx as int + 1] as int);
                assert(start <= end);
                assert(end <= mat.col_indices@.len());
            }
            let mut retvec: Vec<u64> = Vec::new();
            while retvec.len() < width
                invariant
                    retvec@.len() <= width as int,
                    forall|j: int| 0 <= j < retvec@.len() ==> retvec@[j] == 0u64,
                decreases width - retvec.len(),
            {
                retvec.push(0);
            }
            let mut k: usize = start;
            while k < end
                invariant
                    mat.wf(),
                    mat.spec_fresh(),
                    m == map_of(mat.entries@),
                    nrows == mat.shape.0 as int,
                    (idx as int) < nrows,
                    start as int == mat.row_offsets@[idx as int] as int,
                    end as int == mat.row_offsets@[idx as int + 1] as int,
                    end <= mat.col_indices@.len(),
                    width as int == mat.shape.1 as int,
                    start <= k <= end,
                    retvec@.len() == width as int,
                    forall|kk: int|
                        #![trigger mat.col_indices@[kk]]
                        start <= kk < k ==> retvec@[mat.col_indices@[kk] as int]
                            == mat.cell_values@[kk],
                    forall|cc: int|
                        (0 <= cc < width as int && forall|kk: int|
                            #![trigger mat.col_indices@[kk]]
                            start <= kk < k ==> (mat.col_indices@[kk] as int) != cc)
                            ==> #[trigger] retvec@[cc] == 0u64,
                decreases end - k,
            {
                proof {
                    assert(m.contains_pair(
                        ((idx as u64), mat.col_indices@[k as int]),
                        mat.cell_values@[k as int],
                    ));
                    lemma_map_keys_in_bounds(
                        mat.entries@,
                        mat.shape.0,
                        mat.shape.1,
                        ((idx as u64), mat.col_indices@[k as int]),
                    );
                }
                let c = mat.col_indices[k] as usize;
                retvec.set(c, mat.cell_values[k]);
                k += 1;
            }
            proof {
                lemma_scattered_row(
                    nrows,
                    mat.row_offsets@,
                    mat.col_indices@,
                    mat.cell_values@,
                    m,
                    idx as u64,
                    mat.shape.1 as nat,
                    retvec@,
                );
            }
            self.row_iter_idx = idx + 1;
            Some(retvec)
        } else {
            None
        }
    }
}

impl SparseMatrix {
    /// A fresh walk over the dense rows, starting at row zero. The
    /// compressed view must be fresh: rebuild first after mutating.
    pub fn row_iter(&self) -> (it: RowIterator<'_>)
        requires
            self.wf(),
            self.spec_fresh(),
            self.spec_cols() <= usize::MAX as u64,
        ensures
            it.wf(),
            it.pos() == 0,
            it.target() == *self,
    {
        RowIterator { matrix: self, row_iter_idx: 0 }
    }
}

} // verus!
