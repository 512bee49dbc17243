use vstd::prelude::*;

verus! {

/// A table of unsigned integers with a fixed number of rows and columns,
/// stored row by row in one vector.
pub struct DistanceMatrix {
    rows: usize,
    cols: usize,
    cells: Vec<usize>,
}

/// Every cell index of a `rows` x `cols` table stays inside its row-major storage.
proof fn lemma_cell_index(rows: int, cols: int, i: int, j: int)
    requires
        0 <= i < rows,
        0 <= j < cols,
    ensures
        0 <= i * cols + j < rows * cols,
{
    assert(0 <= i * cols) by (nonlinear_arith)
        requires
            0 <= i,
            0 <= cols,
    ;
    assert((i + 1) * cols <= rows * cols) by (nonlinear_arith)
        requires
            i + 1 <= rows,
            0 <= cols,
    ;
    assert((i + 1) * cols == i * cols + cols) by (nonlinear_arith);
}

impl DistanceMatrix {
    /// The storage holds exactly one value per cell.
    pub closed spec fn well_formed(&self) -> bool {
        self.cells@.len() == self.rows * self.cols
    }

    /// Number of rows.
    pub closed spec fn num_rows(&self) -> nat {
        self.rows as nat
    }

    /// Number of columns.
    pub closed spec fn num_cols(&self) -> nat {
        self.cols as nat
    }

    /// The value stored at row `i`, column `j`.
    pub closed spec fn at(&self, i: int, j: int) -> usize {
        self.cells@[i * self.cols + j]
    }

    /// A `rows` x `cols` table with every cell zero.
    pub fn new(rows: usize, cols: usize) -> (r: Self)
        requires
            rows * cols <= usize::MAX,
        ensures
            r.well_formed(),
            r.num_rows() == rows,
            r.num_cols() == cols,
            forall|i: int, j: int| 0 <= i < rows && 0 <= j < cols ==> #[trigger] r.at(i, j) == 0,
    {
        let size: usize = rows * cols;
        let mut cells: Vec<usize> = Vec::with_capacity(size);
        let mut k: usize = 0;
        while k < size
            invariant
                k <= size,
                cells@.len() == k,
                forall|x: int| 0 <= x < k ==> cells@[x] == 0,
            decreases size - k,
        {
            cells.push(0);
            k = k + 1;
        }
        let r = DistanceMatrix { rows, cols, cells };
        assert forall|i: int, j: int| 0 <= i < rows && 0 <= j < cols implies #[trigger] r.at(i, j)
            == 0 by {
            lemma_cell_index(rows as int, cols as int, i, j);
        }
        r
    }

    /// Number of rows.
    pub fn rows(&self) -> (r: usize)
        ensures
            r == self.num_rows(),
    {
        self.rows
    }

    /// Number of columns.
    pub fn cols(&self) -> (r: usize)
        ensures
            r == self.num_cols(),
    {
        self.cols
    }

    /// The value at row `i`, column `j`.
    pub fn get(&self, i: usize, j: usize) -> (r: usize)
        requires
            self.well_formed(),
            i < self.num_rows(),
            j < self.num_cols(),
        ensures
            r == self.at(i as int, j as int),
    {
        let _size: usize = self.cells.len();
        proof {
            lemma_cell_index(self.rows as int, self.cols as int, i as int, j as int);
        }
        self.cells[i * self.cols + j]
    }

    /// Stores `value` at row `i`, column `j`, leaving every other cell as it was.
    pub fn set(&mut self, i: usize, j: usize, value: usize)
        requires
            old(self).well_formed(),
            i < old(self).num_rows(),
            j < old(self).num_cols(),
        ensures
            final(self).well_formed(),
            final(self).num_rows() == old(self).num_rows(),
            final(self).num_cols() == old(self).num_cols(),
            final(self).at(i as int, j as int) == value,
            forall|a: int, b: int|
                0 <= a < old(self).num_rows() && 0 <= b < old(self).num_cols() && (a != i || b
                    != j) ==> #[trigger] final(self).at(a, b) == old(self).at(a, b),
    {
        let _size: usize = self.cells.len();
        proof {
            lemma_cell_index(self.rows as int, self.cols as int, i as int, j as int);
        }
        let k: usize = i * self.cols + j;
        self.cells.set(k, value);
        proof {
            assert forall|a: int, b: int|
                0 <= a < old(self).num_rows() && 0 <= b < old(self).num_cols() && (a != i || b
                    != j) implies #[trigger] self.at(a, b) == old(self).at(a, b) by {
                lemma_cell_index(self.rows as int, self.cols as int, a, b);
                lemma_distinct_cells(self.cols as int, i as int, j as int, a, b);
            }
        }
    }
}

/// Two distinct cells of a table have distinct positions in its storage.
proof fn lemma_distinct_cells(cols: int, i: int, j: int, a: int, b: int)
    requires
        0 <= i,
        0 <= a,
        0 <= j < cols,
        0 <= b < cols,
        a != i || b != j,
    ensures
        a * cols + b != i * cols + j,
{
    if a == i {
    } else if a < i {
        assert(a * cols + cols <= i * cols) by (nonlinear_arith)
            requires
                a + 1 <= i,
                0 <= cols,
        ;
    } else {
        assert(i * cols + cols <= a * cols) by (nonlinear_arith)
            requires
                i + 1 <= a,
                0 <= cols,
        ;
    }
}

} // verus!
