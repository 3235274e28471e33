use vstd::prelude::*;

verus! {

/// Where cell `(l, r)` of a row-major matrix with `cols` columns lies.
pub open spec fn cell_index(l: int, r: int, cols: int) -> int {
    l * cols + r
}

/// Distinct cells of a matrix lie at distinct places, all inside it.
pub proof fn lemma_cell_index(l: int, r: int, l2: int, r2: int, rows: int, cols: int)
    requires
        0 <= l < rows,
        0 <= r < cols,
        0 <= l2 < rows,
        0 <= r2 < cols,
    ensures
        0 <= cell_index(l, r, cols) < rows * cols,
        cell_index(l, r, cols) == cell_index(l2, r2, cols) ==> l == l2 && r == r2,
{
    assert(0 <= l * cols + r < rows * cols) by (nonlinear_arith)
        requires
            0 <= l < rows,
            0 <= r < cols,
    ;
    if l * cols + r == l2 * cols + r2 {
        if l < l2 {
            assert(l * cols + cols <= l2 * cols) by (nonlinear_arith)
                requires
                    l < l2,
                    0 <= cols,
            ;
        } else if l2 < l {
            assert(l2 * cols + cols <= l * cols) by (nonlinear_arith)
                requires
                    l2 < l,
                    0 <= cols,
            ;
        }
    }
}

/// The connection-cost matrix under construction: one cost for each pair of
/// a left context id (row) and a right context id (column).
pub struct MatrixBuilder {
    matrix: Vec<i16>,
    left_max: usize,
    right_max: usize,
}

impl MatrixBuilder {
    pub closed spec fn rows(&self) -> int {
        self.left_max as int
    }

    pub closed spec fn cols(&self) -> int {
        self.right_max as int
    }

    /// The cells in row-major order.
    pub closed spec fn cells(&self) -> Seq<i16> {
        self.matrix@
    }

    /// The cost of cell `(l, r)`.
    pub open spec fn cost(&self, l: int, r: int) -> i16 {
        self.cells()[cell_index(l, r, self.cols())]
    }

    pub open spec fn wf(&self) -> bool {
        self.cells().len() == self.rows() * self.cols()
    }

    /// A `left_max` by `right_max` matrix of zeros.
    pub fn new(left_max: usize, right_max: usize) -> (r: MatrixBuilder)
        requires
            left_max * right_max <= usize::MAX,
        ensures
            r.wf(),
            r.rows() == left_max,
            r.cols() == right_max,
            forall|i: int| 0 <= i < r.cells().len() ==> #[trigger] r.cells()[i] == 0,
    {
        MatrixBuilder { matrix: vec![0i16; left_max * right_max], left_max, right_max }
    }

    /// The cells in row-major order.
    pub fn get_matrix(&self) -> (r: &[i16])
        ensures
            r@ == self.cells(),
    {
        self.matrix.as_slice()
    }

    pub fn get_left_max(&self) -> (r: usize)
        ensures
            r == self.rows(),
    {
        self.left_max
    }

    pub fn get_right_max(&self) -> (r: usize)
        ensures
            r == self.cols(),
    {
        self.right_max
    }

    /// The cost of cell `(left_id, right_id)`.
    pub fn get(&self, left_id: usize, right_id: usize) -> (r: i16)
        requires
            self.wf(),
            left_id < self.rows(),
            right_id < self.cols(),
        ensures
            r == self.cost(left_id as int, right_id as int),
    {
        proof {
            lemma_cell_index(left_id as int, right_id as int, 0, 0, self.rows(), self.cols());
            assert(self.matrix.len() == self.matrix@.len());
            assert(0 <= left_id * self.right_max <= left_id * self.right_max + right_id) by (nonlinear_arith)
                requires
                    0 <= left_id,
                    0 <= self.right_max,
                    0 <= right_id,
            ;
        }
        self.matrix[left_id * self.right_max + right_id]
    }

    /// Sets the cost of cell `(left_id, right_id)`, leaving every other cell.
    pub fn set(&mut self, left_id: usize, right_id: usize, cost: i16)
        requires
            old(self).wf(),
            left_id < old(self).rows(),
            right_id < old(self).cols(),
        ensures
            final(self).wf(),
            final(self).rows() == old(self).rows(),
            final(self).cols() == old(self).cols(),
            final(self).cost(left_id as int, right_id as int) == cost,
            final(self).cells() == old(self).cells().update(
                cell_index(left_id as int, right_id as int, old(self).cols()),
                cost,
            ),
            forall|l: int, r: int|
                0 <= l < old(self).rows() && 0 <= r < old(self).cols() && (l != left_id || r != right_id)
                    ==> #[trigger] final(self).cost(l, r) == old(self).cost(l, r),
    {
        proof {
            lemma_cell_index(left_id as int, right_id as int, 0, 0, self.rows(), self.cols());
            assert(self.matrix.len() == self.matrix@.len());
            assert(0 <= left_id * self.right_max <= left_id * self.right_max + right_id) by (nonlinear_arith)
                requires
                    0 <= left_id,
                    0 <= self.right_max,
                    0 <= right_id,
            ;
        }
        let i = left_id * self.right_max + right_id;
        self.matrix.set(i, cost);
        proof {
            assert forall|l: int, r: int|
                0 <= l < old(self).rows() && 0 <= r < old(self).cols() && (l != left_id || r != right_id)
                    implies #[trigger] self.cost(l, r) == old(self).cost(l, r) by {
                lemma_cell_index(l, r, left_id as int, right_id as int, self.rows(), self.cols());
            }
        }
    }
}

} // verus!
