use vstd::prelude::*;

verus! {

/// A row-major grid of bytes: the scratch buffer a glyph is rasterized into
/// before it is uploaded to the atlas.
#[derive(Debug, Clone, PartialEq, Eq)]
pub struct ByteArray2d {
    inner_array: Vec<u8>,
    row: usize,
    col: usize,
}

impl ByteArray2d {
    pub closed spec fn rows(&self) -> nat {
        self.row as nat
    }

    pub closed spec fn cols(&self) -> nat {
        self.col as nat
    }

    /// The cells in row-major order.
    pub closed spec fn cells(&self) -> Seq<u8> {
        self.inner_array@
    }

    pub open spec fn wf(&self) -> bool {
        self.cells().len() == self.rows() * self.cols()
    }

    /// A `row` by `col` grid of zeros.
    pub fn zeros(row: usize, col: usize) -> (r: Self)
        requires
            row * col <= usize::MAX,
        ensures
            r.wf(),
            r.rows() == row,
            r.cols() == col,
            forall|i: int| 0 <= i < r.cells().len() ==> #[trigger] r.cells()[i] == 0,
    {
        let n = row * col;
        let mut inner_array: Vec<u8> = Vec::new();
        let mut i: usize = 0;
        while i < n
            invariant
                i <= n,
                inner_array@.len() == i,
                forall|j: int| 0 <= j < i ==> #[trigger] inner_array@[j] == 0,
            decreases n - i,
        {
            inner_array.push(0);
            i += 1;
        }
        ByteArray2d { inner_array, row, col }
    }

    /// The cells in row-major order.
    pub fn as_slice(&self) -> (r: &[u8])
        ensures
            r@ == self.cells(),
    {
        self.inner_array.as_slice()
    }

    pub open spec fn cell_index(&self, row: int, col: int) -> int {
        row * self.cols() + col
    }

    /// Position of cell `(row, col)` in the row-major cells.
    pub fn get_vec_index(&self, row: usize, col: usize) -> (r: usize)
        requires
            self.wf(),
            row < self.rows(),
            col < self.cols(),
        ensures
            r == self.cell_index(row as int, col as int),
            r < self.cells().len(),
    {
        let len = self.inner_array.len();
        proof {
            let (a, b, rr, cc) = (row as int, col as int, self.rows() as int, self.cols() as int);
            assert(0 <= a * cc && a * cc + b < rr * cc) by (nonlinear_arith)
                requires
                    0 <= a < rr,
                    0 <= b < cc,
            ;
        }
        row * self.col + col
    }

    /// The value of cell `(row, col)`.
    pub fn index(&self, row: usize, col: usize) -> (r: u8)
        requires
            self.wf(),
            row < self.rows(),
            col < self.cols(),
        ensures
            r == self.cells()[self.cell_index(row as int, col as int)],
    {
        let i = self.get_vec_index(row, col);
        self.inner_array[i]
    }

    /// Sets cell `(row, col)` to `value`.
    pub fn set(&mut self, row: usize, col: usize, value: u8)
        requires
            old(self).wf(),
            row < old(self).rows(),
            col < old(self).cols(),
        ensures
            final(self).wf(),
            final(self).rows() == old(self).rows(),
            final(self).cols() == old(self).cols(),
            final(self).cells() == old(self).cells().update(
                old(self).cell_index(row as int, col as int),
                value,
            ),
    {
        let i = self.get_vec_index(row, col);
        self.inner_array.set(i, value);
    }
}

} // verus!
