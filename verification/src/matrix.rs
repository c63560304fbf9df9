//! A dense table of numbers, stored row by row.

use vstd::prelude::*;

verus! {

/// A table of `rows` rows and `cols` columns.
#[derive(Debug)]
pub struct Matrix {
    pub data: Vec<usize>,
    pub rows: usize,
    pub cols: usize,
}

/// A cell inside a table of `cols` columns lies inside its storage.
pub proof fn lemma_cell_index(rows: int, cols: int, row: int, col: int)
    requires
        0 <= row < rows,
        0 <= col < cols,
    ensures
        0 <= row * cols + col < rows * cols,
{
    assert(0 <= row * cols + col < rows * cols) by (nonlinear_arith)
        requires
            0 <= row < rows,
            0 <= col < cols,
    ;
}

/// Two cells of a table of `cols` columns that share a place in its storage
/// are one cell.
pub proof fn lemma_cells_apart(cols: int, r: int, c: int, row: int, col: int)
    requires
        0 <= c < cols,
        0 <= col < cols,
        r * cols + c == row * cols + col,
    ensures
        r == row,
        c == col,
{
    assert(r == row) by (nonlinear_arith)
        requires
            0 <= c < cols,
            0 <= col < cols,
            r * cols + c == row * cols + col,
    {
        if r > row {
            assert(r * cols >= (row + 1) * cols);
        }
        if r < row {
            assert(row * cols >= (r + 1) * cols);
        }
    }
}

impl Matrix {
    /// The storage holds exactly the cells of the table.
    pub open spec fn wf(&self) -> bool {
        self.data.len() == self.rows * self.cols
    }

    /// The number in row `row` and column `col`.
    pub open spec fn at(&self, row: int, col: int) -> usize {
        self.data@[row * self.cols + col]
    }

    /// A table with `val` in every cell.
    pub fn new(rows: usize, cols: usize, val: usize) -> (m: Matrix)
        requires
            rows * cols <= usize::MAX,
        ensures
            m.wf(),
            m.rows == rows,
            m.cols == cols,
            m.data@ == Seq::new((rows * cols) as nat, |i: int| val),
            forall|r: int, c: int| 0 <= r < rows && 0 <= c < cols ==> #[trigger] m.at(r, c) == val,
    {
        let m = Matrix { data: vec![val; rows * cols], rows, cols };
        assert(m.data@ =~= Seq::new((rows * cols) as nat, |i: int| val));
        assert forall|r: int, c: int| 0 <= r < rows && 0 <= c < cols implies #[trigger] m.at(r, c)
            == val by {
            lemma_cell_index(rows as int, cols as int, r, c);
        }
        m
    }

    /// Writes `val` into one cell; every other cell keeps its number.
    pub fn set(&mut self, row: usize, col: usize, val: usize)
        requires
            old(self).wf(),
            row < old(self).rows,
            col < old(self).cols,
        ensures
            final(self).wf(),
            final(self).rows == old(self).rows,
            final(self).cols == old(self).cols,
            final(self).data@ == old(self).data@.update(row * old(self).cols + col, val),
            final(self).at(row as int, col as int) == val,
            forall|r: int, c: int|
                0 <= r < old(self).rows && 0 <= c < old(self).cols && !(r == row && c == col)
                    ==> #[trigger] final(self).at(r, c) == old(self).at(r, c),
    {
        proof {
            lemma_cell_index(self.rows as int, self.cols as int, row as int, col as int);
        }
        let index = row * self.cols + col;
        self.data.set(index, val);
        assert forall|r: int, c: int|
            0 <= r < old(self).rows && 0 <= c < old(self).cols && !(r == row && c
                == col) implies #[trigger] self.at(r, c) == old(self).at(r, c) by {
            lemma_cell_index(self.rows as int, self.cols as int, r, c);
            if r * self.cols + c == row * self.cols + col {
                lemma_cells_apart(self.cols as int, r, c, row as int, col as int);
            }
        }
    }

    /// Reads one cell.
    pub fn get(&self, row: usize, col: usize) -> (val: usize)
        requires
            self.wf(),
            row < self.rows,
            col < self.cols,
        ensures
            val == self.at(row as int, col as int),
    {
        proof {
            lemma_cell_index(self.rows as int, self.cols as int, row as int, col as int);
        }
        self.data[row * self.cols + col]
    }
}

} // verus!
