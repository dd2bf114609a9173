use vstd::prelude::*;

verus! {

/// Fixed-size two-dimensional storage: one contiguous block of `rows * cols`
/// copyable elements, addressed row-major, so that cell `(r, c)` lives at
/// linear offset `r * cols + c`. The shape is fixed at construction; every
/// access is checked against it.
pub struct Matrix<T> where T: Copy {
    data: Vec<T>,
    rows: usize,
    cols: usize,
}

impl<T: Copy> View for Matrix<T> {
    type V = Seq<T>;

    closed spec fn view(&self) -> Seq<T> {
        self.data@
    }
}

impl<T: Copy> Matrix<T> {
    /// Number of rows of the declared shape.
    pub closed spec fn spec_rows(self) -> int {
        self.rows as int
    }

    /// Number of columns of the declared shape.
    pub closed spec fn spec_cols(self) -> int {
        self.cols as int
    }

    /// The block holds exactly `rows * cols` elements, and that count fits
    /// the machine's address space.
    pub open spec fn wf(self) -> bool {
        &&& self@.len() == self.spec_rows() * self.spec_cols()
        &&& self.spec_rows() * self.spec_cols() <= usize::MAX
    }

    /// The element stored at cell `(row, col)`.
    pub open spec fn spec_get(self, row: int, col: int) -> T {
        self@[row * self.spec_cols() + col]
    }

    /// Number of rows of the declared shape.
    pub fn rows(&self) -> (r: usize)
        ensures
            r == self.spec_rows(),
    {
        self.rows
    }

    /// Number of columns of the declared shape.
    pub fn cols(&self) -> (c: usize)
        ensures
            c == self.spec_cols(),
    {
        self.cols
    }

    /// Allocates a matrix of shape `rows x cols` with every cell set to `value`.
    pub fn init(value: T, rows: usize, cols: usize) -> (m: Self)
        requires
            rows * cols <= usize::MAX,
        ensures
            m.wf(),
            m.spec_rows() == rows,
            m.spec_cols() == cols,
            forall|r: int, c: int|
                0 <= r < rows && 0 <= c < cols ==> #[trigger] m.spec_get(r, c) == value,
            forall|k: int| 0 <= k < m@.len() ==> m@[k] == value,
    {
        let total = rows * cols;
        let mut data: Vec<T> = Vec::new();
        for k in 0..total
            invariant
                data@.len() == k,
                forall|m: int| 0 <= m < k ==> data@[m] == value,
        {
            data.push(value);
        }
        let m = Matrix { data, rows, cols };
        proof {
            assert forall|r: int, c: int|
                0 <= r < rows && 0 <= c < cols implies #[trigger] m.spec_get(r, c) == value by {
                lemma_row_major_bound(rows as int, cols as int, r, c);
            }
        }
        m
    }

    /// Returns a copy of the element at `(row, col)`.
    pub fn get(&self, row: usize, col: usize) -> (v: T)
        requires
            self.wf(),
            row < self.spec_rows(),
            col < self.spec_cols(),
        ensures
            v == self.spec_get(row as int, col as int),
    {
        proof {
            lemma_row_major_bound(self.rows as int, self.cols as int, row as int, col as int);
        }
        let offset = row * self.cols + col;
        self.data[offset]
    }

    /// Yields a mutable borrow of the single cell at `(row, col)`, permitting
    /// an in-place update without reallocating the block; the borrow is
    /// exclusive for as long as it lives.
    pub fn get_mut(&mut self, row: usize, col: usize) -> (element: &mut T)
        requires
            old(self).wf(),
            row < old(self).spec_rows(),
            col < old(self).spec_cols(),
        ensures
            *element == old(self).spec_get(row as int, col as int),
            final(self)@ == old(self)@.update(
                row * old(self).spec_cols() + col,
                *final(element),
            ),
            final(self).spec_rows() == old(self).spec_rows(),
            final(self).spec_cols() == old(self).spec_cols(),
            final(self).wf(),
    {
        proof {
            lemma_row_major_bound(self.rows as int, self.cols as int, row as int, col as int);
        }
        let offset = row * self.cols + col;
        &mut self.data[offset]
    }

    /// Overwrites the element at `(row, col)`. Reading the same cell afterwards
    /// yields exactly the value written; every other cell is untouched.
    pub fn set(&mut self, row: usize, col: usize, value: T)
        requires
            old(self).wf(),
            row < old(self).spec_rows(),
            col < old(self).spec_cols(),
        ensures
            final(self).wf(),
            final(self).spec_rows() == old(self).spec_rows(),
            final(self).spec_cols() == old(self).spec_cols(),
            final(self)@ == old(self)@.update(row * old(self).spec_cols() + col, value),
            final(self).spec_get(row as int, col as int) == value,
            forall|r: int, c: int|
                0 <= r < old(self).spec_rows() && 0 <= c < old(self).spec_cols()
                    && (r != row || c != col)
                    ==> #[trigger] final(self).spec_get(r, c) == old(self).spec_get(r, c),
    {
        proof {
            lemma_row_major_bound(self.rows as int, self.cols as int, row as int, col as int);
        }
        let offset = row * self.cols + col;
        self.data[offset] = value;
        proof {
            assert forall|r: int, c: int|
                0 <= r < old(self).spec_rows() && 0 <= c < old(self).spec_cols()
                    && (r != row || c != col)
                    implies #[trigger] self.spec_get(r, c) == old(self).spec_get(r, c) by {
                lemma_row_major_bound(self.rows as int, self.cols as int, r, c);
                lemma_row_major_injective(
                    self.rows as int,
                    self.cols as int,
                    r,
                    c,
                    row as int,
                    col as int,
                );
            }
        }
    }

    /// Returns a read-only view of `number` consecutive elements starting at
    /// linear offset `row * cols + col`; the view may run across a row
    /// boundary into the next row.
    pub fn slice(&self, row: usize, col: usize, number: usize) -> (s: &[T])
        requires
            self.wf(),
            row <= self.spec_rows(),
            col <= self.spec_cols(),
            row * self.spec_cols() + col + number <= self.spec_rows() * self.spec_cols(),
        ensures
            s@ == self@.subrange(
                row * self.spec_cols() + col,
                row * self.spec_cols() + col + number,
            ),
    {
        proof {
            vstd::arithmetic::mul::lemma_mul_inequality(
                row as int,
                self.rows as int,
                self.cols as int,
            );
        }
        let offset = row * self.cols + col;
        vstd::slice::slice_subrange(self.data.as_slice(), offset, offset + number)
    }
}

/// A cell inside the declared shape lies inside the block.
pub proof fn lemma_row_major_bound(rows: int, cols: int, r: int, c: int)
    requires
        0 <= r < rows,
        0 <= c < cols,
    ensures
        0 <= r * cols + c < rows * cols,
{
    assert(0 <= r * cols + c < rows * cols) by (nonlinear_arith)
        requires
            0 <= r < rows,
            0 <= c < cols,
    ;
}

/// Distinct cells inside the declared shape map to distinct linear offsets.
pub proof fn lemma_row_major_injective(rows: int, cols: int, r1: int, c1: int, r2: int, c2: int)
    requires
        0 <= r1 < rows,
        0 <= c1 < cols,
        0 <= r2 < rows,
        0 <= c2 < cols,
        r1 != r2 || c1 != c2,
    ensures
        r1 * cols + c1 != r2 * cols + c2,
{
    assert(r1 * cols + c1 != r2 * cols + c2) by (nonlinear_arith)
        requires
            0 <= r1 < rows,
            0 <= c1 < cols,
            0 <= r2 < rows,
            0 <= c2 < cols,
            r1 != r2 || c1 != c2,
    ;
}

/// Law: writing a cell and then reading the same cell yields exactly the
/// value written.
pub proof fn lemma_set_then_get<T: Copy>(
    pre: Matrix<T>,
    post: Matrix<T>,
    row: int,
    col: int,
    value: T,
)
    requires
        pre.wf(),
        0 <= row < pre.spec_rows(),
        0 <= col < pre.spec_cols(),
        post.spec_rows() == pre.spec_rows(),
        post.spec_cols() == pre.spec_cols(),
        post@ == pre@.update(row * pre.spec_cols() + col, value),
    ensures
        post.spec_get(row, col) == value,
{
    lemma_row_major_bound(pre.spec_rows(), pre.spec_cols(), row, col);
}

} // verus!
