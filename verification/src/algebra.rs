pub use crate::nnls::{cpu_pgd_nnls, pgd_nnls};
use crate::numeric::{
    arithmetic_is_total, is_difference, is_greater, is_less, is_product, is_quotient, is_sum, Scalar,
};
use vstd::prelude::*;

verus! {

/// The mathematical content of a matrix: its shape and its cells, row after row.
pub struct Grid<T> {
    pub rows: nat,
    pub cols: nat,
    pub cells: Seq<T>,
}

impl<T> Grid<T> {
    /// There is exactly one cell for every pair of a row and a column.
    pub open spec fn well_formed(self) -> bool {
        self.cells.len() == self.rows * self.cols
    }

    /// The cell in row `i` and column `j`.
    pub open spec fn at(self, i: int, j: int) -> T {
        self.cells[i * self.cols + j]
    }

    /// Row `i`, from left to right.
    pub open spec fn row(self, i: int) -> Seq<T> {
        Seq::new(self.cols, |j: int| self.at(i, j))
    }

    /// Column `j`, from top to bottom.
    pub open spec fn col(self, j: int) -> Seq<T> {
        Seq::new(self.rows, |i: int| self.at(i, j))
    }
}

/// A `rows` by `cols` grid whose every cell is `value`.
pub open spec fn constant_grid<T>(rows: nat, cols: nat, value: T) -> Grid<T> {
    Grid { rows, cols, cells: Seq::new(rows * cols, |k: int| value) }
}

/// A dense matrix, stored row after row.
#[derive(Clone, Debug)]
pub struct Matrix<T> {
    pub data: Vec<T>,
    pub rows: usize,
    pub cols: usize,
}

impl<T> View for Matrix<T> {
    type V = Grid<T>;

    open spec fn view(&self) -> Grid<T> {
        Grid { rows: self.rows as nat, cols: self.cols as nat, cells: self.data@ }
    }
}

/// Why a matrix could not be formed.
#[derive(Clone, Copy, Debug, PartialEq, Eq, Structural)]
pub enum ShapeError {
    /// Row `row` holds `found` values where the first row holds `expected`.
    RaggedRows { row: usize, expected: usize, found: usize },
    /// `given` values were handed over for a shape that holds `capacity` cells (`None`
    /// where the shape holds more cells than can be counted).
    WrongLength { capacity: Option<usize>, given: usize },
}

/// The position of cell (`i`, `j`) in row-major storage lies inside row `i`.
pub proof fn lemma_cell_position(i: int, j: int, rows: int, cols: int)
    requires
        0 <= i < rows,
        0 <= j < cols,
    ensures
        0 <= i * cols <= i * cols + j < (i + 1) * cols <= rows * cols,
        (i + 1) * cols == i * cols + cols,
{
    assert(0 <= i * cols) by (nonlinear_arith)
        requires
            0 <= i,
            0 <= cols,
    ;
    assert((i + 1) * cols == i * cols + cols) by (nonlinear_arith);
    assert((i + 1) * cols <= rows * cols) by (nonlinear_arith)
        requires
            i + 1 <= rows,
            0 <= cols,
    ;
}

/// The rows of a nested vector as sequences.
pub open spec fn rows_of<T>(nested: Seq<Vec<T>>) -> Seq<Seq<T>> {
    Seq::new(nested.len(), |i: int| nested[i]@)
}

/// All the rows, one after the other, as one sequence.
pub open spec fn concat_rows<T>(rows: Seq<Seq<T>>) -> Seq<T>
    decreases rows.len(),
{
    if rows.len() == 0 {
        Seq::empty()
    } else {
        concat_rows(rows.drop_last()) + rows.last()
    }
}

/// Every row is as long as the first one.
pub open spec fn is_rectangular<T>(rows: Seq<Seq<T>>) -> bool {
    forall|i: int| 0 <= i < rows.len() ==> (#[trigger] rows[i]).len() == rows[0].len()
}

/// The first row whose length differs from that of row 0, if `row` is it.
pub open spec fn is_first_ragged_row<T>(rows: Seq<Seq<T>>, row: int) -> bool {
    &&& 0 < row < rows.len()
    &&& rows[row].len() != rows[0].len()
    &&& forall|i: int| 0 <= i < row ==> (#[trigger] rows[i]).len() == rows[0].len()
}

/// Rows of equal length, laid end to end, hold cell (`i`, `j`) at position `i * cols + j`.
pub proof fn lemma_concat_rows_rectangular<T>(rows: Seq<Seq<T>>, cols: nat)
    requires
        forall|i: int| 0 <= i < rows.len() ==> (#[trigger] rows[i]).len() == cols,
    ensures
        concat_rows(rows).len() == rows.len() * cols,
        forall|i: int, j: int|
            0 <= i < rows.len() && 0 <= j < cols ==> concat_rows(rows)[i * cols + j]
                == #[trigger] rows[i][j],
    decreases rows.len(),
{
    if rows.len() == 0 {
        assert(rows.len() * cols == 0) by (nonlinear_arith)
            requires
                rows.len() == 0,
        ;
    } else {
        let front = rows.drop_last();
        lemma_concat_rows_rectangular(front, cols);
        let n = front.len() as int;
        assert(rows.len() * cols == n * cols + cols) by (nonlinear_arith)
            requires
                rows.len() == n + 1,
        ;
        assert forall|i: int, j: int| 0 <= i < rows.len() && 0 <= j < cols implies concat_rows(
            rows,
        )[i * cols + j] == #[trigger] rows[i][j] by {
            lemma_cell_position(i, j, rows.len() as int, cols as int);
            if i < n {
                lemma_cell_position(i, j, n, cols as int);
                assert(front[i] == rows[i]);
                assert(concat_rows(front)[i * cols + j] == front[i][j]);
            } else {
                assert(i == n);
                assert(rows.last() == rows[i]);
            }
        }
    }
}

impl<T: Copy> Matrix<T> {
    /// The cells are as many as the shape says.
    pub open spec fn well_formed(&self) -> bool {
        self@.well_formed()
    }

    /// The shape: rows, then columns.
    pub fn dim(&self) -> (shape: (usize, usize))
        ensures
            shape.0 == self@.rows,
            shape.1 == self@.cols,
    {
        (self.rows, self.cols)
    }

    /// The cell in row `i` and column `j`.
    pub fn get(&self, i: usize, j: usize) -> (cell: Option<T>)
        requires
            self.well_formed(),
        ensures
            cell == if i < self@.rows && j < self@.cols {
                Some(self@.at(i as int, j as int))
            } else {
                None::<T>
            },
    {
        if i < self.rows && j < self.cols {
            proof {
                lemma_cell_position(i as int, j as int, self.rows as int, self.cols as int);
                assert(self.data.len() == self.rows * self.cols);
            }
            Some(self.data[i * self.cols + j])
        } else {
            None
        }
    }

    /// A matrix of the given shape over `data`, read row after row.
    pub fn from_shape_vec(rows: usize, cols: usize, data: Vec<T>) -> (made: Result<
        Matrix<T>,
        ShapeError,
    >)
        ensures
            data@.len() == rows * cols ==> made == Ok::<Matrix<T>, ShapeError>(
                Matrix { data, rows, cols },
            ),
            data@.len() != rows * cols ==> made == Err::<Matrix<T>, ShapeError>(
                ShapeError::WrongLength {
                    capacity: if rows * cols <= usize::MAX {
                        Some((rows * cols) as usize)
                    } else {
                        None
                    },
                    given: data.len(),
                },
            ),
    {
        match rows.checked_mul(cols) {
            Some(cells) => {
                if cells == data.len() {
                    Ok(Matrix { data, rows, cols })
                } else {
                    Err(ShapeError::WrongLength { capacity: Some(cells), given: data.len() })
                }
            },
            None => Err(ShapeError::WrongLength { capacity: None, given: data.len() }),
        }
    }

    /// A matrix of the given shape whose every cell is `value`.
    pub fn filled(rows: usize, cols: usize, value: T) -> (made: Matrix<T>)
        requires
            rows * cols <= usize::MAX,
        ensures
            made@ == constant_grid(rows as nat, cols as nat, value),
            made.well_formed(),
    {
        let total: usize = rows * cols;
        let mut data: Vec<T> = Vec::with_capacity(total);
        while data.len() < total
            invariant
                data@.len() <= total,
                forall|k: int| 0 <= k < data@.len() ==> data@[k] == value,
            decreases total - data.len(),
        {
            data.push(value);
        }
        let made = Matrix { data, rows, cols };
        assert(made@.cells =~= constant_grid(rows as nat, cols as nat, value).cells);
        made
    }

    /// The matrix with rows and columns exchanged.
    pub fn transpose(&self) -> (turned: Matrix<T>)
        requires
            self.well_formed(),
        ensures
            turned.well_formed(),
            turned@.rows == self@.cols,
            turned@.cols == self@.rows,
            forall|i: int, j: int|
                0 <= i < self@.rows && 0 <= j < self@.cols ==> #[trigger] turned@.at(j, i)
                    == self@.at(i, j),
    {
        let rows = self.rows;
        let cols = self.cols;
        let mut data: Vec<T> = Vec::with_capacity(self.data.len());
        let mut j: usize = 0;
        assert(cols * rows == rows * cols) by (nonlinear_arith);
        while j < cols
            invariant
                self.well_formed(),
                rows == self.rows,
                cols == self.cols,
                j <= cols,
                data@.len() == j * rows,
                forall|l: int, k: int|
                    0 <= l < j && 0 <= k < rows ==> data@[l * rows + k] == self@.at(k, l),
            decreases cols - j,
        {
            let mut i: usize = 0;
            while i < rows
                invariant
                    self.well_formed(),
                    rows == self.rows,
                    cols == self.cols,
                    j < cols,
                    i <= rows,
                    data@.len() == j * rows + i,
                    forall|l: int, k: int|
                        0 <= l < j && 0 <= k < rows ==> data@[l * rows + k] == self@.at(k, l),
                    forall|k: int| 0 <= k < i ==> data@[j * rows + k] == self@.at(k, j as int),
                decreases rows - i,
            {
                proof {
                    lemma_cell_position(i as int, j as int, rows as int, cols as int);
                    assert(self.data.len() == rows * cols);
                }
                let ghost before = data@;
                data.push(self.data[i * cols + j]);
                proof {
                    assert forall|l: int, k: int| 0 <= l < j && 0 <= k < rows implies data@[l
                        * rows + k] == self@.at(k, l) by {
                        lemma_cell_position(l, k, j as int, rows as int);
                        assert(before[l * rows + k] == self@.at(k, l));
                    }
                }
                i += 1;
            }
            proof {
                assert((j + 1) * rows == j * rows + rows) by (nonlinear_arith);
            }
            j += 1;
        }
        let turned = Matrix { data, rows: cols, cols: rows };
        assert(turned@.cells.len() == cols * rows);
        turned
    }
}

/// Lays the rows of `matrix_vec` out as a matrix with as many rows as the vector holds and as
/// many columns as its first row holds (none where there is no row).
///
/// Stored row after row, the matrix reads as the rows one after the other. Rows of unequal
/// length are refused, with the first row that differs from row 0.
pub fn matrix_from_vecs<T: Copy>(matrix_vec: Vec<Vec<T>>) -> (made: Result<Matrix<T>, ShapeError>)
    ensures
        is_rectangular(rows_of(matrix_vec@)) <==> made is Ok,
        made matches Ok(m) ==> {
            &&& m.well_formed()
            &&& m@.rows == matrix_vec@.len()
            &&& m@.cols == (if matrix_vec@.len() > 0 {
                matrix_vec@[0]@.len()
            } else {
                0
            })
            &&& m@.cells == concat_rows(rows_of(matrix_vec@))
            &&& forall|i: int, j: int|
                0 <= i < m@.rows && 0 <= j < m@.cols ==> #[trigger] m@.at(i, j)
                    == matrix_vec@[i]@[j]
        },
        made matches Err(e) ==> {
            &&& e matches ShapeError::RaggedRows { row, expected, found }
            &&& is_first_ragged_row(rows_of(matrix_vec@), row as int)
            &&& expected == matrix_vec@[0]@.len()
            &&& found == matrix_vec@[row as int]@.len()
        },
{
    let rows = matrix_vec.len();
    let cols = if rows > 0 {
        matrix_vec[0].len()
    } else {
        0
    };
    let ghost nested = rows_of(matrix_vec@);
    let mut data: Vec<T> = Vec::new();
    let mut i: usize = 0;
    while i < rows
        invariant
            i <= rows,
            rows == matrix_vec@.len(),
            nested == rows_of(matrix_vec@),
            rows > 0 ==> cols == matrix_vec@[0]@.len(),
            forall|k: int| 0 <= k < i ==> (#[trigger] nested[k]).len() == cols,
            data@ == concat_rows(nested.take(i as int)),
        decreases rows - i,
    {
        let row = &matrix_vec[i];
        if row.len() != cols {
            assert(nested[i as int].len() != nested[0].len());
            assert(!is_rectangular(nested));
            return Err(ShapeError::RaggedRows { row: i, expected: cols, found: row.len() });
        }
        let ghost before = data@;
        let mut j: usize = 0;
        while j < cols
            invariant
                j <= cols,
                cols == row@.len(),
                data@ == before + row@.take(j as int),
            decreases cols - j,
        {
            data.push(row[j]);
            assert(data@ =~= before + row@.take(j + 1));
            j += 1;
        }
        proof {
            assert(row@.take(cols as int) =~= row@);
            assert(nested.take(i + 1).drop_last() =~= nested.take(i as int));
            assert(nested.take(i + 1).last() == row@);
        }
        i += 1;
    }
    proof {
        assert(nested.take(rows as int) =~= nested);
        lemma_concat_rows_rectangular(nested, cols as nat);
    }
    let made = Matrix { data, rows, cols };
    proof {
        assert(is_rectangular(nested));
        assert(made@.cells.len() == rows * cols);
        assert forall|i: int, j: int| 0 <= i < made@.rows && 0 <= j < made@.cols implies #[trigger] made@.at(
            i,
            j,
        ) == matrix_vec@[i]@[j] by {
            assert(nested[i][j] == matrix_vec@[i]@[j]);
        }
    }
    Ok(made)
}


/// `m` is a value of the greatest of `cells`: the first cell, replaced in turn by every later
/// cell that tests greater than the greatest so far. An empty sequence has none.
pub open spec fn is_max_of<T: Scalar>(cells: Seq<T>, m: T) -> bool
    decreases cells.len(),
{
    if cells.len() == 0 {
        false
    } else if cells.len() == 1 {
        m == cells[0]
    } else {
        exists|so_far: T, greater: bool|
            {
                &&& is_max_of(cells.drop_last(), so_far)
                &&& #[trigger] is_greater(cells.last(), so_far, greater)
                &&& m == if greater {
                    cells.last()
                } else {
                    so_far
                }
            }
    }
}

/// `m` is a value of the least of `cells`: the first cell, replaced in turn by every later
/// cell that tests less than the least so far. An empty sequence has none.
pub open spec fn is_min_of<T: Scalar>(cells: Seq<T>, m: T) -> bool
    decreases cells.len(),
{
    if cells.len() == 0 {
        false
    } else if cells.len() == 1 {
        m == cells[0]
    } else {
        exists|so_far: T, less: bool|
            {
                &&& is_min_of(cells.drop_last(), so_far)
                &&& #[trigger] is_less(cells.last(), so_far, less)
                &&& m == if less {
                    cells.last()
                } else {
                    so_far
                }
            }
    }
}

/// The greatest cell of a matrix that has at least one.
pub fn max_cell<T: Scalar>(array: &Matrix<T>) -> (m: T)
    requires
        array@.cells.len() > 0,
    ensures
        is_max_of(array@.cells, m),
{
    let mut m = array.data[0];
    let mut k: usize = 1;
    let ghost cells = array@.cells;
    assert(cells.take(1).len() == 1);
    while k < array.data.len()
        invariant
            cells == array@.cells,
            1 <= k <= cells.len(),
            is_max_of(cells.take(k as int), m),
        decreases array.data.len() - k,
    {
        let cell = array.data[k];
        let greater = cell > m;
        let next = if greater {
            cell
        } else {
            m
        };
        proof {
            let longer = cells.take(k + 1);
            assert(longer.drop_last() =~= cells.take(k as int));
            assert(longer.last() == cell);
            assert(is_greater(longer.last(), m, greater));
        }
        m = next;
        k += 1;
    }
    assert(cells.take(k as int) =~= cells);
    m
}

/// The least cell of a matrix that has at least one.
pub fn min_cell<T: Scalar>(array: &Matrix<T>) -> (m: T)
    requires
        array@.cells.len() > 0,
    ensures
        is_min_of(array@.cells, m),
{
    let mut m = array.data[0];
    let mut k: usize = 1;
    let ghost cells = array@.cells;
    assert(cells.take(1).len() == 1);
    while k < array.data.len()
        invariant
            cells == array@.cells,
            1 <= k <= cells.len(),
            is_min_of(cells.take(k as int), m),
        decreases array.data.len() - k,
    {
        let cell = array.data[k];
        let less = cell < m;
        let next = if less {
            cell
        } else {
            m
        };
        proof {
            let longer = cells.take(k + 1);
            assert(longer.drop_last() =~= cells.take(k as int));
            assert(longer.last() == cell);
            assert(is_less(longer.last(), m, less));
        }
        m = next;
        k += 1;
    }
    assert(cells.take(k as int) =~= cells);
    m
}

/// Any value may be divided by one that tests greater than `zero`.
pub open spec fn can_divide_by_positive<T: Scalar>(zero: T) -> bool {
    forall|a: T, b: T| is_greater(b, zero, true) ==> call_requires(<T as core::ops::Div>::div, (a, b))
}

/// `after` is `before` with every cell divided by `m`.
pub open spec fn is_divided_by<T: Scalar>(before: Seq<T>, m: T, after: Seq<T>) -> bool {
    &&& after.len() == before.len()
    &&& forall|k: int| 0 <= k < before.len() ==> is_quotient(before[k], m, #[trigger] after[k])
}

/// `after` is what global normalisation makes of `before`: every cell divided by the
/// greatest cell where that one tests greater than `zero`, and `before` itself otherwise.
pub open spec fn is_normalized_to_global<T: Scalar>(before: Seq<T>, zero: T, after: Seq<T>) -> bool {
    if before.len() == 0 {
        after == before
    } else {
        exists|m: T, positive: bool|
            {
                &&& #[trigger] is_max_of(before, m)
                &&& #[trigger] is_greater(m, zero, positive)
                &&& if positive {
                    is_divided_by(before, m, after)
                } else {
                    after == before
                }
            }
    }
}

/// No greatest cell of `cells` can test greater than `zero`.
pub open spec fn max_is_not_positive<T: Scalar>(cells: Seq<T>, zero: T) -> bool {
    forall|m: T| is_max_of(cells, m) ==> !#[trigger] is_greater(m, zero, true)
}

/// Divides every cell by the greatest cell, where that one is greater than zero; leaves the
/// matrix as it is otherwise (and where it has no cell).
pub fn normalize_to_global<T: Scalar>(array: &mut Matrix<T>, zero: T)
    requires
        can_divide_by_positive(zero),
    ensures
        final(array).rows == old(array).rows,
        final(array).cols == old(array).cols,
        is_normalized_to_global(old(array)@.cells, zero, final(array)@.cells),
        max_is_not_positive(old(array)@.cells, zero) ==> final(array)@.cells == old(array)@.cells,
{
    if array.data.len() == 0 {
        return ;
    }
    let m = max_cell(array);
    let positive = m > zero;
    if positive {
        let total = array.data.len();
        let mut k: usize = 0;
        while k < total
            invariant
                can_divide_by_positive(zero),
                is_greater(m, zero, true),
                array.rows == old(array).rows,
                array.cols == old(array).cols,
                total == old(array).data@.len(),
                array.data@.len() == total,
                k <= total,
                forall|p: int| 0 <= p < k ==> is_quotient(old(array).data@[p], m, #[trigger] array.data@[p]),
                forall|p: int| k <= p < total ==> array.data@[p] == old(array).data@[p],
            decreases total - k,
        {
            let cell = array.data[k] / m;
            array.data.set(k, cell);
            k += 1;
        }
        assert(is_divided_by(old(array)@.cells, m, array@.cells));
        assert(is_max_of(old(array)@.cells, m) && is_greater(m, zero, positive));
    } else {
        assert(is_max_of(old(array)@.cells, m) && is_greater(m, zero, positive));
    }
}

/// `out` is a value of `two·(cell − lo) / range − one`.
pub open spec fn is_rescaled<T: Scalar>(cell: T, lo: T, range: T, one: T, two: T, out: T) -> bool {
    exists|above: T, doubled: T, share: T|
        {
            &&& #[trigger] is_difference(cell, lo, above)
            &&& #[trigger] is_product(two, above, doubled)
            &&& #[trigger] is_quotient(doubled, range, share)
            &&& is_difference(share, one, out)
        }
}

/// `after` is what rescaling to [−1, 1] makes of `before`: with `lo` the least and `hi` the
/// greatest cell, every cell becomes `2·(cell − lo)/(hi − lo) − 1` where `hi − lo` tests
/// greater than `zero`, and `zero` otherwise.
pub open spec fn is_normalized_to_minus_plus<T: Scalar>(before: Seq<T>, zero: T, one: T, after: Seq<T>) -> bool {
    &&& after.len() == before.len()
    &&& before.len() > 0 ==> exists|lo: T, hi: T, range: T, positive: bool, two: T|
        {
            &&& #[trigger] is_min_of(before, lo)
            &&& #[trigger] is_max_of(before, hi)
            &&& #[trigger] is_difference(hi, lo, range)
            &&& #[trigger] is_greater(range, zero, positive)
            &&& #[trigger] is_sum(one, one, two)
            &&& forall|k: int|
                0 <= k < before.len() ==> if positive {
                    is_rescaled(before[k], lo, range, one, two, #[trigger] after[k])
                } else {
                    after[k] == zero
                }
        }
}

/// Rescales the cells linearly so that the least becomes −1 and the greatest 1. Where all
/// cells are equal, every cell becomes zero.
pub fn normalize_to_minus_plus<T: Scalar>(array: &mut Matrix<T>, zero: T, one: T)
    requires
        arithmetic_is_total::<T>(),
    ensures
        final(array).rows == old(array).rows,
        final(array).cols == old(array).cols,
        is_normalized_to_minus_plus(old(array)@.cells, zero, one, final(array)@.cells),
{
    let total = array.data.len();
    if total == 0 {
        return ;
    }
    let lo = min_cell(array);
    let hi = max_cell(array);
    let range = hi - lo;
    let positive = range > zero;
    let two = one + one;
    let mut k: usize = 0;
    while k < total
        invariant
            arithmetic_is_total::<T>(),
            array.rows == old(array).rows,
            array.cols == old(array).cols,
            total == old(array).data@.len(),
            array.data@.len() == total,
            k <= total,
            forall|p: int|
                0 <= p < k ==> if positive {
                    is_rescaled(old(array).data@[p], lo, range, one, two, #[trigger] array.data@[p])
                } else {
                    array.data@[p] == zero
                },
            forall|p: int| k <= p < total ==> array.data@[p] == old(array).data@[p],
        decreases total - k,
    {
        if positive {
            let above = array.data[k] - lo;
            let doubled = two * above;
            let share = doubled / range;
            let cell = share - one;
            assert(is_difference(old(array).data@[k as int], lo, above) && is_product(two, above, doubled)
                && is_quotient(doubled, range, share));
            array.data.set(k, cell);
        } else {
            array.data.set(k, zero);
        }
        k += 1;
    }
    assert(is_min_of(old(array)@.cells, lo) && is_max_of(old(array)@.cells, hi) && is_difference(hi, lo, range)
        && is_greater(range, zero, positive) && is_sum(one, one, two));
}

/// `out` is `zero` where `cell` tests less than `epsilon`, and `cell` itself otherwise.
pub open spec fn is_thresholded_cell<T: Scalar>(cell: T, epsilon: T, zero: T, out: T) -> bool {
    exists|below: bool| #[trigger]
        is_less(cell, epsilon, below) && out == if below {
            zero
        } else {
            cell
        }
}

/// `after` is `before` with every cell that tests less than `epsilon` replaced by `zero`.
pub open spec fn is_thresholded<T: Scalar>(before: Seq<T>, epsilon: T, zero: T, after: Seq<T>) -> bool {
    &&& after.len() == before.len()
    &&& forall|k: int| 0 <= k < before.len() ==> is_thresholded_cell(before[k], epsilon, zero, #[trigger] after[k])
}

/// Sets every cell that is strictly below `epsilon` to zero, and leaves the others as they are.
pub fn apply_epsilon<T: Scalar>(array: &mut Matrix<T>, epsilon: T, zero: T)
    ensures
        final(array).rows == old(array).rows,
        final(array).cols == old(array).cols,
        is_thresholded(old(array)@.cells, epsilon, zero, final(array)@.cells),
        forall|k: int|
            0 <= k < old(array)@.cells.len() && !is_less(old(array)@.cells[k], epsilon, true)
                ==> #[trigger] final(array)@.cells[k] == old(array)@.cells[k],
        forall|k: int|
            0 <= k < old(array)@.cells.len() && !is_less(old(array)@.cells[k], epsilon, false)
                ==> #[trigger] final(array)@.cells[k] == zero,
{
    let total = array.data.len();
    let mut k: usize = 0;
    while k < total
        invariant
            array.rows == old(array).rows,
            array.cols == old(array).cols,
            total == old(array).data@.len(),
            array.data@.len() == total,
            k <= total,
            forall|p: int|
                0 <= p < k ==> is_thresholded_cell(old(array).data@[p], epsilon, zero, #[trigger] array.data@[p]),
            forall|p: int| k <= p < total ==> array.data@[p] == old(array).data@[p],
        decreases total - k,
    {
        let below = array.data[k] < epsilon;
        if below {
            array.data.set(k, zero);
        }
        assert(is_less(old(array).data@[k as int], epsilon, below));
        k += 1;
    }
}


/// `out` is a value of point `i` of the range: `a + count(i) · step`.
pub open spec fn is_range_point<T: Scalar, C: Fn(usize) -> T>(count: &C, a: T, step: T, i: usize, out: T) -> bool {
    exists|index: T, offset: T|
        {
            &&& #[trigger] count.ensures((i,), index)
            &&& #[trigger] is_product(index, step, offset)
            &&& is_sum(a, offset, out)
        }
}

/// `points` is a value of `r` points from `a` to `b`: with `step = (b − a) / count(r − 1)`,
/// point `i` is `a + count(i) · step`.
pub open spec fn is_interpolated_range<T: Scalar, C: Fn(usize) -> T>(
    count: &C,
    a: T,
    b: T,
    r: usize,
    points: Seq<T>,
) -> bool {
    &&& points.len() == r
    &&& exists|span: T, steps: T, step: T|
        {
            &&& #[trigger] is_difference(b, a, span)
            &&& #[trigger] count.ensures(((r - 1) as usize,), steps)
            &&& #[trigger] is_quotient(span, steps, step)
            &&& forall|i: int| 0 <= i < r ==> is_range_point(count, a, step, i as usize, #[trigger] points[i])
        }
}

/// `r` equally spaced points from `a` to `b`, both ends included.
pub fn interpolated_range<T: Scalar, C: Fn(usize) -> T>(a: T, b: T, r: usize, count: &C) -> (points: Vec<T>)
    requires
        r >= 2,
        arithmetic_is_total::<T>(),
        forall|n: usize| count.requires((n,)),
    ensures
        is_interpolated_range(count, a, b, r, points@),
{
    let span = b - a;
    let steps = count(r - 1);
    let step = span / steps;
    let mut points: Vec<T> = Vec::with_capacity(r);
    let mut i: usize = 0;
    while i < r
        invariant
            arithmetic_is_total::<T>(),
            forall|n: usize| count.requires((n,)),
            i <= r,
            points@.len() == i,
            forall|k: int| 0 <= k < i ==> is_range_point(count, a, step, k as usize, #[trigger] points@[k]),
        decreases r - i,
    {
        let index = count(i);
        let offset = index * step;
        let point = a + offset;
        assert(count.ensures((i,), index) && is_product(index, step, offset));
        points.push(point);
        i += 1;
    }
    assert(is_difference(b, a, span) && count.ensures(((r - 1) as usize,), steps) && is_quotient(span, steps, step));
    points
}

/// `scale` is a value of `ten` multiplied `decimals` times onto `one`.
pub open spec fn is_power<T: Scalar>(one: T, ten: T, decimals: nat, scale: T) -> bool
    decreases decimals,
{
    if decimals == 0 {
        scale == one
    } else {
        exists|lower: T| is_power(one, ten, (decimals - 1) as nat, lower) && #[trigger] is_product(lower, ten, scale)
    }
}

/// `out` is a value of `round(cell · scale) / scale`.
pub open spec fn is_rounded_cell<T: Scalar, R: Fn(T) -> T>(round: &R, cell: T, scale: T, out: T) -> bool {
    exists|scaled: T, whole: T|
        {
            &&& #[trigger] is_product(cell, scale, scaled)
            &&& #[trigger] round.ensures((scaled,), whole)
            &&& is_quotient(whole, scale, out)
        }
}

/// `after` is `before` with every cell rounded to `decimals` decimal places.
pub open spec fn is_rounded<T: Scalar, R: Fn(T) -> T>(
    round: &R,
    before: Seq<T>,
    decimals: nat,
    one: T,
    ten: T,
    after: Seq<T>,
) -> bool {
    &&& after.len() == before.len()
    &&& exists|scale: T| #[trigger]
        is_power(one, ten, decimals, scale) && forall|k: int|
            0 <= k < before.len() ==> is_rounded_cell(round, before[k], scale, #[trigger] after[k])
}

/// Rounds every cell to `decimals` decimal places: scales by ten to the power `decimals`,
/// rounds to a whole number with `round`, and scales back.
pub fn round_to<T: Scalar, R: Fn(T) -> T>(h: &mut Matrix<T>, decimals: usize, one: T, ten: T, round: &R)
    requires
        arithmetic_is_total::<T>(),
        forall|x: T| round.requires((x,)),
    ensures
        final(h).rows == old(h).rows,
        final(h).cols == old(h).cols,
        is_rounded(round, old(h)@.cells, decimals as nat, one, ten, final(h)@.cells),
{
    let mut scale = one;
    let mut d: usize = 0;
    while d < decimals
        invariant
            arithmetic_is_total::<T>(),
            d <= decimals,
            is_power(one, ten, d as nat, scale),
        decreases decimals - d,
    {
        let next = scale * ten;
        assert(is_product(scale, ten, next));
        assert(is_power(one, ten, (d + 1) as nat, next));
        scale = next;
        d += 1;
    }
    let total = h.data.len();
    let mut k: usize = 0;
    while k < total
        invariant
            arithmetic_is_total::<T>(),
            forall|x: T| round.requires((x,)),
            h.rows == old(h).rows,
            h.cols == old(h).cols,
            total == old(h).data@.len(),
            h.data@.len() == total,
            k <= total,
            forall|p: int| 0 <= p < k ==> is_rounded_cell(round, old(h).data@[p], scale, #[trigger] h.data@[p]),
            forall|p: int| k <= p < total ==> h.data@[p] == old(h).data@[p],
        decreases total - k,
    {
        let scaled = h.data[k] * scale;
        let whole = round(scaled);
        let cell = whole / scale;
        assert(is_product(old(h).data@[k as int], scale, scaled) && round.ensures((scaled,), whole));
        h.data.set(k, cell);
        k += 1;
    }
    assert(is_power(one, ten, decimals as nat, scale));
}

/// `after` is `before` with every cell raised to the power `gamma` by `power`.
pub open spec fn is_raised<T, P: Fn(T, T) -> T>(power: &P, before: Seq<T>, gamma: T, after: Seq<T>) -> bool {
    &&& after.len() == before.len()
    &&& forall|k: int| 0 <= k < before.len() ==> power.ensures((before[k], gamma), #[trigger] after[k])
}

/// Raises every cell to the power `gamma`.
pub fn dynamic_range<T: Copy, P: Fn(T, T) -> T>(array: &mut Matrix<T>, gamma: T, power: &P)
    requires
        forall|x: T, g: T| power.requires((x, g)),
    ensures
        final(array).rows == old(array).rows,
        final(array).cols == old(array).cols,
        is_raised(power, old(array)@.cells, gamma, final(array)@.cells),
{
    let total = array.data.len();
    let mut k: usize = 0;
    while k < total
        invariant
            forall|x: T, g: T| power.requires((x, g)),
            array.rows == old(array).rows,
            array.cols == old(array).cols,
            total == old(array).data@.len(),
            array.data@.len() == total,
            k <= total,
            forall|p: int| 0 <= p < k ==> power.ensures((old(array).data@[p], gamma), #[trigger] array.data@[p]),
            forall|p: int| k <= p < total ==> array.data@[p] == old(array).data@[p],
        decreases total - k,
    {
        let cell = power(array.data[k], gamma);
        array.data.set(k, cell);
        k += 1;
    }
}


/// Lays feature vectors out as the columns of a matrix: column `j` is `features[j]`.
/// Vectors of unequal length are refused.
pub fn columns_from_vecs<T: Copy>(features: Vec<Vec<T>>) -> (made: Result<Matrix<T>, ShapeError>)
    ensures
        is_rectangular(rows_of(features@)) <==> made is Ok,
        made matches Ok(m) ==> {
            &&& m.well_formed()
            &&& m@.cols == features@.len()
            &&& m@.rows == (if features@.len() > 0 {
                features@[0]@.len()
            } else {
                0
            })
            &&& forall|i: int, j: int|
                0 <= i < m@.rows && 0 <= j < m@.cols ==> #[trigger] m@.at(i, j) == features@[j]@[i]
        },
        made matches Err(e) ==> {
            &&& e matches ShapeError::RaggedRows { row, expected, found }
            &&& is_first_ragged_row(rows_of(features@), row as int)
            &&& expected == features@[0]@.len()
            &&& found == features@[row as int]@.len()
        },
{
    match matrix_from_vecs(features) {
        Ok(by_rows) => {
            let turned = by_rows.transpose();
            proof {
                assert forall|i: int, j: int| 0 <= i < turned@.rows && 0 <= j < turned@.cols implies #[trigger] turned@.at(
                    i,
                    j,
                ) == features@[j]@[i] by {
                    assert(by_rows@.at(j, i) == features@[j]@[i]);
                }
            }
            Ok(turned)
        },
        Err(e) => Err(e),
    }
}


/// `row` is the first of `features` that is not `length` long.
pub open spec fn is_first_of_other_length<T>(features: Seq<Vec<T>>, length: nat, row: int) -> bool {
    &&& 0 <= row < features.len()
    &&& features[row]@.len() != length
    &&& forall|i: int| 0 <= i < row ==> (#[trigger] features[i])@.len() == length
}

/// Lays feature vectors of `length` values out as the columns of a matrix of `length` rows:
/// column `j` is `features[j]`. Without any vector the matrix has `length` rows and no
/// column. A vector of another length is refused.
pub fn feature_matrix<T: Copy>(features: Vec<Vec<T>>, length: usize) -> (made: Result<Matrix<T>, ShapeError>)
    ensures
        made is Ok <==> forall|j: int| 0 <= j < features@.len() ==> (#[trigger] features@[j])@.len() == length,
        made matches Ok(m) ==> {
            &&& m.well_formed()
            &&& m@.rows == length
            &&& m@.cols == features@.len()
            &&& forall|i: int, j: int|
                0 <= i < m@.rows && 0 <= j < m@.cols ==> #[trigger] m@.at(i, j) == features@[j]@[i]
        },
        made matches Err(e) ==> {
            &&& e matches ShapeError::RaggedRows { row, expected, found }
            &&& is_first_of_other_length(features@, length as nat, row as int)
            &&& expected == length
            &&& found == features@[row as int]@.len()
        },
{
    let mut j: usize = 0;
    while j < features.len()
        invariant
            j <= features@.len(),
            forall|q: int| 0 <= q < j ==> (#[trigger] features@[q])@.len() == length,
        decreases features.len() - j,
    {
        if features[j].len() != length {
            return Err(ShapeError::RaggedRows { row: j, expected: length, found: features[j].len() });
        }
        j += 1;
    }
    if features.len() == 0 {
        let made = Matrix { data: Vec::new(), rows: length, cols: 0 };
        assert(length * 0 == 0) by (nonlinear_arith);
        return Ok(made);
    }
    proof {
        assert forall|i: int| 0 <= i < rows_of(features@).len() implies (#[trigger] rows_of(features@)[i]).len()
            == rows_of(features@)[0].len() by {
            assert(features@[i]@.len() == length);
            assert(features@[0]@.len() == length);
        }
    }
    columns_from_vecs(features)
}

} // verus!
