use crate::algebra::{constant_grid, lemma_cell_position, Grid, Matrix, ShapeError};
use crate::audio::copy_samples;
use crate::numeric::{
    arithmetic_is_deterministic, arithmetic_is_total, is_difference, is_greater, is_product, is_sum, Scalar,
};
use vstd::prelude::*;

verus! {

/// `out` is a value of the sum of the products `xs[k] * ys[k]`, added up from `k = 0`
/// upward, starting from `zero`.
pub open spec fn is_dot<T: Scalar>(xs: Seq<T>, ys: Seq<T>, zero: T, out: T) -> bool
    decreases xs.len(),
{
    if xs.len() == 0 {
        out == zero
    } else {
        exists|acc: T, term: T|
            {
                &&& is_dot(xs.drop_last(), ys.drop_last(), zero, acc)
                &&& #[trigger] is_product(xs.last(), ys.last(), term)
                &&& #[trigger] is_sum(acc, term, out)
            }
    }
}

/// One more product added to a running sum of products.
pub proof fn lemma_dot_extend<T: Scalar>(
    xs: Seq<T>,
    ys: Seq<T>,
    k: int,
    zero: T,
    acc: T,
    term: T,
    out: T,
)
    requires
        0 <= k < xs.len(),
        k < ys.len(),
        is_dot(xs.take(k), ys.take(k), zero, acc),
        is_product(xs[k], ys[k], term),
        is_sum(acc, term, out),
    ensures
        is_dot(xs.take(k + 1), ys.take(k + 1), zero, out),
{
    let longer_xs = xs.take(k + 1);
    let longer_ys = ys.take(k + 1);
    assert(longer_xs.drop_last() =~= xs.take(k));
    assert(longer_ys.drop_last() =~= ys.take(k));
    assert(is_dot(longer_xs.drop_last(), longer_ys.drop_last(), zero, acc));
    assert(is_product(longer_xs.last(), longer_ys.last(), term) && is_sum(acc, term, out));
}

/// `out` is a value of (row `i` of `w`) · (column `c` of `h`) − `v[i, c]`.
pub open spec fn is_residual_cell<T: Scalar>(
    w: Grid<T>,
    h: Grid<T>,
    v: Grid<T>,
    zero: T,
    i: int,
    c: int,
    out: T,
) -> bool {
    exists|d: T| #[trigger] is_dot(w.row(i), h.col(c), zero, d) && is_difference(d, v.at(i, c), out)
}

/// `a` is a value of `W·H − V`.
pub open spec fn is_residual<T: Scalar>(w: Grid<T>, h: Grid<T>, v: Grid<T>, zero: T, a: Grid<T>) -> bool {
    &&& a.rows == v.rows
    &&& a.cols == v.cols
    &&& a.well_formed()
    &&& forall|i: int, c: int|
        0 <= i < a.rows && 0 <= c < a.cols ==> is_residual_cell(w, h, v, zero, i, c, #[trigger] a.at(i, c))
}

/// `g` is a value of `Wᵀ·A`.
pub open spec fn is_gradient<T: Scalar>(w: Grid<T>, a: Grid<T>, zero: T, g: Grid<T>) -> bool {
    &&& g.rows == w.cols
    &&& g.cols == a.cols
    &&& g.well_formed()
    &&& forall|j: int, c: int|
        0 <= j < g.rows && 0 <= c < g.cols ==> is_dot(w.col(j), a.col(c), zero, #[trigger] g.at(j, c))
}

/// `out` is a value of `max(0, h − g·step)`: the moved value where it tests greater than
/// `zero`, and `zero` itself otherwise.
pub open spec fn is_projected_step<T: Scalar>(h: T, g: T, step: T, zero: T, out: T) -> bool {
    exists|scaled: T, moved: T, positive: bool|
        {
            &&& #[trigger] is_product(g, step, scaled)
            &&& #[trigger] is_difference(h, scaled, moved)
            &&& #[trigger] is_greater(moved, zero, positive)
            &&& out == if positive {
                moved
            } else {
                zero
            }
        }
}

/// `next` is a value of `max(0, H − step·G)`, cell by cell.
pub open spec fn is_update<T: Scalar>(h: Grid<T>, g: Grid<T>, step: T, zero: T, next: Grid<T>) -> bool {
    &&& next.rows == h.rows
    &&& next.cols == h.cols
    &&& next.cells.len() == h.cells.len()
    &&& forall|k: int|
        0 <= k < next.cells.len() ==> is_projected_step(h.cells[k], g.cells[k], step, zero, #[trigger] next.cells[k])
}

/// No cell is below zero: each is `zero` itself or tests greater than `zero`.
pub open spec fn is_nonnegative<T: Scalar>(cells: Seq<T>, zero: T) -> bool {
    forall|k: int| 0 <= k < cells.len() ==> (#[trigger] cells[k]) == zero || is_greater(cells[k], zero, true)
}

/// `next` is a value of one step of projected gradient descent from `h`:
/// `max(0, H − step·Wᵀ(W·H − V))`.
pub open spec fn is_pgd_step<T: Scalar>(v: Grid<T>, w: Grid<T>, step: T, zero: T, h: Grid<T>, next: Grid<T>) -> bool {
    exists|a: Grid<T>, g: Grid<T>|
        {
            &&& #[trigger] is_residual(w, h, v, zero, a)
            &&& #[trigger] is_gradient(w, a, zero, g)
            &&& is_update(h, g, step, zero, next)
        }
}

/// `h` is a value that `iters` steps of projected gradient descent reach from the zero
/// matrix of shape (columns of `w`, columns of `v`).
pub open spec fn is_pgd_solution<T: Scalar>(v: Grid<T>, w: Grid<T>, step: T, zero: T, iters: nat, h: Grid<T>) -> bool
    decreases iters,
{
    if iters == 0 {
        h == constant_grid(w.cols, v.cols, zero)
    } else {
        exists|prev: Grid<T>|
            is_pgd_solution(v, w, step, zero, (iters - 1) as nat, prev) && #[trigger] is_pgd_step(
                v,
                w,
                step,
                zero,
                prev,
                h,
            )
    }
}

/// After the projection no activation is below zero.
pub proof fn lemma_update_is_nonnegative<T: Scalar>(h: Grid<T>, g: Grid<T>, step: T, zero: T, next: Grid<T>)
    requires
        is_update(h, g, step, zero, next),
    ensures
        is_nonnegative(next.cells, zero),
{
    assert forall|k: int| 0 <= k < next.cells.len() implies (#[trigger] next.cells[k]) == zero
        || is_greater(next.cells[k], zero, true) by {
        assert(is_projected_step(h.cells[k], g.cells[k], step, zero, next.cells[k]));
    }
}

/// Whatever the inputs and however many steps are taken, no activation that the solver
/// reaches is below zero.
pub proof fn lemma_solution_is_nonnegative<T: Scalar>(
    v: Grid<T>,
    w: Grid<T>,
    step: T,
    zero: T,
    iters: nat,
    h: Grid<T>,
)
    requires
        is_pgd_solution(v, w, step, zero, iters, h),
    ensures
        is_nonnegative(h.cells, zero),
{
    if iters > 0 {
        let prev = choose|prev: Grid<T>|
            is_pgd_solution(v, w, step, zero, (iters - 1) as nat, prev) && #[trigger] is_pgd_step(
                v,
                w,
                step,
                zero,
                prev,
                h,
            );
        assert(is_pgd_step(v, w, step, zero, prev, h));
        let (a, g) = choose|a: Grid<T>, g: Grid<T>|
            {
                &&& #[trigger] is_residual(w, prev, v, zero, a)
                &&& #[trigger] is_gradient(w, a, zero, g)
                &&& is_update(prev, g, step, zero, h)
            };
        assert(is_residual(w, prev, v, zero, a));
        lemma_update_is_nonnegative(prev, g, step, zero, h);
    }
}

/// Whatever the inputs and however many steps are taken, the activations that the solver
/// reaches have one row for every column of `w` and one column for every column of `v`.
pub proof fn lemma_solution_has_its_shape<T: Scalar>(
    v: Grid<T>,
    w: Grid<T>,
    step: T,
    zero: T,
    iters: nat,
    h: Grid<T>,
)
    requires
        is_pgd_solution(v, w, step, zero, iters, h),
    ensures
        h.rows == w.cols,
        h.cols == v.cols,
        h.well_formed(),
    decreases iters,
{
    if iters > 0 {
        let prev = choose|prev: Grid<T>|
            is_pgd_solution(v, w, step, zero, (iters - 1) as nat, prev) && #[trigger] is_pgd_step(
                v,
                w,
                step,
                zero,
                prev,
                h,
            );
        lemma_solution_has_its_shape(v, w, step, zero, (iters - 1) as nat, prev);
        assert(is_pgd_step(v, w, step, zero, prev, h));
        let (a, g) = choose|a: Grid<T>, g: Grid<T>|
            {
                &&& #[trigger] is_residual(w, prev, v, zero, a)
                &&& #[trigger] is_gradient(w, a, zero, g)
                &&& is_update(prev, g, step, zero, h)
            };
        assert(is_residual(w, prev, v, zero, a));
    }
}

/// With deterministic arithmetic a sum of products has one value only.
pub proof fn lemma_dot_is_unique<T: Scalar>(xs: Seq<T>, ys: Seq<T>, zero: T, a: T, b: T)
    requires
        arithmetic_is_deterministic::<T>(),
        is_dot(xs, ys, zero, a),
        is_dot(xs, ys, zero, b),
    ensures
        a == b,
    decreases xs.len(),
{
    if xs.len() > 0 {
        let (acc_a, term_a) = choose|acc: T, term: T|
            {
                &&& is_dot(xs.drop_last(), ys.drop_last(), zero, acc)
                &&& #[trigger] is_product(xs.last(), ys.last(), term)
                &&& #[trigger] is_sum(acc, term, a)
            };
        let (acc_b, term_b) = choose|acc: T, term: T|
            {
                &&& is_dot(xs.drop_last(), ys.drop_last(), zero, acc)
                &&& #[trigger] is_product(xs.last(), ys.last(), term)
                &&& #[trigger] is_sum(acc, term, b)
            };
        lemma_dot_is_unique(xs.drop_last(), ys.drop_last(), zero, acc_a, acc_b);
        assert(term_a == term_b);
    }
}

/// Two well-formed grids of one shape that agree in every cell are the same grid.
pub proof fn lemma_grids_are_equal<T>(a: Grid<T>, b: Grid<T>)
    requires
        a.well_formed(),
        b.well_formed(),
        a.rows == b.rows,
        a.cols == b.cols,
        forall|i: int, c: int| 0 <= i < a.rows && 0 <= c < a.cols ==> #[trigger] a.at(i, c) == b.at(i, c),
    ensures
        a == b,
{
    assert forall|k: int| 0 <= k < a.cells.len() implies a.cells[k] == b.cells[k] by {
        let cols = a.cols as int;
        let rows = a.rows as int;
        if cols == 0 {
            assert(rows * cols == 0) by (nonlinear_arith)
                requires
                    cols == 0,
            ;
        } else {
            let i = k / cols;
            let c = k % cols;
            assert(0 <= i < rows && 0 <= c < cols && i * cols + c == k) by (nonlinear_arith)
                requires
                    0 <= k < rows * cols,
                    0 < cols,
                    i == k / cols,
                    c == k % cols,
            ;
            assert(a.at(i, c) == b.at(i, c));
        }
    }
    assert(a.cells =~= b.cells);
}

/// With deterministic arithmetic one step of the descent has one outcome only.
pub proof fn lemma_pgd_step_is_unique<T: Scalar>(
    v: Grid<T>,
    w: Grid<T>,
    step: T,
    zero: T,
    h: Grid<T>,
    first: Grid<T>,
    second: Grid<T>,
)
    requires
        arithmetic_is_deterministic::<T>(),
        is_pgd_step(v, w, step, zero, h, first),
        is_pgd_step(v, w, step, zero, h, second),
    ensures
        first == second,
{
    let (a1, g1) = choose|a: Grid<T>, g: Grid<T>|
        {
            &&& #[trigger] is_residual(w, h, v, zero, a)
            &&& #[trigger] is_gradient(w, a, zero, g)
            &&& is_update(h, g, step, zero, first)
        };
    let (a2, g2) = choose|a: Grid<T>, g: Grid<T>|
        {
            &&& #[trigger] is_residual(w, h, v, zero, a)
            &&& #[trigger] is_gradient(w, a, zero, g)
            &&& is_update(h, g, step, zero, second)
        };
    assert forall|i: int, c: int| 0 <= i < a1.rows && 0 <= c < a1.cols implies #[trigger] a1.at(i, c) == a2.at(
        i,
        c,
    ) by {
        assert(is_residual_cell(w, h, v, zero, i, c, a1.at(i, c)));
        assert(is_residual_cell(w, h, v, zero, i, c, a2.at(i, c)));
        let d1 = choose|d: T| #[trigger]
            is_dot(w.row(i), h.col(c), zero, d) && is_difference(d, v.at(i, c), a1.at(i, c));
        let d2 = choose|d: T| #[trigger]
            is_dot(w.row(i), h.col(c), zero, d) && is_difference(d, v.at(i, c), a2.at(i, c));
        lemma_dot_is_unique(w.row(i), h.col(c), zero, d1, d2);
    }
    lemma_grids_are_equal(a1, a2);
    assert forall|j: int, c: int| 0 <= j < g1.rows && 0 <= c < g1.cols implies #[trigger] g1.at(j, c) == g2.at(
        j,
        c,
    ) by {
        lemma_dot_is_unique(w.col(j), a1.col(c), zero, g1.at(j, c), g2.at(j, c));
    }
    lemma_grids_are_equal(g1, g2);
    assert forall|k: int| 0 <= k < first.cells.len() implies first.cells[k] == second.cells[k] by {
        assert(is_projected_step(h.cells[k], g1.cells[k], step, zero, first.cells[k]));
        assert(is_projected_step(h.cells[k], g1.cells[k], step, zero, second.cells[k]));
        let (scaled_a, moved_a, positive_a) = choose|scaled: T, moved: T, positive: bool|
            {
                &&& #[trigger] is_product(g1.cells[k], step, scaled)
                &&& #[trigger] is_difference(h.cells[k], scaled, moved)
                &&& #[trigger] is_greater(moved, zero, positive)
                &&& first.cells[k] == if positive {
                    moved
                } else {
                    zero
                }
            };
        let (scaled_b, moved_b, positive_b) = choose|scaled: T, moved: T, positive: bool|
            {
                &&& #[trigger] is_product(g1.cells[k], step, scaled)
                &&& #[trigger] is_difference(h.cells[k], scaled, moved)
                &&& #[trigger] is_greater(moved, zero, positive)
                &&& second.cells[k] == if positive {
                    moved
                } else {
                    zero
                }
            };
        assert(scaled_a == scaled_b);
        assert(moved_a == moved_b);
        assert(positive_a == positive_b);
    }
    assert(first.cells =~= second.cells);
}

/// Where every operation has one outcome only, the descent has one result only: any two
/// ways of computing it that keep to the same order of operations, on whatever machine,
/// agree in every activation, for all shapes and any number of steps.
pub proof fn lemma_pgd_solution_is_unique<T: Scalar>(
    v: Grid<T>,
    w: Grid<T>,
    step: T,
    zero: T,
    iters: nat,
    first: Grid<T>,
    second: Grid<T>,
)
    requires
        arithmetic_is_deterministic::<T>(),
        is_pgd_solution(v, w, step, zero, iters, first),
        is_pgd_solution(v, w, step, zero, iters, second),
    ensures
        first == second,
    decreases iters,
{
    if iters > 0 {
        let before_first = choose|prev: Grid<T>|
            is_pgd_solution(v, w, step, zero, (iters - 1) as nat, prev) && #[trigger] is_pgd_step(
                v,
                w,
                step,
                zero,
                prev,
                first,
            );
        let before_second = choose|prev: Grid<T>|
            is_pgd_solution(v, w, step, zero, (iters - 1) as nat, prev) && #[trigger] is_pgd_step(
                v,
                w,
                step,
                zero,
                prev,
                second,
            );
        lemma_pgd_solution_is_unique(v, w, step, zero, (iters - 1) as nat, before_first, before_second);
        lemma_pgd_step_is_unique(v, w, step, zero, before_first, first, second);
    }
}

/// First kernel: `A = W·H − V`.
pub fn gemm_wh_minus_v<T: Scalar>(w: &Matrix<T>, h: &Matrix<T>, v: &Matrix<T>, zero: T) -> (a: Matrix<T>)
    requires
        w.well_formed(),
        h.well_formed(),
        v.well_formed(),
        w@.rows == v@.rows,
        h@.rows == w@.cols,
        h@.cols == v@.cols,
        arithmetic_is_total::<T>(),
    ensures
        is_residual(w@, h@, v@, zero, a@),
{
    let m = v.rows;
    let n = v.cols;
    let r = w.cols;
    let mut data: Vec<T> = Vec::with_capacity(v.data.len());
    let mut i: usize = 0;
    while i < m
        invariant
            w.well_formed(),
            h.well_formed(),
            v.well_formed(),
            m == v.rows,
            n == v.cols,
            r == w.cols,
            w.rows == m,
            h.rows == r,
            h.cols == n,
            arithmetic_is_total::<T>(),
            i <= m,
            data@.len() == i * n,
            forall|p: int, c: int|
                0 <= p < i && 0 <= c < n ==> is_residual_cell(w@, h@, v@, zero, p, c, #[trigger] data@[p * n + c]),
        decreases m - i,
    {
        let mut c: usize = 0;
        while c < n
            invariant
                w.well_formed(),
                h.well_formed(),
                v.well_formed(),
                m == v.rows,
                n == v.cols,
                r == w.cols,
                w.rows == m,
                h.rows == r,
                h.cols == n,
                arithmetic_is_total::<T>(),
                i < m,
                c <= n,
                data@.len() == i * n + c,
                forall|p: int, q: int|
                    0 <= p < i && 0 <= q < n ==> is_residual_cell(w@, h@, v@, zero, p, q, #[trigger] data@[p * n + q]),
                forall|q: int| 0 <= q < c ==> is_residual_cell(w@, h@, v@, zero, i as int, q, #[trigger] data@[i * n + q]),
            decreases n - c,
        {
            let ghost xs = w@.row(i as int);
            let ghost ys = h@.col(c as int);
            let mut acc = zero;
            let mut k: usize = 0;
            while k < r
                invariant
                    w.well_formed(),
                    h.well_formed(),
                    r == w.cols,
                    w.rows == m,
                    h.rows == r,
                    h.cols == n,
                    arithmetic_is_total::<T>(),
                    i < m,
                    c < n,
                    k <= r,
                    xs == w@.row(i as int),
                    ys == h@.col(c as int),
                    is_dot(xs.take(k as int), ys.take(k as int), zero, acc),
                decreases r - k,
            {
                proof {
                    lemma_cell_position(i as int, k as int, m as int, r as int);
                    lemma_cell_position(k as int, c as int, r as int, n as int);
                    assert(w.data.len() == m * r);
                    assert(h.data.len() == r * n);
                }
                let x = w.data[i * r + k];
                let y = h.data[k * n + c];
                let term = x * y;
                let next = acc + term;
                proof {
                    assert(xs[k as int] == x);
                    assert(ys[k as int] == y);
                    lemma_dot_extend(xs, ys, k as int, zero, acc, term, next);
                }
                acc = next;
                k += 1;
            }
            proof {
                assert(xs.take(r as int) =~= xs);
                assert(ys.take(r as int) =~= ys);
                lemma_cell_position(i as int, c as int, m as int, n as int);
                assert(v.data.len() == m * n);
            }
            let cell = acc - v.data[i * n + c];
            let ghost before = data@;
            data.push(cell);
            proof {
                assert(is_dot(w@.row(i as int), h@.col(c as int), zero, acc));
                assert(is_residual_cell(w@, h@, v@, zero, i as int, c as int, cell));
                assert forall|p: int, q: int| 0 <= p < i && 0 <= q < n implies is_residual_cell(
                    w@,
                    h@,
                    v@,
                    zero,
                    p,
                    q,
                    #[trigger] data@[p * n + q],
                ) by {
                    lemma_cell_position(p, q, i as int, n as int);
                    assert(data@[p * n + q] == before[p * n + q]);
                }
                assert forall|q: int| 0 <= q < c + 1 implies is_residual_cell(
                    w@,
                    h@,
                    v@,
                    zero,
                    i as int,
                    q,
                    #[trigger] data@[i * n + q],
                ) by {
                    if q < c {
                        assert(data@[i * n + q] == before[i * n + q]);
                    }
                }
            }
            c += 1;
        }
        proof {
            assert((i + 1) * n == i * n + n) by (nonlinear_arith);
            assert forall|p: int, q: int| 0 <= p < i + 1 && 0 <= q < n implies is_residual_cell(
                w@,
                h@,
                v@,
                zero,
                p,
                q,
                #[trigger] data@[p * n + q],
            ) by {
                if p == i {
                    assert(is_residual_cell(w@, h@, v@, zero, i as int, q, data@[i * n + q]));
                }
            }
        }
        i += 1;
    }
    let a = Matrix { data, rows: m, cols: n };
    proof {
        assert forall|p: int, q: int| 0 <= p < a@.rows && 0 <= q < a@.cols implies is_residual_cell(
            w@,
            h@,
            v@,
            zero,
            p,
            q,
            #[trigger] a@.at(p, q),
        ) by {
            assert(is_residual_cell(w@, h@, v@, zero, p, q, data@[p * n + q]));
        }
    }
    a
}


/// Second kernel: `G = Wᵀ·A`.
pub fn gemm_wta<T: Scalar>(w: &Matrix<T>, a: &Matrix<T>, zero: T) -> (g: Matrix<T>)
    requires
        w.well_formed(),
        a.well_formed(),
        w@.rows == a@.rows,
        arithmetic_is_total::<T>(),
    ensures
        is_gradient(w@, a@, zero, g@),
{
    let m = w.rows;
    let r = w.cols;
    let n = a.cols;
    let mut data: Vec<T> = Vec::new();
    let mut j: usize = 0;
    while j < r
        invariant
            w.well_formed(),
            a.well_formed(),
            m == w.rows,
            r == w.cols,
            n == a.cols,
            a.rows == m,
            arithmetic_is_total::<T>(),
            j <= r,
            data@.len() == j * n,
            forall|p: int, q: int|
                0 <= p < j && 0 <= q < n ==> is_dot(w@.col(p), a@.col(q), zero, #[trigger] data@[p * n + q]),
        decreases r - j,
    {
        let mut c: usize = 0;
        while c < n
            invariant
                w.well_formed(),
                a.well_formed(),
                m == w.rows,
                r == w.cols,
                n == a.cols,
                a.rows == m,
                arithmetic_is_total::<T>(),
                j < r,
                c <= n,
                data@.len() == j * n + c,
                forall|p: int, q: int|
                    0 <= p < j && 0 <= q < n ==> is_dot(w@.col(p), a@.col(q), zero, #[trigger] data@[p * n + q]),
                forall|q: int| 0 <= q < c ==> is_dot(w@.col(j as int), a@.col(q), zero, #[trigger] data@[j * n + q]),
            decreases n - c,
        {
            let ghost xs = w@.col(j as int);
            let ghost ys = a@.col(c as int);
            let mut acc = zero;
            let mut i: usize = 0;
            while i < m
                invariant
                    w.well_formed(),
                    a.well_formed(),
                    m == w.rows,
                    r == w.cols,
                    n == a.cols,
                    a.rows == m,
                    arithmetic_is_total::<T>(),
                    j < r,
                    c < n,
                    i <= m,
                    xs == w@.col(j as int),
                    ys == a@.col(c as int),
                    is_dot(xs.take(i as int), ys.take(i as int), zero, acc),
                decreases m - i,
            {
                proof {
                    lemma_cell_position(i as int, j as int, m as int, r as int);
                    lemma_cell_position(i as int, c as int, m as int, n as int);
                    assert(w.data.len() == m * r);
                    assert(a.data.len() == m * n);
                }
                let x = w.data[i * r + j];
                let y = a.data[i * n + c];
                let term = x * y;
                let next = acc + term;
                proof {
                    assert(xs[i as int] == x);
                    assert(ys[i as int] == y);
                    lemma_dot_extend(xs, ys, i as int, zero, acc, term, next);
                }
                acc = next;
                i += 1;
            }
            proof {
                assert(xs.take(m as int) =~= xs);
                assert(ys.take(m as int) =~= ys);
            }
            let ghost before = data@;
            data.push(acc);
            proof {
                assert forall|p: int, q: int| 0 <= p < j && 0 <= q < n implies is_dot(
                    w@.col(p),
                    a@.col(q),
                    zero,
                    #[trigger] data@[p * n + q],
                ) by {
                    lemma_cell_position(p, q, j as int, n as int);
                    assert(data@[p * n + q] == before[p * n + q]);
                }
                assert forall|q: int| 0 <= q < c + 1 implies is_dot(
                    w@.col(j as int),
                    a@.col(q),
                    zero,
                    #[trigger] data@[j * n + q],
                ) by {
                    if q < c {
                        assert(data@[j * n + q] == before[j * n + q]);
                    }
                }
            }
            c += 1;
        }
        proof {
            assert((j + 1) * n == j * n + n) by (nonlinear_arith);
            assert forall|p: int, q: int| 0 <= p < j + 1 && 0 <= q < n implies is_dot(
                w@.col(p),
                a@.col(q),
                zero,
                #[trigger] data@[p * n + q],
            ) by {
                if p == j {
                    assert(is_dot(w@.col(j as int), a@.col(q), zero, data@[j * n + q]));
                }
            }
        }
        j += 1;
    }
    let g = Matrix { data, rows: r, cols: n };
    proof {
        assert forall|p: int, q: int| 0 <= p < g@.rows && 0 <= q < g@.cols implies is_dot(
            w@.col(p),
            a@.col(q),
            zero,
            #[trigger] g@.at(p, q),
        ) by {
            assert(is_dot(w@.col(p), a@.col(q), zero, data@[p * n + q]));
        }
    }
    g
}

/// Third kernel: `H ← max(0, H − step·G)`, cell by cell.
pub fn update_h<T: Scalar>(h: &Matrix<T>, g: &Matrix<T>, step: T, zero: T) -> (next: Matrix<T>)
    requires
        h@.cells.len() == g@.cells.len(),
        arithmetic_is_total::<T>(),
    ensures
        is_update(h@, g@, step, zero, next@),
        is_nonnegative(next@.cells, zero),
{
    let total = h.data.len();
    let mut data: Vec<T> = Vec::with_capacity(total);
    let mut k: usize = 0;
    while k < total
        invariant
            total == h.data@.len(),
            total == g.data@.len(),
            arithmetic_is_total::<T>(),
            k <= total,
            data@.len() == k,
            forall|p: int|
                0 <= p < k ==> is_projected_step(h.data@[p], g.data@[p], step, zero, #[trigger] data@[p]),
        decreases total - k,
    {
        let scaled = g.data[k] * step;
        let moved = h.data[k] - scaled;
        let positive = moved > zero;
        let cell = if positive {
            moved
        } else {
            zero
        };
        proof {
            assert(is_product(g.data@[k as int], step, scaled) && is_difference(
                h.data@[k as int],
                scaled,
                moved,
            ) && is_greater(moved, zero, positive));
            assert(is_projected_step(h.data@[k as int], g.data@[k as int], step, zero, cell));
        }
        data.push(cell);
        k += 1;
    }
    let next = Matrix { data, rows: h.rows, cols: h.cols };
    proof {
        lemma_update_is_nonnegative(h@, g@, step, zero, next@);
    }
    next
}

/// Non-negative least squares by projected gradient descent on the host.
///
/// `data` is V of shape (m, n), `basis` is W of shape (m, r); the result is H of shape
/// (r, n). Starting from the zero matrix, `iters` times: `H ← max(0, H − step·Wᵀ(W·H − V))`,
/// computed as the three kernels above, without forming `WᵀW` or `WᵀV`.
pub fn cpu_pgd_nnls<T: Scalar>(data: &Matrix<T>, basis: &Matrix<T>, iters: usize, step: T, zero: T) -> (h:
    Matrix<T>)
    requires
        data.well_formed(),
        basis.well_formed(),
        data@.rows == basis@.rows,
        basis@.cols * data@.cols <= usize::MAX,
        arithmetic_is_total::<T>(),
    ensures
        h.well_formed(),
        h@.rows == basis@.cols,
        h@.cols == data@.cols,
        is_pgd_solution(data@, basis@, step, zero, iters as nat, h@),
        is_nonnegative(h@.cells, zero),
{
    let mut h = Matrix::filled(basis.cols, data.cols, zero);
    let mut done: usize = 0;
    while done < iters
        invariant
            data.well_formed(),
            basis.well_formed(),
            data@.rows == basis@.rows,
            arithmetic_is_total::<T>(),
            done <= iters,
            h.well_formed(),
            h@.rows == basis@.cols,
            h@.cols == data@.cols,
            is_pgd_solution(data@, basis@, step, zero, done as nat, h@),
            is_nonnegative(h@.cells, zero),
        decreases iters - done,
    {
        let a = gemm_wh_minus_v(basis, &h, data, zero);
        let g = gemm_wta(basis, &a, zero);
        let next = update_h(&h, &g, step, zero);
        proof {
            assert(is_residual(basis@, h@, data@, zero, a@) && is_gradient(basis@, a@, zero, g@));
            assert(is_pgd_step(data@, basis@, step, zero, h@, next@));
        }
        h = next;
        done += 1;
    }
    h
}


/// The three kernels that the device runs in every iteration, in launch order:
/// `A = W·H − V`, then `G = Wᵀ·A`, then `H ← max(0, H − step·G)`.
#[derive(Clone, Copy, Debug, PartialEq, Eq, Structural)]
pub enum Kernel {
    GemmWhv,
    GemmGrad,
    UpdateH,
}

/// What the host hands to the device before the first launch: the read-only inputs, the
/// starting activations, and the sizes of what the device keeps for itself.
#[derive(Debug)]
pub struct DevicePlan<T> {
    /// W, row after row: `m` rows of `r` values.
    pub w: Vec<T>,
    /// Wᵀ, row after row: `r` rows of `m` values.
    pub w_t: Vec<T>,
    /// V, row after row: `m` rows of `n` values.
    pub v: Vec<T>,
    /// H at the start: `r` rows of `n` zeros.
    pub h: Vec<T>,
    /// The step of the descent.
    pub step: T,
    pub m: usize,
    pub n: usize,
    pub r: usize,
    /// Length of the buffer for `A = W·H − V`.
    pub residual_len: usize,
    /// Length of the buffer for `G = Wᵀ·A`.
    pub gradient_len: usize,
    /// The work grid that covers every kernel: the larger of `r` and `m`, by `n`.
    pub work_dims: (usize, usize),
}

/// `plan` is the plan for solving `data ≈ basis·H`.
pub open spec fn is_device_plan<T>(data: Grid<T>, basis: Grid<T>, step: T, zero: T, plan: DevicePlan<T>) -> bool {
    &&& plan.m == data.rows
    &&& plan.n == data.cols
    &&& plan.r == basis.cols
    &&& plan.step == step
    &&& plan.w@ == basis.cells
    &&& plan.v@ == data.cells
    &&& plan.w_t@.len() == plan.r * plan.m
    &&& forall|i: int, j: int|
        0 <= i < plan.m && 0 <= j < plan.r ==> plan.w_t@[j * plan.m + i] == #[trigger] basis.at(i, j)
    &&& plan.h@ == Seq::new(basis.cols * data.cols, |k: int| zero)
    &&& plan.residual_len == plan.m * plan.n
    &&& plan.gradient_len == plan.r * plan.n
    &&& plan.work_dims == (if plan.r >= plan.m {
        plan.r
    } else {
        plan.m
    }, plan.n)
}

/// Lays out what the device needs: W and V as they are stored, Wᵀ transposed on the host,
/// H as zeros.
pub fn device_plan<T: Copy>(data: &Matrix<T>, basis: &Matrix<T>, step: T, zero: T) -> (plan: DevicePlan<T>)
    requires
        data.well_formed(),
        basis.well_formed(),
        data@.rows == basis@.rows,
        basis@.cols * data@.cols <= usize::MAX,
    ensures
        is_device_plan(data@, basis@, step, zero, plan),
{
    let m = data.rows;
    let n = data.cols;
    let r = basis.cols;
    let turned = basis.transpose();
    let h = Matrix::filled(r, n, zero);
    proof {
        assert(data.data.len() == m * n);
        assert forall|i: int, j: int| 0 <= i < m && 0 <= j < r implies turned.data@[j * m + i] == #[trigger] basis@.at(
            i,
            j,
        ) by {
            assert(turned@.at(j, i) == basis@.at(i, j));
        }
    }
    DevicePlan {
        w: copy_samples(&basis.data),
        w_t: turned.data,
        v: copy_samples(&data.data),
        h: h.data,
        step,
        m,
        n,
        r,
        residual_len: data.data.len(),
        gradient_len: r * n,
        work_dims: (if r >= m {
            r
        } else {
            m
        }, n),
    }
}

/// Why a solve on the device gave no activations.
#[derive(Clone, Debug)]
pub enum SolveError<E> {
    /// The device failed: at the upload, at a launch, or at the download.
    Device(E),
    /// The device handed back a buffer that is no `r` by `n` matrix.
    Shape(ShapeError),
}

/// `after` is what the device state is after `kernel`: the failure that was there before,
/// or else an outcome of the launch.
pub open spec fn is_after_launch<B, E, D: Fn(Kernel, B) -> Result<B, E>>(
    launch: &D,
    kernel: Kernel,
    before: Result<B, E>,
    after: Result<B, E>,
) -> bool {
    match before {
        Err(e) => after == Err::<B, E>(e),
        Ok(buffers) => launch.ensures((kernel, buffers), after),
    }
}

/// `after` is the device state after one iteration: the three kernels in order, each one
/// launched only when the one before it has succeeded.
pub open spec fn is_after_iteration<B, E, D: Fn(Kernel, B) -> Result<B, E>>(
    launch: &D,
    before: Result<B, E>,
    after: Result<B, E>,
) -> bool {
    exists|first: Result<B, E>, second: Result<B, E>|
        {
            &&& #[trigger] is_after_launch(launch, Kernel::GemmWhv, before, first)
            &&& #[trigger] is_after_launch(launch, Kernel::GemmGrad, first, second)
            &&& is_after_launch(launch, Kernel::UpdateH, second, after)
        }
}

/// `after` is the device state after `iters` iterations from `before`.
pub open spec fn is_after_run<B, E, D: Fn(Kernel, B) -> Result<B, E>>(
    launch: &D,
    before: Result<B, E>,
    iters: nat,
    after: Result<B, E>,
) -> bool
    decreases iters,
{
    if iters == 0 {
        after == before
    } else {
        exists|mid: Result<B, E>|
            is_after_run(launch, before, (iters - 1) as nat, mid) && #[trigger] is_after_iteration(
                launch,
                mid,
                after,
            )
    }
}

/// The activations that a downloaded buffer stands for: the buffer as an `r` by `n` matrix,
/// or the reason why there is none.
pub open spec fn spec_collect<T, E>(got: Result<Vec<T>, E>, r: usize, n: usize) -> Result<Matrix<T>, SolveError<E>> {
    match got {
        Err(e) => Err(SolveError::Device(e)),
        Ok(flat) => if flat@.len() == r * n {
            Ok(Matrix { data: flat, rows: r, cols: n })
        } else {
            Err(
                SolveError::Shape(
                    ShapeError::WrongLength {
                        capacity: if r * n <= usize::MAX {
                            Some((r * n) as usize)
                        } else {
                            None
                        },
                        given: flat.len(),
                    },
                ),
            )
        },
    }
}

/// Reads what came back from the device as the `r` by `n` activations.
pub fn collect_activations<T: Copy, E>(got: Result<Vec<T>, E>, r: usize, n: usize) -> (h: Result<
    Matrix<T>,
    SolveError<E>,
>)
    ensures
        h == spec_collect(got, r, n),
{
    match got {
        Err(e) => Err(SolveError::Device(e)),
        Ok(flat) => match Matrix::from_shape_vec(r, n, flat) {
            Ok(h) => Ok(h),
            Err(e) => Err(SolveError::Shape(e)),
        },
    }
}

/// `h` is an outcome of the download after a run that ended in `ran`.
pub open spec fn is_downloaded<T, B, E, R: Fn(B) -> Result<Vec<T>, E>>(
    download: &R,
    ran: Result<B, E>,
    r: usize,
    n: usize,
    h: Result<Matrix<T>, SolveError<E>>,
) -> bool {
    &&& ran matches Err(e) ==> h == Err::<Matrix<T>, SolveError<E>>(SolveError::Device(e))
    &&& ran matches Ok(buffers) ==> exists|got: Result<Vec<T>, E>| #[trigger]
        download.ensures((buffers,), got) && h == spec_collect(got, r, n)
}

/// `h` is an outcome of the solve on the device: of the upload of the plan, `iters`
/// iterations, and the download. The first failure ends the solve and is what comes back;
/// nothing is computed in the device's place.
pub open spec fn is_device_solution<T, B, E, U, D, R>(
    upload: &U,
    launch: &D,
    download: &R,
    data: Grid<T>,
    basis: Grid<T>,
    iters: nat,
    step: T,
    zero: T,
    h: Result<Matrix<T>, SolveError<E>>,
) -> bool where
    U: Fn(DevicePlan<T>) -> Result<B, E>,
    D: Fn(Kernel, B) -> Result<B, E>,
    R: Fn(B) -> Result<Vec<T>, E>,
 {
    exists|plan: DevicePlan<T>, uploaded: Result<B, E>, ran: Result<B, E>|
        {
            &&& is_device_plan(data, basis, step, zero, plan)
            &&& #[trigger] upload.ensures((plan,), uploaded)
            &&& #[trigger] is_after_run(launch, uploaded, iters, ran)
            &&& is_downloaded(download, ran, basis.cols as usize, data.cols as usize, h)
        }
}

/// A run that has failed stays failed, however many iterations follow.
pub proof fn lemma_failed_run_stays_failed<B, E, D: Fn(Kernel, B) -> Result<B, E>>(
    launch: &D,
    before: Result<B, E>,
    reached: nat,
    iters: nat,
    e: E,
)
    requires
        reached <= iters,
        is_after_run(launch, before, reached, Err::<B, E>(e)),
    ensures
        is_after_run(launch, before, iters, Err::<B, E>(e)),
    decreases iters - reached,
{
    if reached < iters {
        let failed = Err::<B, E>(e);
        assert(is_after_launch(launch, Kernel::GemmWhv, failed, failed) && is_after_launch(
            launch,
            Kernel::GemmGrad,
            failed,
            failed,
        ));
        assert(is_after_iteration(launch, failed, failed));
        assert(is_after_run(launch, before, reached + 1, failed));
        lemma_failed_run_stays_failed(launch, before, reached + 1, iters, e);
    }
}

/// Non-negative least squares by projected gradient descent on a device.
///
/// The host lays out the plan and hands it to `upload`; then, `iters` times, `launch` runs
/// the three kernels in order, each to its end before the next starts; then `download`
/// reads H back. A failure of the device ends the solve at once and is returned.
pub fn pgd_nnls<T: Copy, B, E, U, D, R>(
    data: &Matrix<T>,
    basis: &Matrix<T>,
    iters: usize,
    step: T,
    zero: T,
    upload: &U,
    launch: &D,
    download: &R,
) -> (h: Result<Matrix<T>, SolveError<E>>) where
    U: Fn(DevicePlan<T>) -> Result<B, E>,
    D: Fn(Kernel, B) -> Result<B, E>,
    R: Fn(B) -> Result<Vec<T>, E>,

    requires
        data.well_formed(),
        basis.well_formed(),
        data@.rows == basis@.rows,
        basis@.cols * data@.cols <= usize::MAX,
        forall|plan: DevicePlan<T>| upload.requires((plan,)),
        forall|kernel: Kernel, buffers: B| launch.requires((kernel, buffers)),
        forall|buffers: B| download.requires((buffers,)),
    ensures
        is_device_solution(upload, launch, download, data@, basis@, iters as nat, step, zero, h),
        h matches Ok(m) ==> m.well_formed() && m@.rows == basis@.cols && m@.cols == data@.cols,
{
    let plan = device_plan(data, basis, step, zero);
    let ghost planned = plan;
    let uploaded = upload(plan);
    let mut buffers = match uploaded {
        Ok(buffers) => buffers,
        Err(e) => {
            proof {
                let failed = Err::<B, E>(e);
                assert(is_after_run(launch, uploaded, 0, failed));
                lemma_failed_run_stays_failed(launch, uploaded, 0, iters as nat, e);
                assert(upload.ensures((planned,), uploaded) && is_after_run(launch, uploaded, iters as nat, failed));
            }
            return Err(SolveError::Device(e));
        },
    };
    let mut done: usize = 0;
    while done < iters
        invariant
            forall|kernel: Kernel, buffers: B| launch.requires((kernel, buffers)),
            done <= iters,
            is_after_run(launch, uploaded, done as nat, Ok::<B, E>(buffers)),
            upload.ensures((planned,), uploaded),
            is_device_plan(data@, basis@, step, zero, planned),
        decreases iters - done,
    {
        let ghost start = Ok::<B, E>(buffers);
        let first = launch(Kernel::GemmWhv, buffers);
        let second = match first {
            Ok(b) => launch(Kernel::GemmGrad, b),
            Err(e) => Err(e),
        };
        let third = match second {
            Ok(b) => launch(Kernel::UpdateH, b),
            Err(e) => Err(e),
        };
        proof {
            assert(is_after_launch(launch, Kernel::GemmWhv, start, first) && is_after_launch(
                launch,
                Kernel::GemmGrad,
                first,
                second,
            ));
            assert(is_after_iteration(launch, start, third));
            assert(is_after_run(launch, uploaded, (done + 1) as nat, third));
        }
        match third {
            Ok(b) => {
                buffers = b;
            },
            Err(e) => {
                proof {
                    let failed = Err::<B, E>(e);
                    lemma_failed_run_stays_failed(launch, uploaded, (done + 1) as nat, iters as nat, e);
                    assert(upload.ensures((planned,), uploaded) && is_after_run(
                        launch,
                        uploaded,
                        iters as nat,
                        failed,
                    ));
                }
                return Err(SolveError::Device(e));
            },
        }
        done += 1;
    }
    let ghost last = buffers;
    let got = download(buffers);
    let ghost read = got;
    let h = collect_activations(got, basis.cols, data.cols);
    proof {
        let ran = Ok::<B, E>(last);
        assert(ran->Ok_0 == last);
        assert(download.ensures((ran->Ok_0,), read) && h == spec_collect(read, basis.cols, data.cols));
        assert(is_downloaded(download, ran, basis.cols, data.cols, h));
        assert(upload.ensures((planned,), uploaded) && is_after_run(launch, uploaded, iters as nat, ran));
    }
    h
}

} // verus!
