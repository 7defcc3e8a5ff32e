use vstd::prelude::*;

verus! {

/// Sum of `w(r, c)` over the columns `0 <= c < cols` of row `r`.
pub open spec fn row_sum(w: spec_fn(int, int) -> int, r: int, cols: int) -> int
    decreases cols,
{
    if cols <= 0 {
        0
    } else {
        row_sum(w, r, cols - 1) + w(r, cols - 1)
    }
}

/// Sum of `w(r, c)` over the rectangle `0 <= r < rows`, `0 <= c < cols`.
pub open spec fn grid_sum(w: spec_fn(int, int) -> int, rows: int, cols: int) -> int
    decreases rows,
{
    if rows <= 0 {
        0
    } else {
        grid_sum(w, rows - 1, cols) + row_sum(w, rows - 1, cols)
    }
}

/// Row sums of two weightings that agree on the row are equal.
pub proof fn lemma_row_sum_ext(w1: spec_fn(int, int) -> int, w2: spec_fn(int, int) -> int, r: int, cols: int)
    requires
        forall|c: int| #![trigger w1(r, c)] #![trigger w2(r, c)] 0 <= c < cols ==> w1(r, c) == w2(r, c),
    ensures
        row_sum(w1, r, cols) == row_sum(w2, r, cols),
    decreases cols,
{
    if cols > 0 {
        lemma_row_sum_ext(w1, w2, r, cols - 1);
    }
}

/// Grid sums of two weightings that agree on the rectangle are equal.
pub proof fn lemma_grid_sum_ext(w1: spec_fn(int, int) -> int, w2: spec_fn(int, int) -> int, rows: int, cols: int)
    requires
        forall|r: int, c: int| #![trigger w1(r, c)] #![trigger w2(r, c)] 0 <= r < rows && 0 <= c < cols ==> w1(r, c) == w2(r, c),
    ensures
        grid_sum(w1, rows, cols) == grid_sum(w2, rows, cols),
    decreases rows,
{
    if rows > 0 {
        lemma_grid_sum_ext(w1, w2, rows - 1, cols);
        lemma_row_sum_ext(w1, w2, rows - 1, cols);
    }
}

/// Raising one weight by one raises the row sum by one.
pub proof fn lemma_row_sum_bump(
    w1: spec_fn(int, int) -> int,
    w2: spec_fn(int, int) -> int,
    r: int,
    cols: int,
    c0: int,
)
    requires
        0 <= c0 < cols,
        forall|c: int| #![trigger w1(r, c)] #![trigger w2(r, c)] 0 <= c < cols && c != c0 ==> w1(r, c) == w2(r, c),
        w2(r, c0) == w1(r, c0) + 1,
    ensures
        row_sum(w2, r, cols) == row_sum(w1, r, cols) + 1,
    decreases cols,
{
    if c0 == cols - 1 {
        lemma_row_sum_ext(w1, w2, r, cols - 1);
    } else {
        lemma_row_sum_bump(w1, w2, r, cols - 1, c0);
    }
}

/// Raising one weight by one raises the grid sum by one.
pub proof fn lemma_grid_sum_bump(
    w1: spec_fn(int, int) -> int,
    w2: spec_fn(int, int) -> int,
    rows: int,
    cols: int,
    r0: int,
    c0: int,
)
    requires
        0 <= r0 < rows,
        0 <= c0 < cols,
        forall|r: int, c: int| #![trigger w1(r, c)] #![trigger w2(r, c)]
            0 <= r < rows && 0 <= c < cols && (r != r0 || c != c0) ==> w1(r, c) == w2(r, c),
        w2(r0, c0) == w1(r0, c0) + 1,
    ensures
        grid_sum(w2, rows, cols) == grid_sum(w1, rows, cols) + 1,
    decreases rows,
{
    if r0 == rows - 1 {
        lemma_grid_sum_ext(w1, w2, rows - 1, cols);
        lemma_row_sum_bump(w1, w2, r0, cols, c0);
    } else {
        lemma_grid_sum_bump(w1, w2, rows - 1, cols, r0, c0);
        lemma_row_sum_ext(w1, w2, rows - 1, cols);
    }
}

/// A row sum of weights in `[0, k]` lies in `[0, k * cols]`.
pub proof fn lemma_row_sum_bounds(w: spec_fn(int, int) -> int, r: int, cols: int, k: int)
    requires
        cols >= 0,
        k >= 0,
        forall|c: int| 0 <= c < cols ==> 0 <= #[trigger] w(r, c) <= k,
    ensures
        0 <= row_sum(w, r, cols) <= k * cols,
    decreases cols,
{
    if cols > 0 {
        lemma_row_sum_bounds(w, r, cols - 1, k);
        assert(k * (cols - 1) + k == k * cols) by (nonlinear_arith);
    }
}

/// A grid sum of weights in `[0, k]` lies in `[0, k * rows * cols]`.
pub proof fn lemma_grid_sum_bounds(w: spec_fn(int, int) -> int, rows: int, cols: int, k: int)
    requires
        rows >= 0,
        cols >= 0,
        k >= 0,
        forall|r: int, c: int| 0 <= r < rows && 0 <= c < cols ==> 0 <= #[trigger] w(r, c) <= k,
    ensures
        0 <= grid_sum(w, rows, cols) <= k * rows * cols,
    decreases rows,
{
    if rows > 0 {
        lemma_grid_sum_bounds(w, rows - 1, cols, k);
        lemma_row_sum_bounds(w, rows - 1, cols, k);
        assert(k * (rows - 1) * cols + k * cols == k * rows * cols) by (nonlinear_arith);
    }
}

/// Row sums grow with their weights, strictly if one weight grows strictly.
pub proof fn lemma_row_sum_mono(
    w1: spec_fn(int, int) -> int,
    w2: spec_fn(int, int) -> int,
    r: int,
    cols: int,
    c0: int,
)
    requires
        forall|c: int| #![trigger w1(r, c)] #![trigger w2(r, c)] 0 <= c < cols ==> w1(r, c) <= w2(r, c),
    ensures
        row_sum(w1, r, cols) <= row_sum(w2, r, cols),
        0 <= c0 < cols && w1(r, c0) < w2(r, c0) ==> row_sum(w1, r, cols) < row_sum(w2, r, cols),
    decreases cols,
{
    if cols > 0 {
        lemma_row_sum_mono(w1, w2, r, cols - 1, c0);
    }
}

/// Grid sums grow with their weights, strictly if one weight grows strictly.
pub proof fn lemma_grid_sum_mono(
    w1: spec_fn(int, int) -> int,
    w2: spec_fn(int, int) -> int,
    rows: int,
    cols: int,
    r0: int,
    c0: int,
)
    requires
        forall|r: int, c: int| #![trigger w1(r, c)] #![trigger w2(r, c)]
            0 <= r < rows && 0 <= c < cols ==> w1(r, c) <= w2(r, c),
    ensures
        grid_sum(w1, rows, cols) <= grid_sum(w2, rows, cols),
        0 <= r0 < rows && 0 <= c0 < cols && w1(r0, c0) < w2(r0, c0) ==> grid_sum(w1, rows, cols)
            < grid_sum(w2, rows, cols),
    decreases rows,
{
    if rows > 0 {
        lemma_grid_sum_mono(w1, w2, rows - 1, cols, r0, c0);
        lemma_row_sum_mono(w1, w2, rows - 1, cols, c0);
    }
}

/// Doubling every weight doubles a row sum.
pub proof fn lemma_row_sum_double(w: spec_fn(int, int) -> int, w2: spec_fn(int, int) -> int, r: int, cols: int)
    requires
        forall|c: int| #![trigger w2(r, c)] 0 <= c < cols ==> w2(r, c) == 2 * w(r, c),
    ensures
        row_sum(w2, r, cols) == 2 * row_sum(w, r, cols),
    decreases cols,
{
    if cols > 0 {
        lemma_row_sum_double(w, w2, r, cols - 1);
    }
}

/// Doubling every weight doubles a grid sum.
pub proof fn lemma_grid_sum_double(w: spec_fn(int, int) -> int, w2: spec_fn(int, int) -> int, rows: int, cols: int)
    requires
        forall|r: int, c: int| #![trigger w2(r, c)] 0 <= r < rows && 0 <= c < cols ==> w2(r, c) == 2 * w(r, c),
    ensures
        grid_sum(w2, rows, cols) == 2 * grid_sum(w, rows, cols),
    decreases rows,
{
    if rows > 0 {
        lemma_grid_sum_double(w, w2, rows - 1, cols);
        lemma_row_sum_double(w, w2, rows - 1, cols);
    }
}

} // verus!
