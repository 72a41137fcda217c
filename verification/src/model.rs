use vstd::prelude::*;

verus! {

/// `m` is a square matrix of side `n`.
pub open spec fn is_square(m: Seq<Seq<usize>>, n: int) -> bool {
    &&& m.len() == n
    &&& forall|i: int| 0 <= i < n ==> (#[trigger] m[i]).len() == n
}

/// `m` assigns every one of `n1` pattern vertices a host vertex below `n2`.
pub open spec fn mapping_in_range(n1: int, n2: int, m: Seq<usize>) -> bool {
    &&& m.len() == n1
    &&& forall|i: int| 0 <= i < n1 ==> (#[trigger] m[i]) < n2
}

/// `m` is a total injective mapping of `n1` pattern vertices into `n2` host vertices.
pub open spec fn valid_mapping(n1: int, n2: int, m: Seq<usize>) -> bool {
    &&& mapping_in_range(n1, n2, m)
    &&& forall|i: int, j: int| 0 <= i < j < n1 ==> m[i] != m[j]
}

pub open spec fn spec_max(a: int, b: int) -> int {
    if a >= b {
        a
    } else {
        b
    }
}

/// How much multiplicity host matrix `h` is missing at the image of the
/// pattern pair `(u, v)` under `m`: the saturating difference between the
/// pattern's demand and what the host already holds.
pub open spec fn pair_deficit(
    g: Seq<Seq<usize>>,
    h: Seq<Seq<usize>>,
    m: Seq<usize>,
    u: int,
    v: int,
) -> int {
    if g[u][v] > h[m[u] as int][m[v] as int] {
        g[u][v] - h[m[u] as int][m[v] as int]
    } else {
        0
    }
}

/// The demand that the pattern pair `(u, v)` of mapping `m` places at the
/// host pair `(x, y)`: nonzero only when `m` sends `(u, v)` to `(x, y)` and
/// the pattern has an edge there.
pub open spec fn pair_demand(
    g: Seq<Seq<usize>>,
    h: Seq<Seq<usize>>,
    m: Seq<usize>,
    u: int,
    v: int,
    x: int,
    y: int,
) -> int {
    if m[u] == x && m[v] == y && g[u][v] > 0 {
        pair_deficit(g, h, m, u, v)
    } else {
        0
    }
}

/// Largest demand at `(x, y)` among the pairs `(u, v)` with `v < vend`, for one `u`.
pub open spec fn need_row_upto(
    g: Seq<Seq<usize>>,
    h: Seq<Seq<usize>>,
    m: Seq<usize>,
    u: int,
    x: int,
    y: int,
    vend: int,
) -> int
    decreases vend,
{
    if vend <= 0 {
        0
    } else {
        spec_max(need_row_upto(g, h, m, u, x, y, vend - 1), pair_demand(g, h, m, u, vend - 1, x, y))
    }
}

/// Largest demand at `(x, y)` among the pairs `(u, v)` with `u < uend`.
pub open spec fn need_upto(
    g: Seq<Seq<usize>>,
    h: Seq<Seq<usize>>,
    m: Seq<usize>,
    x: int,
    y: int,
    uend: int,
) -> int
    decreases uend,
{
    if uend <= 0 {
        0
    } else {
        spec_max(
            need_upto(g, h, m, x, y, uend - 1),
            need_row_upto(g, h, m, uend - 1, x, y, m.len() as int),
        )
    }
}

/// The multiplicity that must be added to `h` at host pair `(x, y)` so that
/// `h` supports mapping `m` of pattern `g`: the largest demand among all
/// pattern pairs.
pub open spec fn mapping_need(
    g: Seq<Seq<usize>>,
    h: Seq<Seq<usize>>,
    m: Seq<usize>,
    x: int,
    y: int,
) -> int {
    need_upto(g, h, m, x, y, m.len() as int)
}

/// Largest demand at `(x, y)` among the pairs scanned so far by a row-major
/// walk of the pattern pairs: all pairs with first component below `u`, and
/// the pairs `(u, v')` with `v' < v`.
pub open spec fn partial_need(
    g: Seq<Seq<usize>>,
    h: Seq<Seq<usize>>,
    m: Seq<usize>,
    x: int,
    y: int,
    u: int,
    v: int,
) -> int {
    spec_max(need_upto(g, h, m, x, y, u), need_row_upto(g, h, m, u, x, y, v))
}

/// Largest demand at `(x, y)` over a set of mappings used together. One added
/// edge unit serves every mapping that needs it simultaneously, so the deltas
/// of the mappings combine by maximum, not by sum.
pub open spec fn set_need(
    g: Seq<Seq<usize>>,
    h: Seq<Seq<usize>>,
    ms: Seq<Seq<usize>>,
    x: int,
    y: int,
) -> int
    decreases ms.len(),
{
    if ms.len() == 0 {
        0
    } else {
        spec_max(set_need(g, h, ms.drop_last(), x, y), mapping_need(g, h, ms.last(), x, y))
    }
}

/// Sum of `f(x, y)` over `y < yend`, for one `x`.
pub open spec fn sum_row(f: spec_fn(int, int) -> int, x: int, yend: int) -> int
    decreases yend,
{
    if yend <= 0 {
        0
    } else {
        sum_row(f, x, yend - 1) + f(x, yend - 1)
    }
}

/// Sum of `f(x, y)` over `x < xend`, `y < n`.
pub open spec fn sum_grid(f: spec_fn(int, int) -> int, xend: int, n: int) -> int
    decreases xend,
{
    if xend <= 0 {
        0
    } else {
        sum_grid(f, xend - 1, n) + sum_row(f, xend - 1, n)
    }
}

/// Sum of `set_need` over the host pairs `(x, y)` with `y < yend`, for one `x`.
pub open spec fn row_cost_upto(
    g: Seq<Seq<usize>>,
    h: Seq<Seq<usize>>,
    ms: Seq<Seq<usize>>,
    x: int,
    yend: int,
) -> int
    decreases yend,
{
    if yend <= 0 {
        0
    } else {
        row_cost_upto(g, h, ms, x, yend - 1) + set_need(g, h, ms, x, yend - 1)
    }
}

/// Sum of `set_need` over the host pairs `(x, y)` with `x < xend`, `y < n2`.
pub open spec fn cost_rows_upto(
    g: Seq<Seq<usize>>,
    h: Seq<Seq<usize>>,
    ms: Seq<Seq<usize>>,
    xend: int,
    n2: int,
) -> int
    decreases xend,
{
    if xend <= 0 {
        0
    } else {
        cost_rows_upto(g, h, ms, xend - 1, n2) + row_cost_upto(g, h, ms, xend - 1, n2)
    }
}

/// Total number of edge units that must be added to the `n2`-vertex host `h`
/// so that it simultaneously satisfies every mapping in `ms`: the objective
/// that both solvers minimize.
pub open spec fn solution_cost(
    g: Seq<Seq<usize>>,
    h: Seq<Seq<usize>>,
    ms: Seq<Seq<usize>>,
    n2: int,
) -> int {
    cost_rows_upto(g, h, ms, n2, n2)
}

/// The objective equals the grid sum of any function that is pointwise the
/// combined demand.
pub proof fn lemma_row_cost_as_sum_row(
    g: Seq<Seq<usize>>,
    h: Seq<Seq<usize>>,
    ms: Seq<Seq<usize>>,
    x: int,
    yend: int,
    f: spec_fn(int, int) -> int,
)
    requires
        forall|x2: int, y2: int| #[trigger] f(x2, y2) == set_need(g, h, ms, x2, y2),
    ensures
        row_cost_upto(g, h, ms, x, yend) == sum_row(f, x, yend),
    decreases yend,
{
    if yend > 0 {
        lemma_row_cost_as_sum_row(g, h, ms, x, yend - 1, f);
    }
}

/// The objective equals the grid sum of any function that is pointwise the
/// combined demand.
pub proof fn lemma_cost_rows_as_sum_grid(
    g: Seq<Seq<usize>>,
    h: Seq<Seq<usize>>,
    ms: Seq<Seq<usize>>,
    xend: int,
    n2: int,
    f: spec_fn(int, int) -> int,
)
    requires
        forall|x2: int, y2: int| #[trigger] f(x2, y2) == set_need(g, h, ms, x2, y2),
    ensures
        cost_rows_upto(g, h, ms, xend, n2) == sum_grid(f, xend, n2),
    decreases xend,
{
    if xend > 0 {
        lemma_cost_rows_as_sum_grid(g, h, ms, xend - 1, n2, f);
        lemma_row_cost_as_sum_row(g, h, ms, xend - 1, n2, f);
    }
}

/// Raising host multiplicities never raises a deficit: against a pointwise
/// larger host matrix, a pair demands no more.
pub proof fn lemma_need_row_upto_antimonotone(
    g: Seq<Seq<usize>>,
    h1: Seq<Seq<usize>>,
    h2: Seq<Seq<usize>>,
    m: Seq<usize>,
    u: int,
    x: int,
    y: int,
    vend: int,
    n1: int,
    n2: int,
)
    requires
        mapping_in_range(n1, n2, m),
        0 <= u < n1,
        vend <= n1,
        forall|a: int, b: int| 0 <= a < n2 && 0 <= b < n2 ==> #[trigger] h1[a][b] <= h2[a][b],
    ensures
        need_row_upto(g, h2, m, u, x, y, vend) <= need_row_upto(g, h1, m, u, x, y, vend),
    decreases vend,
{
    if vend > 0 {
        lemma_need_row_upto_antimonotone(g, h1, h2, m, u, x, y, vend - 1, n1, n2);
        assert(pair_demand(g, h2, m, u, vend - 1, x, y) <= pair_demand(g, h1, m, u, vend - 1, x, y))
            by {
            assert(m[u] < n2 && m[vend - 1] < n2);
            assert(h1[m[u] as int][m[vend - 1] as int] <= h2[m[u] as int][m[vend - 1] as int]);
        }
    }
}

pub proof fn lemma_need_upto_antimonotone(
    g: Seq<Seq<usize>>,
    h1: Seq<Seq<usize>>,
    h2: Seq<Seq<usize>>,
    m: Seq<usize>,
    x: int,
    y: int,
    uend: int,
    n1: int,
    n2: int,
)
    requires
        mapping_in_range(n1, n2, m),
        uend <= n1,
        forall|a: int, b: int| 0 <= a < n2 && 0 <= b < n2 ==> #[trigger] h1[a][b] <= h2[a][b],
    ensures
        need_upto(g, h2, m, x, y, uend) <= need_upto(g, h1, m, x, y, uend),
    decreases uend,
{
    if uend > 0 {
        lemma_need_upto_antimonotone(g, h1, h2, m, x, y, uend - 1, n1, n2);
        lemma_need_row_upto_antimonotone(g, h1, h2, m, uend - 1, x, y, m.len() as int, n1, n2);
    }
}

/// A mapping demands no more against an already-extended host than against
/// the original one.
pub proof fn lemma_mapping_need_antimonotone(
    g: Seq<Seq<usize>>,
    h1: Seq<Seq<usize>>,
    h2: Seq<Seq<usize>>,
    m: Seq<usize>,
    x: int,
    y: int,
    n1: int,
    n2: int,
)
    requires
        mapping_in_range(n1, n2, m),
        forall|a: int, b: int| 0 <= a < n2 && 0 <= b < n2 ==> #[trigger] h1[a][b] <= h2[a][b],
    ensures
        mapping_need(g, h2, m, x, y) <= mapping_need(g, h1, m, x, y),
{
    lemma_need_upto_antimonotone(g, h1, h2, m, x, y, m.len() as int, n1, n2);
}

/// A pointwise-smaller function has the smaller row sum.
pub proof fn lemma_sum_row_le(
    f: spec_fn(int, int) -> int,
    g: spec_fn(int, int) -> int,
    x: int,
    yend: int,
)
    requires
        forall|y: int| 0 <= y < yend ==> #[trigger] f(x, y) <= g(x, y),
    ensures
        sum_row(f, x, yend) <= sum_row(g, x, yend),
    decreases yend,
{
    if yend > 0 {
        lemma_sum_row_le(f, g, x, yend - 1);
    }
}

/// A pointwise-smaller function has the smaller grid sum.
pub proof fn lemma_sum_grid_le(
    f: spec_fn(int, int) -> int,
    g: spec_fn(int, int) -> int,
    xend: int,
    n: int,
)
    requires
        forall|x: int, y: int| 0 <= x < xend && 0 <= y < n ==> #[trigger] f(x, y) <= g(x, y),
    ensures
        sum_grid(f, xend, n) <= sum_grid(g, xend, n),
    decreases xend,
{
    if xend > 0 {
        lemma_sum_grid_le(f, g, xend - 1, n);
        lemma_sum_row_le(f, g, xend - 1, n);
    }
}

/// Largest entry among `r[0 .. jend]`.
pub open spec fn row_max_upto(r: Seq<usize>, jend: int) -> int
    decreases jend,
{
    if jend <= 0 {
        0
    } else {
        spec_max(row_max_upto(r, jend - 1), r[jend - 1] as int)
    }
}

/// Largest entry among the first `iend` rows of `m`.
pub open spec fn matrix_max_upto(m: Seq<Seq<usize>>, iend: int) -> int
    decreases iend,
{
    if iend <= 0 {
        0
    } else {
        spec_max(matrix_max_upto(m, iend - 1), row_max_upto(m[iend - 1], m[iend - 1].len() as int))
    }
}

/// Largest entry of the matrix `m` (0 for an empty matrix).
pub open spec fn matrix_max(m: Seq<Seq<usize>>) -> int {
    matrix_max_upto(m, m.len() as int)
}

pub proof fn lemma_row_max_le(r: Seq<usize>, j: int, jend: int)
    requires
        0 <= j < jend <= r.len(),
    ensures
        r[j] <= row_max_upto(r, jend),
    decreases jend,
{
    if j < jend - 1 {
        lemma_row_max_le(r, j, jend - 1);
    }
}

pub proof fn lemma_entry_le_matrix_max(m: Seq<Seq<usize>>, i: int, j: int)
    requires
        0 <= i < m.len(),
        0 <= j < m[i].len(),
    ensures
        m[i][j] <= matrix_max(m),
{
    lemma_row_max_le(m[i], j, m[i].len() as int);
    lemma_matrix_max_upto_le(m, i, m.len() as int);
}

pub proof fn lemma_matrix_max_upto_le(m: Seq<Seq<usize>>, i: int, iend: int)
    requires
        0 <= i < iend <= m.len(),
    ensures
        row_max_upto(m[i], m[i].len() as int) <= matrix_max_upto(m, iend),
    decreases iend,
{
    if i < iend - 1 {
        lemma_matrix_max_upto_le(m, i, iend - 1);
    }
}

pub proof fn lemma_matrix_max_nonneg(m: Seq<Seq<usize>>)
    ensures
        matrix_max(m) >= 0,
    decreases m.len(),
{
}

/// Every demand of a single pair is at most the largest pattern entry.
pub proof fn lemma_contrib_bound(
    g: Seq<Seq<usize>>,
    h: Seq<Seq<usize>>,
    m: Seq<usize>,
    u: int,
    v: int,
    x: int,
    y: int,
    n1: int,
)
    requires
        is_square(g, n1),
        0 <= u < n1,
        0 <= v < n1,
    ensures
        0 <= pair_demand(g, h, m, u, v, x, y) <= matrix_max(g),
{
    lemma_matrix_max_nonneg(g);
    if m[u] == x && m[v] == y && g[u][v] > 0 {
        lemma_entry_le_matrix_max(g, u, v);
    }
}

pub proof fn lemma_need_row_upto_bound(
    g: Seq<Seq<usize>>,
    h: Seq<Seq<usize>>,
    m: Seq<usize>,
    u: int,
    x: int,
    y: int,
    vend: int,
    n1: int,
)
    requires
        is_square(g, n1),
        0 <= u < n1,
        vend <= n1,
    ensures
        0 <= need_row_upto(g, h, m, u, x, y, vend) <= matrix_max(g),
    decreases vend,
{
    lemma_matrix_max_nonneg(g);
    if vend > 0 {
        lemma_need_row_upto_bound(g, h, m, u, x, y, vend - 1, n1);
        lemma_contrib_bound(g, h, m, u, vend - 1, x, y, n1);
    }
}

pub proof fn lemma_need_upto_bound(
    g: Seq<Seq<usize>>,
    h: Seq<Seq<usize>>,
    m: Seq<usize>,
    x: int,
    y: int,
    uend: int,
    n1: int,
)
    requires
        is_square(g, n1),
        m.len() == n1,
        uend <= n1,
    ensures
        0 <= need_upto(g, h, m, x, y, uend) <= matrix_max(g),
    decreases uend,
{
    lemma_matrix_max_nonneg(g);
    if uend > 0 {
        lemma_need_upto_bound(g, h, m, x, y, uend - 1, n1);
        lemma_need_row_upto_bound(g, h, m, uend - 1, x, y, m.len() as int, n1);
    }
}

/// The demand a mapping places at one host pair never exceeds the largest
/// pattern multiplicity.
pub proof fn lemma_mapping_need_bound(
    g: Seq<Seq<usize>>,
    h: Seq<Seq<usize>>,
    m: Seq<usize>,
    x: int,
    y: int,
    n1: int,
)
    requires
        is_square(g, n1),
        m.len() == n1,
    ensures
        0 <= mapping_need(g, h, m, x, y) <= matrix_max(g),
{
    lemma_need_upto_bound(g, h, m, x, y, m.len() as int, n1);
}

/// The combined demand of a set of mappings at one host pair never exceeds
/// the largest pattern multiplicity.
pub proof fn lemma_set_need_bound(
    g: Seq<Seq<usize>>,
    h: Seq<Seq<usize>>,
    ms: Seq<Seq<usize>>,
    x: int,
    y: int,
    n1: int,
)
    requires
        is_square(g, n1),
        forall|i: int| 0 <= i < ms.len() ==> (#[trigger] ms[i]).len() == n1,
    ensures
        0 <= set_need(g, h, ms, x, y) <= matrix_max(g),
    decreases ms.len(),
{
    lemma_matrix_max_nonneg(g);
    if ms.len() > 0 {
        lemma_set_need_bound(g, h, ms.drop_last(), x, y, n1);
        lemma_mapping_need_bound(g, h, ms.last(), x, y, n1);
    }
}

/// A row sum of a pointwise-bounded function is bounded by `yend` times the bound.
pub proof fn lemma_sum_row_bound(f: spec_fn(int, int) -> int, x: int, yend: int, b: int)
    requires
        yend >= 0,
        b >= 0,
        forall|y: int| 0 <= y < yend ==> 0 <= #[trigger] f(x, y) <= b,
    ensures
        0 <= sum_row(f, x, yend) <= yend * b,
    decreases yend,
{
    if yend > 0 {
        lemma_sum_row_bound(f, x, yend - 1, b);
        assert((yend - 1) * b + b == yend * b) by (nonlinear_arith);
    }
}

/// A grid sum of a pointwise-bounded function is bounded by the cell count
/// times the bound.
pub proof fn lemma_sum_grid_bound(f: spec_fn(int, int) -> int, xend: int, n: int, b: int)
    requires
        xend >= 0,
        n >= 0,
        b >= 0,
        forall|x: int, y: int| 0 <= x < xend && 0 <= y < n ==> 0 <= #[trigger] f(x, y) <= b,
    ensures
        0 <= sum_grid(f, xend, n) <= xend * n * b,
    decreases xend,
{
    if xend > 0 {
        lemma_sum_grid_bound(f, xend - 1, n, b);
        lemma_sum_row_bound(f, xend - 1, n, b);
        assert((xend - 1) * (n * b) + n * b == xend * (n * b)) by (nonlinear_arith);
        assert((xend - 1) * n * b == (xend - 1) * (n * b)) by (nonlinear_arith);
        assert(xend * n * b == xend * (n * b)) by (nonlinear_arith);
    }
}

/// Two functions that agree on a row have the same row sum.
pub proof fn lemma_sum_row_congruence(
    f: spec_fn(int, int) -> int,
    g: spec_fn(int, int) -> int,
    x: int,
    yend: int,
)
    requires
        forall|y: int| 0 <= y < yend ==> #[trigger] f(x, y) == g(x, y),
    ensures
        sum_row(f, x, yend) == sum_row(g, x, yend),
    decreases yend,
{
    if yend > 0 {
        lemma_sum_row_congruence(f, g, x, yend - 1);
    }
}

/// Two functions that agree on a grid have the same grid sum.
pub proof fn lemma_sum_grid_congruence(
    f: spec_fn(int, int) -> int,
    g: spec_fn(int, int) -> int,
    xend: int,
    n: int,
)
    requires
        forall|x: int, y: int| 0 <= x < xend && 0 <= y < n ==> #[trigger] f(x, y) == g(x, y),
    ensures
        sum_grid(f, xend, n) == sum_grid(g, xend, n),
    decreases xend,
{
    if xend > 0 {
        lemma_sum_grid_congruence(f, g, xend - 1, n);
        lemma_sum_row_congruence(f, g, xend - 1, n);
    }
}

/// Changing a function at a single cell changes the grid sum by the
/// difference at that cell.
pub proof fn lemma_sum_grid_update(
    f: spec_fn(int, int) -> int,
    g: spec_fn(int, int) -> int,
    x0: int,
    y0: int,
    xend: int,
    n: int,
)
    requires
        0 <= x0 < xend,
        0 <= y0 < n,
        forall|x: int, y: int|
            0 <= x < xend && 0 <= y < n && !(x == x0 && y == y0) ==> #[trigger] f(x, y) == g(x, y),
    ensures
        sum_grid(f, xend, n) == sum_grid(g, xend, n) + f(x0, y0) - g(x0, y0),
    decreases xend,
{
    if x0 == xend - 1 {
        lemma_sum_grid_congruence(f, g, xend - 1, n);
        lemma_sum_row_update(f, g, x0, y0, n);
    } else {
        lemma_sum_grid_update(f, g, x0, y0, xend - 1, n);
        lemma_sum_row_congruence(f, g, xend - 1, n);
    }
}

/// Changing a function at a single cell changes the row sum by the
/// difference at that cell.
pub proof fn lemma_sum_row_update(
    f: spec_fn(int, int) -> int,
    g: spec_fn(int, int) -> int,
    x: int,
    y0: int,
    yend: int,
)
    requires
        0 <= y0 < yend,
        forall|y: int| 0 <= y < yend && y != y0 ==> #[trigger] f(x, y) == g(x, y),
    ensures
        sum_row(f, x, yend) == sum_row(g, x, yend) + f(x, y0) - g(x, y0),
    decreases yend,
{
    if y0 == yend - 1 {
        lemma_sum_row_congruence(f, g, x, yend - 1);
    } else {
        lemma_sum_row_update(f, g, x, y0, yend - 1);
    }
}

/// The row sum of the zero function is zero.
pub proof fn lemma_sum_row_zero(f: spec_fn(int, int) -> int, x: int, yend: int)
    requires
        forall|y: int| 0 <= y < yend ==> #[trigger] f(x, y) == 0,
    ensures
        sum_row(f, x, yend) == 0,
    decreases yend,
{
    if yend > 0 {
        lemma_sum_row_zero(f, x, yend - 1);
    }
}

/// The grid sum of the zero function is zero.
pub proof fn lemma_sum_grid_zero(f: spec_fn(int, int) -> int, xend: int, n: int)
    requires
        forall|x: int, y: int| 0 <= x < xend && 0 <= y < n ==> #[trigger] f(x, y) == 0,
    ensures
        sum_grid(f, xend, n) == 0,
    decreases xend,
{
    if xend > 0 {
        lemma_sum_grid_zero(f, xend - 1, n);
        lemma_sum_row_zero(f, xend - 1, n);
    }
}

pub proof fn lemma_row_cost_bound(
    g: Seq<Seq<usize>>,
    h: Seq<Seq<usize>>,
    ms: Seq<Seq<usize>>,
    x: int,
    yend: int,
    n1: int,
)
    requires
        is_square(g, n1),
        forall|i: int| 0 <= i < ms.len() ==> (#[trigger] ms[i]).len() == n1,
        yend >= 0,
    ensures
        0 <= row_cost_upto(g, h, ms, x, yend) <= yend * matrix_max(g),
    decreases yend,
{
    lemma_matrix_max_nonneg(g);
    if yend > 0 {
        lemma_row_cost_bound(g, h, ms, x, yend - 1, n1);
        lemma_set_need_bound(g, h, ms, x, yend - 1, n1);
        assert((yend - 1) * matrix_max(g) + matrix_max(g) == yend * matrix_max(g))
            by (nonlinear_arith);
    }
}

pub proof fn lemma_cost_rows_bound(
    g: Seq<Seq<usize>>,
    h: Seq<Seq<usize>>,
    ms: Seq<Seq<usize>>,
    xend: int,
    n2: int,
    n1: int,
)
    requires
        is_square(g, n1),
        forall|i: int| 0 <= i < ms.len() ==> (#[trigger] ms[i]).len() == n1,
        xend >= 0,
        n2 >= 0,
    ensures
        0 <= cost_rows_upto(g, h, ms, xend, n2) <= xend * n2 * matrix_max(g),
    decreases xend,
{
    lemma_matrix_max_nonneg(g);
    if xend > 0 {
        lemma_cost_rows_bound(g, h, ms, xend - 1, n2, n1);
        lemma_row_cost_bound(g, h, ms, xend - 1, n2, n1);
        assert((xend - 1) * n2 * matrix_max(g) + n2 * matrix_max(g) == xend * n2 * matrix_max(g))
            by (nonlinear_arith);
    }
}

/// The objective is nonnegative and at most `n2 * n2` times the largest
/// pattern multiplicity.
pub proof fn lemma_solution_cost_bound(
    g: Seq<Seq<usize>>,
    h: Seq<Seq<usize>>,
    ms: Seq<Seq<usize>>,
    n2: int,
    n1: int,
)
    requires
        is_square(g, n1),
        forall|i: int| 0 <= i < ms.len() ==> (#[trigger] ms[i]).len() == n1,
        n2 >= 0,
    ensures
        0 <= solution_cost(g, h, ms, n2) <= n2 * n2 * matrix_max(g),
{
    lemma_cost_rows_bound(g, h, ms, n2, n2, n1);
}

pub proof fn lemma_set_need_nonneg(
    g: Seq<Seq<usize>>,
    h: Seq<Seq<usize>>,
    ms: Seq<Seq<usize>>,
    x: int,
    y: int,
)
    ensures
        set_need(g, h, ms, x, y) >= 0,
    decreases ms.len(),
{
    if ms.len() > 0 {
        lemma_set_need_nonneg(g, h, ms.drop_last(), x, y);
    }
}

/// No single mapping of a set demands more at a host pair than the set does.
pub proof fn lemma_set_need_ge_elem(
    g: Seq<Seq<usize>>,
    h: Seq<Seq<usize>>,
    ms: Seq<Seq<usize>>,
    i: int,
    x: int,
    y: int,
)
    requires
        0 <= i < ms.len(),
    ensures
        mapping_need(g, h, ms[i], x, y) <= set_need(g, h, ms, x, y),
    decreases ms.len(),
{
    if i < ms.len() - 1 {
        assert(ms.drop_last()[i] == ms[i]);
        lemma_set_need_ge_elem(g, h, ms.drop_last(), i, x, y);
    }
}

/// The combined demand only depends on which mappings are in the set: a set
/// whose mappings all occur in another demands no more than that other.
pub proof fn lemma_set_need_subset(
    g: Seq<Seq<usize>>,
    h: Seq<Seq<usize>>,
    a: Seq<Seq<usize>>,
    b: Seq<Seq<usize>>,
    x: int,
    y: int,
)
    requires
        forall|i: int| 0 <= i < a.len() ==> b.contains(#[trigger] a[i]),
    ensures
        set_need(g, h, a, x, y) <= set_need(g, h, b, x, y),
    decreases a.len(),
{
    lemma_set_need_nonneg(g, h, b, x, y);
    if a.len() > 0 {
        assert forall|i: int| 0 <= i < a.drop_last().len() implies b.contains(
            #[trigger] a.drop_last()[i],
        ) by {
            assert(a.drop_last()[i] == a[i]);
        }
        lemma_set_need_subset(g, h, a.drop_last(), b, x, y);
        assert(b.contains(a[a.len() - 1]));
        let j = choose|j: int| 0 <= j < b.len() && b[j] == a[a.len() - 1];
        lemma_set_need_ge_elem(g, h, b, j, x, y);
    }
}

proof fn lemma_row_cost_same_elements(
    g: Seq<Seq<usize>>,
    h: Seq<Seq<usize>>,
    a: Seq<Seq<usize>>,
    b: Seq<Seq<usize>>,
    x: int,
    yend: int,
)
    requires
        forall|i: int| 0 <= i < a.len() ==> b.contains(#[trigger] a[i]),
        forall|i: int| 0 <= i < b.len() ==> a.contains(#[trigger] b[i]),
    ensures
        row_cost_upto(g, h, a, x, yend) == row_cost_upto(g, h, b, x, yend),
    decreases yend,
{
    if yend > 0 {
        lemma_row_cost_same_elements(g, h, a, b, x, yend - 1);
        lemma_set_need_subset(g, h, a, b, x, yend - 1);
        lemma_set_need_subset(g, h, b, a, x, yend - 1);
    }
}

proof fn lemma_cost_rows_same_elements(
    g: Seq<Seq<usize>>,
    h: Seq<Seq<usize>>,
    a: Seq<Seq<usize>>,
    b: Seq<Seq<usize>>,
    xend: int,
    n2: int,
)
    requires
        forall|i: int| 0 <= i < a.len() ==> b.contains(#[trigger] a[i]),
        forall|i: int| 0 <= i < b.len() ==> a.contains(#[trigger] b[i]),
    ensures
        cost_rows_upto(g, h, a, xend, n2) == cost_rows_upto(g, h, b, xend, n2),
    decreases xend,
{
    if xend > 0 {
        lemma_cost_rows_same_elements(g, h, a, b, xend - 1, n2);
        lemma_row_cost_same_elements(g, h, a, b, xend - 1, n2);
    }
}

/// The objective only depends on which mappings the set holds, not on their
/// order or multiplicity: two lists with the same mappings cost the same.
pub proof fn lemma_solution_cost_same_elements(
    g: Seq<Seq<usize>>,
    h: Seq<Seq<usize>>,
    a: Seq<Seq<usize>>,
    b: Seq<Seq<usize>>,
    n2: int,
)
    requires
        forall|i: int| 0 <= i < a.len() ==> b.contains(#[trigger] a[i]),
        forall|i: int| 0 <= i < b.len() ==> a.contains(#[trigger] b[i]),
    ensures
        solution_cost(g, h, a, n2) == solution_cost(g, h, b, n2),
{
    lemma_cost_rows_same_elements(g, h, a, b, n2, n2);
}

} // verus!
