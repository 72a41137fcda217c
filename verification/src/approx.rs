use vstd::prelude::*;

use rand::Rng;

use crate::cost::{
    calculate_edge_map, calculate_total_cost, lemma_edge_map_total, lemma_edge_map_total_bound,
    lemma_edge_map_total_le, EdgeMap,
};
use crate::model::{
    is_square, lemma_entry_le_matrix_max, lemma_mapping_need_antimonotone, lemma_matrix_max_nonneg,
    lemma_set_need_bound, lemma_solution_cost_bound, mapping_in_range, matrix_max, set_need,
    solution_cost, spec_max, valid_mapping,
};
use crate::{Graph, Infeasible, Mapping};

verus! {

/// Relies on rand::Rng::gen_range over the range 0..n, with the thread-local
/// generator: the result is below n; the call panics only on an empty range,
/// which the precondition excludes.
#[verifier::external_body]
fn random_below(n: usize) -> (r: usize)
    requires
        n > 0,
    ensures
        r < n,
{
    rand::thread_rng().gen_range(0..n)
}

/// What placing `u_i` on `v_j` costs against the single already-placed
/// pattern vertex `u`: the saturating deficits of the pattern edges between
/// `u_i` and `u`, in both directions, against the working host matrix `h`.
pub open spec fn pair_local_cost(
    g: Seq<Seq<usize>>,
    h: Seq<Seq<usize>>,
    partial: Seq<Option<usize>>,
    u_i: int,
    v_j: int,
    u: int,
) -> int {
    match partial[u] {
        Some(vm) => {
            let fwd = if g[u_i][u] > 0 {
                if g[u_i][u] > h[v_j][vm as int] {
                    g[u_i][u] - h[v_j][vm as int]
                } else {
                    0
                }
            } else {
                0
            };
            let rev = if g[u][u_i] > 0 {
                if g[u][u_i] > h[vm as int][v_j] {
                    g[u][u_i] - h[vm as int][v_j]
                } else {
                    0
                }
            } else {
                0
            };
            fwd + rev
        },
        None => 0,
    }
}

pub open spec fn local_cost_upto(
    g: Seq<Seq<usize>>,
    h: Seq<Seq<usize>>,
    partial: Seq<Option<usize>>,
    u_i: int,
    v_j: int,
    uend: int,
) -> int
    decreases uend,
{
    if uend <= 0 {
        0
    } else {
        local_cost_upto(g, h, partial, u_i, v_j, uend - 1) + pair_local_cost(
            g,
            h,
            partial,
            u_i,
            v_j,
            uend - 1,
        )
    }
}

/// The greedy selection objective: the sum, over every already-placed
/// pattern vertex, of the saturating deficits in both directions that
/// placing `u_i` on `v_j` would leave against the working host matrix.
pub open spec fn local_cost(
    g: Seq<Seq<usize>>,
    h: Seq<Seq<usize>>,
    partial: Seq<Option<usize>>,
    u_i: int,
    v_j: int,
) -> int {
    local_cost_upto(g, h, partial, u_i, v_j, partial.len() as int)
}

proof fn lemma_pair_local_cost_bound(
    g: Seq<Seq<usize>>,
    h: Seq<Seq<usize>>,
    partial: Seq<Option<usize>>,
    u_i: int,
    v_j: int,
    u: int,
    n1: int,
)
    requires
        is_square(g, n1),
        0 <= u_i < n1,
        0 <= u < n1,
    ensures
        0 <= pair_local_cost(g, h, partial, u_i, v_j, u) <= 2 * matrix_max(g),
{
    lemma_matrix_max_nonneg(g);
    if partial[u] is Some {
        lemma_entry_le_matrix_max(g, u_i, u);
        lemma_entry_le_matrix_max(g, u, u_i);
    }
}

proof fn lemma_local_cost_upto_bound(
    g: Seq<Seq<usize>>,
    h: Seq<Seq<usize>>,
    partial: Seq<Option<usize>>,
    u_i: int,
    v_j: int,
    uend: int,
    n1: int,
)
    requires
        is_square(g, n1),
        0 <= u_i < n1,
        0 <= uend <= n1,
    ensures
        0 <= local_cost_upto(g, h, partial, u_i, v_j, uend) <= 2 * uend * matrix_max(g),
    decreases uend,
{
    lemma_matrix_max_nonneg(g);
    if uend > 0 {
        lemma_local_cost_upto_bound(g, h, partial, u_i, v_j, uend - 1, n1);
        lemma_pair_local_cost_bound(g, h, partial, u_i, v_j, uend - 1, n1);
        assert(2 * (uend - 1) * matrix_max(g) + 2 * matrix_max(g) == 2 * uend * matrix_max(g))
            by (nonlinear_arith);
    }
}

/// Calculate the local cost of mapping pattern vertex `u_i` to host vertex
/// `v_j`, given the current partial mapping: the deficits, in both
/// directions, against every already-placed pattern vertex.
pub fn calculate_local_cost(
    u_i: usize,
    v_j: usize,
    g: &Graph,
    h_prime: &Graph,
    partial: &Vec<Option<usize>>,
) -> (cost: usize)
    requires
        g.wf(),
        h_prime.wf(),
        partial@.len() == g.n,
        u_i < g.n,
        v_j < h_prime.n,
        forall|u: int|
            0 <= u < g.n ==> ((#[trigger] partial@[u]) is Some ==> partial@[u]->0 < h_prime.n),
        2 * g.n * matrix_max(g@) <= usize::MAX,
    ensures
        cost == local_cost(g@, h_prime@, partial@, u_i as int, v_j as int),
{
    let ghost n1 = g.n as int;
    let n_g = g.num_vertices();
    let mut cost: usize = 0;
    let mut u: usize = 0;
    proof {
        assert(is_square(g@, n1));
    }
    while u < n_g
        invariant
            u <= n_g,
            n_g == g.n,
            n1 == g.n,
            g.wf(),
            h_prime.wf(),
            partial@.len() == g.n,
            u_i < g.n,
            v_j < h_prime.n,
            forall|w: int|
                0 <= w < g.n ==> ((#[trigger] partial@[w]) is Some ==> partial@[w]->0
                    < h_prime.n),
            2 * g.n * matrix_max(g@) <= usize::MAX,
            cost == local_cost_upto(g@, h_prime@, partial@, u_i as int, v_j as int, u as int),
        decreases n_g - u,
    {
        proof {
            assert(is_square(g@, n1));
            lemma_local_cost_upto_bound(g@, h_prime@, partial@, u_i as int, v_j as int, u as int, n1);
            lemma_pair_local_cost_bound(g@, h_prime@, partial@, u_i as int, v_j as int, u as int, n1);
            assert(2 * (u as int) * matrix_max(g@) + 2 * matrix_max(g@) <= 2 * n1 * matrix_max(g@))
                by (nonlinear_arith)
                requires
                    u as int <= n1 - 1,
                    matrix_max(g@) >= 0,
            ;
        }
        let p = partial[u];
        match p {
            Some(v_mapped) => {
                // Edge from u_i to u in G
                let g_edge = g.get_edge(u_i, u);
                if g_edge > 0 {
                    let h_edge = h_prime.get_edge(v_j, v_mapped);
                    cost = cost + g_edge.saturating_sub(h_edge);
                }
                // Edge from u to u_i in G
                let g_edge_rev = g.get_edge(u, u_i);
                if g_edge_rev > 0 {
                    let h_edge_rev = h_prime.get_edge(v_mapped, v_j);
                    cost = cost + g_edge_rev.saturating_sub(h_edge_rev);
                }
            },
            None => {},
        }
        u = u + 1;
    }
    cost
}

/// Pick the unused host vertex of least local cost for pattern vertex `u_i`,
/// breaking ties toward the lowest index; `None` exactly when every host
/// vertex is already used.
fn select_best_vertex(
    g: &Graph,
    h_prime: &Graph,
    partial: &Vec<Option<usize>>,
    used_h: &Vec<bool>,
    u_i: usize,
) -> (res: Option<usize>)
    requires
        g.wf(),
        h_prime.wf(),
        partial@.len() == g.n,
        used_h@.len() == h_prime.n,
        u_i < g.n,
        forall|u: int|
            0 <= u < g.n ==> ((#[trigger] partial@[u]) is Some ==> partial@[u]->0 < h_prime.n),
        2 * g.n * matrix_max(g@) <= usize::MAX,
    ensures
        (match res {
            Some(v) => {
                &&& v < h_prime.n
                &&& !used_h@[v as int]
                &&& (forall|v2: int|
                    0 <= v2 < h_prime.n && !used_h@[v2] ==> local_cost(
                        g@,
                        h_prime@,
                        partial@,
                        u_i as int,
                        v as int,
                    ) <= local_cost(g@, h_prime@, partial@, u_i as int, v2))
                &&& (forall|v2: int|
                    0 <= v2 < v && !used_h@[v2] ==> local_cost(
                        g@,
                        h_prime@,
                        partial@,
                        u_i as int,
                        v as int,
                    ) < local_cost(g@, h_prime@, partial@, u_i as int, v2))
            },
            None => forall|v2: int| 0 <= v2 < h_prime.n ==> used_h@[v2],
        }),
{
    let n_h = h_prime.num_vertices();
    let mut best: Option<usize> = None;
    let mut best_cost: usize = 0;
    let mut v_j: usize = 0;
    while v_j < n_h
        invariant
            v_j <= n_h,
            n_h == h_prime.n,
            g.wf(),
            h_prime.wf(),
            partial@.len() == g.n,
            used_h@.len() == h_prime.n,
            u_i < g.n,
            forall|u: int|
                0 <= u < g.n ==> ((#[trigger] partial@[u]) is Some ==> partial@[u]->0
                    < h_prime.n),
            2 * g.n * matrix_max(g@) <= usize::MAX,
            (match best {
                Some(v) => {
                    &&& v < v_j
                    &&& !used_h@[v as int]
                    &&& best_cost == local_cost(g@, h_prime@, partial@, u_i as int, v as int)
                    &&& (forall|v2: int|
                        0 <= v2 < v_j && !used_h@[v2] ==> best_cost <= local_cost(
                            g@,
                            h_prime@,
                            partial@,
                            u_i as int,
                            v2,
                        ))
                    &&& (forall|v2: int|
                        0 <= v2 < v && !used_h@[v2] ==> best_cost < local_cost(
                            g@,
                            h_prime@,
                            partial@,
                            u_i as int,
                            v2,
                        ))
                },
                None => forall|v2: int| 0 <= v2 < v_j ==> used_h@[v2],
            }),
        decreases n_h - v_j,
    {
        if !used_h[v_j] {
            let c = calculate_local_cost(u_i, v_j, g, h_prime, partial);
            match best {
                None => {
                    best = Some(v_j);
                    best_cost = c;
                },
                Some(_) => {
                    if c < best_cost {
                        best = Some(v_j);
                        best_cost = c;
                    }
                },
            }
        }
        v_j = v_j + 1;
    }
    best
}

/// Largest pattern multiplicity that `m` routes to the host pair `(x, y)`
/// from the pairs `(u, v)` with `v < vend`, for one `u`.
pub open spec fn demand_row_upto(
    g: Seq<Seq<usize>>,
    m: Seq<usize>,
    u: int,
    x: int,
    y: int,
    vend: int,
) -> int
    decreases vend,
{
    if vend <= 0 {
        0
    } else {
        spec_max(
            demand_row_upto(g, m, u, x, y, vend - 1),
            if m[u] == x && m[vend - 1] == y {
                g[u][vend - 1] as int
            } else {
                0int
            },
        )
    }
}

pub open spec fn demand_upto(
    g: Seq<Seq<usize>>,
    m: Seq<usize>,
    x: int,
    y: int,
    uend: int,
) -> int
    decreases uend,
{
    if uend <= 0 {
        0
    } else {
        spec_max(demand_upto(g, m, x, y, uend - 1), demand_row_upto(g, m, uend - 1, x, y, m.len() as int))
    }
}

/// The multiplicity the host must reach at `(x, y)` so that mapping `m` of
/// pattern `g` is fully satisfied there.
pub open spec fn mapping_demand(g: Seq<Seq<usize>>, m: Seq<usize>, x: int, y: int) -> int {
    demand_upto(g, m, x, y, m.len() as int)
}

pub open spec fn partial_demand(
    g: Seq<Seq<usize>>,
    m: Seq<usize>,
    x: int,
    y: int,
    u: int,
    v: int,
) -> int {
    spec_max(demand_upto(g, m, x, y, u), demand_row_upto(g, m, u, x, y, v))
}

/// Apply the extension to the working host copy: raise each host pair that
/// the mapping uses to the multiplicity the pattern demands there, so the
/// host monotonically grows to satisfy the mapping.
pub fn apply_extension(h_prime: &mut Graph, g: &Graph, mapping: &Mapping)
    requires
        g.wf(),
        old(h_prime).wf(),
        mapping_in_range(g.n as int, old(h_prime).n as int, mapping@),
    ensures
        final(h_prime).wf(),
        final(h_prime).n == old(h_prime).n,
        forall|x: int, y: int|
            0 <= x < old(h_prime).n && 0 <= y < old(h_prime).n ==> final(h_prime)@[x][y] as int
                == spec_max(old(h_prime)@[x][y] as int, mapping_demand(g@, mapping@, x, y)),
{
    let ghost n1 = g.n as int;
    let ghost n2 = old(h_prime).n as int;
    let ghost h0 = old(h_prime)@;
    let n_g = g.num_vertices();
    let mut u: usize = 0;
    proof {
        assert forall|x: int, y: int| 0 <= x < n2 && 0 <= y < n2 implies h_prime@[x][y] as int
            == spec_max(h0[x][y] as int, partial_demand(g@, mapping@, x, y, 0, 0)) by {}
    }
    while u < n_g
        invariant
            u <= n_g,
            n_g == g.n,
            n1 == g.n,
            n2 == old(h_prime).n,
            h0 == old(h_prime)@,
            g.wf(),
            h_prime.wf(),
            h_prime.n == old(h_prime).n,
            mapping_in_range(n1, n2, mapping@),
            forall|x: int, y: int|
                0 <= x < n2 && 0 <= y < n2 ==> h_prime@[x][y] as int == spec_max(
                    h0[x][y] as int,
                    partial_demand(g@, mapping@, x, y, u as int, 0),
                ),
        decreases n_g - u,
    {
        let mut v: usize = 0;
        while v < n_g
            invariant
                v <= n_g,
                u < n_g,
                n_g == g.n,
                n1 == g.n,
                n2 == old(h_prime).n,
                h0 == old(h_prime)@,
                g.wf(),
                h_prime.wf(),
                h_prime.n == old(h_prime).n,
                mapping_in_range(n1, n2, mapping@),
                forall|x: int, y: int|
                    0 <= x < n2 && 0 <= y < n2 ==> h_prime@[x][y] as int == spec_max(
                        h0[x][y] as int,
                        partial_demand(g@, mapping@, x, y, u as int, v as int),
                    ),
            decreases n_g - v,
        {
            let x = mapping[u];
            let y = mapping[v];
            let required = g.get_edge(u, v);
            let ghost before = h_prime@;
            let ghost before_adj = h_prime.adj@;
            if required > h_prime.get_edge(x, y) {
                let row = &mut h_prime.adj[x];
                row[y] = required;
                proof {
                    assert(h_prime.adj@.len() == before_adj.len());
                    assert(h_prime.adj@[x as int]@ =~= before_adj[x as int]@.update(
                        y as int,
                        required,
                    ));
                    assert(h_prime@.len() == before.len());
                    assert forall|x2: int, y2: int|
                        0 <= x2 < n2 && 0 <= y2 < n2 implies h_prime@[x2][y2] as int == (if x2
                        == x as int && y2 == y as int {
                        required as int
                    } else {
                        before[x2][y2] as int
                    }) by {
                        assert(h_prime@[x2] == h_prime.adj@[x2].deep_view());
                        assert(before[x2] == before_adj[x2].deep_view());
                        if x2 == x as int {
                            assert(h_prime.adj@[x2]@ == before_adj[x2]@.update(y as int, required));
                            assert(h_prime.adj@[x2].deep_view()[y2] == h_prime.adj@[x2]@[y2]);
                            assert(before_adj[x2].deep_view()[y2] == before_adj[x2]@[y2]);
                        } else {
                            assert(h_prime.adj@[x2] == before_adj[x2]);
                        }
                    }
                    assert forall|x2: int| 0 <= x2 < h_prime@.len() implies (
                    #[trigger] h_prime@[x2]).len() == h_prime.n by {
                        assert(h_prime@[x2] == h_prime.adj@[x2].deep_view());
                        assert(before[x2] == before_adj[x2].deep_view());
                        if x2 == x as int {
                            assert(h_prime.adj@[x2]@ == before_adj[x2]@.update(y as int, required));
                            assert(h_prime.adj@[x2]@.len() == before_adj[x2]@.len());
                        } else {
                            assert(h_prime.adj@[x2] == before_adj[x2]);
                        }
                        assert(before[x2].len() == h_prime.n);
                    }
                }
            }
            proof {
                assert forall|x2: int, y2: int|
                    0 <= x2 < n2 && 0 <= y2 < n2 implies h_prime@[x2][y2] as int == spec_max(
                    h0[x2][y2] as int,
                    partial_demand(g@, mapping@, x2, y2, u as int, v as int + 1),
                ) by {
                    assert(demand_row_upto(g@, mapping@, u as int, x2, y2, v as int + 1)
                        == spec_max(
                        demand_row_upto(g@, mapping@, u as int, x2, y2, v as int),
                        if mapping@[u as int] == x2 && mapping@[v as int] == y2 {
                            g@[u as int][v as int] as int
                        } else {
                            0
                        },
                    ));
                }
            }
            v = v + 1;
        }
        proof {
            assert forall|x2: int, y2: int| partial_demand(g@, mapping@, x2, y2, u as int + 1, 0)
                == partial_demand(g@, mapping@, x2, y2, u as int, n_g as int) by {
                assert(demand_upto(g@, mapping@, x2, y2, u as int + 1) == spec_max(
                    demand_upto(g@, mapping@, x2, y2, u as int),
                    demand_row_upto(g@, mapping@, u as int, x2, y2, mapping@.len() as int),
                ));
            }
        }
        u = u + 1;
    }
    proof {
        assert forall|x: int, y: int| 0 <= x < n2 && 0 <= y < n2 implies h_prime@[x][y] as int
            == spec_max(h0[x][y] as int, mapping_demand(g@, mapping@, x, y)) by {
            assert(partial_demand(g@, mapping@, x, y, n_g as int, 0) == mapping_demand(
                g@,
                mapping@,
                x,
                y,
            ));
        }
    }
}

/// A vector of mappings, seen abstractly, is the sequence of its elements'
/// views.
proof fn lemma_deep_view_points(v: Vec<Mapping>)
    ensures
        v.deep_view().len() == v@.len(),
        forall|i: int| 0 <= i < v@.len() ==> v.deep_view()[i] == (#[trigger] v@[i])@,
{
    assert forall|i: int| 0 <= i < v@.len() implies v.deep_view()[i] == (#[trigger] v@[i])@ by {
        assert(v.deep_view()[i] == v@[i].deep_view());
        assert(v@[i].deep_view() =~= v@[i]@);
    }
}

fn vecs_equal(a: &Vec<usize>, b: &Vec<usize>) -> (r: bool)
    ensures
        r <==> a@ == b@,
{
    if a.len() != b.len() {
        return false;
    }
    let n = a.len();
    let mut i: usize = 0;
    while i < n
        invariant
            i <= n,
            n == a@.len(),
            a@.len() == b@.len(),
            forall|j: int| 0 <= j < i ==> a@[j] == b@[j],
        decreases n - i,
    {
        if a[i] != b[i] {
            return false;
        }
        i = i + 1;
    }
    proof {
        assert(a@ =~= b@);
    }
    true
}

fn mappings_contains(used: &Vec<Mapping>, m: &Vec<usize>) -> (r: bool)
    ensures
        r <==> (exists|i: int| 0 <= i < used@.len() && (#[trigger] used.deep_view()[i]) == m@),
{
    proof {
        lemma_deep_view_points(*used);
    }
    let n = used.len();
    let mut i: usize = 0;
    while i < n
        invariant
            i <= n,
            n == used@.len(),
            forall|j: int| 0 <= j < used@.len() ==> used.deep_view()[j] == (#[trigger] used@[j])@,
            forall|j: int| 0 <= j < i ==> (#[trigger] used.deep_view()[j]) != m@,
        decreases n - i,
    {
        if vecs_equal(&used[i], m) {
            proof {
                assert(used.deep_view()[i as int] == m@);
            }
            return true;
        }
        i = i + 1;
    }
    false
}

/// How many of the first `n` entries of `s` are set.
spec fn count_true(s: Seq<bool>, n: int) -> int
    decreases n,
{
    if n <= 0 {
        0
    } else {
        count_true(s, n - 1) + if s[n - 1] {
            1int
        } else {
            0int
        }
    }
}

proof fn lemma_count_true_none(s: Seq<bool>, n: int)
    requires
        forall|w: int| 0 <= w < n ==> !(#[trigger] s[w]),
    ensures
        count_true(s, n) == 0,
    decreases n,
{
    if n > 0 {
        lemma_count_true_none(s, n - 1);
    }
}

proof fn lemma_count_true_all(s: Seq<bool>, n: int)
    requires
        n >= 0,
        forall|w: int| 0 <= w < n ==> #[trigger] s[w],
    ensures
        count_true(s, n) == n,
    decreases n,
{
    if n > 0 {
        lemma_count_true_all(s, n - 1);
        assert(s[n - 1]);
    }
}

proof fn lemma_count_true_congruent(a: Seq<bool>, b: Seq<bool>, n: int)
    requires
        forall|w: int| 0 <= w < n ==> #[trigger] a[w] == b[w],
    ensures
        count_true(a, n) == count_true(b, n),
    decreases n,
{
    if n > 0 {
        lemma_count_true_congruent(a, b, n - 1);
    }
}

/// Marking one unmarked entry raises the count by one.
proof fn lemma_count_true_update(s: Seq<bool>, v: int, n: int)
    requires
        0 <= v < n <= s.len(),
    ensures
        count_true(s.update(v, true), n) == count_true(s, n) + if s[v] {
            0int
        } else {
            1int
        },
    decreases n,
{
    let t = s.update(v, true);
    if v == n - 1 {
        assert forall|w: int| 0 <= w < n - 1 implies #[trigger] s[w] == t[w] by {}
        lemma_count_true_congruent(s, t, n - 1);
    } else {
        lemma_count_true_update(s, v, n - 1);
        assert(t[n - 1] == s[n - 1]);
    }
}

/// Find an approximately best next mapping by randomized greedy trials: each
/// trial seeds one random pattern/host vertex pair, places the remaining
/// pattern vertices greedily by least local cost, and the cheapest completed
/// mapping not yet used is returned with its edge map against the working
/// host copy. `None` when no trial produced a usable mapping: always when no
/// trial runs or the host is smaller than the pattern, and never on the
/// first stage of a feasible instance, where every trial completes and the
/// empty used-set rejects nothing.
pub fn approximate_best_mapping(
    g: &Graph,
    h_prime: &Graph,
    used_mappings: &Vec<Mapping>,
    trials_multiplier: usize,
) -> (res: Option<(Mapping, EdgeMap)>)
    requires
        g.wf(),
        h_prime.wf(),
        h_prime.n * h_prime.n * matrix_max(g@) <= usize::MAX,
        2 * g.n * matrix_max(g@) <= usize::MAX,
        g.n * h_prime.n <= usize::MAX,
        g.n * h_prime.n * trials_multiplier <= usize::MAX,
    ensures
        (match res {
            Some((m, em)) => {
                &&& valid_mapping(g.n as int, h_prime.n as int, m@)
                &&& (forall|i: int|
                    0 <= i < used_mappings@.len() ==> (#[trigger] used_mappings.deep_view()[i])
                        != m@)
                &&& em.wf()
                &&& em.keys_below(h_prime.n as int)
                &&& (forall|x: int, y: int|
                    #[trigger] em.spec_get(x, y) == set_need(g@, h_prime@, seq![m@], x, y))
            },
            None => true,
        }),
        g.n * h_prime.n * trials_multiplier == 0 ==> res is None,
        g.n > h_prime.n ==> res is None,
        (used_mappings@.len() == 0 && 1 <= g.n && g.n <= h_prime.n && trials_multiplier >= 1)
            ==> res is Some,
{
    let ghost n1 = g.n as int;
    let ghost n2 = h_prime.n as int;
    let n_g = g.num_vertices();
    let n_h = h_prime.num_vertices();
    let t = n_g * n_h * trials_multiplier;  // Number of trials

    let mut have: bool = false;
    let mut min_global_cost: usize = 0;
    let mut best_global_mapping: Vec<usize> = Vec::new();
    let mut best_edges_to_add = EdgeMap::new();

    let mut trial: usize = 0;
    while trial < t
        invariant
            trial <= t,
            n_g == g.n,
            n_h == h_prime.n,
            n1 == g.n,
            n2 == h_prime.n,
            t == g.n * h_prime.n * trials_multiplier,
            g.wf(),
            h_prime.wf(),
            h_prime.n * h_prime.n * matrix_max(g@) <= usize::MAX,
            2 * g.n * matrix_max(g@) <= usize::MAX,
            have ==> {
                &&& valid_mapping(n1, n2, best_global_mapping@)
                &&& (forall|i: int|
                    0 <= i < used_mappings@.len() ==> (#[trigger] used_mappings.deep_view()[i])
                        != best_global_mapping@)
                &&& best_edges_to_add.wf()
                &&& best_edges_to_add.keys_below(n2)
                &&& (forall|x: int, y: int|
                    #[trigger] best_edges_to_add.spec_get(x, y) == set_need(
                        g@,
                        h_prime@,
                        seq![best_global_mapping@],
                        x,
                        y,
                    ))
            },
            have ==> t > 0,
            g.n > h_prime.n ==> !have,
            (used_mappings@.len() == 0 && n_g <= n_h && trial > 0) ==> have,
        decreases t - trial,
    {
        proof {
            assert(n_g >= 1 && n_h >= 1) by {
                if g.n == 0 || h_prime.n == 0 {
                    assert(g.n * h_prime.n * trials_multiplier == 0) by (nonlinear_arith)
                        requires
                            g.n == 0 || h_prime.n == 0,
                    ;
                }
            }
        }
        // Random initial vertex mapping
        let mut partial: Vec<Option<usize>> = Vec::new();
        let mut ii: usize = 0;
        while ii < n_g
            invariant
                ii <= n_g,
                partial@.len() == ii,
                forall|u: int| 0 <= u < ii ==> (#[trigger] partial@[u]) is None,
            decreases n_g - ii,
        {
            partial.push(None);
            ii = ii + 1;
        }
        let mut used_h: Vec<bool> = Vec::new();
        let mut jj: usize = 0;
        while jj < n_h
            invariant
                jj <= n_h,
                used_h@.len() == jj,
                forall|w: int| 0 <= w < jj ==> !(#[trigger] used_h@[w]),
            decreases n_h - jj,
        {
            used_h.push(false);
            jj = jj + 1;
        }

        let u_start = random_below(n_g);
        let v_start = random_below(n_h);
        let ghost used_fresh = used_h@;
        partial[u_start] = Some(v_start);
        used_h[v_start] = true;
        proof {
            lemma_count_true_none(used_fresh, n_h as int);
            lemma_count_true_update(used_fresh, v_start as int, n_h as int);
            assert(count_true(used_h@, n_h as int) == 1);
        }

        // Greedily map remaining vertices
        let mut u_i: usize = 0;
        let mut stuck: bool = false;
        while u_i < n_g
            invariant
                u_i <= n_g,
                n_g == g.n,
                n_h == h_prime.n,
                n1 == g.n,
                n2 == h_prime.n,
                g.wf(),
                h_prime.wf(),
                2 * g.n * matrix_max(g@) <= usize::MAX,
                partial@.len() == n_g,
                used_h@.len() == n_h,
                forall|u: int|
                    0 <= u < n_g ==> ((#[trigger] partial@[u]) is Some ==> partial@[u]->0 < n_h
                        && used_h@[partial@[u]->0 as int]),
                forall|u1: int, u2: int|
                    0 <= u1 < u2 < n_g && (#[trigger] partial@[u1]) is Some && (
                    #[trigger] partial@[u2]) is Some ==> partial@[u1]->0 != partial@[u2]->0,
                u_start < n_g,
                v_start < n_h,
                n_g <= n_h ==> {
                    &&& !stuck
                    &&& (forall|u: int|
                        0 <= u < n_g ==> ((#[trigger] partial@[u]) is Some <==> (u == u_start || u
                            < u_i)))
                    &&& count_true(used_h@, n_h as int) == u_i + (if u_start < u_i {
                        0int
                    } else {
                        1int
                    })
                },
            decreases n_g - u_i,
        {
            let p = partial[u_i];
            if !stuck && p.is_none() {
                match select_best_vertex(g, h_prime, &partial, &used_h, u_i) {
                    Some(v_j) => {
                        let ghost partial0 = partial@;
                        let ghost used0 = used_h@;
                        partial[u_i] = Some(v_j);
                        used_h[v_j] = true;
                        proof {
                            if n_g <= n_h {
                                // the fresh host vertex raises the used count by one
                                lemma_count_true_update(used0, v_j as int, n_h as int);
                                assert(!used0[v_j as int]);
                                assert(partial0[u_i as int] is None);
                                assert(u_i != u_start);
                                assert forall|u: int|
                                    0 <= u < n_g implies ((#[trigger] partial@[u]) is Some <==> (u
                                    == u_start || u < u_i + 1)) by {
                                    if u != u_i {
                                        assert(partial@[u] == partial0[u]);
                                    }
                                }
                            }
                            assert forall|u: int|
                                0 <= u < n_g && (#[trigger] partial@[u]) is Some implies partial@[u]->0
                                < n_h && used_h@[partial@[u]->0 as int] by {
                                if u != u_i {
                                    assert(partial@[u] == partial0[u]);
                                    assert(used0[partial0[u]->0 as int]);
                                }
                            }
                            assert forall|u1: int, u2: int|
                                0 <= u1 < u2 < n_g && (#[trigger] partial@[u1]) is Some && (
                                #[trigger] partial@[u2]) is Some implies partial@[u1]->0
                                != partial@[u2]->0 by {
                                if u1 == u_i {
                                    assert(partial@[u2] == partial0[u2]);
                                    assert(used0[partial0[u2]->0 as int]);
                                    assert(!used0[v_j as int]);
                                } else if u2 == u_i {
                                    assert(partial@[u1] == partial0[u1]);
                                    assert(used0[partial0[u1]->0 as int]);
                                    assert(!used0[v_j as int]);
                                } else {
                                    assert(partial@[u1] == partial0[u1]);
                                    assert(partial@[u2] == partial0[u2]);
                                }
                            }
                        }
                    },
                    None => {
                        proof {
                            if n_g <= n_h {
                                // impossible: fewer host vertices are marked
                                // used than exist, so one is always free
                                lemma_count_true_all(used_h@, n_h as int);
                                assert(partial@[u_i as int] is None);
                                assert(u_i != u_start);
                                if u_start < u_i {
                                    assert(count_true(used_h@, n_h as int) == u_i as int);
                                } else {
                                    assert(u_i as int + 1 <= n_g - 1);
                                }
                                assert(false);
                            }
                        }
                        stuck = true;
                    },
                }
            }
            u_i = u_i + 1;
        }

        // Check if we got a complete mapping
        let mut mapping_vec: Vec<usize> = Vec::new();
        let mut complete: bool = true;
        let mut uu: usize = 0;
        while uu < n_g
            invariant
                uu <= n_g,
                n_g == g.n,
                n_h == h_prime.n,
                u_start < n_g,
                partial@.len() == n_g,
                complete ==> mapping_vec@.len() == uu,
                complete ==> (forall|j: int|
                    0 <= j < uu ==> (#[trigger] partial@[j]) is Some && partial@[j]->0
                        == mapping_vec@[j]),
                n_g <= n_h ==> (forall|u: int|
                    0 <= u < n_g ==> ((#[trigger] partial@[u]) is Some <==> (u == u_start || u
                        < n_g))),
                n_g <= n_h ==> complete,
            decreases n_g - uu,
        {
            if complete {
                let p = partial[uu];
                match p {
                    Some(v) => {
                        mapping_vec.push(v);
                    },
                    None => {
                        proof {
                            if n_g <= n_h {
                                assert(partial@[uu as int] is Some);
                            }
                        }
                        complete = false;
                    },
                }
            }
            uu = uu + 1;
        }

        if complete {
            proof {
                assert(valid_mapping(n1, n2, mapping_vec@)) by {
                    assert forall|i: int| 0 <= i < n1 implies (#[trigger] mapping_vec@[i])
                        < n2 by {
                        assert(partial@[i] is Some && partial@[i]->0 == mapping_vec@[i]);
                    }
                    assert forall|i: int, j: int| 0 <= i < j < n1 implies mapping_vec@[i]
                        != mapping_vec@[j] by {
                        assert(partial@[i] is Some && partial@[i]->0 == mapping_vec@[i]);
                        assert(partial@[j] is Some && partial@[j]->0 == mapping_vec@[j]);
                    }
                }
                if n_g > n_h {
                    // a completed trial would be a valid mapping into a
                    // smaller host, which cannot exist
                    crate::mapping::lemma_valid_mapping_needs_room(n1, n2, mapping_vec@);
                }
            }
            if !mappings_contains(used_mappings, &mapping_vec) {
                // Calculate the edge map and cost of this mapping against H'
                let mut single: Vec<Mapping> = Vec::new();
                single.push(mapping_vec.clone());
                proof {
                    lemma_deep_view_points(single);
                    assert(single.deep_view() =~= seq![mapping_vec@]);
                    assert(mapping_in_range(n1, n2, mapping_vec@));
                    assert(is_square(g@, n1));
                }
                let em = calculate_edge_map(g, h_prime, &single);
                proof {
                    assert forall|i: int| 0 <= i < single.deep_view().len() implies (
                    #[trigger] single.deep_view()[i]).len() == n1 by {}
                    lemma_solution_cost_bound(g@, h_prime@, single.deep_view(), n2, n1);
                    lemma_edge_map_total(em, g@, h_prime@, single.deep_view(), n2);
                }
                let current_cost = calculate_total_cost(&em);
                if !have || current_cost < min_global_cost {
                    have = true;
                    min_global_cost = current_cost;
                    best_global_mapping = mapping_vec;
                    best_edges_to_add = em;
                    proof {
                        assert(seq![best_global_mapping@] =~= single.deep_view());
                    }
                }
            }
        }
        trial = trial + 1;
    }

    proof {
        if used_mappings@.len() == 0 && 1 <= g.n && g.n <= h_prime.n && trials_multiplier >= 1 {
            assert(t >= 1) by (nonlinear_arith)
                requires
                    t == g.n * h_prime.n * trials_multiplier,
                    g.n >= 1,
                    h_prime.n >= 1,
                    trials_multiplier >= 1,
            ;
        }
    }
    if have {
        Some((best_global_mapping, best_edges_to_add))
    } else {
        None
    }
}

/// Sequential greedy extension: build `k` distinct mappings one at a time,
/// each by randomized greedy trials against a working host copy that is
/// extended after every stage, accumulating the edge deltas by pairwise
/// maximum. Fails when some stage finds no usable mapping; no partial result
/// is returned. Failure is certain when no trial runs or the host is smaller
/// than the pattern, and success is certain for a single mapping on a
/// feasible instance with at least one trial per stage.
pub fn approx_solve(g: &Graph, h: &Graph, k: usize, trials_multiplier: usize) -> (res: Result<
    (usize, EdgeMap, Vec<Mapping>),
    Infeasible,
>)
    requires
        g.wf(),
        h.wf(),
        k >= 1,
        h.n * h.n * matrix_max(g@) <= usize::MAX,
        2 * g.n * matrix_max(g@) <= usize::MAX,
        g.n * h.n <= usize::MAX,
        g.n * h.n * trials_multiplier <= usize::MAX,
    ensures
        (match res {
            Ok((cost, em, ms)) => {
                &&& ms@.len() == k
                &&& (forall|i: int|
                    0 <= i < k ==> valid_mapping(
                        g.n as int,
                        h.n as int,
                        #[trigger] ms.deep_view()[i],
                    ))
                &&& (forall|i: int, j: int|
                    0 <= i < j < k ==> ms.deep_view()[i] != ms.deep_view()[j])
                &&& em.wf()
                &&& em.keys_below(h.n as int)
                &&& cost == em.total_spec()
                &&& (forall|x: int, y: int|
                    #[trigger] em.spec_get(x, y) <= set_need(g@, h@, ms.deep_view(), x, y))
                &&& cost <= solution_cost(g@, h@, ms.deep_view(), h.n as int)
                &&& (k == 1 ==> (forall|x: int, y: int|
                    #[trigger] em.spec_get(x, y) == set_need(g@, h@, ms.deep_view(), x, y)))
                &&& (k == 1 ==> cost == solution_cost(g@, h@, ms.deep_view(), h.n as int))
            },
            Err(_) => true,
        }),
        g.n * h.n * trials_multiplier == 0 ==> res is Err,
        g.n > h.n ==> res is Err,
        (k == 1 && 1 <= g.n && g.n <= h.n && trials_multiplier >= 1) ==> res is Ok,
{
    let ghost n1 = g.n as int;
    let ghost n2 = h.n as int;
    let mut h_prime = h.clone();
    let mut used_mappings: Vec<Mapping> = Vec::new();
    let mut minimal_extension = EdgeMap::new();
    let mut all_mappings: Vec<Mapping> = Vec::new();

    let mut i: usize = 0;
    while i < k
        invariant
            i <= k,
            n1 == g.n,
            n2 == h.n,
            g.wf(),
            h.wf(),
            h_prime.wf(),
            h_prime.n == h.n,
            h.n * h.n * matrix_max(g@) <= usize::MAX,
            2 * g.n * matrix_max(g@) <= usize::MAX,
            g.n * h.n <= usize::MAX,
            g.n * h.n * trials_multiplier <= usize::MAX,
            used_mappings.deep_view() == all_mappings.deep_view(),
            all_mappings@.len() == i,
            forall|j: int| 0 <= j < i ==> valid_mapping(n1, n2, #[trigger] all_mappings.deep_view()[j]),
            forall|j1: int, j2: int|
                0 <= j1 < j2 < i ==> all_mappings.deep_view()[j1] != all_mappings.deep_view()[j2],
            minimal_extension.wf(),
            minimal_extension.keys_below(n2),
            forall|x: int, y: int|
                0 <= #[trigger] minimal_extension.spec_get(x, y) <= matrix_max(g@),
            forall|a: int, b: int|
                0 <= a < n2 && 0 <= b < n2 ==> #[trigger] h@[a][b] <= h_prime@[a][b],
            forall|x: int, y: int|
                #[trigger] minimal_extension.spec_get(x, y) <= set_need(
                    g@,
                    h@,
                    all_mappings.deep_view(),
                    x,
                    y,
                ),
            i == 0 ==> h_prime@ == h@,
            i == 0 ==> (forall|x: int, y: int| minimal_extension.spec_get(x, y) == 0),
            i > 0 ==> (g.n * h.n * trials_multiplier != 0 && g.n <= h.n),
            (k == 1 && i == 1) ==> (forall|x: int, y: int|
                #[trigger] minimal_extension.spec_get(x, y) == set_need(
                    g@,
                    h@,
                    all_mappings.deep_view(),
                    x,
                    y,
                )),
        decreases k - i,
    {
        let ghost h_prime_at = h_prime@;
        let ghost all0 = all_mappings.deep_view();
        match approximate_best_mapping(g, &h_prime, &used_mappings, trials_multiplier) {
            Some((best_mapping, edges_to_add)) => {
                proof {
                    assert(is_square(g@, n1));
                    assert forall|x: int, y: int| 0 <= #[trigger] edges_to_add.spec_get(x, y)
                        <= matrix_max(g@) by {
                        lemma_set_need_bound(g@, h_prime@, seq![best_mapping@], x, y, n1);
                    }
                }
                // Merge this stage's deltas into the accumulator (pairwise maximum)
                minimal_extension.merge_max(&edges_to_add);
                // Apply the extension to H'
                apply_extension(&mut h_prime, g, &best_mapping);
                // Mark the mapping as used
                let ghost m_view = best_mapping@;
                used_mappings.push(best_mapping.clone());
                all_mappings.push(best_mapping);
                proof {
                    lemma_deep_view_points(used_mappings);
                    lemma_deep_view_points(all_mappings);
                    assert(all_mappings.deep_view() =~= all0.push(m_view));
                    assert(used_mappings.deep_view() =~= all0.push(m_view));
                    assert forall|j1: int, j2: int|
                        0 <= j1 < j2 < i + 1 implies all_mappings.deep_view()[j1]
                        != all_mappings.deep_view()[j2] by {
                        if j2 == i {
                            assert(all_mappings.deep_view()[j1] == all0[j1]);
                        }
                    }
                    // the accumulator never exceeds the true combined
                    // demand of the chosen mappings against the original host
                    let all1 = all0.push(m_view);
                    assert(all1.drop_last() =~= all0);
                    assert(all1.last() == m_view);
                    assert(seq![m_view].drop_last() =~= Seq::<Seq<usize>>::empty());
                    assert forall|x: int, y: int| #[trigger] minimal_extension.spec_get(x, y)
                        <= set_need(g@, h@, all1, x, y) by {
                        crate::model::lemma_set_need_nonneg(g@, h@, all0, x, y);
                        lemma_mapping_need_antimonotone(
                            g@,
                            h@,
                            h_prime_at,
                            m_view,
                            x,
                            y,
                            n1,
                            n2,
                        );
                        assert(seq![m_view].len() == 1);
                        assert(seq![m_view].last() == m_view);
                        assert(set_need(
                            g@,
                            h_prime_at,
                            seq![m_view].drop_last(),
                            x,
                            y,
                        ) == 0);
                        assert(set_need(g@, h_prime_at, seq![m_view], x, y) == spec_max(
                            0,
                            crate::model::mapping_need(g@, h_prime_at, m_view, x, y),
                        ));
                        assert(set_need(g@, h@, all1, x, y) == spec_max(
                            set_need(g@, h@, all0, x, y),
                            crate::model::mapping_need(g@, h@, m_view, x, y),
                        ));
                    }
                    assert forall|a: int, b: int|
                        0 <= a < n2 && 0 <= b < n2 implies #[trigger] h@[a][b]
                        <= h_prime@[a][b] by {
                        assert(h_prime@[a][b] as int == spec_max(
                            h_prime_at[a][b] as int,
                            mapping_demand(g@, m_view, a, b),
                        ));
                    }
                    if k == 1 && i == 0 {
                        assert forall|x: int, y: int| #[trigger] minimal_extension.spec_get(x, y)
                            == set_need(g@, h@, all_mappings.deep_view(), x, y) by {
                            assert(minimal_extension.spec_get(x, y) == spec_max(
                                0,
                                edges_to_add.spec_get(x, y),
                            ));
                            assert(edges_to_add.spec_get(x, y) == set_need(
                                g@,
                                h_prime_at,
                                seq![m_view],
                                x,
                                y,
                            ));
                            assert(all_mappings.deep_view() =~= seq![m_view]);
                        }
                    }
                }
            },
            None => {
                proof {
                    // with one mapping wanted and a feasible instance, the
                    // first stage always succeeds: its trial count is
                    // positive, every trial completes, and the empty
                    // used-set rejects nothing
                    if k == 1 && 1 <= g.n && g.n <= h.n && trials_multiplier >= 1 {
                        assert(i == 0);
                        assert(used_mappings@.len() == 0);
                        assert(false);
                    }
                }
                return Err(Infeasible);
            },
        }
        i = i + 1;
    }

    proof {
        lemma_matrix_max_nonneg(g@);
        lemma_edge_map_total_bound(minimal_extension, n2, matrix_max(g@));
        lemma_edge_map_total_le(minimal_extension, g@, h@, all_mappings.deep_view(), n2);
        if k == 1 {
            lemma_edge_map_total(minimal_extension, g@, h@, all_mappings.deep_view(), n2);
        }
    }
    let total_cost = calculate_total_cost(&minimal_extension);
    Ok((total_cost, minimal_extension, all_mappings))
}

} // verus!
