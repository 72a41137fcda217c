use vstd::prelude::*;

use crate::model::{
    is_square, lemma_sum_grid_update, lemma_sum_grid_zero, mapping_in_range, mapping_need, pair_demand,
    need_row_upto, need_upto, pair_deficit, partial_need, set_need, solution_cost, spec_max,
    sum_grid,
};
use crate::{Graph, Mapping};

verus! {

/// A sparse edge-delta map. Each entry `(x, y, w)` says that `w` additional
/// edge units are needed from host vertex `x` to host vertex `y`. Keys are
/// unique and every stored weight is strictly positive; pairs that need
/// nothing are simply absent.
pub struct EdgeMap {
    pub entries: Vec<(usize, usize, usize)>,
}

/// The weight an entry list holds at key `(x, y)`: the weight of the last
/// entry with that key, or 0 where no entry has it.
pub open spec fn entries_get(s: Seq<(usize, usize, usize)>, x: int, y: int) -> int
    decreases s.len(),
{
    if s.len() == 0 {
        0
    } else if s.last().0 == x && s.last().1 == y {
        s.last().2 as int
    } else {
        entries_get(s.drop_last(), x, y)
    }
}

/// Sum of the weights of an entry list.
pub open spec fn entries_total(s: Seq<(usize, usize, usize)>) -> int
    decreases s.len(),
{
    if s.len() == 0 {
        0
    } else {
        entries_total(s.drop_last()) + s.last().2
    }
}

impl EdgeMap {
    /// The weight stored for host pair `(x, y)`, 0 where none is.
    pub open spec fn spec_get(self, x: int, y: int) -> int {
        entries_get(self.entries@, x, y)
    }

    /// Sum of all stored weights.
    pub open spec fn total_spec(self) -> int {
        entries_total(self.entries@)
    }

    pub open spec fn keys_unique(self) -> bool {
        forall|i: int, j: int|
            0 <= i < j < self.entries@.len() ==> !((#[trigger] self.entries@[i]).0
                == (#[trigger] self.entries@[j]).0 && self.entries@[i].1 == self.entries@[j].1)
    }

    /// Keys are unique and every weight is strictly positive.
    pub open spec fn wf(self) -> bool {
        &&& self.keys_unique()
        &&& forall|i: int| 0 <= i < self.entries@.len() ==> (#[trigger] self.entries@[i]).2 > 0
    }

    /// Both components of every key lie below `n`.
    pub open spec fn keys_below(self, n: int) -> bool {
        forall|i: int|
            0 <= i < self.entries@.len() ==> (#[trigger] self.entries@[i]).0 < n
                && self.entries@[i].1 < n
    }

    /// An empty map: no pair needs anything.
    pub fn new() -> (em: EdgeMap)
        ensures
            em.wf(),
            em.entries@.len() == 0,
            forall|x: int, y: int| em.spec_get(x, y) == 0,
            em.total_spec() == 0,
            forall|n: int| em.keys_below(n),
    {
        EdgeMap { entries: Vec::new() }
    }

    /// The weight stored for `(x, y)`, 0 where none is.
    pub fn get(&self, x: usize, y: usize) -> (w: usize)
        ensures
            w == self.spec_get(x as int, y as int),
    {
        let n = self.entries.len();
        proof {
            assert(self.entries@.take(n as int) =~= self.entries@);
        }
        let mut i: usize = n;
        while i > 0
            invariant
                i <= n,
                n == self.entries@.len(),
                entries_get(self.entries@.take(i as int), x as int, y as int) == self.spec_get(
                    x as int,
                    y as int,
                ),
            decreases i,
        {
            let e = self.entries[i - 1];
            proof {
                assert(self.entries@.take(i as int).last() == self.entries@[i - 1]);
                assert(self.entries@.take(i as int).drop_last() =~= self.entries@.take(i - 1));
            }
            if e.0 == x && e.1 == y {
                return e.2;
            }
            i = i - 1;
        }
        proof {
            assert(self.entries@.take(0) =~= Seq::<(usize, usize, usize)>::empty());
        }
        0
    }

    /// Store weight `w` for `(x, y)`, replacing any earlier entry for that key.
    pub fn insert(&mut self, x: usize, y: usize, w: usize)
        requires
            old(self).wf(),
            w > 0,
        ensures
            final(self).wf(),
            final(self).spec_get(x as int, y as int) == w,
            forall|x2: int, y2: int|
                !(x2 == x && y2 == y) ==> final(self).spec_get(x2, y2) == old(self).spec_get(
                    x2,
                    y2,
                ),
            forall|n: int|
                old(self).keys_below(n) && x < n && y < n ==> final(self).keys_below(n),
    {
        let ghost s0 = self.entries@;
        let n = self.entries.len();
        let mut i: usize = 0;
        while i < n
            invariant
                i <= n,
                n == self.entries@.len(),
                self.entries@ == s0,
                s0 == old(self).entries@,
                old(self).wf(),
                w > 0,
                forall|j: int|
                    0 <= j < i ==> !((#[trigger] s0[j]).0 == x && s0[j].1 == y),
            decreases n - i,
        {
            let e = self.entries[i];
            if e.0 == x && e.1 == y {
                proof {
                    assert(old(self).keys_unique());
                    assert forall|j: int| (i as int) < j < s0.len() implies !((#[trigger] s0[j]).0
                        == x && s0[j].1 == y) by {
                        assert(!((old(self).entries@[i as int]).0 == (old(
                            self,
                        ).entries@[j]).0 && (old(self).entries@[i as int]).1 == (old(
                            self,
                        ).entries@[j]).1));
                    }
                    lemma_entries_get_update(s0, i as int, x, y, w);
                }
                self.entries[i] = (x, y, w);
                proof {
                    let s1 = self.entries@;
                    assert(s1 == s0.update(i as int, (x, y, w)));
                    assert forall|k: int| 0 <= k < s1.len() implies (#[trigger] s1[k]).2 > 0 by {
                        if k != i {
                            assert(s1[k] == s0[k]);
                        }
                    }
                    assert forall|k1: int, k2: int| 0 <= k1 < k2 < s1.len() implies !((
                    #[trigger] s1[k1]).0 == (#[trigger] s1[k2]).0 && s1[k1].1 == s1[k2].1) by {
                        assert(s1[k1].0 == s0[k1].0 && s1[k1].1 == s0[k1].1);
                        assert(s1[k2].0 == s0[k2].0 && s1[k2].1 == s0[k2].1);
                    }
                    assert forall|nn: int|
                        old(self).keys_below(nn) && x < nn && y < nn implies self.keys_below(
                        nn,
                    ) by {
                        assert forall|k: int| 0 <= k < s1.len() implies (#[trigger] s1[k]).0 < nn
                            && s1[k].1 < nn by {
                            if k != i {
                                assert(s1[k] == s0[k]);
                            }
                        }
                    }
                }
                return ;
            }
            i = i + 1;
        }
        self.entries.push((x, y, w));
        proof {
            let s1 = self.entries@;
            assert(s1.drop_last() =~= s0);
            assert(s1.last() == (x, y, w));
            assert(entries_get(s1, x as int, y as int) == w);
            assert forall|x2: int, y2: int| !(x2 == x && y2 == y) implies entries_get(s1, x2, y2)
                == entries_get(s0, x2, y2) by {
                assert(s1.drop_last() == s0);
            }
            assert forall|k1: int, k2: int| 0 <= k1 < k2 < s1.len() implies !((#[trigger] s1[k1]).0
                == (#[trigger] s1[k2]).0 && s1[k1].1 == s1[k2].1) by {
                if k2 == s1.len() - 1 {
                    assert(s1[k1] == s0[k1]);
                    assert(!(s0[k1].0 == x && s0[k1].1 == y));
                } else {
                    assert(s1[k1] == s0[k1]);
                    assert(s1[k2] == s0[k2]);
                }
            }
            assert forall|k: int| 0 <= k < s1.len() implies (#[trigger] s1[k]).2 > 0 by {
                if k < s1.len() - 1 {
                    assert(s1[k] == s0[k]);
                }
            }
            assert forall|nn: int|
                old(self).keys_below(nn) && x < nn && y < nn implies self.keys_below(nn) by {
                assert forall|k: int| 0 <= k < s1.len() implies (#[trigger] s1[k]).0 < nn
                    && s1[k].1 < nn by {
                    if k < s1.len() - 1 {
                        assert(s1[k] == s0[k]);
                    }
                }
            }
        }
    }
}

impl EdgeMap {
    /// Merge another edge map into this one by pairwise maximum: afterwards
    /// each host pair holds the larger of the two stored weights.
    pub fn merge_max(&mut self, other: &EdgeMap)
        requires
            old(self).wf(),
            other.wf(),
        ensures
            final(self).wf(),
            forall|x: int, y: int|
                #[trigger] final(self).spec_get(x, y) == spec_max(
                    old(self).spec_get(x, y),
                    other.spec_get(x, y),
                ),
            forall|n: int|
                old(self).keys_below(n) && other.keys_below(n) ==> final(self).keys_below(n),
    {
        let ghost others = other.entries@;
        let n = other.entries.len();
        proof {
            assert(others.take(0) =~= Seq::<(usize, usize, usize)>::empty());
            assert forall|x: int, y: int| #[trigger] self.spec_get(x, y) == spec_max(
                old(self).spec_get(x, y),
                entries_get(others.take(0), x, y),
            ) by {
                lemma_entries_get_nonneg(self.entries@, x, y);
            }
        }
        let mut i: usize = 0;
        while i < n
            invariant
                i <= n,
                n == other.entries@.len(),
                others == other.entries@,
                other.wf(),
                self.wf(),
                forall|x: int, y: int|
                    #[trigger] self.spec_get(x, y) == spec_max(
                        old(self).spec_get(x, y),
                        entries_get(others.take(i as int), x, y),
                    ),
                forall|nn: int|
                    old(self).keys_below(nn) && other.keys_below(nn) ==> self.keys_below(nn),
            decreases n - i,
        {
            let (x, y, w) = other.entries[i];
            let current = self.get(x, y);
            proof {
                assert(others.take(i as int + 1).drop_last() =~= others.take(i as int));
                assert(others.take(i as int + 1).last() == others[i as int]);
                assert forall|x2: int, y2: int|
                    !(x2 == x && y2 == y) implies entries_get(others.take(i as int + 1), x2, y2)
                    == entries_get(others.take(i as int), x2, y2) by {}
                assert(entries_get(others.take(i as int + 1), x as int, y as int) == w);
                // the key at position i occurs nowhere earlier in `other`
                assert forall|j: int| 0 <= j < others.take(i as int).len() implies !((
                #[trigger] others.take(i as int)[j]).0 == x && others.take(i as int)[j].1
                    == y) by {
                    assert(others.take(i as int)[j] == others[j]);
                    assert(!((other.entries@[j]).0 == (other.entries@[i as int]).0
                        && (other.entries@[j]).1 == (other.entries@[i as int]).1));
                }
                lemma_entries_get_absent(others.take(i as int), x as int, y as int);
                lemma_entries_get_nonneg(old(self).entries@, x as int, y as int);
                assert(current == old(self).spec_get(x as int, y as int));
            }
            if w > current {
                self.insert(x, y, w);
            }
            proof {
                assert forall|x2: int, y2: int| #[trigger] self.spec_get(x2, y2) == spec_max(
                    old(self).spec_get(x2, y2),
                    entries_get(others.take(i as int + 1), x2, y2),
                ) by {}
            }
            i = i + 1;
        }
        proof {
            assert(others.take(n as int) =~= others);
        }
    }
}

/// The weight an entry list holds at a key is never negative.
proof fn lemma_entries_get_nonneg(s: Seq<(usize, usize, usize)>, x: int, y: int)
    ensures
        entries_get(s, x, y) >= 0,
    decreases s.len(),
{
    if s.len() > 0 {
        lemma_entries_get_nonneg(s.drop_last(), x, y);
    }
}

/// The total of an edge map with keys below `n` and weights pointwise at
/// most `b` is at most `n * n * b`.
pub proof fn lemma_edge_map_total_bound(em: EdgeMap, n: int, b: int)
    requires
        em.wf(),
        em.keys_below(n),
        n >= 0,
        b >= 0,
        forall|x: int, y: int| #[trigger] em.spec_get(x, y) <= b,
    ensures
        0 <= em.total_spec() <= n * n * b,
{
    let f = |x: int, y: int| entries_get(em.entries@, x, y);
    assert forall|x: int, y: int| #[trigger] f(x, y) == entries_get(em.entries@, x, y) by {}
    lemma_total_is_grid_sum(em.entries@, n, f);
    assert forall|x: int, y: int| 0 <= x < n && 0 <= y < n implies 0 <= #[trigger] f(x, y) <= b by {
        lemma_entries_get_nonneg(em.entries@, x, y);
        assert(em.spec_get(x, y) <= b);
    }
    crate::model::lemma_sum_grid_bound(f, n, n, b);
    assert((n * n) * b == n * (n * b)) by (nonlinear_arith);
}

/// Where no entry has key `(x, y)`, the list holds 0 for it.
proof fn lemma_entries_get_absent(s: Seq<(usize, usize, usize)>, x: int, y: int)
    requires
        forall|i: int| 0 <= i < s.len() ==> !((#[trigger] s[i]).0 == x && s[i].1 == y),
    ensures
        entries_get(s, x, y) == 0,
    decreases s.len(),
{
    if s.len() > 0 {
        lemma_entries_get_absent(s.drop_last(), x, y);
    }
}

/// Overwriting the entry at position `i`, the last one with its key, changes
/// the stored weight for that key alone.
proof fn lemma_entries_get_update(s: Seq<(usize, usize, usize)>, i: int, x: usize, y: usize, w: usize)
    requires
        0 <= i < s.len(),
        s[i].0 == x,
        s[i].1 == y,
        forall|j: int| i < j < s.len() ==> !((#[trigger] s[j]).0 == x && s[j].1 == y),
    ensures
        entries_get(s.update(i, (x, y, w)), x as int, y as int) == w,
        forall|x2: int, y2: int|
            !(x2 == x && y2 == y) ==> entries_get(s.update(i, (x, y, w)), x2, y2) == entries_get(
                s,
                x2,
                y2,
            ),
    decreases s.len(),
{
    let t = s.update(i, (x, y, w));
    if i == s.len() - 1 {
        assert(t.last() == (x, y, w));
        assert(t.drop_last() =~= s.drop_last());
        assert(s.last() == s[i]);
        assert forall|x2: int, y2: int| !(x2 == x && y2 == y) implies entries_get(t, x2, y2)
            == entries_get(s, x2, y2) by {
            assert(entries_get(t, x2, y2) == entries_get(t.drop_last(), x2, y2));
            assert(entries_get(s, x2, y2) == entries_get(s.drop_last(), x2, y2));
        }
    } else {
        assert(t.last() == s.last());
        assert(t.drop_last() =~= s.drop_last().update(i, (x, y, w)));
        assert(s.drop_last()[i] == s[i]);
        assert forall|j: int| i < j < s.drop_last().len() implies !((#[trigger] s.drop_last()[j]).0
            == x && s.drop_last()[j].1 == y) by {
            assert(s.drop_last()[j] == s[j]);
        }
        lemma_entries_get_update(s.drop_last(), i, x, y, w);
        assert(!(s.last().0 == x && s.last().1 == y));
        assert(entries_get(t, x as int, y as int) == entries_get(t.drop_last(), x as int, y as int));
        assert(entries_get(t.drop_last(), x as int, y as int) == w);
        assert forall|x2: int, y2: int| !(x2 == x && y2 == y) implies entries_get(t, x2, y2)
            == entries_get(s, x2, y2) by {
            if t.last().0 == x2 && t.last().1 == y2 {
            } else {
                assert(entries_get(t, x2, y2) == entries_get(t.drop_last(), x2, y2));
                assert(entries_get(t.drop_last(), x2, y2) == entries_get(s.drop_last(), x2, y2));
                assert(entries_get(s, x2, y2) == entries_get(s.drop_last(), x2, y2));
            }
        }
    }
}

/// For a list with unique keys below `n`, the sum of the stored weights
/// equals the grid sum of any function that reads the list pointwise.
proof fn lemma_total_is_grid_sum(
    s: Seq<(usize, usize, usize)>,
    n: int,
    f: spec_fn(int, int) -> int,
)
    requires
        forall|i: int, j: int|
            0 <= i < j < s.len() ==> !((#[trigger] s[i]).0 == (#[trigger] s[j]).0 && s[i].1
                == s[j].1),
        forall|i: int| 0 <= i < s.len() ==> (#[trigger] s[i]).0 < n && s[i].1 < n,
        n >= 0,
        forall|x: int, y: int| #[trigger] f(x, y) == entries_get(s, x, y),
    ensures
        entries_total(s) == sum_grid(f, n, n),
    decreases s.len(),
{
    if s.len() == 0 {
        assert forall|x: int, y: int| 0 <= x < n && 0 <= y < n implies #[trigger] f(x, y) == 0 by {
            assert(f(x, y) == entries_get(s, x, y));
        }
        lemma_sum_grid_zero(f, n, n);
    } else {
        let s0 = s.drop_last();
        let e = s.last();
        let f0 = |x: int, y: int| entries_get(s0, x, y);
        assert forall|i: int, j: int| 0 <= i < j < s0.len() implies !((#[trigger] s0[i]).0 == (
        #[trigger] s0[j]).0 && s0[i].1 == s0[j].1) by {
            assert(s0[i] == s[i] && s0[j] == s[j]);
        }
        assert forall|i: int| 0 <= i < s0.len() implies (#[trigger] s0[i]).0 < n && s0[i].1 < n by {
            assert(s0[i] == s[i]);
        }
        lemma_total_is_grid_sum(s0, n, f0);
        assert forall|i: int| 0 <= i < s0.len() implies !((#[trigger] s0[i]).0 == e.0 && s0[i].1
            == e.1) by {
            assert(s[i] == s0[i]);
            assert(s.last() == s[s.len() - 1]);
            assert(!(s[i].0 == s[s.len() - 1].0 && s[i].1 == s[s.len() - 1].1));
        }
        lemma_entries_get_absent(s0, e.0 as int, e.1 as int);
        assert forall|x: int, y: int|
            0 <= x < n && 0 <= y < n && !(x == e.0 && y == e.1) implies #[trigger] f(x, y) == f0(
            x,
            y,
        ) by {
            assert(f(x, y) == entries_get(s, x, y));
            assert(entries_get(s, x, y) == entries_get(s0, x, y));
        }
        assert(f(e.0 as int, e.1 as int) == e.2 as int);
        assert(f0(e.0 as int, e.1 as int) == 0);
        lemma_sum_grid_update(f, f0, e.0 as int, e.1 as int, n, n);
    }
}

/// A well-formed edge map whose weights match `set_need` pointwise has the
/// objective `solution_cost` as its total: values are positive exactly where
/// `set_need` is, so summing the sparse entries sums the whole grid.
pub proof fn lemma_edge_map_total(
    em: EdgeMap,
    g: Seq<Seq<usize>>,
    h: Seq<Seq<usize>>,
    ms: Seq<Seq<usize>>,
    n2: int,
)
    requires
        em.wf(),
        em.keys_below(n2),
        n2 >= 0,
        forall|x: int, y: int| em.spec_get(x, y) == set_need(g, h, ms, x, y),
    ensures
        em.total_spec() == solution_cost(g, h, ms, n2),
{
    let f = |x: int, y: int| set_need(g, h, ms, x, y);
    assert forall|x: int, y: int| #[trigger] f(x, y) == entries_get(em.entries@, x, y) by {
        assert(em.spec_get(x, y) == set_need(g, h, ms, x, y));
    }
    lemma_total_is_grid_sum(em.entries@, n2, f);
    crate::model::lemma_cost_rows_as_sum_grid(g, h, ms, n2, n2, f);
}

/// An edge map whose weights are pointwise at most the combined demand of a
/// mapping set has a total at most that set's objective.
pub proof fn lemma_edge_map_total_le(
    em: EdgeMap,
    g: Seq<Seq<usize>>,
    h: Seq<Seq<usize>>,
    ms: Seq<Seq<usize>>,
    n2: int,
)
    requires
        em.wf(),
        em.keys_below(n2),
        n2 >= 0,
        forall|x: int, y: int| #[trigger] em.spec_get(x, y) <= set_need(g, h, ms, x, y),
    ensures
        em.total_spec() <= solution_cost(g, h, ms, n2),
{
    let f_em = |x: int, y: int| entries_get(em.entries@, x, y);
    let f_set = |x: int, y: int| set_need(g, h, ms, x, y);
    assert forall|x: int, y: int| #[trigger] f_em(x, y) == entries_get(em.entries@, x, y) by {}
    lemma_total_is_grid_sum(em.entries@, n2, f_em);
    assert forall|x: int, y: int| 0 <= x < n2 && 0 <= y < n2 implies #[trigger] f_em(x, y) <= f_set(
        x,
        y,
    ) by {
        assert(em.spec_get(x, y) <= set_need(g, h, ms, x, y));
    }
    crate::model::lemma_sum_grid_le(f_em, f_set, n2, n2);
    crate::model::lemma_cost_rows_as_sum_grid(g, h, ms, n2, n2, f_set);
}

/// Calculate the edge map needed to implement a set of mappings: for each
/// host pair the largest deficit any of the mappings has there, measured
/// against `h`; pairs with no deficit are absent.
pub fn calculate_edge_map(g: &Graph, h: &Graph, mappings: &Vec<Mapping>) -> (em: EdgeMap)
    requires
        g.wf(),
        h.wf(),
        forall|i: int|
            0 <= i < mappings@.len() ==> mapping_in_range(
                g.n as int,
                h.n as int,
                #[trigger] mappings.deep_view()[i],
            ),
    ensures
        em.wf(),
        em.keys_below(h.n as int),
        forall|x: int, y: int|
            #[trigger] em.spec_get(x, y) == set_need(g@, h@, mappings.deep_view(), x, y),
    {
    let ghost msv = mappings.deep_view();
    let mut em = EdgeMap::new();
    let n1 = g.num_vertices();
    let nm = mappings.len();
    let mut mi: usize = 0;
    while mi < nm
        invariant
            mi <= nm,
            nm == mappings@.len(),
            msv == mappings.deep_view(),
            g.wf(),
            h.wf(),
            n1 == g.n,
            forall|i: int| 0 <= i < nm ==> mapping_in_range(n1 as int, h.n as int, #[trigger] msv[i]),
            em.wf(),
            em.keys_below(h.n as int),
            forall|x: int, y: int|
                #[trigger] em.spec_get(x, y) == set_need(g@, h@, msv.take(mi as int), x, y),
        decreases nm - mi,
    {
        let m: &Mapping = &mappings[mi];
        proof {
            assert(m@ == msv[mi as int]);
        }
        let mut u: usize = 0;
        while u < n1
            invariant
                u <= n1,
                g.wf(),
                h.wf(),
                n1 == g.n,
                mi < nm,
                nm == mappings@.len(),
                msv == mappings.deep_view(),
                m@ == msv[mi as int],
                mapping_in_range(n1 as int, h.n as int, m@),
                em.wf(),
                em.keys_below(h.n as int),
                forall|x: int, y: int|
                    #[trigger] em.spec_get(x, y) == spec_max(
                        set_need(g@, h@, msv.take(mi as int), x, y),
                        partial_need(g@, h@, m@, x, y, u as int, 0),
                    ),
            decreases n1 - u,
        {
            let mut v: usize = 0;
            while v < n1
                invariant
                    v <= n1,
                    u < n1,
                    g.wf(),
                    h.wf(),
                    n1 == g.n,
                    mi < nm,
                    nm == mappings@.len(),
                    msv == mappings.deep_view(),
                    m@ == msv[mi as int],
                    mapping_in_range(n1 as int, h.n as int, m@),
                    em.wf(),
                    em.keys_below(h.n as int),
                    forall|x: int, y: int|
                        #[trigger] em.spec_get(x, y) == spec_max(
                            set_need(g@, h@, msv.take(mi as int), x, y),
                            partial_need(g@, h@, m@, x, y, u as int, v as int),
                        ),
                decreases n1 - v,
            {
                let g_edge = g.get_edge(u, v);
                if g_edge > 0 {
                    let x = m[u];
                    let y = m[v];
                    let h_edge = h.get_edge(x, y);
                    let needed = g_edge.saturating_sub(h_edge);
                    let current = em.get(x, y);
                    proof {
                        assert(pair_demand(g@, h@, m@, u as int, v as int, x as int, y as int)
                            == pair_deficit(g@, h@, m@, u as int, v as int));
                        assert(needed as int == pair_deficit(g@, h@, m@, u as int, v as int));
                    }
                    if needed > current {
                        em.insert(x, y, needed);
                    }
                    proof {
                        assert forall|x2: int, y2: int| #[trigger] em.spec_get(x2, y2) == spec_max(
                            set_need(g@, h@, msv.take(mi as int), x2, y2),
                            partial_need(g@, h@, m@, x2, y2, u as int, v as int + 1),
                        ) by {
                            assert(need_row_upto(g@, h@, m@, u as int, x2, y2, v as int + 1)
                                == spec_max(
                                need_row_upto(g@, h@, m@, u as int, x2, y2, v as int),
                                pair_demand(g@, h@, m@, u as int, v as int, x2, y2),
                            ));
                        }
                    }
                } else {
                    proof {
                        assert forall|x2: int, y2: int| #[trigger] em.spec_get(x2, y2) == spec_max(
                            set_need(g@, h@, msv.take(mi as int), x2, y2),
                            partial_need(g@, h@, m@, x2, y2, u as int, v as int + 1),
                        ) by {
                            assert(pair_demand(g@, h@, m@, u as int, v as int, x2, y2) == 0);
                            assert(need_row_upto(g@, h@, m@, u as int, x2, y2, v as int + 1)
                                == spec_max(
                                need_row_upto(g@, h@, m@, u as int, x2, y2, v as int),
                                pair_demand(g@, h@, m@, u as int, v as int, x2, y2),
                            ));
                        }
                    }
                }
                v = v + 1;
            }
            proof {
                assert forall|x2: int, y2: int| partial_need(g@, h@, m@, x2, y2, u as int + 1, 0)
                    == partial_need(g@, h@, m@, x2, y2, u as int, n1 as int) by {
                    assert(need_upto(g@, h@, m@, x2, y2, u as int + 1) == spec_max(
                        need_upto(g@, h@, m@, x2, y2, u as int),
                        need_row_upto(g@, h@, m@, u as int, x2, y2, m@.len() as int),
                    ));
                }
            }
            u = u + 1;
        }
        proof {
            assert(msv.take(mi as int + 1).drop_last() =~= msv.take(mi as int));
            assert(msv.take(mi as int + 1).last() == m@);
            assert forall|x2: int, y2: int| #[trigger] em.spec_get(x2, y2) == set_need(
                g@,
                h@,
                msv.take(mi as int + 1),
                x2,
                y2,
            ) by {
                assert(partial_need(g@, h@, m@, x2, y2, n1 as int, 0) == mapping_need(
                    g@,
                    h@,
                    m@,
                    x2,
                    y2,
                ));
            }
        }
        mi = mi + 1;
    }
    proof {
        assert(msv.take(nm as int) =~= msv);
    }
    em
}

/// Calculate total cost: the sum of all edge weights in the edge map.
pub fn calculate_total_cost(em: &EdgeMap) -> (total: usize)
    requires
        em.total_spec() <= usize::MAX,
    ensures
        total == em.total_spec(),
{
    let ghost s = em.entries@;
    let n = em.entries.len();
    let mut total: usize = 0;
    let mut i: usize = 0;
    while i < n
        invariant
            i <= n,
            n == em.entries@.len(),
            s == em.entries@,
            em.total_spec() <= usize::MAX,
            total == entries_total(s.take(i as int)),
        decreases n - i,
    {
        proof {
            assert(s.take(i as int + 1).drop_last() =~= s.take(i as int));
            assert(s.take(i as int + 1).last() == s[i as int]);
            lemma_entries_total_take_le(s, i as int + 1);
        }
        total = total + em.entries[i].2;
        i = i + 1;
    }
    proof {
        assert(s.take(n as int) =~= s);
    }
    total
}

/// A prefix of an entry list never sums to more than the whole list.
proof fn lemma_entries_total_take_le(s: Seq<(usize, usize, usize)>, i: int)
    requires
        0 <= i <= s.len(),
    ensures
        entries_total(s.take(i)) <= entries_total(s),
    decreases s.len() - i,
{
    if i < s.len() {
        lemma_entries_total_take_le(s, i + 1);
        assert(s.take(i + 1).drop_last() =~= s.take(i));
        assert(entries_total(s.take(i + 1)) == entries_total(s.take(i)) + s[i].2);
    } else {
        assert(s.take(i) =~= s);
    }
}

} // verus!
