use vstd::prelude::*;

use crate::cost::{calculate_edge_map, calculate_total_cost, lemma_edge_map_total, EdgeMap};
use crate::mapping::{
    completions, falling_factorial, find_all_mappings, lemma_completions_complete,
    lemma_completions_count, lemma_completions_no_dup, partial_ok,
};
use crate::model::{
    is_square, lemma_solution_cost_bound, lemma_solution_cost_same_elements, mapping_in_range,
    matrix_max, set_need, solution_cost, valid_mapping,
};
use crate::{Graph, Infeasible, Mapping};

verus! {

broadcast use vstd::std_specs::vec::vec_clone_deep_view_proof;

/// The canonical enumeration of all injective mappings of `n1` pattern
/// vertices into `n2` host vertices, in lexicographic order: what
/// `find_all_mappings` returns.
pub open spec fn enumeration(n1: int, n2: int) -> Seq<Seq<usize>> {
    completions(Seq::<usize>::empty(), n1, n2)
}

/// `s` selects `len` indices from `[lo, n)` in strictly increasing order:
/// the canonical form of a `len`-element combination of the indices.
pub open spec fn is_index_choice(s: Seq<int>, lo: int, n: int, len: int) -> bool {
    &&& s.len() == len
    &&& forall|i: int| 0 <= i < s.len() ==> lo <= #[trigger] s[i] < n
    &&& forall|i: int, j: int| 0 <= i < j < s.len() ==> s[i] < s[j]
}

/// The mappings that the index choice `s` selects from `all`.
pub open spec fn pick(all: Seq<Seq<usize>>, s: Seq<int>) -> Seq<Seq<usize>> {
    Seq::new(s.len(), |i: int| all[s[i]])
}

/// A strictly increasing selection from `[lo, n)` holds at most `n - lo`
/// elements.
proof fn lemma_index_choice_len_bound(s: Seq<int>, lo: int, n: int)
    requires
        is_index_choice(s, lo, n, s.len() as int),
        lo <= n,
    ensures
        s.len() <= n - lo,
    decreases s.len(),
{
    if s.len() > 0 {
        let t = s.drop_last();
        assert forall|i: int| 0 <= i < t.len() implies lo <= #[trigger] t[i] < s.last() by {
            assert(t[i] == s[i]);
            assert(s[i] < s[s.len() - 1]);
        }
        assert forall|i: int, j: int| 0 <= i < j < t.len() implies t[i] < t[j] by {
            assert(t[i] == s[i] && t[j] == s[j]);
        }
        assert(lo <= s.last());
        lemma_index_choice_len_bound(t, lo, s.last());
    }
}

/// Search all ways to extend `chosen` to a `k`-element combination using
/// mappings `all[j]` with `j >= start`, taken in increasing index order, and
/// return the cheapest completed combination with its cost. `None` exactly
/// when fewer mappings remain than are still needed.
fn best_extension(
    g: &Graph,
    h: &Graph,
    all: &Vec<Mapping>,
    start: usize,
    chosen: &mut Vec<Mapping>,
    k: usize,
) -> (res: Option<(usize, Vec<Mapping>)>)
    requires
        g.wf(),
        h.wf(),
        h.n * h.n * matrix_max(g@) <= usize::MAX,
        forall|i: int|
            0 <= i < all@.len() ==> valid_mapping(
                g.n as int,
                h.n as int,
                #[trigger] all.deep_view()[i],
            ),
        start <= all@.len(),
        old(chosen)@.len() <= k,
        forall|i: int|
            0 <= i < old(chosen)@.len() ==> valid_mapping(
                g.n as int,
                h.n as int,
                #[trigger] old(chosen).deep_view()[i],
            ),
    ensures
        final(chosen).deep_view() == old(chosen).deep_view(),
        res is None <==> all@.len() - start < k - old(chosen)@.len(),
        (match res {
            Some((c, ms)) => {
                &&& ms.deep_view().len() == k
                &&& (exists|s: Seq<int>|
                    #![auto]
                    is_index_choice(s, start as int, all@.len() as int, k - old(chosen)@.len())
                        && ms.deep_view() == old(chosen).deep_view() + pick(all.deep_view(), s))
                &&& c == solution_cost(g@, h@, ms.deep_view(), h.n as int)
                &&& (forall|s: Seq<int>|
                    is_index_choice(s, start as int, all@.len() as int, k - old(chosen)@.len())
                        ==> c <= solution_cost(
                        g@,
                        h@,
                        old(chosen).deep_view() + pick(all.deep_view(), s),
                        h.n as int,
                    ))
            },
            None => true,
        }),
    decreases all@.len() - start,
{
    let ghost n1 = g.n as int;
    let ghost n2 = h.n as int;
    let ghost allv = all.deep_view();
    let ghost chosen0 = chosen.deep_view();
    let n = all.len();
    let rem = k - chosen.len();

    if rem == 0 {
        proof {
            assert(is_square(g@, n1));
            assert forall|i: int| 0 <= i < chosen@.len() implies mapping_in_range(
                n1,
                n2,
                #[trigger] chosen.deep_view()[i],
            ) by {
                assert(valid_mapping(n1, n2, chosen.deep_view()[i]));
            }
        }
        let em = calculate_edge_map(g, h, chosen);
        proof {
            assert forall|i: int| 0 <= i < chosen.deep_view().len() implies (
            #[trigger] chosen.deep_view()[i]).len() == n1 by {
                assert(valid_mapping(n1, n2, chosen.deep_view()[i]));
            }
            lemma_solution_cost_bound(g@, h@, chosen.deep_view(), n2, n1);
            lemma_edge_map_total(em, g@, h@, chosen.deep_view(), n2);
        }
        let c = calculate_total_cost(&em);
        let ms = chosen.clone();
        proof {
            assert(ms.deep_view() == chosen.deep_view());
            let s0: Seq<int> = Seq::empty();
            assert(is_index_choice(s0, start as int, n as int, 0));
            assert(pick(allv, s0) =~= Seq::<Seq<usize>>::empty());
            assert(ms.deep_view() =~= chosen0 + pick(allv, s0));
            assert forall|s: Seq<int>| is_index_choice(s, start as int, n as int, 0) implies c
                <= solution_cost(g@, h@, chosen0 + pick(allv, s), n2) by {
                assert(pick(allv, s).len() == 0);
                assert(chosen0 + pick(allv, s) =~= chosen0);
            }
        }
        return Some((c, ms));
    }

    if n - start < rem {
        return None;
    }

    let mut j = start;
    let mut best_cost: usize = 0;
    let mut best_ms: Vec<Mapping> = Vec::new();
    let mut have: bool = false;

    while j < n
        invariant
            g.wf(),
            h.wf(),
            h.n * h.n * matrix_max(g@) <= usize::MAX,
            n1 == g.n,
            n2 == h.n,
            allv == all.deep_view(),
            n == all@.len(),
            forall|i: int| 0 <= i < n ==> valid_mapping(n1, n2, #[trigger] allv[i]),
            start <= j <= n,
            chosen.deep_view() == chosen0,
            chosen@.len() + rem == k,
            rem == k - chosen0.len(),
            0 < rem <= n - start,
            forall|i: int|
                0 <= i < chosen0.len() ==> valid_mapping(n1, n2, #[trigger] chosen0[i]),
            j > start ==> have,
            have ==> {
                &&& best_ms.deep_view().len() == k
                &&& (exists|s: Seq<int>|
                    #![auto]
                    is_index_choice(s, start as int, n as int, rem as int)
                        && best_ms.deep_view() == chosen0 + pick(allv, s))
                &&& best_cost == solution_cost(g@, h@, best_ms.deep_view(), n2)
            },
            have ==> (forall|s: Seq<int>|
                is_index_choice(s, start as int, n as int, rem as int) && s[0] < j ==> best_cost
                    <= solution_cost(g@, h@, chosen0 + pick(allv, s), n2)),
        decreases n - j,
    {
        let m = all[j].clone();
        let ghost mj = allv[j as int];
        proof {
            assert(m.deep_view() == all@[j as int].deep_view());
            assert(allv[j as int] == all@[j as int].deep_view());
        }
        chosen.push(m);
        proof {
            assert(chosen.deep_view().len() == chosen0.len() + 1);
            assert forall|ii: int| 0 <= ii < chosen.deep_view().len() implies chosen.deep_view()[ii]
                == chosen0.push(mj)[ii] by {
                assert(chosen.deep_view()[ii] == chosen@[ii].deep_view());
                if ii < chosen0.len() {
                    assert(chosen0[ii] == chosen@[ii].deep_view());
                } else {
                    assert(chosen@[ii] == m);
                }
            }
            assert(chosen.deep_view() =~= chosen0.push(mj));
            assert forall|i: int| 0 <= i < chosen.deep_view().len() implies valid_mapping(
                n1,
                n2,
                #[trigger] chosen.deep_view()[i],
            ) by {
                if i < chosen0.len() {
                    assert(chosen.deep_view()[i] == chosen0[i]);
                } else {
                    assert(chosen.deep_view()[i] == mj);
                }
            }
        }
        let ghost pushed = chosen.deep_view();
        let sub = best_extension(g, h, all, j + 1, chosen, k);
        let _ = chosen.pop();
        proof {
            assert(chosen.deep_view() =~= pushed.drop_last());
            assert(pushed.drop_last() =~= chosen0);
        }

        let ghost old_best_cost = best_cost;
        let ghost old_have = have;

        match sub {
            None => {
                proof {
                    // Not enough mappings remain above j; this can only
                    // happen after the first iteration.
                    assert(n - (j + 1) < rem - 1);
                    assert(j > start) by {
                        if j == start {
                            assert(rem <= n - start);
                        }
                    }
                    assert(have);
                    assert forall|s: Seq<int>|
                        is_index_choice(s, start as int, n as int, rem as int) && s[0] < j
                            + 1 implies best_cost <= solution_cost(
                        g@,
                        h@,
                        chosen0 + pick(allv, s),
                        n2,
                    ) by {
                        if s[0] == j {
                            let t = s.drop_first();
                            assert forall|i: int| 0 <= i < t.len() implies j + 1 <= #[trigger] t[i]
                                < n by {
                                assert(t[i] == s[i + 1]);
                                assert(s[0] < s[i + 1]);
                            }
                            assert forall|i: int, i2: int| 0 <= i < i2 < t.len() implies t[i]
                                < t[i2] by {
                                assert(t[i] == s[i + 1] && t[i2] == s[i2 + 1]);
                            }
                            assert(is_index_choice(t, j + 1, n as int, rem - 1));
                            lemma_index_choice_len_bound(t, j + 1, n as int);
                            assert(false);
                        }
                    }
                }
            },
            Some((c, ms_sub)) => {
                if !have || c < best_cost {
                    best_cost = c;
                    best_ms = ms_sub;
                    have = true;
                } else {
                    proof {
                        assert(best_cost <= c);
                    }
                }
                proof {
                    // Any choice starting at j costs at least c, hence at
                    // least the updated best.
                    assert(best_cost <= c || (old_have && best_cost == old_best_cost));
                    let s_sub = choose|s: Seq<int>|
                        #![auto]
                        is_index_choice(s, j + 1 as int, n as int, (k - pushed.len()) as int)
                            && sub->Some_0.1.deep_view() == pushed + pick(allv, s);
                    assert(is_index_choice(s_sub, j + 1, n as int, rem - 1));
                    let s_wit = seq![j as int] + s_sub;
                    assert forall|i: int| 0 <= i < s_wit.len() implies start <= #[trigger] s_wit[i]
                        < n by {
                        if i > 0 {
                            assert(s_wit[i] == s_sub[i - 1]);
                        }
                    }
                    assert forall|i: int, i2: int| 0 <= i < i2 < s_wit.len() implies s_wit[i]
                        < s_wit[i2] by {
                        if i > 0 {
                            assert(s_wit[i] == s_sub[i - 1] && s_wit[i2] == s_sub[i2 - 1]);
                        } else {
                            assert(s_wit[i2] == s_sub[i2 - 1]);
                            assert(j + 1 <= s_sub[i2 - 1]);
                        }
                    }
                    assert(is_index_choice(s_wit, start as int, n as int, rem as int));
                    assert(pick(allv, s_wit) =~= seq![mj] + pick(allv, s_sub)) by {
                        assert forall|i: int| 0 <= i < s_wit.len() implies pick(allv, s_wit)[i]
                            == (seq![mj] + pick(allv, s_sub))[i] by {
                            if i == 0 {
                                assert(s_wit[0] == j);
                            } else {
                                assert(s_wit[i] == s_sub[i - 1]);
                                assert(pick(allv, s_sub)[i - 1] == allv[s_sub[i - 1]]);
                            }
                        }
                    }
                    assert(chosen0 + pick(allv, s_wit) =~= pushed + pick(allv, s_sub));
                    assert(ms_sub.deep_view() == chosen0 + pick(allv, s_wit));
                    // Invariant upkeep for every choice with first index <= j.
                    assert forall|s: Seq<int>|
                        is_index_choice(s, start as int, n as int, rem as int) && s[0] < j
                            + 1 implies best_cost <= solution_cost(
                        g@,
                        h@,
                        chosen0 + pick(allv, s),
                        n2,
                    ) by {
                        if s[0] == j {
                            let t = s.drop_first();
                            assert forall|i: int| 0 <= i < t.len() implies j + 1 <= #[trigger] t[i]
                                < n by {
                                assert(t[i] == s[i + 1]);
                                assert(s[0] < s[i + 1]);
                            }
                            assert forall|i: int, i2: int| 0 <= i < i2 < t.len() implies t[i]
                                < t[i2] by {
                                assert(t[i] == s[i + 1] && t[i2] == s[i2 + 1]);
                            }
                            assert(is_index_choice(t, j + 1, n as int, rem - 1));
                            assert(c <= solution_cost(g@, h@, pushed + pick(allv, t), n2));
                            assert(pick(allv, s) =~= seq![mj] + pick(allv, t)) by {
                                assert forall|i: int| 0 <= i < s.len() implies pick(allv, s)[i]
                                    == (seq![mj] + pick(allv, t))[i] by {
                                    if i == 0 {
                                        assert(s[0] == j);
                                    } else {
                                        assert(t[i - 1] == s[i]);
                                        assert(pick(allv, t)[i - 1] == allv[t[i - 1]]);
                                    }
                                }
                            }
                            assert(chosen0 + pick(allv, s) =~= pushed + pick(allv, t));
                            assert(best_cost <= c);
                        } else {
                            assert(s[0] < j);
                            assert(old_have);
                        }
                    }
                }
            },
        }
        j = j + 1;
    }
    proof {
        assert(have);
        assert forall|s: Seq<int>|
            is_index_choice(s, start as int, n as int, rem as int) implies best_cost
            <= solution_cost(g@, h@, chosen0 + pick(allv, s), n2) by {
            assert(s.len() == rem > 0);
            assert(s[0] < n);
        }
    }
    Some((best_cost, best_ms))
}

/// Any collection of distinct indices can be written canonically: there is a
/// strictly increasing selection holding exactly the same indices.
proof fn lemma_sorted_index_choice(t: Seq<int>, lo: int, n: int)
    requires
        lo <= n,
        forall|i: int| 0 <= i < t.len() ==> lo <= #[trigger] t[i] < n,
        forall|i: int, j: int| 0 <= i < j < t.len() ==> t[i] != t[j],
    ensures
        exists|s: Seq<int>|
            #![trigger is_index_choice(s, lo, n, t.len() as int)]
            is_index_choice(s, lo, n, t.len() as int) && (forall|x: int|
                s.contains(x) <==> t.contains(x)),
    decreases n - lo,
{
    if t.len() == 0 {
        let s = Seq::<int>::empty();
        assert(is_index_choice(s, lo, n, 0));
        assert(forall|x: int| s.contains(x) <==> t.contains(x));
    } else {
        assert(lo <= t[0] < n);
        if t.contains(lo) {
            let idx = choose|i: int| 0 <= i < t.len() && t[i] == lo;
            let t2 = t.remove(idx);
            assert forall|i: int| 0 <= i < t2.len() implies lo + 1 <= #[trigger] t2[i] < n by {
                if i < idx {
                    assert(t2[i] == t[i]);
                    assert(t[i] != t[idx]);
                } else {
                    assert(t2[i] == t[i + 1]);
                    assert(t[i + 1] != t[idx]);
                }
            }
            assert forall|i: int, j: int| 0 <= i < j < t2.len() implies t2[i] != t2[j] by {
                if j < idx {
                    assert(t2[i] == t[i] && t2[j] == t[j]);
                } else if i >= idx {
                    assert(t2[i] == t[i + 1] && t2[j] == t[j + 1]);
                } else {
                    assert(t2[i] == t[i] && t2[j] == t[j + 1]);
                }
            }
            lemma_sorted_index_choice(t2, lo + 1, n);
            let s2 = choose|s2: Seq<int>|
                #![trigger is_index_choice(s2, lo + 1, n, t2.len() as int)]
                is_index_choice(s2, lo + 1, n, t2.len() as int) && (forall|x: int|
                    s2.contains(x) <==> t2.contains(x));
            let s = seq![lo] + s2;
            assert forall|i: int| 0 <= i < s.len() implies lo <= #[trigger] s[i] < n by {
                if i > 0 {
                    assert(s[i] == s2[i - 1]);
                }
            }
            assert forall|i: int, j: int| 0 <= i < j < s.len() implies s[i] < s[j] by {
                if i == 0 {
                    assert(s[j] == s2[j - 1]);
                } else {
                    assert(s[i] == s2[i - 1] && s[j] == s2[j - 1]);
                }
            }
            assert(is_index_choice(s, lo, n, t.len() as int));
            assert forall|x: int| s.contains(x) <==> t.contains(x) by {
                if s.contains(x) {
                    let i = choose|i: int| 0 <= i < s.len() && s[i] == x;
                    if i == 0 {
                        assert(t[idx] == x);
                    } else {
                        assert(s2[i - 1] == x);
                        assert(t2.contains(x));
                        let i2 = choose|i2: int| 0 <= i2 < t2.len() && t2[i2] == x;
                        if i2 < idx {
                            assert(t[i2] == x);
                        } else {
                            assert(t[i2 + 1] == x);
                        }
                    }
                }
                if t.contains(x) {
                    let i = choose|i: int| 0 <= i < t.len() && t[i] == x;
                    if x == lo {
                        assert(s[0] == x);
                    } else {
                        assert(i != idx);
                        if i < idx {
                            assert(t2[i] == x);
                        } else {
                            assert(t2[i - 1] == x);
                        }
                        assert(s2.contains(x));
                        let i3 = choose|i3: int| 0 <= i3 < s2.len() && s2[i3] == x;
                        assert(s[i3 + 1] == x);
                    }
                }
            }
        } else {
            assert forall|i: int| 0 <= i < t.len() implies lo + 1 <= #[trigger] t[i] < n by {
                if t[i] == lo {
                    assert(t.contains(lo));
                }
            }
            lemma_sorted_index_choice(t, lo + 1, n);
            let s2 = choose|s2: Seq<int>|
                #![trigger is_index_choice(s2, lo + 1, n, t.len() as int)]
                is_index_choice(s2, lo + 1, n, t.len() as int) && (forall|x: int|
                    s2.contains(x) <==> t.contains(x));
            assert(is_index_choice(s2, lo, n, t.len() as int));
        }
    }
}

/// The exact cost is minimal not only over canonical index choices but over
/// every set of `k` pairwise-distinct valid mappings: each such set occurs,
/// up to order, as an increasing selection from the enumeration, and the
/// objective does not depend on the order.
pub proof fn lemma_cost_minimal_over_sets(
    g: Seq<Seq<usize>>,
    h: Seq<Seq<usize>>,
    n1: int,
    n2: int,
    k: int,
    cost: int,
    ms: Seq<Seq<usize>>,
)
    requires
        0 <= n1,
        0 <= n2 <= usize::MAX,
        ms.len() == k,
        forall|i: int| 0 <= i < k ==> valid_mapping(n1, n2, #[trigger] ms[i]),
        forall|i: int, j: int| 0 <= i < j < k ==> ms[i] != ms[j],
        forall|s: Seq<int>|
            is_index_choice(s, 0, falling_factorial(n2, n1), k) ==> cost <= solution_cost(
                g,
                h,
                pick(enumeration(n1, n2), s),
                n2,
            ),
    ensures
        cost <= solution_cost(g, h, ms, n2),
{
    let all = enumeration(n1, n2);
    assert(partial_ok(Seq::<usize>::empty(), n1, n2));
    lemma_completions_count(Seq::<usize>::empty(), n1, n2);
    assert(all.len() == falling_factorial(n2, n1));
    let t = Seq::new(k as nat, |i: int| choose|j: int| 0 <= j < all.len() && all[j] == ms[i]);
    assert forall|i: int| 0 <= i < k implies 0 <= #[trigger] t[i] < all.len() && all[t[i]]
        == ms[i] by {
        assert(Seq::<usize>::empty().is_prefix_of(ms[i])) by {
            assert(ms[i].take(0) =~= Seq::<usize>::empty());
        }
        lemma_completions_complete(Seq::<usize>::empty(), ms[i], n1, n2);
        assert(all.contains(ms[i]));
        let jw = choose|jw: int| 0 <= jw < all.len() && all[jw] == ms[i];
        assert(0 <= jw < all.len() && all[jw] == ms[i]);
        assert(t[i] == (choose|j: int| 0 <= j < all.len() && all[j] == ms[i]));
    }
    assert forall|i: int, j: int| 0 <= i < j < k implies t[i] != t[j] by {
        if t[i] == t[j] {
            assert(ms[i] == all[t[i]] && ms[j] == all[t[j]]);
        }
    }
    lemma_sorted_index_choice(t, 0, all.len() as int);
    let s = choose|s: Seq<int>|
        #![trigger is_index_choice(s, 0, all.len() as int, t.len() as int)]
        is_index_choice(s, 0, all.len() as int, t.len() as int) && (forall|x: int|
            s.contains(x) <==> t.contains(x));
    let picked = pick(all, s);
    assert forall|i: int| 0 <= i < picked.len() implies ms.contains(#[trigger] picked[i]) by {
        assert(picked[i] == all[s[i]]);
        assert(s.contains(s[i]));
        assert(t.contains(s[i]));
        let i2 = choose|i2: int| 0 <= i2 < t.len() && t[i2] == s[i];
        assert(ms[i2] == all[t[i2]]);
    }
    assert forall|i: int| 0 <= i < ms.len() implies picked.contains(#[trigger] ms[i]) by {
        assert(t.contains(t[i]));
        assert(s.contains(t[i]));
        let i3 = choose|i3: int| 0 <= i3 < s.len() && s[i3] == t[i];
        assert(picked[i3] == all[s[i3]]);
        assert(picked[i3] == ms[i]);
    }
    lemma_solution_cost_same_elements(g, h, picked, ms, n2);
    assert(cost <= solution_cost(g, h, picked, n2));
}

/// Running the exact solver twice on the same input yields the same cost.
/// Two results that each achieve their cost with some combination and are
/// each minimal over every combination bound one another, so the costs are
/// equal; the witness combinations may still differ.
pub proof fn lemma_exact_cost_deterministic(
    g: Seq<Seq<usize>>,
    h: Seq<Seq<usize>>,
    n1: int,
    n2: int,
    k: int,
    c1: int,
    ms1: Seq<Seq<usize>>,
    c2: int,
    ms2: Seq<Seq<usize>>,
)
    requires
        (exists|s: Seq<int>|
            #![auto]
            is_index_choice(s, 0, falling_factorial(n2, n1), k) && ms1 == pick(
                enumeration(n1, n2),
                s,
            )),
        c1 == solution_cost(g, h, ms1, n2),
        (forall|s: Seq<int>|
            is_index_choice(s, 0, falling_factorial(n2, n1), k) ==> c1 <= solution_cost(
                g,
                h,
                pick(enumeration(n1, n2), s),
                n2,
            )),
        (exists|s: Seq<int>|
            #![auto]
            is_index_choice(s, 0, falling_factorial(n2, n1), k) && ms2 == pick(
                enumeration(n1, n2),
                s,
            )),
        c2 == solution_cost(g, h, ms2, n2),
        (forall|s: Seq<int>|
            is_index_choice(s, 0, falling_factorial(n2, n1), k) ==> c2 <= solution_cost(
                g,
                h,
                pick(enumeration(n1, n2), s),
                n2,
            )),
    ensures
        c1 == c2,
{
    let s1 = choose|s: Seq<int>|
        #![auto]
        is_index_choice(s, 0, falling_factorial(n2, n1), k) && ms1 == pick(enumeration(n1, n2), s);
    let s2 = choose|s: Seq<int>|
        #![auto]
        is_index_choice(s, 0, falling_factorial(n2, n1), k) && ms2 == pick(enumeration(n1, n2), s);
    assert(c1 <= solution_cost(g, h, pick(enumeration(n1, n2), s2), n2));
    assert(c2 <= solution_cost(g, h, pick(enumeration(n1, n2), s1), n2));
}

/// Exactness upper-bounds the heuristic when one mapping is requested: the
/// approximate solver's reported cost for `k == 1` is the true cost of the
/// single valid mapping it returns, that mapping occurs in the enumeration,
/// and the exact solver's cost is minimal over every single-mapping choice.
/// (For `k >= 2` the approximate solver accumulates stage deltas against an
/// already-extended host by pairwise maximum, which can understate the true
/// cost of its own mapping set, so no such bound holds in general.)
pub proof fn lemma_exact_beats_approx_single(
    g: Seq<Seq<usize>>,
    h: Seq<Seq<usize>>,
    n1: int,
    n2: int,
    exact_cost: int,
    approx_cost: int,
    m: Seq<usize>,
)
    requires
        0 <= n1,
        0 <= n2 <= usize::MAX,
        valid_mapping(n1, n2, m),
        approx_cost == solution_cost(g, h, seq![m], n2),
        (forall|s: Seq<int>|
            is_index_choice(s, 0, falling_factorial(n2, n1), 1) ==> exact_cost <= solution_cost(
                g,
                h,
                pick(enumeration(n1, n2), s),
                n2,
            )),
    ensures
        exact_cost <= approx_cost,
        falling_factorial(n2, n1) >= 1,
{
    assert(partial_ok(Seq::<usize>::empty(), n1, n2));
    assert(Seq::<usize>::empty().is_prefix_of(m)) by {
        assert(m.take(0) =~= Seq::<usize>::empty());
    }
    lemma_completions_complete(Seq::<usize>::empty(), m, n1, n2);
    lemma_completions_count(Seq::<usize>::empty(), n1, n2);
    let i = choose|i: int|
        0 <= i < enumeration(n1, n2).len() && enumeration(n1, n2)[i] == m;
    let s = seq![i];
    assert(is_index_choice(s, 0, falling_factorial(n2, n1), 1));
    assert(pick(enumeration(n1, n2), s) =~= seq![m]);
    assert(exact_cost <= solution_cost(g, h, pick(enumeration(n1, n2), s), n2));
}

/// Exact solver: enumerate every injective mapping of the pattern `g` into
/// the host `h`, evaluate every `k`-element combination of them, and return
/// a combination of globally minimal total cost together with its edge map.
/// Fails exactly when fewer than `k` distinct mappings exist.
pub fn exact_solve(g: &Graph, h: &Graph, k: usize) -> (res: Result<
    (usize, EdgeMap, Vec<Mapping>),
    Infeasible,
>)
    requires
        g.wf(),
        h.wf(),
        k >= 1,
        h.n * h.n * matrix_max(g@) <= usize::MAX,
    ensures
        res is Err <==> falling_factorial(h.n as int, g.n as int) < k,
        (match res {
            Ok((cost, em, ms)) => {
                &&& ms@.len() == k
                &&& (forall|i: int|
                    0 <= i < k ==> valid_mapping(
                        g.n as int,
                        h.n as int,
                        #[trigger] ms.deep_view()[i],
                    ))
                &&& (forall|i: int, j: int|
                    0 <= i < j < k ==> ms.deep_view()[i] != ms.deep_view()[j])
                &&& em.wf()
                &&& em.keys_below(h.n as int)
                &&& (forall|x: int, y: int|
                    #[trigger] em.spec_get(x, y) == set_need(g@, h@, ms.deep_view(), x, y))
                &&& cost == em.total_spec()
                &&& cost == solution_cost(g@, h@, ms.deep_view(), h.n as int)
                &&& (exists|s: Seq<int>|
                    #![auto]
                    is_index_choice(
                        s,
                        0,
                        falling_factorial(h.n as int, g.n as int),
                        k as int,
                    ) && ms.deep_view() == pick(enumeration(g.n as int, h.n as int), s))
                &&& (forall|s: Seq<int>|
                    is_index_choice(s, 0, falling_factorial(h.n as int, g.n as int), k as int)
                        ==> cost <= solution_cost(
                        g@,
                        h@,
                        pick(enumeration(g.n as int, h.n as int), s),
                        h.n as int,
                    ))
                &&& (forall|c: Seq<Seq<usize>>|
                    #![trigger solution_cost(g@, h@, c, h.n as int)]
                    c.len() == k && (forall|i: int|
                        0 <= i < k ==> valid_mapping(g.n as int, h.n as int, #[trigger] c[i]))
                        && (forall|i: int, j: int| 0 <= i < j < k ==> c[i] != c[j])
                        ==> cost <= solution_cost(g@, h@, c, h.n as int))
            },
            Err(_) => true,
        }),
{
    let ghost n1 = g.n as int;
    let ghost n2 = h.n as int;
    let all = find_all_mappings(g, h);
    proof {
        assert(all.deep_view() == enumeration(n1, n2));
    }
    if all.len() < k {
        return Err(Infeasible);
    }
    let mut chosen: Vec<Mapping> = Vec::new();
    proof {
        assert(chosen.deep_view() =~= Seq::<Seq<usize>>::empty());
    }
    let sub = best_extension(g, h, &all, 0, &mut chosen, k);
    match sub {
        None => {
            proof {
                assert(false);
            }
            Err(Infeasible)
        },
        Some((cost, ms)) => {
            proof {
                let s_wit = choose|s: Seq<int>|
                    #![auto]
                    is_index_choice(s, 0, all@.len() as int, k as int) && ms.deep_view() == Seq::<
                        Seq<usize>,
                    >::empty() + pick(all.deep_view(), s);
                assert(Seq::<Seq<usize>>::empty() + pick(all.deep_view(), s_wit) =~= pick(
                    all.deep_view(),
                    s_wit,
                ));
                assert(ms.deep_view() == pick(enumeration(n1, n2), s_wit));
                assert forall|i: int| 0 <= i < k implies valid_mapping(
                    n1,
                    n2,
                    #[trigger] ms.deep_view()[i],
                ) by {
                    assert(ms.deep_view()[i] == all.deep_view()[s_wit[i]]);
                }
                lemma_completions_no_dup(Seq::<usize>::empty(), n1, n2);
                assert forall|i: int, j: int| 0 <= i < j < k implies ms.deep_view()[i]
                    != ms.deep_view()[j] by {
                    assert(ms.deep_view()[i] == all.deep_view()[s_wit[i]]);
                    assert(ms.deep_view()[j] == all.deep_view()[s_wit[j]]);
                    assert(s_wit[i] < s_wit[j]);
                    assert(enumeration(n1, n2)[s_wit[i]] != enumeration(n1, n2)[s_wit[j]]);
                }
                assert forall|i: int| 0 <= i < ms.deep_view().len() implies mapping_in_range(
                    n1,
                    n2,
                    #[trigger] ms.deep_view()[i],
                ) by {
                    assert(valid_mapping(n1, n2, ms.deep_view()[i]));
                }
                assert(is_square(g@, n1));
                assert forall|i: int| 0 <= i < ms.deep_view().len() implies (
                #[trigger] ms.deep_view()[i]).len() == n1 by {
                    assert(valid_mapping(n1, n2, ms.deep_view()[i]));
                }
                lemma_solution_cost_bound(g@, h@, ms.deep_view(), n2, n1);
            }
            let em = calculate_edge_map(g, h, &ms);
            proof {
                lemma_edge_map_total(em, g@, h@, ms.deep_view(), n2);
            }
            let total = calculate_total_cost(&em);
            proof {
                assert(total == cost);
                // Minimality over index choices into the enumeration, whose
                // length is the falling factorial.
                assert forall|s: Seq<int>|
                    is_index_choice(
                        s,
                        0,
                        falling_factorial(n2, n1),
                        k as int,
                    ) implies cost <= solution_cost(g@, h@, pick(enumeration(n1, n2), s), n2) by {
                    assert(is_index_choice(s, 0, all@.len() as int, k as int));
                    assert(cost <= solution_cost(
                        g@,
                        h@,
                        Seq::<Seq<usize>>::empty() + pick(all.deep_view(), s),
                        n2,
                    ));
                    assert(Seq::<Seq<usize>>::empty() + pick(all.deep_view(), s) =~= pick(
                        all.deep_view(),
                        s,
                    ));
                }
                // Minimality over every set of k distinct valid mappings.
                assert forall|c: Seq<Seq<usize>>|
                    #![trigger solution_cost(g@, h@, c, n2)]
                    c.len() == k && (forall|i: int|
                        0 <= i < k ==> valid_mapping(n1, n2, #[trigger] c[i])) && (forall|
                        i: int,
                        j: int,
                    | 0 <= i < j < k ==> c[i] != c[j]) implies cost <= solution_cost(
                    g@,
                    h@,
                    c,
                    n2,
                ) by {
                    lemma_cost_minimal_over_sets(g@, h@, n1, n2, k as int, cost as int, c);
                }
            }
            Ok((total, em, ms))
        },
    }
}

} // verus!
