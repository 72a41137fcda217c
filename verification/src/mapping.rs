use vstd::prelude::*;

use crate::model::{spec_max, valid_mapping};
use crate::{Graph, Mapping};

verus! {

broadcast use vstd::std_specs::vec::vec_clone_deep_view_proof;

/// The falling factorial: the product of `k` factors counting down from `n`.
/// This is the number of injective mappings of `k` pattern vertices into `n`
/// host vertices.
pub open spec fn falling_factorial(n: int, k: int) -> int
    decreases k,
{
    if k <= 0 {
        1
    } else {
        n * falling_factorial(n - 1, k - 1)
    }
}

/// A partial mapping: at most `n1` entries, all below `n2`, no repeats.
pub open spec fn partial_ok(prefix: Seq<usize>, n1: int, n2: int) -> bool {
    &&& prefix.len() <= n1
    &&& forall|i: int| 0 <= i < prefix.len() ==> (#[trigger] prefix[i]) < n2
    &&& forall|i: int, j: int| 0 <= i < j < prefix.len() ==> prefix[i] != prefix[j]
}

/// Every injective mapping of `n1` pattern vertices into `n2` host vertices
/// that extends `prefix`, listed by trying host vertices for the next pattern
/// vertex in increasing order: the lexicographic enumeration order.
pub open spec fn completions(prefix: Seq<usize>, n1: int, n2: int) -> Seq<Seq<usize>>
    decreases n1 - prefix.len(), spec_max(n2, 0) + 1,
{
    if prefix.len() >= n1 {
        seq![prefix]
    } else {
        completions_from(prefix, 0, n1, n2)
    }
}

/// The part of `completions` whose next host vertex is at least `v`.
pub open spec fn completions_from(prefix: Seq<usize>, v: int, n1: int, n2: int) -> Seq<Seq<usize>>
    decreases n1 - prefix.len(), spec_max(n2 - v, 0),
{
    if prefix.len() >= n1 || v < 0 || v >= n2 {
        Seq::empty()
    } else {
        (if prefix.contains(v as usize) {
            Seq::empty()
        } else {
            completions(prefix.push(v as usize), n1, n2)
        }) + completions_from(prefix, v + 1, n1, n2)
    }
}

/// Everything the enumeration lists is a valid injective mapping extending
/// the prefix.
pub proof fn lemma_completions_sound(prefix: Seq<usize>, n1: int, n2: int)
    requires
        partial_ok(prefix, n1, n2),
    ensures
        forall|i: int|
            0 <= i < completions(prefix, n1, n2).len() ==> valid_mapping(
                n1,
                n2,
                #[trigger] completions(prefix, n1, n2)[i],
            ) && prefix.is_prefix_of(completions(prefix, n1, n2)[i]),
    decreases n1 - prefix.len(), spec_max(n2, 0) + 1,
{
    if prefix.len() >= n1 {
        assert(completions(prefix, n1, n2) == seq![prefix]);
        assert(valid_mapping(n1, n2, prefix));
        assert(prefix.is_prefix_of(prefix)) by {
            assert(prefix.take(prefix.len() as int) =~= prefix);
        }
        assert forall|i: int| 0 <= i < completions(prefix, n1, n2).len() implies valid_mapping(
            n1,
            n2,
            #[trigger] completions(prefix, n1, n2)[i],
        ) && prefix.is_prefix_of(completions(prefix, n1, n2)[i]) by {
            assert(completions(prefix, n1, n2)[i] == prefix);
        }
    } else {
        lemma_completions_from_sound(prefix, 0, n1, n2);
        assert(completions(prefix, n1, n2) == completions_from(prefix, 0, n1, n2));
        assert forall|i: int| 0 <= i < completions(prefix, n1, n2).len() implies valid_mapping(
            n1,
            n2,
            #[trigger] completions(prefix, n1, n2)[i],
        ) && prefix.is_prefix_of(completions(prefix, n1, n2)[i]) by {
            assert(completions(prefix, n1, n2)[i] == completions_from(prefix, 0, n1, n2)[i]);
        }
    }
}

pub proof fn lemma_completions_from_sound(prefix: Seq<usize>, v: int, n1: int, n2: int)
    requires
        partial_ok(prefix, n1, n2),
        0 <= v,
    ensures
        forall|i: int|
            0 <= i < completions_from(prefix, v, n1, n2).len() ==> valid_mapping(
                n1,
                n2,
                #[trigger] completions_from(prefix, v, n1, n2)[i],
            ) && prefix.is_prefix_of(completions_from(prefix, v, n1, n2)[i]),
    decreases n1 - prefix.len(), spec_max(n2 - v, 0),
{
    if prefix.len() >= n1 || v >= n2 {
    } else {
        let a = (if prefix.contains(v as usize) {
            Seq::empty()
        } else {
            completions(prefix.push(v as usize), n1, n2)
        });
        let b = completions_from(prefix, v + 1, n1, n2);
        lemma_completions_from_sound(prefix, v + 1, n1, n2);
        if !prefix.contains(v as usize) {
            let p2 = prefix.push(v as usize);
            assert(partial_ok(p2, n1, n2)) by {
                assert forall|i: int, j: int| 0 <= i < j < p2.len() implies p2[i] != p2[j] by {
                    if j == p2.len() - 1 {
                        assert(p2[j] == v as usize);
                        assert(!prefix.contains(v as usize));
                        assert(p2[i] == prefix[i]);
                    }
                }
            }
            lemma_completions_sound(p2, n1, n2);
        }
        assert forall|i: int|
            0 <= i < completions_from(prefix, v, n1, n2).len() implies valid_mapping(
            n1,
            n2,
            #[trigger] completions_from(prefix, v, n1, n2)[i],
        ) && prefix.is_prefix_of(completions_from(prefix, v, n1, n2)[i]) by {
            let t = completions_from(prefix, v, n1, n2)[i];
            if i < a.len() {
                assert(t == a[i]);
                let p2 = prefix.push(v as usize);
                assert(p2.is_prefix_of(t));
                assert(prefix.is_prefix_of(t)) by {
                    assert(prefix =~= p2.take(prefix.len() as int));
                    assert(p2 =~= t.take(p2.len() as int));
                    assert(prefix =~= t.take(prefix.len() as int));
                }
            } else {
                assert(t == b[i - a.len()]);
            }
        }
    }
}

/// Every valid injective mapping that extends the prefix is listed by the
/// enumeration.
pub proof fn lemma_completions_complete(prefix: Seq<usize>, t: Seq<usize>, n1: int, n2: int)
    requires
        partial_ok(prefix, n1, n2),
        valid_mapping(n1, n2, t),
        prefix.is_prefix_of(t),
    ensures
        completions(prefix, n1, n2).contains(t),
    decreases n1 - prefix.len(), spec_max(n2, 0) + 1,
{
    if prefix.len() >= n1 {
        assert(prefix =~= t) by {
            assert(prefix =~= t.take(prefix.len() as int));
            assert(t.take(t.len() as int) =~= t);
        }
        assert(completions(prefix, n1, n2)[0] == t);
    } else {
        let a = t[prefix.len() as int];
        assert(a < n2);
        lemma_completions_from_complete(prefix, 0, t, n1, n2);
    }
}

pub proof fn lemma_completions_from_complete(
    prefix: Seq<usize>,
    v: int,
    t: Seq<usize>,
    n1: int,
    n2: int,
)
    requires
        partial_ok(prefix, n1, n2),
        prefix.len() < n1,
        valid_mapping(n1, n2, t),
        prefix.is_prefix_of(t),
        0 <= v <= t[prefix.len() as int],
    ensures
        completions_from(prefix, v, n1, n2).contains(t),
    decreases n1 - prefix.len(), spec_max(n2 - v, 0),
{
    let a = t[prefix.len() as int];
    assert(a < n2);
    let first = (if prefix.contains(v as usize) {
        Seq::empty()
    } else {
        completions(prefix.push(v as usize), n1, n2)
    });
    let rest = completions_from(prefix, v + 1, n1, n2);
    if v == a {
        assert(!prefix.contains(a as usize)) by {
            if prefix.contains(a as usize) {
                let i = choose|i: int| 0 <= i < prefix.len() && prefix[i] == a as usize;
                assert(t[i] == prefix[i]) by {
                    assert(prefix =~= t.take(prefix.len() as int));
                }
                assert(t[i] == t[prefix.len() as int]);
            }
        }
        let p2 = prefix.push(a as usize);
        assert(partial_ok(p2, n1, n2)) by {
            assert forall|i: int, j: int| 0 <= i < j < p2.len() implies p2[i] != p2[j] by {
                if j == p2.len() - 1 {
                    assert(p2[i] == prefix[i]);
                }
            }
        }
        assert(p2.is_prefix_of(t)) by {
            assert(prefix =~= t.take(prefix.len() as int));
            assert(p2 =~= t.take(p2.len() as int));
        }
        lemma_completions_complete(p2, t, n1, n2);
        let i = choose|i: int| 0 <= i < first.len() && first[i] == t;
        assert(completions_from(prefix, v, n1, n2)[i] == t);
    } else {
        lemma_completions_from_complete(prefix, v + 1, t, n1, n2);
        let i = choose|i: int| 0 <= i < rest.len() && rest[i] == t;
        assert(completions_from(prefix, v, n1, n2)[first.len() + i] == t);
    }
}

/// How many host vertices in `[v, n2)` the prefix has not used yet.
pub open spec fn unused_count(prefix: Seq<usize>, v: int, n2: int) -> int
    decreases n2 - v,
{
    if v >= n2 {
        0
    } else {
        (if prefix.contains(v as usize) {
            0int
        } else {
            1int
        }) + unused_count(prefix, v + 1, n2)
    }
}

proof fn lemma_unused_count_push(prefix: Seq<usize>, a: usize, v: int, n2: int)
    requires
        !prefix.contains(a),
        0 <= v,
        n2 <= usize::MAX,
    ensures
        unused_count(prefix.push(a), v, n2) == unused_count(prefix, v, n2) - (if v <= a < n2 {
            1int
        } else {
            0int
        }),
    decreases n2 - v,
{
    if v < n2 {
        lemma_unused_count_push(prefix, a, v + 1, n2);
        assert(prefix.push(a).contains(v as usize) <==> (prefix.contains(v as usize) || v == a))
            by {
            if prefix.contains(v as usize) {
                let i = choose|i: int| 0 <= i < prefix.len() && prefix[i] == v as usize;
                assert(prefix.push(a)[i] == v as usize);
            }
            if v == a {
                assert(prefix.push(a)[prefix.len() as int] == a);
            }
            if prefix.push(a).contains(v as usize) {
                let i = choose|i: int|
                    0 <= i < prefix.push(a).len() && prefix.push(a)[i] == v as usize;
                if i < prefix.len() {
                    assert(prefix[i] == v as usize);
                }
            }
        }
    }
}

proof fn lemma_unused_count_empty(v: int, n2: int)
    requires
        0 <= v <= n2,
    ensures
        unused_count(Seq::<usize>::empty(), v, n2) == n2 - v,
    decreases n2 - v,
{
    if v < n2 {
        lemma_unused_count_empty(v + 1, n2);
    }
}

/// A distinct, in-range prefix leaves exactly `n2 - |prefix|` host vertices unused.
proof fn lemma_unused_count_of_partial(prefix: Seq<usize>, n1: int, n2: int)
    requires
        partial_ok(prefix, n1, n2),
        0 <= n2 <= usize::MAX,
    ensures
        unused_count(prefix, 0, n2) == n2 - prefix.len(),
    decreases prefix.len(),
{
    if prefix.len() == 0 {
        assert(prefix =~= Seq::<usize>::empty());
        lemma_unused_count_empty(0, n2);
    } else {
        let q = prefix.drop_last();
        let a = prefix.last();
        assert(prefix =~= q.push(a));
        assert(partial_ok(q, n1, n2)) by {
            assert(forall|i: int| 0 <= i < q.len() ==> q[i] == prefix[i]);
        }
        assert(!q.contains(a)) by {
            if q.contains(a) {
                let i = choose|i: int| 0 <= i < q.len() && q[i] == a;
                assert(prefix[i] == prefix[prefix.len() - 1]);
            }
        }
        lemma_unused_count_of_partial(q, n1, n2);
        lemma_unused_count_push(q, a, 0, n2);
        assert(0 <= a < n2);
    }
}

/// The enumeration below `prefix` lists exactly `falling_factorial` many mappings.
pub proof fn lemma_completions_count(prefix: Seq<usize>, n1: int, n2: int)
    requires
        partial_ok(prefix, n1, n2),
        0 <= n2 <= usize::MAX,
    ensures
        completions(prefix, n1, n2).len() == falling_factorial(n2 - prefix.len(), n1
            - prefix.len()),
    decreases n1 - prefix.len(), spec_max(n2, 0) + 1,
{
    if prefix.len() >= n1 {
    } else {
        lemma_completions_from_count(prefix, 0, n1, n2);
        lemma_unused_count_of_partial(prefix, n1, n2);
        let f = falling_factorial(n2 - prefix.len() - 1, n1 - prefix.len() - 1);
        assert(falling_factorial(n2 - prefix.len(), n1 - prefix.len()) == (n2 - prefix.len()) * f);
    }
}

proof fn lemma_completions_from_count(prefix: Seq<usize>, v: int, n1: int, n2: int)
    requires
        partial_ok(prefix, n1, n2),
        prefix.len() < n1,
        0 <= v,
        n2 <= usize::MAX,
    ensures
        completions_from(prefix, v, n1, n2).len() == unused_count(prefix, v, n2)
            * falling_factorial(n2 - prefix.len() - 1, n1 - prefix.len() - 1),
    decreases n1 - prefix.len(), spec_max(n2 - v, 0),
{
    let f = falling_factorial(n2 - prefix.len() - 1, n1 - prefix.len() - 1);
    if v >= n2 {
        assert(0 * f == 0) by (nonlinear_arith);
    } else {
        lemma_completions_from_count(prefix, v + 1, n1, n2);
        let u = unused_count(prefix, v + 1, n2);
        if prefix.contains(v as usize) {
            assert(unused_count(prefix, v, n2) == u);
        } else {
            let p2 = prefix.push(v as usize);
            assert(partial_ok(p2, n1, n2)) by {
                assert forall|i: int, j: int| 0 <= i < j < p2.len() implies p2[i] != p2[j] by {
                    if j == p2.len() - 1 {
                        assert(p2[i] == prefix[i]);
                    }
                }
            }
            lemma_completions_count(p2, n1, n2);
            assert(completions(p2, n1, n2).len() == f);
            assert(unused_count(prefix, v, n2) == 1 + u);
            assert((1 + u) * f == f + u * f) by (nonlinear_arith);
        }
    }
}

/// With fewer host vertices than pattern vertices there is no injective
/// mapping, and the falling factorial degenerates to zero.
pub proof fn lemma_falling_factorial_zero(n: int, k: int)
    requires
        0 <= n < k,
    ensures
        falling_factorial(n, k) == 0,
    decreases k,
{
    if n == 0 {
        assert(falling_factorial(n, k) == 0 * falling_factorial(-1, k - 1));
        assert(0 * falling_factorial(-1, k - 1) == 0) by (nonlinear_arith);
    } else {
        lemma_falling_factorial_zero(n - 1, k - 1);
        assert(falling_factorial(n, k) == n * 0);
        assert(n * 0 == 0) by (nonlinear_arith);
    }
}

/// A valid mapping needs room: it can only exist when the host has at least
/// as many vertices as the pattern, for otherwise it would be listed by the
/// enumeration, whose length is the falling factorial, which is zero there.
pub proof fn lemma_valid_mapping_needs_room(n1: int, n2: int, m: Seq<usize>)
    requires
        0 <= n2 <= usize::MAX,
        valid_mapping(n1, n2, m),
    ensures
        n1 <= n2,
{
    if n2 < n1 {
        assert(partial_ok(Seq::<usize>::empty(), n1, n2));
        assert(Seq::<usize>::empty().is_prefix_of(m)) by {
            assert(m.take(0) =~= Seq::<usize>::empty());
        }
        lemma_completions_complete(Seq::<usize>::empty(), m, n1, n2);
        lemma_completions_count(Seq::<usize>::empty(), n1, n2);
        lemma_falling_factorial_zero(n2, n1);
        assert(completions(Seq::<usize>::empty(), n1, n2).len() == 0);
    }
}

/// Every mapping listed with next host vertex at least `v` indeed maps the
/// next pattern vertex to a host vertex at least `v`.
proof fn lemma_completions_from_first(prefix: Seq<usize>, v: int, n1: int, n2: int)
    requires
        partial_ok(prefix, n1, n2),
        prefix.len() < n1,
        0 <= v,
        n2 <= usize::MAX,
    ensures
        forall|i: int|
            0 <= i < completions_from(prefix, v, n1, n2).len() ==> #[trigger] completions_from(
                prefix,
                v,
                n1,
                n2,
            )[i][prefix.len() as int] >= v,
    decreases n1 - prefix.len(), spec_max(n2 - v, 0),
{
    if v >= n2 {
    } else {
        let a = (if prefix.contains(v as usize) {
            Seq::empty()
        } else {
            completions(prefix.push(v as usize), n1, n2)
        });
        let b = completions_from(prefix, v + 1, n1, n2);
        lemma_completions_from_first(prefix, v + 1, n1, n2);
        if !prefix.contains(v as usize) {
            let p2 = prefix.push(v as usize);
            assert(partial_ok(p2, n1, n2)) by {
                assert forall|i: int, j: int| 0 <= i < j < p2.len() implies p2[i] != p2[j] by {
                    if j == p2.len() - 1 {
                        assert(p2[i] == prefix[i]);
                    }
                }
            }
            lemma_completions_sound(p2, n1, n2);
        }
        assert forall|i: int|
            0 <= i < completions_from(prefix, v, n1, n2).len() implies #[trigger] completions_from(
            prefix,
            v,
            n1,
            n2,
        )[i][prefix.len() as int] >= v by {
            let t = completions_from(prefix, v, n1, n2)[i];
            if i < a.len() {
                let p2 = prefix.push(v as usize);
                assert(t == a[i]);
                assert(p2.is_prefix_of(t));
                assert(t.subrange(0, p2.len() as int)[prefix.len() as int] == p2[prefix.len() as int]);
                assert(t[prefix.len() as int] == v as usize);
            } else {
                assert(t == b[i - a.len()]);
                assert(t[prefix.len() as int] >= v + 1);
            }
        }
    }
}

/// The enumeration lists each mapping once: no duplicates.
pub proof fn lemma_completions_no_dup(prefix: Seq<usize>, n1: int, n2: int)
    requires
        partial_ok(prefix, n1, n2),
        n2 <= usize::MAX,
    ensures
        forall|i: int, j: int|
            0 <= i < j < completions(prefix, n1, n2).len() ==> completions(prefix, n1, n2)[i]
                != completions(prefix, n1, n2)[j],
    decreases n1 - prefix.len(), spec_max(n2, 0) + 1,
{
    if prefix.len() >= n1 {
    } else {
        lemma_completions_from_no_dup(prefix, 0, n1, n2);
        assert(completions(prefix, n1, n2) == completions_from(prefix, 0, n1, n2));
        assert forall|i: int, j: int|
            0 <= i < j < completions(prefix, n1, n2).len() implies completions(prefix, n1, n2)[i]
            != completions(prefix, n1, n2)[j] by {
            assert(completions(prefix, n1, n2)[i] == completions_from(prefix, 0, n1, n2)[i]);
            assert(completions(prefix, n1, n2)[j] == completions_from(prefix, 0, n1, n2)[j]);
        }
    }
}

proof fn lemma_completions_from_no_dup(prefix: Seq<usize>, v: int, n1: int, n2: int)
    requires
        partial_ok(prefix, n1, n2),
        prefix.len() < n1,
        0 <= v,
        n2 <= usize::MAX,
    ensures
        forall|i: int, j: int|
            0 <= i < j < completions_from(prefix, v, n1, n2).len() ==> completions_from(
                prefix,
                v,
                n1,
                n2,
            )[i] != completions_from(prefix, v, n1, n2)[j],
    decreases n1 - prefix.len(), spec_max(n2 - v, 0),
{
    if v >= n2 {
    } else {
        let a = (if prefix.contains(v as usize) {
            Seq::empty()
        } else {
            completions(prefix.push(v as usize), n1, n2)
        });
        let b = completions_from(prefix, v + 1, n1, n2);
        lemma_completions_from_no_dup(prefix, v + 1, n1, n2);
        lemma_completions_from_first(prefix, v + 1, n1, n2);
        if !prefix.contains(v as usize) {
            let p2 = prefix.push(v as usize);
            assert(partial_ok(p2, n1, n2)) by {
                assert forall|i: int, j: int| 0 <= i < j < p2.len() implies p2[i] != p2[j] by {
                    if j == p2.len() - 1 {
                        assert(p2[i] == prefix[i]);
                    }
                }
            }
            lemma_completions_no_dup(p2, n1, n2);
            lemma_completions_sound(p2, n1, n2);
        }
        assert forall|i: int, j: int|
            0 <= i < j < completions_from(prefix, v, n1, n2).len() implies completions_from(
            prefix,
            v,
            n1,
            n2,
        )[i] != completions_from(prefix, v, n1, n2)[j] by {
            let t = completions_from(prefix, v, n1, n2)[i];
            let t2 = completions_from(prefix, v, n1, n2)[j];
            if j < a.len() {
                let p2 = prefix.push(v as usize);
                assert(t == a[i] && t2 == a[j]);
                assert(completions(p2, n1, n2)[i] != completions(p2, n1, n2)[j]);
            } else if i >= a.len() {
                assert(t == b[i - a.len()] && t2 == b[j - a.len()]);
            } else {
                let p2 = prefix.push(v as usize);
                assert(t == a[i] && t2 == b[j - a.len()]);
                assert(p2.is_prefix_of(t));
                assert(t.subrange(0, p2.len() as int)[prefix.len() as int] == p2[prefix.len() as int]);
                assert(t[prefix.len() as int] == v as usize);
                assert(t2[prefix.len() as int] >= v + 1);
            }
        }
    }
}

/// Recursive backtracking: append to `all_mappings` every injective mapping
/// that extends the first `vertex_idx` entries of `current_mapping`, trying
/// host vertices in increasing order.
fn backtrack(
    vertex_idx: usize,
    n_g: usize,
    n_h: usize,
    current_mapping: &mut Vec<usize>,
    used_vh: &mut Vec<bool>,
    all_mappings: &mut Vec<Mapping>,
)
    requires
        vertex_idx <= n_g,
        old(current_mapping)@.len() == n_g,
        old(used_vh)@.len() == n_h,
        partial_ok(old(current_mapping)@.take(vertex_idx as int), n_g as int, n_h as int),
        forall|w: int|
            0 <= w < n_h ==> (old(used_vh)@[w] <==> old(current_mapping)@.take(
                vertex_idx as int,
            ).contains(w as usize)),
    ensures
        final(current_mapping)@.len() == n_g,
        final(current_mapping)@.take(vertex_idx as int) == old(current_mapping)@.take(
            vertex_idx as int,
        ),
        final(used_vh)@ == old(used_vh)@,
        final(all_mappings).deep_view() == old(all_mappings).deep_view() + completions(
            old(current_mapping)@.take(vertex_idx as int),
            n_g as int,
            n_h as int,
        ),
    decreases n_g - vertex_idx,
{
    let ghost prefix = current_mapping@.take(vertex_idx as int);
    let ghost all0 = all_mappings.deep_view();
    if vertex_idx == n_g {
        // Complete mapping found
        let copy = current_mapping.clone();
        proof {
            assert(copy.deep_view() == current_mapping.deep_view());
            assert(copy@.len() == copy.deep_view().len());
            assert forall|ii: int| 0 <= ii < copy@.len() implies copy@[ii]
                == current_mapping@[ii] by {
                assert(copy.deep_view()[ii] == current_mapping.deep_view()[ii]);
            }
            assert(copy@ =~= current_mapping@);
            assert(prefix =~= current_mapping@);
        }
        let ghost va0 = all_mappings@;
        all_mappings.push(copy);
        proof {
            assert(all_mappings@ =~= va0.push(copy));
            assert(copy.deep_view() =~= prefix);
            assert(all_mappings.deep_view().len() == va0.len() + 1);
            assert(all0.len() == va0.len());
            assert forall|ii: int| 0 <= ii < all0.len() implies all_mappings.deep_view()[ii]
                == all0[ii] by {
                assert(all_mappings.deep_view()[ii] == all_mappings@[ii].deep_view());
                assert(all_mappings@[ii] == va0[ii]);
                assert(all0[ii] == va0[ii].deep_view());
            }
            assert(all_mappings.deep_view()[all0.len() as int] == copy.deep_view());
            assert(completions(prefix, n_g as int, n_h as int) == seq![prefix]);
            assert(all_mappings.deep_view() =~= all0 + completions(
                prefix,
                n_g as int,
                n_h as int,
            ));
        }
        return ;
    }
    // Try mapping the current vertex to each unused vertex in H
    let mut v: usize = 0;
    while v < n_h
        invariant
            v <= n_h,
            vertex_idx < n_g,
            current_mapping@.len() == n_g,
            used_vh@.len() == n_h,
            current_mapping@.take(vertex_idx as int) == prefix,
            used_vh@ == old(used_vh)@,
            partial_ok(prefix, n_g as int, n_h as int),
            forall|w: int|
                0 <= w < n_h ==> (used_vh@[w] <==> prefix.contains(w as usize)),
            all_mappings.deep_view() + completions_from(prefix, v as int, n_g as int, n_h as int)
                =~= all0 + completions_from(prefix, 0, n_g as int, n_h as int),
        decreases n_h - v,
    {
        let ghost acc = all_mappings.deep_view();
        if !used_vh[v] {
            current_mapping[vertex_idx] = v;
            used_vh[v] = true;
            let ghost p2 = current_mapping@.take(vertex_idx as int + 1);
            proof {
                assert(p2 =~= prefix.push(v));
                assert(current_mapping@.take(vertex_idx as int) =~= prefix);
                assert(partial_ok(p2, n_g as int, n_h as int)) by {
                    assert(!prefix.contains(v));
                    assert forall|i: int, j: int| 0 <= i < j < p2.len() implies p2[i] != p2[j] by {
                        if j == p2.len() - 1 {
                            assert(p2[i] == prefix[i]);
                        }
                    }
                }
                assert forall|w: int| 0 <= w < n_h implies (used_vh@[w] <==> p2.contains(
                    w as usize,
                )) by {
                    if w == v {
                        assert(p2[p2.len() - 1] == v);
                        assert(p2.contains(v));
                    } else {
                        assert(prefix.contains(w as usize) ==> p2.contains(w as usize)) by {
                            if prefix.contains(w as usize) {
                                let i = choose|i: int|
                                    0 <= i < prefix.len() && prefix[i] == w as usize;
                                assert(p2[i] == w as usize);
                            }
                        }
                        assert(p2.contains(w as usize) ==> prefix.contains(w as usize)) by {
                            if p2.contains(w as usize) {
                                let i = choose|i: int| 0 <= i < p2.len() && p2[i] == w as usize;
                                if i < prefix.len() {
                                    assert(prefix[i] == w as usize);
                                }
                            }
                        }
                    }
                }
            }
            backtrack(vertex_idx + 1, n_g, n_h, current_mapping, used_vh, all_mappings);
            used_vh[v] = false;
            proof {
                assert(current_mapping@.take(vertex_idx as int) =~= p2.take(vertex_idx as int));
                assert(p2.take(vertex_idx as int) =~= prefix);
                assert(used_vh@ =~= old(used_vh)@);
                assert(completions_from(prefix, v as int, n_g as int, n_h as int) == completions(
                    p2,
                    n_g as int,
                    n_h as int,
                ) + completions_from(prefix, v as int + 1, n_g as int, n_h as int));
                assert(all_mappings.deep_view() + completions_from(
                    prefix,
                    v as int + 1,
                    n_g as int,
                    n_h as int,
                ) =~= acc + completions_from(prefix, v as int, n_g as int, n_h as int));
            }
        } else {
            proof {
                assert(prefix.contains(v));
                assert(completions_from(prefix, v as int, n_g as int, n_h as int)
                    =~= Seq::<Seq<usize>>::empty() + completions_from(
                    prefix,
                    v as int + 1,
                    n_g as int,
                    n_h as int,
                ));
                assert(completions_from(prefix, v as int, n_g as int, n_h as int)
                    =~= completions_from(prefix, v as int + 1, n_g as int, n_h as int));
            }
        }
        v = v + 1;
    }
    proof {
        assert(completions_from(prefix, n_h as int, n_g as int, n_h as int) =~= Seq::<
            Seq<usize>,
        >::empty());
        assert(all_mappings.deep_view() =~= all_mappings.deep_view() + Seq::<Seq<usize>>::empty());
        assert(completions(prefix, n_g as int, n_h as int) == completions_from(
            prefix,
            0,
            n_g as int,
            n_h as int,
        ));
    }
}

/// Find all injective mappings from the pattern graph `g` into the host
/// graph `h`, in lexicographic order: exactly the mappings of the spec-level
/// enumeration, `falling_factorial` many, each valid, and none missing.
pub fn find_all_mappings(g: &Graph, h: &Graph) -> (result: Vec<Mapping>)
    ensures
        result.deep_view() == completions(Seq::<usize>::empty(), g.n as int, h.n as int),
        result@.len() == falling_factorial(h.n as int, g.n as int),
        forall|i: int|
            0 <= i < result@.len() ==> valid_mapping(
                g.n as int,
                h.n as int,
                #[trigger] result.deep_view()[i],
            ),
        forall|t: Seq<usize>|
            valid_mapping(g.n as int, h.n as int, t) ==> result.deep_view().contains(t),
{
    let n_g = g.num_vertices();
    let n_h = h.num_vertices();
    proof {
        assert(partial_ok(Seq::<usize>::empty(), n_g as int, n_h as int));
        lemma_completions_count(Seq::<usize>::empty(), n_g as int, n_h as int);
        lemma_completions_sound(Seq::<usize>::empty(), n_g as int, n_h as int);
        assert forall|t: Seq<usize>| valid_mapping(n_g as int, n_h as int, t) implies completions(
            Seq::<usize>::empty(),
            n_g as int,
            n_h as int,
        ).contains(t) by {
            assert(Seq::<usize>::empty().is_prefix_of(t)) by {
                assert(t.take(0) =~= Seq::<usize>::empty());
            }
            lemma_completions_complete(Seq::<usize>::empty(), t, n_g as int, n_h as int);
        }
    }

    if n_g > n_h {
        // No valid mappings possible
        let result: Vec<Mapping> = Vec::new();
        proof {
            lemma_falling_factorial_zero(n_h as int, n_g as int);
            assert(completions(Seq::<usize>::empty(), n_g as int, n_h as int).len() == 0);
            assert(result.deep_view() =~= completions(
                Seq::<usize>::empty(),
                n_g as int,
                n_h as int,
            ));
        }
        return result;
    }

    let mut all_mappings: Vec<Mapping> = Vec::new();
    let mut current_mapping: Vec<usize> = Vec::new();
    let mut i: usize = 0;
    while i < n_g
        invariant
            i <= n_g,
            current_mapping@.len() == i,
        decreases n_g - i,
    {
        current_mapping.push(0);
        i = i + 1;
    }
    let mut used_vh: Vec<bool> = Vec::new();
    let mut j: usize = 0;
    while j < n_h
        invariant
            j <= n_h,
            used_vh@.len() == j,
            forall|w: int| 0 <= w < j ==> !(#[trigger] used_vh@[w]),
        decreases n_h - j,
    {
        used_vh.push(false);
        j = j + 1;
    }

    proof {
        assert(current_mapping@.take(0) =~= Seq::<usize>::empty());
        assert forall|w: int| 0 <= w < n_h implies (used_vh@[w] <==> current_mapping@.take(
            0,
        ).contains(w as usize)) by {
            assert(!used_vh@[w]);
            if current_mapping@.take(0).contains(w as usize) {
                let i2 = choose|i2: int|
                    0 <= i2 < current_mapping@.take(0).len() && current_mapping@.take(0)[i2]
                        == w as usize;
            }
        }
        assert(all_mappings.deep_view() =~= Seq::<Seq<usize>>::empty());
    }

    backtrack(0, n_g, n_h, &mut current_mapping, &mut used_vh, &mut all_mappings);

    proof {
        assert(all_mappings.deep_view() =~= completions(
            Seq::<usize>::empty(),
            n_g as int,
            n_h as int,
        ));
        assert(all_mappings@.len() == all_mappings.deep_view().len());
    }
    all_mappings
}

} // verus!
