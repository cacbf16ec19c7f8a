//! A stable sort by a strict weak order, for the sorted views.

use vstd::prelude::*;

verus! {

/// An order to sort by: `before` is a strict weak order (irreflexive,
/// transitive, and with incomparability transitive too).
pub trait SortKey: Sized {
    spec fn spec_before(&self, other: &Self) -> bool;

    proof fn lemma_irreflexive(a: &Self)
        ensures
            !a.spec_before(a),
    ;

    proof fn lemma_transitive(a: &Self, b: &Self, c: &Self)
        requires
            a.spec_before(b),
            b.spec_before(c),
        ensures
            a.spec_before(c),
    ;

    /// If `a` comes before `b`, any `c` comes after `a` or before `b`.
    proof fn lemma_connected(a: &Self, b: &Self, c: &Self)
        requires
            a.spec_before(b),
        ensures
            a.spec_before(c) || c.spec_before(b),
    ;

    fn before(&self, other: &Self) -> (r: bool)
        ensures
            r == self.spec_before(other),
    ;
}

/// Some position of `p` holds `k`.
pub open spec fn covered(p: Seq<int>, k: int) -> bool {
    exists|i: int| 0 <= i < p.len() && p[i] == k
}

/// `p` maps the positions `0..n` one-to-one onto `0..n`.
pub open spec fn is_permutation(p: Seq<int>, n: int) -> bool {
    &&& p.len() == n
    &&& forall|i: int| 0 <= i < n ==> 0 <= #[trigger] p[i] < n
    &&& forall|i: int, j: int| 0 <= i < j < n ==> #[trigger] p[i] != #[trigger] p[j]
    &&& forall|k: int| 0 <= k < n ==> #[trigger] covered(p, k)
}

/// `r` is in order, and elements that are equal in the order keep the order
/// of their original positions `p`.
pub open spec fn sorted_stably<T: SortKey>(r: Seq<T>, p: Seq<int>) -> bool {
    forall|i: int, j: int|
        #![trigger r[i], r[j]]
        0 <= i < j < r.len() ==> !r[j].spec_before(&r[i]) && (!r[i].spec_before(&r[j]) ==> p[i]
            < p[j])
}

/// `r` is `src` stably sorted, each element of `r` standing in relation `rel`
/// to the element of `src` it comes from.
pub open spec fn sorted_rearrangement_of<T: SortKey, S>(
    r: Seq<T>,
    src: Seq<S>,
    rel: spec_fn(T, S) -> bool,
) -> bool {
    exists|p: Seq<int>|
        #![trigger is_permutation(p, src.len() as int)]
        is_permutation(p, src.len() as int) && r.len() == src.len() && sorted_stably(r, p) && forall|
            i: int,
        |
            0 <= i < r.len() ==> rel(#[trigger] r[i], src[p[i]])
}

/// `r` is `v` stably sorted.
pub open spec fn is_stable_sort_of<T: SortKey>(r: Seq<T>, v: Seq<T>) -> bool {
    exists|p: Seq<int>|
        #![trigger is_permutation(p, v.len() as int)]
        is_permutation(p, v.len() as int) && r.len() == v.len() && sorted_stably(r, p) && forall|
            i: int,
        | 0 <= i < r.len() ==> #[trigger] r[i] == v[p[i]]
}

/// A stable sort of `v` is a sorted rearrangement of what `v` stands for, element by element.
pub proof fn lemma_sorted_rearrangement<T: SortKey, S>(
    r: Seq<T>,
    v: Seq<T>,
    src: Seq<S>,
    rel: spec_fn(T, S) -> bool,
)
    requires
        is_stable_sort_of(r, v),
        v.len() == src.len(),
        forall|m: int| 0 <= m < v.len() ==> #[trigger] rel(v[m], src[m]),
    ensures
        sorted_rearrangement_of(r, src, rel),
{
    let p = choose|p: Seq<int>|
        #![trigger is_permutation(p, v.len() as int)]
        is_permutation(p, v.len() as int) && r.len() == v.len() && sorted_stably(r, p) && forall|
            i: int,
        | 0 <= i < r.len() ==> #[trigger] r[i] == v[p[i]];
    assert forall|i: int| 0 <= i < r.len() implies rel(#[trigger] r[i], src[p[i]]) by {
        assert(r[i] == v[p[i]]);
        assert(rel(v[p[i]], src[p[i]]));
    }
    assert(is_permutation(p, src.len() as int));
}

/// `v` stably sorted.
pub fn stable_sort<T: SortKey>(v: Vec<T>) -> (r: Vec<T>)
    ensures
        is_stable_sort_of(r@, v@),
{
    let ghost v0 = v@;
    let n = v.len();
    let mut rest = v;
    let mut r: Vec<T> = Vec::new();
    let ghost mut p: Seq<int> = Seq::empty();
    let mut k: usize = 0;
    while k < n
        invariant
            k <= n,
            n == v0.len(),
            rest@ == v0.skip(k as int),
            r@.len() == k,
            p.len() == k,
            forall|i: int| 0 <= i < k ==> 0 <= #[trigger] p[i] < k,
            forall|i: int, j: int| 0 <= i < j < k ==> #[trigger] p[i] != #[trigger] p[j],
            forall|m: int| 0 <= m < k ==> #[trigger] covered(p, m),
            forall|i: int| 0 <= i < k ==> #[trigger] r@[i] == v0[p[i]],
            sorted_stably(r@, p),
        decreases n - k,
    {
        let x = rest.remove(0);
        assert(x == v0[k as int]);
        assert(rest@ =~= v0.skip(k + 1));
        let mut j: usize = 0;
        while j < r.len() && !x.before(&r[j])
            invariant
                j <= r@.len(),
                forall|i: int| 0 <= i < j ==> !x.spec_before(&#[trigger] r@[i]),
            decreases r@.len() - j,
        {
            j += 1;
        }
        let ghost old_r = r@;
        let ghost old_p = p;
        proof {
            assert forall|i: int| j <= i < old_r.len() implies x.spec_before(&#[trigger] old_r[i])
                && !old_r[i].spec_before(&x) by {
                if i == j {
                } else {
                    assert(!old_r[i].spec_before(&old_r[j as int]));
                    T::lemma_connected(&x, &old_r[j as int], &old_r[i]);
                }
                if old_r[i].spec_before(&x) {
                    T::lemma_transitive(&old_r[i], &x, &old_r[i]);
                    T::lemma_irreflexive(&old_r[i]);
                }
            }
        }
        r.insert(j, x);
        proof {
            p = old_p.insert(j as int, k as int);
            assert(r@ == old_r.insert(j as int, x));
            assert forall|i: int| 0 <= i <= k implies #[trigger] r@[i] == v0[p[i]] by {
                if i < j {
                    assert(r@[i] == old_r[i]);
                } else if i > j {
                    assert(r@[i] == old_r[i - 1]);
                }
            }
            assert forall|a: int, b: int|
                #![trigger r@[a], r@[b]]
                0 <= a < b < r@.len() implies !r@[b].spec_before(&r@[a]) && (!r@[a].spec_before(
                &r@[b]) ==> p[a] < p[b]) by {
                if a < j && b < j {
                    assert(r@[a] == old_r[a] && r@[b] == old_r[b]);
                } else if a < j && b == j {
                    assert(r@[a] == old_r[a]);
                    T::lemma_irreflexive(&x);
                } else if a < j && b > j {
                    assert(r@[a] == old_r[a] && r@[b] == old_r[b - 1]);
                } else if a == j {
                    assert(r@[b] == old_r[b - 1]);
                } else {
                    assert(r@[a] == old_r[a - 1] && r@[b] == old_r[b - 1]);
                }
            }
            assert forall|m: int| 0 <= m < k + 1 implies #[trigger] covered(p, m) by {
                if m == k {
                    assert(p[j as int] == m);
                } else {
                    assert(covered(old_p, m));
                    let i0 = choose|i: int| 0 <= i < old_p.len() && old_p[i] == m;
                    if i0 < j {
                        assert(p[i0] == m);
                    } else {
                        assert(p[i0 + 1] == m);
                    }
                }
            }
            assert forall|a: int, b: int| 0 <= a < b < k + 1 implies #[trigger] p[a] != #[trigger] p[b] by {
                if a < j && b < j {
                } else if a < j && b == j {
                } else if a < j && b > j {
                    assert(p[b] == old_p[b - 1]);
                } else if a == j {
                    assert(p[b] == old_p[b - 1]);
                } else {
                    assert(p[a] == old_p[a - 1] && p[b] == old_p[b - 1]);
                }
            }
        }
        k += 1;
    }
    proof {
        assert(is_permutation(p, v0.len() as int));
        assert(v0 == v@);
    }
    r
}

/// The sum of a sequence of integers.
pub open spec fn int_sum(s: Seq<int>) -> int
    decreases s.len(),
{
    if s.len() == 0 {
        0
    } else {
        int_sum(s.drop_last()) + s.last()
    }
}

/// Taking one element out of a sequence takes its value out of the sum.
pub proof fn lemma_int_sum_remove(s: Seq<int>, k: int)
    requires
        0 <= k < s.len(),
    ensures
        int_sum(s) == int_sum(s.remove(k)) + s[k],
    decreases s.len(),
{
    if k == s.len() - 1 {
        assert(s.remove(k) =~= s.drop_last());
    } else {
        lemma_int_sum_remove(s.drop_last(), k);
        assert(s.remove(k).drop_last() =~= s.drop_last().remove(k));
        assert(s.remove(k).last() == s.last());
    }
}

/// Rearranging a sequence does not change its sum.
pub proof fn lemma_int_sum_permuted(g: Seq<int>, p: Seq<int>)
    requires
        is_permutation(p, g.len() as int),
    ensures
        int_sum(Seq::new(g.len(), |i: int| g[p[i]])) == int_sum(g),
    decreases g.len(),
{
    let n = g.len() as int;
    let a = Seq::new(g.len(), |i: int| g[p[i]]);
    if n > 0 {
        assert(covered(p, n - 1));
        let k = choose|i: int| 0 <= i < p.len() && p[i] == n - 1;
        let q = p.remove(k);
        let h = g.drop_last();
        assert forall|i: int| 0 <= i < n - 1 implies 0 <= #[trigger] q[i] < n - 1 by {
            if i < k {
                assert(q[i] == p[i] && p[i] != p[k]);
            } else {
                assert(q[i] == p[i + 1] && p[i + 1] != p[k]);
            }
        }
        assert forall|i: int, j: int| 0 <= i < j < n - 1 implies #[trigger] q[i] != #[trigger] q[j] by {
            let pi = if i < k { i } else { i + 1 };
            let pj = if j < k { j } else { j + 1 };
            assert(q[i] == p[pi] && q[j] == p[pj] && pi < pj);
        }
        assert forall|m: int| 0 <= m < n - 1 implies #[trigger] covered(q, m) by {
            assert(covered(p, m));
            let i = choose|i: int| 0 <= i < p.len() && p[i] == m;
            assert(i != k);
            if i < k {
                assert(q[i] == m);
            } else {
                assert(q[i - 1] == m);
            }
        }
        assert(is_permutation(q, h.len() as int));
        lemma_int_sum_permuted(h, q);
        lemma_int_sum_remove(a, k);
        assert(a.remove(k) =~= Seq::new(h.len(), |i: int| h[q[i]]));
        assert(a[k] == g[n - 1]);
    }
}

} // verus!
