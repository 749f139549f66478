//! Order and membership on sequences of keys: what it means for the keys of a
//! tree, read from left to right, to be those of a search tree.

use vstd::prelude::*;
use crate::key::Key;

verus! {

/// Every later element of `s` is strictly greater than every earlier one.
pub open spec fn increasing<T: Key>(s: Seq<T::V>) -> bool {
    forall|i: int, j: int| 0 <= i < j < s.len() ==> T::lt(#[trigger] s[i], #[trigger] s[j])
}

/// Every element of `s` is strictly less than `bound`.
pub open spec fn below<T: Key>(s: Seq<T::V>, bound: T::V) -> bool {
    forall|x: T::V| #[trigger] s.contains(x) ==> T::lt(x, bound)
}

/// Every element of `s` is strictly greater than `bound`.
pub open spec fn above<T: Key>(s: Seq<T::V>, bound: T::V) -> bool {
    forall|x: T::V| #[trigger] s.contains(x) ==> T::lt(bound, x)
}

/// `after` holds what `before` holds, and `k`.
pub open spec fn gains<K>(after: Seq<K>, before: Seq<K>, k: K) -> bool {
    forall|x: K|
        #![trigger after.contains(x)]
        #![trigger before.contains(x)]
        after.contains(x) <==> (before.contains(x) || x == k)
}

/// `after` holds what `before` holds, but for `k`.
pub open spec fn loses<K>(after: Seq<K>, before: Seq<K>, k: K) -> bool {
    forall|x: K|
        #![trigger after.contains(x)]
        #![trigger before.contains(x)]
        after.contains(x) <==> (before.contains(x) && x != k)
}

/// Membership in `l`, then `k`, then `r` is membership in one of the three.
pub proof fn lemma_contains_join<K>(l: Seq<K>, k: K, r: Seq<K>, x: K)
    ensures
        (l.push(k) + r).contains(x) <==> (l.contains(x) || x == k || r.contains(x)),
{
    let s = l.push(k) + r;
    if s.contains(x) {
        let i = choose|i: int| 0 <= i < s.len() && s[i] == x;
        if i < l.len() {
            assert(l[i] == x);
        } else if i > l.len() {
            assert(r[i - l.len() - 1] == x);
        }
    }
    if l.contains(x) {
        let i = choose|i: int| 0 <= i < l.len() && l[i] == x;
        assert(s[i] == x);
    }
    if x == k {
        assert(s[l.len() as int] == x);
    }
    if r.contains(x) {
        let i = choose|i: int| 0 <= i < r.len() && r[i] == x;
        assert(s[l.len() + 1 + i] == x);
    }
}

/// A sequence joined from `l`, `k` and `r` is increasing exactly when both parts
/// are and `k` separates them.
pub proof fn lemma_increasing_join<T: Key>(l: Seq<T::V>, k: T::V, r: Seq<T::V>)
    ensures
        increasing::<T>(l.push(k) + r) <==> (increasing::<T>(l) && increasing::<T>(r) && below::<T>(
            l,
            k,
        ) && above::<T>(r, k)),
{
    let s = l.push(k) + r;
    let n = l.len() as int;
    if increasing::<T>(s) {
        assert forall|i: int, j: int| 0 <= i < j < l.len() implies T::lt(
            #[trigger] l[i],
            #[trigger] l[j],
        ) by {
            assert(s[i] == l[i] && s[j] == l[j]);
        }
        assert forall|i: int, j: int| 0 <= i < j < r.len() implies T::lt(
            #[trigger] r[i],
            #[trigger] r[j],
        ) by {
            assert(s[n + 1 + i] == r[i] && s[n + 1 + j] == r[j]);
        }
        assert forall|x: T::V| #[trigger] l.contains(x) implies T::lt(x, k) by {
            let i = choose|i: int| 0 <= i < l.len() && l[i] == x;
            assert(s[i] == x && s[n] == k);
        }
        assert forall|x: T::V| #[trigger] r.contains(x) implies T::lt(k, x) by {
            let i = choose|i: int| 0 <= i < r.len() && r[i] == x;
            assert(s[n + 1 + i] == x && s[n] == k);
        }
    }
    if increasing::<T>(l) && increasing::<T>(r) && below::<T>(l, k) && above::<T>(r, k) {
        assert forall|i: int, j: int| 0 <= i < j < s.len() implies T::lt(
            #[trigger] s[i],
            #[trigger] s[j],
        ) by {
            if j < n {
                assert(s[i] == l[i] && s[j] == l[j]);
            } else if j == n {
                assert(s[i] == l[i] && l.contains(l[i]));
            } else if i < n {
                assert(s[i] == l[i] && l.contains(l[i]));
                assert(s[j] == r[j - n - 1] && r.contains(r[j - n - 1]));
                T::lt_transitive(s[i], k, s[j]);
            } else if i == n {
                assert(s[j] == r[j - n - 1] && r.contains(r[j - n - 1]));
            } else {
                assert(s[i] == r[i - n - 1] && s[j] == r[j - n - 1]);
            }
        }
    }
}

/// An increasing sequence holds no value twice.
pub proof fn lemma_increasing_no_duplicates<T: Key>(s: Seq<T::V>)
    requires
        increasing::<T>(s),
    ensures
        s.no_duplicates(),
{
    assert forall|i: int, j: int| 0 <= i < s.len() && 0 <= j < s.len() && i != j implies s[i]
        != s[j] by {
        if i < j {
            assert(T::lt(s[i], s[j]));
            T::lt_irreflexive(s[i]);
        } else {
            assert(T::lt(s[j], s[i]));
            T::lt_irreflexive(s[i]);
        }
    }
}

/// A value below the bound and a value above the bound differ, and neither is the bound.
pub proof fn lemma_lt_asymmetric<T: Key>(a: T::V, b: T::V)
    requires
        T::lt(a, b),
    ensures
        !T::lt(b, a),
        a != b,
{
    T::lt_irreflexive(a);
    if T::lt(b, a) {
        T::lt_transitive(a, b, a);
    }
}

} // verus!
