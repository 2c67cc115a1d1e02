//! Facts about sequences that the laws are proved from.

use vstd::prelude::*;

verus! {

/// What is kept is what was there and passes.
pub proof fn lemma_filter<T>(s: Seq<T>, p: spec_fn(T) -> bool)
    ensures
        forall|i: int|
            0 <= i < s.filter(p).len() ==> s.contains(#[trigger] s.filter(p)[i]) && p(
                s.filter(p)[i],
            ),
        forall|i: int| 0 <= i < s.len() && p(#[trigger] s[i]) ==> s.filter(p).contains(s[i]),
{
    assert forall|i: int| 0 <= i < s.filter(p).len() implies s.contains(
        #[trigger] s.filter(p)[i],
    ) && p(s.filter(p)[i]) by {
        assert(s.filter(p).contains(s.filter(p)[i]));
        crate::laws::gps::lemma_filter_from(s, p, s.filter(p)[i]);
    }
    assert forall|i: int| 0 <= i < s.len() && p(#[trigger] s[i]) implies s.filter(p).contains(
        s[i],
    ) by {
        assert(s.contains(s[i]));
        crate::laws::gps::lemma_filter_keeps(s, p, s[i]);
    }
}

/// Items that were kept stand in the order that they had.
pub proof fn lemma_filter_pairs<T>(s: Seq<T>, p: spec_fn(T) -> bool)
    ensures
        forall|i: int, j: int|
            #![trigger s.filter(p)[i], s.filter(p)[j]]
            0 <= i < j < s.filter(p).len() ==> exists|a: int, b: int|
                0 <= a < b < s.len() && #[trigger] s[a] == s.filter(p)[i] && #[trigger] s[b]
                    == s.filter(p)[j],
    decreases s.len(),
{
    reveal(Seq::filter);
    if s.len() > 0 {
        let u = s.drop_last();
        lemma_filter_pairs(u, p);
        lemma_filter(u, p);
        let f = s.filter(p);
        let g = u.filter(p);
        assert forall|i: int, j: int|
            #![trigger f[i], f[j]]
            0 <= i < j < f.len() implies exists|a: int, b: int|
            0 <= a < b < s.len() && #[trigger] s[a] == f[i] && #[trigger] s[b] == f[j] by {
            if j < g.len() {
                assert(f[i] == g[i] && f[j] == g[j]);
                let (a, b) = choose|a: int, b: int|
                    0 <= a < b < u.len() && #[trigger] u[a] == g[i] && #[trigger] u[b] == g[j];
                assert(s[a] == f[i] && s[b] == f[j]);
            } else {
                assert(f[i] == g[i]);
                assert(u.contains(g[i]));
                let a = choose|a: int| 0 <= a < u.len() && u[a] == g[i];
                assert(s[a] == f[i]);
                assert(s[s.len() - 1] == f[j]);
            }
        }
    }
}

/// Nothing is dropped where everything passes.
pub proof fn lemma_filter_all<T>(s: Seq<T>, p: spec_fn(T) -> bool)
    requires
        forall|i: int| 0 <= i < s.len() ==> p(#[trigger] s[i]),
    ensures
        s.filter(p) == s,
    decreases s.len(),
{
    reveal(Seq::filter);
    if s.len() > 0 {
        let u = s.drop_last();
        assert forall|i: int| 0 <= i < u.len() implies p(#[trigger] u[i]) by {
            assert(u[i] == s[i]);
        }
        lemma_filter_all(u, p);
        assert(s[s.len() - 1] == s.last());
        assert(s.filter(p) =~= s);
    }
}

/// What is gained from the items is gained from one of them, and everything that
/// an item gives is there.
pub proof fn lemma_filter_map<T, U>(s: Seq<T>, f: spec_fn(T) -> Option<U>)
    ensures
        forall|i: int|
            #![trigger s.filter_map(f)[i]]
            0 <= i < s.filter_map(f).len() ==> exists|k: int|
                0 <= k < s.len() && f(#[trigger] s[k]) == Some(s.filter_map(f)[i]),
        forall|k: int|
            0 <= k < s.len() && f(#[trigger] s[k]) is Some ==> s.filter_map(f).contains(
                f(s[k])->0,
            ),
        s.filter_map(f).len() <= s.len(),
    decreases s.len(),
{
    reveal(Seq::filter_map);
    if s.len() > 0 {
        let u = s.drop_last();
        lemma_filter_map(u, f);
        let r = s.filter_map(f);
        let g = u.filter_map(f);
        assert(s[s.len() - 1] == s.last());
        assert forall|i: int| #![trigger r[i]] 0 <= i < r.len() implies exists|k: int|
            0 <= k < s.len() && f(#[trigger] s[k]) == Some(r[i]) by {
            if i < g.len() {
                assert(r[i] == g[i]);
                let k = choose|k: int| 0 <= k < u.len() && f(#[trigger] u[k]) == Some(g[i]);
                assert(f(s[k]) == Some(r[i]));
            } else {
                assert(f(s[s.len() - 1]) == Some(r[i]));
            }
        }
        assert forall|k: int| 0 <= k < s.len() && f(#[trigger] s[k]) is Some implies r.contains(
            f(s[k])->0,
        ) by {
            if k < u.len() {
                assert(f(u[k]) is Some);
                let i = choose|i: int| 0 <= i < g.len() && g[i] == f(u[k])->0;
                assert(r[i] == f(s[k])->0);
            } else {
                assert(r[r.len() - 1] == f(s[k])->0);
            }
        }
    }
}

/// Where every item gives something, it is gained one for one.
pub proof fn lemma_filter_map_all<T, U>(s: Seq<T>, f: spec_fn(T) -> Option<U>)
    requires
        forall|i: int| 0 <= i < s.len() ==> f(#[trigger] s[i]) is Some,
    ensures
        s.filter_map(f).len() == s.len(),
        forall|i: int| 0 <= i < s.len() ==> #[trigger] s.filter_map(f)[i] == f(s[i])->0,
    decreases s.len(),
{
    reveal(Seq::filter_map);
    if s.len() > 0 {
        let u = s.drop_last();
        assert forall|i: int| 0 <= i < u.len() implies f(#[trigger] u[i]) is Some by {
            assert(u[i] == s[i]);
        }
        lemma_filter_map_all(u, f);
        assert(s[s.len() - 1] == s.last());
        assert(s.filter_map(f) =~= u.filter_map(f).push(f(s.last())->0));
    }
}

/// Sorting gives what was there, in the order of the keys.
pub proof fn lemma_sorted<T>(s: Seq<T>, key: spec_fn(T) -> int)
    ensures
        crate::sort::sort_by(s, key).len() == s.len(),
        forall|i: int, j: int|
            0 <= i <= j < s.len() ==> key(#[trigger] crate::sort::sort_by(s, key)[i]) <= key(
                #[trigger] crate::sort::sort_by(s, key)[j],
            ),
        forall|i: int|
            0 <= i < s.len() ==> s.contains(#[trigger] crate::sort::sort_by(s, key)[i]),
        forall|i: int|
            0 <= i < s.len() ==> crate::sort::sort_by(s, key).contains(#[trigger] s[i]),
{
    broadcast use vstd::seq_lib::group_to_multiset_ensures;

    let r = crate::sort::sort_by(s, key);
    crate::sort::sort_is_sorted(s, key);
    crate::sort::sort_is_permutation(s, key);
    assert forall|i: int| 0 <= i < s.len() implies s.contains(#[trigger] r[i]) by {
        assert(r.contains(r[i]));
        assert(r.to_multiset().contains(r[i]));
        assert(s.to_multiset().contains(r[i]));
    }
    assert forall|i: int| 0 <= i < s.len() implies r.contains(#[trigger] s[i]) by {
        assert(s.contains(s[i]));
        assert(s.to_multiset().contains(s[i]));
        assert(r.to_multiset().contains(s[i]));
    }
}

} // verus!
