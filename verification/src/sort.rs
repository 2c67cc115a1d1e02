//! Stable sorting by an integer key.

use vstd::prelude::*;

verus! {

/// The sequence with `x` put behind every item whose key is not greater, up to
/// the first item from the end with such a key.
pub open spec fn insert_by<T>(s: Seq<T>, x: T, key: spec_fn(T) -> int) -> Seq<T>
    decreases s.len(),
{
    if s.len() == 0 {
        seq![x]
    } else if key(s.last()) <= key(x) {
        s.push(x)
    } else {
        insert_by(s.drop_last(), x, key).push(s.last())
    }
}

/// The items in ascending order of their keys; items with equal keys keep the
/// order that they came in.
pub open spec fn sort_by<T>(s: Seq<T>, key: spec_fn(T) -> int) -> Seq<T>
    decreases s.len(),
{
    if s.len() == 0 {
        s
    } else {
        insert_by(sort_by(s.drop_last(), key), s.last(), key)
    }
}

/// No item has a smaller key than an item before it.
pub open spec fn is_sorted<T>(s: Seq<T>, key: spec_fn(T) -> int) -> bool {
    forall|i: int, j: int| 0 <= i <= j < s.len() ==> key(#[trigger] s[i]) <= key(#[trigger] s[j])
}

proof fn lemma_insert_sorted<T>(s: Seq<T>, x: T, key: spec_fn(T) -> int)
    requires
        is_sorted(s, key),
    ensures
        is_sorted(insert_by(s, x, key), key),
        insert_by(s, x, key).len() == s.len() + 1,
        forall|i: int|
            0 <= i < s.len() + 1 ==> key(#[trigger] insert_by(s, x, key)[i]) <= key(x) || (
            s.len() > 0 && key(insert_by(s, x, key)[i]) <= key(s.last())),
    decreases s.len(),
{
    if s.len() > 0 && key(s.last()) > key(x) {
        let t = s.drop_last();
        lemma_insert_sorted(t, x, key);
        let r = insert_by(t, x, key);
        assert(forall|i: int| 0 <= i < r.len() ==> key(#[trigger] r[i]) <= key(s.last()));
    }
}

/// Sorting puts the items in ascending order of their keys.
pub proof fn sort_is_sorted<T>(s: Seq<T>, key: spec_fn(T) -> int)
    ensures
        is_sorted(sort_by(s, key), key),
        sort_by(s, key).len() == s.len(),
    decreases s.len(),
{
    if s.len() > 0 {
        sort_is_sorted(s.drop_last(), key);
        lemma_insert_sorted(sort_by(s.drop_last(), key), s.last(), key);
    }
}

proof fn lemma_insert_filter<T>(s: Seq<T>, x: T, key: spec_fn(T) -> int, k: int)
    requires
        is_sorted(s, key),
    ensures
        insert_by(s, x, key).filter(|t: T| key(t) == k) == s.push(x).filter(|t: T| key(t) == k),
    decreases s.len(),
{
    let p = |t: T| key(t) == k;
    if s.len() == 0 {
        assert(seq![x] == s.push(x));
    } else if key(s.last()) > key(x) {
        let t = s.drop_last();
        lemma_insert_filter(t, x, key, k);
        let r = insert_by(t, x, key);
        assert(r.push(s.last()).drop_last() == r);
        assert(s.push(x).drop_last() == s);
        assert(t.push(x).drop_last() == t);
        reveal_with_fuel(Seq::filter, 2);
        assert(r.push(s.last()).filter(p) == if p(s.last()) {
            r.filter(p).push(s.last())
        } else {
            r.filter(p)
        });
    }
}

/// Sorting keeps exactly the items it was given, and keeps items with equal
/// keys in the order that they came in.
pub proof fn sort_keeps_items_and_ties<T>(s: Seq<T>, key: spec_fn(T) -> int, k: int)
    ensures
        sort_by(s, key).filter(|t: T| key(t) == k) == s.filter(|t: T| key(t) == k),
    decreases s.len(),
{
    let p = |t: T| key(t) == k;
    if s.len() > 0 {
        let t = s.drop_last();
        sort_keeps_items_and_ties(t, key, k);
        sort_is_sorted(t, key);
        lemma_insert_filter(sort_by(t, key), s.last(), key, k);
        let r = sort_by(t, key).push(s.last());
        assert(r.drop_last() == sort_by(t, key));
        reveal_with_fuel(Seq::filter, 2);
        assert(r.filter(p) == s.filter(p));
    }
}

proof fn lemma_insert_multiset<T>(s: Seq<T>, x: T, key: spec_fn(T) -> int)
    ensures
        insert_by(s, x, key).to_multiset() == s.to_multiset().insert(x),
    decreases s.len(),
{
    broadcast use vstd::seq_lib::group_to_multiset_ensures;

    if s.len() == 0 {
        assert(seq![x] == s.push(x));
    } else if key(s.last()) > key(x) {
        let t = s.drop_last();
        lemma_insert_multiset(t, x, key);
        assert(s == t.push(s.last()));
    }
}

/// Sorting keeps every item, as often as it occurs.
pub proof fn sort_is_permutation<T>(s: Seq<T>, key: spec_fn(T) -> int)
    ensures
        sort_by(s, key).to_multiset() == s.to_multiset(),
    decreases s.len(),
{
    broadcast use vstd::seq_lib::group_to_multiset_ensures;

    if s.len() > 0 {
        sort_is_permutation(s.drop_last(), key);
        lemma_insert_multiset(sort_by(s.drop_last(), key), s.last(), key);
        assert(s == s.drop_last().push(s.last()));
    }
}

proof fn lemma_insert_map<T, U>(
    s: Seq<T>,
    x: T,
    key: spec_fn(T) -> int,
    f: spec_fn(T) -> U,
    key2: spec_fn(U) -> int,
)
    requires
        forall|t: T| #[trigger] key(t) == key2(f(t)),
    ensures
        insert_by(s, x, key).map_values(f) == insert_by(s.map_values(f), f(x), key2),
    decreases s.len(),
{
    let m = s.map_values(f);
    if s.len() == 0 {
        assert(seq![x].map_values(f) == seq![f(x)]);
    } else {
        assert(m.last() == f(s.last()));
        assert(m.drop_last() == s.drop_last().map_values(f));
        assert(key(s.last()) == key2(f(s.last())));
        assert(key(x) == key2(f(x)));
        if key(s.last()) <= key(x) {
            assert(s.push(x).map_values(f) == m.push(f(x)));
        } else {
            lemma_insert_map(s.drop_last(), x, key, f, key2);
            let r = insert_by(s.drop_last(), x, key);
            assert(r.push(s.last()).map_values(f) == r.map_values(f).push(f(s.last())));
        }
    }
}

/// Sorting commutes with a function that keeps the keys.
pub proof fn sort_commutes_with_map<T, U>(
    s: Seq<T>,
    key: spec_fn(T) -> int,
    f: spec_fn(T) -> U,
    key2: spec_fn(U) -> int,
)
    requires
        forall|t: T| #[trigger] key(t) == key2(f(t)),
    ensures
        sort_by(s, key).map_values(f) == sort_by(s.map_values(f), key2),
    decreases s.len(),
{
    let m = s.map_values(f);
    if s.len() > 0 {
        assert(m.last() == f(s.last()));
        assert(m.drop_last() == s.drop_last().map_values(f));
        sort_commutes_with_map(s.drop_last(), key, f, key2);
        lemma_insert_map(sort_by(s.drop_last(), key), s.last(), key, f, key2);
    }
}

/// Where `insert_by` puts the item.
proof fn lemma_insert_position<T>(s: Seq<T>, x: T, key: spec_fn(T) -> int, pos: int)
    requires
        0 <= pos <= s.len(),
        pos > 0 ==> key(s[pos - 1]) <= key(x),
        forall|j: int| pos <= j < s.len() ==> key(#[trigger] s[j]) > key(x),
    ensures
        insert_by(s, x, key) == s.insert(pos, x),
    decreases s.len(),
{
    if s.len() == 0 {
        assert(s.insert(pos, x) == seq![x]);
    } else if pos == s.len() {
        assert(s.insert(pos, x) == s.push(x));
    } else {
        let t = s.drop_last();
        assert forall|j: int| pos <= j < t.len() implies key(#[trigger] t[j]) > key(x) by {
            assert(t[j] == s[j]);
        }
        assert(key(s[s.len() - 1]) > key(x));
        lemma_insert_position(t, x, key, pos);
        assert(t.insert(pos, x).push(s.last()) == s.insert(pos, x));
    }
}

/// Sorts the items by the given keys.
pub(crate) fn sort_stable<T>(
    items: Vec<T>,
    keys: Vec<i128>,
    Ghost(key): Ghost<spec_fn(T) -> int>,
) -> (r: Vec<T>)
    requires
        items.len() == keys.len(),
        forall|i: int| 0 <= i < items.len() ==> #[trigger] keys@[i] == key(items@[i]),
    ensures
        r@ == sort_by(items@, key),
{
    let ghost all = items@;
    let mut out: Vec<T> = Vec::new();
    let mut out_keys: Vec<i128> = Vec::new();
    let mut n: usize = 0;
    for x in it: items
        invariant
            it.seq() == all,
            n == it.index(),
            all.len() == keys.len(),
            forall|i: int| 0 <= i < all.len() ==> #[trigger] keys@[i] == key(all[i]),
            out@ == sort_by(all.take(n as int), key),
            out.len() == out_keys.len(),
            forall|i: int| 0 <= i < out.len() ==> #[trigger] out_keys@[i] == key(out@[i]),
    {
        let k: i128 = keys[n];
        let mut pos: usize = out.len();
        while pos > 0 && out_keys[pos - 1] > k
            invariant
                pos <= out.len(),
                out.len() == out_keys.len(),
                forall|i: int| 0 <= i < out.len() ==> #[trigger] out_keys@[i] == key(out@[i]),
                forall|j: int| pos <= j < out.len() ==> key(#[trigger] out@[j]) > k,
            decreases pos,
        {
            proof {
                assert(out_keys@[pos - 1] == key(out@[pos - 1]));
            }
            pos -= 1;
        }
        let ghost before = out@;
        proof {
            assert(x == all[n as int]);
            assert(k == key(x));
            if pos > 0 {
                assert(out_keys@[pos - 1] == key(out@[pos - 1]));
            }
            lemma_insert_position(before, x, key, pos as int);
            assert(all.take(n + 1).drop_last() == all.take(n as int));
            assert(all.take(n + 1).last() == x);
        }
        let ghost before_keys = out_keys@;
        out.insert(pos, x);
        out_keys.insert(pos, k);
        n += 1;
        proof {
            assert forall|i: int| 0 <= i < out.len() implies #[trigger] out_keys@[i] == key(
                out@[i],
            ) by {
                if i < pos {
                    assert(out_keys@[i] == before_keys[i]);
                    assert(before_keys[i] == key(before[i]));
                } else if i > pos {
                    assert(out_keys@[i] == before_keys[i - 1]);
                    assert(before_keys[i - 1] == key(before[i - 1]));
                }
            }
        }
    }
    proof {
        assert(all.take(all.len() as int) == all);
    }
    out
}

} // verus!
