//! Operations that all tables share.

use crate::text::{precedes, same_str};
use vstd::prelude::*;

verus! {

/// Keeps the rows whose mark is set.
pub(crate) fn retain_marked<T>(
    rows: Vec<T>,
    marks: Vec<bool>,
    Ghost(keep): Ghost<spec_fn(T) -> bool>,
) -> (r: Vec<T>)
    requires
        rows.len() == marks.len(),
        forall|i: int| 0 <= i < rows.len() ==> #[trigger] marks@[i] == keep(rows@[i]),
    ensures
        r@ == rows@.filter(keep),
{
    let ghost all = rows@;
    let mut out: Vec<T> = Vec::new();
    let mut n: usize = 0;
    proof {
        reveal(Seq::filter);
        assert(all.take(0).filter(keep) == Seq::<T>::empty());
    }
    for x in it: rows
        invariant
            it.seq() == all,
            n == it.index(),
            all.len() == marks.len(),
            forall|i: int| 0 <= i < all.len() ==> #[trigger] marks@[i] == keep(all[i]),
            out@ == all.take(n as int).filter(keep),
    {
        proof {
            reveal(Seq::filter);
            assert(all.take(n + 1).drop_last() == all.take(n as int));
            assert(all.take(n + 1).last() == x);
            assert(marks@[n as int] == keep(all[n as int]));
        }
        if marks[n] {
            out.push(x);
        }
        n += 1;
    }
    proof {
        assert(all.take(all.len() as int) == all);
    }
    out
}

/// Keeping rows commutes with a function on rows.
pub proof fn filter_commutes_with_map<T, U>(
    s: Seq<T>,
    p: spec_fn(T) -> bool,
    f: spec_fn(T) -> U,
    q: spec_fn(U) -> bool,
)
    requires
        forall|t: T| #[trigger] p(t) == q(f(t)),
    ensures
        s.filter(p).map_values(f) == s.map_values(f).filter(q),
    decreases s.len(),
{
    reveal(Seq::filter);
    let m = s.map_values(f);
    if s.len() == 0 {
        assert(s.filter(p).map_values(f) == m.filter(q));
    } else {
        filter_commutes_with_map(s.drop_last(), p, f, q);
        assert(m.drop_last() == s.drop_last().map_values(f));
        assert(m.last() == f(s.last()));
        assert(p(s.last()) == q(f(s.last())));
        let r = s.drop_last().filter(p);
        if p(s.last()) {
            assert(r.push(s.last()).map_values(f) == r.map_values(f).push(f(s.last())));
        }
    }
}

/// The place of the first row from `i` on for which `p` holds; the number of
/// rows where there is none.
pub open spec fn first_index<T>(s: Seq<T>, p: spec_fn(T) -> bool, i: int) -> int
    decreases s.len() - i,
{
    if i < 0 || i >= s.len() {
        s.len() as int
    } else if p(s[i]) {
        i
    } else {
        first_index(s, p, i + 1)
    }
}

/// What the first place of a row means.
pub proof fn lemma_first_index<T>(s: Seq<T>, p: spec_fn(T) -> bool, i: int)
    requires
        0 <= i <= s.len(),
    ensures
        i <= first_index(s, p, i) <= s.len(),
        first_index(s, p, i) < s.len() ==> p(s[first_index(s, p, i)]),
        forall|j: int| i <= j < first_index(s, p, i) ==> !p(#[trigger] s[j]),
    decreases s.len() - i,
{
    if i < s.len() && !p(s[i]) {
        lemma_first_index(s, p, i + 1);
    }
}

/// Items that share a key.
#[derive(Debug)]
pub struct Group<T> {
    pub key: String,
    pub items: Vec<T>,
}

/// Groups as pairs of a key and its items.
pub open spec fn group_views<T>(v: Seq<Group<T>>) -> Seq<(Seq<char>, Seq<T>)> {
    v.map_values(|g: Group<T>| (g.key@, g.items@))
}

/// The groups with one more item put into the group of its key.
pub open spec fn with_item<T>(
    g: Seq<(Seq<char>, Seq<T>)>,
    key: Seq<char>,
    x: T,
) -> Seq<(Seq<char>, Seq<T>)> {
    let i = first_index(g, |p: (Seq<char>, Seq<T>)| p.0 == key, 0);
    if i < g.len() {
        g.update(i, (key, g[i].1.push(x)))
    } else {
        g.push((key, seq![x]))
    }
}

/// The items by key, the keys in the order in which they first occur, the items
/// of a key in the order that they came in.
pub open spec fn groups_of<T>(s: Seq<T>, key: spec_fn(T) -> Seq<char>) -> Seq<
    (Seq<char>, Seq<T>),
>
    decreases s.len(),
{
    if s.len() == 0 {
        Seq::empty()
    } else {
        with_item(groups_of(s.drop_last(), key), key(s.last()), s.last())
    }
}

/// The keys of the groups are all different, and a group holds exactly the
/// items with its key, in the order that they came in.
pub proof fn groups_hold_their_items<T>(s: Seq<T>, key: spec_fn(T) -> Seq<char>)
    ensures
        forall|i: int, j: int|
            0 <= i < j < groups_of(s, key).len() ==> (#[trigger] groups_of(s, key)[i]).0 != (
            #[trigger] groups_of(s, key)[j]).0,
        forall|i: int|
            0 <= i < groups_of(s, key).len() ==> (#[trigger] groups_of(s, key)[i]).1 == s.filter(
                |t: T| key(t) == groups_of(s, key)[i].0,
            ) && groups_of(s, key)[i].1.len() > 0,
        forall|k: int|
            0 <= k < s.len() ==> exists|i: int|
                0 <= i < groups_of(s, key).len() && (#[trigger] groups_of(s, key)[i]).0 == key(
                    #[trigger] s[k],
                ),
    decreases s.len(),
{
    reveal(Seq::filter);
    let r = groups_of(s, key);
    if s.len() > 0 {
        let u = s.drop_last();
        let x = s.last();
        let g = groups_of(u, key);
        groups_hold_their_items(u, key);
        let p = |q: (Seq<char>, Seq<T>)| q.0 == key(x);
        lemma_first_index(g, p, 0);
        let at = first_index(g, p, 0);
        assert forall|i: int, j: int| 0 <= i < j < r.len() implies (#[trigger] r[i]).0 != (
        #[trigger] r[j]).0 by {
            if j < g.len() {
                assert(g[i].0 != g[j].0);
            } else {
                assert(!p(g[i]));
            }
        }
        assert forall|i: int| 0 <= i < r.len() implies (#[trigger] r[i]).1 == s.filter(
            |t: T| key(t) == r[i].0,
        ) && r[i].1.len() > 0 by {
            let keep = |t: T| key(t) == r[i].0;
            assert(s.filter(keep) == if keep(x) {
                u.filter(keep).push(x)
            } else {
                u.filter(keep)
            });
            if i < g.len() {
                assert(g[i].0 == r[i].0);
                assert(g[i].1 == u.filter(|t: T| key(t) == g[i].0));
                assert(u.filter(keep) == g[i].1);
                if i != at {
                    assert(r[i] == g[i]);
                    if keep(x) {
                        assert(p(g[i]));
                        if at < i {
                            assert(g[at].0 != g[i].0);
                        } else {
                            assert(!p(g[i]));
                        }
                    }
                }
            } else {
                assert(u.filter(keep) == Seq::<T>::empty()) by {
                    if u.filter(keep).len() > 0 {
                        let y = u.filter(keep)[0];
                        assert(keep(y));
                        assert(u.contains(y)) by {
                            lemma_filter_subset(u, keep, 0);
                        }
                        let k = choose|k: int| 0 <= k < u.len() && u[k] == y;
                        let m = choose|m: int|
                            0 <= m < g.len() && (#[trigger] g[m]).0 == key(u[k]);
                        assert(!p(g[m]));
                    }
                }
            }
        }
        assert forall|k: int| 0 <= k < s.len() implies exists|i: int|
            0 <= i < r.len() && (#[trigger] r[i]).0 == key(#[trigger] s[k]) by {
            if k < u.len() {
                assert(s[k] == u[k]);
                let m = choose|m: int| 0 <= m < g.len() && (#[trigger] g[m]).0 == key(u[k]);
                assert(r[m].0 == key(s[k]));
            } else {
                assert(r[at].0 == key(s[k]));
            }
        }
    }
}

/// A row that was kept was there before.
pub proof fn lemma_filter_subset<T>(s: Seq<T>, keep: spec_fn(T) -> bool, i: int)
    requires
        0 <= i < s.filter(keep).len(),
    ensures
        s.contains(s.filter(keep)[i]),
        keep(s.filter(keep)[i]),
    decreases s.len(),
{
    reveal(Seq::filter);
    if s.len() > 0 {
        let u = s.drop_last();
        if i < u.filter(keep).len() {
            lemma_filter_subset(u, keep, i);
            let k = choose|k: int| 0 <= k < u.len() && u[k] == u.filter(keep)[i];
            assert(s[k] == u[k]);
        } else {
            assert(s[s.len() - 1] == s.last());
        }
    }
}

/// Sorts the items into groups by the given keys.
pub(crate) fn group_by_key<T>(
    items: Vec<T>,
    keys: Vec<String>,
    Ghost(key): Ghost<spec_fn(T) -> Seq<char>>,
) -> (r: Vec<Group<T>>)
    requires
        items.len() == keys.len(),
        forall|i: int| 0 <= i < items.len() ==> (#[trigger] keys@[i])@ == key(items@[i]),
    ensures
        group_views(r@) == groups_of(items@, key),
{
    let ghost all = items@;
    let mut groups: Vec<Group<T>> = Vec::new();
    let mut n: usize = 0;
    proof {
        assert(all.take(0).len() == 0);
        assert(group_views(groups@) == groups_of(all.take(0), key));
    }
    for x in it: items
        invariant
            it.seq() == all,
            n == it.index(),
            all.len() == keys.len(),
            forall|i: int| 0 <= i < all.len() ==> (#[trigger] keys@[i])@ == key(all[i]),
            group_views(groups@) == groups_of(all.take(n as int), key),
    {
        let ghost g = group_views(groups@);
        proof {
            assert(all.take(n + 1).drop_last() == all.take(n as int));
            assert(all.take(n + 1).last() == x);
            assert(keys@[n as int]@ == key(all[n as int]));
        }
        let ghost p = |q: (Seq<char>, Seq<T>)| q.0 == key(x);
        let mut i: usize = 0;
        while i < groups.len() && groups[i].key != keys[n]
            invariant
                i <= groups.len(),
                n < keys.len(),
                g == group_views(groups@),
                keys@[n as int]@ == key(x),
                p == (|q: (Seq<char>, Seq<T>)| q.0 == key(x)),
                first_index(g, p, 0) == first_index(g, p, i as int),
            decreases groups.len() - i,
        {
            proof {
                assert(g[i as int].0 == groups@[i as int].key@);
            }
            i += 1;
        }
        if i < groups.len() {
            proof {
                assert(g[i as int].0 == groups@[i as int].key@);
            }
            let ghost before = groups@;
            groups[i].items.push(x);
            proof {
                assert(group_views(groups@) == g.update(
                    i as int,
                    (key(x), g[i as int].1.push(x)),
                ));
            }
        } else {
            let mut items: Vec<T> = Vec::new();
            items.push(x);
            let fresh = Group { key: keys[n].clone(), items };
            groups.push(fresh);
            proof {
                assert(seq![x] == fresh.items@);
                assert(group_views(groups@) == g.push((key(x), seq![x])));
            }
        }
        n += 1;
    }
    proof {
        assert(all.take(all.len() as int) == all);
    }
    groups
}

/// Whether the string is one of the list.
pub fn contains_string(v: &Vec<String>, s: &String) -> (r: bool)
    ensures
        r == crate::text::views(v@).contains(s@),
{
    let mut i: usize = 0;
    while i < v.len()
        invariant
            i <= v.len(),
            forall|j: int| 0 <= j < i ==> (#[trigger] v@[j])@ != s@,
        decreases v.len() - i,
    {
        if v[i] == *s {
            proof {
                assert(crate::text::views(v@)[i as int] == s@);
            }
            return true;
        }
        i += 1;
    }
    proof {
        assert forall|j: int| 0 <= j < crate::text::views(v@).len() implies crate::text::views(
            v@,
        )[j] != s@ by {
            assert(v@[j]@ != s@);
        }
    }
    false
}

/// The list is in strict order.
pub open spec fn is_ascending(ids: Seq<Seq<char>>) -> bool {
    forall|i: int, j: int|
        0 <= i < j < ids.len() ==> crate::text::lex_lt(#[trigger] ids[i], #[trigger] ids[j])
}

/// Puts a string into a list in strict order, unless it is there already.
pub(crate) fn insert_ordered(ids: Vec<String>, x: &String) -> (r: Vec<String>)
    requires
        is_ascending(crate::text::views(ids@)),
    ensures
        is_ascending(crate::text::views(r@)),
        forall|t: Seq<char>|
            #[trigger] crate::text::views(r@).contains(t) <==> crate::text::views(ids@).contains(t)
                || t == x@,
{
    let ghost iv = crate::text::views(ids@);
    let mut at: usize = 0;
    while at < ids.len() && precedes(ids[at].as_str(), x.as_str())
        invariant
            at <= ids.len(),
            iv == crate::text::views(ids@),
            forall|j: int| 0 <= j < at ==> crate::text::lex_lt(#[trigger] iv[j], x@),
        decreases ids.len() - at,
    {
        proof {
            assert(iv[at as int] == ids@[at as int]@);
        }
        at += 1;
    }
    if at < ids.len() && same_str(ids[at].as_str(), x.as_str()) {
        proof {
            assert(iv[at as int] == ids@[at as int]@);
        }
        return ids;
    }
    let mut r = ids;
    r.insert(at, x.clone());
    let ghost rv = crate::text::views(r@);
    proof {
        assert(rv == iv.insert(at as int, x@));
        if at < iv.len() {
            assert(iv[at as int] == ids@[at as int]@);
            crate::text::lemma_lex_total(iv[at as int], x@);
        }
        assert forall|i: int, j: int| 0 <= i < j < rv.len() implies crate::text::lex_lt(
            #[trigger] rv[i],
            #[trigger] rv[j],
        ) by {
            if j < at {
                assert(rv[i] == iv[i] && rv[j] == iv[j]);
            } else if j == at {
                assert(rv[i] == iv[i]);
            } else if i < at {
                assert(rv[i] == iv[i] && rv[j] == iv[j - 1]);
            } else if i == at {
                assert(rv[j] == iv[j - 1]);
                if j - 1 > at {
                    assert(crate::text::lex_lt(iv[at as int], iv[j - 1]));
                    crate::text::lemma_lex_transitive(x@, iv[at as int], iv[j - 1]);
                }
            } else {
                assert(rv[i] == iv[i - 1] && rv[j] == iv[j - 1]);
            }
        }
        assert forall|t: Seq<char>| #[trigger] rv.contains(t) <==> iv.contains(t) || t == x@ by {
            if rv.contains(t) {
                let k = choose|k: int| 0 <= k < rv.len() && rv[k] == t;
                if k < at {
                    assert(iv[k] == t);
                } else if k > at {
                    assert(iv[k - 1] == t);
                }
            }
            if iv.contains(t) {
                let k = choose|k: int| 0 <= k < iv.len() && iv[k] == t;
                if k < at {
                    assert(rv[k] == t);
                } else {
                    assert(rv[k + 1] == t);
                }
            }
            if t == x@ {
                assert(rv[at as int] == t);
            }
        }
    }
    r
}

} // verus!
