//! Laws of texts.

use vstd::prelude::*;

verus! {

/// No piece holds the separator.
pub open spec fn are_clear_of(p: Seq<Seq<char>>, sep: char) -> bool {
    forall|i: int| 0 <= i < p.len() ==> !(#[trigger] p[i]).contains(sep)
}

/// A text begins with another exactly where it is the other and some rest.
pub proof fn prefixes_stand_at_the_start(s: Seq<char>, p: Seq<char>, rest: Seq<char>)
    ensures
        crate::text::has_prefix(p + rest, p),
        crate::text::has_prefix(s, p) ==> s == p + s.skip(p.len() as int),
        crate::text::has_prefix(s, p) ==> s.len() >= p.len(),
{
    assert((p + rest).subrange(0, p.len() as int) =~= p);
    if crate::text::has_prefix(s, p) {
        assert forall|i: int| 0 <= i < p.len() implies s[i] == #[trigger] p[i] by {
            assert(s.subrange(0, p.len() as int)[i] == p[i]);
        }
        assert(s =~= p + s.skip(p.len() as int));
    }
}

/// A text is found in every text that holds it, and a longer one in none.
pub proof fn parts_are_found(a: Seq<char>, p: Seq<char>, b: Seq<char>, s: Seq<char>)
    ensures
        crate::text::has_substring(a + p + b, p),
        s.len() < p.len() ==> !crate::text::has_substring(s, p),
        crate::text::has_substring(s, p) ==> exists|i: int|
            0 <= i <= s.len() - p.len() && s == (#[trigger] s.take(i)) + p + s.skip(i + p.len()),
{
    let t = a + p + b;
    let n = a.len() as int;
    assert(t.subrange(n, n + p.len()) =~= p);
    if crate::text::has_substring(s, p) {
        let i = choose|i: int|
            0 <= i <= s.len() - p.len() && #[trigger] s.subrange(i, i + p.len()) == p;
        assert forall|k: int| 0 <= k < p.len() implies s[i + k] == #[trigger] p[k] by {
            assert(s.subrange(i, i + p.len())[k] == p[k]);
        }
        assert(s =~= s.take(i) + p + s.skip(i + p.len()));
    }
}

pub proof fn lemma_split_concat(a: Seq<char>, b: Seq<char>, sep: char)
    ensures
        crate::text::split(a + seq![sep] + b, sep) == crate::text::split(a, sep)
            + crate::text::split(b, sep),
    decreases b.len(),
{
    let s = a + seq![sep] + b;
    if b.len() == 0 {
        assert(s.drop_last() == a);
        assert(s.last() == sep);
    } else {
        lemma_split_concat(a, b.drop_last(), sep);
        crate::text::lemma_split_nonempty(b.drop_last(), sep);
        assert(s.drop_last() == a + seq![sep] + b.drop_last());
        assert(s.last() == b.last());
        assert(crate::text::split(s, sep) == crate::text::split(a, sep) + crate::text::split(
            b,
            sep,
        ));
    }
}

pub proof fn lemma_split_one(s: Seq<char>, sep: char)
    requires
        !s.contains(sep),
    ensures
        crate::text::split(s, sep) == seq![s],
    decreases s.len(),
{
    if s.len() > 0 {
        let u = s.drop_last();
        assert(!u.contains(sep)) by {
            if u.contains(sep) {
                let k = choose|k: int| 0 <= k < u.len() && u[k] == sep;
                assert(s[k] == sep);
            }
        }
        lemma_split_one(u, sep);
        assert(s[s.len() - 1] == s.last());
        assert(u.push(s.last()) == s);
        assert(crate::text::split(s, sep) == seq![s]);
    } else {
        assert(s == Seq::<char>::empty());
    }
}

/// Pieces without a separator, put together with it, are found again.
pub proof fn joined_pieces_split_back(p: Seq<Seq<char>>, sep: char)
    requires
        p.len() > 0,
        are_clear_of(p, sep),
    ensures
        crate::text::split(crate::text::join(p, seq![sep]), sep) == p,
    decreases p.len(),
{
    if p.len() == 1 {
        lemma_split_one(p[0], sep);
        assert(p == seq![p[0]]);
    } else {
        let u = p.drop_last();
        assert(are_clear_of(u, sep)) by {
            assert forall|i: int| 0 <= i < u.len() implies !(#[trigger] u[i]).contains(sep) by {
                assert(u[i] == p[i]);
            }
        }
        joined_pieces_split_back(u, sep);
        lemma_split_concat(crate::text::join(u, seq![sep]), p.last(), sep);
        assert(p[p.len() - 1] == p.last());
        lemma_split_one(p.last(), sep);
        assert(u + seq![p.last()] == p);
    }
}

/// The last piece comes behind the others.
pub proof fn lemma_join_last(p: Seq<Seq<char>>, sep: Seq<char>, n: int)
    requires
        1 <= n < p.len(),
    ensures
        crate::text::join(p.take(n + 1), sep) == crate::text::join(p.take(n), sep) + sep + p[n],
{
    assert(p.take(n + 1).drop_last() == p.take(n));
    assert(p.take(n + 1).last() == p[n]);
}

pub proof fn lemma_join_one(p: Seq<Seq<char>>, sep: Seq<char>)
    requires
        p.len() >= 1,
    ensures
        crate::text::join(p.take(1), sep) == p[0],
{
    assert(p.take(1)[0] == p[0]);
}

} // verus!
