//! What paths lead to.

use vstd::prelude::*;

verus! {

/// The path starts with `/`, and is none of Windows.
pub open spec fn is_unix(p: Seq<char>) -> bool {
    p.len() > 0 && p[0] == '/' && !crate::paths::is_windows(p)
}

/// A relative path is put behind its root, with one separator between them; an absolute
/// one leads to itself.
pub proof fn relative_paths_lie_behind_their_root(root: Seq<char>, rel: Seq<char>)
    requires
        is_unix(root),
    ensures
        rel.len() > 0 && rel[0] == '/' ==> crate::paths::path_join(root, rel) == rel,
        !(rel.len() > 0 && rel[0] == '/') && root.last() == '/' ==> crate::paths::path_join(
            root,
            rel,
        ) == root + rel,
        !(rel.len() > 0 && rel[0] == '/') && root.last() != '/' ==> crate::paths::path_join(
            root,
            rel,
        ) == root + seq!['/'] + rel,
{
    reveal_strlit("/");
    assert("/"@ =~= seq!['/']);
}

/// A plain path is what holds it, a separator and its name: put together they give the
/// path again.
pub proof fn paths_are_where_and_name(p: Seq<char>)
    requires
        is_unix(p),
        crate::paths::is_plain(p),
        crate::paths::file_name(p) is Some,
    ensures
        crate::paths::parent(p) is Some,
        crate::paths::path_join(crate::paths::parent(p)->0, crate::paths::file_name(p)->0) == p,
        !crate::paths::file_name(p)->0.contains('/'),
        crate::paths::file_name(p)->0.len() > 0,
{
    reveal_strlit("/");
    assert("/"@ =~= seq!['/']);
    let c = crate::paths::components(p);
    let n = c.len() as int;
    let name = c.last();
    crate::paths::components_are_names(p);
    assert(c[n - 1] == name);
    assert(crate::paths::is_component(name));
    lemma_no_separator(p, n - 1);
    let root = crate::paths::root_of(p);
    assert(root == seq!['/']);
    let sep = seq!['/'];
    assert(crate::paths::separator(p) == '/');
    let up = crate::paths::parent(p)->0;
    assert(name[0] != '/') by {
        if name[0] == '/' {
            assert(name.contains('/'));
        }
    }
    if n == 1 {
        assert(c.drop_last() =~= Seq::empty());
        assert(crate::text::join(c, sep) == c[0]);
        assert(up =~= seq!['/']);
        assert(p =~= up + name);
    } else {
        let u = c.drop_last();
        assert(crate::text::join(c, sep) == crate::text::join(u, sep) + sep + name);
        let prev = u.last();
        assert(u[n - 2] == c[n - 2]);
        assert(crate::paths::is_component(c[n - 2]));
        lemma_no_separator(p, n - 2);
        lemma_join_last_char(u);
        assert(up == root + crate::text::join(u, sep));
        assert(up.last() == prev.last());
        assert(prev.last() != '/') by {
            if prev.last() == '/' {
                assert(prev[prev.len() - 1] == '/');
                assert(prev.contains('/'));
            }
        }
        assert(p =~= up + sep + name);
        assert(up[0] == '/');
        assert(up.len() >= 2);
        assert(!crate::paths::is_windows(up));
    }
}

proof fn lemma_join_last_char(u: Seq<Seq<char>>)
    requires
        u.len() > 0,
        u.last().len() > 0,
    ensures
        crate::text::join(u, seq!['/']).len() > 0,
        crate::text::join(u, seq!['/']).last() == u.last().last(),
{
    if u.len() > 1 {
        let j = crate::text::join(u, seq!['/']);
        assert(j == crate::text::join(u.drop_last(), seq!['/']) + seq!['/'] + u.last());
    } else {
        assert(u[0] == u.last());
    }
}

proof fn lemma_no_separator(p: Seq<char>, k: int)
    requires
        !crate::paths::is_windows(p),
        0 <= k < crate::paths::components(p).len(),
    ensures
        !crate::paths::components(p)[k].contains('/'),
{
    let s = crate::text::split(p, '/');
    let f = |c: Seq<char>| crate::paths::is_component(c);
    crate::laws::seqs::lemma_filter(s, f);
    let c = crate::paths::components(p);
    assert(c =~= s.filter(f));
    assert(s.contains(c[k]));
    let i = choose|i: int| 0 <= i < s.len() && s[i] == c[k];
    lemma_split_clear(p, '/', i);
}

proof fn lemma_split_clear(s: Seq<char>, sep: char, i: int)
    requires
        0 <= i < crate::text::split(s, sep).len(),
    ensures
        !crate::text::split(s, sep)[i].contains(sep),
    decreases s.len(),
{
    let r = crate::text::split(s, sep);
    if s.len() > 0 {
        let before = crate::text::split(s.drop_last(), sep);
        crate::text::lemma_split_nonempty(s.drop_last(), sep);
        if s.last() == sep {
            if i < before.len() {
                lemma_split_clear(s.drop_last(), sep, i);
            }
        } else if i < before.len() - 1 {
            lemma_split_clear(s.drop_last(), sep, i);
        } else {
            lemma_split_clear(s.drop_last(), sep, before.len() - 1);
            let x = before.last().push(s.last());
            assert(r[i] == x);
            if x.contains(sep) {
                let k = choose|k: int| 0 <= k < x.len() && x[k] == sep;
                if k < before.last().len() {
                    assert(before.last()[k] == sep);
                    assert(before.last().contains(sep));
                }
            }
        }
    } else {
        assert(r[i] =~= Seq::empty());
    }
}

/// A file that lies in the archive is stored by where it lies in it, any other by its own
/// path; no file is stored as none.
pub proof fn files_are_stored_by_where_they_lie(
    absolute: Seq<char>,
    canonical: Option<Seq<char>>,
    root: Seq<char>,
)
    ensures
        ({
            let s = crate::paths::storage_form(absolute, canonical, root);
            &&& absolute.len() == 0 ==> s.len() == 0
            &&& absolute.len() > 0 && canonical is None ==> s == absolute
            &&& absolute.len() > 0 && canonical is Some && !crate::paths::lies_under(
                canonical->0,
                root,
            ) ==> s == absolute
            &&& absolute.len() > 0 && root.len() > 0 && canonical is Some
                && crate::paths::lies_under(canonical->0, root) ==> {
                let rest = crate::paths::components(canonical->0).skip(
                    crate::paths::components(root).len() as int,
                );
                s == if rest.len() == 0 || rest.contains(".."@) {
                    absolute
                } else {
                    crate::text::join(rest, seq!['/'])
                }
            }
        }),
{
}

/// A path lies in itself, and what lies in something that lies in a place lies in this
/// place.
pub proof fn lying_under_is_an_order(a: Seq<char>, b: Seq<char>, c: Seq<char>)
    ensures
        crate::paths::lies_under(a, a),
        crate::paths::lies_under(a, b) && crate::paths::lies_under(b, c)
            ==> crate::paths::lies_under(a, c),
        crate::paths::lies_under(a, b) && crate::paths::lies_under(b, a)
            ==> crate::paths::same_path(a, b),
{
    let x = crate::paths::components(a);
    let y = crate::paths::components(b);
    let z = crate::paths::components(c);
    assert(x.take(x.len() as int) =~= x);
    if crate::paths::lies_under(a, b) && crate::paths::lies_under(b, c) {
        assert(x.take(z.len() as int) =~= y.take(z.len() as int)) by {
            assert forall|i: int| 0 <= i < z.len() implies x[i] == #[trigger] y[i] by {
                assert(x.take(y.len() as int)[i] == y[i]);
            }
        }
    }
    if crate::paths::lies_under(a, b) && crate::paths::lies_under(b, a) {
        assert(x.take(y.len() as int) =~= x);
    }
}

/// Trimming takes white space off both ends, and nothing else.
pub proof fn trimming_takes_white_space_off(s: Seq<char>, t: Seq<char>)
    requires
        t.len() > 0,
        !crate::text::is_space(t[0]),
        !crate::text::is_space(t.last()),
        forall|i: int| 0 <= i < s.len() ==> crate::text::is_space(#[trigger] s[i]),
    ensures
        crate::text::trim(s + t + s) == t,
        crate::text::trim(t) == t,
        crate::text::trim(s) == Seq::<char>::empty(),
{
    lemma_trim_start(s, t + s);
    assert(s + (t + s) =~= s + t + s);
    assert((t + s)[0] == t[0]);
    lemma_trim_end(t, s);
    lemma_trim_start(s, Seq::empty());
    assert(s + Seq::<char>::empty() =~= s);
    assert(crate::text::trim_start(t) == t);
    assert(crate::text::trim_end(t) == t);
}

/// White space at the start is taken off.
pub proof fn lemma_trim_start(s: Seq<char>, t: Seq<char>)
    requires
        t.len() == 0 || !crate::text::is_space(t[0]),
        forall|i: int| 0 <= i < s.len() ==> crate::text::is_space(#[trigger] s[i]),
    ensures
        crate::text::trim_start(s + t) == t,
    decreases s.len(),
{
    if s.len() > 0 {
        let u = s.skip(1);
        assert forall|i: int| 0 <= i < u.len() implies crate::text::is_space(#[trigger] u[i]) by {
            assert(u[i] == s[i + 1]);
        }
        lemma_trim_start(u, t);
        assert(crate::text::is_space(s[0]));
        assert((s + t).skip(1) =~= u + t);
    } else {
        assert(s + t =~= t);
    }
}

proof fn lemma_trim_end(t: Seq<char>, s: Seq<char>)
    requires
        t.len() == 0 || !crate::text::is_space(t.last()),
        forall|i: int| 0 <= i < s.len() ==> crate::text::is_space(#[trigger] s[i]),
    ensures
        crate::text::trim_end(t + s) == t,
    decreases s.len(),
{
    if s.len() > 0 {
        let u = s.drop_last();
        assert forall|i: int| 0 <= i < u.len() implies crate::text::is_space(#[trigger] u[i]) by {
            assert(u[i] == s[i]);
        }
        lemma_trim_end(t, u);
        assert(crate::text::is_space(s[s.len() - 1]));
        assert((t + s).drop_last() =~= t + u);
    } else {
        assert(t + s =~= t);
    }
}

/// A text of one line, with or without its end, has this line.
pub proof fn lines_end_with_a_line_feed(l: Seq<char>)
    requires
        l.len() > 0,
        !l.contains('\n'),
        l.last() != '\r',
    ensures
        crate::text::lines(l) == seq![l],
        crate::text::lines(l + seq!['\n']) == seq![l],
        crate::text::lines(l + seq!['\r', '\n']) == seq![l],
        crate::text::lines(Seq::empty()).len() == 0,
{
    crate::laws::text::lemma_split_one(l, '\n');
    crate::laws::text::lemma_split_one(Seq::empty(), '\n');
    let e = Seq::<char>::empty();
    crate::laws::text::lemma_split_concat(l, e, '\n');
    assert(l + seq!['\n'] + e =~= l + seq!['\n']);
    let m = l.push('\r');
    assert(!m.contains('\n')) by {
        if m.contains('\n') {
            let k = choose|k: int| 0 <= k < m.len() && m[k] == '\n';
            assert(l[k] == '\n');
        }
    }
    crate::laws::text::lemma_split_one(m, '\n');
    crate::laws::text::lemma_split_concat(m, e, '\n');
    assert(m + seq!['\n'] + e =~= l + seq!['\r', '\n']);
    assert(crate::text::lines(l) =~= seq![l]);
    assert(crate::text::lines(l + seq!['\n']) =~= seq![l]);
    assert(m.drop_last() =~= l);
    assert(crate::text::lines(l + seq!['\r', '\n']) =~= seq![l]);
}

} // verus!
