//! Paths, and their archive-relative form. An absolute path says by its start how
//! it is read: with a drive or the share of a server it is a path of Windows, where
//! `\` and `/` stand between components; else only `/` does. An archive stores
//! paths with `/`.

use crate::error::AppError;
use crate::text::{
    ascii_lowered, chars_of, concat2, concat3, is_str, owned, push_chars, same_str, split_chars,
    string_of,
};
use vstd::prelude::*;
use vstd::string::StringExecFns;

verus! {

/// A piece of a path that names something: not empty and not `.`.
pub open spec fn is_component(c: Seq<char>) -> bool {
    c.len() > 0 && c != "."@
}

/// A letter that names a drive.
pub open spec fn is_drive_letter(c: char) -> bool {
    'a' <= c && c <= 'z' || 'A' <= c && c <= 'Z'
}

/// The path starts with a drive: a letter, a colon and a separator.
pub open spec fn has_drive(p: Seq<char>) -> bool {
    p.len() >= 3 && is_drive_letter(p[0]) && p[1] == ':' && (p[2] == '\\' || p[2] == '/')
}

/// The path starts with a server and its share, after two separators.
pub open spec fn has_share(p: Seq<char>) -> bool {
    p.len() >= 2 && p[0] == '\\' && p[1] == '\\'
}

/// The path is an absolute one of Windows.
pub open spec fn is_windows(p: Seq<char>) -> bool {
    has_drive(p) || has_share(p)
}

/// What stands between the components of a path.
pub open spec fn separator(p: Seq<char>) -> char {
    if is_windows(p) {
        '\\'
    } else {
        '/'
    }
}

/// The character with `/` in place of `\`.
pub open spec fn slash_of(c: char) -> char {
    if c == '\\' {
        '/'
    } else {
        c
    }
}

/// The path with `/` for every separator.
pub open spec fn slashed(p: Seq<char>) -> Seq<char> {
    if is_windows(p) {
        p.map_values(|c: char| slash_of(c))
    } else {
        p
    }
}

/// What stands between the separators of a path and names something.
pub open spec fn names(p: Seq<char>) -> Seq<Seq<char>> {
    crate::text::split(slashed(p), '/').filter(|c: Seq<char>| is_component(c))
}

/// How many of the names belong to the root: the drive, or the server and its
/// share.
pub open spec fn root_names(p: Seq<char>) -> int {
    let n: int = if has_drive(p) {
        1
    } else if has_share(p) {
        2
    } else {
        0
    };
    if n < names(p).len() {
        n
    } else {
        names(p).len() as int
    }
}

/// The components of a path, below its root.
pub open spec fn components(p: Seq<char>) -> Seq<Seq<char>> {
    names(p).skip(root_names(p))
}

/// The root of a path, with a separator at its end; nothing where the path is
/// relative.
pub open spec fn root_of(p: Seq<char>) -> Seq<char> {
    if has_drive(p) {
        p.take(2) + seq!['\\']
    } else if has_share(p) {
        seq!['\\', '\\'] + crate::text::join(names(p).take(root_names(p)), seq!['\\'])
            + seq!['\\']
    } else if p.len() > 0 && p[0] == '/' {
        seq!['/']
    } else {
        Seq::empty()
    }
}

/// What tells the roots of paths apart: the letter of a drive counts in either
/// case.
pub open spec fn root_key(p: Seq<char>) -> Seq<char> {
    if has_drive(p) {
        crate::text::ascii_lower(root_of(p))
    } else {
        root_of(p)
    }
}

/// The path starts at the root of a file system.
pub open spec fn is_absolute(p: Seq<char>) -> bool {
    is_windows(p) || p.len() > 0 && p[0] == '/'
}

/// `a` is the start of `b`.
pub open spec fn is_start(a: Seq<Seq<char>>, b: Seq<Seq<char>>) -> bool {
    a.len() <= b.len() && b.take(a.len() as int) == a
}

fn starts_with_drive(c: &Vec<char>) -> (r: bool)
    ensures
        r == has_drive(c@),
{
    c.len() >= 3 && ('a' <= c[0] && c[0] <= 'z' || 'A' <= c[0] && c[0] <= 'Z') && c[1] == ':' && (
    c[2] == '\\' || c[2] == '/')
}

fn starts_with_share(c: &Vec<char>) -> (r: bool)
    ensures
        r == has_share(c@),
{
    c.len() >= 2 && c[0] == '\\' && c[1] == '\\'
}

/// The path with `/` for every separator.
pub(crate) fn with_slashes(c: &Vec<char>) -> (r: Vec<char>)
    ensures
        r@ == slashed(c@),
{
    if !starts_with_drive(c) && !starts_with_share(c) {
        let r = c.clone();
        proof {
            assert(r@ == c@);
        }
        return r;
    }
    let ghost want = c@.map_values(|x: char| slash_of(x));
    let mut r: Vec<char> = Vec::new();
    let mut i: usize = 0;
    while i < c.len()
        invariant
            i <= c.len(),
            want == c@.map_values(|x: char| slash_of(x)),
            r@ == want.take(i as int),
        decreases c.len() - i,
    {
        let x: char = if c[i] == '\\' {
            '/'
        } else {
            c[i]
        };
        r.push(x);
        proof {
            assert(want[i as int] == x);
            assert(want.take(i + 1) == want.take(i as int).push(x));
        }
        i += 1;
    }
    proof {
        assert(want.take(want.len() as int) == want);
    }
    r
}

fn names_of(all: &Vec<char>) -> (v: Vec<Vec<char>>)
    ensures
        crate::text::pieces(v@) == names(all@),
{
    let plain = with_slashes(all);
    let parts = split_chars(plain.as_slice(), '/');
    let ghost pv = crate::text::pieces(parts@);
    let ghost keep = |c: Seq<char>| is_component(c);
    let mut v: Vec<Vec<char>> = Vec::new();
    let mut i: usize = 0;
    proof {
        assert(pv.take(0).filter(keep) == Seq::<Seq<char>>::empty());
        assert(crate::text::pieces(v@) == pv.take(0).filter(keep));
    }
    while i < parts.len()
        invariant
            i <= parts.len(),
            pv == crate::text::pieces(parts@),
            keep == (|c: Seq<char>| is_component(c)),
            crate::text::pieces(v@) == pv.take(i as int).filter(keep),
        decreases parts.len() - i,
    {
        proof {
            assert(pv.take(i + 1).drop_last() == pv.take(i as int));
            assert(pv.take(i + 1).last() == parts@[i as int]@);
            reveal(Seq::filter);
        }
        if parts[i].len() > 0 && !is_str(parts[i].as_slice(), ".") {
            let c = parts[i].clone();
            let ghost cv = c@;
            let ghost before = v@;
            v.push(c);
            proof {
                assert(crate::text::pieces(v@) == crate::text::pieces(before).push(cv));
            }
        }
        i += 1;
    }
    proof {
        assert(pv.take(pv.len() as int) == pv);
    }
    v
}

fn count_root_names(c: &Vec<char>, all: usize) -> (r: usize)
    requires
        all == names(c@).len(),
    ensures
        r == root_names(c@),
{
    let n: usize = if starts_with_drive(c) {
        1
    } else if starts_with_share(c) {
        2
    } else {
        0
    };
    if n < all {
        n
    } else {
        all
    }
}

/// The pieces from the `from`th up to the `to`th.
fn piece_range(c: &Vec<Vec<char>>, from: usize, to: usize) -> (r: Vec<Vec<char>>)
    requires
        from <= to <= c.len(),
    ensures
        crate::text::pieces(r@) == crate::text::pieces(c@).subrange(from as int, to as int),
{
    let ghost cv = crate::text::pieces(c@);
    let mut r: Vec<Vec<char>> = Vec::new();
    let mut i: usize = from;
    while i < to
        invariant
            from <= i <= to <= c.len(),
            cv == crate::text::pieces(c@),
            crate::text::pieces(r@) == cv.subrange(from as int, i as int),
        decreases to - i,
    {
        let p = c[i].clone();
        let ghost pv = p@;
        let ghost before = r@;
        r.push(p);
        i += 1;
        proof {
            assert(pv == cv[i - 1]);
            assert(crate::text::pieces(r@) == crate::text::pieces(before).push(pv));
            assert(cv.subrange(from as int, i as int) == cv.subrange(from as int, i - 1).push(pv));
        }
    }
    r
}

/// The components of a path, below its root.
pub fn components_of(p: &str) -> (v: Vec<Vec<char>>)
    ensures
        crate::text::pieces(v@) == components(p@),
{
    let all = chars_of(p);
    let v = names_of(&all);
    let n: usize = count_root_names(&all, v.len());
    let r = piece_range(&v, n, v.len());
    proof {
        let nv = names(p@);
        assert(nv.subrange(n as int, nv.len() as int) == nv.skip(n as int));
    }
    r
}

/// Whether the path starts at the root of a file system.
pub fn path_is_absolute(p: &str) -> (r: bool)
    ensures
        r == is_absolute(p@),
{
    let c = chars_of(p);
    starts_with_drive(&c) || starts_with_share(&c) || c.len() > 0 && c[0] == '/'
}

/// The root of a path.
fn root_text(p: &str) -> (s: String)
    ensures
        s@ == root_of(p@),
{
    let c = chars_of(p);
    let mut s = String::new();
    if starts_with_drive(&c) {
        s.push(c[0]);
        s.push(c[1]);
        s.push('\\');
        proof {
            assert(s@ == root_of(p@));
        }
    } else if starts_with_share(&c) {
        let v = names_of(&c);
        let n: usize = count_root_names(&c, v.len());
        let first = piece_range(&v, 0, n);
        let inner = join_components(&first, 0, '\\');
        s.push('\\');
        s.push('\\');
        s.append(inner.as_str());
        s.push('\\');
        proof {
            let nv = names(p@);
            let fv = crate::text::pieces(first@);
            assert(nv.subrange(0, n as int) == nv.take(n as int));
            assert(fv.skip(0) == fv);
            assert(s@ == root_of(p@));
        }
    } else if c.len() > 0 && c[0] == '/' {
        s.push('/');
        proof {
            assert(s@ == root_of(p@));
        }
    }
    s
}

fn root_key_text(p: &str) -> (s: String)
    ensures
        s@ == root_key(p@),
{
    let root = root_text(p);
    if starts_with_drive(&chars_of(p)) {
        string_of(ascii_lowered(chars_of(root.as_str()).as_slice()).as_slice())
    } else {
        root
    }
}

fn starts_with_components(a: &Vec<Vec<char>>, b: &Vec<Vec<char>>) -> (r: bool)
    ensures
        r == is_start(crate::text::pieces(a@), crate::text::pieces(b@)),
{
    let ghost av = crate::text::pieces(a@);
    let ghost bv = crate::text::pieces(b@);
    if a.len() > b.len() {
        return false;
    }
    let mut i: usize = 0;
    while i < a.len()
        invariant
            i <= a.len() <= b.len(),
            av == crate::text::pieces(a@),
            bv == crate::text::pieces(b@),
            forall|j: int| 0 <= j < i ==> #[trigger] av[j] == bv[j],
        decreases a.len() - i,
    {
        proof {
            assert(av[i as int] == a@[i as int]@);
            assert(bv[i as int] == b@[i as int]@);
        }
        if !crate::text::same_chars(a[i].as_slice(), b[i].as_slice()) {
            proof {
                assert(bv.take(av.len() as int)[i as int] == bv[i as int]);
            }
            return false;
        }
        i += 1;
    }
    proof {
        assert(bv.take(av.len() as int) == av);
    }
    true
}

/// The path `child` lies at or below the path `parent`.
pub open spec fn lies_under(child: Seq<char>, parent: Seq<char>) -> bool {
    root_key(child) == root_key(parent) && is_start(components(parent), components(child))
}

/// Whether one path, both without symbolic links, lies at or below the other.
pub fn is_under(child: &str, parent: &str) -> (r: bool)
    ensures
        r == lies_under(child@, parent@),
{
    let c = components_of(child);
    let p = components_of(parent);
    same_str(root_key_text(child).as_str(), root_key_text(parent).as_str())
        && starts_with_components(&p, &c)
}

/// The components put together with `/`.
pub open spec fn joined(c: Seq<Seq<char>>) -> Seq<char> {
    crate::text::join(c, seq!['/'])
}

fn join_components(c: &Vec<Vec<char>>, from: usize, sep: char) -> (s: String)
    requires
        from <= c.len(),
    ensures
        s@ == crate::text::join(crate::text::pieces(c@).skip(from as int), seq![sep]),
{
    let ghost cv = crate::text::pieces(c@);
    let mut s = String::new();
    let mut i: usize = from;
    proof {
        assert(cv.subrange(from as int, from as int) == Seq::<Seq<char>>::empty());
    }
    while i < c.len()
        invariant
            from <= i <= c.len(),
            cv == crate::text::pieces(c@),
            s@ == crate::text::join(cv.subrange(from as int, i as int), seq![sep]),
        decreases c.len() - i,
    {
        let ghost before = s@;
        if i > from {
            s.push(sep);
        }
        push_chars(&mut s, c[i].as_slice());
        proof {
            let w = cv.subrange(from as int, i + 1);
            assert(w.last() == c@[i as int]@);
            assert(w.drop_last() == cv.subrange(from as int, i as int));
            if i > from {
                assert(s@ == before + seq![sep] + w.last());
            } else {
                assert(before + w.last() == w.last());
            }
        }
        i += 1;
    }
    proof {
        assert(cv.subrange(from as int, cv.len() as int) == cv.skip(from as int));
    }
    s
}

/// What the archive-relative form of a path is.
pub enum Relative {
    /// The path, relative to the root of the archive.
    At(Seq<char>),
    /// It does not lie under the root.
    Outside,
    /// It goes up, which no stored path may.
    GoesUp,
    /// The root is empty, so that nothing was taken off the path.
    NotStripped,
    /// It is the root itself.
    Empty,
}

/// The archive-relative form of an absolute path without symbolic links.
pub open spec fn relative_form(canonical: Seq<char>, root: Seq<char>) -> Relative {
    let c = components(canonical);
    let r = components(root);
    if root.len() == 0 {
        Relative::NotStripped
    } else if !lies_under(canonical, root) {
        Relative::Outside
    } else {
        let rest = c.skip(r.len() as int);
        if rest.contains(".."@) {
            Relative::GoesUp
        } else if rest.len() == 0 {
            Relative::Empty
        } else {
            Relative::At(joined(rest))
        }
    }
}

fn goes_up(c: &Vec<Vec<char>>, from: usize) -> (r: bool)
    requires
        from <= c.len(),
    ensures
        r == crate::text::pieces(c@).skip(from as int).contains(".."@),
{
    let ghost rest = crate::text::pieces(c@).skip(from as int);
    let mut i: usize = from;
    while i < c.len()
        invariant
            from <= i <= c.len(),
            rest == crate::text::pieces(c@).skip(from as int),
            forall|j: int| 0 <= j < i - from ==> rest[j] != ".."@,
        decreases c.len() - i,
    {
        proof {
            assert(rest[i - from] == c@[i as int]@);
        }
        if is_str(c[i].as_slice(), "..") {
            return true;
        }
        i += 1;
    }
    false
}

/// The path of a file as the archive stores it: relative to the root, with `/`
/// between its components. `canonical` is an absolute path without symbolic
/// links.
pub fn to_archive_relative(canonical: &str, archive_root: &str) -> (r: Result<String, AppError>)
    requires
        is_absolute(canonical@),
    ensures
        match relative_form(canonical@, archive_root@) {
            Relative::At(rel) => r matches Ok(s) && s@ == rel,
            Relative::Outside => r matches Err(AppError::PathOutsideArchive { path }) && path@
                == canonical@,
            Relative::GoesUp => r matches Err(e) && crate::error::is_internal(
                e,
                "refusing to encode '..' in archive-relative path: "@ + canonical@,
            ),
            Relative::NotStripped => r matches Err(e) && crate::error::is_internal(
                e,
                "unexpected absolute component after strip_prefix: "@ + canonical@,
            ),
            Relative::Empty => r matches Err(e) && crate::error::is_internal(
                e,
                "archive-relative path is empty (would alias the archive root): "@ + canonical@,
            ),
        },
{
    let root_chars = chars_of(archive_root);
    if root_chars.len() == 0 {
        return Err(
            AppError::Internal(
                concat2("unexpected absolute component after strip_prefix: ", canonical),
            ),
        );
    }
    if !is_under(canonical, archive_root) {
        return Err(AppError::PathOutsideArchive { path: owned(canonical) });
    }
    let c = components_of(canonical);
    let n: usize = components_of(archive_root).len();
    proof {
        assert(components(archive_root@).len() == n);
        assert(components(canonical@).len() == c.len());
    }
    if goes_up(&c, n) {
        return Err(
            AppError::Internal(
                concat2("refusing to encode '..' in archive-relative path: ", canonical),
            ),
        );
    }
    if n == c.len() {
        return Err(
            AppError::Internal(
                concat2("archive-relative path is empty (would alias the archive root): ", canonical),
            ),
        );
    }
    Ok(join_components(&c, n, '/'))
}

/// The root of a path without the separator at its end.
pub open spec fn drive_of(p: Seq<char>) -> Seq<char> {
    root_of(p).drop_last()
}

/// The character separates components on Windows.
pub open spec fn is_separator(c: char) -> bool {
    c == '/' || c == '\\'
}

/// Where a path leads from a root: an absolute path leads to itself, any other
/// is put behind the root with one separator between them. On Windows a path
/// that starts with a separator leads on from the drive. How the path is read is
/// up to the root.
pub open spec fn path_join(root: Seq<char>, rel: Seq<char>) -> Seq<char> {
    if is_windows(root) {
        if is_windows(rel) {
            rel
        } else if rel.len() > 0 && is_separator(rel[0]) {
            drive_of(root) + rel
        } else if is_separator(root.last()) {
            root + rel
        } else {
            root + seq!['\\'] + rel
        }
    } else if rel.len() > 0 && rel[0] == '/' {
        rel
    } else if root.len() == 0 || root.last() == '/' {
        root + rel
    } else {
        root + "/"@ + rel
    }
}

/// The full path of a file of the archive. A stored path that is absolute is
/// passed through.
pub fn from_archive_relative(rel: &str, archive_root: &str) -> (r: String)
    ensures
        r@ == path_join(archive_root@, rel@),
{
    let c = chars_of(rel);
    let root = chars_of(archive_root);
    let n: usize = root.len();
    if starts_with_drive(&root) || starts_with_share(&root) {
        if starts_with_drive(&c) || starts_with_share(&c) {
            return owned(rel);
        }
        if c.len() > 0 && (c[0] == '/' || c[0] == '\\') {
            let text = chars_of(root_text(archive_root).as_str());
            let mut r = String::new();
            proof {
                assert(text.len() > 0);
            }
            push_chars(&mut r, vstd::slice::slice_subrange(text.as_slice(), 0, text.len() - 1));
            r.append(rel);
            proof {
                assert(text@.subrange(0, text@.len() - 1) == drive_of(archive_root@));
                assert(r@ == path_join(archive_root@, rel@));
            }
            return r;
        }
        let mut r = owned(archive_root);
        if root[n - 1] != '/' && root[n - 1] != '\\' {
            r.push('\\');
        }
        r.append(rel);
        proof {
            assert(r@ == path_join(archive_root@, rel@));
        }
        return r;
    }
    if c.len() > 0 && c[0] == '/' {
        return owned(rel);
    }
    if n == 0 || root[n - 1] == '/' {
        concat2(archive_root, rel)
    } else {
        concat3(archive_root, "/", rel)
    }
}

/// The full form of a stored path; an empty path stands for no file.
pub fn absolutize_stored(stored: &str, archive_root: &str) -> (r: String)
    ensures
        r@ == if stored@.len() == 0 {
            Seq::<char>::empty()
        } else {
            path_join(archive_root@, stored@)
        },
{
    let c = chars_of(stored);
    if c.len() == 0 {
        return String::new();
    }
    from_archive_relative(stored, archive_root)
}

/// The form in which a path is stored, given the path without symbolic links
/// where it could be found: relative to the archive where it lies in it, else
/// as it is.
pub open spec fn storage_form(
    absolute: Seq<char>,
    canonical: Option<Seq<char>>,
    root: Seq<char>,
) -> Seq<char> {
    if absolute.len() == 0 {
        Seq::empty()
    } else {
        match canonical {
            Some(c) => match relative_form(c, root) {
                Relative::At(rel) => rel,
                _ => absolute,
            },
            None => absolute,
        }
    }
}

/// The form in which a path is stored.
pub fn relativize_for_storage(
    absolute: &str,
    canonical: &Option<String>,
    archive_root: &str,
) -> (r: String)
    requires
        *canonical matches Some(c) ==> is_absolute(c@),
    ensures
        r@ == storage_form(absolute@, crate::text::opt_view(*canonical), archive_root@),
{
    let a = chars_of(absolute);
    if a.len() == 0 {
        return String::new();
    }
    match canonical {
        Some(c) => match to_archive_relative(c.as_str(), archive_root) {
            Ok(rel) => rel,
            Err(_) => owned(absolute),
        },
        None => owned(absolute),
    }
}

/// A path is in plain form: absolute, with single separators and no `.`.
pub open spec fn is_plain(p: Seq<char>) -> bool {
    is_absolute(p) && p == path_of(p, components(p))
}

proof fn lemma_join_concat(a: Seq<Seq<char>>, b: Seq<Seq<char>>)
    requires
        a.len() > 0,
        b.len() > 0,
    ensures
        joined(a + b) == joined(a) + seq!['/'] + joined(b),
    decreases b.len(),
{
    let s = a + b;
    assert(s.last() == b.last());
    if b.len() == 1 {
        assert(s.drop_last() == a);
        assert(joined(b) == b[0]);
    } else {
        assert(s.drop_last() == a + b.drop_last());
        lemma_join_concat(a, b.drop_last());
        assert(joined(s) == joined(a) + seq!['/'] + joined(b.drop_last()) + seq!['/'] + b.last());
        assert(joined(b) == joined(b.drop_last()) + seq!['/'] + b.last());
        assert(joined(s) == joined(a) + seq!['/'] + joined(b));
    }
}

proof fn lemma_filter_member(p: Seq<Seq<char>>, i: int)
    requires
        0 <= i < p.filter(|c: Seq<char>| is_component(c)).len(),
    ensures
        is_component(p.filter(|c: Seq<char>| is_component(c))[i]),
        exists|k: int|
            0 <= k < p.len() && #[trigger] p[k] == p.filter(|c: Seq<char>| is_component(c))[i],
    decreases p.len(),
{
    let keep = |c: Seq<char>| is_component(c);
    reveal(Seq::filter);
    if p.len() > 0 {
        let t = p.drop_last();
        if i < t.filter(keep).len() {
            lemma_filter_member(t, i);
            let k = choose|k: int| 0 <= k < t.len() && #[trigger] t[k] == t.filter(keep)[i];
            assert(p[k] == t[k]);
        } else {
            assert(p[p.len() - 1] == p.last());
        }
    }
}

/// Components hold no separator, are not empty and are not `.`.
pub proof fn components_are_names(p: Seq<char>)
    ensures
        forall|i: int|
            0 <= i < components(p).len() ==> is_component(#[trigger] components(p)[i])
                && !components(p)[i].contains('/') && (is_windows(p)
                ==> !components(p)[i].contains('\\')),
{
    let t = slashed(p);
    crate::text::split_joins_back(t, '/');
    let s = crate::text::split(t, '/');
    assert forall|i: int| 0 <= i < components(p).len() implies is_component(
        #[trigger] components(p)[i],
    ) && !components(p)[i].contains('/') && (is_windows(p) ==> !components(p)[i].contains('\\')) by {
        let at = i + root_names(p);
        assert(components(p)[i] == names(p)[at]);
        lemma_filter_member(s, at);
        let k = choose|k: int| 0 <= k < s.len() && #[trigger] s[k] == names(p)[at];
        assert(!s[k].contains('/'));
        if is_windows(p) && s[k].contains('\\') {
            lemma_piece_chars(t, '/', k, '\\');
            let m = choose|m: int| 0 <= m < t.len() && t[m] == '\\';
            assert(t[m] == slash_of(p[m]));
        }
    }
}

/// What a piece of a text holds, the text holds.
proof fn lemma_piece_chars(s: Seq<char>, sep: char, k: int, c: char)
    requires
        0 <= k < crate::text::split(s, sep).len(),
        crate::text::split(s, sep)[k].contains(c),
    ensures
        s.contains(c),
    decreases s.len(),
{
    if s.len() > 0 {
        let u = s.drop_last();
        let before = crate::text::split(u, sep);
        let parts = crate::text::split(s, sep);
        crate::text::lemma_split_nonempty(u, sep);
        let m = choose|m: int| 0 <= m < parts[k].len() && parts[k][m] == c;
        if s.last() != sep && k == before.len() - 1 && m == before.last().len() {
            assert(s[s.len() - 1] == c);
        } else {
            if k < before.len() {
                assert(before[k][m] == c);
            }
            lemma_piece_chars(u, sep, k, c);
            let j = choose|j: int| 0 <= j < u.len() && u[j] == c;
            assert(s[j] == c);
        }
    }
}

/// Storing a path and reading it back gives the path, letter by letter where it
/// is in plain form and not one of Windows: the full path of the archive-relative
/// form is the path that was stored.
pub proof fn stored_paths_read_back(canonical: Seq<char>, root: Seq<char>)
    requires
        is_plain(canonical),
        is_plain(root),
        !is_windows(root),
        relative_form(canonical, root) is At,
    ensures
        path_join(root, relative_form(canonical, root)->At_0) == canonical,
{
    let c = components(canonical);
    let r = components(root);
    let rest = c.skip(r.len() as int);
    let rel = joined(rest);
    reveal_strlit("/");
    assert(root_key(root) == seq!['/']);
    lemma_same_kind(canonical, root);
    assert(c == r + rest);
    components_are_names(canonical);
    components_are_names(root);
    assert(rest[0] == c[r.len() as int]);
    assert(is_component(c[r.len() as int]) && !c[r.len() as int].contains('/'));
    lemma_joined_first(rest);
    assert(rel[0] != '/') by {
        let first = rest[0];
        assert(rel[0] == first[0]);
        assert(first.contains(first[0]));
    }
    if r.len() == 0 {
        assert(joined(r) == Seq::<char>::empty());
        assert(root == seq!['/']);
        assert(rest == c);
        assert(root.last() == '/');
        assert(path_join(root, rel) == canonical);
    } else {
        lemma_join_concat(r, rest);
        lemma_joined_last(r);
        let last = r.last();
        assert(r[r.len() - 1] == last);
        assert(is_component(r[r.len() - 1]) && !r[r.len() - 1].contains('/'));
        assert(last.contains(last[last.len() - 1]));
        assert(root.last() == joined(r).last());
        assert(root.last() != '/');
        assert(path_join(root, rel) == root + seq!['/'] + rel);
        assert(canonical == seq!['/'] + (joined(r) + seq!['/'] + rel));
        assert(path_join(root, rel) == canonical);
    }
}

/// Paths that share their root are read in the same way.
proof fn lemma_same_kind(a: Seq<char>, b: Seq<char>)
    requires
        root_key(a) == root_key(b),
    ensures
        has_drive(a) == has_drive(b),
        has_share(a) == has_share(b),
        is_absolute(a) == is_absolute(b),
{
    lemma_key_start(a);
    lemma_key_start(b);
}

proof fn lemma_key_start(a: Seq<char>)
    ensures
        has_drive(a) ==> root_key(a).len() > 0 && 'a' <= root_key(a)[0] && root_key(a)[0] <= 'z',
        has_share(a) ==> root_key(a).len() > 0 && root_key(a)[0] == '\\',
        !is_windows(a) && is_absolute(a) ==> root_key(a).len() > 0 && root_key(a)[0] == '/',
        !is_absolute(a) ==> root_key(a).len() == 0,
{
    if has_drive(a) {
        let c = a[0];
        assert(root_of(a)[0] == c);
        assert(root_key(a)[0] == crate::text::lower_char(c));
        if 'A' <= c && c <= 'Z' {
            let n = c as u32;
            assert(65 <= n <= 90);
            assert(crate::text::lower_char(c) as u32 == n + 32);
        }
    }
}

/// The paths name the same file: they have one root and the same components.
pub open spec fn same_path(a: Seq<char>, b: Seq<char>) -> bool {
    root_key(a) == root_key(b) && components(a) == components(b)
}

proof fn lemma_split_concat(a: Seq<char>, b: Seq<char>, sep: char)
    ensures
        crate::text::split(a + seq![sep] + b, sep) == crate::text::split(a, sep)
            + crate::text::split(b, sep),
    decreases b.len(),
{
    let s = a + seq![sep] + b;
    if b.len() == 0 {
        assert(s.drop_last() == a);
        assert(s.last() == sep);
    } else {
        lemma_split_concat(a, b.drop_last(), sep);
        crate::text::lemma_split_nonempty(b.drop_last(), sep);
        assert(s.drop_last() == a + seq![sep] + b.drop_last());
        assert(s.last() == b.last());
        assert(crate::text::split(s, sep) == crate::text::split(a, sep) + crate::text::split(
            b,
            sep,
        ));
    }
}

proof fn lemma_split_one(s: Seq<char>, sep: char)
    requires
        !s.contains(sep),
    ensures
        crate::text::split(s, sep) == seq![s],
    decreases s.len(),
{
    if s.len() > 0 {
        let u = s.drop_last();
        assert(!u.contains(sep)) by {
            if u.contains(sep) {
                let k = choose|k: int| 0 <= k < u.len() && u[k] == sep;
                assert(s[k] == sep);
            }
        }
        lemma_split_one(u, sep);
        assert(s[s.len() - 1] == s.last());
        assert(u.push(s.last()) == s);
        assert(crate::text::split(s, sep) == seq![s]);
    } else {
        assert(s == Seq::<char>::empty());
    }
}

proof fn lemma_split_joined(c: Seq<Seq<char>>)
    requires
        c.len() > 0,
        forall|i: int| 0 <= i < c.len() ==> !(#[trigger] c[i]).contains('/'),
    ensures
        crate::text::split(joined(c), '/') == c,
    decreases c.len(),
{
    if c.len() == 1 {
        lemma_split_one(c[0], '/');
        assert(c == seq![c[0]]);
    } else {
        let u = c.drop_last();
        assert forall|i: int| 0 <= i < u.len() implies !(#[trigger] u[i]).contains('/') by {
            assert(u[i] == c[i]);
        }
        lemma_split_joined(u);
        lemma_split_concat(joined(u), c.last(), '/');
        assert(c[c.len() - 1] == c.last());
        lemma_split_one(c.last(), '/');
        assert(u + seq![c.last()] == c);
    }
}

proof fn lemma_all_kept(c: Seq<Seq<char>>)
    requires
        forall|i: int| 0 <= i < c.len() ==> is_component(#[trigger] c[i]),
    ensures
        c.filter(|x: Seq<char>| is_component(x)) == c,
    decreases c.len(),
{
    reveal(Seq::filter);
    if c.len() > 0 {
        let u = c.drop_last();
        assert forall|i: int| 0 <= i < u.len() implies is_component(#[trigger] u[i]) by {
            assert(u[i] == c[i]);
        }
        lemma_all_kept(u);
        assert(is_component(c[c.len() - 1]));
        assert(u.push(c.last()) == c);
    }
}

/// The names in a text with `/` between two parts are those of the parts.
proof fn lemma_names_concat(a: Seq<char>, b: Seq<char>)
    ensures
        crate::text::split(a + seq!['/'] + b, '/').filter(|c: Seq<char>| is_component(c))
            == crate::text::split(a, '/').filter(|c: Seq<char>| is_component(c))
            + crate::text::split(b, '/').filter(|c: Seq<char>| is_component(c)),
{
    lemma_split_concat(a, b, '/');
    Seq::filter_distributes_over_add(
        crate::text::split(a, '/'),
        crate::text::split(b, '/'),
        |c: Seq<char>| is_component(c),
    );
}

/// A separator at the end adds no name.
proof fn lemma_trailing(a: Seq<char>)
    ensures
        crate::text::split(a + seq!['/'], '/').filter(|c: Seq<char>| is_component(c))
            == crate::text::split(a, '/').filter(|c: Seq<char>| is_component(c)),
{
    let none = Seq::<char>::empty();
    let keep = |c: Seq<char>| is_component(c);
    lemma_names_concat(a, none);
    assert(a + seq!['/'] + none == a + seq!['/']);
    reveal_with_fuel(Seq::filter, 2);
    assert(crate::text::split(none, '/') == seq![none]);
    assert(seq![none].drop_last() == Seq::<Seq<char>>::empty());
    assert(seq![none].filter(keep) == Seq::<Seq<char>>::empty());
}

/// A drive is a name.
proof fn lemma_drive_is_a_name(p: Seq<char>)
    requires
        has_drive(p),
    ensures
        names(p).len() >= 1,
{
    let t = slashed(p);
    let drive = p.take(2);
    assert(t == drive + seq!['/'] + t.skip(3)) by {
        assert(t[0] == p[0] && t[1] == p[1] && t[2] == '/');
    }
    lemma_names_concat(drive, t.skip(3));
    assert(!drive.contains('/'));
    lemma_split_one(drive, '/');
    reveal_strlit(".");
    assert(is_component(drive));
    lemma_all_kept(seq![drive]);
}

/// Storing a path and reading it back leads to the path: the full path of the
/// archive-relative form names the file that was stored. On Windows no name in
/// the archive is a drive.
pub proof fn stored_paths_lead_back(canonical: Seq<char>, root: Seq<char>)
    requires
        is_absolute(canonical),
        has_share(root) ==> names(root).len() >= 2,
        relative_form(canonical, root) is At,
        is_windows(root) ==> !is_windows(relative_form(canonical, root)->At_0),
    ensures
        same_path(path_join(root, relative_form(canonical, root)->At_0), canonical),
{
    let keep = |c: Seq<char>| is_component(c);
    let c = components(canonical);
    let r = components(root);
    let rest = c.skip(r.len() as int);
    let rel = joined(rest);
    let full = path_join(root, rel);
    reveal_strlit("/");
    lemma_same_kind(canonical, root);
    assert(c == r + rest);
    components_are_names(canonical);
    assert forall|i: int| 0 <= i < rest.len() implies is_component(#[trigger] rest[i])
        && !rest[i].contains('/') && (is_windows(root) ==> !rest[i].contains('\\')) by {
        assert(rest[i] == c[i + r.len()]);
    }
    lemma_joined_first(rest);
    assert(rest[0].contains(rest[0][0]));
    lemma_split_joined(rest);
    lemma_all_kept(rest);
    if has_drive(root) {
        lemma_drive_is_a_name(root);
    }
    let bare = slashed(root);
    let plain = if is_windows(root) {
        is_separator(root.last())
    } else {
        root.last() == '/'
    };
    let f = |x: char| slash_of(x);
    if is_windows(root) {
        lemma_no_backslash(rest);
        assert(rel.map_values(f) == rel) by {
            assert forall|i: int| 0 <= i < rel.len() implies rel.map_values(f)[i] == rel[i] by {
                assert(rel.contains(rel[i]));
            }
        }
        assert(is_windows(full) && has_drive(full) == has_drive(root) && has_share(full)
            == has_share(root));
        if plain {
            assert(slashed(full) == bare + rel);
        } else {
            assert(slashed(full) == bare + seq!['/'] + rel);
        }
    } else {
        assert(full[0] == root[0]);
        assert(!is_windows(full));
        if plain {
            assert(slashed(full) == bare + rel);
        } else {
            assert(slashed(full) == bare + seq!['/'] + rel);
        }
    }
    assert(names(full) == names(root) + rest) by {
        if plain {
            let a = bare.drop_last();
            assert(bare == a + seq!['/']);
            lemma_trailing(a);
            lemma_names_concat(a, rel);
        } else {
            lemma_names_concat(bare, rel);
        }
    }
    assert(root_names(full) == root_names(root));
    assert(components(full) == r + rest);
    assert(names(full).take(root_names(full)) == names(root).take(root_names(root)));
    if has_drive(root) {
        assert(full.take(2) == root.take(2));
    }
    assert(root_key(full) == root_key(root));
}

proof fn lemma_no_backslash(c: Seq<Seq<char>>)
    requires
        forall|i: int| 0 <= i < c.len() ==> !(#[trigger] c[i]).contains('\\'),
    ensures
        !joined(c).contains('\\'),
    decreases c.len(),
{
    if c.len() > 0 {
        let u = c.drop_last();
        assert forall|i: int| 0 <= i < u.len() implies !(#[trigger] u[i]).contains('\\') by {
            assert(u[i] == c[i]);
        }
        lemma_no_backslash(u);
        if joined(c).contains('\\') {
            let k = choose|k: int| 0 <= k < joined(c).len() && joined(c)[k] == '\\';
            let last = c[c.len() - 1];
            if c.len() == 1 {
                assert(last[k] == '\\');
                assert(last.contains('\\'));
            } else if k < joined(u).len() {
                assert(joined(u)[k] == '\\');
                assert(joined(u).contains('\\'));
            } else {
                assert(last[k - joined(u).len() - 1] == '\\');
                assert(last.contains('\\'));
            }
        }
    }
}

proof fn lemma_joined_first(c: Seq<Seq<char>>)
    requires
        c.len() > 0,
        c[0].len() > 0,
    ensures
        joined(c).len() > 0,
        joined(c)[0] == c[0][0],
    decreases c.len(),
{
    if c.len() > 1 {
        lemma_joined_first(c.drop_last());
    }
}

proof fn lemma_joined_last(c: Seq<Seq<char>>)
    requires
        c.len() > 0,
        c.last().len() > 0,
    ensures
        joined(c).len() > 0,
        joined(c).last() == c.last().last(),
{
}

/// The last component of a path, where it names a file.
pub open spec fn file_name(p: Seq<char>) -> Option<Seq<char>> {
    let c = components(p);
    if c.len() > 0 && c.last() != ".."@ {
        Some(c.last())
    } else {
        None
    }
}

/// The last component of a path, where it names a file.
pub fn file_name_of(p: &str) -> (r: Option<String>)
    ensures
        crate::text::opt_view(r) == file_name(p@),
{
    let c = components_of(p);
    proof {
        assert(components(p@).len() == c.len());
        if c.len() > 0 {
            assert(components(p@).last() == c@[c.len() - 1]@);
        }
    }
    if c.len() > 0 && !is_str(c[c.len() - 1].as_slice(), "..") {
        Some(string_of(c[c.len() - 1].as_slice()))
    } else {
        None
    }
}

/// The path made of components below the root of another.
pub open spec fn path_of(p: Seq<char>, c: Seq<Seq<char>>) -> Seq<char> {
    root_of(p) + crate::text::join(c, seq![separator(p)])
}

/// The path made of the first `n` components below the root of a path.
pub fn path_of_first(p: &str, c: &Vec<Vec<char>>, n: usize) -> (s: String)
    requires
        n <= c.len(),
    ensures
        s@ == path_of(p@, crate::text::pieces(c@).take(n as int)),
{
    let all = chars_of(p);
    let first = piece_range(c, 0, n);
    let sep: char = if starts_with_drive(&all) || starts_with_share(&all) {
        '\\'
    } else {
        '/'
    };
    let text = join_components(&first, 0, sep);
    proof {
        let cv = crate::text::pieces(c@);
        let fv = crate::text::pieces(first@);
        assert(cv.subrange(0, n as int) == cv.take(n as int));
        assert(fv.skip(0) == fv);
    }
    concat2(root_text(p).as_str(), text.as_str())
}

/// The directory that holds what the path names. The root and the empty path
/// have none.
pub open spec fn parent(p: Seq<char>) -> Option<Seq<char>> {
    let c = components(p);
    if c.len() == 0 {
        None
    } else {
        Some(path_of(p, c.drop_last()))
    }
}

/// The directory that holds what the path names.
pub fn parent_of(p: &str) -> (r: Option<String>)
    ensures
        crate::text::opt_view(r) == parent(p@),
{
    let c = components_of(p);
    if c.len() == 0 {
        return None;
    }
    let s = path_of_first(p, &c, c.len() - 1);
    proof {
        let v = crate::text::pieces(c@);
        assert(v.take(v.len() - 1) == v.drop_last());
    }
    Some(s)
}

} // verus!
