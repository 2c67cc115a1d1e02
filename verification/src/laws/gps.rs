//! What a log of positions gives for a clip.

use crate::gps::seventy_mai::RowView;
use vstd::prelude::*;

verus! {

/// The speed and the heading of every point but the last are taken between it and
/// the next one, exactly where both have a fix and the next is later. The last
/// point has those of the one before it; a single point has none.
pub proof fn motion_is_taken_to_the_next_point(p: Seq<(i64, bool)>, i: int)
    requires
        0 <= i < p.len(),
    ensures
        i + 1 < p.len() && p[i].1 && p[i + 1].1 && p[i].0 < p[i + 1].0
            ==> crate::gps::seventy_mai::motion_of(p, i) == Some(i),
        i + 1 < p.len() && !(p[i].1 && p[i + 1].1 && p[i].0 < p[i + 1].0)
            ==> crate::gps::seventy_mai::motion_of(p, i) is None,
        i + 1 == p.len() && i > 0 ==> crate::gps::seventy_mai::motion_of(p, i)
            == crate::gps::seventy_mai::motion_of(p, i - 1),
        p.len() == 1 ==> crate::gps::seventy_mai::motion_of(p, i) is None,
{
}

/// The points are the lines whose position can be read, each once and in the order
/// of the lines. Each has the time of its line, and a fix exactly where the camera
/// had one and the position is one on the earth.
pub proof fn points_are_the_readable_lines(rows: Seq<RowView>, positions: Seq<Option<bool>>)
    requires
        rows.len() == positions.len(),
    ensures
        ({
            let at = crate::gps::seventy_mai::readable(positions);
            let p = crate::gps::seventy_mai::fixes(rows, positions);
            &&& p.len() == at.len()
            &&& forall|j: int|
                0 <= j < positions.len() ==> (#[trigger] positions[j] is Some <==> at.contains(j))
            &&& forall|k: int, m: int| 0 <= k < m < at.len() ==> #[trigger] at[k] < #[trigger] at[m]
            &&& forall|k: int|
                0 <= k < at.len() ==> {
                    &&& 0 <= #[trigger] at[k] < rows.len()
                    &&& p[k].0 == rows[at[k]].ts
                    &&& (p[k].1 <==> rows[at[k]].valid && positions[at[k]] == Some(true))
                }
        }),
{
    lemma_readable(positions);
}

proof fn lemma_readable(positions: Seq<Option<bool>>)
    ensures
        ({
            let at = crate::gps::seventy_mai::readable(positions);
            &&& forall|j: int|
                0 <= j < positions.len() ==> (#[trigger] positions[j] is Some <==> at.contains(j))
            &&& forall|k: int, m: int| 0 <= k < m < at.len() ==> #[trigger] at[k] < #[trigger] at[m]
            &&& forall|k: int| 0 <= k < at.len() ==> 0 <= #[trigger] at[k] < positions.len()
        }),
    decreases positions.len(),
{
    if positions.len() > 0 {
        let u = positions.drop_last();
        lemma_readable(u);
        let before = crate::gps::seventy_mai::readable(u);
        let at = crate::gps::seventy_mai::readable(positions);
        assert forall|j: int| 0 <= j < positions.len() implies (#[trigger] positions[j] is Some
            <==> at.contains(j)) by {
            if j < u.len() {
                assert(u[j] == positions[j]);
                if u[j] is Some {
                    let k = choose|k: int| 0 <= k < before.len() && before[k] == j;
                    assert(at[k] == j);
                }
                if at.contains(j) {
                    let k = choose|k: int| 0 <= k < at.len() && at[k] == j;
                    assert(before[k] == j);
                }
            } else {
                if positions[j] is Some {
                    assert(at[before.len() as int] == j);
                }
                if at.contains(j) && positions[j] is None {
                    let k = choose|k: int| 0 <= k < at.len() && at[k] == j;
                    assert(before[k] < u.len());
                }
            }
        }
    }
}

/// A line of at least ten fields, with commas between them, is read exactly where
/// the first is a number; it then tells the time of the first, a fix where the
/// second is `A`, the position of the third and the fourth as they are written,
/// and the recording of the tenth.
pub proof fn lines_tell_their_fields(f: Seq<Seq<char>>)
    requires
        f.len() >= 10,
        crate::laws::text::are_clear_of(f, ','),
    ensures
        match crate::gps::seventy_mai::row_in(crate::text::join(f, seq![','])) {
            Some(r) => {
                &&& crate::gps::seventy_mai::signed_value(f[0]) == Some(r.ts as int)
                &&& (r.valid <==> f[1] == seq!['A'] || f[1] == seq!['a'])
                &&& r.lat == f[2]
                &&& r.lon == f[3]
                &&& r.group_base == crate::gps::seventy_mai::base_of(crate::text::trim(f[9]))
            },
            None => crate::gps::seventy_mai::signed_value(f[0]) is None,
        },
{
    crate::laws::text::joined_pieces_split_back(f, ',');
    reveal_strlit("A");
    reveal_strlit("a");
    assert("A"@ =~= seq!['A']);
    assert("a"@ =~= seq!['a']);
    lemma_signed_in_range(f[0]);
}

proof fn lemma_signed_in_range(s: Seq<char>)
    ensures
        crate::gps::seventy_mai::signed_value(s) matches Some(n) ==> i64::MIN <= n <= i64::MAX,
{
}

/// A line of fewer fields tells nothing.
pub proof fn short_lines_tell_nothing(f: Seq<Seq<char>>)
    requires
        0 < f.len() < 10,
        crate::laws::text::are_clear_of(f, ','),
    ensures
        crate::gps::seventy_mai::row_in(crate::text::join(f, seq![','])) is None,
{
    crate::laws::text::joined_pieces_split_back(f, ',');
}

/// The text of a number is read as that number.
pub proof fn numbers_read_back(n: i64)
    ensures
        crate::gps::seventy_mai::signed_value(crate::text::decimal_int(n as int)) == Some(n as int),
{
    let s = crate::text::decimal_int(n as int);
    if n < 0 {
        crate::text::decimal_spells_the_number((-n) as nat);
        assert(s.skip(1) == crate::text::decimal((-n) as nat));
    } else {
        crate::text::decimal_spells_the_number(n as nat);
        let d = crate::text::decimal(n as nat);
        assert(crate::text::is_digit(d[0]));
    }
}

/// The name of a clip without its extension and its letter is what all clips of
/// its recording share.
pub proof fn clips_share_their_base(base: Seq<char>, letter: char)
    requires
        crate::gps::seventy_mai::is_letter(letter),
    ensures
        crate::gps::seventy_mai::base_of(base.push(letter) + seq!['.', 'M', 'P', '4']) == base,
        crate::gps::seventy_mai::base_of(base.push(letter) + seq!['.', 'm', 'p', '4']) == base,
{
    reveal_strlit(".MP4");
    reveal_strlit(".mp4");
    let x = base.push(letter) + seq!['.', 'M', 'P', '4'];
    let y = base.push(letter) + seq!['.', 'm', 'p', '4'];
    assert(".MP4"@ =~= seq!['.', 'M', 'P', '4']);
    assert(".mp4"@ =~= seq!['.', 'm', 'p', '4']);
    assert(x.subrange(x.len() - 4, x.len() as int) == ".MP4"@);
    assert(y.subrange(y.len() - 4, y.len() as int) == ".mp4"@);
    assert(x.take(x.len() - 4) == base.push(letter));
    assert(y.take(y.len() - 4) == base.push(letter));
    assert(base.push(letter).drop_last() == base);
}

/// What a line adds to the fixes of a log.
pub open spec fn line_fix(l: Seq<char>) -> Option<RowView> {
    let t = crate::text::trim(l);
    if t.len() > 0 && '0' <= t[0] && t[0] <= '9' {
        crate::gps::seventy_mai::row_in(t)
    } else {
        None
    }
}

proof fn lemma_filter_map_index<A, B>(s: Seq<A>, f: spec_fn(A) -> Option<B>)
    ensures
        forall|i: int|
            0 <= i < s.len() && f(#[trigger] s[i]) is Some ==> s.filter_map(f).contains(f(s[i])->0),
        forall|b: B|
            #[trigger] s.filter_map(f).contains(b) ==> exists|i: int|
                0 <= i < s.len() && f(#[trigger] s[i]) == Some(b),
        s.filter_map(f).len() <= s.len(),
    decreases s.len(),
{
    reveal(Seq::filter_map);
    if s.len() > 0 {
        let u = s.drop_last();
        lemma_filter_map_index(u, f);
        let r = s.filter_map(f);
        let before = u.filter_map(f);
        assert forall|i: int| 0 <= i < s.len() && f(#[trigger] s[i]) is Some implies r.contains(
            f(s[i])->0,
        ) by {
            if i < u.len() {
                assert(u[i] == s[i]);
                assert(before.contains(f(u[i])->0));
                let k = choose|k: int| 0 <= k < before.len() && before[k] == f(u[i])->0;
                assert(r[k] == f(s[i])->0);
            } else {
                assert(r[before.len() as int] == f(s[i])->0);
            }
        }
        assert forall|b: B| #[trigger] r.contains(b) implies exists|i: int|
            0 <= i < s.len() && f(#[trigger] s[i]) == Some(b) by {
            let k = choose|k: int| 0 <= k < r.len() && r[k] == b;
            if k < before.len() {
                assert(before[k] == b);
                assert(before.contains(b));
                let i = choose|i: int| 0 <= i < u.len() && f(#[trigger] u[i]) == Some(b);
                assert(f(s[i]) == Some(b));
            } else {
                assert(f(s[s.len() - 1]) == Some(b));
            }
        }
    }
}

/// The fixes of a log are what its lines tell that begin with a digit, and nothing
/// else.
pub proof fn fixes_are_the_lines_of_the_log(text: Seq<char>)
    ensures
        forall|i: int|
            0 <= i < crate::text::lines(text).len() && line_fix(
                #[trigger] crate::text::lines(text)[i],
            ) is Some ==> crate::gps::seventy_mai::rows_in(text).contains(
                line_fix(crate::text::lines(text)[i])->0,
            ),
        forall|r: RowView|
            #[trigger] crate::gps::seventy_mai::rows_in(text).contains(r) ==> exists|i: int|
                0 <= i < crate::text::lines(text).len() && line_fix(
                    #[trigger] crate::text::lines(text)[i],
                ) == Some(r),
{
    let f = |l: Seq<char>|
        {
            let t = crate::text::trim(l);
            if crate::gps::seventy_mai::is_fix_line(t) {
                crate::gps::seventy_mai::row_in(t)
            } else {
                None
            }
        };
    lemma_filter_map_index(crate::text::lines(text), f);
    assert forall|l: Seq<char>| f(l) == line_fix(l) by {}
    let all = crate::text::lines(text);
    assert forall|i: int| 0 <= i < all.len() && line_fix(#[trigger] all[i]) is Some implies
        crate::gps::seventy_mai::rows_in(text).contains(line_fix(all[i])->0) by {
        assert(f(all[i]) is Some);
    }
    assert forall|r: RowView| #[trigger] crate::gps::seventy_mai::rows_in(text).contains(
        r,
    ) implies exists|i: int| 0 <= i < all.len() && line_fix(#[trigger] all[i]) == Some(r) by {
        let i = choose|i: int| 0 <= i < all.len() && f(#[trigger] all[i]) == Some(r);
        assert(line_fix(all[i]) == Some(r));
    }
}

/// The number of lines that begin with a digit.
pub open spec fn fix_lines(lines: Seq<Seq<char>>) -> nat
    decreases lines.len(),
{
    if lines.len() == 0 {
        0
    } else {
        let t = crate::text::trim(lines.last());
        fix_lines(lines.drop_last()) + if t.len() > 0 && '0' <= t[0] && t[0] <= '9' {
            1nat
        } else {
            0
        }
    }
}

proof fn lemma_lines_counted(lines: Seq<Seq<char>>)
    ensures
        lines.filter_map(
            |l: Seq<char>|
                {
                    let t = crate::text::trim(l);
                    if crate::gps::seventy_mai::is_fix_line(t) {
                        crate::gps::seventy_mai::row_in(t)
                    } else {
                        None
                    }
                },
        ).len() + crate::gps::seventy_mai::malformed_in(lines) == fix_lines(lines),
    decreases lines.len(),
{
    reveal(Seq::filter_map);
    if lines.len() > 0 {
        lemma_lines_counted(lines.drop_last());
    }
}

/// Every line of a log that begins with a digit is a fix or counts as malformed.
pub proof fn every_line_is_read_or_counted(text: Seq<char>)
    ensures
        crate::gps::seventy_mai::rows_in(text).len() + crate::gps::seventy_mai::malformed_in(
            crate::text::lines(text),
        ) == fix_lines(crate::text::lines(text)),
{
    lemma_lines_counted(crate::text::lines(text));
}

/// The fixes of a recording are those of all logs that belong to it, and no
/// others.
pub proof fn clip_fixes_are_those_of_the_recording(
    logs: Seq<Seq<char>>,
    base: Seq<char>,
    r: RowView,
)
    ensures
        crate::gps::seventy_mai::clip_fixes(logs, base).contains(r) <==> r.group_base == base
            && exists|i: int|
            0 <= i < logs.len() && crate::gps::seventy_mai::rows_in(#[trigger] logs[i]).contains(r),
    decreases logs.len(),
{
    if logs.len() > 0 {
        let u = logs.drop_last();
        clip_fixes_are_those_of_the_recording(u, base, r);
        let p = |x: RowView| x.group_base == base;
        let before = crate::gps::seventy_mai::clip_fixes(u, base);
        let rows = crate::gps::seventy_mai::rows_in(logs.last());
        let more = rows.filter(p);
        let all = crate::gps::seventy_mai::clip_fixes(logs, base);
        broadcast use vstd::seq_lib::group_filter_ensures;

        assert(more.contains(r) <==> rows.contains(r) && p(r)) by {
            if rows.contains(r) && p(r) {
                lemma_filter_keeps(rows, p, r);
            }
            if more.contains(r) {
                lemma_filter_from(rows, p, r);
            }
        }
        if all.contains(r) {
            let k = choose|k: int| 0 <= k < all.len() && all[k] == r;
            if k < before.len() {
                assert(before[k] == r);
                assert(before.contains(r));
                let i = choose|i: int|
                    0 <= i < u.len() && crate::gps::seventy_mai::rows_in(#[trigger] u[i]).contains(r);
                assert(logs[i] == u[i]);
            } else {
                assert(more[k - before.len()] == r);
                assert(more.contains(r));
                assert(logs[logs.len() - 1] == logs.last());
            }
        }
        if r.group_base == base && exists|i: int|
            0 <= i < logs.len() && crate::gps::seventy_mai::rows_in(#[trigger] logs[i]).contains(r) {
            let i = choose|i: int|
                0 <= i < logs.len() && crate::gps::seventy_mai::rows_in(#[trigger] logs[i]).contains(
                    r,
                );
            if i < u.len() {
                assert(u[i] == logs[i]);
                assert(before.contains(r));
                let k = choose|k: int| 0 <= k < before.len() && before[k] == r;
                assert(all[k] == r);
            } else {
                let k = choose|k: int| 0 <= k < more.len() && more[k] == r;
                assert(all[before.len() + k] == r);
            }
        }
    }
}

pub proof fn lemma_filter_keeps<T>(s: Seq<T>, p: spec_fn(T) -> bool, x: T)
    requires
        s.contains(x),
        p(x),
    ensures
        s.filter(p).contains(x),
    decreases s.len(),
{
    reveal(Seq::filter);
    let u = s.drop_last();
    let i = choose|i: int| 0 <= i < s.len() && s[i] == x;
    if i < u.len() {
        assert(u[i] == x);
        lemma_filter_keeps(u, p, x);
        let k = choose|k: int| 0 <= k < u.filter(p).len() && u.filter(p)[k] == x;
        assert(s.filter(p)[k] == x);
    } else {
        assert(s.filter(p).last() == x);
    }
}

pub proof fn lemma_filter_from<T>(s: Seq<T>, p: spec_fn(T) -> bool, x: T)
    requires
        s.filter(p).contains(x),
    ensures
        s.contains(x),
        p(x),
    decreases s.len(),
{
    reveal(Seq::filter);
    if s.len() > 0 {
        let u = s.drop_last();
        let k = choose|k: int| 0 <= k < s.filter(p).len() && s.filter(p)[k] == x;
        if k < u.filter(p).len() {
            assert(u.filter(p)[k] == x);
            lemma_filter_from(u, p, x);
            let i = choose|i: int| 0 <= i < u.len() && u[i] == x;
            assert(s[i] == x);
        } else {
            assert(s[s.len() - 1] == x);
        }
    }
}

/// Logs are searched for in the directory of the clip, in the one that holds that,
/// and so on, as many as asked for unless the root comes first.
pub proof fn logs_are_searched_upwards(path: Seq<char>, depth: nat)
    ensures
        ({
            let d = crate::gps::seventy_mai::search_path(path, depth);
            &&& d.len() <= depth
            &&& d.len() > 0 ==> crate::paths::parent(path) == Some(d[0])
            &&& forall|i: int, k: int|
                0 <= i < k < d.len() && k == i + 1 ==> crate::paths::parent(#[trigger] d[i]) == Some(
                    #[trigger] d[k],
                )
            &&& d.len() < depth ==> crate::paths::parent(
                if d.len() == 0 {
                    path
                } else {
                    d.last()
                },
            ) is None
        }),
    decreases depth,
{
    if depth > 0 {
        if let Some(up) = crate::paths::parent(path) {
            let rest = crate::gps::seventy_mai::search_path(up, (depth - 1) as nat);
            logs_are_searched_upwards(up, (depth - 1) as nat);
            let d = crate::gps::seventy_mai::search_path(path, depth);
            assert forall|i: int, k: int| 0 <= i < k < d.len() && k == i + 1 implies
                crate::paths::parent(#[trigger] d[i]) == Some(#[trigger] d[k]) by {
                assert(d[k] == rest[k - 1]);
                if i > 0 {
                    assert(d[i] == rest[i - 1]);
                }
            }
        }
    }
}

} // verus!
