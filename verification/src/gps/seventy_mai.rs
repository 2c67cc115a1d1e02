//! The log of positions that 70mai cameras write at the root of the card: one
//! line for each fix, which names the clip that it belongs to.

use crate::db::table::{insert_ordered, retain_marked};
use crate::paths::{file_name_of, from_archive_relative, parent_of};
use crate::sort::sort_stable;
use crate::text::{
    are_digits, ascii_lowered, chars_of, digits_number, ends_with, is_str, lines_of, parse_unsigned,
    same_str, split_chars, starts_with, string_of, trimmed,
};
use vstd::prelude::*;
use vstd::slice::slice_subrange;

verus! {

/// How many directories above a clip are searched for logs.
pub const SIDECAR_SEARCH_DEPTH: usize = 5;

/// The name is one of a log of positions, in upper or lower case.
pub open spec fn is_log_name(name: Seq<char>) -> bool {
    let lower = crate::text::ascii_lower(name);
    crate::text::has_prefix(lower, "gpsdata"@) && crate::text::has_suffix(lower, ".txt"@)
}

/// Whether the name is one of a log of positions.
pub fn names_gps_log(name: &str) -> (r: bool)
    ensures
        r == is_log_name(name@),
{
    let lower = ascii_lowered(chars_of(name).as_slice());
    starts_with(lower.as_slice(), "gpsdata") && ends_with(lower.as_slice(), ".txt")
}

/// Whether the path is one of a log of positions.
pub fn is_gps_log(path: &str) -> (r: bool)
    ensures
        r == (crate::paths::file_name(path@) matches Some(n) && is_log_name(n)),
{
    match file_name_of(path) {
        Some(n) => names_gps_log(n.as_str()),
        None => false,
    }
}

/// The name without the extension of a video.
pub open spec fn clip_stem(name: Seq<char>) -> Seq<char> {
    if crate::text::has_suffix(name, ".MP4"@) || crate::text::has_suffix(name, ".mp4"@) {
        name.take(name.len() - 4)
    } else {
        name
    }
}

/// `c` is a letter of the alphabet.
pub open spec fn is_letter(c: char) -> bool {
    'a' <= c && c <= 'z' || 'A' <= c && c <= 'Z'
}

/// What the names of all clips of one recording share: the name without its
/// extension and without the letter of the channel.
pub open spec fn base_of(name: Seq<char>) -> Seq<char> {
    let stem = clip_stem(name);
    if stem.len() > 0 && is_letter(stem.last()) {
        stem.drop_last()
    } else {
        stem
    }
}

/// What the names of all clips of one recording share.
pub fn group_base(name: &str) -> (r: String)
    ensures
        r@ == base_of(name@),
{
    proof {
        reveal_strlit(".MP4");
        reveal_strlit(".mp4");
    }
    let c = chars_of(name);
    let mut n: usize = c.len();
    if ends_with(c.as_slice(), ".MP4") || ends_with(c.as_slice(), ".mp4") {
        n = n - 4;
    }
    proof {
        assert(c@.take(c@.len() as int) == c@);
        assert(clip_stem(name@) == c@.take(n as int));
        if n > 0 {
            assert(c@.take(n - 1) == c@.take(n as int).drop_last());
        }
    }
    if n > 0 && ('a' <= c[n - 1] && c[n - 1] <= 'z' || 'A' <= c[n - 1] && c[n - 1] <= 'Z') {
        n = n - 1;
    }
    string_of(slice_subrange(c.as_slice(), 0, n))
}

/// The directories that are searched for the logs of a clip, from the one that
/// holds it upwards.
pub open spec fn search_path(path: Seq<char>, depth: nat) -> Seq<Seq<char>>
    decreases depth,
{
    if depth == 0 {
        Seq::empty()
    } else {
        match crate::paths::parent(path) {
            Some(d) => seq![d] + search_path(d, (depth - 1) as nat),
            None => Seq::empty(),
        }
    }
}

/// The directories that are searched for the logs of a clip. In each, its
/// subdirectory `Other` is searched too.
pub fn search_dirs(clip_path: &str) -> (r: Vec<(String, String)>)
    ensures
        r@.map_values(|p: (String, String)| p.0@) == search_path(
            clip_path@,
            SIDECAR_SEARCH_DEPTH as nat,
        ),
        forall|i: int|
            0 <= i < r.len() ==> (#[trigger] r@[i]).1@ == crate::paths::path_join(
                r@[i].0@,
                "Other"@,
            ),
{
    let mut out: Vec<(String, String)> = Vec::new();
    let mut here = parent_of(clip_path);
    let mut left: usize = SIDECAR_SEARCH_DEPTH;
    let ghost f = |p: (String, String)| p.0@;
    let ghost all = search_path(clip_path@, SIDECAR_SEARCH_DEPTH as nat);
    let ghost mut at = clip_path@;
    proof {
        assert(out@.map_values(f) + search_path(at, left as nat) == all);
    }
    while left > 0
        invariant
            f == (|p: (String, String)| p.0@),
            all == search_path(clip_path@, SIDECAR_SEARCH_DEPTH as nat),
            crate::text::opt_view(here) == crate::paths::parent(at),
            out@.map_values(f) + search_path(at, left as nat) == all,
            forall|i: int|
                0 <= i < out.len() ==> (#[trigger] out@[i]).1@ == crate::paths::path_join(
                    out@[i].0@,
                    "Other"@,
                ),
        decreases left,
    {
        match here {
            None => {
                proof {
                    assert(out@.map_values(f) == all);
                }
                return out;
            },
            Some(d) => {
                let other = from_archive_relative("Other", d.as_str());
                let ghost dv = d@;
                let ghost before = out@;
                here = parent_of(d.as_str());
                out.push((d, other));
                left = left - 1;
                proof {
                    assert(out@.map_values(f) == before.map_values(f).push(dv));
                    assert(before.map_values(f) + (seq![dv] + search_path(dv, left as nat))
                        == before.map_values(f).push(dv) + search_path(dv, left as nat));
                    at = dv;
                }
            },
        }
    }
    proof {
        assert(out@.map_values(f) == all);
    }
    out
}

/// The files of a listing that are logs.
pub open spec fn logs_in(files: Seq<Seq<char>>) -> Set<Seq<char>> {
    Set::new(
        |p: Seq<char>|
            files.contains(p) && (crate::paths::file_name(p) matches Some(n) && is_log_name(n)),
    )
}

fn collect_logs_in(files: &Vec<String>) -> (r: Vec<String>)
    ensures
        crate::db::table::is_ascending(crate::text::views(r@)),
        crate::text::views(r@).to_set() == logs_in(crate::text::views(files@)),
{
    let ghost fv = crate::text::views(files@);
    let mut out: Vec<String> = Vec::new();
    let mut i: usize = 0;
    proof {
        assert(crate::text::views(out@).to_set() =~= logs_in(fv.take(0)));
    }
    while i < files.len()
        invariant
            i <= files.len(),
            fv == crate::text::views(files@),
            crate::db::table::is_ascending(crate::text::views(out@)),
            crate::text::views(out@).to_set() == logs_in(fv.take(i as int)),
        decreases files.len() - i,
    {
        let ghost x = fv[i as int];
        let ghost was = out@;
        proof {
            assert(x == files@[i as int]@);
            assert(fv.take(i + 1) == fv.take(i as int).push(x));
            assert forall|p: Seq<char>| #[trigger] fv.take(i + 1).contains(p) <==> fv.take(
                i as int,
            ).contains(p) || p == x by {
                if fv.take(i as int).contains(p) {
                    let k = choose|k: int| 0 <= k < i && fv.take(i as int)[k] == p;
                    assert(fv.take(i + 1)[k] == p);
                }
                assert(fv.take(i + 1)[i as int] == x);
            }
        }
        if is_gps_log(files[i].as_str()) {
            out = insert_ordered(out, &files[i]);
        }
        i += 1;
        proof {
            let now = crate::text::views(out@);
            assert forall|p: Seq<char>| #[trigger] now.to_set().contains(p) <==> logs_in(
                fv.take(i as int),
            ).contains(p) by {
                assert(crate::text::views(was).to_set().contains(p) <==> logs_in(
                    fv.take(i - 1),
                ).contains(p));
                assert(now.to_set().contains(p) <==> now.contains(p));
                assert(fv.take(i as int).contains(p) <==> fv.take(i - 1).contains(p) || p == x);
            }
            assert(now.to_set() =~= logs_in(fv.take(i as int)));
        }
    }
    proof {
        assert(fv.take(fv.len() as int) == fv);
    }
    out
}

/// The logs of a clip, in order, given what the searched directories hold: for
/// each directory the files in it and in its subdirectory `Other`. The logs
/// nearest to the clip are the ones that count.
pub fn find_logs(listings: &Vec<Vec<String>>) -> (r: Vec<String>)
    ensures
        crate::db::table::is_ascending(crate::text::views(r@)),
        ({
            let found = |k: int| logs_in(crate::text::views(listings@[k]@));
            let none = Set::<Seq<char>>::empty();
            if exists|k: int| 0 <= k < listings.len() && #[trigger] found(k) != none {
                exists|k: int|
                    0 <= k < listings.len() && #[trigger] found(k) != none
                        && crate::text::views(r@).to_set() == found(k) && forall|j: int|
                        0 <= j < k ==> #[trigger] found(j) == none
            } else {
                r.len() == 0
            }
        }),
{
    let ghost found = |k: int| logs_in(crate::text::views(listings@[k]@));
    let ghost none = Set::<Seq<char>>::empty();
    let mut i: usize = 0;
    while i < listings.len()
        invariant
            i <= listings.len(),
            found == (|k: int| logs_in(crate::text::views(listings@[k]@))),
            none == Set::<Seq<char>>::empty(),
            forall|j: int| 0 <= j < i ==> #[trigger] found(j) == none,
        decreases listings.len() - i,
    {
        let logs = collect_logs_in(&listings[i]);
        if logs.len() > 0 {
            proof {
                let v = crate::text::views(logs@);
                assert(v.contains(v[0]));
                assert(v.to_set().contains(v[0]));
                assert(found(i as int).contains(v[0]));
                assert(found(i as int) != none);
            }
            return logs;
        }
        proof {
            assert(found(i as int) =~= none) by {
                assert(crate::text::views(logs@).to_set() =~= none);
            }
        }
        i += 1;
    }
    Vec::new()
}

/// A line of a log: a point in time in whole seconds, whether the camera had a
/// fix, the position as it is written, and what the clips of the recording
/// share.
#[derive(Debug)]
pub struct Row {
    pub ts: i64,
    pub valid: bool,
    pub lat: String,
    pub lon: String,
    pub group_base: String,
}

/// The mathematical value of a line.
pub struct RowView {
    pub ts: i64,
    pub valid: bool,
    pub lat: Seq<char>,
    pub lon: Seq<char>,
    pub group_base: Seq<char>,
}

impl View for Row {
    type V = RowView;

    open spec fn view(&self) -> RowView {
        RowView {
            ts: self.ts,
            valid: self.valid,
            lat: self.lat@,
            lon: self.lon@,
            group_base: self.group_base@,
        }
    }
}

/// The mathematical values of lines.
pub open spec fn row_views(v: Seq<Row>) -> Seq<RowView> {
    v.map_values(|r: Row| r@)
}

/// The whole number that a text spells, with an optional sign, where 64 bits
/// can hold it.
pub open spec fn signed_value(s: Seq<char>) -> Option<int> {
    if s.len() > 1 && s[0] == '-' {
        let d = s.skip(1);
        if crate::text::all_digits(d) && crate::text::digits_value(d) <= -(i64::MIN as int) {
            Some(-(crate::text::digits_value(d) as int))
        } else {
            None
        }
    } else {
        match crate::text::unsigned_value(s, i64::MAX as nat) {
            Some(n) => Some(n as int),
            None => None,
        }
    }
}

fn parse_signed(s: &[char]) -> (r: Option<i64>)
    ensures
        match r {
            Some(n) => signed_value(s@) == Some(n as int),
            None => signed_value(s@) is None,
        },
{
    if s.len() > 1 && s[0] == '-' {
        let d = slice_subrange(s, 1, s.len());
        proof {
            assert(d@ == s@.skip(1));
        }
        if !are_digits(d) {
            return None;
        }
        match digits_number(d, 0x8000_0000_0000_0000) {
            None => None,
            Some(n) => if n == 0x8000_0000_0000_0000 {
                Some(i64::MIN)
            } else {
                Some(-(n as i64))
            },
        }
    } else {
        match parse_unsigned(s, 0x7fff_ffff_ffff_ffff) {
            None => None,
            Some(n) => Some(n as i64),
        }
    }
}

/// What a line of a log says, where it has all its fields and a readable time.
pub open spec fn row_in(line: Seq<char>) -> Option<RowView> {
    let f = crate::text::split(line, ',');
    if f.len() < 10 {
        None
    } else {
        match signed_value(f[0]) {
            None => None,
            Some(ts) => Some(
                RowView {
                    ts: ts as i64,
                    valid: f[1] == "A"@ || f[1] == "a"@,
                    lat: f[2],
                    lon: f[3],
                    group_base: base_of(crate::text::trim(f[9])),
                },
            ),
        }
    }
}

/// Reads a line of a log.
pub fn parse_row(line: &str) -> (r: Option<Row>)
    ensures
        match r {
            Some(w) => row_in(line@) == Some(w@),
            None => row_in(line@) is None,
        },
{
    let f = split_chars(chars_of(line).as_slice(), ',');
    proof {
        let v = crate::text::split(line@, ',');
        assert(v.len() == f.len());
        assert(forall|i: int| 0 <= i < f.len() ==> #[trigger] v[i] == f@[i]@);
    }
    if f.len() < 10 {
        return None;
    }
    let ts: i64 = match parse_signed(f[0].as_slice()) {
        Some(n) => n,
        None => {
            return None;
        },
    };
    let name = string_of(trimmed(f[9].as_slice()));
    Some(
        Row {
            ts,
            valid: is_str(f[1].as_slice(), "A") || is_str(f[1].as_slice(), "a"),
            lat: string_of(f[2].as_slice()),
            lon: string_of(f[3].as_slice()),
            group_base: group_base(name.as_str()),
        },
    )
}

/// A line, without the white space round it, that begins with a digit: the
/// others are no fixes.
pub open spec fn is_fix_line(line: Seq<char>) -> bool {
    line.len() > 0 && crate::text::is_digit(line[0])
}

/// The fixes in a text.
pub open spec fn rows_in(text: Seq<char>) -> Seq<RowView> {
    crate::text::lines(text).filter_map(
        |l: Seq<char>|
            {
                let t = crate::text::trim(l);
                if is_fix_line(t) {
                    row_in(t)
                } else {
                    None
                }
            },
    )
}

/// The number of lines that should be fixes and cannot be read.
pub open spec fn malformed_in(lines: Seq<Seq<char>>) -> nat
    decreases lines.len(),
{
    if lines.len() == 0 {
        0
    } else {
        let t = crate::text::trim(lines.last());
        malformed_in(lines.drop_last()) + if is_fix_line(t) && row_in(t) is None {
            1nat
        } else {
            0
        }
    }
}

/// Reads a log: its fixes, and how many lines should be fixes and cannot be
/// read.
pub fn parse_log(text: &str) -> (r: (Vec<Row>, usize))
    ensures
        row_views(r.0@) == rows_in(text@),
        r.1 == malformed_in(crate::text::lines(text@)),
{
    let lines = lines_of(chars_of(text).as_slice());
    let ghost lv = crate::text::lines(text@);
    let ghost f = |l: Seq<char>|
        {
            let t = crate::text::trim(l);
            if is_fix_line(t) {
                row_in(t)
            } else {
                None
            }
        };
    let mut out: Vec<Row> = Vec::new();
    let mut skipped: usize = 0;
    let mut i: usize = 0;
    proof {
        reveal(Seq::filter_map);
        assert(lv.take(0).filter_map(f) == Seq::<RowView>::empty());
        assert(row_views(out@) == Seq::<RowView>::empty());
        assert(lv.take(0).len() == 0);
    }
    while i < lines.len()
        invariant
            i <= lines.len(),
            lv == crate::text::pieces(lines@),
            f == (|l: Seq<char>|
                {
                    let t = crate::text::trim(l);
                    if is_fix_line(t) {
                        row_in(t)
                    } else {
                        None
                    }
                }),
            row_views(out@) == lv.take(i as int).filter_map(f),
            skipped == malformed_in(lv.take(i as int)),
            skipped <= i,
        decreases lines.len() - i,
    {
        proof {
            reveal(Seq::filter_map);
            assert(lv[i as int] == lines@[i as int]@);
            assert(lv.take(i + 1).drop_last() == lv.take(i as int));
            assert(lv.take(i + 1).last() == lv[i as int]);
        }
        let t = trimmed(lines[i].as_slice());
        if t.len() > 0 && '0' <= t[0] && t[0] <= '9' {
            let line = string_of(t);
            match parse_row(line.as_str()) {
                Some(w) => {
                    let ghost before = out@;
                    let ghost wv = w@;
                    out.push(w);
                    proof {
                        assert(row_views(out@) == row_views(before).push(wv));
                    }
                },
                None => {
                    skipped += 1;
                },
            }
        }
        i += 1;
    }
    proof {
        assert(lv.take(lv.len() as int) == lv);
    }
    (out, skipped)
}

/// The fixes of one recording, from several logs, in the order of the logs.
pub open spec fn clip_fixes(logs: Seq<Seq<char>>, base: Seq<char>) -> Seq<RowView>
    decreases logs.len(),
{
    if logs.len() == 0 {
        Seq::empty()
    } else {
        clip_fixes(logs.drop_last(), base) + rows_in(logs.last()).filter(
            |r: RowView| r.group_base == base,
        )
    }
}

/// The fixes that belong to a clip, in the order of time, given the texts of
/// the logs. All clips of a recording have the same fixes.
pub fn clip_rows(clip_name: &str, logs: &Vec<String>) -> (r: Vec<Row>)
    ensures
        row_views(r@) == crate::sort::sort_by(
            clip_fixes(crate::text::views(logs@), base_of(clip_name@)),
            |w: RowView| w.ts as int,
        ),
{
    let want = group_base(clip_name);
    let ghost base = base_of(clip_name@);
    let ghost tv = crate::text::views(logs@);
    let mut rows: Vec<Row> = Vec::new();
    let mut i: usize = 0;
    proof {
        assert(row_views(rows@) == clip_fixes(tv.take(0), base));
    }
    while i < logs.len()
        invariant
            i <= logs.len(),
            want@ == base,
            tv == crate::text::views(logs@),
            row_views(rows@) == clip_fixes(tv.take(i as int), base),
        decreases logs.len() - i,
    {
        let (found, _) = parse_log(logs[i].as_str());
        let mut kept = matching_rows(found, want.as_str());
        let ghost before = rows@;
        let ghost kv = row_views(kept@);
        let ghost ks = kept@;
        rows.append(&mut kept);
        proof {
            assert(rows@ == before + ks);
            assert(row_views(rows@) == row_views(before) + kv);
            assert(tv[i as int] == logs@[i as int]@);
            assert(tv.take(i + 1).drop_last() == tv.take(i as int));
            assert(tv.take(i + 1).last() == tv[i as int]);
        }
        i += 1;
    }
    proof {
        assert(tv.take(tv.len() as int) == tv);
    }
    sort_by_time(rows)
}

fn matching_rows(rows: Vec<Row>, base: &str) -> (r: Vec<Row>)
    ensures
        row_views(r@) == row_views(rows@).filter(|w: RowView| w.group_base == base@),
{
    let ghost keep = |w: Row| w.group_base@ == base@;
    let mut marks: Vec<bool> = Vec::new();
    let mut i: usize = 0;
    while i < rows.len()
        invariant
            i <= rows.len(),
            keep == (|w: Row| w.group_base@ == base@),
            marks.len() == i,
            forall|k: int| 0 <= k < i ==> #[trigger] marks@[k] == keep(rows@[k]),
        decreases rows.len() - i,
    {
        marks.push(same_str(rows[i].group_base.as_str(), base));
        i += 1;
    }
    let kept = retain_marked(rows, marks, Ghost(keep));
    proof {
        let f = |w: Row| w@;
        let q = |w: RowView| w.group_base == base@;
        crate::db::table::filter_commutes_with_map(rows@, keep, f, q);
        assert(row_views(rows@) == rows@.map_values(f));
        assert(row_views(kept@) == kept@.map_values(f));
    }
    kept
}

fn sort_by_time(rows: Vec<Row>) -> (r: Vec<Row>)
    ensures
        row_views(r@) == crate::sort::sort_by(row_views(rows@), |w: RowView| w.ts as int),
{
    let ghost key = |w: Row| w.ts as int;
    let mut keys: Vec<i128> = Vec::new();
    let mut i: usize = 0;
    while i < rows.len()
        invariant
            i <= rows.len(),
            key == (|w: Row| w.ts as int),
            keys.len() == i,
            forall|k: int| 0 <= k < i ==> #[trigger] keys@[k] == key(rows@[k]),
        decreases rows.len() - i,
    {
        keys.push(rows[i].ts as i128);
        i += 1;
    }
    let sorted = sort_stable(rows, keys, Ghost(key));
    proof {
        let f = |w: Row| w@;
        let q = |w: RowView| w.ts as int;
        crate::sort::sort_commutes_with_map(rows@, key, f, q);
        assert(row_views(rows@) == rows@.map_values(f));
        assert(row_views(sorted@) == sorted@.map_values(f));
    }
    sorted
}

/// The fixes for a path, given the texts of its logs. A log stands for itself,
/// with all its fixes in the order of its lines; a clip has those that belong to
/// it.
pub fn extract(path: &str, logs: &Vec<String>) -> (r: Vec<Row>)
    ensures
        row_views(r@) == match crate::paths::file_name(path@) {
            Some(name) => if is_log_name(name) {
                if logs.len() > 0 {
                    rows_in(logs@[0]@)
                } else {
                    Seq::empty()
                }
            } else {
                crate::sort::sort_by(
                    clip_fixes(crate::text::views(logs@), base_of(name)),
                    |w: RowView| w.ts as int,
                )
            },
            None => Seq::empty(),
        },
{
    match file_name_of(path) {
        Some(name) => if names_gps_log(name.as_str()) {
            if logs.len() > 0 {
                let (rows, _) = parse_log(logs[0].as_str());
                rows
            } else {
                let rows: Vec<Row> = Vec::new();
                proof {
                    assert(row_views(rows@) == Seq::<RowView>::empty());
                }
                rows
            }
        } else {
            clip_rows(name.as_str(), logs)
        },
        None => {
            let rows: Vec<Row> = Vec::new();
            proof {
                assert(row_views(rows@) == Seq::<RowView>::empty());
            }
            rows
        },
    }
}

/// A point of a track: the line it comes from, the seconds since the first
/// point, whether there is a fix, and the first of the two neighbouring points
/// between which the speed and the heading are taken. Without such a pair both
/// are zero.
#[derive(Debug)]
pub struct FixPoint {
    pub row: usize,
    pub offset_s: i128,
    pub fix_ok: bool,
    pub motion: Option<usize>,
}

/// The places of the lines whose position can be read.
pub open spec fn readable(positions: Seq<Option<bool>>) -> Seq<int>
    decreases positions.len(),
{
    if positions.len() == 0 {
        Seq::empty()
    } else if positions.last() is Some {
        readable(positions.drop_last()).push(positions.len() - 1)
    } else {
        readable(positions.drop_last())
    }
}

/// The times of the points, and whether there is a fix.
pub open spec fn fixes(rows: Seq<RowView>, positions: Seq<Option<bool>>) -> Seq<(i64, bool)> {
    readable(positions).map_values(
        |i: int| (rows[i].ts, rows[i].valid && positions[i] == Some(true)),
    )
}

/// Both points have a fix, and the second one is later.
pub open spec fn moves_on(p: Seq<(i64, bool)>, i: int) -> bool {
    p[i].1 && p[i + 1].1 && p[i].0 < p[i + 1].0
}

/// Between which point and the next one the speed and the heading of a point
/// are taken: it and the next one; for the last one, the pair before it.
pub open spec fn motion_of(p: Seq<(i64, bool)>, i: int) -> Option<int> {
    if i + 1 < p.len() {
        if moves_on(p, i) {
            Some(i)
        } else {
            None
        }
    } else if i > 0 && p[i].1 && moves_on(p, i - 1) {
        Some(i - 1)
    } else {
        None
    }
}

proof fn lemma_readable(positions: Seq<Option<bool>>)
    ensures
        forall|k: int|
            0 <= k < readable(positions).len() ==> 0 <= #[trigger] readable(positions)[k]
                < positions.len() && positions[readable(positions)[k]] is Some,
    decreases positions.len(),
{
    if positions.len() > 0 {
        lemma_readable(positions.drop_last());
        let u = readable(positions.drop_last());
        assert(forall|k: int|
            0 <= k < u.len() ==> positions.drop_last()[#[trigger] u[k]] == positions[u[k]]);
    }
}

/// The track that the lines make. For each line it is given whether its
/// position is one on the earth, or nothing where the position cannot be read.
pub fn build_points(rows: &Vec<Row>, positions: &Vec<Option<bool>>) -> (r: Vec<FixPoint>)
    requires
        rows.len() == positions.len(),
    ensures
        ({
            let at = readable(positions@);
            let p = fixes(row_views(rows@), positions@);
            &&& r.len() == at.len()
            &&& forall|k: int|
                0 <= k < r.len() ==> {
                    &&& (#[trigger] r@[k]).row == at[k]
                    &&& r@[k].offset_s == p[k].0 - p[0].0
                    &&& r@[k].fix_ok == p[k].1
                    &&& match r@[k].motion {
                        Some(m) => motion_of(p, k) == Some(m as int),
                        None => motion_of(p, k) is None,
                    }
                }
        }),
{
    let ghost at = readable(positions@);
    let ghost rv = row_views(rows@);
    let ghost p = fixes(rv, positions@);
    let mut picked: Vec<usize> = Vec::new();
    let mut oks: Vec<bool> = Vec::new();
    let mut i: usize = 0;
    proof {
        assert(positions@.take(0).len() == 0);
    }
    while i < positions.len()
        invariant
            i <= positions.len(),
            rows.len() == positions.len(),
            rv == row_views(rows@),
            picked.len() == oks.len(),
            picked@.map_values(|x: usize| x as int) == readable(positions@.take(i as int)),
            forall|k: int| 0 <= k < picked.len() ==> (#[trigger] picked@[k]) < i,
            forall|k: int|
                0 <= k < oks.len() ==> #[trigger] oks@[k] == (rv[picked@[k] as int].valid
                    && positions@[picked@[k] as int] == Some(true)),
        decreases positions.len() - i,
    {
        proof {
            assert(positions@.take(i + 1).drop_last() == positions@.take(i as int));
            assert(positions@.take(i + 1).last() == positions@[i as int]);
            assert(rv[i as int] == rows@[i as int]@);
        }
        if let Some(on_earth) = positions[i] {
            let ghost before = picked@;
            picked.push(i);
            oks.push(rows[i].valid && on_earth);
            proof {
                assert(picked@.map_values(|x: usize| x as int) == before.map_values(
                    |x: usize| x as int,
                ).push(i as int));
            }
        }
        i += 1;
    }
    proof {
        assert(positions@.take(positions@.len() as int) == positions@);
        lemma_readable(positions@);
        assert(forall|k: int| 0 <= k < picked.len() ==> #[trigger] at[k] == picked@[k] as int);
        assert(forall|k: int|
            0 <= k < picked.len() ==> #[trigger] p[k] == (
                rows@[picked@[k] as int].ts,
                oks@[k],
            ));
    }
    let mut out: Vec<FixPoint> = Vec::new();
    let mut k: usize = 0;
    while k < picked.len()
        invariant
            k <= picked.len(),
            picked.len() == oks.len(),
            out.len() == k,
            at.len() == picked.len(),
            p.len() == picked.len(),
            forall|j: int| 0 <= j < picked.len() ==> (#[trigger] picked@[j]) < rows.len(),
            forall|j: int| 0 <= j < picked.len() ==> #[trigger] at[j] == picked@[j] as int,
            forall|j: int|
                0 <= j < picked.len() ==> #[trigger] p[j] == (
                    rows@[picked@[j] as int].ts,
                    oks@[j],
                ),
            forall|j: int|
                0 <= j < k ==> {
                    &&& (#[trigger] out@[j]).row == at[j]
                    &&& out@[j].offset_s == p[j].0 - p[0].0
                    &&& out@[j].fix_ok == p[j].1
                    &&& match out@[j].motion {
                        Some(m) => motion_of(p, j) == Some(m as int),
                        None => motion_of(p, j) is None,
                    }
                },
        decreases picked.len() - k,
    {
        let ts: i64 = rows[picked[k]].ts;
        let first: i64 = rows[picked[0]].ts;
        let last: bool = k + 1 == picked.len();
        let motion: Option<usize> = if last && k == 0 {
            None
        } else {
            let a: usize = if last {
                k - 1
            } else {
                k
            };
            proof {
                assert(p[a as int] == (rows@[picked@[a as int] as int].ts, oks@[a as int]));
                assert(p[a + 1] == (rows@[picked@[a + 1] as int].ts, oks@[a + 1]));
            }
            if oks[a] && oks[a + 1] && rows[picked[a]].ts < rows[picked[a + 1]].ts {
                Some(a)
            } else {
                None
            }
        };
        proof {
            assert(p[k as int] == (rows@[picked@[k as int] as int].ts, oks@[k as int]));
            assert(p[0] == (rows@[picked@[0] as int].ts, oks@[0]));
        }
        out.push(
            FixPoint {
                row: picked[k],
                offset_s: ts as i128 - first as i128,
                fix_ok: oks[k],
                motion,
            },
        );
        k += 1;
    }
    out
}

/// The front and the rear clip of a recording have the same fixes.
pub proof fn channels_share_their_fixes(base: Seq<char>, a: char, b: char, logs: Seq<Seq<char>>)
    requires
        is_letter(a),
        is_letter(b),
    ensures
        base_of(base.push(a) + ".MP4"@) == base,
        clip_fixes(logs, base_of(base.push(a) + ".MP4"@)) == clip_fixes(
            logs,
            base_of(base.push(b) + ".MP4"@),
        ),
{
    reveal_strlit(".MP4");
    let x = base.push(a) + ".MP4"@;
    let y = base.push(b) + ".MP4"@;
    assert(x.take(x.len() - 4) == base.push(a));
    assert(y.take(y.len() - 4) == base.push(b));
    assert(base.push(a).drop_last() == base);
    assert(base.push(b).drop_last() == base);
    assert(x.skip(x.len() - 4) == ".MP4"@);
    assert(y.skip(y.len() - 4) == ".MP4"@);
}

/// The times of a clip's fixes never go back.
pub proof fn clip_fixes_are_in_order(logs: Seq<Seq<char>>, base: Seq<char>)
    ensures
        crate::sort::is_sorted(
            crate::sort::sort_by(clip_fixes(logs, base), |w: RowView| w.ts as int),
            |w: RowView| w.ts as int,
        ),
{
    crate::sort::sort_is_sorted(clip_fixes(logs, base), |w: RowView| w.ts as int);
}

} // verus!
