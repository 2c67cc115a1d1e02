//! Reading segments and trips out of the tables.

use crate::db::rows::{Library, SegmentRow, SegmentView, TripRow, TripView};
use crate::db::segments::{camera_kind_from_str, kind_of};
use crate::db::table::{contains_string, group_by_key, retain_marked};
use crate::error::AppError;
use crate::ids::parse_uuid;
use crate::model::{Segment, Trip};
use crate::moment::{moment_from_millis, Moment};
use crate::paths::absolutize_stored;
use crate::scan::naming::CameraKind;
use crate::sort::sort_stable;
use crate::text::{concat2, concat3, decimal_int_string};
use vstd::prelude::*;
use vstd::string::StringExecFns;

verus! {

/// A segment as the scans use it, with the full path of its main file.
#[derive(Debug)]
pub struct SegmentRecord {
    pub id: String,
    pub trip_id: String,
    pub master_path: String,
    pub is_event: bool,
    pub camera_kind: CameraKind,
    pub gps_supported: bool,
    pub duration_ms: i64,
    pub is_tombstone: bool,
}

/// A segment as the scans use it, with texts as sequences of characters.
#[verifier::ext_equal]
pub struct RecordView {
    pub id: Seq<char>,
    pub trip_id: Seq<char>,
    pub master_path: Seq<char>,
    pub is_event: bool,
    pub camera_kind: CameraKind,
    pub gps_supported: bool,
    pub duration_ms: i64,
    pub is_tombstone: bool,
}

impl View for SegmentRecord {
    type V = RecordView;

    open spec fn view(&self) -> RecordView {
        RecordView {
            id: self.id@,
            trip_id: self.trip_id@,
            master_path: self.master_path@,
            is_event: self.is_event,
            camera_kind: self.camera_kind,
            gps_supported: self.gps_supported,
            duration_ms: self.duration_ms,
            is_tombstone: self.is_tombstone,
        }
    }
}

/// The views of records.
pub open spec fn record_views(v: Seq<SegmentRecord>) -> Seq<RecordView> {
    v.map_values(|r: SegmentRecord| r@)
}

/// The record of a row.
pub open spec fn record_of(r: SegmentView, root: Seq<char>) -> RecordView {
    RecordView {
        id: r.id,
        trip_id: r.trip_id,
        master_path: if r.master_path.len() == 0 {
            Seq::empty()
        } else {
            crate::paths::path_join(root, r.master_path)
        },
        is_event: r.is_event,
        camera_kind: kind_of(r.camera_kind),
        gps_supported: r.gps_supported,
        duration_ms: r.duration_ms,
        is_tombstone: r.is_tombstone,
    }
}

/// The start of a segment.
pub open spec fn row_start() -> spec_fn(SegmentView) -> int {
    |r: SegmentView| r.start_time_ms as int
}

/// Puts rows in the order of their starts.
pub fn sort_rows(rows: Vec<SegmentRow>) -> (r: Vec<SegmentRow>)
    ensures
        crate::db::rows::segment_rows(r@) == crate::sort::sort_by(
            crate::db::rows::segment_rows(rows@),
            row_start(),
        ),
{
    let ghost raw_key = |s: SegmentRow| s.start_time_ms as int;
    let ghost to_view = |s: SegmentRow| s@;
    let mut keys: Vec<i128> = Vec::new();
    let mut i: usize = 0;
    while i < rows.len()
        invariant
            i <= rows.len(),
            keys.len() == i,
            raw_key == (|s: SegmentRow| s.start_time_ms as int),
            forall|j: int| 0 <= j < i ==> #[trigger] keys@[j] == raw_key(rows@[j]),
        decreases rows.len() - i,
    {
        keys.push(rows[i].start_time_ms as i128);
        i += 1;
    }
    proof {
        crate::sort::sort_commutes_with_map(rows@, raw_key, to_view, row_start());
        assert(crate::db::rows::segment_rows(rows@) == rows@.map_values(to_view));
    }
    let r = sort_stable(rows, keys, Ghost(raw_key));
    proof {
        assert(crate::db::rows::segment_rows(r@) == r@.map_values(to_view));
    }
    r
}

/// A copy of the rows.
pub fn copy_rows(rows: &Vec<SegmentRow>) -> (r: Vec<SegmentRow>)
    ensures
        r@ == rows@,
{
    let mut r: Vec<SegmentRow> = Vec::new();
    let mut i: usize = 0;
    while i < rows.len()
        invariant
            i <= rows.len(),
            r@ == rows@.take(i as int),
        decreases rows.len() - i,
    {
        r.push(rows[i].clone());
        i += 1;
        proof {
            assert(rows@.take(i as int) == rows@.take(i - 1).push(rows@[i - 1]));
        }
    }
    proof {
        assert(rows@.take(rows@.len() as int) == rows@);
    }
    r
}

/// All segments in the order of their starts.
pub fn all_segments(rows: &Vec<SegmentRow>, archive_root: &str) -> (r: Vec<SegmentRecord>)
    ensures
        record_views(r@) == crate::sort::sort_by(
            crate::db::rows::segment_rows(rows@),
            row_start(),
        ).map_values(|s: SegmentView| record_of(s, archive_root@)),
{
    let sorted = sort_rows(copy_rows(rows));
    let ghost views = crate::db::rows::segment_rows(sorted@);
    let ghost wanted = views.map_values(|s: SegmentView| record_of(s, archive_root@));
    let mut out: Vec<SegmentRecord> = Vec::new();
    let mut i: usize = 0;
    while i < sorted.len()
        invariant
            i <= sorted.len(),
            views == crate::db::rows::segment_rows(sorted@),
            wanted == views.map_values(|s: SegmentView| record_of(s, archive_root@)),
            record_views(out@) == wanted.take(i as int),
        decreases sorted.len() - i,
    {
        let s = &sorted[i];
        proof {
            assert(views[i as int] == s@);
        }
        let rec = SegmentRecord {
            id: s.id.clone(),
            trip_id: s.trip_id.clone(),
            master_path: absolutize_stored(s.master_path.as_str(), archive_root),
            is_event: s.is_event,
            camera_kind: camera_kind_from_str(s.camera_kind.as_str()),
            gps_supported: s.gps_supported,
            duration_ms: s.duration_ms,
            is_tombstone: s.is_tombstone,
        };
        let ghost rv = rec@;
        let ghost before = out@;
        out.push(rec);
        proof {
            assert(rv == wanted[i as int]);
            assert(record_views(out@) == record_views(before).push(rv));
            assert(wanted.take(i + 1) == wanted.take(i as int).push(rv));
        }
        i += 1;
    }
    proof {
        assert(wanted.take(wanted.len() as int) == wanted);
    }
    out
}

// --------------------------------------------------------------- tombstones

/// The tombstones of the given trips in the order of their starts.
pub open spec fn tombstones_of(rows: Seq<SegmentView>, trip_ids: Seq<Seq<char>>) -> Seq<
    SegmentView,
> {
    crate::sort::sort_by(
        rows.filter(|r: SegmentView| r.is_tombstone && trip_ids.contains(r.trip_id)),
        row_start(),
    )
}

/// The row can be read as a segment.
pub open spec fn is_readable(r: SegmentView) -> bool {
    crate::ids::uuid_in(r.id) is Some && crate::moment::millis_moment(r.start_time_ms as int) is Some
}

/// What is said of a row that cannot be read.
pub open spec fn row_complaint(r: SegmentView) -> Seq<char> {
    if crate::ids::uuid_in(r.id) is None {
        "invalid segment uuid "@ + r.id + ": "@ + crate::ids::uuid_complaint(r.id)
    } else {
        "invalid start_time_ms "@ + crate::text::decimal_int(r.start_time_ms as int)
    }
}

/// The segment of a tombstone, given its identifier and its start.
pub open spec fn tombstone_from(r: SegmentView, id: u128, start: Moment) -> crate::model::SegmentView {
    crate::model::SegmentView {
        id,
        start_time: start,
        duration_ms: r.duration_ms,
        is_event: r.is_event,
        channels: Seq::empty(),
        camera_kind: kind_of(r.camera_kind),
        gps_supported: r.gps_supported,
        size_bytes: match r.size_bytes {
            Some(n) => Some(n as u64),
            None => None,
        },
        is_tombstone: true,
    }
}

/// The segment of a tombstone that can be read.
pub open spec fn tombstone_segment(r: SegmentView) -> crate::model::SegmentView {
    tombstone_from(
        r,
        crate::ids::uuid_in(r.id)->0,
        crate::moment::millis_moment(r.start_time_ms as int)->0,
    )
}

/// The segment of a tombstone, given its identifier and its start.
pub fn tombstone(r: &SegmentRow, id: u128, start: Moment) -> (s: Segment)
    ensures
        s@ == tombstone_from(r@, id, start),
{
    let size: Option<u64> = match r.size_bytes {
        Some(n) => Some(n as u64),
        None => None,
    };
    let s = Segment {
        id,
        start_time: start,
        duration_ms: r.duration_ms,
        is_event: r.is_event,
        channels: Vec::new(),
        camera_kind: camera_kind_from_str(r.camera_kind.as_str()),
        gps_supported: r.gps_supported,
        size_bytes: size,
        is_tombstone: true,
    };
    proof {
        assert(s@.channels == Seq::<crate::model::ChannelView>::empty());
    }
    s
}

fn read_tombstone(r: &SegmentRow) -> (res: Result<Segment, AppError>)
    ensures
        match res {
            Ok(s) => is_readable(r@) && s@ == tombstone_segment(r@),
            Err(e) => !is_readable(r@) && crate::error::is_internal(e, row_complaint(r@)),
        },
{
    let id: u128 = match parse_uuid(r.id.as_str()) {
        Ok(id) => id,
        Err(why) => {
            let mut m = concat3("invalid segment uuid ", r.id.as_str(), ": ");
            m.append(why.as_str());
            return Err(AppError::Internal(m));
        },
    };
    let start = match moment_from_millis(r.start_time_ms) {
        Some(m) => m,
        None => {
            return Err(
                AppError::Internal(
                    concat2(
                        "invalid start_time_ms ",
                        decimal_int_string(r.start_time_ms).as_str(),
                    ),
                ),
            );
        },
    };
    Ok(tombstone(r, id, start))
}

/// The tombstones of a trip.
#[derive(Debug)]
pub struct TombstoneGroup {
    pub trip_id: String,
    pub segments: Vec<Segment>,
}

/// Tombstones by trip, with texts as sequences of characters.
pub open spec fn tombstone_views(v: Seq<TombstoneGroup>) -> Seq<
    (Seq<char>, Seq<crate::model::SegmentView>),
> {
    v.map_values(|g: TombstoneGroup| (g.trip_id@, crate::model::segment_views(g.segments@)))
}

/// The trip of a row.
pub open spec fn row_trip() -> spec_fn(SegmentRow) -> Seq<char> {
    |r: SegmentRow| r.trip_id@
}

/// The rows that stand for tombstones of the given trips, in the order of their
/// starts.
fn select_tombstones(rows: &Vec<SegmentRow>, trip_ids: &Vec<String>) -> (r: Vec<SegmentRow>)
    ensures
        crate::db::rows::segment_rows(r@) == tombstones_of(
            crate::db::rows::segment_rows(rows@),
            crate::text::views(trip_ids@),
        ),
{
    let ghost ids = crate::text::views(trip_ids@);
    let ghost keep = |s: SegmentRow| s.is_tombstone && ids.contains(s.trip_id@);
    let copy = copy_rows(rows);
    let mut marks: Vec<bool> = Vec::new();
    let mut i: usize = 0;
    while i < copy.len()
        invariant
            i <= copy.len(),
            ids == crate::text::views(trip_ids@),
            keep == (|s: SegmentRow| s.is_tombstone && ids.contains(s.trip_id@)),
            marks.len() == i,
            forall|j: int| 0 <= j < i ==> #[trigger] marks@[j] == keep(copy@[j]),
        decreases copy.len() - i,
    {
        marks.push(copy[i].is_tombstone && contains_string(trip_ids, &copy[i].trip_id));
        i += 1;
    }
    let kept = retain_marked(copy, marks, Ghost(keep));
    proof {
        let f = |s: SegmentRow| s@;
        let q = |r: SegmentView| r.is_tombstone && ids.contains(r.trip_id);
        crate::db::table::filter_commutes_with_map(rows@, keep, f, q);
        assert(crate::db::rows::segment_rows(rows@) == rows@.map_values(f));
        assert(crate::db::rows::segment_rows(kept@) == kept@.map_values(f));
    }
    sort_rows(kept)
}

/// The tombstones of the given trips, by trip; each trip's in the order of
/// their starts. The first row that cannot be read is reported instead.
pub fn load_tombstones_for_trips(rows: &Vec<SegmentRow>, trip_ids: &Vec<String>) -> (r: Result<
    Vec<TombstoneGroup>,
    AppError,
>)
    ensures
        ({
            let sel = tombstones_of(
                crate::db::rows::segment_rows(rows@),
                crate::text::views(trip_ids@),
            );
            match r {
                Ok(groups) => (forall|i: int|
                    0 <= i < sel.len() ==> is_readable(#[trigger] sel[i])) && tombstone_views(
                    groups@,
                ) == crate::db::table::groups_of(
                    sel,
                    |s: SegmentView| s.trip_id,
                ).map_values(
                    |g: (Seq<char>, Seq<SegmentView>)|
                        (g.0, g.1.map_values(|s: SegmentView| tombstone_segment(s))),
                ),
                Err(e) => exists|k: int|
                    0 <= k < sel.len() && !is_readable(#[trigger] sel[k]) && (forall|j: int|
                        0 <= j < k ==> is_readable(#[trigger] sel[j])) && crate::error::is_internal(
                        e,
                        row_complaint(sel[k]),
                    ),
            }
        }),
{
    let sel = select_tombstones(rows, trip_ids);
    let ghost sv = crate::db::rows::segment_rows(sel@);
    let ghost raw = sel@;
    let mut keys: Vec<String> = Vec::new();
    let mut i: usize = 0;
    while i < sel.len()
        invariant
            i <= sel.len(),
            sv == crate::db::rows::segment_rows(sel@),
            sv == tombstones_of(
                crate::db::rows::segment_rows(rows@),
                crate::text::views(trip_ids@),
            ),
            keys.len() == i,
            forall|j: int| 0 <= j < i ==> (#[trigger] keys@[j])@ == (row_trip())(sel@[j]),
            forall|j: int| 0 <= j < i ==> is_readable(#[trigger] sv[j]),
        decreases sel.len() - i,
    {
        proof {
            assert(sv[i as int] == sel@[i as int]@);
        }
        match read_tombstone(&sel[i]) {
            Ok(_) => {},
            Err(e) => {
                return Err(e);
            },
        }
        keys.push(sel[i].trip_id.clone());
        i += 1;
    }
    let groups = group_by_key(sel, keys, Ghost(row_trip()));
    let ghost gv = crate::db::table::group_views(groups@);
    proof {
        assert forall|j: int| 0 <= j < raw.len() implies is_readable((#[trigger] raw[j])@) by {
            assert(sv[j] == raw[j]@);
        }
        lemma_groups_members(raw, row_trip());
        lemma_groups_map(raw);
    }
    let mut out: Vec<TombstoneGroup> = Vec::new();
    let ghost wanted = gv.map_values(
        |g: (Seq<char>, Seq<SegmentRow>)|
            (g.0, g.1.map_values(|s: SegmentRow| tombstone_segment(s@))),
    );
    let mut k: usize = 0;
    while k < groups.len()
        invariant
            k <= groups.len(),
            gv == crate::db::table::group_views(groups@),
            forall|j: int| 0 <= j < raw.len() ==> is_readable((#[trigger] raw[j])@),
            forall|a: int, b: int|
                0 <= a < gv.len() && 0 <= b < gv[a].1.len() ==> raw.contains(
                    #[trigger] gv[a].1[b],
                ),
            wanted == gv.map_values(
                |g: (Seq<char>, Seq<SegmentRow>)|
                    (g.0, g.1.map_values(|s: SegmentRow| tombstone_segment(s@))),
            ),
            tombstone_views(out@) == wanted.take(k as int),
        decreases groups.len() - k,
    {
        let g = &groups[k];
        let mut segments: Vec<Segment> = Vec::new();
        let ghost want = g.items@.map_values(|s: SegmentRow| tombstone_segment(s@));
        let mut m: usize = 0;
        proof {
            assert(gv[k as int] == (g.key@, g.items@));
        }
        while m < g.items.len()
            invariant
                m <= g.items.len(),
                k < gv.len(),
                gv[k as int] == (g.key@, g.items@),
                forall|j: int| 0 <= j < raw.len() ==> is_readable((#[trigger] raw[j])@),
                forall|a: int, b: int|
                    0 <= a < gv.len() && 0 <= b < gv[a].1.len() ==> raw.contains(
                        #[trigger] gv[a].1[b],
                    ),
                want == g.items@.map_values(|s: SegmentRow| tombstone_segment(s@)),
                crate::model::segment_views(segments@) == want.take(m as int),
            decreases g.items.len() - m,
        {
            proof {
                assert(raw.contains(gv[k as int].1[m as int]));
                let j = choose|j: int| 0 <= j < raw.len() && raw[j] == gv[k as int].1[m as int];
                assert(is_readable(raw[j]@));
            }
            if let Ok(s) = read_tombstone(&g.items[m]) {
                let ghost before = segments@;
                let ghost x = s@;
                segments.push(s);
                proof {
                    assert(x == want[m as int]);
                    assert(crate::model::segment_views(segments@) == crate::model::segment_views(
                        before,
                    ).push(x));
                    assert(want.take(m + 1) == want.take(m as int).push(x));
                }
            }
            m += 1;
        }
        proof {
            assert(want.take(want.len() as int) == want);
        }
        let ghost before = out@;
        let t = TombstoneGroup { trip_id: g.key.clone(), segments };
        let ghost tv = (t.trip_id@, crate::model::segment_views(t.segments@));
        out.push(t);
        proof {
            assert(wanted[k as int] == tv);
            assert(tombstone_views(out@) == tombstone_views(before).push(tv));
            assert(wanted.take(k + 1) == wanted.take(k as int).push(tv));
        }
        k += 1;
    }
    proof {
        assert(wanted.take(wanted.len() as int) == wanted);
        let target = crate::db::table::groups_of(sv, |s: SegmentView| s.trip_id).map_values(
            |g: (Seq<char>, Seq<SegmentView>)|
                (g.0, g.1.map_values(|s: SegmentView| tombstone_segment(s))),
        );
        let mid = crate::db::table::groups_of(sv, |s: SegmentView| s.trip_id);
        assert(mid == gv.map_values(
            |g: (Seq<char>, Seq<SegmentRow>)| (g.0, crate::db::rows::segment_rows(g.1)),
        ));
        assert forall|i: int| 0 <= i < wanted.len() implies wanted[i] == target[i] by {
            assert(wanted[i].1 =~= target[i].1);
        }
        assert(wanted =~= target);
    }
    Ok(out)
}

/// Every item of a group is one of the items.
proof fn lemma_groups_members<T>(s: Seq<T>, key: spec_fn(T) -> Seq<char>)
    ensures
        forall|a: int, b: int|
            0 <= a < crate::db::table::groups_of(s, key).len() && 0 <= b
                < crate::db::table::groups_of(s, key)[a].1.len() ==> s.contains(
                #[trigger] crate::db::table::groups_of(s, key)[a].1[b],
            ),
{
    crate::db::table::groups_hold_their_items(s, key);
    let g = crate::db::table::groups_of(s, key);
    assert forall|a: int, b: int| 0 <= a < g.len() && 0 <= b < g[a].1.len() implies s.contains(
        #[trigger] g[a].1[b],
    ) by {
        let keep = |t: T| key(t) == g[a].0;
        assert(g[a].1 == s.filter(keep));
        crate::db::table::lemma_filter_subset(s, keep, b);
    }
}

/// Grouping rows and grouping their views is the same.
proof fn lemma_groups_map(s: Seq<SegmentRow>)
    ensures
        crate::db::table::groups_of(
            crate::db::rows::segment_rows(s),
            |r: SegmentView| r.trip_id,
        ) == crate::db::table::groups_of(s, row_trip()).map_values(
            |g: (Seq<char>, Seq<SegmentRow>)| (g.0, crate::db::rows::segment_rows(g.1)),
        ),
    decreases s.len(),
{
    let v = crate::db::rows::segment_rows(s);
    let key = |r: SegmentView| r.trip_id;
    let f = |g: (Seq<char>, Seq<SegmentRow>)| (g.0, crate::db::rows::segment_rows(g.1));
    if s.len() == 0 {
        assert(crate::db::table::groups_of(v, key) == crate::db::table::groups_of(
            s,
            row_trip(),
        ).map_values(f));
    } else {
        let u = s.drop_last();
        let x = s.last();
        lemma_groups_map(u);
        assert(v.drop_last() == crate::db::rows::segment_rows(u));
        assert(v.last() == x@);
        let g = crate::db::table::groups_of(u, row_trip());
        let h = g.map_values(f);
        let p = |q: (Seq<char>, Seq<SegmentRow>)| q.0 == x.trip_id@;
        let p2 = |q: (Seq<char>, Seq<SegmentView>)| q.0 == x.trip_id@;
        lemma_first_index_map(g, h, p, p2, 0);
        let i = crate::db::table::first_index(g, p, 0);
        crate::db::table::lemma_first_index(g, p, 0);
        if i < g.len() {
            assert(crate::db::rows::segment_rows(g[i].1.push(x)) == crate::db::rows::segment_rows(
                g[i].1,
            ).push(x@));
            assert(crate::db::table::with_item(g, x.trip_id@, x).map_values(f)
                == crate::db::table::with_item(h, x.trip_id@, x@));
        } else {
            assert(crate::db::rows::segment_rows(seq![x]) == seq![x@]);
            assert(crate::db::table::with_item(g, x.trip_id@, x).map_values(f)
                == crate::db::table::with_item(h, x.trip_id@, x@));
        }
    }
}

proof fn lemma_first_index_map<T, U>(
    s: Seq<T>,
    m: Seq<U>,
    p: spec_fn(T) -> bool,
    q: spec_fn(U) -> bool,
    i: int,
)
    requires
        0 <= i <= s.len(),
        s.len() == m.len(),
        forall|j: int| 0 <= j < s.len() ==> p(#[trigger] s[j]) == q(m[j]),
    ensures
        crate::db::table::first_index(s, p, i) == crate::db::table::first_index(m, q, i),
    decreases s.len() - i,
{
    if i < s.len() {
        assert(p(s[i]) == q(m[i]));
        if !p(s[i]) {
            lemma_first_index_map(s, m, p, q, i + 1);
        }
    }
}

// ------------------------------------------------------- archive-only trips

/// The trip has a timelapse but no segments.
pub open spec fn is_archive_only(lib: crate::db::rows::LibraryView, t: TripView) -> bool {
    crate::db::segments::has_job(lib.jobs, t.id) && !exists|i: int|
        0 <= i < lib.segments.len() && (#[trigger] lib.segments[i]).trip_id == t.id
}

/// The start of a trip.
pub open spec fn trip_row_start() -> spec_fn(TripView) -> int {
    |t: TripView| t.start_time_ms as int
}

/// The trips of which only timelapses are left, in the order of their starts.
pub open spec fn archive_only_rows(lib: crate::db::rows::LibraryView) -> Seq<TripView> {
    crate::sort::sort_by(lib.trips.filter(|t: TripView| is_archive_only(lib, t)), trip_row_start())
}

/// The row can be read as a trip.
pub open spec fn is_readable_trip(r: TripView) -> bool {
    &&& crate::ids::uuid_in(r.id) is Some
    &&& crate::moment::millis_moment(r.start_time_ms as int) is Some
    &&& crate::moment::millis_moment(r.end_time_ms as int) is Some
}

/// What is said of a trip that cannot be read.
pub open spec fn trip_complaint(r: TripView) -> Seq<char> {
    if crate::ids::uuid_in(r.id) is None {
        "invalid trip uuid "@ + r.id + ": "@ + crate::ids::uuid_complaint(r.id)
    } else if crate::moment::millis_moment(r.start_time_ms as int) is None {
        "invalid start_time_ms "@ + crate::text::decimal_int(r.start_time_ms as int)
    } else {
        "invalid end_time_ms "@ + crate::text::decimal_int(r.end_time_ms as int)
    }
}

/// The trip of a row, given its identifier, its start and its end.
pub open spec fn archive_trip_from(
    r: TripView,
    id: u128,
    start: Moment,
    end: Moment,
) -> crate::model::TripView {
    crate::model::TripView {
        id,
        start_time: start,
        end_time: end,
        segments: Seq::empty(),
        camera_kind: kind_of(r.camera_kind),
        gps_supported: r.gps_supported,
        archive_only: true,
    }
}

/// The trip of a row that can be read.
pub open spec fn archive_trip(r: TripView) -> crate::model::TripView {
    archive_trip_from(
        r,
        crate::ids::uuid_in(r.id)->0,
        crate::moment::millis_moment(r.start_time_ms as int)->0,
        crate::moment::millis_moment(r.end_time_ms as int)->0,
    )
}

/// The trip of a row, given its identifier, its start and its end.
pub fn trip_without_segments(r: &TripRow, id: u128, start: Moment, end: Moment) -> (t: Trip)
    ensures
        t@ == archive_trip_from(r@, id, start, end),
{
    let t = Trip {
        id,
        start_time: start,
        end_time: end,
        segments: Vec::new(),
        camera_kind: camera_kind_from_str(r.camera_kind.as_str()),
        gps_supported: r.gps_supported,
        archive_only: true,
    };
    proof {
        assert(t@.segments == Seq::<crate::model::SegmentView>::empty());
    }
    t
}

fn read_trip(r: &TripRow) -> (res: Result<Trip, AppError>)
    ensures
        match res {
            Ok(t) => is_readable_trip(r@) && t@ == archive_trip(r@),
            Err(e) => !is_readable_trip(r@) && crate::error::is_internal(e, trip_complaint(r@)),
        },
{
    let id: u128 = match parse_uuid(r.id.as_str()) {
        Ok(id) => id,
        Err(why) => {
            let mut m = concat3("invalid trip uuid ", r.id.as_str(), ": ");
            m.append(why.as_str());
            return Err(AppError::Internal(m));
        },
    };
    let start = match moment_from_millis(r.start_time_ms) {
        Some(m) => m,
        None => {
            return Err(
                AppError::Internal(
                    concat2(
                        "invalid start_time_ms ",
                        decimal_int_string(r.start_time_ms).as_str(),
                    ),
                ),
            );
        },
    };
    let end = match moment_from_millis(r.end_time_ms) {
        Some(m) => m,
        None => {
            return Err(
                AppError::Internal(
                    concat2("invalid end_time_ms ", decimal_int_string(r.end_time_ms).as_str()),
                ),
            );
        },
    };
    Ok(trip_without_segments(r, id, start, end))
}

fn has_segments(lib: &Library, trip_id: &String) -> (r: bool)
    ensures
        r == exists|i: int|
            0 <= i < lib@.segments.len() && (#[trigger] lib@.segments[i]).trip_id == trip_id@,
{
    let ghost views = lib@.segments;
    let mut i: usize = 0;
    while i < lib.segments.len()
        invariant
            i <= lib.segments.len(),
            views == crate::db::rows::segment_rows(lib.segments@),
            forall|j: int| 0 <= j < i ==> (#[trigger] views[j]).trip_id != trip_id@,
        decreases lib.segments.len() - i,
    {
        proof {
            assert(views[i as int] == lib.segments@[i as int]@);
        }
        if lib.segments[i].trip_id == *trip_id {
            return true;
        }
        i += 1;
    }
    false
}

fn has_jobs(lib: &Library, trip_id: &String) -> (r: bool)
    ensures
        r == crate::db::segments::has_job(lib@.jobs, trip_id@),
{
    let ghost views = lib@.jobs;
    let mut i: usize = 0;
    while i < lib.jobs.len()
        invariant
            i <= lib.jobs.len(),
            views == crate::db::rows::job_rows(lib.jobs@),
            forall|j: int| 0 <= j < i ==> (#[trigger] views[j]).trip_id != trip_id@,
        decreases lib.jobs.len() - i,
    {
        proof {
            assert(views[i as int] == lib.jobs@[i as int]@);
        }
        if lib.jobs[i].trip_id == *trip_id {
            return true;
        }
        i += 1;
    }
    false
}

fn select_archive_only(lib: &Library) -> (r: Vec<TripRow>)
    ensures
        crate::db::rows::trip_rows(r@) == archive_only_rows(lib@),
{
    let ghost lv = lib@;
    let ghost keep = |t: TripRow| is_archive_only(lv, t@);
    let mut copy: Vec<TripRow> = Vec::new();
    let mut marks: Vec<bool> = Vec::new();
    let mut i: usize = 0;
    while i < lib.trips.len()
        invariant
            lv == lib@,
            i <= lib.trips.len(),
            keep == (|t: TripRow| is_archive_only(lv, t@)),
            copy@ == lib.trips@.take(i as int),
            marks.len() == i,
            forall|j: int| 0 <= j < i ==> #[trigger] marks@[j] == keep(copy@[j]),
        decreases lib.trips.len() - i,
    {
        marks.push(has_jobs(lib, &lib.trips[i].id) && !has_segments(lib, &lib.trips[i].id));
        copy.push(lib.trips[i].clone());
        i += 1;
        proof {
            assert(lib.trips@.take(i as int) == lib.trips@.take(i - 1).push(lib.trips@[i - 1]));
        }
    }
    proof {
        assert(lib.trips@.take(lib.trips@.len() as int) == lib.trips@);
    }
    let kept = retain_marked(copy, marks, Ghost(keep));
    let ghost raw_key = |t: TripRow| t.start_time_ms as int;
    let ghost to_view = |t: TripRow| t@;
    proof {
        let q = |t: TripView| is_archive_only(lv, t);
        crate::db::table::filter_commutes_with_map(lib.trips@, keep, to_view, q);
        assert(crate::db::rows::trip_rows(lib.trips@) == lib.trips@.map_values(to_view));
        assert(crate::db::rows::trip_rows(kept@) == kept@.map_values(to_view));
        crate::sort::sort_commutes_with_map(kept@, raw_key, to_view, trip_row_start());
    }
    let mut keys: Vec<i128> = Vec::new();
    let mut i: usize = 0;
    while i < kept.len()
        invariant
            i <= kept.len(),
            keys.len() == i,
            raw_key == (|t: TripRow| t.start_time_ms as int),
            forall|j: int| 0 <= j < i ==> #[trigger] keys@[j] == raw_key(kept@[j]),
        decreases kept.len() - i,
    {
        keys.push(kept[i].start_time_ms as i128);
        i += 1;
    }
    let r = sort_stable(kept, keys, Ghost(raw_key));
    proof {
        assert(crate::db::rows::trip_rows(r@) == r@.map_values(to_view));
    }
    r
}

/// The trips of which only timelapses are left, in the order of their starts.
/// The first row that cannot be read is reported instead.
pub fn list_archive_only_trips(lib: &Library) -> (r: Result<Vec<Trip>, AppError>)
    ensures
        ({
            let sel = archive_only_rows(lib@);
            match r {
                Ok(trips) => (forall|i: int|
                    0 <= i < sel.len() ==> is_readable_trip(#[trigger] sel[i]))
                    && crate::model::trip_views(trips@) == sel.map_values(
                    |t: TripView| archive_trip(t),
                ),
                Err(e) => exists|k: int|
                    0 <= k < sel.len() && !is_readable_trip(#[trigger] sel[k]) && (forall|j: int|
                        0 <= j < k ==> is_readable_trip(#[trigger] sel[j]))
                        && crate::error::is_internal(e, trip_complaint(sel[k])),
            }
        }),
{
    let rows = select_archive_only(lib);
    let ghost sel = archive_only_rows(lib@);
    let ghost wanted = sel.map_values(|t: TripView| archive_trip(t));
    let mut out: Vec<Trip> = Vec::new();
    let mut i: usize = 0;
    while i < rows.len()
        invariant
            i <= rows.len(),
            sel == crate::db::rows::trip_rows(rows@),
            sel == archive_only_rows(lib@),
            wanted == sel.map_values(|t: TripView| archive_trip(t)),
            forall|j: int| 0 <= j < i ==> is_readable_trip(#[trigger] sel[j]),
            crate::model::trip_views(out@) == wanted.take(i as int),
        decreases rows.len() - i,
    {
        proof {
            assert(sel[i as int] == rows@[i as int]@);
        }
        match read_trip(&rows[i]) {
            Ok(t) => {
                let ghost before = out@;
                let ghost tv = t@;
                out.push(t);
                proof {
                    assert(wanted[i as int] == tv);
                    assert(crate::model::trip_views(out@) == crate::model::trip_views(
                        before,
                    ).push(tv));
                    assert(wanted.take(i + 1) == wanted.take(i as int).push(tv));
                }
            },
            Err(e) => {
                return Err(e);
            },
        }
        i += 1;
    }
    proof {
        assert(wanted.take(wanted.len() as int) == wanted);
    }
    Ok(out)
}

} // verus!
