//! What the tables hold of scanned trips, and what is read from them.

use crate::db::manual_trip_merges::{MergeRow, MergeTable};
use crate::db::rows::{LibraryView, ScanRunView, SegmentView, TagView, TripView};
use crate::db::segments::PathEntry;
use crate::db::trip_merging::BucketView;
use crate::moment::Moment;
use vstd::prelude::*;

verus! {

/// The moment is on a whole millisecond, and the calendar and the tables have it.
pub open spec fn is_storable(m: Moment) -> bool {
    &&& crate::moment::FIRST_SECOND <= m.secs <= crate::moment::LAST_SECOND
    &&& m.nanos < 1_000_000_000 && m.nanos % 1_000_000 == 0
    &&& i64::MIN <= m.secs * 1000 && m.secs * 1000 + 999 <= i64::MAX
}

/// The row of a segment tells what the segment is: read as a tombstone it gives the
/// segment without its files. The row is of the trip, seen now, and no tombstone.
pub proof fn segments_are_read_back(
    s: crate::model::SegmentView,
    trip_id: Seq<char>,
    now_ms: i64,
    known: Seq<PathEntry>,
    root: Seq<char>,
)
    requires
        is_storable(s.start_time),
        s.size_bytes matches Some(n) ==> n <= i64::MAX,
    ensures
        ({
            let r = crate::db::segments::segment_row_of(s, trip_id, now_ms, known, root);
            let t = crate::db::queries::tombstone_from(r, s.id, s.start_time);
            &&& r.id == crate::ids::hyphenated(s.id)
            &&& r.trip_id == trip_id
            &&& r.last_seen_ms == now_ms
            &&& !r.is_tombstone
            &&& r.start_time_ms == s.start_time.secs * 1000 + s.start_time.nanos / 1_000_000
            &&& crate::moment::millis_moment(r.start_time_ms as int) == Some(s.start_time)
            &&& t.id == s.id && t.start_time == s.start_time && t.duration_ms == s.duration_ms
            &&& t.is_event == s.is_event && t.camera_kind == s.camera_kind && t.gps_supported
                == s.gps_supported
            &&& t.size_bytes == s.size_bytes
            &&& t.channels.len() == 0 && t.is_tombstone
            &&& s.channels.len() == 0 ==> r.master_path.len() == 0
            &&& s.channels.len() > 0 && crate::db::segments::canonical_of(
                known,
                s.channels[0].file_path,
            ) is None ==> r.master_path == s.channels[0].file_path
        }),
{
    crate::db::segments::camera_kinds_read_back(s.camera_kind);
    crate::moment::millis_read_back(s.start_time);
}

/// The main file of a segment is stored relative to the archive where it lies in it,
/// and leads back to it from there.
pub proof fn main_files_lead_back(
    s: crate::model::SegmentView,
    trip_id: Seq<char>,
    now_ms: i64,
    known: Seq<PathEntry>,
    root: Seq<char>,
    rel: Seq<char>,
)
    requires
        s.channels.len() > 0,
        s.channels[0].file_path.len() > 0,
        crate::db::segments::canonical_of(known, s.channels[0].file_path) is Some,
        crate::paths::relative_form(
            crate::db::segments::canonical_of(known, s.channels[0].file_path)->0,
            root,
        ) == crate::paths::Relative::At(rel),
    ensures
        crate::db::segments::segment_row_of(s, trip_id, now_ms, known, root).master_path == rel,
{
}

/// The place that is known of a path is that of the first entry of the path.
pub proof fn paths_are_looked_up(known: Seq<PathEntry>, path: Seq<char>)
    ensures
        match crate::db::segments::canonical_of(known, path) {
            Some(c) => exists|i: int|
                0 <= i < known.len() && (#[trigger] known[i]).path@ == path && known[i].canonical@
                    == c && forall|j: int| 0 <= j < i ==> (#[trigger] known[j]).path@ != path,
            None => forall|i: int| 0 <= i < known.len() ==> (#[trigger] known[i]).path@ != path,
        },
{
    let s = seq![path];
    let p = |e: PathEntry| e.path@ == s[0];
    crate::db::table::lemma_first_index(known, p, 0);
    let i = crate::db::table::first_index(known, p, 0);
    assert(crate::db::segments::canonical_of(known, s[0]) == crate::db::segments::canonical_of(
        known,
        path,
    ));
    assert forall|j: int| 0 <= j < i implies (#[trigger] known[j]).path@ != path by {
        assert(!p(known[j]));
    }
    if i < known.len() {
        assert(p(known[i]));
    }
}

/// The row of a trip tells what the trip is: read as a trip of which only timelapses
/// are left it gives the trip without its segments.
pub proof fn trips_are_read_back(t: crate::model::TripView, now_ms: i64)
    requires
        is_storable(t.start_time),
        is_storable(t.end_time),
    ensures
        ({
            let r = crate::db::segments::trip_row_of(t, now_ms);
            let a = crate::db::queries::archive_trip_from(r, t.id, t.start_time, t.end_time);
            &&& r.id == crate::ids::hyphenated(t.id)
            &&& r.last_seen_ms == now_ms
            &&& r.start_time_ms == t.start_time.secs * 1000 + t.start_time.nanos / 1_000_000
            &&& r.end_time_ms == t.end_time.secs * 1000 + t.end_time.nanos / 1_000_000
            &&& crate::moment::millis_moment(r.start_time_ms as int) == Some(t.start_time)
            &&& crate::moment::millis_moment(r.end_time_ms as int) == Some(t.end_time)
            &&& a.id == t.id && a.start_time == t.start_time && a.end_time == t.end_time
            &&& a.camera_kind == t.camera_kind && a.gps_supported == t.gps_supported
            &&& a.segments.len() == 0 && a.archive_only
        }),
{
    crate::db::segments::camera_kinds_read_back(t.camera_kind);
    crate::moment::millis_read_back(t.start_time);
    crate::moment::millis_read_back(t.end_time);
}

/// A trip that is put in stands in the table as it was put in, and all rows of other
/// trips stay where they are.
pub proof fn trips_are_put_in(rows: Seq<TripView>, r: TripView)
    ensures
        ({
            let after = crate::db::segments::with_trip_row(rows, r);
            &&& after.contains(r)
            &&& rows.len() <= after.len() <= rows.len() + 1
            &&& forall|i: int|
                0 <= i < rows.len() && (#[trigger] rows[i]).id != r.id ==> after[i] == rows[i]
            &&& forall|i: int|
                0 <= i < after.len() ==> #[trigger] after[i] == r || rows.contains(after[i])
            &&& after.len() > rows.len() ==> forall|i: int|
                0 <= i < rows.len() ==> (#[trigger] rows[i]).id != r.id
        }),
{
    let p = |t: TripView| t.id == r.id;
    crate::db::table::lemma_first_index(rows, p, 0);
    let i = crate::db::table::first_index(rows, p, 0);
    let after = crate::db::segments::with_trip_row(rows, r);
    assert(after[i] == r);
    if i < rows.len() {
        assert(p(rows[i]));
    } else {
        assert forall|j: int| 0 <= j < rows.len() implies (#[trigger] rows[j]).id != r.id by {
            assert(!p(rows[j]));
        }
    }
    assert forall|j: int| 0 <= j < after.len() implies #[trigger] after[j] == r || rows.contains(
        after[j],
    ) by {
        if j != i {
            assert(after[j] == rows[j]);
        }
    }
}

/// The row is the one that was put in, but for a size that was known before.
pub open spec fn is_put_in(a: SegmentView, r: SegmentView) -> bool {
    a == (SegmentView { size_bytes: a.size_bytes, ..r }) && (r.size_bytes is Some ==> a.size_bytes
        == r.size_bytes)
}

/// A segment that is put in stands in the table, with the size that it brings or, where
/// it brings none, the one that was known; all rows of other segments stay where they
/// are.
pub proof fn segments_are_put_in(rows: Seq<SegmentView>, r: SegmentView)
    ensures
        ({
            let after = crate::db::segments::with_segment_row(rows, r);
            &&& exists|i: int| 0 <= i < after.len() && is_put_in(#[trigger] after[i], r)
            &&& rows.len() <= after.len() <= rows.len() + 1
            &&& forall|i: int|
                0 <= i < rows.len() && (#[trigger] rows[i]).id != r.id ==> after[i] == rows[i]
            &&& forall|i: int|
                0 <= i < after.len() ==> is_put_in(#[trigger] after[i], r) || rows.contains(
                    after[i],
                )
        }),
{
    let p = |t: SegmentView| t.id == r.id;
    crate::db::table::lemma_first_index(rows, p, 0);
    let i = crate::db::table::first_index(rows, p, 0);
    let after = crate::db::segments::with_segment_row(rows, r);
    assert(is_put_in(after[i], r));
    if i < rows.len() {
        assert(p(rows[i]));
    }
    assert forall|j: int| 0 <= j < after.len() implies is_put_in(#[trigger] after[j], r)
        || rows.contains(after[j]) by {
        if j != i {
            assert(after[j] == rows[j]);
        }
    }
}

/// The trip has a row, which was seen at the given time.
pub open spec fn is_trip_seen(rows: Seq<TripView>, id: u128, now_ms: i64) -> bool {
    exists|i: int|
        0 <= i < rows.len() && (#[trigger] rows[i]).id == crate::ids::hyphenated(id)
            && rows[i].last_seen_ms == now_ms
}

/// The segment has a row, which was seen at the given time and is no tombstone.
pub open spec fn is_segment_seen(rows: Seq<SegmentView>, id: u128, now_ms: i64) -> bool {
    exists|i: int|
        0 <= i < rows.len() && (#[trigger] rows[i]).id == crate::ids::hyphenated(id)
            && rows[i].last_seen_ms == now_ms && !rows[i].is_tombstone
}

proof fn lemma_segments_seen(
    rows: Seq<SegmentView>,
    s: Seq<crate::model::SegmentView>,
    trip_id: Seq<char>,
    now_ms: i64,
    known: Seq<PathEntry>,
    root: Seq<char>,
)
    ensures
        ({
            let after = crate::db::segments::with_segments(rows, s, trip_id, now_ms, known, root);
            &&& forall|k: int|
                0 <= k < s.len() ==> is_segment_seen(after, (#[trigger] s[k]).id, now_ms)
            &&& forall|id: u128| #[trigger]
                is_segment_seen(rows, id, now_ms) ==> is_segment_seen(after, id, now_ms)
        }),
    decreases s.len(),
{
    if s.len() > 0 {
        let u = s.drop_last();
        lemma_segments_seen(rows, u, trip_id, now_ms, known, root);
        let mid = crate::db::segments::with_segments(rows, u, trip_id, now_ms, known, root);
        let after = crate::db::segments::with_segments(rows, s, trip_id, now_ms, known, root);
        let r = crate::db::segments::segment_row_of(s.last(), trip_id, now_ms, known, root);
        segments_are_put_in(mid, r);
        let at = choose|i: int| 0 <= i < after.len() && is_put_in(#[trigger] after[i], r);
        assert(is_segment_seen(after, s.last().id, now_ms)) by {
            assert(after[at].id == crate::ids::hyphenated(s.last().id));
        }
        assert forall|id: u128| #[trigger] is_segment_seen(mid, id, now_ms) implies is_segment_seen(
            after,
            id,
            now_ms,
        ) by {
            let i = choose|i: int|
                0 <= i < mid.len() && (#[trigger] mid[i]).id == crate::ids::hyphenated(id)
                    && mid[i].last_seen_ms == now_ms && !mid[i].is_tombstone;
            if mid[i].id == r.id {
                assert(after[at].id == crate::ids::hyphenated(id));
            } else {
                assert(after[i] == mid[i]);
            }
        }
        assert forall|k: int| 0 <= k < s.len() implies is_segment_seen(
            after,
            (#[trigger] s[k]).id,
            now_ms,
        ) by {
            if k < u.len() {
                assert(u[k] == s[k]);
                assert(is_segment_seen(mid, u[k].id, now_ms));
            }
        }
        assert forall|id: u128| #[trigger]
            is_segment_seen(rows, id, now_ms) implies is_segment_seen(after, id, now_ms) by {
            assert(is_segment_seen(mid, id, now_ms));
        }
    }
}

/// Every trip that was scanned and every segment of it has a row that was seen by this
/// scan; nothing else but trips and segments is touched.
pub proof fn scans_are_recorded(
    lib: LibraryView,
    trips: Seq<crate::model::TripView>,
    now_ms: i64,
    known: Seq<PathEntry>,
    root: Seq<char>,
)
    ensures
        ({
            let r = crate::db::segments::with_trips(lib, trips, now_ms, known, root);
            &&& forall|k: int|
                0 <= k < trips.len() ==> is_trip_seen(r.trips, (#[trigger] trips[k]).id, now_ms)
            &&& forall|k: int, j: int|
                0 <= k < trips.len() && 0 <= j < trips[k].segments.len() ==> is_segment_seen(
                    r.segments,
                    (#[trigger] trips[k].segments[j]).id,
                    now_ms,
                )
            &&& r.tags == lib.tags && r.jobs == lib.jobs && r.scan_runs == lib.scan_runs
        }),
    decreases trips.len(),
{
    if trips.len() > 0 {
        let u = trips.drop_last();
        let t = trips.last();
        scans_are_recorded(lib, u, now_ms, known, root);
        let mid = crate::db::segments::with_trips(lib, u, now_ms, known, root);
        let r = crate::db::segments::with_trips(lib, trips, now_ms, known, root);
        let row = crate::db::segments::trip_row_of(t, now_ms);
        trips_are_put_in(mid.trips, row);
        lemma_segments_seen(
            mid.segments,
            t.segments,
            crate::ids::hyphenated(t.id),
            now_ms,
            known,
            root,
        );
        let at = choose|i: int| 0 <= i < r.trips.len() && r.trips[i] == row;
        assert(r.trips[at].id == crate::ids::hyphenated(t.id));
        assert forall|k: int| 0 <= k < trips.len() implies is_trip_seen(
            r.trips,
            (#[trigger] trips[k]).id,
            now_ms,
        ) by {
            if k < u.len() {
                assert(u[k] == trips[k]);
                assert(is_trip_seen(mid.trips, u[k].id, now_ms));
                let i = choose|i: int|
                    0 <= i < mid.trips.len() && (#[trigger] mid.trips[i]).id
                        == crate::ids::hyphenated(u[k].id) && mid.trips[i].last_seen_ms == now_ms;
                if mid.trips[i].id != row.id {
                    assert(r.trips[i] == mid.trips[i]);
                }
            }
        }
        assert forall|k: int, j: int|
            0 <= k < trips.len() && 0 <= j < trips[k].segments.len() implies is_segment_seen(
            r.segments,
            (#[trigger] trips[k].segments[j]).id,
            now_ms,
        ) by {
            if k < u.len() {
                assert(u[k] == trips[k]);
                assert(is_segment_seen(mid.segments, u[k].segments[j].id, now_ms));
            } else {
                assert(t.segments[j] == trips[k].segments[j]);
            }
        }
    }
}

/// A segment with the identifier was not seen since the given time, and is no
/// tombstone.
pub open spec fn is_unseen(segments: Seq<SegmentView>, id: Seq<char>, since_ms: i64) -> bool {
    exists|i: int|
        0 <= i < segments.len() && (#[trigger] segments[i]).id == id && segments[i].last_seen_ms
            < since_ms && !segments[i].is_tombstone
}

/// A trip with the identifier was not seen since the given time, and no timelapse is
/// its.
pub open spec fn is_forgotten(lib: LibraryView, id: Seq<char>, since_ms: i64) -> bool {
    exists|i: int|
        0 <= i < lib.trips.len() && (#[trigger] lib.trips[i]).id == id && lib.trips[i].last_seen_ms
            < since_ms && !exists|j: int|
            0 <= j < lib.jobs.len() && (#[trigger] lib.jobs[j]).trip_id == id
}

/// Of tags and scan results those go, and only those, that hang on a segment or a trip
/// that goes; no row changes.
pub proof fn collections_take_along_what_hangs_on(lib: LibraryView, since_ms: i64)
    ensures
        ({
            let r = crate::db::segments::collected(lib, since_ms);
            &&& forall|i: int|
                0 <= i < lib.tags.len() ==> (r.tags.contains(#[trigger] lib.tags[i]) <==> !((
                lib.tags[i].segment_id matches Some(id) && is_unseen(lib.segments, id, since_ms))
                    || (lib.tags[i].trip_id matches Some(id) && is_forgotten(lib, id, since_ms))))
            &&& forall|i: int| 0 <= i < r.tags.len() ==> lib.tags.contains(#[trigger] r.tags[i])
            &&& forall|i: int|
                0 <= i < lib.scan_runs.len() ==> (r.scan_runs.contains(
                    #[trigger] lib.scan_runs[i],
                ) <==> !is_unseen(lib.segments, lib.scan_runs[i].segment_id, since_ms))
            &&& forall|i: int|
                0 <= i < r.scan_runs.len() ==> lib.scan_runs.contains(#[trigger] r.scan_runs[i])
            &&& forall|i: int|
                0 <= i < r.segments.len() ==> lib.segments.contains(#[trigger] r.segments[i]) && (
                r.segments[i].is_tombstone || r.segments[i].last_seen_ms >= since_ms)
            &&& forall|i: int|
                0 <= i < r.trips.len() ==> lib.trips.contains(#[trigger] r.trips[i])
        }),
{
    let r = crate::db::segments::collected(lib, since_ms);
    let ptag = |t: TagView| !crate::db::segments::tag_goes(lib, since_ms, t);
    let prun = |x: ScanRunView|
        !crate::db::segments::is_stale_id(lib.segments, since_ms, x.segment_id);
    let pseg = |s: SegmentView| !crate::db::segments::is_stale(s, since_ms);
    let ptrip = |t: TripView| !crate::db::segments::is_dead(t, lib.jobs, since_ms);
    crate::laws::seqs::lemma_filter(lib.tags, ptag);
    crate::laws::seqs::lemma_filter(lib.scan_runs, prun);
    crate::laws::seqs::lemma_filter(lib.segments, pseg);
    crate::laws::seqs::lemma_filter(lib.trips, ptrip);
    assert forall|id: Seq<char>| #[trigger]
        is_unseen(lib.segments, id, since_ms) == crate::db::segments::is_stale_id(
            lib.segments,
            since_ms,
            id,
        ) by {}
    assert forall|id: Seq<char>| #[trigger]
        is_forgotten(lib, id, since_ms) == crate::db::segments::is_dead_id(
            lib.trips,
            lib.jobs,
            since_ms,
            id,
        ) by {
        if crate::db::segments::is_dead_id(lib.trips, lib.jobs, since_ms, id) {
            let i = choose|i: int|
                0 <= i < lib.trips.len() && (#[trigger] lib.trips[i]).id == id
                    && crate::db::segments::is_dead(lib.trips[i], lib.jobs, since_ms);
            assert(!crate::db::segments::has_job(lib.jobs, id));
            assert(lib.trips[i].id == id);
        }
        if is_forgotten(lib, id, since_ms) {
            let i = choose|i: int|
                0 <= i < lib.trips.len() && (#[trigger] lib.trips[i]).id == id
                    && lib.trips[i].last_seen_ms < since_ms && !exists|j: int|
                    0 <= j < lib.jobs.len() && (#[trigger] lib.jobs[j]).trip_id == id;
            assert(crate::db::segments::is_dead(lib.trips[i], lib.jobs, since_ms));
        }
    }
    assert forall|i: int| 0 <= i < lib.tags.len() implies (r.tags.contains(#[trigger] lib.tags[i])
        <==> !((lib.tags[i].segment_id matches Some(id) && is_unseen(lib.segments, id, since_ms))
        || (lib.tags[i].trip_id matches Some(id) && is_forgotten(lib, id, since_ms)))) by {
        if r.tags.contains(lib.tags[i]) {
            let k = choose|k: int| 0 <= k < r.tags.len() && r.tags[k] == lib.tags[i];
            assert(ptag(r.tags[k]));
        }
        if !r.tags.contains(lib.tags[i]) {
            assert(!ptag(lib.tags[i]));
        }
    }
    assert forall|i: int| 0 <= i < lib.scan_runs.len() implies (r.scan_runs.contains(
        #[trigger] lib.scan_runs[i],
    ) <==> !is_unseen(lib.segments, lib.scan_runs[i].segment_id, since_ms)) by {
        if r.scan_runs.contains(lib.scan_runs[i]) {
            let k = choose|k: int| 0 <= k < r.scan_runs.len() && r.scan_runs[k] == lib.scan_runs[i];
            assert(prun(r.scan_runs[k]));
        }
        if !r.scan_runs.contains(lib.scan_runs[i]) {
            assert(!prun(lib.scan_runs[i]));
        }
    }
    assert forall|i: int| 0 <= i < r.segments.len() implies lib.segments.contains(
        #[trigger] r.segments[i],
    ) && (r.segments[i].is_tombstone || r.segments[i].last_seen_ms >= since_ms) by {
        assert(pseg(r.segments[i]));
    }
}

// ------------------------------------------------------------------- the reads

/// A record tells what its row tells; its file lies in the archive, and a row without
/// a file gives a record without one.
pub proof fn records_tell_their_rows(s: SegmentView, root: Seq<char>)
    ensures
        ({
            let r = crate::db::queries::record_of(s, root);
            &&& r.id == s.id && r.trip_id == s.trip_id && r.is_event == s.is_event
            &&& r.gps_supported == s.gps_supported && r.duration_ms == s.duration_ms
            &&& r.is_tombstone == s.is_tombstone
            &&& crate::db::segments::kind_of(s.camera_kind) == r.camera_kind
            &&& s.master_path.len() == 0 ==> r.master_path.len() == 0
            &&& s.master_path.len() > 0 ==> r.master_path == crate::paths::path_join(
                root,
                s.master_path,
            )
        }),
{
}

/// The tombstones of trips are all of their segments that are tombstones, in the order
/// of their starts.
pub proof fn tombstones_are_those_of_the_trips(rows: Seq<SegmentView>, ids: Seq<Seq<char>>)
    ensures
        ({
            let r = crate::db::queries::tombstones_of(rows, ids);
            &&& forall|i: int|
                0 <= i < r.len() ==> rows.contains(#[trigger] r[i]) && r[i].is_tombstone
                    && ids.contains(r[i].trip_id)
            &&& forall|i: int|
                0 <= i < rows.len() && (#[trigger] rows[i]).is_tombstone && ids.contains(
                    rows[i].trip_id,
                ) ==> r.contains(rows[i])
            &&& forall|i: int, j: int|
                0 <= i <= j < r.len() ==> (#[trigger] r[i]).start_time_ms <= (
                #[trigger] r[j]).start_time_ms
        }),
{
    let p = |s: SegmentView| s.is_tombstone && ids.contains(s.trip_id);
    let key = crate::db::queries::row_start();
    let f = rows.filter(p);
    let r = crate::db::queries::tombstones_of(rows, ids);
    crate::laws::seqs::lemma_filter(rows, p);
    crate::laws::seqs::lemma_sorted(f, key);
    assert forall|i: int| 0 <= i < r.len() implies rows.contains(#[trigger] r[i])
        && r[i].is_tombstone && ids.contains(r[i].trip_id) by {
        assert(f.contains(r[i]));
        let k = choose|k: int| 0 <= k < f.len() && f[k] == r[i];
        assert(p(f[k]));
    }
    assert forall|i: int|
        0 <= i < rows.len() && (#[trigger] rows[i]).is_tombstone && ids.contains(
            rows[i].trip_id,
        ) implies r.contains(rows[i]) by {
        assert(p(rows[i]));
        let k = choose|k: int| 0 <= k < f.len() && f[k] == rows[i];
        assert(r.contains(f[k]));
    }
    assert forall|i: int, j: int| 0 <= i <= j < r.len() implies (#[trigger] r[i]).start_time_ms <= (
    #[trigger] r[j]).start_time_ms by {
        assert(key(r[i]) <= key(r[j]));
    }
}

/// Some segment is of the trip.
pub open spec fn has_segments(lib: LibraryView, id: Seq<char>) -> bool {
    exists|i: int| 0 <= i < lib.segments.len() && (#[trigger] lib.segments[i]).trip_id == id
}

/// Some timelapse is of the trip.
pub open spec fn has_timelapses(lib: LibraryView, id: Seq<char>) -> bool {
    exists|i: int| 0 <= i < lib.jobs.len() && (#[trigger] lib.jobs[i]).trip_id == id
}

/// The trips of which only timelapses are left are all trips with a timelapse and no
/// segment, in the order of their starts.
pub proof fn archives_are_trips_without_segments(lib: LibraryView)
    ensures
        ({
            let r = crate::db::queries::archive_only_rows(lib);
            &&& forall|i: int|
                0 <= i < r.len() ==> lib.trips.contains(#[trigger] r[i]) && has_timelapses(
                    lib,
                    r[i].id,
                ) && !has_segments(lib, r[i].id)
            &&& forall|i: int|
                0 <= i < lib.trips.len() && has_timelapses(lib, (#[trigger] lib.trips[i]).id)
                    && !has_segments(lib, lib.trips[i].id) ==> r.contains(lib.trips[i])
            &&& forall|i: int, j: int|
                0 <= i <= j < r.len() ==> (#[trigger] r[i]).start_time_ms <= (
                #[trigger] r[j]).start_time_ms
        }),
{
    let p = |t: TripView| crate::db::queries::is_archive_only(lib, t);
    let key = crate::db::queries::trip_row_start();
    let f = lib.trips.filter(p);
    let r = crate::db::queries::archive_only_rows(lib);
    crate::laws::seqs::lemma_filter(lib.trips, p);
    crate::laws::seqs::lemma_sorted(f, key);
    assert forall|i: int| 0 <= i < r.len() implies lib.trips.contains(#[trigger] r[i])
        && has_timelapses(lib, r[i].id) && !has_segments(lib, r[i].id) by {
        assert(f.contains(r[i]));
        let k = choose|k: int| 0 <= k < f.len() && f[k] == r[i];
        assert(p(f[k]));
        assert(crate::db::segments::has_job(lib.jobs, r[i].id));
    }
    assert forall|i: int|
        0 <= i < lib.trips.len() && has_timelapses(lib, (#[trigger] lib.trips[i]).id)
            && !has_segments(lib, lib.trips[i].id) implies r.contains(lib.trips[i]) by {
        assert(crate::db::segments::has_job(lib.jobs, lib.trips[i].id));
        assert(p(lib.trips[i]));
        let k = choose|k: int| 0 <= k < f.len() && f[k] == lib.trips[i];
        assert(r.contains(f[k]));
    }
    assert forall|i: int, j: int| 0 <= i <= j < r.len() implies (#[trigger] r[i]).start_time_ms <= (
    #[trigger] r[j]).start_time_ms by {
        assert(key(r[i]) <= key(r[j]));
    }
}

// ------------------------------------------------------------------ joined trips

/// The primary trip is the one that the join of an absorbed trip names.
pub proof fn primaries_are_those_of_the_joins(rows: Seq<MergeRow>, i: int)
    requires
        crate::db::manual_trip_merges::has_unique_absorbed(rows),
        0 <= i < rows.len(),
    ensures
        crate::db::trip_merging::effective_id(rows, rows[i].absorbed) == rows[i].primary,
        forall|id: u128|
            (forall|k: int| 0 <= k < rows.len() ==> (#[trigger] rows[k]).absorbed != id)
                ==> #[trigger] crate::db::trip_merging::effective_id(rows, id) == id,
{
    let id = rows[i].absorbed;
    assert(crate::db::manual_trip_merges::is_absorbed(rows, id));
    let j = choose|j: int| 0 <= j < rows.len() && (#[trigger] rows[j]).absorbed == id;
    if i < j {
        assert(rows[i].absorbed != rows[j].absorbed);
    } else if j < i {
        assert(rows[j].absorbed != rows[i].absorbed);
    }
}

/// A join leads the absorbed trip, and all that it had absorbed, to the root; the
/// times of the earlier joins and all other joins stay.
pub proof fn joins_lead_to_the_root(
    rows: Seq<MergeRow>,
    absorbed: u128,
    root: u128,
    now_ms: i64,
)
    ensures
        ({
            let r = MergeTable::with_join(rows, absorbed, root, now_ms);
            &&& r.len() >= rows.len()
            &&& exists|i: int|
                0 <= i < r.len() && (#[trigger] r[i]).absorbed == absorbed && r[i].primary == root
                    && r[i].created_ms == now_ms
            &&& forall|i: int|
                0 <= i < rows.len() ==> (#[trigger] r[i]).absorbed == rows[i].absorbed && (
                rows[i].absorbed != absorbed ==> r[i].created_ms == rows[i].created_ms
                    && r[i].primary == if rows[i].primary == absorbed {
                    root
                } else {
                    rows[i].primary
                })
            &&& forall|i: int| rows.len() <= i < r.len() ==> (#[trigger] r[i]).absorbed == absorbed
        }),
{
    let r = MergeTable::with_join(rows, absorbed, root, now_ms);
    if crate::db::manual_trip_merges::is_absorbed(rows, absorbed) {
        let i = choose|i: int| 0 <= i < rows.len() && (#[trigger] rows[i]).absorbed == absorbed;
        assert(r[i].absorbed == absorbed);
    } else {
        assert(r[rows.len() as int].absorbed == absorbed);
    }
}

/// The trip stands for a trip that was folded into it: it starts no later, ends no
/// earlier, and has its segments.
pub open spec fn stands_for(r: crate::model::TripView, t: crate::model::TripView) -> bool {
    &&& r.start_time.order() <= t.start_time.order()
    &&& t.end_time.order() <= r.end_time.order()
    &&& forall|k: int| 0 <= k < t.segments.len() ==> r.segments.contains(#[trigger] t.segments[k])
}

proof fn lemma_latest(t: Seq<crate::model::TripView>)
    requires
        t.len() > 0,
    ensures
        forall|i: int|
            0 <= i < t.len() ==> (#[trigger] t[i]).end_time.order()
                <= crate::db::trip_merging::latest_end(t).order(),
        exists|i: int|
            0 <= i < t.len() && (#[trigger] t[i]).end_time == crate::db::trip_merging::latest_end(t),
    decreases t.len(),
{
    if t.len() > 1 {
        let u = t.drop_last();
        lemma_latest(u);
        assert(t[t.len() - 1] == t.last());
        let k = choose|k: int|
            0 <= k < u.len() && (#[trigger] u[k]).end_time == crate::db::trip_merging::latest_end(u);
        assert(t[k] == u[k]);
        assert forall|i: int| 0 <= i < t.len() implies (#[trigger] t[i]).end_time.order()
            <= crate::db::trip_merging::latest_end(t).order() by {
            if i < u.len() {
                assert(u[i] == t[i]);
            }
        }
    } else {
        assert(t[0].end_time == crate::db::trip_merging::latest_end(t));
    }
}

proof fn lemma_segments_from(t: Seq<crate::model::TripView>)
    ensures
        forall|i: int, k: int|
            0 <= i < t.len() && 0 <= k < t[i].segments.len()
                ==> crate::db::trip_merging::segments_of(t).contains(#[trigger] t[i].segments[k]),
        forall|j: int|
            #![trigger crate::db::trip_merging::segments_of(t)[j]]
            0 <= j < crate::db::trip_merging::segments_of(t).len() ==> exists|i: int|
                0 <= i < t.len() && (#[trigger] t[i]).segments.contains(
                    crate::db::trip_merging::segments_of(t)[j],
                ),
    decreases t.len(),
{
    if t.len() > 0 {
        let u = t.drop_last();
        lemma_segments_from(u);
        let before = crate::db::trip_merging::segments_of(u);
        let all = crate::db::trip_merging::segments_of(t);
        assert(t[t.len() - 1] == t.last());
        assert forall|i: int, k: int|
            0 <= i < t.len() && 0 <= k < t[i].segments.len() implies all.contains(
            #[trigger] t[i].segments[k],
        ) by {
            if i < u.len() {
                assert(u[i] == t[i]);
                assert(before.contains(u[i].segments[k]));
                let m = choose|m: int| 0 <= m < before.len() && before[m] == u[i].segments[k];
                assert(all[m] == t[i].segments[k]);
            } else {
                assert(all[before.len() + k] == t[i].segments[k]);
            }
        }
        assert forall|j: int| #![trigger all[j]] 0 <= j < all.len() implies exists|i: int|
            0 <= i < t.len() && (#[trigger] t[i]).segments.contains(all[j]) by {
            if j < before.len() {
                assert(all[j] == before[j]);
                let i = choose|i: int|
                    0 <= i < u.len() && (#[trigger] u[i]).segments.contains(before[j]);
                assert(t[i] == u[i]);
            } else {
                assert(t.last().segments[j - before.len()] == all[j]);
                assert(t[t.len() - 1].segments.contains(all[j]));
            }
        }
    }
}

/// Trips that belong together make one trip: it stands for each of them, begins with
/// the earliest and has its camera, ends with the latest, and its segments are theirs,
/// in the order of time.
pub proof fn folded_trips_stand_for_all(b: BucketView)
    requires
        b.trips.len() > 0,
    ensures
        ({
            let r = crate::db::trip_merging::folded(b);
            &&& r.id == b.id
            &&& forall|i: int| 0 <= i < b.trips.len() ==> stands_for(r, #[trigger] b.trips[i])
            &&& exists|i: int|
                0 <= i < b.trips.len() && (#[trigger] b.trips[i]).start_time == r.start_time
                    && b.trips[i].camera_kind == r.camera_kind && b.trips[i].gps_supported
                    == r.gps_supported
            &&& exists|i: int|
                0 <= i < b.trips.len() && (#[trigger] b.trips[i]).end_time == r.end_time
            &&& forall|k: int|
                0 <= k < r.segments.len() ==> exists|i: int|
                    0 <= i < b.trips.len() && (#[trigger] b.trips[i]).segments.contains(
                        #[trigger] r.segments[k],
                    )
            &&& r.archive_only <==> r.segments.len() == 0
            &&& forall|i: int, j: int|
                0 <= i <= j < r.segments.len() ==> (#[trigger] r.segments[i]).start_time.order()
                    <= (#[trigger] r.segments[j]).start_time.order()
        }),
{
    let r = crate::db::trip_merging::folded(b);
    let key = crate::db::trip_merging::trip_order();
    let skey = crate::scan::grouping::start_order();
    let s = crate::sort::sort_by(b.trips, key);
    let all = crate::db::trip_merging::segments_of(s);
    crate::laws::seqs::lemma_sorted(b.trips, key);
    crate::laws::seqs::lemma_sorted(all, skey);
    lemma_latest(s);
    lemma_segments_from(s);
    assert forall|i: int| 0 <= i < b.trips.len() implies stands_for(r, #[trigger] b.trips[i]) by {
        assert(s.contains(b.trips[i]));
        let k = choose|k: int| 0 <= k < s.len() && s[k] == b.trips[i];
        assert(key(s[0]) <= key(s[k]));
        assert(s[k].end_time.order() <= crate::db::trip_merging::latest_end(s).order());
        assert forall|m: int| 0 <= m < b.trips[i].segments.len() implies r.segments.contains(
            #[trigger] b.trips[i].segments[m],
        ) by {
            assert(all.contains(s[k].segments[m]));
            let q = choose|q: int| 0 <= q < all.len() && all[q] == s[k].segments[m];
            assert(r.segments.contains(all[q]));
        }
    }
    assert(b.trips.contains(s[0]));
    let i0 = choose|i: int| 0 <= i < b.trips.len() && b.trips[i] == s[0];
    assert(b.trips[i0].start_time == r.start_time);
    let e = choose|e: int|
        0 <= e < s.len() && (#[trigger] s[e]).end_time == crate::db::trip_merging::latest_end(s);
    assert(b.trips.contains(s[e]));
    let e0 = choose|i: int| 0 <= i < b.trips.len() && b.trips[i] == s[e];
    assert(b.trips[e0].end_time == r.end_time);
    assert forall|k: int| 0 <= k < r.segments.len() implies exists|i: int|
        0 <= i < b.trips.len() && (#[trigger] b.trips[i]).segments.contains(
            #[trigger] r.segments[k],
        ) by {
        assert(all.contains(r.segments[k]));
        let q = choose|q: int| 0 <= q < all.len() && all[q] == r.segments[k];
        let m = choose|m: int| 0 <= m < s.len() && (#[trigger] s[m]).segments.contains(all[q]);
        assert(b.trips.contains(s[m]));
        let i = choose|i: int| 0 <= i < b.trips.len() && b.trips[i] == s[m];
        assert(b.trips[i].segments.contains(r.segments[k]));
    }
    assert forall|i: int, j: int| 0 <= i <= j < r.segments.len() implies (
    #[trigger] r.segments[i]).start_time.order() <= (#[trigger] r.segments[j]).start_time.order() by {
        assert(skey(r.segments[i]) <= skey(r.segments[j]));
    }
}

proof fn lemma_trip_bucket_at(b: Seq<BucketView>, id: u128, i: int)
    requires
        0 <= i <= b.len(),
    ensures
        i <= crate::db::trip_merging::bucket_at(b, id, i) <= b.len(),
        crate::db::trip_merging::bucket_at(b, id, i) < b.len()
            ==> b[crate::db::trip_merging::bucket_at(b, id, i)].id == id,
    decreases b.len() - i,
{
    if i < b.len() && b[i].id != id {
        lemma_trip_bucket_at(b, id, i + 1);
    }
}

proof fn lemma_buckets(trips: Seq<crate::model::TripView>, rows: Seq<MergeRow>)
    ensures
        ({
            let b = crate::db::trip_merging::buckets_of(trips, rows);
            &&& forall|j: int| 0 <= j < b.len() ==> (#[trigger] b[j]).trips.len() > 0
            &&& forall|j: int, k: int|
                0 <= j < b.len() && 0 <= k < b[j].trips.len() ==> trips.contains(
                    #[trigger] b[j].trips[k],
                ) && crate::db::trip_merging::effective_id(rows, b[j].trips[k].id) == b[j].id
            &&& forall|i: int|
                0 <= i < trips.len() ==> exists|j: int|
                    0 <= j < b.len() && (#[trigger] b[j]).trips.contains(#[trigger] trips[i])
        }),
    decreases trips.len(),
{
    if trips.len() > 0 {
        let u = trips.drop_last();
        let t = trips.last();
        lemma_buckets(u, rows);
        let before = crate::db::trip_merging::buckets_of(u, rows);
        let b = crate::db::trip_merging::buckets_of(trips, rows);
        let id = crate::db::trip_merging::effective_id(rows, t.id);
        let at = crate::db::trip_merging::bucket_at(before, id, 0);
        lemma_trip_bucket_at(before, id, 0);
        assert(b == crate::db::trip_merging::with_trip(before, id, t));
        assert(trips[trips.len() - 1] == t);
        assert forall|j: int, k: int|
            0 <= j < b.len() && 0 <= k < b[j].trips.len() implies trips.contains(
            #[trigger] b[j].trips[k],
        ) && crate::db::trip_merging::effective_id(rows, b[j].trips[k].id) == b[j].id by {
            if j < before.len() && k < before[j].trips.len() {
                assert(b[j].trips[k] == before[j].trips[k]);
                let m = choose|m: int| 0 <= m < u.len() && u[m] == before[j].trips[k];
                assert(trips[m] == b[j].trips[k]);
            } else {
                assert(b[j].trips[k] == t);
            }
        }
        assert forall|i: int| 0 <= i < trips.len() implies exists|j: int|
            0 <= j < b.len() && (#[trigger] b[j]).trips.contains(#[trigger] trips[i]) by {
            if i < u.len() {
                assert(u[i] == trips[i]);
                let j = choose|j: int|
                    0 <= j < before.len() && (#[trigger] before[j]).trips.contains(u[i]);
                let k = choose|k: int| 0 <= k < before[j].trips.len() && before[j].trips[k] == u[i];
                assert(b[j].trips[k] == trips[i]);
                assert(b[j].trips.contains(trips[i]));
            } else {
                let n = b[at].trips.len() - 1;
                assert(b[at].trips[n] == t);
                assert(b[at].trips.contains(trips[i]));
            }
        }
    }
}

/// The trip is the one that another counts as, and stands for it.
pub open spec fn is_counted_as(
    r: crate::model::TripView,
    t: crate::model::TripView,
    rows: Seq<MergeRow>,
) -> bool {
    r.id == crate::db::trip_merging::effective_id(rows, t.id) && stands_for(r, t)
}

/// Where trips were joined, every trip counts as one of the trips that come out, and
/// those come in the order of time.
pub proof fn every_trip_is_counted(trips: Seq<crate::model::TripView>, rows: Seq<MergeRow>)
    requires
        rows.len() > 0,
    ensures
        ({
            let r = crate::db::trip_merging::merged_trips(trips, rows);
            &&& forall|i: int|
                0 <= i < trips.len() ==> exists|k: int|
                    0 <= k < r.len() && is_counted_as(#[trigger] r[k], #[trigger] trips[i], rows)
            &&& forall|i: int, j: int|
                0 <= i <= j < r.len() ==> (#[trigger] r[i]).start_time.order() <= (
                #[trigger] r[j]).start_time.order()
        }),
{
    let key = crate::db::trip_merging::trip_order();
    let b = crate::db::trip_merging::buckets_of(trips, rows);
    let f = b.map_values(|x: BucketView| crate::db::trip_merging::folded(x));
    let r = crate::db::trip_merging::merged_trips(trips, rows);
    lemma_buckets(trips, rows);
    crate::laws::seqs::lemma_sorted(f, key);
    assert forall|i: int| 0 <= i < trips.len() implies exists|k: int|
        0 <= k < r.len() && is_counted_as(#[trigger] r[k], #[trigger] trips[i], rows) by {
        let j = choose|j: int| 0 <= j < b.len() && (#[trigger] b[j]).trips.contains(trips[i]);
        folded_trips_stand_for_all(b[j]);
        let m = choose|m: int| 0 <= m < b[j].trips.len() && b[j].trips[m] == trips[i];
        assert(stands_for(f[j], b[j].trips[m]));
        assert(f[j].id == b[j].id);
        assert(r.contains(f[j]));
        let k = choose|k: int| 0 <= k < r.len() && r[k] == f[j];
        assert(is_counted_as(r[k], trips[i], rows));
    }
    assert forall|i: int, j: int| 0 <= i <= j < r.len() implies (#[trigger] r[i]).start_time.order()
        <= (#[trigger] r[j]).start_time.order() by {
        assert(key(r[i]) <= key(r[j]));
    }
}

} // verus!
