//! Segments and trips in the database.

use crate::db::manual_trip_merges::MergeTable;
use crate::db::rows::{
    JobView, Library, LibraryView, ScanRunRow, ScanRunView, SegmentRow, SegmentView, TagRow,
    TagView, TripRow, TripView,
};
use crate::db::table::retain_marked;
use crate::db::trip_merging::apply_merges_to_trips;
use crate::ids::id_text;
use crate::model::{Segment, Trip};
use crate::paths::relativize_for_storage;
use crate::scan::naming::CameraKind;
use crate::text::{owned, same_str};
use vstd::prelude::*;

verus! {

// ------------------------------------------------------------- camera kinds

/// The text that stands for a camera family.
pub open spec fn kind_text(kind: CameraKind) -> Seq<char> {
    match kind {
        CameraKind::WolfBox => "wolfBox"@,
        CameraKind::Thinkware => "thinkware"@,
        CameraKind::Miltona => "miltona"@,
        CameraKind::SeventyMai => "seventyMai"@,
        CameraKind::Generic => "generic"@,
    }
}

/// The camera family that a text stands for; any other text stands for the
/// generic one.
pub open spec fn kind_of(s: Seq<char>) -> CameraKind {
    if s == "wolfBox"@ {
        CameraKind::WolfBox
    } else if s == "thinkware"@ {
        CameraKind::Thinkware
    } else if s == "miltona"@ {
        CameraKind::Miltona
    } else if s == "seventyMai"@ {
        CameraKind::SeventyMai
    } else {
        CameraKind::Generic
    }
}

/// The text that stands for a camera family.
pub fn camera_kind_to_str(kind: CameraKind) -> (s: &'static str)
    ensures
        s@ == kind_text(kind),
{
    match kind {
        CameraKind::WolfBox => "wolfBox",
        CameraKind::Thinkware => "thinkware",
        CameraKind::Miltona => "miltona",
        CameraKind::SeventyMai => "seventyMai",
        CameraKind::Generic => "generic",
    }
}

/// The camera family that a text stands for.
pub fn camera_kind_from_str(s: &str) -> (r: CameraKind)
    ensures
        r == kind_of(s@),
{
    if same_str(s, "wolfBox") {
        CameraKind::WolfBox
    } else if same_str(s, "thinkware") {
        CameraKind::Thinkware
    } else if same_str(s, "miltona") {
        CameraKind::Miltona
    } else if same_str(s, "seventyMai") {
        CameraKind::SeventyMai
    } else {
        CameraKind::Generic
    }
}

/// A camera family is read back as it was written.
pub proof fn camera_kinds_read_back(kind: CameraKind)
    ensures
        kind_of(kind_text(kind)) == kind,
{
    reveal_strlit("wolfBox");
    reveal_strlit("thinkware");
    reveal_strlit("miltona");
    reveal_strlit("seventyMai");
    reveal_strlit("generic");
    assert("wolfBox"@.len() == 7);
    assert("thinkware"@.len() == 9);
    assert("miltona"@.len() == 7 && "miltona"@[0] == 'm' && "wolfBox"@[0] == 'w');
    assert("seventyMai"@.len() == 10);
    assert("generic"@.len() == 7 && "generic"@[0] == 'g');
}

// ------------------------------------------------------------------ upserts

/// The row of a trip that a scan saw.
pub open spec fn trip_row_of(t: crate::model::TripView, now_ms: i64) -> TripView {
    TripView {
        id: crate::ids::hyphenated(t.id),
        start_time_ms: t.start_time.millis_spec() as i64,
        end_time_ms: t.end_time.millis_spec() as i64,
        camera_kind: kind_text(t.camera_kind),
        gps_supported: t.gps_supported,
        last_seen_ms: now_ms,
    }
}

/// The trips with one inserted, or replaced where there is one with its
/// identifier.
pub open spec fn with_trip_row(rows: Seq<TripView>, r: TripView) -> Seq<TripView> {
    let i = crate::db::table::first_index(rows, |t: TripView| t.id == r.id, 0);
    if i < rows.len() {
        rows.update(i, r)
    } else {
        rows.push(r)
    }
}

/// Inserts a trip, or replaces the row that it has.
pub fn upsert_trip(rows: &mut Vec<TripRow>, trip: &Trip, now_ms: i64)
    ensures
        crate::db::rows::trip_rows(final(rows)@) == with_trip_row(
            crate::db::rows::trip_rows(old(rows)@),
            trip_row_of(trip@, now_ms),
        ),
{
    let row = TripRow {
        id: id_text(trip.id),
        start_time_ms: trip.start_time.millis(),
        end_time_ms: trip.end_time.millis(),
        camera_kind: owned(camera_kind_to_str(trip.camera_kind)),
        gps_supported: trip.gps_supported,
        last_seen_ms: now_ms,
    };
    let ghost rv = row@;
    let ghost views = crate::db::rows::trip_rows(rows@);
    let ghost p = |t: TripView| t.id == rv.id;
    proof {
        assert(rv == trip_row_of(trip@, now_ms));
    }
    let mut i: usize = 0;
    while i < rows.len() && rows[i].id != row.id
        invariant
            i <= rows.len(),
            *rows == *old(rows),
            views == crate::db::rows::trip_rows(rows@),
            rv == row@,
            p == (|t: TripView| t.id == rv.id),
            crate::db::table::first_index(views, p, 0) == crate::db::table::first_index(
                views,
                p,
                i as int,
            ),
        decreases rows.len() - i,
    {
        proof {
            assert(views[i as int] == rows@[i as int]@);
        }
        i += 1;
    }
    if i < rows.len() {
        proof {
            assert(views[i as int] == rows@[i as int]@);
        }
        rows.set(i, row);
        proof {
            assert(crate::db::rows::trip_rows(rows@) == views.update(i as int, rv));
        }
    } else {
        rows.push(row);
        proof {
            assert(crate::db::rows::trip_rows(rows@) == views.push(rv));
        }
    }
}

/// A path with what it is called without symbolic links.
#[derive(Debug)]
pub struct PathEntry {
    pub path: String,
    pub canonical: String,
}

/// What a path is called without symbolic links, where that is known.
pub open spec fn canonical_of(known: Seq<PathEntry>, path: Seq<char>) -> Option<Seq<char>> {
    let i = crate::db::table::first_index(known, |e: PathEntry| e.path@ == path, 0);
    if i < known.len() {
        Some(known[i].canonical@)
    } else {
        None
    }
}

/// Every known path starts at the root of the file system.
pub open spec fn are_absolute(known: Seq<PathEntry>) -> bool {
    forall|i: int|
        0 <= i < known.len() ==> crate::paths::is_absolute((#[trigger] known[i]).canonical@)
}

fn canonical(known: &Vec<PathEntry>, path: &str) -> (r: Option<String>)
    requires
        are_absolute(known@),
    ensures
        crate::text::opt_view(r) == canonical_of(known@, path@),
        r matches Some(c) ==> crate::paths::is_absolute(c@),
{
    let ghost p = |e: PathEntry| e.path@ == path@;
    let mut i: usize = 0;
    while i < known.len()
        invariant
            i <= known.len(),
            are_absolute(known@),
            p == (|e: PathEntry| e.path@ == path@),
            crate::db::table::first_index(known@, p, 0) == crate::db::table::first_index(
                known@,
                p,
                i as int,
            ),
        decreases known.len() - i,
    {
        if same_str(known[i].path.as_str(), path) {
            return Some(known[i].canonical.clone());
        }
        i += 1;
    }
    None
}

/// The main file of a segment: that of its first channel.
pub open spec fn master_of(s: crate::model::SegmentView) -> Seq<char> {
    if s.channels.len() > 0 {
        s.channels[0].file_path
    } else {
        Seq::empty()
    }
}

/// The row of a segment that a scan saw.
pub open spec fn segment_row_of(
    s: crate::model::SegmentView,
    trip_id: Seq<char>,
    now_ms: i64,
    known: Seq<PathEntry>,
    root: Seq<char>,
) -> SegmentView {
    SegmentView {
        id: crate::ids::hyphenated(s.id),
        trip_id,
        start_time_ms: s.start_time.millis_spec() as i64,
        duration_ms: s.duration_ms,
        master_path: crate::paths::storage_form(
            master_of(s),
            canonical_of(known, master_of(s)),
            root,
        ),
        is_event: s.is_event,
        camera_kind: kind_text(s.camera_kind),
        gps_supported: s.gps_supported,
        last_seen_ms: now_ms,
        size_bytes: match s.size_bytes {
            Some(n) => Some(n as i64),
            None => None,
        },
        is_tombstone: false,
    }
}

/// The segments with one inserted, or replaced where there is one with its
/// identifier. A size that was known is kept where the new row has none.
pub open spec fn with_segment_row(rows: Seq<SegmentView>, r: SegmentView) -> Seq<SegmentView> {
    let i = crate::db::table::first_index(rows, |s: SegmentView| s.id == r.id, 0);
    if i < rows.len() {
        rows.update(
            i,
            SegmentView {
                size_bytes: match r.size_bytes {
                    Some(n) => Some(n),
                    None => rows[i].size_bytes,
                },
                ..r
            },
        )
    } else {
        rows.push(r)
    }
}

/// Inserts a segment, or replaces the row that it has. A tombstone whose files
/// are back is none any more.
pub fn upsert_segment(
    rows: &mut Vec<SegmentRow>,
    seg: &Segment,
    trip_id: &str,
    now_ms: i64,
    known: &Vec<PathEntry>,
    archive_root: &str,
)
    requires
        are_absolute(known@),
    ensures
        crate::db::rows::segment_rows(final(rows)@) == with_segment_row(
            crate::db::rows::segment_rows(old(rows)@),
            segment_row_of(seg@, trip_id@, now_ms, known@, archive_root@),
        ),
{
    let absolute = if seg.channels.len() > 0 {
        seg.channels[0].file_path.clone()
    } else {
        String::new()
    };
    proof {
        if seg.channels.len() > 0 {
            assert(seg@.channels[0] == seg.channels@[0]@);
        }
        assert(absolute@ == master_of(seg@));
    }
    let found = canonical(known, absolute.as_str());
    let master_path = relativize_for_storage(absolute.as_str(), &found, archive_root);
    let size: Option<i64> = match seg.size_bytes {
        Some(n) => Some(n as i64),
        None => None,
    };
    let mut row = SegmentRow {
        id: id_text(seg.id),
        trip_id: owned(trip_id),
        start_time_ms: seg.start_time.millis(),
        duration_ms: seg.duration_ms,
        master_path,
        is_event: seg.is_event,
        camera_kind: owned(camera_kind_to_str(seg.camera_kind)),
        gps_supported: seg.gps_supported,
        last_seen_ms: now_ms,
        size_bytes: size,
        is_tombstone: false,
    };
    let ghost rv = row@;
    let ghost views = crate::db::rows::segment_rows(rows@);
    let ghost p = |s: SegmentView| s.id == rv.id;
    proof {
        assert(rv == segment_row_of(seg@, trip_id@, now_ms, known@, archive_root@));
    }
    let mut i: usize = 0;
    while i < rows.len() && rows[i].id != row.id
        invariant
            i <= rows.len(),
            *rows == *old(rows),
            views == crate::db::rows::segment_rows(rows@),
            rv == row@,
            p == (|s: SegmentView| s.id == rv.id),
            crate::db::table::first_index(views, p, 0) == crate::db::table::first_index(
                views,
                p,
                i as int,
            ),
        decreases rows.len() - i,
    {
        proof {
            assert(views[i as int] == rows@[i as int]@);
        }
        i += 1;
    }
    if i < rows.len() {
        proof {
            assert(views[i as int] == rows@[i as int]@);
        }
        if row.size_bytes.is_none() {
            row.size_bytes = rows[i].size_bytes;
        }
        let ghost wanted = row@;
        rows.set(i, row);
        proof {
            assert(crate::db::rows::segment_rows(rows@) == views.update(i as int, wanted));
        }
    } else {
        rows.push(row);
        proof {
            assert(crate::db::rows::segment_rows(rows@) == views.push(rv));
        }
    }
}

/// The segments of a trip inserted or replaced one after the other.
pub open spec fn with_segments(
    rows: Seq<SegmentView>,
    s: Seq<crate::model::SegmentView>,
    trip_id: Seq<char>,
    now_ms: i64,
    known: Seq<PathEntry>,
    root: Seq<char>,
) -> Seq<SegmentView>
    decreases s.len(),
{
    if s.len() == 0 {
        rows
    } else {
        with_segment_row(
            with_segments(rows, s.drop_last(), trip_id, now_ms, known, root),
            segment_row_of(s.last(), trip_id, now_ms, known, root),
        )
    }
}

/// The tables with the trips of a scan and their segments put in.
pub open spec fn with_trips(
    lib: LibraryView,
    trips: Seq<crate::model::TripView>,
    now_ms: i64,
    known: Seq<PathEntry>,
    root: Seq<char>,
) -> LibraryView
    decreases trips.len(),
{
    if trips.len() == 0 {
        lib
    } else {
        let before = with_trips(lib, trips.drop_last(), now_ms, known, root);
        let t = trips.last();
        LibraryView {
            trips: with_trip_row(before.trips, trip_row_of(t, now_ms)),
            segments: with_segments(
                before.segments,
                t.segments,
                crate::ids::hyphenated(t.id),
                now_ms,
                known,
                root,
            ),
            ..before
        }
    }
}

fn put_trips(
    lib: Library,
    trips: &Vec<Trip>,
    now_ms: i64,
    known: &Vec<PathEntry>,
    archive_root: &str,
) -> (r: Library)
    requires
        are_absolute(known@),
    ensures
        r@ == with_trips(
            lib@,
            crate::model::trip_views(trips@),
            now_ms,
            known@,
            archive_root@,
        ),
{
    let ghost all = crate::model::trip_views(trips@);
    let ghost lib0 = lib@;
    let mut lib = lib;
    let mut i: usize = 0;
    proof {
        assert(all.take(0).len() == 0);
    }
    while i < trips.len()
        invariant
            i <= trips.len(),
            are_absolute(known@),
            all == crate::model::trip_views(trips@),
            lib@ == with_trips(lib0, all.take(i as int), now_ms, known@, archive_root@),
        decreases trips.len() - i,
    {
        let t = &trips[i];
        let ghost before = lib@;
        proof {
            assert(all[i as int] == t@);
            assert(all.take(i + 1).drop_last() == all.take(i as int));
            assert(all.take(i + 1).last() == t@);
        }
        let mut trip_table = lib.trips;
        upsert_trip(&mut trip_table, t, now_ms);
        let mut segment_table = lib.segments;
        let trip_id = id_text(t.id);
        let ghost segs = t@.segments;
        let ghost rows0 = crate::db::rows::segment_rows(segment_table@);
        let mut j: usize = 0;
        proof {
            assert(segs.take(0).len() == 0);
        }
        while j < t.segments.len()
            invariant
                j <= t.segments.len(),
                are_absolute(known@),
                segs == crate::model::segment_views(t.segments@),
                crate::db::rows::segment_rows(segment_table@) == with_segments(
                    rows0,
                    segs.take(j as int),
                    trip_id@,
                    now_ms,
                    known@,
                    archive_root@,
                ),
            decreases t.segments.len() - j,
        {
            proof {
                assert(segs[j as int] == t.segments@[j as int]@);
                assert(segs.take(j + 1).drop_last() == segs.take(j as int));
                assert(segs.take(j + 1).last() == segs[j as int]);
            }
            upsert_segment(
                &mut segment_table,
                &t.segments[j],
                trip_id.as_str(),
                now_ms,
                known,
                archive_root,
            );
            j += 1;
        }
        proof {
            assert(segs.take(segs.len() as int) == segs);
        }
        lib = Library {
            trips: trip_table,
            segments: segment_table,
            tags: lib.tags,
            scan_runs: lib.scan_runs,
            jobs: lib.jobs,
        };
        i += 1;
    }
    proof {
        assert(all.take(all.len() as int) == all);
    }
    lib
}

// -------------------------------------------------------- garbage collection

/// A segment whose files the scan that started then did not see. Tombstones
/// have no files to see.
pub open spec fn is_stale(s: SegmentView, scan_started_ms: i64) -> bool {
    s.last_seen_ms < scan_started_ms && !s.is_tombstone
}

/// Some timelapse belongs to the trip.
pub open spec fn has_job(jobs: Seq<JobView>, trip_id: Seq<char>) -> bool {
    exists|i: int| 0 <= i < jobs.len() && (#[trigger] jobs[i]).trip_id == trip_id
}

/// A trip that the scan that started then did not see and that has no
/// timelapse.
pub open spec fn is_dead(t: TripView, jobs: Seq<JobView>, scan_started_ms: i64) -> bool {
    t.last_seen_ms < scan_started_ms && !has_job(jobs, t.id)
}

/// The segment with this identifier is stale.
pub open spec fn is_stale_id(
    segments: Seq<SegmentView>,
    scan_started_ms: i64,
    id: Seq<char>,
) -> bool {
    exists|i: int|
        0 <= i < segments.len() && (#[trigger] segments[i]).id == id && is_stale(
            segments[i],
            scan_started_ms,
        )
}

/// The trip with this identifier is dead.
pub open spec fn is_dead_id(
    trips: Seq<TripView>,
    jobs: Seq<JobView>,
    scan_started_ms: i64,
    id: Seq<char>,
) -> bool {
    exists|i: int|
        0 <= i < trips.len() && (#[trigger] trips[i]).id == id && is_dead(
            trips[i],
            jobs,
            scan_started_ms,
        )
}

/// The tag is on a stale segment or a dead trip.
pub open spec fn tag_goes(lib: LibraryView, scan_started_ms: i64, t: TagView) -> bool {
    ||| t.segment_id matches Some(id) && is_stale_id(lib.segments, scan_started_ms, id)
    ||| t.trip_id matches Some(id) && is_dead_id(lib.trips, lib.jobs, scan_started_ms, id)
}

/// The tables after everything was removed that the last scan did not see.
pub open spec fn collected(lib: LibraryView, scan_started_ms: i64) -> LibraryView {
    LibraryView {
        trips: lib.trips.filter(|t: TripView| !is_dead(t, lib.jobs, scan_started_ms)),
        segments: lib.segments.filter(|s: SegmentView| !is_stale(s, scan_started_ms)),
        tags: lib.tags.filter(|t: TagView| !tag_goes(lib, scan_started_ms, t)),
        scan_runs: lib.scan_runs.filter(
            |r: ScanRunView| !is_stale_id(lib.segments, scan_started_ms, r.segment_id),
        ),
        jobs: lib.jobs,
    }
}

fn trip_has_job(jobs: &Vec<crate::db::rows::JobRow>, trip_id: &String) -> (r: bool)
    ensures
        r == has_job(crate::db::rows::job_rows(jobs@), trip_id@),
{
    let ghost views = crate::db::rows::job_rows(jobs@);
    let mut i: usize = 0;
    while i < jobs.len()
        invariant
            i <= jobs.len(),
            views == crate::db::rows::job_rows(jobs@),
            forall|j: int| 0 <= j < i ==> (#[trigger] views[j]).trip_id != trip_id@,
        decreases jobs.len() - i,
    {
        proof {
            assert(views[i as int] == jobs@[i as int]@);
        }
        if jobs[i].trip_id == *trip_id {
            return true;
        }
        i += 1;
    }
    false
}

fn segment_is_stale(segments: &Vec<SegmentRow>, scan_started_ms: i64, id: &String) -> (r: bool)
    ensures
        r == is_stale_id(crate::db::rows::segment_rows(segments@), scan_started_ms, id@),
{
    let ghost views = crate::db::rows::segment_rows(segments@);
    let mut i: usize = 0;
    while i < segments.len()
        invariant
            i <= segments.len(),
            views == crate::db::rows::segment_rows(segments@),
            forall|j: int|
                0 <= j < i ==> !((#[trigger] views[j]).id == id@ && is_stale(
                    views[j],
                    scan_started_ms,
                )),
        decreases segments.len() - i,
    {
        proof {
            assert(views[i as int] == segments@[i as int]@);
        }
        if segments[i].id == *id && segments[i].last_seen_ms < scan_started_ms
            && !segments[i].is_tombstone {
            return true;
        }
        i += 1;
    }
    false
}

fn trip_is_dead(
    trips: &Vec<TripRow>,
    jobs: &Vec<crate::db::rows::JobRow>,
    scan_started_ms: i64,
    id: &String,
) -> (r: bool)
    ensures
        r == is_dead_id(
            crate::db::rows::trip_rows(trips@),
            crate::db::rows::job_rows(jobs@),
            scan_started_ms,
            id@,
        ),
{
    let ghost views = crate::db::rows::trip_rows(trips@);
    let ghost jv = crate::db::rows::job_rows(jobs@);
    let mut i: usize = 0;
    while i < trips.len()
        invariant
            i <= trips.len(),
            views == crate::db::rows::trip_rows(trips@),
            jv == crate::db::rows::job_rows(jobs@),
            forall|j: int|
                0 <= j < i ==> !((#[trigger] views[j]).id == id@ && is_dead(
                    views[j],
                    jv,
                    scan_started_ms,
                )),
        decreases trips.len() - i,
    {
        proof {
            assert(views[i as int] == trips@[i as int]@);
        }
        if trips[i].id == *id && trips[i].last_seen_ms < scan_started_ms && !trip_has_job(
            jobs,
            &trips[i].id,
        ) {
            return true;
        }
        i += 1;
    }
    false
}

/// Removes everything that the last scan did not see: stale segments, dead
/// trips, and the tags and scan results that hang on them.
pub fn collect_garbage(lib: Library, scan_started_ms: i64) -> (r: Library)
    ensures
        r@ == collected(lib@, scan_started_ms),
{
    let ghost lv = lib@;
    // Tags.
    let ghost keep_tag = |t: TagRow| !tag_goes(lv, scan_started_ms, t@);
    let mut marks: Vec<bool> = Vec::new();
    let mut i: usize = 0;
    while i < lib.tags.len()
        invariant
            lv == lib@,
            keep_tag == (|t: TagRow| !tag_goes(lv, scan_started_ms, t@)),
            i <= lib.tags.len(),
            marks.len() == i,
            forall|j: int| 0 <= j < i ==> #[trigger] marks@[j] == keep_tag(lib.tags@[j]),
        decreases lib.tags.len() - i,
    {
        let on_segment = match &lib.tags[i].segment_id {
            Some(id) => segment_is_stale(&lib.segments, scan_started_ms, id),
            None => false,
        };
        let on_trip = match &lib.tags[i].trip_id {
            Some(id) => trip_is_dead(&lib.trips, &lib.jobs, scan_started_ms, id),
            None => false,
        };
        marks.push(!(on_segment || on_trip));
        i += 1;
    }
    let ghost tags0 = lib.tags@;
    let tags = retain_marked(lib.tags, marks, Ghost(keep_tag));
    proof {
        let f = |t: TagRow| t@;
        let q = |t: TagView| !tag_goes(lv, scan_started_ms, t);
        crate::db::table::filter_commutes_with_map(tags0, keep_tag, f, q);
        assert(crate::db::rows::tag_rows(tags0) == tags0.map_values(f));
        assert(crate::db::rows::tag_rows(tags@) == tags@.map_values(f));
    }
    // Scan results.
    let ghost keep_run = |r: ScanRunRow| !is_stale_id(lv.segments, scan_started_ms, r.segment_id@);
    let mut marks: Vec<bool> = Vec::new();
    let mut i: usize = 0;
    while i < lib.scan_runs.len()
        invariant
            lv.segments == crate::db::rows::segment_rows(lib.segments@),
            keep_run == (|r: ScanRunRow|
                !is_stale_id(lv.segments, scan_started_ms, r.segment_id@)),
            i <= lib.scan_runs.len(),
            marks.len() == i,
            forall|j: int| 0 <= j < i ==> #[trigger] marks@[j] == keep_run(lib.scan_runs@[j]),
        decreases lib.scan_runs.len() - i,
    {
        marks.push(
            !segment_is_stale(&lib.segments, scan_started_ms, &lib.scan_runs[i].segment_id),
        );
        i += 1;
    }
    let ghost runs0 = lib.scan_runs@;
    let scan_runs = retain_marked(lib.scan_runs, marks, Ghost(keep_run));
    proof {
        let f = |r: ScanRunRow| r@;
        let q = |r: ScanRunView| !is_stale_id(lv.segments, scan_started_ms, r.segment_id);
        crate::db::table::filter_commutes_with_map(runs0, keep_run, f, q);
        assert(crate::db::rows::scan_run_rows(runs0) == runs0.map_values(f));
        assert(crate::db::rows::scan_run_rows(scan_runs@) == scan_runs@.map_values(f));
    }
    // Trips.
    let ghost keep_trip = |t: TripRow| !is_dead(t@, lv.jobs, scan_started_ms);
    let mut marks: Vec<bool> = Vec::new();
    let mut i: usize = 0;
    while i < lib.trips.len()
        invariant
            lv.jobs == crate::db::rows::job_rows(lib.jobs@),
            keep_trip == (|t: TripRow| !is_dead(t@, lv.jobs, scan_started_ms)),
            i <= lib.trips.len(),
            marks.len() == i,
            forall|j: int| 0 <= j < i ==> #[trigger] marks@[j] == keep_trip(lib.trips@[j]),
        decreases lib.trips.len() - i,
    {
        let dead = lib.trips[i].last_seen_ms < scan_started_ms && !trip_has_job(
            &lib.jobs,
            &lib.trips[i].id,
        );
        marks.push(!dead);
        i += 1;
    }
    let ghost trips0 = lib.trips@;
    let trips = retain_marked(lib.trips, marks, Ghost(keep_trip));
    proof {
        let f = |t: TripRow| t@;
        let q = |t: TripView| !is_dead(t, lv.jobs, scan_started_ms);
        crate::db::table::filter_commutes_with_map(trips0, keep_trip, f, q);
        assert(crate::db::rows::trip_rows(trips0) == trips0.map_values(f));
        assert(crate::db::rows::trip_rows(trips@) == trips@.map_values(f));
    }
    // Segments.
    let ghost keep_seg = |s: SegmentRow| !is_stale(s@, scan_started_ms);
    let mut marks: Vec<bool> = Vec::new();
    let mut i: usize = 0;
    while i < lib.segments.len()
        invariant
            keep_seg == (|s: SegmentRow| !is_stale(s@, scan_started_ms)),
            i <= lib.segments.len(),
            marks.len() == i,
            forall|j: int| 0 <= j < i ==> #[trigger] marks@[j] == keep_seg(lib.segments@[j]),
        decreases lib.segments.len() - i,
    {
        marks.push(
            !(lib.segments[i].last_seen_ms < scan_started_ms && !lib.segments[i].is_tombstone),
        );
        i += 1;
    }
    let ghost segs0 = lib.segments@;
    let segments = retain_marked(lib.segments, marks, Ghost(keep_seg));
    proof {
        let f = |s: SegmentRow| s@;
        let q = |s: SegmentView| !is_stale(s, scan_started_ms);
        crate::db::table::filter_commutes_with_map(segs0, keep_seg, f, q);
        assert(crate::db::rows::segment_rows(segs0) == segs0.map_values(f));
        assert(crate::db::rows::segment_rows(segments@) == segments@.map_values(f));
    }
    Library { trips, segments, tags, scan_runs, jobs: lib.jobs }
}

/// Writes the trips of a scan into the tables, folded as the user joined them,
/// and removes what the scan did not see.
pub fn persist_and_gc(
    lib: Library,
    trips: Vec<Trip>,
    merges: &MergeTable,
    scan_started_ms: i64,
    known: &Vec<PathEntry>,
    archive_root: &str,
) -> (r: (Library, Vec<Trip>))
    requires
        crate::db::manual_trip_merges::has_unique_absorbed(merges.rows@),
        are_absolute(known@),
    ensures
        crate::model::trip_views(r.1@) == crate::db::trip_merging::merged_trips(
            crate::model::trip_views(trips@),
            merges.rows@,
        ),
        r.0@ == collected(
            with_trips(
                lib@,
                crate::model::trip_views(r.1@),
                scan_started_ms,
                known@,
                archive_root@,
            ),
            scan_started_ms,
        ),
{
    let coalesced = apply_merges_to_trips(trips, merges);
    let lib = put_trips(lib, &coalesced, scan_started_ms, known, archive_root);
    (collect_garbage(lib, scan_started_ms), coalesced)
}

// -------------------------------------------------------------------- laws

/// A trip with a timelapse survives every collection, and so does a tombstone.
pub proof fn archives_survive_collection(lib: LibraryView, scan_started_ms: i64)
    ensures
        forall|i: int|
            0 <= i < lib.trips.len() && has_job(lib.jobs, (#[trigger] lib.trips[i]).id)
                ==> collected(lib, scan_started_ms).trips.contains(lib.trips[i]),
        forall|i: int|
            0 <= i < lib.segments.len() && (#[trigger] lib.segments[i]).is_tombstone ==> collected(
                lib,
                scan_started_ms,
            ).segments.contains(lib.segments[i]),
        collected(lib, scan_started_ms).jobs == lib.jobs,
{
    let keep_trip = |t: TripView| !is_dead(t, lib.jobs, scan_started_ms);
    let keep_seg = |s: SegmentView| !is_stale(s, scan_started_ms);
    assert forall|i: int|
        0 <= i < lib.trips.len() && has_job(
            lib.jobs,
            (#[trigger] lib.trips[i]).id,
        ) implies collected(lib, scan_started_ms).trips.contains(lib.trips[i]) by {
        lib.trips.lemma_filter_contains(keep_trip, i);
    }
    assert forall|i: int|
        0 <= i < lib.segments.len() && (
        #[trigger] lib.segments[i]).is_tombstone implies collected(
        lib,
        scan_started_ms,
    ).segments.contains(lib.segments[i]) by {
        lib.segments.lemma_filter_contains(keep_seg, i);
    }
}

/// What the scan saw is never collected.
pub proof fn seen_rows_survive_collection(lib: LibraryView, scan_started_ms: i64)
    ensures
        forall|i: int|
            0 <= i < lib.trips.len() && (#[trigger] lib.trips[i]).last_seen_ms >= scan_started_ms
                ==> collected(lib, scan_started_ms).trips.contains(lib.trips[i]),
        forall|i: int|
            0 <= i < lib.segments.len() && (#[trigger] lib.segments[i]).last_seen_ms
                >= scan_started_ms ==> collected(lib, scan_started_ms).segments.contains(
                lib.segments[i],
            ),
{
    let keep_trip = |t: TripView| !is_dead(t, lib.jobs, scan_started_ms);
    let keep_seg = |s: SegmentView| !is_stale(s, scan_started_ms);
    assert forall|i: int|
        0 <= i < lib.trips.len() && (#[trigger] lib.trips[i]).last_seen_ms
            >= scan_started_ms implies collected(lib, scan_started_ms).trips.contains(
        lib.trips[i],
    ) by {
        lib.trips.lemma_filter_contains(keep_trip, i);
    }
    assert forall|i: int|
        0 <= i < lib.segments.len() && (#[trigger] lib.segments[i]).last_seen_ms
            >= scan_started_ms implies collected(lib, scan_started_ms).segments.contains(
        lib.segments[i],
    ) by {
        lib.segments.lemma_filter_contains(keep_seg, i);
    }
}

/// After a collection nothing stale and nothing dead is left.
pub proof fn collection_is_complete(lib: LibraryView, scan_started_ms: i64)
    ensures
        forall|i: int|
            0 <= i < collected(lib, scan_started_ms).segments.len() ==> !is_stale(
                #[trigger] collected(lib, scan_started_ms).segments[i],
                scan_started_ms,
            ),
        forall|i: int|
            0 <= i < collected(lib, scan_started_ms).trips.len() ==> !is_dead(
                #[trigger] collected(lib, scan_started_ms).trips[i],
                lib.jobs,
                scan_started_ms,
            ),
{
    let keep_trip = |t: TripView| !is_dead(t, lib.jobs, scan_started_ms);
    let keep_seg = |s: SegmentView| !is_stale(s, scan_started_ms);
    assert forall|i: int| 0 <= i < lib.segments.filter(keep_seg).len() implies !is_stale(
        #[trigger] lib.segments.filter(keep_seg)[i],
        scan_started_ms,
    ) by {
        lib.segments.lemma_filter_pred(keep_seg, i);
    }
    assert forall|i: int| 0 <= i < lib.trips.filter(keep_trip).len() implies !is_dead(
        #[trigger] lib.trips.filter(keep_trip)[i],
        lib.jobs,
        scan_started_ms,
    ) by {
        lib.trips.lemma_filter_pred(keep_trip, i);
    }
}

/// A row put in twice stands in the table once: putting in a trip that has a
/// row adds none.
pub proof fn upserting_a_known_trip_adds_no_row(rows: Seq<TripView>, r: TripView, again: TripView)
    requires
        again.id == r.id,
    ensures
        with_trip_row(with_trip_row(rows, r), again).len() == with_trip_row(rows, r).len(),
{
    let once = with_trip_row(rows, r);
    crate::db::table::lemma_first_index(rows, |t: TripView| t.id == r.id, 0);
    let i = crate::db::table::first_index(rows, |t: TripView| t.id == r.id, 0);
    assert(once[i] == r);
    let p = |t: TripView| t.id == again.id;
    crate::db::table::lemma_first_index(once, p, 0);
    if crate::db::table::first_index(once, p, 0) >= once.len() {
        assert(p(once[i]));
    }
}

/// Putting in a segment that has a row adds none. A size that was known is kept
/// where the new row has none, and the row is a tombstone no more.
pub proof fn upserting_a_known_segment_keeps_its_size(
    rows: Seq<SegmentView>,
    s: crate::model::SegmentView,
    trip_id: Seq<char>,
    now_ms: i64,
    known: Seq<PathEntry>,
    root: Seq<char>,
    i: int,
)
    requires
        0 <= i < rows.len(),
        rows[i].id == crate::ids::hyphenated(s.id),
        forall|j: int| 0 <= j < i ==> (#[trigger] rows[j]).id != rows[i].id,
        s.size_bytes is None,
    ensures
        ({
            let after = with_segment_row(rows, segment_row_of(s, trip_id, now_ms, known, root));
            &&& after.len() == rows.len()
            &&& after[i].size_bytes == rows[i].size_bytes
            &&& !after[i].is_tombstone
        }),
{
    let r = segment_row_of(s, trip_id, now_ms, known, root);
    let p = |x: SegmentView| x.id == r.id;
    crate::db::table::lemma_first_index(rows, p, 0);
    let k = crate::db::table::first_index(rows, p, 0);
    assert(p(rows[i]));
    if k < i {
        assert(p(rows[k]));
    }
}

} // verus!
