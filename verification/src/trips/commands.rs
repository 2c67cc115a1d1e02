//! Deleting a trip.

use crate::db::rows::{
    JobRow, JobView, Library, LibraryView, ScanRunRow, ScanRunView, SegmentRow, SegmentView,
    TagRow, TagView, TripRow, TripView,
};
use crate::db::table::retain_marked;
use crate::error::AppError;
use crate::paths::from_archive_relative;
use crate::text::{concat2, same_str};
use vstd::prelude::*;

verus! {

// --------------------------------------------------------------------- purging

/// The segment belongs to the trip.
pub open spec fn is_segment_of(
    segments: Seq<SegmentView>,
    trip_id: Seq<char>,
    segment_id: Seq<char>,
) -> bool {
    exists|i: int|
        0 <= i < segments.len() && (#[trigger] segments[i]).id == segment_id && segments[i].trip_id
            == trip_id
}

/// The tag is one of the trip or of one of its segments.
pub open spec fn is_tag_of(segments: Seq<SegmentView>, trip_id: Seq<char>, t: TagView) -> bool {
    t.trip_id == Some(trip_id) || (t.segment_id matches Some(id) && is_segment_of(
        segments,
        trip_id,
        id,
    ))
}

/// The library without the trip and all that belongs to it.
pub open spec fn purged(lib: LibraryView, trip_id: Seq<char>) -> LibraryView {
    LibraryView {
        trips: lib.trips.filter(|t: TripView| t.id != trip_id),
        segments: lib.segments.filter(|s: SegmentView| s.trip_id != trip_id),
        tags: lib.tags.filter(|t: TagView| !is_tag_of(lib.segments, trip_id, t)),
        scan_runs: lib.scan_runs.filter(
            |r: ScanRunView| !is_segment_of(lib.segments, trip_id, r.segment_id),
        ),
        jobs: lib.jobs.filter(|j: JobView| j.trip_id != trip_id),
    }
}

/// What a purge removed.
#[derive(Debug, Clone, Copy, PartialEq, Eq, Structural)]
pub struct PurgeOutcome {
    pub timelapse_jobs_removed: usize,
    pub trip_removed: bool,
}

fn belongs(segments: &Vec<SegmentRow>, trip_id: &str, segment_id: &str) -> (r: bool)
    ensures
        r == is_segment_of(crate::db::rows::segment_rows(segments@), trip_id@, segment_id@),
{
    let ghost sv = crate::db::rows::segment_rows(segments@);
    let mut i: usize = 0;
    while i < segments.len()
        invariant
            i <= segments.len(),
            sv == crate::db::rows::segment_rows(segments@),
            forall|j: int|
                0 <= j < i ==> !((#[trigger] sv[j]).id == segment_id@ && sv[j].trip_id == trip_id@),
        decreases segments.len() - i,
    {
        proof {
            assert(sv[i as int] == segments@[i as int]@);
        }
        if same_str(segments[i].id.as_str(), segment_id) && same_str(
            segments[i].trip_id.as_str(),
            trip_id,
        ) {
            return true;
        }
        i += 1;
    }
    false
}

fn purge_trips(rows: Vec<TripRow>, trip_id: &str) -> (r: Vec<TripRow>)
    ensures
        crate::db::rows::trip_rows(r@) == crate::db::rows::trip_rows(rows@).filter(
            |t: TripView| t.id != trip_id@,
        ),
{
    let ghost keep = |t: TripRow| t.id@ != trip_id@;
    let mut marks: Vec<bool> = Vec::new();
    let mut i: usize = 0;
    while i < rows.len()
        invariant
            i <= rows.len(),
            keep == (|t: TripRow| t.id@ != trip_id@),
            marks.len() == i,
            forall|j: int| 0 <= j < i ==> #[trigger] marks@[j] == keep(rows@[j]),
        decreases rows.len() - i,
    {
        marks.push(!same_str(rows[i].id.as_str(), trip_id));
        i += 1;
    }
    proof {
        let f = |t: TripRow| t@;
        let q = |t: TripView| t.id != trip_id@;
        crate::db::table::filter_commutes_with_map(rows@, keep, f, q);
        assert(crate::db::rows::trip_rows(rows@) == rows@.map_values(f));
        assert(crate::db::rows::trip_rows(rows@.filter(keep)) == rows@.filter(keep).map_values(f));
    }
    retain_marked(rows, marks, Ghost(keep))
}

fn purge_segments(rows: Vec<SegmentRow>, trip_id: &str) -> (r: Vec<SegmentRow>)
    ensures
        crate::db::rows::segment_rows(r@) == crate::db::rows::segment_rows(rows@).filter(
            |s: SegmentView| s.trip_id != trip_id@,
        ),
{
    let ghost keep = |s: SegmentRow| s.trip_id@ != trip_id@;
    let mut marks: Vec<bool> = Vec::new();
    let mut i: usize = 0;
    while i < rows.len()
        invariant
            i <= rows.len(),
            keep == (|s: SegmentRow| s.trip_id@ != trip_id@),
            marks.len() == i,
            forall|j: int| 0 <= j < i ==> #[trigger] marks@[j] == keep(rows@[j]),
        decreases rows.len() - i,
    {
        marks.push(!same_str(rows[i].trip_id.as_str(), trip_id));
        i += 1;
    }
    proof {
        let f = |s: SegmentRow| s@;
        let q = |s: SegmentView| s.trip_id != trip_id@;
        crate::db::table::filter_commutes_with_map(rows@, keep, f, q);
        assert(crate::db::rows::segment_rows(rows@) == rows@.map_values(f));
        assert(crate::db::rows::segment_rows(rows@.filter(keep)) == rows@.filter(keep).map_values(
            f,
        ));
    }
    retain_marked(rows, marks, Ghost(keep))
}

fn purge_jobs(rows: Vec<JobRow>, trip_id: &str) -> (r: Vec<JobRow>)
    ensures
        crate::db::rows::job_rows(r@) == crate::db::rows::job_rows(rows@).filter(
            |j: JobView| j.trip_id != trip_id@,
        ),
        r.len() <= rows.len(),
{
    let ghost keep = |j: JobRow| j.trip_id@ != trip_id@;
    let mut marks: Vec<bool> = Vec::new();
    let mut i: usize = 0;
    while i < rows.len()
        invariant
            i <= rows.len(),
            keep == (|j: JobRow| j.trip_id@ != trip_id@),
            marks.len() == i,
            forall|j: int| 0 <= j < i ==> #[trigger] marks@[j] == keep(rows@[j]),
        decreases rows.len() - i,
    {
        marks.push(!same_str(rows[i].trip_id.as_str(), trip_id));
        i += 1;
    }
    proof {
        let f = |j: JobRow| j@;
        let q = |j: JobView| j.trip_id != trip_id@;
        crate::db::table::filter_commutes_with_map(rows@, keep, f, q);
        assert(crate::db::rows::job_rows(rows@) == rows@.map_values(f));
        assert(crate::db::rows::job_rows(rows@.filter(keep)) == rows@.filter(keep).map_values(f));
        lemma_filter_len(rows@, keep);
    }
    retain_marked(rows, marks, Ghost(keep))
}

proof fn lemma_filter_len<T>(s: Seq<T>, p: spec_fn(T) -> bool)
    ensures
        s.filter(p).len() <= s.len(),
    decreases s.len(),
{
    reveal(Seq::filter);
    if s.len() > 0 {
        lemma_filter_len(s.drop_last(), p);
    }
}

fn purge_tags(rows: Vec<TagRow>, segments: &Vec<SegmentRow>, trip_id: &str) -> (r: Vec<TagRow>)
    ensures
        crate::db::rows::tag_rows(r@) == crate::db::rows::tag_rows(rows@).filter(
            |t: TagView|
                !is_tag_of(crate::db::rows::segment_rows(segments@), trip_id@, t),
        ),
{
    let ghost sv = crate::db::rows::segment_rows(segments@);
    let ghost keep = |t: TagRow| !is_tag_of(sv, trip_id@, t@);
    let mut marks: Vec<bool> = Vec::new();
    let mut i: usize = 0;
    while i < rows.len()
        invariant
            i <= rows.len(),
            sv == crate::db::rows::segment_rows(segments@),
            keep == (|t: TagRow| !is_tag_of(sv, trip_id@, t@)),
            marks.len() == i,
            forall|j: int| 0 <= j < i ==> #[trigger] marks@[j] == keep(rows@[j]),
        decreases rows.len() - i,
    {
        let own = match &rows[i].trip_id {
            Some(t) => same_str(t.as_str(), trip_id),
            None => false,
        };
        let through = match &rows[i].segment_id {
            Some(s) => belongs(segments, trip_id, s.as_str()),
            None => false,
        };
        marks.push(!(own || through));
        i += 1;
    }
    proof {
        let f = |t: TagRow| t@;
        let q = |t: TagView| !is_tag_of(sv, trip_id@, t);
        crate::db::table::filter_commutes_with_map(rows@, keep, f, q);
        assert(crate::db::rows::tag_rows(rows@) == rows@.map_values(f));
        assert(crate::db::rows::tag_rows(rows@.filter(keep)) == rows@.filter(keep).map_values(f));
    }
    retain_marked(rows, marks, Ghost(keep))
}

fn purge_scan_runs(rows: Vec<ScanRunRow>, segments: &Vec<SegmentRow>, trip_id: &str) -> (r: Vec<
    ScanRunRow,
>)
    ensures
        crate::db::rows::scan_run_rows(r@) == crate::db::rows::scan_run_rows(rows@).filter(
            |x: ScanRunView|
                !is_segment_of(crate::db::rows::segment_rows(segments@), trip_id@, x.segment_id),
        ),
{
    let ghost sv = crate::db::rows::segment_rows(segments@);
    let ghost keep = |x: ScanRunRow| !is_segment_of(sv, trip_id@, x.segment_id@);
    let mut marks: Vec<bool> = Vec::new();
    let mut i: usize = 0;
    while i < rows.len()
        invariant
            i <= rows.len(),
            sv == crate::db::rows::segment_rows(segments@),
            keep == (|x: ScanRunRow| !is_segment_of(sv, trip_id@, x.segment_id@)),
            marks.len() == i,
            forall|j: int| 0 <= j < i ==> #[trigger] marks@[j] == keep(rows@[j]),
        decreases rows.len() - i,
    {
        marks.push(!belongs(segments, trip_id, rows[i].segment_id.as_str()));
        i += 1;
    }
    proof {
        let f = |x: ScanRunRow| x@;
        let q = |x: ScanRunView| !is_segment_of(sv, trip_id@, x.segment_id);
        crate::db::table::filter_commutes_with_map(rows@, keep, f, q);
        assert(crate::db::rows::scan_run_rows(rows@) == rows@.map_values(f));
        assert(crate::db::rows::scan_run_rows(rows@.filter(keep)) == rows@.filter(
            keep,
        ).map_values(f));
    }
    retain_marked(rows, marks, Ghost(keep))
}

/// There is a row for the trip.
pub open spec fn has_trip(trips: Seq<TripView>, trip_id: Seq<char>) -> bool {
    exists|i: int| 0 <= i < trips.len() && (#[trigger] trips[i]).id == trip_id
}

/// What is said of a trip that there is no row for.
pub open spec fn unknown_trip_text(trip_id: Seq<char>) -> Seq<char> {
    "no such trip: "@ + trip_id
}

fn knows_trip(trips: &Vec<TripRow>, trip_id: &str) -> (r: bool)
    ensures
        r == has_trip(crate::db::rows::trip_rows(trips@), trip_id@),
{
    let ghost tv = crate::db::rows::trip_rows(trips@);
    let mut i: usize = 0;
    while i < trips.len()
        invariant
            i <= trips.len(),
            tv == crate::db::rows::trip_rows(trips@),
            forall|j: int| 0 <= j < i ==> (#[trigger] tv[j]).id != trip_id@,
        decreases trips.len() - i,
    {
        proof {
            assert(tv[i as int] == trips@[i as int]@);
        }
        if same_str(trips[i].id.as_str(), trip_id) {
            return true;
        }
        i += 1;
    }
    false
}

fn unknown_trip(trip_id: &str) -> (e: AppError)
    ensures
        crate::error::is_internal(e, unknown_trip_text(trip_id@)),
{
    AppError::Internal(concat2("no such trip: ", trip_id))
}

/// Removes a trip and all that belongs to it. A trip without a row is refused,
/// and nothing changes.
pub fn purge_trip_rows(lib: Library, trip_id: &str) -> (r: (
    Library,
    Result<PurgeOutcome, AppError>,
))
    ensures
        match r.1 {
            Ok(o) => has_trip(lib@.trips, trip_id@) && r.0@ == purged(lib@, trip_id@)
                && o.timelapse_jobs_removed == lib@.jobs.len() - purged(lib@, trip_id@).jobs.len()
                && o.trip_removed,
            Err(e) => !has_trip(lib@.trips, trip_id@) && r.0 == lib && crate::error::is_internal(
                e,
                unknown_trip_text(trip_id@),
            ),
        },
{
    if !knows_trip(&lib.trips, trip_id) {
        return (lib, Err(unknown_trip(trip_id)));
    }
    let tags = purge_tags(lib.tags, &lib.segments, trip_id);
    let scan_runs = purge_scan_runs(lib.scan_runs, &lib.segments, trip_id);
    let segments = purge_segments(lib.segments, trip_id);
    let jobs_before: usize = lib.jobs.len();
    let jobs = purge_jobs(lib.jobs, trip_id);
    let trips = purge_trips(lib.trips, trip_id);
    let outcome = PurgeOutcome {
        timelapse_jobs_removed: jobs_before - jobs.len(),
        trip_removed: true,
    };
    (Library { trips, segments, tags, scan_runs, jobs }, Ok(outcome))
}

proof fn lemma_filtered<T>(s: Seq<T>, p: spec_fn(T) -> bool)
    ensures
        forall|x: T| #[trigger] s.filter(p).contains(x) <==> s.contains(x) && p(x),
{
    assert forall|x: T| #[trigger] s.filter(p).contains(x) <==> s.contains(x) && p(x) by {
        if s.filter(p).contains(x) {
            let k = choose|k: int| 0 <= k < s.filter(p).len() && s.filter(p)[k] == x;
            crate::db::table::lemma_filter_subset(s, p, k);
        }
        if s.contains(x) && p(x) {
            let k = choose|k: int| 0 <= k < s.len() && s[k] == x;
            s.lemma_filter_contains(p, k);
        }
    }
}

/// A purge leaves nothing of the trip, and everything of the others: of the
/// rows of the library exactly those are kept that do not belong to the trip.
pub proof fn purging_removes_one_trip(lib: LibraryView, trip_id: Seq<char>)
    ensures
        ({
            let r = purged(lib, trip_id);
            &&& forall|t: TripView|
                #[trigger] r.trips.contains(t) <==> lib.trips.contains(t) && t.id != trip_id
            &&& forall|s: SegmentView|
                #[trigger] r.segments.contains(s) <==> lib.segments.contains(s) && s.trip_id
                    != trip_id
            &&& forall|j: JobView|
                #[trigger] r.jobs.contains(j) <==> lib.jobs.contains(j) && j.trip_id != trip_id
            &&& forall|t: TagView|
                #[trigger] r.tags.contains(t) <==> lib.tags.contains(t) && !is_tag_of(
                    lib.segments,
                    trip_id,
                    t,
                )
            &&& forall|x: ScanRunView|
                #[trigger] r.scan_runs.contains(x) <==> lib.scan_runs.contains(x)
                    && !is_segment_of(lib.segments, trip_id, x.segment_id)
        }),
{
    lemma_filtered(lib.trips, |t: TripView| t.id != trip_id);
    lemma_filtered(lib.segments, |s: SegmentView| s.trip_id != trip_id);
    lemma_filtered(lib.jobs, |j: JobView| j.trip_id != trip_id);
    lemma_filtered(lib.tags, |t: TagView| !is_tag_of(lib.segments, trip_id, t));
    lemma_filtered(
        lib.scan_runs,
        |x: ScanRunView| !is_segment_of(lib.segments, trip_id, x.segment_id),
    );
}

// -------------------------------------------------------------------- deleting

/// The files of a segment as the user interface knows them.
#[derive(Debug)]
pub struct SegmentPaths {
    pub segment_id: String,
    pub paths: Vec<String>,
}

/// The files of a segment, where they are known.
pub open spec fn known_paths(known: Seq<SegmentPaths>, id: Seq<char>) -> Option<Seq<Seq<char>>> {
    let i = crate::db::table::first_index(known, |k: SegmentPaths| k.segment_id@ == id, 0);
    if i < known.len() {
        Some(crate::text::views(known[i].paths@))
    } else {
        None
    }
}

/// The files of a segment: all that are known, else its main file.
pub open spec fn files_of_segment(s: SegmentView, known: Seq<SegmentPaths>, root: Seq<char>) -> Seq<
    Seq<char>,
> {
    match known_paths(known, s.id) {
        Some(p) => p,
        None => seq![crate::paths::path_join(root, s.master_path)],
    }
}

/// The files of the trip's segments among the first `n`.
pub open spec fn segment_files(
    segments: Seq<SegmentView>,
    trip_id: Seq<char>,
    known: Seq<SegmentPaths>,
    root: Seq<char>,
    n: int,
) -> Seq<Seq<char>>
    decreases n,
{
    if n <= 0 {
        Seq::empty()
    } else if segments[n - 1].trip_id == trip_id {
        segment_files(segments, trip_id, known, root, n - 1) + files_of_segment(
            segments[n - 1],
            known,
            root,
        )
    } else {
        segment_files(segments, trip_id, known, root, n - 1)
    }
}

/// The timelapses of the trip.
pub open spec fn timelapse_files(jobs: Seq<JobView>, trip_id: Seq<char>, root: Seq<char>) -> Seq<
    Seq<char>,
> {
    jobs.filter_map(
        |j: JobView|
            if j.trip_id == trip_id {
                match j.output_path {
                    Some(p) => Some(crate::paths::path_join(root, p)),
                    None => None,
                }
            } else {
                None
            },
    )
}

fn find_known(known: &Vec<SegmentPaths>, id: &str) -> (r: Option<usize>)
    ensures
        match r {
            Some(i) => i < known.len() && known_paths(known@, id@) == Some(
                crate::text::views(known@[i as int].paths@),
            ),
            None => known_paths(known@, id@) is None,
        },
{
    let ghost p = |k: SegmentPaths| k.segment_id@ == id@;
    let mut i: usize = 0;
    while i < known.len()
        invariant
            i <= known.len(),
            p == (|k: SegmentPaths| k.segment_id@ == id@),
            crate::db::table::first_index(known@, p, 0) == crate::db::table::first_index(
                known@,
                p,
                i as int,
            ),
        decreases known.len() - i,
    {
        if same_str(known[i].segment_id.as_str(), id) {
            return Some(i);
        }
        i += 1;
    }
    None
}

/// The files that go with a trip: those of its segments, and its timelapses. A
/// trip without a row is refused.
pub fn files_to_trash(
    lib: &Library,
    trip_id: &str,
    in_memory_paths: &Vec<SegmentPaths>,
    archive_root: &str,
) -> (r: Result<(Vec<String>, Vec<String>), AppError>)
    ensures
        match r {
            Ok((segments, timelapses)) => has_trip(lib@.trips, trip_id@) && crate::text::views(
                segments@,
            ) == segment_files(
                lib@.segments,
                trip_id@,
                in_memory_paths@,
                archive_root@,
                lib@.segments.len() as int,
            ) && crate::text::views(timelapses@) == timelapse_files(
                lib@.jobs,
                trip_id@,
                archive_root@,
            ),
            Err(e) => !has_trip(lib@.trips, trip_id@) && crate::error::is_internal(
                e,
                unknown_trip_text(trip_id@),
            ),
        },
{
    if !knows_trip(&lib.trips, trip_id) {
        return Err(unknown_trip(trip_id));
    }
    let ghost sv = lib@.segments;
    let ghost jv = lib@.jobs;
    let mut segment_paths: Vec<String> = Vec::new();
    let mut i: usize = 0;
    proof {
        assert(crate::text::views(segment_paths@) == Seq::<Seq<char>>::empty());
    }
    while i < lib.segments.len()
        invariant
            i <= lib.segments.len(),
            sv == crate::db::rows::segment_rows(lib.segments@),
            crate::text::views(segment_paths@) == segment_files(
                sv,
                trip_id@,
                in_memory_paths@,
                archive_root@,
                i as int,
            ),
        decreases lib.segments.len() - i,
    {
        let s = &lib.segments[i];
        proof {
            assert(sv[i as int] == s@);
        }
        if same_str(s.trip_id.as_str(), trip_id) {
            let ghost start = crate::text::views(segment_paths@);
            match find_known(in_memory_paths, s.id.as_str()) {
                Some(k) => {
                    let paths = &in_memory_paths[k].paths;
                    let ghost more = crate::text::views(paths@);
                    let mut m: usize = 0;
                    proof {
                        assert(start + more.take(0) == start);
                    }
                    while m < paths.len()
                        invariant
                            m <= paths.len(),
                            more == crate::text::views(paths@),
                            crate::text::views(segment_paths@) == start + more.take(m as int),
                        decreases paths.len() - m,
                    {
                        let ghost before = segment_paths@;
                        segment_paths.push(paths[m].clone());
                        proof {
                            assert(crate::text::views(segment_paths@) == crate::text::views(
                                before,
                            ).push(more[m as int]));
                            assert(more.take(m + 1) == more.take(m as int).push(more[m as int]));
                            assert(crate::text::views(segment_paths@) == start + more.take(m + 1));
                        }
                        m += 1;
                    }
                    proof {
                        assert(more.take(more.len() as int) == more);
                    }
                },
                None => {
                    let ghost before = segment_paths@;
                    segment_paths.push(
                        from_archive_relative(s.master_path.as_str(), archive_root),
                    );
                    proof {
                        assert(crate::text::views(segment_paths@) == start
                            + files_of_segment(s@, in_memory_paths@, archive_root@));
                    }
                },
            }
        }
        i += 1;
    }
    let ghost f = |j: JobView|
        if j.trip_id == trip_id@ {
            match j.output_path {
                Some(p) => Some(crate::paths::path_join(archive_root@, p)),
                None => None,
            }
        } else {
            None
        };
    let mut timelapse_paths: Vec<String> = Vec::new();
    let mut i: usize = 0;
    proof {
        reveal(Seq::filter_map);
        assert(jv.take(0).filter_map(f) == Seq::<Seq<char>>::empty());
        assert(crate::text::views(timelapse_paths@) == Seq::<Seq<char>>::empty());
    }
    while i < lib.jobs.len()
        invariant
            i <= lib.jobs.len(),
            jv == crate::db::rows::job_rows(lib.jobs@),
            f == (|j: JobView|
                if j.trip_id == trip_id@ {
                    match j.output_path {
                        Some(p) => Some(crate::paths::path_join(archive_root@, p)),
                        None => None,
                    }
                } else {
                    None
                }),
            crate::text::views(timelapse_paths@) == jv.take(i as int).filter_map(f),
        decreases lib.jobs.len() - i,
    {
        let j = &lib.jobs[i];
        proof {
            reveal(Seq::filter_map);
            assert(jv[i as int] == j@);
            assert(jv.take(i + 1).drop_last() == jv.take(i as int));
            assert(jv.take(i + 1).last() == j@);
        }
        if same_str(j.trip_id.as_str(), trip_id) {
            if let Some(rel) = &j.output_path {
                let path = from_archive_relative(rel.as_str(), archive_root);
                let ghost before = timelapse_paths@;
                let ghost pv = path@;
                timelapse_paths.push(path);
                proof {
                    assert(crate::text::views(timelapse_paths@) == crate::text::views(
                        before,
                    ).push(pv));
                }
            }
        }
        i += 1;
    }
    proof {
        assert(jv.take(jv.len() as int) == jv);
    }
    Ok((segment_paths, timelapse_paths))
}

/// A file that could not be moved to the trash.
#[derive(Debug)]
pub struct DeleteFailure {
    pub path: String,
    pub message: String,
}

/// What became of a file.
#[derive(Debug)]
pub enum TrashOutcome {
    Trashed,
    AlreadyGone,
    Failed(String),
}

/// Failures, with texts as sequences of characters.
pub open spec fn failure_views(v: Seq<DeleteFailure>) -> Seq<(Seq<char>, Seq<char>)> {
    v.map_values(|f: DeleteFailure| (f.path@, f.message@))
}

/// What deleting a trip did.
#[derive(Debug)]
pub struct DeleteTripReport {
    pub segment_files_trashed: usize,
    pub timelapse_files_trashed: usize,
    pub timelapse_jobs_removed: usize,
    pub trip_removed: bool,
    pub failures: Vec<DeleteFailure>,
}

/// The number of files that were moved to the trash.
pub open spec fn trashed(outcomes: Seq<TrashOutcome>) -> int
    decreases outcomes.len(),
{
    if outcomes.len() == 0 {
        0
    } else {
        trashed(outcomes.drop_last()) + if outcomes.last() is Trashed {
            1int
        } else {
            0
        }
    }
}

/// The files that could not be moved to the trash, and why.
pub open spec fn failures(paths: Seq<Seq<char>>, outcomes: Seq<TrashOutcome>) -> Seq<
    (Seq<char>, Seq<char>),
>
    decreases outcomes.len(),
{
    if outcomes.len() == 0 {
        Seq::empty()
    } else {
        let before = failures(paths, outcomes.drop_last());
        match outcomes.last() {
            TrashOutcome::Failed(m) => before.push((paths[outcomes.len() - 1], m@)),
            _ => before,
        }
    }
}

fn note_outcomes(
    paths: &Vec<String>,
    outcomes: Vec<TrashOutcome>,
    report: &mut Vec<DeleteFailure>,
) -> (n: usize)
    requires
        paths.len() == outcomes.len(),
    ensures
        n == trashed(outcomes@),
        failure_views(final(report)@) == failure_views(old(report)@) + failures(
            crate::text::views(paths@),
            outcomes@,
        ),
{
    let ghost all = outcomes@;
    let ghost pv = crate::text::views(paths@);
    let ghost start = failure_views(report@);
    let mut count: usize = 0;
    let mut i: usize = 0;
    proof {
        assert(all.take(0).len() == 0);
        assert(start + failures(pv, all.take(0)) == start);
    }
    for o in it: outcomes
        invariant
            it.seq() == all,
            i == it.index(),
            all.len() == paths.len(),
            pv == crate::text::views(paths@),
            count == trashed(all.take(i as int)),
            count <= i,
            failure_views(report@) == start + failures(pv, all.take(i as int)),
    {
        proof {
            assert(all.take(i + 1).drop_last() == all.take(i as int));
            assert(all.take(i + 1).last() == o);
            assert(pv[i as int] == paths@[i as int]@);
        }
        match o {
            TrashOutcome::Trashed => {
                count += 1;
            },
            TrashOutcome::AlreadyGone => {},
            TrashOutcome::Failed(message) => {
                let ghost before = report@;
                let ghost mv = message@;
                report.push(DeleteFailure { path: paths[i].clone(), message });
                proof {
                    assert(failure_views(report@) == failure_views(before).push(
                        (pv[i as int], mv),
                    ));
                    assert(failure_views(report@) == start + failures(pv, all.take(i + 1)));
                }
            },
        }
        i += 1;
    }
    proof {
        assert(all.take(all.len() as int) == all);
    }
    count
}

/// Deletes a trip, given what became of each of its files: removes all that
/// belongs to it, and reports. A file that was gone already is neither counted
/// nor a failure. A trip without a row is refused, and nothing changes.
pub fn delete_trip(
    lib: Library,
    trip_id: &str,
    segment_paths: &Vec<String>,
    segment_outcomes: Vec<TrashOutcome>,
    timelapse_paths: &Vec<String>,
    timelapse_outcomes: Vec<TrashOutcome>,
) -> (r: (Library, Result<DeleteTripReport, AppError>))
    requires
        segment_paths.len() == segment_outcomes.len(),
        timelapse_paths.len() == timelapse_outcomes.len(),
    ensures
        match r.1 {
            Ok(report) => {
                &&& has_trip(lib@.trips, trip_id@)
                &&& r.0@ == purged(lib@, trip_id@)
                &&& report.trip_removed
                &&& report.segment_files_trashed == trashed(segment_outcomes@)
                &&& report.timelapse_files_trashed == trashed(timelapse_outcomes@)
                &&& report.timelapse_jobs_removed == lib@.jobs.len() - purged(
                    lib@,
                    trip_id@,
                ).jobs.len()
                &&& failure_views(report.failures@) == failures(
                    crate::text::views(segment_paths@),
                    segment_outcomes@,
                ) + failures(crate::text::views(timelapse_paths@), timelapse_outcomes@)
            },
            Err(e) => !has_trip(lib@.trips, trip_id@) && r.0 == lib && crate::error::is_internal(
                e,
                unknown_trip_text(trip_id@),
            ),
        },
{
    let (lib, purge) = purge_trip_rows(lib, trip_id);
    let outcome = match purge {
        Ok(o) => o,
        Err(e) => {
            return (lib, Err(e));
        },
    };
    let mut list: Vec<DeleteFailure> = Vec::new();
    proof {
        assert(failure_views(list@) == Seq::<(Seq<char>, Seq<char>)>::empty());
    }
    let segments: usize = note_outcomes(segment_paths, segment_outcomes, &mut list);
    proof {
        let f = failures(crate::text::views(segment_paths@), segment_outcomes@);
        assert(Seq::<(Seq<char>, Seq<char>)>::empty() + f == f);
    }
    let timelapses: usize = note_outcomes(timelapse_paths, timelapse_outcomes, &mut list);
    let report = DeleteTripReport {
        segment_files_trashed: segments,
        timelapse_files_trashed: timelapses,
        timelapse_jobs_removed: outcome.timelapse_jobs_removed,
        trip_removed: outcome.trip_removed,
        failures: list,
    };
    (lib, Ok(report))
}

} // verus!
