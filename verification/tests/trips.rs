//! Deleting trips, joining them, and how much of them the scans have covered.

use tripviewer::db::manual_trip_merges::MergeTable;
use tripviewer::db::rows::{JobRow, JobStatus, Library, ScanRunRow, SegmentRow, TagRow, TripRow};
use tripviewer::error::AppError;
use tripviewer::ids::id_text;
use tripviewer::scans::coverage::{list_scan_coverage, ScanInfo};
use tripviewer::timelapse::cleanup::GpsRow;
use tripviewer::timelapse::speed_curve::CurveSegment;
use tripviewer::trips::commands::{
    delete_trip, files_to_trash, purge_trip_rows, SegmentPaths, TrashOutcome,
};
use tripviewer::trips::merge::{
    apply_concat_where_possible, apply_timelapse_strategy, assess_timelapse_merge, concat_outputs,
    discard_all, drop_positions, inputs_of, load_job_rows, merge_report, merge_speed_curves,
    merge_trips, plan_concat, splice_result, StrategyAction, TimelapseMergeStrategy, TupleStatus,
};

fn s(text: &str) -> String {
    text.to_string()
}

fn trip(id: &str, start: i64, end: i64) -> TripRow {
    TripRow {
        id: s(id),
        start_time_ms: start,
        end_time_ms: end,
        camera_kind: s("wolfBox"),
        gps_supported: true,
        last_seen_ms: 1000,
    }
}

fn segment(id: &str, trip_id: &str, path: &str, start: i64) -> SegmentRow {
    SegmentRow {
        id: s(id),
        trip_id: s(trip_id),
        start_time_ms: start,
        duration_ms: 60_000,
        master_path: s(path),
        is_event: false,
        camera_kind: s("wolfBox"),
        gps_supported: true,
        last_seen_ms: 1000,
        size_bytes: None,
        is_tombstone: false,
    }
}

fn tag(segment_id: Option<&str>, trip_id: Option<&str>, name: &str) -> TagRow {
    TagRow {
        segment_id: segment_id.map(s),
        trip_id: trip_id.map(s),
        name: s(name),
        category: s("user"),
        source: s("user"),
        created_ms: 1000,
    }
}

fn job(trip_id: &str, tier: &str, path: Option<&str>) -> JobRow {
    JobRow {
        trip_id: s(trip_id),
        tier: s(tier),
        channel: s("F"),
        status: JobStatus::Done,
        output_path: path.map(s),
        error_message: None,
        ffmpeg_version: None,
        encoder_used: None,
        padded_count: None,
        speed_curve_json: None,
        output_size_bytes: None,
        created_at_ms: 1500,
        completed_at_ms: Some(1500),
    }
}

fn scan_run(segment_id: &str, version: u32, status: &str) -> ScanRunRow {
    ScanRunRow {
        segment_id: s(segment_id),
        scan_id: s("motion"),
        version,
        ran_at_ms: 1000,
        status: s(status),
        error_message: if status == "ok" { None } else { Some(s("broken")) },
    }
}

fn seed_trip(lib: &mut Library, trip_id: &str) {
    let seg_id = format!("seg-{trip_id}");
    lib.trips.push(trip(trip_id, 0, 60000));
    lib.segments.push(segment(&seg_id, trip_id, "/v/a.mp4", 0));
    lib.tags.push(tag(None, Some(trip_id), "note"));
    lib.tags.push(tag(Some(&seg_id), None, "keep"));
    lib.scan_runs.push(scan_run(&seg_id, 1, "done"));
    lib.jobs.push(job(trip_id, "8x", Some("/tl/8x_F.mp4")));
}

#[test]
fn purge_trip_rows_removes_everything_for_one_trip() {
    let mut lib = Library::new();
    seed_trip(&mut lib, "trip-A");
    seed_trip(&mut lib, "trip-B");
    let (lib, out) = purge_trip_rows(lib, "trip-A");
    let out = out.unwrap();
    assert!(out.trip_removed);
    assert_eq!(out.timelapse_jobs_removed, 1);
    assert_eq!(lib.trips.iter().filter(|t| t.id == "trip-A").count(), 0);
    assert_eq!(lib.segments.iter().filter(|x| x.trip_id == "trip-A").count(), 0);
    assert_eq!(lib.jobs.iter().filter(|j| j.trip_id == "trip-A").count(), 0);
    assert_eq!(lib.tags.iter().filter(|t| t.trip_id == Some(s("trip-A"))).count(), 0);
    assert_eq!(lib.tags.iter().filter(|t| t.segment_id == Some(s("seg-trip-A"))).count(), 0);
    assert_eq!(lib.scan_runs.iter().filter(|r| r.segment_id == "seg-trip-A").count(), 0);
    assert_eq!(lib.trips.iter().filter(|t| t.id == "trip-B").count(), 1);
    assert_eq!(lib.jobs.iter().filter(|j| j.trip_id == "trip-B").count(), 1);
    assert_eq!(lib.segments.iter().filter(|x| x.trip_id == "trip-B").count(), 1);
}

#[test]
fn purge_trip_rows_handles_archive_only_trip() {
    let mut lib = Library::new();
    lib.trips.push(trip("trip-A", 0, 60000));
    lib.jobs.push(job("trip-A", "8x", Some("/tl/8x_F.mp4")));
    let (lib, out) = purge_trip_rows(lib, "trip-A");
    let out = out.unwrap();
    assert!(out.trip_removed);
    assert_eq!(out.timelapse_jobs_removed, 1);
    assert!(lib.trips.is_empty());
    assert!(lib.jobs.is_empty());
}

#[test]
fn a_deleted_trip_takes_its_files_along() {
    let mut lib = Library::new();
    lib.trips.push(trip("t", 0, 1));
    lib.segments.push(segment("1", "t", "Videos/1.mp4", 0));
    lib.segments.push(segment("2", "t", "Videos/2.mp4", 0));
    lib.jobs.push(job("t", "8x", Some("Timelapses/t_8x_F.mp4")));
    lib.jobs.push(job("t", "16x", None));
    let known = vec![SegmentPaths { segment_id: s("1"), paths: vec![s("/a/F"), s("/a/R")] }];
    let (segments, timelapses) = files_to_trash(&lib, "t", &known, "/a").unwrap();
    assert_eq!(segments, vec!["/a/F", "/a/R", "/a/Videos/2.mp4"]);
    assert_eq!(timelapses, vec!["/a/Timelapses/t_8x_F.mp4"]);
    let (lib, report) = delete_trip(
        lib,
        "t",
        &segments,
        vec![
            TrashOutcome::Trashed,
            TrashOutcome::AlreadyGone,
            TrashOutcome::Failed(s("in use")),
        ],
        &timelapses,
        vec![TrashOutcome::Trashed],
    );
    let report = report.unwrap();
    assert!(report.trip_removed);
    assert!(lib.trips.is_empty() && lib.segments.is_empty() && lib.jobs.is_empty());
    assert_eq!((report.segment_files_trashed, report.timelapse_files_trashed), (1, 1));
    assert_eq!(report.timelapse_jobs_removed, 2);
    assert_eq!(report.failures.len(), 1);
    assert_eq!(report.failures[0].path, "/a/Videos/2.mp4");
    assert_eq!(report.failures[0].message, "in use");
}

#[test]
fn an_unknown_trip_is_not_deleted() {
    let mut lib = Library::new();
    seed_trip(&mut lib, "trip-A");
    assert!(files_to_trash(&lib, "trip-X", &vec![], "/a").is_err());
    let (lib, out) = purge_trip_rows(lib, "trip-X");
    assert!(matches!(out, Err(AppError::Internal(m)) if m == "no such trip: trip-X"));
    let (lib, report) = delete_trip(lib, "trip-X", &vec![], vec![], &vec![], vec![]);
    assert!(report.is_err());
    assert_eq!((lib.trips.len(), lib.segments.len(), lib.jobs.len()), (1, 1, 1));
}

// Coverage

#[test]
fn coverage_returns_rows_for_trips_with_files_on_disk() {
    let mut lib = Library::new();
    lib.trips.push(trip("trip1", 0, 60000));
    lib.segments.push(segment("seg1", "trip1", "Videos/2026_01_01_120000_00_F.MP4", 0));
    let registry = vec![ScanInfo { id: s("motion"), version: 1 }, ScanInfo { id: s("sound"), version: 4 }];
    let present = vec![s("/a/Videos/2026_01_01_120000_00_F.MP4")];
    let rows = list_scan_coverage(&lib, &registry, "/a", &present);
    assert_eq!(rows.len(), 1, "trip1 should appear in coverage output");
    assert_eq!(rows[0].trip_id, "trip1");
    assert_eq!(rows[0].per_scan.len(), 2);
    for c in &rows[0].per_scan {
        assert_eq!(c.total_segments, 1);
        assert_eq!(c.not_run_count, 1);
        assert_eq!(c.done_count, 0);
    }
    assert!(list_scan_coverage(&lib, &registry, "/a", &vec![]).is_empty());
}

#[test]
fn runs_are_done_stale_or_failed() {
    let mut lib = Library::new();
    let mut present = Vec::new();
    for i in 0..4 {
        let path = format!("Videos/{i}.MP4");
        lib.segments.push(segment(&format!("s{i}"), "t", &path, 0));
        present.push(format!("/a/{path}"));
    }
    lib.scan_runs = vec![scan_run("s0", 2, "ok"), scan_run("s1", 1, "ok"), scan_run("s2", 2, "error")];
    let registry = vec![ScanInfo { id: s("motion"), version: 2 }];
    let rows = list_scan_coverage(&lib, &registry, "/a", &present);
    let c = &rows[0].per_scan[0];
    assert_eq!((c.total_segments, c.done_count, c.stale_count), (4, 1, 1));
    assert_eq!((c.failed_count, c.not_run_count), (1, 1));
    assert_eq!(c.sample_failures, vec!["broken"]);
}

#[test]
fn tombstones_count_in_no_coverage() {
    let mut lib = Library::new();
    lib.segments.push(segment("live", "t", "Videos/live.MP4", 0));
    lib.segments.push(segment("gone", "t", "Videos/gone.MP4", 0));
    lib.segments[1].is_tombstone = true;
    lib.scan_runs = vec![scan_run("live", 2, "ok"), scan_run("gone", 2, "ok")];
    let registry = vec![ScanInfo { id: s("motion"), version: 2 }];
    let present = vec![s("/a/Videos/live.MP4"), s("/a/Videos/gone.MP4")];
    let rows = list_scan_coverage(&lib, &registry, "/a", &present);
    let c = &rows[0].per_scan[0];
    assert_eq!((c.total_segments, c.done_count, c.stale_count), (1, 1, 0));
    assert_eq!((c.failed_count, c.not_run_count), (0, 0));
}

// Joining trips

const A: u128 = 0xA;
const B: u128 = 0xB;
const C: u128 = 0xC;

fn two_trips() -> Library {
    let (a, b) = (id_text(A), id_text(B));
    let mut lib = Library::new();
    lib.trips.push(trip(&a, 1_000_000, 1_060_000));
    lib.trips.push(trip(&b, 2_000_000, 2_060_000));
    lib.segments.push(segment("sa", &a, "Videos/a.mp4", 1_000_000));
    lib.segments.push(segment("sb", &b, "Videos/b.mp4", 2_000_000));
    lib.tags.push(tag(None, Some(&b), "note"));
    lib.tags.push(tag(Some("sb"), None, "keep"));
    lib
}

#[test]
fn joined_trips_become_one() {
    let mut lib = two_trips();
    lib.jobs.push(job(&id_text(A), "8x", Some("Timelapses/a.mp4")));
    lib.jobs.push(job(&id_text(B), "8x", Some("Timelapses/b.mp4")));
    lib.jobs.push(job(&id_text(B), "16x", Some("Timelapses/c.mp4")));
    let (lib, merges, r) = merge_trips(lib, MergeTable::new(), A, &vec![B], 7);
    r.unwrap();
    assert_eq!(lib.trips.len(), 1);
    assert_eq!((lib.trips[0].start_time_ms, lib.trips[0].end_time_ms), (1_000_000, 2_060_000));
    assert!(lib.segments.iter().all(|x| x.trip_id == id_text(A)));
    assert_eq!(lib.tags[0].trip_id, Some(id_text(A)));
    assert_eq!(lib.tags[1].trip_id, None);
    assert_eq!(lib.jobs.len(), 2, "the primary trip keeps its own job");
    assert!(lib.jobs.iter().all(|j| j.trip_id == id_text(A)));
    assert_eq!(merges.list_merges(), vec![(B, A)]);
    let report = merge_report(A, &vec![B], vec![], 1);
    assert_eq!(report.absorbed_trip_ids, vec![id_text(B)]);
}

#[test]
fn refused_joins_change_nothing() {
    let (lib, merges, r) = merge_trips(two_trips(), MergeTable::new(), A, &vec![], 7);
    assert_eq!(r.unwrap_err().describe(), "merge_trips called with empty absorbed list");
    assert_eq!((lib.trips.len(), merges.rows.len()), (2, 0));
    let (_, _, r) = merge_trips(two_trips(), MergeTable::new(), A, &vec![B, A], 7);
    assert_eq!(r.unwrap_err().describe(), "primary trip cannot also appear in absorbed list");

    let mut merges = MergeTable::new();
    merges.insert_merge(B, A, 1).unwrap();
    let (lib, merges, r) = merge_trips(two_trips(), merges, A, &vec![B], 7);
    assert!(r.unwrap_err().describe().contains("itself"));
    assert_eq!((lib.trips.len(), merges.rows.len()), (2, 1));
}

#[test]
fn jobs_left_over_are_carried_over_or_refused() {
    let jobs_of = |lib: &Library| -> Vec<(String, String, Option<String>)> {
        let row = |j: &JobRow| (j.trip_id.clone(), j.tier.clone(), j.output_path.clone());
        lib.jobs.iter().map(row).collect()
    };
    let (a, b, c) = (id_text(A), id_text(B), id_text(C));
    let left_over = || {
        let mut lib = two_trips();
        lib.jobs.push(job(&a, "16x", Some("Timelapses/a16.mp4")));
        lib.jobs.push(job(&b, "16x", None));
        lib.jobs.push(job(&b, "8x", None));
        lib.jobs.push(job("other", "8x", None));
        lib
    };
    let (lib, merges, r) = merge_trips(left_over(), MergeTable::new(), A, &vec![B, C], 7);
    assert!(r.is_ok());
    assert_eq!(merges.rows.len(), 2);
    let want = vec![
        (a.clone(), s("16x"), Some(s("Timelapses/a16.mp4"))),
        (a.clone(), s("8x"), None),
        (s("other"), s("8x"), None),
    ];
    assert_eq!(jobs_of(&lib), want);

    let clashing = || {
        let mut lib = left_over();
        lib.jobs.push(job(&c, "8x", None));
        lib
    };
    let (lib, merges, r) = merge_trips(clashing(), MergeTable::new(), A, &vec![B, C], 7);
    assert!(matches!(r, Err(AppError::Db(m)) if m.starts_with("UNIQUE constraint failed")));
    assert_eq!((lib.trips.len(), merges.rows.len()), (2, 0));
    assert_eq!(jobs_of(&lib), jobs_of(&clashing()));
}

#[test]
fn timelapses_are_assessed_before_a_join() {
    let mut lib = two_trips();
    assert!(!assess_timelapse_merge(&lib, A, &vec![B]).has_any_timelapses);
    lib.jobs.push(job(&id_text(A), "8x", Some("Timelapses/a8.mp4")));
    lib.jobs.push(job(&id_text(B), "8x", Some("Timelapses/b8.mp4")));
    lib.jobs.push(job(&id_text(B), "16x", Some("Timelapses/b16.mp4")));
    let a = assess_timelapse_merge(&lib, A, &vec![B]);
    assert!(a.has_any_timelapses);
    assert_eq!(a.camera_kinds, vec!["wolfBox"]);
    let full = a.tuples.iter().find(|t| t.tier == "8x").unwrap();
    assert!(matches!(full.status, TupleStatus::Concatenable));
    assert!(full.primary_has);
    let part = a.tuples.iter().find(|t| t.tier == "16x").unwrap();
    assert!(matches!(part.status, TupleStatus::PartialOutputs));
    assert!(!part.primary_has);
    assert_eq!(part.absorbed_with_output, vec![id_text(B)]);
}

#[test]
fn strategies_need_an_encoder_only_to_concatenate() {
    let concat = || TimelapseMergeStrategy::ConcatWherePossible;
    let ffmpeg = Some(s("/usr/bin/ffmpeg"));
    assert!(matches!(
        apply_timelapse_strategy(false, concat(), &None).unwrap(),
        StrategyAction::Nothing
    ));
    assert!(apply_timelapse_strategy(true, concat(), &None).is_err());
    assert!(matches!(
        apply_timelapse_strategy(true, concat(), &ffmpeg).unwrap(),
        StrategyAction::Concat(_)
    ));
    assert!(matches!(
        apply_timelapse_strategy(true, TimelapseMergeStrategy::DiscardAll, &None).unwrap(),
        StrategyAction::Discard
    ));
}

#[test]
fn timelapses_are_put_together_or_dropped() {
    let (a, b) = (id_text(A), id_text(B));
    let jobs = vec![
        job(&a, "8x", Some("Timelapses/a8.mp4")),
        job(&b, "8x", Some("Timelapses/b8.mp4")),
        job(&b, "16x", Some("Timelapses/b16.mp4")),
        job("other", "8x", Some("Timelapses/o.mp4")),
    ];
    let ids = vec![a.clone(), b.clone()];
    let rows = load_job_rows(&jobs, &ids);
    assert_eq!(rows.len(), 3);
    let plan = plan_concat(&rows, &a, &vec![b.clone()]);
    assert_eq!(plan.len(), 2);
    let full = plan.iter().position(|p| p.is_full).unwrap();
    assert_eq!(
        inputs_of(&plan[full], "/lib"),
        vec!["/lib/Timelapses/a8.mp4", "/lib/Timelapses/b8.mp4"]
    );
    let results = plan.iter().map(|p| if p.is_full { Some(s("{}")) } else { None }).collect();
    let (after, removed, joined) = apply_concat_where_possible(jobs.clone(), &plan, &results, &a, 9);
    assert_eq!(joined, vec![(s("8x"), s("F"))]);
    assert!(removed >= 1);
    assert!(after.iter().any(|j| j.trip_id == "other"));
    let merged = after.iter().find(|j| j.trip_id == a && j.tier == "8x").unwrap();
    assert_eq!(merged.speed_curve_json.as_deref(), Some("{}"));
    assert!(after.iter().all(|j| j.trip_id != b));
    let (left, n) = discard_all(jobs, &ids);
    assert_eq!((left.len(), n), (1, 3));
}

#[test]
fn putting_together_leaves_the_output_alone_until_the_end() {
    let inputs = vec![s("/l/a.mp4"), s("/l/it's.mp4")];
    let steps = concat_outputs(&inputs, &inputs, "/l/Timelapses", "x_8x_F").unwrap();
    assert_eq!(steps.temp, "/l/Timelapses/.x_8x_F.merging.mp4");
    assert_eq!(steps.list_path, "/l/Timelapses/x_8x_F.concat.txt");
    assert_eq!(steps.output, "/l/Timelapses/x_8x_F.mp4");
    assert_eq!(steps.args.last().unwrap(), &steps.temp);
    assert!(steps.list_content.contains("/l/a.mp4"));
    let err = concat_outputs(&inputs, &vec![s("/l/a.mp4")], "/l", "x").unwrap_err();
    assert_eq!(err.describe(), "concat input does not exist on disk: /l/it's.mp4");
    let err = concat_outputs(&vec![], &vec![], "/l", "x").unwrap_err();
    assert_eq!(err.describe(), "concat called with no inputs");
    assert!(splice_result(true, "").is_ok());
    assert_eq!(
        splice_result(false, "bad").unwrap_err().describe(),
        "ffmpeg concat failed: bad"
    );
}

#[test]
fn curves_follow_each_other() {
    let c = |a: i64, z: i64, rate: u32| CurveSegment { concat_start: a, concat_end: z, rate };
    let merged = merge_speed_curves(&vec![
        Some(vec![c(0, 100, 8)]),
        Some(vec![c(0, 50, 16), c(50, 60, 1)]),
    ]);
    assert_eq!(merged, vec![c(0, 100, 8), c(100, 150, 16), c(150, 160, 1)]);
}

#[test]
fn positions_of_joined_trips_are_dropped() {
    let row = |id: &str| GpsRow { trip_id: s(id), parser_version: 2 };
    let left = drop_positions(vec![row(&id_text(A)), row("x"), row(&id_text(B))], A, &vec![B]);
    assert_eq!(left.len(), 1);
    assert_eq!(left[0].trip_id, "x");
}
