//! The timelapse worker, and how it cleans up.

use tripviewer::app_settings::AppSettings;
use tripviewer::db::rows::{JobRow, JobStatus, Library, SegmentRow, TripRow};
use tripviewer::db::timelapse_jobs::{
    get, mark_done, mark_failed, mark_running, upsert_pending, JobChange,
};
use tripviewer::error::AppError;
use tripviewer::ids::{derive_segment_id, derive_trip_id, id_text};
use tripviewer::moment::Moment;
use tripviewer::scan::naming::CameraKind;
use tripviewer::timelapse::cleanup::{
    backfill_candidates, backfill_output_sizes, build_old_absolute, candidate_roots,
    cleanup_stale_jobs, count_orphan_timelapse_files, find_orphans, flag_missing_outputs,
    has_current, prune_orphan_timelapse_files, recover_orphan_outputs, recovery_action,
    recovery_targets, relink_present_outputs, settle_outputs, DirEntry, FileFact, GpsRow,
    PrunedFile, RecoveryAction, SAMPLE_CAP,
};
use tripviewer::timelapse::commands::{
    get_timelapse_settings, list_timelapse_jobs, start_timelapse,
};
use tripviewer::timelapse::ffmpeg::{step_failure, Action, Encoder};
use tripviewer::timelapse::speed_curve::Run;
use tripviewer::timelapse::types::{Channel, EventWindow, FfmpegCapabilities, JobScope, Tier};
use tripviewer::timelapse::worker::{
    append_segment_points, begin_run, build_trip_context, build_work_list, chunk_refusal, cpu_pool_threads,
    discover_library_root, done_event, fail_chunk_jobs, finished_change, group_work_by_trip, is_report_due,
    new_shared_state, output_file_name, plan_item, pool_size, process_item, progress_event,
    resolve_channel_sources, resolve_output_root, resolve_sibling_path, run_inner, start_event,
    stitch_trip_gps, trip_segment_info, ChannelResolution, Chunk, DiscoveredRoot, ItemAction,
    ItemEvent, Listing, ProcessOutcome, RunAction, RunEvent, RunSetup, SegmentInfo, Tally, TripEncodeContext, WorkItem,
};

fn s(text: &str) -> String {
    text.to_string()
}

fn strings(v: &[&str]) -> Vec<String> {
    v.iter().map(|t| t.to_string()).collect()
}

fn run(start_s: f64, end_s: f64) -> Run {
    Run { start: (start_s * 1000.0) as i64, end: (end_s * 1000.0) as i64 }
}

// Positions

#[test]
fn append_segment_points_trims_to_duration_and_offsets() {
    let mut out = Vec::new();
    let parking: Vec<i64> = (0..=5399).map(|t| t * 1000).collect();
    append_segment_points(&mut out, 0, 0, 180_000, &parking);
    assert_eq!(out.len(), 181, "kept points beyond the video duration");
    assert_eq!(out.first().unwrap().t_ms, 0);
    assert_eq!(out.last().unwrap().t_ms, 180_000);

    append_segment_points(&mut out, 1, 180_000, 60_000, &vec![0, 30_000, 60_000]);
    let monotonic = out.windows(2).all(|w| w[1].t_ms >= w[0].t_ms);
    assert!(monotonic, "stitched concat-timeline went backwards");
    assert_eq!(out.last().unwrap().t_ms, 240_000);
}

#[test]
fn tracks_of_segments_follow_each_other() {
    let out = stitch_trip_gps(&vec![1000, 2000], &vec![vec![0, 900, 1100], vec![0, 2000]]);
    let got: Vec<(usize, usize, i64)> = out.iter().map(|p| (p.segment, p.index, p.t_ms)).collect();
    assert_eq!(got, vec![(0, 0, 0), (0, 1, 900), (1, 0, 1000), (1, 1, 3000)]);
}

// Directories

#[test]
fn discover_library_root_uses_videos_ancestor_when_present() {
    let sample = Some(s("/library/Videos/2026_04_12_132511_00_F.MP4"));
    match discover_library_root(&sample).unwrap() {
        DiscoveredRoot::Library(p) => assert_eq!(p, "/library"),
        DiscoveredRoot::SegmentParent(p) => panic!("expected Library, got SegmentParent({p})"),
    }
}

#[test]
fn discover_library_root_falls_back_to_segment_parent_when_no_videos_ancestor() {
    let sample =
        Some(s("/Users/chrisl8/Dashcam Tests/Wolfbox Example/2026_04_12_132511_00_F.MP4"));
    match discover_library_root(&sample).unwrap() {
        DiscoveredRoot::SegmentParent(p) => {
            assert_eq!(p, "/Users/chrisl8/Dashcam Tests/Wolfbox Example")
        }
        DiscoveredRoot::Library(p) => panic!("expected SegmentParent, got Library({p})"),
    }
}

#[test]
fn resolve_output_root_uses_archive_root() {
    assert_eq!(resolve_output_root("/archive"), "/archive/Timelapses");
}

// Files of a channel

fn sibling(front: &str, channel: Channel, files: &[&str]) -> Option<String> {
    let listing = Listing::Paths(files.iter().map(|f| format!("/d/{f}")).collect());
    resolve_sibling_path(&format!("/d/{front}"), channel, &listing).unwrap()
}

#[test]
fn resolve_sibling_finds_file_at_same_timestamp() {
    let files = ["2026_04_22_103001_00_F.MP4", "2026_04_22_103001_00_I.MP4"];
    assert_eq!(
        sibling(files[0], Channel::Interior, &files),
        Some(s("/d/2026_04_22_103001_00_I.MP4"))
    );
    assert!(sibling(files[0], Channel::Rear, &files).is_none(), "rear doesn't exist -> None");
}

#[test]
fn resolve_sibling_finds_file_with_minus_1s_timestamp_skew() {
    let files = ["2026_03_22_164128_02_F.MP4", "2026_03_22_164127_02_R.MP4"];
    assert_eq!(
        sibling(files[0], Channel::Rear, &files),
        Some(s("/d/2026_03_22_164127_02_R.MP4"))
    );
}

#[test]
fn resolve_sibling_finds_file_with_plus_2s_timestamp_skew() {
    let files = ["2026_03_22_164128_02_F.MP4", "2026_03_22_164130_02_R.MP4"];
    assert_eq!(
        sibling(files[0], Channel::Rear, &files),
        Some(s("/d/2026_03_22_164130_02_R.MP4"))
    );
}

#[test]
fn resolve_sibling_rejects_file_4s_out_of_window() {
    let files = ["2026_03_22_164128_02_F.MP4", "2026_03_22_164132_02_R.MP4"];
    assert!(
        sibling(files[0], Channel::Rear, &files).is_none(),
        "4 s delta is outside the fuzzy window"
    );
}

#[test]
fn resolve_sibling_respects_event_mode() {
    let files = ["2026_03_22_164128_00_F.MP4", "2026_03_22_164128_02_R.MP4"];
    assert!(
        sibling(files[0], Channel::Rear, &files).is_none(),
        "event mode mismatch must block match"
    );
}

fn channel_sources(
    masters: &[&str],
    durations: Vec<i64>,
    channel: Channel,
    files: &[&str],
) -> ChannelResolution {
    let paths: Vec<String> = files.iter().map(|f| format!("/d/{f}")).collect();
    let sources: Vec<String> = masters.iter().map(|f| format!("/d/{f}")).collect();
    let listings = sources.iter().map(|_| Listing::Paths(paths.clone())).collect();
    resolve_channel_sources(&sources, &durations, channel, &listings).unwrap()
}

#[test]
fn resolve_channel_sources_front_complete_when_all_masters_are_front() {
    let files = ["2026_04_22_103001_00_F.MP4", "2026_04_22_103300_00_F.MP4"];
    let r = channel_sources(&files, vec![180_000, 180_000], Channel::Front, &files);
    assert_eq!(r.sources.len(), 2);
    assert_eq!(r.missing_count, 0);
    assert!(r.sources.iter().any(|s| s.ends_with("103001_00_F.MP4")));
    assert!(r.sources.iter().any(|s| s.ends_with("103300_00_F.MP4")));
    assert_eq!(r.covered, vec![run(0.0, 360.0)]);
}

#[test]
fn resolve_channel_sources_front_gaps_when_a_master_is_not_front() {
    let files = ["2026_03_23_094334_00_R.MP4", "2026_03_23_094634_00_F.MP4"];
    let r = channel_sources(&files, vec![180_000, 180_000], Channel::Front, &files);
    assert_eq!(r.missing_count, 1);
    assert_eq!(r.sources.len(), 1);
    assert!(r.sources[0].ends_with("094634_00_F.MP4"));
    assert_eq!(r.covered, vec![run(180.0, 360.0)]);
}

#[test]
fn resolve_channel_sources_gaps_for_partial_miss() {
    let masters = ["2026_04_22_103001_00_F.MP4", "2026_04_22_103300_00_F.MP4"];
    let files = [masters[0], "2026_04_22_103001_00_I.MP4", masters[1]];
    let r = channel_sources(&masters, vec![180_000, 175_500], Channel::Interior, &files);
    assert_eq!(r.missing_count, 1);
    assert_eq!(r.sources.len(), 1);
    assert!(r.sources[0].ends_with("_I.MP4"));
    assert_eq!(r.covered, vec![run(0.0, 180.0)]);
}

#[test]
fn resolve_channel_sources_empty_when_camera_never_records() {
    let files = ["2026_04_22_103001_00_F.MP4"];
    let r = channel_sources(&files, vec![180_000], Channel::Rear, &files);
    assert!(r.sources.is_empty(), "camera never records this channel");
    assert!(r.covered.is_empty());
}

#[test]
fn resolve_channel_sources_complete_when_all_siblings_present_even_with_skew() {
    let masters = ["2026_04_22_103001_00_F.MP4", "2026_04_22_103300_00_F.MP4"];
    let files = [
        masters[0],
        "2026_04_22_103000_00_R.MP4",
        masters[1],
        "2026_04_22_103302_00_R.MP4",
    ];
    let r = channel_sources(&masters, vec![180_000, 180_000], Channel::Rear, &files);
    assert_eq!(r.sources.len(), 2);
    assert_eq!(r.missing_count, 0);
    assert!(r.sources.iter().any(|s| s.ends_with("2026_04_22_103000_00_R.MP4")));
    assert!(r.sources.iter().any(|s| s.ends_with("2026_04_22_103302_00_R.MP4")));
    assert_eq!(r.covered, vec![run(0.0, 360.0)]);
}

// Work

fn trip_row(id: &str) -> TripRow {
    TripRow {
        id: s(id),
        start_time_ms: 1000,
        end_time_ms: 2000,
        camera_kind: s("wolfBox"),
        gps_supported: true,
        last_seen_ms: 0,
    }
}

fn segment_row(id: &str, trip_id: &str, path: &str, is_tombstone: bool) -> SegmentRow {
    SegmentRow {
        id: s(id),
        trip_id: s(trip_id),
        start_time_ms: 1000,
        duration_ms: 60_000,
        master_path: s(path),
        is_event: false,
        camera_kind: s("wolfbox"),
        gps_supported: true,
        last_seen_ms: 0,
        size_bytes: None,
        is_tombstone,
    }
}

fn done(jobs: Vec<JobRow>, trip: &str, size: Option<i64>) -> Vec<JobRow> {
    let jobs = upsert_pending(jobs, trip, "8x", "F", 0);
    mark_done(
        jobs,
        trip,
        "8x",
        "F",
        format!("Timelapses/{trip}_8x_F.mp4"),
        s("7.0"),
        s("hevc_nvenc"),
        0,
        s("[]"),
        size,
        0,
    )
}

fn rebuild_all(lib: Library) -> (Library, Vec<WorkItem>) {
    let (tiers, channels) = (vec![Tier::Tier8x], vec![Channel::Front]);
    build_work_list(lib, &None, &tiers, &channels, JobScope::RebuildAll, 0)
}

#[test]
fn build_work_list_skips_archive_only_trips_under_rebuild_all() {
    let trip_id = "archive-only-trip";
    let mut lib = Library::new();
    lib.trips.push(trip_row(trip_id));
    lib.segments.push(segment_row("seg-tomb", trip_id, "", true));
    lib.jobs = done(Vec::new(), trip_id, Some(42));
    let (lib, work) = rebuild_all(lib);
    assert!(work.is_empty(), "archive-only trip must contribute no work items");
    let row = get(&lib.jobs, trip_id, "8x", "F").unwrap();
    assert_eq!(row.status, JobStatus::Done);
    assert_eq!(
        row.output_path.as_deref(),
        Some("Timelapses/archive-only-trip_8x_F.mp4"),
        "RebuildAll over an archive-only trip must NOT null output_path"
    );
}

#[test]
fn build_work_list_enqueues_trips_with_live_segments() {
    let trip_id = "live-trip";
    let mut lib = Library::new();
    lib.trips.push(trip_row(trip_id));
    let path = "Videos/2026_04_22_103001_00_F.MP4";
    lib.segments.push(segment_row("seg-live", trip_id, path, false));
    let (lib, work) = rebuild_all(lib);
    assert_eq!(work.len(), 1);
    assert_eq!(work[0].trip_id, trip_id);
    assert_eq!(get(&lib.jobs, trip_id, "8x", "F").unwrap().status, JobStatus::Pending);
}

#[test]
fn scopes_choose_the_jobs() {
    let library = |jobs: Vec<JobRow>| {
        let mut lib = Library::new();
        lib.trips.push(trip_row("t"));
        lib.segments.push(segment_row("s", "t", "Videos/a.MP4", false));
        lib.jobs = jobs;
        lib
    };
    let work = |jobs: Vec<JobRow>, scope: JobScope| {
        let (tiers, channels) = (vec![Tier::Tier8x], vec![Channel::Front]);
        build_work_list(library(jobs), &Some(strings(&["t"])), &tiers, &channels, scope, 0).1.len()
    };
    let failed = || mark_failed(done(Vec::new(), "t", None), "t", "8x", "F", s("x"));
    assert_eq!(work(done(Vec::new(), "t", None), JobScope::NewOnly), 0);
    assert_eq!(work(Vec::new(), JobScope::NewOnly), 1);
    assert_eq!(work(failed(), JobScope::FailedOnly), 1);
    assert_eq!(work(Vec::new(), JobScope::FailedOnly), 0);
    assert_eq!(work(done(Vec::new(), "t", None), JobScope::RebuildAll), 1);
}

fn item(trip: &str) -> WorkItem {
    WorkItem { trip_id: s(trip), tier: Tier::Tier8x, channel: Channel::Front }
}

#[test]
fn work_is_grouped_by_trip() {
    let work = vec![item("a"), item("a"), item("b"), item("a")];
    let chunks = group_work_by_trip(&work);
    assert_eq!(chunks.iter().map(|c| (c.start, c.end)).collect::<Vec<_>>(), vec![
        (0, 2),
        (2, 3),
        (3, 4)
    ]);
}

#[test]
fn every_job_of_a_run_is_counted() {
    let mut t = Tally::new(4);
    t.note(ProcessOutcome::Done);
    t.note(ProcessOutcome::Failed);
    t.fail_chunk(2);
    assert_eq!((t.total, t.done, t.failed), (4, 1, 3));
    let e = progress_event(t, Some(&item("x")));
    assert_eq!((e.done, e.failed), (1, 3));
    assert_eq!(e.current_trip_id.as_deref(), Some("x"));
    assert_eq!(e.current_tier.as_deref(), Some("8x"));
    assert_eq!(e.current_channel.as_deref(), Some("F"));
    assert!(done_event(t, true).cancelled);
    assert_eq!(start_event(4, &vec![Tier::Tier8x, Tier::Tier60x]).tiers, vec!["8x", "60x"]);
}

#[test]
fn one_run_of_the_worker_at_a_time() {
    let mut w = new_shared_state();
    w.begin().unwrap();
    assert!(w.begin().is_err());
    w.cancel_timelapse();
    assert_eq!(w.cancel, Some(true));
    w.end();
    w.begin().unwrap();
    assert_eq!(w.cancel, Some(false));
}

#[test]
fn encoders_share_the_cores() {
    assert_eq!(cpu_pool_threads(Encoder::HevcNvenc, 2, 8), None);
    assert_eq!(cpu_pool_threads(Encoder::LibX265, 2, 8), Some(4));
    assert_eq!(cpu_pool_threads(Encoder::LibX265, 4, 2), Some(1));
    assert_eq!(pool_size(0), 1);
    assert_eq!(pool_size(3), 3);
    assert!(is_report_due(10_000));
    assert!(!is_report_due(0));
}

#[test]
fn contexts_hold_the_footage_of_a_trip() {
    let segments = vec![
        segment_row("1", "t", "Videos/2026_04_22_103001_00_F.MP4", false),
        segment_row("2", "t", "", true),
        segment_row("3", "u", "Videos/x.MP4", false),
    ];
    let info = trip_segment_info(&segments, "t", "/a");
    assert_eq!(info.len(), 1);
    assert_eq!(info[0].master_path, "/a/Videos/2026_04_22_103001_00_F.MP4");
    let mut log_beside = segment_row("4", "v", "Videos/NO20260522-125624-000184F.MP4", false);
    log_beside.camera_kind = s("seventyMai");
    assert_eq!(trip_segment_info(&vec![log_beside], "v", "/a")[0].camera_kind, CameraKind::SeventyMai);
    let windows = vec![EventWindow { start_ms: 1, end_ms: 2 }];
    let ctx = build_trip_context(&info, windows);
    assert_eq!(ctx.total_duration_ms, 60_000);
    assert_eq!(ctx.front_sources, vec!["/a/Videos/2026_04_22_103001_00_F.MP4"]);
    let none: Vec<SegmentInfo> = Vec::new();
    let empty = build_trip_context(&none, Vec::new());
    assert_eq!(chunk_refusal(&Ok(empty)).as_deref(), Some("no segments found for trip"));
    assert_eq!(chunk_refusal(&Ok(ctx)), None);
    let broken = Err(AppError::Internal(s("broken")));
    assert!(chunk_refusal(&broken).unwrap().contains("broken"));
    assert_eq!(info[0].camera_kind, CameraKind::Generic);
}

#[test]
fn a_refused_trip_fails_all_its_jobs() {
    let jobs = upsert_pending(Vec::new(), "a", "8x", "F", 0);
    let jobs = upsert_pending(jobs, "b", "8x", "F", 0);
    let work = vec![item("a"), item("b")];
    let jobs = fail_chunk_jobs(jobs, &work, Chunk { start: 0, end: 1 }, &s("no segments"));
    assert_eq!(jobs[0].status, JobStatus::Failed);
    assert_eq!(jobs[0].error_message.as_deref(), Some("no segments"));
    assert_eq!(jobs[1].status, JobStatus::Pending);
}

// One job

fn setup() -> RunSetup {
    RunSetup {
        encoder: Encoder::LibX265,
        output_root: s("/a/Timelapses"),
        archive_root: s("/a"),
        ffmpeg_version: s("7.0"),
        cpu_pool_threads: Some(4),
    }
}

fn context() -> TripEncodeContext {
    TripEncodeContext {
        front_sources: strings(&["/a/Videos/1.MP4"]),
        front_durations: vec![60_000],
        windows: Vec::new(),
        total_duration_ms: 60_000,
    }
}

fn resolution() -> ChannelResolution {
    ChannelResolution {
        sources: strings(&["/a/Videos/1.MP4"]),
        covered: vec![run(0.0, 60.0)],
        missing_count: 0,
    }
}

fn next(event: ItemEvent) -> ItemAction {
    process_item(&setup(), &item("t"), &context(), event)
}

#[test]
fn a_job_goes_from_its_files_to_its_record() {
    assert!(matches!(next(ItemEvent::Marked(true)), ItemAction::Resolve));
    let dir = match next(ItemEvent::Resolved(Ok(resolution()))) {
        ItemAction::MakeScratch { dir, .. } => dir,
        other => panic!("{other:?}"),
    };
    assert_eq!(dir, "/a/Timelapses/.tmp/t_8x_F");
    let plan = match next(ItemEvent::ScratchMade { resolution: resolution(), failure: None }) {
        ItemAction::Encode(plan) => plan,
        other => panic!("{other:?}"),
    };
    assert_eq!(plan.args.output_path, "/a/Timelapses/t_8x_F.mp4");
    assert_eq!(plan.args.curve.len(), 1);
    assert_eq!(plan.persist_curve[0].rate, 8);
    let kept = plan.persist_curve.clone();
    let missing = plan.missing_count as i64;
    let encoded = ItemEvent::Encoded {
        plan,
        result: Ok(()),
        canonical: Some(s("/a/Timelapses/t_8x_F.mp4")),
        size_bytes: Some(9),
        now_ms: 5,
    };
    let done = match next(encoded) {
        ItemAction::Finish { done, curve } => {
            assert_eq!(curve, kept);
            done
        }
        other => panic!("{other:?}"),
    };
    match finished_change(done, s("[1]")) {
        JobChange::Finished {
            output_path,
            padded_count,
            speed_curve_json,
            output_size_bytes,
            now_ms,
            ..
        } => {
            assert_eq!(output_path, "Timelapses/t_8x_F.mp4");
            assert_eq!((padded_count, output_size_bytes, now_ms), (missing, Some(9), 5));
            assert_eq!(speed_curve_json, "[1]");
        }
        other => panic!("{other:?}"),
    }
    let failed = |why: &str| ItemEvent::Encoded {
        plan: plan_item(&setup(), &item("t"), &context(), resolution()),
        result: Err(AppError::Internal(s(why))),
        canonical: None,
        size_bytes: None,
        now_ms: 5,
    };
    assert!(matches!(
        next(failed("cancelled")),
        ItemAction::Record { outcome: ProcessOutcome::Cancelled, sweep: true, .. }
    ));
    assert!(matches!(
        next(failed("no room")),
        ItemAction::Record { outcome: ProcessOutcome::Failed, sweep: true, .. }
    ));
    let recorded = ItemEvent::Recorded { outcome: ProcessOutcome::Done, written: true };
    assert!(matches!(next(recorded), ItemAction::End(ProcessOutcome::Done)));
}

#[test]
fn a_job_without_files_fails() {
    let nothing = ChannelResolution { sources: vec![], covered: vec![], missing_count: 1 };
    match next(ItemEvent::ScratchMade { resolution: nothing, failure: None }) {
        ItemAction::Record { outcome, sweep, .. } => {
            assert_eq!(outcome, ProcessOutcome::Failed);
            assert!(sweep);
        }
        other => panic!("{other:?}"),
    }
    match next(ItemEvent::Resolved(Err(AppError::Internal(s("x"))))) {
        ItemAction::Record { outcome, .. } => assert_eq!(outcome, ProcessOutcome::Failed),
        other => panic!("{other:?}"),
    }
    assert!(matches!(
        next(ItemEvent::Marked(false)),
        ItemAction::End(ProcessOutcome::Failed)
    ));
}

#[test]
fn gaps_are_left_out_of_the_encode() {
    let gappy = ChannelResolution {
        sources: strings(&["/a/1", "/a/3"]),
        covered: vec![run(0.0, 20.0), run(40.0, 60.0)],
        missing_count: 1,
    };
    let plan = plan_item(&setup(), &item("t"), &context(), gappy);
    let spans: Vec<(i64, i64)> =
        plan.persist_curve.iter().map(|c| (c.concat_start, c.concat_end)).collect();
    assert_eq!(spans, vec![(0, 20_000), (40_000, 60_000)]);
    let encoded: i64 = plan.args.curve.iter().map(|c| c.concat_end - c.concat_start).sum();
    assert_eq!(encoded, 40_000);
    assert_eq!(plan.args.curve.last().unwrap().concat_end, 40_000);
    assert!(matches!(Action::GiveUp(s("x")), Action::GiveUp(_)));
}

// Cleaning up

#[test]
fn resets_running_rows_and_deletes_output_files() {
    let jobs = upsert_pending(Vec::new(), "trip-1", "8x", "F", 0);
    let mut jobs = mark_running(jobs, "trip-1", "8x", "F");
    jobs[0].output_path = Some(s("/tmp/tripviewer-cleanup-test.mp4"));
    let (jobs, files, count) = cleanup_stale_jobs(jobs, "/a");
    assert_eq!(count, 1);
    assert_eq!(files, vec!["/tmp/tripviewer-cleanup-test.mp4"]);
    let row = get(&jobs, "trip-1", "8x", "F").unwrap();
    assert_eq!(row.status, JobStatus::Pending);
    assert!(row.output_path.is_none());
}

#[test]
fn missing_output_file_is_not_an_error() {
    let mut jobs = mark_running(upsert_pending(Vec::new(), "t", "8x", "F", 0), "t", "8x", "F");
    jobs[0].output_path = Some(s("C:/does/not/exist.mp4"));
    let (jobs, files, n) = cleanup_stale_jobs(jobs, "");
    assert_eq!(n, 1);
    assert_eq!(files, vec!["C:/does/not/exist.mp4"]);
    assert_eq!(jobs[0].status, JobStatus::Pending);
    assert!(jobs[0].output_path.is_none());
}

#[test]
fn noop_when_no_running_rows() {
    let jobs = upsert_pending(Vec::new(), "t", "8x", "F", 0);
    let (_, _, n) = cleanup_stale_jobs(jobs, "/a");
    assert_eq!(n, 0);
}

#[test]
fn recovers_orphan_files_named_with_pre_rewrite_trip_id() {
    let rel_path = "Videos/2026_01_01_120000_00_F.MP4";
    let start_ms: i64 = 1_735_732_800_000;
    let start = Moment { secs: start_ms / 1000, nanos: 0 };
    let old_abs = build_old_absolute("/mnt/old/", rel_path, '/');
    assert_eq!(old_abs, "/mnt/old/Videos/2026_01_01_120000_00_F.MP4");
    let old_trip_id = id_text(derive_trip_id(derive_segment_id(&old_abs, start)));
    let new_seg_id = derive_segment_id(rel_path, start);
    let new_trip_id = id_text(derive_trip_id(new_seg_id));
    assert_ne!(old_trip_id, new_trip_id);

    let mut lib = Library::new();
    lib.trips.push(trip_row(&new_trip_id));
    let mut seg = segment_row(&id_text(new_seg_id), &new_trip_id, rel_path, false);
    seg.start_time_ms = start_ms;
    lib.segments.push(seg);
    lib.jobs = mark_failed(
        done(Vec::new(), &new_trip_id, None),
        &new_trip_id,
        "8x",
        "F",
        s("output file missing on disk (expected at <pre-recovery>)"),
    );

    let roots = candidate_roots(&strings(&["/mnt/old/"]), &strings(&["/a"]), "/a");
    assert_eq!(roots, vec!["/mnt/old/"]);
    let targets = recovery_targets(&lib, &roots, '/');
    assert_eq!(targets.len(), 1);
    let old_name = format!("{old_trip_id}_8x_F.mp4");
    assert_eq!(targets[0].old_names, vec![old_name.clone()]);
    let action = recovery_action(&targets[0], &vec![old_name.clone()]);
    match &action {
        RecoveryAction::Rename(from) => assert_eq!(*from, old_name),
        other => panic!("{other:?}"),
    }
    let (jobs, recovered) = recover_orphan_outputs(lib.jobs, &targets[0], &action, true, Some(18));
    assert!(recovered);
    let row = get(&jobs, &new_trip_id, "8x", "F").unwrap();
    assert_eq!(row.status, JobStatus::Done);
    assert_eq!(row.output_path, Some(format!("Timelapses/{new_trip_id}_8x_F.mp4")));
    assert!(row.error_message.is_none());
    assert_eq!(row.encoder_used.as_deref(), Some("hevc_nvenc"));

    let there = recovery_action(&targets[0], &vec![targets[0].new_name.clone()]);
    assert!(matches!(there, RecoveryAction::Adopt));
    assert!(matches!(recovery_action(&targets[0], &vec![]), RecoveryAction::Skip));
}

#[test]
fn flags_done_rows_whose_files_are_missing() {
    let jobs = done(done(Vec::new(), "present", None), "missing", None);
    let (jobs, stale, n) = cleanup_stale_jobs(jobs, "/a");
    assert_eq!(n, 0);
    assert!(stale.is_empty());
    let present = strings(&["/a/Timelapses/present_8x_F.mp4"]);
    let named = vec![FileFact { path: s("present_8x_F.mp4"), size: 0 }];
    let files = vec![FileFact { path: s("/a/Timelapses/present_8x_F.mp4"), size: 0 }];
    let jobs = settle_outputs(jobs, "/a", true, &present, &named, &files);
    assert_eq!(get(&jobs, "present", "8x", "F").unwrap().status, JobStatus::Done);
    let missing = get(&jobs, "missing", "8x", "F").unwrap();
    assert_eq!(missing.status, JobStatus::Failed);
    assert!(missing.error_message.unwrap().contains("missing on disk"));
}

#[test]
fn does_not_flag_when_timelapses_dir_is_unreachable() {
    let jobs = flag_missing_outputs(done(Vec::new(), "t", None), "/a", false, &vec![]);
    assert_eq!(
        jobs[0].status,
        JobStatus::Done,
        "must not flip done->failed when the Timelapses dir is unreachable"
    );
}

#[test]
fn relinks_failed_rows_whose_files_are_actually_present() {
    let failed = |jobs, trip: &str| {
        let jobs = upsert_pending(jobs, trip, "8x", "F", 0);
        mark_failed(jobs, trip, "8x", "F", s("no segments found for trip"))
    };
    let jobs = done(failed(failed(Vec::new(), "recover"), "truly_gone"), "untouched", Some(14));
    let files = vec![
        FileFact { path: s("recover_8x_F.mp4"), size: 24 },
        FileFact { path: s("untouched_8x_F.mp4"), size: 99 },
    ];
    let jobs = relink_present_outputs(jobs, &files);
    let recovered = get(&jobs, "recover", "8x", "F").unwrap();
    assert_eq!(recovered.status, JobStatus::Done);
    assert_eq!(recovered.output_path.as_deref(), Some("Timelapses/recover_8x_F.mp4"));
    assert!(recovered.error_message.is_none());
    assert_eq!(recovered.output_size_bytes, Some(24));
    let gone = get(&jobs, "truly_gone", "8x", "F").unwrap();
    assert_eq!(gone.status, JobStatus::Failed);
    assert!(gone.output_path.is_none());
    let untouched = get(&jobs, "untouched", "8x", "F").unwrap();
    assert_eq!(untouched.status, JobStatus::Done);
    assert_eq!(untouched.output_path.as_deref(), Some("Timelapses/untouched_8x_F.mp4"));
    assert_eq!(untouched.output_size_bytes, Some(14));
}

fn entry(name: &str, is_file: bool) -> DirEntry {
    DirEntry { name: s(name), is_file }
}

#[test]
fn prune_orphan_timelapse_files_removes_unreferenced_files_only() {
    let referenced = "11111111-2222-3333-4444-555555555555";
    let orphan = "aaaaaaaa-bbbb-cccc-dddd-eeeeeeeeeeee";
    let entries = vec![
        entry(&format!("{referenced}_8x_F.mp4"), true),
        entry(&format!("{orphan}_8x_F.mp4"), true),
        entry("notes-from-the-user.mp4", true),
        entry("debug", false),
    ];
    let jobs = upsert_pending(Vec::new(), referenced, "8x", "F", 0);
    let orphans = find_orphans(&entries, &jobs);
    assert_eq!(orphans, vec![format!("{orphan}_8x_F.mp4")]);
    assert_eq!(count_orphan_timelapse_files(&Some(entries), &jobs), 1);
    let stuck = PrunedFile { name: s("stuck.mp4"), size: 9, trashed: false };
    let mut files = vec![
        stuck,
        PrunedFile { name: orphans[0].clone(), size: 6, trashed: true },
    ];
    let summary = prune_orphan_timelapse_files(&files);
    assert_eq!(summary.trashed, 1, "exactly one orphan should be trashed");
    assert!(summary.bytes_reclaimed > 0);
    assert_eq!(summary.bytes_reclaimed, 6);
    assert_eq!(summary.sample, vec![format!("{orphan}_8x_F.mp4")]);
    for _ in 0..20 {
        files.push(PrunedFile { name: s("more"), size: 0, trashed: true });
    }
    let summary = prune_orphan_timelapse_files(&files);
    assert_eq!(summary.trashed, 21);
    assert_eq!(summary.sample.len(), SAMPLE_CAP);
    assert_eq!(summary.sample[0], format!("{orphan}_8x_F.mp4"));
}

#[test]
fn prune_orphan_timelapse_files_handles_missing_directory() {
    assert_eq!(count_orphan_timelapse_files(&None, &vec![]), 0);
    let summary = prune_orphan_timelapse_files(&vec![]);
    assert_eq!(summary.trashed, 0);
    assert_eq!(summary.bytes_reclaimed, 0);
    assert!(summary.sample.is_empty());
}

#[test]
fn sweeps_follow_each_other() {
    let jobs = done(done(done(Vec::new(), "a", None), "b", Some(1)), "c", None);
    let jobs = mark_failed(jobs, "c", "8x", "F", s("boom"));
    let jobs = upsert_pending(jobs, "d", "8x", "F", 0);
    let jobs = mark_failed(jobs, "d", "8x", "F", s("boom"));
    let present = vec![s("/x/Timelapses/a_8x_F.mp4")];
    let named = vec![
        FileFact { path: s("a_8x_F.mp4"), size: 7 },
        FileFact { path: s("d_8x_F.mp4"), size: 9 },
    ];
    let files = vec![FileFact { path: s("/x/Timelapses/a_8x_F.mp4"), size: 7 }];
    let jobs = settle_outputs(jobs, "/x", true, &present, &named, &files);
    assert_eq!(jobs[0].status, JobStatus::Done);
    assert_eq!(jobs[0].output_size_bytes, Some(7));
    assert_eq!(jobs[1].status, JobStatus::Failed);
    assert_eq!(jobs[2].status, JobStatus::Failed);
    assert_eq!(jobs[3].status, JobStatus::Done);
    assert_eq!(jobs[3].output_path.as_deref(), Some("Timelapses/d_8x_F.mp4"));
    assert_eq!(jobs[3].output_size_bytes, Some(9));
}

#[test]
fn failed_steps_say_what_failed() {
    let why = |a: Action| step_failure(&a, "disk full").describe();
    assert!(matches!(
        step_failure(&Action::MakeOutputDir(s("/o")), "disk full"),
        AppError::Io(m) if m == "disk full"
    ));
    assert!(why(Action::MakeScratchDir(s("/t"))).ends_with("scratch dir create failed: disk full"));
    let list = Action::WriteList { path: s("/l"), content: s("") };
    assert!(why(list).ends_with("failed to write concat list: disk full"));
    let place = Action::Place { from: s("/a"), to: s("/b") };
    assert!(why(place).ends_with("could not move encoded output into place: disk full"));
    assert!(why(Action::GiveUp(s("nothing to do"))).ends_with("nothing to do"));
}

#[test]
fn sizes_are_filled_in_once() {
    let jobs = done(done(Vec::new(), "a", None), "b", Some(1));
    let files = vec![
        FileFact { path: s("/x/Timelapses/a_8x_F.mp4"), size: 7 },
        FileFact { path: s("/x/Timelapses/b_8x_F.mp4"), size: 8 },
    ];
    let jobs = backfill_output_sizes(jobs, "/x", &files);
    assert_eq!(jobs[0].output_size_bytes, Some(7));
    assert_eq!(jobs[1].output_size_bytes, Some(1));
    let listed = list_timelapse_jobs(jobs, "/x");
    assert_eq!(listed[0].output_path.as_deref(), Some("/x/Timelapses/a_8x_F.mp4"));
    assert_eq!(output_file_name("a", "8x", "F"), "a_8x_F.mp4");
}

#[test]
fn positions_are_filled_in_where_they_are_out_of_date() {
    let mut lib = Library::new();
    for (i, t) in ["old", "new", "current"].iter().enumerate() {
        let mut row = trip_row(t);
        row.start_time_ms = i as i64;
        lib.trips.push(row);
        lib.segments.push(segment_row(t, t, "Videos/a.MP4", false));
        lib.jobs = done(lib.jobs, t, None);
    }
    let gps = vec![GpsRow { trip_id: s("current"), parser_version: 2 }];
    assert!(has_current(&gps, "current", 2));
    assert!(!has_current(&gps, "current", 3));
    assert_eq!(backfill_candidates(&lib, &gps, 2, 10), vec!["new", "old"]);
    assert_eq!(backfill_candidates(&lib, &gps, 2, 1), vec!["new"]);
}

// Settings

#[test]
fn a_run_needs_an_encoder() {
    let mut settings = AppSettings::default();
    assert!(start_timelapse(&settings, 2).is_err());
    let caps = FfmpegCapabilities { version: s("ffmpeg version 7"), nvenc_hevc: true };
    settings.set_ffmpeg(s("/usr/bin/ffmpeg"), &caps);
    let run = start_timelapse(&settings, 2).unwrap();
    assert_eq!(run.concurrency, 2);
    assert_eq!(run.encoder, Encoder::HevcNvenc);
    settings.timelapse_max_concurrent_jobs = Some(3);
    assert_eq!(start_timelapse(&settings, 2).unwrap().concurrency, 3);
    assert_eq!(get_timelapse_settings(&settings).ffmpeg_path.as_deref(), Some("/usr/bin/ffmpeg"));
}

// A whole run

fn job(trip: &str, tier: Tier) -> WorkItem {
    WorkItem { trip_id: s(trip), tier, channel: Channel::Front }
}

fn footage() -> TripEncodeContext {
    let info = vec![SegmentInfo {
        master_path: s("/a/Videos/x.mp4"),
        duration_ms: 1000,
        camera_kind: CameraKind::Generic,
    }];
    build_trip_context(&info, Vec::new())
}

#[test]
fn a_run_goes_through_its_trips() {
    let work = vec![job("a", Tier::Tier8x), job("a", Tier::Tier16x), job("b", Tier::Tier8x)];
    let (run, action) = run_inner(begin_run(work), RunEvent::Continue, false);
    assert!(matches!(action, RunAction::LookUp { trip_id } if trip_id == "a"));

    let (run, action) = run_inner(run, RunEvent::LookedUp(Ok(footage())), false);
    match action {
        RunAction::Work { chunk, ctx } => {
            assert_eq!(chunk, Chunk { start: 0, end: 2 });
            assert_eq!(ctx.front_sources, strings(&["/a/Videos/x.mp4"]));
        }
        other => panic!("{other:?}"),
    }

    let outcomes = vec![ProcessOutcome::Done, ProcessOutcome::Failed];
    let (run, action) = run_inner(run, RunEvent::Worked(outcomes), false);
    assert!(matches!(action, RunAction::LookUp { trip_id } if trip_id == "b"));

    let empty = build_trip_context(&vec![], Vec::new());
    let (run, action) = run_inner(run, RunEvent::LookedUp(Ok(empty)), false);
    match action {
        RunAction::Fail { chunk, reason } => {
            assert_eq!(chunk, Chunk { start: 2, end: 3 });
            assert_eq!(reason, "no segments found for trip");
        }
        other => panic!("{other:?}"),
    }
    match run_inner(run, RunEvent::Continue, false).1 {
        RunAction::Finish(e) => {
            assert_eq!((e.total, e.done, e.failed, e.cancelled), (3, 1, 2, false));
        }
        other => panic!("{other:?}"),
    }
}

#[test]
fn a_cancelled_run_takes_up_no_other_trip() {
    let work = vec![job("a", Tier::Tier8x), job("b", Tier::Tier8x)];
    let run = run_inner(begin_run(work), RunEvent::LookedUp(Ok(footage())), false).0;
    let outcomes = vec![ProcessOutcome::Cancelled];
    match run_inner(run, RunEvent::Worked(outcomes), true).1 {
        RunAction::Finish(e) => {
            assert_eq!((e.total, e.done, e.failed, e.cancelled), (2, 0, 0, true));
        }
        other => panic!("{other:?}"),
    }
}
