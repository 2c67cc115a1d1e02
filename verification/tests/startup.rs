//! What happens when the program starts, and how the encoder is run.

use tripviewer::app_settings::{AppSettings, RecentArchive};
use tripviewer::error::AppError;
use tripviewer::migration_v2::{
    cleanup_orphan_files, database_dir_of, database_path_of, leftover_files, run_if_needed, Copied,
    MigrationAction, MigrationEvent, MigrationOutcome,
};
use tripviewer::startup::{
    archive_to_reopen, crash_log_entry, data_dir_message, ended, new_state, plan_tasks, task_kind,
    Reopen, TaskChange, TaskKind, TaskStatus,
};
use tripviewer::timelapse::ffmpeg::{
    drain_chunk, drain_end, encode_trip_channel, encode_window, first_line_of, probe_ffmpeg,
    read_version, run_result, tail_lines, watch, whole_arguments, write_concat_list, Action,
    EncodeArgs, Encoder, Look, Watch,
};
use tripviewer::timelapse::speed_curve::CurveSegment;
use tripviewer::timelapse::worker::DiscoveredRoot;

fn s(text: &str) -> String {
    text.to_string()
}

// Tasks

#[test]
fn tasks_are_planned_for_what_there_is_to_do() {
    assert!(plan_tasks(0, 0, false).is_empty());
    let tasks = plan_tasks(3, 0, true);
    assert_eq!(tasks.len(), 2);
    let kinds: Vec<Option<TaskKind>> = tasks.iter().map(|t| task_kind(&t.id)).collect();
    assert!(kinds.contains(&Some(TaskKind::Cleanup)));
    assert!(kinds.contains(&Some(TaskKind::CrossOsRebuild)));
    assert!(tasks.iter().all(|t| t.status == TaskStatus::Pending));
    assert_eq!(task_kind("something"), None);
}

#[test]
fn tasks_report_how_far_they_are() {
    let mut state = new_state();
    assert!(state.done, "there is nothing to do at first");
    let tasks = plan_tasks(1, 5, false);
    let id = tasks[0].id.clone();
    assert!(state.begin(tasks));
    assert!(!state.done);
    state.with_task(&id, TaskChange::Status(TaskStatus::Running));
    state.with_task(&id, TaskChange::Total(4));
    state.with_task(&id, TaskChange::Current(2));
    assert_eq!(state.tasks[0].status, TaskStatus::Running);
    assert_eq!((state.tasks[0].current, state.tasks[0].total), (2, Some(4)));
    state.with_task(&id, ended(false));
    assert_eq!(state.tasks[0].status, TaskStatus::Failed);
    state.with_task(&id, ended(true));
    assert_eq!(state.tasks[0].status, TaskStatus::Done);
    assert_eq!(state.tasks[1].status, TaskStatus::Pending);
    state.finish();
    assert!(state.done);
    let mut idle = new_state();
    idle.mark_no_work();
    assert!(idle.done);
}

#[test]
fn the_last_archive_is_opened_again() {
    let mut settings = AppSettings::default();
    assert!(matches!(archive_to_reopen(&settings, true), Reopen::Nothing));
    settings.set_last_archive(s("/archive"));
    assert!(matches!(archive_to_reopen(&settings, true), Reopen::Open(p) if p == "/archive"));
    assert!(matches!(archive_to_reopen(&settings, false), Reopen::Offline(p) if p == "/archive"));
    assert!(settings.needs_cross_os(&s("/archive")));
    settings.cross_os_migrated_archives.push(s("/archive"));
    assert!(!settings.needs_cross_os(&s("/archive")));
    let recent = RecentArchive { path: s("/r"), label: s("r"), last_opened_ms: 1 };
    assert_eq!(recent.clone().path, "/r");
}

#[test]
fn crashes_are_written_down() {
    let entry = crash_log_entry("2026-01-01", &Some(s("main")), &Some(s("a.rs:1")), &None, "bt");
    assert!(entry.contains("2026-01-01"));
    assert!(entry.contains("main"));
    assert!(entry.contains("a.rs:1"));
    assert!(entry.contains("bt"));
    assert!(data_dir_message("no home").contains("no home"));
}

// Moving the database

fn outcome(a: MigrationAction) -> MigrationOutcome {
    match a {
        MigrationAction::Finish(o) => o,
        other => panic!("{other:?}"),
    }
}

#[test]
fn the_database_moves_into_the_archive() {
    let started = MigrationEvent::Started { legacy_exists: true, has_last_archive: false };
    assert!(matches!(run_if_needed(started), MigrationAction::Discover));
    let found = MigrationEvent::Discovered(Ok(DiscoveredRoot::Library(s("/lib"))));
    match run_if_needed(found) {
        MigrationAction::CheckTarget { archive_root, db_path } => {
            assert_eq!(archive_root, "/lib");
            assert_eq!(db_path, database_path_of("/lib"));
        }
        other => panic!("{other:?}"),
    }
    let free = MigrationEvent::TargetChecked { archive_root: s("/lib"), exists: false };
    match run_if_needed(free) {
        MigrationAction::Copy { db_dir, db_path, .. } => {
            assert_eq!(db_dir, database_dir_of("/lib"));
            assert!(db_path.starts_with(&db_dir));
        }
        other => panic!("{other:?}"),
    }
    let copied = MigrationEvent::CopyMade {
        archive_root: s("/lib"),
        source: 5,
        copied: Copied::Segments(5),
    };
    assert!(!matches!(run_if_needed(copied), MigrationAction::RollBack { .. }));
    let recorded = MigrationEvent::Recorded { archive_root: s("/lib") };
    match run_if_needed(recorded) {
        MigrationAction::Finish(MigrationOutcome::Migrated { archive_root }) => {
            assert_eq!(archive_root, "/lib")
        }
        other => panic!("{other:?}"),
    }
}

#[test]
fn a_copy_with_too_few_rows_is_rolled_back() {
    for copied in [Copied::Segments(4), Copied::Unopenable(s("x")), Copied::Unreadable(s("y"))] {
        let e = MigrationEvent::CopyMade { archive_root: s("/lib"), source: 5, copied };
        match run_if_needed(e) {
            MigrationAction::RollBack { db_path, .. } => {
                assert_eq!(db_path, database_path_of("/lib"))
            }
            other => panic!("{other:?}"),
        }
    }
}

#[test]
fn nothing_moves_without_need() {
    let e = MigrationEvent::Started { legacy_exists: false, has_last_archive: false };
    assert!(matches!(outcome(run_if_needed(e)), MigrationOutcome::NotNeeded));
    let e = MigrationEvent::Discovered(Err(AppError::Internal(s("no segments"))));
    match outcome(run_if_needed(e)) {
        MigrationOutcome::Skipped { reason } => assert!(reason.contains("no segments")),
        other => panic!("{other:?}"),
    }
    assert_eq!(cleanup_orphan_files("/data"), vec![s("/data/recovery-config.json")]);
    assert!(!leftover_files("/data").is_empty());
    assert!(leftover_files("/data").iter().all(|p| p.starts_with("/data/")));
}

// The encoder

#[test]
fn the_encoder_says_what_it_can_do() {
    let version = read_version(true, "0", "ffmpeg version 7.0 built\nmore\n").unwrap();
    assert_eq!(version, "ffmpeg version 7.0 built");
    assert!(probe_ffmpeg(version, " V..... hevc_nvenc  NVENC").nvenc_hevc);
    assert!(!probe_ffmpeg(s("v"), "libx265").nvenc_hevc);
    assert!(read_version(false, "exit status: 1", "").is_err());
    assert!(read_version(true, "0", "avconv version 1\n").is_err());
    assert_eq!(first_line_of("a\nb"), "a");
}

fn args(curve: Vec<CurveSegment>) -> EncodeArgs {
    EncodeArgs {
        source_paths: vec![s("/v/1.MP4"), s("/v/2.MP4")],
        output_path: s("/a/Timelapses/t_8x_F.mp4"),
        encoder: Encoder::LibX265,
        curve,
        scratch_dir: s("/a/Timelapses/.tmp/t_8x_F"),
        cpu_pool_threads: None,
        software_input: false,
    }
}

fn stretch(a: i64, z: i64, rate: u32) -> CurveSegment {
    CurveSegment { concat_start: a, concat_end: z, rate }
}

#[test]
fn an_encode_is_a_list_of_steps() {
    let one = encode_trip_channel(&args(vec![stretch(0, 60_000, 8)])).unwrap();
    let runs = |steps: &Vec<tripviewer::timelapse::ffmpeg::Step>| {
        steps.iter().filter(|x| matches!(x.action, Action::Run { .. })).count()
    };
    let many = encode_trip_channel(&args(vec![
        stretch(0, 10_000, 16),
        stretch(10_000, 20_000, 1),
        stretch(20_000, 60_000, 16),
    ]))
    .unwrap();
    assert!(runs(&many) > runs(&one));
    let mut none = args(vec![stretch(0, 1, 8)]);
    none.source_paths.clear();
    assert!(encode_trip_channel(&none).is_err());
}

#[test]
fn arguments_follow_the_encoder() {
    let cpu = whole_arguments("/in", 8, Encoder::LibX265, false, Some(4), "/out");
    assert!(cpu.contains(&s("libx265")));
    assert!(!cpu.contains(&s("cuda")));
    assert_eq!(cpu.last().unwrap(), "/out");
    let gpu = encode_window("/in", 1500, 2000, 16, Encoder::HevcNvenc, false, None, "/out");
    assert!(gpu.contains(&s("hevc_nvenc")));
    assert!(gpu.contains(&s("1.500")));
    let list = write_concat_list(&vec![s("/v/it's.MP4")]);
    assert!(list.starts_with("file '"));
    assert!(list.contains("it'\\''s"));
}

#[test]
fn runs_are_watched() {
    assert!(matches!(watch(true, Look::Running), Watch::Kill));
    assert!(matches!(watch(false, Look::Running), Watch::Wait));
    assert!(matches!(watch(false, Look::Exited), Watch::Collect));
    assert!(matches!(watch(false, Look::Failed(s("x"))), Watch::Fail(_)));
    assert!(run_result(false, true, "0", "").is_ok());
    let err = run_result(false, false, "exit status: 1", "boom").unwrap_err().describe();
    assert!(err.contains("boom"));
    assert!(run_result(true, false, "", "").is_err());
}

#[test]
fn the_end_of_the_output_is_kept() {
    assert_eq!(tail_lines("a\nb\nc", 2), "b | c");
    assert_eq!(tail_lines("a", 2), "a");
    let mut buf = Vec::new();
    for _ in 0..10 {
        buf = drain_chunk(buf, &vec![1, 2, 3], 4);
    }
    let end = drain_end(buf, 4);
    assert_eq!(end, vec![3, 1, 2, 3]);
}
