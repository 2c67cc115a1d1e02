//! Bringing footage into the library.

use tripviewer::error::AppError;
use tripviewer::import::discovery::{
    card_in_drive, count_files_and_size, detect_dashcam_kind, drive_root, find_sd_cards,
    is_skipped_dir, linux_mount_roots, logical_drives, scan_linux_mount_roots, to_wide_null,
    MountChild,
};
use tripviewer::import::distribute::{
    apply_unknown_decisions, distribute_files, extract_date_from_filename, has_room,
    is_gps_sidecar, move_file, move_to_destination, outcome_of, plan_file, AfterCopy, DecisionStep, FileOutcome,
    FilePlan, Placement,
};
use tripviewer::import::stage::{
    check_space, enters_dir, hash_hex, is_progress_due, stage_source, walk_on,
};
use tripviewer::import::types::{
    DistributeResult, FileEntry, ImportSource, UnknownFile, UnknownFileAction, UnknownFileDecision,
    WalkedFile,
};
use tripviewer::import::{
    acquire_lock, begin_source, cancelled_result, error_result, folder_source,
    guard_against_self_import, handle_unknowns, import_dirs, lock_owner, lock_path, process_source,
    resolve_library_root, run_pipeline, ImportState, SourceEvent, SourcePhase, SourceRun,
};
use tripviewer::scan::naming::CameraKind;

fn folders(names: &[&str]) -> Option<Vec<String>> {
    Some(names.iter().map(|n| n.to_string()).collect())
}

fn kind(names: &[&str]) -> Option<CameraKind> {
    detect_dashcam_kind(&folders(names))
}

fn file(rel: &str, size: u64) -> WalkedFile {
    let name = rel.rsplit('/').next().unwrap().to_string();
    WalkedFile { name, rel_path: rel.to_string(), size }
}

// Finding cards

#[test]
fn test_is_dashcam_root_with_enough_folders() {
    assert_eq!(kind(&["front_norm", "rear_norm", "extra_norm"]), Some(CameraKind::WolfBox));
}

#[test]
fn test_is_dashcam_root_not_enough_folders() {
    assert!(kind(&["front_norm", "rear_norm"]).is_none());
}

#[test]
fn test_is_dashcam_root_case_insensitive() {
    assert!(kind(&["FRONT_NORM", "Rear_Norm", "extra_PHOTO"]).is_some());
}

#[test]
fn test_thinkware_folder_signature_matches() {
    assert_eq!(kind(&["cont_rec", "evt_rec", "manual_rec"]), Some(CameraKind::Thinkware));
}

#[test]
fn test_thinkware_two_folder_minimum() {
    assert_eq!(kind(&["cont_rec"]), None);
    assert_eq!(kind(&["cont_rec", "evt_rec"]), Some(CameraKind::Thinkware));
}

#[test]
fn test_thinkware_case_insensitive() {
    assert_eq!(kind(&["Cont_Rec", "EVT_REC"]), Some(CameraKind::Thinkware));
}

#[test]
fn test_wolfbox_wins_over_thinkware_when_both_signatures_present() {
    assert_eq!(
        kind(&["front_norm", "rear_norm", "extra_norm", "cont_rec", "evt_rec"]),
        Some(CameraKind::WolfBox)
    );
}

#[test]
fn test_seventymai_folder_signature_matches() {
    assert_eq!(
        kind(&["Normal", "Event", "Parking", "Lapse", "Photo"]),
        Some(CameraKind::SeventyMai)
    );
}

#[test]
fn test_seventymai_below_threshold() {
    assert_eq!(kind(&["Normal", "Event"]), None);
}

#[test]
fn test_seventymai_case_insensitive() {
    assert_eq!(kind(&["normal", "EVENT", "Parking", "lapse"]), Some(CameraKind::SeventyMai));
}

#[test]
fn test_is_skipped_dir() {
    assert!(is_skipped_dir("System Volume Information"));
    assert!(is_skipped_dir("$Recycle.Bin"));
    assert!(is_skipped_dir("$RECYCLE.BIN"));
    assert!(!is_skipped_dir("front_norm"));
}

fn child(path: &str, key: &str, names: &[&str]) -> MountChild {
    MountChild {
        path: path.to_string(),
        key: key.to_string(),
        is_dir: true,
        dir_names: folders(names),
    }
}

#[test]
fn test_scan_linux_mount_roots_finds_wolfbox() {
    let wolfbox = ["front_norm", "rear_norm", "extra_norm"];
    let cards = scan_linux_mount_roots(&vec![
        child("/run/media/u/disk", "/run/media/u/disk", &wolfbox),
        child("/run/media/u/Matrix", "/run/media/u/Matrix", &["Documents"]),
    ]);
    assert_eq!(cards.len(), 1, "only the Wolf Box card should be returned");
    assert_eq!(cards[0].label, "disk");
    assert_eq!(cards[0].kind, CameraKind::WolfBox);
    let files = vec![vec![file("front_norm/a.mp4", 5)]];
    let sources = find_sd_cards(cards, &files, &vec![false]).unwrap();
    assert_eq!(sources.len(), 1);
    assert_eq!(sources[0].detected_kind, Some(CameraKind::WolfBox));
    assert_eq!((sources[0].file_count, sources[0].total_bytes), (1, 5));
    assert!(sources[0].read_only);
}

#[test]
fn test_scan_linux_mount_roots_dedups_across_parents() {
    let wolfbox = ["front_norm", "rear_norm", "extra_norm"];
    let cards = scan_linux_mount_roots(&vec![
        child("/run/media/u/disk", "/run/media/u/disk", &wolfbox),
        child("/media/u/disk", "/run/media/u/disk", &wolfbox),
    ]);
    assert_eq!(cards.len(), 1);
}

#[test]
fn test_scan_linux_mount_roots_missing_parent_is_ok() {
    assert!(scan_linux_mount_roots(&Vec::new()).is_empty());
    assert!(detect_dashcam_kind(&None).is_none());
}

#[test]
fn test_count_files_and_size() {
    let files = vec![file("front_norm/test.mp4", 5), file("front_norm/test2.mp4", 6)];
    let (count, size) = count_files_and_size(&files);
    assert_eq!(count, 2);
    assert_eq!(size, 11);
}

#[test]
fn files_that_hold_space_do_not_count() {
    let files = vec![file("a/.PreAllocFile_1", 1000), file("a/b.mp4", 7)];
    assert_eq!(count_files_and_size(&files), (1, 7));
}

#[test]
fn drives_are_mounted_in_known_places() {
    assert_eq!(
        linux_mount_roots(&Some("kim".to_string())),
        vec!["/run/media/kim", "/media/kim", "/media", "/mnt", "/run/media"]
    );
    assert_eq!(linux_mount_roots(&Some(String::new())), linux_mount_roots(&None));
    assert_eq!(linux_mount_roots(&None).len(), 3);
}

#[test]
fn windows_drives_are_letters() {
    assert!(logical_drives(0).is_err());
    assert_eq!(logical_drives(0b1101).unwrap(), vec![0, 2, 3]);
    assert_eq!(drive_root(3), "D:\\");
    let names = folders(&["cont_rec", "evt_rec"]);
    let card = card_in_drive(3, 2, &names).unwrap();
    assert_eq!((card.label.as_str(), card.path.as_str()), ("sd-D", "D:\\"));
    assert!(card_in_drive(3, 3, &names).is_none());
    assert_eq!(to_wide_null("a\u{20ac}\u{1f600}"), vec![0x61, 0x20ac, 0xd83d, 0xde00, 0]);
}

// The library

#[test]
fn guard_rejects_source_equal_to_library_root() {
    assert!(guard_against_self_import("/lib", "/lib").is_err(), "source == root must be refused");
}

#[test]
fn guard_rejects_source_inside_library_root() {
    let err = guard_against_self_import("/lib/subdir", "/lib").unwrap_err();
    assert_eq!(
        err.describe(),
        "Source folder is inside the library at /lib \u{2014} pick a folder outside the library."
    );
}

#[test]
fn guard_rejects_source_containing_library_root() {
    let result = guard_against_self_import("/outer", "/outer/library");
    assert!(result.is_err(), "source containing the library must be refused");
}

#[test]
fn guard_accepts_disjoint_paths() {
    let result = guard_against_self_import("/a", "/b");
    assert!(result.is_ok(), "unrelated source and root must pass: {result:?}");
    assert!(guard_against_self_import("/library2", "/library").is_ok());
}

#[test]
fn resolve_library_root_strips_videos_suffix() {
    assert_eq!(resolve_library_root("/parent/Videos"), "/parent");
    assert_eq!(resolve_library_root("/parent/vIDEOS"), "/parent");
    assert_eq!(resolve_library_root("/parent"), "/parent");
}

#[test]
fn an_import_needs_its_directories_and_a_lock() {
    assert_eq!(
        import_dirs("/lib"),
        vec!["/lib/Videos", "/lib/Photos", "/lib/.staging", "/lib/.logs"]
    );
    assert_eq!(lock_path("/lib"), "/lib/.staging/.lock");
    assert_eq!(lock_owner(" 42\n"), Some(42));
    assert_eq!(lock_owner("4294967296"), None);
    let contents = Some("42".to_string());
    assert!(acquire_lock("/l", &contents, false).is_ok());
    assert!(acquire_lock("/l", &Some("me".to_string()), false).is_err());
    let err = acquire_lock("/l", &contents, true).unwrap_err();
    assert_eq!(
        err.describe(),
        "Lock file exists at /l \u{2014} another import may be running"
    );
}

#[test]
fn one_import_at_a_time() {
    let mut s = ImportState::new();
    assert!(matches!(s.cancel_import(), Err(AppError::NoImportRunning)));
    assert!(matches!(s.check_answer(), Err(AppError::NoImportRunning)));
    assert!(s.start_import("/lib", &vec!["/lib/x".to_string()]).is_err());
    assert!(!s.running);
    s.start_import("/lib", &vec!["/card".to_string()]).unwrap();
    assert!(matches!(
        s.start_import("/lib", &vec!["/card".to_string()]),
        Err(AppError::ImportAlreadyRunning)
    ));
    s.check_answer().unwrap();
    s.cancel_import().unwrap();
    assert!(s.cancelled);
    s.finish();
    s.start_import("/lib", &vec!["/card".to_string()]).unwrap();
    assert!(!s.cancelled);
}

// Copying

fn source(read_only: bool) -> ImportSource {
    ImportSource {
        path: "/card".to_string(),
        label: "sd".to_string(),
        read_only,
        file_count: 0,
        total_bytes: 0,
        detected_kind: None,
    }
}

#[test]
fn every_copy_is_checked() {
    let files = vec![file("a/1.mp4", 10), file("a/.PreAllocFile_x", 99), file("2.jpg", 5)];
    let mut s = stage_source(&source(false), "/lib", files);
    assert_eq!(s.bytes_total, 15);
    let step = s.next_copy(false).unwrap().unwrap();
    assert_eq!(step.src, "/card/a/1.mp4");
    assert_eq!(step.dst, "/lib/.staging/sd/a/1.mp4");
    assert_eq!(step.parent.as_deref(), Some("/lib/.staging/sd/a"));
    s.record_copy([7; 32], [7; 32]).unwrap();
    assert_eq!(s.bytes_done, 10);
    assert!(s.next_copy(true).is_err(), "a cancelled import goes no further");
    s.record_copy([8; 32], [8; 32]).unwrap();
    assert!(s.next_copy(true).unwrap().is_none());
    let manifest = s.finish();
    assert_eq!(manifest.len(), 2);
    assert!(manifest.iter().all(|e| e.verified));
    assert_eq!(manifest[1].staged_path, "/lib/.staging/sd/2.jpg");
    assert_eq!(manifest[1].source_hash, [8; 32]);
}

#[test]
fn a_copy_that_differs_stops_the_import() {
    let mut s = stage_source(&source(false), "/lib", vec![file("1.mp4", 10)]);
    let err = s.record_copy([0xab; 32], [0xac; 32]).unwrap_err().describe();
    assert!(err.starts_with("Hash mismatch after copying file!\nSource: /card/1.mp4\n"));
    assert!(err.contains(&format!("Expected: {}\nGot:      {}\n", "ab".repeat(32), "ac".repeat(32))));
    assert!(err.ends_with("The source has NOT been wiped. Your files are safe."));
    assert!(!s.manifest[0].verified);
    assert_eq!(hash_hex(&[0x0f; 32]), "0f".repeat(32));
}

#[test]
fn the_walk_passes_system_and_hidden_directories() {
    assert!(enters_dir(0, ".card"));
    assert!(!enters_dir(1, ".Trash"));
    assert!(!enters_dir(1, "System Volume Information"));
    assert!(enters_dir(1, "Normal"));
    assert_eq!(walk_on(true, &None).unwrap_err().describe(), "interrupted by user");
    let broken = Some("no such file".to_string());
    assert_eq!(walk_on(false, &broken).unwrap_err().describe(), "walk source: no such file");
    assert!(walk_on(false, &None).is_ok());
}

#[test]
fn copies_need_room() {
    assert!(check_space(10, None).is_ok());
    assert!(check_space(10, Some(10)).is_ok());
    assert_eq!(
        check_space(10, Some(9)).unwrap_err().describe(),
        "insufficient disk space: need 10 bytes, have 9 bytes free"
    );
    assert!(is_progress_due(3, 3, 0));
    assert!(!is_progress_due(2, 3, 65));
    assert!(is_progress_due(2, 3, 66));
}

// Sorting

fn entry(rel: &str) -> FileEntry {
    FileEntry {
        rel_path: rel.to_string(),
        size: 3,
        source_hash: [1; 32],
        staged_path: format!("/lib/.staging/sd/{rel}"),
        verified: true,
    }
}

#[test]
fn files_go_where_they_belong() {
    let plan = |rel: &str, ignored: bool| plan_file(&entry(rel), "/lib", ignored, false).unwrap();
    assert!(matches!(plan("a/.PreAllocFile_1.mp4", false), FilePlan::Discard));
    assert!(matches!(plan("a/b.mp4", true), FilePlan::Discard));
    match plan("GPSData1.txt", false) {
        FilePlan::KeepLog { dest } => assert_eq!(dest, "/lib/GPSData1.txt"),
        other => panic!("{other:?}"),
    }
    match plan("a/B.MP4", false) {
        FilePlan::Place { dest_dir, filename, is_video } => {
            assert_eq!((dest_dir.as_str(), filename.as_str()), ("/lib/Videos", "B.MP4"));
            assert!(is_video);
        }
        other => panic!("{other:?}"),
    }
    match plan("a/p.JPeG", false) {
        FilePlan::Place { dest_dir, is_video, .. } => {
            assert_eq!(dest_dir, "/lib/Photos");
            assert!(!is_video);
        }
        other => panic!("{other:?}"),
    }
    match plan("a/x.DAT", false) {
        FilePlan::Ask(u) => {
            assert_eq!((u.extension.as_str(), u.filename.as_str()), (".dat", "x.DAT"));
            assert_eq!(u.staged_path, "/lib/.staging/sd/a/x.DAT");
            assert_eq!(u.size, 3);
        }
        other => panic!("{other:?}"),
    }
    match plan("a/.hidden", false) {
        FilePlan::Ask(u) => assert_eq!(u.extension, ""),
        other => panic!("{other:?}"),
    }
    assert!(plan_file(&entry("a.mp4"), "/lib", false, true).is_err());
    assert!(is_gps_sidecar("gpsdata.TXT"));
    assert!(!is_gps_sidecar("gpsdata.csv"));
}

#[test]
fn taken_names_get_a_number() {
    let taken: Vec<String> = ["a.mp4", "a_1.mp4", "a_2.mp4"].iter().map(|s| s.to_string()).collect();
    assert!(has_room(&"b.mp4".to_string(), &taken));
    assert!(!has_room(&"a.mp4".to_string(), &taken));
    let same = move_to_destination(&[1; 32], &[1; 32], "/lib/Videos", "a.mp4", &taken);
    assert!(matches!(same, Placement::Duplicate));
    match move_to_destination(&[1; 32], &[2; 32], "/lib/Videos", "a.mp4", &taken) {
        Placement::Renamed { dest, name, warning } => {
            assert_eq!(name, "a_3.mp4");
            assert_eq!(dest, "/lib/Videos/a_3.mp4");
            assert_eq!(
                warning,
                "Name collision with different content: a.mp4 \u{2014} saved as a_3.mp4"
            );
        }
        other => panic!("{other:?}"),
    }
}

#[test]
fn a_move_to_another_drive_is_checked() {
    assert!(matches!(move_file(&[1; 32], &[1; 32]), AfterCopy::RemoveSource));
    match move_file(&[1; 32], &[2; 32]) {
        AfterCopy::RemoveCopy(e) => {
            assert_eq!(e.describe(), "hash mismatch in cross-volume move fallback")
        }
        other => panic!("{other:?}"),
    }
}

#[test]
fn dates_are_read_from_names() {
    assert_eq!(
        extract_date_from_filename("2026_04_08_163201_00_F.MP4").as_deref(),
        Some("2026-04-08")
    );
    assert!(extract_date_from_filename("NO20260519-134050-000000F.MP4").is_none());
    assert!(extract_date_from_filename("2026_4_08_x.MP4").is_none());
    assert!(extract_date_from_filename("2026_04.MP4").is_none());
}

#[test]
fn what_became_of_the_files_adds_up() {
    let video = |n: &str| FileOutcome::VideoMoved { filename: n.to_string() };
    let unknown = UnknownFile {
        staged_path: "/s".into(),
        rel_path: "s".into(),
        extension: "".into(),
        filename: "s".into(),
        size: 1,
    };
    let (r, asked) = distribute_files(vec![
        video("2026_04_08_163201_00_F.MP4"),
        FileOutcome::Discarded,
        video("2025_12_31_163201_00_F.MP4"),
        FileOutcome::PhotoMoved,
        FileOutcome::Duplicate,
        FileOutcome::LogKept,
        FileOutcome::Unknown(unknown),
        video("no date.mp4"),
    ]);
    assert_eq!((r.videos_moved, r.photos_moved, r.dups_skipped), (3, 1, 1));
    assert_eq!(r.earliest_date.as_deref(), Some("2025-12-31"));
    assert_eq!(r.latest_date.as_deref(), Some("2026-04-08"));
    assert_eq!(asked.len(), 1);
}

#[test]
fn each_plan_has_its_outcome() {
    let fate = |rel: &str, ignored: bool, moved: bool| {
        outcome_of(plan_file(&entry(rel), "/lib", ignored, false).unwrap(), moved)
    };
    match fate("A.MP4", false, true) {
        FileOutcome::VideoMoved { filename } => assert_eq!(filename, "A.MP4"),
        other => panic!("{other:?}"),
    }
    assert!(matches!(fate("A.MP4", false, false), FileOutcome::Duplicate));
    assert!(matches!(fate("A.MP4", true, false), FileOutcome::Discarded));
    assert!(matches!(fate("b.Png", false, true), FileOutcome::PhotoMoved));
    assert!(matches!(fate("b.Png", false, false), FileOutcome::Duplicate));
    assert!(matches!(fate("GPSData1.txt", false, true), FileOutcome::LogKept));
    match fate("c.DAT", false, false) {
        FileOutcome::Unknown(u) => assert_eq!(u.filename, "c.DAT"),
        other => panic!("{other:?}"),
    }
    let (r, asked) = distribute_files(vec![
        fate("a/1.mp4", false, true),
        fate("a/2.mp4", false, false),
        fate("a/3.jpg", false, true),
        fate("a/4.bin", false, false),
        fate("a/5.mp4", true, false),
    ]);
    assert_eq!((r.videos_moved, r.photos_moved, r.dups_skipped), (1, 1, 1));
    assert_eq!(asked.len(), 1);
}

#[test]
fn decisions_are_carried_out() {
    let decide = |path: &str, action| UnknownFileDecision { staged_path: path.into(), action };
    let steps = apply_unknown_decisions(
        &vec![
            decide("/s/a.DAT", UnknownFileAction::DeleteFilename),
            decide("/s/gone.x", UnknownFileAction::MoveToOther),
            decide("/s/b.DAT", UnknownFileAction::DeleteExtension),
            decide("/s/c.bin", UnknownFileAction::MoveToOther),
        ],
        &vec![true, false, true, true],
        "/lib",
    );
    assert_eq!(steps.len(), 3);
    match &steps[0] {
        DecisionStep::DeleteAndIgnoreName { path, filename } => {
            assert_eq!((path.as_str(), filename.as_str()), ("/s/a.DAT", "a.DAT"))
        }
        other => panic!("{other:?}"),
    }
    match &steps[1] {
        DecisionStep::DeleteAndIgnoreExtension { extension, .. } => assert_eq!(extension, ".dat"),
        other => panic!("{other:?}"),
    }
    match &steps[2] {
        DecisionStep::MoveToOther { dir, dest, .. } => {
            assert_eq!((dir.as_str(), dest.as_str()), ("/lib/Other", "/lib/Other/c.bin"))
        }
        other => panic!("{other:?}"),
    }
}

// One source after the other

fn staged(run: SourceRun, verified: bool, cancelled: bool) -> SourceRun {
    let mut e = entry("a.mp4");
    e.verified = verified;
    process_source(run, SourceEvent::Staged(Ok(vec![e])), cancelled)
}

fn moved() -> SourceEvent {
    SourceEvent::Distributed(Ok((
        DistributeResult {
            videos_moved: 1,
            photos_moved: 0,
            dups_skipped: 0,
            earliest_date: None,
            latest_date: None,
        },
        true,
    )))
}

#[test]
fn a_card_is_copied_wiped_and_sorted() {
    let run = staged(begin_source(&source(false), true), true, false);
    assert_eq!(run.phase, SourcePhase::ConfirmWipe);
    assert_eq!((run.result.files_staged, run.result.bytes_staged), (1, 3));
    let run = process_source(run, SourceEvent::WipeAnswer(Some(true)), false);
    assert_eq!(run.phase, SourcePhase::Wipe);
    let run = process_source(run, SourceEvent::Wiped(Ok(())), false);
    assert!(run.result.source_wiped);
    let run = process_source(run, moved(), false);
    assert_eq!(run.phase, SourcePhase::AskUnknowns);
    let run = process_source(run, SourceEvent::UnknownsHandled(4), false);
    let run = process_source(run, SourceEvent::CleanedUp(Ok(())), false);
    assert_eq!(run.phase, SourcePhase::Done);
    assert_eq!((run.result.videos_moved, run.result.unknown_files), (1, 4));
    assert!(run.result.error.is_none() && run.result.warnings.is_empty());
}

#[test]
fn nothing_is_wiped_without_need() {
    let phase = |read_only, eligible, verified, cancelled| {
        staged(begin_source(&source(read_only), eligible), verified, cancelled).phase
    };
    assert_eq!(phase(false, true, true, false), SourcePhase::ConfirmWipe);
    assert_eq!(phase(true, true, true, false), SourcePhase::Distribute);
    assert_eq!(phase(false, false, true, false), SourcePhase::Distribute);
    assert_eq!(phase(false, true, false, false), SourcePhase::Distribute);
    assert_eq!(phase(false, true, true, true), SourcePhase::Cleanup);
    for answer in [None, Some(false)] {
        let run = staged(begin_source(&source(false), true), true, false);
        let run = process_source(run, SourceEvent::WipeAnswer(answer), false);
        assert_eq!(run.phase, SourcePhase::Distribute);
        assert!(!run.result.source_wiped);
    }
}

#[test]
fn failures_are_reported() {
    let broken = || AppError::Internal("broken".into());
    let run = process_source(
        begin_source(&source(false), true),
        SourceEvent::Staged(Err(broken())),
        false,
    );
    assert_eq!(run.phase, SourcePhase::Done);
    assert_eq!(run.result.error.as_deref(), Some("broken"));
    let run = process_source(
        begin_source(&source(false), true),
        SourceEvent::Staged(Ok(vec![])),
        false,
    );
    assert!(run.result.no_files);
    let run = staged(begin_source(&source(false), true), true, false);
    let run = process_source(run, SourceEvent::WipeAnswer(Some(true)), false);
    let run = process_source(run, SourceEvent::Wiped(Err(broken())), false);
    assert_eq!(run.phase, SourcePhase::Distribute, "the copies are kept");
    assert_eq!(run.result.warnings, vec!["Wipe failed: broken"]);
    let run = process_source(run, SourceEvent::Distributed(Err(broken())), false);
    assert_eq!(run.result.error.as_deref(), Some("Distribute failed: broken"));
    let run = staged(begin_source(&source(false), false), true, true);
    let run = process_source(run, SourceEvent::CleanedUp(Err(broken())), true);
    assert_eq!(run.result.warnings, vec!["Cleanup error: broken"]);
    let run = process_source(run, SourceEvent::UnknownsHandled(1), false);
    assert_eq!(run.phase, SourcePhase::Done, "nothing follows the end");
}

#[test]
fn what_was_not_reached_is_cancelled() {
    let r = run_pipeline(vec![cancelled_result(&source(true))], &vec![source(false)], None);
    assert_eq!(r.sources.len(), 2);
    assert_eq!(r.sources[1].error.as_deref(), Some("Cancelled by user"));
    assert_eq!(r.sources[1].source_path, "/card");
    let r = error_result("no log".to_string(), Some("/log".to_string()));
    assert_eq!(r.sources.len(), 1);
    assert_eq!(r.sources[0].error.as_deref(), Some("no log"));
    assert_eq!(r.log_path.as_deref(), Some("/log"));
    assert_eq!(handle_unknowns(Some(Ok(3))), 3);
    assert_eq!(handle_unknowns(Some(Err(AppError::NoImportRunning))), 0);
    assert_eq!(handle_unknowns(None), 0);
    assert_eq!(folder_source("/home/kim/old").label, "old");
    assert_eq!(folder_source("/").label, "folder");
}
