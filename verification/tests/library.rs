//! The tables of an archive: what a scan writes, keeps and removes.

use tripviewer::db::manual_trip_merges::MergeTable;
use tripviewer::db::migrations::{check_version, relativize_outputs, HEAD_VERSION};
use tripviewer::db::queries::{all_segments, list_archive_only_trips, load_tombstones_for_trips};
use tripviewer::db::rows::{JobRow, JobStatus, Library};
use tripviewer::db::segments::{camera_kind_from_str, camera_kind_to_str, persist_and_gc, PathEntry};
use tripviewer::db::timelapse_jobs::{
    get, list_by_status, mark_failed, mark_running, reset_to_pending, upsert_pending,
};
use tripviewer::db::trip_merging::apply_merges_to_trips;
use tripviewer::error::AppError;
use tripviewer::ids::{
    derive_segment_id, derive_trip_id, id_text, is_uuid_shape, parse_trip_uuid, parse_trip_uuids,
};
use tripviewer::model::{Channel, Segment, Trip};
use tripviewer::moment::civil_moment;
use tripviewer::scan::naming::CameraKind;

const ROOT: &str = "/tmp/tripviewer-test-archive";

fn uuid(byte: u8) -> u128 {
    u128::from_be_bytes([byte; 16])
}

fn sample_segment(master_path: &str, seconds: i64) -> Segment {
    let start_time = civil_moment(2025, 1, 1, 12, 0, 0).unwrap().later(seconds);
    Segment {
        id: derive_segment_id(master_path, start_time),
        start_time,
        duration_ms: 60_000,
        is_event: false,
        channels: vec![Channel {
            label: "Front".into(),
            file_path: master_path.into(),
            width: None,
            height: None,
            fps_num: None,
            fps_den: None,
            codec: None,
            has_gpmd_track: false,
        }],
        camera_kind: CameraKind::WolfBox,
        gps_supported: true,
        size_bytes: None,
        is_tombstone: false,
    }
}

fn sample_trip(segments: Vec<Segment>) -> Trip {
    Trip {
        id: derive_trip_id(segments[0].id),
        start_time: segments[0].start_time,
        end_time: segments[segments.len() - 1].start_time,
        camera_kind: segments[0].camera_kind,
        gps_supported: segments[0].gps_supported,
        segments,
        archive_only: false,
    }
}

fn persist(lib: Library, trips: Vec<Trip>, now_ms: i64) -> Library {
    persist_and_gc(lib, trips, &MergeTable::new(), now_ms, &Vec::new(), ROOT).0
}

fn done_job(trip_id: &str) -> JobRow {
    JobRow {
        trip_id: trip_id.to_string(),
        tier: "8x".into(),
        channel: "F".into(),
        status: JobStatus::Done,
        output_path: Some("/tl/8x_F.mp4".into()),
        error_message: None,
        ffmpeg_version: None,
        encoder_used: None,
        padded_count: None,
        speed_curve_json: None,
        output_size_bytes: None,
        created_at_ms: 1500,
        completed_at_ms: Some(1500),
    }
}

fn bury(lib: &mut Library, id: u128) {
    for s in lib.segments.iter_mut() {
        if s.id == id_text(id) {
            s.is_tombstone = true;
            s.master_path = String::new();
        }
    }
}

// Joins of trips

fn primary_of(t: &MergeTable, absorbed: u128) -> Option<u128> {
    t.list_merges().iter().find(|m| m.0 == absorbed).map(|m| m.1)
}

#[test]
fn insert_and_list_roundtrip() {
    let mut t = MergeTable::new();
    t.insert_merge(uuid(0xAA), uuid(0xBB), 1000).unwrap();
    assert_eq!(primary_of(&t, uuid(0xBB)), Some(uuid(0xAA)));
}

#[test]
fn insert_self_fails() {
    let mut t = MergeTable::new();
    let err = t.insert_merge(uuid(0xCC), uuid(0xCC), 1000).unwrap_err();
    assert!(err.describe().contains("itself"));
}

#[test]
fn inserting_when_absorbed_was_primary_flattens_chain() {
    let (a, b, c) = (uuid(0x01), uuid(0x02), uuid(0x03));
    let mut t = MergeTable::new();
    t.insert_merge(a, b, 1000).unwrap();
    t.insert_merge(c, a, 1001).unwrap();
    assert_eq!(primary_of(&t, a), Some(c));
    assert_eq!(primary_of(&t, b), Some(c));
    let a_as_primary = t.rows.iter().filter(|r| r.primary == a).count();
    assert_eq!(a_as_primary, 0, "a must no longer appear as a primary");
}

#[test]
fn inserting_when_primary_was_absorbed_resolves_to_root() {
    let (a, b, c) = (uuid(0x01), uuid(0x02), uuid(0x03));
    let mut t = MergeTable::new();
    t.insert_merge(a, b, 1000).unwrap();
    t.insert_merge(b, c, 1001).unwrap();
    assert_eq!(primary_of(&t, c), Some(a));
    assert_eq!(primary_of(&t, b), Some(a));
}

#[test]
fn inserting_self_merge_after_resolution_fails() {
    let (a, b) = (uuid(0x01), uuid(0x02));
    let mut t = MergeTable::new();
    t.insert_merge(a, b, 1000).unwrap();
    let err = t.insert_merge(b, a, 1001).unwrap_err();
    assert!(err.describe().contains("itself"));
}

#[test]
fn delete_removes_directive() {
    let mut t = MergeTable::new();
    t.insert_merge(uuid(0xAA), uuid(0xBB), 1000).unwrap();
    t.delete_merge(uuid(0xBB));
    assert!(t.list_merges().is_empty());
}

#[test]
fn upsert_overwrites_primary() {
    let mut t = MergeTable::new();
    t.insert_merge(uuid(0xA1), uuid(0xBB), 1000).unwrap();
    t.insert_merge(uuid(0xA2), uuid(0xBB), 1100).unwrap();
    assert_eq!(primary_of(&t, uuid(0xBB)), Some(uuid(0xA2)));
}

#[test]
fn chains_lead_to_their_root() {
    let mut t = MergeTable::new();
    t.insert_merge(uuid(1), uuid(2), 1000).unwrap();
    assert_eq!(t.resolve_to_root(uuid(2)).unwrap(), uuid(1));
    assert_eq!(t.resolve_to_root(uuid(1)).unwrap(), uuid(1));
    assert_eq!(t.parent(uuid(2)), Some(uuid(1)));
    assert_eq!(t.parent(uuid(1)), None);
    t.rows[0].primary = uuid(2);
    let err = t.resolve_to_root(uuid(2)).unwrap_err();
    assert_eq!(
        err.describe(),
        "cycle detected in manual_trip_merges chain starting at \
         02020202-0202-0202-0202-020202020202"
    );
}

// What a scan writes

#[test]
fn upsert_is_idempotent() {
    let trip = || sample_trip(vec![sample_segment("C:/vids/a.mp4", 0)]);
    let lib = persist(Library::new(), vec![trip()], 1_000);
    let lib = persist(lib, vec![trip()], 2_000);
    assert_eq!(lib.segments.len(), 1);
    assert_eq!(lib.trips.len(), 1);
}

#[test]
fn size_bytes_round_trips_and_does_not_clobber_with_null() {
    let mut seg = sample_segment("C:/vids/a.mp4", 0);
    seg.size_bytes = Some(12_345_678);
    let lib = persist(Library::new(), vec![sample_trip(vec![seg])], 1_000);
    assert_eq!(lib.segments[0].size_bytes, Some(12_345_678));

    let unstat = sample_trip(vec![sample_segment("C:/vids/a.mp4", 0)]);
    let lib = persist(lib, vec![unstat], 2_000);
    assert_eq!(
        lib.segments[0].size_bytes,
        Some(12_345_678),
        "a None-sized re-upsert must preserve the previously-known size",
    );
}

#[test]
fn gc_removes_segments_not_seen_in_latest_scan() {
    let a = || sample_segment("C:/vids/a.mp4", 0);
    let b = sample_segment("C:/vids/b.mp4", 60);
    let lib = persist(Library::new(), vec![sample_trip(vec![a(), b])], 1_000);
    let lib = persist(lib, vec![sample_trip(vec![a()])], 2_000);
    assert_eq!(lib.segments.len(), 1);
}

#[test]
fn trip_with_timelapse_job_survives_gc_when_segments_vanish() {
    let trip = sample_trip(vec![sample_segment("C:/vids/a.mp4", 0)]);
    let trip_id = id_text(trip.id);
    let mut lib = persist(Library::new(), vec![trip], 1_000);
    lib.jobs.push(done_job(&trip_id));
    let lib = persist(lib, vec![], 2_000);
    assert_eq!(lib.segments.len(), 0, "segments should be GC'd when not seen");
    assert_eq!(lib.trips.len(), 1, "trip with timelapse_jobs row must survive GC");
    assert_eq!(lib.jobs.len(), 1);
    let archived = list_archive_only_trips(&lib).unwrap();
    assert_eq!(archived.len(), 1);
    assert!(archived[0].archive_only);
    assert_eq!(id_text(archived[0].id), trip_id);
}

#[test]
fn tombstone_segments_survive_gc() {
    let real = || sample_segment("C:/vids/a.mp4", 0);
    let tomb = sample_segment("C:/vids/b.mp4", 60);
    let tomb_id = tomb.id;
    let mut lib = persist(Library::new(), vec![sample_trip(vec![real(), tomb])], 1_000);
    bury(&mut lib, tomb_id);
    lib.jobs.push(done_job(&id_text(derive_trip_id(real().id))));
    let lib = persist(lib, vec![sample_trip(vec![real()])], 2_000);
    assert_eq!(lib.segments.len(), 2, "tombstone must survive the post-scan GC");
    assert_eq!(lib.segments.iter().filter(|s| s.is_tombstone).count(), 1);
}

#[test]
fn upsert_clears_is_tombstone_when_originals_return() {
    let seg = || sample_segment("C:/vids/a.mp4", 0);
    let mut lib = persist(Library::new(), vec![sample_trip(vec![seg()])], 1_000);
    bury(&mut lib, seg().id);
    let lib = persist(lib, vec![sample_trip(vec![seg()])], 2_000);
    assert_eq!(lib.segments.len(), 1);
    assert!(!lib.segments[0].is_tombstone, "re-imported segment must lose tombstone flag");
    assert_eq!(lib.segments[0].master_path, "C:/vids/a.mp4");
}

#[test]
fn load_tombstones_returns_only_tombstones_for_requested_trips() {
    let real = sample_segment("C:/vids/a.mp4", 0);
    let tomb = sample_segment("C:/vids/b.mp4", 60);
    let tomb_id = tomb.id;
    let trip = sample_trip(vec![real, tomb]);
    let trip_id = id_text(trip.id);
    let mut lib = persist(Library::new(), vec![trip], 1_000);
    bury(&mut lib, tomb_id);

    let groups = load_tombstones_for_trips(&lib.segments, &vec![trip_id.clone()]).unwrap();
    let group = groups.iter().find(|g| g.trip_id == trip_id).expect("a bucket");
    assert_eq!(group.segments.len(), 1);
    assert_eq!(group.segments[0].id, tomb_id);
    assert!(group.segments[0].is_tombstone);
    assert!(group.segments[0].channels.is_empty());
    assert!(load_tombstones_for_trips(&lib.segments, &vec![]).unwrap().is_empty());
}

#[test]
fn trip_without_timelapse_job_is_gcd_when_segments_vanish() {
    let trip = sample_trip(vec![sample_segment("C:/vids/a.mp4", 0)]);
    let lib = persist(Library::new(), vec![trip], 1_000);
    let lib = persist(lib, vec![], 2_000);
    assert_eq!(lib.trips.len(), 0);
}

#[test]
fn paths_in_the_archive_are_stored_relative() {
    let path = "/tmp/tripviewer-test-archive/Videos/a.mp4";
    let known = vec![PathEntry { path: path.to_string(), canonical: path.to_string() }];
    let trip = sample_trip(vec![sample_segment(path, 0)]);
    let (lib, _) =
        persist_and_gc(Library::new(), vec![trip], &MergeTable::new(), 1_000, &known, ROOT);
    assert_eq!(lib.segments[0].master_path, "Videos/a.mp4");
    let records = all_segments(&lib.segments, ROOT);
    assert_eq!(records.len(), 1);
    assert_eq!(records[0].master_path, path);
}

// Joins and scans

fn merge_table(joins: &[(u128, u128)]) -> MergeTable {
    let mut t = MergeTable::new();
    for (absorbed, primary) in joins {
        t.insert_merge(*primary, *absorbed, 500).unwrap();
    }
    t
}

#[test]
fn apply_merges_noop_when_map_empty() {
    let trip = sample_trip(vec![sample_segment("C:/vids/a.mp4", 0)]);
    let id = trip.id;
    let out = apply_merges_to_trips(vec![trip], &MergeTable::new());
    assert_eq!(out.len(), 1);
    assert_eq!(out[0].id, id);
}

#[test]
fn apply_merges_folds_absorbed_into_primary() {
    let a = sample_trip(vec![sample_segment("C:/vids/a.mp4", 0)]);
    let b = sample_trip(vec![sample_segment("C:/vids/b.mp4", 600)]);
    let primary = a.id;
    let merges = merge_table(&[(b.id, primary)]);
    let out = apply_merges_to_trips(vec![a, b], &merges);
    assert_eq!(out.len(), 1, "two trips should fold into one");
    assert_eq!(out[0].id, primary);
    assert_eq!(out[0].segments.len(), 2);
    let (x, y) = (out[0].segments[0].start_time, out[0].segments[1].start_time);
    assert!(x.order_key() < y.order_key());
}

#[test]
fn apply_merges_coalesces_three_into_one() {
    let a = sample_trip(vec![sample_segment("C:/vids/a.mp4", 0)]);
    let b = sample_trip(vec![sample_segment("C:/vids/b.mp4", 600)]);
    let c = sample_trip(vec![sample_segment("C:/vids/c.mp4", 1200)]);
    let primary = a.id;
    let merges = merge_table(&[(b.id, primary), (c.id, primary)]);
    let out = apply_merges_to_trips(vec![a, b, c], &merges);
    assert_eq!(out.len(), 1);
    assert_eq!(out[0].id, primary);
    assert_eq!(out[0].segments.len(), 3);
}

#[test]
fn apply_merges_skips_orphaned_directives() {
    let a = sample_trip(vec![sample_segment("C:/vids/a.mp4", 0)]);
    let orphan_primary = uuid(0xFF);
    let merges = merge_table(&[(a.id, orphan_primary)]);
    let out = apply_merges_to_trips(vec![a], &merges);
    assert_eq!(out.len(), 1);
    assert_eq!(
        out[0].id, orphan_primary,
        "absorbed trip should be relabeled even when primary isn't in the natural set",
    );
}

#[test]
fn apply_merges_persists_across_persist_and_gc() {
    let a = sample_trip(vec![sample_segment("C:/vids/a.mp4", 0)]);
    let b = sample_trip(vec![sample_segment("C:/vids/b.mp4", 600)]);
    let primary = a.id;
    let merges = merge_table(&[(b.id, primary)]);
    let (lib, _) = persist_and_gc(Library::new(), vec![a, b], &merges, 1_000, &Vec::new(), ROOT);
    assert_eq!(lib.trips.len(), 1, "absorbed trip's row must not be persisted");
    let under = lib.segments.iter().filter(|s| s.trip_id == id_text(primary)).count();
    assert_eq!(under, 2, "both segments should now live under the primary trip");
}

#[test]
fn persist_and_gc_returns_merged_trips_for_caller() {
    let a = sample_trip(vec![sample_segment("C:/vids/a.mp4", 0)]);
    let b = sample_trip(vec![sample_segment("C:/vids/b.mp4", 600)]);
    let primary = a.id;
    let merges = merge_table(&[(b.id, primary)]);
    let (_, returned) =
        persist_and_gc(Library::new(), vec![a, b], &merges, 1_000, &Vec::new(), ROOT);
    assert_eq!(returned.len(), 1, "two natural trips should fold into one");
    assert_eq!(returned[0].id, primary);
    assert_eq!(returned[0].segments.len(), 2);
}

// Changes of the schema

#[test]
fn migration_0013_preserves_filename_when_normalizing_paths() {
    let old_filename_uuid = "97f9e7f8-f72e-5db1-9462-752187d17da3";
    let stable_uuid = "11111111-2222-3333-4444-555555555555";
    let job = |tier: &str, channel: &str, path: Option<String>| JobRow {
        tier: tier.to_string(),
        channel: channel.to_string(),
        output_path: path,
        ..done_job("current-trip")
    };
    let jobs = vec![
        job(
            "8x",
            "F",
            Some(format!(
                "/run/media/old-mount/Wolfbox Dashcam/Timelapses/{old_filename_uuid}_8x_F.mp4"
            )),
        ),
        job("16x", "F", Some(format!("Timelapses/{stable_uuid}_16x_F.mp4"))),
        job("8x", "I", None),
    ];
    let after = relativize_outputs(jobs);
    assert_eq!(
        after[0].output_path,
        Some(format!("Timelapses/{old_filename_uuid}_8x_F.mp4")),
        "filename portion must be preserved, not re-derived from row.trip_id"
    );
    assert_eq!(after[1].output_path, Some(format!("Timelapses/{stable_uuid}_16x_F.mp4")));
    assert!(after[2].output_path.is_none(), "NULL output_path must stay NULL");
}

#[test]
fn archives_of_later_versions_are_refused() {
    let head = HEAD_VERSION as i64;
    assert!(check_version(head).is_ok());
    assert!(check_version(0).is_ok());
    match check_version(head + 1) {
        Err(AppError::ArchiveSchemaTooNew { found, expected }) => {
            assert_eq!((found, expected), (head + 1, head));
        }
        other => panic!("{other:?}"),
    }
}

// Jobs

#[test]
fn jobs_go_through_their_states() {
    let jobs = upsert_pending(Vec::new(), "t", "8x", "F", 7);
    let jobs = upsert_pending(jobs, "t", "8x", "F", 8);
    assert_eq!(jobs.len(), 1, "one row for every job");
    let jobs = mark_running(jobs, "t", "8x", "F");
    assert_eq!(get(&jobs, "t", "8x", "F").unwrap().status, JobStatus::Running);
    let jobs = mark_failed(jobs, "t", "8x", "F", "no space".to_string());
    let failed = list_by_status(&jobs, JobStatus::Failed);
    assert_eq!(failed.len(), 1);
    assert_eq!(failed[0].error_message.as_deref(), Some("no space"));
    let jobs = reset_to_pending(jobs, "t", "8x", "F");
    assert_eq!(jobs[0].status, JobStatus::Pending);
    assert!(get(&jobs, "t", "16x", "F").is_none());
}

// Texts of ids and kinds

#[test]
fn ids_are_read_back_from_their_texts() {
    let id = derive_trip_id(uuid(7));
    let text = id_text(id);
    assert!(is_uuid_shape(&text.chars().collect::<Vec<char>>()));
    assert_eq!(parse_trip_uuid(&text).unwrap(), id);
    assert_eq!(
        parse_trip_uuids(&vec![text, id_text(uuid(9))]).unwrap(),
        vec![id, uuid(9)]
    );
    assert!(parse_trip_uuid("not an id").is_err());
    assert!(!is_uuid_shape(&['a'; 36]));
}

#[test]
fn kinds_are_read_back_from_their_texts() {
    for k in [
        CameraKind::WolfBox,
        CameraKind::Thinkware,
        CameraKind::Miltona,
        CameraKind::SeventyMai,
        CameraKind::Generic,
    ] {
        assert_eq!(camera_kind_from_str(camera_kind_to_str(k)), k);
    }
    assert_eq!(camera_kind_from_str("something else"), CameraKind::Generic);
}
