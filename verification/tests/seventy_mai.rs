//! The logs of positions that 70mai cameras write.

use tripviewer::gps::seventy_mai::{
    build_points, extract, find_logs, group_base, is_gps_log, parse_log, parse_row, search_dirs,
    FixPoint,
};
use tripviewer::gps::{extract_for_kind, Decoder};
use tripviewer::scan::naming::CameraKind;

const SAMPLE: &str = "\
$V02
1779158456,A,40.759531,29.932674,20500,0,-85,1,44,NO20260519-134050-000000B.MP4,0,0,0
1779158457,A,40.759531,29.932674,20500,0,-92,2,43,NO20260519-134050-000000B.MP4,0,0,0
1779158459,A,40.759531,29.932674,20500,0,-80,4,37,NO20260519-134050-000000B.MP4,0,0,0
1779158466,A,40.759530,29.932675,20500,0,-83,1,45,NO20260519-134100-000001B.MP4,0,0,0
1779158467,V,0.000000,0.000000,0,0,0,0,0,NO20260519-134100-000001B.MP4,0,0,0
";

fn on_earth(lat: &str, lon: &str) -> Option<bool> {
    let (lat, lon): (f64, f64) = (lat.parse().ok()?, lon.parse().ok()?);
    Some(lat.abs() <= 90.0 && lon.abs() <= 180.0 && !(lat == 0.0 && lon == 0.0))
}

fn track(path: &str, logs: &[&str]) -> Vec<FixPoint> {
    let rows = extract(path, &logs.iter().map(|l| l.to_string()).collect());
    let positions = rows.iter().map(|r| on_earth(&r.lat, &r.lon)).collect();
    build_points(&rows, &positions)
}

/// The files that stand near a clip, as the directories above it list them.
fn logs_near(clip: &str, files: &[&str]) -> Vec<String> {
    let listings = search_dirs(clip)
        .iter()
        .map(|(dir, other)| {
            let held_by = |d: &str, f: &str| {
                f.strip_prefix(d).and_then(|r| r.strip_prefix('/')).is_some_and(|r| !r.contains('/'))
            };
            files
                .iter()
                .filter(|f| held_by(dir, f) || held_by(other, f))
                .map(|f| f.to_string())
                .collect()
        })
        .collect();
    find_logs(&listings)
}

#[test]
fn group_base_strips_extension_and_channel() {
    assert_eq!(group_base("NO20260519-134050-000000B.MP4"), "NO20260519-134050-000000");
    assert_eq!(group_base("NO20260519-134050-000000F.MP4"), "NO20260519-134050-000000");
    assert_eq!(group_base("EV20260521-142650-000127F.mp4"), "EV20260521-142650-000127");
}

#[test]
fn decodes_log_passed_directly() {
    let pts = track("/card/GPSData000001.txt", &[SAMPLE]);
    assert_eq!(pts.len(), 5);
    assert_eq!(pts[0].offset_s, 0);
    assert_eq!(pts[1].offset_s, 1);
    assert_eq!(pts[2].offset_s, 3);
    assert!(pts[0].fix_ok);
    let (rows, _) = parse_log(SAMPLE);
    assert_eq!(rows[0].lat, "40.759531");
    assert_eq!(rows[0].lon, "29.932674");
    assert!(!pts[4].fix_ok);
}

#[test]
fn finds_sidecar_log_from_clip_path() {
    let clip = "/card/Normal/Front/NO20260519-134050-000000F.MP4";
    assert_eq!(logs_near(clip, &["/card/GPSData000001.txt"]), vec!["/card/GPSData000001.txt"]);
    let pts = track(clip, &[SAMPLE]);
    assert_eq!(pts.len(), 3);
    assert!(pts.iter().all(|p| p.fix_ok));
}

#[test]
fn finds_sidecar_log_quarantined_in_other() {
    let clip = "/lib/Videos/NO20260519-134050-000000F.MP4";
    let log = "/lib/Other/GPSData000001.txt";
    assert_eq!(logs_near(clip, &[log]), vec![log]);
    let pts = track(clip, &[SAMPLE]);
    assert_eq!(pts.len(), 3);
    assert!(pts.iter().all(|p| p.fix_ok));
}

#[test]
fn missing_log_returns_empty() {
    let clip = "/card/NO20260519-134050-000000F.MP4";
    assert!(logs_near(clip, &["/card/notes.txt"]).is_empty());
    assert!(track(clip, &[]).is_empty());
}

#[test]
fn clip_with_no_matching_fixes_returns_empty() {
    assert!(track("/card/NO20260101-000000-999999F.MP4", &[SAMPLE]).is_empty());
}

#[test]
fn speed_is_taken_between_moving_fixes() {
    let body = "\
$V02
1000000000,A,40.000000,29.000000,0,0,0,0,0,NO20260101-000000-000000F.MP4,0,0,0
1000000001,A,40.001000,29.000000,0,0,0,0,0,NO20260101-000000-000000F.MP4,0,0,0
";
    let pts = track("GPSData000002.txt", &[body]);
    assert_eq!(pts.len(), 2);
    assert_eq!(pts[0].motion, Some(0));
    assert_eq!(pts[1].motion, Some(0), "the last fix moves as the one before it");
}

#[test]
fn skips_malformed_lines() {
    let body = "\
$V02
not,a,real,row
1779158456,A,40.759531,29.932674,20500,0,-85,1,44,NO20260519-134050-000000B.MP4,0,0,0
1779158457,A,40.759531
";
    assert_eq!(track("GPSData000003.txt", &[body]).len(), 1);
    let (rows, skipped) = parse_log(body);
    assert_eq!((rows.len(), skipped), (1, 1));
}

#[test]
fn nearer_logs_hide_those_above_and_come_in_order() {
    let clip = "/a/b/c.MP4";
    let files = ["/a/GPSData1.txt", "/a/b/gpsdata2.TXT", "/a/b/GPSData3.txt", "/a/b/GPSData3.txt"];
    assert_eq!(logs_near(clip, &files), vec!["/a/b/GPSData3.txt", "/a/b/gpsdata2.TXT"]);
    assert_eq!(search_dirs("/1/2/3/4/5/6/7/c.MP4").len(), 5);
    assert_eq!(search_dirs("/1/c.MP4").len(), 2);
}

#[test]
fn fixes_of_several_logs_come_in_the_order_of_time() {
    let line = |ts: u32| format!("{ts},A,1.0,2.0,0,0,0,0,0,NO1F.MP4,0\n");
    let (one, two) = (line(30) + &line(10), line(20));
    let rows = extract("/card/NO1B.MP4", &vec![one, two]);
    assert_eq!(rows.iter().map(|r| r.ts).collect::<Vec<i64>>(), vec![10, 20, 30]);
}

#[test]
fn no_speed_without_a_fix_or_time() {
    let line = |ts: u32, status: &str| format!("{ts},{status},1.0,2.0,0,0,0,0,0,NO1F.MP4,0\n");
    let text = line(1, "A") + &line(1, "a") + &line(2, "V") + &line(3, "A");
    let pts = track("gpsdata.txt", &[text.as_str()]);
    assert_eq!(pts.iter().map(|p| p.motion).collect::<Vec<_>>(), vec![None; 4]);
    assert!(pts[1].fix_ok);
}

#[test]
fn unreadable_positions_are_left_out() {
    let (rows, _) = parse_log("5,A,x,2,0,0,0,0,0,c.MP4\n7,A,1,2,0,0,0,0,0,c.MP4\n");
    let pts = build_points(&rows, &vec![None, Some(true)]);
    assert_eq!(pts.len(), 1);
    assert_eq!((pts[0].row, pts[0].offset_s), (1, 0));
}

#[test]
fn times_may_be_signed_and_must_fit() {
    let row = |ts: &str| parse_row(&format!("{ts},A,1,2,0,0,0,0,0,c.MP4")).map(|r| r.ts);
    assert_eq!(row("-5"), Some(-5));
    assert_eq!(row("+5"), Some(5));
    assert_eq!(row("-9223372036854775808"), Some(i64::MIN));
    assert_eq!(row("9223372036854775808"), None);
    assert_eq!(row("-"), None);
}

#[test]
fn every_camera_has_its_decoder() {
    assert_eq!(extract_for_kind(CameraKind::WolfBox), Decoder::Shenshu);
    assert_eq!(extract_for_kind(CameraKind::Generic), Decoder::Shenshu);
    assert_eq!(extract_for_kind(CameraKind::Miltona), Decoder::Miltona);
    assert_eq!(extract_for_kind(CameraKind::SeventyMai), Decoder::SeventyMai);
    assert_eq!(extract_for_kind(CameraKind::Thinkware), Decoder::Nothing);
    assert!(is_gps_log("/card/GPSDATA7.TXT"));
    assert!(!is_gps_log("/card/data.txt"));
}
