//! Reading what the cameras put into file names.

use tripviewer::error::AppError;
use tripviewer::moment::{civil_moment, Moment};
use tripviewer::scan::naming::{
    parse, parse_miltona, parse_seventy_mai, parse_thinkware, parse_wolfbox, strip_video_ext,
    CameraKind, EventMode, LABEL_FRONT, LABEL_INTERIOR, LABEL_REAR,
};

fn at(y: i32, m: u32, d: u32, hh: u32, mi: u32, ss: u32) -> Moment {
    civil_moment(y, m, d, hh, mi, ss).unwrap()
}

// Wolf Box

#[test]
fn parses_normal_front() {
    let p = parse("2026_03_23_094634_00_F.MP4").unwrap();
    assert_eq!(p.channel_label, LABEL_FRONT);
    assert_eq!(p.event_mode, EventMode::Normal);
    assert_eq!(p.camera_kind, CameraKind::WolfBox);
    assert_eq!(
        p.start_time,
        at(2026, 3, 23, 9, 46, 34)
    );
    assert!(p.group_key.starts_with("wb:"));
}

#[test]
fn parses_event_interior() {
    let p = parse("2026_03_15_173951_02_I.MP4").unwrap();
    assert_eq!(p.channel_label, LABEL_INTERIOR);
    assert_eq!(p.event_mode, EventMode::Event);
}

#[test]
fn parses_rear_lowercase_extension() {
    let p = parse("2026_04_10_162529_00_R.mp4").unwrap();
    assert_eq!(p.channel_label, LABEL_REAR);
}

#[test]
fn triplet_shares_group_key() {
    let f = parse("2026_03_15_173951_02_F.MP4").unwrap();
    let i = parse("2026_03_15_173951_02_I.MP4").unwrap();
    let r = parse("2026_03_15_173951_02_R.MP4").unwrap();
    assert_eq!(f.group_key, i.group_key);
    assert_eq!(i.group_key, r.group_key);
}

#[test]
fn accepts_other_event_code() {
    let p = parse("2026_03_23_094634_05_F.MP4").unwrap();
    assert_eq!(p.event_mode, EventMode::Other(5));
}

// Thinkware

#[test]
fn parses_thinkware_rec_front() {
    let p = parse("REC_2026_03_06_07_25_52_F.MP4").unwrap();
    assert_eq!(p.channel_label, LABEL_FRONT);
    assert_eq!(p.event_mode, EventMode::Normal);
    assert_eq!(p.camera_kind, CameraKind::Thinkware);
    assert_eq!(
        p.start_time,
        at(2026, 3, 6, 7, 25, 52)
    );
    assert!(p.group_key.starts_with("tw:"));
}

#[test]
fn parses_thinkware_rec_rear() {
    let p = parse("REC_2026_03_06_07_25_52_R.MP4").unwrap();
    assert_eq!(p.channel_label, LABEL_REAR);
}

#[test]
fn thinkware_pair_shares_group_key() {
    let f = parse("REC_2026_03_06_07_25_52_F.MP4").unwrap();
    let r = parse("REC_2026_03_06_07_25_52_R.MP4").unwrap();
    assert_eq!(f.group_key, r.group_key);
}

#[test]
fn parses_thinkware_event_prefix() {
    let p = parse("EVT_2026_03_06_07_25_52_F.MP4").unwrap();
    assert_eq!(p.event_mode, EventMode::Event);
}

#[test]
fn parses_thinkware_manual_prefix() {
    let p = parse("MAN_2023_11_03_06_43_39_F.MP4").unwrap();
    assert_eq!(p.channel_label, LABEL_FRONT);
    assert_eq!(p.event_mode, EventMode::Normal);
    assert!(p.group_key.starts_with("tw:"));
}

#[test]
fn parses_thinkware_unknown_prefix_defaults_to_normal() {
    // Parking and motion-timelapse prefixes aren't confirmed, but any
    // 3-letter uppercase prefix with the Thinkware shape should parse
    // (and not land in scan errors). Default event mode is Normal.
    let p = parse("PKG_2026_03_06_07_25_52_F.MP4").unwrap();
    assert_eq!(p.event_mode, EventMode::Normal);
    assert!(p.group_key.contains("_PKG"));
}

#[test]
fn thinkware_rejects_non_uppercase_prefix() {
    // Guard rail: don't accept random 3-char prefixes that aren't
    // clearly Thinkware-style.
    assert!(parse("rec_2026_03_06_07_25_52_F.MP4").is_err());
    assert!(parse("12x_2026_03_06_07_25_52_F.MP4").is_err());
}

#[test]
fn thinkware_does_not_collide_with_wolfbox() {
    // Both parsers have distinct shapes - no file should match both.
    assert!(parse_wolfbox("REC_2026_03_06_07_25_52_F.MP4").is_none());
    assert!(parse_thinkware("2026_03_15_173951_02_F.MP4").is_none());
}

// Miltona

#[test]
fn parses_miltona_front_mov() {
    let p = parse("FILE211202-151504-000406F.MOV").unwrap();
    assert_eq!(p.channel_label, LABEL_FRONT);
    assert_eq!(p.event_mode, EventMode::Normal);
    assert_eq!(p.camera_kind, CameraKind::Miltona);
    assert_eq!(
        p.start_time,
        at(2021, 12, 2, 15, 15, 4)
    );
    assert!(p.group_key.starts_with("mt:"));
}

#[test]
fn parses_miltona_lowercase_mov_extension() {
    let p = parse("FILE211202-151504-000406F.mov").unwrap();
    assert_eq!(p.camera_kind, CameraKind::Miltona);
}

#[test]
fn miltona_serial_distinguishes_same_second_clips() {
    let a = parse("FILE211202-151504-000406F.MOV").unwrap();
    let b = parse("FILE211202-151504-000407F.MOV").unwrap();
    assert_ne!(
        a.group_key, b.group_key,
        "different serials must produce different group keys"
    );
}

#[test]
fn miltona_future_2100_boundary_documented() {
    // Two-digit year is interpreted as 20YY. This will wrap at 2100 -
    // not a realistic concern for this brand. The test documents the
    // decision so it shows up if someone greps for "2100".
    let p = parse("FILE991202-151504-000406F.MOV").unwrap();
    let midnight = at(2099, 12, 2, 0, 0, 0);
    assert_eq!(p.start_time.secs - p.start_time.secs % 86400, midnight.secs);
}

#[test]
fn miltona_rejects_malformed() {
    // Missing FILE prefix
    assert!(parse("211202-151504-000406F.MOV").is_err());
    // Wrong segment count
    assert!(parse("FILE211202-000406F.MOV").is_err());
    // Non-digit date
    assert!(parse("FILExxxxxx-151504-000406F.MOV").is_err());
    // No channel letter
    assert!(parse("FILE211202-151504-000406.MOV").is_err());
}

#[test]
fn miltona_does_not_collide_with_other_parsers() {
    assert!(parse_wolfbox("FILE211202-151504-000406F.MOV").is_none());
    assert!(parse_thinkware("FILE211202-151504-000406F.MOV").is_none());
    assert!(parse_miltona("2026_03_15_173951_02_F.MP4").is_none());
    assert!(parse_miltona("REC_2026_03_06_07_25_52_F.MP4").is_none());
}

// 70mai

#[test]
fn parses_seventymai_normal_front() {
    let p = parse("NO20260522-125624-000184F.MP4").unwrap();
    assert_eq!(p.channel_label, LABEL_FRONT);
    assert_eq!(p.event_mode, EventMode::Normal);
    assert_eq!(p.camera_kind, CameraKind::SeventyMai);
    assert_eq!(
        p.start_time,
        at(2026, 5, 22, 12, 56, 24)
    );
    assert!(p.group_key.starts_with("7m:"));
}

#[test]
fn parses_seventymai_event_parking_lapse_prefixes() {
    assert_eq!(
        parse("EV20260521-142650-000127F.MP4").unwrap().event_mode,
        EventMode::Event
    );
    assert_eq!(
        parse("PA20260519-143946-000004F.MP4").unwrap().event_mode,
        EventMode::Parked
    );
    assert_eq!(
        parse("LA20260519-134126-000002F.MP4").unwrap().event_mode,
        EventMode::Lapse
    );
}

#[test]
fn parses_seventymai_back_channel() {
    let p = parse("NO20260522-125624-000184B.MP4").unwrap();
    assert_eq!(p.channel_label, LABEL_REAR);
    assert_eq!(p.camera_kind, CameraKind::SeventyMai);
}

#[test]
fn seventymai_pair_shares_group_key() {
    let f = parse("NO20260522-125624-000184F.MP4").unwrap();
    let b = parse("NO20260522-125624-000184B.MP4").unwrap();
    assert_eq!(f.group_key, b.group_key);
}

#[test]
fn seventymai_serial_distinguishes_recordings() {
    let a = parse("NO20260522-125624-000184F.MP4").unwrap();
    let b = parse("NO20260522-125624-000185F.MP4").unwrap();
    assert_ne!(a.group_key, b.group_key);
}

#[test]
fn seventymai_rejects_malformed() {
    assert!(parse("XX20260522-125624-000184F.MP4").is_err()); // bad prefix
    assert!(parse("NO20261322-125624-000184F.MP4").is_err()); // month 13
    assert!(parse("NO20260522-125624-000184.MP4").is_err()); // no channel letter
    assert!(parse("NO20260522-000184F.MP4").is_err()); // missing a segment
}

#[test]
fn seventymai_does_not_collide_with_other_parsers() {
    // 70mai parser must reject the other vendors' shapes...
    assert!(parse_seventy_mai("2026_03_15_173951_02_F.MP4").is_none());
    assert!(parse_seventy_mai("REC_2026_03_06_07_25_52_F.MP4").is_none());
    assert!(parse_seventy_mai("FILE211202-151504-000406F.MOV").is_none());
    // ...and the other parsers must reject the 70mai shape.
    assert!(parse_wolfbox("NO20260522-125624-000184F.MP4").is_none());
    assert!(parse_thinkware("NO20260522-125624-000184F.MP4").is_none());
    assert!(parse_miltona("NO20260522-125624-000184F.MP4").is_none());
}

// Generic 4-channel

#[test]
fn parses_generic_4channel_letter() {
    let p = parse("2026_03_06_072552_A.MP4").unwrap();
    assert_eq!(p.channel_label, "Channel A");
    assert_eq!(p.camera_kind, CameraKind::Generic);
    assert!(p.group_key.starts_with("g4:"));
}

#[test]
fn parses_generic_4channel_digit() {
    let p = parse("2026_03_06_072552_3.MP4").unwrap();
    assert_eq!(p.channel_label, "Channel 3");
}

#[test]
fn generic_4channel_shares_group_key() {
    let a = parse("2026_03_06_072552_A.MP4").unwrap();
    let b = parse("2026_03_06_072552_B.MP4").unwrap();
    let c = parse("2026_03_06_072552_C.MP4").unwrap();
    let d = parse("2026_03_06_072552_D.MP4").unwrap();
    assert_eq!(a.group_key, b.group_key);
    assert_eq!(b.group_key, c.group_key);
    assert_eq!(c.group_key, d.group_key);
}

// Rejection

#[test]
fn rejects_bad_extension() {
    assert!(parse("2026_03_23_094634_00_F.avi").is_err());
}

#[test]
fn rejects_gibberish() {
    assert!(parse("hello.mp4").is_err());
    assert!(parse("VID_20200101.MP4").is_err());
}

#[test]
fn rejects_bad_timestamp() {
    // Invalid month - Wolf Box parser rejects, generic parser also fails
    // because no timestamp substring parses.
    assert!(parse("2026_13_40_994634_00_F.MP4").is_err());
}

// Edges

#[test]
fn refused_names_are_reported_as_they_are() {
    match parse("hello.mp4") {
        Err(AppError::InvalidFilename(n)) => assert_eq!(n, "hello.mp4"),
        other => panic!("{other:?}"),
    }
}

#[test]
fn extensions_are_stripped_in_either_case() {
    assert_eq!(strip_video_ext("a.MP4").as_deref(), Some("a"));
    assert_eq!(strip_video_ext("a.b.mov").as_deref(), Some("a.b"));
    assert!(strip_video_ext("a.avi").is_none());
}

#[test]
fn only_thinkware_has_no_positions() {
    assert!(CameraKind::WolfBox.gps_supported());
    assert!(CameraKind::Miltona.gps_supported());
    assert!(CameraKind::SeventyMai.gps_supported());
    assert!(CameraKind::Generic.gps_supported());
    assert!(!CameraKind::Thinkware.gps_supported());
}

#[test]
fn dates_that_do_not_exist_are_refused() {
    assert!(parse("2026_02_30_094634_00_F.MP4").is_err());
    assert!(parse("2024_02_29_094634_00_F.MP4").is_ok());
    assert!(parse("NO20230229-125624-000184F.MP4").is_err());
    assert!(civil_moment(1900, 2, 29, 0, 0, 0).is_none());
    assert_eq!(at(1970, 1, 2, 0, 0, 1).secs, 86401);
}

#[test]
fn two_formats_never_share_a_key() {
    let wolfbox = parse("2026_03_06_072552_00_F.MP4").unwrap();
    let thinkware = parse("REC_2026_03_06_07_25_52_F.MP4").unwrap();
    let generic = parse("2026_03_06_072552_A.MP4").unwrap();
    assert_ne!(wolfbox.group_key, thinkware.group_key);
    assert_ne!(wolfbox.group_key, generic.group_key);
    assert_ne!(thinkware.group_key, generic.group_key);
}

#[test]
fn channels_of_every_family_share_a_key() {
    let pairs = [
        ("2026_03_23_094634_00_F.MP4", "2026_03_23_094634_00_R.MP4"),
        ("EVT_2026_03_06_07_25_52_F.MP4", "EVT_2026_03_06_07_25_52_R.MP4"),
        ("FILE211202-151504-000406F.MOV", "FILE211202-151504-000406R.MOV"),
        ("NO20260522-125624-000184F.MP4", "NO20260522-125624-000184B.MP4"),
        ("2026_03_06_072552_A.MP4", "2026_03_06_072552_c.MP4"),
    ];
    for (a, b) in pairs {
        let (x, y) = (parse(a).unwrap(), parse(b).unwrap());
        assert_eq!(x.camera_kind, y.camera_kind);
        assert_eq!(x.group_key, y.group_key);
        assert_eq!(x.start_time, y.start_time);
        assert_eq!(x.event_mode, y.event_mode);
        assert_ne!(x.channel_label, y.channel_label);
    }
}
