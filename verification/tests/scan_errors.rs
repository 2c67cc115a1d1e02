//! How failed files are reported.

use tripviewer::error::AppError;
use tripviewer::scan::errors::{classify, ScanErrorKind};


#[test]
fn invalid_filename_maps() {
    let c = classify(&AppError::InvalidFilename("garbage.mp4".into()));
    assert_eq!(c.kind, ScanErrorKind::InvalidFilename);
    assert!(c.detail.is_none());
    assert!(c.message.contains("Filename"));
}

#[test]
fn io_maps_to_unreadable_with_detail() {
    let io = std::io::Error::new(std::io::ErrorKind::PermissionDenied, "denied");
    let c = classify(&AppError::Io(io.to_string()));
    assert_eq!(c.kind, ScanErrorKind::FileUnreadable);
    assert!(c.detail.as_deref().unwrap().contains("denied"));
}

#[test]
fn not_video_maps() {
    let c = classify(&AppError::NotVideo("x.mp4".into()));
    assert_eq!(c.kind, ScanErrorKind::Mp4NoVideoTrack);
}

#[test]
fn moov_missing_classified() {
    let c = classify(&AppError::Parse("moov not found".into()));
    assert_eq!(c.kind, ScanErrorKind::Mp4MoovMissing);
    assert!(c.message.contains("moov"));
    assert_eq!(c.detail.as_deref(), Some("moov not found"));
}

#[test]
fn box_overflow_classified() {
    let c = classify(&AppError::Parse(
        "file contains a box with a larger size than it".into(),
    ));
    assert_eq!(c.kind, ScanErrorKind::Mp4BoxOverflow);
    assert!(c.message.contains("Structural"));
}

#[test]
fn unknown_parse_error_falls_through_to_other() {
    let c = classify(&AppError::Parse("something unfamiliar".into()));
    assert_eq!(c.kind, ScanErrorKind::Mp4Other);
    assert_eq!(c.detail.as_deref(), Some("something unfamiliar"));
}

#[test]
fn internal_maps_to_other_with_detail() {
    let c = classify(&AppError::Internal("oops".into()));
    assert_eq!(c.kind, ScanErrorKind::Mp4Other);
    assert_eq!(c.detail.as_deref(), Some("oops"));
}

#[test]
fn other_errors_are_reported_in_words() {
    let c = classify(&AppError::Db("locked".into()));
    assert_eq!(c.kind, ScanErrorKind::Mp4Other);
    assert_eq!(c.message, "Unexpected error during scan.");
    assert_eq!(c.detail.as_deref(), Some("database error: locked"));
    let c = classify(&AppError::ArchiveSchemaTooNew { found: 14, expected: -3 });
    assert_eq!(
        c.detail.as_deref(),
        Some("archive schema version 14 is newer than the supported version -3")
    );
}

#[test]
fn every_error_has_words() {
    assert_eq!(AppError::InvalidFilename("a".into()).describe(), "invalid filename: a");
    assert_eq!(AppError::Io("b".into()).describe(), "io error: b");
    assert_eq!(AppError::NotVideo("c".into()).describe(), "not a video: c");
    assert_eq!(AppError::Parse("d".into()).describe(), "parse error: d");
    assert_eq!(AppError::Internal("e".into()).describe(), "e");
    assert_eq!(AppError::ImportAlreadyRunning.describe(), "an import is already running");
    assert_eq!(AppError::NoImportRunning.describe(), "no import is running");
    assert_eq!(
        AppError::PathOutsideArchive { path: "/x".into() }.describe(),
        "path is outside the archive: /x"
    );
}
