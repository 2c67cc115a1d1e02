//! Paths as the archive stores them.

use tripviewer::error::AppError;
use tripviewer::paths::{
    absolutize_stored, file_name_of, from_archive_relative, is_under, parent_of, path_is_absolute,
    relativize_for_storage, to_archive_relative,
};

const ROOT: &str = "/tmp/archive";

#[test]
fn roundtrip_simple() {
    let video = "/tmp/archive/Videos/2026_01_01.mp4";
    let rel = to_archive_relative(video, ROOT).unwrap();
    assert_eq!(rel, "Videos/2026_01_01.mp4");
    assert_eq!(from_archive_relative(&rel, ROOT), video);
}

#[test]
fn roundtrip_nested() {
    let nested = "/tmp/archive/Videos/2026/01/clip.mp4";
    let rel = to_archive_relative(nested, ROOT).unwrap();
    assert_eq!(rel, "Videos/2026/01/clip.mp4");
    assert_eq!(from_archive_relative(&rel, ROOT), nested);
}

#[test]
fn rejects_path_outside_archive() {
    match to_archive_relative("/tmp/other/video.mp4", ROOT) {
        Err(AppError::PathOutsideArchive { .. }) => {}
        other => panic!("expected PathOutsideArchive, got {other:?}"),
    }
}

#[test]
fn rejects_archive_root_itself() {
    match to_archive_relative(ROOT, ROOT) {
        Err(AppError::Internal(msg)) => {
            assert!(msg.contains("empty"), "msg was: {msg}");
        }
        other => panic!("expected Internal, got {other:?}"),
    }
}

#[test]
fn from_archive_relative_handles_forward_slash_on_native_os() {
    let p = from_archive_relative("Videos/Front/clip.mp4", ROOT);
    assert_eq!(p, "/tmp/archive/Videos/Front/clip.mp4");
}

#[test]
fn a_name_that_only_begins_alike_lies_outside() {
    assert!(!is_under("/tmp/archive2/a.mp4", ROOT));
    assert!(is_under("/tmp/archive/a.mp4", ROOT));
    assert!(matches!(
        to_archive_relative("/tmp/archive2/a.mp4", ROOT),
        Err(AppError::PathOutsideArchive { .. })
    ));
}

#[test]
fn directories_and_names_are_found() {
    assert_eq!(parent_of("/a/b/c").as_deref(), Some("/a/b"));
    assert_eq!(parent_of("/a").as_deref(), Some("/"));
    assert!(parent_of("/").is_none());
    assert_eq!(file_name_of("/a/b.mp4").as_deref(), Some("b.mp4"));
    assert!(file_name_of("/a/..").is_none());
}

#[test]
fn stored_paths_are_made_absolute_again() {
    assert_eq!(absolutize_stored("Videos/a.mp4", ROOT), "/tmp/archive/Videos/a.mp4");
    assert_eq!(absolutize_stored("/elsewhere/a.mp4", ROOT), "/elsewhere/a.mp4");
}

#[test]
fn paths_are_stored_relative_where_they_lie_in_the_archive() {
    let inside = Some("/tmp/archive/Videos/a.mp4".to_string());
    assert_eq!(relativize_for_storage("/link/a.mp4", &inside, ROOT), "Videos/a.mp4");
    let outside = Some("/other/a.mp4".to_string());
    assert_eq!(relativize_for_storage("/link/a.mp4", &outside, ROOT), "/link/a.mp4");
    assert_eq!(relativize_for_storage("/link/a.mp4", &None, ROOT), "/link/a.mp4");
    assert_eq!(relativize_for_storage("", &None, ROOT), "");
}

#[test]
fn windows_paths_are_read_by_their_drive() {
    let root = "C:\\lib";
    let video = "C:\\lib\\Videos\\2026\\a.mp4";
    let rel = to_archive_relative(video, root).unwrap();
    assert_eq!(rel, "Videos/2026/a.mp4");
    let back = from_archive_relative(&rel, root);
    assert_eq!(back, "C:\\lib\\Videos/2026/a.mp4");
    assert_eq!(to_archive_relative(&back, root).unwrap(), rel);
    assert_eq!(to_archive_relative(video, "c:/lib/").unwrap(), rel);
    assert!(matches!(
        to_archive_relative(video, "D:\\lib"),
        Err(AppError::PathOutsideArchive { .. })
    ));
    assert!(!is_under("C:\\lib2\\a.mp4", root));
    assert_eq!(parent_of(video).as_deref(), Some("C:\\lib\\Videos\\2026"));
    assert_eq!(parent_of("C:\\lib").as_deref(), Some("C:\\"));
    assert!(parent_of("C:\\").is_none());
    assert_eq!(file_name_of(video).as_deref(), Some("a.mp4"));
    assert!(file_name_of("C:\\").is_none());
    assert!(path_is_absolute("D:\\x"));
    assert!(!path_is_absolute("D:x"));
    assert_eq!(from_archive_relative("D:\\x", root), "D:\\x");
    assert_eq!(from_archive_relative("\\x", root), "C:\\x");
    assert_eq!(from_archive_relative("a.mp4", "C:\\"), "C:\\a.mp4");
}

#[test]
fn windows_shares_are_roots() {
    let root = "\\\\nas\\dash\\lib";
    let video = "\\\\nas\\dash\\lib\\Videos\\a.mp4";
    assert_eq!(to_archive_relative(video, root).unwrap(), "Videos/a.mp4");
    assert_eq!(parent_of(root).as_deref(), Some("\\\\nas\\dash\\"));
    assert!(parent_of("\\\\nas\\dash").is_none());
    assert!(!is_under("\\\\nas\\other\\lib\\a.mp4", root));
}

#[test]
fn elsewhere_a_backslash_is_a_character() {
    assert_eq!(file_name_of("/a/b\\c.mp4").as_deref(), Some("b\\c.mp4"));
    assert_eq!(to_archive_relative("/a/C:\\x", "/a").unwrap(), "C:\\x");
    assert_eq!(from_archive_relative("C:\\x", "/a"), "/a/C:\\x");
    assert_eq!(from_archive_relative("C:/x", "/a"), "/a/C:/x");
}
