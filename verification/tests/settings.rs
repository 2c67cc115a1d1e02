//! Settings of the archive, and of the machine.

use tripviewer::app_settings::{
    migrate_from_sqlite, AppSettings, AppSettingsHandle, CURRENT_SCHEMA_VERSION,
};
use tripviewer::db::settings::{delete, get, SettingsTable};
use tripviewer::timelapse::types::FfmpegCapabilities;

fn put(t: SettingsTable, key: &str, value: &str) -> SettingsTable {
    tripviewer::db::settings::set(t, key, value, 0)
}

#[test]
fn set_and_get_roundtrip() {
    let t = put(SettingsTable::new(), "ffmpeg_path", "C:/ffmpeg/bin/ffmpeg.exe");
    assert_eq!(get(&t, "ffmpeg_path").as_deref(), Some("C:/ffmpeg/bin/ffmpeg.exe"));
}

#[test]
fn missing_key_returns_none() {
    assert!(get(&SettingsTable::new(), "nope").is_none());
}

#[test]
fn set_overwrites() {
    let t = put(SettingsTable::new(), "k", "v1");
    let t = put(t, "k", "v2");
    assert_eq!(get(&t, "k").as_deref(), Some("v2"));
}

#[test]
fn delete_removes_key() {
    let t = put(SettingsTable::new(), "k", "v");
    let t = delete(t, "k");
    assert!(get(&t, "k").is_none());
}

#[test]
fn load_missing_returns_default() {
    let h = AppSettingsHandle::load("/data", None);
    let s = h.read();
    assert_eq!(s.schema_version, 0);
    assert!(s.ffmpeg_path.is_none());
    assert!(s.recent_archives.is_empty());
    assert_eq!(h.path, "/data/settings.json");
    assert_eq!(h.temp_path(), "/data/settings.json.tmp");
}

#[test]
fn update_roundtrips_through_disk() {
    let mut h = AppSettingsHandle::load("/data", None);
    h.update(|mut s| {
        s.ffmpeg_path = Some("/usr/bin/ffmpeg".into());
        s.nvenc_hevc = Some(true);
        s.schema_version = 1;
        s
    });
    assert_eq!(h.path, "/data/settings.json");
    let s = AppSettingsHandle::load("/data", Some(h.read())).read();
    assert_eq!(s.ffmpeg_path.as_deref(), Some("/usr/bin/ffmpeg"));
    assert_eq!(s.nvenc_hevc, Some(true));
    assert_eq!(s.schema_version, 1);
}

fn table(rows: &[(&str, &str)]) -> SettingsTable {
    let mut t = SettingsTable::new();
    for (k, v) in rows {
        t = put(t, k, v);
    }
    t
}

#[test]
fn migration_pulls_keys_from_sqlite() {
    let t = table(&[
        ("ffmpeg_path", "/usr/bin/ffmpeg"),
        ("ffmpeg_version", "8.1"),
        ("nvenc_hevc", "1"),
        ("timelapse_max_concurrent_jobs", "4"),
        ("library_root", "/some/path"),
    ]);
    let s = migrate_from_sqlite(AppSettings::default(), &t);
    assert_eq!(s.ffmpeg_path.as_deref(), Some("/usr/bin/ffmpeg"));
    assert_eq!(s.ffmpeg_version.as_deref(), Some("8.1"));
    assert_eq!(s.nvenc_hevc, Some(true));
    assert_eq!(s.timelapse_max_concurrent_jobs, Some(4));
    assert_eq!(s.schema_version, CURRENT_SCHEMA_VERSION);
    assert_eq!(get(&t, "ffmpeg_path").as_deref(), Some("/usr/bin/ffmpeg"));
    assert_eq!(get(&t, "library_root").as_deref(), Some("/some/path"));
}

#[test]
fn migration_is_idempotent() {
    let t = table(&[("ffmpeg_path", "/first")]);
    let s = migrate_from_sqlite(AppSettings::default(), &t);
    let t = put(t, "ffmpeg_path", "/second");
    let s = migrate_from_sqlite(s, &t);
    assert_eq!(s.ffmpeg_path.as_deref(), Some("/first"));
}

#[test]
fn migration_with_empty_sqlite_still_bumps_version() {
    let s = migrate_from_sqlite(AppSettings::default(), &SettingsTable::new());
    assert_eq!(s.schema_version, CURRENT_SCHEMA_VERSION);
    assert!(s.ffmpeg_path.is_none());
}

#[test]
fn migration_keeps_what_is_set_already() {
    let t = table(&[("ffmpeg_path", "/old"), ("nvenc_hevc", "no"), ("ffmpeg_version", "7")]);
    let mut s = AppSettings::default();
    s.ffmpeg_path = Some("/new".into());
    let s = migrate_from_sqlite(s, &t);
    assert_eq!(s.ffmpeg_path.as_deref(), Some("/new"));
    assert_eq!(s.nvenc_hevc, Some(false));
    assert_eq!(s.ffmpeg_version.as_deref(), Some("7"));
}

#[test]
fn the_encoder_is_set_and_forgotten() {
    let mut s = AppSettings::default();
    let caps = FfmpegCapabilities { version: "ffmpeg version 7".into(), nvenc_hevc: true };
    s.set_ffmpeg("/usr/bin/ffmpeg".to_string(), &caps);
    assert_eq!(s.capabilities().unwrap().version, "ffmpeg version 7");
    s.clear_timelapse_settings();
    assert!(s.ffmpeg_path.is_none());
    assert!(s.capabilities().is_none());
}

#[test]
fn the_time_of_a_change_is_kept() {
    let t = tripviewer::db::settings::set(put(SettingsTable::new(), "k", "v"), "k", "w", 77);
    assert_eq!(t.rows.len(), 1);
    assert_eq!((t.rows[0].value.as_str(), t.rows[0].updated_at_ms), ("w", 77));
}
