//! Settings of the machine that the program runs on.

use crate::db::settings::{get, SettingsTable};
use crate::db::table::contains_string;
use crate::paths::from_archive_relative;
use crate::text::{chars_of, concat2, parse_unsigned, same_str};
use crate::timelapse::types::FfmpegCapabilities;
use vstd::prelude::*;

verus! {

/// The version of the settings file.
pub const CURRENT_SCHEMA_VERSION: u32 = 1;

/// An archive that was open lately.
#[derive(Debug)]
pub struct RecentArchive {
    pub path: String,
    pub label: String,
    pub last_opened_ms: i64,
}

impl Clone for RecentArchive {
    fn clone(&self) -> (r: Self)
        ensures
            r == *self,
    {
        RecentArchive {
            path: self.path.clone(),
            label: self.label.clone(),
            last_opened_ms: self.last_opened_ms,
        }
    }
}

/// The settings of the machine.
#[derive(Debug)]
pub struct AppSettings {
    pub schema_version: u32,
    pub ffmpeg_path: Option<String>,
    pub ffmpeg_version: Option<String>,
    pub nvenc_hevc: Option<bool>,
    pub timelapse_max_concurrent_jobs: Option<u32>,
    pub recent_archives: Vec<RecentArchive>,
    pub last_archive: Option<String>,
    pub cross_os_migrated_archives: Vec<String>,
}

impl Default for AppSettings {
    fn default() -> (r: Self)
        ensures
            r.schema_version == 0,
            r.ffmpeg_path is None && r.ffmpeg_version is None && r.nvenc_hevc is None,
            r.timelapse_max_concurrent_jobs is None,
            r.recent_archives@.len() == 0,
            r.last_archive is None,
            r.cross_os_migrated_archives@.len() == 0,
    {
        AppSettings {
            schema_version: 0,
            ffmpeg_path: None,
            ffmpeg_version: None,
            nvenc_hevc: None,
            timelapse_max_concurrent_jobs: None,
            recent_archives: Vec::new(),
            last_archive: None,
            cross_os_migrated_archives: Vec::new(),
        }
    }
}

/// The settings that were read; the defaults where there is no file or it
/// cannot be understood.
pub fn or_default(read: Option<AppSettings>) -> (r: AppSettings)
    ensures
        match read {
            Some(s) => r == s,
            None => r.schema_version == 0 && r.ffmpeg_path is None && r.ffmpeg_version is None
                && r.nvenc_hevc is None && r.timelapse_max_concurrent_jobs is None
                && r.recent_archives@.len() == 0 && r.last_archive is None
                && r.cross_os_migrated_archives@.len() == 0,
        },
{
    match read {
        Some(s) => s,
        None => AppSettings::default(),
    }
}

/// The text of a switch that is on.
pub open spec fn is_on(s: Seq<char>) -> bool {
    s == "1"@ || s == "true"@
}

/// The value that the table has for a key.
pub open spec fn stored(t: SettingsTable, key: Seq<char>) -> Option<Seq<char>> {
    if t.entries().contains_key(key) {
        Some(t.entries()[key].value)
    } else {
        None
    }
}

/// The switch that the table has for a key.
pub open spec fn stored_switch(t: SettingsTable, key: Seq<char>) -> Option<bool> {
    match stored(t, key) {
        Some(s) => Some(is_on(s)),
        None => None,
    }
}

/// The number that the table has for a key.
pub open spec fn stored_number(t: SettingsTable, key: Seq<char>) -> Option<u32> {
    match stored(t, key) {
        Some(s) => match crate::text::unsigned_value(s, u32::MAX as nat) {
            Some(n) => Some(n as u32),
            None => None,
        },
        None => None,
    }
}

/// `a` where there is one, else `b`.
pub open spec fn either<T>(a: Option<T>, b: Option<T>) -> Option<T> {
    match a {
        Some(_) => a,
        None => b,
    }
}

/// The settings `after` are those `before` with what the table adds to them:
/// only what was not set is taken from the table, and only once.
pub open spec fn is_migrated(before: AppSettings, t: SettingsTable, after: AppSettings) -> bool {
    if before.schema_version >= CURRENT_SCHEMA_VERSION {
        after == before
    } else {
        &&& after.schema_version == CURRENT_SCHEMA_VERSION
        &&& crate::text::opt_view(after.ffmpeg_path) == either(
            crate::text::opt_view(before.ffmpeg_path),
            stored(t, "ffmpeg_path"@),
        )
        &&& crate::text::opt_view(after.ffmpeg_version) == either(
            crate::text::opt_view(before.ffmpeg_version),
            stored(t, "ffmpeg_version"@),
        )
        &&& after.nvenc_hevc == either(before.nvenc_hevc, stored_switch(t, "nvenc_hevc"@))
        &&& after.timelapse_max_concurrent_jobs == either(
            before.timelapse_max_concurrent_jobs,
            stored_number(t, "timelapse_max_concurrent_jobs"@),
        )
        &&& after.recent_archives == before.recent_archives
        &&& after.last_archive == before.last_archive
        &&& after.cross_os_migrated_archives == before.cross_os_migrated_archives
    }
}

/// Takes the settings over from an archive's table, once.
pub fn migrate_from_sqlite(settings: AppSettings, table: &SettingsTable) -> (r: AppSettings)
    ensures
        is_migrated(settings, *table, r),
{
    if settings.schema_version >= CURRENT_SCHEMA_VERSION {
        return settings;
    }
    let nvenc = match get(table, "nvenc_hevc") {
        Some(s) => Some(same_str(s.as_str(), "1") || same_str(s.as_str(), "true")),
        None => None,
    };
    let jobs: Option<u32> = match get(table, "timelapse_max_concurrent_jobs") {
        Some(s) => {
            let v = chars_of(s.as_str());
            match parse_unsigned(v.as_slice(), u32::MAX as u64) {
                Some(n) => Some(n as u32),
                None => None,
            }
        },
        None => None,
    };
    let mut s = settings;
    if s.ffmpeg_path.is_none() {
        s.ffmpeg_path = get(table, "ffmpeg_path");
    }
    if s.ffmpeg_version.is_none() {
        s.ffmpeg_version = get(table, "ffmpeg_version");
    }
    if s.nvenc_hevc.is_none() {
        s.nvenc_hevc = nvenc;
    }
    if s.timelapse_max_concurrent_jobs.is_none() {
        s.timelapse_max_concurrent_jobs = jobs;
    }
    s.schema_version = CURRENT_SCHEMA_VERSION;
    s
}

/// Taking the settings over a second time changes nothing, whatever the table
/// holds by then.
pub proof fn migration_happens_once(
    before: AppSettings,
    t: SettingsTable,
    after: AppSettings,
    u: SettingsTable,
    again: AppSettings,
)
    requires
        is_migrated(before, t, after),
        is_migrated(after, u, again),
    ensures
        again == after,
{
}

/// A setting that the user made is never replaced by one from the table.
pub proof fn migration_keeps_what_is_set(before: AppSettings, t: SettingsTable, after: AppSettings)
    requires
        is_migrated(before, t, after),
    ensures
        before.ffmpeg_path is Some ==> crate::text::opt_view(after.ffmpeg_path)
            == crate::text::opt_view(before.ffmpeg_path),
        before.ffmpeg_version is Some ==> crate::text::opt_view(after.ffmpeg_version)
            == crate::text::opt_view(before.ffmpeg_version),
        before.nvenc_hevc is Some ==> after.nvenc_hevc == before.nvenc_hevc,
        before.timelapse_max_concurrent_jobs is Some ==> after.timelapse_max_concurrent_jobs
            == before.timelapse_max_concurrent_jobs,
{
}

impl AppSettings {
    /// What the encoder can do, where it was tested.
    pub fn capabilities(&self) -> (r: Option<FfmpegCapabilities>)
        ensures
            match r {
                Some(c) => self.ffmpeg_version == Some(c.version) && self.nvenc_hevc == Some(
                    c.nvenc_hevc,
                ),
                None => self.ffmpeg_version is None || self.nvenc_hevc is None,
            },
    {
        match (&self.ffmpeg_version, self.nvenc_hevc) {
            (Some(v), Some(n)) => Some(FfmpegCapabilities { version: v.clone(), nvenc_hevc: n }),
            _ => None,
        }
    }

    /// Records an encoder that was tested.
    pub fn set_ffmpeg(&mut self, path: String, caps: &FfmpegCapabilities)
        ensures
            *final(self) == (AppSettings {
                ffmpeg_path: Some(path),
                ffmpeg_version: Some(caps.version),
                nvenc_hevc: Some(caps.nvenc_hevc),
                ..*old(self)
            }),
    {
        self.ffmpeg_path = Some(path);
        self.ffmpeg_version = Some(caps.version.clone());
        self.nvenc_hevc = Some(caps.nvenc_hevc);
    }

    /// Forgets the encoder.
    pub fn clear_timelapse_settings(&mut self)
        ensures
            *final(self) == (AppSettings {
                ffmpeg_path: None,
                ffmpeg_version: None,
                nvenc_hevc: None,
                ..*old(self)
            }),
    {
        self.ffmpeg_path = None;
        self.ffmpeg_version = None;
        self.nvenc_hevc = None;
    }

    /// Remembers the archive that is open.
    pub fn set_last_archive(&mut self, path: String)
        ensures
            *final(self) == (AppSettings { last_archive: Some(path), ..*old(self) }),
    {
        self.last_archive = Some(path);
    }

    /// Whether the archive still has to be adapted to this system.
    pub fn needs_cross_os(&self, archive_root: &String) -> (r: bool)
        ensures
            r == !crate::text::views(self.cross_os_migrated_archives@).contains(archive_root@),
    {
        !contains_string(&self.cross_os_migrated_archives, archive_root)
    }
}

/// Both hold the same settings.
pub open spec fn same_settings(a: AppSettings, b: AppSettings) -> bool {
    &&& a.schema_version == b.schema_version
    &&& a.ffmpeg_path == b.ffmpeg_path
    &&& a.ffmpeg_version == b.ffmpeg_version
    &&& a.nvenc_hevc == b.nvenc_hevc
    &&& a.timelapse_max_concurrent_jobs == b.timelapse_max_concurrent_jobs
    &&& a.recent_archives@ == b.recent_archives@
    &&& a.last_archive == b.last_archive
    &&& a.cross_os_migrated_archives@ == b.cross_os_migrated_archives@
}

impl Clone for AppSettings {
    fn clone(&self) -> (r: Self)
        ensures
            same_settings(r, *self),
    {
        let r = AppSettings {
            schema_version: self.schema_version,
            ffmpeg_path: self.ffmpeg_path.clone(),
            ffmpeg_version: self.ffmpeg_version.clone(),
            nvenc_hevc: self.nvenc_hevc,
            timelapse_max_concurrent_jobs: self.timelapse_max_concurrent_jobs,
            recent_archives: self.recent_archives.clone(),
            last_archive: self.last_archive.clone(),
            cross_os_migrated_archives: self.cross_os_migrated_archives.clone(),
        };
        proof {
            assert(r.recent_archives@ =~= self.recent_archives@);
            assert(r.cross_os_migrated_archives@ =~= self.cross_os_migrated_archives@);
        }
        r
    }
}

/// The settings and the file that they are kept in.
#[derive(Debug)]
pub struct AppSettingsHandle {
    pub settings: AppSettings,
    pub path: String,
}

impl AppSettingsHandle {
    /// The settings in a directory, given what was read from their file.
    pub fn load(app_data_dir: &str, read: Option<AppSettings>) -> (r: AppSettingsHandle)
        ensures
            r.path@ == crate::paths::path_join(app_data_dir@, "settings.json"@),
            match read {
                Some(s) => r.settings == s,
                None => r.settings.schema_version == 0 && r.settings.ffmpeg_path is None
                    && r.settings.ffmpeg_version is None && r.settings.nvenc_hevc is None
                    && r.settings.timelapse_max_concurrent_jobs is None
                    && r.settings.recent_archives@.len() == 0 && r.settings.last_archive is None
                    && r.settings.cross_os_migrated_archives@.len() == 0,
            },
    {
        AppSettingsHandle {
            settings: or_default(read),
            path: from_archive_relative("settings.json", app_data_dir),
        }
    }

    /// The settings.
    pub fn read(&self) -> (r: AppSettings)
        ensures
            same_settings(r, self.settings),
    {
        self.settings.clone()
    }

    /// Puts what `f` makes of the settings in their place. They are to be written
    /// to the file; they hold whether or not that succeeds.
    pub fn update<F: FnOnce(AppSettings) -> AppSettings>(&mut self, f: F)
        requires
            f.requires((old(self).settings,)),
        ensures
            f.ensures((old(self).settings,), final(self).settings),
            final(self).path == old(self).path,
    {
        let mut settings = or_default(None);
        std::mem::swap(&mut settings, &mut self.settings);
        self.settings = f(settings);
    }

    /// The file that new settings are written to before it takes the place of
    /// the old one.
    pub fn temp_path(&self) -> (r: String)
        ensures
            r@ == self.path@ + ".tmp"@,
    {
        concat2(self.path.as_str(), ".tmp")
    }
}

} // verus!
