//! Moving the database of an older version into the archive that it describes.
//!
//! The database is copied, the copy is compared with what it was made from, and
//! only then the old one is removed.

use crate::error::AppError;
use crate::paths::from_archive_relative;
use crate::text::{concat2, concat3, decimal_int_string};
use crate::timelapse::worker::DiscoveredRoot;
use vstd::prelude::*;
use vstd::string::StringExecFns;

verus! {

/// What came of the move.
#[derive(Debug)]
pub enum MigrationOutcome {
    NotNeeded,
    Migrated { archive_root: String },
    Skipped { reason: String },
}

/// What the copy turned out to be.
#[derive(Debug)]
pub enum Copied {
    /// It holds this many segments.
    Segments(i64),
    /// It could not be opened.
    Unopenable(String),
    /// It could not be read.
    Unreadable(String),
}

/// Something that happened on the way.
#[derive(Debug)]
pub enum MigrationEvent {
    /// The program starts.
    Started { legacy_exists: bool, has_last_archive: bool },
    /// The root of the archive was looked for.
    Discovered(Result<DiscoveredRoot, AppError>),
    /// It was looked whether the archive has a database already.
    TargetChecked { archive_root: String, exists: bool },
    /// The database was copied; `source` is the number of its segments.
    CopyMade { archive_root: String, source: i64, copied: Copied },
    /// The old database was removed, and the archive recorded as the last one.
    Recorded { archive_root: String },
}

/// What is to be done next.
#[derive(Debug)]
pub enum MigrationAction {
    /// Take over the settings, and look for the root of the archive.
    Discover,
    /// Look whether there is a database at the path.
    CheckTarget { archive_root: String, db_path: String },
    /// Make the directory, and copy the database to the path.
    Copy { archive_root: String, db_dir: String, db_path: String },
    /// Remove the copy, and fail.
    RollBack { db_path: String, error: AppError },
    /// Remove the old database, and record the archive as the last one.
    RemoveLegacy { archive_root: String },
    /// Nothing more.
    Finish(MigrationOutcome),
}

/// The directory of the database in an archive.
pub open spec fn database_dir(root: Seq<char>) -> Seq<char> {
    crate::paths::path_join(root, ".tripviewer"@)
}

/// The database of an archive.
pub open spec fn database_path(root: Seq<char>) -> Seq<char> {
    crate::paths::path_join(database_dir(root), "tripviewer.db"@)
}

/// The directory of the database in an archive.
pub fn database_dir_of(archive_root: &str) -> (r: String)
    ensures
        r@ == database_dir(archive_root@),
{
    from_archive_relative(".tripviewer", archive_root)
}

/// The database of an archive.
pub fn database_path_of(archive_root: &str) -> (r: String)
    ensures
        r@ == database_path(archive_root@),
{
    from_archive_relative("tripviewer.db", database_dir_of(archive_root).as_str())
}

/// The action ends the move without having made it, for the given reason.
pub open spec fn skips(a: MigrationAction, reason: Seq<char>) -> bool {
    a matches MigrationAction::Finish(MigrationOutcome::Skipped { reason: r }) && r@ == reason
}

/// The action removes the copy and fails with the given words.
pub open spec fn rolls_back(a: MigrationAction, root: Seq<char>, words: Seq<char>) -> bool {
    a matches MigrationAction::RollBack { db_path, error } && db_path@ == database_path(root)
        && crate::error::is_internal(error, words)
}

/// What is to be done next, given what happened. The old database is removed
/// only when the copy holds as many segments.
pub fn run_if_needed(event: MigrationEvent) -> (r: MigrationAction)
    ensures
        match event {
            MigrationEvent::Started { legacy_exists, has_last_archive } => if legacy_exists
                && !has_last_archive {
                r is Discover
            } else {
                r matches MigrationAction::Finish(o) && o is NotNeeded
            },
            MigrationEvent::Discovered(Ok(DiscoveredRoot::Library(p))) =>
            r matches MigrationAction::CheckTarget { archive_root, db_path } && archive_root == p
                && db_path@ == database_path(p@),
            MigrationEvent::Discovered(Ok(DiscoveredRoot::SegmentParent(p))) => skips(
                r,
                "segments live under "@ + p@
                    + " but no Videos/ ancestor \u{2014} auto-migration only handles structured archives. Use the upcoming Open Archive UI."@,
            ),
            MigrationEvent::Discovered(Err(e)) => skips(
                r,
                "could not derive archive root from segments: "@ + e.words(),
            ),
            MigrationEvent::TargetChecked { archive_root, exists } => if exists {
                skips(
                    r,
                    "target archive already has a Trip Viewer DB at "@ + database_path(
                        archive_root@,
                    ) + ": refusing to overwrite"@,
                )
            } else {
                r matches MigrationAction::Copy { archive_root: a, db_dir, db_path } && a
                    == archive_root && db_dir@ == database_dir(archive_root@) && db_path@
                    == database_path(archive_root@)
            },
            MigrationEvent::CopyMade { archive_root, source, copied } => match copied {
                Copied::Unopenable(e) => rolls_back(
                    r,
                    archive_root@,
                    "destination DB unopenable after copy, rolled back: "@ + e@,
                ),
                Copied::Unreadable(e) => rolls_back(
                    r,
                    archive_root@,
                    "destination DB unreadable after copy, rolled back: "@ + e@,
                ),
                Copied::Segments(n) => if n != source {
                    rolls_back(
                        r,
                        archive_root@,
                        "segment count mismatch after copy: src="@ + crate::text::decimal_int(
                            source as int,
                        ) + ", dest="@ + crate::text::decimal_int(n as int),
                    )
                } else {
                    r matches MigrationAction::RemoveLegacy { archive_root: a } && a
                        == archive_root
                },
            },
            MigrationEvent::Recorded { archive_root } => r matches MigrationAction::Finish(
                MigrationOutcome::Migrated { archive_root: a },
            ) && a == archive_root,
        },
{
    match event {
        MigrationEvent::Started { legacy_exists, has_last_archive } => if legacy_exists
            && !has_last_archive {
            MigrationAction::Discover
        } else {
            MigrationAction::Finish(MigrationOutcome::NotNeeded)
        },
        MigrationEvent::Discovered(Ok(DiscoveredRoot::Library(p))) => {
            let db_path = database_path_of(p.as_str());
            MigrationAction::CheckTarget { archive_root: p, db_path }
        },
        MigrationEvent::Discovered(Ok(DiscoveredRoot::SegmentParent(p))) => {
            MigrationAction::Finish(
                MigrationOutcome::Skipped {
                    reason: concat3(
                        "segments live under ",
                        p.as_str(),
                        " but no Videos/ ancestor \u{2014} auto-migration only handles structured archives. Use the upcoming Open Archive UI.",
                    ),
                },
            )
        },
        MigrationEvent::Discovered(Err(e)) => MigrationAction::Finish(
            MigrationOutcome::Skipped {
                reason: concat2(
                    "could not derive archive root from segments: ",
                    e.describe().as_str(),
                ),
            },
        ),
        MigrationEvent::TargetChecked { archive_root, exists } => {
            let db_path = database_path_of(archive_root.as_str());
            if exists {
                MigrationAction::Finish(
                    MigrationOutcome::Skipped {
                        reason: concat3(
                            "target archive already has a Trip Viewer DB at ",
                            db_path.as_str(),
                            ": refusing to overwrite",
                        ),
                    },
                )
            } else {
                let db_dir = database_dir_of(archive_root.as_str());
                MigrationAction::Copy { archive_root, db_dir, db_path }
            }
        },
        MigrationEvent::CopyMade { archive_root, source, copied } => {
            let db_path = database_path_of(archive_root.as_str());
            match copied {
                Copied::Unopenable(e) => MigrationAction::RollBack {
                    db_path,
                    error: AppError::Internal(
                        concat2(
                            "destination DB unopenable after copy, rolled back: ",
                            e.as_str(),
                        ),
                    ),
                },
                Copied::Unreadable(e) => MigrationAction::RollBack {
                    db_path,
                    error: AppError::Internal(
                        concat2(
                            "destination DB unreadable after copy, rolled back: ",
                            e.as_str(),
                        ),
                    ),
                },
                Copied::Segments(n) => if n != source {
                    let mut m = concat3(
                        "segment count mismatch after copy: src=",
                        decimal_int_string(source).as_str(),
                        ", dest=",
                    );
                    m.append(decimal_int_string(n).as_str());
                    MigrationAction::RollBack { db_path, error: AppError::Internal(m) }
                } else {
                    MigrationAction::RemoveLegacy { archive_root }
                },
            }
        },
        MigrationEvent::Recorded { archive_root } => MigrationAction::Finish(
            MigrationOutcome::Migrated { archive_root },
        ),
    }
}

/// The files of earlier versions of the program that nothing reads any more.
pub fn cleanup_orphan_files(app_data_dir: &str) -> (r: Vec<String>)
    ensures
        crate::text::views(r@) == seq![
            crate::paths::path_join(app_data_dir@, "recovery-config.json"@),
        ],
{
    let mut v: Vec<String> = Vec::new();
    v.push(from_archive_relative("recovery-config.json", app_data_dir));
    proof {
        assert(crate::text::views(v@) == seq![
            crate::paths::path_join(app_data_dir@, "recovery-config.json"@),
        ]);
    }
    v
}

/// The files that the old database leaves beside it.
pub fn leftover_files(app_data_dir: &str) -> (r: Vec<String>)
    ensures
        crate::text::views(r@) == seq![
            crate::paths::path_join(app_data_dir@, "tripviewer.db-wal"@),
            crate::paths::path_join(app_data_dir@, "tripviewer.db-shm"@),
        ],
{
    let mut v: Vec<String> = Vec::new();
    v.push(from_archive_relative("tripviewer.db-wal", app_data_dir));
    v.push(from_archive_relative("tripviewer.db-shm", app_data_dir));
    proof {
        assert(crate::text::views(v@) == seq![
            crate::paths::path_join(app_data_dir@, "tripviewer.db-wal"@),
            crate::paths::path_join(app_data_dir@, "tripviewer.db-shm"@),
        ]);
    }
    v
}

} // verus!
