//! The errors that the library reports.

use crate::text::{concat2, concat3, decimal_int_string, owned};
use vstd::prelude::*;
use vstd::string::StringExecFns;

verus! {

/// What went wrong. Details are plain text.
#[derive(Debug)]
pub enum AppError {
    /// A file name that no camera format matches.
    InvalidFilename(String),
    /// A file could not be read or written; the text says why.
    Io(String),
    /// A media file without a video track.
    NotVideo(String),
    /// A media file whose structure could not be read.
    Parse(String),
    /// Any other failure.
    Internal(String),
    /// An import is running already.
    ImportAlreadyRunning,
    /// There is no import to act on.
    NoImportRunning,
    /// The database reported a failure.
    Db(String),
    /// A path that does not lie under the archive root.
    PathOutsideArchive { path: String },
    /// The archive was written by a later version of the program.
    ArchiveSchemaTooNew { found: i64, expected: i64 },
}

/// The error is `Internal` with the given text.
pub open spec fn is_internal(e: AppError, text: Seq<char>) -> bool {
    e matches AppError::Internal(m) && m@ == text
}

impl AppError {
    /// The error in words.
    pub open spec fn words(self) -> Seq<char> {
        match self {
            AppError::InvalidFilename(s) => "invalid filename: "@ + s@,
            AppError::Io(s) => "io error: "@ + s@,
            AppError::NotVideo(s) => "not a video: "@ + s@,
            AppError::Parse(s) => "parse error: "@ + s@,
            AppError::Internal(s) => s@,
            AppError::ImportAlreadyRunning => "an import is already running"@,
            AppError::NoImportRunning => "no import is running"@,
            AppError::Db(s) => "database error: "@ + s@,
            AppError::PathOutsideArchive { path } => "path is outside the archive: "@ + path@,
            AppError::ArchiveSchemaTooNew { found, expected } => "archive schema version "@
                + crate::text::decimal_int(found as int) + " is newer than the supported version "@
                + crate::text::decimal_int(expected as int),
        }
    }

    /// The error in words.
    pub fn describe(&self) -> (r: String)
        ensures
            r@ == self.words(),
    {
        match self {
            AppError::InvalidFilename(s) => concat2("invalid filename: ", s.as_str()),
            AppError::Io(s) => concat2("io error: ", s.as_str()),
            AppError::NotVideo(s) => concat2("not a video: ", s.as_str()),
            AppError::Parse(s) => concat2("parse error: ", s.as_str()),
            AppError::Internal(s) => owned(s.as_str()),
            AppError::ImportAlreadyRunning => owned("an import is already running"),
            AppError::NoImportRunning => owned("no import is running"),
            AppError::Db(s) => concat2("database error: ", s.as_str()),
            AppError::PathOutsideArchive { path } => concat2(
                "path is outside the archive: ",
                path.as_str(),
            ),
            AppError::ArchiveSchemaTooNew { found, expected } => {
                let mut r = concat3(
                    "archive schema version ",
                    decimal_int_string(*found).as_str(),
                    " is newer than the supported version ",
                );
                r.append(decimal_int_string(*expected).as_str());
                r
            },
        }
    }
}

} // verus!
