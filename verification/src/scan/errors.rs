//! What a failed file is reported as.

use crate::error::AppError;
use crate::text::{contains, owned};
use vstd::prelude::*;

verus! {

/// The kinds of trouble a scan reports.
#[derive(Debug, Clone, Copy, PartialEq, Eq, Structural)]
pub enum ScanErrorKind {
    InvalidFilename,
    FileUnreadable,
    Mp4NoVideoTrack,
    Mp4MoovMissing,
    Mp4BoxOverflow,
    Mp4Other,
}

/// A failure as it is shown: its kind, a sentence for the user, and the
/// technical detail.
#[derive(Debug)]
pub struct Classification {
    pub kind: ScanErrorKind,
    pub message: String,
    pub detail: Option<String>,
}

/// The classification has these parts.
pub open spec fn says(
    c: Classification,
    kind: ScanErrorKind,
    message: Seq<char>,
    detail: Option<Seq<char>>,
) -> bool {
    c.kind == kind && c.message@ == message && crate::text::opt_view(c.detail) == detail
}

/// What a media file that could not be read is reported as.
pub open spec fn is_parse_report(c: Classification, raw: Seq<char>) -> bool {
    if crate::text::has_substring(raw, "moov not found"@) {
        says(
            c,
            ScanErrorKind::Mp4MoovMissing,
            "Missing index (moov). File was not closed properly — media may be recoverable with external tools."@,
            Some(raw),
        )
    } else if crate::text::has_substring(raw, "larger size than it"@) {
        says(
            c,
            ScanErrorKind::Mp4BoxOverflow,
            "Structural corruption: a box declares more data than the file contains. Cut mid-write."@,
            Some(raw),
        )
    } else {
        says(c, ScanErrorKind::Mp4Other, "MP4 parse failure."@, Some(raw))
    }
}

/// What a failure is reported as.
pub open spec fn is_report(c: Classification, e: AppError) -> bool {
    match e {
        AppError::InvalidFilename(_) => says(
            c,
            ScanErrorKind::InvalidFilename,
            "Filename doesn't match any known dashcam format."@,
            None,
        ),
        AppError::Io(d) => says(
            c,
            ScanErrorKind::FileUnreadable,
            "Could not read the file."@,
            Some(d@),
        ),
        AppError::NotVideo(_) => says(
            c,
            ScanErrorKind::Mp4NoVideoTrack,
            "No video track found in this file."@,
            None,
        ),
        AppError::Parse(raw) => is_parse_report(c, raw@),
        AppError::Internal(d) => says(c, ScanErrorKind::Mp4Other, "MP4 parse failure."@, Some(d@)),
        _ => says(
            c,
            ScanErrorKind::Mp4Other,
            "Unexpected error during scan."@,
            Some(e.words()),
        ),
    }
}

/// What a media file that could not be read is reported as.
pub fn classify_mp4_parse(raw: &str) -> (c: Classification)
    ensures
        is_parse_report(c, raw@),
{
    let detail = Some(owned(raw));
    if contains(raw, "moov not found") {
        Classification {
            kind: ScanErrorKind::Mp4MoovMissing,
            message: owned(
                "Missing index (moov). File was not closed properly — media may be recoverable with external tools.",
            ),
            detail,
        }
    } else if contains(raw, "larger size than it") {
        Classification {
            kind: ScanErrorKind::Mp4BoxOverflow,
            message: owned(
                "Structural corruption: a box declares more data than the file contains. Cut mid-write.",
            ),
            detail,
        }
    } else {
        Classification {
            kind: ScanErrorKind::Mp4Other,
            message: owned("MP4 parse failure."),
            detail,
        }
    }
}

/// What a failure is reported as.
pub fn classify(err: &AppError) -> (c: Classification)
    ensures
        is_report(c, *err),
{
    match err {
        AppError::InvalidFilename(_) => Classification {
            kind: ScanErrorKind::InvalidFilename,
            message: owned("Filename doesn't match any known dashcam format."),
            detail: None,
        },
        AppError::Io(d) => Classification {
            kind: ScanErrorKind::FileUnreadable,
            message: owned("Could not read the file."),
            detail: Some(d.clone()),
        },
        AppError::NotVideo(_) => Classification {
            kind: ScanErrorKind::Mp4NoVideoTrack,
            message: owned("No video track found in this file."),
            detail: None,
        },
        AppError::Parse(raw) => classify_mp4_parse(raw.as_str()),
        AppError::Internal(d) => Classification {
            kind: ScanErrorKind::Mp4Other,
            message: owned("MP4 parse failure."),
            detail: Some(d.clone()),
        },
        _ => Classification {
            kind: ScanErrorKind::Mp4Other,
            message: owned("Unexpected error during scan."),
            detail: Some(err.describe()),
        },
    }
}

} // verus!
