//! What is told of failures.

use crate::error::AppError;
use crate::scan::errors::{Classification, ScanErrorKind};
use crate::timelapse::ffmpeg::ActionView;
use vstd::prelude::*;

verus! {

/// A media file that could not be read is reported with all that was said of it: as one
/// without an index where this was missed, else as one cut short where a box was larger
/// than it could be, else as one of which no more is known.
pub proof fn unreadable_files_are_told_apart(c: Classification, raw: Seq<char>)
    requires
        crate::scan::errors::is_parse_report(c, raw),
    ensures
        c.detail is Some && c.detail->0@ == raw,
        c.kind == ScanErrorKind::Mp4MoovMissing <==> exists|i: int|
            0 <= i <= raw.len() - 14 && #[trigger] raw.subrange(i, i + 14) == "moov not found"@,
        c.kind == ScanErrorKind::Mp4BoxOverflow <==> !crate::text::has_substring(
            raw,
            "moov not found"@,
        ) && crate::text::has_substring(raw, "larger size than it"@),
        c.kind == ScanErrorKind::Mp4Other <==> !crate::text::has_substring(
            raw,
            "moov not found"@,
        ) && !crate::text::has_substring(raw, "larger size than it"@),
{
    reveal_strlit("moov not found");
    assert("moov not found"@.len() == 14);
}

/// The kind of a report is that of the failure, and nothing that was said of it is lost.
pub proof fn reports_tell_the_failure(c: Classification, e: AppError)
    requires
        crate::scan::errors::is_report(c, e),
    ensures
        e is InvalidFilename <==> c.kind == ScanErrorKind::InvalidFilename,
        e is Io <==> c.kind == ScanErrorKind::FileUnreadable,
        e is NotVideo <==> c.kind == ScanErrorKind::Mp4NoVideoTrack,
        e matches AppError::Io(d) ==> c.detail is Some && c.detail->0@ == d@,
        e matches AppError::Parse(d) ==> c.detail is Some && c.detail->0@ == d@,
        e matches AppError::Internal(d) ==> c.detail is Some && c.detail->0@ == d@,
        e is InvalidFilename || e is NotVideo ==> c.detail is None,
        e is Db || e is PathOutsideArchive || e is ImportAlreadyRunning ==> c.kind
            == ScanErrorKind::Mp4Other && c.detail is Some && c.detail->0@ == e.words(),
{
    if let AppError::Parse(d) = e {
        unreadable_files_are_told_apart(c, d@);
    }
}

/// What is told of a failed step ends with its reason, and what comes before depends on
/// the step alone.
pub proof fn failed_steps_tell_their_reason(action: ActionView, reason: Seq<char>, other: Seq<char>)
    requires
        !(action is GiveUp),
    ensures
        ({
            let a = crate::timelapse::ffmpeg::failure_text(action, reason);
            let b = crate::timelapse::ffmpeg::failure_text(action, other);
            let n = a.len() - reason.len();
            &&& n >= 0
            &&& a.skip(n) == reason
            &&& b.len() - other.len() == n
            &&& a.take(n) == b.take(n)
            &&& action is Run ==> n == 0
        }),
{
    let a = crate::timelapse::ffmpeg::failure_text(action, reason);
    let b = crate::timelapse::ffmpeg::failure_text(action, other);
    let n = a.len() - reason.len();
    assert(a.skip(n) =~= reason);
    assert(a.take(n) =~= b.take(n));
}

/// The words of an error end with what it was given.
pub proof fn errors_tell_their_cause(s: String)
    ensures
        ends_with(AppError::InvalidFilename(s).words(), s@),
        ends_with(AppError::Io(s).words(), s@),
        ends_with(AppError::NotVideo(s).words(), s@),
        ends_with(AppError::Parse(s).words(), s@),
        ends_with(AppError::Db(s).words(), s@),
        AppError::Internal(s).words() == s@,
        ends_with((AppError::PathOutsideArchive { path: s }).words(), s@),
{
    lemma_ends("invalid filename: "@, s@);
    lemma_ends("io error: "@, s@);
    lemma_ends("not a video: "@, s@);
    lemma_ends("parse error: "@, s@);
    lemma_ends("database error: "@, s@);
    lemma_ends("path is outside the archive: "@, s@);
}

/// The text ends with the other.
pub open spec fn ends_with(s: Seq<char>, t: Seq<char>) -> bool {
    s.len() >= t.len() && s.skip(s.len() - t.len()) == t
}

proof fn lemma_ends(a: Seq<char>, t: Seq<char>)
    ensures
        ends_with(a + t, t),
{
    assert((a + t).skip((a + t).len() - t.len()) =~= t);
}

/// The names of the directories that the system keeps on a drive.
pub proof fn system_directories_are_known(lower: Seq<char>)
    ensures
        crate::import::discovery::is_system_dir(lower) <==> lower == "system volume information"@
            || lower == "$recycle.bin"@,
{
}

} // verus!
