//! The table of timelapse jobs: one row for each trip, tier and channel.

use crate::db::rows::{JobRow, JobStatus, JobView};
use crate::text::owned;
use vstd::prelude::*;

verus! {

/// The row is that of the job.
pub open spec fn is_job(
    r: JobView,
    trip_id: Seq<char>,
    tier: Seq<char>,
    channel: Seq<char>,
) -> bool {
    r.trip_id == trip_id && r.tier == tier && r.channel == channel
}

/// Whether the row is that of the job.
pub fn row_is_job(r: &JobRow, trip_id: &str, tier: &str, channel: &str) -> (b: bool)
    ensures
        b == is_job(r@, trip_id@, tier@, channel@),
{
    crate::text::same_str(r.trip_id.as_str(), trip_id) && crate::text::same_str(
        r.tier.as_str(),
        tier,
    ) && crate::text::same_str(r.channel.as_str(), channel)
}

/// Something that happens to a job.
#[derive(Debug)]
pub enum JobChange {
    /// The job is to be done anew: nothing is known of its output.
    Enqueued,
    /// The job is taken up.
    Started,
    /// The job is put back.
    PutBack,
    /// The job has its output.
    Finished {
        output_path: String,
        ffmpeg_version: String,
        encoder_used: String,
        padded_count: i64,
        speed_curve_json: String,
        output_size_bytes: Option<i64>,
        now_ms: i64,
    },
    /// The job failed.
    Failed(String),
    /// The output was found where it should be.
    Found { output_path: String, size_bytes: i64 },
    /// The output was brought to where it should be.
    Recovered { output_path: String, output_size_bytes: Option<i64> },
    /// The size of the output became known.
    Measured(i64),
}

/// A job after something happened to it.
pub open spec fn changed(r: JobView, c: JobChange) -> JobView {
    match c {
        JobChange::Enqueued => JobView {
            status: JobStatus::Pending,
            output_path: None,
            error_message: None,
            ffmpeg_version: None,
            encoder_used: None,
            padded_count: None,
            speed_curve_json: None,
            output_size_bytes: None,
            completed_at_ms: None,
            ..r
        },
        JobChange::Started => JobView { status: JobStatus::Running, error_message: None, ..r },
        JobChange::PutBack => JobView {
            status: JobStatus::Pending,
            output_path: None,
            error_message: None,
            completed_at_ms: None,
            ..r
        },
        JobChange::Finished {
            output_path,
            ffmpeg_version,
            encoder_used,
            padded_count,
            speed_curve_json,
            output_size_bytes,
            now_ms,
        } => JobView {
            status: JobStatus::Done,
            output_path: Some(output_path@),
            error_message: None,
            ffmpeg_version: Some(ffmpeg_version@),
            encoder_used: Some(encoder_used@),
            padded_count: Some(padded_count),
            speed_curve_json: Some(speed_curve_json@),
            output_size_bytes,
            completed_at_ms: Some(now_ms),
            ..r
        },
        JobChange::Failed(message) => JobView {
            status: JobStatus::Failed,
            error_message: Some(message@),
            ..r
        },
        JobChange::Found { output_path, size_bytes } => JobView {
            status: JobStatus::Done,
            output_path: Some(output_path@),
            error_message: None,
            output_size_bytes: Some(size_bytes),
            ..r
        },
        JobChange::Recovered { output_path, output_size_bytes } => JobView {
            status: JobStatus::Done,
            output_path: Some(output_path@),
            error_message: None,
            output_size_bytes: match output_size_bytes {
                Some(n) => Some(n),
                None => r.output_size_bytes,
            },
            ..r
        },
        JobChange::Measured(n) => JobView { output_size_bytes: Some(n), ..r },
    }
}

fn change_row(r: JobRow, c: &JobChange) -> (x: JobRow)
    ensures
        x@ == changed(r@, *c),
{
    let mut r = r;
    match c {
        JobChange::Enqueued => {
            r.status = JobStatus::Pending;
            r.output_path = None;
            r.error_message = None;
            r.ffmpeg_version = None;
            r.encoder_used = None;
            r.padded_count = None;
            r.speed_curve_json = None;
            r.output_size_bytes = None;
            r.completed_at_ms = None;
        },
        JobChange::Started => {
            r.status = JobStatus::Running;
            r.error_message = None;
        },
        JobChange::PutBack => {
            r.status = JobStatus::Pending;
            r.output_path = None;
            r.error_message = None;
            r.completed_at_ms = None;
        },
        JobChange::Finished {
            output_path,
            ffmpeg_version,
            encoder_used,
            padded_count,
            speed_curve_json,
            output_size_bytes,
            now_ms,
        } => {
            r.status = JobStatus::Done;
            r.output_path = Some(output_path.clone());
            r.error_message = None;
            r.ffmpeg_version = Some(ffmpeg_version.clone());
            r.encoder_used = Some(encoder_used.clone());
            r.padded_count = Some(*padded_count);
            r.speed_curve_json = Some(speed_curve_json.clone());
            r.output_size_bytes = *output_size_bytes;
            r.completed_at_ms = Some(*now_ms);
        },
        JobChange::Failed(message) => {
            r.status = JobStatus::Failed;
            r.error_message = Some(message.clone());
        },
        JobChange::Found { output_path, size_bytes } => {
            r.status = JobStatus::Done;
            r.output_path = Some(output_path.clone());
            r.error_message = None;
            r.output_size_bytes = Some(*size_bytes);
        },
        JobChange::Recovered { output_path, output_size_bytes } => {
            r.status = JobStatus::Done;
            r.output_path = Some(output_path.clone());
            r.error_message = None;
            if let Some(n) = output_size_bytes {
                r.output_size_bytes = Some(*n);
            }
        },
        JobChange::Measured(n) => {
            r.output_size_bytes = Some(*n);
        },
    }
    r
}

/// The table after something happened to one job.
pub open spec fn with_change(
    rows: Seq<JobView>,
    trip_id: Seq<char>,
    tier: Seq<char>,
    channel: Seq<char>,
    c: JobChange,
) -> Seq<JobView> {
    rows.map_values(
        |r: JobView|
            if is_job(r, trip_id, tier, channel) {
                changed(r, c)
            } else {
                r
            },
    )
}

/// Records what happened to a job. A job without a row is not recorded.
pub fn change_job(
    rows: Vec<JobRow>,
    trip_id: &str,
    tier: &str,
    channel: &str,
    c: JobChange,
) -> (r: Vec<JobRow>)
    ensures
        crate::db::rows::job_rows(r@) == with_change(
            crate::db::rows::job_rows(rows@),
            trip_id@,
            tier@,
            channel@,
            c,
        ),
{
    let ghost all = rows@;
    let ghost av = crate::db::rows::job_rows(rows@);
    let ghost wanted = with_change(av, trip_id@, tier@, channel@, c);
    let mut out: Vec<JobRow> = Vec::new();
    let ghost mut n: int = 0;
    for x in it: rows
        invariant
            it.seq() == all,
            n == it.index(),
            av == crate::db::rows::job_rows(all),
            wanted == with_change(av, trip_id@, tier@, channel@, c),
            crate::db::rows::job_rows(out@) == wanted.take(n),
    {
        proof {
            assert(av[n] == x@);
        }
        let ghost before = out@;
        let y = if row_is_job(&x, trip_id, tier, channel) {
            change_row(x, &c)
        } else {
            x
        };
        let ghost yv = y@;
        out.push(y);
        proof {
            assert(yv == wanted[n]);
            assert(crate::db::rows::job_rows(out@) == crate::db::rows::job_rows(before).push(yv));
            assert(wanted.take(n + 1) == wanted.take(n).push(yv));
            n = n + 1;
        }
    }
    proof {
        assert(wanted.take(wanted.len() as int) == wanted);
    }
    out
}

/// The job has a row.
pub open spec fn has_row(
    rows: Seq<JobView>,
    trip_id: Seq<char>,
    tier: Seq<char>,
    channel: Seq<char>,
) -> bool {
    exists|i: int| 0 <= i < rows.len() && is_job(#[trigger] rows[i], trip_id, tier, channel)
}

/// The first row of the job.
pub open spec fn row_of(
    rows: Seq<JobView>,
    trip_id: Seq<char>,
    tier: Seq<char>,
    channel: Seq<char>,
) -> Option<JobView> {
    let i = crate::db::table::first_index(
        rows,
        |r: JobView| is_job(r, trip_id, tier, channel),
        0,
    );
    if i < rows.len() {
        Some(rows[i])
    } else {
        None
    }
}

/// The place of the job's row.
pub fn find(rows: &Vec<JobRow>, trip_id: &str, tier: &str, channel: &str) -> (r: Option<usize>)
    ensures
        match r {
            Some(i) => i < rows.len() && row_of(
                crate::db::rows::job_rows(rows@),
                trip_id@,
                tier@,
                channel@,
            ) == Some(rows@[i as int]@) && has_row(
                crate::db::rows::job_rows(rows@),
                trip_id@,
                tier@,
                channel@,
            ),
            None => row_of(crate::db::rows::job_rows(rows@), trip_id@, tier@, channel@) is None
                && !has_row(crate::db::rows::job_rows(rows@), trip_id@, tier@, channel@),
        },
{
    let ghost av = crate::db::rows::job_rows(rows@);
    let ghost p = |r: JobView| is_job(r, trip_id@, tier@, channel@);
    proof {
        crate::db::table::lemma_first_index(av, p, 0);
    }
    let mut i: usize = 0;
    while i < rows.len()
        invariant
            i <= rows.len(),
            av == crate::db::rows::job_rows(rows@),
            p == (|r: JobView| is_job(r, trip_id@, tier@, channel@)),
            crate::db::table::first_index(av, p, 0) == crate::db::table::first_index(
                av,
                p,
                i as int,
            ),
            forall|j: int|
                0 <= j < i ==> !is_job(#[trigger] av[j], trip_id@, tier@, channel@),
        decreases rows.len() - i,
    {
        proof {
            assert(av[i as int] == rows@[i as int]@);
        }
        if row_is_job(&rows[i], trip_id, tier, channel) {
            return Some(i);
        }
        i += 1;
    }
    None
}

/// The row of a job.
pub fn get(rows: &Vec<JobRow>, trip_id: &str, tier: &str, channel: &str) -> (r: Option<JobRow>)
    ensures
        match r {
            Some(x) => row_of(crate::db::rows::job_rows(rows@), trip_id@, tier@, channel@) == Some(
                x@,
            ),
            None => row_of(crate::db::rows::job_rows(rows@), trip_id@, tier@, channel@) is None,
        },
{
    match find(rows, trip_id, tier, channel) {
        Some(i) => Some(rows[i].clone()),
        None => None,
    }
}

/// A new job.
pub open spec fn fresh_job(
    trip_id: Seq<char>,
    tier: Seq<char>,
    channel: Seq<char>,
    now_ms: i64,
) -> JobView {
    JobView {
        trip_id,
        tier,
        channel,
        status: JobStatus::Pending,
        output_path: None,
        error_message: None,
        ffmpeg_version: None,
        encoder_used: None,
        padded_count: None,
        speed_curve_json: None,
        output_size_bytes: None,
        created_at_ms: now_ms,
        completed_at_ms: None,
    }
}

/// The table with the job enqueued: a new row, or the old one as if new.
pub open spec fn with_enqueued(
    rows: Seq<JobView>,
    trip_id: Seq<char>,
    tier: Seq<char>,
    channel: Seq<char>,
    now_ms: i64,
) -> Seq<JobView> {
    if has_row(rows, trip_id, tier, channel) {
        with_change(rows, trip_id, tier, channel, JobChange::Enqueued)
    } else {
        rows.push(fresh_job(trip_id, tier, channel, now_ms))
    }
}

/// Enqueues a job.
pub fn upsert_pending(
    rows: Vec<JobRow>,
    trip_id: &str,
    tier: &str,
    channel: &str,
    now_ms: i64,
) -> (r: Vec<JobRow>)
    ensures
        crate::db::rows::job_rows(r@) == with_enqueued(
            crate::db::rows::job_rows(rows@),
            trip_id@,
            tier@,
            channel@,
            now_ms,
        ),
{
    match find(&rows, trip_id, tier, channel) {
        Some(_) => change_job(rows, trip_id, tier, channel, JobChange::Enqueued),
        None => {
            let ghost before = rows@;
            let mut rows = rows;
            let row = JobRow {
                trip_id: owned(trip_id),
                tier: owned(tier),
                channel: owned(channel),
                status: JobStatus::Pending,
                output_path: None,
                error_message: None,
                ffmpeg_version: None,
                encoder_used: None,
                padded_count: None,
                speed_curve_json: None,
                output_size_bytes: None,
                created_at_ms: now_ms,
                completed_at_ms: None,
            };
            let ghost rv = row@;
            rows.push(row);
            proof {
                assert(rv == fresh_job(trip_id@, tier@, channel@, now_ms));
                assert(crate::db::rows::job_rows(rows@) == crate::db::rows::job_rows(before).push(
                    rv,
                ));
            }
            rows
        },
    }
}

/// Records that a job was taken up.
pub fn mark_running(rows: Vec<JobRow>, trip_id: &str, tier: &str, channel: &str) -> (r: Vec<JobRow>)
    ensures
        crate::db::rows::job_rows(r@) == with_change(
            crate::db::rows::job_rows(rows@),
            trip_id@,
            tier@,
            channel@,
            JobChange::Started,
        ),
{
    change_job(rows, trip_id, tier, channel, JobChange::Started)
}

/// Records that a job failed. What was known of its output is kept.
pub fn mark_failed(
    rows: Vec<JobRow>,
    trip_id: &str,
    tier: &str,
    channel: &str,
    message: String,
) -> (r: Vec<JobRow>)
    ensures
        crate::db::rows::job_rows(r@) == with_change(
            crate::db::rows::job_rows(rows@),
            trip_id@,
            tier@,
            channel@,
            JobChange::Failed(message),
        ),
{
    change_job(rows, trip_id, tier, channel, JobChange::Failed(message))
}

/// Puts a job back.
pub fn reset_to_pending(rows: Vec<JobRow>, trip_id: &str, tier: &str, channel: &str) -> (r: Vec<
    JobRow,
>)
    ensures
        crate::db::rows::job_rows(r@) == with_change(
            crate::db::rows::job_rows(rows@),
            trip_id@,
            tier@,
            channel@,
            JobChange::PutBack,
        ),
{
    change_job(rows, trip_id, tier, channel, JobChange::PutBack)
}

/// Records that a job has its output.
pub fn mark_done(
    rows: Vec<JobRow>,
    trip_id: &str,
    tier: &str,
    channel: &str,
    output_path: String,
    ffmpeg_version: String,
    encoder_used: String,
    padded_count: i64,
    speed_curve_json: String,
    output_size_bytes: Option<i64>,
    now_ms: i64,
) -> (r: Vec<JobRow>)
    ensures
        crate::db::rows::job_rows(r@) == with_change(
            crate::db::rows::job_rows(rows@),
            trip_id@,
            tier@,
            channel@,
            JobChange::Finished {
                output_path,
                ffmpeg_version,
                encoder_used,
                padded_count,
                speed_curve_json,
                output_size_bytes,
                now_ms,
            },
        ),
{
    let c = JobChange::Finished {
        output_path,
        ffmpeg_version,
        encoder_used,
        padded_count,
        speed_curve_json,
        output_size_bytes,
        now_ms,
    };
    change_job(rows, trip_id, tier, channel, c)
}

/// The rows with a status.
pub fn list_by_status(rows: &Vec<JobRow>, status: JobStatus) -> (r: Vec<JobRow>)
    ensures
        crate::db::rows::job_rows(r@) == crate::db::rows::job_rows(rows@).filter(
            |x: JobView| x.status == status,
        ),
{
    let ghost av = crate::db::rows::job_rows(rows@);
    let ghost keep = |x: JobView| x.status == status;
    let mut out: Vec<JobRow> = Vec::new();
    let mut i: usize = 0;
    proof {
        reveal(Seq::filter);
        assert(av.take(0).filter(keep) == Seq::<JobView>::empty());
        assert(crate::db::rows::job_rows(out@) == Seq::<JobView>::empty());
    }
    while i < rows.len()
        invariant
            i <= rows.len(),
            av == crate::db::rows::job_rows(rows@),
            keep == (|x: JobView| x.status == status),
            crate::db::rows::job_rows(out@) == av.take(i as int).filter(keep),
        decreases rows.len() - i,
    {
        proof {
            reveal(Seq::filter);
            assert(av.take(i + 1).drop_last() == av.take(i as int));
            assert(av.take(i + 1).last() == rows@[i as int]@);
        }
        if rows[i].status == status {
            let ghost before = out@;
            out.push(rows[i].clone());
            proof {
                assert(crate::db::rows::job_rows(out@) == crate::db::rows::job_rows(before).push(
                    rows@[i as int]@,
                ));
            }
        }
        i += 1;
    }
    proof {
        assert(av.take(av.len() as int) == av);
    }
    out
}

/// Every job has one row.
pub open spec fn has_unique_jobs(rows: Seq<JobView>) -> bool {
    forall|i: int, j: int|
        0 <= i < j < rows.len() ==> !is_job(
            #[trigger] rows[j],
            (#[trigger] rows[i]).trip_id,
            rows[i].tier,
            rows[i].channel,
        )
}

/// What happens to one job leaves the other jobs as they are, and no row comes
/// or goes.
pub proof fn changes_touch_one_job(
    rows: Seq<JobView>,
    trip_id: Seq<char>,
    tier: Seq<char>,
    channel: Seq<char>,
    c: JobChange,
)
    ensures
        with_change(rows, trip_id, tier, channel, c).len() == rows.len(),
        forall|i: int|
            0 <= i < rows.len() && !is_job(#[trigger] rows[i], trip_id, tier, channel)
                ==> with_change(rows, trip_id, tier, channel, c)[i] == rows[i],
        has_unique_jobs(rows) ==> has_unique_jobs(with_change(rows, trip_id, tier, channel, c)),
{
    let r = with_change(rows, trip_id, tier, channel, c);
    assert forall|i: int| 0 <= i < rows.len() implies (#[trigger] r[i]).trip_id == rows[i].trip_id
        && r[i].tier == rows[i].tier && r[i].channel == rows[i].channel by {}
    if has_unique_jobs(rows) {
        assert forall|i: int, j: int| 0 <= i < j < r.len() implies !is_job(
            #[trigger] r[j],
            (#[trigger] r[i]).trip_id,
            r[i].tier,
            r[i].channel,
        ) by {
            assert(!is_job(rows[j], rows[i].trip_id, rows[i].tier, rows[i].channel));
        }
    }
}

/// Enqueuing a job keeps one row for every job.
pub proof fn enqueuing_keeps_jobs_unique(
    rows: Seq<JobView>,
    trip_id: Seq<char>,
    tier: Seq<char>,
    channel: Seq<char>,
    now_ms: i64,
)
    requires
        has_unique_jobs(rows),
    ensures
        has_unique_jobs(with_enqueued(rows, trip_id, tier, channel, now_ms)),
        has_row(with_enqueued(rows, trip_id, tier, channel, now_ms), trip_id, tier, channel),
{
    let r = with_enqueued(rows, trip_id, tier, channel, now_ms);
    changes_touch_one_job(rows, trip_id, tier, channel, JobChange::Enqueued);
    if has_row(rows, trip_id, tier, channel) {
        let i = choose|i: int|
            0 <= i < rows.len() && is_job(#[trigger] rows[i], trip_id, tier, channel);
        assert(is_job(r[i], trip_id, tier, channel));
    } else {
        assert(is_job(r[rows.len() as int], trip_id, tier, channel));
        assert forall|i: int, j: int| 0 <= i < j < r.len() implies !is_job(
            #[trigger] r[j],
            (#[trigger] r[i]).trip_id,
            r[i].tier,
            r[i].channel,
        ) by {
            if j < rows.len() {
                assert(!is_job(rows[j], rows[i].trip_id, rows[i].tier, rows[i].channel));
            } else {
                assert(!is_job(rows[i], trip_id, tier, channel));
            }
        }
    }
}

} // verus!
