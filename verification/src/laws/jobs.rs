//! What is known of a job after something happened to it.

use crate::db::rows::{JobStatus, JobView};
use crate::db::timelapse_jobs::JobChange;
use vstd::prelude::*;

verus! {

/// Nothing of an output is known.
pub open spec fn knows_no_output(r: JobView) -> bool {
    &&& r.output_path is None
    &&& r.error_message is None
    &&& r.ffmpeg_version is None
    &&& r.encoder_used is None
    &&& r.padded_count is None
    &&& r.speed_curve_json is None
    &&& r.output_size_bytes is None
    &&& r.completed_at_ms is None
}

/// How the output was made is known as before.
pub open spec fn is_made_as_before(r: JobView, before: JobView) -> bool {
    &&& r.ffmpeg_version == before.ffmpeg_version
    &&& r.encoder_used == before.encoder_used
    &&& r.padded_count == before.padded_count
    &&& r.speed_curve_json == before.speed_curve_json
}

/// What a job's row tells after each of the things that can happen to it. It is
/// still the row of the same job, from the same time.
pub proof fn jobs_tell_what_happened(
    rows: Seq<JobView>,
    trip: Seq<char>,
    tier: Seq<char>,
    channel: Seq<char>,
    c: JobChange,
    i: int,
)
    requires
        0 <= i < rows.len(),
        rows[i].trip_id == trip && rows[i].tier == tier && rows[i].channel == channel,
    ensures
        ({
            let b = rows[i];
            let r = crate::db::timelapse_jobs::with_change(rows, trip, tier, channel, c)[i];
            &&& r.trip_id == trip && r.tier == tier && r.channel == channel && r.created_at_ms
                == b.created_at_ms
            &&& match c {
                JobChange::Enqueued => r.status == JobStatus::Pending && knows_no_output(r),
                JobChange::Started => r.status == JobStatus::Running && r.error_message is None
                    && is_made_as_before(r, b) && r.output_path == b.output_path
                    && r.output_size_bytes == b.output_size_bytes && r.completed_at_ms
                    == b.completed_at_ms,
                JobChange::PutBack => r.status == JobStatus::Pending && r.output_path is None
                    && r.error_message is None && r.completed_at_ms is None && is_made_as_before(
                    r,
                    b,
                ) && r.output_size_bytes == b.output_size_bytes,
                JobChange::Finished {
                    output_path,
                    ffmpeg_version,
                    encoder_used,
                    padded_count,
                    speed_curve_json,
                    output_size_bytes,
                    now_ms,
                } => r.status == JobStatus::Done && r.error_message is None && r.output_path
                    == Some(output_path@) && r.ffmpeg_version == Some(ffmpeg_version@)
                    && r.encoder_used == Some(encoder_used@) && r.padded_count == Some(padded_count)
                    && r.speed_curve_json == Some(speed_curve_json@) && r.output_size_bytes
                    == output_size_bytes && r.completed_at_ms == Some(now_ms),
                JobChange::Failed(why) => r.status == JobStatus::Failed && r.error_message == Some(
                    why@,
                ) && is_made_as_before(r, b) && r.output_path == b.output_path
                    && r.output_size_bytes == b.output_size_bytes && r.completed_at_ms
                    == b.completed_at_ms,
                JobChange::Found { output_path, size_bytes } => r.status == JobStatus::Done
                    && r.error_message is None && r.output_path == Some(output_path@)
                    && r.output_size_bytes == Some(size_bytes) && is_made_as_before(r, b)
                    && r.completed_at_ms == b.completed_at_ms,
                JobChange::Recovered { output_path, output_size_bytes } => r.status
                    == JobStatus::Done && r.error_message is None && r.output_path == Some(
                    output_path@,
                ) && (output_size_bytes is Some ==> r.output_size_bytes == output_size_bytes) && (
                output_size_bytes is None ==> r.output_size_bytes == b.output_size_bytes)
                    && is_made_as_before(r, b) && r.completed_at_ms == b.completed_at_ms,
                JobChange::Measured(n) => r.output_size_bytes == Some(n) && r.status == b.status
                    && r.output_path == b.output_path && r.error_message == b.error_message
                    && is_made_as_before(r, b) && r.completed_at_ms == b.completed_at_ms,
            }
        }),
{
}

/// The row that is found for a job is the first one of this trip, tier and channel;
/// none is found only where there is none.
pub proof fn jobs_are_found_by_their_key(
    rows: Seq<JobView>,
    trip: Seq<char>,
    tier: Seq<char>,
    channel: Seq<char>,
)
    ensures
        match crate::db::timelapse_jobs::row_of(rows, trip, tier, channel) {
            Some(r) => r.trip_id == trip && r.tier == tier && r.channel == channel && exists|i: int|
                0 <= i < rows.len() && #[trigger] rows[i] == r && forall|j: int|
                    0 <= j < i ==> !((#[trigger] rows[j]).trip_id == trip && rows[j].tier == tier
                        && rows[j].channel == channel),
            None => forall|j: int|
                0 <= j < rows.len() ==> !((#[trigger] rows[j]).trip_id == trip && rows[j].tier
                    == tier && rows[j].channel == channel),
        },
{
    let p = |r: JobView| crate::db::timelapse_jobs::is_job(r, trip, tier, channel);
    let i = crate::db::table::first_index(rows, p, 0);
    crate::db::table::lemma_first_index(rows, p, 0);
    if i < rows.len() {
        assert(p(rows[i]));
        assert forall|j: int| 0 <= j < i implies !((#[trigger] rows[j]).trip_id == trip
            && rows[j].tier == tier && rows[j].channel == channel) by {
            assert(!p(rows[j]));
        }
    } else {
        assert forall|j: int| 0 <= j < rows.len() implies !((#[trigger] rows[j]).trip_id == trip
            && rows[j].tier == tier && rows[j].channel == channel) by {
            assert(!p(rows[j]));
        }
    }
}

/// A job that was enqueued waits, and nothing is known of an output of it; a new one
/// is from now. All other rows stay as they are.
pub proof fn enqueued_jobs_wait(
    rows: Seq<JobView>,
    trip: Seq<char>,
    tier: Seq<char>,
    channel: Seq<char>,
    now_ms: i64,
)
    ensures
        ({
            let r = crate::db::timelapse_jobs::with_enqueued(rows, trip, tier, channel, now_ms);
            let found = crate::db::timelapse_jobs::row_of(r, trip, tier, channel);
            let before = crate::db::timelapse_jobs::row_of(rows, trip, tier, channel);
            &&& found is Some && found->0.status == JobStatus::Pending && knows_no_output(found->0)
            &&& before is None ==> found->0.created_at_ms == now_ms && r.len() == rows.len() + 1
            &&& before is Some ==> found->0.created_at_ms == before->0.created_at_ms && r.len()
                == rows.len()
            &&& forall|i: int|
                0 <= i < rows.len() && !((#[trigger] rows[i]).trip_id == trip && rows[i].tier == tier
                    && rows[i].channel == channel) ==> r[i] == rows[i]
        }),
{
    let r = crate::db::timelapse_jobs::with_enqueued(rows, trip, tier, channel, now_ms);
    let p = |x: JobView| crate::db::timelapse_jobs::is_job(x, trip, tier, channel);
    crate::db::table::lemma_first_index(rows, p, 0);
    crate::db::table::lemma_first_index(r, p, 0);
    let i = crate::db::table::first_index(rows, p, 0);
    let j = crate::db::table::first_index(r, p, 0);
    if crate::db::timelapse_jobs::has_row(rows, trip, tier, channel) {
        let k = choose|k: int|
            0 <= k < rows.len() && crate::db::timelapse_jobs::is_job(
                #[trigger] rows[k],
                trip,
                tier,
                channel,
            );
        assert(p(rows[k]));
        assert(i < rows.len());
        assert(p(rows[i]));
        assert(p(r[i]));
        assert(j <= i);
        if j < i {
            assert(!p(rows[j]));
            assert(r[j] == rows[j]);
        }
        assert(j == i);
    } else {
        if i < rows.len() {
            assert(p(rows[i]));
        }
        assert(p(r[rows.len() as int]));
        assert(j <= rows.len());
        if j < rows.len() {
            assert(p(r[j]));
            assert(r[j] == rows[j]);
        }
    }
}

} // verus!
