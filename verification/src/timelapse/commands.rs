//! What a run of the timelapse worker needs before it can start.

use crate::app_settings::AppSettings;
use crate::db::rows::{JobRow, JobView};
use crate::error::AppError;
use crate::paths::from_archive_relative;
use crate::text::owned;
use crate::timelapse::concurrency::{clamp_concurrency, MAX_CONCURRENCY};
use crate::timelapse::ffmpeg::Encoder;
use crate::timelapse::types::{Channel, FfmpegCapabilities, JobScope, Tier};
use vstd::prelude::*;

verus! {

/// The settings of the timelapse worker.
#[derive(Debug)]
pub struct TimelapseSettings {
    pub ffmpeg_path: Option<String>,
    pub capabilities: Option<FfmpegCapabilities>,
}

/// The settings of the timelapse worker. What the encoder can do is known only
/// where both parts of it are.
pub fn get_timelapse_settings(s: &AppSettings) -> (r: TimelapseSettings)
    ensures
        r.ffmpeg_path == s.ffmpeg_path,
        match r.capabilities {
            Some(c) => s.ffmpeg_version == Some(c.version) && s.nvenc_hevc == Some(c.nvenc_hevc),
            None => s.ffmpeg_version is None || s.nvenc_hevc is None,
        },
{
    TimelapseSettings { ffmpeg_path: s.ffmpeg_path.clone(), capabilities: s.capabilities() }
}

/// What is asked of a run.
#[derive(Debug)]
pub struct StartTimelapseArgs {
    pub trip_ids: Option<Vec<String>>,
    pub tiers: Vec<Tier>,
    pub channels: Vec<Channel>,
    pub scope: JobScope,
}

/// What a run works with.
#[derive(Debug)]
pub struct RunRequest {
    pub ffmpeg_path: String,
    pub caps: FfmpegCapabilities,
    pub encoder: Encoder,
    pub concurrency: usize,
}

/// The encoder of a run: its path and what it can do. Both must be known.
pub fn configured_encoder(s: &AppSettings) -> (r: Result<(String, FfmpegCapabilities), AppError>)
    ensures
        match r {
            Ok((path, caps)) => s.ffmpeg_path == Some(path) && s.ffmpeg_version == Some(
                caps.version,
            ) && s.nvenc_hevc == Some(caps.nvenc_hevc),
            Err(e) => if s.ffmpeg_path is None {
                crate::error::is_internal(
                    e,
                    "ffmpeg not configured \u{2014} set path in settings first"@,
                )
            } else {
                (s.ffmpeg_version is None || s.nvenc_hevc is None) && crate::error::is_internal(
                    e,
                    "ffmpeg capabilities not cached \u{2014} run the Test button first"@,
                )
            },
        },
{
    let path = match &s.ffmpeg_path {
        Some(p) => p.clone(),
        None => {
            return Err(
                AppError::Internal(
                    owned("ffmpeg not configured \u{2014} set path in settings first"),
                ),
            );
        },
    };
    match s.capabilities() {
        Some(caps) => Ok((path, caps)),
        None => Err(
            AppError::Internal(
                owned("ffmpeg capabilities not cached \u{2014} run the Test button first"),
            ),
        ),
    }
}

/// What a run works with, given the number of encodes that is recommended for
/// the machine. The number that the user set goes before it; either is brought
/// within the limits.
pub fn start_timelapse(s: &AppSettings, recommended: usize) -> (r: Result<RunRequest, AppError>)
    ensures
        match r {
            Ok(q) => s.ffmpeg_path == Some(q.ffmpeg_path) && s.ffmpeg_version == Some(
                q.caps.version,
            ) && s.nvenc_hevc == Some(q.caps.nvenc_hevc) && q.encoder == (if q.caps.nvenc_hevc {
                Encoder::HevcNvenc
            } else {
                Encoder::LibX265
            }) && q.concurrency == crate::timelapse::concurrency::clamped(
                match s.timelapse_max_concurrent_jobs {
                    Some(n) => n as int,
                    None => recommended as int,
                },
            ) && 1 <= q.concurrency <= MAX_CONCURRENCY,
            Err(e) => if s.ffmpeg_path is None {
                crate::error::is_internal(
                    e,
                    "ffmpeg not configured \u{2014} set path in settings first"@,
                )
            } else {
                (s.ffmpeg_version is None || s.nvenc_hevc is None) && crate::error::is_internal(
                    e,
                    "ffmpeg capabilities not cached \u{2014} run the Test button first"@,
                )
            },
        },
{
    let (ffmpeg_path, caps) = match configured_encoder(s) {
        Ok(x) => x,
        Err(e) => {
            return Err(e);
        },
    };
    let encoder = Encoder::pick(&caps);
    let wanted: usize = match s.timelapse_max_concurrent_jobs {
        Some(n) => n as usize,
        None => recommended,
    };
    Ok(RunRequest { ffmpeg_path, caps, encoder, concurrency: clamp_concurrency(wanted) })
}

/// The row with the full path of its output.
pub open spec fn with_full_path(r: JobView, root: Seq<char>) -> JobView {
    JobView {
        output_path: match r.output_path {
            Some(p) => Some(crate::paths::path_join(root, p)),
            None => None,
        },
        ..r
    }
}

/// The jobs with the full paths of their outputs.
pub fn list_timelapse_jobs(jobs: Vec<JobRow>, archive_root: &str) -> (r: Vec<JobRow>)
    ensures
        crate::db::rows::job_rows(r@) == crate::db::rows::job_rows(jobs@).map_values(
            |j: JobView| with_full_path(j, archive_root@),
        ),
{
    let ghost all = jobs@;
    let ghost jv = crate::db::rows::job_rows(jobs@);
    let ghost want = jv.map_values(|j: JobView| with_full_path(j, archive_root@));
    let mut out: Vec<JobRow> = Vec::new();
    let ghost mut n: int = 0;
    for x in it: jobs
        invariant
            it.seq() == all,
            n == it.index(),
            jv == crate::db::rows::job_rows(all),
            want == jv.map_values(|j: JobView| with_full_path(j, archive_root@)),
            crate::db::rows::job_rows(out@) == want.take(n),
    {
        proof {
            assert(jv[n] == x@);
        }
        let mut y = x;
        let full = match &y.output_path {
            Some(p) => Some(from_archive_relative(p.as_str(), archive_root)),
            None => None,
        };
        y.output_path = full;
        let ghost before = out@;
        let ghost yv = y@;
        out.push(y);
        proof {
            assert(yv == want[n]);
            assert(crate::db::rows::job_rows(out@) == crate::db::rows::job_rows(before).push(yv));
            assert(want.take(n + 1) == want.take(n).push(yv));
            n = n + 1;
        }
    }
    proof {
        assert(want.take(want.len() as int) == want);
    }
    out
}

} // verus!
