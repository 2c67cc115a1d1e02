//! Bringing the table of jobs and the files on disk together again.

use crate::db::rows::{JobRow, JobStatus, JobView, Library, TripRow, TripView};
use crate::db::table::{contains_string, retain_marked};
use crate::db::timelapse_jobs::{list_by_status, reset_to_pending, JobChange};
use crate::ids::{derive_segment_id, derive_trip_id, id_text, is_uuid_shape};
use crate::moment::{moment_from_millis, Moment};
use crate::paths::from_archive_relative;
use crate::sort::sort_stable;
use crate::text::{
    chars_of, concat2, concat3, ends_with, owned, same_str, string_of,
};
use crate::timelapse::worker::{footage_rows, output_file_name, trip_has_source_segments};
use vstd::prelude::*;
use vstd::slice::slice_subrange;

verus! {

// ----------------------------------------------------------------- stale jobs

/// The jobs that are recorded as being worked on.
pub fn list_stale_jobs(jobs: &Vec<JobRow>) -> (r: Vec<JobRow>)
    ensures
        crate::db::rows::job_rows(r@) == stale(crate::db::rows::job_rows(jobs@)),
{
    list_by_status(jobs, JobStatus::Running)
}

/// The jobs that are recorded as being worked on.
pub open spec fn stale(jobs: Seq<JobView>) -> Seq<JobView> {
    jobs.filter(|x: JobView| x.status == JobStatus::Running)
}

/// Puts a job back, and tells the file that is to be removed.
pub fn reset_one_stale_job(jobs: Vec<JobRow>, row: &JobRow, archive_root: &str) -> (r: (
    Vec<JobRow>,
    Option<String>,
))
    ensures
        crate::db::rows::job_rows(r.0@) == crate::db::timelapse_jobs::with_change(
            crate::db::rows::job_rows(jobs@),
            row@.trip_id,
            row@.tier,
            row@.channel,
            JobChange::PutBack,
        ),
        crate::text::opt_view(r.1) == (match row@.output_path {
            Some(p) => Some(crate::paths::path_join(archive_root@, p)),
            None => None,
        }),
{
    let file = match &row.output_path {
        Some(rel) => Some(from_archive_relative(rel.as_str(), archive_root)),
        None => None,
    };
    let jobs = reset_to_pending(
        jobs,
        row.trip_id.as_str(),
        row.tier.as_str(),
        row.channel.as_str(),
    );
    (jobs, file)
}

/// The table with the first `n` of the rows put back.
pub open spec fn put_back(jobs: Seq<JobView>, rows: Seq<JobView>, n: int) -> Seq<JobView>
    decreases n,
{
    if n <= 0 {
        jobs
    } else {
        crate::db::timelapse_jobs::with_change(
            put_back(jobs, rows, n - 1),
            rows[n - 1].trip_id,
            rows[n - 1].tier,
            rows[n - 1].channel,
            JobChange::PutBack,
        )
    }
}

/// The output files of the rows.
pub open spec fn files_of(rows: Seq<JobView>, root: Seq<char>) -> Seq<Seq<char>> {
    rows.filter_map(
        |r: JobView|
            match r.output_path {
                Some(p) => Some(crate::paths::path_join(root, p)),
                None => None,
            },
    )
}

/// Puts all jobs back that are recorded as being worked on. Returns the table,
/// the files that are to be removed, and the number of jobs.
pub fn cleanup_stale_jobs(jobs: Vec<JobRow>, archive_root: &str) -> (r: (
    Vec<JobRow>,
    Vec<String>,
    usize,
))
    ensures
        ({
            let all = crate::db::rows::job_rows(jobs@);
            let rows = stale(all);
            &&& crate::db::rows::job_rows(r.0@) == put_back(all, rows, rows.len() as int)
            &&& crate::text::views(r.1@) == files_of(rows, archive_root@)
            &&& r.2 == rows.len()
        }),
{
    let ghost all = crate::db::rows::job_rows(jobs@);
    let rows = list_stale_jobs(&jobs);
    let ghost rv = crate::db::rows::job_rows(rows@);
    let ghost f = |r: JobView|
        match r.output_path {
            Some(p) => Some(crate::paths::path_join(archive_root@, p)),
            None => None,
        };
    let mut jobs = jobs;
    let mut files: Vec<String> = Vec::new();
    let mut i: usize = 0;
    proof {
        reveal(Seq::filter_map);
        assert(rv.take(0).filter_map(f) == Seq::<Seq<char>>::empty());
        assert(crate::text::views(files@) == Seq::<Seq<char>>::empty());
    }
    while i < rows.len()
        invariant
            i <= rows.len(),
            rv == crate::db::rows::job_rows(rows@),
            f == (|r: JobView|
                match r.output_path {
                    Some(p) => Some(crate::paths::path_join(archive_root@, p)),
                    None => None,
                }),
            crate::db::rows::job_rows(jobs@) == put_back(all, rv, i as int),
            crate::text::views(files@) == rv.take(i as int).filter_map(f),
        decreases rows.len() - i,
    {
        proof {
            reveal(Seq::filter_map);
            assert(rv[i as int] == rows@[i as int]@);
            assert(rv.take(i + 1).drop_last() == rv.take(i as int));
            assert(rv.take(i + 1).last() == rv[i as int]);
        }
        let (next, file) = reset_one_stale_job(jobs, &rows[i], archive_root);
        jobs = next;
        if let Some(path) = file {
            let ghost before = files@;
            let ghost pv = path@;
            files.push(path);
            proof {
                assert(crate::text::views(files@) == crate::text::views(before).push(pv));
            }
        }
        i += 1;
    }
    proof {
        assert(rv.take(rv.len() as int) == rv);
    }
    (jobs, files, rows.len())
}

/// After the clean-up no job is recorded as being worked on, and no other row
/// of the table has changed.
pub proof fn no_job_is_left_running(jobs: Seq<JobView>)
    requires
        crate::db::timelapse_jobs::has_unique_jobs(jobs),
    ensures
        ({
            let after = put_back(jobs, stale(jobs), stale(jobs).len() as int);
            &&& after.len() == jobs.len()
            &&& forall|i: int|
                0 <= i < after.len() ==> (#[trigger] after[i]).status != JobStatus::Running
            &&& forall|i: int|
                0 <= i < jobs.len() && (#[trigger] jobs[i]).status != JobStatus::Running
                    ==> after[i] == jobs[i]
        }),
{
    let rows = stale(jobs);
    let n = rows.len() as int;
    let after = put_back(jobs, rows, n);
    lemma_put_back(jobs, rows, n);
    let p = |x: JobView| x.status == JobStatus::Running;
    assert forall|i: int| 0 <= i < after.len() implies (#[trigger] after[i]).status
        != JobStatus::Running by {
        if jobs[i].status == JobStatus::Running {
            jobs.lemma_filter_contains(p, i);
            let k = choose|k: int| 0 <= k < rows.len() && rows[k] == jobs[i];
            assert(crate::db::timelapse_jobs::is_job(
                jobs[i],
                rows[k].trip_id,
                rows[k].tier,
                rows[k].channel,
            ));
        }
    }
    assert forall|i: int|
        0 <= i < jobs.len() && (#[trigger] jobs[i]).status != JobStatus::Running implies after[i]
        == jobs[i] by {
        assert forall|k: int| 0 <= k < rows.len() implies !crate::db::timelapse_jobs::is_job(
            jobs[i],
            (#[trigger] rows[k]).trip_id,
            rows[k].tier,
            rows[k].channel,
        ) by {
            crate::db::table::lemma_filter_subset(jobs, p, k);
            let m = choose|m: int| 0 <= m < jobs.len() && jobs[m] == rows[k];
            assert(m != i);
            if m < i {
                assert(!crate::db::timelapse_jobs::is_job(
                    jobs[i],
                    jobs[m].trip_id,
                    jobs[m].tier,
                    jobs[m].channel,
                ));
            } else {
                assert(!crate::db::timelapse_jobs::is_job(
                    jobs[m],
                    jobs[i].trip_id,
                    jobs[i].tier,
                    jobs[i].channel,
                ));
            }
        }
    }
}

proof fn lemma_put_back(jobs: Seq<JobView>, rows: Seq<JobView>, n: int)
    requires
        0 <= n <= rows.len(),
    ensures
        put_back(jobs, rows, n).len() == jobs.len(),
        forall|i: int|
            0 <= i < jobs.len() ==> (#[trigger] put_back(jobs, rows, n)[i]).trip_id
                == jobs[i].trip_id && put_back(jobs, rows, n)[i].tier == jobs[i].tier && put_back(
                jobs,
                rows,
                n,
            )[i].channel == jobs[i].channel && (put_back(jobs, rows, n)[i].status
                == JobStatus::Running ==> jobs[i].status == JobStatus::Running),
        forall|i: int, k: int|
            0 <= i < jobs.len() && 0 <= k < n && crate::db::timelapse_jobs::is_job(
                #[trigger] jobs[i],
                (#[trigger] rows[k]).trip_id,
                rows[k].tier,
                rows[k].channel,
            ) ==> put_back(jobs, rows, n)[i].status != JobStatus::Running,
        forall|i: int|
            0 <= i < jobs.len() && (forall|k: int|
                0 <= k < n ==> !crate::db::timelapse_jobs::is_job(
                    jobs[i],
                    (#[trigger] rows[k]).trip_id,
                    rows[k].tier,
                    rows[k].channel,
                )) ==> #[trigger] put_back(jobs, rows, n)[i] == jobs[i],
    decreases n,
{
    if n > 0 {
        lemma_put_back(jobs, rows, n - 1);
        let before = put_back(jobs, rows, n - 1);
        let after = put_back(jobs, rows, n);
        let c = rows[n - 1];
        assert forall|i: int, k: int|
            0 <= i < jobs.len() && 0 <= k < n && crate::db::timelapse_jobs::is_job(
                #[trigger] jobs[i],
                (#[trigger] rows[k]).trip_id,
                rows[k].tier,
                rows[k].channel,
            ) implies after[i].status != JobStatus::Running by {
            assert(before[i].trip_id == jobs[i].trip_id);
            if k < n - 1 {
                assert(before[i].status != JobStatus::Running);
            }
        }
        assert forall|i: int|
            0 <= i < jobs.len() && (forall|k: int|
                0 <= k < n ==> !crate::db::timelapse_jobs::is_job(
                    jobs[i],
                    (#[trigger] rows[k]).trip_id,
                    rows[k].tier,
                    rows[k].channel,
                )) implies #[trigger] after[i] == jobs[i] by {
            assert(before[i] == jobs[i]);
            assert(!crate::db::timelapse_jobs::is_job(
                jobs[i],
                rows[n - 1].trip_id,
                rows[n - 1].tier,
                rows[n - 1].channel,
            ));
        }
    }
}

// ------------------------------------------------------------ files and rows

/// A file on disk.
#[derive(Debug)]
pub struct FileFact {
    pub path: String,
    pub size: u64,
}

/// The size of the file at a path.
pub open spec fn size_at(files: Seq<FileFact>, path: Seq<char>) -> Option<u64> {
    let i = crate::db::table::first_index(files, |f: FileFact| f.path@ == path, 0);
    if i < files.len() {
        Some(files[i].size)
    } else {
        None
    }
}

/// The size of the file at a path.
pub fn find_size(files: &Vec<FileFact>, path: &str) -> (r: Option<u64>)
    ensures
        r == size_at(files@, path@),
{
    let ghost p = |f: FileFact| f.path@ == path@;
    let mut i: usize = 0;
    while i < files.len()
        invariant
            i <= files.len(),
            p == (|f: FileFact| f.path@ == path@),
            crate::db::table::first_index(files@, p, 0) == crate::db::table::first_index(
                files@,
                p,
                i as int,
            ),
        decreases files.len() - i,
    {
        if same_str(files[i].path.as_str(), path) {
            return Some(files[i].size);
        }
        i += 1;
    }
    None
}

/// The row says that the job is done, and where its output is.
pub open spec fn claims_output(r: JobView) -> bool {
    r.status == JobStatus::Done && r.output_path is Some
}

/// What is said of a job whose output is gone.
pub open spec fn missing_text(path: Seq<char>) -> Seq<char> {
    "output file missing on disk (expected at "@ + path + ")"@
}

/// The row, failed where its output is gone.
pub open spec fn flagged(r: JobView, root: Seq<char>, present: Seq<Seq<char>>) -> JobView {
    if claims_output(r) && !present.contains(crate::paths::path_join(root, r.output_path->0)) {
        JobView {
            status: JobStatus::Failed,
            error_message: Some(
                missing_text(crate::paths::path_join(root, r.output_path->0)),
            ),
            ..r
        }
    } else {
        r
    }
}

/// Fails the jobs whose output is gone, given the paths of the outputs that are
/// there. Where the directory of the timelapses cannot be reached, nothing is
/// known and nothing changes.
pub fn flag_missing_outputs(
    jobs: Vec<JobRow>,
    archive_root: &str,
    timelapses_dir_exists: bool,
    present: &Vec<String>,
) -> (r: Vec<JobRow>)
    ensures
        crate::db::rows::job_rows(r@) == (if timelapses_dir_exists {
            crate::db::rows::job_rows(jobs@).map_values(
                |x: JobView| flagged(x, archive_root@, crate::text::views(present@)),
            )
        } else {
            crate::db::rows::job_rows(jobs@)
        }),
{
    if !timelapses_dir_exists {
        return jobs;
    }
    let ghost all = jobs@;
    let ghost av = crate::db::rows::job_rows(jobs@);
    let ghost pv = crate::text::views(present@);
    let ghost wanted = av.map_values(|x: JobView| flagged(x, archive_root@, pv));
    let mut out: Vec<JobRow> = Vec::new();
    let ghost mut n: int = 0;
    for x in it: jobs
        invariant
            it.seq() == all,
            n == it.index(),
            av == crate::db::rows::job_rows(all),
            pv == crate::text::views(present@),
            wanted == av.map_values(|x: JobView| flagged(x, archive_root@, pv)),
            crate::db::rows::job_rows(out@) == wanted.take(n),
    {
        proof {
            assert(av[n] == x@);
        }
        let mut y = x;
        if y.status == JobStatus::Done {
            if let Some(rel) = &y.output_path {
                let path = from_archive_relative(rel.as_str(), archive_root);
                if !contains_string(present, &path) {
                    let m = concat3(
                        "output file missing on disk (expected at ",
                        path.as_str(),
                        ")",
                    );
                    y.status = JobStatus::Failed;
                    y.error_message = Some(m);
                }
            }
        }
        let ghost before = out@;
        let ghost yv = y@;
        out.push(y);
        proof {
            assert(yv == wanted[n]);
            assert(crate::db::rows::job_rows(out@) == crate::db::rows::job_rows(before).push(yv));
            assert(wanted.take(n + 1) == wanted.take(n).push(yv));
            n = n + 1;
        }
    }
    proof {
        assert(wanted.take(wanted.len() as int) == wanted);
    }
    out
}

/// How the archive stores the path of a timelapse.
pub open spec fn stored_output(name: Seq<char>) -> Seq<char> {
    "Timelapses/"@ + name
}

/// The row, done where its output is there after all.
pub open spec fn relinked(r: JobView, files: Seq<FileFact>) -> JobView {
    let name = crate::timelapse::worker::output_name(r.trip_id, r.tier, r.channel);
    if r.status == JobStatus::Failed && r.output_path is None && size_at(files, name) is Some {
        JobView {
            status: JobStatus::Done,
            output_path: Some(stored_output(name)),
            error_message: None,
            output_size_bytes: Some(size_at(files, name)->0 as i64),
            ..r
        }
    } else {
        r
    }
}

/// Takes up the outputs of jobs that failed and know of none, given the files
/// in the directory of the timelapses by name.
pub fn relink_present_outputs(jobs: Vec<JobRow>, files: &Vec<FileFact>) -> (r: Vec<JobRow>)
    ensures
        crate::db::rows::job_rows(r@) == crate::db::rows::job_rows(jobs@).map_values(
            |x: JobView| relinked(x, files@),
        ),
{
    let ghost all = jobs@;
    let ghost av = crate::db::rows::job_rows(jobs@);
    let ghost wanted = av.map_values(|x: JobView| relinked(x, files@));
    let mut out: Vec<JobRow> = Vec::new();
    let ghost mut n: int = 0;
    for x in it: jobs
        invariant
            it.seq() == all,
            n == it.index(),
            av == crate::db::rows::job_rows(all),
            wanted == av.map_values(|x: JobView| relinked(x, files@)),
            crate::db::rows::job_rows(out@) == wanted.take(n),
    {
        proof {
            assert(av[n] == x@);
        }
        let mut y = x;
        if y.status == JobStatus::Failed && y.output_path.is_none() {
            let name = output_file_name(
                y.trip_id.as_str(),
                y.tier.as_str(),
                y.channel.as_str(),
            );
            if let Some(size) = find_size(files, name.as_str()) {
                y.status = JobStatus::Done;
                y.output_path = Some(concat2("Timelapses/", name.as_str()));
                y.error_message = None;
                y.output_size_bytes = Some(size as i64);
            }
        }
        let ghost before = out@;
        let ghost yv = y@;
        out.push(y);
        proof {
            assert(yv == wanted[n]);
            assert(crate::db::rows::job_rows(out@) == crate::db::rows::job_rows(before).push(yv));
            assert(wanted.take(n + 1) == wanted.take(n).push(yv));
            n = n + 1;
        }
    }
    proof {
        assert(wanted.take(wanted.len() as int) == wanted);
    }
    out
}

/// The row with the size of its output, where the size was not known.
pub open spec fn measured(r: JobView, root: Seq<char>, files: Seq<FileFact>) -> JobView {
    if claims_output(r) && r.output_size_bytes is None && size_at(
        files,
        crate::paths::path_join(root, r.output_path->0),
    ) is Some {
        JobView {
            output_size_bytes: Some(
                size_at(files, crate::paths::path_join(root, r.output_path->0))->0 as i64,
            ),
            ..r
        }
    } else {
        r
    }
}

/// Fills in the sizes of outputs that are not known yet, given the files by
/// their paths.
pub fn backfill_output_sizes(jobs: Vec<JobRow>, archive_root: &str, files: &Vec<FileFact>) -> (r:
    Vec<JobRow>)
    ensures
        crate::db::rows::job_rows(r@) == crate::db::rows::job_rows(jobs@).map_values(
            |x: JobView| measured(x, archive_root@, files@),
        ),
{
    let ghost all = jobs@;
    let ghost av = crate::db::rows::job_rows(jobs@);
    let ghost wanted = av.map_values(|x: JobView| measured(x, archive_root@, files@));
    let mut out: Vec<JobRow> = Vec::new();
    let ghost mut n: int = 0;
    for x in it: jobs
        invariant
            it.seq() == all,
            n == it.index(),
            av == crate::db::rows::job_rows(all),
            wanted == av.map_values(|x: JobView| measured(x, archive_root@, files@)),
            crate::db::rows::job_rows(out@) == wanted.take(n),
    {
        proof {
            assert(av[n] == x@);
        }
        let mut y = x;
        if y.status == JobStatus::Done && y.output_size_bytes.is_none() {
            if let Some(rel) = &y.output_path {
                let path = from_archive_relative(rel.as_str(), archive_root);
                if let Some(size) = find_size(files, path.as_str()) {
                    y.output_size_bytes = Some(size as i64);
                }
            }
        }
        let ghost before = out@;
        let ghost yv = y@;
        out.push(y);
        proof {
            assert(yv == wanted[n]);
            assert(crate::db::rows::job_rows(out@) == crate::db::rows::job_rows(before).push(yv));
            assert(wanted.take(n + 1) == wanted.take(n).push(yv));
            n = n + 1;
        }
    }
    proof {
        assert(wanted.take(wanted.len() as int) == wanted);
    }
    out
}

/// The row after all sweeps, one after the other.
pub open spec fn settled(
    r: JobView,
    root: Seq<char>,
    timelapses_dir_exists: bool,
    present: Seq<Seq<char>>,
    named: Seq<FileFact>,
    files: Seq<FileFact>,
) -> JobView {
    let f = if timelapses_dir_exists {
        flagged(r, root, present)
    } else {
        r
    };
    measured(relinked(f, named), root, files)
}

/// Brings the rows in line with the files, once the leftovers of interrupted
/// jobs are removed: fails the jobs whose output is gone, takes up outputs that
/// are there after all, and fills in sizes that are not known. `named` are the
/// files in the directory of the timelapses by name, `files` the outputs by
/// their paths.
pub fn settle_outputs(
    jobs: Vec<JobRow>,
    archive_root: &str,
    timelapses_dir_exists: bool,
    present: &Vec<String>,
    named: &Vec<FileFact>,
    files: &Vec<FileFact>,
) -> (r: Vec<JobRow>)
    ensures
        crate::db::rows::job_rows(r@) == crate::db::rows::job_rows(jobs@).map_values(
            |x: JobView|
                settled(
                    x,
                    archive_root@,
                    timelapses_dir_exists,
                    crate::text::views(present@),
                    named@,
                    files@,
                ),
        ),
{
    let a = flag_missing_outputs(jobs, archive_root, timelapses_dir_exists, present);
    let b = relink_present_outputs(a, named);
    backfill_output_sizes(b, archive_root, files)
}

/// Each of the sweeps, made a second time over the same files, changes nothing.
pub proof fn sweeps_settle(
    r: JobView,
    root: Seq<char>,
    present: Seq<Seq<char>>,
    files: Seq<FileFact>,
)
    ensures
        flagged(flagged(r, root, present), root, present) == flagged(r, root, present),
        relinked(relinked(r, files), files) == relinked(r, files),
        measured(measured(r, root, files), root, files) == measured(r, root, files),
{
}

/// A job that was failed because its output is gone keeps what is known of its
/// encode. When the output comes back to its place and is recorded again, the
/// row is as it was.
pub proof fn flagging_can_be_undone(
    r: JobView,
    root: Seq<char>,
    present: Seq<Seq<char>>,
    output_path: String,
)
    requires
        claims_output(r),
        r.error_message is None,
        r.output_path == Some(output_path@),
    ensures
        crate::db::timelapse_jobs::changed(
            flagged(r, root, present),
            JobChange::Recovered { output_path, output_size_bytes: None },
        ) == r,
{
}

// ------------------------------------------------------------------- recovery

/// The list with the strings of the other that it does not hold yet.
pub open spec fn with_missing(v: Seq<Seq<char>>, more: Seq<Seq<char>>, n: int) -> Seq<Seq<char>>
    decreases n,
{
    if n <= 0 {
        v
    } else {
        let before = with_missing(v, more, n - 1);
        if before.contains(more[n - 1]) {
            before
        } else {
            before.push(more[n - 1])
        }
    }
}

/// The places where the archive may have lain before: the archives that were
/// moved between systems, then those opened lately, without the archive's own
/// place.
pub open spec fn former_roots(migrated: Seq<Seq<char>>, recent: Seq<Seq<char>>, root: Seq<char>) -> Seq<
    Seq<char>,
> {
    with_missing(migrated, recent, recent.len() as int).filter(|p: Seq<char>| p != root)
}

/// The places where the archive may have lain before.
pub fn candidate_roots(migrated: &Vec<String>, recent: &Vec<String>, archive_root: &str) -> (r: Vec<
    String,
>)
    ensures
        crate::text::views(r@) == former_roots(
            crate::text::views(migrated@),
            crate::text::views(recent@),
            archive_root@,
        ),
{
    let ghost mv = crate::text::views(migrated@);
    let ghost rv = crate::text::views(recent@);
    let mut v: Vec<String> = Vec::new();
    let mut i: usize = 0;
    while i < migrated.len()
        invariant
            i <= migrated.len(),
            mv == crate::text::views(migrated@),
            crate::text::views(v@) == mv.take(i as int),
        decreases migrated.len() - i,
    {
        let ghost before = v@;
        v.push(migrated[i].clone());
        proof {
            assert(crate::text::views(v@) == crate::text::views(before).push(mv[i as int]));
            assert(mv.take(i + 1) == mv.take(i as int).push(mv[i as int]));
        }
        i += 1;
    }
    proof {
        assert(mv.take(mv.len() as int) == mv);
    }
    let mut i: usize = 0;
    while i < recent.len()
        invariant
            i <= recent.len(),
            rv == crate::text::views(recent@),
            crate::text::views(v@) == with_missing(mv, rv, i as int),
        decreases recent.len() - i,
    {
        proof {
            assert(rv[i as int] == recent@[i as int]@);
        }
        if !contains_string(&v, &recent[i]) {
            let ghost before = v@;
            v.push(recent[i].clone());
            proof {
                assert(crate::text::views(v@) == crate::text::views(before).push(rv[i as int]));
            }
        }
        i += 1;
    }
    let ghost keep = |s: String| s@ != archive_root@;
    let mut marks: Vec<bool> = Vec::new();
    let mut i: usize = 0;
    while i < v.len()
        invariant
            i <= v.len(),
            keep == (|s: String| s@ != archive_root@),
            marks.len() == i,
            forall|j: int| 0 <= j < i ==> #[trigger] marks@[j] == keep(v@[j]),
        decreases v.len() - i,
    {
        marks.push(!same_str(v[i].as_str(), archive_root));
        i += 1;
    }
    proof {
        let f = |s: String| s@;
        let q = |p: Seq<char>| p != archive_root@;
        crate::db::table::filter_commutes_with_map(v@, keep, f, q);
        assert(crate::text::views(v@) == v@.map_values(f));
        assert(crate::text::views(v@.filter(keep)) == v@.filter(keep).map_values(f));
    }
    retain_marked(v, marks, Ghost(keep))
}

/// The path without the separators at its end.
pub open spec fn without_separators(p: Seq<char>) -> Seq<char>
    decreases p.len(),
{
    if p.len() > 0 && (p.last() == '/' || p.last() == '\\') {
        without_separators(p.drop_last())
    } else {
        p
    }
}

/// The path with the given separator for `/`.
pub open spec fn with_separator(p: Seq<char>, sep: char) -> Seq<char> {
    p.map_values(
        |c: char|
            if c == '/' {
                sep
            } else {
                c
            },
    )
}

/// The full path of a file of the archive under a former root.
pub open spec fn old_absolute(old_root: Seq<char>, rel: Seq<char>, sep: char) -> Seq<char> {
    without_separators(old_root).push(sep) + with_separator(rel, sep)
}

/// The full path of a file of the archive under a former root, with the
/// system's separator.
pub fn build_old_absolute(old_root: &str, rel_path: &str, sep: char) -> (r: String)
    ensures
        r@ == old_absolute(old_root@, rel_path@, sep),
{
    let root = chars_of(old_root);
    let mut n: usize = root.len();
    proof {
        assert(root@.take(root@.len() as int) == root@);
    }
    while n > 0 && (root[n - 1] == '/' || root[n - 1] == '\\')
        invariant
            n <= root.len(),
            root@ == old_root@,
            without_separators(old_root@) == without_separators(root@.take(n as int)),
        decreases n,
    {
        proof {
            assert(root@.take(n as int).drop_last() == root@.take(n - 1));
        }
        n -= 1;
    }
    proof {
        assert(without_separators(root@.take(n as int)) == root@.take(n as int));
    }
    let mut s = string_of(slice_subrange(root.as_slice(), 0, n));
    s.push(sep);
    let rel = chars_of(rel_path);
    let ghost start = s@;
    let ghost want = with_separator(rel_path@, sep);
    let mut i: usize = 0;
    proof {
        assert(start + want.take(0) == start);
    }
    while i < rel.len()
        invariant
            i <= rel.len(),
            rel@ == rel_path@,
            want == with_separator(rel_path@, sep),
            s@ == start + want.take(i as int),
        decreases rel.len() - i,
    {
        let c = rel[i];
        if c == '/' {
            s.push(sep);
        } else {
            s.push(c);
        }
        proof {
            assert(want.take(i + 1) == want.take(i as int).push(want[i as int]));
            assert(s@ == start + want.take(i + 1));
        }
        i += 1;
    }
    proof {
        assert(want.take(want.len() as int) == want);
        assert(start == without_separators(old_root@).push(sep));
    }
    s
}

/// A failed job whose output may lie under a former name.
#[derive(Debug)]
pub struct RecoveryTarget {
    pub trip_id: String,
    pub tier: String,
    pub channel: String,
    pub new_name: String,
    pub old_names: Vec<String>,
}

/// A failed job whose output may lie under a former name, with texts as
/// sequences of characters.
#[verifier::ext_equal]
pub struct TargetView {
    pub trip_id: Seq<char>,
    pub tier: Seq<char>,
    pub channel: Seq<char>,
    pub new_name: Seq<char>,
    pub old_names: Seq<Seq<char>>,
}

impl View for RecoveryTarget {
    type V = TargetView;

    open spec fn view(&self) -> TargetView {
        TargetView {
            trip_id: self.trip_id@,
            tier: self.tier@,
            channel: self.channel@,
            new_name: self.new_name@,
            old_names: crate::text::views(self.old_names@),
        }
    }
}

/// The views of targets.
pub open spec fn target_views(v: Seq<RecoveryTarget>) -> Seq<TargetView> {
    v.map_values(|t: RecoveryTarget| t@)
}

/// The identifier that the trip had when the archive lay under the root.
pub open spec fn old_trip_id(root: Seq<char>, rel: Seq<char>, start: Moment, sep: char) -> Seq<
    char,
> {
    crate::ids::hyphenated(
        crate::ids::trip_id(crate::ids::segment_id(old_absolute(root, rel, sep), start)),
    )
}

/// The names that the output had under the former roots.
pub open spec fn old_output_names(
    roots: Seq<Seq<char>>,
    rel: Seq<char>,
    start: Moment,
    tier: Seq<char>,
    channel: Seq<char>,
    sep: char,
) -> Seq<Seq<char>> {
    roots.map_values(
        |r: Seq<char>|
            crate::timelapse::worker::output_name(old_trip_id(r, rel, start, sep), tier, channel),
    )
}

/// Where the output of a failed job may be found. A job whose trip has no
/// footage, or whose footage has no time, cannot be found.
pub open spec fn target_of(
    r: JobView,
    segments: Seq<crate::db::rows::SegmentView>,
    roots: Seq<Seq<char>>,
    sep: char,
) -> Option<TargetView> {
    let rows = crate::timelapse::worker::footage_of(segments, r.trip_id);
    if r.status != JobStatus::Failed || rows.len() == 0 {
        None
    } else {
        match crate::moment::millis_moment(rows[0].start_time_ms as int) {
            None => None,
            Some(start) => Some(
                TargetView {
                    trip_id: r.trip_id,
                    tier: r.tier,
                    channel: r.channel,
                    new_name: crate::timelapse::worker::output_name(
                        r.trip_id,
                        r.tier,
                        r.channel,
                    ),
                    old_names: old_output_names(
                        roots,
                        rows[0].master_path,
                        start,
                        r.tier,
                        r.channel,
                        sep,
                    ),
                },
            ),
        }
    }
}

/// The failed jobs whose outputs may be found.
pub open spec fn targets_of(
    jobs: Seq<JobView>,
    segments: Seq<crate::db::rows::SegmentView>,
    roots: Seq<Seq<char>>,
    sep: char,
) -> Seq<TargetView> {
    jobs.filter_map(|j: JobView| target_of(j, segments, roots, sep))
}

fn former_names(
    roots: &Vec<String>,
    rel: &str,
    start: Moment,
    tier: &str,
    channel: &str,
    sep: char,
) -> (r: Vec<String>)
    ensures
        crate::text::views(r@) == old_output_names(
            crate::text::views(roots@),
            rel@,
            start,
            tier@,
            channel@,
            sep,
        ),
{
    let ghost rv = crate::text::views(roots@);
    let ghost want = old_output_names(rv, rel@, start, tier@, channel@, sep);
    let mut out: Vec<String> = Vec::new();
    let mut i: usize = 0;
    while i < roots.len()
        invariant
            i <= roots.len(),
            rv == crate::text::views(roots@),
            want == old_output_names(rv, rel@, start, tier@, channel@, sep),
            crate::text::views(out@) == want.take(i as int),
        decreases roots.len() - i,
    {
        proof {
            assert(rv[i as int] == roots@[i as int]@);
        }
        let path = build_old_absolute(roots[i].as_str(), rel, sep);
        let id = id_text(derive_trip_id(derive_segment_id(path.as_str(), start)));
        let ghost before = out@;
        out.push(output_file_name(id.as_str(), tier, channel));
        proof {
            assert(crate::text::views(out@) == crate::text::views(before).push(want[i as int]));
            assert(want.take(i + 1) == want.take(i as int).push(want[i as int]));
        }
        i += 1;
    }
    proof {
        assert(want.take(want.len() as int) == want);
    }
    out
}

fn recovery_target(r: &JobRow, lib: &Library, roots: &Vec<String>, sep: char) -> (t: Option<
    RecoveryTarget,
>)
    ensures
        match t {
            Some(x) => target_of(r@, lib@.segments, crate::text::views(roots@), sep) == Some(x@),
            None => target_of(r@, lib@.segments, crate::text::views(roots@), sep) is None,
        },
{
    if r.status != JobStatus::Failed {
        return None;
    }
    let rows = footage_rows(&lib.segments, r.trip_id.as_str());
    let ghost rv = crate::db::rows::segment_rows(rows@);
    if rows.len() == 0 {
        return None;
    }
    proof {
        assert(rv[0] == rows@[0]@);
    }
    let start = match moment_from_millis(rows[0].start_time_ms) {
        Some(m) => m,
        None => {
            return None;
        },
    };
    let old_names = former_names(
        roots,
        rows[0].master_path.as_str(),
        start,
        r.tier.as_str(),
        r.channel.as_str(),
        sep,
    );
    Some(
        RecoveryTarget {
            trip_id: r.trip_id.clone(),
            tier: r.tier.clone(),
            channel: r.channel.clone(),
            new_name: output_file_name(r.trip_id.as_str(), r.tier.as_str(), r.channel.as_str()),
            old_names,
        },
    )
}

/// The failed jobs whose outputs may lie under former names. Where the archive
/// never lay anywhere else there are none.
pub fn recovery_targets(lib: &Library, roots: &Vec<String>, sep: char) -> (r: Vec<RecoveryTarget>)
    ensures
        target_views(r@) == (if roots.len() == 0 {
            Seq::empty()
        } else {
            targets_of(lib@.jobs, lib@.segments, crate::text::views(roots@), sep)
        }),
{
    let mut out: Vec<RecoveryTarget> = Vec::new();
    proof {
        assert(target_views(out@) == Seq::<TargetView>::empty());
    }
    if roots.len() == 0 {
        return out;
    }
    let ghost jv = lib@.jobs;
    let ghost f = |j: JobView| target_of(j, lib@.segments, crate::text::views(roots@), sep);
    let mut i: usize = 0;
    proof {
        reveal(Seq::filter_map);
        assert(jv.take(0).filter_map(f) == Seq::<TargetView>::empty());
    }
    while i < lib.jobs.len()
        invariant
            i <= lib.jobs.len(),
            jv == lib@.jobs,
            f == (|j: JobView| target_of(j, lib@.segments, crate::text::views(roots@), sep)),
            target_views(out@) == jv.take(i as int).filter_map(f),
        decreases lib.jobs.len() - i,
    {
        proof {
            reveal(Seq::filter_map);
            assert(jv[i as int] == lib.jobs@[i as int]@);
            assert(jv.take(i + 1).drop_last() == jv.take(i as int));
            assert(jv.take(i + 1).last() == jv[i as int]);
        }
        if let Some(t) = recovery_target(&lib.jobs[i], lib, roots, sep) {
            let ghost before = out@;
            let ghost tv = t@;
            out.push(t);
            proof {
                assert(target_views(out@) == target_views(before).push(tv));
            }
        }
        i += 1;
    }
    proof {
        assert(jv.take(jv.len() as int) == jv);
    }
    out
}

/// What is to be done for a failed job.
#[derive(Debug)]
pub enum RecoveryAction {
    /// Nothing was found.
    Skip,
    /// The output is in its place already.
    Adopt,
    /// The output lies under a former name.
    Rename(String),
}

/// The first of the names that is there.
pub open spec fn first_present(names: Seq<Seq<char>>, present: Seq<Seq<char>>) -> Option<Seq<char>>
    decreases names.len(),
{
    if names.len() == 0 {
        None
    } else if present.contains(names[0]) {
        Some(names[0])
    } else {
        first_present(names.skip(1), present)
    }
}

/// What is to be done for a failed job, given the names of the files in the
/// directory of the timelapses.
pub fn recovery_action(t: &RecoveryTarget, present: &Vec<String>) -> (r: RecoveryAction)
    ensures
        if crate::text::views(present@).contains(t@.new_name) {
            r is Adopt
        } else {
            match first_present(t@.old_names, crate::text::views(present@)) {
                Some(n) => r matches RecoveryAction::Rename(from) && from@ == n,
                None => r is Skip,
            }
        },
{
    if contains_string(present, &t.new_name) {
        return RecoveryAction::Adopt;
    }
    let ghost names = t@.old_names;
    let ghost pv = crate::text::views(present@);
    let mut i: usize = 0;
    proof {
        assert(names.skip(0) == names);
    }
    while i < t.old_names.len()
        invariant
            i <= t.old_names.len(),
            names == t@.old_names,
            pv == crate::text::views(present@),
            !pv.contains(t@.new_name),
            first_present(names, pv) == first_present(names.skip(i as int), pv),
        decreases t.old_names.len() - i,
    {
        proof {
            assert(names.skip(i as int)[0] == t.old_names@[i as int]@);
            assert(names.skip(i as int).skip(1) == names.skip(i + 1));
        }
        if contains_string(present, &t.old_names[i]) {
            return RecoveryAction::Rename(t.old_names[i].clone());
        }
        i += 1;
    }
    RecoveryAction::Skip
}

/// The row, done with its output in its place where it is that of the job. What
/// is known of the encode is kept.
pub open spec fn recovered(r: JobView, t: TargetView, size_bytes: Option<i64>) -> JobView {
    if crate::db::timelapse_jobs::is_job(r, t.trip_id, t.tier, t.channel) {
        JobView {
            status: JobStatus::Done,
            output_path: Some(stored_output(t.new_name)),
            error_message: None,
            output_size_bytes: match size_bytes {
                Some(n) => Some(n),
                None => r.output_size_bytes,
            },
            ..r
        }
    } else {
        r
    }
}

/// Records what came of the action for a failed job, given whether it succeeded
/// and the size of the output where it is known. Tells whether the output was
/// recovered.
pub fn recover_orphan_outputs(
    jobs: Vec<JobRow>,
    t: &RecoveryTarget,
    action: &RecoveryAction,
    succeeded: bool,
    size_bytes: Option<i64>,
) -> (r: (Vec<JobRow>, bool))
    ensures
        r.1 == (!(action is Skip) && (action is Adopt || succeeded)),
        if r.1 {
            crate::db::rows::job_rows(r.0@) == crate::db::rows::job_rows(jobs@).map_values(
                |x: JobView| recovered(x, t@, size_bytes),
            )
        } else {
            r.0 == jobs
        },
{
    let found = match action {
        RecoveryAction::Skip => false,
        RecoveryAction::Adopt => true,
        RecoveryAction::Rename(_) => succeeded,
    };
    if !found {
        return (jobs, false);
    }
    let path = concat2("Timelapses/", t.new_name.as_str());
    let after = crate::db::timelapse_jobs::change_job(
        jobs,
        t.trip_id.as_str(),
        t.tier.as_str(),
        t.channel.as_str(),
        JobChange::Recovered { output_path: path, output_size_bytes: size_bytes },
    );
    proof {
        assert(crate::db::rows::job_rows(after@) == crate::db::rows::job_rows(jobs@).map_values(
            |x: JobView| recovered(x, t@, size_bytes),
        ));
    }
    (after, true)
}

/// Only failed jobs are recovered, and what is recovered goes to the place where
/// the job's output belongs.
pub proof fn recovery_is_for_failed_jobs(
    jobs: Seq<JobView>,
    segments: Seq<crate::db::rows::SegmentView>,
    roots: Seq<Seq<char>>,
    sep: char,
)
    ensures
        forall|k: int|
            0 <= k < targets_of(jobs, segments, roots, sep).len() ==> exists|i: int|
                0 <= i < jobs.len() && is_target_of(
                    #[trigger] jobs[i],
                    #[trigger] targets_of(jobs, segments, roots, sep)[k],
                ),
    decreases jobs.len(),
{
    reveal(Seq::filter_map);
    let f = |j: JobView| target_of(j, segments, roots, sep);
    if jobs.len() > 0 {
        let u = jobs.drop_last();
        recovery_is_for_failed_jobs(u, segments, roots, sep);
        let a = targets_of(u, segments, roots, sep);
        let r = targets_of(jobs, segments, roots, sep);
        assert forall|k: int| 0 <= k < r.len() implies exists|i: int|
            0 <= i < jobs.len() && is_target_of(#[trigger] jobs[i], #[trigger] r[k]) by {
            if k < a.len() {
                assert(r[k] == a[k]);
                let i = choose|i: int|
                    0 <= i < u.len() && is_target_of(#[trigger] u[i], a[k]);
                assert(jobs[i] == u[i]);
            } else {
                assert(f(jobs.last()) == Some(r[k]));
                assert(is_target_of(jobs[jobs.len() - 1], r[k]));
            }
        }
    }
}

/// The target is that of the failed job.
pub open spec fn is_target_of(j: JobView, t: TargetView) -> bool {
    &&& j.status == JobStatus::Failed
    &&& t.trip_id == j.trip_id
    &&& t.tier == j.tier
    &&& t.channel == j.channel
    &&& t.new_name == crate::timelapse::worker::output_name(j.trip_id, j.tier, j.channel)
}

// -------------------------------------------------------------------- pruning

/// Something in the directory of the timelapses.
#[derive(Debug)]
pub struct DirEntry {
    pub name: String,
    pub is_file: bool,
}

/// The number of names that a summary gives as examples.
pub const SAMPLE_CAP: usize = 8;

/// The identifier of the trip that the name of an output starts with.
pub open spec fn named_trip(name: Seq<char>) -> Option<Seq<char>> {
    if crate::text::has_suffix(name, ".mp4"@) {
        let stem = name.take(name.len() - 4);
        if stem.len() >= 37 && crate::ids::has_uuid_shape(stem.take(36)) {
            Some(stem.take(36))
        } else {
            None
        }
    } else {
        None
    }
}

/// There is a job for the trip.
pub open spec fn is_referenced(jobs: Seq<JobView>, trip_id: Seq<char>) -> bool {
    exists|i: int| 0 <= i < jobs.len() && (#[trigger] jobs[i]).trip_id == trip_id
}

/// The file is a timelapse of a trip that no job knows of.
pub open spec fn is_orphan(e: DirEntry, jobs: Seq<JobView>) -> bool {
    e.is_file && (named_trip(e.name@) matches Some(t) && !is_referenced(jobs, t))
}

fn trip_in_name(name: &str) -> (r: Option<String>)
    ensures
        crate::text::opt_view(r) == named_trip(name@),
{
    let v = chars_of(name);
    proof {
        reveal_strlit(".mp4");
    }
    if !ends_with(v.as_slice(), ".mp4") {
        return None;
    }
    let n: usize = v.len() - 4;
    if n < 37 {
        return None;
    }
    let id = slice_subrange(v.as_slice(), 0, 36);
    proof {
        assert(id@ == v@.take(v@.len() - 4).take(36));
    }
    if !is_uuid_shape(id) {
        return None;
    }
    Some(string_of(id))
}

fn knows_trip(jobs: &Vec<JobRow>, trip_id: &str) -> (r: bool)
    ensures
        r == is_referenced(crate::db::rows::job_rows(jobs@), trip_id@),
{
    let ghost jv = crate::db::rows::job_rows(jobs@);
    let mut i: usize = 0;
    while i < jobs.len()
        invariant
            i <= jobs.len(),
            jv == crate::db::rows::job_rows(jobs@),
            forall|j: int| 0 <= j < i ==> (#[trigger] jv[j]).trip_id != trip_id@,
        decreases jobs.len() - i,
    {
        proof {
            assert(jv[i as int] == jobs@[i as int]@);
        }
        if same_str(jobs[i].trip_id.as_str(), trip_id) {
            return true;
        }
        i += 1;
    }
    false
}

/// The names of the orphans among the entries.
pub open spec fn orphan_names(entries: Seq<DirEntry>, jobs: Seq<JobView>) -> Seq<Seq<char>> {
    entries.filter(|e: DirEntry| is_orphan(e, jobs)).map_values(|e: DirEntry| e.name@)
}

/// The timelapses of trips that no job knows of.
pub fn find_orphans(entries: &Vec<DirEntry>, jobs: &Vec<JobRow>) -> (r: Vec<String>)
    ensures
        crate::text::views(r@) == orphan_names(entries@, crate::db::rows::job_rows(jobs@)),
{
    let ghost jv = crate::db::rows::job_rows(jobs@);
    let ghost p = |e: DirEntry| is_orphan(e, jv);
    let ghost f = |e: DirEntry| e.name@;
    let mut out: Vec<String> = Vec::new();
    let mut i: usize = 0;
    proof {
        reveal(Seq::filter);
        assert(entries@.take(0).filter(p).map_values(f) == Seq::<Seq<char>>::empty());
        assert(crate::text::views(out@) == Seq::<Seq<char>>::empty());
    }
    while i < entries.len()
        invariant
            i <= entries.len(),
            jv == crate::db::rows::job_rows(jobs@),
            p == (|e: DirEntry| is_orphan(e, jv)),
            f == (|e: DirEntry| e.name@),
            crate::text::views(out@) == entries@.take(i as int).filter(p).map_values(f),
        decreases entries.len() - i,
    {
        let e = &entries[i];
        proof {
            reveal(Seq::filter);
            assert(entries@.take(i + 1).drop_last() == entries@.take(i as int));
            assert(entries@.take(i + 1).last() == *e);
        }
        let mut orphan = false;
        if e.is_file {
            if let Some(t) = trip_in_name(e.name.as_str()) {
                orphan = !knows_trip(jobs, t.as_str());
            }
        }
        if orphan {
            let ghost before = out@;
            out.push(e.name.clone());
            proof {
                let kept = entries@.take(i as int).filter(p);
                assert(kept.push(*e).map_values(f) == kept.map_values(f).push(e.name@));
                assert(crate::text::views(out@) == crate::text::views(before).push(e.name@));
            }
        }
        i += 1;
    }
    proof {
        assert(entries@.take(entries@.len() as int) == entries@);
    }
    out
}

/// The number of timelapses of trips that no job knows of; none where there is
/// no directory.
pub fn count_orphan_timelapse_files(entries: &Option<Vec<DirEntry>>, jobs: &Vec<JobRow>) -> (r:
    usize)
    ensures
        r == match entries {
            Some(v) => orphan_names(v@, crate::db::rows::job_rows(jobs@)).len(),
            None => 0nat,
        },
{
    match entries {
        Some(v) => {
            let names = find_orphans(v, jobs);
            proof {
                assert(crate::text::views(names@).len() == names.len());
            }
            names.len()
        },
        None => 0,
    }
}

/// What a pruning did.
#[derive(Debug)]
pub struct PruneSummary {
    pub trashed: u64,
    pub bytes_reclaimed: u64,
    pub sample: Vec<String>,
}

impl PruneSummary {
    /// Nothing has been pruned yet.
    fn new() -> (r: PruneSummary)
        ensures
            r.trashed == 0,
            r.bytes_reclaimed == 0,
            r.sample@.len() == 0,
    {
        PruneSummary { trashed: 0, bytes_reclaimed: 0, sample: Vec::new() }
    }

    /// Counts a file that was moved to the trash.
    fn note(&mut self, name: &str, size: u64)
        requires
            old(self).trashed < u64::MAX,
            old(self).bytes_reclaimed + size <= u64::MAX,
        ensures
            final(self).trashed == old(self).trashed + 1,
            final(self).bytes_reclaimed == old(self).bytes_reclaimed + size,
            crate::text::views(final(self).sample@) == (if old(self).sample@.len() < SAMPLE_CAP {
                crate::text::views(old(self).sample@).push(name@)
            } else {
                crate::text::views(old(self).sample@)
            }),
    {
        self.trashed = self.trashed + 1;
        self.bytes_reclaimed = self.bytes_reclaimed + size;
        if self.sample.len() < SAMPLE_CAP {
            let ghost before = self.sample@;
            self.sample.push(owned(name));
            proof {
                assert(crate::text::views(self.sample@) == crate::text::views(before).push(name@));
            }
        }
    }
}

/// What became of an orphan: whether it could be moved to the trash.
#[derive(Debug)]
pub struct PrunedFile {
    pub name: String,
    pub size: u64,
    pub trashed: bool,
}

/// The files that were moved to the trash.
pub open spec fn trashed_files(files: Seq<PrunedFile>) -> Seq<PrunedFile> {
    files.filter(|f: PrunedFile| f.trashed)
}

/// The size of all files together.
pub open spec fn size_of_all(files: Seq<PrunedFile>) -> nat
    decreases files.len(),
{
    if files.len() == 0 {
        0
    } else {
        size_of_all(files.drop_last()) + files.last().size as nat
    }
}

/// The names of the first files, up to as many as a summary gives.
pub open spec fn sample_of(files: Seq<PrunedFile>) -> Seq<Seq<char>> {
    let n = if files.len() < SAMPLE_CAP {
        files.len() as int
    } else {
        SAMPLE_CAP as int
    };
    files.take(n).map_values(|f: PrunedFile| f.name@)
}

proof fn lemma_trashed_prefix(files: Seq<PrunedFile>, n: int)
    requires
        0 <= n <= files.len(),
    ensures
        trashed_files(files.take(n)).len() <= n,
        size_of_all(trashed_files(files.take(n))) <= size_of_all(trashed_files(files)),
    decreases files.len(),
{
    reveal(Seq::filter);
    let p = |f: PrunedFile| f.trashed;
    if n == files.len() {
        assert(files.take(n) == files);
        if n > 0 {
            lemma_trashed_prefix(files.drop_last(), n - 1);
            assert(files.drop_last().take(n - 1) == files.drop_last());
        }
    } else {
        lemma_trashed_prefix(files.drop_last(), n);
        assert(files.drop_last().take(n) == files.take(n));
        if files.last().trashed {
            let u = trashed_files(files);
            assert(u.drop_last() == trashed_files(files.drop_last()));
        }
    }
}

/// The summary of a pruning. Files that could not be moved are left out.
pub fn prune_orphan_timelapse_files(files: &Vec<PrunedFile>) -> (r: PruneSummary)
    requires
        size_of_all(trashed_files(files@)) <= u64::MAX,
    ensures
        r.trashed == trashed_files(files@).len(),
        r.bytes_reclaimed == size_of_all(trashed_files(files@)),
        crate::text::views(r.sample@) == sample_of(trashed_files(files@)),
{
    let mut summary = PruneSummary::new();
    let mut i: usize = 0;
    proof {
        reveal(Seq::filter);
        assert(files@.take(0) == Seq::<PrunedFile>::empty());
        assert(crate::text::views(summary.sample@) == sample_of(trashed_files(files@.take(0))));
    }
    while i < files.len()
        invariant
            i <= files.len(),
            size_of_all(trashed_files(files@)) <= u64::MAX,
            summary.trashed == trashed_files(files@.take(i as int)).len(),
            summary.trashed <= i,
            summary.bytes_reclaimed == size_of_all(trashed_files(files@.take(i as int))),
            crate::text::views(summary.sample@) == sample_of(
                trashed_files(files@.take(i as int)),
            ),
        decreases files.len() - i,
    {
        let ghost before = trashed_files(files@.take(i as int));
        let ghost after = trashed_files(files@.take(i + 1));
        proof {
            reveal(Seq::filter);
            assert(files@.take(i + 1).drop_last() == files@.take(i as int));
            assert(files@.take(i + 1).last() == files@[i as int]);
            lemma_trashed_prefix(files@, i + 1);
            if files@[i as int].trashed {
                assert(after == before.push(files@[i as int]));
                assert(after.drop_last() == before);
            }
        }
        if files[i].trashed {
            summary.note(files[i].name.as_str(), files[i].size);
            proof {
                if before.len() < SAMPLE_CAP {
                    assert(sample_of(after) == sample_of(before).push(files@[i as int].name@));
                } else {
                    assert(after.take(SAMPLE_CAP as int) == before.take(SAMPLE_CAP as int));
                }
                assert(crate::text::views(summary.sample@) == sample_of(after));
            }
        }
        i += 1;
    }
    proof {
        assert(files@.take(files.len() as int) == files@);
    }
    summary
}

/// A file that a job has or will have as its output is never pruned.
pub proof fn outputs_of_jobs_are_no_orphans(
    e: DirEntry,
    jobs: Seq<JobView>,
    i: int,
    trip: u128,
)
    requires
        0 <= i < jobs.len(),
        jobs[i].trip_id == crate::ids::hyphenated(trip),
        e.name@ == crate::timelapse::worker::output_name(
            jobs[i].trip_id,
            jobs[i].tier,
            jobs[i].channel,
        ),
    ensures
        !is_orphan(e, jobs),
{
    crate::ids::id_text_has_uuid_shape(trip);
    reveal_strlit(".mp4");
    reveal_strlit("_");
    let name = e.name@;
    let stem = name.take(name.len() - 4);
    assert(stem.take(36) == jobs[i].trip_id);
}

// --------------------------------------------------------- positions to be read

/// The version of the program that reads positions out of footage.
#[derive(Debug)]
pub struct GpsRow {
    pub trip_id: String,
    pub parser_version: i64,
}

/// The positions of the trip were read by this version or a later one.
pub open spec fn has_current_gps(rows: Seq<GpsRow>, trip_id: Seq<char>, version: i64) -> bool {
    exists|i: int|
        0 <= i < rows.len() && (#[trigger] rows[i]).trip_id@ == trip_id && rows[i].parser_version
            >= version
}

/// Whether the positions of the trip were read by this version or a later one.
pub fn has_current(rows: &Vec<GpsRow>, trip_id: &str, version: i64) -> (r: bool)
    ensures
        r == has_current_gps(rows@, trip_id@, version),
{
    let mut i: usize = 0;
    while i < rows.len()
        invariant
            i <= rows.len(),
            forall|j: int|
                0 <= j < i ==> !((#[trigger] rows@[j]).trip_id@ == trip_id@
                    && rows@[j].parser_version >= version),
        decreases rows.len() - i,
    {
        if same_str(rows[i].trip_id.as_str(), trip_id) && rows[i].parser_version >= version {
            return true;
        }
        i += 1;
    }
    false
}

/// The trip has a finished timelapse.
pub open spec fn has_done_job(jobs: Seq<JobView>, trip_id: Seq<char>) -> bool {
    exists|i: int|
        0 <= i < jobs.len() && (#[trigger] jobs[i]).trip_id == trip_id && jobs[i].status
            == JobStatus::Done
}

fn trip_has_done_job(jobs: &Vec<JobRow>, trip_id: &str) -> (r: bool)
    ensures
        r == has_done_job(crate::db::rows::job_rows(jobs@), trip_id@),
{
    let ghost jv = crate::db::rows::job_rows(jobs@);
    let mut i: usize = 0;
    while i < jobs.len()
        invariant
            i <= jobs.len(),
            jv == crate::db::rows::job_rows(jobs@),
            forall|j: int|
                0 <= j < i ==> !((#[trigger] jv[j]).trip_id == trip_id@ && jv[j].status
                    == JobStatus::Done),
        decreases jobs.len() - i,
    {
        proof {
            assert(jv[i as int] == jobs@[i as int]@);
        }
        if same_str(jobs[i].trip_id.as_str(), trip_id) && jobs[i].status == JobStatus::Done {
            return true;
        }
        i += 1;
    }
    false
}

/// The positions of the trip are to be read: it has a finished timelapse and
/// footage, and its positions are not there or out of date.
pub open spec fn needs_gps(
    lib: crate::db::rows::LibraryView,
    gps: Seq<GpsRow>,
    version: i64,
    t: TripView,
) -> bool {
    has_done_job(lib.jobs, t.id) && crate::timelapse::worker::has_source(lib.segments, t.id)
        && !has_current_gps(gps, t.id, version)
}

/// Later trips come first.
pub open spec fn latest_first() -> spec_fn(TripView) -> int {
    |t: TripView| -(t.start_time_ms as int)
}

/// The trips whose positions are to be read, the latest first.
pub open spec fn gps_trips(
    lib: crate::db::rows::LibraryView,
    gps: Seq<GpsRow>,
    version: i64,
) -> Seq<Seq<char>> {
    crate::sort::sort_by(
        lib.trips.filter(|t: TripView| needs_gps(lib, gps, version, t)),
        latest_first(),
    ).map_values(|t: TripView| t.id)
}

/// The first trips whose positions are to be read, the latest first.
pub fn backfill_candidates(lib: &Library, gps: &Vec<GpsRow>, version: i64, max_trips: usize) -> (r:
    Vec<String>)
    ensures
        ({
            let all = gps_trips(lib@, gps@, version);
            crate::text::views(r@) == if all.len() > max_trips {
                all.take(max_trips as int)
            } else {
                all
            }
        }),
{
    let ghost lv = lib@;
    let ghost keep = |t: TripRow| needs_gps(lv, gps@, version, t@);
    let mut copy: Vec<TripRow> = Vec::new();
    let mut marks: Vec<bool> = Vec::new();
    let mut i: usize = 0;
    while i < lib.trips.len()
        invariant
            lv == lib@,
            i <= lib.trips.len(),
            keep == (|t: TripRow| needs_gps(lv, gps@, version, t@)),
            copy@ == lib.trips@.take(i as int),
            marks.len() == i,
            forall|j: int| 0 <= j < i ==> #[trigger] marks@[j] == keep(copy@[j]),
        decreases lib.trips.len() - i,
    {
        let id = lib.trips[i].id.as_str();
        marks.push(
            trip_has_done_job(&lib.jobs, id) && trip_has_source_segments(&lib.segments, id)
                && !has_current(gps, id, version),
        );
        copy.push(lib.trips[i].clone());
        i += 1;
        proof {
            assert(lib.trips@.take(i as int) == lib.trips@.take(i - 1).push(lib.trips@[i - 1]));
        }
    }
    proof {
        assert(lib.trips@.take(lib.trips@.len() as int) == lib.trips@);
    }
    let kept = retain_marked(copy, marks, Ghost(keep));
    let ghost raw_key = |t: TripRow| -(t.start_time_ms as int);
    let ghost to_view = |t: TripRow| t@;
    proof {
        let q = |t: TripView| needs_gps(lv, gps@, version, t);
        crate::db::table::filter_commutes_with_map(lib.trips@, keep, to_view, q);
        assert(crate::db::rows::trip_rows(lib.trips@) == lib.trips@.map_values(to_view));
        crate::sort::sort_commutes_with_map(kept@, raw_key, to_view, latest_first());
    }
    let mut keys: Vec<i128> = Vec::new();
    let mut i: usize = 0;
    while i < kept.len()
        invariant
            i <= kept.len(),
            keys.len() == i,
            raw_key == (|t: TripRow| -(t.start_time_ms as int)),
            forall|j: int| 0 <= j < i ==> #[trigger] keys@[j] == raw_key(kept@[j]),
        decreases kept.len() - i,
    {
        keys.push(-(kept[i].start_time_ms as i128));
        i += 1;
    }
    let sorted = sort_stable(kept, keys, Ghost(raw_key));
    let ghost all = gps_trips(lv, gps@, version);
    proof {
        assert(all == sorted@.map_values(to_view).map_values(|t: TripView| t.id));
    }
    let n: usize = if sorted.len() > max_trips {
        max_trips
    } else {
        sorted.len()
    };
    let mut out: Vec<String> = Vec::new();
    let mut i: usize = 0;
    while i < n
        invariant
            i <= n <= sorted.len(),
            all.len() == sorted.len(),
            forall|j: int| 0 <= j < all.len() ==> #[trigger] all[j] == sorted@[j].id@,
            crate::text::views(out@) == all.take(i as int),
        decreases n - i,
    {
        let ghost before = out@;
        out.push(sorted[i].id.clone());
        proof {
            assert(crate::text::views(out@) == crate::text::views(before).push(all[i as int]));
            assert(all.take(i + 1) == all.take(i as int).push(all[i as int]));
        }
        i += 1;
    }
    proof {
        assert(all.take(all.len() as int) == all);
    }
    out
}

} // verus!
