//! What the sweeps over the timelapses are for.

use crate::db::rows::{JobStatus, JobView, LibraryView, TripView};
use crate::moment::Moment;
use crate::timelapse::cleanup::{DirEntry, FileFact, GpsRow, PrunedFile, TargetView};
use vstd::prelude::*;

verus! {

/// A file is at the path.
pub open spec fn is_there(files: Seq<FileFact>, path: Seq<char>) -> bool {
    exists|i: int| 0 <= i < files.len() && (#[trigger] files[i]).path@ == path
}

/// The size at a path is that of the first file there; where no file is there, there is
/// none.
pub proof fn sizes_are_those_of_the_files(files: Seq<FileFact>, path: Seq<char>)
    ensures
        crate::timelapse::cleanup::size_at(files, path) is Some <==> is_there(files, path),
        crate::timelapse::cleanup::size_at(files, path) matches Some(n) ==> exists|i: int|
            0 <= i < files.len() && (#[trigger] files[i]).path@ == path && files[i].size == n,
{
    let s = seq![path];
    let p = |f: FileFact| f.path@ == s[0];
    crate::db::table::lemma_first_index(files, p, 0);
    let i = crate::db::table::first_index(files, p, 0);
    assert(crate::timelapse::cleanup::size_at(files, s[0]) == crate::timelapse::cleanup::size_at(
        files,
        path,
    ));
    if i < files.len() {
        assert(p(files[i]));
    } else if is_there(files, path) {
        let k = choose|k: int| 0 <= k < files.len() && (#[trigger] files[k]).path@ == path;
        assert(!p(files[k]));
    }
}

/// The rows tell the same of everything but the status, the error, the output and its
/// size.
pub open spec fn is_same_encode(a: JobView, b: JobView) -> bool {
    &&& a.trip_id == b.trip_id && a.tier == b.tier && a.channel == b.channel
    &&& a.ffmpeg_version == b.ffmpeg_version
    &&& a.encoder_used == b.encoder_used
    &&& a.padded_count == b.padded_count
    &&& a.speed_curve_json == b.speed_curve_json
    &&& a.created_at_ms == b.created_at_ms
    &&& a.completed_at_ms == b.completed_at_ms
}

/// A finished job fails exactly where its output is not where the row says, and the
/// error names this place; nothing else is lost.
pub proof fn gone_outputs_fail_their_jobs(r: JobView, root: Seq<char>, present: Seq<Seq<char>>)
    ensures
        ({
            let f = crate::timelapse::cleanup::flagged(r, root, present);
            let gone = r.status == JobStatus::Done && r.output_path is Some && !present.contains(
                crate::paths::path_join(root, r.output_path->0),
            );
            &&& gone ==> f.status == JobStatus::Failed && f.error_message is Some
                && f.error_message->0 == "output file missing on disk (expected at "@
                + crate::paths::path_join(root, r.output_path->0) + ")"@
            &&& !gone ==> f == r
            &&& is_same_encode(f, r) && f.output_path == r.output_path && f.output_size_bytes
                == r.output_size_bytes
        }),
{
}

/// A job that failed and knows of no output is done exactly where the file of this job
/// is there, with this file and its size; every other row stays as it is.
pub proof fn found_outputs_finish_their_jobs(r: JobView, files: Seq<FileFact>)
    ensures
        ({
            let f = crate::timelapse::cleanup::relinked(r, files);
            let name = crate::laws::merge::file_of(r.trip_id, r.tier, r.channel);
            let found = r.status == JobStatus::Failed && r.output_path is None && is_there(
                files,
                name,
            );
            &&& found ==> f.status == JobStatus::Done && f.error_message is None && f.output_path
                == Some("Timelapses/"@ + name) && is_same_encode(f, r) && exists|i: int|
                0 <= i < files.len() && (#[trigger] files[i]).path@ == name && f.output_size_bytes
                    == Some(files[i].size as i64)
            &&& !found ==> f == r
        }),
{
    let name = crate::laws::merge::file_of(r.trip_id, r.tier, r.channel);
    crate::laws::merge::outputs_are_named_by_their_job(r.trip_id, r.tier, r.channel);
    sizes_are_those_of_the_files(files, name);
}

/// A finished job whose size is not known gets the size of its output where it is
/// there; nothing else changes.
pub proof fn outputs_are_measured_once(r: JobView, root: Seq<char>, files: Seq<FileFact>)
    ensures
        ({
            let f = crate::timelapse::cleanup::measured(r, root, files);
            let due = r.status == JobStatus::Done && r.output_path is Some && r.output_size_bytes
                is None && is_there(files, crate::paths::path_join(root, r.output_path->0));
            &&& due ==> exists|i: int|
                0 <= i < files.len() && (#[trigger] files[i]).path@ == crate::paths::path_join(
                    root,
                    r.output_path->0,
                ) && f.output_size_bytes == Some(files[i].size as i64)
            &&& !due ==> f == r
            &&& is_same_encode(f, r) && f.status == r.status && f.output_path == r.output_path
                && f.error_message == r.error_message
        }),
{
    if r.output_path is Some {
        sizes_are_those_of_the_files(files, crate::paths::path_join(root, r.output_path->0));
    }
}

/// The path is that of the output of one of the rows.
pub open spec fn is_output_of_one(rows: Seq<JobView>, root: Seq<char>, path: Seq<char>) -> bool {
    exists|i: int|
        0 <= i < rows.len() && (#[trigger] rows[i]).output_path is Some && path
            == crate::paths::path_join(root, rows[i].output_path->0)
}

/// The files to be removed are the outputs of the jobs that are put back, in their
/// order.
pub proof fn leftovers_are_the_outputs_of_the_jobs(rows: Seq<JobView>, root: Seq<char>)
    ensures
        ({
            let r = crate::timelapse::cleanup::files_of(rows, root);
            &&& forall|i: int|
                0 <= i < rows.len() && (#[trigger] rows[i]).output_path is Some ==> r.contains(
                    crate::paths::path_join(root, rows[i].output_path->0),
                )
            &&& forall|k: int|
                0 <= k < r.len() ==> is_output_of_one(rows, root, #[trigger] r[k])
        }),
{
    let f = |r: JobView|
        match r.output_path {
            Some(p) => Some(crate::paths::path_join(root, p)),
            None => None,
        };
    let r = crate::timelapse::cleanup::files_of(rows, root);
    crate::laws::seqs::lemma_filter_map(rows, f);
    assert(r == rows.filter_map(f));
    assert forall|i: int| 0 <= i < rows.len() && (#[trigger] rows[i]).output_path is Some implies r.contains(
        crate::paths::path_join(root, rows[i].output_path->0),
    ) by {
        assert(f(rows[i]) is Some);
    }
    assert forall|k: int| 0 <= k < r.len() implies is_output_of_one(rows, root, #[trigger] r[k]) by {
        let i = choose|i: int| 0 <= i < rows.len() && f(#[trigger] rows[i]) == Some(r[k]);
        assert(rows[i].output_path is Some);
    }
}

/// After the sweeps a finished job whose output is gone has failed; one that failed and
/// knew of no output is done where the file of the job is there; a finished job whose
/// output is there has its size where it is known.
pub proof fn sweeps_bring_rows_in_line(
    r: JobView,
    root: Seq<char>,
    present: Seq<Seq<char>>,
    named: Seq<FileFact>,
    files: Seq<FileFact>,
)
    ensures
        ({
            let s = crate::timelapse::cleanup::settled(r, root, true, present, named, files);
            let blind = crate::timelapse::cleanup::settled(r, root, false, present, named, files);
            let name = crate::laws::merge::file_of(r.trip_id, r.tier, r.channel);
            let place = crate::paths::path_join(root, r.output_path->0);
            let claims = r.status == JobStatus::Done && r.output_path is Some;
            &&& claims && !present.contains(place) ==> s.status == JobStatus::Failed
                && s.output_path == r.output_path && s.output_size_bytes == r.output_size_bytes
            &&& claims && present.contains(place) ==> s.status == JobStatus::Done && s.output_path
                == r.output_path && (r.output_size_bytes is Some ==> s == r) && (
            r.output_size_bytes is None && is_there(files, place) ==> s.output_size_bytes is Some)
            &&& r.status == JobStatus::Failed && r.output_path is None && is_there(named, name)
                ==> s.status == JobStatus::Done && s.output_path == Some("Timelapses/"@ + name)
                && s.error_message is None && s.output_size_bytes is Some
            &&& r.status == JobStatus::Pending || r.status == JobStatus::Running ==> s == r
            &&& claims ==> blind.status == JobStatus::Done && blind.error_message
                == r.error_message
            &&& is_same_encode(s, r)
        }),
{
    let name = crate::laws::merge::file_of(r.trip_id, r.tier, r.channel);
    crate::laws::merge::outputs_are_named_by_their_job(r.trip_id, r.tier, r.channel);
    sizes_are_those_of_the_files(named, name);
    if r.output_path is Some {
        sizes_are_those_of_the_files(files, crate::paths::path_join(root, r.output_path->0));
    }
}

// ------------------------------------------------------------------- recovery

/// The places where the archive may have lain are all that are named but its own, none
/// twice where none was named twice, the moved ones first.
pub proof fn former_places_are_all_but_its_own(
    migrated: Seq<Seq<char>>,
    recent: Seq<Seq<char>>,
    root: Seq<char>,
    x: Seq<char>,
)
    ensures
        crate::timelapse::cleanup::former_roots(migrated, recent, root).contains(x) <==> x != root
            && (migrated.contains(x) || recent.contains(x)),
        !migrated.contains(root) ==> migrated.is_prefix_of(
            crate::timelapse::cleanup::former_roots(migrated, recent, root),
        ),
{
    let n = recent.len() as int;
    let w = crate::timelapse::cleanup::with_missing(migrated, recent, n);
    let own = seq![root];
    let p = |p: Seq<char>| p != own[0];
    let r = crate::timelapse::cleanup::former_roots(migrated, recent, own[0]);
    lemma_with_missing(migrated, recent, n, x);
    crate::laws::seqs::lemma_filter(w, p);
    assert(r == w.filter(p));
    if r.contains(x) {
        let k = choose|k: int| 0 <= k < r.len() && r[k] == x;
        assert(w.contains(r[k]) && p(r[k]));
    }
    if x != root && w.contains(x) {
        let k = choose|k: int| 0 <= k < w.len() && w[k] == x;
        assert(p(w[k]));
        assert(r.contains(w[k]));
    }
    assert(recent.take(n) =~= recent);
    if !migrated.contains(root) {
        let tail = w.skip(migrated.len() as int);
        assert(w =~= migrated + tail);
        assert forall|i: int| 0 <= i < migrated.len() implies p(#[trigger] migrated[i]) by {
            if migrated[i] == root {
                assert(migrated.contains(root));
            }
        }
        crate::laws::seqs::lemma_filter_all(migrated, p);
        Seq::filter_distributes_over_add(migrated, tail, p);
        assert(r =~= migrated + tail.filter(p));
    }
}

proof fn lemma_with_missing(v: Seq<Seq<char>>, more: Seq<Seq<char>>, n: int, x: Seq<char>)
    requires
        0 <= n <= more.len(),
    ensures
        crate::timelapse::cleanup::with_missing(v, more, n).contains(x) <==> v.contains(x)
            || more.take(n).contains(x),
        v.is_prefix_of(crate::timelapse::cleanup::with_missing(v, more, n)),
    decreases n,
{
    if n > 0 {
        lemma_with_missing(v, more, n - 1, x);
        let before = crate::timelapse::cleanup::with_missing(v, more, n - 1);
        let w = crate::timelapse::cleanup::with_missing(v, more, n);
        let a = more.take(n - 1);
        let b = more.take(n);
        assert(b[n - 1] == more[n - 1]);
        if a.contains(x) {
            let k = choose|k: int| 0 <= k < a.len() && a[k] == x;
            assert(b[k] == x);
        }
        if b.contains(x) && !a.contains(x) {
            let k = choose|k: int| 0 <= k < b.len() && b[k] == x;
            if k < n - 1 {
                assert(a[k] == x);
            }
            assert(x == more[n - 1]);
            if !before.contains(x) {
                assert(w[w.len() - 1] == x);
            }
        }
        if before.contains(x) {
            let k = choose|k: int| 0 <= k < before.len() && before[k] == x;
            assert(w[k] == x);
        }
        if w.contains(x) && !before.contains(x) {
            let k = choose|k: int| 0 <= k < w.len() && w[k] == x;
            if k < before.len() {
                assert(before[k] == x);
            }
            assert(x == more[n - 1]);
        }
        assert(v =~= w.take(v.len() as int)) by {
            assert(v =~= before.take(v.len() as int));
            assert forall|i: int| 0 <= i < v.len() implies v[i] == #[trigger] w[i] by {
                assert(before.take(v.len() as int)[i] == before[i]);
            }
        }
    } else {
        assert(more.take(0) =~= Seq::empty());
        assert(v =~= v.take(v.len() as int));
    }
}

/// A former path is the former root without separators at its end, one separator, and
/// the stored path with this separator.
pub proof fn former_paths_lie_under_the_former_root(old_root: Seq<char>, rel: Seq<char>, sep: char)
    ensures
        ({
            let base = crate::timelapse::cleanup::without_separators(old_root);
            let r = crate::timelapse::cleanup::old_absolute(old_root, rel, sep);
            &&& base.is_prefix_of(old_root)
            &&& base.len() > 0 ==> base.last() != '/' && base.last() != '\\'
            &&& forall|i: int|
                base.len() <= i < old_root.len() ==> #[trigger] old_root[i] == '/' || old_root[i]
                    == '\\'
            &&& r.len() == base.len() + 1 + rel.len()
            &&& forall|i: int| 0 <= i < base.len() ==> #[trigger] r[i] == old_root[i]
            &&& r[base.len() as int] == sep
            &&& forall|i: int|
                0 <= i < rel.len() ==> r[base.len() + 1 + i] == if #[trigger] rel[i] == '/' {
                    sep
                } else {
                    rel[i]
                }
        }),
{
    lemma_without_separators(old_root);
    let base = crate::timelapse::cleanup::without_separators(old_root);
    assert forall|i: int| 0 <= i < base.len() implies #[trigger] old_root[i] == base[i] by {
        assert(old_root.take(base.len() as int)[i] == old_root[i]);
    }
}

proof fn lemma_without_separators(p: Seq<char>)
    ensures
        ({
            let b = crate::timelapse::cleanup::without_separators(p);
            &&& b.is_prefix_of(p)
            &&& b.len() > 0 ==> b.last() != '/' && b.last() != '\\'
            &&& forall|i: int|
                b.len() <= i < p.len() ==> #[trigger] p[i] == '/' || p[i] == '\\'
        }),
    decreases p.len(),
{
    let b = crate::timelapse::cleanup::without_separators(p);
    if p.len() > 0 && (p.last() == '/' || p.last() == '\\') {
        let u = p.drop_last();
        lemma_without_separators(u);
        assert(b =~= p.take(b.len() as int)) by {
            assert(b =~= u.take(b.len() as int));
        }
        assert forall|i: int| b.len() <= i < p.len() implies #[trigger] p[i] == '/' || p[i]
            == '\\' by {
            if i < u.len() {
                assert(u[i] == p[i]);
            }
        }
    } else {
        assert(p =~= p.take(p.len() as int));
    }
}

/// A failed job with footage is looked for under the name that it would have, and under
/// the names that it had under each former root: those of the trip of the first piece
/// of footage as it lay there.
pub proof fn failed_jobs_are_looked_for_by_their_names(
    r: JobView,
    segments: Seq<crate::db::rows::SegmentView>,
    roots: Seq<Seq<char>>,
    sep: char,
    start: Moment,
)
    requires
        r.status == JobStatus::Failed,
        crate::timelapse::worker::footage_of(segments, r.trip_id).len() > 0,
        crate::moment::millis_moment(
            crate::timelapse::worker::footage_of(segments, r.trip_id)[0].start_time_ms as int,
        ) == Some(start),
    ensures
        ({
            let first = crate::timelapse::worker::footage_of(segments, r.trip_id)[0];
            let t = crate::timelapse::cleanup::target_of(r, segments, roots, sep);
            &&& t is Some
            &&& t->0.trip_id == r.trip_id && t->0.tier == r.tier && t->0.channel == r.channel
            &&& t->0.new_name == crate::laws::merge::file_of(r.trip_id, r.tier, r.channel)
            &&& t->0.old_names.len() == roots.len()
            &&& forall|i: int|
                0 <= i < roots.len() ==> #[trigger] t->0.old_names[i] == crate::laws::merge::file_of(
                    crate::ids::hyphenated(
                        crate::ids::trip_id(
                            crate::ids::segment_id(
                                crate::timelapse::cleanup::old_absolute(
                                    roots[i],
                                    first.master_path,
                                    sep,
                                ),
                                start,
                            ),
                        ),
                    ),
                    r.tier,
                    r.channel,
                )
        }),
{
    crate::laws::merge::outputs_are_named_by_their_job(r.trip_id, r.tier, r.channel);
    let first = crate::timelapse::worker::footage_of(segments, r.trip_id)[0];
    let t = crate::timelapse::cleanup::target_of(r, segments, roots, sep);
    assert forall|i: int| 0 <= i < roots.len() implies #[trigger] t->0.old_names[i]
        == crate::laws::merge::file_of(
        crate::timelapse::cleanup::old_trip_id(roots[i], first.master_path, start, sep),
        r.tier,
        r.channel,
    ) by {
        crate::laws::merge::outputs_are_named_by_their_job(
            crate::timelapse::cleanup::old_trip_id(roots[i], first.master_path, start, sep),
            r.tier,
            r.channel,
        );
    }
}

/// A job that did not fail, or has no footage, is not looked for.
pub proof fn only_failed_jobs_with_footage_are_looked_for(
    r: JobView,
    segments: Seq<crate::db::rows::SegmentView>,
    roots: Seq<Seq<char>>,
    sep: char,
)
    requires
        r.status != JobStatus::Failed || crate::timelapse::worker::footage_of(
            segments,
            r.trip_id,
        ).len() == 0,
    ensures
        crate::timelapse::cleanup::target_of(r, segments, roots, sep) is None,
{
}

/// The name that is taken is the first of the names that is there.
pub proof fn the_first_name_there_is_taken(names: Seq<Seq<char>>, present: Seq<Seq<char>>)
    ensures
        match crate::timelapse::cleanup::first_present(names, present) {
            Some(n) => exists|k: int|
                0 <= k < names.len() && #[trigger] names[k] == n && present.contains(n) && forall|
                    j: int,
                |
                    0 <= j < k ==> !present.contains(#[trigger] names[j]),
            None => forall|j: int| 0 <= j < names.len() ==> !present.contains(#[trigger] names[j]),
        },
    decreases names.len(),
{
    if names.len() > 0 && !present.contains(names[0]) {
        let u = names.skip(1);
        the_first_name_there_is_taken(u, present);
        match crate::timelapse::cleanup::first_present(u, present) {
            Some(n) => {
                let k = choose|k: int|
                    0 <= k < u.len() && #[trigger] u[k] == n && present.contains(n) && forall|
                        j: int,
                    |
                        0 <= j < k ==> !present.contains(#[trigger] u[j]);
                assert(names[k + 1] == n);
                assert forall|j: int| 0 <= j < k + 1 implies !present.contains(
                    #[trigger] names[j],
                ) by {
                    if j > 0 {
                        assert(u[j - 1] == names[j]);
                    }
                }
            },
            None => {
                assert forall|j: int| 0 <= j < names.len() implies !present.contains(
                    #[trigger] names[j],
                ) by {
                    if j > 0 {
                        assert(u[j - 1] == names[j]);
                    }
                }
            },
        }
    } else if names.len() > 0 {
        assert(names[0] == names[0]);
    }
}

/// A recovered job is done, its output stands under the new name, and what is known of
/// the encode stays; a size that is not known now stays as it was. Other jobs stay.
pub proof fn recovered_jobs_have_their_output(r: JobView, t: TargetView, size: Option<i64>)
    ensures
        ({
            let f = crate::timelapse::cleanup::recovered(r, t, size);
            if r.trip_id == t.trip_id && r.tier == t.tier && r.channel == t.channel {
                &&& f.status == JobStatus::Done && f.error_message is None
                &&& f.output_path == Some("Timelapses/"@ + t.new_name)
                &&& is_same_encode(f, r)
                &&& size is Some ==> f.output_size_bytes == size
                &&& size is None ==> f.output_size_bytes == r.output_size_bytes
            } else {
                f == r
            }
        }),
{
}

// -------------------------------------------------------------------- orphans

/// The name of an output starts with the identifier of its trip: the first 36
/// characters, where they have the shape of an identifier and something follows before
/// the ending.
pub proof fn outputs_name_their_trip(trip: u128, tier: Seq<char>, channel: Seq<char>)
    ensures
        crate::timelapse::cleanup::named_trip(
            crate::laws::merge::file_of(crate::ids::hyphenated(trip), tier, channel),
        ) == Some(crate::ids::hyphenated(trip)),
{
    let id = crate::ids::hyphenated(trip);
    let name = crate::laws::merge::file_of(id, tier, channel);
    crate::ids::id_text_has_uuid_shape(trip);
    reveal_strlit(".mp4");
    assert(".mp4"@ =~= seq!['.', 'm', 'p', '4']);
    let stem = name.take(name.len() - 4);
    assert(name.skip(name.len() - 4) =~= ".mp4"@);
    assert(name.subrange(name.len() - 4, name.len() as int) =~= ".mp4"@);
    assert(stem.take(36) =~= id);
}

/// The timelapse of a trip is an orphan exactly where no job is of this trip; a
/// directory is none.
pub proof fn orphans_have_no_job(
    e: DirEntry,
    jobs: Seq<JobView>,
    trip: u128,
    tier: Seq<char>,
    channel: Seq<char>,
)
    requires
        e.name@ == crate::laws::merge::file_of(crate::ids::hyphenated(trip), tier, channel),
    ensures
        crate::timelapse::cleanup::is_orphan(e, jobs) <==> e.is_file && forall|i: int|
            0 <= i < jobs.len() ==> (#[trigger] jobs[i]).trip_id != crate::ids::hyphenated(trip),
{
    outputs_name_their_trip(trip, tier, channel);
    let id = crate::ids::hyphenated(trip);
    if !crate::timelapse::cleanup::is_referenced(jobs, id) {
        assert forall|i: int| 0 <= i < jobs.len() implies (#[trigger] jobs[i]).trip_id != id by {}
    }
}

/// What is not named as a timelapse is no orphan.
pub proof fn other_files_are_no_orphans(e: DirEntry, jobs: Seq<JobView>)
    requires
        crate::timelapse::cleanup::is_orphan(e, jobs),
    ensures
        e.is_file,
        e.name@.len() > 40,
        e.name@.skip(e.name@.len() - 4) == seq!['.', 'm', 'p', '4'],
        crate::ids::has_uuid_shape(e.name@.take(36)),
        forall|i: int| 0 <= i < jobs.len() ==> (#[trigger] jobs[i]).trip_id != e.name@.take(36),
{
    reveal_strlit(".mp4");
    assert(".mp4"@ =~= seq!['.', 'm', 'p', '4']);
    let name = e.name@;
    let stem = name.take(name.len() - 4);
    assert(stem.take(36) =~= name.take(36));
    assert(name.skip(name.len() - 4) =~= name.subrange(name.len() - 4, name.len() as int));
}

/// One of the entries is an orphan of this name.
pub open spec fn is_name_of_orphan(
    entries: Seq<DirEntry>,
    jobs: Seq<JobView>,
    name: Seq<char>,
) -> bool {
    exists|i: int|
        0 <= i < entries.len() && crate::timelapse::cleanup::is_orphan(#[trigger] entries[i], jobs)
            && entries[i].name@ == name
}

/// The orphans are all entries that are one, under their own names; what was moved is
/// what is counted.
pub proof fn orphans_are_named(entries: Seq<DirEntry>, jobs: Seq<JobView>, files: Seq<PrunedFile>)
    ensures
        forall|i: int|
            0 <= i < entries.len() && crate::timelapse::cleanup::is_orphan(
                #[trigger] entries[i],
                jobs,
            ) ==> crate::timelapse::cleanup::orphan_names(entries, jobs).contains(entries[i].name@),
        forall|k: int|
            0 <= k < crate::timelapse::cleanup::orphan_names(entries, jobs).len()
                ==> is_name_of_orphan(
                entries,
                jobs,
                #[trigger] crate::timelapse::cleanup::orphan_names(entries, jobs)[k],
            ),
        forall|i: int|
            0 <= i < files.len() && (#[trigger] files[i]).trashed
                ==> crate::timelapse::cleanup::trashed_files(files).contains(files[i]),
        forall|k: int|
            0 <= k < crate::timelapse::cleanup::trashed_files(files).len() ==> (
            #[trigger] crate::timelapse::cleanup::trashed_files(files)[k]).trashed
                && files.contains(crate::timelapse::cleanup::trashed_files(files)[k]),
{
    let p = |e: DirEntry| crate::timelapse::cleanup::is_orphan(e, jobs);
    let q = |f: PrunedFile| f.trashed;
    let f = entries.filter(p);
    let n = crate::timelapse::cleanup::orphan_names(entries, jobs);
    crate::laws::seqs::lemma_filter(entries, p);
    crate::laws::seqs::lemma_filter(files, q);
    assert forall|i: int|
        0 <= i < entries.len() && crate::timelapse::cleanup::is_orphan(
            #[trigger] entries[i],
            jobs,
        ) implies n.contains(entries[i].name@) by {
        assert(p(entries[i]));
        let k = choose|k: int| 0 <= k < f.len() && f[k] == entries[i];
        assert(n[k] == entries[i].name@);
    }
    assert forall|k: int| 0 <= k < n.len() implies is_name_of_orphan(
        entries,
        jobs,
        #[trigger] n[k],
    ) by {
        assert(entries.contains(f[k]) && p(f[k]));
        let i = choose|i: int| 0 <= i < entries.len() && entries[i] == f[k];
        assert(crate::timelapse::cleanup::is_orphan(entries[i], jobs));
    }
    assert forall|i: int| 0 <= i < files.len() && (#[trigger] files[i]).trashed implies crate::timelapse::cleanup::trashed_files(
        files).contains(files[i]) by {
        assert(q(files[i]));
    }
}

/// The sizes of the files added up, from the first on.
pub open spec fn total_size(files: Seq<PrunedFile>) -> nat
    decreases files.len(),
{
    if files.len() == 0 {
        0
    } else {
        (files[0].size + total_size(files.skip(1))) as nat
    }
}

/// What was reclaimed is the sizes of the files that were moved, added up; at most as
/// many as a sample has are named, the first ones.
pub proof fn prunings_add_up(files: Seq<PrunedFile>)
    ensures
        crate::timelapse::cleanup::size_of_all(files) == total_size(files),
        ({
            let s = crate::timelapse::cleanup::sample_of(files);
            &&& s.len() <= files.len()
            &&& s.len() == files.len() || s.len() == crate::timelapse::cleanup::SAMPLE_CAP
            &&& forall|i: int| 0 <= i < s.len() ==> #[trigger] s[i] == files[i].name@
        }),
    decreases files.len(),
{
    if files.len() > 0 {
        let u = files.drop_last();
        prunings_add_up(u);
        lemma_total_size_last(files);
    }
}

proof fn lemma_total_size_last(files: Seq<PrunedFile>)
    requires
        files.len() > 0,
    ensures
        total_size(files) == total_size(files.drop_last()) + files.last().size,
    decreases files.len(),
{
    if files.len() == 1 {
        assert(files.skip(1) =~= Seq::empty());
        assert(files.drop_last() =~= Seq::empty());
    } else {
        lemma_total_size_last(files.skip(1));
        assert(files.skip(1).drop_last() =~= files.drop_last().skip(1));
        assert(files.skip(1).last() == files.last());
        assert(files.drop_last()[0] == files[0]);
    }
}

// ------------------------------------------------------------------ positions

/// The positions of the trip are due: it has a finished timelapse and footage, and its
/// positions were not read by this version or a later one.
pub open spec fn is_due(lib: LibraryView, gps: Seq<GpsRow>, version: i64, id: Seq<char>) -> bool {
    &&& exists|i: int|
        0 <= i < lib.jobs.len() && (#[trigger] lib.jobs[i]).trip_id == id && lib.jobs[i].status
            == JobStatus::Done
    &&& exists|i: int|
        0 <= i < lib.segments.len() && (#[trigger] lib.segments[i]).trip_id == id
            && !lib.segments[i].is_tombstone
    &&& forall|i: int|
        0 <= i < gps.len() && (#[trigger] gps[i]).trip_id@ == id ==> gps[i].parser_version < version
}

/// The trips whose positions are to be read are all for which they are due.
pub proof fn positions_are_read_where_due(lib: LibraryView, gps: Seq<GpsRow>, version: i64, k: int)
    requires
        0 <= k < lib.trips.len(),
    ensures
        is_due(lib, gps, version, lib.trips[k].id)
            ==> crate::timelapse::cleanup::gps_trips(lib, gps, version).contains(lib.trips[k].id),
        forall|i: int|
            0 <= i < crate::timelapse::cleanup::gps_trips(lib, gps, version).len() ==> is_due(
                lib,
                gps,
                version,
                #[trigger] crate::timelapse::cleanup::gps_trips(lib, gps, version)[i],
            ),
{
    let p = |t: TripView| crate::timelapse::cleanup::needs_gps(lib, gps, version, t);
    let key = crate::timelapse::cleanup::latest_first();
    let f = lib.trips.filter(p);
    let s = crate::sort::sort_by(f, key);
    let r = crate::timelapse::cleanup::gps_trips(lib, gps, version);
    crate::laws::seqs::lemma_filter(lib.trips, p);
    crate::laws::seqs::lemma_sorted(f, key);
    assert forall|t: TripView| #[trigger] p(t) == is_due(lib, gps, version, t.id) by {
        let id = t.id;
        if crate::timelapse::cleanup::has_current_gps(gps, id, version) {
            let i = choose|i: int|
                0 <= i < gps.len() && (#[trigger] gps[i]).trip_id@ == id && gps[i].parser_version
                    >= version;
            assert(!(gps[i].parser_version < version));
        }
    }
    if is_due(lib, gps, version, lib.trips[k].id) {
        assert(p(lib.trips[k]));
        let m = choose|m: int| 0 <= m < f.len() && f[m] == lib.trips[k];
        assert(s.contains(f[m]));
        let q = choose|q: int| 0 <= q < s.len() && s[q] == f[m];
        assert(r[q] == lib.trips[k].id);
    }
    assert forall|i: int| 0 <= i < r.len() implies is_due(lib, gps, version, #[trigger] r[i]) by {
        assert(f.contains(s[i]));
        let m = choose|m: int| 0 <= m < f.len() && f[m] == s[i];
        assert(p(f[m]));
        assert(r[i] == s[i].id);
    }
}

/// The trips whose positions are to be read come with the latest first.
pub proof fn positions_are_read_of_the_latest_first(lib: LibraryView, gps: Seq<GpsRow>, version: i64)
    ensures
        exists|s: Seq<TripView>|
            #![trigger s.len()]
            s.len() == crate::timelapse::cleanup::gps_trips(lib, gps, version).len() && (forall|
                i: int,
            |
                0 <= i < s.len() ==> (#[trigger] s[i]).id == crate::timelapse::cleanup::gps_trips(
                    lib,
                    gps,
                    version,
                )[i] && lib.trips.contains(s[i])) && forall|i: int, j: int|
                0 <= i <= j < s.len() ==> (#[trigger] s[i]).start_time_ms >= (
                #[trigger] s[j]).start_time_ms,
{
    let p = |t: TripView| crate::timelapse::cleanup::needs_gps(lib, gps, version, t);
    let key = crate::timelapse::cleanup::latest_first();
    let f = lib.trips.filter(p);
    let s = crate::sort::sort_by(f, key);
    crate::laws::seqs::lemma_filter(lib.trips, p);
    crate::laws::seqs::lemma_sorted(f, key);
    let r = crate::timelapse::cleanup::gps_trips(lib, gps, version);
    assert forall|i: int| 0 <= i < s.len() implies (#[trigger] s[i]).id == r[i]
        && lib.trips.contains(s[i]) by {
        assert(f.contains(s[i]));
        let m = choose|m: int| 0 <= m < f.len() && f[m] == s[i];
        assert(lib.trips.contains(f[m]));
    }
    assert forall|i: int, j: int| 0 <= i <= j < s.len() implies (#[trigger] s[i]).start_time_ms >= (
    #[trigger] s[j]).start_time_ms by {
        assert(key(s[i]) <= key(s[j]));
    }
    assert(s.len() == r.len());
}

} // verus!
