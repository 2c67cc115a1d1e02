//! What goes with a deleted trip, and what a start of the program does.

use crate::app_settings::AppSettings;
use crate::db::rows::{JobView, LibraryView, ScanRunView, SegmentView, TagView, TripView};
use crate::db::settings::{SettingRow, SettingsTable};
use crate::startup::{TaskChange, TaskStatus, TaskView};
use crate::trips::commands::{SegmentPaths, TrashOutcome};
use vstd::prelude::*;

verus! {

/// The segment is one of the trip.
pub open spec fn is_of_trip(segments: Seq<SegmentView>, trip: Seq<char>, id: Seq<char>) -> bool {
    exists|i: int|
        0 <= i < segments.len() && (#[trigger] segments[i]).id == id && segments[i].trip_id == trip
}

/// Of a deleted trip nothing is left: not its row, its segments, its jobs, the tags on
/// it or on its segments, nor the scan results of its segments. Everything else stays.
pub proof fn deleting_takes_exactly_what_is_the_trips(lib: LibraryView, trip: Seq<char>)
    ensures
        ({
            let r = crate::trips::commands::purged(lib, trip);
            &&& forall|i: int|
                0 <= i < lib.trips.len() ==> (r.trips.contains(#[trigger] lib.trips[i])
                    <==> lib.trips[i].id != trip)
            &&& forall|i: int|
                0 <= i < lib.segments.len() ==> (r.segments.contains(#[trigger] lib.segments[i])
                    <==> lib.segments[i].trip_id != trip)
            &&& forall|i: int|
                0 <= i < lib.jobs.len() ==> (r.jobs.contains(#[trigger] lib.jobs[i])
                    <==> lib.jobs[i].trip_id != trip)
            &&& forall|i: int|
                0 <= i < lib.tags.len() ==> (r.tags.contains(#[trigger] lib.tags[i]) <==> !(
                lib.tags[i].trip_id == Some(trip) || (lib.tags[i].segment_id matches Some(s)
                    && is_of_trip(lib.segments, trip, s))))
            &&& forall|i: int|
                0 <= i < lib.scan_runs.len() ==> (r.scan_runs.contains(#[trigger] lib.scan_runs[i])
                    <==> !is_of_trip(lib.segments, trip, lib.scan_runs[i].segment_id))
        }),
{
    let w = seq![trip];
    let r = crate::trips::commands::purged(lib, w[0]);
    let pt = |t: TripView| t.id != w[0];
    let ps = |s: SegmentView| s.trip_id != w[0];
    let pj = |j: JobView| j.trip_id != w[0];
    let pg = |t: TagView| !crate::trips::commands::is_tag_of(lib.segments, w[0], t);
    let pr = |x: ScanRunView|
        !crate::trips::commands::is_segment_of(lib.segments, w[0], x.segment_id);
    crate::laws::seqs::lemma_filter(lib.trips, pt);
    crate::laws::seqs::lemma_filter(lib.segments, ps);
    crate::laws::seqs::lemma_filter(lib.jobs, pj);
    crate::laws::seqs::lemma_filter(lib.tags, pg);
    crate::laws::seqs::lemma_filter(lib.scan_runs, pr);
    assert(r.trips == lib.trips.filter(pt));
    assert(r.segments == lib.segments.filter(ps));
    assert(r.jobs == lib.jobs.filter(pj));
    assert(r.tags == lib.tags.filter(pg));
    assert(r.scan_runs == lib.scan_runs.filter(pr));
    assert(forall|id: Seq<char>| #[trigger]
        is_of_trip(lib.segments, trip, id) == crate::trips::commands::is_segment_of(
            lib.segments,
            trip,
            id,
        ));
    assert forall|i: int| 0 <= i < lib.trips.len() implies (r.trips.contains(
        #[trigger] lib.trips[i],
    ) <==> lib.trips[i].id != trip) by {
        if r.trips.contains(lib.trips[i]) {
            let k = choose|k: int| 0 <= k < r.trips.len() && r.trips[k] == lib.trips[i];
            assert(pt(r.trips[k]));
        }
    }
    assert forall|i: int| 0 <= i < lib.segments.len() implies (r.segments.contains(
        #[trigger] lib.segments[i],
    ) <==> lib.segments[i].trip_id != trip) by {
        if r.segments.contains(lib.segments[i]) {
            let k = choose|k: int| 0 <= k < r.segments.len() && r.segments[k] == lib.segments[i];
            assert(ps(r.segments[k]));
        }
    }
    assert forall|i: int| 0 <= i < lib.jobs.len() implies (r.jobs.contains(#[trigger] lib.jobs[i])
        <==> lib.jobs[i].trip_id != trip) by {
        if r.jobs.contains(lib.jobs[i]) {
            let k = choose|k: int| 0 <= k < r.jobs.len() && r.jobs[k] == lib.jobs[i];
            assert(pj(r.jobs[k]));
        }
    }
    assert forall|i: int| 0 <= i < lib.tags.len() implies (r.tags.contains(#[trigger] lib.tags[i])
        <==> !(lib.tags[i].trip_id == Some(trip) || (lib.tags[i].segment_id matches Some(s)
        && is_of_trip(lib.segments, trip, s)))) by {
        if r.tags.contains(lib.tags[i]) {
            let k = choose|k: int| 0 <= k < r.tags.len() && r.tags[k] == lib.tags[i];
            assert(pg(r.tags[k]));
        } else {
            assert(!pg(lib.tags[i]));
        }
    }
    assert forall|i: int| 0 <= i < lib.scan_runs.len() implies (r.scan_runs.contains(
        #[trigger] lib.scan_runs[i],
    ) <==> !is_of_trip(lib.segments, trip, lib.scan_runs[i].segment_id)) by {
        if r.scan_runs.contains(lib.scan_runs[i]) {
            let k = choose|k: int| 0 <= k < r.scan_runs.len() && r.scan_runs[k] == lib.scan_runs[i];
            assert(pr(r.scan_runs[k]));
        } else {
            assert(!pr(lib.scan_runs[i]));
        }
    }
}

/// The files of a segment are those of the first entry for it; without an entry it is
/// the main file in the archive.
pub proof fn segments_have_their_known_files(
    s: SegmentView,
    known: Seq<SegmentPaths>,
    root: Seq<char>,
    i: int,
)
    requires
        0 <= i <= known.len(),
        forall|j: int| 0 <= j < i ==> (#[trigger] known[j]).segment_id@ != s.id,
        i < known.len() ==> known[i].segment_id@ == s.id,
    ensures
        crate::trips::commands::files_of_segment(s, known, root) == if i < known.len() {
            crate::text::views(known[i].paths@)
        } else {
            seq![crate::paths::path_join(root, s.master_path)]
        },
{
    let w = seq![s.id];
    let p = |k: SegmentPaths| k.segment_id@ == w[0];
    crate::db::table::lemma_first_index(known, p, 0);
    let at = crate::db::table::first_index(known, p, 0);
    assert(crate::trips::commands::known_paths(known, w[0]) == crate::trips::commands::known_paths(
        known,
        s.id,
    ));
    if at < known.len() {
        assert(p(known[at]));
    }
    if i < known.len() {
        assert(p(known[i]));
    }
    assert(at == i);
}

/// The files of a trip's segments are those of each segment of the trip, and no other.
pub proof fn trips_have_the_files_of_their_segments(
    segments: Seq<SegmentView>,
    trip: Seq<char>,
    known: Seq<SegmentPaths>,
    root: Seq<char>,
    n: int,
    x: Seq<char>,
)
    requires
        0 <= n <= segments.len(),
    ensures
        crate::trips::commands::segment_files(segments, trip, known, root, n).contains(x)
            <==> exists|i: int|
            0 <= i < n && (#[trigger] segments[i]).trip_id == trip
                && crate::trips::commands::files_of_segment(segments[i], known, root).contains(x),
    decreases n,
{
    if n > 0 {
        trips_have_the_files_of_their_segments(segments, trip, known, root, n - 1, x);
        let before = crate::trips::commands::segment_files(segments, trip, known, root, n - 1);
        let all = crate::trips::commands::segment_files(segments, trip, known, root, n);
        let own = crate::trips::commands::files_of_segment(segments[n - 1], known, root);
        if before.contains(x) {
            let k = choose|k: int| 0 <= k < before.len() && before[k] == x;
            assert(all[k] == x);
        }
        if segments[n - 1].trip_id == trip && own.contains(x) {
            let k = choose|k: int| 0 <= k < own.len() && own[k] == x;
            assert(all[before.len() + k] == x);
        }
        if all.contains(x) && !before.contains(x) {
            let k = choose|k: int| 0 <= k < all.len() && all[k] == x;
            if k < before.len() {
                assert(before[k] == x);
            }
            assert(own[k - before.len()] == x);
            assert(segments[n - 1].trip_id == trip);
        }
    }
}

/// The timelapses of a trip are the outputs of its jobs in the archive, and no other.
pub proof fn trips_have_the_outputs_of_their_jobs(
    jobs: Seq<JobView>,
    trip: Seq<char>,
    root: Seq<char>,
    x: Seq<char>,
)
    ensures
        crate::trips::commands::timelapse_files(jobs, trip, root).contains(x) <==> exists|i: int|
            0 <= i < jobs.len() && (#[trigger] jobs[i]).trip_id == trip && jobs[i].output_path
                is Some && x == crate::paths::path_join(root, jobs[i].output_path->0),
{
    let w = seq![trip];
    let f = |j: JobView|
        if j.trip_id == w[0] {
            match j.output_path {
                Some(p) => Some(crate::paths::path_join(root, p)),
                None => None,
            }
        } else {
            None
        };
    let r = crate::trips::commands::timelapse_files(jobs, w[0], root);
    assert(r == jobs.filter_map(f));
    crate::laws::seqs::lemma_filter_map(jobs, f);
    if r.contains(x) {
        let k = choose|k: int| 0 <= k < r.len() && r[k] == x;
        let i = choose|i: int| 0 <= i < jobs.len() && f(#[trigger] jobs[i]) == Some(r[k]);
        assert(jobs[i].trip_id == trip);
    }
    if exists|i: int|
        0 <= i < jobs.len() && (#[trigger] jobs[i]).trip_id == trip && jobs[i].output_path is Some
            && x == crate::paths::path_join(root, jobs[i].output_path->0) {
        let i = choose|i: int|
            0 <= i < jobs.len() && (#[trigger] jobs[i]).trip_id == trip && jobs[i].output_path
                is Some && x == crate::paths::path_join(root, jobs[i].output_path->0);
        assert(f(jobs[i]) == Some(x));
    }
}

/// One more file is counted where it was moved to the trash, and is a failure, with its
/// own path and reason, where it could not be; a file that was gone already is neither.
pub proof fn trashings_are_counted(
    paths: Seq<Seq<char>>,
    o: Seq<TrashOutcome>,
    x: TrashOutcome,
)
    ensures
        crate::trips::commands::trashed(o.push(x)) - crate::trips::commands::trashed(o) == if x
            is Trashed {
            1int
        } else {
            0
        },
        crate::trips::commands::failures(paths, o.push(x)) == match x {
            TrashOutcome::Failed(m) => crate::trips::commands::failures(paths, o).push(
                (paths[o.len() as int], m@),
            ),
            _ => crate::trips::commands::failures(paths, o),
        },
        crate::trips::commands::trashed(Seq::empty()) == 0,
        crate::trips::commands::failures(paths, Seq::empty()).len() == 0,
{
    assert(o.push(x).drop_last() =~= o);
}

// -------------------------------------------------------------------- settings

/// What the table has for a key is what its last row for the key says.
pub proof fn settings_are_those_of_the_last_row(rows: Seq<SettingRow>, i: int)
    requires
        0 <= i < rows.len(),
        forall|j: int| i < j < rows.len() ==> (#[trigger] rows[j]).key@ != rows[i].key@,
    ensures
        crate::db::settings::entries_of(rows).contains_key(rows[i].key@),
        crate::db::settings::entries_of(rows)[rows[i].key@].value == rows[i].value@,
        crate::db::settings::entries_of(rows)[rows[i].key@].updated_at_ms == rows[i].updated_at_ms,
    decreases rows.len(),
{
    let u = rows.drop_last();
    if i < u.len() {
        assert(u[i] == rows[i]);
        assert forall|j: int| i < j < u.len() implies (#[trigger] u[j]).key@ != u[i].key@ by {
            assert(u[j] == rows[j]);
        }
        settings_are_those_of_the_last_row(u, i);
        assert(rows[rows.len() - 1].key@ != rows[i].key@);
    }
}

/// What was not set is taken from the table, each setting from the row of its own name;
/// what the table does not have stays unset.
pub proof fn unset_settings_are_taken_over(
    before: AppSettings,
    t: SettingsTable,
    after: AppSettings,
)
    requires
        crate::app_settings::is_migrated(before, t, after),
        before.schema_version < 1,
    ensures
        after.schema_version == 1,
        before.ffmpeg_path is None ==> match after.ffmpeg_path {
            Some(p) => t.entries().contains_key("ffmpeg_path"@)
                && t.entries()["ffmpeg_path"@].value == p@,
            None => !t.entries().contains_key("ffmpeg_path"@),
        },
        before.ffmpeg_version is None ==> match after.ffmpeg_version {
            Some(p) => t.entries().contains_key("ffmpeg_version"@)
                && t.entries()["ffmpeg_version"@].value == p@,
            None => !t.entries().contains_key("ffmpeg_version"@),
        },
        before.nvenc_hevc is None ==> match after.nvenc_hevc {
            Some(on) => t.entries().contains_key("nvenc_hevc"@) && (on
                <==> t.entries()["nvenc_hevc"@].value == "1"@
                || t.entries()["nvenc_hevc"@].value == "true"@),
            None => !t.entries().contains_key("nvenc_hevc"@),
        },
        before.timelapse_max_concurrent_jobs is None ==> match after.timelapse_max_concurrent_jobs {
            Some(n) => t.entries().contains_key("timelapse_max_concurrent_jobs"@)
                && crate::text::unsigned_value(
                t.entries()["timelapse_max_concurrent_jobs"@].value,
                u32::MAX as nat,
            ) == Some(n as nat),
            None => t.entries().contains_key("timelapse_max_concurrent_jobs"@)
                ==> crate::text::unsigned_value(
                t.entries()["timelapse_max_concurrent_jobs"@].value,
                u32::MAX as nat,
            ) is None,
        },
        after.recent_archives == before.recent_archives,
        after.last_archive == before.last_archive,
        after.cross_os_migrated_archives == before.cross_os_migrated_archives,
{
}

// --------------------------------------------------------------------- startup

/// The task has the identifier and its number of steps, and waits.
pub open spec fn is_waiting(t: TaskView, id: Seq<char>, total: Option<usize>) -> bool {
    t.id == id && t.total == total && t.current == 0 && t.status == TaskStatus::Pending
}

/// A start has a task for interrupted jobs, one for positions and one for an archive
/// that is new to the system, each exactly where there is something to do, in this
/// order, with as many steps as there are things to do.
pub proof fn starts_do_what_there_is_to_do(stale: usize, gps: usize, cross_os: bool)
    ensures
        ({
            let t = crate::startup::planned_tasks(stale, gps, cross_os);
            let a: int = if stale > 0 {
                1
            } else {
                0
            };
            let b: int = if gps > 0 {
                1
            } else {
                0
            };
            let c: int = if cross_os {
                1
            } else {
                0
            };
            &&& t.len() == a + b + c
            &&& stale > 0 ==> is_waiting(t[0], "cleanup_stale_jobs"@, Some(stale)) && t[0].label
                == "Recovering interrupted renders"@
            &&& gps > 0 ==> is_waiting(t[a], "gps_backfill"@, Some(gps)) && t[a].label
                == "Backing up GPS data"@
            &&& cross_os ==> is_waiting(t[a + b], "cross_os_rebuild"@, None) && t[a + b].label
                == "Adapting archive to this OS"@
        }),
{
}

/// A change of a task changes what it says, and nothing else.
pub proof fn changes_of_tasks_are_single(t: TaskView, s: TaskStatus, n: usize)
    ensures
        ({
            let a = crate::startup::changed(t, TaskChange::Status(s));
            let b = crate::startup::changed(t, TaskChange::Total(n));
            let c = crate::startup::changed(t, TaskChange::Current(n));
            &&& a.status == s && a.total == t.total && a.current == t.current
            &&& b.total == Some(n) && b.status == t.status && b.current == t.current
            &&& c.current == n && c.status == t.status && c.total == t.total
            &&& a.id == t.id && b.id == t.id && c.id == t.id
            &&& a.label == t.label && b.label == t.label && c.label == t.label
            &&& a.description == t.description && b.description == t.description
                && c.description == t.description
        }),
{
}

/// The task that is changed is the first with the identifier.
pub proof fn tasks_are_found_by_their_identifier(tasks: Seq<TaskView>, id: Seq<char>)
    ensures
        ({
            let at = crate::startup::task_at(tasks, id);
            &&& 0 <= at <= tasks.len()
            &&& at < tasks.len() ==> tasks[at].id == id
            &&& forall|j: int| 0 <= j < at ==> (#[trigger] tasks[j]).id != id
        }),
{
    let w = seq![id];
    let p = |t: TaskView| t.id == w[0];
    crate::db::table::lemma_first_index(tasks, p, 0);
    let at = crate::startup::task_at(tasks, w[0]);
    assert(at == crate::db::table::first_index(tasks, p, 0));
    if at < tasks.len() {
        assert(p(tasks[at]));
    }
    assert forall|j: int| 0 <= j < at implies (#[trigger] tasks[j]).id != id by {
        assert(!p(tasks[j]));
    }
}

/// The entry of the crash log tells the time, the thread, the place, the message and
/// the backtrace, in this order.
pub proof fn crashes_are_told(
    timestamp: Seq<char>,
    thread: Seq<char>,
    location: Seq<char>,
    message: Seq<char>,
    backtrace: Seq<char>,
)
    ensures
        crate::startup::crash_entry(
            timestamp,
            Some(thread),
            Some(location),
            Some(message),
            backtrace,
        ) == "----\n["@ + timestamp + "] thread '"@ + thread + "' panicked at "@ + location
            + ":\n"@ + message + "\n\nBacktrace:\n"@ + backtrace + "\n"@,
{
}

// ------------------------------------------------------------------ migrations

/// The database of an archive lies in a hidden directory of the archive.
pub proof fn databases_lie_in_their_archive(root: Seq<char>)
    ensures
        crate::migration_v2::database_path(root) == crate::paths::path_join(
            crate::paths::path_join(root, ".tripviewer"@),
            "tripviewer.db"@,
        ),
{
}

/// The name that is kept of a path is what stands behind its last separator.
pub proof fn names_stand_behind_the_last_separator(p: Seq<char>)
    ensures
        ({
            let n = crate::db::migrations::last_name(p);
            let k = p.len() - n.len();
            &&& 0 <= k
            &&& p.skip(k) == n
            &&& forall|i: int| 0 <= i < n.len() ==> #[trigger] n[i] != '/'
            &&& k > 0 ==> p[k - 1] == '/'
        }),
    decreases p.len(),
{
    let n = crate::db::migrations::last_name(p);
    if p.len() > 0 && p.last() != '/' {
        let u = p.drop_last();
        names_stand_behind_the_last_separator(u);
        let m = crate::db::migrations::last_name(u);
        assert(n == m.push(p.last()));
        let k = p.len() - n.len();
        assert(k == u.len() - m.len());
        lemma_skip_push(p, m, k);
        assert forall|i: int| 0 <= i < n.len() implies #[trigger] n[i] != '/' by {
            if i < m.len() {
                assert(n[i] == m[i]);
            }
        }
        if k > 0 {
            assert(u[k - 1] == p[k - 1]);
        }
    } else {
        assert(n == Seq::<char>::empty());
        assert(p.skip(p.len() as int) == Seq::<char>::empty());
    }
}

proof fn lemma_skip_push(p: Seq<char>, m: Seq<char>, k: int)
    requires
        p.len() > 0,
        0 <= k <= p.len() - 1,
        p.drop_last().skip(k) == m,
    ensures
        p.skip(k) == m.push(p.last()),
{
    let a = p.skip(k);
    let b = m.push(p.last());
    assert(a.len() == b.len());
    assert forall|i: int| 0 <= i < a.len() implies a[i] == b[i] by {
        if i < m.len() {
            assert(p.drop_last().skip(k)[i] == p.drop_last()[k + i]);
        }
    }
    assert(a =~= b);
}

/// A row gets its output in the directory of the timelapses, and is otherwise as it is.
pub proof fn outputs_move_into_the_archive(r: JobView)
    ensures
        ({
            let f = crate::db::migrations::with_relative_output(r);
            &&& f == (JobView { output_path: f.output_path, ..r })
            &&& f.output_path is Some <==> r.output_path is Some
            &&& r.output_path is Some ==> f.output_path->0 == "Timelapses/"@
                + crate::db::migrations::last_name(crate::paths::slashed(r.output_path->0))
        }),
{
}

} // verus!
