//! What the coverage of trips by scans counts.

use crate::db::rows::{LibraryView, ScanRunView, SegmentView};
use crate::scans::coverage::{CountedView, ScanInfo};
use vstd::prelude::*;

verus! {

/// A run counts on a segment: it is a run on it, the segment is no tombstone, and no
/// segment of this identifier has lost its file.
pub open spec fn counts_on(
    lib: LibraryView,
    root: Seq<char>,
    present: Seq<Seq<char>>,
    s: int,
    r: int,
) -> bool {
    &&& 0 <= s < lib.segments.len() && 0 <= r < lib.scan_runs.len()
    &&& lib.scan_runs[r].segment_id == lib.segments[s].id
    &&& !lib.segments[s].is_tombstone
    &&& forall|i: int|
        0 <= i < lib.segments.len() && (#[trigger] lib.segments[i]).id == lib.segments[s].id
            && !lib.segments[i].is_tombstone ==> present.contains(
            crate::paths::path_join(root, lib.segments[i].master_path),
        )
}

/// What is counted is the run, for the trip of the segment.
pub open spec fn is_count_of(c: CountedView, lib: LibraryView, s: int, r: int) -> bool {
    &&& c.trip_id == lib.segments[s].trip_id
    &&& c.scan_id == lib.scan_runs[r].scan_id
    &&& c.version == lib.scan_runs[r].version
    &&& c.error_message == lib.scan_runs[r].error_message
    &&& c.ok <==> lib.scan_runs[r].status == seq!['o', 'k']
}

/// What is counted is a run that counts on one of the first `n` segments.
pub open spec fn is_count_on_one(
    c: CountedView,
    lib: LibraryView,
    root: Seq<char>,
    present: Seq<Seq<char>>,
    n: int,
) -> bool {
    exists|s: int, r: int|
        0 <= s < n && #[trigger] counts_on(lib, root, present, s, r) && is_count_of(c, lib, s, r)
}

/// The run on the segment is counted.
pub open spec fn is_counted(c: Seq<CountedView>, lib: LibraryView, s: int, r: int) -> bool {
    exists|k: int| 0 <= k < c.len() && is_count_of(#[trigger] c[k], lib, s, r)
}

proof fn lemma_missing(lib: LibraryView, root: Seq<char>, present: Seq<Seq<char>>, s: int, r: int)
    requires
        0 <= s < lib.segments.len(),
        0 <= r < lib.scan_runs.len(),
        lib.scan_runs[r].segment_id == lib.segments[s].id,
    ensures
        counts_on(lib, root, present, s, r) <==> !lib.segments[s].is_tombstone
            && !crate::scans::coverage::is_missing(
            lib.segments,
            root,
            present,
            lib.segments[s].id,
        ),
{
    let id = lib.segments[s].id;
    if crate::scans::coverage::is_missing(lib.segments, root, present, id) {
        let i = choose|i: int|
            0 <= i < lib.segments.len() && (#[trigger] lib.segments[i]).id == id
                && crate::scans::coverage::is_gone(lib.segments[i], root, present);
        assert(lib.segments[i].id == id);
    } else {
        assert forall|i: int|
            0 <= i < lib.segments.len() && (#[trigger] lib.segments[i]).id == id
                && !lib.segments[i].is_tombstone implies present.contains(
            crate::paths::path_join(root, lib.segments[i].master_path),
        ) by {
            assert(!crate::scans::coverage::is_gone(lib.segments[i], root, present));
        }
    }
}

/// Every run that counts on a segment is counted, and nothing else is.
pub proof fn runs_count_on_their_segments(
    lib: LibraryView,
    root: Seq<char>,
    present: Seq<Seq<char>>,
    n: int,
)
    requires
        0 <= n <= lib.segments.len(),
    ensures
        ({
            let c = crate::scans::coverage::runs_that_count(lib, root, present, n);
            &&& forall|k: int|
                0 <= k < c.len() ==> is_count_on_one(#[trigger] c[k], lib, root, present, n)
            &&& forall|s: int, r: int|
                0 <= s < n && #[trigger] counts_on(lib, root, present, s, r) ==> is_counted(
                    c,
                    lib,
                    s,
                    r,
                )
        }),
    decreases n,
{
    reveal_strlit("ok");
    assert("ok"@ =~= seq!['o', 'k']);
    if n > 0 {
        runs_count_on_their_segments(lib, root, present, n - 1);
        let seg = lib.segments[n - 1];
        let c = crate::scans::coverage::runs_that_count(lib, root, present, n);
        let before = crate::scans::coverage::runs_that_count(lib, root, present, n - 1);
        let p = |r: ScanRunView| r.segment_id == seg.id;
        let f = lib.scan_runs.filter(p);
        let own = crate::scans::coverage::runs_on(seg, lib.scan_runs);
        crate::laws::seqs::lemma_filter(lib.scan_runs, p);
        assert(own.len() == f.len());
        assert forall|k: int| 0 <= k < c.len() implies is_count_on_one(
            #[trigger] c[k],
            lib,
            root,
            present,
            n,
        ) by {
            if k < before.len() {
                assert(c[k] == before[k]);
                assert(is_count_on_one(before[k], lib, root, present, n - 1));
                let (s, r) = choose|s: int, r: int|
                    0 <= s < n - 1 && #[trigger] counts_on(lib, root, present, s, r)
                        && is_count_of(before[k], lib, s, r);
                assert(counts_on(lib, root, present, s, r));
            } else {
                let m = k - before.len();
                assert(c[k] == own[m]);
                assert(lib.scan_runs.contains(f[m]) && p(f[m]));
                let r = choose|r: int| 0 <= r < lib.scan_runs.len() && lib.scan_runs[r] == f[m];
                lemma_missing(lib, root, present, n - 1, r);
                assert(counts_on(lib, root, present, n - 1, r));
                assert(is_count_of(c[k], lib, n - 1, r));
            }
        }
        assert forall|s: int, r: int|
            0 <= s < n && #[trigger] counts_on(lib, root, present, s, r) implies is_counted(
            c,
            lib,
            s,
            r,
        ) by {
            if s < n - 1 {
                assert(is_counted(before, lib, s, r));
                let k = choose|k: int|
                    0 <= k < before.len() && is_count_of(#[trigger] before[k], lib, s, r);
                assert(c[k] == before[k]);
            } else {
                lemma_missing(lib, root, present, s, r);
                assert(p(lib.scan_runs[r]));
                let m = choose|m: int| 0 <= m < f.len() && f[m] == lib.scan_runs[r];
                assert(own[m] == crate::scans::coverage::counted(seg, f[m]));
                assert(c[before.len() + m] == own[m]);
                assert(is_count_of(c[before.len() + m], lib, s, r));
            }
        }
    }
}

/// One more run adds one to exactly one of the counts: to what is done where it
/// succeeded at the current version or a later one, to what is stale where it
/// succeeded at an older one, and to what failed otherwise.
pub proof fn runs_are_done_stale_or_failed(
    total: int,
    runs: Seq<CountedView>,
    c: CountedView,
    scan: Seq<char>,
    current: u32,
)
    ensures
        ({
            let a = crate::scans::coverage::coverage_of(total, runs, scan, current);
            let b = crate::scans::coverage::coverage_of(total, runs.push(c), scan, current);
            let none = crate::scans::coverage::coverage_of(total, Seq::empty(), scan, current);
            &&& none.done_count == 0 && none.stale_count == 0 && none.failed_count == 0
            &&& a.scan_id == scan && a.total_segments == total
            &&& b.done_count - a.done_count == if c.ok && c.version >= current {
                1int
            } else {
                0
            }
            &&& b.stale_count - a.stale_count == if c.ok && c.version < current {
                1int
            } else {
                0
            }
            &&& b.failed_count - a.failed_count == if c.ok {
                0int
            } else {
                1
            }
        }),
{
    reveal(Seq::filter);
    assert(runs.push(c).drop_last() =~= runs);
    assert(runs.push(c).last() == c);
}

/// The runs that are counted for a scan and a trip are those of this scan on this trip.
pub proof fn runs_are_counted_by_trip_and_scan(
    runs: Seq<CountedView>,
    trip: Seq<char>,
    scan: Seq<char>,
)
    ensures
        ({
            let r = crate::scans::coverage::runs_of(runs, trip, scan);
            &&& forall|i: int|
                0 <= i < r.len() ==> runs.contains(#[trigger] r[i]) && r[i].trip_id == trip
                    && r[i].scan_id == scan
            &&& forall|i: int|
                0 <= i < runs.len() && (#[trigger] runs[i]).trip_id == trip && runs[i].scan_id
                    == scan ==> r.contains(runs[i])
        }),
{
    let p = |c: CountedView| crate::scans::coverage::is_of(c, trip, scan);
    crate::laws::seqs::lemma_filter(runs, p);
    assert forall|i: int|
        0 <= i < runs.len() && (#[trigger] runs[i]).trip_id == trip && runs[i].scan_id
            == scan implies crate::scans::coverage::runs_of(runs, trip, scan).contains(runs[i]) by {
        assert(p(runs[i]));
    }
}

/// The samples are messages of failed runs, at most three; while there are fewer, every
/// message of a failed run is among them.
pub proof fn samples_are_messages_of_failures(runs: Seq<CountedView>)
    ensures
        ({
            let s = crate::scans::coverage::samples(runs);
            &&& s.len() <= 3
            &&& s.no_duplicates()
            &&& forall|i: int|
                0 <= i < s.len() ==> exists|k: int|
                    0 <= k < runs.len() && !(#[trigger] runs[k]).ok && runs[k].error_message
                        == Some(#[trigger] s[i])
            &&& s.len() < 3 ==> forall|k: int|
                0 <= k < runs.len() && !(#[trigger] runs[k]).ok && runs[k].error_message is Some
                    ==> s.contains(runs[k].error_message->0)
        }),
    decreases runs.len(),
{
    if runs.len() > 0 {
        let u = runs.drop_last();
        samples_are_messages_of_failures(u);
        let before = crate::scans::coverage::samples(u);
        let s = crate::scans::coverage::samples(runs);
        assert(runs[runs.len() - 1] == runs.last());
        assert forall|i: int| 0 <= i < s.len() implies exists|k: int|
            0 <= k < runs.len() && !(#[trigger] runs[k]).ok && runs[k].error_message == Some(
                #[trigger] s[i],
            ) by {
            if i < before.len() {
                assert(s[i] == before[i]);
                let k = choose|k: int|
                    0 <= k < u.len() && !(#[trigger] u[k]).ok && u[k].error_message == Some(
                        before[i],
                    );
                assert(runs[k] == u[k]);
            } else {
                assert(!runs[runs.len() - 1].ok);
            }
        }
        if s.len() < 3 {
            assert forall|k: int|
                0 <= k < runs.len() && !(#[trigger] runs[k]).ok && runs[k].error_message
                    is Some implies s.contains(runs[k].error_message->0) by {
                if k < u.len() {
                    assert(u[k] == runs[k]);
                    let m = choose|m: int|
                        0 <= m < before.len() && before[m] == u[k].error_message->0;
                    assert(s[m] == before[m]);
                } else {
                    let x = runs.last().error_message->0;
                    if before.contains(x) {
                        let m = choose|m: int| 0 <= m < before.len() && before[m] == x;
                        assert(s[m] == x);
                    } else {
                        assert(s[s.len() - 1] == x);
                    }
                }
            }
        }
    }
}

/// A scan without an entry has the version nought.
pub proof fn unknown_scans_have_no_version(registry: Seq<ScanInfo>, id: Seq<char>)
    requires
        forall|k: int| 0 <= k < registry.len() ==> (#[trigger] registry[k]).id@ != id,
    ensures
        crate::scans::coverage::current_version(registry, id) == 0,
    decreases registry.len(),
{
    if registry.len() > 0 {
        let u = registry.drop_last();
        assert forall|k: int| 0 <= k < u.len() implies (#[trigger] u[k]).id@ != id by {
            assert(u[k] == registry[k]);
        }
        unknown_scans_have_no_version(u, id);
        assert(registry[registry.len() - 1].id@ != id);
    }
}

/// The current version of a scan is the one that its last entry states.
pub proof fn versions_are_those_of_the_last_entry(registry: Seq<ScanInfo>, id: Seq<char>, i: int)
    requires
        0 <= i < registry.len(),
        registry[i].id@ == id,
        forall|k: int| i < k < registry.len() ==> (#[trigger] registry[k]).id@ != id,
    ensures
        crate::scans::coverage::current_version(registry, id) == registry[i].version,
    decreases registry.len(),
{
    let u = registry.drop_last();
    if i < u.len() {
        assert(u[i] == registry[i]);
        assert forall|k: int| i < k < u.len() implies (#[trigger] u[k]).id@ != id by {
            assert(u[k] == registry[k]);
        }
        assert(registry[registry.len() - 1].id@ != id);
        versions_are_those_of_the_last_entry(u, id, i);
    }
}

/// A trip has one more segment to cover for each of its segments whose file is there
/// and that is no tombstone.
pub proof fn totals_count_the_files_there(
    segments: Seq<SegmentView>,
    s: SegmentView,
    root: Seq<char>,
    present: Seq<Seq<char>>,
    trip: Seq<char>,
)
    ensures
        crate::scans::coverage::total_of(segments.push(s), root, present, trip)
            - crate::scans::coverage::total_of(segments, root, present, trip) == if s.trip_id
            == trip && !s.is_tombstone && present.contains(
            crate::paths::path_join(root, s.master_path),
        ) {
            1int
        } else {
            0
        },
        crate::scans::coverage::total_of(Seq::empty(), root, present, trip) == 0,
{
    reveal(Seq::filter);
    assert(segments.push(s).drop_last() =~= segments);
    assert(segments.push(s).last() == s);
}

/// The trips that are listed are those with a segment whose file is there, each once, in
/// the order of their identifiers.
pub proof fn trips_with_files_are_listed_in_order(
    ids: Seq<Seq<char>>,
    segments: Seq<SegmentView>,
    root: Seq<char>,
    present: Seq<Seq<char>>,
    i: int,
    j: int,
)
    requires
        crate::scans::coverage::are_trips_with_files(ids, segments, root, present),
        0 <= i < j < ids.len(),
    ensures
        crate::text::lex_lt(ids[i], ids[j]),
        ids[i] != ids[j],
        crate::scans::coverage::total_of(segments, root, present, ids[i]) > 0,
{
    crate::text::lemma_lex_irreflexive(ids[i]);
    assert(ids.contains(ids[i]));
}

/// Every known scan has its coverage of the trip, in the order of the scans, from the
/// runs of this scan on this trip.
pub proof fn every_scan_has_its_coverage(
    total: int,
    runs: Seq<CountedView>,
    trip: Seq<char>,
    registry: Seq<ScanInfo>,
    i: int,
)
    requires
        0 <= i < registry.len(),
    ensures
        ({
            let c = crate::scans::coverage::trip_coverage(total, runs, trip, registry);
            &&& c.len() == registry.len()
            &&& c[i].scan_id == registry[i].id@
            &&& c[i].total_segments == total
            &&& c[i] == crate::scans::coverage::coverage_of(
                total,
                crate::scans::coverage::runs_of(runs, trip, registry[i].id@),
                registry[i].id@,
                crate::scans::coverage::current_version(registry, registry[i].id@),
            )
        }),
{
}

} // verus!
