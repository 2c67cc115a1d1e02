//! How much of each trip the scans have covered.

use crate::db::rows::{Library, LibraryView, ScanRunView, SegmentRow, SegmentView};
use crate::db::table::{contains_string, insert_ordered};
use crate::paths::from_archive_relative;
use crate::text::{owned, same_str};
use vstd::prelude::*;

verus! {

/// A scan that the program knows, in its current version.
#[derive(Debug)]
pub struct ScanInfo {
    pub id: String,
    pub version: u32,
}

/// How much of a trip a scan has covered.
#[derive(Debug)]
pub struct ScanCoverage {
    pub scan_id: String,
    pub total_segments: u64,
    pub done_count: u64,
    pub stale_count: u64,
    pub failed_count: u64,
    pub not_run_count: u64,
    pub sample_failures: Vec<String>,
}

/// How much of a trip a scan has covered, with texts as sequences of
/// characters.
#[verifier::ext_equal]
pub struct CoverageView {
    pub scan_id: Seq<char>,
    pub total_segments: int,
    pub done_count: int,
    pub stale_count: int,
    pub failed_count: int,
    pub not_run_count: int,
    pub sample_failures: Seq<Seq<char>>,
}

impl View for ScanCoverage {
    type V = CoverageView;

    open spec fn view(&self) -> CoverageView {
        CoverageView {
            scan_id: self.scan_id@,
            total_segments: self.total_segments as int,
            done_count: self.done_count as int,
            stale_count: self.stale_count as int,
            failed_count: self.failed_count as int,
            not_run_count: self.not_run_count as int,
            sample_failures: crate::text::views(self.sample_failures@),
        }
    }
}

/// The views of coverages.
pub open spec fn coverage_views(v: Seq<ScanCoverage>) -> Seq<CoverageView> {
    v.map_values(|c: ScanCoverage| c@)
}

/// How much of a trip all scans have covered.
#[derive(Debug)]
pub struct TripScanCoverage {
    pub trip_id: String,
    pub per_scan: Vec<ScanCoverage>,
}

/// The number of failures that are given as examples.
pub const SAMPLE_FAILURES: usize = 3;

// -------------------------------------------------------------------- presence

/// The segment should have a file, and has it.
pub open spec fn is_there(s: SegmentView, root: Seq<char>, present: Seq<Seq<char>>) -> bool {
    !s.is_tombstone && present.contains(crate::paths::path_join(root, s.master_path))
}

/// The segment should have a file, and has none.
pub open spec fn is_gone(s: SegmentView, root: Seq<char>, present: Seq<Seq<char>>) -> bool {
    !s.is_tombstone && !present.contains(crate::paths::path_join(root, s.master_path))
}

/// A segment with the identifier has lost its file.
pub open spec fn is_missing(
    segments: Seq<SegmentView>,
    root: Seq<char>,
    present: Seq<Seq<char>>,
    id: Seq<char>,
) -> bool {
    exists|i: int|
        0 <= i < segments.len() && (#[trigger] segments[i]).id == id && is_gone(
            segments[i],
            root,
            present,
        )
}

/// The number of the trip's segments that have their file.
pub open spec fn total_of(
    segments: Seq<SegmentView>,
    root: Seq<char>,
    present: Seq<Seq<char>>,
    trip: Seq<char>,
) -> int {
    segments.filter(|s: SegmentView| s.trip_id == trip && is_there(s, root, present)).len() as int
}

// ------------------------------------------------------------------------ runs

/// A run of a scan that counts: on a segment of the trip, by the scan.
#[derive(Debug)]
pub struct Counted {
    pub trip_id: String,
    pub scan_id: String,
    pub ok: bool,
    pub version: u32,
    pub error_message: Option<String>,
}

/// A run of a scan that counts, with texts as sequences of characters.
#[verifier::ext_equal]
pub struct CountedView {
    pub trip_id: Seq<char>,
    pub scan_id: Seq<char>,
    pub ok: bool,
    pub version: u32,
    pub error_message: Option<Seq<char>>,
}

impl View for Counted {
    type V = CountedView;

    open spec fn view(&self) -> CountedView {
        CountedView {
            trip_id: self.trip_id@,
            scan_id: self.scan_id@,
            ok: self.ok,
            version: self.version,
            error_message: crate::text::opt_view(self.error_message),
        }
    }
}

/// The views of runs.
pub open spec fn counted_views(v: Seq<Counted>) -> Seq<CountedView> {
    v.map_values(|c: Counted| c@)
}

/// A run on a segment. Only `ok` counts as a success.
pub open spec fn counted(s: SegmentView, r: ScanRunView) -> CountedView {
    CountedView {
        trip_id: s.trip_id,
        scan_id: r.scan_id,
        ok: r.status == "ok"@,
        version: r.version,
        error_message: r.error_message,
    }
}

/// The runs on a segment.
pub open spec fn runs_on(s: SegmentView, runs: Seq<ScanRunView>) -> Seq<CountedView> {
    runs.filter(|r: ScanRunView| r.segment_id == s.id).map_values(|r: ScanRunView| counted(s, r))
}

/// The runs on the first `n` segments. Runs on tombstones, and on segments that
/// have lost their file, do not count.
pub open spec fn runs_that_count(
    lib: LibraryView,
    root: Seq<char>,
    present: Seq<Seq<char>>,
    n: int,
) -> Seq<CountedView>
    decreases n,
{
    if n <= 0 {
        Seq::empty()
    } else if lib.segments[n - 1].is_tombstone || is_missing(
        lib.segments,
        root,
        present,
        lib.segments[n - 1].id,
    ) {
        runs_that_count(lib, root, present, n - 1)
    } else {
        runs_that_count(lib, root, present, n - 1) + runs_on(lib.segments[n - 1], lib.scan_runs)
    }
}

/// The run is one of the scan on the trip.
pub open spec fn is_of(c: CountedView, trip: Seq<char>, scan: Seq<char>) -> bool {
    c.trip_id == trip && c.scan_id == scan
}

/// The runs of a scan on a trip.
pub open spec fn runs_of(runs: Seq<CountedView>, trip: Seq<char>, scan: Seq<char>) -> Seq<
    CountedView,
> {
    runs.filter(|c: CountedView| is_of(c, trip, scan))
}

/// The different messages of failed runs, as many as are given.
pub open spec fn samples(runs: Seq<CountedView>) -> Seq<Seq<char>>
    decreases runs.len(),
{
    if runs.len() == 0 {
        Seq::empty()
    } else {
        let before = samples(runs.drop_last());
        match runs.last().error_message {
            Some(m) => if !runs.last().ok && before.len() < SAMPLE_FAILURES && !before.contains(m) {
                before.push(m)
            } else {
                before
            },
            None => before,
        }
    }
}

/// How much of a trip a scan has covered: successes of the current version,
/// successes of older ones, failures, and the rest.
pub open spec fn coverage_of(
    total: int,
    runs: Seq<CountedView>,
    scan: Seq<char>,
    current: u32,
) -> CoverageView {
    let done = runs.filter(|c: CountedView| c.ok && c.version >= current).len() as int;
    let stale = runs.filter(|c: CountedView| c.ok && c.version < current).len() as int;
    let failed = runs.filter(|c: CountedView| !c.ok).len() as int;
    let ran = done + stale + failed;
    CoverageView {
        scan_id: scan,
        total_segments: total,
        done_count: done,
        stale_count: stale,
        failed_count: failed,
        not_run_count: if ran < total {
            total - ran
        } else {
            0
        },
        sample_failures: samples(runs),
    }
}

/// The coverage of a trip by all known scans, in the order of the scans.
pub open spec fn trip_coverage(
    total: int,
    runs: Seq<CountedView>,
    trip: Seq<char>,
    registry: Seq<ScanInfo>,
) -> Seq<CoverageView> {
    registry.map_values(
        |s: ScanInfo| coverage_of(total, runs_of(runs, trip, s.id@), s.id@, current_version(registry, s.id@)),
    )
}

/// The current version of a scan: that of the last entry with its identifier.
pub open spec fn current_version(registry: Seq<ScanInfo>, id: Seq<char>) -> u32
    decreases registry.len(),
{
    if registry.len() == 0 {
        0
    } else if registry.last().id@ == id {
        registry.last().version
    } else {
        current_version(registry.drop_last(), id)
    }
}

/// The trips with files, in the order of their identifiers.
pub open spec fn are_trips_with_files(
    ids: Seq<Seq<char>>,
    segments: Seq<SegmentView>,
    root: Seq<char>,
    present: Seq<Seq<char>>,
) -> bool {
    &&& crate::db::table::is_ascending(ids)
    &&& forall|t: Seq<char>|
        #[trigger] ids.contains(t) <==> total_of(segments, root, present, t) > 0
}

fn segment_is_there(s: &SegmentRow, root: &str, present: &Vec<String>) -> (r: bool)
    ensures
        r == is_there(s@, root@, crate::text::views(present@)),
{
    if s.is_tombstone {
        return false;
    }
    let path = from_archive_relative(s.master_path.as_str(), root);
    contains_string(present, &path)
}

fn segment_is_missing(
    segments: &Vec<SegmentRow>,
    there: &Vec<bool>,
    id: &str,
    Ghost(root): Ghost<Seq<char>>,
    Ghost(present): Ghost<Seq<Seq<char>>>,
) -> (r: bool)
    requires
        there.len() == segments.len(),
        forall|i: int|
            0 <= i < segments.len() ==> #[trigger] there@[i] == is_there(
                segments@[i]@,
                root,
                present,
            ),
    ensures
        r == is_missing(crate::db::rows::segment_rows(segments@), root, present, id@),
{
    let ghost sv = crate::db::rows::segment_rows(segments@);
    let mut i: usize = 0;
    while i < segments.len()
        invariant
            i <= segments.len(),
            sv == crate::db::rows::segment_rows(segments@),
            there.len() == segments.len(),
            forall|i: int|
                0 <= i < segments.len() ==> #[trigger] there@[i] == is_there(
                    segments@[i]@,
                    root,
                    present,
                ),
            forall|j: int|
                0 <= j < i ==> !((#[trigger] sv[j]).id == id@ && is_gone(sv[j], root, present)),
        decreases segments.len() - i,
    {
        proof {
            assert(sv[i as int] == segments@[i as int]@);
            assert(there@[i as int] == is_there(sv[i as int], root, present));
        }
        if !segments[i].is_tombstone && !there[i] && same_str(segments[i].id.as_str(), id) {
            return true;
        }
        i += 1;
    }
    false
}

fn collect_runs(lib: &Library, there: &Vec<bool>, root: &str, present: &Vec<String>) -> (r: Vec<
    Counted,
>)
    requires
        there.len() == lib.segments.len(),
        forall|i: int|
            0 <= i < lib.segments.len() ==> #[trigger] there@[i] == is_there(
                lib.segments@[i]@,
                root@,
                crate::text::views(present@),
            ),
    ensures
        counted_views(r@) == runs_that_count(
            lib@,
            root@,
            crate::text::views(present@),
            lib.segments.len() as int,
        ),
{
    let ghost pv = crate::text::views(present@);
    let ghost lv = lib@;
    let mut out: Vec<Counted> = Vec::new();
    let mut i: usize = 0;
    proof {
        assert(counted_views(out@) == Seq::<CountedView>::empty());
    }
    while i < lib.segments.len()
        invariant
            i <= lib.segments.len(),
            lv == lib@,
            pv == crate::text::views(present@),
            there.len() == lib.segments.len(),
            forall|i: int|
                0 <= i < lib.segments.len() ==> #[trigger] there@[i] == is_there(
                    lib.segments@[i]@,
                    root@,
                    pv,
                ),
            counted_views(out@) == runs_that_count(lv, root@, pv, i as int),
        decreases lib.segments.len() - i,
    {
        let s = &lib.segments[i];
        proof {
            assert(lv.segments[i as int] == s@);
        }
        if !s.is_tombstone && !segment_is_missing(
            &lib.segments,
            there,
            s.id.as_str(),
            Ghost(root@),
            Ghost(pv),
        ) {
            let ghost start = counted_views(out@);
            let ghost p = |r: ScanRunView| r.segment_id == s@.id;
            let ghost f = |r: ScanRunView| counted(s@, r);
            let mut j: usize = 0;
            proof {
                reveal(Seq::filter);
                assert(lv.scan_runs.take(0).filter(p).map_values(f) == Seq::<CountedView>::empty());
                assert(start + Seq::<CountedView>::empty() == start);
            }
            while j < lib.scan_runs.len()
                invariant
                    j <= lib.scan_runs.len(),
                    lv == lib@,
                    p == (|r: ScanRunView| r.segment_id == s@.id),
                    f == (|r: ScanRunView| counted(s@, r)),
                    counted_views(out@) == start + lv.scan_runs.take(j as int).filter(
                        p,
                    ).map_values(f),
                decreases lib.scan_runs.len() - j,
            {
                let r = &lib.scan_runs[j];
                proof {
                    reveal(Seq::filter);
                    assert(lv.scan_runs[j as int] == r@);
                    assert(lv.scan_runs.take(j + 1).drop_last() == lv.scan_runs.take(j as int));
                    assert(lv.scan_runs.take(j + 1).last() == r@);
                }
                if r.segment_id == s.id {
                    let c = Counted {
                        trip_id: s.trip_id.clone(),
                        scan_id: r.scan_id.clone(),
                        ok: same_str(r.status.as_str(), "ok"),
                        version: r.version,
                        error_message: r.error_message.clone(),
                    };
                    let ghost before = out@;
                    let ghost cv = c@;
                    out.push(c);
                    proof {
                        assert(cv == counted(s@, r@));
                        let kept = lv.scan_runs.take(j as int).filter(p);
                        assert(kept.push(r@).map_values(f) == kept.map_values(f).push(cv));
                        assert(counted_views(out@) == counted_views(before).push(cv));
                        assert(counted_views(out@) == start + kept.push(r@).map_values(f));
                    }
                }
                j += 1;
            }
            proof {
                assert(lv.scan_runs.take(lv.scan_runs.len() as int) == lv.scan_runs);
            }
        }
        i += 1;
    }
    out
}

fn measure(total: u64, runs: &Vec<Counted>, trip: &str, scan: &str, current: u32) -> (r:
    ScanCoverage)
    ensures
        r@ == coverage_of(
            total as int,
            runs_of(counted_views(runs@), trip@, scan@),
            scan@,
            current,
        ),
{
    let ghost all = counted_views(runs@);
    let ghost q = |c: CountedView| is_of(c, trip@, scan@);
    let ghost p1 = |c: CountedView| c.ok && c.version >= current;
    let ghost p2 = |c: CountedView| c.ok && c.version < current;
    let ghost p3 = |c: CountedView| !c.ok;
    let mut done: usize = 0;
    let mut stale: usize = 0;
    let mut failed: usize = 0;
    let mut failures: Vec<String> = Vec::new();
    let mut i: usize = 0;
    proof {
        reveal(Seq::filter);
        assert(all.take(0).filter(q) == Seq::<CountedView>::empty());
        let none = Seq::<CountedView>::empty();
        assert(none.filter(p1).len() == 0);
        assert(none.filter(p2).len() == 0);
        assert(none.filter(p3).len() == 0);
        assert(crate::text::views(failures@) == Seq::<Seq<char>>::empty());
    }
    while i < runs.len()
        invariant
            i <= runs.len(),
            all == counted_views(runs@),
            q == (|c: CountedView| is_of(c, trip@, scan@)),
            p1 == (|c: CountedView| c.ok && c.version >= current),
            p2 == (|c: CountedView| c.ok && c.version < current),
            p3 == (|c: CountedView| !c.ok),
            done == all.take(i as int).filter(q).filter(p1).len(),
            stale == all.take(i as int).filter(q).filter(p2).len(),
            failed == all.take(i as int).filter(q).filter(p3).len(),
            done + stale + failed <= i,
            crate::text::views(failures@) == samples(all.take(i as int).filter(q)),
        decreases runs.len() - i,
    {
        let c = &runs[i];
        proof {
            reveal(Seq::filter);
            assert(all[i as int] == c@);
            assert(all.take(i + 1).drop_last() == all.take(i as int));
            assert(all.take(i + 1).last() == c@);
        }
        if same_str(c.trip_id.as_str(), trip) && same_str(c.scan_id.as_str(), scan) {
            let ghost kept = all.take(i as int).filter(q);
            proof {
                assert(kept.push(c@).drop_last() == kept);
            }
            if c.ok {
                if c.version >= current {
                    done += 1;
                } else {
                    stale += 1;
                }
            } else {
                failed += 1;
                if let Some(m) = &c.error_message {
                    if failures.len() < SAMPLE_FAILURES && !contains_string(&failures, m) {
                        let ghost before = failures@;
                        failures.push(m.clone());
                        proof {
                            assert(crate::text::views(failures@) == crate::text::views(
                                before,
                            ).push(m@));
                        }
                    }
                }
            }
        }
        i += 1;
    }
    proof {
        assert(all.take(all.len() as int) == all);
    }
    let ran: u64 = (done + stale + failed) as u64;
    ScanCoverage {
        scan_id: owned(scan),
        total_segments: total,
        done_count: done as u64,
        stale_count: stale as u64,
        failed_count: failed as u64,
        not_run_count: if ran < total {
            total - ran
        } else {
            0
        },
        sample_failures: failures,
    }
}

fn version_of(registry: &Vec<ScanInfo>, id: &str) -> (r: u32)
    ensures
        r == current_version(registry@, id@),
{
    let mut i: usize = registry.len();
    proof {
        assert(registry@.take(registry@.len() as int) == registry@);
    }
    while i > 0
        invariant
            i <= registry.len(),
            current_version(registry@, id@) == current_version(registry@.take(i as int), id@),
        decreases i,
    {
        proof {
            assert(registry@.take(i as int).drop_last() == registry@.take(i - 1));
            assert(registry@.take(i as int).last() == registry@[i - 1]);
        }
        i -= 1;
        if same_str(registry[i].id.as_str(), id) {
            return registry[i].version;
        }
    }
    0
}

fn count_present(
    segments: &Vec<SegmentRow>,
    there: &Vec<bool>,
    trip: &str,
    Ghost(root): Ghost<Seq<char>>,
    Ghost(present): Ghost<Seq<Seq<char>>>,
) -> (r: usize)
    requires
        there.len() == segments.len(),
        forall|i: int|
            0 <= i < segments.len() ==> #[trigger] there@[i] == is_there(
                segments@[i]@,
                root,
                present,
            ),
    ensures
        r == total_of(crate::db::rows::segment_rows(segments@), root, present, trip@),
{
    let ghost sv = crate::db::rows::segment_rows(segments@);
    let ghost p = |s: SegmentView| s.trip_id == trip@ && is_there(s, root, present);
    let mut n: usize = 0;
    let mut i: usize = 0;
    proof {
        reveal(Seq::filter);
        assert(sv.take(0).filter(p).len() == 0);
    }
    while i < segments.len()
        invariant
            i <= segments.len(),
            n <= i,
            sv == crate::db::rows::segment_rows(segments@),
            p == (|s: SegmentView| s.trip_id == trip@ && is_there(s, root, present)),
            there.len() == segments.len(),
            forall|i: int|
                0 <= i < segments.len() ==> #[trigger] there@[i] == is_there(
                    segments@[i]@,
                    root,
                    present,
                ),
            n == sv.take(i as int).filter(p).len(),
        decreases segments.len() - i,
    {
        proof {
            reveal(Seq::filter);
            assert(sv[i as int] == segments@[i as int]@);
            assert(there@[i as int] == is_there(sv[i as int], root, present));
            assert(sv.take(i + 1).drop_last() == sv.take(i as int));
            assert(sv.take(i + 1).last() == sv[i as int]);
        }
        if there[i] && same_str(segments[i].trip_id.as_str(), trip) {
            n += 1;
        }
        i += 1;
    }
    proof {
        assert(sv.take(sv.len() as int) == sv);
    }
    n
}

proof fn lemma_total_positive(
    segments: Seq<SegmentView>,
    root: Seq<char>,
    present: Seq<Seq<char>>,
    trip: Seq<char>,
)
    ensures
        total_of(segments, root, present, trip) > 0 <==> exists|i: int|
            0 <= i < segments.len() && (#[trigger] segments[i]).trip_id == trip && is_there(
                segments[i],
                root,
                present,
            ),
{
    let p = |s: SegmentView| s.trip_id == trip && is_there(s, root, present);
    if total_of(segments, root, present, trip) > 0 {
        crate::db::table::lemma_filter_subset(segments, p, 0);
        let k = choose|k: int| 0 <= k < segments.len() && segments[k] == segments.filter(p)[0];
        assert(segments[k].trip_id == trip);
    }
    if exists|i: int|
        0 <= i < segments.len() && (#[trigger] segments[i]).trip_id == trip && is_there(
            segments[i],
            root,
            present,
        ) {
        let i = choose|i: int|
            0 <= i < segments.len() && (#[trigger] segments[i]).trip_id == trip && is_there(
                segments[i],
                root,
                present,
            );
        segments.lemma_filter_contains(p, i);
    }
}

fn trips_with_files(
    segments: &Vec<SegmentRow>,
    there: &Vec<bool>,
    Ghost(root): Ghost<Seq<char>>,
    Ghost(present): Ghost<Seq<Seq<char>>>,
) -> (r: Vec<String>)
    requires
        there.len() == segments.len(),
        forall|i: int|
            0 <= i < segments.len() ==> #[trigger] there@[i] == is_there(
                segments@[i]@,
                root,
                present,
            ),
    ensures
        are_trips_with_files(
            crate::text::views(r@),
            crate::db::rows::segment_rows(segments@),
            root,
            present,
        ),
{
    let ghost sv = crate::db::rows::segment_rows(segments@);
    let mut ids: Vec<String> = Vec::new();
    let mut i: usize = 0;
    while i < segments.len()
        invariant
            i <= segments.len(),
            sv == crate::db::rows::segment_rows(segments@),
            there.len() == segments.len(),
            forall|i: int|
                0 <= i < segments.len() ==> #[trigger] there@[i] == is_there(
                    segments@[i]@,
                    root,
                    present,
                ),
            crate::db::table::is_ascending(crate::text::views(ids@)),
            forall|t: Seq<char>|
                #[trigger] crate::text::views(ids@).contains(t) <==> exists|j: int|
                    0 <= j < i && (#[trigger] sv[j]).trip_id == t && is_there(
                        sv[j],
                        root,
                        present,
                    ),
        decreases segments.len() - i,
    {
        proof {
            assert(sv[i as int] == segments@[i as int]@);
            assert(there@[i as int] == is_there(sv[i as int], root, present));
        }
        let ghost before = crate::text::views(ids@);
        if there[i] {
            ids = insert_ordered(ids, &segments[i].trip_id);
        }
        proof {
            let now = crate::text::views(ids@);
            assert forall|t: Seq<char>| #[trigger] now.contains(t) <==> exists|j: int|
                0 <= j < i + 1 && (#[trigger] sv[j]).trip_id == t && is_there(
                    sv[j],
                    root,
                    present,
                ) by {
                if now.contains(t) {
                    if before.contains(t) {
                        let j = choose|j: int|
                            0 <= j < i && (#[trigger] sv[j]).trip_id == t && is_there(
                                sv[j],
                                root,
                                present,
                            );
                        assert(sv[j].trip_id == t);
                    } else {
                        assert(sv[i as int].trip_id == t);
                    }
                }
                if exists|j: int|
                    0 <= j < i + 1 && (#[trigger] sv[j]).trip_id == t && is_there(
                        sv[j],
                        root,
                        present,
                    ) {
                    let j = choose|j: int|
                        0 <= j < i + 1 && (#[trigger] sv[j]).trip_id == t && is_there(
                            sv[j],
                            root,
                            present,
                        );
                    if j < i {
                        assert(before.contains(t));
                    }
                }
            }
        }
        i += 1;
    }
    proof {
        let now = crate::text::views(ids@);
        assert forall|t: Seq<char>| #[trigger] now.contains(t) <==> total_of(
            sv,
            root,
            present,
            t,
        ) > 0 by {
            lemma_total_positive(sv, root, present, t);
        }
    }
    ids
}

/// How much of each trip the scans have covered, given the known scans and the
/// paths of the files that are there. Trips come in the order of their
/// identifiers, scans in the order given; a trip without files is left out.
pub fn list_scan_coverage(
    lib: &Library,
    registry: &Vec<ScanInfo>,
    archive_root: &str,
    present: &Vec<String>,
) -> (r: Vec<TripScanCoverage>)
    ensures
        ({
            let pv = crate::text::views(present@);
            let ids = r@.map_values(|t: TripScanCoverage| t.trip_id@);
            let runs = runs_that_count(lib@, archive_root@, pv, lib@.segments.len() as int);
            &&& are_trips_with_files(ids, lib@.segments, archive_root@, pv)
            &&& forall|i: int|
                0 <= i < r.len() ==> coverage_views((#[trigger] r@[i]).per_scan@) == trip_coverage(
                    total_of(lib@.segments, archive_root@, pv, ids[i]),
                    runs,
                    ids[i],
                    registry@,
                )
        }),
{
    let ghost pv = crate::text::views(present@);
    let ghost root = archive_root@;
    let mut there: Vec<bool> = Vec::new();
    let mut i: usize = 0;
    while i < lib.segments.len()
        invariant
            i <= lib.segments.len(),
            pv == crate::text::views(present@),
            root == archive_root@,
            there.len() == i,
            forall|j: int|
                0 <= j < i ==> #[trigger] there@[j] == is_there(lib.segments@[j]@, root, pv),
        decreases lib.segments.len() - i,
    {
        there.push(segment_is_there(&lib.segments[i], archive_root, present));
        i += 1;
    }
    let runs = collect_runs(lib, &there, archive_root, present);
    let ids = trips_with_files(&lib.segments, &there, Ghost(root), Ghost(pv));
    let ghost rv = counted_views(runs@);
    let ghost iv = crate::text::views(ids@);
    let mut out: Vec<TripScanCoverage> = Vec::new();
    let mut i: usize = 0;
    while i < ids.len()
        invariant
            i <= ids.len(),
            pv == crate::text::views(present@),
            root == archive_root@,
            rv == counted_views(runs@),
            iv == crate::text::views(ids@),
            there.len() == lib.segments.len(),
            forall|j: int|
                0 <= j < lib.segments.len() ==> #[trigger] there@[j] == is_there(
                    lib.segments@[j]@,
                    root,
                    pv,
                ),
            out.len() == i,
            forall|j: int| 0 <= j < i ==> (#[trigger] out@[j]).trip_id@ == iv[j],
            forall|j: int|
                0 <= j < i ==> coverage_views((#[trigger] out@[j]).per_scan@) == trip_coverage(
                    total_of(lib@.segments, root, pv, iv[j]),
                    rv,
                    iv[j],
                    registry@,
                ),
        decreases ids.len() - i,
    {
        let trip = ids[i].as_str();
        proof {
            assert(iv[i as int] == trip@);
        }
        let total: usize = count_present(&lib.segments, &there, trip, Ghost(root), Ghost(pv));
        let ghost want = trip_coverage(total as int, rv, trip@, registry@);
        let mut per_scan: Vec<ScanCoverage> = Vec::new();
        let mut k: usize = 0;
        while k < registry.len()
            invariant
                k <= registry.len(),
                rv == counted_views(runs@),
                want == trip_coverage(total as int, rv, trip@, registry@),
                coverage_views(per_scan@) == want.take(k as int),
            decreases registry.len() - k,
        {
            let id = registry[k].id.as_str();
            let c = measure(total as u64, &runs, trip, id, version_of(registry, id));
            let ghost before = per_scan@;
            let ghost cv = c@;
            per_scan.push(c);
            proof {
                assert(cv == want[k as int]);
                assert(coverage_views(per_scan@) == coverage_views(before).push(cv));
                assert(want.take(k + 1) == want.take(k as int).push(cv));
            }
            k += 1;
        }
        proof {
            assert(want.take(want.len() as int) == want);
        }
        out.push(TripScanCoverage { trip_id: ids[i].clone(), per_scan });
        i += 1;
    }
    proof {
        let got = out@.map_values(|t: TripScanCoverage| t.trip_id@);
        assert(got == iv);
    }
    out
}

proof fn lemma_counts(total: int, runs: Seq<CountedView>, scan: Seq<char>, current: u32)
    ensures
        ({
            let c = coverage_of(total, runs, scan, current);
            &&& c.done_count + c.stale_count + c.failed_count == runs.len()
            &&& c.sample_failures.len() <= SAMPLE_FAILURES
            &&& c.sample_failures.no_duplicates()
            &&& c.failed_count == 0 ==> c.sample_failures.len() == 0
        }),
    decreases runs.len(),
{
    reveal(Seq::filter);
    if runs.len() > 0 {
        lemma_counts(total, runs.drop_last(), scan, current);
        let before = samples(runs.drop_last());
        if let Some(m) = runs.last().error_message {
            if !before.contains(m) {
                assert(before.push(m).no_duplicates());
            }
        }
    }
}

/// A scan has at most one run on each segment.
pub open spec fn has_unique_runs(runs: Seq<ScanRunView>) -> bool {
    forall|i: int, j: int|
        0 <= i < j < runs.len() ==> (#[trigger] runs[i]).segment_id != (
        #[trigger] runs[j]).segment_id || runs[i].scan_id != runs[j].scan_id
}

/// There is a run of the scan on the segment.
spec fn has_run(runs: Seq<ScanRunView>, segment: Seq<char>, scan: Seq<char>) -> bool {
    exists|i: int|
        0 <= i < runs.len() && (#[trigger] runs[i]).segment_id == segment && runs[i].scan_id == scan
}

proof fn lemma_one_run(s: SegmentView, runs: Seq<ScanRunView>, trip: Seq<char>, scan: Seq<char>)
    requires
        has_unique_runs(runs),
    ensures
        runs_of(runs_on(s, runs), trip, scan).len() <= if s.trip_id == trip {
            1nat
        } else {
            0
        },
        runs_of(runs_on(s, runs), trip, scan).len() > 0 ==> has_run(runs, s.id, scan),
    decreases runs.len(),
{
    reveal(Seq::filter);
    let p = |r: ScanRunView| r.segment_id == s.id;
    let f = |r: ScanRunView| counted(s, r);
    let q = |c: CountedView| is_of(c, trip, scan);
    if runs.len() > 0 {
        let u = runs.drop_last();
        let x = runs.last();
        lemma_one_run(s, u, trip, scan);
        if has_run(u, s.id, scan) {
            let i = choose|i: int|
                0 <= i < u.len() && (#[trigger] u[i]).segment_id == s.id && u[i].scan_id == scan;
            assert(runs[i].segment_id == s.id);
            assert(runs[runs.len() - 1] == x);
        }
        if x.segment_id == s.id {
            let kept = u.filter(p);
            assert(kept.push(x).map_values(f) == kept.map_values(f).push(f(x)));
            assert(runs_on(s, runs) == runs_on(s, u).push(f(x)));
            assert(runs_on(s, runs).drop_last() == runs_on(s, u));
            if x.scan_id == scan {
                assert(runs[runs.len() - 1].segment_id == s.id);
            }
        }
    } else {
        assert(runs.filter(p).map_values(f) == Seq::<CountedView>::empty());
    }
}

proof fn lemma_runs_within(
    lib: LibraryView,
    root: Seq<char>,
    present: Seq<Seq<char>>,
    trip: Seq<char>,
    scan: Seq<char>,
    n: int,
)
    requires
        0 <= n <= lib.segments.len(),
        has_unique_runs(lib.scan_runs),
    ensures
        runs_of(runs_that_count(lib, root, present, n), trip, scan).len() <= total_of(
            lib.segments.take(n),
            root,
            present,
            trip,
        ),
    decreases n,
{
    reveal(Seq::filter);
    let p = |s: SegmentView| s.trip_id == trip && is_there(s, root, present);
    let q = |c: CountedView| is_of(c, trip, scan);
    if n > 0 {
        let s = lib.segments[n - 1];
        lemma_runs_within(lib, root, present, trip, scan, n - 1);
        assert(lib.segments.take(n).drop_last() == lib.segments.take(n - 1));
        assert(lib.segments.take(n).last() == s);
        if !s.is_tombstone && !is_missing(lib.segments, root, present, s.id) {
            assert(lib.segments[n - 1].id == s.id);
            assert(is_there(s, root, present));
            lemma_one_run(s, lib.scan_runs, trip, scan);
            Seq::filter_distributes_over_add(
                runs_that_count(lib, root, present, n - 1),
                runs_on(s, lib.scan_runs),
                q,
            );
        }
    }
}

/// The coverage of a trip by each scan adds up: what was done, is stale, failed
/// or was not run makes up the segments of the trip that have their file.
/// Tombstones and segments that have lost their file count nowhere. The samples
/// of failures are few, and differ from each other.
pub proof fn coverage_adds_up(
    lib: LibraryView,
    root: Seq<char>,
    present: Seq<Seq<char>>,
    trip: Seq<char>,
    registry: Seq<ScanInfo>,
    i: int,
)
    requires
        has_unique_runs(lib.scan_runs),
        0 <= i < registry.len(),
    ensures
        ({
            let total = total_of(lib.segments, root, present, trip);
            let runs = runs_that_count(lib, root, present, lib.segments.len() as int);
            let c = trip_coverage(total, runs, trip, registry)[i];
            &&& c.total_segments == total
            &&& c.done_count + c.stale_count + c.failed_count + c.not_run_count == total
            &&& c.sample_failures.len() <= SAMPLE_FAILURES
            &&& c.sample_failures.no_duplicates()
            &&& c.failed_count == 0 ==> c.sample_failures.len() == 0
        }),
{
    let n = lib.segments.len() as int;
    let id = registry[i].id@;
    let runs = runs_that_count(lib, root, present, n);
    lemma_runs_within(lib, root, present, trip, id, n);
    assert(lib.segments.take(n) == lib.segments);
    lemma_counts(
        total_of(lib.segments, root, present, trip),
        runs_of(runs, trip, id),
        id,
        current_version(registry, id),
    );
}

} // verus!
