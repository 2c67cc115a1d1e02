//! The worker: which jobs there are to do, what each of them is made from, and
//! what is recorded of them.

use crate::db::queries::{copy_rows, sort_rows};
use crate::db::rows::{JobRow, JobStatus, JobView, Library, SegmentRow, SegmentView, TripRow, TripView};
use crate::db::segments::camera_kind_from_str;
use crate::db::table::retain_marked;
use crate::db::timelapse_jobs::{get, upsert_pending, JobChange};
use crate::error::AppError;
use crate::paths::{components_of, from_archive_relative, path_of_first};
use crate::scan::naming::CameraKind;
use crate::scan::siblings::find_sibling_file;
use crate::sort::sort_stable;
use crate::text::{concat2, is_str, owned, same_str};
use crate::timelapse::ffmpeg::{EncodeArgs, Encoder};
use crate::timelapse::speed_curve::{
    build_curve, collapse_gaps, restrict_curve_to_coverage, CurveSegment, Run,
};
use crate::timelapse::types::{saturating_sum, Channel, EventWindow, JobScope, Tier};
use vstd::prelude::*;
use vstd::string::StringExecFns;

verus! {

// --------------------------------------------------------------- worker state

/// Whether a run is going on, and whether it was asked to stop.
#[derive(Debug)]
pub struct TimelapseWorkerState {
    pub running: bool,
    pub cancel: Option<bool>,
}

/// The flag of a run that nobody has asked to stop yet.
pub fn new_cancel_flag() -> (r: bool)
    ensures
        !r,
{
    false
}

/// The state before any run.
pub fn new_shared_state() -> (r: TimelapseWorkerState)
    ensures
        !r.running,
        r.cancel is None,
{
    TimelapseWorkerState { running: false, cancel: None }
}

impl TimelapseWorkerState {
    /// A run begins, unless one is going on.
    pub fn begin(&mut self) -> (r: Result<(), AppError>)
        ensures
            match r {
                Ok(_) => !old(self).running && final(self).running && final(self).cancel == Some(
                    false,
                ),
                Err(e) => old(self).running && *final(self) == *old(self)
                    && crate::error::is_internal(e, "timelapse already running"@),
            },
    {
        if self.running {
            return Err(AppError::Internal(owned("timelapse already running")));
        }
        self.running = true;
        self.cancel = Some(new_cancel_flag());
        Ok(())
    }

    /// The run is asked to stop. Where there is none, nothing happens.
    pub fn cancel_timelapse(&mut self)
        ensures
            final(self).running == old(self).running,
            final(self).cancel == (match old(self).cancel {
                Some(_) => Some(true),
                None => None::<bool>,
            }),
    {
        if self.cancel.is_some() {
            self.cancel = Some(true);
        }
    }

    /// The run is over.
    pub fn end(&mut self)
        ensures
            !final(self).running,
            final(self).cancel is None,
    {
        self.running = false;
        self.cancel = None;
    }
}

// ------------------------------------------------------------------ work list

/// One timelapse to make.
#[derive(Debug)]
pub struct WorkItem {
    pub trip_id: String,
    pub tier: Tier,
    pub channel: Channel,
}

/// One timelapse to make, with its text as a sequence of characters.
#[verifier::ext_equal]
pub struct WorkView {
    pub trip_id: Seq<char>,
    pub tier: Tier,
    pub channel: Channel,
}

impl View for WorkItem {
    type V = WorkView;

    open spec fn view(&self) -> WorkView {
        WorkView { trip_id: self.trip_id@, tier: self.tier, channel: self.channel }
    }
}

impl Clone for WorkItem {
    fn clone(&self) -> (r: Self)
        ensures
            r == *self,
    {
        WorkItem { trip_id: self.trip_id.clone(), tier: self.tier, channel: self.channel }
    }
}

/// The views of work items.
pub open spec fn work_views(v: Seq<WorkItem>) -> Seq<WorkView> {
    v.map_values(|w: WorkItem| w@)
}

/// The trip has footage that is still there.
pub open spec fn has_source(segments: Seq<SegmentView>, trip_id: Seq<char>) -> bool {
    exists|i: int|
        0 <= i < segments.len() && (#[trigger] segments[i]).trip_id == trip_id
            && !segments[i].is_tombstone
}

/// Whether the trip has footage that is still there.
pub fn trip_has_source_segments(segments: &Vec<SegmentRow>, trip_id: &str) -> (r: bool)
    ensures
        r == has_source(crate::db::rows::segment_rows(segments@), trip_id@),
{
    let ghost sv = crate::db::rows::segment_rows(segments@);
    let mut i: usize = 0;
    while i < segments.len()
        invariant
            i <= segments.len(),
            sv == crate::db::rows::segment_rows(segments@),
            forall|j: int|
                0 <= j < i ==> !((#[trigger] sv[j]).trip_id == trip_id@ && !sv[j].is_tombstone),
        decreases segments.len() - i,
    {
        proof {
            assert(sv[i as int] == segments@[i as int]@);
        }
        if same_str(segments[i].trip_id.as_str(), trip_id) && !segments[i].is_tombstone {
            return true;
        }
        i += 1;
    }
    false
}

/// A run with the given scope takes up a job with the given status.
pub open spec fn is_wanted(scope: JobScope, status: Option<JobStatus>) -> bool {
    match scope {
        JobScope::NewOnly => status != Some(JobStatus::Done),
        JobScope::FailedOnly => status == Some(JobStatus::Failed),
        JobScope::RebuildAll => true,
    }
}

/// Whether a run takes up a job.
pub fn should_enqueue(jobs: &Vec<JobRow>, item: &WorkItem, scope: JobScope) -> (r: bool)
    ensures
        r == is_wanted(scope, status_of(crate::db::rows::job_rows(jobs@), item@)),
{
    let existing = get(jobs, item.trip_id.as_str(), item.tier.as_str(), item.channel.as_str());
    match scope {
        JobScope::NewOnly => match existing {
            None => true,
            Some(row) => row.status != JobStatus::Done,
        },
        JobScope::FailedOnly => match existing {
            None => false,
            Some(row) => row.status == JobStatus::Failed,
        },
        JobScope::RebuildAll => true,
    }
}

/// The status of a job; none where it has no row.
pub open spec fn status_of(jobs: Seq<JobView>, item: WorkView) -> Option<JobStatus> {
    match crate::db::timelapse_jobs::row_of(
        jobs,
        item.trip_id,
        item.tier.name(),
        item.channel.name(),
    ) {
        Some(r) => Some(r.status),
        None => None,
    }
}

/// The jobs of one trip and tier.
pub open spec fn channel_items(trip: Seq<char>, tier: Tier, channels: Seq<Channel>) -> Seq<
    WorkView,
> {
    channels.map_values(|c: Channel| WorkView { trip_id: trip, tier, channel: c })
}

/// The jobs of one trip, tier by tier.
pub open spec fn trip_items(trip: Seq<char>, tiers: Seq<Tier>, channels: Seq<Channel>) -> Seq<
    WorkView,
>
    decreases tiers.len(),
{
    if tiers.len() == 0 {
        Seq::empty()
    } else {
        trip_items(trip, tiers.drop_last(), channels) + channel_items(
            trip,
            tiers.last(),
            channels,
        )
    }
}

/// The jobs of all trips with footage, trip by trip.
pub open spec fn all_items(
    trips: Seq<Seq<char>>,
    segments: Seq<SegmentView>,
    tiers: Seq<Tier>,
    channels: Seq<Channel>,
) -> Seq<WorkView>
    decreases trips.len(),
{
    if trips.len() == 0 {
        Seq::empty()
    } else if has_source(segments, trips.last()) {
        all_items(trips.drop_last(), segments, tiers, channels) + trip_items(
            trips.last(),
            tiers,
            channels,
        )
    } else {
        all_items(trips.drop_last(), segments, tiers, channels)
    }
}

/// The table of jobs when the wanted ones among the items have been enqueued,
/// one after the other.
pub open spec fn enqueued(
    jobs: Seq<JobView>,
    items: Seq<WorkView>,
    scope: JobScope,
    now_ms: i64,
) -> Seq<JobView>
    decreases items.len(),
{
    if items.len() == 0 {
        jobs
    } else {
        let before = enqueued(jobs, items.drop_last(), scope, now_ms);
        let x = items.last();
        if is_wanted(scope, status_of(before, x)) {
            crate::db::timelapse_jobs::with_enqueued(
                before,
                x.trip_id,
                x.tier.name(),
                x.channel.name(),
                now_ms,
            )
        } else {
            before
        }
    }
}

/// The wanted ones among the items.
pub open spec fn wanted_items(
    jobs: Seq<JobView>,
    items: Seq<WorkView>,
    scope: JobScope,
    now_ms: i64,
) -> Seq<WorkView>
    decreases items.len(),
{
    if items.len() == 0 {
        Seq::empty()
    } else {
        let rest = wanted_items(jobs, items.drop_last(), scope, now_ms);
        if is_wanted(scope, status_of(enqueued(jobs, items.drop_last(), scope, now_ms), items.last()))
        {
            rest.push(items.last())
        } else {
            rest
        }
    }
}

/// The trips of the library in the order of their starts.
pub open spec fn trips_by_start(trips: Seq<TripView>) -> Seq<Seq<char>> {
    crate::sort::sort_by(trips, |t: TripView| t.start_time_ms as int).map_values(
        |t: TripView| t.id,
    )
}

/// The trips of the library in the order of their starts.
pub fn list_trips_by_start(trips: &Vec<TripRow>) -> (r: Vec<String>)
    ensures
        crate::text::views(r@) == trips_by_start(crate::db::rows::trip_rows(trips@)),
{
    let ghost raw_key = |t: TripRow| t.start_time_ms as int;
    let ghost to_view = |t: TripRow| t@;
    let ghost view_key = |t: TripView| t.start_time_ms as int;
    let mut copy: Vec<TripRow> = Vec::new();
    let mut keys: Vec<i128> = Vec::new();
    let mut i: usize = 0;
    while i < trips.len()
        invariant
            i <= trips.len(),
            raw_key == (|t: TripRow| t.start_time_ms as int),
            copy@ == trips@.take(i as int),
            keys.len() == i,
            forall|j: int| 0 <= j < i ==> #[trigger] keys@[j] == raw_key(copy@[j]),
        decreases trips.len() - i,
    {
        copy.push(trips[i].clone());
        keys.push(trips[i].start_time_ms as i128);
        i += 1;
        proof {
            assert(trips@.take(i as int) == trips@.take(i - 1).push(trips@[i - 1]));
        }
    }
    proof {
        assert(trips@.take(trips@.len() as int) == trips@);
        crate::sort::sort_commutes_with_map(trips@, raw_key, to_view, view_key);
        assert(crate::db::rows::trip_rows(trips@) == trips@.map_values(to_view));
    }
    let sorted = sort_stable(copy, keys, Ghost(raw_key));
    let ghost sv = sorted@.map_values(to_view);
    let ghost ids = sv.map_values(|t: TripView| t.id);
    let mut out: Vec<String> = Vec::new();
    let mut i: usize = 0;
    while i < sorted.len()
        invariant
            i <= sorted.len(),
            to_view == (|t: TripRow| t@),
            sv == sorted@.map_values(to_view),
            ids == sv.map_values(|t: TripView| t.id),
            crate::text::views(out@) == ids.take(i as int),
        decreases sorted.len() - i,
    {
        let ghost before = out@;
        out.push(sorted[i].id.clone());
        proof {
            assert(ids[i as int] == sorted@[i as int].id@);
            assert(crate::text::views(out@) == crate::text::views(before).push(ids[i as int]));
            assert(ids.take(i + 1) == ids.take(i as int).push(ids[i as int]));
        }
        i += 1;
    }
    proof {
        assert(ids.take(ids.len() as int) == ids);
    }
    out
}

fn candidate_items(
    trips: &Vec<String>,
    segments: &Vec<SegmentRow>,
    tiers: &Vec<Tier>,
    channels: &Vec<Channel>,
) -> (r: Vec<WorkItem>)
    ensures
        work_views(r@) == all_items(
            crate::text::views(trips@),
            crate::db::rows::segment_rows(segments@),
            tiers@,
            channels@,
        ),
{
    let ghost tv = crate::text::views(trips@);
    let ghost sv = crate::db::rows::segment_rows(segments@);
    let mut out: Vec<WorkItem> = Vec::new();
    let mut i: usize = 0;
    proof {
        assert(work_views(out@) == Seq::<WorkView>::empty());
    }
    while i < trips.len()
        invariant
            i <= trips.len(),
            tv == crate::text::views(trips@),
            sv == crate::db::rows::segment_rows(segments@),
            work_views(out@) == all_items(tv.take(i as int), sv, tiers@, channels@),
        decreases trips.len() - i,
    {
        let trip = trips[i].as_str();
        proof {
            assert(tv.take(i + 1).drop_last() == tv.take(i as int));
            assert(tv.take(i + 1).last() == trip@);
        }
        if trip_has_source_segments(segments, trip) {
            let ghost start = work_views(out@);
            let mut j: usize = 0;
            proof {
                assert(start + trip_items(trip@, tiers@.take(0), channels@) == start);
            }
            while j < tiers.len()
                invariant
                    j <= tiers.len(),
                    work_views(out@) == start + trip_items(
                        trip@,
                        tiers@.take(j as int),
                        channels@,
                    ),
                decreases tiers.len() - j,
            {
                let tier = tiers[j];
                let ghost here = work_views(out@);
                let ghost add = channel_items(trip@, tier, channels@);
                proof {
                    assert(tiers@.take(j + 1).drop_last() == tiers@.take(j as int));
                    assert(tiers@.take(j + 1).last() == tier);
                    assert(here + add.take(0) == here);
                }
                let mut k: usize = 0;
                while k < channels.len()
                    invariant
                        k <= channels.len(),
                        add == channel_items(trip@, tier, channels@),
                        work_views(out@) == here + add.take(k as int),
                    decreases channels.len() - k,
                {
                    let w = WorkItem { trip_id: owned(trip), tier, channel: channels[k] };
                    let ghost before = out@;
                    let ghost wv = w@;
                    out.push(w);
                    proof {
                        assert(wv == add[k as int]);
                        assert(work_views(out@) == work_views(before).push(wv));
                        assert(add.take(k + 1) == add.take(k as int).push(wv));
                        assert(work_views(out@) == here + add.take(k + 1));
                    }
                    k += 1;
                }
                proof {
                    assert(add.take(add.len() as int) == add);
                    assert(work_views(out@) == start + trip_items(
                        trip@,
                        tiers@.take(j + 1),
                        channels@,
                    ));
                }
                j += 1;
            }
            proof {
                assert(tiers@.take(tiers@.len() as int) == tiers@);
            }
        }
        i += 1;
    }
    proof {
        assert(tv.take(tv.len() as int) == tv);
    }
    out
}

/// The trips that a run is for: those asked for, or all by their starts.
pub open spec fn run_trips(trip_ids: Option<Vec<String>>, trips: Seq<TripView>) -> Seq<Seq<char>> {
    match trip_ids {
        Some(ids) => crate::text::views(ids@),
        None => trips_by_start(trips),
    }
}

/// The jobs that a run has to do. The table of jobs is returned with each of
/// them enqueued.
pub fn build_work_list(
    lib: Library,
    trip_ids: &Option<Vec<String>>,
    tiers: &Vec<Tier>,
    channels: &Vec<Channel>,
    scope: JobScope,
    now_ms: i64,
) -> (r: (Library, Vec<WorkItem>))
    ensures
        ({
            let items = all_items(
                run_trips(*trip_ids, lib@.trips),
                lib@.segments,
                tiers@,
                channels@,
            );
            &&& r.0@ == (crate::db::rows::LibraryView {
                jobs: enqueued(lib@.jobs, items, scope, now_ms),
                ..lib@
            })
            &&& work_views(r.1@) == wanted_items(lib@.jobs, items, scope, now_ms)
        }),
{
    let ghost lv = lib@;
    let items = match trip_ids {
        Some(ids) => candidate_items(ids, &lib.segments, tiers, channels),
        None => {
            let all = list_trips_by_start(&lib.trips);
            candidate_items(&all, &lib.segments, tiers, channels)
        },
    };
    let ghost iv = work_views(items@);
    let mut jobs = lib.jobs;
    let mut work: Vec<WorkItem> = Vec::new();
    let mut i: usize = 0;
    proof {
        assert(work_views(work@) == Seq::<WorkView>::empty());
    }
    while i < items.len()
        invariant
            i <= items.len(),
            iv == work_views(items@),
            crate::db::rows::job_rows(jobs@) == enqueued(lv.jobs, iv.take(i as int), scope, now_ms),
            work_views(work@) == wanted_items(lv.jobs, iv.take(i as int), scope, now_ms),
        decreases items.len() - i,
    {
        let item = &items[i];
        proof {
            assert(iv.take(i + 1).drop_last() == iv.take(i as int));
            assert(iv.take(i + 1).last() == item@);
        }
        if should_enqueue(&jobs, item, scope) {
            jobs = upsert_pending(
                jobs,
                item.trip_id.as_str(),
                item.tier.as_str(),
                item.channel.as_str(),
                now_ms,
            );
            let ghost before = work@;
            work.push(item.clone());
            proof {
                assert(work_views(work@) == work_views(before).push(item@));
            }
        }
        i += 1;
    }
    proof {
        assert(iv.take(iv.len() as int) == iv);
    }
    let out = Library {
        trips: lib.trips,
        segments: lib.segments,
        tags: lib.tags,
        scan_runs: lib.scan_runs,
        jobs,
    };
    (out, work)
}

proof fn lemma_items_have_source(
    trips: Seq<Seq<char>>,
    segments: Seq<SegmentView>,
    tiers: Seq<Tier>,
    channels: Seq<Channel>,
)
    ensures
        forall|i: int|
            0 <= i < all_items(trips, segments, tiers, channels).len() ==> has_source(
                segments,
                (#[trigger] all_items(trips, segments, tiers, channels)[i]).trip_id,
            ),
    decreases trips.len(),
{
    if trips.len() > 0 {
        lemma_items_have_source(trips.drop_last(), segments, tiers, channels);
        lemma_trip_items(trips.last(), tiers, channels);
        let a = all_items(trips.drop_last(), segments, tiers, channels);
        let b = trip_items(trips.last(), tiers, channels);
        let r = all_items(trips, segments, tiers, channels);
        assert forall|i: int| 0 <= i < r.len() implies has_source(
            segments,
            (#[trigger] r[i]).trip_id,
        ) by {
            if i < a.len() {
                assert(r[i] == a[i]);
            } else {
                assert(r[i] == b[i - a.len()]);
            }
        }
    }
}

proof fn lemma_trip_items(trip: Seq<char>, tiers: Seq<Tier>, channels: Seq<Channel>)
    ensures
        forall|i: int|
            0 <= i < trip_items(trip, tiers, channels).len() ==> (#[trigger] trip_items(
                trip,
                tiers,
                channels,
            )[i]).trip_id == trip,
    decreases tiers.len(),
{
    if tiers.len() > 0 {
        lemma_trip_items(trip, tiers.drop_last(), channels);
        let a = trip_items(trip, tiers.drop_last(), channels);
        let b = channel_items(trip, tiers.last(), channels);
        let r = trip_items(trip, tiers, channels);
        assert forall|i: int| 0 <= i < r.len() implies (#[trigger] r[i]).trip_id == trip by {
            if i < a.len() {
                assert(r[i] == a[i]);
            } else {
                assert(r[i] == b[i - a.len()]);
            }
        }
    }
}

/// A run never touches the jobs of a trip without footage, whatever its scope:
/// their rows stay as they are.
pub proof fn trips_without_footage_are_left_alone(
    jobs: Seq<JobView>,
    trips: Seq<Seq<char>>,
    segments: Seq<SegmentView>,
    tiers: Seq<Tier>,
    channels: Seq<Channel>,
    scope: JobScope,
    now_ms: i64,
)
    ensures
        forall|i: int|
            0 <= i < jobs.len() && !has_source(segments, (#[trigger] jobs[i]).trip_id) ==> enqueued(
                jobs,
                all_items(trips, segments, tiers, channels),
                scope,
                now_ms,
            )[i] == jobs[i],
        forall|k: int|
            0 <= k < wanted_items(
                jobs,
                all_items(trips, segments, tiers, channels),
                scope,
                now_ms,
            ).len() ==> has_source(
                segments,
                (#[trigger] wanted_items(
                    jobs,
                    all_items(trips, segments, tiers, channels),
                    scope,
                    now_ms,
                )[k]).trip_id,
            ),
{
    let items = all_items(trips, segments, tiers, channels);
    lemma_items_have_source(trips, segments, tiers, channels);
    lemma_enqueuing_spares(jobs, items, segments, scope, now_ms);
}

proof fn lemma_enqueuing_spares(
    jobs: Seq<JobView>,
    items: Seq<WorkView>,
    segments: Seq<SegmentView>,
    scope: JobScope,
    now_ms: i64,
)
    requires
        forall|i: int|
            0 <= i < items.len() ==> has_source(segments, (#[trigger] items[i]).trip_id),
    ensures
        enqueued(jobs, items, scope, now_ms).len() >= jobs.len(),
        forall|i: int|
            0 <= i < jobs.len() && !has_source(segments, (#[trigger] jobs[i]).trip_id) ==> enqueued(
                jobs,
                items,
                scope,
                now_ms,
            )[i] == jobs[i],
        forall|k: int|
            0 <= k < wanted_items(jobs, items, scope, now_ms).len() ==> has_source(
                segments,
                (#[trigger] wanted_items(jobs, items, scope, now_ms)[k]).trip_id,
            ),
    decreases items.len(),
{
    if items.len() > 0 {
        let u = items.drop_last();
        let x = items.last();
        assert forall|i: int| 0 <= i < u.len() implies has_source(
            segments,
            (#[trigger] u[i]).trip_id,
        ) by {
            assert(u[i] == items[i]);
        }
        assert(has_source(segments, items[items.len() - 1].trip_id));
        lemma_enqueuing_spares(jobs, u, segments, scope, now_ms);
        let before = enqueued(jobs, u, scope, now_ms);
        let after = enqueued(jobs, items, scope, now_ms);
        assert forall|i: int|
            0 <= i < jobs.len() && !has_source(
                segments,
                (#[trigger] jobs[i]).trip_id,
            ) implies after[i] == jobs[i] by {
            assert(before[i] == jobs[i]);
        }
        let rest = wanted_items(jobs, u, scope, now_ms);
        let all = wanted_items(jobs, items, scope, now_ms);
        assert forall|k: int| 0 <= k < all.len() implies has_source(
            segments,
            (#[trigger] all[k]).trip_id,
        ) by {
            if k < rest.len() {
                assert(all[k] == rest[k]);
            }
        }
    }
}

// --------------------------------------------------------------------- chunks

/// Neighbouring jobs of one trip: from `start` up to `end`.
#[derive(Debug, Clone, Copy, PartialEq, Eq, Structural)]
pub struct Chunk {
    pub start: usize,
    pub end: usize,
}

/// The chunks cut the work into runs of one trip each: they follow each other
/// from the first job to the last, each has the jobs of one trip, and the trip
/// changes from one to the next.
pub open spec fn are_chunks(work: Seq<WorkView>, c: Seq<Chunk>) -> bool {
    &&& work.len() == 0 <==> c.len() == 0
    &&& c.len() > 0 ==> c[0].start == 0 && c.last().end == work.len()
    &&& forall|k: int| 0 <= k < c.len() ==> (#[trigger] c[k]).start < c[k].end <= work.len()
    &&& forall|k: int, m: int|
        0 <= k && m == k + 1 && m < c.len() ==> (#[trigger] c[k]).end == (#[trigger] c[m]).start
            && work[c[m].start as int].trip_id != work[c[k].end - 1].trip_id
    &&& forall|k: int, i: int|
        0 <= k < c.len() && c[k].start <= i < c[k].end ==> (#[trigger] work[i]).trip_id == work[(
        #[trigger] c[k]).start as int].trip_id
}

/// Cuts the work into runs of one trip each.
pub fn group_work_by_trip(work: &Vec<WorkItem>) -> (r: Vec<Chunk>)
    ensures
        are_chunks(work_views(work@), r@),
{
    let ghost wv = work_views(work@);
    let mut chunks: Vec<Chunk> = Vec::new();
    if work.len() == 0 {
        return chunks;
    }
    let mut start: usize = 0;
    let mut i: usize = 1;
    while i < work.len()
        invariant
            wv == work_views(work@),
            start < i <= work.len(),
            chunks.len() == 0 ==> start == 0,
            chunks.len() > 0 ==> chunks@[0].start == 0 && chunks@.last().end == start
                && wv[start as int].trip_id != wv[start - 1].trip_id && start > 0,
            forall|k: int|
                0 <= k < chunks.len() ==> (#[trigger] chunks@[k]).start < chunks@[k].end <= start,
            forall|k: int, m: int|
                0 <= k && m == k + 1 && m < chunks.len() ==> (#[trigger] chunks@[k]).end == (
                #[trigger] chunks@[m]).start && wv[chunks@[m].start as int].trip_id
                    != wv[chunks@[k].end - 1].trip_id,
            forall|k: int, j: int|
                0 <= k < chunks.len() && chunks@[k].start <= j < chunks@[k].end ==> (
                #[trigger] wv[j]).trip_id == wv[(#[trigger] chunks@[k]).start as int].trip_id,
            forall|j: int|
                start <= j < i ==> (#[trigger] wv[j]).trip_id == wv[start as int].trip_id,
        decreases work.len() - i,
    {
        proof {
            assert(wv[i as int] == work@[i as int]@);
            assert(wv[i - 1] == work@[i - 1]@);
        }
        if work[i].trip_id != work[i - 1].trip_id {
            chunks.push(Chunk { start, end: i });
            start = i;
        }
        i += 1;
    }
    chunks.push(Chunk { start, end: work.len() });
    chunks
}

// ------------------------------------------------------------------- counting

/// How far a run has come.
#[derive(Debug, Clone, Copy, PartialEq, Eq, Structural)]
pub struct Tally {
    pub total: u64,
    pub done: u64,
    pub failed: u64,
}

/// What became of a job.
#[derive(Debug, Clone, Copy, PartialEq, Eq, Structural)]
pub enum ProcessOutcome {
    Done,
    Failed,
    Cancelled,
}

impl Tally {
    /// No more jobs are counted than there are.
    pub open spec fn is_sound(self) -> bool {
        self.done + self.failed <= self.total
    }

    /// The count with one more outcome.
    pub open spec fn with(self, o: ProcessOutcome) -> Tally {
        match o {
            ProcessOutcome::Done => Tally { done: (self.done + 1) as u64, ..self },
            ProcessOutcome::Failed => Tally { failed: (self.failed + 1) as u64, ..self },
            ProcessOutcome::Cancelled => self,
        }
    }

    /// Nothing has been done yet.
    pub fn new(total: u64) -> (r: Tally)
        ensures
            r == (Tally { total, done: 0, failed: 0 }),
            r.is_sound(),
    {
        Tally { total, done: 0, failed: 0 }
    }

    /// Counts what became of a job. A cancelled one counts neither way.
    pub fn note(&mut self, o: ProcessOutcome)
        requires
            old(self).done + old(self).failed < old(self).total,
        ensures
            *final(self) == old(self).with(o),
            final(self).is_sound(),
    {
        match o {
            ProcessOutcome::Done => {
                self.done = self.done + 1;
            },
            ProcessOutcome::Failed => {
                self.failed = self.failed + 1;
            },
            ProcessOutcome::Cancelled => {},
        }
    }

    /// Counts a whole chunk as failed.
    pub fn fail_chunk(&mut self, n: u64)
        requires
            old(self).done + old(self).failed + n <= old(self).total,
        ensures
            *final(self) == (Tally { failed: (old(self).failed + n) as u64, ..*old(self) }),
            final(self).is_sound(),
    {
        self.failed = self.failed + n;
    }
}

/// How far apart reports of progress are, in milliseconds.
pub const EMIT_INTERVAL_MS: u64 = 250;

/// Whether progress is reported, given the time since the last report.
pub fn is_report_due(elapsed_ms: u64) -> (r: bool)
    ensures
        r == (elapsed_ms >= EMIT_INTERVAL_MS),
{
    elapsed_ms >= EMIT_INTERVAL_MS
}

/// What is reported when a run starts.
#[derive(Debug)]
pub struct TimelapseStartEvent {
    pub total: u64,
    pub tiers: Vec<String>,
}

/// What is reported while a run goes on.
#[derive(Debug)]
pub struct TimelapseProgressEvent {
    pub total: u64,
    pub done: u64,
    pub failed: u64,
    pub current_trip_id: Option<String>,
    pub current_tier: Option<String>,
    pub current_channel: Option<String>,
}

/// What is reported when a run is over.
#[derive(Debug)]
pub struct TimelapseDoneEvent {
    pub total: u64,
    pub done: u64,
    pub failed: u64,
    pub cancelled: bool,
}

/// The report of a run that starts.
pub fn start_event(total: u64, tiers: &Vec<Tier>) -> (r: TimelapseStartEvent)
    ensures
        r.total == total,
        crate::text::views(r.tiers@) == tiers@.map_values(|t: Tier| t.name()),
{
    let ghost wanted = tiers@.map_values(|t: Tier| t.name());
    let mut names: Vec<String> = Vec::new();
    let mut i: usize = 0;
    while i < tiers.len()
        invariant
            i <= tiers.len(),
            wanted == tiers@.map_values(|t: Tier| t.name()),
            crate::text::views(names@) == wanted.take(i as int),
        decreases tiers.len() - i,
    {
        let ghost before = names@;
        names.push(owned(tiers[i].as_str()));
        proof {
            assert(crate::text::views(names@) == crate::text::views(before).push(
                wanted[i as int],
            ));
            assert(wanted.take(i + 1) == wanted.take(i as int).push(wanted[i as int]));
        }
        i += 1;
    }
    proof {
        assert(wanted.take(wanted.len() as int) == wanted);
    }
    TimelapseStartEvent { total, tiers: names }
}

/// The report of a run that goes on, with the job that is being taken up.
pub fn progress_event(t: Tally, item: Option<&WorkItem>) -> (r: TimelapseProgressEvent)
    ensures
        r.total == t.total && r.done == t.done && r.failed == t.failed,
        match item {
            Some(w) => crate::text::opt_view(r.current_trip_id) == Some(w@.trip_id)
                && crate::text::opt_view(r.current_tier) == Some(w@.tier.name())
                && crate::text::opt_view(r.current_channel) == Some(w@.channel.name()),
            None => r.current_trip_id is None && r.current_tier is None && r.current_channel
                is None,
        },
{
    match item {
        Some(w) => TimelapseProgressEvent {
            total: t.total,
            done: t.done,
            failed: t.failed,
            current_trip_id: Some(w.trip_id.clone()),
            current_tier: Some(owned(w.tier.as_str())),
            current_channel: Some(owned(w.channel.as_str())),
        },
        None => TimelapseProgressEvent {
            total: t.total,
            done: t.done,
            failed: t.failed,
            current_trip_id: None,
            current_tier: None,
            current_channel: None,
        },
    }
}

/// The report of a run that is over.
pub fn done_event(t: Tally, cancelled: bool) -> (r: TimelapseDoneEvent)
    ensures
        r == (TimelapseDoneEvent { total: t.total, done: t.done, failed: t.failed, cancelled }),
{
    TimelapseDoneEvent { total: t.total, done: t.done, failed: t.failed, cancelled }
}

/// The number of threads that each encode may use: the cores shared out among
/// the encodes, where several run on the processor.
pub fn cpu_pool_threads(encoder: Encoder, concurrency: usize, cores: usize) -> (r: Option<u64>)
    ensures
        r == (if encoder == Encoder::LibX265 && concurrency > 1 {
            Some(
                (if cores / concurrency < 1 {
                    1int
                } else {
                    (cores / concurrency) as int
                }) as u64,
            )
        } else {
            None
        }),
{
    if encoder == Encoder::LibX265 && concurrency > 1 {
        let n: usize = cores / concurrency;
        if n < 1 {
            Some(1)
        } else {
            Some(n as u64)
        }
    } else {
        None
    }
}

/// The number of jobs that are worked on side by side.
pub fn pool_size(concurrency: usize) -> (r: usize)
    ensures
        r == if concurrency < 1 {
            1
        } else {
            concurrency
        },
{
    if concurrency < 1 {
        1
    } else {
        concurrency
    }
}

/// The count when all of the outcomes have been noted.
pub open spec fn counted(t: Tally, outcomes: Seq<ProcessOutcome>) -> Tally
    decreases outcomes.len(),
{
    if outcomes.len() == 0 {
        t
    } else {
        counted(t, outcomes.drop_last()).with(outcomes.last())
    }
}

/// A run that takes up every job and is not cancelled counts every job, as done
/// or as failed.
pub proof fn every_job_is_counted(total: u64, outcomes: Seq<ProcessOutcome>)
    requires
        outcomes.len() <= total,
        forall|i: int| 0 <= i < outcomes.len() ==> (#[trigger] outcomes[i]) != ProcessOutcome::Cancelled,
    ensures
        ({
            let t = counted(Tally { total, done: 0, failed: 0 }, outcomes);
            t.total == total && t.done + t.failed == outcomes.len() && t.is_sound()
        }),
    decreases outcomes.len(),
{
    if outcomes.len() > 0 {
        let u = outcomes.drop_last();
        assert forall|i: int| 0 <= i < u.len() implies (#[trigger] u[i])
            != ProcessOutcome::Cancelled by {
            assert(u[i] == outcomes[i]);
        }
        every_job_is_counted(total, u);
        assert(outcomes[outcomes.len() - 1] == outcomes.last());
    }
}

// -------------------------------------------------------------------- context

/// A segment as the worker uses it.
#[derive(Debug)]
pub struct SegmentInfo {
    pub master_path: String,
    pub duration_ms: i64,
    pub camera_kind: CameraKind,
}

/// A segment as the worker uses it, with its text as a sequence of characters.
#[verifier::ext_equal]
pub struct InfoView {
    pub master_path: Seq<char>,
    pub duration_ms: i64,
    pub camera_kind: CameraKind,
}

impl View for SegmentInfo {
    type V = InfoView;

    open spec fn view(&self) -> InfoView {
        InfoView {
            master_path: self.master_path@,
            duration_ms: self.duration_ms,
            camera_kind: self.camera_kind,
        }
    }
}

/// The views of segments.
pub open spec fn info_views(v: Seq<SegmentInfo>) -> Seq<InfoView> {
    v.map_values(|s: SegmentInfo| s@)
}

/// The footage of a trip in the order of its starts.
pub open spec fn footage_of(segments: Seq<SegmentView>, trip_id: Seq<char>) -> Seq<SegmentView> {
    crate::sort::sort_by(
        segments.filter(|s: SegmentView| s.trip_id == trip_id && !s.is_tombstone),
        crate::db::queries::row_start(),
    )
}

/// A row as the worker uses it.
pub open spec fn info_of(s: SegmentView, root: Seq<char>) -> InfoView {
    InfoView {
        master_path: crate::paths::path_join(root, s.master_path),
        duration_ms: s.duration_ms,
        camera_kind: crate::db::segments::kind_of(s.camera_kind),
    }
}

/// The rows of a trip's footage in the order of their starts.
pub fn footage_rows(segments: &Vec<SegmentRow>, trip_id: &str) -> (r: Vec<SegmentRow>)
    ensures
        crate::db::rows::segment_rows(r@) == footage_of(
            crate::db::rows::segment_rows(segments@),
            trip_id@,
        ),
{
    let ghost keep = |s: SegmentRow| s.trip_id@ == trip_id@ && !s.is_tombstone;
    let copy = copy_rows(segments);
    let mut marks: Vec<bool> = Vec::new();
    let mut i: usize = 0;
    while i < copy.len()
        invariant
            i <= copy.len(),
            keep == (|s: SegmentRow| s.trip_id@ == trip_id@ && !s.is_tombstone),
            marks.len() == i,
            forall|j: int| 0 <= j < i ==> #[trigger] marks@[j] == keep(copy@[j]),
        decreases copy.len() - i,
    {
        marks.push(same_str(copy[i].trip_id.as_str(), trip_id) && !copy[i].is_tombstone);
        i += 1;
    }
    let kept = retain_marked(copy, marks, Ghost(keep));
    proof {
        let f = |s: SegmentRow| s@;
        let q = |s: SegmentView| s.trip_id == trip_id@ && !s.is_tombstone;
        crate::db::table::filter_commutes_with_map(segments@, keep, f, q);
        assert(crate::db::rows::segment_rows(segments@) == segments@.map_values(f));
        assert(crate::db::rows::segment_rows(kept@) == kept@.map_values(f));
    }
    sort_rows(kept)
}

/// The footage of a trip in the order of its starts.
pub fn trip_segment_info(segments: &Vec<SegmentRow>, trip_id: &str, archive_root: &str) -> (r: Vec<
    SegmentInfo,
>)
    ensures
        info_views(r@) == footage_of(
            crate::db::rows::segment_rows(segments@),
            trip_id@,
        ).map_values(|s: SegmentView| info_of(s, archive_root@)),
{
    let rows = footage_rows(segments, trip_id);
    let ghost rv = crate::db::rows::segment_rows(rows@);
    let ghost wanted = rv.map_values(|s: SegmentView| info_of(s, archive_root@));
    let mut out: Vec<SegmentInfo> = Vec::new();
    let mut i: usize = 0;
    while i < rows.len()
        invariant
            i <= rows.len(),
            rv == crate::db::rows::segment_rows(rows@),
            wanted == rv.map_values(|s: SegmentView| info_of(s, archive_root@)),
            info_views(out@) == wanted.take(i as int),
        decreases rows.len() - i,
    {
        let s = &rows[i];
        proof {
            assert(rv[i as int] == s@);
        }
        let x = SegmentInfo {
            master_path: from_archive_relative(s.master_path.as_str(), archive_root),
            duration_ms: s.duration_ms,
            camera_kind: camera_kind_from_str(s.camera_kind.as_str()),
        };
        let ghost before = out@;
        let ghost xv = x@;
        out.push(x);
        proof {
            assert(xv == wanted[i as int]);
            assert(info_views(out@) == info_views(before).push(xv));
            assert(wanted.take(i + 1) == wanted.take(i as int).push(xv));
        }
        i += 1;
    }
    proof {
        assert(wanted.take(wanted.len() as int) == wanted);
    }
    out
}

/// Where the segment after the first `n` starts on the time line of the trip.
pub open spec fn start_after(durations: Seq<i64>, n: int) -> int
    decreases n,
{
    if n <= 0 {
        0
    } else {
        crate::timelapse::types::saturated(start_after(durations, n - 1) + durations[n - 1])
    }
}

/// What the jobs of a trip are made from.
#[derive(Debug)]
pub struct TripEncodeContext {
    pub front_sources: Vec<String>,
    pub front_durations: Vec<i64>,
    pub windows: Vec<EventWindow>,
    pub total_duration_ms: i64,
}

/// The context is that of the footage and the events: its files and durations in their
/// order, and how long it is.
pub open spec fn is_context_of(
    segments: Seq<InfoView>,
    windows: Vec<EventWindow>,
    r: TripEncodeContext,
) -> bool {
    &&& crate::text::views(r.front_sources@) == segments.map_values(|s: InfoView| s.master_path)
    &&& r.front_durations@ == segments.map_values(|s: InfoView| s.duration_ms)
    &&& r.windows == windows
    &&& r.total_duration_ms == start_after(r.front_durations@, segments.len() as int)
}

/// What the jobs of a trip are made from, given its footage and its events.
pub fn build_trip_context(segments: &Vec<SegmentInfo>, windows: Vec<EventWindow>) -> (r:
    TripEncodeContext)
    ensures
        is_context_of(info_views(segments@), windows, r),
{
    let ghost iv = info_views(segments@);
    let ghost paths = iv.map_values(|s: InfoView| s.master_path);
    let ghost lengths = iv.map_values(|s: InfoView| s.duration_ms);
    let mut front_sources: Vec<String> = Vec::new();
    let mut front_durations: Vec<i64> = Vec::new();
    let mut total: i64 = 0;
    let mut i: usize = 0;
    while i < segments.len()
        invariant
            i <= segments.len(),
            iv == info_views(segments@),
            paths == iv.map_values(|s: InfoView| s.master_path),
            lengths == iv.map_values(|s: InfoView| s.duration_ms),
            crate::text::views(front_sources@) == paths.take(i as int),
            front_durations@ == lengths.take(i as int),
            total == start_after(lengths, i as int),
        decreases segments.len() - i,
    {
        let s = &segments[i];
        proof {
            assert(iv[i as int] == s@);
        }
        let ghost before = front_sources@;
        front_sources.push(s.master_path.clone());
        front_durations.push(s.duration_ms);
        total = saturating_sum(total, s.duration_ms);
        proof {
            assert(crate::text::views(front_sources@) == crate::text::views(before).push(
                paths[i as int],
            ));
            assert(paths.take(i + 1) == paths.take(i as int).push(paths[i as int]));
            assert(lengths.take(i + 1) == lengths.take(i as int).push(lengths[i as int]));
        }
        i += 1;
    }
    proof {
        assert(paths.take(paths.len() as int) == paths);
        assert(lengths.take(lengths.len() as int) == lengths);
    }
    TripEncodeContext { front_sources, front_durations, windows, total_duration_ms: total }
}

/// A position on the time line of a trip: the point `index` of the segment
/// `segment`, at the time `t_ms` of the trip.
#[derive(Debug, Clone, Copy, PartialEq, Eq, Structural)]
pub struct StitchedPoint {
    pub segment: usize,
    pub index: usize,
    pub t_ms: i64,
}

/// The points of a segment that lie within its duration, on the time line of
/// the trip.
pub open spec fn stitched(
    offsets: Seq<i64>,
    segment: usize,
    cursor: i64,
    duration_ms: i64,
    n: int,
) -> Seq<StitchedPoint>
    decreases n,
{
    if n <= 0 {
        Seq::empty()
    } else {
        let rest = stitched(offsets, segment, cursor, duration_ms, n - 1);
        if offsets[n - 1] > duration_ms {
            rest
        } else {
            rest.push(
                StitchedPoint {
                    segment,
                    index: (n - 1) as usize,
                    t_ms: crate::timelapse::types::saturated(cursor + offsets[n - 1]) as i64,
                },
            )
        }
    }
}

/// Puts the points of a segment behind those of the segments before it. Points
/// past the end of the segment are left out.
pub fn append_segment_points(
    out: &mut Vec<StitchedPoint>,
    segment: usize,
    cursor: i64,
    duration_ms: i64,
    offsets: &Vec<i64>,
)
    ensures
        final(out)@ == old(out)@ + stitched(
            offsets@,
            segment,
            cursor,
            duration_ms,
            offsets.len() as int,
        ),
{
    let ghost start = out@;
    let mut i: usize = 0;
    proof {
        assert(start + stitched(offsets@, segment, cursor, duration_ms, 0) == start);
    }
    while i < offsets.len()
        invariant
            i <= offsets.len(),
            out@ == start + stitched(offsets@, segment, cursor, duration_ms, i as int),
        decreases offsets.len() - i,
    {
        let t: i64 = offsets[i];
        if t <= duration_ms {
            out.push(StitchedPoint { segment, index: i, t_ms: saturating_sum(cursor, t) });
        }
        i += 1;
        proof {
            assert(out@ == start + stitched(offsets@, segment, cursor, duration_ms, i as int));
        }
    }
}

/// The points of the first `n` segments on the time line of the trip.
pub open spec fn stitched_all(durations: Seq<i64>, offsets: Seq<Seq<i64>>, n: int) -> Seq<
    StitchedPoint,
>
    decreases n,
{
    if n <= 0 {
        Seq::empty()
    } else {
        stitched_all(durations, offsets, n - 1) + stitched(
            offsets[n - 1],
            (n - 1) as usize,
            start_after(durations, n - 1) as i64,
            durations[n - 1],
            offsets[n - 1].len() as int,
        )
    }
}

/// The points of all segments on the time line of the trip, given the times of
/// each segment's points from its own start.
pub fn stitch_trip_gps(durations: &Vec<i64>, offsets: &Vec<Vec<i64>>) -> (r: Vec<StitchedPoint>)
    requires
        durations.len() == offsets.len(),
    ensures
        r@ == stitched_all(
            durations@,
            offsets@.map_values(|v: Vec<i64>| v@),
            durations.len() as int,
        ),
{
    let ghost ov = offsets@.map_values(|v: Vec<i64>| v@);
    let mut out: Vec<StitchedPoint> = Vec::new();
    let mut cursor: i64 = 0;
    let mut i: usize = 0;
    while i < durations.len()
        invariant
            i <= durations.len(),
            durations.len() == offsets.len(),
            ov == offsets@.map_values(|v: Vec<i64>| v@),
            cursor == start_after(durations@, i as int),
            out@ == stitched_all(durations@, ov, i as int),
        decreases durations.len() - i,
    {
        append_segment_points(&mut out, i, cursor, durations[i], &offsets[i]);
        cursor = saturating_sum(cursor, durations[i]);
        i += 1;
    }
    out
}

// ----------------------------------------------------------- channel coverage

/// The files of a channel, the runs of the trip that they cover, and the number
/// of segments without a file.
#[derive(Debug)]
pub struct ChannelResolution {
    pub sources: Vec<String>,
    pub covered: Vec<Run>,
    pub missing_count: usize,
}

/// The files among the first `n` segments.
pub open spec fn found_files(files: Seq<Option<Seq<char>>>, n: int) -> Seq<Seq<char>>
    decreases n,
{
    if n <= 0 {
        Seq::empty()
    } else {
        match files[n - 1] {
            Some(f) => found_files(files, n - 1).push(f),
            None => found_files(files, n - 1),
        }
    }
}

/// The number of segments without a file among the first `n`.
pub open spec fn missing_files(files: Seq<Option<Seq<char>>>, n: int) -> int
    decreases n,
{
    if n <= 0 {
        0
    } else {
        missing_files(files, n - 1) + if files[n - 1] is None {
            1int
        } else {
            0
        }
    }
}

/// The first segment of the run of segments with a file that ends at `n`; `n`
/// itself where the segment before has none.
pub open spec fn run_start(files: Seq<Option<Seq<char>>>, n: int) -> int
    decreases n,
{
    if n <= 0 || files[n - 1] is None {
        n
    } else {
        run_start(files, n - 1)
    }
}

/// The runs of the trip that end before the segment `n`: one for each longest
/// row of segments with a file.
pub open spec fn ended_runs(files: Seq<Option<Seq<char>>>, durations: Seq<i64>, n: int) -> Seq<Run>
    decreases n,
{
    if n <= 0 {
        Seq::empty()
    } else if files[n - 1] is None && run_start(files, n - 1) < n - 1 {
        ended_runs(files, durations, n - 1).push(
            Run {
                start: start_after(durations, run_start(files, n - 1)) as i64,
                end: start_after(durations, n - 1) as i64,
            },
        )
    } else {
        ended_runs(files, durations, n - 1)
    }
}

/// The runs of the trip that the files cover.
pub open spec fn covered_runs(files: Seq<Option<Seq<char>>>, durations: Seq<i64>) -> Seq<Run> {
    let n = files.len() as int;
    let s = run_start(files, n);
    if s < n {
        ended_runs(files, durations, n).push(
            Run {
                start: start_after(durations, s) as i64,
                end: start_after(durations, n) as i64,
            },
        )
    } else {
        ended_runs(files, durations, n)
    }
}

/// The views of files that may be missing.
pub open spec fn file_views(v: Seq<Option<String>>) -> Seq<Option<Seq<char>>> {
    v.map_values(|f: Option<String>| crate::text::opt_view(f))
}

/// What a channel covers, given for each segment the channel's file and the
/// segment's duration.
pub fn gather_coverage(files: &Vec<Option<String>>, durations: &Vec<i64>) -> (r: ChannelResolution)
    requires
        files.len() == durations.len(),
    ensures
        crate::text::views(r.sources@) == found_files(file_views(files@), files.len() as int),
        r.covered@ == covered_runs(file_views(files@), durations@),
        r.missing_count == missing_files(file_views(files@), files.len() as int),
{
    let ghost fv = file_views(files@);
    let mut sources: Vec<String> = Vec::new();
    let mut covered: Vec<Run> = Vec::new();
    let mut missing_count: usize = 0;
    let mut cursor: i64 = 0;
    let mut open: Option<i64> = None;
    let mut i: usize = 0;
    proof {
        assert(crate::text::views(sources@) == Seq::<Seq<char>>::empty());
    }
    while i < files.len()
        invariant
            i <= files.len(),
            files.len() == durations.len(),
            fv == file_views(files@),
            cursor == start_after(durations@, i as int),
            crate::text::views(sources@) == found_files(fv, i as int),
            covered@ == ended_runs(fv, durations@, i as int),
            missing_count == missing_files(fv, i as int),
            missing_count <= i,
            0 <= run_start(fv, i as int) <= i,
            match open {
                Some(s) => run_start(fv, i as int) < i && s == start_after(
                    durations@,
                    run_start(fv, i as int),
                ),
                None => run_start(fv, i as int) == i,
            },
        decreases files.len() - i,
    {
        proof {
            assert(fv[i as int] == crate::text::opt_view(files@[i as int]));
        }
        match &files[i] {
            Some(f) => {
                let ghost before = sources@;
                sources.push(f.clone());
                proof {
                    assert(crate::text::views(sources@) == crate::text::views(before).push(f@));
                }
                if open.is_none() {
                    open = Some(cursor);
                }
            },
            None => {
                missing_count = missing_count + 1;
                if let Some(s) = open {
                    covered.push(Run { start: s, end: cursor });
                    open = None;
                }
            },
        }
        cursor = saturating_sum(cursor, durations[i]);
        i += 1;
    }
    if let Some(s) = open {
        covered.push(Run { start: s, end: cursor });
    }
    ChannelResolution { sources, covered, missing_count }
}

/// The durations are not negative, and the trip is not longer than can be
/// counted.
pub open spec fn is_time_line(durations: Seq<i64>) -> bool {
    forall|i: int|
        0 <= i < durations.len() ==> (#[trigger] durations[i]) >= 0 && start_after(durations, i)
            + durations[i] <= i64::MAX
}

proof fn lemma_start_order(durations: Seq<i64>, a: int, b: int)
    requires
        is_time_line(durations),
        0 <= a <= b <= durations.len(),
    ensures
        0 <= start_after(durations, a) <= start_after(durations, b) <= i64::MAX,
    decreases b,
{
    if b > 0 {
        assert(durations[b - 1] >= 0);
        if a < b {
            lemma_start_order(durations, a, b - 1);
        } else {
            lemma_start_order(durations, a - 1, b - 1);
        }
    }
}

/// The time lies in the segment `i`, and the segment has a file.
pub open spec fn in_file_of(
    files: Seq<Option<Seq<char>>>,
    durations: Seq<i64>,
    i: int,
    t: int,
) -> bool {
    files[i] is Some && start_after(durations, i) <= t < start_after(durations, i + 1)
}

/// The time lies in one of the segments from `m` to `n` with a file.
pub open spec fn in_file(
    files: Seq<Option<Seq<char>>>,
    durations: Seq<i64>,
    m: int,
    n: int,
    t: int,
) -> bool {
    exists|i: int| m <= i < n && #[trigger] in_file_of(files, durations, i, t)
}

proof fn lemma_run(files: Seq<Option<Seq<char>>>, durations: Seq<i64>, n: int, t: int)
    requires
        is_time_line(durations),
        0 <= n <= files.len(),
        files.len() == durations.len(),
    ensures
        0 <= run_start(files, n) <= n,
        in_file(files, durations, run_start(files, n), n, t) <==> start_after(
            durations,
            run_start(files, n),
        ) <= t < start_after(durations, n),
    decreases n,
{
    if n > 0 && files[n - 1] is Some {
        lemma_run(files, durations, n - 1, t);
        let s = run_start(files, n);
        lemma_start_order(durations, s, n - 1);
        lemma_start_order(durations, n - 1, n);
        lemma_in_more(files, durations, s, n - 1, n, t);
        lemma_in_one(files, durations, n - 1, t);
    } else {
        lemma_in_none(files, durations, n, t);
    }
}

proof fn lemma_in_none(files: Seq<Option<Seq<char>>>, durations: Seq<i64>, n: int, t: int)
    ensures
        !in_file(files, durations, n, n, t),
{
}

proof fn lemma_in_one(files: Seq<Option<Seq<char>>>, durations: Seq<i64>, n: int, t: int)
    ensures
        in_file(files, durations, n, n + 1, t) <==> in_file_of(files, durations, n, t),
{
}

proof fn lemma_in_more(
    files: Seq<Option<Seq<char>>>,
    durations: Seq<i64>,
    s: int,
    m: int,
    n: int,
    t: int,
)
    requires
        s <= m <= n,
    ensures
        in_file(files, durations, s, n, t) <==> in_file(files, durations, s, m, t) || in_file(
            files,
            durations,
            m,
            n,
            t,
        ),
{
    if in_file(files, durations, s, n, t) {
        let i = choose|i: int| s <= i < n && #[trigger] in_file_of(files, durations, i, t);
        if i < m {
            assert(in_file_of(files, durations, i, t));
        }
    }
}

proof fn lemma_covered_more(before: Seq<Run>, run: Run, t: int)
    ensures
        crate::timelapse::speed_curve::is_covered(before.push(run), t)
            <==> crate::timelapse::speed_curve::is_covered(before, t) || run.start <= t < run.end,
{
    let after = before.push(run);
    if crate::timelapse::speed_curve::is_covered(after, t) {
        let j = choose|j: int|
            0 <= j < after.len() && (#[trigger] after[j]).start <= t < after[j].end;
        if j < before.len() {
            assert(before[j].start <= t < before[j].end);
        }
    }
    if crate::timelapse::speed_curve::is_covered(before, t) {
        let j = choose|j: int|
            0 <= j < before.len() && (#[trigger] before[j]).start <= t < before[j].end;
        assert(after[j].start <= t < after[j].end);
    }
    if run.start <= t < run.end {
        assert(after[before.len() as int].start <= t < after[before.len() as int].end);
    }
}

/// The run from its start up to the segment `n`.
pub open spec fn run_up_to(files: Seq<Option<Seq<char>>>, durations: Seq<i64>, n: int) -> Run {
    Run {
        start: start_after(durations, run_start(files, n)) as i64,
        end: start_after(durations, n) as i64,
    }
}

proof fn lemma_ended(files: Seq<Option<Seq<char>>>, durations: Seq<i64>, n: int, t: int)
    requires
        is_time_line(durations),
        0 <= n <= files.len(),
        files.len() == durations.len(),
    ensures
        crate::timelapse::speed_curve::is_covered(ended_runs(files, durations, n), t) <==> in_file(
            files,
            durations,
            0,
            run_start(files, n),
            t,
        ),
    decreases n,
{
    if n > 0 {
        lemma_ended(files, durations, n - 1, t);
        if files[n - 1] is None {
            let s = run_start(files, n - 1);
            lemma_run(files, durations, n - 1, t);
            lemma_in_one(files, durations, n - 1, t);
            lemma_in_more(files, durations, 0, s, n - 1, t);
            lemma_in_more(files, durations, 0, n - 1, n, t);
            lemma_start_order(durations, s, n - 1);
            if s < n - 1 {
                lemma_covered_more(
                    ended_runs(files, durations, n - 1),
                    run_up_to(files, durations, n - 1),
                    t,
                );
            }
        }
    }
}

/// The covered runs hold exactly the times of the segments that have a file.
pub proof fn coverage_is_where_files_are(
    files: Seq<Option<Seq<char>>>,
    durations: Seq<i64>,
    t: int,
)
    requires
        files.len() == durations.len(),
        is_time_line(durations),
    ensures
        crate::timelapse::speed_curve::is_covered(covered_runs(files, durations), t) <==> in_file(
            files,
            durations,
            0,
            files.len() as int,
            t,
        ),
{
    let n = files.len() as int;
    let s = run_start(files, n);
    lemma_ended(files, durations, n, t);
    lemma_run(files, durations, n, t);
    lemma_start_order(durations, s, n);
    lemma_in_more(files, durations, 0, s, n, t);
    if s < n {
        lemma_covered_more(ended_runs(files, durations, n), run_up_to(files, durations, n), t);
    }
}

/// The paths in the directory of a file, or why they could not be listed.
#[derive(Debug)]
pub enum Listing {
    Paths(Vec<String>),
    Unreadable(String),
}

/// The directory of the file must be listed, and could not be.
pub open spec fn cannot_list(front: Seq<char>, listing: Listing) -> bool {
    crate::paths::parent(front) is Some && listing is Unreadable
}

/// `file` is the channel's file of the recording that `front` belongs to.
pub open spec fn is_file_of(
    front: Seq<char>,
    listing: Listing,
    label: Seq<char>,
    file: Option<Seq<char>>,
) -> bool {
    match crate::scan::siblings::path_reading(front) {
        Some(anchor) => if crate::paths::parent(front) is None {
            file is None
        } else {
            listing matches Listing::Paths(paths) && crate::scan::siblings::is_sibling(
                crate::scan::siblings::listing_of(crate::text::views(paths@)),
                anchor,
                label,
                file,
            )
        },
        None => file is None,
    }
}

/// The channel's files of all segments.
pub open spec fn are_files_of(
    fronts: Seq<Seq<char>>,
    listings: Seq<Listing>,
    label: Seq<char>,
    files: Seq<Option<Seq<char>>>,
) -> bool {
    files.len() == fronts.len() && forall|i: int|
        0 <= i < files.len() ==> is_file_of(fronts[i], listings[i], label, #[trigger] files[i])
}

/// The channel's file of the recording that a file belongs to, given the paths
/// in its directory.
pub fn resolve_sibling_path(front_path: &str, target: Channel, listing: &Listing) -> (r: Result<
    Option<String>,
    AppError,
>)
    ensures
        match r {
            Ok(f) => !cannot_list(front_path@, *listing) && is_file_of(
                front_path@,
                *listing,
                target.file_label(),
                crate::text::opt_view(f),
            ),
            Err(e) => cannot_list(front_path@, *listing) && (e matches AppError::Io(m)
                && listing matches Listing::Unreadable(why) && m@ == why@),
        },
{
    let c = components_of(front_path);
    if c.len() == 0 {
        return Ok(None);
    }
    match listing {
        Listing::Paths(paths) => find_sibling_file(front_path, target.label(), paths),
        Listing::Unreadable(why) => Err(AppError::Io(why.clone())),
    }
}

/// The files of a channel and what they cover, given for each segment of the
/// trip its file, its duration and the paths in its directory.
pub fn resolve_channel_sources(
    front_sources: &Vec<String>,
    front_durations: &Vec<i64>,
    channel: Channel,
    listings: &Vec<Listing>,
) -> (r: Result<ChannelResolution, AppError>)
    requires
        front_sources.len() == front_durations.len(),
        front_sources.len() == listings.len(),
    ensures
        ({
            let fronts = crate::text::views(front_sources@);
            match r {
                Ok(res) => exists|files: Seq<Option<Seq<char>>>| #[trigger]
                    are_files_of(fronts, listings@, channel.file_label(), files)
                        && crate::text::views(res.sources@) == found_files(
                        files,
                        files.len() as int,
                    ) && res.covered@ == covered_runs(files, front_durations@)
                        && res.missing_count == missing_files(files, files.len() as int)
                        && forall|i: int|
                        0 <= i < fronts.len() ==> !cannot_list(#[trigger] fronts[i], listings@[i]),
                Err(e) => exists|k: int|
                    0 <= k < fronts.len() && cannot_list(#[trigger] fronts[k], listings@[k])
                        && (forall|j: int|
                        0 <= j < k ==> !cannot_list(#[trigger] fronts[j], listings@[j])) && (
                    e matches AppError::Io(m) && listings@[k] matches Listing::Unreadable(why)
                        && m@ == why@),
            }
        }),
{
    let ghost fronts = crate::text::views(front_sources@);
    let mut files: Vec<Option<String>> = Vec::new();
    let mut i: usize = 0;
    while i < front_sources.len()
        invariant
            i <= front_sources.len(),
            fronts == crate::text::views(front_sources@),
            front_sources.len() == listings.len(),
            files.len() == i,
            forall|j: int|
                0 <= j < i ==> is_file_of(
                    fronts[j],
                    listings@[j],
                    channel.file_label(),
                    crate::text::opt_view(#[trigger] files@[j]),
                ),
            forall|j: int| 0 <= j < i ==> !cannot_list(#[trigger] fronts[j], listings@[j]),
        decreases front_sources.len() - i,
    {
        proof {
            assert(fronts[i as int] == front_sources@[i as int]@);
        }
        match resolve_sibling_path(front_sources[i].as_str(), channel, &listings[i]) {
            Ok(f) => {
                files.push(f);
            },
            Err(e) => {
                return Err(e);
            },
        }
        i += 1;
    }
    let res = gather_coverage(&files, front_durations);
    proof {
        let fv = file_views(files@);
        assert forall|j: int| 0 <= j < fv.len() implies is_file_of(
            fronts[j],
            listings@[j],
            channel.file_label(),
            #[trigger] fv[j],
        ) by {
            assert(fv[j] == crate::text::opt_view(files@[j]));
        }
        assert(are_files_of(fronts, listings@, channel.file_label(), fv));
    }
    Ok(res)
}

// ---------------------------------------------------------------- one job

/// The directory of the timelapses in an archive.
pub open spec fn output_root(archive_root: Seq<char>) -> Seq<char> {
    crate::paths::path_join(archive_root, "Timelapses"@)
}

/// The directory of the timelapses in an archive.
pub fn resolve_output_root(archive_root: &str) -> (r: String)
    ensures
        r@ == output_root(archive_root@),
{
    from_archive_relative("Timelapses", archive_root)
}

/// What a job is called.
pub open spec fn job_name(trip_id: Seq<char>, tier: Seq<char>, channel: Seq<char>) -> Seq<char> {
    trip_id + "_"@ + tier + "_"@ + channel
}

/// The name of a job's output file.
pub open spec fn output_name(trip_id: Seq<char>, tier: Seq<char>, channel: Seq<char>) -> Seq<
    char,
> {
    job_name(trip_id, tier, channel) + ".mp4"@
}

/// What a job is called.
pub fn name_of_job(trip_id: &str, tier: &str, channel: &str) -> (r: String)
    ensures
        r@ == job_name(trip_id@, tier@, channel@),
{
    let mut s = owned(trip_id);
    s.append("_");
    s.append(tier);
    s.append("_");
    s.append(channel);
    s
}

/// The name of a job's output file.
pub fn output_file_name(trip_id: &str, tier: &str, channel: &str) -> (r: String)
    ensures
        r@ == output_name(trip_id@, tier@, channel@),
{
    let mut s = name_of_job(trip_id, tier, channel);
    s.append(".mp4");
    s
}

/// What all jobs of a run have in common.
#[derive(Debug)]
pub struct RunSetup {
    pub encoder: Encoder,
    pub output_root: String,
    pub archive_root: String,
    pub ffmpeg_version: String,
    pub cpu_pool_threads: Option<u64>,
}

/// An encode that is to be done, the curve that is kept of it, and the number
/// of segments that it has to do without.
#[derive(Debug)]
pub struct ItemPlan {
    pub args: EncodeArgs,
    pub persist_curve: Vec<CurveSegment>,
    pub missing_count: usize,
}

/// Something that happened to a job while it is worked on.
#[derive(Debug)]
pub enum ItemEvent {
    /// The job was recorded as taken up, or could not be.
    Marked(bool),
    /// Its files were looked for.
    Resolved(Result<ChannelResolution, AppError>),
    /// Its scratch directory was made, or could not be for the given reason.
    ScratchMade { resolution: ChannelResolution, failure: Option<String> },
    /// It was encoded by the plan, or could not be. `canonical` is the path of
    /// the output without symbolic links.
    Encoded {
        plan: ItemPlan,
        result: Result<(), AppError>,
        canonical: Option<String>,
        size_bytes: Option<i64>,
        now_ms: i64,
    },
    /// What became of it was recorded, or could not be.
    Recorded { outcome: ProcessOutcome, written: bool },
}

/// What is recorded of an encode that is done, but for its curve.
#[derive(Debug)]
pub struct FinishedItem {
    pub output_path: String,
    pub ffmpeg_version: String,
    pub encoder_used: String,
    pub padded_count: i64,
    pub output_size_bytes: Option<i64>,
    pub now_ms: i64,
}

/// The change records what is known of an encode that is done.
pub open spec fn is_finish_of(
    done: FinishedItem,
    curve_json: String,
    r: JobChange,
) -> bool {
    r matches JobChange::Finished {
        output_path,
        ffmpeg_version,
        encoder_used,
        padded_count,
        speed_curve_json,
        output_size_bytes,
        now_ms,
    } && output_path == done.output_path && ffmpeg_version == done.ffmpeg_version
        && encoder_used == done.encoder_used && padded_count == done.padded_count
        && speed_curve_json == curve_json && output_size_bytes == done.output_size_bytes
        && now_ms == done.now_ms
}

/// What is recorded of an encode that is done, with its curve as text.
pub fn finished_change(done: FinishedItem, curve_json: String) -> (r: JobChange)
    ensures
        is_finish_of(done, curve_json, r),
{
    JobChange::Finished {
        output_path: done.output_path,
        ffmpeg_version: done.ffmpeg_version,
        encoder_used: done.encoder_used,
        padded_count: done.padded_count,
        speed_curve_json: curve_json,
        output_size_bytes: done.output_size_bytes,
        now_ms: done.now_ms,
    }
}

/// What is to be done next for a job.
#[derive(Debug)]
pub enum ItemAction {
    /// Look for its files.
    Resolve,
    /// Make its scratch directory.
    MakeScratch { dir: String, resolution: ChannelResolution },
    /// Encode it.
    Encode(ItemPlan),
    /// Record what became of it; `sweep` tells whether the scratch directory is
    /// to be removed first.
    Record { change: JobChange, outcome: ProcessOutcome, sweep: bool },
    /// Remove the scratch directory, and record that it is done, with this curve.
    Finish { done: FinishedItem, curve: Vec<CurveSegment> },
    /// Nothing more.
    End(ProcessOutcome),
}

/// The scratch directory of a job.
pub open spec fn scratch_of(root: Seq<char>, item: WorkView) -> Seq<char> {
    crate::paths::path_join(
        crate::paths::path_join(root, ".tmp"@),
        job_name(item.trip_id, item.tier.name(), item.channel.name()),
    )
}

/// The scratch directory of a job.
pub fn scratch_dir(output_root: &str, item: &WorkItem) -> (r: String)
    ensures
        r@ == scratch_of(output_root@, item@),
{
    let tmp = from_archive_relative(".tmp", output_root);
    let name = name_of_job(item.trip_id.as_str(), item.tier.as_str(), item.channel.as_str());
    from_archive_relative(name.as_str(), tmp.as_str())
}

/// The encode of a job: the trip's curve where the channel has footage, over
/// the footage alone.
pub open spec fn planned(
    setup: RunSetup,
    item: WorkView,
    ctx: TripEncodeContext,
    res: ChannelResolution,
    plan: ItemPlan,
) -> bool {
    let kept = crate::timelapse::speed_curve::restricted(
        crate::timelapse::speed_curve::curve_of(ctx.windows@, item.tier, ctx.total_duration_ms),
        res.covered@,
    );
    &&& plan.persist_curve@ == kept
    &&& plan.missing_count == res.missing_count
    &&& plan.args@ == (crate::timelapse::ffmpeg::EncodeView {
        source_paths: crate::text::views(res.sources@),
        output_path: crate::paths::path_join(
            setup.output_root@,
            output_name(item.trip_id, item.tier.name(), item.channel.name()),
        ),
        encoder: setup.encoder,
        curve: crate::timelapse::speed_curve::collapsed(kept),
        scratch_dir: scratch_of(setup.output_root@, item),
        cpu_pool_threads: setup.cpu_pool_threads,
        software_input: false,
    })
}

/// The encode of a job.
pub fn plan_item(
    setup: &RunSetup,
    item: &WorkItem,
    ctx: &TripEncodeContext,
    res: ChannelResolution,
) -> (r: ItemPlan)
    ensures
        planned(*setup, item@, *ctx, res, r),
{
    let trip_curve = build_curve(&ctx.windows, item.tier, ctx.total_duration_ms);
    let persist_curve = restrict_curve_to_coverage(&trip_curve, &res.covered);
    let curve = collapse_gaps(&persist_curve);
    let name = output_file_name(item.trip_id.as_str(), item.tier.as_str(), item.channel.as_str());
    let args = EncodeArgs {
        source_paths: res.sources,
        output_path: from_archive_relative(name.as_str(), setup.output_root.as_str()),
        encoder: setup.encoder,
        curve,
        scratch_dir: scratch_dir(setup.output_root.as_str(), item),
        cpu_pool_threads: setup.cpu_pool_threads,
        software_input: false,
    };
    ItemPlan { args, persist_curve, missing_count: res.missing_count }
}

/// The action records a failure for the given reason.
pub open spec fn records_failure(a: ItemAction, text: Seq<char>, sweep: bool) -> bool {
    a matches ItemAction::Record { change, outcome, sweep: s } && s == sweep && outcome
        == ProcessOutcome::Failed && (change matches JobChange::Failed(m) && m@ == text)
}

/// The encode was cancelled.
pub open spec fn is_cancelled(e: AppError) -> bool {
    e matches AppError::Internal(m) && m@ == "cancelled"@
}

fn was_cancelled(e: &AppError) -> (r: bool)
    ensures
        r == is_cancelled(*e),
{
    match e {
        AppError::Internal(m) => same_str(m.as_str(), "cancelled"),
        _ => false,
    }
}

/// The action is what is to be done next for a job, given what happened to it.
pub open spec fn is_next_for_item(
    setup: RunSetup,
    item: WorkView,
    ctx: TripEncodeContext,
    event: ItemEvent,
    r: ItemAction,
) -> bool {
    match event {
        ItemEvent::Marked(ok) => if ok {
            r is Resolve
        } else {
            r matches ItemAction::End(o) && o == ProcessOutcome::Failed
        },
        ItemEvent::Resolved(Err(e)) => records_failure(
            r,
            "sibling lookup failed: "@ + e.words(),
            false,
        ),
        ItemEvent::Resolved(Ok(res)) => r matches ItemAction::MakeScratch { dir, resolution }
            && dir@ == scratch_of(setup.output_root@, item) && resolution == res,
        ItemEvent::ScratchMade { resolution, failure: Some(why) } => records_failure(
            r,
            "scratch dir create failed: "@ + why@,
            false,
        ),
        ItemEvent::ScratchMade { resolution, failure: None } => if resolution.sources.len()
            == 0 {
            records_failure(
                r,
                "no files for this channel (camera may not record it)"@,
                true,
            )
        } else {
            r matches ItemAction::Encode(plan) && planned(
                setup,
                item,
                ctx,
                resolution,
                plan,
            )
        },
        ItemEvent::Encoded { plan, result, canonical, size_bytes, now_ms } => match result {
            Ok(_) => r matches ItemAction::Finish { done, curve } && curve
                == plan.persist_curve && done.output_path@ == crate::paths::storage_form(
                plan.args.output_path@,
                crate::text::opt_view(canonical),
                setup.archive_root@,
            ) && done.ffmpeg_version@ == setup.ffmpeg_version@ && done.encoder_used@
                == setup.encoder.name() && done.padded_count == plan.missing_count as i64
                && done.output_size_bytes == size_bytes && done.now_ms == now_ms,
            Err(e) => if is_cancelled(e) {
                r matches ItemAction::Record { change, outcome, sweep } && sweep && outcome
                    == ProcessOutcome::Cancelled && change is PutBack
            } else {
                records_failure(r, e.words(), true)
            },
        },
        ItemEvent::Recorded { outcome, written } => r matches ItemAction::End(o) && o == (
        if outcome == ProcessOutcome::Done && !written {
            ProcessOutcome::Failed
        } else {
            outcome
        }),
    }
}

/// What is to be done next for a job, given what happened to it.
pub fn process_item(setup: &RunSetup, item: &WorkItem, ctx: &TripEncodeContext, event: ItemEvent)
    -> (r: ItemAction)
    requires
        event matches ItemEvent::Encoded { canonical, .. } ==> (canonical matches Some(c)
            ==> crate::paths::is_absolute(c@)),
    ensures
        is_next_for_item(*setup, item@, *ctx, event, r),
{
    match event {
        ItemEvent::Marked(ok) => if ok {
            ItemAction::Resolve
        } else {
            ItemAction::End(ProcessOutcome::Failed)
        },
        ItemEvent::Resolved(Err(e)) => ItemAction::Record {
            change: JobChange::Failed(concat2("sibling lookup failed: ", e.describe().as_str())),
            outcome: ProcessOutcome::Failed,
            sweep: false,
        },
        ItemEvent::Resolved(Ok(resolution)) => ItemAction::MakeScratch {
            dir: scratch_dir(setup.output_root.as_str(), item),
            resolution,
        },
        ItemEvent::ScratchMade { resolution, failure } => match failure {
            Some(why) => ItemAction::Record {
                change: JobChange::Failed(concat2("scratch dir create failed: ", why.as_str())),
                outcome: ProcessOutcome::Failed,
                sweep: false,
            },
            None => if resolution.sources.len() == 0 {
                ItemAction::Record {
                    change: JobChange::Failed(
                        owned("no files for this channel (camera may not record it)"),
                    ),
                    outcome: ProcessOutcome::Failed,
                    sweep: true,
                }
            } else {
                ItemAction::Encode(plan_item(setup, item, ctx, resolution))
            },
        },
        ItemEvent::Encoded { plan, result, canonical, size_bytes, now_ms } => match result {
            Ok(_) => {
                let stored = crate::paths::relativize_for_storage(
                    plan.args.output_path.as_str(),
                    &canonical,
                    setup.archive_root.as_str(),
                );
                let done = FinishedItem {
                    output_path: stored,
                    ffmpeg_version: setup.ffmpeg_version.clone(),
                    encoder_used: owned(setup.encoder.as_str()),
                    padded_count: plan.missing_count as i64,
                    output_size_bytes: size_bytes,
                    now_ms,
                };
                ItemAction::Finish { done, curve: plan.persist_curve }
            },
            Err(e) => if was_cancelled(&e) {
                ItemAction::Record {
                    change: JobChange::PutBack,
                    outcome: ProcessOutcome::Cancelled,
                    sweep: true,
                }
            } else {
                ItemAction::Record {
                    change: JobChange::Failed(e.describe()),
                    outcome: ProcessOutcome::Failed,
                    sweep: true,
                }
            },
        },
        ItemEvent::Recorded { outcome, written } => if outcome == ProcessOutcome::Done && !written {
            ItemAction::End(ProcessOutcome::Failed)
        } else {
            ItemAction::End(outcome)
        },
    }
}

/// Why the jobs of a trip cannot be taken up, given what they are made from.
pub open spec fn refusal_of(ctx: Result<TripEncodeContext, AppError>) -> Option<Seq<char>> {
    match ctx {
        Err(e) => Some("trip lookup failed: "@ + e.words()),
        Ok(c) => if c.front_sources.len() == 0 {
            Some("no segments found for trip"@)
        } else {
            None
        },
    }
}

/// Why the jobs of a trip cannot be taken up, given what they are made from.
pub fn chunk_refusal(ctx: &Result<TripEncodeContext, AppError>) -> (r: Option<String>)
    ensures
        crate::text::opt_view(r) == refusal_of(*ctx),
{
    match ctx {
        Err(e) => Some(concat2("trip lookup failed: ", e.describe().as_str())),
        Ok(c) => if c.front_sources.len() == 0 {
            Some(owned("no segments found for trip"))
        } else {
            None
        },
    }
}

/// The table of jobs with the jobs from `from` up to `to` failed.
pub open spec fn failed_from(
    jobs: Seq<JobView>,
    work: Seq<WorkView>,
    from: int,
    to: int,
    reason: String,
) -> Seq<JobView>
    decreases to - from,
{
    if to <= from {
        jobs
    } else {
        crate::db::timelapse_jobs::with_change(
            failed_from(jobs, work, from, to - 1, reason),
            work[to - 1].trip_id,
            work[to - 1].tier.name(),
            work[to - 1].channel.name(),
            JobChange::Failed(reason),
        )
    }
}

/// Records all jobs of a chunk as failed.
pub fn fail_chunk_jobs(jobs: Vec<JobRow>, work: &Vec<WorkItem>, chunk: Chunk, reason: &String)
    -> (r: Vec<JobRow>)
    requires
        chunk.start <= chunk.end <= work.len(),
    ensures
        crate::db::rows::job_rows(r@) == failed_from(
            crate::db::rows::job_rows(jobs@),
            work_views(work@),
            chunk.start as int,
            chunk.end as int,
            *reason,
        ),
{
    let ghost start = crate::db::rows::job_rows(jobs@);
    let ghost wv = work_views(work@);
    let mut jobs = jobs;
    let mut i: usize = chunk.start;
    while i < chunk.end
        invariant
            chunk.start <= i <= chunk.end <= work.len(),
            wv == work_views(work@),
            crate::db::rows::job_rows(jobs@) == failed_from(
                start,
                wv,
                chunk.start as int,
                i as int,
                *reason,
            ),
        decreases chunk.end - i,
    {
        let w = &work[i];
        proof {
            assert(wv[i as int] == w@);
        }
        jobs = crate::db::timelapse_jobs::mark_failed(
            jobs,
            w.trip_id.as_str(),
            w.tier.as_str(),
            w.channel.as_str(),
            reason.clone(),
        );
        i += 1;
    }
    jobs
}

// ------------------------------------------------------------------- a whole run

/// A run: its jobs, in chunks of one trip each, the chunk that is next or being
/// worked on, and what has become of the jobs so far.
#[derive(Debug)]
pub struct TimelapseRun {
    pub work: Vec<WorkItem>,
    pub chunks: Vec<Chunk>,
    pub at: usize,
    pub tally: Tally,
}

impl TimelapseRun {
    /// The number of jobs before the chunk `i`.
    pub open spec fn jobs_before(&self, i: int) -> int {
        if 0 <= i < self.chunks.len() {
            self.chunks@[i].start as int
        } else {
            self.work.len() as int
        }
    }

    /// The chunks are those of the jobs, and no more jobs are counted than there
    /// were in the chunks so far.
    pub open spec fn wf(&self) -> bool {
        &&& are_chunks(work_views(self.work@), self.chunks@)
        &&& self.at <= self.chunks.len()
        &&& self.tally.total == self.work.len()
        &&& self.tally.done + self.tally.failed <= self.jobs_before(self.at as int)
    }

    /// The chunk that is next or being worked on.
    pub open spec fn chunk(&self) -> Chunk {
        self.chunks@[self.at as int]
    }
}

/// What happened in a run.
#[derive(Debug)]
pub enum RunEvent {
    /// The next chunk can be taken up.
    Continue,
    /// It was looked up what the jobs of the chunk are made from.
    LookedUp(Result<TripEncodeContext, AppError>),
    /// The workers are through with the chunk; what became of the jobs that
    /// they took up.
    Worked(Vec<ProcessOutcome>),
}

/// What is to be done next in a run.
#[derive(Debug)]
pub enum RunAction {
    /// Look up what the jobs of the trip are made from.
    LookUp { trip_id: String },
    /// Record all jobs of the chunk as failed.
    Fail { chunk: Chunk, reason: String },
    /// Let the workers do the jobs of the chunk.
    Work { chunk: Chunk, ctx: TripEncodeContext },
    /// Report the end.
    Finish(TimelapseDoneEvent),
}

/// The event can happen: there is a chunk, and no more jobs were taken up than
/// it has.
pub open spec fn can_happen(run: TimelapseRun, event: RunEvent) -> bool {
    match event {
        RunEvent::Continue => true,
        RunEvent::LookedUp(_) => run.at < run.chunks.len(),
        RunEvent::Worked(o) => run.at < run.chunks.len() && o.len() <= run.chunk().end
            - run.chunk().start,
    }
}

/// The action takes up the next chunk, or ends the run: when there is none any
/// more, or when the run was cancelled.
pub open spec fn goes_on(run: TimelapseRun, cancelled: bool, a: RunAction) -> bool {
    if cancelled || run.at == run.chunks.len() {
        a matches RunAction::Finish(e) && e == (TimelapseDoneEvent {
            total: run.tally.total,
            done: run.tally.done,
            failed: run.tally.failed,
            cancelled,
        })
    } else {
        a matches RunAction::LookUp { trip_id } && trip_id@
            == run.work@[run.chunk().start as int].trip_id@
    }
}

/// A run before its first chunk.
pub fn begin_run(work: Vec<WorkItem>) -> (r: TimelapseRun)
    ensures
        r.wf(),
        r.work == work,
        r.at == 0,
        r.tally == (Tally { total: work.len() as u64, done: 0, failed: 0 }),
{
    let chunks = group_work_by_trip(&work);
    let total: u64 = work.len() as u64;
    TimelapseRun { work, chunks, at: 0, tally: Tally::new(total) }
}

fn next_action(run: &TimelapseRun, cancelled: bool) -> (r: RunAction)
    requires
        run.wf(),
    ensures
        goes_on(*run, cancelled, r),
{
    if cancelled || run.at == run.chunks.len() {
        RunAction::Finish(done_event(run.tally, cancelled))
    } else {
        let start: usize = run.chunks[run.at].start;
        RunAction::LookUp { trip_id: run.work[start].trip_id.clone() }
    }
}

/// Counting outcomes counts no more than there are, and exactly as many where
/// none was cancelled.
proof fn lemma_counted(t: Tally, outcomes: Seq<ProcessOutcome>)
    requires
        t.done + t.failed + outcomes.len() <= t.total,
    ensures
        ({
            let c = counted(t, outcomes);
            &&& c.total == t.total
            &&& c.done + c.failed <= t.done + t.failed + outcomes.len()
            &&& (forall|i: int|
                0 <= i < outcomes.len() ==> (#[trigger] outcomes[i]) != ProcessOutcome::Cancelled)
                ==> c.done + c.failed == t.done + t.failed + outcomes.len()
        }),
    decreases outcomes.len(),
{
    if outcomes.len() > 0 {
        let u = outcomes.drop_last();
        lemma_counted(t, u);
        assert(outcomes.last() == outcomes[outcomes.len() - 1]);
        assert(forall|i: int| 0 <= i < u.len() ==> #[trigger] u[i] == outcomes[i]);
    }
}

fn count_all(t: Tally, outcomes: &Vec<ProcessOutcome>) -> (r: Tally)
    requires
        t.done + t.failed + outcomes.len() <= t.total,
    ensures
        r == counted(t, outcomes@),
{
    let mut r = t;
    let mut i: usize = 0;
    proof {
        assert(outcomes@.take(0) == Seq::<ProcessOutcome>::empty());
    }
    while i < outcomes.len()
        invariant
            i <= outcomes.len(),
            t.done + t.failed + outcomes.len() <= t.total,
            r == counted(t, outcomes@.take(i as int)),
        decreases outcomes.len() - i,
    {
        proof {
            lemma_counted(t, outcomes@.take(i as int));
            assert(outcomes@.take(i + 1).drop_last() == outcomes@.take(i as int));
        }
        r.note(outcomes[i]);
        i += 1;
    }
    proof {
        assert(outcomes@.take(outcomes.len() as int) == outcomes@);
    }
    r
}

/// The run and the action are what follows from what happened in a run.
pub open spec fn is_next_in_run(
    run: TimelapseRun,
    event: RunEvent,
    cancelled: bool,
    after: TimelapseRun,
    action: RunAction,
) -> bool {
    match event {
        RunEvent::Continue => after == run && goes_on(run, cancelled, action),
        RunEvent::LookedUp(ctx) => match refusal_of(ctx) {
            Some(words) => after.at == run.at + 1 && after.tally == (Tally {
                failed: (run.tally.failed + (run.chunk().end - run.chunk().start)) as u64,
                ..run.tally
            }) && (action matches RunAction::Fail { chunk, reason } && chunk == run.chunk()
                && reason@ == words),
            None => after == run && (action matches RunAction::Work { chunk, ctx: c } && chunk
                == run.chunk() && ctx == Ok::<TripEncodeContext, AppError>(c)),
        },
        RunEvent::Worked(outcomes) => after.at == run.at + 1 && after.tally == counted(
            run.tally,
            outcomes@,
        ) && goes_on(after, cancelled, action),
    }
}

/// What is to be done next in a run, given what happened and whether the run was
/// cancelled. A chunk whose trip cannot be looked up, or has no footage, fails as
/// a whole; every other is handed to the workers.
pub fn run_inner(run: TimelapseRun, event: RunEvent, cancelled: bool) -> (r: (
    TimelapseRun,
    RunAction,
))
    requires
        run.wf(),
        can_happen(run, event),
    ensures
        r.0.wf(),
        r.0.work == run.work,
        r.0.chunks == run.chunks,
        is_next_in_run(run, event, cancelled, r.0, r.1),
{
    let mut run = run;
    match event {
        RunEvent::Continue => {
            let a = next_action(&run, cancelled);
            (run, a)
        },
        RunEvent::LookedUp(ctx) => {
            let chunk = run.chunks[run.at];
            proof {
                lemma_next_start(run);
            }
            match chunk_refusal(&ctx) {
                Some(reason) => {
                    run.tally.fail_chunk((chunk.end - chunk.start) as u64);
                    run.at = run.at + 1;
                    (run, RunAction::Fail { chunk, reason })
                },
                None => match ctx {
                    Ok(ctx) => (run, RunAction::Work { chunk, ctx }),
                    Err(_) => {
                        let a = next_action(&run, cancelled);
                        (run, a)
                    },
                },
            }
        },
        RunEvent::Worked(outcomes) => {
            proof {
                lemma_next_start(run);
                lemma_counted(run.tally, outcomes@);
            }
            run.tally = count_all(run.tally, &outcomes);
            run.at = run.at + 1;
            let a = next_action(&run, cancelled);
            (run, a)
        },
    }
}

/// The next chunk starts where this one ends.
proof fn lemma_next_start(run: TimelapseRun)
    requires
        run.wf(),
        run.at < run.chunks.len(),
    ensures
        run.chunk().start < run.chunk().end <= run.work.len(),
        run.jobs_before(run.at as int) == run.chunk().start,
        run.jobs_before(run.at + 1) == run.chunk().end,
{
    let c = run.chunks@;
    let k = run.at as int;
    assert(work_views(run.work@).len() == run.work.len());
    if k + 1 < c.len() {
        assert(c[k].end == c[k + 1].start);
    } else {
        assert(c.last() == c[k]);
    }
}

/// A chunk that is worked on to its end adds exactly its jobs to the count, and
/// so does one that fails as a whole: a run that is never cancelled ends with
/// every job counted, as done or as failed.
pub proof fn whole_chunks_are_counted(run: TimelapseRun, outcomes: Seq<ProcessOutcome>)
    requires
        run.wf(),
        run.at < run.chunks.len(),
        run.tally.done + run.tally.failed == run.jobs_before(run.at as int),
        outcomes.len() == run.chunk().end - run.chunk().start,
        forall|i: int|
            0 <= i < outcomes.len() ==> (#[trigger] outcomes[i]) != ProcessOutcome::Cancelled,
    ensures
        counted(run.tally, outcomes).done + counted(run.tally, outcomes).failed == run.jobs_before(
            run.at + 1,
        ),
        run.tally.done + (run.tally.failed + (run.chunk().end - run.chunk().start))
            == run.jobs_before(run.at + 1),
        run.jobs_before(run.chunks.len() as int) == run.work.len(),
{
    lemma_next_start(run);
    lemma_counted(run.tally, outcomes);
}

// --------------------------------------------------------------- library root

/// Where a library lies, as told by the path of one of its files.
#[derive(Debug)]
pub enum DiscoveredRoot {
    /// The directory that holds `Videos`.
    Library(String),
    /// The directory of the file.
    SegmentParent(String),
}

/// The place of the last component `Videos` among the first `n`; -1 where there
/// is none.
pub open spec fn videos_at(c: Seq<Seq<char>>, n: int) -> int
    decreases n,
{
    if n <= 0 {
        -1
    } else if c[n - 1] == "Videos"@ {
        n - 1
    } else {
        videos_at(c, n - 1)
    }
}

/// Where a library lies, given the path of one of its files: above the nearest
/// directory `Videos`, else in the directory of the file.
pub fn discover_library_root(sample: &Option<String>) -> (r: Result<DiscoveredRoot, AppError>)
    ensures
        match sample {
            None => r matches Err(e) && crate::error::is_internal(
                e,
                "cannot derive library root: no segments in DB"@,
            ),
            Some(p) => {
                let c = crate::paths::components(p@);
                let at = videos_at(c, c.len() as int);
                if at >= 0 {
                    r matches Ok(DiscoveredRoot::Library(d)) && d@ == crate::paths::path_of(
                        p@,
                        c.take(at),
                    )
                } else {
                    match crate::paths::parent(p@) {
                        Some(d) => r matches Ok(DiscoveredRoot::SegmentParent(x)) && x@ == d,
                        None => r matches Err(e) && crate::error::is_internal(
                            e,
                            "segment path has no parent directory: "@ + p@,
                        ),
                    }
                }
            },
        },
{
    let p = match sample {
        Some(p) => p,
        None => {
            return Err(
                AppError::Internal(owned("cannot derive library root: no segments in DB")),
            );
        },
    };
    let c = components_of(p.as_str());
    let ghost cv = crate::text::pieces(c@);
    let mut i: usize = c.len();
    while i > 0
        invariant
            i <= c.len(),
            cv == crate::text::pieces(c@),
            cv == crate::paths::components(p@),
            *sample == Some(*p),
            videos_at(cv, cv.len() as int) == videos_at(cv, i as int),
        decreases i,
    {
        i -= 1;
        proof {
            assert(cv[i as int] == c@[i as int]@);
        }
        if is_str(c[i].as_slice(), "Videos") {
            return Ok(DiscoveredRoot::Library(path_of_first(p.as_str(), &c, i)));
        }
    }
    if c.len() == 0 {
        return Err(
            AppError::Internal(concat2("segment path has no parent directory: ", p.as_str())),
        );
    }
    let d = path_of_first(p.as_str(), &c, c.len() - 1);
    proof {
        assert(cv.take(cv.len() - 1) == cv.drop_last());
    }
    Ok(DiscoveredRoot::SegmentParent(d))
}

} // verus!
