//! What a run of the worker is for.

use crate::db::rows::{JobStatus, JobView, SegmentView, TripView};
use crate::db::timelapse_jobs::JobChange;
use crate::timelapse::types::{Channel, EventWindow, JobScope, Tier};
use crate::timelapse::worker::{
    ChannelResolution, Chunk, FinishedItem, InfoView, ItemAction, ItemEvent, ItemPlan, ProcessOutcome,
    RunAction, RunEvent, RunSetup, StitchedPoint, TimelapseRun, TripEncodeContext, WorkView,
};
use vstd::prelude::*;

verus! {

/// Every job stands in a chunk, two jobs of one chunk are of one trip, and where a chunk
/// ends the trip changes.
pub proof fn chunks_hold_the_jobs_of_one_trip(work: Seq<WorkView>, c: Seq<Chunk>, i: int)
    requires
        crate::timelapse::worker::are_chunks(work, c),
        0 <= i < work.len(),
    ensures
        exists|k: int| 0 <= k < c.len() && holds_job(#[trigger] c[k], i),
        i + 1 < work.len() ==> ((work[i].trip_id == work[i + 1].trip_id) <==> exists|k: int|
            0 <= k < c.len() && holds_job(#[trigger] c[k], i) && holds_job(c[k], i + 1)),
        forall|k: int, j: int|
            0 <= k < c.len() && holds_job(c[k], i) && holds_job(#[trigger] c[k], j)
                ==> work[i].trip_id == (#[trigger] work[j]).trip_id,
{
    let k = lemma_chunk_of(work, c, i, (c.len() - 1) as nat);
    assert(holds_job(c[k], i));
    if i + 1 < work.len() {
        let m = k + 1;
        if i + 1 < c[k].end {
            assert(holds_job(c[k], i + 1));
            assert(work[i].trip_id == work[c[k].start as int].trip_id);
            assert(work[i + 1].trip_id == work[c[k].start as int].trip_id);
        } else {
            assert(c[k].end == i + 1);
            assert(m < c.len());
            assert(c[m].start == i + 1);
            assert(work[i].trip_id != work[i + 1].trip_id);
            assert forall|n: int|
                0 <= n < c.len() && holds_job(#[trigger] c[n], i) implies !holds_job(
                c[n],
                i + 1,
            ) by {
                if holds_job(c[n], i + 1) {
                    assert(work[i].trip_id == work[c[n].start as int].trip_id);
                    assert(work[i + 1].trip_id == work[c[n].start as int].trip_id);
                }
            }
        }
    }
    assert forall|n: int, j: int|
        0 <= n < c.len() && holds_job(c[n], i) && holds_job(
            #[trigger] c[n],
            j,
        ) implies work[i].trip_id == (#[trigger] work[j]).trip_id by {
        assert(work[i].trip_id == work[c[n].start as int].trip_id);
        assert(work[j].trip_id == work[c[n].start as int].trip_id);
    }
}

/// The chunk holds the job at this place.
pub open spec fn holds_job(c: Chunk, i: int) -> bool {
    c.start <= i < c.end
}

proof fn lemma_chunk_of(work: Seq<WorkView>, c: Seq<Chunk>, i: int, n: nat) -> (k: int)
    requires
        crate::timelapse::worker::are_chunks(work, c),
        n < c.len(),
        0 <= i < c[n as int].end,
    ensures
        0 <= k < c.len(),
        holds_job(c[k], i),
    decreases n,
{
    if c[n as int].start <= i {
        n as int
    } else {
        let m = n - 1;
        assert(c[m].end == c[n as int].start);
        lemma_chunk_of(work, c, i, m as nat)
    }
}

/// A run for new jobs takes up all that are not done, one for failed jobs those that
/// failed, and one that rebuilds takes up all.
pub proof fn scopes_say_what_is_taken_up(status: Option<JobStatus>)
    ensures
        crate::timelapse::worker::is_wanted(JobScope::RebuildAll, status),
        crate::timelapse::worker::is_wanted(JobScope::NewOnly, None),
        !crate::timelapse::worker::is_wanted(JobScope::FailedOnly, None),
        match status {
            Some(JobStatus::Done) => !crate::timelapse::worker::is_wanted(
                JobScope::NewOnly,
                status,
            ) && !crate::timelapse::worker::is_wanted(JobScope::FailedOnly, status),
            Some(JobStatus::Failed) => crate::timelapse::worker::is_wanted(
                JobScope::NewOnly,
                status,
            ) && crate::timelapse::worker::is_wanted(JobScope::FailedOnly, status),
            _ => crate::timelapse::worker::is_wanted(JobScope::NewOnly, status)
                && !crate::timelapse::worker::is_wanted(JobScope::FailedOnly, status),
        },
{
}

/// Different jobs of a trip have different names of their tier or channel.
pub proof fn tiers_and_channels_have_their_names(a: Tier, b: Tier, c: Channel, d: Channel)
    ensures
        a.name() == b.name() <==> a == b,
        c.name() == d.name() <==> c == d,
        c.file_label() == d.file_label() <==> c == d,
{
    reveal_strlit("8x");
    reveal_strlit("16x");
    reveal_strlit("60x");
    reveal_strlit("F");
    reveal_strlit("I");
    reveal_strlit("R");
    reveal_strlit("Front");
    reveal_strlit("Interior");
    reveal_strlit("Rear");
    assert("8x"@.len() == 2);
    assert("16x"@[0] == '1');
    assert("60x"@[0] == '6');
    assert("F"@[0] == 'F');
    assert("I"@[0] == 'I');
    assert("R"@[0] == 'R');
    assert("Front"@[0] == 'F');
    assert("Interior"@[0] == 'I');
    assert("Rear"@[0] == 'R');
}

/// The jobs of a trip go through the tiers in their order, and through all channels
/// of each.
pub proof fn trips_have_a_job_for_each_tier_and_channel(
    trip: Seq<char>,
    tiers: Seq<Tier>,
    channels: Seq<Channel>,
    a: int,
    b: int,
)
    requires
        0 <= a < tiers.len(),
        0 <= b < channels.len(),
    ensures
        ({
            let r = crate::timelapse::worker::trip_items(trip, tiers, channels);
            let at = a * channels.len() + b;
            &&& r.len() == tiers.len() * channels.len()
            &&& 0 <= at < r.len()
            &&& r[at] == (WorkView { trip_id: trip, tier: tiers[a], channel: channels[b] })
        }),
    decreases tiers.len(),
{
    let n = channels.len() as int;
    let u = tiers.drop_last();
    lemma_items_len(trip, tiers, channels);
    lemma_items_len(trip, u, channels);
    let m = u.len() as int;
    assert((m + 1) * n == m * n + n) by (nonlinear_arith);
    if a < m {
        trips_have_a_job_for_each_tier_and_channel(trip, u, channels, a, b);
        assert(0 <= a * n + b < m * n);
    } else {
        assert(a == m);
        assert(0 <= m * n) by (nonlinear_arith)
            requires
                0 <= m,
                0 <= n,
        ;
    }
}

proof fn lemma_items_len(trip: Seq<char>, tiers: Seq<Tier>, channels: Seq<Channel>)
    ensures
        crate::timelapse::worker::trip_items(trip, tiers, channels).len() == tiers.len()
            * channels.len(),
    decreases tiers.len(),
{
    if tiers.len() > 0 {
        lemma_items_len(trip, tiers.drop_last(), channels);
        let m = tiers.len() - 1;
        let n = channels.len() as int;
        assert((m + 1) * n == m * n + n) by (nonlinear_arith);
    } else {
        assert(0 * channels.len() == 0) by (nonlinear_arith);
    }
}

/// The trip has footage that is still there.
pub open spec fn has_footage(segments: Seq<SegmentView>, trip: Seq<char>) -> bool {
    exists|i: int|
        0 <= i < segments.len() && (#[trigger] segments[i]).trip_id == trip
            && !segments[i].is_tombstone
}

/// A run has a job for a trip, tier and channel exactly where it is for this trip,
/// this tier and this channel, and the trip has footage.
pub proof fn runs_have_the_jobs_asked_for(
    trips: Seq<Seq<char>>,
    segments: Seq<SegmentView>,
    tiers: Seq<Tier>,
    channels: Seq<Channel>,
    x: WorkView,
)
    ensures
        crate::timelapse::worker::all_items(trips, segments, tiers, channels).contains(x)
            <==> trips.contains(x.trip_id) && has_footage(segments, x.trip_id) && tiers.contains(
            x.tier,
        ) && channels.contains(x.channel),
    decreases trips.len(),
{
    if trips.len() > 0 {
        let u = trips.drop_last();
        let t = trips.last();
        let before = crate::timelapse::worker::all_items(u, segments, tiers, channels);
        let all = crate::timelapse::worker::all_items(trips, segments, tiers, channels);
        let own = crate::timelapse::worker::trip_items(t, tiers, channels);
        runs_have_the_jobs_asked_for(u, segments, tiers, channels, x);
        lemma_trip_items(t, tiers, channels, x);
        assert(trips[trips.len() - 1] == t);
        assert(crate::timelapse::worker::has_source(segments, t) == has_footage(segments, t));
        if trips.contains(x.trip_id) && !u.contains(x.trip_id) {
            let k = choose|k: int| 0 <= k < trips.len() && trips[k] == x.trip_id;
            if k < u.len() {
                assert(u[k] == x.trip_id);
            }
        }
        if u.contains(x.trip_id) {
            let k = choose|k: int| 0 <= k < u.len() && u[k] == x.trip_id;
            assert(trips[k] == x.trip_id);
        }
        if before.contains(x) {
            let k = choose|k: int| 0 <= k < before.len() && before[k] == x;
            assert(all[k] == x);
        }
        if has_footage(segments, t) && own.contains(x) {
            let k = choose|k: int| 0 <= k < own.len() && own[k] == x;
            assert(all[before.len() + k] == x);
        }
        if all.contains(x) {
            let k = choose|k: int| 0 <= k < all.len() && all[k] == x;
            if k < before.len() {
                assert(before[k] == x);
            } else {
                assert(own[k - before.len()] == x);
            }
        }
    }
}

proof fn lemma_trip_items(trip: Seq<char>, tiers: Seq<Tier>, channels: Seq<Channel>, x: WorkView)
    ensures
        crate::timelapse::worker::trip_items(trip, tiers, channels).contains(x) <==> x.trip_id
            == trip && tiers.contains(x.tier) && channels.contains(x.channel),
    decreases tiers.len(),
{
    if tiers.len() > 0 {
        let u = tiers.drop_last();
        let before = crate::timelapse::worker::trip_items(trip, u, channels);
        let own = crate::timelapse::worker::channel_items(trip, tiers.last(), channels);
        let all = crate::timelapse::worker::trip_items(trip, tiers, channels);
        lemma_trip_items(trip, u, channels, x);
        assert(tiers[tiers.len() - 1] == tiers.last());
        if u.contains(x.tier) {
            let k = choose|k: int| 0 <= k < u.len() && u[k] == x.tier;
            assert(tiers[k] == x.tier);
        }
        if tiers.contains(x.tier) && !u.contains(x.tier) {
            let k = choose|k: int| 0 <= k < tiers.len() && tiers[k] == x.tier;
            if k < u.len() {
                assert(u[k] == x.tier);
            }
            if channels.contains(x.channel) && x.trip_id == trip {
                let m = choose|m: int| 0 <= m < channels.len() && channels[m] == x.channel;
                assert(own[m] == x);
                assert(all[before.len() + m] == x);
            }
        }
        if before.contains(x) {
            let k = choose|k: int| 0 <= k < before.len() && before[k] == x;
            assert(all[k] == x);
        }
        if all.contains(x) {
            let k = choose|k: int| 0 <= k < all.len() && all[k] == x;
            if k < before.len() {
                assert(before[k] == x);
            } else {
                assert(own[k - before.len()] == x);
                assert(channels[k - before.len()] == x.channel);
            }
        }
    }
}

proof fn lemma_first_same<T>(s: Seq<T>, r: Seq<T>, p: spec_fn(T) -> bool, i: int)
    requires
        0 <= i <= s.len() <= r.len(),
        forall|k: int| 0 <= k < s.len() ==> p(#[trigger] r[k]) == p(s[k]),
        forall|k: int| s.len() <= k < r.len() ==> !p(#[trigger] r[k]),
    ensures
        crate::db::table::first_index(s, p, i) < s.len() ==> crate::db::table::first_index(r, p, i)
            == crate::db::table::first_index(s, p, i),
        crate::db::table::first_index(s, p, i) >= s.len() ==> crate::db::table::first_index(r, p, i)
            >= r.len(),
    decreases s.len() - i,
{
    crate::db::table::lemma_first_index(s, p, i);
    crate::db::table::lemma_first_index(r, p, i);
    let a = crate::db::table::first_index(s, p, i);
    let b = crate::db::table::first_index(r, p, i);
    if a < s.len() {
        assert(p(r[a]));
        if b < a {
            assert(p(r[b]));
            assert(!p(s[b]));
        }
    } else if b < r.len() {
        assert(p(r[b]));
        if b < s.len() {
            assert(!p(s[b]));
        }
    }
}

proof fn lemma_status_of_others(jobs: Seq<JobView>, x: WorkView, y: WorkView, now_ms: i64)
    requires
        x != y,
    ensures
        crate::timelapse::worker::status_of(
            crate::db::timelapse_jobs::with_enqueued(
                jobs,
                y.trip_id,
                y.tier.name(),
                y.channel.name(),
                now_ms,
            ),
            x,
        ) == crate::timelapse::worker::status_of(jobs, x),
{
    let r = crate::db::timelapse_jobs::with_enqueued(
        jobs,
        y.trip_id,
        y.tier.name(),
        y.channel.name(),
        now_ms,
    );
    let p = |j: JobView|
        crate::db::timelapse_jobs::is_job(j, x.trip_id, x.tier.name(), x.channel.name());
    tiers_and_channels_have_their_names(x.tier, y.tier, x.channel, y.channel);
    lemma_first_same(jobs, r, p, 0);
    crate::db::table::lemma_first_index(jobs, p, 0);
    let i = crate::db::table::first_index(jobs, p, 0);
    if i < jobs.len() {
        assert(p(jobs[i]));
        assert(r[i] == jobs[i]);
    }
}

/// What a job's status is when a run has enqueued its jobs: a job of the run that its
/// scope asks for waits, and every other has the status that it had.
pub proof fn runs_enqueue_what_they_take_up(
    jobs: Seq<JobView>,
    items: Seq<WorkView>,
    scope: JobScope,
    now_ms: i64,
    x: WorkView,
)
    requires
        items.no_duplicates(),
    ensures
        ({
            let before = crate::timelapse::worker::status_of(jobs, x);
            let after = crate::timelapse::worker::status_of(
                crate::timelapse::worker::enqueued(jobs, items, scope, now_ms),
                x,
            );
            let taken = items.contains(x) && crate::timelapse::worker::is_wanted(scope, before);
            &&& after == if taken {
                Some(JobStatus::Pending)
            } else {
                before
            }
            &&& crate::timelapse::worker::wanted_items(jobs, items, scope, now_ms).contains(x)
                <==> taken
        }),
    decreases items.len(),
{
    if items.len() > 0 {
        let u = items.drop_last();
        let y = items.last();
        let mid = crate::timelapse::worker::enqueued(jobs, u, scope, now_ms);
        let w = crate::timelapse::worker::wanted_items(jobs, u, scope, now_ms);
        let r = crate::timelapse::worker::wanted_items(jobs, items, scope, now_ms);
        assert(items[items.len() - 1] == y);
        assert(u.no_duplicates());
        if u.contains(y) {
            let k = choose|k: int| 0 <= k < u.len() && u[k] == y;
            assert(items[k] == items[items.len() - 1]);
        }
        runs_enqueue_what_they_take_up(jobs, u, scope, now_ms, x);
        runs_enqueue_what_they_take_up(jobs, u, scope, now_ms, y);
        if u.contains(x) {
            let k = choose|k: int| 0 <= k < u.len() && u[k] == x;
            assert(items[k] == x);
        }
        if items.contains(x) && !u.contains(x) {
            let k = choose|k: int| 0 <= k < items.len() && items[k] == x;
            if k < u.len() {
                assert(u[k] == x);
            }
            assert(x == y);
        }
        if x != y {
            lemma_status_of_others(mid, x, y, now_ms);
        } else {
            crate::laws::jobs::enqueued_jobs_wait(
                mid,
                y.trip_id,
                y.tier.name(),
                y.channel.name(),
                now_ms,
            );
        }
        if w.contains(x) {
            let k = choose|k: int| 0 <= k < w.len() && w[k] == x;
            assert(r[k] == x);
        }
        if r.contains(x) && !w.contains(x) {
            let k = choose|k: int| 0 <= k < r.len() && r[k] == x;
            if k < w.len() {
                assert(w[k] == x);
            }
            assert(x == y);
        }
        if r.len() > w.len() {
            assert(r[r.len() - 1] == y);
        }
    }
}

/// The trips of a library come in the order of their starts, each once for its row.
pub proof fn trips_come_by_their_starts(trips: Seq<TripView>)
    ensures
        ({
            let r = crate::timelapse::worker::trips_by_start(trips);
            &&& r.len() == trips.len()
            &&& exists|s: Seq<TripView>|
                s.len() == r.len() && s.to_multiset() == trips.to_multiset() && (forall|i: int|
                    0 <= i < r.len() ==> r[i] == (#[trigger] s[i]).id) && forall|i: int, j: int|
                    0 <= i <= j < s.len() ==> (#[trigger] s[i]).start_time_ms <= (
                    #[trigger] s[j]).start_time_ms
        }),
{
    let key = |t: TripView| t.start_time_ms as int;
    let s = crate::sort::sort_by(trips, key);
    crate::sort::sort_is_permutation(trips, key);
    crate::laws::seqs::lemma_sorted(trips, key);
    assert forall|i: int, j: int| 0 <= i <= j < s.len() implies (#[trigger] s[i]).start_time_ms <= (
    #[trigger] s[j]).start_time_ms by {
        assert(key(s[i]) <= key(s[j]));
    }
}

/// The footage of a trip is all of its segments that are still there, in the order
/// of their starts.
pub proof fn footage_is_what_is_there(segments: Seq<SegmentView>, trip: Seq<char>)
    ensures
        ({
            let r = crate::timelapse::worker::footage_of(segments, trip);
            &&& forall|i: int|
                0 <= i < r.len() ==> segments.contains(#[trigger] r[i]) && r[i].trip_id == trip
                    && !r[i].is_tombstone
            &&& forall|i: int|
                0 <= i < segments.len() && (#[trigger] segments[i]).trip_id == trip
                    && !segments[i].is_tombstone ==> r.contains(segments[i])
            &&& forall|i: int, j: int|
                0 <= i <= j < r.len() ==> (#[trigger] r[i]).start_time_ms <= (
                #[trigger] r[j]).start_time_ms
        }),
{
    let p = |s: SegmentView| s.trip_id == trip && !s.is_tombstone;
    let key = crate::db::queries::row_start();
    let f = segments.filter(p);
    let r = crate::timelapse::worker::footage_of(segments, trip);
    crate::laws::seqs::lemma_filter(segments, p);
    crate::laws::seqs::lemma_sorted(f, key);
    assert forall|i: int| 0 <= i < r.len() implies segments.contains(#[trigger] r[i])
        && r[i].trip_id == trip && !r[i].is_tombstone by {
        assert(f.contains(r[i]));
        let k = choose|k: int| 0 <= k < f.len() && f[k] == r[i];
        assert(p(f[k]));
    }
    assert forall|i: int|
        0 <= i < segments.len() && (#[trigger] segments[i]).trip_id == trip
            && !segments[i].is_tombstone implies r.contains(segments[i]) by {
        assert(p(segments[i]));
        let k = choose|k: int| 0 <= k < f.len() && f[k] == segments[i];
        assert(r.contains(f[k]));
    }
    assert forall|i: int, j: int| 0 <= i <= j < r.len() implies (#[trigger] r[i]).start_time_ms <= (
    #[trigger] r[j]).start_time_ms by {
        assert(key(r[i]) <= key(r[j]));
    }
}

/// The worker has of a segment its file, its duration and its camera.
pub proof fn footage_is_read_from_its_files(s: SegmentView, root: Seq<char>)
    ensures
        ({
            let i = crate::timelapse::worker::info_of(s, root);
            &&& i.master_path == crate::paths::path_join(root, s.master_path)
            &&& i.duration_ms == s.duration_ms
            &&& i.camera_kind == crate::db::segments::kind_of(s.camera_kind)
        }),
{
}

// ---------------------------------------------------------------- the time line

/// The durations added up, from the first on.
pub open spec fn lasting(d: Seq<i64>) -> int
    decreases d.len(),
{
    if d.len() == 0 {
        0
    } else {
        d[0] + lasting(d.skip(1))
    }
}

proof fn lemma_lasting_last(d: Seq<i64>)
    requires
        d.len() > 0,
    ensures
        lasting(d) == lasting(d.drop_last()) + d.last(),
    decreases d.len(),
{
    if d.len() == 1 {
        assert(d.skip(1) =~= Seq::empty());
        assert(d.drop_last() =~= Seq::empty());
    } else {
        lemma_lasting_last(d.skip(1));
        assert(d.skip(1).drop_last() =~= d.drop_last().skip(1));
        assert(d.skip(1).last() == d.last());
        assert(d.drop_last()[0] == d[0]);
    }
}

/// A segment starts when all segments before it have lasted.
pub proof fn segments_start_after_those_before(d: Seq<i64>, n: int)
    requires
        0 <= n <= d.len(),
        forall|i: int| 0 <= i < d.len() ==> #[trigger] d[i] >= 0,
        lasting(d) <= i64::MAX,
    ensures
        crate::timelapse::worker::start_after(d, n) == lasting(d.take(n)),
        0 <= lasting(d.take(n)) <= i64::MAX,
    decreases n,
{
    lemma_lasting_grows(d, n, d.len() as int);
    assert(d.take(d.len() as int) =~= d);
    if n > 0 {
        segments_start_after_those_before(d, n - 1);
        lemma_lasting_last(d.take(n));
        assert(d.take(n).drop_last() =~= d.take(n - 1));
    } else {
        assert(d.take(0) =~= Seq::empty());
    }
}

proof fn lemma_lasting_grows(d: Seq<i64>, m: int, n: int)
    requires
        0 <= m <= n <= d.len(),
        forall|i: int| 0 <= i < d.len() ==> #[trigger] d[i] >= 0,
    ensures
        0 <= lasting(d.take(m)) <= lasting(d.take(n)),
    decreases n,
{
    if n > 0 {
        lemma_lasting_last(d.take(n));
        assert(d.take(n).drop_last() =~= d.take(n - 1));
        assert(d.take(n).last() == d[n - 1]);
        if m < n {
            lemma_lasting_grows(d, m, n - 1);
        } else {
            lemma_lasting_grows(d, n - 1, n - 1);
        }
    } else {
        assert(d.take(0) =~= Seq::empty());
    }
}

/// The point is that of an offset of a segment, on the time line of the trip.
pub open spec fn is_point_of(
    p: StitchedPoint,
    durations: Seq<i64>,
    offsets: Seq<Seq<i64>>,
    s: int,
    k: int,
) -> bool {
    &&& p.segment == s
    &&& p.index == k
    &&& p.t_ms == lasting(durations.take(s)) + offsets[s][k]
}

proof fn lemma_stitched(offsets: Seq<i64>, segment: usize, cursor: i64, duration: i64, n: int)
    requires
        0 <= n <= offsets.len() <= usize::MAX,
        forall|k: int| 0 <= k < offsets.len() ==> #[trigger] offsets[k] >= 0,
        cursor >= 0,
        cursor + duration <= i64::MAX,
    ensures
        ({
            let r = crate::timelapse::worker::stitched(offsets, segment, cursor, duration, n);
            &&& forall|i: int|
                0 <= i < r.len() ==> (#[trigger] r[i]).segment == segment && r[i].index < n
                    && offsets[r[i].index as int] <= duration && r[i].t_ms == cursor
                    + offsets[r[i].index as int]
            &&& forall|k: int|
                0 <= k < n && #[trigger] offsets[k] <= duration ==> r.contains(
                    StitchedPoint { segment, index: k as usize, t_ms: (cursor + offsets[k]) as i64 },
                )
            &&& forall|i: int, j: int|
                0 <= i < j < r.len() ==> (#[trigger] r[i]).index < (#[trigger] r[j]).index
        }),
    decreases n,
{
    if n > 0 {
        lemma_stitched(offsets, segment, cursor, duration, n - 1);
        let u = crate::timelapse::worker::stitched(offsets, segment, cursor, duration, n - 1);
        let r = crate::timelapse::worker::stitched(offsets, segment, cursor, duration, n);
        assert(offsets[n - 1] >= 0);
        assert forall|k: int| 0 <= k < n && #[trigger] offsets[k] <= duration implies r.contains(
            StitchedPoint { segment, index: k as usize, t_ms: (cursor + offsets[k]) as i64 },
        ) by {
            let p = StitchedPoint {
                segment,
                index: k as usize,
                t_ms: (cursor + offsets[k]) as i64,
            };
            if k < n - 1 {
                assert(u.contains(p));
                let i = choose|i: int| 0 <= i < u.len() && u[i] == p;
                assert(r[i] == p);
            } else {
                assert(r[r.len() - 1] == p);
            }
        }
    }
}

/// The points of a trip are those of its segments that lie within them, each as far
/// into the trip as the segments before it last and the point lies in its own.
pub proof fn points_lie_on_the_time_line(durations: Seq<i64>, offsets: Seq<Seq<i64>>, n: int)
    requires
        0 <= n <= durations.len() == offsets.len(),
        durations.len() <= usize::MAX,
        forall|i: int| 0 <= i < durations.len() ==> #[trigger] durations[i] >= 0,
        lasting(durations) <= i64::MAX,
        forall|s: int| 0 <= s < offsets.len() ==> (#[trigger] offsets[s]).len() <= usize::MAX,
        forall|s: int, k: int|
            0 <= s < offsets.len() && 0 <= k < offsets[s].len() ==> #[trigger] offsets[s][k] >= 0,
    ensures
        ({
            let r = crate::timelapse::worker::stitched_all(durations, offsets, n);
            &&& forall|i: int|
                0 <= i < r.len() ==> (#[trigger] r[i]).segment < n && r[i].index
                    < offsets[r[i].segment as int].len() && offsets[r[i].segment as int][r[i].index as int]
                    <= durations[r[i].segment as int] && is_point_of(
                    r[i],
                    durations,
                    offsets,
                    r[i].segment as int,
                    r[i].index as int,
                )
            &&& forall|s: int, k: int|
                0 <= s < n && 0 <= k < offsets[s].len() && #[trigger] offsets[s][k] <= durations[s]
                    ==> exists|i: int|
                    0 <= i < r.len() && is_point_of(#[trigger] r[i], durations, offsets, s, k)
            &&& forall|i: int, j: int|
                0 <= i < j < r.len() ==> (#[trigger] r[i]).segment < (#[trigger] r[j]).segment
                    || r[i].segment == r[j].segment && r[i].index < r[j].index
        }),
    decreases n,
{
    if n > 0 {
        points_lie_on_the_time_line(durations, offsets, n - 1);
        let u = crate::timelapse::worker::stitched_all(durations, offsets, n - 1);
        let r = crate::timelapse::worker::stitched_all(durations, offsets, n);
        segments_start_after_those_before(durations, n - 1);
        segments_start_after_those_before(durations, n);
        lemma_lasting_last(durations.take(n));
        assert(durations.take(n).drop_last() =~= durations.take(n - 1));
        assert(durations.take(n).last() == durations[n - 1]);
        let cursor = crate::timelapse::worker::start_after(durations, n - 1) as i64;
        let o = offsets[n - 1];
        assert forall|k: int| 0 <= k < o.len() implies #[trigger] o[k] >= 0 by {
            assert(offsets[n - 1][k] >= 0);
        }
        lemma_stitched(o, (n - 1) as usize, cursor, durations[n - 1], o.len() as int);
        let own = crate::timelapse::worker::stitched(
            o,
            (n - 1) as usize,
            cursor,
            durations[n - 1],
            o.len() as int,
        );
        assert(r == u + own);
        assert forall|i: int| 0 <= i < r.len() implies (#[trigger] r[i]).segment < n && r[i].index
            < offsets[r[i].segment as int].len() && offsets[r[i].segment as int][r[i].index as int]
            <= durations[r[i].segment as int] && is_point_of(
            r[i],
            durations,
            offsets,
            r[i].segment as int,
            r[i].index as int,
        ) by {
            if i < u.len() {
                assert(r[i] == u[i]);
            } else {
                assert(r[i] == own[i - u.len()]);
            }
        }
        assert forall|s: int, k: int|
            0 <= s < n && 0 <= k < offsets[s].len() && #[trigger] offsets[s][k] <= durations[s] implies exists|
            i: int,
        |
            0 <= i < r.len() && is_point_of(#[trigger] r[i], durations, offsets, s, k) by {
            if s < n - 1 {
                let i = choose|i: int|
                    0 <= i < u.len() && is_point_of(#[trigger] u[i], durations, offsets, s, k);
                assert(r[i] == u[i]);
            } else {
                let p = StitchedPoint {
                    segment: (n - 1) as usize,
                    index: k as usize,
                    t_ms: (cursor + o[k]) as i64,
                };
                assert(own.contains(p));
                let i = choose|i: int| 0 <= i < own.len() && own[i] == p;
                assert(r[u.len() + i] == p);
                assert(is_point_of(r[u.len() + i], durations, offsets, s, k));
            }
        }
        assert forall|i: int, j: int| 0 <= i < j < r.len() implies (#[trigger] r[i]).segment < (
        #[trigger] r[j]).segment || r[i].segment == r[j].segment && r[i].index < r[j].index by {
            if j < u.len() {
                assert(r[i] == u[i] && r[j] == u[j]);
            } else if i >= u.len() {
                assert(r[i] == own[i - u.len()] && r[j] == own[j - u.len()]);
            } else {
                assert(r[i] == u[i] && r[j] == own[j - u.len()]);
            }
        }
    }
}

// ------------------------------------------------------------------- the channel

/// A channel is made from the files that were found, in their order, and all other
/// segments count as missing.
pub proof fn channels_are_made_from_the_files_found(files: Seq<Option<Seq<char>>>, n: int)
    requires
        0 <= n <= files.len(),
    ensures
        crate::timelapse::worker::found_files(files, n) == files.take(n).filter_map(
            |f: Option<Seq<char>>| f,
        ),
        crate::timelapse::worker::found_files(files, n).len()
            + crate::timelapse::worker::missing_files(files, n) == n,
    decreases n,
{
    reveal(Seq::filter_map);
    let id = |f: Option<Seq<char>>| f;
    if n > 0 {
        channels_are_made_from_the_files_found(files, n - 1);
        assert(files.take(n).drop_last() =~= files.take(n - 1));
        assert(files.take(n).last() == files[n - 1]);
    } else {
        assert(files.take(0) =~= Seq::empty());
    }
}

/// The encode of a job reads the channel's files and writes the file of the job in the
/// directory of the timelapses; its scratch files lie apart, under the name of the
/// job.
pub proof fn encodes_are_those_of_the_job(
    setup: RunSetup,
    item: WorkView,
    ctx: TripEncodeContext,
    res: ChannelResolution,
    plan: ItemPlan,
)
    requires
        crate::timelapse::worker::planned(setup, item, ctx, res, plan),
    ensures
        plan.args@.source_paths == crate::text::views(res.sources@),
        plan.args@.output_path == crate::paths::path_join(
            setup.output_root@,
            crate::laws::merge::file_of(item.trip_id, item.tier.name(), item.channel.name()),
        ),
        plan.args@.scratch_dir == crate::paths::path_join(
            crate::paths::path_join(setup.output_root@, ".tmp"@),
            item.trip_id + seq!['_'] + item.tier.name() + seq!['_'] + item.channel.name(),
        ),
        plan.args@.encoder == setup.encoder,
        plan.args@.cpu_pool_threads == setup.cpu_pool_threads,
        !plan.args@.software_input,
        plan.missing_count == res.missing_count,
        crate::timelapse::speed_curve::collapsed(plan.persist_curve@) == plan.args@.curve,
{
    crate::laws::merge::outputs_are_named_by_their_job(
        item.trip_id,
        item.tier.name(),
        item.channel.name(),
    );
    reveal_strlit("_");
    assert("_"@ =~= seq!['_']);
}

/// A job whose encode succeeded tells where its output is, how it was made, how many
/// segments it did without, how large it is and when it was done, with the curve of the
/// trip.
pub proof fn finished_jobs_tell_their_encode(
    setup: RunSetup,
    item: WorkView,
    ctx: TripEncodeContext,
    plan: ItemPlan,
    canonical: Option<String>,
    size_bytes: Option<i64>,
    now_ms: i64,
    r: ItemAction,
)
    requires
        crate::timelapse::worker::is_next_for_item(
            setup,
            item,
            ctx,
            ItemEvent::Encoded { plan, result: Ok(()), canonical, size_bytes, now_ms },
            r,
        ),
        plan.missing_count <= i64::MAX,
    ensures
        r is Finish,
        r->curve == plan.persist_curve,
        canonical is None ==> r->done.output_path@ == plan.args.output_path@,
        canonical is Some && plan.args.output_path@.len() > 0 ==> match crate::paths::relative_form(
            canonical->0@,
            setup.archive_root@,
        ) {
            crate::paths::Relative::At(rel) => r->done.output_path@ == rel,
            _ => r->done.output_path@ == plan.args.output_path@,
        },
        r->done.ffmpeg_version@ == setup.ffmpeg_version@,
        r->done.encoder_used@ == setup.encoder.name(),
        r->done.padded_count == plan.missing_count,
        r->done.output_size_bytes == size_bytes,
        r->done.now_ms == now_ms,
{
}

/// What is recorded of a finished encode is found in the row of its job.
pub proof fn rows_tell_the_finished_encode(
    rows: Seq<JobView>,
    i: int,
    done: FinishedItem,
    curve_json: String,
    change: JobChange,
)
    requires
        0 <= i < rows.len(),
        crate::timelapse::worker::is_finish_of(done, curve_json, change),
    ensures
        ({
            let b = rows[i];
            let r = crate::db::timelapse_jobs::with_change(
                rows,
                b.trip_id,
                b.tier,
                b.channel,
                change,
            )[i];
            &&& r.status == JobStatus::Done && r.error_message is None
            &&& r.output_path == Some(done.output_path@)
            &&& r.ffmpeg_version == Some(done.ffmpeg_version@)
            &&& r.encoder_used == Some(done.encoder_used@)
            &&& r.padded_count == Some(done.padded_count)
            &&& r.speed_curve_json == Some(curve_json@)
            &&& r.output_size_bytes == done.output_size_bytes
            &&& r.completed_at_ms == Some(done.now_ms)
        }),
{
    let b = rows[i];
    crate::laws::jobs::jobs_tell_what_happened(rows, b.trip_id, b.tier, b.channel, change, i);
}

/// The action records that the job failed, and why.
pub open spec fn fails_with(a: ItemAction, why: Seq<char>) -> bool {
    a is Record && a->outcome == ProcessOutcome::Failed && a->change is Failed
        && a->change->Failed_0@ == why
}

/// A job fails with what went wrong: finding its files, making its directory, having no
/// files, or the encode; one that was cancelled is put back.
pub proof fn failed_jobs_tell_why(
    setup: RunSetup,
    item: WorkView,
    ctx: TripEncodeContext,
    event: ItemEvent,
    r: ItemAction,
)
    requires
        crate::timelapse::worker::is_next_for_item(setup, item, ctx, event, r),
    ensures
        event matches ItemEvent::Resolved(Err(e)) ==> fails_with(
            r,
            "sibling lookup failed: "@ + e.words(),
        ),
        event matches ItemEvent::ScratchMade { resolution, failure } ==> (failure matches Some(why)
            ==> fails_with(r, "scratch dir create failed: "@ + why@)),
        event matches ItemEvent::ScratchMade { resolution, failure } ==> failure is None
            && resolution.sources@.len() == 0 ==> fails_with(
            r,
            "no files for this channel (camera may not record it)"@,
        ),
        event matches ItemEvent::Encoded { plan, result, canonical, size_bytes, now_ms } ==> (
        result matches Err(e) ==> if e is Internal && e->Internal_0@ == "cancelled"@ {
            r is Record && r->outcome == ProcessOutcome::Cancelled && r->change is PutBack
        } else {
            fails_with(r, e.words())
        }),
        event matches ItemEvent::Marked(ok) ==> !ok ==> r is End && r->End_0
            == ProcessOutcome::Failed,
{
}

/// A job whose directory is made, and whose channel has files, is encoded as planned; one
/// that was taken up looks for its files, and then gets its directory.
pub proof fn jobs_go_on_to_their_encode(
    setup: RunSetup,
    item: WorkView,
    ctx: TripEncodeContext,
    event: ItemEvent,
    r: ItemAction,
)
    requires
        crate::timelapse::worker::is_next_for_item(setup, item, ctx, event, r),
    ensures
        event matches ItemEvent::Marked(ok) ==> ok ==> r is Resolve,
        event matches ItemEvent::Resolved(Ok(res)) ==> r is MakeScratch && r->resolution == res
            && r->dir@ == crate::paths::path_join(
            crate::paths::path_join(setup.output_root@, ".tmp"@),
            item.trip_id + seq!['_'] + item.tier.name() + seq!['_'] + item.channel.name(),
        ),
        event matches ItemEvent::ScratchMade { resolution, failure } ==> failure is None
            && resolution.sources@.len() > 0 ==> r is Encode
            && crate::timelapse::worker::planned(setup, item, ctx, resolution, r->Encode_0),
        event matches ItemEvent::Recorded { outcome, written } ==> r is End && (written ==> r->End_0
            == outcome) && (!written && outcome == ProcessOutcome::Done ==> r->End_0
            == ProcessOutcome::Failed),
{
    reveal_strlit("_");
    assert("_"@ =~= seq!['_']);
}

/// A run takes up its chunks one after the other: the jobs of a chunk whose trip can be
/// looked up are handed on with what they are made from; where it cannot, all of them
/// count as failed. When no chunk is left, or the run was cancelled, it ends with its
/// counts.
pub proof fn runs_go_through_their_chunks(
    run: TimelapseRun,
    event: RunEvent,
    cancelled: bool,
    after: TimelapseRun,
    action: RunAction,
)
    requires
        run.wf(),
        crate::timelapse::worker::can_happen(run, event),
        crate::timelapse::worker::is_next_in_run(run, event, cancelled, after, action),
    ensures
        event matches RunEvent::LookedUp(ctx) ==> {
            let c = run.chunks@[run.at as int];
            if ctx is Ok && ctx->Ok_0.front_sources@.len() > 0 {
                action is Work && action->Work_chunk == c && action->ctx == ctx->Ok_0 && after
                    == run
            } else {
                action is Fail && action->Fail_chunk == c && after.at == run.at + 1
                    && after.tally.failed == run.tally.failed + (c.end - c.start)
                    && after.tally.done == run.tally.done && after.tally.total == run.tally.total
            }
        },
        event is Continue || event is Worked ==> if cancelled || after.at == after.chunks@.len() {
            action is Finish && action->Finish_0.total == after.tally.total
                && action->Finish_0.done == after.tally.done && action->Finish_0.failed
                == after.tally.failed && action->Finish_0.cancelled == cancelled
        } else {
            action is LookUp && action->trip_id@
                == after.work@[after.chunks@[after.at as int].start as int].trip_id@
        },
        event is Worked ==> after.at == run.at + 1,
        event is Continue ==> after == run,
{
}

/// What the jobs of a trip are made from: the files of its footage, how long each lasts,
/// its events, and how long all of it lasts.
pub proof fn contexts_tell_the_footage(
    segments: Seq<InfoView>,
    windows: Vec<EventWindow>,
    r: TripEncodeContext,
)
    requires
        crate::timelapse::worker::is_context_of(segments, windows, r),
        forall|i: int| 0 <= i < segments.len() ==> (#[trigger] segments[i]).duration_ms >= 0,
        lasting(r.front_durations@) <= i64::MAX,
    ensures
        r.front_sources@.len() == segments.len(),
        r.front_durations@.len() == segments.len(),
        forall|i: int|
            0 <= i < segments.len() ==> (#[trigger] r.front_sources@[i])@ == segments[i].master_path,
        forall|i: int|
            0 <= i < segments.len() ==> #[trigger] r.front_durations@[i] == segments[i].duration_ms,
        r.windows == windows,
        r.total_duration_ms == lasting(r.front_durations@),
{
    let v = crate::text::views(r.front_sources@);
    let d = r.front_durations@;
    assert(v.len() == segments.len());
    assert forall|i: int| 0 <= i < segments.len() implies (#[trigger] r.front_sources@[i])@
        == segments[i].master_path by {
        assert(v[i] == segments[i].master_path);
    }
    assert forall|i: int| 0 <= i < d.len() implies #[trigger] d[i] >= 0 by {
        assert(segments[i].duration_ms >= 0);
    }
    segments_start_after_those_before(d, d.len() as int);
    assert(d.take(d.len() as int) =~= d);
}

/// Where a trip cannot be looked up or has no footage, its jobs fail, and only there.
pub proof fn trips_are_refused_without_footage(ctx: Result<TripEncodeContext, crate::error::AppError>)
    ensures
        crate::timelapse::worker::refusal_of(ctx) is None <==> ctx is Ok
            && ctx->Ok_0.front_sources.len() > 0,
{
}

/// Every job of a chunk that fails is failed for the reason; all other rows stay as
/// they are.
pub proof fn failed_chunks_fail_their_jobs(
    jobs: Seq<JobView>,
    work: Seq<WorkView>,
    from: int,
    to: int,
    reason: String,
    i: int,
)
    requires
        0 <= from <= to <= work.len(),
        0 <= i < jobs.len(),
    ensures
        ({
            let r = crate::timelapse::worker::failed_from(jobs, work, from, to, reason);
            &&& r.len() == jobs.len()
            &&& r[i].trip_id == jobs[i].trip_id && r[i].tier == jobs[i].tier && r[i].channel
                == jobs[i].channel
            &&& if exists|k: int|
                from <= k < to && jobs[i].trip_id == (#[trigger] work[k]).trip_id && jobs[i].tier
                    == work[k].tier.name() && jobs[i].channel == work[k].channel.name() {
                r[i].status == JobStatus::Failed && r[i].error_message == Some(reason@)
                    && r[i].output_path == jobs[i].output_path
            } else {
                r[i] == jobs[i]
            }
        }),
    decreases to - from,
{
    if from < to {
        failed_chunks_fail_their_jobs(jobs, work, from, to - 1, reason, i);
        let before = crate::timelapse::worker::failed_from(jobs, work, from, to - 1, reason);
        let w = work[to - 1];
        crate::db::timelapse_jobs::changes_touch_one_job(
            before,
            w.trip_id,
            w.tier.name(),
            w.channel.name(),
            JobChange::Failed(reason),
        );
        if crate::db::timelapse_jobs::is_job(
            before[i],
            w.trip_id,
            w.tier.name(),
            w.channel.name(),
        ) {
            crate::laws::jobs::jobs_tell_what_happened(
                before,
                w.trip_id,
                w.tier.name(),
                w.channel.name(),
                JobChange::Failed(reason),
                i,
            );
        }
    }
}

/// The library lies above the last directory `Videos` of a path.
pub proof fn libraries_lie_above_the_last_videos(c: Seq<Seq<char>>, n: int)
    requires
        0 <= n <= c.len(),
    ensures
        ({
            let at = crate::timelapse::worker::videos_at(c, n);
            &&& -1 <= at < n
            &&& at >= 0 ==> c[at] == seq!['V', 'i', 'd', 'e', 'o', 's']
            &&& forall|k: int|
                at < k < n && 0 <= k ==> #[trigger] c[k] != seq!['V', 'i', 'd', 'e', 'o', 's']
        }),
    decreases n,
{
    reveal_strlit("Videos");
    assert("Videos"@ =~= seq!['V', 'i', 'd', 'e', 'o', 's']);
    if n > 0 {
        libraries_lie_above_the_last_videos(c, n - 1);
    }
}

} // verus!
