//! What is put together when trips are joined, and what becomes of the tables.

use crate::db::rows::{JobStatus, JobView, LibraryView, SegmentView, TagView, TripView};
use crate::trips::merge::PlanView;
use vstd::prelude::*;

verus! {

/// The row is a finished timelapse, and there is a file of it.
pub open spec fn is_finished(r: JobView) -> bool {
    r.status == JobStatus::Done && r.output_path is Some
}

/// Some row is a finished timelapse of the tier and channel.
pub open spec fn is_made(rows: Seq<JobView>, tier: Seq<char>, channel: Seq<char>) -> bool {
    exists|i: int|
        0 <= i < rows.len() && is_finished(#[trigger] rows[i]) && rows[i].tier == tier
            && rows[i].channel == channel
}

/// Some row is a finished timelapse of the trip, tier and channel.
pub open spec fn is_made_by(
    rows: Seq<JobView>,
    trip: Seq<char>,
    tier: Seq<char>,
    channel: Seq<char>,
) -> bool {
    exists|i: int|
        0 <= i < rows.len() && is_finished(#[trigger] rows[i]) && rows[i].trip_id == trip
            && rows[i].tier == tier && rows[i].channel == channel
}

/// The plan names every tier and channel of which there is a finished timelapse,
/// and each once.
pub proof fn plans_name_every_timelapse_once(rows: Seq<JobView>)
    ensures
        ({
            let t = crate::trips::merge::tuples_of(rows);
            &&& t.no_duplicates()
            &&& forall|tier: Seq<char>, channel: Seq<char>|
                #[trigger] t.contains((tier, channel)) <==> is_made(rows, tier, channel)
        }),
    decreases rows.len(),
{
    let t = crate::trips::merge::tuples_of(rows);
    if rows.len() > 0 {
        let u = rows.drop_last();
        let x = rows.last();
        let before = crate::trips::merge::tuples_of(u);
        plans_name_every_timelapse_once(u);
        assert forall|tier: Seq<char>, channel: Seq<char>| #[trigger]
            t.contains((tier, channel)) <==> is_made(rows, tier, channel) by {
            assert(rows[rows.len() - 1] == x);
            if is_made(u, tier, channel) {
                let i = choose|i: int|
                    0 <= i < u.len() && is_finished(#[trigger] u[i]) && u[i].tier == tier
                        && u[i].channel == channel;
                assert(rows[i] == u[i]);
                assert(before.contains((tier, channel)));
                let k = choose|k: int| 0 <= k < before.len() && before[k] == (tier, channel);
                assert(t[k] == before[k]);
            }
            if is_made(rows, tier, channel) && !is_made(u, tier, channel) {
                let i = choose|i: int|
                    0 <= i < rows.len() && is_finished(#[trigger] rows[i]) && rows[i].tier == tier
                        && rows[i].channel == channel;
                if i < u.len() {
                    assert(u[i] == rows[i]);
                }
                assert(i == rows.len() - 1);
                assert(!before.contains((tier, channel)));
                assert(t[t.len() - 1] == (tier, channel));
            }
            if t.contains((tier, channel)) && !is_made(u, tier, channel) {
                let k = choose|k: int| 0 <= k < t.len() && t[k] == (tier, channel);
                if k < before.len() {
                    assert(before[k] == (tier, channel));
                }
            }
        }
    }
}

proof fn lemma_outputs(rows: Seq<JobView>, tier: Seq<char>, channel: Seq<char>)
    ensures
        ({
            let o = crate::trips::merge::outputs_of(rows, tier, channel);
            &&& forall|i: int|
                0 <= i < o.len() ==> is_finished(#[trigger] o[i]) && o[i].tier == tier
                    && o[i].channel == channel && rows.contains(o[i])
            &&& forall|i: int|
                0 <= i < rows.len() && is_finished(#[trigger] rows[i]) && rows[i].tier == tier
                    && rows[i].channel == channel ==> o.contains(rows[i])
        }),
{
    let p = |r: JobView| crate::trips::merge::is_output_of(r, tier, channel);
    crate::laws::seqs::lemma_filter(rows, p);
}

proof fn lemma_distinct(s: Seq<Seq<char>>)
    ensures
        crate::trips::merge::distinct(s).no_duplicates(),
        forall|x: Seq<char>|
            #[trigger] crate::trips::merge::distinct(s).contains(x) <==> s.contains(x),
    decreases s.len(),
{
    if s.len() > 0 {
        let u = s.drop_last();
        lemma_distinct(u);
        let d = crate::trips::merge::distinct(u);
        let r = crate::trips::merge::distinct(s);
        assert forall|x: Seq<char>| #[trigger] r.contains(x) <==> s.contains(x) by {
            assert(s[s.len() - 1] == s.last());
            if u.contains(x) {
                let k = choose|k: int| 0 <= k < u.len() && u[k] == x;
                assert(s[k] == x);
                assert(d.contains(x));
                let m = choose|m: int| 0 <= m < d.len() && d[m] == x;
                assert(r[m] == x);
            }
            if s.contains(x) && !u.contains(x) {
                let k = choose|k: int| 0 <= k < s.len() && s[k] == x;
                if k < u.len() {
                    assert(u[k] == x);
                }
                assert(x == s.last());
                assert(!d.contains(x));
                assert(r[r.len() - 1] == x);
            }
            if r.contains(x) && !u.contains(x) {
                let m = choose|m: int| 0 <= m < r.len() && r[m] == x;
                if m < d.len() {
                    assert(d[m] == x);
                    assert(d.contains(x));
                } else {
                    assert(r == d.push(s.last()));
                    assert(x == s.last());
                }
            }
        }
    }
}

/// The timelapses of a tier and channel can be put together exactly where every one
/// of the trips has one.
pub proof fn full_means_every_trip_has_one(
    rows: Seq<JobView>,
    primary: Seq<char>,
    absorbed: Seq<Seq<char>>,
    tier: Seq<char>,
    channel: Seq<char>,
)
    requires
        absorbed.no_duplicates(),
        !absorbed.contains(primary),
        forall|i: int|
            0 <= i < rows.len() ==> absorbed.contains((#[trigger] rows[i]).trip_id)
                || rows[i].trip_id == primary,
    ensures
        crate::trips::merge::is_full(rows, absorbed, tier, channel) <==> is_made_by(
            rows,
            primary,
            tier,
            channel,
        ) && forall|i: int|
            0 <= i < absorbed.len() ==> is_made_by(rows, #[trigger] absorbed[i], tier, channel),
{
    let o = crate::trips::merge::outputs_of(rows, tier, channel);
    let t = crate::trips::merge::trips_of(o);
    let d = crate::trips::merge::distinct(t);
    let all = absorbed.push(primary);
    lemma_outputs(rows, tier, channel);
    lemma_distinct(t);
    assert(all.no_duplicates());
    all.unique_seq_to_set();
    d.unique_seq_to_set();
    assert forall|x: Seq<char>| #[trigger] d.contains(x) implies all.contains(x) by {
        let k = choose|k: int| 0 <= k < t.len() && t[k] == x;
        assert(o[k].trip_id == x);
        assert(rows.contains(o[k]));
        let j = choose|j: int| 0 <= j < rows.len() && rows[j] == o[k];
        assert(absorbed.contains(rows[j].trip_id) || rows[j].trip_id == primary);
        if absorbed.contains(x) {
            let m = choose|m: int| 0 <= m < absorbed.len() && absorbed[m] == x;
            assert(all[m] == x);
        } else {
            assert(all[all.len() - 1] == x);
        }
    }
    assert(d.to_set().subset_of(all.to_set()));
    assert forall|x: Seq<char>| #[trigger] d.contains(x) <==> is_made_by(rows, x, tier, channel) by {
        if d.contains(x) {
            let k = choose|k: int| 0 <= k < t.len() && t[k] == x;
            assert(rows.contains(o[k]));
            let j = choose|j: int| 0 <= j < rows.len() && rows[j] == o[k];
            assert(is_finished(rows[j]));
        }
        if is_made_by(rows, x, tier, channel) {
            let i = choose|i: int|
                0 <= i < rows.len() && is_finished(#[trigger] rows[i]) && rows[i].trip_id == x
                    && rows[i].tier == tier && rows[i].channel == channel;
            assert(o.contains(rows[i]));
            let k = choose|k: int| 0 <= k < o.len() && o[k] == rows[i];
            assert(t[k] == x);
        }
    }
    assert(all.to_set().finite());
    if crate::trips::merge::is_full(rows, absorbed, tier, channel) {
        vstd::set_lib::lemma_subset_equality(d.to_set(), all.to_set());
        assert(d.to_set() == all.to_set());
        assert forall|x: Seq<char>| all.contains(x) implies #[trigger] d.contains(x) by {
            assert(all.to_set().contains(x));
            assert(d.to_set().contains(x));
        }
        assert(all[all.len() - 1] == primary);
        assert(d.contains(primary));
        assert forall|i: int| 0 <= i < absorbed.len() implies is_made_by(
            rows,
            #[trigger] absorbed[i],
            tier,
            channel,
        ) by {
            assert(all[i] == absorbed[i]);
            assert(d.contains(absorbed[i]));
        }
    }
    if is_made_by(rows, primary, tier, channel) && (forall|i: int|
        0 <= i < absorbed.len() ==> is_made_by(rows, #[trigger] absorbed[i], tier, channel)) {
        assert forall|x: Seq<char>| #[trigger] all.to_set().contains(x) implies d.to_set().contains(
            x,
        ) by {
            assert(all.contains(x));
            let m = choose|m: int| 0 <= m < all.len() && all[m] == x;
            if m < absorbed.len() {
                assert(absorbed[m] == x);
            }
            assert(is_made_by(rows, x, tier, channel));
            assert(d.contains(x));
        }
        assert(d.to_set() =~= all.to_set());
    }
}

/// What is known of a tier and channel: whether it can be put together, whether the
/// primary trip has it, and which of the absorbed trips have it.
pub proof fn assessments_tell_who_has_what(
    rows: Seq<JobView>,
    primary: Seq<char>,
    absorbed: Seq<Seq<char>>,
    tier: Seq<char>,
    channel: Seq<char>,
)
    ensures
        ({
            let a = crate::trips::merge::assessed(rows, primary, absorbed, tier, channel);
            &&& a.tier == tier && a.channel == channel
            &&& a.primary_has <==> is_made_by(rows, primary, tier, channel)
            &&& forall|i: int|
                0 <= i < absorbed.len() && is_made_by(rows, #[trigger] absorbed[i], tier, channel)
                    ==> a.absorbed_with_output.contains(absorbed[i])
            &&& forall|i: int|
                0 <= i < a.absorbed_with_output.len() ==> absorbed.contains(
                    #[trigger] a.absorbed_with_output[i],
                ) && is_made_by(rows, a.absorbed_with_output[i], tier, channel)
            &&& (a.status is Concatenable) == crate::trips::merge::is_full(
                rows,
                absorbed,
                tier,
                channel,
            )
        }),
{
    let o = crate::trips::merge::outputs_of(rows, tier, channel);
    let t = crate::trips::merge::trips_of(o);
    lemma_outputs(rows, tier, channel);
    assert forall|x: Seq<char>| #[trigger] t.contains(x) <==> is_made_by(rows, x, tier, channel) by {
        if t.contains(x) {
            let k = choose|k: int| 0 <= k < t.len() && t[k] == x;
            assert(rows.contains(o[k]));
            let j = choose|j: int| 0 <= j < rows.len() && rows[j] == o[k];
            assert(is_finished(rows[j]));
        }
        if is_made_by(rows, x, tier, channel) {
            let i = choose|i: int|
                0 <= i < rows.len() && is_finished(#[trigger] rows[i]) && rows[i].trip_id == x
                    && rows[i].tier == tier && rows[i].channel == channel;
            assert(o.contains(rows[i]));
            let k = choose|k: int| 0 <= k < o.len() && o[k] == rows[i];
            assert(t[k] == x);
        }
    }
    let p = |a: Seq<char>| t.contains(a);
    crate::laws::seqs::lemma_filter(absorbed, p);
}

/// A part that is put together comes from the files of its rows, in their order.
pub proof fn parts_are_read_from_their_files(rows: Seq<JobView>, root: Seq<char>)
    requires
        forall|i: int| 0 <= i < rows.len() ==> (#[trigger] rows[i]).output_path is Some,
    ensures
        ({
            let r = crate::trips::merge::input_paths(rows, root);
            &&& r.len() == rows.len()
            &&& forall|i: int|
                0 <= i < rows.len() ==> #[trigger] r[i] == crate::paths::path_join(
                    root,
                    rows[i].output_path->0,
                )
        }),
    decreases rows.len(),
{
    let f = |r: JobView|
        match r.output_path {
            Some(p) => Some(crate::paths::path_join(root, p)),
            None => None,
        };
    reveal(Seq::filter_map);
    if rows.len() > 0 {
        let u = rows.drop_last();
        assert forall|i: int| 0 <= i < u.len() implies (#[trigger] u[i]).output_path is Some by {
            assert(u[i] == rows[i]);
        }
        parts_are_read_from_their_files(u, root);
        assert(rows[rows.len() - 1] == rows.last());
        assert(f(rows.last()) is Some);
        assert(crate::trips::merge::input_paths(rows, root) =~= crate::trips::merge::input_paths(
            u,
            root,
        ).push(f(rows.last())->0));
    }
}

/// The rows are those of the trips, each of its trip and of the tier and channel,
/// in the order of the trips.
pub open spec fn are_rows_of(
    rows: Seq<JobView>,
    trips: Seq<Seq<char>>,
    tier: Seq<char>,
    channel: Seq<char>,
) -> bool {
    &&& rows.len() == trips.len()
    &&& forall|i: int|
        0 <= i < rows.len() ==> is_finished(#[trigger] rows[i]) && rows[i].trip_id == trips[i]
            && rows[i].tier == tier && rows[i].channel == channel
}

proof fn lemma_one_of_trip(rows: Seq<JobView>, trip: Seq<char>)
    requires
        forall|i: int, j: int|
            0 <= i < j < rows.len() ==> (#[trigger] rows[i]).trip_id != (#[trigger] rows[j]).trip_id,
        exists|i: int| 0 <= i < rows.len() && (#[trigger] rows[i]).trip_id == trip,
    ensures
        ({
            let f = rows.filter(|r: JobView| r.trip_id == trip);
            f.len() == 1 && f[0].trip_id == trip && rows.contains(f[0])
        }),
    decreases rows.len(),
{
    let p = |r: JobView| r.trip_id == trip;
    reveal(Seq::filter);
    let u = rows.drop_last();
    let k = choose|i: int| 0 <= i < rows.len() && (#[trigger] rows[i]).trip_id == trip;
    if k < u.len() {
        assert(u[k] == rows[k]);
        assert forall|i: int, j: int| 0 <= i < j < u.len() implies (#[trigger] u[i]).trip_id != (
        #[trigger] u[j]).trip_id by {
            assert(u[i] == rows[i] && u[j] == rows[j]);
        }
        lemma_one_of_trip(u, trip);
        assert(rows[rows.len() - 1] == rows.last());
        assert(rows.last().trip_id != trip);
        let f = u.filter(p);
        let m = choose|m: int| 0 <= m < u.len() && u[m] == f[0];
        assert(rows[m] == f[0]);
    } else {
        assert(rows.last() == rows[k]);
        crate::laws::seqs::lemma_filter(u, p);
        if u.filter(p).len() > 0 {
            let x = u.filter(p)[0];
            assert(u.contains(x));
            let m = choose|m: int| 0 <= m < u.len() && u[m] == x;
            assert(rows[m].trip_id != rows[k].trip_id);
        }
        assert(rows.filter(p) =~= seq![rows.last()]);
    }
}

/// Where every trip has one timelapse of the tier and channel, they are put together
/// in the order of the trips: the primary trip's, and then those of the absorbed
/// ones.
pub proof fn timelapses_are_joined_in_the_order_of_the_trips(
    rows: Seq<JobView>,
    primary: Seq<char>,
    absorbed: Seq<Seq<char>>,
    tier: Seq<char>,
    channel: Seq<char>,
)
    requires
        absorbed.no_duplicates(),
        !absorbed.contains(primary),
        forall|i: int, j: int|
            0 <= i < j < rows.len() && (#[trigger] rows[i]).tier == (#[trigger] rows[j]).tier
                && rows[i].channel == rows[j].channel ==> rows[i].trip_id != rows[j].trip_id,
        forall|i: int|
            0 <= i < rows.len() ==> absorbed.contains((#[trigger] rows[i]).trip_id)
                || rows[i].trip_id == primary,
        is_made_by(rows, primary, tier, channel),
        forall|i: int|
            0 <= i < absorbed.len() ==> is_made_by(rows, #[trigger] absorbed[i], tier, channel),
    ensures
        ({
            let p = crate::trips::merge::tuple_plan(rows, primary, absorbed, tier, channel);
            &&& p.tier == tier && p.channel == channel && p.is_full
            &&& are_rows_of(p.rows, seq![primary] + absorbed, tier, channel)
            &&& forall|i: int| 0 <= i < p.rows.len() ==> rows.contains(#[trigger] p.rows[i])
        }),
{
    full_means_every_trip_has_one(rows, primary, absorbed, tier, channel);
    let o = crate::trips::merge::outputs_of(rows, tier, channel);
    let pred = |r: JobView| crate::trips::merge::is_output_of(r, tier, channel);
    lemma_outputs(rows, tier, channel);
    crate::laws::seqs::lemma_filter_pairs(rows, pred);
    assert forall|i: int, j: int| 0 <= i < j < o.len() implies (#[trigger] o[i]).trip_id != (
    #[trigger] o[j]).trip_id by {
        let (a, b) = choose|a: int, b: int|
            0 <= a < b < rows.len() && #[trigger] rows[a] == o[i] && #[trigger] rows[b] == o[j];
        assert(rows[a].tier == rows[b].tier);
    }
    lemma_maker(rows, o, primary, tier, channel);
    lemma_one_of_trip(o, primary);
    let first = o.filter(|r: JobView| r.trip_id == primary);
    let f = |a: Seq<char>| crate::trips::merge::row_of_trip(o, a);
    assert forall|i: int| 0 <= i < absorbed.len() implies f(#[trigger] absorbed[i]) is Some
        && f(absorbed[i])->0.trip_id == absorbed[i] && o.contains(f(absorbed[i])->0) by {
        lemma_maker(rows, o, absorbed[i], tier, channel);
        lemma_row_of_trip(o, absorbed[i]);
    }
    crate::laws::seqs::lemma_filter_map_all(absorbed, f);
    let rest = absorbed.filter_map(f);
    let r = first + rest;
    let all = seq![primary] + absorbed;
    assert forall|i: int| 0 <= i < r.len() implies is_finished(#[trigger] r[i]) && r[i].trip_id
        == all[i] && r[i].tier == tier && r[i].channel == channel && rows.contains(r[i]) by {
        if i > 0 {
            assert(r[i] == rest[i - 1]);
            assert(rest[i - 1] == f(absorbed[i - 1])->0);
            assert(o.contains(r[i]));
        } else {
            assert(r[i] == first[0]);
            assert(o.contains(r[i]));
        }
        let m = choose|m: int| 0 <= m < o.len() && o[m] == r[i];
        assert(is_finished(o[m]));
    }
}

proof fn lemma_maker(
    rows: Seq<JobView>,
    o: Seq<JobView>,
    trip: Seq<char>,
    tier: Seq<char>,
    channel: Seq<char>,
)
    requires
        is_made_by(rows, trip, tier, channel),
        o == crate::trips::merge::outputs_of(rows, tier, channel),
    ensures
        exists|k: int| 0 <= k < o.len() && (#[trigger] o[k]).trip_id == trip,
{
    lemma_outputs(rows, tier, channel);
    let i = choose|i: int|
        0 <= i < rows.len() && is_finished(#[trigger] rows[i]) && rows[i].trip_id == trip
            && rows[i].tier == tier && rows[i].channel == channel;
    assert(o.contains(rows[i]));
    let k = choose|k: int| 0 <= k < o.len() && o[k] == rows[i];
    assert(o[k].trip_id == trip);
}

proof fn lemma_row_of_trip(o: Seq<JobView>, trip: Seq<char>)
    requires
        exists|k: int| 0 <= k < o.len() && (#[trigger] o[k]).trip_id == trip,
    ensures
        crate::trips::merge::row_of_trip(o, trip) is Some,
        crate::trips::merge::row_of_trip(o, trip)->0.trip_id == trip,
        o.contains(crate::trips::merge::row_of_trip(o, trip)->0),
{
    let p = |r: JobView| r.trip_id == trip;
    crate::db::table::lemma_first_index(o, p, 0);
    let k = choose|k: int| 0 <= k < o.len() && (#[trigger] o[k]).trip_id == trip;
    assert(p(o[k]));
}

// ------------------------------------------------------------------- the tables

/// A segment that an absorbed trip had is the primary trip's, and is otherwise as it
/// was; the other segments stay as they are.
pub open spec fn is_segment_moved(
    before: SegmentView,
    after: SegmentView,
    primary: Seq<char>,
    absorbed: Seq<Seq<char>>,
) -> bool {
    &&& after.trip_id == if absorbed.contains(before.trip_id) {
        primary
    } else {
        before.trip_id
    }
    &&& after.id == before.id
    &&& after.start_time_ms == before.start_time_ms
    &&& after.duration_ms == before.duration_ms
    &&& after.master_path == before.master_path
    &&& after.is_event == before.is_event
    &&& after.camera_kind == before.camera_kind
    &&& after.gps_supported == before.gps_supported
    &&& after.last_seen_ms == before.last_seen_ms
    &&& after.size_bytes == before.size_bytes
    &&& after.is_tombstone == before.is_tombstone
}

/// A tag of an absorbed trip is the primary trip's, and is otherwise as it was.
pub open spec fn is_tag_moved(
    before: TagView,
    after: TagView,
    primary: Seq<char>,
    absorbed: Seq<Seq<char>>,
) -> bool {
    &&& after.trip_id == match before.trip_id {
        Some(t) => if absorbed.contains(t) {
            Some(primary)
        } else {
            Some(t)
        },
        None => None,
    }
    &&& after.segment_id == before.segment_id
    &&& after.name == before.name
    &&& after.category == before.category
    &&& after.source == before.source
    &&& after.created_ms == before.created_ms
}

/// A job of an absorbed trip is the primary trip's, and is otherwise as it was.
pub open spec fn is_job_moved(
    before: JobView,
    after: JobView,
    primary: Seq<char>,
    absorbed: Seq<Seq<char>>,
) -> bool {
    &&& after.trip_id == if absorbed.contains(before.trip_id) {
        primary
    } else {
        before.trip_id
    }
    &&& after.tier == before.tier && after.channel == before.channel
    &&& after.status == before.status
    &&& after.output_path == before.output_path
    &&& after.error_message == before.error_message
    &&& after.ffmpeg_version == before.ffmpeg_version
    &&& after.encoder_used == before.encoder_used
    &&& after.padded_count == before.padded_count
    &&& after.speed_curve_json == before.speed_curve_json
    &&& after.output_size_bytes == before.output_size_bytes
    &&& after.created_at_ms == before.created_at_ms
    &&& after.completed_at_ms == before.completed_at_ms
}

/// The trip has a job for the tier and channel of another job.
pub open spec fn has_too(jobs: Seq<JobView>, trip: Seq<char>, j: JobView) -> bool {
    exists|m: int|
        0 <= m < jobs.len() && (#[trigger] jobs[m]).trip_id == trip && jobs[m].tier == j.tier
            && jobs[m].channel == j.channel
}

/// The job was there before the join.
pub open spec fn comes_from(
    before: Seq<JobView>,
    j: JobView,
    primary: Seq<char>,
    absorbed: Seq<Seq<char>>,
) -> bool {
    exists|k: int|
        0 <= k < before.len() && is_job_moved(#[trigger] before[k], j, primary, absorbed)
}

/// The job is there after the join.
pub open spec fn is_carried_over(
    after: Seq<JobView>,
    j: JobView,
    primary: Seq<char>,
    absorbed: Seq<Seq<char>>,
) -> bool {
    exists|i: int|
        0 <= i < after.len() && is_job_moved(j, #[trigger] after[i], primary, absorbed)
}

/// A join changes the trip of what the absorbed trips had, and nothing else of it;
/// a job is dropped only where the primary trip has the tier and channel too.
pub proof fn joins_change_only_the_trip(
    lib: LibraryView,
    primary: Seq<char>,
    absorbed: Seq<Seq<char>>,
)
    ensures
        ({
            let r = crate::trips::merge::joined_library(lib, primary, absorbed);
            &&& r.segments.len() == lib.segments.len()
            &&& forall|i: int|
                0 <= i < lib.segments.len() ==> is_segment_moved(
                    lib.segments[i],
                    #[trigger] r.segments[i],
                    primary,
                    absorbed,
                )
            &&& r.tags.len() == lib.tags.len()
            &&& forall|i: int|
                0 <= i < lib.tags.len() ==> is_tag_moved(
                    lib.tags[i],
                    #[trigger] r.tags[i],
                    primary,
                    absorbed,
                )
            &&& r.scan_runs == lib.scan_runs
            &&& forall|i: int|
                0 <= i < r.jobs.len() ==> comes_from(
                    lib.jobs,
                    #[trigger] r.jobs[i],
                    primary,
                    absorbed,
                )
            &&& forall|k: int|
                0 <= k < lib.jobs.len() && !(absorbed.contains((#[trigger] lib.jobs[k]).trip_id) && has_too(
                    lib.jobs,
                    primary,
                    lib.jobs[k],
                )) ==> is_carried_over(r.jobs, lib.jobs[k], primary, absorbed)
        }),
{
    let r = crate::trips::merge::joined_library(lib, primary, absorbed);
    let p = |j: JobView| crate::trips::merge::stays(lib.jobs, primary, absorbed, j);
    let kept = crate::trips::merge::staying(lib.jobs, primary, absorbed);
    crate::laws::seqs::lemma_filter(lib.jobs, p);
    assert forall|i: int| 0 <= i < r.jobs.len() implies comes_from(
        lib.jobs,
        #[trigger] r.jobs[i],
        primary,
        absorbed,
    ) by {
        assert(lib.jobs.contains(kept[i]));
        let k = choose|k: int| 0 <= k < lib.jobs.len() && lib.jobs[k] == kept[i];
        assert(is_job_moved(lib.jobs[k], r.jobs[i], primary, absorbed));
    }
    assert forall|k: int|
        0 <= k < lib.jobs.len() && !(absorbed.contains((#[trigger] lib.jobs[k]).trip_id) && has_too(
            lib.jobs,
            primary,
            lib.jobs[k],
        )) implies is_carried_over(r.jobs, lib.jobs[k], primary, absorbed) by {
        if absorbed.contains(lib.jobs[k].trip_id) && crate::trips::merge::primary_has_tuple(
            lib.jobs,
            primary,
            lib.jobs[k].tier,
            lib.jobs[k].channel,
        ) {
            let m = choose|m: int|
                0 <= m < lib.jobs.len() && crate::db::timelapse_jobs::is_job(
                    #[trigger] lib.jobs[m],
                    primary,
                    lib.jobs[k].tier,
                    lib.jobs[k].channel,
                );
            assert(lib.jobs[m].trip_id == primary);
        }
        assert(p(lib.jobs[k]));
        assert(kept.contains(lib.jobs[k]));
        let i = choose|i: int| 0 <= i < kept.len() && kept[i] == lib.jobs[k];
        assert(is_job_moved(lib.jobs[k], r.jobs[i], primary, absorbed));
    }
}

/// Where the segment ends, in milliseconds.
pub open spec fn ends_at(s: SegmentView) -> int {
    s.start_time_ms + s.duration_ms
}

/// After a join the absorbed trips are gone, the others are as they were, and the
/// primary trip reaches from the first start to the last end of all the segments.
pub proof fn joins_span_all_segments(
    lib: LibraryView,
    primary: Seq<char>,
    absorbed: Seq<Seq<char>>,
    k: int,
)
    requires
        0 <= k < crate::trips::merge::joined_library(lib, primary, absorbed).trips.len(),
        forall|i: int|
            0 <= i < lib.segments.len() ==> i64::MIN <= ends_at(#[trigger] lib.segments[i])
                <= i64::MAX,
    ensures
        ({
            let r = crate::trips::merge::joined_library(lib, primary, absorbed);
            let t = r.trips[k];
            &&& !absorbed.contains(t.id)
            &&& exists|m: int|
                0 <= m < lib.trips.len() && (#[trigger] lib.trips[m]).id == t.id
                    && lib.trips[m].camera_kind == t.camera_kind && lib.trips[m].gps_supported
                    == t.gps_supported && lib.trips[m].last_seen_ms == t.last_seen_ms && (t.id
                    != primary ==> lib.trips[m] == t)
            &&& t.id == primary ==> forall|i: int|
                0 <= i < lib.segments.len() && ((#[trigger] lib.segments[i]).trip_id == primary
                    || absorbed.contains(lib.segments[i].trip_id)) ==> t.start_time_ms
                    <= lib.segments[i].start_time_ms && ends_at(lib.segments[i]) <= t.end_time_ms
        }),
{
    let r = crate::trips::merge::joined_library(lib, primary, absorbed);
    let p = |t: TripView| !absorbed.contains(t.id);
    let kept = lib.trips.filter(p);
    crate::laws::seqs::lemma_filter(lib.trips, p);
    assert(lib.trips.contains(kept[k]));
    let m = choose|m: int| 0 <= m < lib.trips.len() && lib.trips[m] == kept[k];
    assert(p(kept[k]));
    assert(lib.trips[m].id == r.trips[k].id);
    crate::trips::merge::spans_are_tight(r.segments, primary);
    joins_change_only_the_trip(lib, primary, absorbed);
    assert forall|i: int|
        0 <= i < lib.segments.len() && ((#[trigger] lib.segments[i]).trip_id == primary
            || absorbed.contains(lib.segments[i].trip_id)) && r.trips[k].id == primary implies r.trips[k].start_time_ms
        <= lib.segments[i].start_time_ms && ends_at(lib.segments[i]) <= r.trips[k].end_time_ms by {
        assert(is_segment_moved(lib.segments[i], r.segments[i], primary, absorbed));
        assert(r.segments[i].trip_id == primary);
    }
}

/// Every trip that is not absorbed is still there after a join, those other than the
/// primary one as they were, and there are no more trips than before.
pub proof fn joins_keep_the_other_trips(
    lib: LibraryView,
    primary: Seq<char>,
    absorbed: Seq<Seq<char>>,
    m: int,
)
    requires
        0 <= m < lib.trips.len(),
        !absorbed.contains(lib.trips[m].id),
    ensures
        ({
            let r = crate::trips::merge::joined_library(lib, primary, absorbed);
            &&& exists|k: int|
                0 <= k < r.trips.len() && (#[trigger] r.trips[k]).id == lib.trips[m].id && (
                lib.trips[m].id != primary ==> r.trips[k] == lib.trips[m])
            &&& r.trips.len() <= lib.trips.len()
        }),
{
    let r = crate::trips::merge::joined_library(lib, primary, absorbed);
    let p = |t: TripView| !absorbed.contains(t.id);
    let kept = lib.trips.filter(p);
    crate::laws::seqs::lemma_filter(lib.trips, p);
    lib.trips.lemma_filter_len(p);
    assert(p(lib.trips[m]));
    let k = choose|k: int| 0 <= k < kept.len() && kept[k] == lib.trips[m];
    assert(r.trips[k].id == lib.trips[m].id);
}

// --------------------------------------------------------------------- the plan

/// The plan has one entry for every tier and channel of which there is a finished
/// timelapse, and says of each whether it can be put together.
pub proof fn plans_cover_every_timelapse(
    rows: Seq<JobView>,
    primary: Seq<char>,
    absorbed: Seq<Seq<char>>,
)
    ensures
        ({
            let p = crate::trips::merge::concat_plan(rows, primary, absorbed);
            &&& crate::laws::merge::are_tuples_distinct(p)
            &&& forall|k: int|
                0 <= k < p.len() ==> is_made(rows, (#[trigger] p[k]).tier, p[k].channel)
                    && p[k].is_full == crate::trips::merge::is_full(
                    rows,
                    absorbed,
                    p[k].tier,
                    p[k].channel,
                )
            &&& forall|tier: Seq<char>, channel: Seq<char>|
                #[trigger] is_made(rows, tier, channel) ==> exists|k: int|
                    0 <= k < p.len() && (#[trigger] p[k]).tier == tier && p[k].channel == channel
        }),
{
    let t = crate::trips::merge::tuples_of(rows);
    let p = crate::trips::merge::concat_plan(rows, primary, absorbed);
    plans_name_every_timelapse_once(rows);
    assert forall|i: int, j: int| 0 <= i < j < p.len() implies (#[trigger] p[i]).tier != (
    #[trigger] p[j]).tier || p[i].channel != p[j].channel by {
        assert(t[i] != t[j]);
        assert(p[i].tier == t[i].0 && p[i].channel == t[i].1);
        assert(p[j].tier == t[j].0 && p[j].channel == t[j].1);
        if p[i].tier == p[j].tier && p[i].channel == p[j].channel {
            assert(t[i] == t[j]);
        }
    }
    assert forall|k: int| 0 <= k < p.len() implies is_made(
        rows,
        (#[trigger] p[k]).tier,
        p[k].channel,
    ) && p[k].is_full == crate::trips::merge::is_full(rows, absorbed, p[k].tier, p[k].channel) by {
        assert(t[k] == (t[k].0, t[k].1));
        assert(t.contains((t[k].0, t[k].1)));
    }
    assert forall|tier: Seq<char>, channel: Seq<char>| #[trigger]
        is_made(rows, tier, channel) implies exists|k: int|
        0 <= k < p.len() && (#[trigger] p[k]).tier == tier && p[k].channel == channel by {
        assert(t.contains((tier, channel)));
        let k = choose|k: int| 0 <= k < t.len() && t[k] == (tier, channel);
        assert(p[k].tier == tier);
    }
}

/// A plan that cannot put together drops all finished timelapses of its tier and
/// channel, and no others.
pub proof fn partial_plans_hold_all_outputs(
    rows: Seq<JobView>,
    primary: Seq<char>,
    absorbed: Seq<Seq<char>>,
    tier: Seq<char>,
    channel: Seq<char>,
)
    requires
        !crate::trips::merge::is_full(rows, absorbed, tier, channel),
    ensures
        ({
            let p = crate::trips::merge::tuple_plan(rows, primary, absorbed, tier, channel);
            &&& p.tier == tier && p.channel == channel && !p.is_full
            &&& forall|i: int|
                0 <= i < p.rows.len() ==> rows.contains(#[trigger] p.rows[i]) && is_finished(
                    p.rows[i],
                ) && p.rows[i].tier == tier && p.rows[i].channel == channel
            &&& forall|i: int|
                0 <= i < rows.len() && is_finished(#[trigger] rows[i]) && rows[i].tier == tier
                    && rows[i].channel == channel ==> p.rows.contains(rows[i])
        }),
{
    lemma_outputs(rows, tier, channel);
}

/// A row goes exactly where a plan that was carried out, because its timelapses were put
/// together or cannot be, has a row of the same trip, tier and channel.
pub proof fn rows_go_with_their_plan(
    plan: Seq<PlanView>,
    results: Seq<Option<String>>,
    j: JobView,
)
    ensures
        crate::trips::merge::is_replaced(plan, results, j) <==> exists|k: int, m: int|
            0 <= k < plan.len() && 0 <= m < plan[k].rows.len() && (!plan[k].is_full || results[k]
                is Some) && (#[trigger] plan[k].rows[m]).trip_id == j.trip_id
                && plan[k].rows[m].tier == j.tier && plan[k].rows[m].channel == j.channel,
{
    if crate::trips::merge::is_replaced(plan, results, j) {
        let k = choose|k: int|
            #![trigger plan[k]]
            0 <= k < plan.len() && crate::trips::merge::is_carried_out(plan, results, k)
                && crate::trips::merge::has_key_of(plan[k].rows, j);
        let m = choose|m: int|
            0 <= m < plan[k].rows.len() && crate::db::timelapse_jobs::is_job(
                j,
                (#[trigger] plan[k].rows[m]).trip_id,
                plan[k].rows[m].tier,
                plan[k].rows[m].channel,
            );
        assert(plan[k].rows[m].trip_id == j.trip_id);
    }
    if exists|k: int, m: int|
        0 <= k < plan.len() && 0 <= m < plan[k].rows.len() && (!plan[k].is_full || results[k]
            is Some) && (#[trigger] plan[k].rows[m]).trip_id == j.trip_id && plan[k].rows[m].tier
            == j.tier && plan[k].rows[m].channel == j.channel {
        let (k, m) = choose|k: int, m: int|
            0 <= k < plan.len() && 0 <= m < plan[k].rows.len() && (!plan[k].is_full || results[k]
                is Some) && (#[trigger] plan[k].rows[m]).trip_id == j.trip_id
                && plan[k].rows[m].tier == j.tier && plan[k].rows[m].channel == j.channel;
        assert(crate::db::timelapse_jobs::is_job(
            j,
            plan[k].rows[m].trip_id,
            plan[k].rows[m].tier,
            plan[k].rows[m].channel,
        ));
        assert(crate::trips::merge::has_key_of(plan[k].rows, j));
        assert(crate::trips::merge::is_carried_out(plan, results, k));
    }
}

/// The tiers and channels that are reported as put together are those that could be and
/// were.
pub proof fn reports_name_what_was_joined(
    plan: Seq<PlanView>,
    results: Seq<Option<String>>,
    n: int,
    tier: Seq<char>,
    channel: Seq<char>,
)
    requires
        0 <= n <= plan.len(),
    ensures
        crate::trips::merge::concatenated(plan, results, n).contains((tier, channel))
            <==> exists|k: int|
            0 <= k < n && (#[trigger] plan[k]).is_full && results[k] is Some && plan[k].tier == tier
                && plan[k].channel == channel,
    decreases n,
{
    if n > 0 {
        reports_name_what_was_joined(plan, results, n - 1, tier, channel);
        let before = crate::trips::merge::concatenated(plan, results, n - 1);
        let r = crate::trips::merge::concatenated(plan, results, n);
        if before.contains((tier, channel)) {
            let k = choose|k: int| 0 <= k < before.len() && before[k] == (tier, channel);
            assert(r[k] == (tier, channel));
        }
        if plan[n - 1].is_full && results[n - 1] is Some {
            assert(r[r.len() - 1] == (plan[n - 1].tier, plan[n - 1].channel));
        }
        if r.contains((tier, channel)) && !before.contains((tier, channel)) {
            let k = choose|k: int| 0 <= k < r.len() && r[k] == (tier, channel);
            if k < before.len() {
                assert(before[k] == (tier, channel));
            }
            assert(plan[n - 1].tier == tier);
        }
    }
}

// ------------------------------------------------------------------ the joins

/// A trip is refused where it is the primary one, where the primary one leads to it, or
/// where the primary one leads nowhere; each with its own words.
pub proof fn joins_are_refused_for_a_reason(
    rows: Seq<crate::db::manual_trip_merges::MergeRow>,
    primary: u128,
    absorbed: u128,
)
    ensures
        ({
            let r = crate::trips::merge::join_refusal(rows, primary, absorbed);
            let leads = exists|root: u128|
                crate::db::manual_trip_merges::ends_at(rows, primary, root);
            &&& r is None <==> primary != absorbed && !crate::db::manual_trip_merges::ends_at(
                rows,
                primary,
                absorbed,
            ) && leads
            &&& primary == absorbed ==> r == Some("cannot merge a trip into itself"@)
            &&& primary != absorbed && crate::db::manual_trip_merges::ends_at(
                rows,
                primary,
                absorbed,
            ) ==> r == Some("cannot merge a trip into itself (after resolving primary chain)"@)
            &&& primary != absorbed && !leads ==> r == Some(
                "cycle detected in manual_trip_merges chain starting at "@
                    + crate::ids::hyphenated(primary),
            )
        }),
{
}

/// After joins every absorbed trip is absorbed, and so is every one that was before.
pub proof fn joins_absorb_every_trip(
    before: Seq<crate::db::manual_trip_merges::MergeRow>,
    primary: u128,
    absorbed: Seq<u128>,
    now_ms: i64,
    after: Seq<crate::db::manual_trip_merges::MergeRow>,
)
    requires
        crate::trips::merge::are_joins(before, primary, absorbed, now_ms, after),
    ensures
        forall|k: int|
            0 <= k < absorbed.len() ==> crate::db::manual_trip_merges::is_absorbed(
                after,
                #[trigger] absorbed[k],
            ),
        forall|id: u128| #[trigger]
            crate::db::manual_trip_merges::is_absorbed(before, id)
                ==> crate::db::manual_trip_merges::is_absorbed(after, id),
        forall|k: int| 0 <= k < absorbed.len() ==> #[trigger] absorbed[k] != primary,
    decreases absorbed.len(),
{
    if absorbed.len() > 0 {
        let u = absorbed.drop_last();
        let x = absorbed.last();
        let mid = choose|mid: Seq<crate::db::manual_trip_merges::MergeRow>|
            crate::trips::merge::are_joins(before, primary, u, now_ms, mid)
                && #[trigger] crate::trips::merge::is_join(mid, primary, x, now_ms, after);
        joins_absorb_every_trip(before, primary, u, now_ms, mid);
        let root = choose|root: u128|
            #[trigger] crate::db::manual_trip_merges::ends_at(mid, primary, root) && after
                == crate::db::manual_trip_merges::MergeTable::with_join(mid, x, root, now_ms);
        crate::laws::library::joins_lead_to_the_root(mid, x, root, now_ms);
        assert forall|id: u128| #[trigger]
            crate::db::manual_trip_merges::is_absorbed(mid, id) implies crate::db::manual_trip_merges::is_absorbed(
            after, id) by {
            let i = choose|i: int| 0 <= i < mid.len() && (#[trigger] mid[i]).absorbed == id;
            assert(after[i].absorbed == id);
        }
        assert(crate::db::manual_trip_merges::is_absorbed(after, x));
        assert forall|k: int|
            0 <= k < absorbed.len() implies crate::db::manual_trip_merges::is_absorbed(
            after,
            #[trigger] absorbed[k],
        ) && absorbed[k] != primary by {
            if k < u.len() {
                assert(u[k] == absorbed[k]);
                assert(crate::db::manual_trip_merges::is_absorbed(mid, u[k]));
            }
        }
        assert forall|id: u128| #[trigger]
            crate::db::manual_trip_merges::is_absorbed(before, id) implies crate::db::manual_trip_merges::is_absorbed(
            after, id) by {
            assert(crate::db::manual_trip_merges::is_absorbed(mid, id));
        }
    }
}

} // verus!
