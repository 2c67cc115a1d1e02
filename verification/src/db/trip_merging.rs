//! Folding trips that the user joined by hand into one.

use crate::db::manual_trip_merges::MergeTable;
use crate::model::{Segment, SegmentView, Trip, TripView};
use crate::moment::Moment;
use crate::scan::grouping::sort_segments;
use crate::sort::sort_stable;
use vstd::multiset::Multiset;
use vstd::prelude::*;

verus! {

/// Trips that belong together.
struct TripBucket {
    id: u128,
    trips: Vec<Trip>,
}

/// Trips that belong together, with texts as sequences of characters.
#[verifier::ext_equal]
pub struct BucketView {
    pub id: u128,
    pub trips: Seq<TripView>,
}

impl View for TripBucket {
    type V = BucketView;

    closed spec fn view(&self) -> BucketView {
        BucketView { id: self.id, trips: crate::model::trip_views(self.trips@) }
    }
}

spec fn bucket_views(v: Seq<TripBucket>) -> Seq<BucketView> {
    v.map_values(|b: TripBucket| b@)
}

/// The trip that a trip counts as: its primary trip where it was absorbed.
pub open spec fn effective_id(
    rows: Seq<crate::db::manual_trip_merges::MergeRow>,
    id: u128,
) -> u128 {
    match crate::db::manual_trip_merges::parent_of(rows, id) {
        Some(p) => p,
        None => id,
    }
}

/// The first bucket from `i` on with the given identifier; the number of
/// buckets where there is none.
pub open spec fn bucket_at(b: Seq<BucketView>, id: u128, i: int) -> int
    decreases b.len() - i,
{
    if i < 0 || i >= b.len() {
        b.len() as int
    } else if b[i].id == id {
        i
    } else {
        bucket_at(b, id, i + 1)
    }
}

/// The buckets with one more trip put into the bucket that it counts to.
pub open spec fn with_trip(b: Seq<BucketView>, id: u128, t: TripView) -> Seq<BucketView> {
    let i = bucket_at(b, id, 0);
    if i < b.len() {
        b.update(i, BucketView { id, trips: b[i].trips.push(t) })
    } else {
        b.push(BucketView { id, trips: seq![t] })
    }
}

/// The trips by what they count as, in the order of first occurrence.
pub open spec fn buckets_of(
    trips: Seq<TripView>,
    rows: Seq<crate::db::manual_trip_merges::MergeRow>,
) -> Seq<BucketView>
    decreases trips.len(),
{
    if trips.len() == 0 {
        Seq::empty()
    } else {
        with_trip(
            buckets_of(trips.drop_last(), rows),
            effective_id(rows, trips.last().id),
            trips.last(),
        )
    }
}

/// The place of a trip in the order of time.
pub open spec fn trip_order() -> spec_fn(TripView) -> int {
    |t: TripView| t.start_time.order()
}

/// The latest end among the trips, the first of those that are equal.
pub open spec fn latest_end(trips: Seq<TripView>) -> Moment
    decreases trips.len(),
{
    if trips.len() <= 1 {
        trips[0].end_time
    } else {
        let before = latest_end(trips.drop_last());
        if trips.last().end_time.order() > before.order() {
            trips.last().end_time
        } else {
            before
        }
    }
}

/// The segments of the trips, one trip after the other.
pub open spec fn segments_of(trips: Seq<TripView>) -> Seq<SegmentView>
    decreases trips.len(),
{
    if trips.len() == 0 {
        Seq::empty()
    } else {
        segments_of(trips.drop_last()) + trips.last().segments
    }
}

/// The one trip that trips that belong together make: it takes its start and
/// its camera from the earliest, its end from the latest, and all segments.
pub open spec fn folded(b: BucketView) -> TripView {
    let s = crate::sort::sort_by(b.trips, trip_order());
    let segments = segments_of(s);
    TripView {
        id: b.id,
        start_time: s[0].start_time,
        end_time: latest_end(s),
        segments: crate::sort::sort_by(segments, crate::scan::grouping::start_order()),
        camera_kind: s[0].camera_kind,
        gps_supported: s[0].gps_supported,
        archive_only: segments.len() == 0,
    }
}

/// The trips with every absorbed trip folded into its primary trip, in the
/// order of time. Without any joins the trips are left as they are.
pub open spec fn merged_trips(
    trips: Seq<TripView>,
    rows: Seq<crate::db::manual_trip_merges::MergeRow>,
) -> Seq<TripView> {
    if rows.len() == 0 {
        trips
    } else {
        crate::sort::sort_by(
            buckets_of(trips, rows).map_values(|b: BucketView| folded(b)),
            trip_order(),
        )
    }
}

proof fn lemma_bucket_at(b: Seq<BucketView>, id: u128, i: int)
    requires
        0 <= i <= b.len(),
    ensures
        i <= bucket_at(b, id, i) <= b.len(),
        bucket_at(b, id, i) < b.len() ==> b[bucket_at(b, id, i)].id == id,
        forall|j: int| i <= j < bucket_at(b, id, i) ==> (#[trigger] b[j]).id != id,
    decreases b.len() - i,
{
    if i < b.len() && b[i].id != id {
        lemma_bucket_at(b, id, i + 1);
    }
}

proof fn lemma_buckets_nonempty(
    trips: Seq<TripView>,
    rows: Seq<crate::db::manual_trip_merges::MergeRow>,
)
    ensures
        forall|i: int|
            0 <= i < buckets_of(trips, rows).len() ==> (#[trigger] buckets_of(
                trips,
                rows,
            )[i]).trips.len() > 0,
    decreases trips.len(),
{
    if trips.len() > 0 {
        lemma_buckets_nonempty(trips.drop_last(), rows);
        let b = buckets_of(trips.drop_last(), rows);
        let id = effective_id(rows, trips.last().id);
        lemma_bucket_at(b, id, 0);
        let r = buckets_of(trips, rows);
        assert forall|i: int| 0 <= i < r.len() implies (#[trigger] r[i]).trips.len() > 0 by {
            if i < b.len() && i != bucket_at(b, id, 0) {
                assert(r[i] == b[i]);
            }
        }
    }
}

fn bucket_trips(trips: Vec<Trip>, merges: &MergeTable) -> (buckets: Vec<TripBucket>)
    requires
        crate::db::manual_trip_merges::has_unique_absorbed(merges.rows@),
    ensures
        bucket_views(buckets@) == buckets_of(crate::model::trip_views(trips@), merges.rows@),
{
    let ghost raw = trips@;
    let ghost all = crate::model::trip_views(raw);
    let mut buckets: Vec<TripBucket> = Vec::new();
    let ghost mut n: int = 0;
    proof {
        assert(all.take(0).len() == 0);
        assert(bucket_views(buckets@) == buckets_of(all.take(0), merges.rows@));
    }
    for t in it: trips
        invariant
            it.seq() == raw,
            n == it.index(),
            all == crate::model::trip_views(raw),
            crate::db::manual_trip_merges::has_unique_absorbed(merges.rows@),
            bucket_views(buckets@) == buckets_of(all.take(n), merges.rows@),
    {
        let ghost b = bucket_views(buckets@);
        let ghost tv = t@;
        proof {
            assert(all[n] == tv);
            assert(all.take(n + 1).drop_last() == all.take(n));
            assert(all.take(n + 1).last() == tv);
        }
        let id: u128 = match merges.parent(t.id) {
            Some(p) => p,
            None => t.id,
        };
        let mut i: usize = 0;
        while i < buckets.len() && buckets[i].id != id
            invariant
                i <= buckets.len(),
                b == bucket_views(buckets@),
                bucket_at(b, id, 0) == bucket_at(b, id, i as int),
            decreases buckets.len() - i,
        {
            proof {
                assert(b[i as int] == buckets@[i as int]@);
            }
            i += 1;
        }
        if i < buckets.len() {
            proof {
                assert(b[i as int] == buckets@[i as int]@);
            }
            let ghost before = buckets@;
            let ghost old_trips = buckets@[i as int].trips@;
            buckets[i].trips.push(t);
            proof {
                assert(crate::model::trip_views(buckets@[i as int].trips@)
                    == crate::model::trip_views(old_trips).push(tv));
                assert(buckets@[i as int]@ == BucketView { id, trips: b[i as int].trips.push(tv) });
                assert(bucket_views(buckets@) == b.update(
                    i as int,
                    BucketView { id, trips: b[i as int].trips.push(tv) },
                ));
            }
        } else {
            let mut fresh: Vec<Trip> = Vec::new();
            fresh.push(t);
            proof {
                assert(crate::model::trip_views(fresh@) == seq![tv]);
            }
            let bucket = TripBucket { id, trips: fresh };
            let ghost bv = bucket@;
            buckets.push(bucket);
            proof {
                assert(bv == BucketView { id, trips: seq![tv] });
                assert(bucket_views(buckets@) == b.push(bv));
            }
        }
        proof {
            n = n + 1;
        }
    }
    proof {
        assert(all.take(all.len() as int) == all);
    }
    buckets
}

fn trip_keys(v: &Vec<Trip>) -> (keys: Vec<i128>)
    ensures
        keys.len() == v.len(),
        forall|i: int| 0 <= i < v.len() ==> #[trigger] keys@[i] == v@[i].start_time.order(),
{
    let mut keys: Vec<i128> = Vec::new();
    let mut i: usize = 0;
    while i < v.len()
        invariant
            i <= v.len(),
            keys.len() == i,
            forall|j: int| 0 <= j < i ==> #[trigger] keys@[j] == v@[j].start_time.order(),
        decreases v.len() - i,
    {
        keys.push(v[i].start_time.order_key());
        i += 1;
    }
    keys
}

/// Puts trips in the order of time.
pub fn sort_trips(v: Vec<Trip>) -> (r: Vec<Trip>)
    ensures
        crate::model::trip_views(r@) == crate::sort::sort_by(
            crate::model::trip_views(v@),
            trip_order(),
        ),
{
    let keys = trip_keys(&v);
    let ghost raw_key = |t: Trip| t.start_time.order();
    let ghost to_view = |t: Trip| t@;
    proof {
        crate::sort::sort_commutes_with_map(v@, raw_key, to_view, trip_order());
        assert(crate::model::trip_views(v@) == v@.map_values(to_view));
    }
    let r = sort_stable(v, keys, Ghost(raw_key));
    proof {
        assert(crate::model::trip_views(r@) == r@.map_values(to_view));
    }
    r
}

fn fold_bucket(bucket: TripBucket) -> (t: Trip)
    requires
        bucket@.trips.len() > 0,
    ensures
        t@ == folded(bucket@),
{
    let ghost bv = bucket@;
    let id: u128 = bucket.id;
    let sorted = sort_trips(bucket.trips);
    let ghost raw = sorted@;
    let ghost s = crate::model::trip_views(raw);
    proof {
        crate::sort::sort_is_sorted(bv.trips, trip_order());
        assert(s.len() == bv.trips.len());
        assert(s[0] == raw[0]@);
    }
    let start_time = sorted[0].start_time;
    let mut end_time = sorted[0].end_time;
    let camera_kind = sorted[0].camera_kind;
    let gps_supported = sorted[0].gps_supported;
    let mut segments: Vec<Segment> = Vec::new();
    let ghost mut n: int = 0;
    proof {
        assert(s.take(0).len() == 0);
        assert(crate::model::segment_views(segments@) == segments_of(s.take(0)));
    }
    for t in it: sorted
        invariant
            it.seq() == raw,
            n == it.index(),
            s == crate::model::trip_views(raw),
            s.len() > 0,
            n == 0 ==> end_time == s[0].end_time,
            n > 0 ==> end_time == latest_end(s.take(n)),
            crate::model::segment_views(segments@) == segments_of(s.take(n)),
    {
        let ghost tv = t@;
        let ghost before = segments@;
        proof {
            assert(s[n] == tv);
            assert(s.take(n + 1).drop_last() == s.take(n));
            assert(s.take(n + 1).last() == tv);
            if n == 0 {
                assert(s.take(1)[0] == s[0]);
            }
        }
        if t.end_time.order_key() > end_time.order_key() {
            end_time = t.end_time;
        }
        let mut more = t.segments;
        let ghost mv = more@;
        segments.append(&mut more);
        proof {
            assert(crate::model::segment_views(segments@) == crate::model::segment_views(before)
                + crate::model::segment_views(mv));
            n = n + 1;
        }
    }
    proof {
        assert(s.take(s.len() as int) == s);
    }
    let archive_only = segments.len() == 0;
    let segments = sort_segments(segments);
    Trip { id, start_time, end_time, segments, camera_kind, gps_supported, archive_only }
}

/// Folds every trip that was joined to another into that one.
pub fn apply_merges_to_trips(trips: Vec<Trip>, merges: &MergeTable) -> (r: Vec<Trip>)
    requires
        crate::db::manual_trip_merges::has_unique_absorbed(merges.rows@),
    ensures
        crate::model::trip_views(r@) == merged_trips(
            crate::model::trip_views(trips@),
            merges.rows@,
        ),
{
    if merges.rows.len() == 0 {
        return trips;
    }
    let ghost all = crate::model::trip_views(trips@);
    let buckets = bucket_trips(trips, merges);
    let ghost raw = buckets@;
    let ghost bv = bucket_views(raw);
    let ghost wanted = bv.map_values(|b: BucketView| folded(b));
    let mut out: Vec<Trip> = Vec::new();
    let ghost mut n: int = 0;
    proof {
        lemma_buckets_nonempty(all, merges.rows@);
    }
    for b in it: buckets
        invariant
            it.seq() == raw,
            n == it.index(),
            bv == bucket_views(raw),
            forall|i: int| 0 <= i < bv.len() ==> (#[trigger] bv[i]).trips.len() > 0,
            wanted == bv.map_values(|b: BucketView| folded(b)),
            crate::model::trip_views(out@) == wanted.take(n),
    {
        proof {
            assert(bv[n] == b@);
        }
        let t = fold_bucket(b);
        let ghost tv = t@;
        let ghost before = out@;
        out.push(t);
        proof {
            assert(wanted[n] == tv);
            assert(crate::model::trip_views(out@) == crate::model::trip_views(before).push(tv));
            assert(wanted.take(n + 1) == wanted.take(n).push(tv));
            n = n + 1;
        }
    }
    proof {
        assert(wanted.take(wanted.len() as int) == wanted);
    }
    sort_trips(out)
}

// -------------------------------------------------------------------- laws

/// All segments of the trips, as a multiset.
pub open spec fn segment_bag(trips: Seq<TripView>) -> Multiset<SegmentView> {
    segments_of(trips).to_multiset()
}

proof fn lemma_bag_concat(a: Seq<SegmentView>, b: Seq<SegmentView>)
    ensures
        (a + b).to_multiset() == a.to_multiset().add(b.to_multiset()),
{
    vstd::seq_lib::lemma_multiset_commutative(a, b);
}

proof fn lemma_bag_push(trips: Seq<TripView>, t: TripView)
    ensures
        segment_bag(trips.push(t)) == segment_bag(trips).add(t.segments.to_multiset()),
{
    assert(trips.push(t).drop_last() == trips);
    lemma_bag_concat(segments_of(trips), t.segments);
}

proof fn lemma_bag_insert(s: Seq<TripView>, t: TripView)
    ensures
        segment_bag(crate::sort::insert_by(s, t, trip_order())) == segment_bag(s).add(
            t.segments.to_multiset(),
        ),
    decreases s.len(),
{
    let key = trip_order();
    if s.len() == 0 {
        assert(seq![t] == s.push(t));
        lemma_bag_push(s, t);
    } else if key(s.last()) <= key(t) {
        lemma_bag_push(s, t);
    } else {
        let u = s.drop_last();
        lemma_bag_insert(u, t);
        let r = crate::sort::insert_by(u, t, key);
        lemma_bag_push(r, s.last());
        lemma_bag_push(u, s.last());
        assert(u.push(s.last()) == s);
        assert(segment_bag(r.push(s.last())) =~= segment_bag(s).add(t.segments.to_multiset()));
    }
}

proof fn lemma_bag_sort(s: Seq<TripView>)
    ensures
        segment_bag(crate::sort::sort_by(s, trip_order())) == segment_bag(s),
    decreases s.len(),
{
    if s.len() > 0 {
        let u = s.drop_last();
        lemma_bag_sort(u);
        lemma_bag_insert(crate::sort::sort_by(u, trip_order()), s.last());
        lemma_bag_push(u, s.last());
        assert(u.push(s.last()) == s);
    }
}

proof fn lemma_folded_bag(b: BucketView)
    ensures
        folded(b).segments.to_multiset() == segment_bag(b.trips),
{
    let s = crate::sort::sort_by(b.trips, trip_order());
    lemma_bag_sort(b.trips);
    crate::sort::sort_is_permutation(segments_of(s), crate::scan::grouping::start_order());
}

/// All segments in the buckets.
spec fn bucket_bag(b: Seq<BucketView>) -> Multiset<SegmentView>
    decreases b.len(),
{
    if b.len() == 0 {
        Multiset::empty()
    } else {
        bucket_bag(b.drop_last()).add(segment_bag(b.last().trips))
    }
}

proof fn lemma_bucket_bag_update(b: Seq<BucketView>, i: int, t: TripView)
    requires
        0 <= i < b.len(),
    ensures
        bucket_bag(b.update(i, BucketView { id: b[i].id, trips: b[i].trips.push(t) }))
            == bucket_bag(b).add(t.segments.to_multiset()),
    decreases b.len(),
{
    let x = BucketView { id: b[i].id, trips: b[i].trips.push(t) };
    let r = b.update(i, x);
    lemma_bag_push(b[i].trips, t);
    if i == b.len() - 1 {
        assert(r.drop_last() == b.drop_last());
        assert(bucket_bag(r) =~= bucket_bag(b).add(t.segments.to_multiset()));
    } else {
        assert(r.drop_last() == b.drop_last().update(i, x));
        assert(b.drop_last()[i] == b[i]);
        lemma_bucket_bag_update(b.drop_last(), i, t);
        assert(bucket_bag(r) =~= bucket_bag(b).add(t.segments.to_multiset()));
    }
}

proof fn lemma_buckets_bag(
    trips: Seq<TripView>,
    rows: Seq<crate::db::manual_trip_merges::MergeRow>,
)
    ensures
        bucket_bag(buckets_of(trips, rows)) == segment_bag(trips),
    decreases trips.len(),
{
    if trips.len() == 0 {
        assert(segments_of(trips) == Seq::<SegmentView>::empty());
        broadcast use vstd::seq_lib::group_to_multiset_ensures;

        assert(segment_bag(trips) =~= Multiset::empty());
    } else {
        let u = trips.drop_last();
        let b = buckets_of(u, rows);
        let t = trips.last();
        let id = effective_id(rows, t.id);
        lemma_buckets_bag(u, rows);
        lemma_bucket_at(b, id, 0);
        lemma_bag_push(u, t);
        assert(u.push(t) == trips);
        let i = bucket_at(b, id, 0);
        if i < b.len() {
            lemma_bucket_bag_update(b, i, t);
        } else {
            let x = BucketView { id, trips: seq![t] };
            assert(b.push(x).drop_last() == b);
            assert(seq![t] == Seq::<TripView>::empty().push(t));
            lemma_bag_push(Seq::<TripView>::empty(), t);
            broadcast use vstd::seq_lib::group_to_multiset_ensures;

            assert(segments_of(Seq::<TripView>::empty()) == Seq::<SegmentView>::empty());
            assert(segment_bag(seq![t]) =~= t.segments.to_multiset());
            assert(bucket_bag(b.push(x)) =~= segment_bag(trips));
        }
    }
}

proof fn lemma_folded_all_bag(b: Seq<BucketView>)
    ensures
        segment_bag(b.map_values(|x: BucketView| folded(x))) == bucket_bag(b),
    decreases b.len(),
{
    let f = b.map_values(|x: BucketView| folded(x));
    if b.len() == 0 {
        broadcast use vstd::seq_lib::group_to_multiset_ensures;

        assert(segments_of(f) == Seq::<SegmentView>::empty());
        assert(segment_bag(f) =~= Multiset::empty());
    } else {
        lemma_folded_all_bag(b.drop_last());
        lemma_folded_bag(b.last());
        let g = b.drop_last().map_values(|x: BucketView| folded(x));
        assert(f == g.push(folded(b.last())));
        lemma_bag_push(g, folded(b.last()));
    }
}

/// Folding trips loses no segment and makes none up: the trips hold the same
/// segments before and after.
pub proof fn merging_keeps_every_segment(
    trips: Seq<TripView>,
    rows: Seq<crate::db::manual_trip_merges::MergeRow>,
)
    ensures
        segment_bag(merged_trips(trips, rows)) == segment_bag(trips),
{
    if rows.len() > 0 {
        let b = buckets_of(trips, rows);
        lemma_buckets_bag(trips, rows);
        lemma_folded_all_bag(b);
        lemma_bag_sort(b.map_values(|x: BucketView| folded(x)));
    }
}

/// No two buckets have the same identifier.
proof fn lemma_bucket_ids_differ(
    trips: Seq<TripView>,
    rows: Seq<crate::db::manual_trip_merges::MergeRow>,
)
    ensures
        forall|i: int, j: int|
            0 <= i < j < buckets_of(trips, rows).len() ==> (#[trigger] buckets_of(
                trips,
                rows,
            )[i]).id != (#[trigger] buckets_of(trips, rows)[j]).id,
    decreases trips.len(),
{
    if trips.len() > 0 {
        lemma_bucket_ids_differ(trips.drop_last(), rows);
        let b = buckets_of(trips.drop_last(), rows);
        let id = effective_id(rows, trips.last().id);
        lemma_bucket_at(b, id, 0);
        let r = buckets_of(trips, rows);
        assert forall|i: int, j: int| 0 <= i < j < r.len() implies (#[trigger] r[i]).id != (
        #[trigger] r[j]).id by {
            assert(r[i].id == b[i].id);
            if j < b.len() {
                assert(r[j].id == b[j].id);
            }
        }
    }
}

/// After joins were applied no two trips have the same identifier.
pub proof fn merged_trips_have_unique_ids(
    trips: Seq<TripView>,
    rows: Seq<crate::db::manual_trip_merges::MergeRow>,
)
    requires
        rows.len() > 0,
    ensures
        merged_trips(trips, rows).map_values(|t: TripView| t.id).no_duplicates(),
{
    broadcast use vstd::seq_lib::group_to_multiset_ensures;

    let b = buckets_of(trips, rows);
    let f = b.map_values(|x: BucketView| folded(x));
    lemma_bucket_ids_differ(trips, rows);
    assert(f.no_duplicates()) by {
        assert forall|i: int, j: int| 0 <= i < f.len() && 0 <= j < f.len() && i != j implies f[i]
            != f[j] by {
            assert(f[i].id == b[i].id && f[j].id == b[j].id);
            if i < j {
                assert(b[i].id != b[j].id);
            } else {
                assert(b[j].id != b[i].id);
            }
        }
    }
    let r = crate::sort::sort_by(f, trip_order());
    crate::sort::sort_is_permutation(f, trip_order());
    f.lemma_multiset_has_no_duplicates();
    r.lemma_multiset_has_no_duplicates_conv();
    let ids = r.map_values(|t: TripView| t.id);
    assert forall|i: int, j: int| 0 <= i < ids.len() && 0 <= j < ids.len() && i != j implies ids[i]
        != ids[j] by {
        assert(r[i] != r[j]);
        assert(r.to_multiset().contains(r[i]) && r.to_multiset().contains(r[j]));
        assert(f.contains(r[i]) && f.contains(r[j]));
        let x = choose|x: int| 0 <= x < f.len() && f[x] == r[i];
        let y = choose|y: int| 0 <= y < f.len() && f[y] == r[j];
        assert(f[x].id == b[x].id && f[y].id == b[y].id);
        if x < y {
            assert(b[x].id != b[y].id);
        } else {
            assert(b[y].id != b[x].id);
        }
    }
}

} // verus!
