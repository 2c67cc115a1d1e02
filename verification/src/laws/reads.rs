//! How rows are read, and what is said of those that cannot be.

use crate::db::rows::{JobView, SegmentView, TripView};
use vstd::prelude::*;

verus! {

/// A row is read as a segment exactly where its identifier is one and its start is in
/// the calendar. It then is a tombstone with this identifier and start, without files,
/// and otherwise what the row tells.
pub proof fn readable_rows_are_tombstones(r: SegmentView)
    ensures
        crate::db::queries::is_readable(r) <==> crate::ids::uuid_in(r.id) is Some
            && crate::moment::FIRST_SECOND <= r.start_time_ms as int / 1000
            <= crate::moment::LAST_SECOND,
        crate::db::queries::is_readable(r) ==> ({
            let t = crate::db::queries::tombstone_segment(r);
            &&& Some(t.id) == crate::ids::uuid_in(r.id)
            &&& t.start_time.secs * 1000 + t.start_time.nanos / 1_000_000 == r.start_time_ms
            &&& t.start_time.nanos < 1_000_000_000
            &&& t.duration_ms == r.duration_ms && t.is_event == r.is_event
            &&& t.gps_supported == r.gps_supported
            &&& t.camera_kind == crate::db::segments::kind_of(r.camera_kind)
            &&& t.channels.len() == 0 && t.is_tombstone
            &&& t.size_bytes is Some <==> r.size_bytes is Some
            &&& r.size_bytes is Some && r.size_bytes->0 >= 0 ==> t.size_bytes->0
                == r.size_bytes->0
        }),
{
}

/// What is said of a row that cannot be read names what is wrong with it: first its
/// identifier, then its start.
pub proof fn unreadable_rows_are_told(r: SegmentView)
    ensures
        crate::ids::uuid_in(r.id) is None ==> crate::db::queries::row_complaint(r)
            == "invalid segment uuid "@ + r.id + ": "@ + crate::ids::uuid_complaint(r.id),
        crate::ids::uuid_in(r.id) is Some ==> crate::db::queries::row_complaint(r)
            == "invalid start_time_ms "@ + crate::text::decimal_int(r.start_time_ms as int),
{
}

/// A row is read as a trip exactly where its identifier is one and its start and its end
/// are in the calendar. It then is a trip with these, without segments.
pub proof fn readable_trips_are_archives(r: TripView)
    ensures
        crate::db::queries::is_readable_trip(r) <==> crate::ids::uuid_in(r.id) is Some
            && crate::moment::FIRST_SECOND <= r.start_time_ms as int / 1000
            <= crate::moment::LAST_SECOND && crate::moment::FIRST_SECOND <= r.end_time_ms as int
            / 1000 <= crate::moment::LAST_SECOND,
        crate::db::queries::is_readable_trip(r) ==> ({
            let t = crate::db::queries::archive_trip(r);
            &&& Some(t.id) == crate::ids::uuid_in(r.id)
            &&& t.start_time.secs * 1000 + t.start_time.nanos / 1_000_000 == r.start_time_ms
            &&& t.end_time.secs * 1000 + t.end_time.nanos / 1_000_000 == r.end_time_ms
            &&& t.segments.len() == 0 && t.archive_only
            &&& t.gps_supported == r.gps_supported
            &&& t.camera_kind == crate::db::segments::kind_of(r.camera_kind)
        }),
{
}

/// What is said of a trip that cannot be read names what is wrong with it.
pub proof fn unreadable_trips_are_told(r: TripView)
    ensures
        crate::ids::uuid_in(r.id) is None ==> crate::db::queries::trip_complaint(r)
            == "invalid trip uuid "@ + r.id + ": "@ + crate::ids::uuid_complaint(r.id),
        crate::ids::uuid_in(r.id) is Some && crate::moment::millis_moment(r.start_time_ms as int)
            is None ==> crate::db::queries::trip_complaint(r) == "invalid start_time_ms "@
            + crate::text::decimal_int(r.start_time_ms as int),
        crate::ids::uuid_in(r.id) is Some && crate::moment::millis_moment(r.start_time_ms as int)
            is Some ==> crate::db::queries::trip_complaint(r) == "invalid end_time_ms "@
            + crate::text::decimal_int(r.end_time_ms as int),
{
}

/// The rows of trips are all rows of one of the trips.
pub proof fn rows_of_trips_are_all(jobs: Seq<JobView>, ids: Seq<Seq<char>>)
    ensures
        ({
            let r = crate::trips::merge::rows_for(jobs, ids);
            &&& forall|i: int|
                0 <= i < r.len() ==> jobs.contains(#[trigger] r[i]) && ids.contains(r[i].trip_id)
            &&& forall|i: int|
                0 <= i < jobs.len() && ids.contains((#[trigger] jobs[i]).trip_id) ==> r.contains(
                    jobs[i],
                )
        }),
{
    let w = seq![ids];
    let p = |r: JobView| w[0].contains(r.trip_id);
    crate::laws::seqs::lemma_filter(jobs, p);
    let r = crate::trips::merge::rows_for(jobs, w[0]);
    assert(r == jobs.filter(p));
    assert forall|i: int| 0 <= i < jobs.len() && ids.contains((#[trigger] jobs[i]).trip_id) implies r.contains(
        jobs[i],
    ) by {
        assert(p(jobs[i]));
    }
}

/// The trips of a join are all absorbed ones and the primary one.
pub proof fn joins_are_of_all_trips(primary: u128, absorbed: Seq<u128>, x: Seq<char>)
    ensures
        crate::trips::merge::sources(primary, absorbed).contains(x) <==> x
            == crate::ids::hyphenated(primary) || exists|i: int|
            0 <= i < absorbed.len() && x == crate::ids::hyphenated(#[trigger] absorbed[i]),
        crate::trips::merge::sources(primary, absorbed).len() == absorbed.len() + 1,
{
    let s = crate::trips::merge::sources(primary, absorbed);
    let t = crate::trips::merge::id_texts(absorbed);
    assert(s[s.len() - 1] == crate::ids::hyphenated(primary));
    if s.contains(x) {
        let k = choose|k: int| 0 <= k < s.len() && s[k] == x;
        if k < t.len() {
            assert(t[k] == crate::ids::hyphenated(absorbed[k]));
        }
    }
    if exists|i: int| 0 <= i < absorbed.len() && x == crate::ids::hyphenated(#[trigger] absorbed[i]) {
        let i = choose|i: int|
            0 <= i < absorbed.len() && x == crate::ids::hyphenated(#[trigger] absorbed[i]);
        assert(s[i] == x);
    }
}

} // verus!
