//! Joining trips into one.

use crate::db::manual_trip_merges::{MergeRow, MergeTable};
use crate::db::rows::{
    JobRow, JobStatus, JobView, Library, LibraryView, SegmentRow, SegmentView, TagRow, TagView,
    TripRow, TripView,
};
use crate::db::table::{contains_string, insert_ordered, retain_marked};
use crate::db::timelapse_jobs::row_is_job;
use crate::error::AppError;
use crate::ids::id_text;
use crate::paths::from_archive_relative;
use crate::text::{concat2, concat3, owned, precedes, same_str};
use crate::timelapse::cleanup::GpsRow;
use crate::timelapse::ffmpeg::write_concat_list;
use crate::timelapse::speed_curve::CurveSegment;
use crate::timelapse::types::saturating_sum;
use crate::timelapse::worker::output_file_name;
use vstd::prelude::*;

verus! {

// ---------------------------------------------------------------- assessment

/// Whether the timelapses of a tier and channel can be put together.
#[derive(Debug, Clone, Copy, PartialEq, Eq, Structural)]
pub enum TupleStatus {
    /// Every trip has one.
    Concatenable,
    /// Some trips have one, some have not.
    PartialOutputs,
}

/// What there is of a tier and channel.
#[derive(Debug)]
pub struct TupleAssessment {
    pub tier: String,
    pub channel: String,
    pub status: TupleStatus,
    pub primary_has: bool,
    pub absorbed_with_output: Vec<String>,
}

/// What there is of a tier and channel, with texts as sequences of characters.
#[verifier::ext_equal]
pub struct TupleView {
    pub tier: Seq<char>,
    pub channel: Seq<char>,
    pub status: TupleStatus,
    pub primary_has: bool,
    pub absorbed_with_output: Seq<Seq<char>>,
}

impl View for TupleAssessment {
    type V = TupleView;

    open spec fn view(&self) -> TupleView {
        TupleView {
            tier: self.tier@,
            channel: self.channel@,
            status: self.status,
            primary_has: self.primary_has,
            absorbed_with_output: crate::text::views(self.absorbed_with_output@),
        }
    }
}

/// What can be done with the timelapses of trips that are to be joined.
#[derive(Debug)]
pub struct TimelapseMergeAssessment {
    pub has_any_timelapses: bool,
    pub tuples: Vec<TupleAssessment>,
    pub camera_kinds: Vec<String>,
}

/// What is to be done with the timelapses of trips that are to be joined.
#[derive(Debug, Clone, Copy, PartialEq, Eq, Structural)]
pub enum TimelapseMergeStrategy {
    /// Put together what every trip has; drop what only some have.
    ConcatWherePossible,
    /// Drop all of them.
    DiscardAll,
}

/// What a join did.
#[derive(Debug)]
pub struct MergeReport {
    pub primary_trip_id: String,
    pub absorbed_trip_ids: Vec<String>,
    pub concatenated: Vec<(String, String)>,
    pub timelapse_jobs_removed: usize,
}

/// The rows of the given trips.
pub open spec fn rows_for(jobs: Seq<JobView>, ids: Seq<Seq<char>>) -> Seq<JobView> {
    jobs.filter(|r: JobView| ids.contains(r.trip_id))
}

/// The row is a finished timelapse of the tier and channel.
pub open spec fn is_output_of(r: JobView, tier: Seq<char>, channel: Seq<char>) -> bool {
    r.status == JobStatus::Done && r.output_path is Some && r.tier == tier && r.channel == channel
}

/// The finished timelapses of a tier and channel.
pub open spec fn outputs_of(rows: Seq<JobView>, tier: Seq<char>, channel: Seq<char>) -> Seq<
    JobView,
> {
    rows.filter(|r: JobView| is_output_of(r, tier, channel))
}

/// The strings without those that came before.
pub open spec fn distinct(s: Seq<Seq<char>>) -> Seq<Seq<char>>
    decreases s.len(),
{
    if s.len() == 0 {
        Seq::empty()
    } else {
        let before = distinct(s.drop_last());
        if before.contains(s.last()) {
            before
        } else {
            before.push(s.last())
        }
    }
}

/// The trips of the rows.
pub open spec fn trips_of(rows: Seq<JobView>) -> Seq<Seq<char>> {
    rows.map_values(|r: JobView| r.trip_id)
}

/// Every one of the trips to be joined has a finished timelapse of the tier and
/// channel.
pub open spec fn is_full(
    rows: Seq<JobView>,
    absorbed: Seq<Seq<char>>,
    tier: Seq<char>,
    channel: Seq<char>,
) -> bool {
    distinct(trips_of(outputs_of(rows, tier, channel))).len() == absorbed.len() + 1
}

/// What there is of a tier and channel.
pub open spec fn assessed(
    rows: Seq<JobView>,
    primary: Seq<char>,
    absorbed: Seq<Seq<char>>,
    tier: Seq<char>,
    channel: Seq<char>,
) -> TupleView {
    let trips = trips_of(outputs_of(rows, tier, channel));
    TupleView {
        tier,
        channel,
        status: if is_full(rows, absorbed, tier, channel) {
            TupleStatus::Concatenable
        } else {
            TupleStatus::PartialOutputs
        },
        primary_has: trips.contains(primary),
        absorbed_with_output: absorbed.filter(|a: Seq<char>| trips.contains(a)),
    }
}

/// The order of tiers and channels.
pub open spec fn tuple_lt(a: Seq<char>, b: Seq<char>, c: Seq<char>, d: Seq<char>) -> bool {
    crate::text::lex_lt(a, c) || (a == c && crate::text::lex_lt(b, d))
}

/// There is a finished timelapse of the tier and channel.
pub open spec fn has_output(rows: Seq<JobView>, tier: Seq<char>, channel: Seq<char>) -> bool {
    exists|i: int| 0 <= i < rows.len() && is_output_of(#[trigger] rows[i], tier, channel)
}

/// The views of assessments.
pub open spec fn tuple_views(v: Seq<TupleAssessment>) -> Seq<TupleView> {
    v.map_values(|t: TupleAssessment| t@)
}

/// The tiers and channels of which there is a finished timelapse, in order, and
/// what there is of each.
pub open spec fn are_assessments(
    t: Seq<TupleView>,
    rows: Seq<JobView>,
    primary: Seq<char>,
    absorbed: Seq<Seq<char>>,
) -> bool {
    &&& forall|i: int, j: int|
        0 <= i < j < t.len() ==> tuple_lt(
            (#[trigger] t[i]).tier,
            t[i].channel,
            (#[trigger] t[j]).tier,
            t[j].channel,
        )
    &&& forall|i: int|
        0 <= i < t.len() ==> #[trigger] t[i] == assessed(
            rows,
            primary,
            absorbed,
            t[i].tier,
            t[i].channel,
        )
    &&& forall|tier: Seq<char>, channel: Seq<char>|
        #[trigger] has_output(rows, tier, channel) <==> exists|i: int|
            0 <= i < t.len() && (#[trigger] t[i]).tier == tier && t[i].channel == channel
}

/// The texts of identifiers.
pub open spec fn id_texts(ids: Seq<u128>) -> Seq<Seq<char>> {
    ids.map_values(|i: u128| crate::ids::hyphenated(i))
}

fn texts_of(ids: &Vec<u128>) -> (r: Vec<String>)
    ensures
        crate::text::views(r@) == id_texts(ids@),
        r.len() == ids.len(),
{
    let ghost want = id_texts(ids@);
    let mut out: Vec<String> = Vec::new();
    let mut i: usize = 0;
    while i < ids.len()
        invariant
            i <= ids.len(),
            want == id_texts(ids@),
            out.len() == i,
            crate::text::views(out@) == want.take(i as int),
        decreases ids.len() - i,
    {
        let ghost before = out@;
        out.push(id_text(ids[i]));
        proof {
            assert(crate::text::views(out@) == crate::text::views(before).push(want[i as int]));
            assert(want.take(i + 1) == want.take(i as int).push(want[i as int]));
        }
        i += 1;
    }
    proof {
        assert(want.take(want.len() as int) == want);
    }
    out
}

/// The trips to be joined: the absorbed ones, then the primary one.
pub open spec fn sources(primary: u128, absorbed: Seq<u128>) -> Seq<Seq<char>> {
    id_texts(absorbed).push(crate::ids::hyphenated(primary))
}

fn source_ids(primary: u128, absorbed: &Vec<u128>) -> (r: Vec<String>)
    ensures
        crate::text::views(r@) == sources(primary, absorbed@),
{
    let mut v = texts_of(absorbed);
    let ghost before = v@;
    v.push(id_text(primary));
    proof {
        assert(crate::text::views(v@) == crate::text::views(before).push(
            crate::ids::hyphenated(primary),
        ));
    }
    v
}

/// The rows of the given trips.
pub fn load_job_rows(jobs: &Vec<JobRow>, trip_ids: &Vec<String>) -> (r: Vec<JobRow>)
    ensures
        crate::db::rows::job_rows(r@) == rows_for(
            crate::db::rows::job_rows(jobs@),
            crate::text::views(trip_ids@),
        ),
{
    let ghost jv = crate::db::rows::job_rows(jobs@);
    let ghost ids = crate::text::views(trip_ids@);
    let ghost keep = |r: JobView| ids.contains(r.trip_id);
    let mut out: Vec<JobRow> = Vec::new();
    let mut i: usize = 0;
    proof {
        reveal(Seq::filter);
        assert(jv.take(0).filter(keep) == Seq::<JobView>::empty());
        assert(crate::db::rows::job_rows(out@) == Seq::<JobView>::empty());
    }
    while i < jobs.len()
        invariant
            i <= jobs.len(),
            jv == crate::db::rows::job_rows(jobs@),
            ids == crate::text::views(trip_ids@),
            keep == (|r: JobView| ids.contains(r.trip_id)),
            crate::db::rows::job_rows(out@) == jv.take(i as int).filter(keep),
        decreases jobs.len() - i,
    {
        proof {
            reveal(Seq::filter);
            assert(jv[i as int] == jobs@[i as int]@);
            assert(jv.take(i + 1).drop_last() == jv.take(i as int));
            assert(jv.take(i + 1).last() == jv[i as int]);
        }
        if contains_string(trip_ids, &jobs[i].trip_id) {
            let ghost before = out@;
            out.push(jobs[i].clone());
            proof {
                assert(crate::db::rows::job_rows(out@) == crate::db::rows::job_rows(before).push(
                    jv[i as int],
                ));
            }
        }
        i += 1;
    }
    proof {
        assert(jv.take(jv.len() as int) == jv);
    }
    out
}

fn row_is_output_of(r: &JobRow, tier: &str, channel: &str) -> (b: bool)
    ensures
        b == is_output_of(r@, tier@, channel@),
{
    r.status == JobStatus::Done && r.output_path.is_some() && same_str(r.tier.as_str(), tier)
        && same_str(r.channel.as_str(), channel)
}

fn output_rows(rows: &Vec<JobRow>, tier: &str, channel: &str) -> (r: Vec<JobRow>)
    ensures
        crate::db::rows::job_rows(r@) == outputs_of(
            crate::db::rows::job_rows(rows@),
            tier@,
            channel@,
        ),
{
    let ghost jv = crate::db::rows::job_rows(rows@);
    let ghost keep = |r: JobView| is_output_of(r, tier@, channel@);
    let mut out: Vec<JobRow> = Vec::new();
    let mut i: usize = 0;
    proof {
        reveal(Seq::filter);
        assert(jv.take(0).filter(keep) == Seq::<JobView>::empty());
        assert(crate::db::rows::job_rows(out@) == Seq::<JobView>::empty());
    }
    while i < rows.len()
        invariant
            i <= rows.len(),
            jv == crate::db::rows::job_rows(rows@),
            keep == (|r: JobView| is_output_of(r, tier@, channel@)),
            crate::db::rows::job_rows(out@) == jv.take(i as int).filter(keep),
        decreases rows.len() - i,
    {
        proof {
            reveal(Seq::filter);
            assert(jv[i as int] == rows@[i as int]@);
            assert(jv.take(i + 1).drop_last() == jv.take(i as int));
            assert(jv.take(i + 1).last() == jv[i as int]);
        }
        if row_is_output_of(&rows[i], tier, channel) {
            let ghost before = out@;
            out.push(rows[i].clone());
            proof {
                assert(crate::db::rows::job_rows(out@) == crate::db::rows::job_rows(before).push(
                    jv[i as int],
                ));
            }
        }
        i += 1;
    }
    proof {
        assert(jv.take(jv.len() as int) == jv);
    }
    out
}

fn distinct_trips(rows: &Vec<JobRow>) -> (r: Vec<String>)
    ensures
        crate::text::views(r@) == distinct(trips_of(crate::db::rows::job_rows(rows@))),
        r.len() == distinct(trips_of(crate::db::rows::job_rows(rows@))).len(),
{
    let ghost jv = crate::db::rows::job_rows(rows@);
    let ghost tv = trips_of(jv);
    let mut out: Vec<String> = Vec::new();
    let mut i: usize = 0;
    proof {
        assert(crate::text::views(out@) == Seq::<Seq<char>>::empty());
    }
    while i < rows.len()
        invariant
            i <= rows.len(),
            jv == crate::db::rows::job_rows(rows@),
            tv == trips_of(jv),
            crate::text::views(out@) == distinct(tv.take(i as int)),
        decreases rows.len() - i,
    {
        proof {
            assert(tv[i as int] == rows@[i as int].trip_id@);
            assert(tv.take(i + 1).drop_last() == tv.take(i as int));
            assert(tv.take(i + 1).last() == tv[i as int]);
        }
        if !contains_string(&out, &rows[i].trip_id) {
            let ghost before = out@;
            out.push(rows[i].trip_id.clone());
            proof {
                assert(crate::text::views(out@) == crate::text::views(before).push(tv[i as int]));
            }
        }
        i += 1;
    }
    proof {
        assert(tv.take(tv.len() as int) == tv);
        assert(crate::text::views(out@).len() == out.len());
    }
    out
}

proof fn lemma_distinct_contains(s: Seq<Seq<char>>, x: Seq<char>)
    ensures
        distinct(s).contains(x) <==> s.contains(x),
    decreases s.len(),
{
    if s.len() > 0 {
        let u = s.drop_last();
        lemma_distinct_contains(u, x);
        let d = distinct(u);
        if s.contains(x) {
            let k = choose|k: int| 0 <= k < s.len() && s[k] == x;
            if k < u.len() {
                assert(u[k] == x);
                let m = choose|m: int| 0 <= m < d.len() && d[m] == x;
                assert(distinct(s)[m] == x);
            } else if !d.contains(s.last()) {
                assert(distinct(s)[d.len() as int] == x);
            }
        }
        if distinct(s).contains(x) {
            let m = choose|m: int| 0 <= m < distinct(s).len() && distinct(s)[m] == x;
            if m < d.len() {
                assert(d[m] == x);
                let k = choose|k: int| 0 <= k < u.len() && u[k] == x;
                assert(s[k] == x);
            } else {
                assert(s[s.len() - 1] == x);
            }
        }
    }
}

fn assess_tuple(
    rows: &Vec<JobRow>,
    primary: &String,
    absorbed: &Vec<String>,
    tier: &str,
    channel: &str,
) -> (r: TupleAssessment)
    ensures
        r@ == assessed(
            crate::db::rows::job_rows(rows@),
            primary@,
            crate::text::views(absorbed@),
            tier@,
            channel@,
        ),
{
    let outputs = output_rows(rows, tier, channel);
    let trips = distinct_trips(&outputs);
    let ghost tv = trips_of(crate::db::rows::job_rows(outputs@));
    let ghost av = crate::text::views(absorbed@);
    let ghost p = |a: Seq<char>| tv.contains(a);
    proof {
        lemma_distinct_contains(tv, primary@);
    }
    let primary_has = contains_string(&trips, primary);
    let mut with_output: Vec<String> = Vec::new();
    let mut i: usize = 0;
    proof {
        reveal(Seq::filter);
        assert(av.take(0).filter(p) == Seq::<Seq<char>>::empty());
        assert(crate::text::views(with_output@) == Seq::<Seq<char>>::empty());
    }
    while i < absorbed.len()
        invariant
            i <= absorbed.len(),
            av == crate::text::views(absorbed@),
            p == (|a: Seq<char>| tv.contains(a)),
            crate::text::views(trips@) == distinct(tv),
            crate::text::views(with_output@) == av.take(i as int).filter(p),
        decreases absorbed.len() - i,
    {
        proof {
            reveal(Seq::filter);
            assert(av[i as int] == absorbed@[i as int]@);
            assert(av.take(i + 1).drop_last() == av.take(i as int));
            assert(av.take(i + 1).last() == av[i as int]);
            lemma_distinct_contains(tv, av[i as int]);
        }
        if contains_string(&trips, &absorbed[i]) {
            let ghost before = with_output@;
            with_output.push(absorbed[i].clone());
            proof {
                assert(crate::text::views(with_output@) == crate::text::views(before).push(
                    av[i as int],
                ));
            }
        }
        i += 1;
    }
    proof {
        assert(av.take(av.len() as int) == av);
    }
    let status = if trips.len() > 0 && trips.len() - 1 == absorbed.len() {
        TupleStatus::Concatenable
    } else {
        TupleStatus::PartialOutputs
    };
    TupleAssessment {
        tier: owned(tier),
        channel: owned(channel),
        status,
        primary_has,
        absorbed_with_output: with_output,
    }
}

/// The tuples are in strict order.
pub open spec fn tuples_ascend(t: Seq<TupleView>) -> bool {
    forall|i: int, j: int|
        0 <= i < j < t.len() ==> tuple_lt(
            (#[trigger] t[i]).tier,
            t[i].channel,
            (#[trigger] t[j]).tier,
            t[j].channel,
        )
}

proof fn lemma_tuple_transitive(
    a: Seq<char>,
    b: Seq<char>,
    c: Seq<char>,
    d: Seq<char>,
    e: Seq<char>,
    f: Seq<char>,
)
    requires
        tuple_lt(a, b, c, d),
        tuple_lt(c, d, e, f),
    ensures
        tuple_lt(a, b, e, f),
{
    if crate::text::lex_lt(a, c) && crate::text::lex_lt(c, e) {
        crate::text::lemma_lex_transitive(a, c, e);
    } else if a == c && c == e {
        crate::text::lemma_lex_transitive(b, d, f);
    }
}

/// Where a tuple goes in the list: the first place whose tuple does not come
/// before it.
fn tuple_place(v: &Vec<TupleAssessment>, tier: &str, channel: &str) -> (at: usize)
    requires
        tuples_ascend(tuple_views(v@)),
    ensures
        at <= v.len(),
        forall|j: int|
            0 <= j < at ==> tuple_lt(
                (#[trigger] tuple_views(v@)[j]).tier,
                tuple_views(v@)[j].channel,
                tier@,
                channel@,
            ),
        at < v.len() ==> !tuple_lt(
            tuple_views(v@)[at as int].tier,
            tuple_views(v@)[at as int].channel,
            tier@,
            channel@,
        ),
{
    let ghost tv = tuple_views(v@);
    let mut at: usize = 0;
    while at < v.len() && (precedes(v[at].tier.as_str(), tier) || (same_str(
        v[at].tier.as_str(),
        tier,
    ) && precedes(v[at].channel.as_str(), channel)))
        invariant
            at <= v.len(),
            tv == tuple_views(v@),
            forall|j: int|
                0 <= j < at ==> tuple_lt((#[trigger] tv[j]).tier, tv[j].channel, tier@, channel@),
        decreases v.len() - at,
    {
        proof {
            assert(tv[at as int] == v@[at as int]@);
        }
        at += 1;
    }
    proof {
        if at < v.len() {
            assert(tv[at as int] == v@[at as int]@);
        }
    }
    at
}

proof fn lemma_insert_tuple(t: Seq<TupleView>, at: int, x: TupleView)
    requires
        tuples_ascend(t),
        0 <= at <= t.len(),
        forall|j: int|
            0 <= j < at ==> tuple_lt((#[trigger] t[j]).tier, t[j].channel, x.tier, x.channel),
        at < t.len() ==> !tuple_lt(t[at].tier, t[at].channel, x.tier, x.channel),
        at < t.len() ==> t[at].tier != x.tier || t[at].channel != x.channel,
    ensures
        tuples_ascend(t.insert(at, x)),
{
    let r = t.insert(at, x);
    if at < t.len() {
        crate::text::lemma_lex_total(t[at].tier, x.tier);
        crate::text::lemma_lex_total(t[at].channel, x.channel);
        assert(tuple_lt(x.tier, x.channel, t[at].tier, t[at].channel));
    }
    assert forall|i: int, j: int| 0 <= i < j < r.len() implies tuple_lt(
        (#[trigger] r[i]).tier,
        r[i].channel,
        (#[trigger] r[j]).tier,
        r[j].channel,
    ) by {
        if j < at {
            assert(r[i] == t[i] && r[j] == t[j]);
        } else if j == at {
            assert(r[i] == t[i]);
        } else if i < at {
            assert(r[i] == t[i] && r[j] == t[j - 1]);
        } else if i == at {
            assert(r[j] == t[j - 1]);
            if j - 1 > at {
                assert(tuple_lt(t[at].tier, t[at].channel, t[j - 1].tier, t[j - 1].channel));
                lemma_tuple_transitive(
                    x.tier,
                    x.channel,
                    t[at].tier,
                    t[at].channel,
                    t[j - 1].tier,
                    t[j - 1].channel,
                );
            }
        } else {
            assert(r[i] == t[i - 1] && r[j] == t[j - 1]);
        }
    }
}

/// The kinds of cameras of the trips, in order and without repetition.
pub open spec fn are_kinds(
    kinds: Seq<Seq<char>>,
    trips: Seq<TripView>,
    ids: Seq<Seq<char>>,
) -> bool {
    &&& crate::db::table::is_ascending(kinds)
    &&& forall|k: Seq<char>|
        #[trigger] kinds.contains(k) <==> exists|i: int|
            0 <= i < trips.len() && (#[trigger] trips[i]).camera_kind == k && ids.contains(
                trips[i].id,
            )
}

/// The kinds of cameras of the trips, in order and without repetition.
pub fn load_camera_kinds(trips: &Vec<TripRow>, trip_ids: &Vec<String>) -> (r: Vec<String>)
    ensures
        are_kinds(
            crate::text::views(r@),
            crate::db::rows::trip_rows(trips@),
            crate::text::views(trip_ids@),
        ),
{
    let ghost tv = crate::db::rows::trip_rows(trips@);
    let ghost ids = crate::text::views(trip_ids@);
    let mut kinds: Vec<String> = Vec::new();
    let mut i: usize = 0;
    while i < trips.len()
        invariant
            i <= trips.len(),
            tv == crate::db::rows::trip_rows(trips@),
            ids == crate::text::views(trip_ids@),
            crate::db::table::is_ascending(crate::text::views(kinds@)),
            forall|k: Seq<char>|
                #[trigger] crate::text::views(kinds@).contains(k) <==> exists|j: int|
                    0 <= j < i && (#[trigger] tv[j]).camera_kind == k && ids.contains(tv[j].id),
        decreases trips.len() - i,
    {
        proof {
            assert(tv[i as int] == trips@[i as int]@);
        }
        let ghost before = crate::text::views(kinds@);
        if contains_string(trip_ids, &trips[i].id) {
            kinds = insert_ordered(kinds, &trips[i].camera_kind);
        }
        proof {
            let now = crate::text::views(kinds@);
            assert forall|k: Seq<char>| #[trigger] now.contains(k) <==> exists|j: int|
                0 <= j < i + 1 && (#[trigger] tv[j]).camera_kind == k && ids.contains(
                    tv[j].id,
                ) by {
                if now.contains(k) {
                    if before.contains(k) {
                        let j = choose|j: int|
                            0 <= j < i && (#[trigger] tv[j]).camera_kind == k && ids.contains(
                                tv[j].id,
                            );
                        assert(tv[j].camera_kind == k);
                    } else {
                        assert(tv[i as int].camera_kind == k);
                    }
                }
                if exists|j: int|
                    0 <= j < i + 1 && (#[trigger] tv[j]).camera_kind == k && ids.contains(
                        tv[j].id,
                    ) {
                    let j = choose|j: int|
                        0 <= j < i + 1 && (#[trigger] tv[j]).camera_kind == k && ids.contains(
                            tv[j].id,
                        );
                    if j < i {
                        assert(before.contains(k));
                    }
                }
            }
        }
        i += 1;
    }
    kinds
}

/// What can be done with the timelapses of trips that are to be joined.
pub fn assess_timelapse_merge(lib: &Library, primary: u128, absorbed: &Vec<u128>) -> (r:
    TimelapseMergeAssessment)
    ensures
        ({
            let rows = rows_for(lib@.jobs, sources(primary, absorbed@));
            &&& r.has_any_timelapses == (rows.len() > 0)
            &&& are_assessments(
                tuple_views(r.tuples@),
                rows,
                crate::ids::hyphenated(primary),
                id_texts(absorbed@),
            )
            &&& are_kinds(
                crate::text::views(r.camera_kinds@),
                lib@.trips,
                sources(primary, absorbed@),
            )
        }),
{
    let all_ids = source_ids(primary, absorbed);
    let rows = load_job_rows(&lib.jobs, &all_ids);
    let camera_kinds = load_camera_kinds(&lib.trips, &all_ids);
    let ghost rv = crate::db::rows::job_rows(rows@);
    let primary_str = id_text(primary);
    let absorbed_strs = texts_of(absorbed);
    let ghost pv = primary_str@;
    let ghost av = crate::text::views(absorbed_strs@);
    let mut tuples: Vec<TupleAssessment> = Vec::new();
    let mut i: usize = 0;
    while i < rows.len()
        invariant
            i <= rows.len(),
            rv == crate::db::rows::job_rows(rows@),
            pv == primary_str@,
            av == crate::text::views(absorbed_strs@),
            tuples_ascend(tuple_views(tuples@)),
            forall|k: int|
                0 <= k < tuples.len() ==> #[trigger] tuple_views(tuples@)[k] == assessed(
                    rv,
                    pv,
                    av,
                    tuple_views(tuples@)[k].tier,
                    tuple_views(tuples@)[k].channel,
                ),
            forall|tier: Seq<char>, channel: Seq<char>|
                #[trigger] has_output(rv.take(i as int), tier, channel) <==> exists|k: int|
                    0 <= k < tuples.len() && (#[trigger] tuple_views(tuples@)[k]).tier == tier
                        && tuple_views(tuples@)[k].channel == channel,
        decreases rows.len() - i,
    {
        let row = &rows[i];
        let ghost before = tuple_views(tuples@);
        proof {
            assert(rv[i as int] == row@);
            lemma_has_output_step(rv, i as int);
        }
        if row.status == JobStatus::Done && row.output_path.is_some() {
            let at: usize = tuple_place(&tuples, row.tier.as_str(), row.channel.as_str());
            let known = at < tuples.len() && tuples[at].tier == row.tier && tuples[at].channel
                == row.channel;
            proof {
                if at < tuples.len() {
                    assert(before[at as int] == tuples@[at as int]@);
                }
            }
            if !known {
                let x = assess_tuple(
                    &rows,
                    &primary_str,
                    &absorbed_strs,
                    row.tier.as_str(),
                    row.channel.as_str(),
                );
                let ghost xv = x@;
                let ghost raw = tuples@;
                tuples.insert(at, x);
                proof {
                    let now = tuple_views(tuples@);
                    assert(now == before.insert(at as int, xv));
                    lemma_insert_tuple(before, at as int, xv);
                    assert forall|k: int| 0 <= k < now.len() implies #[trigger] now[k] == assessed(
                        rv,
                        pv,
                        av,
                        now[k].tier,
                        now[k].channel,
                    ) by {
                        if k < at {
                            assert(now[k] == before[k]);
                        } else if k > at {
                            assert(now[k] == before[k - 1]);
                        }
                    }
                    assert forall|tier: Seq<char>, channel: Seq<char>|
                        #[trigger] has_output(rv.take(i + 1), tier, channel) <==> exists|k: int|
                            0 <= k < now.len() && (#[trigger] now[k]).tier == tier
                                && now[k].channel == channel by {
                        if has_output(rv.take(i + 1), tier, channel) {
                            if has_output(rv.take(i as int), tier, channel) {
                                let k = choose|k: int|
                                    0 <= k < before.len() && (#[trigger] before[k]).tier == tier
                                        && before[k].channel == channel;
                                if k < at {
                                    assert(now[k] == before[k]);
                                } else {
                                    assert(now[k + 1] == before[k]);
                                }
                            } else {
                                assert(now[at as int].tier == tier);
                            }
                        }
                        if exists|k: int|
                            0 <= k < now.len() && (#[trigger] now[k]).tier == tier
                                && now[k].channel == channel {
                            let k = choose|k: int|
                                0 <= k < now.len() && (#[trigger] now[k]).tier == tier
                                    && now[k].channel == channel;
                            if k < at {
                                assert(before[k] == now[k]);
                                assert(has_output(rv.take(i as int), tier, channel));
                            } else if k > at {
                                assert(before[k - 1] == now[k]);
                                assert(has_output(rv.take(i as int), tier, channel));
                            }
                        }
                    }
                }
            } else {
                proof {
                    assert forall|tier: Seq<char>, channel: Seq<char>|
                        #[trigger] has_output(rv.take(i + 1), tier, channel) <==> exists|k: int|
                            0 <= k < before.len() && (#[trigger] before[k]).tier == tier
                                && before[k].channel == channel by {
                        if has_output(rv.take(i + 1), tier, channel) && !has_output(
                            rv.take(i as int),
                            tier,
                            channel,
                        ) {
                            assert(before[at as int].tier == tier);
                        }
                        if has_output(rv.take(i as int), tier, channel) {
                        }
                    }
                }
            }
        }
        i += 1;
    }
    proof {
        assert(rv.take(rv.len() as int) == rv);
    }
    TimelapseMergeAssessment { has_any_timelapses: rows.len() > 0, tuples, camera_kinds }
}

proof fn lemma_has_output_step(rows: Seq<JobView>, i: int)
    requires
        0 <= i < rows.len(),
    ensures
        forall|tier: Seq<char>, channel: Seq<char>|
            #[trigger] has_output(rows.take(i + 1), tier, channel) <==> has_output(
                rows.take(i),
                tier,
                channel,
            ) || is_output_of(rows[i], tier, channel),
{
    let a = rows.take(i);
    let b = rows.take(i + 1);
    assert forall|tier: Seq<char>, channel: Seq<char>|
        #[trigger] has_output(b, tier, channel) <==> has_output(a, tier, channel) || is_output_of(
            rows[i],
            tier,
            channel,
        ) by {
        if has_output(b, tier, channel) {
            let k = choose|k: int| 0 <= k < b.len() && is_output_of(#[trigger] b[k], tier, channel);
            if k < i {
                assert(a[k] == b[k]);
            }
        }
        if has_output(a, tier, channel) {
            let k = choose|k: int| 0 <= k < a.len() && is_output_of(#[trigger] a[k], tier, channel);
            assert(b[k] == a[k]);
        }
        if is_output_of(rows[i], tier, channel) {
            assert(b[i] == rows[i]);
        }
    }
}

// ------------------------------------------------------------------ timelapses

/// What is to be done first when trips are joined.
#[derive(Debug)]
pub enum StrategyAction {
    /// There are no timelapses.
    Nothing,
    /// The rows of all timelapses are removed.
    Discard,
    /// Timelapses are put together with the encoder at the path.
    Concat(String),
}

/// The trips can be joined: something is absorbed, and not the primary trip.
pub fn check_merge(primary: u128, absorbed: &Vec<u128>) -> (r: Result<(), AppError>)
    ensures
        match r {
            Ok(_) => absorbed.len() > 0 && !absorbed@.contains(primary),
            Err(e) => if absorbed.len() == 0 {
                crate::error::is_internal(e, "merge_trips called with empty absorbed list"@)
            } else {
                absorbed@.contains(primary) && crate::error::is_internal(
                    e,
                    "primary trip cannot also appear in absorbed list"@,
                )
            },
        },
{
    if absorbed.len() == 0 {
        return Err(AppError::Internal(owned("merge_trips called with empty absorbed list")));
    }
    let mut i: usize = 0;
    while i < absorbed.len()
        invariant
            i <= absorbed.len(),
            absorbed.len() > 0,
            forall|j: int| 0 <= j < i ==> #[trigger] absorbed@[j] != primary,
        decreases absorbed.len() - i,
    {
        if absorbed[i] == primary {
            proof {
                assert(absorbed@[i as int] == primary);
            }
            return Err(
                AppError::Internal(owned("primary trip cannot also appear in absorbed list")),
            );
        }
        i += 1;
    }
    Ok(())
}

/// What is to be done first when trips are joined, given whether there are
/// timelapses.
pub fn apply_timelapse_strategy(
    has_rows: bool,
    strategy: TimelapseMergeStrategy,
    ffmpeg_path: &Option<String>,
) -> (r: Result<StrategyAction, AppError>)
    ensures
        match r {
            Ok(StrategyAction::Nothing) => !has_rows,
            Ok(StrategyAction::Discard) => has_rows && strategy
                == TimelapseMergeStrategy::DiscardAll,
            Ok(StrategyAction::Concat(p)) => has_rows && strategy
                == TimelapseMergeStrategy::ConcatWherePossible && *ffmpeg_path == Some(p),
            Err(e) => has_rows && strategy == TimelapseMergeStrategy::ConcatWherePossible
                && *ffmpeg_path is None && crate::error::is_internal(
                e,
                "ffmpeg not configured \u{2014} set the path in Timelapse settings first"@,
            ),
        },
{
    if !has_rows {
        return Ok(StrategyAction::Nothing);
    }
    match strategy {
        TimelapseMergeStrategy::DiscardAll => Ok(StrategyAction::Discard),
        TimelapseMergeStrategy::ConcatWherePossible => match ffmpeg_path {
            Some(p) => Ok(StrategyAction::Concat(p.clone())),
            None => Err(
                AppError::Internal(
                    owned(
                        "ffmpeg not configured \u{2014} set the path in Timelapse settings first",
                    ),
                ),
            ),
        },
    }
}

fn keep_jobs(rows: Vec<JobRow>, marks: Vec<bool>, Ghost(q): Ghost<spec_fn(JobView) -> bool>) -> (r:
    Vec<JobRow>)
    requires
        rows.len() == marks.len(),
        forall|i: int| 0 <= i < rows.len() ==> #[trigger] marks@[i] == q(rows@[i]@),
    ensures
        crate::db::rows::job_rows(r@) == crate::db::rows::job_rows(rows@).filter(q),
        r.len() <= rows.len(),
{
    let ghost keep = |j: JobRow| q(j@);
    let ghost f = |j: JobRow| j@;
    proof {
        crate::db::table::filter_commutes_with_map(rows@, keep, f, q);
        assert(crate::db::rows::job_rows(rows@) == rows@.map_values(f));
        assert(crate::db::rows::job_rows(rows@.filter(keep)) == rows@.filter(keep).map_values(f));
        lemma_kept_len(rows@, keep);
    }
    retain_marked(rows, marks, Ghost(keep))
}

proof fn lemma_kept_len<T>(s: Seq<T>, p: spec_fn(T) -> bool)
    ensures
        s.filter(p).len() <= s.len(),
    decreases s.len(),
{
    reveal(Seq::filter);
    if s.len() > 0 {
        lemma_kept_len(s.drop_last(), p);
    }
}

/// Removes the rows of the given trips, and tells how many there were.
pub fn discard_all(jobs: Vec<JobRow>, trip_ids: &Vec<String>) -> (r: (Vec<JobRow>, usize))
    ensures
        ({
            let before = crate::db::rows::job_rows(jobs@);
            let after = before.filter(
                |j: JobView| !crate::text::views(trip_ids@).contains(j.trip_id),
            );
            crate::db::rows::job_rows(r.0@) == after && r.1 == before.len() - after.len()
        }),
{
    let ghost ids = crate::text::views(trip_ids@);
    let ghost q = |j: JobView| !ids.contains(j.trip_id);
    let n: usize = jobs.len();
    let mut marks: Vec<bool> = Vec::new();
    let mut i: usize = 0;
    while i < jobs.len()
        invariant
            i <= jobs.len(),
            ids == crate::text::views(trip_ids@),
            q == (|j: JobView| !ids.contains(j.trip_id)),
            marks.len() == i,
            forall|k: int| 0 <= k < i ==> #[trigger] marks@[k] == q(jobs@[k]@),
        decreases jobs.len() - i,
    {
        marks.push(!contains_string(trip_ids, &jobs[i].trip_id));
        i += 1;
    }
    let after = keep_jobs(jobs, marks, Ghost(q));
    let removed: usize = n - after.len();
    (after, removed)
}

/// What is to be done with a tier and channel: put its timelapses together
/// where every trip has one, else drop them.
#[derive(Debug)]
pub struct TuplePlan {
    pub tier: String,
    pub channel: String,
    pub is_full: bool,
    pub rows: Vec<JobRow>,
}

/// What is to be done with a tier and channel, with texts as sequences of
/// characters.
#[verifier::ext_equal]
pub struct PlanView {
    pub tier: Seq<char>,
    pub channel: Seq<char>,
    pub is_full: bool,
    pub rows: Seq<JobView>,
}

impl View for TuplePlan {
    type V = PlanView;

    open spec fn view(&self) -> PlanView {
        PlanView {
            tier: self.tier@,
            channel: self.channel@,
            is_full: self.is_full,
            rows: crate::db::rows::job_rows(self.rows@),
        }
    }
}

/// The views of plans.
pub open spec fn plan_views(v: Seq<TuplePlan>) -> Seq<PlanView> {
    v.map_values(|p: TuplePlan| p@)
}

/// The tiers and channels of the finished timelapses, in the order in which
/// they first occur.
pub open spec fn tuples_of(rows: Seq<JobView>) -> Seq<(Seq<char>, Seq<char>)>
    decreases rows.len(),
{
    if rows.len() == 0 {
        Seq::empty()
    } else {
        let before = tuples_of(rows.drop_last());
        let r = rows.last();
        if r.status == JobStatus::Done && r.output_path is Some && !before.contains(
            (r.tier, r.channel),
        ) {
            before.push((r.tier, r.channel))
        } else {
            before
        }
    }
}

/// The first row of a trip.
pub open spec fn row_of_trip(rows: Seq<JobView>, trip: Seq<char>) -> Option<JobView> {
    let i = crate::db::table::first_index(rows, |r: JobView| r.trip_id == trip, 0);
    if i < rows.len() {
        Some(rows[i])
    } else {
        None
    }
}

/// The rows in the order of the join: the primary trip's, then those of the
/// absorbed trips.
pub open spec fn in_join_order(rows: Seq<JobView>, primary: Seq<char>, absorbed: Seq<Seq<char>>) -> Seq<
    JobView,
> {
    rows.filter(|r: JobView| r.trip_id == primary) + absorbed.filter_map(
        |a: Seq<char>| row_of_trip(rows, a),
    )
}

/// What is to be done with a tier and channel.
pub open spec fn tuple_plan(
    rows: Seq<JobView>,
    primary: Seq<char>,
    absorbed: Seq<Seq<char>>,
    tier: Seq<char>,
    channel: Seq<char>,
) -> PlanView {
    let outputs = outputs_of(rows, tier, channel);
    let full = is_full(rows, absorbed, tier, channel);
    PlanView {
        tier,
        channel,
        is_full: full,
        rows: if full {
            in_join_order(outputs, primary, absorbed)
        } else {
            outputs
        },
    }
}

/// What is to be done with all tiers and channels.
pub open spec fn concat_plan(rows: Seq<JobView>, primary: Seq<char>, absorbed: Seq<Seq<char>>) -> Seq<
    PlanView,
> {
    tuples_of(rows).map_values(
        |t: (Seq<char>, Seq<char>)| tuple_plan(rows, primary, absorbed, t.0, t.1),
    )
}

fn order_rows(rows: &Vec<JobRow>, primary: &str, absorbed: &Vec<String>) -> (r: Vec<JobRow>)
    ensures
        crate::db::rows::job_rows(r@) == in_join_order(
            crate::db::rows::job_rows(rows@),
            primary@,
            crate::text::views(absorbed@),
        ),
{
    let ghost rv = crate::db::rows::job_rows(rows@);
    let ghost av = crate::text::views(absorbed@);
    let ghost keep = |r: JobView| r.trip_id == primary@;
    let ghost f = |a: Seq<char>| row_of_trip(rv, a);
    let mut out: Vec<JobRow> = Vec::new();
    let mut i: usize = 0;
    proof {
        reveal(Seq::filter);
        assert(rv.take(0).filter(keep) == Seq::<JobView>::empty());
        assert(crate::db::rows::job_rows(out@) == Seq::<JobView>::empty());
    }
    while i < rows.len()
        invariant
            i <= rows.len(),
            rv == crate::db::rows::job_rows(rows@),
            keep == (|r: JobView| r.trip_id == primary@),
            crate::db::rows::job_rows(out@) == rv.take(i as int).filter(keep),
        decreases rows.len() - i,
    {
        proof {
            reveal(Seq::filter);
            assert(rv[i as int] == rows@[i as int]@);
            assert(rv.take(i + 1).drop_last() == rv.take(i as int));
            assert(rv.take(i + 1).last() == rv[i as int]);
        }
        if same_str(rows[i].trip_id.as_str(), primary) {
            let ghost before = out@;
            out.push(rows[i].clone());
            proof {
                assert(crate::db::rows::job_rows(out@) == crate::db::rows::job_rows(before).push(
                    rv[i as int],
                ));
            }
        }
        i += 1;
    }
    let ghost start = crate::db::rows::job_rows(out@);
    proof {
        reveal(Seq::filter_map);
        assert(rv.take(rv.len() as int) == rv);
        assert(av.take(0).filter_map(f) == Seq::<JobView>::empty());
        assert(start + Seq::<JobView>::empty() == start);
    }
    let mut i: usize = 0;
    while i < absorbed.len()
        invariant
            i <= absorbed.len(),
            rv == crate::db::rows::job_rows(rows@),
            av == crate::text::views(absorbed@),
            f == (|a: Seq<char>| row_of_trip(rv, a)),
            crate::db::rows::job_rows(out@) == start + av.take(i as int).filter_map(f),
        decreases absorbed.len() - i,
    {
        let trip = absorbed[i].as_str();
        proof {
            reveal(Seq::filter_map);
            assert(av[i as int] == trip@);
            assert(av.take(i + 1).drop_last() == av.take(i as int));
            assert(av.take(i + 1).last() == trip@);
        }
        let ghost p = |r: JobView| r.trip_id == trip@;
        let mut k: usize = 0;
        while k < rows.len() && !same_str(rows[k].trip_id.as_str(), trip)
            invariant
                k <= rows.len(),
                rv == crate::db::rows::job_rows(rows@),
                p == (|r: JobView| r.trip_id == trip@),
                crate::db::table::first_index(rv, p, 0) == crate::db::table::first_index(
                    rv,
                    p,
                    k as int,
                ),
            decreases rows.len() - k,
        {
            proof {
                assert(rv[k as int] == rows@[k as int]@);
            }
            k += 1;
        }
        if k < rows.len() {
            proof {
                assert(rv[k as int] == rows@[k as int]@);
            }
            let ghost before = out@;
            out.push(rows[k].clone());
            proof {
                assert(crate::db::rows::job_rows(out@) == crate::db::rows::job_rows(before).push(
                    rv[k as int],
                ));
                assert(crate::db::rows::job_rows(out@) == start + av.take(i + 1).filter_map(f));
            }
        }
        i += 1;
    }
    proof {
        assert(av.take(av.len() as int) == av);
    }
    out
}

fn list_tuples(rows: &Vec<JobRow>) -> (r: Vec<(String, String)>)
    ensures
        r@.map_values(|t: (String, String)| (t.0@, t.1@)) == tuples_of(
            crate::db::rows::job_rows(rows@),
        ),
{
    let ghost rv = crate::db::rows::job_rows(rows@);
    let ghost g = |t: (String, String)| (t.0@, t.1@);
    let mut out: Vec<(String, String)> = Vec::new();
    let mut i: usize = 0;
    proof {
        assert(out@.map_values(g) == Seq::<(Seq<char>, Seq<char>)>::empty());
    }
    while i < rows.len()
        invariant
            i <= rows.len(),
            rv == crate::db::rows::job_rows(rows@),
            g == (|t: (String, String)| (t.0@, t.1@)),
            out@.map_values(g) == tuples_of(rv.take(i as int)),
        decreases rows.len() - i,
    {
        let r = &rows[i];
        let ghost ov = out@.map_values(g);
        proof {
            assert(rv[i as int] == r@);
            assert(rv.take(i + 1).drop_last() == rv.take(i as int));
            assert(rv.take(i + 1).last() == r@);
        }
        if r.status == JobStatus::Done && r.output_path.is_some() {
            let mut known = false;
            let mut k: usize = 0;
            while k < out.len()
                invariant
                    k <= out.len(),
                    g == (|t: (String, String)| (t.0@, t.1@)),
                    ov == out@.map_values(g),
                    known == exists|j: int|
                        0 <= j < k && #[trigger] ov[j] == (r.tier@, r.channel@),
                decreases out.len() - k,
            {
                proof {
                    assert(ov[k as int] == (out@[k as int].0@, out@[k as int].1@));
                }
                if out[k].0 == r.tier && out[k].1 == r.channel {
                    known = true;
                }
                k += 1;
            }
            if !known {
                let ghost before = out@;
                out.push((r.tier.clone(), r.channel.clone()));
                proof {
                    assert(out@.map_values(g) == ov.push((r.tier@, r.channel@)));
                    assert(!ov.contains((r.tier@, r.channel@)));
                }
            } else {
                proof {
                    assert(ov.contains((r.tier@, r.channel@)));
                }
            }
        }
        i += 1;
    }
    proof {
        assert(rv.take(rv.len() as int) == rv);
    }
    out
}

/// What is to be done with the timelapses of trips that are to be joined.
pub fn plan_concat(rows: &Vec<JobRow>, primary: &String, absorbed: &Vec<String>) -> (r: Vec<
    TuplePlan,
>)
    ensures
        plan_views(r@) == concat_plan(
            crate::db::rows::job_rows(rows@),
            primary@,
            crate::text::views(absorbed@),
        ),
{
    let ghost rv = crate::db::rows::job_rows(rows@);
    let ghost av = crate::text::views(absorbed@);
    let ghost want = concat_plan(rv, primary@, av);
    let ghost g = |t: (String, String)| (t.0@, t.1@);
    let tuples = list_tuples(rows);
    let mut out: Vec<TuplePlan> = Vec::new();
    let mut i: usize = 0;
    proof {
        assert(want.len() == tuples.len()) by {
            assert(tuples@.map_values(g).len() == tuples.len());
        }
    }
    while i < tuples.len()
        invariant
            i <= tuples.len(),
            rv == crate::db::rows::job_rows(rows@),
            av == crate::text::views(absorbed@),
            want == concat_plan(rv, primary@, av),
            want.len() == tuples.len(),
            g == (|t: (String, String)| (t.0@, t.1@)),
            tuples@.map_values(g) == tuples_of(rv),
            plan_views(out@) == want.take(i as int),
        decreases tuples.len() - i,
    {
        proof {
            assert(tuples@.map_values(g)[i as int] == (
                tuples@[i as int].0@,
                tuples@[i as int].1@,
            ));
        }
        let tier = tuples[i].0.as_str();
        let channel = tuples[i].1.as_str();
        let outputs = output_rows(rows, tier, channel);
        let trips = distinct_trips(&outputs);
        let full = trips.len() > 0 && trips.len() - 1 == absorbed.len();
        let picked = if full {
            order_rows(&outputs, primary.as_str(), absorbed)
        } else {
            outputs
        };
        let x = TuplePlan {
            tier: owned(tier),
            channel: owned(channel),
            is_full: full,
            rows: picked,
        };
        let ghost before = out@;
        let ghost xv = x@;
        out.push(x);
        proof {
            assert(xv == want[i as int]);
            assert(plan_views(out@) == plan_views(before).push(xv));
            assert(want.take(i + 1) == want.take(i as int).push(xv));
        }
        i += 1;
    }
    proof {
        assert(want.take(want.len() as int) == want);
    }
    out
}

/// The plan is carried out: its timelapses were put together, or are dropped.
pub open spec fn is_carried_out(plan: Seq<PlanView>, results: Seq<Option<String>>, k: int) -> bool {
    !plan[k].is_full || results[k] is Some
}

/// The row goes when the plan is carried out.
pub open spec fn is_replaced(plan: Seq<PlanView>, results: Seq<Option<String>>, j: JobView) -> bool {
    exists|k: int|
        #![trigger plan[k]]
        0 <= k < plan.len() && is_carried_out(plan, results, k) && has_key_of(plan[k].rows, j)
}

/// One of the rows is for the same trip, tier and channel.
pub open spec fn has_key_of(rows: Seq<JobView>, j: JobView) -> bool {
    exists|m: int|
        0 <= m < rows.len() && crate::db::timelapse_jobs::is_job(
            j,
            (#[trigger] rows[m]).trip_id,
            rows[m].tier,
            rows[m].channel,
        )
}

/// The first text among the rows.
pub open spec fn first_text(rows: Seq<JobView>, pick: spec_fn(JobView) -> Option<Seq<char>>) -> Option<
    Seq<char>,
>
    decreases rows.len(),
{
    if rows.len() == 0 {
        None
    } else {
        match first_text(rows.drop_last(), pick) {
            Some(t) => Some(t),
            None => pick(rows.last()),
        }
    }
}

/// The segments that all of the timelapses did without.
pub open spec fn padded_sum(rows: Seq<JobView>) -> int
    decreases rows.len(),
{
    if rows.len() == 0 {
        0
    } else {
        crate::timelapse::types::saturated(
            padded_sum(rows.drop_last()) + match rows.last().padded_count {
                Some(n) => n as int,
                None => 0,
            },
        )
    }
}

/// The row of a timelapse that was put together.
pub open spec fn merged_row(
    p: PlanView,
    primary: Seq<char>,
    curve_json: Seq<char>,
    now_ms: i64,
) -> JobView {
    JobView {
        trip_id: primary,
        tier: p.tier,
        channel: p.channel,
        status: JobStatus::Done,
        output_path: Some(
            crate::timelapse::cleanup::stored_output(
                crate::timelapse::worker::output_name(primary, p.tier, p.channel),
            ),
        ),
        error_message: None,
        ffmpeg_version: first_text(p.rows, |r: JobView| r.ffmpeg_version),
        encoder_used: first_text(p.rows, |r: JobView| r.encoder_used),
        padded_count: Some(padded_sum(p.rows) as i64),
        speed_curve_json: Some(curve_json),
        output_size_bytes: None,
        created_at_ms: now_ms,
        completed_at_ms: Some(now_ms),
    }
}

/// A row that gets what another has, but for what the other does not know.
pub open spec fn overwritten(r: JobView, x: JobView) -> JobView {
    JobView {
        status: x.status,
        output_path: x.output_path,
        ffmpeg_version: x.ffmpeg_version,
        encoder_used: x.encoder_used,
        padded_count: x.padded_count,
        speed_curve_json: x.speed_curve_json,
        completed_at_ms: x.completed_at_ms,
        ..r
    }
}

/// The table with a row put in, or put over the one that the job has.
pub open spec fn with_upsert(rows: Seq<JobView>, x: JobView) -> Seq<JobView> {
    if crate::db::timelapse_jobs::has_row(rows, x.trip_id, x.tier, x.channel) {
        rows.map_values(
            |r: JobView|
                if crate::db::timelapse_jobs::is_job(r, x.trip_id, x.tier, x.channel) {
                    overwritten(r, x)
                } else {
                    r
                },
        )
    } else {
        rows.push(x)
    }
}

/// The table with the rows of the timelapses that were put together, for the
/// first `n` of the plan.
pub open spec fn with_merged(
    rows: Seq<JobView>,
    plan: Seq<PlanView>,
    results: Seq<Option<String>>,
    primary: Seq<char>,
    now_ms: i64,
    n: int,
) -> Seq<JobView>
    decreases n,
{
    if n <= 0 {
        rows
    } else {
        let before = with_merged(rows, plan, results, primary, now_ms, n - 1);
        match results[n - 1] {
            Some(json) => if plan[n - 1].is_full {
                with_upsert(before, merged_row(plan[n - 1], primary, json@, now_ms))
            } else {
                before
            },
            None => before,
        }
    }
}

/// The tiers and channels that were put together, among the first `n`.
pub open spec fn concatenated(plan: Seq<PlanView>, results: Seq<Option<String>>, n: int) -> Seq<
    (Seq<char>, Seq<char>),
>
    decreases n,
{
    if n <= 0 {
        Seq::empty()
    } else if plan[n - 1].is_full && results[n - 1] is Some {
        concatenated(plan, results, n - 1).push((plan[n - 1].tier, plan[n - 1].channel))
    } else {
        concatenated(plan, results, n - 1)
    }
}

fn rows_have_key(rows: &Vec<JobRow>, j: &JobRow) -> (r: bool)
    ensures
        r == has_key_of(crate::db::rows::job_rows(rows@), j@),
{
    let ghost rv = crate::db::rows::job_rows(rows@);
    let mut i: usize = 0;
    while i < rows.len()
        invariant
            i <= rows.len(),
            rv == crate::db::rows::job_rows(rows@),
            forall|m: int|
                0 <= m < i ==> !crate::db::timelapse_jobs::is_job(
                    j@,
                    (#[trigger] rv[m]).trip_id,
                    rv[m].tier,
                    rv[m].channel,
                ),
        decreases rows.len() - i,
    {
        proof {
            assert(rv[i as int] == rows@[i as int]@);
        }
        if row_is_job(
            j,
            rows[i].trip_id.as_str(),
            rows[i].tier.as_str(),
            rows[i].channel.as_str(),
        ) {
            return true;
        }
        i += 1;
    }
    false
}

fn goes(plan: &Vec<TuplePlan>, results: &Vec<Option<String>>, j: &JobRow) -> (r: bool)
    requires
        plan.len() == results.len(),
    ensures
        r == is_replaced(plan_views(plan@), results@, j@),
{
    let ghost pv = plan_views(plan@);
    let mut k: usize = 0;
    while k < plan.len()
        invariant
            k <= plan.len(),
            plan.len() == results.len(),
            pv == plan_views(plan@),
            forall|m: int|
                #![trigger pv[m]]
                0 <= m < k ==> !(is_carried_out(pv, results@, m) && has_key_of(pv[m].rows, j@)),
        decreases plan.len() - k,
    {
        proof {
            assert(pv[k as int] == plan@[k as int]@);
        }
        if (!plan[k].is_full || results[k].is_some()) && rows_have_key(&plan[k].rows, j) {
            return true;
        }
        k += 1;
    }
    false
}

fn merge_row(p: &TuplePlan, primary: &str, curve_json: &String, now_ms: i64) -> (r: JobRow)
    ensures
        r@ == merged_row(p@, primary@, curve_json@, now_ms),
{
    let ghost rv = crate::db::rows::job_rows(p.rows@);
    let ghost pick_version = |r: JobView| r.ffmpeg_version;
    let ghost pick_encoder = |r: JobView| r.encoder_used;
    let mut version: Option<String> = None;
    let mut encoder: Option<String> = None;
    let mut padded: i64 = 0;
    let mut i: usize = 0;
    while i < p.rows.len()
        invariant
            i <= p.rows.len(),
            rv == crate::db::rows::job_rows(p.rows@),
            pick_version == (|r: JobView| r.ffmpeg_version),
            pick_encoder == (|r: JobView| r.encoder_used),
            crate::text::opt_view(version) == first_text(rv.take(i as int), pick_version),
            crate::text::opt_view(encoder) == first_text(rv.take(i as int), pick_encoder),
            padded == padded_sum(rv.take(i as int)),
        decreases p.rows.len() - i,
    {
        let r = &p.rows[i];
        proof {
            assert(rv[i as int] == r@);
            assert(rv.take(i + 1).drop_last() == rv.take(i as int));
            assert(rv.take(i + 1).last() == r@);
        }
        if version.is_none() {
            version = r.ffmpeg_version.clone();
        }
        if encoder.is_none() {
            encoder = r.encoder_used.clone();
        }
        let n: i64 = match r.padded_count {
            Some(n) => n,
            None => 0,
        };
        padded = saturating_sum(padded, n);
        i += 1;
    }
    proof {
        assert(rv.take(rv.len() as int) == rv);
    }
    let name = output_file_name(primary, p.tier.as_str(), p.channel.as_str());
    JobRow {
        trip_id: owned(primary),
        tier: p.tier.clone(),
        channel: p.channel.clone(),
        status: JobStatus::Done,
        output_path: Some(concat2("Timelapses/", name.as_str())),
        error_message: None,
        ffmpeg_version: version,
        encoder_used: encoder,
        padded_count: Some(padded),
        speed_curve_json: Some(curve_json.clone()),
        output_size_bytes: None,
        created_at_ms: now_ms,
        completed_at_ms: Some(now_ms),
    }
}

fn upsert_row(rows: Vec<JobRow>, x: JobRow) -> (r: Vec<JobRow>)
    ensures
        crate::db::rows::job_rows(r@) == with_upsert(crate::db::rows::job_rows(rows@), x@),
{
    let ghost rv = crate::db::rows::job_rows(rows@);
    match crate::db::timelapse_jobs::find(
        &rows,
        x.trip_id.as_str(),
        x.tier.as_str(),
        x.channel.as_str(),
    ) {
        None => {
            let mut rows = rows;
            let ghost before = rows@;
            let ghost xv = x@;
            rows.push(x);
            proof {
                assert(crate::db::rows::job_rows(rows@) == crate::db::rows::job_rows(before).push(
                    xv,
                ));
            }
            rows
        },
        Some(_) => {
            let ghost all = rows@;
            let ghost want = with_upsert(rv, x@);
            let mut out: Vec<JobRow> = Vec::new();
            let ghost mut n: int = 0;
            for y in it: rows
                invariant
                    it.seq() == all,
                    n == it.index(),
                    rv == crate::db::rows::job_rows(all),
                    want == with_upsert(rv, x@),
                    want.len() == rv.len(),
                    crate::db::timelapse_jobs::has_row(rv, x@.trip_id, x@.tier, x@.channel),
                    crate::db::rows::job_rows(out@) == want.take(n),
            {
                proof {
                    assert(rv[n] == y@);
                }
                let mut z = y;
                if row_is_job(&z, x.trip_id.as_str(), x.tier.as_str(), x.channel.as_str()) {
                    z.status = x.status;
                    z.output_path = x.output_path.clone();
                    z.ffmpeg_version = x.ffmpeg_version.clone();
                    z.encoder_used = x.encoder_used.clone();
                    z.padded_count = x.padded_count;
                    z.speed_curve_json = x.speed_curve_json.clone();
                    z.completed_at_ms = x.completed_at_ms;
                }
                let ghost before = out@;
                let ghost zv = z@;
                out.push(z);
                proof {
                    assert(zv == want[n]);
                    assert(crate::db::rows::job_rows(out@) == crate::db::rows::job_rows(
                        before,
                    ).push(zv));
                    assert(want.take(n + 1) == want.take(n).push(zv));
                    n = n + 1;
                }
            }
            proof {
                assert(want.take(want.len() as int) == want);
            }
            out
        },
    }
}

/// Records what came of the plan: for each tier and channel the curve of the
/// timelapse that was put together, or nothing where it could not be. Returns
/// the table, the number of rows that were removed, and the tiers and channels
/// that were put together. Where putting together failed, the rows stay.
pub fn apply_concat_where_possible(
    jobs: Vec<JobRow>,
    plan: &Vec<TuplePlan>,
    results: &Vec<Option<String>>,
    primary: &str,
    now_ms: i64,
) -> (r: (Vec<JobRow>, usize, Vec<(String, String)>))
    requires
        plan.len() == results.len(),
    ensures
        ({
            let before = crate::db::rows::job_rows(jobs@);
            let pv = plan_views(plan@);
            let kept = before.filter(|j: JobView| !is_replaced(pv, results@, j));
            &&& crate::db::rows::job_rows(r.0@) == with_merged(
                kept,
                pv,
                results@,
                primary@,
                now_ms,
                pv.len() as int,
            )
            &&& r.1 == before.len() - kept.len()
            &&& r.2@.map_values(|t: (String, String)| (t.0@, t.1@)) == concatenated(
                pv,
                results@,
                pv.len() as int,
            )
        }),
{
    let ghost pv = plan_views(plan@);
    let ghost q = |j: JobView| !is_replaced(pv, results@, j);
    let n: usize = jobs.len();
    let mut marks: Vec<bool> = Vec::new();
    let mut i: usize = 0;
    while i < jobs.len()
        invariant
            i <= jobs.len(),
            plan.len() == results.len(),
            pv == plan_views(plan@),
            q == (|j: JobView| !is_replaced(pv, results@, j)),
            marks.len() == i,
            forall|k: int| 0 <= k < i ==> #[trigger] marks@[k] == q(jobs@[k]@),
        decreases jobs.len() - i,
    {
        marks.push(!goes(plan, results, &jobs[i]));
        i += 1;
    }
    let mut rows = keep_jobs(jobs, marks, Ghost(q));
    let removed: usize = n - rows.len();
    let ghost kept = crate::db::rows::job_rows(rows@);
    let ghost g = |t: (String, String)| (t.0@, t.1@);
    let mut done: Vec<(String, String)> = Vec::new();
    let mut k: usize = 0;
    proof {
        assert(done@.map_values(g) == Seq::<(Seq<char>, Seq<char>)>::empty());
    }
    while k < plan.len()
        invariant
            k <= plan.len(),
            plan.len() == results.len(),
            pv == plan_views(plan@),
            g == (|t: (String, String)| (t.0@, t.1@)),
            crate::db::rows::job_rows(rows@) == with_merged(
                kept,
                pv,
                results@,
                primary@,
                now_ms,
                k as int,
            ),
            done@.map_values(g) == concatenated(pv, results@, k as int),
        decreases plan.len() - k,
    {
        let p = &plan[k];
        proof {
            assert(pv[k as int] == p@);
        }
        if p.is_full {
            if let Some(json) = &results[k] {
                rows = upsert_row(rows, merge_row(p, primary, json, now_ms));
                let ghost before = done@;
                done.push((p.tier.clone(), p.channel.clone()));
                proof {
                    assert(done@.map_values(g) == before.map_values(g).push(
                        (p.tier@, p.channel@),
                    ));
                }
            }
        }
        k += 1;
    }
    (rows, removed, done)
}

// ---------------------------------------------------------------------- curves

/// The latest end in a curve, at least zero.
pub open spec fn curve_end(c: Seq<CurveSegment>) -> int
    decreases c.len(),
{
    if c.len() == 0 {
        0
    } else if c.last().concat_end > curve_end(c.drop_last()) {
        c.last().concat_end as int
    } else {
        curve_end(c.drop_last())
    }
}

/// The curve, `by` later.
pub open spec fn shifted(c: Seq<CurveSegment>, by: int) -> Seq<CurveSegment> {
    c.map_values(
        |s: CurveSegment|
            CurveSegment {
                concat_start: crate::timelapse::types::saturated(s.concat_start + by) as i64,
                concat_end: crate::timelapse::types::saturated(s.concat_end + by) as i64,
                rate: s.rate,
            },
    )
}

/// The length of the first `n` curves. A curve that is not known has none.
pub open spec fn length_of(curves: Seq<Option<Vec<CurveSegment>>>, n: int) -> int
    decreases n,
{
    if n <= 0 {
        0
    } else {
        match curves[n - 1] {
            Some(c) => crate::timelapse::types::saturated(
                length_of(curves, n - 1) + curve_end(c@),
            ),
            None => length_of(curves, n - 1),
        }
    }
}

/// The first `n` curves one after the other.
pub open spec fn in_a_row(curves: Seq<Option<Vec<CurveSegment>>>, n: int) -> Seq<CurveSegment>
    decreases n,
{
    if n <= 0 {
        Seq::empty()
    } else {
        match curves[n - 1] {
            Some(c) => in_a_row(curves, n - 1) + shifted(c@, length_of(curves, n - 1)),
            None => in_a_row(curves, n - 1),
        }
    }
}

/// Puts curves one after the other. Each starts where the one before it ends; a
/// curve that is not known is left out.
pub fn merge_speed_curves(curves: &Vec<Option<Vec<CurveSegment>>>) -> (r: Vec<CurveSegment>)
    ensures
        r@ == in_a_row(curves@, curves.len() as int),
{
    let mut merged: Vec<CurveSegment> = Vec::new();
    let mut offset: i64 = 0;
    let mut i: usize = 0;
    while i < curves.len()
        invariant
            i <= curves.len(),
            offset == length_of(curves@, i as int),
            merged@ == in_a_row(curves@, i as int),
        decreases curves.len() - i,
    {
        if let Some(c) = &curves[i] {
            let ghost start = merged@;
            let ghost more = shifted(c@, offset as int);
            let mut end: i64 = 0;
            let mut k: usize = 0;
            proof {
                assert(start + more.take(0) == start);
            }
            while k < c.len()
                invariant
                    k <= c.len(),
                    more == shifted(c@, offset as int),
                    end == curve_end(c@.take(k as int)),
                    merged@ == start + more.take(k as int),
                decreases c.len() - k,
            {
                let s = c[k];
                proof {
                    assert(c@.take(k + 1).drop_last() == c@.take(k as int));
                    assert(c@.take(k + 1).last() == s);
                }
                merged.push(
                    CurveSegment {
                        concat_start: saturating_sum(s.concat_start, offset),
                        concat_end: saturating_sum(s.concat_end, offset),
                        rate: s.rate,
                    },
                );
                if s.concat_end > end {
                    end = s.concat_end;
                }
                proof {
                    assert(more.take(k + 1) == more.take(k as int).push(more[k as int]));
                    assert(merged@ == start + more.take(k + 1));
                }
                k += 1;
            }
            proof {
                assert(c@.take(c@.len() as int) == c@);
                assert(more.take(more.len() as int) == more);
            }
            offset = saturating_sum(offset, end);
        }
        i += 1;
    }
    merged
}

proof fn lemma_curve_end(c: Seq<CurveSegment>, b: int)
    requires
        crate::timelapse::speed_curve::tiles(c, 0, b),
    ensures
        curve_end(c) == b,
        b >= 0,
    decreases c.len(),
{
    if c.len() > 0 {
        lemma_curve_end(c.drop_last(), c.last().concat_start as int);
    }
}

proof fn lemma_shifted_tiles(c: Seq<CurveSegment>, a: int, b: int, by: int)
    requires
        crate::timelapse::speed_curve::tiles(c, a, b),
        0 <= a,
        0 <= by,
        b + by <= i64::MAX,
    ensures
        crate::timelapse::speed_curve::tiles(shifted(c, by), a + by, b + by),
        a <= b,
    decreases c.len(),
{
    if c.len() > 0 {
        lemma_shifted_tiles(c.drop_last(), a, c.last().concat_start as int, by);
        assert(shifted(c, by).drop_last() == shifted(c.drop_last(), by));
    }
}

proof fn lemma_tiles_join(
    x: Seq<CurveSegment>,
    y: Seq<CurveSegment>,
    a: int,
    b: int,
    c: int,
)
    requires
        crate::timelapse::speed_curve::tiles(x, a, b),
        crate::timelapse::speed_curve::tiles(y, b, c),
    ensures
        crate::timelapse::speed_curve::tiles(x + y, a, c),
    decreases y.len(),
{
    if y.len() > 0 {
        lemma_tiles_join(x, y.drop_last(), a, b, y.last().concat_start as int);
        assert((x + y).drop_last() == x + y.drop_last());
        assert((x + y).last() == y.last());
    } else {
        assert(x + y == x);
    }
}

/// Each of the curves covers its timelapse without gaps, and together they are
/// no longer than can be counted.
pub open spec fn are_closed(curves: Seq<Option<Vec<CurveSegment>>>, n: int) -> bool
    decreases n,
{
    n > 0 ==> are_closed(curves, n - 1) && (curves[n - 1] matches Some(c)
        ==> crate::timelapse::speed_curve::tiles(c@, 0, curve_end(c@)) && length_of(
        curves,
        n - 1,
    ) + curve_end(c@) <= i64::MAX)
}

/// Curves without gaps, put one after the other, have none either.
pub proof fn merged_curves_have_no_gaps(curves: Seq<Option<Vec<CurveSegment>>>, n: int)
    requires
        0 <= n <= curves.len(),
        are_closed(curves, n),
    ensures
        crate::timelapse::speed_curve::tiles(in_a_row(curves, n), 0, length_of(curves, n)),
        0 <= length_of(curves, n) <= i64::MAX,
    decreases n,
{
    if n > 0 {
        merged_curves_have_no_gaps(curves, n - 1);
        if let Some(c) = curves[n - 1] {
            let by = length_of(curves, n - 1);
            lemma_curve_end(c@, curve_end(c@));
            lemma_shifted_tiles(c@, 0, curve_end(c@), by);
            lemma_tiles_join(
                in_a_row(curves, n - 1),
                shifted(c@, by),
                0,
                by,
                by + curve_end(c@),
            );
        }
    }
}

// -------------------------------------------------------------- putting together

/// How timelapses are put together: the list of files is written, the encoder
/// makes the temporary file from it, and that takes the place of the output.
#[derive(Debug)]
pub struct ConcatSteps {
    pub dir: String,
    pub temp: String,
    pub list_path: String,
    pub list_content: String,
    pub args: Vec<String>,
    pub output: String,
}

/// The arguments that put timelapses together.
pub open spec fn splice_args(list_path: Seq<char>, temp: Seq<char>) -> Seq<Seq<char>> {
    seq![
        "-y"@,
        "-hide_banner"@,
        "-loglevel"@,
        "error"@,
        "-f"@,
        "concat"@,
        "-safe"@,
        "0"@,
        "-i"@,
        list_path,
        "-c"@,
        "copy"@,
        temp,
    ]
}

fn push_arg(v: &mut Vec<String>, s: &str)
    ensures
        crate::text::views(final(v)@) == crate::text::views(old(v)@).push(s@),
{
    let ghost before = v@;
    v.push(owned(s));
    proof {
        assert(crate::text::views(v@) == crate::text::views(before).push(s@));
    }
}

fn splice_arguments(list_path: &str, temp: &str) -> (r: Vec<String>)
    ensures
        crate::text::views(r@) == splice_args(list_path@, temp@),
{
    let mut v: Vec<String> = Vec::new();
    push_arg(&mut v, "-y");
    push_arg(&mut v, "-hide_banner");
    push_arg(&mut v, "-loglevel");
    push_arg(&mut v, "error");
    push_arg(&mut v, "-f");
    push_arg(&mut v, "concat");
    push_arg(&mut v, "-safe");
    push_arg(&mut v, "0");
    push_arg(&mut v, "-i");
    push_arg(&mut v, list_path);
    push_arg(&mut v, "-c");
    push_arg(&mut v, "copy");
    push_arg(&mut v, temp);
    proof {
        assert(crate::text::views(v@) == splice_args(list_path@, temp@));
    }
    v
}

/// The full paths of the outputs of the rows.
pub open spec fn input_paths(rows: Seq<JobView>, root: Seq<char>) -> Seq<Seq<char>> {
    rows.filter_map(
        |r: JobView|
            match r.output_path {
                Some(p) => Some(crate::paths::path_join(root, p)),
                None => None,
            },
    )
}

/// The full paths of the outputs that are to be put together.
pub fn inputs_of(plan: &TuplePlan, archive_root: &str) -> (r: Vec<String>)
    ensures
        crate::text::views(r@) == input_paths(plan@.rows, archive_root@),
{
    let ghost rv = plan@.rows;
    let ghost f = |r: JobView|
        match r.output_path {
            Some(p) => Some(crate::paths::path_join(archive_root@, p)),
            None => None,
        };
    let mut out: Vec<String> = Vec::new();
    let mut i: usize = 0;
    proof {
        reveal(Seq::filter_map);
        assert(rv.take(0).filter_map(f) == Seq::<Seq<char>>::empty());
        assert(crate::text::views(out@) == Seq::<Seq<char>>::empty());
    }
    while i < plan.rows.len()
        invariant
            i <= plan.rows.len(),
            rv == crate::db::rows::job_rows(plan.rows@),
            f == (|r: JobView|
                match r.output_path {
                    Some(p) => Some(crate::paths::path_join(archive_root@, p)),
                    None => None,
                }),
            crate::text::views(out@) == rv.take(i as int).filter_map(f),
        decreases plan.rows.len() - i,
    {
        proof {
            reveal(Seq::filter_map);
            assert(rv[i as int] == plan.rows@[i as int]@);
            assert(rv.take(i + 1).drop_last() == rv.take(i as int));
            assert(rv.take(i + 1).last() == rv[i as int]);
        }
        if let Some(rel) = &plan.rows[i].output_path {
            let path = from_archive_relative(rel.as_str(), archive_root);
            let ghost before = out@;
            let ghost pv = path@;
            out.push(path);
            proof {
                assert(crate::text::views(out@) == crate::text::views(before).push(pv));
            }
        }
        i += 1;
    }
    proof {
        assert(rv.take(rv.len() as int) == rv);
    }
    out
}

/// The steps put the inputs together into the output of the job, or the error says why they cannot be.
pub open spec fn is_concatenation(
    iv: Seq<Seq<char>>,
    pv: Seq<Seq<char>>,
    dir: Seq<char>,
    job: Seq<char>,
    r: Result<ConcatSteps, AppError>,
) -> bool {
    match r {
        Ok(s) => iv.len() > 0 && (forall|i: int|
            0 <= i < iv.len() ==> pv.contains(#[trigger] iv[i])) && s.dir@ == dir
            && s.temp@ == crate::paths::path_join(dir, "."@ + job + ".merging.mp4"@)
            && s.list_path@ == crate::paths::path_join(dir, job + ".concat.txt"@)
            && s.list_content@ == crate::timelapse::ffmpeg::concat_list(iv)
            && crate::text::views(s.args@) == splice_args(s.list_path@, s.temp@)
            && s.output@ == crate::paths::path_join(dir, job + ".mp4"@),
        Err(e) => if iv.len() == 0 {
            crate::error::is_internal(e, "concat called with no inputs"@)
        } else {
            exists|k: int|
                0 <= k < iv.len() && !pv.contains(#[trigger] iv[k]) && (forall|j: int|
                    0 <= j < k ==> pv.contains(#[trigger] iv[j]))
                    && crate::error::is_internal(
                    e,
                    "concat input does not exist on disk: "@ + iv[k],
                )
        },
    }
}

/// How timelapses are put together into the output of a job in the directory
/// `dir`, given the paths of the files that are there. Every input must be
/// there. The output is not touched before the new one is finished.
pub fn concat_outputs(inputs: &Vec<String>, present: &Vec<String>, dir: &str, job: &str) -> (r:
    Result<ConcatSteps, AppError>)
    ensures
        is_concatenation(crate::text::views(inputs@), crate::text::views(present@), dir@, job@, r),
{
    if inputs.len() == 0 {
        return Err(AppError::Internal(owned("concat called with no inputs")));
    }
    let ghost iv = crate::text::views(inputs@);
    let ghost pv = crate::text::views(present@);
    let mut i: usize = 0;
    while i < inputs.len()
        invariant
            i <= inputs.len(),
            inputs.len() > 0,
            iv == crate::text::views(inputs@),
            pv == crate::text::views(present@),
            forall|j: int| 0 <= j < i ==> pv.contains(#[trigger] iv[j]),
        decreases inputs.len() - i,
    {
        proof {
            assert(iv[i as int] == inputs@[i as int]@);
        }
        if !contains_string(present, &inputs[i]) {
            return Err(
                AppError::Internal(
                    concat2("concat input does not exist on disk: ", inputs[i].as_str()),
                ),
            );
        }
        i += 1;
    }
    let temp = from_archive_relative(concat3(".", job, ".merging.mp4").as_str(), dir);
    let list_path = from_archive_relative(concat2(job, ".concat.txt").as_str(), dir);
    let args = splice_arguments(list_path.as_str(), temp.as_str());
    Ok(
        ConcatSteps {
            dir: owned(dir),
            temp,
            list_path,
            list_content: write_concat_list(inputs),
            args,
            output: from_archive_relative(concat2(job, ".mp4").as_str(), dir),
        },
    )
}

/// What a run of the encoder over the list came to.
pub fn splice_result(success: bool, stderr: &str) -> (r: Result<(), AppError>)
    ensures
        match r {
            Ok(_) => success,
            Err(e) => !success && crate::error::is_internal(
                e,
                "ffmpeg concat failed: "@ + stderr@,
            ),
        },
{
    if success {
        Ok(())
    } else {
        Err(AppError::Internal(concat2("ffmpeg concat failed: ", stderr)))
    }
}

// --------------------------------------------------------------------- rewriting

/// The tag, given to the primary trip where an absorbed one had it.
pub open spec fn moved_tag(t: TagView, primary: Seq<char>, absorbed: Seq<Seq<char>>) -> TagView {
    if t.trip_id matches Some(id) && absorbed.contains(id) {
        TagView { trip_id: Some(primary), ..t }
    } else {
        t
    }
}

/// The segment, given to the primary trip where an absorbed one had it.
pub open spec fn moved_segment(
    s: SegmentView,
    primary: Seq<char>,
    absorbed: Seq<Seq<char>>,
) -> SegmentView {
    if absorbed.contains(s.trip_id) {
        SegmentView { trip_id: primary, ..s }
    } else {
        s
    }
}

/// The primary trip has a row for the tier and channel.
pub open spec fn primary_has_tuple(
    jobs: Seq<JobView>,
    primary: Seq<char>,
    tier: Seq<char>,
    channel: Seq<char>,
) -> bool {
    crate::db::timelapse_jobs::has_row(jobs, primary, tier, channel)
}

/// The job stays: it is not one of an absorbed trip that the primary one has
/// too.
pub open spec fn stays(
    jobs: Seq<JobView>,
    primary: Seq<char>,
    absorbed: Seq<Seq<char>>,
    j: JobView,
) -> bool {
    !(absorbed.contains(j.trip_id) && primary_has_tuple(jobs, primary, j.tier, j.channel))
}

/// The job, given to the primary trip where an absorbed one had it.
pub open spec fn moved_job(j: JobView, primary: Seq<char>, absorbed: Seq<Seq<char>>) -> JobView {
    if absorbed.contains(j.trip_id) {
        JobView { trip_id: primary, ..j }
    } else {
        j
    }
}

/// The jobs that stay.
pub open spec fn staying(jobs: Seq<JobView>, primary: Seq<char>, absorbed: Seq<Seq<char>>) -> Seq<
    JobView,
> {
    jobs.filter(|j: JobView| stays(jobs, primary, absorbed, j))
}

/// Two jobs of absorbed trips would become the same job of the primary one.
pub open spec fn collides(rows: Seq<JobView>, absorbed: Seq<Seq<char>>) -> bool {
    exists|a: int, b: int|
        0 <= a < b < rows.len() && #[trigger] absorbed_pair(rows, absorbed, a, b)
}

/// The rows at `a` and `b` would become the same job.
pub open spec fn absorbed_pair(
    rows: Seq<JobView>,
    absorbed: Seq<Seq<char>>,
    a: int,
    b: int,
) -> bool {
    &&& absorbed.contains(rows[a].trip_id)
    &&& absorbed.contains(rows[b].trip_id)
    &&& rows[a].tier == rows[b].tier
    &&& rows[a].channel == rows[b].channel
}

/// The trip that stands for all of them, from the first start of its segments
/// to their last end. Without segments it stays as it is.
pub open spec fn respanned(t: TripView, primary: Seq<char>, segments: Seq<SegmentView>) -> TripView {
    match span_of(segments, primary) {
        Some((first, last)) if t.id == primary => TripView {
            start_time_ms: first,
            end_time_ms: last,
            ..t
        },
        _ => t,
    }
}

/// The end of a segment.
pub open spec fn end_of(s: SegmentView) -> i64 {
    crate::timelapse::types::saturated(s.start_time_ms + s.duration_ms) as i64
}

/// The first start and the last end of a trip's segments.
pub open spec fn span_of(segments: Seq<SegmentView>, trip: Seq<char>) -> Option<(i64, i64)>
    decreases segments.len(),
{
    if segments.len() == 0 {
        None
    } else {
        let before = span_of(segments.drop_last(), trip);
        let s = segments.last();
        if s.trip_id != trip {
            before
        } else {
            match before {
                None => Some((s.start_time_ms, end_of(s))),
                Some((a, z)) => Some(
                    (
                        if s.start_time_ms < a {
                            s.start_time_ms
                        } else {
                            a
                        },
                        if end_of(s) > z {
                            end_of(s)
                        } else {
                            z
                        },
                    ),
                ),
            }
        }
    }
}

/// The library after trips were joined.
pub open spec fn joined_library(lib: LibraryView, primary: Seq<char>, absorbed: Seq<Seq<char>>) -> LibraryView {
    let moved = rewritten(lib, primary, absorbed);
    LibraryView {
        trips: lib.trips.filter(|t: TripView| !absorbed.contains(t.id)).map_values(
            |t: TripView| respanned(t, primary, moved.segments),
        ),
        ..moved
    }
}

fn move_tags(tags: Vec<TagRow>, primary: &str, absorbed: &Vec<String>) -> (r: Vec<TagRow>)
    ensures
        crate::db::rows::tag_rows(r@) == crate::db::rows::tag_rows(tags@).map_values(
            |t: TagView| moved_tag(t, primary@, crate::text::views(absorbed@)),
        ),
{
    let ghost all = tags@;
    let ghost tv = crate::db::rows::tag_rows(tags@);
    let ghost av = crate::text::views(absorbed@);
    let ghost want = tv.map_values(|t: TagView| moved_tag(t, primary@, av));
    let mut out: Vec<TagRow> = Vec::new();
    let ghost mut n: int = 0;
    for x in it: tags
        invariant
            it.seq() == all,
            n == it.index(),
            tv == crate::db::rows::tag_rows(all),
            av == crate::text::views(absorbed@),
            want == tv.map_values(|t: TagView| moved_tag(t, primary@, av)),
            crate::db::rows::tag_rows(out@) == want.take(n),
    {
        proof {
            assert(tv[n] == x@);
        }
        let mut y = x;
        let hit = match &y.trip_id {
            Some(id) => contains_string(absorbed, id),
            None => false,
        };
        if hit {
            y.trip_id = Some(owned(primary));
        }
        let ghost before = out@;
        let ghost yv = y@;
        out.push(y);
        proof {
            assert(yv == want[n]);
            assert(crate::db::rows::tag_rows(out@) == crate::db::rows::tag_rows(before).push(yv));
            assert(want.take(n + 1) == want.take(n).push(yv));
            n = n + 1;
        }
    }
    proof {
        assert(want.take(want.len() as int) == want);
    }
    out
}

fn move_segments(segments: Vec<SegmentRow>, primary: &str, absorbed: &Vec<String>) -> (r: Vec<
    SegmentRow,
>)
    ensures
        crate::db::rows::segment_rows(r@) == crate::db::rows::segment_rows(
            segments@,
        ).map_values(
            |s: SegmentView| moved_segment(s, primary@, crate::text::views(absorbed@)),
        ),
{
    let ghost all = segments@;
    let ghost sv = crate::db::rows::segment_rows(segments@);
    let ghost av = crate::text::views(absorbed@);
    let ghost want = sv.map_values(|s: SegmentView| moved_segment(s, primary@, av));
    let mut out: Vec<SegmentRow> = Vec::new();
    let ghost mut n: int = 0;
    for x in it: segments
        invariant
            it.seq() == all,
            n == it.index(),
            sv == crate::db::rows::segment_rows(all),
            av == crate::text::views(absorbed@),
            want == sv.map_values(|s: SegmentView| moved_segment(s, primary@, av)),
            crate::db::rows::segment_rows(out@) == want.take(n),
    {
        proof {
            assert(sv[n] == x@);
        }
        let mut y = x;
        if contains_string(absorbed, &y.trip_id) {
            y.trip_id = owned(primary);
        }
        let ghost before = out@;
        let ghost yv = y@;
        out.push(y);
        proof {
            assert(yv == want[n]);
            assert(crate::db::rows::segment_rows(out@) == crate::db::rows::segment_rows(
                before,
            ).push(yv));
            assert(want.take(n + 1) == want.take(n).push(yv));
            n = n + 1;
        }
    }
    proof {
        assert(want.take(want.len() as int) == want);
    }
    out
}

fn staying_marks(jobs: &Vec<JobRow>, primary: &str, absorbed: &Vec<String>) -> (r: Vec<bool>)
    ensures
        r.len() == jobs.len(),
        forall|k: int|
            0 <= k < r.len() ==> #[trigger] r@[k] == stays(
                crate::db::rows::job_rows(jobs@),
                primary@,
                crate::text::views(absorbed@),
                jobs@[k]@,
            ),
{
    let ghost jv = crate::db::rows::job_rows(jobs@);
    let ghost av = crate::text::views(absorbed@);
    let mut marks: Vec<bool> = Vec::new();
    let mut i: usize = 0;
    while i < jobs.len()
        invariant
            i <= jobs.len(),
            jv == crate::db::rows::job_rows(jobs@),
            av == crate::text::views(absorbed@),
            marks.len() == i,
            forall|k: int|
                0 <= k < i ==> #[trigger] marks@[k] == stays(jv, primary@, av, jobs@[k]@),
        decreases jobs.len() - i,
    {
        let covered = contains_string(absorbed, &jobs[i].trip_id)
            && crate::db::timelapse_jobs::find(
            jobs,
            primary,
            jobs[i].tier.as_str(),
            jobs[i].channel.as_str(),
        ).is_some();
        marks.push(!covered);
        i += 1;
    }
    marks
}

fn collision(rows: &Vec<JobRow>, marks: &Vec<bool>, absorbed: &Vec<String>) -> (r: bool)
    requires
        rows.len() == marks.len(),
    ensures
        r == exists|a: int, b: int|
            0 <= a < b < rows.len() && clash(
                rows@,
                marks@,
                crate::text::views(absorbed@),
                a,
                b,
            ),
{
    let ghost av = crate::text::views(absorbed@);
    let mut i: usize = 0;
    while i < rows.len()
        invariant
            i <= rows.len(),
            rows.len() == marks.len(),
            av == crate::text::views(absorbed@),
            forall|a: int, b: int|
                0 <= a < i && a < b < rows.len() ==> !#[trigger] clash(rows@, marks@, av, a, b),
        decreases rows.len() - i,
    {
        if marks[i] && contains_string(absorbed, &rows[i].trip_id) {
            let mut k: usize = i + 1;
            while k < rows.len()
                invariant
                    i < k <= rows.len(),
                    rows.len() == marks.len(),
                    av == crate::text::views(absorbed@),
                    marks@[i as int] && av.contains(rows@[i as int].trip_id@),
                    forall|b: int|
                        i < b < k ==> !#[trigger] clash(rows@, marks@, av, i as int, b),
                decreases rows.len() - k,
            {
                if marks[k] && contains_string(absorbed, &rows[k].trip_id) && rows[i].tier
                    == rows[k].tier && rows[i].channel == rows[k].channel {
                    proof {
                        assert(clash(rows@, marks@, av, i as int, k as int));
                    }
                    return true;
                }
                k += 1;
            }
        }
        i += 1;
    }
    false
}

/// The rows at `a` and `b` both stay, and become the same job.
spec fn clash(
    rows: Seq<JobRow>,
    marks: Seq<bool>,
    absorbed: Seq<Seq<char>>,
    a: int,
    b: int,
) -> bool {
    &&& marks[a]
    &&& marks[b]
    &&& absorbed.contains(rows[a].trip_id@)
    &&& absorbed.contains(rows[b].trip_id@)
    &&& rows[a].tier@ == rows[b].tier@
    &&& rows[a].channel@ == rows[b].channel@
}

proof fn lemma_filter_pair<T>(s: Seq<T>, p: spec_fn(T) -> bool, a: int, b: int) -> (r: (int, int))
    requires
        0 <= a < b < s.filter(p).len(),
    ensures
        0 <= r.0 < r.1 < s.len(),
        s[r.0] == s.filter(p)[a],
        s[r.1] == s.filter(p)[b],
        p(s[r.0]),
        p(s[r.1]),
    decreases s.len(),
{
    reveal(Seq::filter);
    let u = s.drop_last();
    if b < u.filter(p).len() {
        lemma_filter_pair(u, p, a, b)
    } else {
        let k = lemma_filter_place(u, p, a);
        (k, s.len() - 1)
    }
}

proof fn lemma_filter_place<T>(s: Seq<T>, p: spec_fn(T) -> bool, a: int) -> (k: int)
    requires
        0 <= a < s.filter(p).len(),
    ensures
        0 <= k < s.len(),
        s[k] == s.filter(p)[a],
        p(s[k]),
    decreases s.len(),
{
    reveal(Seq::filter);
    let u = s.drop_last();
    if a < u.filter(p).len() {
        lemma_filter_place(u, p, a)
    } else {
        s.len() - 1
    }
}

proof fn lemma_place_in_filter<T>(s: Seq<T>, p: spec_fn(T) -> bool, i: int, j: int) -> (r: (
    int,
    int,
))
    requires
        0 <= i < j < s.len(),
        p(s[i]),
        p(s[j]),
    ensures
        0 <= r.0 < r.1 < s.filter(p).len(),
        s.filter(p)[r.0] == s[i],
        s.filter(p)[r.1] == s[j],
    decreases s.len(),
{
    reveal(Seq::filter);
    let u = s.drop_last();
    if j < u.len() {
        lemma_place_in_filter(u, p, i, j)
    } else {
        let k = lemma_one_in_filter(u, p, i);
        (k, u.filter(p).len() as int)
    }
}

proof fn lemma_one_in_filter<T>(s: Seq<T>, p: spec_fn(T) -> bool, i: int) -> (k: int)
    requires
        0 <= i < s.len(),
        p(s[i]),
    ensures
        0 <= k < s.filter(p).len(),
        s.filter(p)[k] == s[i],
    decreases s.len(),
{
    reveal(Seq::filter);
    let u = s.drop_last();
    if i < u.len() {
        lemma_one_in_filter(u, p, i)
    } else {
        u.filter(p).len() as int
    }
}

/// Whether two jobs of absorbed trips would become the same job.
pub fn would_collide(jobs: &Vec<JobRow>, primary: &str, absorbed: &Vec<String>) -> (r: bool)
    ensures
        r == collides(
            staying(
                crate::db::rows::job_rows(jobs@),
                primary@,
                crate::text::views(absorbed@),
            ),
            crate::text::views(absorbed@),
        ),
{
    let ghost jv = crate::db::rows::job_rows(jobs@);
    let ghost av = crate::text::views(absorbed@);
    let ghost p = |j: JobView| stays(jv, primary@, av, j);
    let ghost kept = staying(jv, primary@, av);
    let marks = staying_marks(jobs, primary, absorbed);
    let r = collision(jobs, &marks, absorbed);
    proof {
        assert forall|k: int| 0 <= k < jv.len() implies #[trigger] jv[k] == jobs@[k]@ by {}
        if r {
            let (a, b) = choose|a: int, b: int|
                0 <= a < b < jobs.len() && clash(jobs@, marks@, av, a, b);
            assert(jv[a] == jobs@[a]@ && jv[b] == jobs@[b]@);
            let (x, y) = lemma_place_in_filter(jv, p, a, b);
            assert(absorbed_pair(kept, av, x, y));
        }
        if collides(kept, av) {
            let (x, y) = choose|x: int, y: int|
                0 <= x < y < kept.len() && absorbed_pair(kept, av, x, y);
            let (a, b) = lemma_filter_pair(jv, p, x, y);
            assert(jv[a] == jobs@[a]@ && jv[b] == jobs@[b]@);
            assert(clash(jobs@, marks@, av, a, b));
        }
    }
    r
}

fn move_jobs(jobs: Vec<JobRow>, primary: &str, absorbed: &Vec<String>) -> (r: Vec<JobRow>)
    ensures
        crate::db::rows::job_rows(r@) == staying(
            crate::db::rows::job_rows(jobs@),
            primary@,
            crate::text::views(absorbed@),
        ).map_values(|j: JobView| moved_job(j, primary@, crate::text::views(absorbed@))),
{
    let ghost jv = crate::db::rows::job_rows(jobs@);
    let ghost av = crate::text::views(absorbed@);
    let ghost p = |j: JobView| stays(jv, primary@, av, j);
    let marks = staying_marks(&jobs, primary, absorbed);
    let kept = keep_jobs(jobs, marks, Ghost(p));
    let ghost all = kept@;
    let ghost kv = crate::db::rows::job_rows(kept@);
    let ghost want = kv.map_values(|j: JobView| moved_job(j, primary@, av));
    let mut out: Vec<JobRow> = Vec::new();
    let ghost mut n: int = 0;
    for x in it: kept
        invariant
            it.seq() == all,
            n == it.index(),
            kv == crate::db::rows::job_rows(all),
            av == crate::text::views(absorbed@),
            want == kv.map_values(|j: JobView| moved_job(j, primary@, av)),
            crate::db::rows::job_rows(out@) == want.take(n),
    {
        proof {
            assert(kv[n] == x@);
        }
        let mut y = x;
        if contains_string(absorbed, &y.trip_id) {
            y.trip_id = owned(primary);
        }
        let ghost before = out@;
        let ghost yv = y@;
        out.push(y);
        proof {
            assert(yv == want[n]);
            assert(crate::db::rows::job_rows(out@) == crate::db::rows::job_rows(before).push(yv));
            assert(want.take(n + 1) == want.take(n).push(yv));
            n = n + 1;
        }
    }
    proof {
        assert(want.take(want.len() as int) == want);
    }
    out
}

fn find_span(segments: &Vec<SegmentRow>, trip: &str) -> (r: Option<(i64, i64)>)
    ensures
        r == span_of(crate::db::rows::segment_rows(segments@), trip@),
{
    let ghost sv = crate::db::rows::segment_rows(segments@);
    let mut span: Option<(i64, i64)> = None;
    let mut i: usize = 0;
    while i < segments.len()
        invariant
            i <= segments.len(),
            sv == crate::db::rows::segment_rows(segments@),
            span == span_of(sv.take(i as int), trip@),
        decreases segments.len() - i,
    {
        let s = &segments[i];
        proof {
            assert(sv[i as int] == s@);
            assert(sv.take(i + 1).drop_last() == sv.take(i as int));
            assert(sv.take(i + 1).last() == s@);
        }
        if same_str(s.trip_id.as_str(), trip) {
            let end: i64 = saturating_sum(s.start_time_ms, s.duration_ms);
            span = match span {
                None => Some((s.start_time_ms, end)),
                Some((a, z)) => Some(
                    (
                        if s.start_time_ms < a {
                            s.start_time_ms
                        } else {
                            a
                        },
                        if end > z {
                            end
                        } else {
                            z
                        },
                    ),
                ),
            };
        }
        i += 1;
    }
    proof {
        assert(sv.take(sv.len() as int) == sv);
    }
    span
}

/// The tables with the rows of the absorbed trips given to the primary one: tags
/// and segments all of them, jobs as far as the primary trip does not have them.
pub open spec fn rewritten(lib: LibraryView, primary: Seq<char>, absorbed: Seq<Seq<char>>) -> LibraryView {
    LibraryView {
        segments: lib.segments.map_values(|s: SegmentView| moved_segment(s, primary, absorbed)),
        tags: lib.tags.map_values(|t: TagView| moved_tag(t, primary, absorbed)),
        jobs: staying(lib.jobs, primary, absorbed).map_values(
            |j: JobView| moved_job(j, primary, absorbed),
        ),
        ..lib
    }
}

/// Gives the rows of the absorbed trips to the primary one.
pub fn rewrite_trip_id_columns(lib: Library, primary: &str, absorbed: &Vec<String>) -> (r: Library)
    ensures
        r@ == rewritten(lib@, primary@, crate::text::views(absorbed@)),
{
    let tags = move_tags(lib.tags, primary, absorbed);
    let segments = move_segments(lib.segments, primary, absorbed);
    let jobs = move_jobs(lib.jobs, primary, absorbed);
    Library { trips: lib.trips, segments, tags, scan_runs: lib.scan_runs, jobs }
}

/// Gives the primary trip the span of its segments.
pub fn rebuild_primary_trip_row(
    trips: Vec<TripRow>,
    segments: &Vec<SegmentRow>,
    primary: &str,
) -> (r: Vec<TripRow>)
    ensures
        crate::db::rows::trip_rows(r@) == crate::db::rows::trip_rows(trips@).map_values(
            |t: TripView| respanned(t, primary@, crate::db::rows::segment_rows(segments@)),
        ),
{
    let ghost sv = crate::db::rows::segment_rows(segments@);
    let span = find_span(segments, primary);
    let ghost all = trips@;
    let ghost tv = crate::db::rows::trip_rows(trips@);
    let ghost want = tv.map_values(|t: TripView| respanned(t, primary@, sv));
    let mut out: Vec<TripRow> = Vec::new();
    let ghost mut n: int = 0;
    for x in it: trips
        invariant
            it.seq() == all,
            n == it.index(),
            tv == crate::db::rows::trip_rows(all),
            span == span_of(sv, primary@),
            want == tv.map_values(|t: TripView| respanned(t, primary@, sv)),
            crate::db::rows::trip_rows(out@) == want.take(n),
    {
        proof {
            assert(tv[n] == x@);
        }
        let mut y = x;
        if same_str(y.id.as_str(), primary) {
            if let Some((a, z)) = span {
                y.start_time_ms = a;
                y.end_time_ms = z;
            }
        }
        let ghost before = out@;
        let ghost yv = y@;
        out.push(y);
        proof {
            assert(yv == want[n]);
            assert(crate::db::rows::trip_rows(out@) == crate::db::rows::trip_rows(before).push(
                yv,
            ));
            assert(want.take(n + 1) == want.take(n).push(yv));
            n = n + 1;
        }
    }
    proof {
        assert(want.take(want.len() as int) == want);
    }
    out
}

/// Removes the absorbed trips.
pub fn delete_absorbed_trip_rows(trips: Vec<TripRow>, absorbed: &Vec<String>) -> (r: Vec<TripRow>)
    ensures
        crate::db::rows::trip_rows(r@) == crate::db::rows::trip_rows(trips@).filter(
            |t: TripView| !crate::text::views(absorbed@).contains(t.id),
        ),
{
    let ghost av = crate::text::views(absorbed@);
    let ghost keep = |t: TripRow| !av.contains(t.id@);
    let mut marks: Vec<bool> = Vec::new();
    let mut i: usize = 0;
    while i < trips.len()
        invariant
            i <= trips.len(),
            av == crate::text::views(absorbed@),
            keep == (|t: TripRow| !av.contains(t.id@)),
            marks.len() == i,
            forall|k: int| 0 <= k < i ==> #[trigger] marks@[k] == keep(trips@[k]),
        decreases trips.len() - i,
    {
        marks.push(!contains_string(absorbed, &trips[i].id));
        i += 1;
    }
    let kept = retain_marked(trips, marks, Ghost(keep));
    proof {
        let f = |t: TripRow| t@;
        let q = |t: TripView| !av.contains(t.id);
        crate::db::table::filter_commutes_with_map(trips@, keep, f, q);
        assert(crate::db::rows::trip_rows(trips@) == trips@.map_values(f));
        assert(crate::db::rows::trip_rows(kept@) == kept@.map_values(f));
    }
    kept
}

fn join_library(lib: Library, primary: &str, absorbed: &Vec<String>) -> (r: Library)
    ensures
        r@ == joined_library(lib@, primary@, crate::text::views(absorbed@)),
{
    let moved = rewrite_trip_id_columns(lib, primary, absorbed);
    let left = delete_absorbed_trip_rows(moved.trips, absorbed);
    let trips = rebuild_primary_trip_row(left, &moved.segments, primary);
    Library {
        trips,
        segments: moved.segments,
        tags: moved.tags,
        scan_runs: moved.scan_runs,
        jobs: moved.jobs,
    }
}

// ---------------------------------------------------------------------- the join

/// Why a trip cannot be joined to another.
pub open spec fn join_refusal(rows: Seq<MergeRow>, primary: u128, absorbed: u128) -> Option<
    Seq<char>,
> {
    if primary == absorbed {
        Some("cannot merge a trip into itself"@)
    } else if crate::db::manual_trip_merges::ends_at(rows, primary, absorbed) {
        Some("cannot merge a trip into itself (after resolving primary chain)"@)
    } else if forall|root: u128|
        !crate::db::manual_trip_merges::ends_at(rows, primary, root) {
        Some(
            "cycle detected in manual_trip_merges chain starting at "@ + crate::ids::hyphenated(
                primary,
            ),
        )
    } else {
        None
    }
}

/// `after` is the table of joins `before` with one more join.
pub open spec fn is_join(
    before: Seq<MergeRow>,
    primary: u128,
    absorbed: u128,
    now_ms: i64,
    after: Seq<MergeRow>,
) -> bool {
    join_refusal(before, primary, absorbed) is None && exists|root: u128|
        #[trigger] crate::db::manual_trip_merges::ends_at(before, primary, root) && after
            == MergeTable::with_join(before, absorbed, root, now_ms)
}

/// `after` is the table of joins `before` with the joins of all absorbed trips,
/// one after the other.
pub open spec fn are_joins(
    before: Seq<MergeRow>,
    primary: u128,
    absorbed: Seq<u128>,
    now_ms: i64,
    after: Seq<MergeRow>,
) -> bool
    decreases absorbed.len(),
{
    if absorbed.len() == 0 {
        after == before
    } else {
        exists|mid: Seq<MergeRow>|
            are_joins(before, primary, absorbed.drop_last(), now_ms, mid) && #[trigger] is_join(
                mid,
                primary,
                absorbed.last(),
                now_ms,
                after,
            )
    }
}

fn copy_merges(m: &MergeTable) -> (r: MergeTable)
    ensures
        r.rows@ == m.rows@,
{
    let mut rows: Vec<MergeRow> = Vec::new();
    let mut i: usize = 0;
    while i < m.rows.len()
        invariant
            i <= m.rows.len(),
            rows@ == m.rows@.take(i as int),
        decreases m.rows.len() - i,
    {
        rows.push(m.rows[i]);
        i += 1;
        proof {
            assert(m.rows@.take(i as int) == m.rows@.take(i - 1).push(m.rows@[i - 1]));
        }
    }
    proof {
        assert(m.rows@.take(m.rows@.len() as int) == m.rows@);
    }
    MergeTable { rows }
}

/// Records the joins of all absorbed trips.
pub fn record_joins(merges: &MergeTable, primary: u128, absorbed: &Vec<u128>, now_ms: i64) -> (r:
    Result<MergeTable, AppError>)
    requires
        crate::db::manual_trip_merges::has_unique_absorbed(merges.rows@),
    ensures
        match r {
            Ok(m) => are_joins(merges.rows@, primary, absorbed@, now_ms, m.rows@)
                && crate::db::manual_trip_merges::has_unique_absorbed(m.rows@) && (
            crate::db::manual_trip_merges::is_flat(merges.rows@)
                ==> crate::db::manual_trip_merges::is_flat(m.rows@)),
            Err(e) => exists|k: int, mid: Seq<MergeRow>|
                0 <= k < absorbed.len() && #[trigger] are_joins(
                    merges.rows@,
                    primary,
                    absorbed@.take(k),
                    now_ms,
                    mid,
                ) && (join_refusal(mid, primary, absorbed@[k]) matches Some(words)
                    && crate::error::is_internal(e, words)),
        },
{
    let ghost start = merges.rows@;
    let mut table = copy_merges(merges);
    let mut i: usize = 0;
    proof {
        assert(absorbed@.take(0).len() == 0);
        assert(are_joins(start, primary, absorbed@.take(0), now_ms, table.rows@));
    }
    while i < absorbed.len()
        invariant
            i <= absorbed.len(),
            start == merges.rows@,
            crate::db::manual_trip_merges::has_unique_absorbed(table.rows@),
            crate::db::manual_trip_merges::is_flat(start)
                ==> crate::db::manual_trip_merges::is_flat(table.rows@),
            are_joins(start, primary, absorbed@.take(i as int), now_ms, table.rows@),
        decreases absorbed.len() - i,
    {
        let ghost mid = table.rows@;
        proof {
            assert(absorbed@.take(i + 1).drop_last() == absorbed@.take(i as int));
            assert(absorbed@.take(i + 1).last() == absorbed@[i as int]);
        }
        match table.insert_merge(primary, absorbed[i], now_ms) {
            Ok(_) => {
                proof {
                    let root = choose|root: u128|
                        #[trigger] crate::db::manual_trip_merges::ends_at(mid, primary, root)
                            && root != absorbed@[i as int] && table.rows@
                            == MergeTable::with_join(mid, absorbed@[i as int], root, now_ms);
                    if crate::db::manual_trip_merges::ends_at(mid, primary, absorbed@[i as int]) {
                        crate::db::manual_trip_merges::chain_ends_are_unique(
                            mid,
                            primary,
                            root,
                            absorbed@[i as int],
                        );
                    }
                    assert(is_join(mid, primary, absorbed@[i as int], now_ms, table.rows@));
                    assert(are_joins(start, primary, absorbed@.take(i + 1), now_ms, table.rows@));
                }
            },
            Err(e) => {
                proof {
                    assert(are_joins(start, primary, absorbed@.take(i as int), now_ms, mid));
                }
                return Err(e);
            },
        }
        i += 1;
    }
    proof {
        assert(absorbed@.take(absorbed@.len() as int) == absorbed@);
    }
    Ok(table)
}

/// Joins the absorbed trips to the primary one. Either everything is done, or
/// an error is returned and nothing has changed. The table has one row for each
/// trip, tier and channel: where two absorbed trips have a job that the primary
/// one lacks, the join is refused.
pub fn merge_trips(
    lib: Library,
    merges: MergeTable,
    primary: u128,
    absorbed: &Vec<u128>,
    now_ms: i64,
) -> (r: (Library, MergeTable, Result<(), AppError>))
    requires
        crate::db::manual_trip_merges::has_unique_absorbed(merges.rows@),
    ensures
        ({
            let p = crate::ids::hyphenated(primary);
            let a = id_texts(absorbed@);
            match r.2 {
                Ok(_) => absorbed.len() > 0 && !absorbed@.contains(primary) && !collides(
                    staying(lib@.jobs, p, a),
                    a,
                ) && r.0@ == joined_library(lib@, p, a) && are_joins(
                    merges.rows@,
                    primary,
                    absorbed@,
                    now_ms,
                    r.1.rows@,
                ) && crate::db::manual_trip_merges::has_unique_absorbed(r.1.rows@) && (
                crate::db::manual_trip_merges::is_flat(merges.rows@)
                    ==> crate::db::manual_trip_merges::is_flat(r.1.rows@)),
                Err(e) => r.0 == lib && r.1 == merges && if absorbed.len() == 0 {
                    crate::error::is_internal(e, "merge_trips called with empty absorbed list"@)
                } else if absorbed@.contains(primary) {
                    crate::error::is_internal(
                        e,
                        "primary trip cannot also appear in absorbed list"@,
                    )
                } else if collides(staying(lib@.jobs, p, a), a) {
                    e matches AppError::Db(m) && m@
                        == "UNIQUE constraint failed: timelapse_jobs.trip_id, timelapse_jobs.tier, timelapse_jobs.channel"@
                } else {
                    exists|k: int, mid: Seq<MergeRow>|
                        0 <= k < absorbed.len() && #[trigger] are_joins(
                            merges.rows@,
                            primary,
                            absorbed@.take(k),
                            now_ms,
                            mid,
                        ) && (join_refusal(mid, primary, absorbed@[k]) matches Some(words)
                            && crate::error::is_internal(e, words))
                },
            }
        }),
{
    if let Err(e) = check_merge(primary, absorbed) {
        return (lib, merges, Err(e));
    }
    let primary_str = id_text(primary);
    let absorbed_strs = texts_of(absorbed);
    if would_collide(&lib.jobs, primary_str.as_str(), &absorbed_strs) {
        let e = AppError::Db(
            owned(
                "UNIQUE constraint failed: timelapse_jobs.trip_id, timelapse_jobs.tier, timelapse_jobs.channel",
            ),
        );
        return (lib, merges, Err(e));
    }
    match record_joins(&merges, primary, absorbed, now_ms) {
        Err(e) => (lib, merges, Err(e)),
        Ok(table) => {
            let joined = join_library(lib, primary_str.as_str(), &absorbed_strs);
            (joined, table, Ok(()))
        },
    }
}

/// The report on a join.
pub fn merge_report(
    primary: u128,
    absorbed: &Vec<u128>,
    concatenated: Vec<(String, String)>,
    removed: usize,
) -> (r: MergeReport)
    ensures
        r.primary_trip_id@ == crate::ids::hyphenated(primary),
        crate::text::views(r.absorbed_trip_ids@) == id_texts(absorbed@),
        r.concatenated == concatenated,
        r.timelapse_jobs_removed == removed,
{
    MergeReport {
        primary_trip_id: id_text(primary),
        absorbed_trip_ids: texts_of(absorbed),
        concatenated,
        timelapse_jobs_removed: removed,
    }
}

/// The rows of positions without those of the joined trips: the primary trip's
/// are out of date, the others have no trip any more.
pub fn drop_positions(rows: Vec<GpsRow>, primary: u128, absorbed: &Vec<u128>) -> (r: Vec<GpsRow>)
    ensures
        r@ == rows@.filter(|g: GpsRow| !sources(primary, absorbed@).contains(g.trip_id@)),
{
    let ids = source_ids(primary, absorbed);
    let ghost iv = sources(primary, absorbed@);
    let ghost keep = |g: GpsRow| !iv.contains(g.trip_id@);
    let mut marks: Vec<bool> = Vec::new();
    let mut i: usize = 0;
    while i < rows.len()
        invariant
            i <= rows.len(),
            iv == crate::text::views(ids@),
            keep == (|g: GpsRow| !iv.contains(g.trip_id@)),
            marks.len() == i,
            forall|k: int| 0 <= k < i ==> #[trigger] marks@[k] == keep(rows@[k]),
        decreases rows.len() - i,
    {
        marks.push(!contains_string(&ids, &rows[i].trip_id));
        i += 1;
    }
    retain_marked(rows, marks, Ghost(keep))
}

/// A join loses no segment and no tag: each is where it was in its table, and
/// belongs to the primary trip if it belonged to an absorbed one. It loses no job
/// of another trip, and afterwards the primary trip has a job for every tier and
/// channel that one of the trips had.
pub proof fn joining_loses_nothing(lib: LibraryView, primary: Seq<char>, absorbed: Seq<Seq<char>>)
    requires
        !absorbed.contains(primary),
    ensures
        ({
            let r = joined_library(lib, primary, absorbed);
            &&& r.segments.len() == lib.segments.len()
            &&& r.tags.len() == lib.tags.len()
            &&& r.scan_runs == lib.scan_runs
            &&& forall|i: int|
                0 <= i < lib.segments.len() ==> !absorbed.contains(
                    (#[trigger] r.segments[i]).trip_id,
                ) && r.segments[i].id == lib.segments[i].id
            &&& forall|i: int|
                0 <= i < r.jobs.len() ==> !absorbed.contains((#[trigger] r.jobs[i]).trip_id)
            &&& forall|i: int|
                0 <= i < r.trips.len() ==> !absorbed.contains((#[trigger] r.trips[i]).id)
            &&& forall|k: int|
                0 <= k < lib.jobs.len() ==> if absorbed.contains((#[trigger] lib.jobs[k]).trip_id) {
                    primary_has_tuple(r.jobs, primary, lib.jobs[k].tier, lib.jobs[k].channel)
                } else {
                    r.jobs.contains(lib.jobs[k])
                }
        }),
{
    let r = joined_library(lib, primary, absorbed);
    let p = |t: TripView| !absorbed.contains(t.id);
    assert forall|i: int| 0 <= i < r.trips.len() implies !absorbed.contains(
        (#[trigger] r.trips[i]).id,
    ) by {
        let k = lemma_filter_place(lib.trips, p, i);
        assert(r.trips[i].id == lib.trips[k].id);
    }
    let q = |j: JobView| stays(lib.jobs, primary, absorbed, j);
    assert forall|k: int| 0 <= k < lib.jobs.len() implies if absorbed.contains(
        (#[trigger] lib.jobs[k]).trip_id,
    ) {
        primary_has_tuple(r.jobs, primary, lib.jobs[k].tier, lib.jobs[k].channel)
    } else {
        r.jobs.contains(lib.jobs[k])
    } by {
        let j = lib.jobs[k];
        if !absorbed.contains(j.trip_id) {
            let at = lemma_one_in_filter(lib.jobs, q, k);
            assert(r.jobs[at] == j);
        } else if primary_has_tuple(lib.jobs, primary, j.tier, j.channel) {
            let m = choose|m: int|
                0 <= m < lib.jobs.len() && crate::db::timelapse_jobs::is_job(
                    #[trigger] lib.jobs[m],
                    primary,
                    j.tier,
                    j.channel,
                );
            let at = lemma_one_in_filter(lib.jobs, q, m);
            assert(crate::db::timelapse_jobs::is_job(r.jobs[at], primary, j.tier, j.channel));
        } else {
            let at = lemma_one_in_filter(lib.jobs, q, k);
            assert(crate::db::timelapse_jobs::is_job(r.jobs[at], primary, j.tier, j.channel));
        }
    }
}

/// A join that is not refused keeps one row for every job.
pub proof fn joining_keeps_jobs_unique(
    lib: LibraryView,
    primary: Seq<char>,
    absorbed: Seq<Seq<char>>,
)
    requires
        crate::db::timelapse_jobs::has_unique_jobs(lib.jobs),
        !absorbed.contains(primary),
        !collides(staying(lib.jobs, primary, absorbed), absorbed),
    ensures
        crate::db::timelapse_jobs::has_unique_jobs(joined_library(lib, primary, absorbed).jobs),
{
    let jobs = lib.jobs;
    let p = |j: JobView| stays(jobs, primary, absorbed, j);
    let kept = staying(jobs, primary, absorbed);
    let r = kept.map_values(|j: JobView| moved_job(j, primary, absorbed));
    assert forall|i: int, j: int| 0 <= i < j < r.len() implies !crate::db::timelapse_jobs::is_job(
        #[trigger] r[j],
        (#[trigger] r[i]).trip_id,
        r[i].tier,
        r[i].channel,
    ) by {
        let (a, b) = lemma_filter_pair(jobs, p, i, j);
        assert(!crate::db::timelapse_jobs::is_job(
            jobs[b],
            jobs[a].trip_id,
            jobs[a].tier,
            jobs[a].channel,
        ));
        if kept[i].tier == kept[j].tier && kept[i].channel == kept[j].channel {
            let x = absorbed.contains(kept[i].trip_id);
            let y = absorbed.contains(kept[j].trip_id);
            if x && y {
                assert(absorbed_pair(kept, absorbed, i, j));
            } else if x && kept[j].trip_id == primary {
                assert(crate::db::timelapse_jobs::is_job(
                    jobs[b],
                    primary,
                    kept[i].tier,
                    kept[i].channel,
                ));
                assert(!stays(jobs, primary, absorbed, jobs[a]));
            } else if y && kept[i].trip_id == primary {
                assert(crate::db::timelapse_jobs::is_job(
                    jobs[a],
                    primary,
                    kept[j].tier,
                    kept[j].channel,
                ));
                assert(!stays(jobs, primary, absorbed, jobs[b]));
            }
        }
    }
}

/// The span of a trip reaches from the first start of its segments to their
/// last end: it covers each of them, and two of them reach its bounds.
pub proof fn spans_are_tight(segments: Seq<SegmentView>, trip: Seq<char>)
    ensures
        match span_of(segments, trip) {
            None => forall|i: int|
                0 <= i < segments.len() ==> (#[trigger] segments[i]).trip_id != trip,
            Some((first, last)) => {
                &&& forall|i: int|
                    0 <= i < segments.len() && (#[trigger] segments[i]).trip_id == trip ==> first
                        <= segments[i].start_time_ms && end_of(segments[i]) <= last
                &&& exists|i: int|
                    0 <= i < segments.len() && (#[trigger] segments[i]).trip_id == trip
                        && segments[i].start_time_ms == first
                &&& exists|i: int|
                    0 <= i < segments.len() && (#[trigger] segments[i]).trip_id == trip && end_of(
                        segments[i],
                    ) == last
            },
        },
    decreases segments.len(),
{
    if segments.len() > 0 {
        let u = segments.drop_last();
        spans_are_tight(u, trip);
        assert(forall|i: int| 0 <= i < u.len() ==> u[i] == #[trigger] segments[i]);
        assert(segments.last() == segments[segments.len() - 1]);
        if let Some((first, last)) = span_of(u, trip) {
            let i = choose|i: int|
                0 <= i < u.len() && (#[trigger] u[i]).trip_id == trip && u[i].start_time_ms == first;
            let j = choose|j: int|
                0 <= j < u.len() && (#[trigger] u[j]).trip_id == trip && end_of(u[j]) == last;
            assert(segments[i] == u[i] && segments[j] == u[j]);
        }
    }
}

} // verus!
