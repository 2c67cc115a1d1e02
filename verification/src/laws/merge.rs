//! What joining trips is for.

use crate::db::rows::{JobStatus, JobView};
use crate::timelapse::speed_curve::CurveSegment;
use crate::trips::merge::{ConcatSteps, PlanView};
use vstd::prelude::*;

verus! {

/// The name of the file that holds the timelapse of a trip, tier and channel.
pub open spec fn file_of(trip: Seq<char>, tier: Seq<char>, channel: Seq<char>) -> Seq<char> {
    trip + seq!['_'] + tier + seq!['_'] + channel + seq!['.', 'm', 'p', '4']
}

/// The texts are the same but for the separator at `at`, which may be either one.
proof fn lemma_same_place(a: Seq<char>, b: Seq<char>, at: int)
    requires
        3 <= at < a.len(),
        a.len() == b.len(),
        a.take(at) == b.take(at),
        a.skip(at + 1) == b.skip(at + 1),
        a[at] == '/',
        b[at] == '/' || b[at] == '\\' && crate::paths::is_windows(b),
    ensures
        crate::paths::slashed(a) == crate::paths::slashed(b),
        crate::paths::same_path(a, b),
{
    assert forall|i: int| 0 <= i < a.len() && i != at implies a[i] == b[i] by {
        if i < at {
            assert(a.take(at)[i] == a[i]);
            assert(b.take(at)[i] == b[i]);
        } else {
            let j = i - at - 1;
            assert(a.skip(at + 1)[j] == a[i]);
            assert(b.skip(at + 1)[j] == b[i]);
        }
    }
    assert(a[0] == b[0] && a[1] == b[1] && a[2] == b[2]);
    assert(crate::paths::is_windows(a) == crate::paths::is_windows(b));
    assert(crate::paths::slashed(a) =~= crate::paths::slashed(b));
    assert(crate::paths::names(a) == crate::paths::names(b));
    assert(a.take(2) =~= b.take(2));
}

/// The names of a job and of its output are the trip, the tier and the channel,
/// in this order.
pub proof fn outputs_are_named_by_their_job(trip: Seq<char>, tier: Seq<char>, channel: Seq<char>)
    ensures
        crate::timelapse::worker::output_name(trip, tier, channel) == file_of(trip, tier, channel),
        crate::timelapse::worker::job_name(trip, tier, channel) + seq!['.', 'm', 'p', '4']
            == file_of(trip, tier, channel),
        crate::timelapse::cleanup::stored_output(file_of(trip, tier, channel)) == seq![
            'T',
            'i',
            'm',
            'e',
            'l',
            'a',
            'p',
            's',
            'e',
            's',
            '/',
        ] + file_of(trip, tier, channel),
{
    reveal_strlit("_");
    reveal_strlit(".mp4");
    reveal_strlit("Timelapses/");
    assert("_"@ =~= seq!['_']);
    assert(".mp4"@ =~= seq!['.', 'm', 'p', '4']);
    assert("Timelapses/"@ =~= seq!['T', 'i', 'm', 'e', 'l', 'a', 'p', 's', 'e', 's', '/']);
}

/// The path that the archive stores of an output leads to the file in the
/// directory of the timelapses.
pub proof fn stored_outputs_lead_to_the_file(id: u128, tier: Seq<char>, channel: Seq<char>, root: Seq<char>)
    ensures
        ({
            let name = file_of(crate::ids::hyphenated(id), tier, channel);
            let stored = crate::paths::path_join(
                root,
                crate::timelapse::cleanup::stored_output(name),
            );
            let placed = crate::paths::path_join(
                crate::timelapse::worker::output_root(root),
                name,
            );
            &&& crate::paths::slashed(stored) == crate::paths::slashed(placed)
            &&& crate::paths::same_path(stored, placed)
        }),
{
    let trip = crate::ids::hyphenated(id);
    let name = file_of(trip, tier, channel);
    let rel = crate::timelapse::cleanup::stored_output(name);
    let dir = crate::timelapse::worker::output_root(root);
    outputs_are_named_by_their_job(trip, tier, channel);
    crate::ids::id_text_has_uuid_shape(id);
    assert(name[0] == trip[0] && name[1] == trip[1]);
    reveal_strlit("Timelapses");
    reveal_strlit("/");
    assert("/"@ =~= seq!['/']);
    assert("Timelapses"@ =~= seq!['T', 'i', 'm', 'e', 'l', 'a', 'p', 's', 'e', 's']);
    assert(rel =~= "Timelapses"@ + seq!['/'] + name);
    let a = crate::paths::path_join(root, rel);
    let b = crate::paths::path_join(dir, name);
    let at = dir.len() as int;
    assert(a =~= dir + seq!['/'] + name);
    assert(b =~= dir + seq![b[at]] + name);
    assert(a.take(at) =~= b.take(at));
    assert(a.skip(at + 1) =~= b.skip(at + 1));
    assert(crate::paths::is_windows(dir) ==> crate::paths::is_windows(b)) by {
        assert(b[0] == dir[0] && b[1] == dir[1] && b[2] == dir[2]);
    }
    lemma_same_place(a, b, at);
}

/// The row of a joined timelapse is that of the primary trip's job, done; its
/// output, from the root of the archive, is the file where the joined timelapse
/// is placed, which is the one that this job has.
pub proof fn joined_timelapses_are_recorded_where_they_are(
    p: PlanView,
    id: u128,
    curve_json: Seq<char>,
    now_ms: i64,
    root: Seq<char>,
)
    ensures
        ({
            let trip = crate::ids::hyphenated(id);
            let row = crate::trips::merge::merged_row(p, trip, curve_json, now_ms);
            let placed = crate::paths::path_join(
                crate::timelapse::worker::output_root(root),
                crate::timelapse::worker::job_name(trip, p.tier, p.channel) + ".mp4"@,
            );
            &&& row.trip_id == trip && row.tier == p.tier && row.channel == p.channel
            &&& row.status == JobStatus::Done && row.error_message is None
            &&& row.output_path is Some
            &&& row.output_path->0 == "Timelapses/"@ + file_of(trip, p.tier, p.channel)
            &&& crate::paths::same_path(
                crate::paths::path_join(root, row.output_path->0),
                placed,
            )
            &&& crate::paths::slashed(crate::paths::path_join(root, row.output_path->0))
                == crate::paths::slashed(placed)
            &&& row.speed_curve_json == Some(curve_json)
            &&& row.completed_at_ms == Some(now_ms) && row.created_at_ms == now_ms
            &&& row.output_size_bytes is None
        }),
{
    let trip = crate::ids::hyphenated(id);
    outputs_are_named_by_their_job(trip, p.tier, p.channel);
    stored_outputs_lead_to_the_file(id, p.tier, p.channel, root);
    reveal_strlit(".mp4");
    assert(".mp4"@ =~= seq!['.', 'm', 'p', '4']);
}

/// Timelapses are put together from their list, which names them in their order, into a
/// file beside the output; the output is the file of the job, and what the row of the
/// joined timelapse records leads to it.
pub proof fn joined_timelapses_are_placed_where_they_are_recorded(
    inputs: Seq<Seq<char>>,
    present: Seq<Seq<char>>,
    p: PlanView,
    id: u128,
    curve_json: Seq<char>,
    now_ms: i64,
    root: Seq<char>,
    r: Result<ConcatSteps, crate::error::AppError>,
)
    requires
        crate::trips::merge::is_concatenation(
            inputs,
            present,
            crate::timelapse::worker::output_root(root),
            crate::timelapse::worker::job_name(crate::ids::hyphenated(id), p.tier, p.channel),
            r,
        ),
    ensures
        r is Ok <==> inputs.len() > 0 && forall|i: int|
            0 <= i < inputs.len() ==> present.contains(#[trigger] inputs[i]),
        r matches Ok(s) ==> {
            let row = crate::trips::merge::merged_row(
                p,
                crate::ids::hyphenated(id),
                curve_json,
                now_ms,
            );
            &&& crate::paths::same_path(
                crate::paths::path_join(root, row.output_path->0),
                s.output@,
            )
            &&& s.list_content@ == crate::timelapse::ffmpeg::concat_list(inputs)
            &&& crate::laws::encoder::has_option(
                crate::text::views(s.args@),
                "-i"@,
                s.list_path@,
            )
            &&& crate::text::views(s.args@).last() == s.temp@
            &&& s.temp@ != s.output@
            &&& s.dir@ == crate::timelapse::worker::output_root(root)
        },
{
    joined_timelapses_are_recorded_where_they_are(p, id, curve_json, now_ms, root);
    if let Ok(s) = r {
        crate::laws::encoder::joins_are_told(s.list_path@, s.temp@);
        let job = crate::timelapse::worker::job_name(
            crate::ids::hyphenated(id),
            p.tier,
            p.channel,
        );
        let dir = crate::timelapse::worker::output_root(root);
        let a = "."@ + job + ".merging.mp4"@;
        let b = job + ".mp4"@;
        reveal_strlit(".");
        reveal_strlit(".mp4");
        reveal_strlit(".merging.mp4");
        reveal_strlit("Timelapses");
        crate::laws::encode::lemma_joined_ends(dir, a);
        crate::laws::encode::lemma_joined_ends(dir, b);
        crate::ids::id_text_has_uuid_shape(id);
        assert(".merging.mp4"@.len() == 12);
        assert(".mp4"@.len() == 4);
        assert(a[0] == '.');
        assert(b[0] == crate::ids::hyphenated(id)[0]);
        assert(b[1] == crate::ids::hyphenated(id)[1]);
        assert(!crate::paths::is_windows(a));
        assert(!crate::paths::is_windows(b));
        assert(s.temp@.len() - s.output@.len() == a.len() - b.len());
    }
}

/// The text is the first that one of the rows has, and there is none only where
/// no row has one.
pub open spec fn is_first_of(
    t: Option<Seq<char>>,
    rows: Seq<JobView>,
    pick: spec_fn(JobView) -> Option<Seq<char>>,
) -> bool {
    match t {
        Some(x) => exists|k: int|
            0 <= k < rows.len() && pick(#[trigger] rows[k]) == Some(x) && forall|j: int|
                0 <= j < k ==> pick(#[trigger] rows[j]) is None,
        None => forall|k: int| 0 <= k < rows.len() ==> pick(#[trigger] rows[k]) is None,
    }
}

proof fn lemma_first_text(rows: Seq<JobView>, pick: spec_fn(JobView) -> Option<Seq<char>>)
    ensures
        is_first_of(crate::trips::merge::first_text(rows, pick), rows, pick),
    decreases rows.len(),
{
    if rows.len() > 0 {
        let u = rows.drop_last();
        lemma_first_text(u, pick);
        let t = crate::trips::merge::first_text(u, pick);
        match t {
            Some(x) => {
                let k = choose|k: int|
                    0 <= k < u.len() && pick(#[trigger] u[k]) == Some(x) && forall|j: int|
                        0 <= j < k ==> pick(#[trigger] u[j]) is None;
                assert(rows[k] == u[k]);
                assert forall|j: int| 0 <= j < k implies pick(#[trigger] rows[j]) is None by {
                    assert(rows[j] == u[j]);
                }
            },
            None => {
                assert forall|j: int| 0 <= j < u.len() implies pick(#[trigger] rows[j]) is None by {
                    assert(rows[j] == u[j]);
                }
                assert(rows[rows.len() - 1] == rows.last());
            },
        }
    }
}

/// The counts of the rows added up, from the first on.
pub open spec fn total_of(rows: Seq<JobView>) -> int
    decreases rows.len(),
{
    if rows.len() == 0 {
        0
    } else {
        (match rows[0].padded_count {
            Some(n) => n as int,
            None => 0,
        }) + total_of(rows.skip(1))
    }
}

proof fn lemma_total_last(rows: Seq<JobView>)
    requires
        rows.len() > 0,
    ensures
        total_of(rows) == total_of(rows.drop_last()) + match rows.last().padded_count {
            Some(n) => n as int,
            None => 0,
        },
    decreases rows.len(),
{
    if rows.len() == 1 {
        assert(rows.skip(1) =~= Seq::empty());
        assert(rows.drop_last() =~= Seq::empty());
    } else {
        lemma_total_last(rows.skip(1));
        assert(rows.skip(1).drop_last() =~= rows.drop_last().skip(1));
        assert(rows.drop_last()[0] == rows[0]);
        assert(rows.skip(1).last() == rows.last());
    }
}

proof fn lemma_padded_sum(rows: Seq<JobView>)
    requires
        forall|i: int|
            0 <= i < rows.len() ==> ((#[trigger] rows[i]).padded_count matches Some(n) ==> n >= 0),
    ensures
        0 <= total_of(rows),
        total_of(rows) <= i64::MAX ==> crate::trips::merge::padded_sum(rows) == total_of(rows),
    decreases rows.len(),
{
    if rows.len() > 0 {
        let u = rows.drop_last();
        assert forall|i: int| 0 <= i < u.len() implies ((#[trigger] u[i]).padded_count matches Some(
            n,
        ) ==> n >= 0) by {
            assert(u[i] == rows[i]);
        }
        lemma_padded_sum(u);
        lemma_total_last(rows);
        assert(rows[rows.len() - 1] == rows.last());
    }
}

/// A joined timelapse has the encoder and the version of the first timelapse that
/// tells them, and did without as many segments as all of its parts.
pub proof fn joined_timelapses_take_over_from_their_parts(
    p: PlanView,
    primary: Seq<char>,
    curve_json: Seq<char>,
    now_ms: i64,
)
    requires
        forall|i: int|
            0 <= i < p.rows.len() ==> ((#[trigger] p.rows[i]).padded_count matches Some(n) ==> n
                >= 0),
        total_of(p.rows) <= i64::MAX,
    ensures
        ({
            let row = crate::trips::merge::merged_row(p, primary, curve_json, now_ms);
            &&& is_first_of(row.ffmpeg_version, p.rows, |r: JobView| r.ffmpeg_version)
            &&& is_first_of(row.encoder_used, p.rows, |r: JobView| r.encoder_used)
            &&& row.padded_count is Some
            &&& row.padded_count->0 == total_of(p.rows)
        }),
{
    lemma_first_text(p.rows, |r: JobView| r.ffmpeg_version);
    lemma_first_text(p.rows, |r: JobView| r.encoder_used);
    lemma_padded_sum(p.rows);
}

// ------------------------------------------------------------------ the tables

/// The row is the record of a joined timelapse: done, in the file of its job, with
/// the given curve.
pub open spec fn records_join(
    r: JobView,
    trip: Seq<char>,
    tier: Seq<char>,
    channel: Seq<char>,
    curve: Seq<char>,
) -> bool {
    &&& r.trip_id == trip && r.tier == tier && r.channel == channel
    &&& r.status == JobStatus::Done
    &&& r.output_path == Some("Timelapses/"@ + file_of(trip, tier, channel))
    &&& r.speed_curve_json == Some(curve)
}

/// The row is that of a job of the plan, among the first `n`.
pub open spec fn is_planned(plan: Seq<PlanView>, trip: Seq<char>, r: JobView, n: int) -> bool {
    exists|k: int|
        0 <= k < n && r.trip_id == trip && r.tier == (#[trigger] plan[k]).tier && r.channel
            == plan[k].channel
}

/// No tier and channel occurs twice in the plan.
pub open spec fn are_tuples_distinct(plan: Seq<PlanView>) -> bool {
    forall|i: int, j: int|
        0 <= i < j < plan.len() ==> (#[trigger] plan[i]).tier != (#[trigger] plan[j]).tier
            || plan[i].channel != plan[j].channel
}

/// Some row of the table records the joined timelapse.
pub open spec fn is_recorded(
    rows: Seq<JobView>,
    trip: Seq<char>,
    tier: Seq<char>,
    channel: Seq<char>,
    curve: Seq<char>,
) -> bool {
    exists|i: int|
        0 <= i < rows.len() && #[trigger] records_join(rows[i], trip, tier, channel, curve)
}

proof fn lemma_upsert(rows: Seq<JobView>, x: JobView)
    ensures
        ({
            let r = crate::trips::merge::with_upsert(rows, x);
            &&& r.len() >= rows.len()
            &&& forall|i: int|
                0 <= i < rows.len() && !((#[trigger] rows[i]).trip_id == x.trip_id && rows[i].tier
                    == x.tier && rows[i].channel == x.channel) ==> r[i] == rows[i]
            &&& exists|i: int|
                0 <= i < r.len() && (#[trigger] r[i]).trip_id == x.trip_id && r[i].tier == x.tier
                    && r[i].channel == x.channel && r[i].status == x.status && r[i].output_path
                    == x.output_path && r[i].speed_curve_json == x.speed_curve_json
                    && r[i].ffmpeg_version == x.ffmpeg_version && r[i].encoder_used
                    == x.encoder_used && r[i].padded_count == x.padded_count
                    && r[i].completed_at_ms == x.completed_at_ms
            &&& forall|i: int|
                0 <= i < r.len() ==> (#[trigger] r[i]).trip_id == x.trip_id && r[i].tier == x.tier
                    && r[i].channel == x.channel || rows.contains(r[i])
        }),
{
    let r = crate::trips::merge::with_upsert(rows, x);
    if crate::db::timelapse_jobs::has_row(rows, x.trip_id, x.tier, x.channel) {
        let i = choose|i: int|
            0 <= i < rows.len() && crate::db::timelapse_jobs::is_job(
                #[trigger] rows[i],
                x.trip_id,
                x.tier,
                x.channel,
            );
        assert(r[i] == crate::trips::merge::overwritten(rows[i], x));
        assert forall|j: int| 0 <= j < r.len() implies (#[trigger] r[j]).trip_id == x.trip_id
            && r[j].tier == x.tier && r[j].channel == x.channel || rows.contains(r[j]) by {
            if !crate::db::timelapse_jobs::is_job(rows[j], x.trip_id, x.tier, x.channel) {
                assert(r[j] == rows[j]);
            }
        }
    } else {
        assert(r[r.len() - 1] == x);
        assert forall|j: int| 0 <= j < rows.len() implies rows.contains(#[trigger] r[j]) by {
            assert(r[j] == rows[j]);
        }
    }
}

/// A row that is put in or put over keeps one row for every job: none is added where the
/// job has one.
pub proof fn recording_keeps_jobs_unique(rows: Seq<JobView>, x: JobView)
    requires
        crate::db::timelapse_jobs::has_unique_jobs(rows),
    ensures
        ({
            let r = crate::trips::merge::with_upsert(rows, x);
            let known = exists|i: int|
                0 <= i < rows.len() && (#[trigger] rows[i]).trip_id == x.trip_id && rows[i].tier
                    == x.tier && rows[i].channel == x.channel;
            &&& crate::db::timelapse_jobs::has_unique_jobs(r)
            &&& known ==> r.len() == rows.len()
            &&& !known ==> r == rows.push(x)
            &&& forall|i: int|
                0 <= i < rows.len() ==> (#[trigger] r[i]).trip_id == rows[i].trip_id && r[i].tier
                    == rows[i].tier && r[i].channel == rows[i].channel && r[i].created_at_ms
                    == rows[i].created_at_ms
        }),
{
    let r = crate::trips::merge::with_upsert(rows, x);
    assert forall|i: int| 0 <= i < rows.len() implies (#[trigger] r[i]).trip_id == rows[i].trip_id
        && r[i].tier == rows[i].tier && r[i].channel == rows[i].channel && r[i].created_at_ms
        == rows[i].created_at_ms by {}
    if !crate::db::timelapse_jobs::has_row(rows, x.trip_id, x.tier, x.channel) {
        assert forall|i: int| 0 <= i < rows.len() implies !crate::db::timelapse_jobs::is_job(
            #[trigger] rows[i],
            x.trip_id,
            x.tier,
            x.channel,
        ) by {}
    }
    assert forall|i: int, j: int| 0 <= i < j < r.len() implies !crate::db::timelapse_jobs::is_job(
        #[trigger] r[j],
        (#[trigger] r[i]).trip_id,
        r[i].tier,
        r[i].channel,
    ) by {
        if j < rows.len() {
            assert(!crate::db::timelapse_jobs::is_job(
                rows[j],
                rows[i].trip_id,
                rows[i].tier,
                rows[i].channel,
            ));
        } else {
            assert(!crate::db::timelapse_jobs::is_job(
                rows[i],
                x.trip_id,
                x.tier,
                x.channel,
            ));
        }
    }
}

/// Every timelapse that was put together is recorded, with its curve, in the
/// primary trip's row; the rows of all other jobs stay as they are.
pub proof fn every_joined_timelapse_is_recorded(
    rows: Seq<JobView>,
    plan: Seq<PlanView>,
    results: Seq<Option<String>>,
    primary: Seq<char>,
    now_ms: i64,
    n: int,
)
    requires
        0 <= n <= plan.len(),
        are_tuples_distinct(plan),
    ensures
        ({
            let after = crate::trips::merge::with_merged(
                rows,
                plan,
                results,
                primary,
                now_ms,
                n,
            );
            &&& forall|k: int|
                0 <= k < n && (#[trigger] plan[k]).is_full && results[k] is Some ==> is_recorded(
                    after,
                    primary,
                    plan[k].tier,
                    plan[k].channel,
                    results[k]->0@,
                )
            &&& forall|i: int|
                0 <= i < rows.len() && !is_planned(plan, primary, #[trigger] rows[i], n)
                    ==> after.contains(rows[i])
            &&& forall|i: int|
                0 <= i < after.len() ==> is_planned(plan, primary, #[trigger] after[i], n)
                    || rows.contains(after[i])
        }),
    decreases n,
{
    if n > 0 {
        every_joined_timelapse_is_recorded(rows, plan, results, primary, now_ms, n - 1);
        let before = crate::trips::merge::with_merged(
            rows,
            plan,
            results,
            primary,
            now_ms,
            n - 1,
        );
        let after = crate::trips::merge::with_merged(rows, plan, results, primary, now_ms, n);
        if results[n - 1] is Some && plan[n - 1].is_full {
            let x = crate::trips::merge::merged_row(
                plan[n - 1],
                primary,
                results[n - 1]->0@,
                now_ms,
            );
            lemma_upsert(before, x);
            outputs_are_named_by_their_job(primary, plan[n - 1].tier, plan[n - 1].channel);
            assert(is_recorded(after, primary, x.tier, x.channel, results[n - 1]->0@)) by {
                let i = choose|i: int|
                    0 <= i < after.len() && (#[trigger] after[i]).trip_id == x.trip_id
                        && after[i].tier == x.tier && after[i].channel == x.channel
                        && after[i].status == x.status && after[i].output_path == x.output_path
                        && after[i].speed_curve_json == x.speed_curve_json
                        && after[i].ffmpeg_version == x.ffmpeg_version && after[i].encoder_used
                        == x.encoder_used && after[i].padded_count == x.padded_count
                        && after[i].completed_at_ms == x.completed_at_ms;
                reveal_strlit("Timelapses/");
                assert("Timelapses/"@ =~= seq![
                    'T',
                    'i',
                    'm',
                    'e',
                    'l',
                    'a',
                    'p',
                    's',
                    'e',
                    's',
                    '/',
                ]);
                assert(records_join(after[i], primary, x.tier, x.channel, results[n - 1]->0@));
            }
            assert forall|k: int|
                0 <= k < n && (#[trigger] plan[k]).is_full && results[k] is Some implies is_recorded(
                after,
                primary,
                plan[k].tier,
                plan[k].channel,
                results[k]->0@,
            ) by {
                if k < n - 1 {
                    assert(plan[n - 1].tier == x.tier);
                    let i = choose|i: int|
                        0 <= i < before.len() && #[trigger] records_join(
                            before[i],
                            primary,
                            plan[k].tier,
                            plan[k].channel,
                            results[k]->0@,
                        );
                    assert(after[i] == before[i]);
                    assert(records_join(
                        after[i],
                        primary,
                        plan[k].tier,
                        plan[k].channel,
                        results[k]->0@,
                    ));
                }
            }
        }
        assert forall|i: int|
            0 <= i < rows.len() && !is_planned(plan, primary, #[trigger] rows[i], n) implies after.contains(
            rows[i],
        ) by {
            assert(plan[n - 1].tier == plan[n - 1].tier);
            assert(!is_planned(plan, primary, rows[i], n - 1));
            assert(before.contains(rows[i]));
            let j = choose|j: int| 0 <= j < before.len() && before[j] == rows[i];
            assert(after[j] == before[j]);
        }
        assert forall|i: int| 0 <= i < after.len() implies is_planned(
            plan,
            primary,
            #[trigger] after[i],
            n,
        ) || rows.contains(after[i]) by {
            assert(plan[n - 1].tier == plan[n - 1].tier);
            if before.contains(after[i]) {
                let j = choose|j: int| 0 <= j < before.len() && before[j] == after[i];
                assert(is_planned(plan, primary, before[j], n - 1) || rows.contains(before[j]));
            }
        }
    } else {
        assert forall|i: int| 0 <= i < rows.len() implies rows.contains(#[trigger] rows[i]) by {}
    }
}

// ------------------------------------------------------------------ the curves

/// The end of a curve is the latest end of its segments, and zero where no segment
/// ends later.
pub proof fn curves_end_with_their_last_segment(c: Seq<CurveSegment>)
    ensures
        crate::trips::merge::curve_end(c) >= 0,
        forall|i: int|
            0 <= i < c.len() ==> (#[trigger] c[i]).concat_end <= crate::trips::merge::curve_end(c),
        crate::trips::merge::curve_end(c) > 0 ==> exists|i: int|
            0 <= i < c.len() && (#[trigger] c[i]).concat_end == crate::trips::merge::curve_end(c),
    decreases c.len(),
{
    if c.len() > 0 {
        let u = c.drop_last();
        curves_end_with_their_last_segment(u);
        assert(c[c.len() - 1] == c.last());
        assert forall|i: int| 0 <= i < c.len() implies (#[trigger] c[i]).concat_end
            <= crate::trips::merge::curve_end(c) by {
            if i < u.len() {
                assert(u[i] == c[i]);
            }
        }
        if crate::trips::merge::curve_end(u) > 0 {
            let i = choose|i: int|
                0 <= i < u.len() && (#[trigger] u[i]).concat_end == crate::trips::merge::curve_end(
                    u,
                );
            assert(c[i] == u[i]);
        }
    }
}

/// The ends of the first `n` curves added up.
pub open spec fn ends_of(curves: Seq<Option<Vec<CurveSegment>>>, n: int) -> int
    decreases n,
{
    if n <= 0 {
        0
    } else {
        ends_of(curves, n - 1) + match curves[n - 1] {
            Some(c) => crate::trips::merge::curve_end(c@),
            None => 0,
        }
    }
}

/// The number of segments of the first `n` curves.
pub open spec fn segments_of(curves: Seq<Option<Vec<CurveSegment>>>, n: int) -> int
    decreases n,
{
    if n <= 0 {
        0
    } else {
        segments_of(curves, n - 1) + match curves[n - 1] {
            Some(c) => c@.len() as int,
            None => 0,
        }
    }
}

proof fn lemma_ends_grow(curves: Seq<Option<Vec<CurveSegment>>>, m: int, n: int)
    requires
        0 <= m <= n,
    ensures
        0 <= ends_of(curves, m) <= ends_of(curves, n),
    decreases n,
{
    if n > 0 {
        if let Some(c) = curves[n - 1] {
            curves_end_with_their_last_segment(c@);
        }
        if m < n {
            lemma_ends_grow(curves, m, n - 1);
        } else {
            lemma_ends_grow(curves, m - 1, n - 1);
        }
    }
}

/// Segment `j` of curve `k` comes behind all segments of the curves before it,
/// later by the length of those curves, and with its own length and rate.
pub proof fn joined_curves_keep_their_segments(
    curves: Seq<Option<Vec<CurveSegment>>>,
    n: int,
    k: int,
    j: int,
)
    requires
        0 <= k < n <= curves.len(),
        curves[k] is Some,
        0 <= j < curves[k]->0@.len(),
        curves[k]->0@[j].concat_start >= 0,
        curves[k]->0@[j].concat_end >= 0,
        curves[k]->0@[j].concat_start <= curves[k]->0@[j].concat_end,
        ends_of(curves, n) <= i64::MAX,
    ensures
        ({
            let r = crate::trips::merge::in_a_row(curves, n);
            let s = curves[k]->0@[j];
            let at = segments_of(curves, k) + j;
            &&& r.len() == segments_of(curves, n)
            &&& 0 <= at < r.len()
            &&& r[at].concat_start == s.concat_start + ends_of(curves, k)
            &&& r[at].concat_end == s.concat_end + ends_of(curves, k)
            &&& r[at].rate == s.rate
        }),
    decreases n,
{
    lemma_lengths(curves, n);
    lemma_ends_grow(curves, n - 1, n);
    if k < n - 1 {
        joined_curves_keep_their_segments(curves, n - 1, k, j);
        lemma_lengths(curves, n - 1);
    } else {
        lemma_lengths(curves, k);
        curves_end_with_their_last_segment(curves[k]->0@);
        assert(curves[k]->0@[j].concat_end <= crate::trips::merge::curve_end(curves[k]->0@));
    }
}

proof fn lemma_lengths(curves: Seq<Option<Vec<CurveSegment>>>, n: int)
    requires
        0 <= n,
        ends_of(curves, n) <= i64::MAX,
    ensures
        crate::trips::merge::length_of(curves, n) == ends_of(curves, n),
        crate::trips::merge::in_a_row(curves, n).len() == segments_of(curves, n),
        0 <= segments_of(curves, n),
    decreases n,
{
    if n > 0 {
        lemma_ends_grow(curves, n - 1, n);
        lemma_lengths(curves, n - 1);
        lemma_ends_grow(curves, 0, n);
    }
}

} // verus!
