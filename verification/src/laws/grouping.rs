//! What segments and trips are made of.

use crate::model::{ChannelView, SegmentView, TripView};
use crate::scan::grouping::InputView;
use crate::scan::naming::{CameraKind, EventMode};
use vstd::prelude::*;

verus! {

/// The whole seconds that a segment lasts: those of its duration, and three
/// minutes while that is not known.
pub open spec fn seconds_of(s: SegmentView) -> int {
    if s.duration_ms > 0 {
        s.duration_ms as int / 1000
    } else {
        180
    }
}

/// The segment starts on a whole second, and the calendar has room for it.
pub open spec fn is_on_the_second(s: SegmentView) -> bool {
    s.start_time.nanos == 0 && s.start_time.secs + seconds_of(s) <= i64::MAX
}

/// The trip stands for its segments: it starts with the first, ends when the last
/// has lasted, has the identifier that the first gives it, and its camera.
pub open spec fn stands_for_its_segments(t: TripView) -> bool {
    &&& t.segments.len() > 0
    &&& t.start_time == t.segments[0].start_time
    &&& t.end_time.secs == t.segments.last().start_time.secs + seconds_of(t.segments.last())
    &&& t.end_time.nanos == t.segments.last().start_time.nanos
    &&& t.id == crate::ids::trip_id(t.segments[0].id)
    &&& t.camera_kind == t.segments[0].camera_kind
    &&& t.gps_supported == t.segments[0].gps_supported
    &&& !t.archive_only
}

proof fn lemma_run_members(s: Seq<SegmentView>, gap: int)
    ensures
        forall|i: int|
            0 <= i < crate::scan::grouping::runs(s, gap).len() ==> (
            #[trigger] crate::scan::grouping::runs(s, gap)[i]).len() > 0,
        forall|i: int, k: int|
            0 <= i < crate::scan::grouping::runs(s, gap).len() && 0 <= k
                < crate::scan::grouping::runs(s, gap)[i].len() ==> s.contains(
                #[trigger] crate::scan::grouping::runs(s, gap)[i][k],
            ),
    decreases s.len(),
{
    if s.len() > 0 {
        let u = s.drop_last();
        lemma_run_members(u, gap);
        let before = crate::scan::grouping::runs(u, gap);
        let r = crate::scan::grouping::runs(s, gap);
        assert forall|i: int| 0 <= i < r.len() implies (#[trigger] r[i]).len() > 0 by {
            if i < before.len() {
                assert(before[i].len() > 0);
            }
        }
        assert forall|i: int, k: int| 0 <= i < r.len() && 0 <= k < r[i].len() implies s.contains(
            #[trigger] r[i][k],
        ) by {
            if i < before.len() && k < before[i].len() {
                assert(r[i][k] == before[i][k]);
                assert(u.contains(before[i][k]));
                let m = choose|m: int| 0 <= m < u.len() && u[m] == before[i][k];
                assert(s[m] == r[i][k]);
            } else {
                assert(s[s.len() - 1] == r[i][k]);
            }
        }
    }
}

/// Every trip stands for its segments.
pub proof fn trips_stand_for_their_segments(s: Seq<SegmentView>, gap: int)
    requires
        forall|i: int| 0 <= i < s.len() ==> is_on_the_second(#[trigger] s[i]),
    ensures
        forall|i: int|
            0 <= i < crate::scan::grouping::trips_of(s, gap).len() ==> stands_for_its_segments(
                #[trigger] crate::scan::grouping::trips_of(s, gap)[i],
            ),
{
    let r = crate::scan::grouping::runs(s, gap);
    let t = crate::scan::grouping::trips_of(s, gap);
    lemma_run_members(s, gap);
    assert forall|i: int| 0 <= i < t.len() implies stands_for_its_segments(#[trigger] t[i]) by {
        let run = r[i];
        assert(run.len() > 0);
        let last = run[run.len() - 1];
        assert(s.contains(r[i][run.len() - 1]));
        let m = choose|m: int| 0 <= m < s.len() && s[m] == last;
        assert(is_on_the_second(s[m]));
        assert(t[i] == crate::scan::grouping::trip_of(run));
    }
}

/// Where the segments come in the order of time, no segment of a trip starts
/// before the trip, and none starts after it ends.
pub proof fn trips_hold_their_segments(s: Seq<SegmentView>, gap: int, i: int, k: int)
    requires
        forall|j: int| 0 <= j < s.len() ==> is_on_the_second(#[trigger] s[j]),
        forall|j: int, m: int|
            0 <= j <= m < s.len() ==> (#[trigger] s[j]).start_time.secs <= (
            #[trigger] s[m]).start_time.secs,
        0 <= i < crate::scan::grouping::trips_of(s, gap).len(),
        0 <= k < crate::scan::grouping::trips_of(s, gap)[i].segments.len(),
    ensures
        ({
            let t = crate::scan::grouping::trips_of(s, gap)[i];
            &&& t.start_time.secs <= t.segments[k].start_time.secs
            &&& t.segments[k].start_time.secs <= t.end_time.secs
            &&& seconds_of(t.segments[k]) <= seconds_of(t.segments.last())
                ==> t.segments[k].start_time.secs + seconds_of(t.segments[k]) <= t.end_time.secs
        }),
{
    trips_stand_for_their_segments(s, gap);
    let t = crate::scan::grouping::trips_of(s, gap)[i];
    let n = t.segments.len() - 1;
    lemma_run_in_order(s, gap, i, 0, k);
    lemma_run_in_order(s, gap, i, k, n);
    assert(stands_for_its_segments(t));
}

proof fn lemma_run_in_order(s: Seq<SegmentView>, gap: int, i: int, j: int, k: int)
    requires
        forall|j: int, m: int|
            0 <= j <= m < s.len() ==> (#[trigger] s[j]).start_time.secs <= (
            #[trigger] s[m]).start_time.secs,
        0 <= i < crate::scan::grouping::runs(s, gap).len(),
        0 <= j <= k < crate::scan::grouping::runs(s, gap)[i].len(),
    ensures
        crate::scan::grouping::runs(s, gap)[i][j].start_time.secs <= crate::scan::grouping::runs(
            s,
            gap,
        )[i][k].start_time.secs,
    decreases s.len(),
{
    if s.len() > 0 {
        let u = s.drop_last();
        let before = crate::scan::grouping::runs(u, gap);
        let r = crate::scan::grouping::runs(s, gap);
        assert forall|j: int, m: int| 0 <= j <= m < u.len() implies (
        #[trigger] u[j]).start_time.secs <= (#[trigger] u[m]).start_time.secs by {
            assert(s[j].start_time.secs <= s[m].start_time.secs);
        }
        if i < before.len() && k < before[i].len() {
            lemma_run_in_order(u, gap, i, j, k);
            assert(r[i][j] == before[i][j]);
            assert(r[i][k] == before[i][k]);
        } else {
            assert(r[i][k] == s.last());
            if j < k {
                lemma_run_members(s, gap);
                assert(s.contains(r[i][j]));
                let m = choose|m: int| 0 <= m < s.len() && s[m] == r[i][j];
                assert(s[m].start_time.secs <= s[s.len() - 1].start_time.secs);
            }
        }
    }
}

/// Two neighbouring segments belong to one trip exactly where the second starts at
/// most `gap` seconds after the first has lasted.
pub proof fn pauses_are_between_end_and_start(a: SegmentView, b: SegmentView)
    requires
        is_on_the_second(a),
        is_on_the_second(b),
    ensures
        crate::scan::grouping::pause(a, b) == b.start_time.secs - (a.start_time.secs + seconds_of(
            a,
        )),
{
    crate::laws::moment::whole_seconds_apart(crate::scan::grouping::end_of(a), b.start_time);
}

/// No label occurs in both.
pub open spec fn share_no_label(a: Seq<ChannelView>, b: Seq<ChannelView>) -> bool {
    forall|l: Seq<char>| !(#[trigger] has_label(a, l) && has_label(b, l))
}

/// One of the channels has the label.
pub open spec fn has_label(c: Seq<ChannelView>, label: Seq<char>) -> bool {
    exists|i: int| 0 <= i < c.len() && (#[trigger] c[i]).label == label
}

/// Segments are one recording exactly where they start at most three seconds
/// apart, both are events or neither is, and they share no channel.
pub proof fn recordings_are_close_alike_and_apart(a: SegmentView, b: SegmentView)
    requires
        a.start_time.nanos == 0,
        b.start_time.nanos == 0,
    ensures
        crate::scan::grouping::same_recording(a, b) <==> -3 <= b.start_time.secs
            - a.start_time.secs <= 3 && a.is_event == b.is_event && share_no_label(
            a.channels,
            b.channels,
        ),
{
    crate::laws::moment::whole_seconds_apart(a.start_time, b.start_time);
    let x = a.channels;
    let y = b.channels;
    if share_no_label(x, y) {
        assert forall|i: int, j: int| 0 <= i < x.len() && 0 <= j < y.len() implies (
        #[trigger] x[i]).label != (#[trigger] y[j]).label by {
            assert(has_label(x, x[i].label));
            assert(!has_label(y, x[i].label));
        }
    }
    if crate::scan::grouping::labels_disjoint(x, y) {
        assert forall|l: Seq<char>| !(#[trigger] has_label(x, l) && has_label(y, l)) by {
            if has_label(x, l) && has_label(y, l) {
                let i = choose|i: int| 0 <= i < x.len() && (#[trigger] x[i]).label == l;
                let j = choose|j: int| 0 <= j < y.len() && (#[trigger] y[j]).label == l;
                assert(x[i].label != y[j].label);
            }
        }
    }
}

/// The channel is that of a file: it has its label and its path, and nothing else
/// is known of it yet.
pub open spec fn is_channel_of(c: ChannelView, f: InputView) -> bool {
    &&& c.label == f.parsed.label
    &&& c.file_path == f.path
    &&& c.width is None && c.height is None && c.fps_num is None && c.fps_den is None
    &&& c.codec is None
    &&& !c.has_gpmd_track
}

/// The rank of a label: front, interior, rear, and then the others.
pub open spec fn comes_before(a: Seq<char>, b: Seq<char>) -> bool {
    crate::model::rank(a) <= crate::model::rank(b)
}

/// The segment of files that share a key starts with the earliest of them; whether
/// it is an event, and its camera, are those of the first; every channel is that
/// of a file, and the channels come in the order front, interior, rear; its
/// identifier is that of the file of its first channel at its start.
pub proof fn segments_stand_for_their_files(b: Seq<InputView>)
    requires
        b.len() > 0,
    ensures
        ({
            let s = crate::scan::grouping::segment_of(b);
            &&& forall|i: int|
                0 <= i < b.len() ==> s.start_time.order() <= (#[trigger] b[i]).parsed.start.order()
            &&& exists|i: int| 0 <= i < b.len() && s.start_time == (#[trigger] b[i]).parsed.start
            &&& (s.is_event <==> b[0].parsed.mode == EventMode::Event)
            &&& s.camera_kind == b[0].parsed.kind
            &&& (s.gps_supported <==> b[0].parsed.kind != CameraKind::Thinkware)
            &&& s.duration_ms == 0
            &&& s.size_bytes is None
            &&& !s.is_tombstone
            &&& s.channels.len() > 0
            &&& forall|k: int|
                0 <= k < s.channels.len() ==> exists|i: int|
                    0 <= i < b.len() && is_channel_of(#[trigger] s.channels[k], #[trigger] b[i])
            &&& forall|k: int, m: int|
                0 <= k <= m < s.channels.len() ==> comes_before(
                    (#[trigger] s.channels[k]).label,
                    (#[trigger] s.channels[m]).label,
                )
            &&& exists|i: int|
                0 <= i < b.len() && is_channel_of(s.channels[0], #[trigger] b[i]) && s.id
                    == crate::ids::segment_id(b[i].id_key, s.start_time)
        }),
{
    let s = crate::scan::grouping::segment_of(b);
    let sorted = crate::sort::sort_by(b, crate::scan::grouping::input_rank());
    let kept = crate::scan::grouping::without_repeats(sorted);
    lemma_earliest(b);
    crate::sort::sort_is_sorted(b, crate::scan::grouping::input_rank());
    lemma_kept(sorted);
    assert forall|k: int| 0 <= k < kept.len() implies exists|i: int|
        0 <= i < b.len() && #[trigger] b[i] == kept[k] && is_channel_of(
            #[trigger] s.channels[k],
            b[i],
        ) by {
        let j = choose|j: int| 0 <= j < sorted.len() && sorted[j] == kept[k];
        lemma_sorted_member(b, j);
        let i = choose|i: int| 0 <= i < b.len() && b[i] == sorted[j];
        assert(is_channel_of(s.channels[k], b[i]));
    }
    assert(kept[0] == kept[0]);
    let i0 = choose|i: int|
        0 <= i < b.len() && #[trigger] b[i] == kept[0] && is_channel_of(s.channels[0], b[i]);
    assert(is_channel_of(s.channels[0], b[i0]));
    assert forall|k: int, m: int| 0 <= k <= m < s.channels.len() implies comes_before(
        (#[trigger] s.channels[k]).label,
        (#[trigger] s.channels[m]).label,
    ) by {
        assert(s.channels[k].label == kept[k].parsed.label);
        assert(s.channels[m].label == kept[m].parsed.label);
        lemma_kept_sorted(sorted, k, m);
    }
}

/// No two channels of a segment that stand side by side have one label, and each file's
/// label is that of a channel.
pub proof fn segments_have_a_channel_for_each_label(b: Seq<InputView>)
    requires
        b.len() > 0,
    ensures
        ({
            let c = crate::scan::grouping::segment_of(b).channels;
            &&& forall|k: int, m: int|
                0 <= k && m == k + 1 && m < c.len() ==> (#[trigger] c[k]).label != (
                #[trigger] c[m]).label
            &&& forall|i: int|
                0 <= i < b.len() ==> exists|k: int|
                    0 <= k < c.len() && (#[trigger] c[k]).label == (#[trigger] b[i]).parsed.label
        }),
{
    broadcast use vstd::seq_lib::group_to_multiset_ensures;

    let s = crate::scan::grouping::segment_of(b);
    let c = s.channels;
    let sorted = crate::sort::sort_by(b, crate::scan::grouping::input_rank());
    let kept = crate::scan::grouping::without_repeats(sorted);
    lemma_kept_labels(sorted);
    crate::sort::sort_is_permutation(b, crate::scan::grouping::input_rank());
    assert forall|k: int| 0 <= k < kept.len() implies (#[trigger] c[k]).label
        == kept[k].parsed.label by {}
    assert forall|i: int| 0 <= i < b.len() implies exists|k: int|
        0 <= k < c.len() && (#[trigger] c[k]).label == (#[trigger] b[i]).parsed.label by {
        assert(b.contains(b[i]));
        assert(b.to_multiset().contains(b[i]));
        assert(sorted.to_multiset().contains(b[i]));
        assert(sorted.contains(b[i]));
        let j = choose|j: int| 0 <= j < sorted.len() && sorted[j] == b[i];
        assert(sorted[j].parsed.label == b[i].parsed.label);
        let k = choose|k: int|
            0 <= k < kept.len() && #[trigger] kept[k].parsed.label == sorted[j].parsed.label;
        assert(c[k].label == b[i].parsed.label);
    }
    assert forall|k: int, m: int| 0 <= k && m == k + 1 && m < c.len() implies (
    #[trigger] c[k]).label != (#[trigger] c[m]).label by {
        assert(kept[k].parsed.label != kept[m].parsed.label);
    }
}

proof fn lemma_kept_labels(s: Seq<InputView>)
    ensures
        ({
            let r = crate::scan::grouping::without_repeats(s);
            &&& s.len() > 0 ==> r.len() > 0 && r.last().parsed.label == s.last().parsed.label
            &&& forall|k: int, m: int|
                0 <= k && m == k + 1 && m < r.len() ==> (#[trigger] r[k]).parsed.label != (
                #[trigger] r[m]).parsed.label
            &&& forall|j: int|
                0 <= j < s.len() ==> exists|k: int|
                    0 <= k < r.len() && (#[trigger] r[k]).parsed.label == (
                    #[trigger] s[j]).parsed.label
        }),
    decreases s.len(),
{
    if s.len() > 0 {
        let u = s.drop_last();
        lemma_kept_labels(u);
        let before = crate::scan::grouping::without_repeats(u);
        let r = crate::scan::grouping::without_repeats(s);
        assert forall|j: int| 0 <= j < s.len() implies exists|k: int|
            0 <= k < r.len() && (#[trigger] r[k]).parsed.label == (
            #[trigger] s[j]).parsed.label by {
            if j < u.len() {
                assert(u[j] == s[j]);
                let k = choose|k: int|
                    0 <= k < before.len() && (#[trigger] before[k]).parsed.label
                        == u[j].parsed.label;
                assert(r[k] == before[k]);
            } else {
                assert(r[r.len() - 1].parsed.label == s[j].parsed.label);
            }
        }
        assert forall|k: int, m: int| 0 <= k && m == k + 1 && m < r.len() implies (
        #[trigger] r[k]).parsed.label != (#[trigger] r[m]).parsed.label by {
            assert(r[k] == before[k]);
            if m < before.len() {
                assert(r[m] == before[m]);
            } else {
                assert(before.last() == before[k]);
            }
        }
    }
}

proof fn lemma_earliest(b: Seq<InputView>)
    requires
        b.len() > 0,
    ensures
        forall|i: int|
            0 <= i < b.len() ==> crate::scan::grouping::earliest(b).order() <= (
            #[trigger] b[i]).parsed.start.order(),
        exists|i: int|
            0 <= i < b.len() && crate::scan::grouping::earliest(b) == (#[trigger] b[i]).parsed.start,
    decreases b.len(),
{
    if b.len() > 1 {
        let u = b.drop_last();
        lemma_earliest(u);
        let k = choose|k: int|
            0 <= k < u.len() && crate::scan::grouping::earliest(u) == (#[trigger] u[k]).parsed.start;
        assert(b[k] == u[k]);
        assert(b[b.len() - 1] == b.last());
        assert forall|i: int| 0 <= i < b.len() implies crate::scan::grouping::earliest(b).order() <= (
        #[trigger] b[i]).parsed.start.order() by {
            if i < u.len() {
                assert(u[i] == b[i]);
            }
        }
    } else {
        assert(b[0].parsed.start == crate::scan::grouping::earliest(b));
    }
}

proof fn lemma_kept(s: Seq<InputView>)
    ensures
        s.len() > 0 ==> crate::scan::grouping::without_repeats(s).len() > 0,
        forall|k: int|
            0 <= k < crate::scan::grouping::without_repeats(s).len() ==> exists|j: int|
                0 <= j < s.len() && #[trigger] s[j]
                    == #[trigger] crate::scan::grouping::without_repeats(s)[k],
    decreases s.len(),
{
    if s.len() > 0 {
        let u = s.drop_last();
        lemma_kept(u);
        let before = crate::scan::grouping::without_repeats(u);
        let r = crate::scan::grouping::without_repeats(s);
        assert forall|k: int| 0 <= k < r.len() implies exists|j: int|
            0 <= j < s.len() && #[trigger] s[j] == #[trigger] r[k] by {
            if k < before.len() {
                assert(r[k] == before[k]);
                let j = choose|j: int| 0 <= j < u.len() && u[j] == before[k];
                assert(s[j] == r[k]);
            } else {
                assert(s[s.len() - 1] == r[k]);
            }
        }
    }
}

proof fn lemma_kept_sorted(s: Seq<InputView>, k: int, m: int)
    requires
        crate::sort::is_sorted(s, crate::scan::grouping::input_rank()),
        0 <= k <= m < crate::scan::grouping::without_repeats(s).len(),
    ensures
        crate::model::rank(crate::scan::grouping::without_repeats(s)[k].parsed.label)
            <= crate::model::rank(crate::scan::grouping::without_repeats(s)[m].parsed.label),
    decreases s.len(),
{
    let key = crate::scan::grouping::input_rank();
    if s.len() > 0 {
        let u = s.drop_last();
        let before = crate::scan::grouping::without_repeats(u);
        let r = crate::scan::grouping::without_repeats(s);
        assert forall|i: int, j: int| 0 <= i <= j < u.len() implies key(#[trigger] u[i]) <= key(
            #[trigger] u[j],
        ) by {
            assert(key(s[i]) <= key(s[j]));
        }
        if m < before.len() {
            lemma_kept_sorted(u, k, m);
        } else if k < m {
            lemma_kept(u);
            let j = choose|j: int| 0 <= j < u.len() && u[j] == before[k];
            assert(key(s[j]) <= key(s[s.len() - 1]));
        }
    }
}

proof fn lemma_sorted_member(b: Seq<InputView>, j: int)
    requires
        0 <= j < crate::sort::sort_by(b, crate::scan::grouping::input_rank()).len(),
    ensures
        b.contains(crate::sort::sort_by(b, crate::scan::grouping::input_rank())[j]),
{
    broadcast use vstd::seq_lib::group_to_multiset_ensures;

    let r = crate::sort::sort_by(b, crate::scan::grouping::input_rank());
    crate::sort::sort_is_permutation(b, crate::scan::grouping::input_rank());
    assert(r.contains(r[j]));
    assert(r.to_multiset().contains(r[j]));
    assert(b.to_multiset().contains(r[j]));
}

/// The channels come in the order front, interior, rear, and then the others.
pub open spec fn are_in_order(c: Seq<ChannelView>) -> bool {
    forall|a: int, b: int|
        0 <= a <= b < c.len() ==> comes_before((#[trigger] c[a]).label, (#[trigger] c[b]).label)
}

/// Merging keeps the channels of every segment in their order.
pub proof fn merged_channels_come_in_order(s: Seq<SegmentView>)
    requires
        forall|i: int| 0 <= i < s.len() ==> are_in_order((#[trigger] s[i]).channels),
    ensures
        forall|i: int|
            0 <= i < crate::scan::grouping::fuzzy_merged(s).len() ==> are_in_order(
                (#[trigger] crate::scan::grouping::fuzzy_merged(s)[i]).channels,
            ),
    decreases s.len(),
{
    if s.len() > 0 {
        let u = s.drop_last();
        assert forall|i: int| 0 <= i < u.len() implies are_in_order((#[trigger] u[i]).channels) by {
            assert(u[i] == s[i]);
        }
        merged_channels_come_in_order(u);
        let before = crate::scan::grouping::fuzzy_merged(u);
        let r = crate::scan::grouping::fuzzy_merged(s);
        assert(s[s.len() - 1] == s.last());
        assert forall|i: int| 0 <= i < r.len() implies are_in_order((#[trigger] r[i]).channels) by {
            if i < before.len() && r[i] == before[i] {
            } else if before.len() > 0 && crate::scan::grouping::same_recording(
                before.last(),
                s.last(),
            ) {
                let all = before.last().channels + s.last().channels;
                let key = crate::scan::grouping::channel_rank();
                crate::laws::seqs::lemma_sorted(all, key);
                let c = r[i].channels;
                assert forall|a: int, b: int| 0 <= a <= b < c.len() implies comes_before(
                    (#[trigger] c[a]).label,
                    (#[trigger] c[b]).label,
                ) by {
                    assert(key(c[a]) <= key(c[b]));
                }
            }
        }
    }
}

/// Front comes before interior, interior before rear, and rear before any other.
pub proof fn channels_have_their_order(other: Seq<char>)
    requires
        other != crate::scan::naming::LABEL_FRONT@,
        other != crate::scan::naming::LABEL_INTERIOR@,
        other != crate::scan::naming::LABEL_REAR@,
    ensures
        crate::model::rank(crate::scan::naming::LABEL_FRONT@) < crate::model::rank(
            crate::scan::naming::LABEL_INTERIOR@,
        ) < crate::model::rank(crate::scan::naming::LABEL_REAR@) < crate::model::rank(other),
{
    reveal_strlit("Front");
    reveal_strlit("Interior");
    reveal_strlit("Rear");
    assert("Front"@.len() == 5);
    assert("Interior"@.len() == 8);
    assert("Rear"@.len() == 4);
}

/// Grouping gives trips of the files: each trip stands for its segments, and each
/// of its segments is the first of neighbouring segments that are one recording,
/// each of which stands for files of one key.
pub proof fn grouped_trips_stand_for_their_files(items: Seq<InputView>, gap: int, t: int, k: int)
    requires
        forall|i: int|
            0 <= i < items.len() ==> (#[trigger] items[i]).parsed.start.nanos == 0
                && items[i].parsed.start.secs + 180 <= i64::MAX,
        0 <= t < crate::scan::grouping::grouped(items, gap).len(),
        0 <= k < crate::scan::grouping::grouped(items, gap)[t].segments.len(),
    ensures
        ({
            let trip = crate::scan::grouping::grouped(items, gap)[t];
            let s = trip.segments[k];
            &&& stands_for_its_segments(trip)
            &&& exists|b: Seq<InputView>|
                #[trigger] is_bucket_of(items, b) && {
                    let f = crate::scan::grouping::segment_of(b);
                    s == (SegmentView { channels: s.channels, ..f })
                }
        }),
{
    let ordered = crate::scan::grouping::segments_in_order(items);
    let merged = crate::scan::grouping::fuzzy_merged(ordered);
    let buckets = crate::scan::grouping::buckets_of(items);
    let raw = buckets.map_values(|b: Seq<InputView>| crate::scan::grouping::segment_of(b));
    assert forall|i: int| 0 <= i < merged.len() implies is_on_the_second(#[trigger] merged[i])
        && exists|b: Seq<InputView>|
        #[trigger] is_bucket_of(items, b) && merged[i] == (SegmentView {
            channels: merged[i].channels,
            ..crate::scan::grouping::segment_of(b)
        }) by {
        crate::scan::grouping::merged_segments_are_their_first(ordered);
        let members = crate::scan::grouping::recordings(ordered);
        assert(crate::scan::grouping::is_recording_of(merged[i], members[i]));
        lemma_recording_member(ordered, i);
        let m = choose|m: int| 0 <= m < ordered.len() && ordered[m] == members[i][0];
        lemma_ordered_member(raw, m);
        let j = choose|j: int| 0 <= j < raw.len() && raw[j] == ordered[m];
        crate::scan::grouping::buckets_are_by_key(items);
        assert(buckets[j].len() > 0);
        assert(is_bucket_of(items, buckets[j]));
        lemma_earliest(buckets[j]);
        let e = choose|e: int|
            0 <= e < buckets[j].len() && crate::scan::grouping::earliest(buckets[j]) == (
            #[trigger] buckets[j][e]).parsed.start;
        lemma_bucket_items(items, j, e);
        let x = choose|x: int| 0 <= x < items.len() && items[x] == buckets[j][e];
        assert(items[x].parsed.start.nanos == 0);
    }
    trips_stand_for_their_segments(merged, gap);
    lemma_run_members(merged, gap);
    let trip = crate::scan::grouping::grouped(items, gap)[t];
    assert(merged.contains(crate::scan::grouping::runs(merged, gap)[t][k]));
    let q = choose|q: int| 0 <= q < merged.len() && merged[q] == trip.segments[k];
    assert(is_on_the_second(merged[q]));
}

/// The files are all those of one group key, and there is at least one.
pub open spec fn is_bucket_of(items: Seq<InputView>, b: Seq<InputView>) -> bool {
    crate::scan::grouping::buckets_of(items).contains(b) && b.len() > 0
}

proof fn lemma_recording_member(s: Seq<SegmentView>, i: int)
    requires
        0 <= i < crate::scan::grouping::recordings(s).len(),
        crate::scan::grouping::recordings(s)[i].len() > 0,
    ensures
        s.contains(crate::scan::grouping::recordings(s)[i][0]),
    decreases s.len(),
{
    if s.len() > 0 {
        let u = s.drop_last();
        let before = crate::scan::grouping::recordings(u);
        let r = crate::scan::grouping::recordings(s);
        crate::scan::grouping::merged_segments_are_their_first(u);
        crate::scan::grouping::merged_segments_are_their_first(s);
        if i < before.len() {
            assert(crate::scan::grouping::is_recording_of(
                crate::scan::grouping::fuzzy_merged(u)[i],
                before[i],
            ));
            lemma_recording_member(u, i);
            assert(r[i][0] == before[i][0]);
            let m = choose|m: int| 0 <= m < u.len() && u[m] == before[i][0];
            assert(s[m] == r[i][0]);
        } else {
            assert(r[i][0] == s.last());
            assert(s[s.len() - 1] == s.last());
        }
    }
}

proof fn lemma_ordered_member(s: Seq<SegmentView>, m: int)
    requires
        0 <= m < crate::sort::sort_by(s, crate::scan::grouping::start_order()).len(),
    ensures
        s.contains(crate::sort::sort_by(s, crate::scan::grouping::start_order())[m]),
{
    broadcast use vstd::seq_lib::group_to_multiset_ensures;

    let r = crate::sort::sort_by(s, crate::scan::grouping::start_order());
    crate::sort::sort_is_permutation(s, crate::scan::grouping::start_order());
    assert(r.contains(r[m]));
    assert(r.to_multiset().contains(r[m]));
    assert(s.to_multiset().contains(r[m]));
}

proof fn lemma_bucket_at(b: Seq<Seq<InputView>>, key: Seq<char>, i: int)
    requires
        0 <= i <= b.len(),
    ensures
        i <= crate::scan::grouping::bucket_at(b, key, i) <= b.len(),
    decreases b.len() - i,
{
    if i < b.len() {
        lemma_bucket_at(b, key, i + 1);
    }
}

proof fn lemma_bucket_items(items: Seq<InputView>, j: int, e: int)
    requires
        0 <= j < crate::scan::grouping::buckets_of(items).len(),
        0 <= e < crate::scan::grouping::buckets_of(items)[j].len(),
    ensures
        items.contains(crate::scan::grouping::buckets_of(items)[j][e]),
    decreases items.len(),
{
    if items.len() > 0 {
        let u = items.drop_last();
        let b = crate::scan::grouping::buckets_of(u);
        let r = crate::scan::grouping::buckets_of(items);
        let at = crate::scan::grouping::bucket_at(b, items.last().parsed.key, 0);
        lemma_bucket_at(b, items.last().parsed.key, 0);
        assert(r == crate::scan::grouping::with_file(b, items.last()));
        if j < b.len() && e < b[j].len() {
            lemma_bucket_items(u, j, e);
            if j == at {
                assert(r[j] == b[j].push(items.last()));
            } else {
                assert(r[j] == b[j]);
            }
            let m = choose|m: int| 0 <= m < u.len() && u[m] == b[j][e];
            assert(items[m] == r[j][e]);
        } else {
            if j < b.len() {
                if j != at {
                    assert(r[j] == b[j]);
                }
                assert(j == at);
                assert(r[j] == b[j].push(items.last()));
            } else {
                assert(r[j] == seq![items.last()]);
            }
            assert(items[items.len() - 1] == items.last());
        }
    }
}

} // verus!
