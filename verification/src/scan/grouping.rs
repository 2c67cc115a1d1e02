//! From parsed file names to segments and trips.

use crate::ids::{derive_segment_id, derive_trip_id};
use crate::model::{label_rank, Channel, Segment, Trip};
use crate::moment::Moment;
use crate::scan::naming::{EventMode, ParsedName};
use crate::sort::sort_stable;
use vstd::prelude::*;

verus! {

/// The longest pause within a trip, in seconds.
pub const DEFAULT_TRIP_GAP_SECONDS: i64 = 120;

/// How long a segment is taken to be while its duration is not known.
pub const ASSUMED_SEGMENT_DURATION_S: i64 = 180;

/// How far apart, in seconds, the cameras of one car may stamp one recording.
pub const SEGMENT_FUZZY_WINDOW_S: i64 = 3;

/// A video file with what its name tells. `id_key` is its path as the archive
/// stores it, or its full path where it does not lie in the archive.
#[derive(Debug)]
pub struct GroupingInput {
    pub path: String,
    pub id_key: String,
    pub parsed: ParsedName,
}

/// A file with its texts as sequences of characters.
#[verifier::ext_equal]
pub struct InputView {
    pub path: Seq<char>,
    pub id_key: Seq<char>,
    pub parsed: crate::scan::naming::NameView,
}

impl View for GroupingInput {
    type V = InputView;

    open spec fn view(&self) -> InputView {
        InputView { path: self.path@, id_key: self.id_key@, parsed: self.parsed@ }
    }
}

/// The views of files.
pub open spec fn input_views(v: Seq<GroupingInput>) -> Seq<InputView> {
    v.map_values(|i: GroupingInput| i@)
}

/// The views of buckets of files.
pub open spec fn bucket_views(v: Seq<Vec<GroupingInput>>) -> Seq<Seq<InputView>> {
    v.map_values(|b: Vec<GroupingInput>| input_views(b@))
}

/// The trips that were found.
#[derive(Debug)]
pub struct GroupingOutput {
    pub trips: Vec<Trip>,
}

// ----------------------------------------------------------------- buckets

/// The first bucket from `i` on with the given key; the number of buckets where
/// there is none.
pub open spec fn bucket_at(buckets: Seq<Seq<InputView>>, key: Seq<char>, i: int) -> int
    decreases buckets.len() - i,
{
    if i < 0 || i >= buckets.len() {
        buckets.len() as int
    } else if buckets[i].len() > 0 && buckets[i][0].parsed.key == key {
        i
    } else {
        bucket_at(buckets, key, i + 1)
    }
}

/// The buckets with one more file put into the bucket of its key.
pub open spec fn with_file(buckets: Seq<Seq<InputView>>, x: InputView) -> Seq<Seq<InputView>> {
    let i = bucket_at(buckets, x.parsed.key, 0);
    if i < buckets.len() {
        buckets.update(i, buckets[i].push(x))
    } else {
        buckets.push(seq![x])
    }
}

/// The files by group key, the keys in the order in which they first occur.
pub open spec fn buckets_of(items: Seq<InputView>) -> Seq<Seq<InputView>>
    decreases items.len(),
{
    if items.len() == 0 {
        Seq::empty()
    } else {
        with_file(buckets_of(items.drop_last()), items.last())
    }
}

/// Every bucket holds at least one file, the files of a bucket share their key,
/// and different buckets have different keys.
pub open spec fn are_buckets(b: Seq<Seq<InputView>>) -> bool {
    &&& forall|i: int| 0 <= i < b.len() ==> (#[trigger] b[i]).len() > 0
    &&& forall|i: int, k: int|
        0 <= i < b.len() && 0 <= k < b[i].len() ==> (#[trigger] b[i][k]).parsed.key
            == b[i][0].parsed.key
    &&& forall|i: int, j: int|
        0 <= i < j < b.len() ==> (#[trigger] b[i])[0].parsed.key != (
        #[trigger] b[j])[0].parsed.key
}

proof fn lemma_bucket_at(b: Seq<Seq<InputView>>, key: Seq<char>, i: int)
    requires
        0 <= i <= b.len(),
    ensures
        i <= bucket_at(b, key, i) <= b.len(),
        bucket_at(b, key, i) < b.len() ==> b[bucket_at(b, key, i)].len() > 0
            && b[bucket_at(b, key, i)][0].parsed.key == key,
        forall|j: int|
            i <= j < bucket_at(b, key, i) ==> !((#[trigger] b[j]).len() > 0 && b[j][0].parsed.key
                == key),
    decreases b.len() - i,
{
    if i < b.len() && !(b[i].len() > 0 && b[i][0].parsed.key == key) {
        lemma_bucket_at(b, key, i + 1);
    }
}

/// Files end up in one bucket exactly when they share their group key.
pub proof fn buckets_are_by_key(items: Seq<InputView>)
    ensures
        are_buckets(buckets_of(items)),
    decreases items.len(),
{
    if items.len() > 0 {
        let b = buckets_of(items.drop_last());
        let x = items.last();
        buckets_are_by_key(items.drop_last());
        lemma_bucket_at(b, x.parsed.key, 0);
        let i = bucket_at(b, x.parsed.key, 0);
        let r = with_file(b, x);
        if i < b.len() {
            assert forall|a: int, k: int| 0 <= a < r.len() && 0 <= k < r[a].len() implies (
            #[trigger] r[a][k]).parsed.key == r[a][0].parsed.key by {
                if a == i {
                    if k < b[i].len() {
                        assert(r[a][k] == b[i][k]);
                    }
                } else {
                    assert(r[a][k] == b[a][k]);
                }
            }
            assert forall|a: int, c: int| 0 <= a < c < r.len() implies (
            #[trigger] r[a])[0].parsed.key != (#[trigger] r[c])[0].parsed.key by {
                assert(b[a][0].parsed.key != b[c][0].parsed.key);
            }
        } else {
            assert forall|a: int, k: int| 0 <= a < r.len() && 0 <= k < r[a].len() implies (
            #[trigger] r[a][k]).parsed.key == r[a][0].parsed.key by {
                if a < b.len() {
                    assert(r[a][k] == b[a][k]);
                }
            }
            assert forall|a: int, c: int| 0 <= a < c < r.len() implies (
            #[trigger] r[a])[0].parsed.key != (#[trigger] r[c])[0].parsed.key by {
                if c == b.len() {
                    assert(b[a].len() > 0);
                } else {
                    assert(b[a][0].parsed.key != b[c][0].parsed.key);
                }
            }
        }
    }
}

/// The number of files in all buckets.
pub open spec fn bucket_total(b: Seq<Seq<InputView>>) -> nat
    decreases b.len(),
{
    if b.len() == 0 {
        0
    } else {
        bucket_total(b.drop_last()) + b.last().len()
    }
}

proof fn lemma_total_update(b: Seq<Seq<InputView>>, i: int, x: InputView)
    requires
        0 <= i < b.len(),
    ensures
        bucket_total(b.update(i, b[i].push(x))) == bucket_total(b) + 1,
    decreases b.len(),
{
    let r = b.update(i, b[i].push(x));
    if i == b.len() - 1 {
        assert(r.drop_last() == b.drop_last());
    } else {
        assert(r.drop_last() == b.drop_last().update(i, b.drop_last()[i].push(x)));
        lemma_total_update(b.drop_last(), i, x);
    }
}

/// Every file goes into exactly one bucket.
pub proof fn buckets_hold_every_file(items: Seq<InputView>)
    ensures
        bucket_total(buckets_of(items)) == items.len(),
    decreases items.len(),
{
    if items.len() > 0 {
        let b = buckets_of(items.drop_last());
        let x = items.last();
        buckets_hold_every_file(items.drop_last());
        let i = bucket_at(b, x.parsed.key, 0);
        lemma_bucket_at(b, x.parsed.key, 0);
        if i < b.len() {
            lemma_total_update(b, i, x);
        } else {
            assert(b.push(seq![x]).drop_last() == b);
        }
    }
}

fn bucket_files(items: Vec<GroupingInput>) -> (buckets: Vec<Vec<GroupingInput>>)
    ensures
        bucket_views(buckets@) == buckets_of(input_views(items@)),
{
    let ghost all = input_views(items@);
    let ghost raw = items@;
    let mut buckets: Vec<Vec<GroupingInput>> = Vec::new();
    let ghost mut n: int = 0;
    proof {
        assert(all.take(0).len() == 0);
        assert(bucket_views(buckets@) == buckets_of(all.take(0)));
    }
    for x in it: items
        invariant
            it.seq() == raw,
            all == input_views(raw),
            n == it.index(),
            bucket_views(buckets@) == buckets_of(all.take(n as int)),
    {
        let ghost b = bucket_views(buckets@);
        let ghost xv = x@;
        proof {
            assert(xv == all[n as int]);
            assert(all.take(n + 1).drop_last() == all.take(n as int));
            assert(all.take(n + 1).last() == xv);
        }
        let mut i: usize = 0;
        while i < buckets.len() && !(buckets[i].len() > 0 && buckets[i][0].parsed.group_key
            == x.parsed.group_key)
            invariant
                i <= buckets.len(),
                b == bucket_views(buckets@),
                xv == x@,
                bucket_at(b, xv.parsed.key, 0) == bucket_at(b, xv.parsed.key, i as int),
            decreases buckets.len() - i,
        {
            proof {
                assert(b[i as int] == input_views(buckets@[i as int]@));
            }
            i += 1;
        }
        if i < buckets.len() {
            proof {
                assert(b[i as int] == input_views(buckets@[i as int]@));
                assert(b[i as int][0] == buckets@[i as int]@[0]@);
            }
            let ghost before = buckets@;
            let ghost old_bucket = buckets@[i as int]@;
            buckets[i].push(x);
            proof {
                assert(input_views(buckets@[i as int]@) == input_views(old_bucket).push(xv));
                assert(bucket_views(buckets@) == b.update(i as int, b[i as int].push(xv)));
            }
        } else {
            let mut fresh: Vec<GroupingInput> = Vec::new();
            fresh.push(x);
            proof {
                assert(input_views(fresh@) == seq![xv]);
            }
            let ghost before = buckets@;
            let ghost fv = input_views(fresh@);
            buckets.push(fresh);
            proof {
                assert(bucket_views(buckets@) == b.push(fv));
            }
        }
        proof {
            n = n + 1;
        }
    }
    proof {
        assert(all.take(all.len() as int) == all);
    }
    buckets
}

// ---------------------------------------------------------------- segments

/// The earliest start among the files.
pub open spec fn earliest(bucket: Seq<InputView>) -> Moment
    decreases bucket.len(),
{
    if bucket.len() <= 1 {
        bucket[0].parsed.start
    } else {
        let before = earliest(bucket.drop_last());
        if bucket.last().parsed.start.order() < before.order() {
            bucket.last().parsed.start
        } else {
            before
        }
    }
}

/// The rank of a file's channel.
pub open spec fn input_rank() -> spec_fn(InputView) -> int {
    |i: InputView| crate::model::rank(i.parsed.label)
}

/// The files without those whose label equals that of the file kept before.
pub open spec fn without_repeats(s: Seq<InputView>) -> Seq<InputView>
    decreases s.len(),
{
    if s.len() == 0 {
        s
    } else {
        let kept = without_repeats(s.drop_last());
        if kept.len() > 0 && kept.last().parsed.label == s.last().parsed.label {
            kept
        } else {
            kept.push(s.last())
        }
    }
}

/// The channel of a file.
pub open spec fn channel_of(i: InputView) -> crate::model::ChannelView {
    crate::model::ChannelView {
        label: i.parsed.label,
        file_path: i.path,
        width: None,
        height: None,
        fps_num: None,
        fps_den: None,
        codec: None,
        has_gpmd_track: false,
    }
}

/// The segment of a bucket: its channels in the order of their rank, its start
/// the earliest of its files, its identifier from its first channel and its
/// start.
pub open spec fn segment_of(bucket: Seq<InputView>) -> crate::model::SegmentView {
    let kept = without_repeats(crate::sort::sort_by(bucket, input_rank()));
    let start = earliest(bucket);
    crate::model::SegmentView {
        id: crate::ids::segment_id(kept[0].id_key, start),
        start_time: start,
        duration_ms: 0,
        is_event: bucket[0].parsed.mode == EventMode::Event,
        channels: kept.map_values(|i: InputView| channel_of(i)),
        camera_kind: bucket[0].parsed.kind,
        gps_supported: bucket[0].parsed.kind.has_gps(),
        size_bytes: None,
        is_tombstone: false,
    }
}

fn earliest_start(bucket: &Vec<GroupingInput>) -> (m: Moment)
    requires
        bucket.len() > 0,
    ensures
        m == earliest(input_views(bucket@)),
{
    let ghost all = input_views(bucket@);
    let mut m = bucket[0].parsed.start_time;
    let mut i: usize = 1;
    proof {
        assert(all.take(1)[0] == all[0]);
    }
    while i < bucket.len()
        invariant
            all == input_views(bucket@),
            1 <= i <= bucket.len(),
            m == earliest(all.take(i as int)),
        decreases bucket.len() - i,
    {
        let s = bucket[i].parsed.start_time;
        proof {
            assert(all.take(i + 1).drop_last() == all.take(i as int));
            assert(all.take(i + 1).last() == all[i as int]);
            assert(all[i as int].parsed.start == s);
        }
        if s.order_key() < m.order_key() {
            m = s;
        }
        i += 1;
    }
    proof {
        assert(all.take(all.len() as int) == all);
    }
    m
}

fn rank_keys(bucket: &Vec<GroupingInput>) -> (keys: Vec<i128>)
    ensures
        keys.len() == bucket.len(),
        forall|i: int|
            0 <= i < bucket.len() ==> #[trigger] keys@[i] == crate::model::rank(
                bucket@[i].parsed.channel_label@,
            ),
{
    let mut keys: Vec<i128> = Vec::new();
    let mut i: usize = 0;
    while i < bucket.len()
        invariant
            i <= bucket.len(),
            keys.len() == i,
            forall|j: int|
                0 <= j < i ==> #[trigger] keys@[j] == crate::model::rank(
                    bucket@[j].parsed.channel_label@,
                ),
        decreases bucket.len() - i,
    {
        keys.push(label_rank(bucket[i].parsed.channel_label.as_str()) as i128);
        i += 1;
    }
    keys
}

proof fn lemma_without_repeats_nonempty(s: Seq<InputView>)
    requires
        s.len() > 0,
    ensures
        without_repeats(s).len() > 0,
        without_repeats(s)[0] == s[0],
    decreases s.len(),
{
    if s.len() > 1 {
        lemma_without_repeats_nonempty(s.drop_last());
    } else {
        assert(without_repeats(s.drop_last()).len() == 0);
    }
}

/// The segment of a bucket.
pub fn make_segment(bucket: Vec<GroupingInput>) -> (r: Segment)
    requires
        bucket.len() > 0,
    ensures
        r@ == segment_of(input_views(bucket@)),
{
    let ghost all = input_views(bucket@);
    let start_time = earliest_start(&bucket);
    let event_mode = bucket[0].parsed.event_mode;
    let camera_kind = bucket[0].parsed.camera_kind;
    let keys = rank_keys(&bucket);
    let ghost raw_key = |i: GroupingInput| crate::model::rank(i.parsed.channel_label@);
    let ghost to_view = |i: GroupingInput| i@;
    let sorted = sort_stable(bucket, keys, Ghost(raw_key));
    let ghost sorted_views = crate::sort::sort_by(all, input_rank());
    let ghost raw = sorted@;
    proof {
        crate::sort::sort_commutes_with_map(bucket@, raw_key, to_view, input_rank());
        assert(input_views(bucket@) == bucket@.map_values(to_view));
        assert(input_views(raw) == raw.map_values(to_view));
        assert(input_views(raw) == sorted_views);
        crate::sort::sort_is_sorted(all, input_rank());
        assert(all[0] == bucket@[0]@);
    }
    let id_key = sorted[0].id_key.clone();
    let mut channels: Vec<Channel> = Vec::new();
    let ghost mut kept: Seq<InputView> = Seq::empty();
    let ghost mut n: int = 0;
    proof {
        assert(sorted_views.take(0).len() == 0);
        assert(crate::model::channel_views(channels@) == kept.map_values(
            |i: InputView| channel_of(i),
        ));
    }
    for x in it: sorted
        invariant
            it.seq() == raw,
            n == it.index(),
            sorted_views == input_views(raw),
            kept == without_repeats(sorted_views.take(n as int)),
            crate::model::channel_views(channels@) == kept.map_values(
                |i: InputView| channel_of(i),
            ),
    {
        let ghost xv = x@;
        proof {
            assert(sorted_views[n as int] == xv);
            assert(sorted_views.take(n + 1).drop_last() == sorted_views.take(n as int));
            assert(sorted_views.take(n + 1).last() == xv);
            assert(crate::model::channel_views(channels@).len() == kept.map_values(
                |i: InputView| channel_of(i),
            ).len());
            if kept.len() > 0 {
                assert(crate::model::channel_views(channels@).last()
                    == channels@[channels@.len() - 1]@);
                assert(channels@[channels@.len() - 1]@ == channel_of(kept.last()));
            }
        }
        let repeats = channels.len() > 0 && channels[channels.len() - 1].label
            == x.parsed.channel_label;
        if !repeats {
            let ghost before = channels@;
            let c = Channel {
                label: x.parsed.channel_label,
                file_path: x.path,
                width: None,
                height: None,
                fps_num: None,
                fps_den: None,
                codec: None,
                has_gpmd_track: false,
            };
            let ghost cv = c@;
            channels.push(c);
            proof {
                assert(cv == channel_of(xv));
                kept = kept.push(xv);
                assert(crate::model::channel_views(channels@) == crate::model::channel_views(
                    before,
                ).push(cv));
                assert(crate::model::channel_views(channels@) == kept.map_values(
                    |i: InputView| channel_of(i),
                ));
            }
        }
        proof {
            n = n + 1;
        }
    }
    proof {
        assert(sorted_views.take(sorted_views.len() as int) == sorted_views);
        lemma_without_repeats_nonempty(sorted_views);
        assert(kept[0].id_key == id_key@);
    }
    let id = derive_segment_id(id_key.as_str(), start_time);
    let is_event = match event_mode {
        EventMode::Event => true,
        _ => false,
    };
    Segment {
        id,
        start_time,
        duration_ms: 0,
        is_event,
        channels,
        camera_kind,
        gps_supported: camera_kind.gps_supported(),
        size_bytes: None,
        is_tombstone: false,
    }
}

// ---------------------------------------------------------- fuzzy neighbours

/// No channel of one segment has the label of a channel of the other.
pub open spec fn labels_disjoint(
    a: Seq<crate::model::ChannelView>,
    b: Seq<crate::model::ChannelView>,
) -> bool {
    forall|i: int, j: int|
        0 <= i < a.len() && 0 <= j < b.len() ==> (#[trigger] a[i]).label != (
        #[trigger] b[j]).label
}

/// The two segments are one recording that the cameras stamped a little apart.
pub open spec fn same_recording(
    last: crate::model::SegmentView,
    next: crate::model::SegmentView,
) -> bool {
    &&& next.start_time.distance_spec(last.start_time) <= SEGMENT_FUZZY_WINDOW_S
    &&& last.is_event == next.is_event
    &&& labels_disjoint(last.channels, next.channels)
}

/// The rank of a channel.
pub open spec fn channel_rank() -> spec_fn(crate::model::ChannelView) -> int {
    |c: crate::model::ChannelView| crate::model::rank(c.label)
}

/// The first segment with the channels of both.
pub open spec fn combined(
    last: crate::model::SegmentView,
    next: crate::model::SegmentView,
) -> crate::model::SegmentView {
    crate::model::SegmentView {
        channels: crate::sort::sort_by(last.channels + next.channels, channel_rank()),
        ..last
    }
}

/// The segments with each one that belongs to the recording before it merged
/// into that.
pub open spec fn fuzzy_merged(s: Seq<crate::model::SegmentView>) -> Seq<crate::model::SegmentView>
    decreases s.len(),
{
    if s.len() == 0 {
        s
    } else {
        let before = fuzzy_merged(s.drop_last());
        if before.len() > 0 && same_recording(before.last(), s.last()) {
            before.drop_last().push(combined(before.last(), s.last()))
        } else {
            before.push(s.last())
        }
    }
}

fn disjoint_labels(a: &Vec<Channel>, b: &Vec<Channel>) -> (r: bool)
    ensures
        r == labels_disjoint(
            crate::model::channel_views(a@),
            crate::model::channel_views(b@),
        ),
{
    let ghost av = crate::model::channel_views(a@);
    let ghost bv = crate::model::channel_views(b@);
    let mut i: usize = 0;
    while i < a.len()
        invariant
            av == crate::model::channel_views(a@),
            bv == crate::model::channel_views(b@),
            i <= a.len(),
            forall|x: int, y: int|
                0 <= x < i && 0 <= y < bv.len() ==> (#[trigger] av[x]).label != (
                #[trigger] bv[y]).label,
        decreases a.len() - i,
    {
        let mut j: usize = 0;
        while j < b.len()
            invariant
                av == crate::model::channel_views(a@),
                bv == crate::model::channel_views(b@),
                i < a.len(),
                j <= b.len(),
                forall|y: int| 0 <= y < j ==> av[i as int].label != (#[trigger] bv[y]).label,
            decreases b.len() - j,
        {
            proof {
                assert(av[i as int].label == a@[i as int].label@);
                assert(bv[j as int].label == b@[j as int].label@);
            }
            if a[i].label == b[j].label {
                return false;
            }
            j += 1;
        }
        i += 1;
    }
    true
}

fn channel_keys(v: &Vec<Channel>) -> (keys: Vec<i128>)
    ensures
        keys.len() == v.len(),
        forall|i: int|
            0 <= i < v.len() ==> #[trigger] keys@[i] == crate::model::rank(v@[i].label@),
{
    let mut keys: Vec<i128> = Vec::new();
    let mut i: usize = 0;
    while i < v.len()
        invariant
            i <= v.len(),
            keys.len() == i,
            forall|j: int|
                0 <= j < i ==> #[trigger] keys@[j] == crate::model::rank(v@[j].label@),
        decreases v.len() - i,
    {
        keys.push(label_rank(v[i].label.as_str()) as i128);
        i += 1;
    }
    keys
}

fn sort_channels(v: Vec<Channel>) -> (r: Vec<Channel>)
    ensures
        crate::model::channel_views(r@) == crate::sort::sort_by(
            crate::model::channel_views(v@),
            channel_rank(),
        ),
{
    let keys = channel_keys(&v);
    let ghost raw_key = |c: Channel| crate::model::rank(c.label@);
    let ghost to_view = |c: Channel| c@;
    proof {
        crate::sort::sort_commutes_with_map(v@, raw_key, to_view, channel_rank());
        assert(crate::model::channel_views(v@) == v@.map_values(to_view));
    }
    let r = sort_stable(v, keys, Ghost(raw_key));
    proof {
        assert(crate::model::channel_views(r@) == r@.map_values(to_view));
    }
    r
}

/// The channels of all segments.
pub open spec fn all_channels(s: Seq<crate::model::SegmentView>) -> vstd::multiset::Multiset<
    crate::model::ChannelView,
>
    decreases s.len(),
{
    if s.len() == 0 {
        vstd::multiset::Multiset::empty()
    } else {
        all_channels(s.drop_last()).add(s.last().channels.to_multiset())
    }
}

/// Merging loses no channel and adds none.
pub proof fn merging_keeps_every_channel(s: Seq<crate::model::SegmentView>)
    ensures
        all_channels(fuzzy_merged(s)) == all_channels(s),
    decreases s.len(),
{
    if s.len() > 0 {
        let u = s.drop_last();
        let before = fuzzy_merged(u);
        merging_keeps_every_channel(u);
        if before.len() > 0 && same_recording(before.last(), s.last()) {
            let a = before.last().channels;
            let b = s.last().channels;
            let c = combined(before.last(), s.last());
            crate::sort::sort_is_permutation(a + b, channel_rank());
            vstd::seq_lib::lemma_multiset_commutative(a, b);
            let after = before.drop_last().push(c);
            assert(after.drop_last() == before.drop_last());
            assert(all_channels(after) == all_channels(before.drop_last()).add(
                c.channels.to_multiset(),
            ));
            assert(all_channels(after) =~= all_channels(before).add(b.to_multiset()));
        } else {
            let after = before.push(s.last());
            assert(after.drop_last() == before);
        }
    }
}

/// No segment belongs to the recording of the segment before it.
pub open spec fn is_settled(s: Seq<crate::model::SegmentView>) -> bool {
    forall|i: int, k: int|
        0 <= i < k < s.len() && k == i + 1 ==> !same_recording(#[trigger] s[i], #[trigger] s[k])
}

/// What has no label in common with two segments put together has none in common
/// with the first.
proof fn lemma_first_apart(
    p: crate::model::SegmentView,
    a: crate::model::SegmentView,
    b: crate::model::SegmentView,
)
    requires
        labels_disjoint(p.channels, combined(a, b).channels),
    ensures
        labels_disjoint(p.channels, a.channels),
{
    broadcast use vstd::seq_lib::group_to_multiset_ensures;

    let both = a.channels + b.channels;
    let c = combined(a, b).channels;
    crate::sort::sort_is_permutation(both, channel_rank());
    assert forall|i: int, j: int| 0 <= i < p.channels.len() && 0 <= j < a.channels.len() implies (
    #[trigger] p.channels[i]).label != (#[trigger] a.channels[j]).label by {
        assert(both[j] == a.channels[j]);
        assert(both.contains(both[j]));
        assert(both.to_multiset().contains(both[j]));
        assert(c.to_multiset().contains(both[j]));
        assert(c.contains(both[j]));
        let k = choose|k: int| 0 <= k < c.len() && c[k] == both[j];
        assert(p.channels[i].label != c[k].label);
    }
}

proof fn lemma_merged_is_settled(s: Seq<crate::model::SegmentView>)
    ensures
        is_settled(fuzzy_merged(s)),
    decreases s.len(),
{
    if s.len() > 0 {
        let before = fuzzy_merged(s.drop_last());
        let r = fuzzy_merged(s);
        lemma_merged_is_settled(s.drop_last());
        assert forall|i: int, k: int| 0 <= i < k < r.len() && k == i + 1 implies !same_recording(
            #[trigger] r[i],
            #[trigger] r[k],
        ) by {
            assert(r[i] == before[i]);
            if k < before.len() {
                assert(!same_recording(before[i], before[k]));
                if k < r.len() - 1 {
                    assert(r[k] == before[k]);
                } else if r.len() == before.len() {
                    if same_recording(before[i], combined(before[k], s.last())) {
                        lemma_first_apart(before[i], before[k], s.last());
                    }
                }
            }
        }
    }
}

proof fn lemma_settled_stays(s: Seq<crate::model::SegmentView>)
    requires
        is_settled(s),
    ensures
        fuzzy_merged(s) == s,
    decreases s.len(),
{
    if s.len() > 0 {
        let u = s.drop_last();
        assert forall|i: int, k: int| 0 <= i < k < u.len() && k == i + 1 implies !same_recording(
            #[trigger] u[i],
            #[trigger] u[k],
        ) by {
            assert(!same_recording(s[i], s[k]));
        }
        lemma_settled_stays(u);
        if u.len() > 0 {
            assert(!same_recording(s[u.len() - 1], s[u.len() as int]));
        }
        assert(u.push(s.last()) == s);
    }
}

/// Merging is done in one pass: afterwards no segment belongs to the recording
/// of the one before it, and a second pass changes nothing.
pub proof fn merging_settles(s: Seq<crate::model::SegmentView>)
    ensures
        is_settled(fuzzy_merged(s)),
        fuzzy_merged(fuzzy_merged(s)) == fuzzy_merged(s),
{
    lemma_merged_is_settled(s);
    lemma_settled_stays(fuzzy_merged(s));
}

/// The segments by the recording that they are merged into.
pub open spec fn recordings(s: Seq<crate::model::SegmentView>) -> Seq<
    Seq<crate::model::SegmentView>,
>
    decreases s.len(),
{
    if s.len() == 0 {
        Seq::empty()
    } else {
        let before = recordings(s.drop_last());
        let merged = fuzzy_merged(s.drop_last());
        if merged.len() > 0 && same_recording(merged.last(), s.last()) {
            before.drop_last().push(before.last().push(s.last()))
        } else {
            before.push(seq![s.last()])
        }
    }
}

/// The segment is the first of the members with the channels of all of them.
pub open spec fn is_recording_of(
    m: crate::model::SegmentView,
    members: Seq<crate::model::SegmentView>,
) -> bool {
    &&& members.len() > 0
    &&& m == (crate::model::SegmentView { channels: m.channels, ..members[0] })
    &&& m.channels.to_multiset() == all_channels(members)
}

/// Each merged segment is the first of those that it was made of, with its
/// identifier and its start, and has the channels of all of them. The segments
/// that went into the merged ones, one after the other, are all segments.
pub proof fn merged_segments_are_their_first(s: Seq<crate::model::SegmentView>)
    ensures
        recordings(s).flatten() == s,
        recordings(s).len() == fuzzy_merged(s).len(),
        forall|i: int|
            0 <= i < fuzzy_merged(s).len() ==> is_recording_of(
                #[trigger] fuzzy_merged(s)[i],
                recordings(s)[i],
            ),
    decreases s.len(),
{
    if s.len() == 0 {
        assert(recordings(s).flatten() == s);
    } else {
        let u = s.drop_last();
        let x = s.last();
        let before = recordings(u);
        let merged = fuzzy_merged(u);
        merged_segments_are_their_first(u);
        let r = recordings(s);
        let f = fuzzy_merged(s);
        if merged.len() > 0 && same_recording(merged.last(), x) {
            let k = merged.len() - 1;
            let grown = before.last().push(x);
            before.drop_last().lemma_flatten_push(before.last());
            assert(before == before.drop_last().push(before.last()));
            before.drop_last().lemma_flatten_push(grown);
            assert(r.flatten() == u.push(x));
            assert(is_recording_of(merged[k], before[k]));
            crate::sort::sort_is_permutation(merged[k].channels + x.channels, channel_rank());
            vstd::seq_lib::lemma_multiset_commutative(merged[k].channels, x.channels);
            assert(grown.drop_last() == before[k]);
            assert(grown[0] == before[k][0]);
            assert(f[k].channels.to_multiset() == all_channels(grown));
            assert(is_recording_of(f[k], r[k]));
        } else {
            let one = seq![x];
            before.lemma_flatten_push(one);
            assert(r.flatten() == u + one);
            assert(all_channels(one.drop_last()) == vstd::multiset::Multiset::<
                crate::model::ChannelView,
            >::empty());
            assert(one.last() == x);
            assert(all_channels(one) =~= x.channels.to_multiset());
            assert(is_recording_of(f[merged.len() as int], r[merged.len() as int]));
        }
        assert forall|i: int| 0 <= i < f.len() implies is_recording_of(#[trigger] f[i], r[i]) by {
            if i < f.len() - 1 {
                assert(f[i] == merged[i]);
                assert(r[i] == before[i]);
            }
        }
        assert(u.push(x) == s);
        assert(u + seq![x] == s);
    }
}

/// Where the segments are in the order of time, so are the merged ones, and the
/// first segment of a recording is its earliest.
pub proof fn merging_keeps_the_order(s: Seq<crate::model::SegmentView>)
    requires
        crate::sort::is_sorted(s, start_order()),
    ensures
        crate::sort::is_sorted(fuzzy_merged(s), start_order()),
        recordings(s).len() == fuzzy_merged(s).len(),
        forall|i: int, k: int|
            0 <= i < recordings(s).len() && 0 <= k < recordings(s)[i].len()
                ==> fuzzy_merged(s)[i].start_time.order() <= (
            #[trigger] recordings(s)[i][k]).start_time.order() <= s.last().start_time.order(),
    decreases s.len(),
{
    if s.len() > 0 {
        let u = s.drop_last();
        let x = s.last();
        assert forall|i: int, j: int| 0 <= i <= j < u.len() implies start_order()(#[trigger] u[i])
            <= start_order()(#[trigger] u[j]) by {
            assert(start_order()(s[i]) <= start_order()(s[j]));
        }
        merging_keeps_the_order(u);
        merged_segments_are_their_first(u);
        merged_segments_are_their_first(s);
        let before = recordings(u);
        let merged = fuzzy_merged(u);
        let r = recordings(s);
        let f = fuzzy_merged(s);
        if u.len() > 0 {
            assert(start_order()(s[u.len() - 1]) <= start_order()(s[u.len() as int]));
        }
        assert forall|i: int| 0 <= i < merged.len() implies (
        #[trigger] merged[i]).start_time.order() <= x.start_time.order() by {
            assert(is_recording_of(merged[i], before[i]));
            assert(before[i][0].start_time.order() <= u.last().start_time.order());
        }
        assert forall|i: int| 0 <= i < f.len() implies (#[trigger] f[i]).start_time.order()
            <= x.start_time.order() && (i < merged.len() ==> f[i].start_time
            == merged[i].start_time) by {
            if i < merged.len() {
                assert(merged[i].start_time.order() <= x.start_time.order());
            }
        }
        assert forall|i: int, j: int| 0 <= i <= j < f.len() implies start_order()(#[trigger] f[i])
            <= start_order()(#[trigger] f[j]) by {
            if j < merged.len() {
                assert(start_order()(merged[i]) <= start_order()(merged[j]));
            } else {
                assert(f[j] == x);
            }
        }
        assert forall|i: int, k: int| 0 <= i < r.len() && 0 <= k < r[i].len() implies
            f[i].start_time.order() <= (#[trigger] r[i][k]).start_time.order()
            <= x.start_time.order() by {
            assert(f[i].start_time.order() <= x.start_time.order());
            if i < before.len() && k < before[i].len() {
                assert(r[i][k] == before[i][k]);
                assert(merged[i].start_time.order() <= before[i][k].start_time.order());
            } else {
                assert(r[i][k] == x);
            }
        }
    }
}

/// Merges segments whose cameras stamped one recording a little apart.
pub fn merge_fuzzy_neighbors(segments: Vec<Segment>) -> (r: Vec<Segment>)
    ensures
        crate::model::segment_views(r@) == fuzzy_merged(crate::model::segment_views(segments@)),
{
    let ghost raw = segments@;
    let ghost all = crate::model::segment_views(raw);
    let mut out: Vec<Segment> = Vec::new();
    let ghost mut n: int = 0;
    proof {
        assert(all.take(0).len() == 0);
        assert(crate::model::segment_views(out@) == fuzzy_merged(all.take(0)));
    }
    for seg in it: segments
        invariant
            it.seq() == raw,
            n == it.index(),
            all == crate::model::segment_views(raw),
            crate::model::segment_views(out@) == fuzzy_merged(all.take(n as int)),
    {
        let ghost before = crate::model::segment_views(out@);
        let ghost sv = seg@;
        proof {
            assert(all[n as int] == sv);
            assert(all.take(n + 1).drop_last() == all.take(n as int));
            assert(all.take(n + 1).last() == sv);
        }
        let joins = if out.len() > 0 {
            let last = &out[out.len() - 1];
            proof {
                assert(before.last() == out@[out@.len() - 1]@);
            }
            let delta: i128 = seg.start_time.distance(last.start_time);
            delta <= SEGMENT_FUZZY_WINDOW_S as i128 && last.is_event == seg.is_event
                && disjoint_labels(&last.channels, &seg.channels)
        } else {
            false
        };
        if joins {
            let ghost out0 = out@;
            match out.pop() {
                Some(last) => {
                    let ghost lv = last@;
                    let mut all_channels = last.channels;
                    let mut more = seg.channels;
                    let ghost c1 = all_channels@;
                    let ghost c2 = more@;
                    all_channels.append(&mut more);
                    proof {
                        assert(crate::model::channel_views(all_channels@)
                            == crate::model::channel_views(c1) + crate::model::channel_views(c2));
                    }
                    let sorted = sort_channels(all_channels);
                    let merged = Segment {
                        id: last.id,
                        start_time: last.start_time,
                        duration_ms: last.duration_ms,
                        is_event: last.is_event,
                        channels: sorted,
                        camera_kind: last.camera_kind,
                        gps_supported: last.gps_supported,
                        size_bytes: last.size_bytes,
                        is_tombstone: last.is_tombstone,
                    };
                    let ghost mv = merged@;
                    let ghost rest = out@;
                    out.push(merged);
                    proof {
                        assert(mv == combined(before.last(), sv));
                        assert(crate::model::segment_views(rest) == before.drop_last());
                        assert(crate::model::segment_views(out@) == before.drop_last().push(mv));
                    }
                },
                None => {},
            }
        } else {
            let ghost rest = out@;
            out.push(seg);
            proof {
                assert(crate::model::segment_views(out@) == before.push(sv));
            }
        }
        proof {
            n = n + 1;
        }
    }
    proof {
        assert(all.take(all.len() as int) == all);
    }
    out
}

// ------------------------------------------------------------------- trips

/// The whole seconds that a segment is taken to last.
pub open spec fn lasting_seconds(s: crate::model::SegmentView) -> int {
    if s.duration_ms > 0 {
        s.duration_ms as int / 1000
    } else {
        ASSUMED_SEGMENT_DURATION_S as int
    }
}

/// When a segment is taken to end.
pub open spec fn end_of(s: crate::model::SegmentView) -> Moment {
    s.start_time.after(lasting_seconds(s))
}

/// The end of the segment lies within the calendar.
pub open spec fn has_end(s: crate::model::SegmentView) -> bool {
    s.start_time.secs + lasting_seconds(s) <= crate::moment::LAST_SECOND && s.start_time.nanos < 2
        * crate::moment::NANOS
}

/// The seconds of pause between a segment and the one after it.
pub open spec fn pause(a: crate::model::SegmentView, b: crate::model::SegmentView) -> int {
    b.start_time.seconds_since_spec(end_of(a))
}

/// The segments in runs without a pause of more than `gap` seconds.
pub open spec fn runs(s: Seq<crate::model::SegmentView>, gap: int) -> Seq<
    Seq<crate::model::SegmentView>,
>
    decreases s.len(),
{
    if s.len() == 0 {
        Seq::empty()
    } else {
        let before = runs(s.drop_last(), gap);
        if before.len() > 0 && pause(before.last().last(), s.last()) <= gap {
            before.drop_last().push(before.last().push(s.last()))
        } else {
            before.push(seq![s.last()])
        }
    }
}

/// The trip of a run of segments.
pub open spec fn trip_of(run: Seq<crate::model::SegmentView>) -> crate::model::TripView {
    crate::model::TripView {
        id: crate::ids::trip_id(run[0].id),
        start_time: run[0].start_time,
        end_time: end_of(run.last()),
        segments: run,
        camera_kind: run[0].camera_kind,
        gps_supported: run[0].gps_supported,
        archive_only: false,
    }
}

/// The trips of the segments.
pub open spec fn trips_of(s: Seq<crate::model::SegmentView>, gap: int) -> Seq<
    crate::model::TripView,
> {
    runs(s, gap).map_values(|run: Seq<crate::model::SegmentView>| trip_of(run))
}

proof fn lemma_runs_nonempty(s: Seq<crate::model::SegmentView>, gap: int)
    ensures
        s.len() > 0 ==> runs(s, gap).len() > 0,
        forall|i: int| 0 <= i < runs(s, gap).len() ==> (#[trigger] runs(s, gap)[i]).len() > 0,
        s.len() > 0 ==> runs(s, gap).last().last() == s.last(),
    decreases s.len(),
{
    if s.len() > 0 {
        let before = runs(s.drop_last(), gap);
        let r = runs(s, gap);
        lemma_runs_nonempty(s.drop_last(), gap);
        assert forall|i: int| 0 <= i < r.len() implies (#[trigger] r[i]).len() > 0 by {
            if i < r.len() - 1 {
                assert(r[i] == before[i]);
            }
        }
    }
}

/// Trips lose no segment and keep their order: the segments of the trips, one
/// trip after the other, are the segments that were given.
pub proof fn trips_partition_the_segments(s: Seq<crate::model::SegmentView>, gap: int)
    ensures
        runs(s, gap).flatten() == s,
    decreases s.len(),
{
    if s.len() == 0 {
        assert(runs(s, gap).flatten() == s);
    } else {
        let t = s.drop_last();
        let before = runs(t, gap);
        trips_partition_the_segments(t, gap);
        lemma_runs_nonempty(t, gap);
        if before.len() > 0 && pause(before.last().last(), s.last()) <= gap {
            let grown = before.last().push(s.last());
            before.drop_last().lemma_flatten_push(before.last());
            assert(before == before.drop_last().push(before.last()));
            before.drop_last().lemma_flatten_push(grown);
            assert(runs(s, gap).flatten() == before.drop_last().flatten() + grown);
            assert(before.flatten() == before.drop_last().flatten() + before.last());
            assert(runs(s, gap).flatten() == t.push(s.last()));
        } else {
            before.lemma_flatten_push(seq![s.last()]);
            assert(runs(s, gap).flatten() == t + seq![s.last()]);
        }
        assert(t.push(s.last()) == s);
    }
}

/// No pause within the run is longer than the gap.
pub open spec fn is_tight(run: Seq<crate::model::SegmentView>, gap: int) -> bool {
    forall|j: int, k: int|
        0 <= j < k < run.len() && k == j + 1 ==> pause(#[trigger] run[j], #[trigger] run[k]) <= gap
}

/// The pause between each run and the next is longer than the gap.
pub open spec fn are_apart(r: Seq<Seq<crate::model::SegmentView>>, gap: int) -> bool {
    forall|i: int, k: int|
        0 <= i < k < r.len() && k == i + 1 ==> pause((#[trigger] r[i]).last(), (#[trigger] r[k])[0])
            > gap
}

/// Within a trip no pause is longer than the gap; from one trip to the next it
/// is longer.
pub proof fn trips_split_at_long_pauses(s: Seq<crate::model::SegmentView>, gap: int)
    ensures
        forall|i: int| 0 <= i < runs(s, gap).len() ==> is_tight(#[trigger] runs(s, gap)[i], gap),
        are_apart(runs(s, gap), gap),
    decreases s.len(),
{
    if s.len() > 0 {
        let t = s.drop_last();
        let before = runs(t, gap);
        let r = runs(s, gap);
        trips_split_at_long_pauses(t, gap);
        lemma_runs_nonempty(t, gap);
        let joined = before.len() > 0 && pause(before.last().last(), s.last()) <= gap;
        assert forall|i: int| 0 <= i < r.len() implies is_tight(#[trigger] r[i], gap) by {
            if i < r.len() - 1 {
                assert(r[i] == before[i]);
            } else if joined {
                let old_run = before[i];
                assert(is_tight(old_run, gap));
                assert forall|j: int, k: int| 0 <= j < k < r[i].len() && k == j + 1 implies pause(
                    #[trigger] r[i][j],
                    #[trigger] r[i][k],
                ) <= gap by {
                    assert(r[i][j] == old_run[j]);
                    if k < old_run.len() {
                        assert(r[i][k] == old_run[k]);
                    }
                }
            }
        }
        assert forall|i: int, k: int| 0 <= i < k < r.len() && k == i + 1 implies pause(
            (#[trigger] r[i]).last(),
            (#[trigger] r[k])[0],
        ) > gap by {
            assert(r[i] == before[i]);
            if k < before.len() {
                assert(before[k].len() > 0);
                assert(r[k][0] == before[k][0]);
            }
        }
    }
}

fn end_time(s: &Segment) -> (m: Moment)
    requires
        has_end(s@),
    ensures
        m == end_of(s@),
{
    let seconds: i64 = if s.duration_ms > 0 {
        s.duration_ms / 1000
    } else {
        ASSUMED_SEGMENT_DURATION_S
    };
    s.start_time.later(seconds)
}

fn close_trip(segments: Vec<Segment>) -> (t: Trip)
    requires
        segments.len() > 0,
        has_end(segments@.last()@),
    ensures
        t@ == trip_of(crate::model::segment_views(segments@)),
{
    let ghost views = crate::model::segment_views(segments@);
    proof {
        assert(views[0] == segments@[0]@);
        assert(views.last() == segments@.last()@);
    }
    let start_time = segments[0].start_time;
    let end_time = end_time(&segments[segments.len() - 1]);
    let id = derive_trip_id(segments[0].id);
    let camera_kind = segments[0].camera_kind;
    let gps_supported = segments[0].gps_supported;
    Trip { id, start_time, end_time, segments, camera_kind, gps_supported, archive_only: false }
}

/// Cuts the segments into trips wherever the pause is longer than the gap.
pub fn merge_into_trips(segments: Vec<Segment>, trip_gap_s: i64) -> (r: Vec<Trip>)
    requires
        forall|i: int| 0 <= i < segments.len() ==> has_end((#[trigger] segments@[i])@),
    ensures
        crate::model::trip_views(r@) == trips_of(
            crate::model::segment_views(segments@),
            trip_gap_s as int,
        ),
{
    let ghost raw = segments@;
    let ghost all = crate::model::segment_views(raw);
    let ghost gap = trip_gap_s as int;
    let mut trips: Vec<Trip> = Vec::new();
    let mut current: Vec<Segment> = Vec::new();
    let ghost mut n: int = 0;
    for seg in it: segments
        invariant
            it.seq() == raw,
            n == it.index(),
            gap == trip_gap_s,
            all == crate::model::segment_views(raw),
            forall|i: int| 0 <= i < raw.len() ==> has_end((#[trigger] raw[i])@),
            n > 0 <==> current.len() > 0,
            n == 0 ==> trips.len() == 0,
            current.len() > 0 ==> has_end(current@.last()@),
            current.len() > 0 ==> runs(all.take(n as int), gap).len() > 0
                && crate::model::segment_views(current@) == runs(all.take(n as int), gap).last()
                && crate::model::trip_views(trips@) == runs(
                all.take(n as int),
                gap,
            ).drop_last().map_values(|run: Seq<crate::model::SegmentView>| trip_of(run)),
    {
        let ghost sv = seg@;
        let ghost before = runs(all.take(n as int), gap);
        let ghost cur0 = crate::model::segment_views(current@);
        proof {
            assert(all[n as int] == sv);
            assert(has_end(raw[n as int]@));
            assert(all.take(n + 1).drop_last() == all.take(n as int));
            assert(all.take(n + 1).last() == sv);
            if n == 0 {
                assert(all.take(0).len() == 0);
            }
        }
        let splits = if current.len() > 0 {
            let prev_end = end_time(&current[current.len() - 1]);
            proof {
                assert(cur0.last() == current@.last()@);
            }
            let pause: i128 = seg.start_time.seconds_since(prev_end);
            pause > trip_gap_s as i128
        } else {
            false
        };
        if splits {
            let ghost trips0 = crate::model::trip_views(trips@);
            let ghost done = trips@;
            let t = close_trip(current);
            let ghost tv = t@;
            trips.push(t);
            current = Vec::new();
            current.push(seg);
            proof {
                let after = runs(all.take(n + 1), gap);
                assert(after == before.push(seq![sv]));
                assert(after.drop_last() == before);
                assert(crate::model::segment_views(current@) == seq![sv]);
                assert(crate::model::trip_views(trips@) == trips0.push(tv));
                assert(tv == trip_of(before.last()));
                assert(crate::model::trip_views(trips@) == before.map_values(
                    |run: Seq<crate::model::SegmentView>| trip_of(run),
                ));
            }
        } else {
            let ghost cur_raw = current@;
            current.push(seg);
            proof {
                let after = runs(all.take(n + 1), gap);
                assert(crate::model::segment_views(current@) == cur0.push(sv));
                if n == 0 {
                    assert(before.len() == 0);
                    assert(after == before.push(seq![sv]));
                    assert(after.last() == seq![sv]);
                    assert(cur0.push(sv) == seq![sv]);
                    assert(after.drop_last() == before);
                    assert(crate::model::trip_views(trips@) == after.drop_last().map_values(
                        |run: Seq<crate::model::SegmentView>| trip_of(run),
                    ));
                } else {
                    assert(after == before.drop_last().push(before.last().push(sv)));
                    assert(after.drop_last() == before.drop_last());
                }
            }
        }
        proof {
            n = n + 1;
        }
    }
    proof {
        assert(all.take(all.len() as int) == all);
    }
    if current.len() > 0 {
        let ghost trips0 = crate::model::trip_views(trips@);
        let t = close_trip(current);
        let ghost tv = t@;
        trips.push(t);
        proof {
            let done = runs(all, gap);
            assert(crate::model::trip_views(trips@) == trips0.push(tv));
            assert(done == done.drop_last().push(done.last()));
            assert(crate::model::trip_views(trips@) == trips_of(all, gap));
        }
    } else {
        proof {
            assert(all.len() == 0);
            assert(crate::model::trip_views(trips@) == trips_of(all, gap));
        }
    }
    trips
}

// ---------------------------------------------------------------- grouping

/// The place of a segment in the order of time.
pub open spec fn start_order() -> spec_fn(crate::model::SegmentView) -> int {
    |s: crate::model::SegmentView| s.start_time.order()
}

/// The segments of the files in the order of time, one for each group key.
pub open spec fn segments_in_order(items: Seq<InputView>) -> Seq<crate::model::SegmentView> {
    crate::sort::sort_by(
        buckets_of(items).map_values(|b: Seq<InputView>| segment_of(b)),
        start_order(),
    )
}

/// The trips of the files.
pub open spec fn grouped(items: Seq<InputView>, gap: int) -> Seq<crate::model::TripView> {
    trips_of(fuzzy_merged(segments_in_order(items)), gap)
}

fn start_keys(v: &Vec<Segment>) -> (keys: Vec<i128>)
    ensures
        keys.len() == v.len(),
        forall|i: int| 0 <= i < v.len() ==> #[trigger] keys@[i] == v@[i].start_time.order(),
{
    let mut keys: Vec<i128> = Vec::new();
    let mut i: usize = 0;
    while i < v.len()
        invariant
            i <= v.len(),
            keys.len() == i,
            forall|j: int| 0 <= j < i ==> #[trigger] keys@[j] == v@[j].start_time.order(),
        decreases v.len() - i,
    {
        keys.push(v[i].start_time.order_key());
        i += 1;
    }
    keys
}

/// Puts segments in the order of time.
pub fn sort_segments(v: Vec<Segment>) -> (r: Vec<Segment>)
    ensures
        crate::model::segment_views(r@) == crate::sort::sort_by(
            crate::model::segment_views(v@),
            start_order(),
        ),
{
    let keys = start_keys(&v);
    let ghost raw_key = |s: Segment| s.start_time.order();
    let ghost to_view = |s: Segment| s@;
    proof {
        crate::sort::sort_commutes_with_map(v@, raw_key, to_view, start_order());
        assert(crate::model::segment_views(v@) == v@.map_values(to_view));
    }
    let r = sort_stable(v, keys, Ghost(raw_key));
    proof {
        assert(crate::model::segment_views(r@) == r@.map_values(to_view));
    }
    r
}

/// A start that leaves room for a segment of the assumed duration.
pub open spec fn start_has_room(m: Moment) -> bool {
    m.secs + ASSUMED_SEGMENT_DURATION_S <= crate::moment::LAST_SECOND && m.nanos < 2
        * crate::moment::NANOS
}

proof fn lemma_earliest_in(bucket: Seq<InputView>)
    requires
        bucket.len() > 0,
    ensures
        exists|i: int| 0 <= i < bucket.len() && earliest(bucket) == (#[trigger] bucket[i]).parsed.start,
    decreases bucket.len(),
{
    if bucket.len() > 1 {
        lemma_earliest_in(bucket.drop_last());
        let k = choose|i: int|
            0 <= i < bucket.drop_last().len() && earliest(bucket.drop_last()) == (
            #[trigger] bucket.drop_last()[i]).parsed.start;
        assert(bucket[k] == bucket.drop_last()[k]);
        assert(bucket[bucket.len() - 1] == bucket.last());
    } else {
        assert(earliest(bucket) == bucket[0].parsed.start);
    }
}

/// Every file of every bucket is one of the given files.
proof fn lemma_bucket_files(items: Seq<InputView>)
    ensures
        forall|i: int, k: int|
            0 <= i < buckets_of(items).len() && 0 <= k < buckets_of(items)[i].len()
                ==> items.contains(#[trigger] buckets_of(items)[i][k]),
    decreases items.len(),
{
    if items.len() > 0 {
        let t = items.drop_last();
        let b = buckets_of(t);
        let r = buckets_of(items);
        let x = items.last();
        lemma_bucket_files(t);
        lemma_bucket_at(b, x.parsed.key, 0);
        let at = bucket_at(b, x.parsed.key, 0);
        assert forall|i: int, k: int| 0 <= i < r.len() && 0 <= k < r[i].len() implies items.contains(
            #[trigger] r[i][k],
        ) by {
            if i < b.len() && k < b[i].len() {
                assert(r[i][k] == b[i][k]);
                assert(t.contains(b[i][k]));
                let m = choose|m: int| 0 <= m < t.len() && t[m] == b[i][k];
                assert(items[m] == r[i][k]);
            } else {
                assert(r[i][k] == x);
                assert(items[items.len() - 1] == x);
            }
        }
    }
}

/// Merging neighbours keeps starts and durations as they are.
proof fn lemma_fuzzy_has_end(s: Seq<crate::model::SegmentView>)
    requires
        forall|i: int| 0 <= i < s.len() ==> has_end(#[trigger] s[i]),
    ensures
        forall|i: int| 0 <= i < fuzzy_merged(s).len() ==> has_end(#[trigger] fuzzy_merged(s)[i]),
    decreases s.len(),
{
    if s.len() > 0 {
        let t = s.drop_last();
        assert forall|i: int| 0 <= i < t.len() implies has_end(#[trigger] t[i]) by {
            assert(t[i] == s[i]);
        }
        lemma_fuzzy_has_end(t);
        assert(has_end(s[s.len() - 1]));
        let before = fuzzy_merged(t);
        let r = fuzzy_merged(s);
        assert forall|i: int| 0 <= i < r.len() implies has_end(#[trigger] r[i]) by {
            if i < r.len() - 1 {
                assert(r[i] == before[i]);
            } else if r.len() == before.len() {
                assert(has_end(before[i]));
            }
        }
    }
}

proof fn lemma_sorted_has_end(s: Seq<crate::model::SegmentView>)
    requires
        forall|i: int| 0 <= i < s.len() ==> has_end(#[trigger] s[i]),
    ensures
        forall|i: int|
            0 <= i < crate::sort::sort_by(s, start_order()).len() ==> has_end(
                #[trigger] crate::sort::sort_by(s, start_order())[i],
            ),
{
    broadcast use vstd::seq_lib::group_to_multiset_ensures;

    let r = crate::sort::sort_by(s, start_order());
    crate::sort::sort_is_permutation(s, start_order());
    assert forall|i: int| 0 <= i < r.len() implies has_end(#[trigger] r[i]) by {
        assert(r.contains(r[i]));
        assert(r.to_multiset().contains(r[i]));
        assert(s.contains(r[i]));
        let m = choose|m: int| 0 <= m < s.len() && s[m] == r[i];
        assert(has_end(s[m]));
    }
}

/// The channels of the files.
pub open spec fn file_channels(items: Seq<InputView>) -> vstd::multiset::Multiset<
    crate::model::ChannelView,
> {
    items.map_values(|i: InputView| channel_of(i)).to_multiset()
}

/// The channels of all trips.
pub open spec fn trip_channels(trips: Seq<crate::model::TripView>) -> vstd::multiset::Multiset<
    crate::model::ChannelView,
>
    decreases trips.len(),
{
    if trips.len() == 0 {
        vstd::multiset::Multiset::empty()
    } else {
        trip_channels(trips.drop_last()).add(all_channels(trips.last().segments))
    }
}

/// No two files have both one group key and one label.
pub open spec fn channels_differ(items: Seq<InputView>) -> bool {
    forall|i: int, j: int|
        0 <= i < j < items.len() && (#[trigger] items[i]).parsed.key == (
        #[trigger] items[j]).parsed.key ==> items[i].parsed.label != items[j].parsed.label
}

/// No two files have one label.
spec fn labels_differ(items: Seq<InputView>) -> bool {
    forall|i: int, j: int|
        0 <= i < j < items.len() ==> (#[trigger] items[i]).parsed.label != (
        #[trigger] items[j]).parsed.label
}

/// The channels of the files in all buckets.
spec fn bucket_channels(b: Seq<Seq<InputView>>) -> vstd::multiset::Multiset<
    crate::model::ChannelView,
>
    decreases b.len(),
{
    if b.len() == 0 {
        vstd::multiset::Multiset::empty()
    } else {
        bucket_channels(b.drop_last()).add(file_channels(b.last()))
    }
}

proof fn lemma_file_channels_push(items: Seq<InputView>, x: InputView)
    ensures
        file_channels(items.push(x)) == file_channels(items).insert(channel_of(x)),
{
    broadcast use vstd::seq_lib::group_to_multiset_ensures;

    let f = |i: InputView| channel_of(i);
    assert(items.push(x).map_values(f) == items.map_values(f).push(channel_of(x)));
}

proof fn lemma_bucket_channels_update(b: Seq<Seq<InputView>>, i: int, x: InputView)
    requires
        0 <= i < b.len(),
    ensures
        bucket_channels(b.update(i, b[i].push(x))) == bucket_channels(b).insert(channel_of(x)),
    decreases b.len(),
{
    let r = b.update(i, b[i].push(x));
    if i == b.len() - 1 {
        assert(r.drop_last() == b.drop_last());
        lemma_file_channels_push(b[i], x);
    } else {
        assert(r.drop_last() == b.drop_last().update(i, b.drop_last()[i].push(x)));
        assert(r.last() == b.last());
        lemma_bucket_channels_update(b.drop_last(), i, x);
    }
    assert(bucket_channels(r) =~= bucket_channels(b).insert(channel_of(x)));
}

proof fn lemma_buckets_channels(items: Seq<InputView>)
    ensures
        bucket_channels(buckets_of(items)) == file_channels(items),
    decreases items.len(),
{
    broadcast use vstd::seq_lib::group_to_multiset_ensures;

    if items.len() == 0 {
        assert(items.map_values(|i: InputView| channel_of(i)).len() == 0);
        assert(file_channels(items) =~= vstd::multiset::Multiset::empty());
    } else {
        let u = items.drop_last();
        let b = buckets_of(u);
        let x = items.last();
        lemma_buckets_channels(u);
        lemma_bucket_at(b, x.parsed.key, 0);
        let i = bucket_at(b, x.parsed.key, 0);
        assert(u.push(x) == items);
        lemma_file_channels_push(u, x);
        if i < b.len() {
            lemma_bucket_channels_update(b, i, x);
        } else {
            let r = b.push(seq![x]);
            assert(r.drop_last() == b);
            let none = Seq::<InputView>::empty();
            assert(none.push(x) == seq![x]);
            lemma_file_channels_push(none, x);
            assert(none.map_values(|i: InputView| channel_of(i)).len() == 0);
            assert(file_channels(none) =~= vstd::multiset::Multiset::empty());
            assert(bucket_channels(r) =~= file_channels(items));
        }
    }
}

proof fn lemma_bucket_labels(items: Seq<InputView>)
    requires
        channels_differ(items),
    ensures
        forall|i: int|
            0 <= i < buckets_of(items).len() ==> labels_differ(#[trigger] buckets_of(items)[i]),
    decreases items.len(),
{
    if items.len() > 0 {
        let u = items.drop_last();
        let b = buckets_of(u);
        let x = items.last();
        let r = buckets_of(items);
        assert forall|i: int, j: int| 0 <= i < j < u.len() && (#[trigger] u[i]).parsed.key == (
        #[trigger] u[j]).parsed.key implies u[i].parsed.label != u[j].parsed.label by {
            assert(items[i] == u[i] && items[j] == u[j]);
        }
        lemma_bucket_labels(u);
        buckets_are_by_key(u);
        lemma_bucket_files(u);
        lemma_bucket_at(b, x.parsed.key, 0);
        let at = bucket_at(b, x.parsed.key, 0);
        assert forall|i: int| 0 <= i < r.len() implies labels_differ(#[trigger] r[i]) by {
            if i < b.len() {
                assert(labels_differ(b[i]));
                if i == at {
                    assert forall|k: int| 0 <= k < b[i].len() implies (
                    #[trigger] b[i][k]).parsed.label != x.parsed.label by {
                        assert(u.contains(b[i][k]));
                        let m = choose|m: int| 0 <= m < u.len() && u[m] == b[i][k];
                        assert(items[m] == b[i][k]);
                        assert(items[items.len() - 1] == x);
                        assert(b[i][k].parsed.key == b[i][0].parsed.key);
                    }
                }
            }
        }
    }
}

proof fn lemma_no_repeats(s: Seq<InputView>)
    ensures
        file_channels(without_repeats(s)).subset_of(file_channels(s)),
        labels_differ(s) ==> without_repeats(s) == s,
    decreases s.len(),
{
    if s.len() > 0 {
        let u = s.drop_last();
        lemma_no_repeats(u);
        assert(u.push(s.last()) == s);
        lemma_file_channels_push(u, s.last());
        let kept = without_repeats(u);
        lemma_file_channels_push(kept, s.last());
        if labels_differ(s) {
            assert(labels_differ(u));
            if u.len() > 0 {
                assert(s[u.len() - 1].parsed.label != s[u.len() as int].parsed.label);
            }
        }
    }
}

proof fn lemma_sorted_labels(b: Seq<InputView>)
    requires
        labels_differ(b),
    ensures
        labels_differ(crate::sort::sort_by(b, input_rank())),
{
    let f = |i: InputView| i.parsed.label;
    let rank = |l: Seq<char>| crate::model::rank(l);
    let l = b.map_values(f);
    let s = crate::sort::sort_by(b, input_rank());
    crate::sort::sort_commutes_with_map(b, input_rank(), f, rank);
    crate::sort::sort_is_permutation(l, rank);
    assert(l.no_duplicates());
    l.lemma_multiset_has_no_duplicates();
    s.map_values(f).lemma_multiset_has_no_duplicates_conv();
    assert forall|i: int, j: int| 0 <= i < j < s.len() implies (#[trigger] s[i]).parsed.label != (
    #[trigger] s[j]).parsed.label by {
        assert(s.map_values(f)[i] != s.map_values(f)[j]);
    }
}

proof fn lemma_segment_channels(b: Seq<InputView>)
    ensures
        segment_of(b).channels.to_multiset().subset_of(file_channels(b)),
        labels_differ(b) ==> segment_of(b).channels.to_multiset() == file_channels(b),
{
    let f = |i: InputView| channel_of(i);
    let s = crate::sort::sort_by(b, input_rank());
    lemma_no_repeats(s);
    crate::sort::sort_commutes_with_map(b, input_rank(), f, channel_rank());
    crate::sort::sort_is_permutation(b.map_values(f), channel_rank());
    assert(file_channels(s) == file_channels(b));
    if labels_differ(b) {
        lemma_sorted_labels(b);
    }
}

proof fn lemma_all_channels_push(
    s: Seq<crate::model::SegmentView>,
    x: crate::model::SegmentView,
)
    ensures
        all_channels(s.push(x)) == all_channels(s).add(x.channels.to_multiset()),
{
    assert(s.push(x).drop_last() == s);
}

proof fn lemma_inserted_channels(
    s: Seq<crate::model::SegmentView>,
    x: crate::model::SegmentView,
    key: spec_fn(crate::model::SegmentView) -> int,
)
    ensures
        all_channels(crate::sort::insert_by(s, x, key)) == all_channels(s).add(
            x.channels.to_multiset(),
        ),
    decreases s.len(),
{
    if s.len() == 0 {
        assert(seq![x] == s.push(x));
        lemma_all_channels_push(s, x);
    } else if key(s.last()) <= key(x) {
        lemma_all_channels_push(s, x);
    } else {
        let u = s.drop_last();
        lemma_inserted_channels(u, x, key);
        lemma_all_channels_push(crate::sort::insert_by(u, x, key), s.last());
        assert(all_channels(crate::sort::insert_by(s, x, key)) =~= all_channels(s).add(
            x.channels.to_multiset(),
        ));
    }
}

proof fn lemma_sorted_channels(
    s: Seq<crate::model::SegmentView>,
    key: spec_fn(crate::model::SegmentView) -> int,
)
    ensures
        all_channels(crate::sort::sort_by(s, key)) == all_channels(s),
    decreases s.len(),
{
    if s.len() > 0 {
        lemma_sorted_channels(s.drop_last(), key);
        lemma_inserted_channels(crate::sort::sort_by(s.drop_last(), key), s.last(), key);
    }
}

proof fn lemma_segments_channels(b: Seq<Seq<InputView>>)
    ensures
        all_channels(b.map_values(|x: Seq<InputView>| segment_of(x))).subset_of(
            bucket_channels(b),
        ),
        (forall|i: int| 0 <= i < b.len() ==> labels_differ(#[trigger] b[i])) ==> all_channels(
            b.map_values(|x: Seq<InputView>| segment_of(x)),
        ) == bucket_channels(b),
    decreases b.len(),
{
    let f = |x: Seq<InputView>| segment_of(x);
    let s = b.map_values(f);
    if b.len() > 0 {
        assert(s.drop_last() == b.drop_last().map_values(f));
        assert(s.last() == segment_of(b.last()));
        lemma_segments_channels(b.drop_last());
        lemma_segment_channels(b.last());
        if forall|i: int| 0 <= i < b.len() ==> labels_differ(#[trigger] b[i]) {
            assert forall|i: int| 0 <= i < b.drop_last().len() implies labels_differ(
                #[trigger] b.drop_last()[i],
            ) by {
                assert(labels_differ(b[i]));
            }
            assert(labels_differ(b[b.len() - 1]));
        }
    }
}

proof fn lemma_channels_add(
    a: Seq<crate::model::SegmentView>,
    b: Seq<crate::model::SegmentView>,
)
    ensures
        all_channels(a + b) == all_channels(a).add(all_channels(b)),
    decreases b.len(),
{
    if b.len() == 0 {
        assert(a + b == a);
        assert(all_channels(a) =~= all_channels(a).add(all_channels(b)));
    } else {
        lemma_channels_add(a, b.drop_last());
        assert((a + b).drop_last() == a + b.drop_last());
        assert(all_channels(a + b) =~= all_channels(a).add(all_channels(b)));
    }
}

proof fn lemma_trip_channels(r: Seq<Seq<crate::model::SegmentView>>)
    ensures
        trip_channels(r.map_values(|run: Seq<crate::model::SegmentView>| trip_of(run)))
            == all_channels(r.flatten()),
    decreases r.len(),
{
    let f = |run: Seq<crate::model::SegmentView>| trip_of(run);
    let t = r.map_values(f);
    if r.len() == 0 {
        assert(r.flatten().len() == 0);
    } else {
        assert(t.drop_last() == r.drop_last().map_values(f));
        lemma_trip_channels(r.drop_last());
        assert(r == r.drop_last().push(r.last()));
        r.drop_last().lemma_flatten_push(r.last());
        lemma_channels_add(r.drop_last().flatten(), r.last());
    }
}

/// Grouping doubles no file, and loses none but for repeats: where no two files
/// have both one group key and one label, the channels of the trips are the
/// channels of the files, each once.
pub proof fn grouping_keeps_every_file(items: Seq<InputView>, gap: int)
    ensures
        trip_channels(grouped(items, gap)).subset_of(file_channels(items)),
        channels_differ(items) ==> trip_channels(grouped(items, gap)) == file_channels(items),
{
    let b = buckets_of(items);
    let raw = b.map_values(|x: Seq<InputView>| segment_of(x));
    let s = segments_in_order(items);
    lemma_buckets_channels(items);
    lemma_segments_channels(b);
    lemma_sorted_channels(raw, start_order());
    merging_keeps_every_channel(s);
    trips_partition_the_segments(fuzzy_merged(s), gap);
    lemma_trip_channels(runs(fuzzy_merged(s), gap));
    if channels_differ(items) {
        lemma_bucket_labels(items);
    }
}

/// Groups video files into trips: files with one group key make a segment,
/// segments that the cameras stamped up to three seconds apart are merged, and
/// a pause of more than `trip_gap_s` seconds starts a new trip.
pub fn group(items: Vec<GroupingInput>, trip_gap_s: i64) -> (r: GroupingOutput)
    requires
        forall|i: int|
            0 <= i < items.len() ==> start_has_room((#[trigger] items@[i]).parsed.start_time),
    ensures
        crate::model::trip_views(r.trips@) == grouped(input_views(items@), trip_gap_s as int),
{
    let ghost all = input_views(items@);
    let ghost raw_items = items@;
    let buckets = bucket_files(items);
    let ghost raw = buckets@;
    let ghost bv = bucket_views(raw);
    let ghost wanted = bv.map_values(|b: Seq<InputView>| segment_of(b));
    let mut segments: Vec<Segment> = Vec::new();
    let ghost mut n: int = 0;
    proof {
        buckets_are_by_key(all);
    }
    for bucket in it: buckets
        invariant
            it.seq() == raw,
            n == it.index(),
            bv == bucket_views(raw),
            are_buckets(bv),
            wanted == bv.map_values(|b: Seq<InputView>| segment_of(b)),
            crate::model::segment_views(segments@) == wanted.take(n as int),
    {
        proof {
            assert(bv[n as int] == input_views(bucket@));
            assert(bv[n as int].len() > 0);
        }
        let s = make_segment(bucket);
        let ghost sv = s@;
        let ghost before = segments@;
        segments.push(s);
        proof {
            assert(wanted[n as int] == sv);
            assert(crate::model::segment_views(segments@) == crate::model::segment_views(
                before,
            ).push(sv));
            assert(wanted.take(n + 1) == wanted.take(n as int).push(sv));
        }
        proof {
            n = n + 1;
        }
    }
    proof {
        assert(wanted.take(wanted.len() as int) == wanted);
        lemma_bucket_files(all);
        assert forall|i: int| 0 <= i < wanted.len() implies has_end(#[trigger] wanted[i]) by {
            let b = bv[i];
            assert(b.len() > 0);
            lemma_earliest_in(b);
            let k = choose|k: int| 0 <= k < b.len() && earliest(b) == (#[trigger] b[k]).parsed.start;
            assert(all.contains(buckets_of(all)[i][k]));
            let m = choose|m: int| 0 <= m < all.len() && all[m] == b[k];
            assert(start_has_room(raw_items[m].parsed.start_time));
        }
        lemma_sorted_has_end(wanted);
        lemma_fuzzy_has_end(crate::sort::sort_by(wanted, start_order()));
    }
    let sorted = sort_segments(segments);
    let merged = merge_fuzzy_neighbors(sorted);
    proof {
        let mv = crate::model::segment_views(merged@);
        assert forall|i: int| 0 <= i < merged.len() implies has_end((#[trigger] merged@[i])@) by {
            assert(mv[i] == merged@[i]@);
        }
    }
    GroupingOutput { trips: merge_into_trips(merged, trip_gap_s) }
}

} // verus!
