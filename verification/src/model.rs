//! Channels, segments and trips.
//!
//! A segment is what all cameras of a car recorded at one time; each of its
//! channels is one video file. A trip is a run of segments without a long
//! pause.

use crate::moment::Moment;
use crate::scan::naming::{CameraKind, LABEL_FRONT, LABEL_INTERIOR, LABEL_REAR};
use crate::text::same_str;
use vstd::prelude::*;

verus! {

/// One video file of a segment.
#[derive(Debug)]
pub struct Channel {
    pub label: String,
    pub file_path: String,
    pub width: Option<u32>,
    pub height: Option<u32>,
    pub fps_num: Option<u32>,
    pub fps_den: Option<u32>,
    pub codec: Option<String>,
    pub has_gpmd_track: bool,
}

/// A channel with its texts as sequences of characters.
#[verifier::ext_equal]
pub struct ChannelView {
    pub label: Seq<char>,
    pub file_path: Seq<char>,
    pub width: Option<u32>,
    pub height: Option<u32>,
    pub fps_num: Option<u32>,
    pub fps_den: Option<u32>,
    pub codec: Option<Seq<char>>,
    pub has_gpmd_track: bool,
}

impl View for Channel {
    type V = ChannelView;

    open spec fn view(&self) -> ChannelView {
        ChannelView {
            label: self.label@,
            file_path: self.file_path@,
            width: self.width,
            height: self.height,
            fps_num: self.fps_num,
            fps_den: self.fps_den,
            codec: crate::text::opt_view(self.codec),
            has_gpmd_track: self.has_gpmd_track,
        }
    }
}

/// The views of channels.
pub open spec fn channel_views(v: Seq<Channel>) -> Seq<ChannelView> {
    v.map_values(|c: Channel| c@)
}

/// One stretch of recording. The duration is in milliseconds; zero means that
/// it is not known.
#[derive(Debug)]
pub struct Segment {
    pub id: u128,
    pub start_time: Moment,
    pub duration_ms: i64,
    pub is_event: bool,
    pub channels: Vec<Channel>,
    pub camera_kind: CameraKind,
    pub gps_supported: bool,
    pub size_bytes: Option<u64>,
    pub is_tombstone: bool,
}

/// A segment with its texts as sequences of characters.
#[verifier::ext_equal]
pub struct SegmentView {
    pub id: u128,
    pub start_time: Moment,
    pub duration_ms: i64,
    pub is_event: bool,
    pub channels: Seq<ChannelView>,
    pub camera_kind: CameraKind,
    pub gps_supported: bool,
    pub size_bytes: Option<u64>,
    pub is_tombstone: bool,
}

impl View for Segment {
    type V = SegmentView;

    open spec fn view(&self) -> SegmentView {
        SegmentView {
            id: self.id,
            start_time: self.start_time,
            duration_ms: self.duration_ms,
            is_event: self.is_event,
            channels: channel_views(self.channels@),
            camera_kind: self.camera_kind,
            gps_supported: self.gps_supported,
            size_bytes: self.size_bytes,
            is_tombstone: self.is_tombstone,
        }
    }
}

/// The views of segments.
pub open spec fn segment_views(v: Seq<Segment>) -> Seq<SegmentView> {
    v.map_values(|s: Segment| s@)
}

/// A run of segments.
#[derive(Debug)]
pub struct Trip {
    pub id: u128,
    pub start_time: Moment,
    pub end_time: Moment,
    pub segments: Vec<Segment>,
    pub camera_kind: CameraKind,
    pub gps_supported: bool,
    pub archive_only: bool,
}

/// A trip with its texts as sequences of characters.
#[verifier::ext_equal]
pub struct TripView {
    pub id: u128,
    pub start_time: Moment,
    pub end_time: Moment,
    pub segments: Seq<SegmentView>,
    pub camera_kind: CameraKind,
    pub gps_supported: bool,
    pub archive_only: bool,
}

impl View for Trip {
    type V = TripView;

    open spec fn view(&self) -> TripView {
        TripView {
            id: self.id,
            start_time: self.start_time,
            end_time: self.end_time,
            segments: segment_views(self.segments@),
            camera_kind: self.camera_kind,
            gps_supported: self.gps_supported,
            archive_only: self.archive_only,
        }
    }
}

/// The views of trips.
pub open spec fn trip_views(v: Seq<Trip>) -> Seq<TripView> {
    v.map_values(|t: Trip| t@)
}

/// The place of a channel in the order front, interior, rear, any other.
pub open spec fn rank(label: Seq<char>) -> int {
    if label == LABEL_FRONT@ {
        0
    } else if label == LABEL_INTERIOR@ {
        1
    } else if label == LABEL_REAR@ {
        2
    } else {
        3
    }
}

/// The place of a channel in the order front, interior, rear, any other.
pub fn label_rank(label: &str) -> (r: u8)
    ensures
        r == rank(label@),
{
    if same_str(label, LABEL_FRONT) {
        0
    } else if same_str(label, LABEL_INTERIOR) {
        1
    } else if same_str(label, LABEL_REAR) {
        2
    } else {
        3
    }
}

} // verus!
