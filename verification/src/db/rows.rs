//! The rows of the tables.

use vstd::prelude::*;

verus! {

/// A trip.
#[derive(Debug)]
pub struct TripRow {
    pub id: String,
    pub start_time_ms: i64,
    pub end_time_ms: i64,
    pub camera_kind: String,
    pub gps_supported: bool,
    pub last_seen_ms: i64,
}

/// A trip, with texts as sequences of characters.
#[verifier::ext_equal]
pub struct TripView {
    pub id: Seq<char>,
    pub start_time_ms: i64,
    pub end_time_ms: i64,
    pub camera_kind: Seq<char>,
    pub gps_supported: bool,
    pub last_seen_ms: i64,
}

impl View for TripRow {
    type V = TripView;

    open spec fn view(&self) -> TripView {
        TripView {
            id: self.id@,
            start_time_ms: self.start_time_ms,
            end_time_ms: self.end_time_ms,
            camera_kind: self.camera_kind@,
            gps_supported: self.gps_supported,
            last_seen_ms: self.last_seen_ms,
        }
    }
}

impl Clone for TripRow {
    fn clone(&self) -> (r: Self)
        ensures
            r == *self,
    {
        TripRow {
            id: self.id.clone(),
            start_time_ms: self.start_time_ms,
            end_time_ms: self.end_time_ms,
            camera_kind: self.camera_kind.clone(),
            gps_supported: self.gps_supported,
            last_seen_ms: self.last_seen_ms,
        }
    }
}

/// A segment; a tombstone stands for one whose files were deleted.
#[derive(Debug)]
pub struct SegmentRow {
    pub id: String,
    pub trip_id: String,
    pub start_time_ms: i64,
    pub duration_ms: i64,
    pub master_path: String,
    pub is_event: bool,
    pub camera_kind: String,
    pub gps_supported: bool,
    pub last_seen_ms: i64,
    pub size_bytes: Option<i64>,
    pub is_tombstone: bool,
}

/// A segment; a tombstone stands for one whose files were deleted, with texts as sequences of characters.
#[verifier::ext_equal]
pub struct SegmentView {
    pub id: Seq<char>,
    pub trip_id: Seq<char>,
    pub start_time_ms: i64,
    pub duration_ms: i64,
    pub master_path: Seq<char>,
    pub is_event: bool,
    pub camera_kind: Seq<char>,
    pub gps_supported: bool,
    pub last_seen_ms: i64,
    pub size_bytes: Option<i64>,
    pub is_tombstone: bool,
}

impl View for SegmentRow {
    type V = SegmentView;

    open spec fn view(&self) -> SegmentView {
        SegmentView {
            id: self.id@,
            trip_id: self.trip_id@,
            start_time_ms: self.start_time_ms,
            duration_ms: self.duration_ms,
            master_path: self.master_path@,
            is_event: self.is_event,
            camera_kind: self.camera_kind@,
            gps_supported: self.gps_supported,
            last_seen_ms: self.last_seen_ms,
            size_bytes: self.size_bytes,
            is_tombstone: self.is_tombstone,
        }
    }
}

impl Clone for SegmentRow {
    fn clone(&self) -> (r: Self)
        ensures
            r == *self,
    {
        SegmentRow {
            id: self.id.clone(),
            trip_id: self.trip_id.clone(),
            start_time_ms: self.start_time_ms,
            duration_ms: self.duration_ms,
            master_path: self.master_path.clone(),
            is_event: self.is_event,
            camera_kind: self.camera_kind.clone(),
            gps_supported: self.gps_supported,
            last_seen_ms: self.last_seen_ms,
            size_bytes: self.size_bytes,
            is_tombstone: self.is_tombstone,
        }
    }
}

/// A tag on a segment or a trip.
#[derive(Debug)]
pub struct TagRow {
    pub segment_id: Option<String>,
    pub trip_id: Option<String>,
    pub name: String,
    pub category: String,
    pub source: String,
    pub created_ms: i64,
}

/// A tag on a segment or a trip, with texts as sequences of characters.
#[verifier::ext_equal]
pub struct TagView {
    pub segment_id: Option<Seq<char>>,
    pub trip_id: Option<Seq<char>>,
    pub name: Seq<char>,
    pub category: Seq<char>,
    pub source: Seq<char>,
    pub created_ms: i64,
}

impl View for TagRow {
    type V = TagView;

    open spec fn view(&self) -> TagView {
        TagView {
            segment_id: crate::text::opt_view(self.segment_id),
            trip_id: crate::text::opt_view(self.trip_id),
            name: self.name@,
            category: self.category@,
            source: self.source@,
            created_ms: self.created_ms,
        }
    }
}

impl Clone for TagRow {
    fn clone(&self) -> (r: Self)
        ensures
            r == *self,
    {
        TagRow {
            segment_id: self.segment_id.clone(),
            trip_id: self.trip_id.clone(),
            name: self.name.clone(),
            category: self.category.clone(),
            source: self.source.clone(),
            created_ms: self.created_ms,
        }
    }
}

/// The outcome of one scan of one segment.
#[derive(Debug)]
pub struct ScanRunRow {
    pub segment_id: String,
    pub scan_id: String,
    pub version: u32,
    pub ran_at_ms: i64,
    pub status: String,
    pub error_message: Option<String>,
}

/// The outcome of one scan of one segment, with texts as sequences of characters.
#[verifier::ext_equal]
pub struct ScanRunView {
    pub segment_id: Seq<char>,
    pub scan_id: Seq<char>,
    pub version: u32,
    pub ran_at_ms: i64,
    pub status: Seq<char>,
    pub error_message: Option<Seq<char>>,
}

impl View for ScanRunRow {
    type V = ScanRunView;

    open spec fn view(&self) -> ScanRunView {
        ScanRunView {
            segment_id: self.segment_id@,
            scan_id: self.scan_id@,
            version: self.version,
            ran_at_ms: self.ran_at_ms,
            status: self.status@,
            error_message: crate::text::opt_view(self.error_message),
        }
    }
}

impl Clone for ScanRunRow {
    fn clone(&self) -> (r: Self)
        ensures
            r == *self,
    {
        ScanRunRow {
            segment_id: self.segment_id.clone(),
            scan_id: self.scan_id.clone(),
            version: self.version,
            ran_at_ms: self.ran_at_ms,
            status: self.status.clone(),
            error_message: self.error_message.clone(),
        }
    }
}

/// How far a timelapse job has come.
#[derive(Debug, Clone, Copy, PartialEq, Eq, Structural)]
pub enum JobStatus {
    Pending,
    Running,
    Done,
    Failed,
}

/// A timelapse of one trip at one speed for one channel.
#[derive(Debug)]
pub struct JobRow {
    pub trip_id: String,
    pub tier: String,
    pub channel: String,
    pub status: JobStatus,
    pub output_path: Option<String>,
    pub error_message: Option<String>,
    pub ffmpeg_version: Option<String>,
    pub encoder_used: Option<String>,
    pub padded_count: Option<i64>,
    pub speed_curve_json: Option<String>,
    pub output_size_bytes: Option<i64>,
    pub created_at_ms: i64,
    pub completed_at_ms: Option<i64>,
}

/// A timelapse of one trip at one speed for one channel, with texts as sequences of characters.
#[verifier::ext_equal]
pub struct JobView {
    pub trip_id: Seq<char>,
    pub tier: Seq<char>,
    pub channel: Seq<char>,
    pub status: JobStatus,
    pub output_path: Option<Seq<char>>,
    pub error_message: Option<Seq<char>>,
    pub ffmpeg_version: Option<Seq<char>>,
    pub encoder_used: Option<Seq<char>>,
    pub padded_count: Option<i64>,
    pub speed_curve_json: Option<Seq<char>>,
    pub output_size_bytes: Option<i64>,
    pub created_at_ms: i64,
    pub completed_at_ms: Option<i64>,
}

impl View for JobRow {
    type V = JobView;

    open spec fn view(&self) -> JobView {
        JobView {
            trip_id: self.trip_id@,
            tier: self.tier@,
            channel: self.channel@,
            status: self.status,
            output_path: crate::text::opt_view(self.output_path),
            error_message: crate::text::opt_view(self.error_message),
            ffmpeg_version: crate::text::opt_view(self.ffmpeg_version),
            encoder_used: crate::text::opt_view(self.encoder_used),
            padded_count: self.padded_count,
            speed_curve_json: crate::text::opt_view(self.speed_curve_json),
            output_size_bytes: self.output_size_bytes,
            created_at_ms: self.created_at_ms,
            completed_at_ms: self.completed_at_ms,
        }
    }
}

impl Clone for JobRow {
    fn clone(&self) -> (r: Self)
        ensures
            r == *self,
    {
        JobRow {
            trip_id: self.trip_id.clone(),
            tier: self.tier.clone(),
            channel: self.channel.clone(),
            status: self.status,
            output_path: self.output_path.clone(),
            error_message: self.error_message.clone(),
            ffmpeg_version: self.ffmpeg_version.clone(),
            encoder_used: self.encoder_used.clone(),
            padded_count: self.padded_count,
            speed_curve_json: self.speed_curve_json.clone(),
            output_size_bytes: self.output_size_bytes,
            created_at_ms: self.created_at_ms,
            completed_at_ms: self.completed_at_ms,
        }
    }
}

/// The views of rows.
pub open spec fn trip_rows(v: Seq<TripRow>) -> Seq<TripView> {
    v.map_values(|r: TripRow| r@)
}

/// The views of rows.
pub open spec fn segment_rows(v: Seq<SegmentRow>) -> Seq<SegmentView> {
    v.map_values(|r: SegmentRow| r@)
}

/// The views of rows.
pub open spec fn tag_rows(v: Seq<TagRow>) -> Seq<TagView> {
    v.map_values(|r: TagRow| r@)
}

/// The views of rows.
pub open spec fn scan_run_rows(v: Seq<ScanRunRow>) -> Seq<ScanRunView> {
    v.map_values(|r: ScanRunRow| r@)
}

/// The views of rows.
pub open spec fn job_rows(v: Seq<JobRow>) -> Seq<JobView> {
    v.map_values(|r: JobRow| r@)
}

/// All tables of an archive.
#[derive(Debug)]
pub struct Library {
    pub trips: Vec<TripRow>,
    pub segments: Vec<SegmentRow>,
    pub tags: Vec<TagRow>,
    pub scan_runs: Vec<ScanRunRow>,
    pub jobs: Vec<JobRow>,
}

/// All tables of an archive, with texts as sequences of characters.
#[verifier::ext_equal]
pub struct LibraryView {
    pub trips: Seq<TripView>,
    pub segments: Seq<SegmentView>,
    pub tags: Seq<TagView>,
    pub scan_runs: Seq<ScanRunView>,
    pub jobs: Seq<JobView>,
}

impl View for Library {
    type V = LibraryView;

    open spec fn view(&self) -> LibraryView {
        LibraryView {
            trips: trip_rows(self.trips@),
            segments: segment_rows(self.segments@),
            tags: tag_rows(self.tags@),
            scan_runs: scan_run_rows(self.scan_runs@),
            jobs: job_rows(self.jobs@),
        }
    }
}

impl Library {
    /// An archive without anything in it.
    pub fn new() -> (r: Self)
        ensures
            r@ == (LibraryView {
                trips: Seq::empty(),
                segments: Seq::empty(),
                tags: Seq::empty(),
                scan_runs: Seq::empty(),
                jobs: Seq::empty(),
            }),
    {
        Library {
            trips: Vec::new(),
            segments: Vec::new(),
            tags: Vec::new(),
            scan_runs: Vec::new(),
            jobs: Vec::new(),
        }
    }
}

} // verus!
