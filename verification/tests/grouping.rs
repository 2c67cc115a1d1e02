//! From files to segments and trips.

use tripviewer::model::{Segment, Trip};
use tripviewer::scan::grouping::{
    group, make_segment, merge_fuzzy_neighbors, GroupingInput, DEFAULT_TRIP_GAP_SECONDS,
};
use tripviewer::scan::naming::{self, LABEL_FRONT, LABEL_INTERIOR, LABEL_REAR};

fn input(name: &str) -> GroupingInput {
    GroupingInput {
        path: format!("E:\\fake\\{name}"),
        id_key: format!("E:\\fake\\{name}"),
        parsed: naming::parse(name).unwrap(),
    }
}

#[test]
fn wolf_box_triplet_makes_one_segment_and_trip() {
    let items = vec![
        input("2026_03_23_094634_00_F.MP4"),
        input("2026_03_23_094634_00_I.MP4"),
        input("2026_03_23_094634_00_R.MP4"),
    ];
    let out = group(items, DEFAULT_TRIP_GAP_SECONDS);
    assert_eq!(out.trips.len(), 1);
    assert_eq!(out.trips[0].segments.len(), 1);
    assert_eq!(out.trips[0].segments[0].channels.len(), 3);
    // Canonical order: Front, Interior, Rear.
    assert_eq!(out.trips[0].segments[0].channels[0].label, LABEL_FRONT);
    assert_eq!(out.trips[0].segments[0].channels[1].label, LABEL_INTERIOR);
    assert_eq!(out.trips[0].segments[0].channels[2].label, LABEL_REAR);
}

#[test]
fn thinkware_pair_makes_two_channel_segment() {
    let items = vec![
        input("REC_2026_03_06_07_25_52_F.MP4"),
        input("REC_2026_03_06_07_25_52_R.MP4"),
    ];
    let out = group(items, DEFAULT_TRIP_GAP_SECONDS);
    assert_eq!(out.trips.len(), 1);
    assert_eq!(out.trips[0].segments.len(), 1);
    assert_eq!(out.trips[0].segments[0].channels.len(), 2);
    assert_eq!(out.trips[0].segments[0].channels[0].label, LABEL_FRONT);
    assert_eq!(out.trips[0].segments[0].channels[1].label, LABEL_REAR);
}

#[test]
fn single_file_becomes_one_channel_segment() {
    // No more "unmatched" for partially-recorded segments.
    let items = vec![input("2026_03_23_094634_00_F.MP4")];
    let out = group(items, DEFAULT_TRIP_GAP_SECONDS);
    assert_eq!(out.trips.len(), 1);
    assert_eq!(out.trips[0].segments[0].channels.len(), 1);
}

#[test]
fn four_channel_segment_groups_together() {
    let items = vec![
        input("2026_03_06_072552_A.MP4"),
        input("2026_03_06_072552_B.MP4"),
        input("2026_03_06_072552_C.MP4"),
        input("2026_03_06_072552_D.MP4"),
    ];
    let out = group(items, DEFAULT_TRIP_GAP_SECONDS);
    assert_eq!(out.trips.len(), 1);
    assert_eq!(out.trips[0].segments[0].channels.len(), 4);
}

#[test]
fn event_flag_propagates() {
    let items = vec![
        input("2026_03_15_173951_02_F.MP4"),
        input("2026_03_15_173951_02_I.MP4"),
        input("2026_03_15_173951_02_R.MP4"),
    ];
    let out = group(items, DEFAULT_TRIP_GAP_SECONDS);
    assert!(out.trips[0].segments[0].is_event);
}

#[test]
fn consecutive_segments_merge_into_one_trip() {
    let items = vec![
        input("2026_03_23_094634_00_F.MP4"),
        input("2026_03_23_094634_00_I.MP4"),
        input("2026_03_23_094634_00_R.MP4"),
        input("2026_03_23_094934_00_F.MP4"),
        input("2026_03_23_094934_00_I.MP4"),
        input("2026_03_23_094934_00_R.MP4"),
    ];
    let out = group(items, DEFAULT_TRIP_GAP_SECONDS);
    assert_eq!(out.trips.len(), 1);
    assert_eq!(out.trips[0].segments.len(), 2);
}

#[test]
fn large_gap_splits_into_separate_trips() {
    let items = vec![
        input("2026_03_23_094634_00_F.MP4"),
        input("2026_03_23_094634_00_I.MP4"),
        input("2026_03_23_094634_00_R.MP4"),
        input("2026_03_23_114634_00_F.MP4"),
        input("2026_03_23_114634_00_I.MP4"),
        input("2026_03_23_114634_00_R.MP4"),
    ];
    let out = group(items, DEFAULT_TRIP_GAP_SECONDS);
    assert_eq!(out.trips.len(), 2);
}

#[test]
fn segments_sorted_by_start_time_within_trip() {
    let items = vec![
        input("2026_03_23_094934_00_F.MP4"),
        input("2026_03_23_094934_00_I.MP4"),
        input("2026_03_23_094934_00_R.MP4"),
        input("2026_03_23_094634_00_F.MP4"),
        input("2026_03_23_094634_00_I.MP4"),
        input("2026_03_23_094634_00_R.MP4"),
    ];
    let out = group(items, DEFAULT_TRIP_GAP_SECONDS);
    assert_eq!(out.trips.len(), 1);
    let segs = &out.trips[0].segments;
    assert!(segs[0].start_time.order_key() < segs[1].start_time.order_key());
}

#[test]
fn skew_across_event_boundary_does_not_merge_different_event_modes() {
    // Normal front and event I/R are different recordings; must not merge.
    let items = vec![
        input("2026_03_23_094634_00_F.MP4"),
        input("2026_03_23_094635_02_I.MP4"),
        input("2026_03_23_094635_02_R.MP4"),
    ];
    let out = group(items, DEFAULT_TRIP_GAP_SECONDS);
    // Two segments: one 1-channel (Normal Front), one 2-channel (Event I+R).
    let total_segments: usize = out.trips.iter().map(|t| t.segments.len()).sum();
    assert_eq!(total_segments, 2);
}

#[test]
fn mixed_dashcam_formats_group_separately() {
    // Wolf Box and Thinkware files in the same folder shouldn't cross-pollinate.
    let items = vec![
        input("2026_03_23_094634_00_F.MP4"),
        input("2026_03_23_094634_00_I.MP4"),
        input("2026_03_23_094634_00_R.MP4"),
        input("REC_2026_03_23_09_46_34_F.MP4"),
        input("REC_2026_03_23_09_46_34_R.MP4"),
    ];
    let out = group(items, DEFAULT_TRIP_GAP_SECONDS);
    let all_segments: Vec<&Segment> =
        out.trips.iter().flat_map(|t| t.segments.iter()).collect();
    assert_eq!(all_segments.len(), 2);
    // The two segments have different channel counts; make sure we
    // didn't merge them.
    let counts: Vec<usize> = all_segments.iter().map(|s| s.channels.len()).collect();
    assert!(counts.contains(&3));
    assert!(counts.contains(&2));
}

fn trips_of(names: &[&str]) -> Vec<Trip> {
    group(names.iter().map(|n| input(n)).collect(), DEFAULT_TRIP_GAP_SECONDS).trips
}

#[test]
fn cameras_that_stamp_a_second_apart_share_a_segment() {
    let trips = trips_of(&["2026_03_23_094634_00_F.MP4", "2026_03_23_094635_00_R.MP4"]);
    assert_eq!(trips.len(), 1);
    assert_eq!(trips[0].segments.len(), 1);
    assert_eq!(trips[0].segments[0].channels.len(), 2);
}

#[test]
fn ids_depend_on_the_stored_paths_alone() {
    let a = trips_of(&["2026_03_23_094634_00_F.MP4", "2026_03_23_094634_00_R.MP4"]);
    let b = trips_of(&["2026_03_23_094634_00_R.MP4", "2026_03_23_094634_00_F.MP4"]);
    let c = trips_of(&["2026_03_23_094637_00_F.MP4"]);
    assert_eq!(a[0].id, b[0].id);
    assert_eq!(a[0].segments[0].id, b[0].segments[0].id);
    assert_ne!(a[0].id, c[0].id);
    assert_ne!(a[0].segments[0].id, c[0].segments[0].id);
    assert_ne!(a[0].id, 0);
}

#[test]
fn segments_without_a_duration_count_as_three_minutes() {
    // 180 s for the first segment and a pause of 120 s: one trip.
    let together = trips_of(&["2026_03_23_090000_00_F.MP4", "2026_03_23_090500_00_F.MP4"]);
    assert_eq!(together.len(), 1);
    let apart = trips_of(&["2026_03_23_090000_00_F.MP4", "2026_03_23_090501_00_F.MP4"]);
    assert_eq!(apart.len(), 2);
}

#[test]
fn merging_neighbours_settles_in_one_pass() {
    let segments = || {
        vec![
            make_segment(vec![input("2026_03_23_094634_00_F.MP4")]),
            make_segment(vec![input("2026_03_23_094635_00_I.MP4")]),
            make_segment(vec![input("2026_03_23_094636_00_F.MP4")]),
            make_segment(vec![input("2026_03_23_094637_00_R.MP4")]),
        ]
    };
    let first = segments()[0].id;
    let third = segments()[2].id;
    let shape = |v: &Vec<Segment>| -> Vec<(u128, usize)> {
        v.iter().map(|s| (s.id, s.channels.len())).collect()
    };
    let once = merge_fuzzy_neighbors(segments());
    assert_eq!(shape(&once), vec![(first, 2), (third, 2)]);
    assert_eq!(once[0].start_time, segments()[0].start_time);
    let twice = merge_fuzzy_neighbors(once);
    assert_eq!(shape(&twice), vec![(first, 2), (third, 2)]);
}

#[test]
fn grouping_loses_and_doubles_no_file() {
    let names = [
        "2026_03_23_094634_00_F.MP4",
        "2026_03_23_094636_00_I.MP4",
        "2026_03_23_094934_00_R.MP4",
        "2026_03_25_094934_00_F.MP4",
        "REC_2026_03_06_07_25_52_F.MP4",
        "REC_2026_03_06_07_25_52_R.MP4",
    ];
    let out = group(names.iter().map(|n| input(n)).collect(), DEFAULT_TRIP_GAP_SECONDS);
    let mut paths: Vec<String> = Vec::new();
    for t in &out.trips {
        for s in &t.segments {
            paths.extend(s.channels.iter().map(|c| c.file_path.clone()));
        }
    }
    paths.sort();
    let mut want: Vec<String> = names.iter().map(|n| input(n).path).collect();
    want.sort();
    assert_eq!(paths, want);
}
