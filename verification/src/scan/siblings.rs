//! Finding the file that another camera of the car wrote for a recording.

use crate::error::AppError;
use crate::paths::file_name_of;
use crate::scan::grouping::SEGMENT_FUZZY_WINDOW_S;
use crate::scan::naming::{parse, NameView, ParsedName};
use crate::text::same_str;
use vstd::prelude::*;

verus! {

/// A video file of a directory, with what its name tells.
#[derive(Debug)]
pub struct ListingEntry {
    pub path: String,
    pub parsed: ParsedName,
}

/// A file of a directory with its texts as sequences of characters.
#[verifier::ext_equal]
pub struct EntryView {
    pub path: Seq<char>,
    pub parsed: NameView,
}

impl View for ListingEntry {
    type V = EntryView;

    open spec fn view(&self) -> EntryView {
        EntryView { path: self.path@, parsed: self.parsed@ }
    }
}

/// The views of files.
pub open spec fn entry_views(v: Seq<ListingEntry>) -> Seq<EntryView> {
    v.map_values(|e: ListingEntry| e@)
}

/// What a path tells by its file name.
pub open spec fn path_reading(path: Seq<char>) -> Option<NameView> {
    match crate::paths::file_name(path) {
        Some(name) => crate::scan::naming::reading(name),
        None => None,
    }
}

/// The paths that tell of a clip, each with what it tells.
pub open spec fn listing_of(paths: Seq<Seq<char>>) -> Seq<EntryView> {
    paths.filter_map(
        |p: Seq<char>|
            match path_reading(p) {
                Some(parsed) => Some(EntryView { path: p, parsed }),
                None => None,
            },
    )
}

/// The video files among the paths of a directory.
pub fn read_and_parse_listing(paths: &Vec<String>) -> (r: Vec<ListingEntry>)
    ensures
        entry_views(r@) == listing_of(crate::text::views(paths@)),
{
    let ghost all = crate::text::views(paths@);
    let ghost f = |p: Seq<char>|
        match path_reading(p) {
            Some(parsed) => Some(EntryView { path: p, parsed }),
            None => None,
        };
    let mut out: Vec<ListingEntry> = Vec::new();
    let mut i: usize = 0;
    proof {
        reveal(Seq::filter_map);
        assert(all.take(0).filter_map(f) == Seq::<EntryView>::empty());
        assert(entry_views(out@) == all.take(0).filter_map(f));
    }
    while i < paths.len()
        invariant
            i <= paths.len(),
            all == crate::text::views(paths@),
            f == (|p: Seq<char>|
                match path_reading(p) {
                    Some(parsed) => Some(EntryView { path: p, parsed }),
                    None => None,
                }),
            entry_views(out@) == all.take(i as int).filter_map(f),
        decreases paths.len() - i,
    {
        let ghost before = out@;
        proof {
            all.lemma_filter_map_take_succ(f, i as int);
            assert(all[i as int] == paths@[i as int]@);
        }
        if let Some(name) = file_name_of(paths[i].as_str()) {
            if let Ok(parsed) = parse(name.as_str()) {
                let e = ListingEntry { path: paths[i].clone(), parsed };
                let ghost ev = e@;
                out.push(e);
                proof {
                    assert(f(all[i as int]) == Some(ev));
                    assert(entry_views(out@) == entry_views(before).push(ev));
                }
            }
        }
        i += 1;
        proof {
            assert(entry_views(out@) == all.take(i as int).filter_map(f));
        }
    }
    proof {
        assert(all.take(all.len() as int) == all);
    }
    out
}

/// The file may be the other camera's part of the recording: same camera
/// family, the wanted channel, same recording mode, and a start within the
/// window.
pub open spec fn is_candidate(e: EntryView, anchor: NameView, label: Seq<char>) -> bool {
    &&& e.parsed.kind == anchor.kind
    &&& e.parsed.label == label
    &&& e.parsed.mode == anchor.mode
    &&& e.parsed.start.distance_spec(anchor.start) <= SEGMENT_FUZZY_WINDOW_S
}

/// The file at `i` is the candidate nearest in time, the first of those that
/// are equally near.
pub open spec fn is_nearest(
    listing: Seq<EntryView>,
    anchor: NameView,
    label: Seq<char>,
    i: int,
) -> bool {
    &&& 0 <= i < listing.len()
    &&& is_candidate(listing[i], anchor, label)
    &&& forall|j: int|
        0 <= j < listing.len() && is_candidate(#[trigger] listing[j], anchor, label) ==> {
            let here = listing[i].parsed.start.distance_spec(anchor.start);
            let there = listing[j].parsed.start.distance_spec(anchor.start);
            here <= there && (j < i ==> here < there)
        }
}

/// `r` is the path of the other camera's file, where the listing has one.
pub open spec fn is_sibling(
    listing: Seq<EntryView>,
    anchor: NameView,
    label: Seq<char>,
    r: Option<Seq<char>>,
) -> bool {
    match r {
        Some(p) => exists|i: int|
            #[trigger] is_nearest(listing, anchor, label, i) && listing[i].path == p,
        None => forall|i: int|
            0 <= i < listing.len() ==> !is_candidate(#[trigger] listing[i], anchor, label),
    }
}

/// The other camera's file of the recording that `anchor` belongs to.
pub fn nearest_sibling(
    anchor: &ParsedName,
    label: &str,
    listing: &Vec<ListingEntry>,
) -> (r: Option<String>)
    ensures
        is_sibling(entry_views(listing@), anchor@, label@, crate::text::opt_view(r)),
{
    let ghost all = entry_views(listing@);
    let mut best: Option<(i128, usize)> = None;
    let mut i: usize = 0;
    while i < listing.len()
        invariant
            i <= listing.len(),
            all == entry_views(listing@),
            match best {
                Some((d, at)) => at < i && is_candidate(all[at as int], anchor@, label@) && d
                    == all[at as int].parsed.start.distance_spec(anchor@.start) && forall|j: int|
                    0 <= j < i && is_candidate(#[trigger] all[j], anchor@, label@) ==> d
                        <= all[j].parsed.start.distance_spec(anchor@.start) && (j < at ==> d
                        < all[j].parsed.start.distance_spec(anchor@.start)),
                None => forall|j: int|
                    0 <= j < i ==> !is_candidate(#[trigger] all[j], anchor@, label@),
            },
        decreases listing.len() - i,
    {
        let e = &listing[i];
        proof {
            assert(all[i as int] == e@);
        }
        if e.parsed.camera_kind == anchor.camera_kind && same_str(
            e.parsed.channel_label.as_str(),
            label,
        ) && e.parsed.event_mode == anchor.event_mode {
            let delta: i128 = e.parsed.start_time.distance(anchor.start_time);
            if delta <= SEGMENT_FUZZY_WINDOW_S as i128 {
                let better = match best {
                    Some((d, _)) => delta < d,
                    None => true,
                };
                if better {
                    best = Some((delta, i));
                }
            }
        }
        i += 1;
    }
    match best {
        Some((_, at)) => {
            proof {
                assert(is_nearest(all, anchor@, label@, at as int));
                assert(all[at as int].path == listing@[at as int].path@);
            }
            Some(listing[at].path.clone())
        },
        None => None,
    }
}

/// The other camera's file of the recording that the file at `front_path`
/// belongs to, among the files of its directory.
pub fn find_sibling_in_listing(
    front_path: &str,
    target_channel_label: &str,
    listing: &Vec<ListingEntry>,
) -> (r: Result<Option<String>, AppError>)
    ensures
        r matches Ok(found) && match path_reading(front_path@) {
            Some(anchor) => is_sibling(
                entry_views(listing@),
                anchor,
                target_channel_label@,
                crate::text::opt_view(found),
            ),
            None => found is None,
        },
{
    let name = match file_name_of(front_path) {
        Some(n) => n,
        None => {
            return Ok(None);
        },
    };
    match parse(name.as_str()) {
        Ok(anchor) => Ok(nearest_sibling(&anchor, target_channel_label, listing)),
        Err(_) => Ok(None),
    }
}

/// The other camera's file of the recording that the file at `front_path`
/// belongs to, given the paths in its directory.
pub fn find_sibling_file(
    front_path: &str,
    target_channel_label: &str,
    directory: &Vec<String>,
) -> (r: Result<Option<String>, AppError>)
    ensures
        r matches Ok(found) && match path_reading(front_path@) {
            Some(anchor) => is_sibling(
                listing_of(crate::text::views(directory@)),
                anchor,
                target_channel_label@,
                crate::text::opt_view(found),
            ),
            None => found is None,
        },
{
    let listing = read_and_parse_listing(directory);
    find_sibling_in_listing(front_path, target_channel_label, &listing)
}

} // verus!
