//! Which file is the other camera's.

use crate::moment::Moment;
use crate::scan::naming::NameView;
use crate::scan::siblings::EntryView;
use vstd::prelude::*;

verus! {

/// The number of seconds between two starts on whole seconds.
pub open spec fn apart(a: Moment, b: Moment) -> int {
    if a.secs >= b.secs {
        a.secs - b.secs
    } else {
        b.secs - a.secs
    }
}

/// The file is of the same camera family and mode, of the wanted channel, and starts at
/// most three seconds from the other.
pub open spec fn fits(e: EntryView, anchor: NameView, label: Seq<char>) -> bool {
    &&& e.parsed.kind == anchor.kind
    &&& e.parsed.mode == anchor.mode
    &&& e.parsed.label == label
    &&& apart(e.parsed.start, anchor.start) <= 3
}

/// The file that is found fits, and none that fits starts nearer; none is found only
/// where none fits.
pub proof fn siblings_fit_and_are_nearest(
    listing: Seq<EntryView>,
    anchor: NameView,
    label: Seq<char>,
    r: Option<Seq<char>>,
)
    requires
        anchor.start.nanos == 0,
        forall|i: int| 0 <= i < listing.len() ==> (#[trigger] listing[i]).parsed.start.nanos == 0,
        crate::scan::siblings::is_sibling(listing, anchor, label, r),
    ensures
        match r {
            Some(p) => exists|i: int|
                0 <= i < listing.len() && (#[trigger] listing[i]).path == p && fits(
                    listing[i],
                    anchor,
                    label,
                ) && forall|j: int|
                    0 <= j < listing.len() && fits(#[trigger] listing[j], anchor, label) ==> apart(
                        listing[i].parsed.start,
                        anchor.start,
                    ) <= apart(listing[j].parsed.start, anchor.start) && (j < i ==> apart(
                        listing[i].parsed.start,
                        anchor.start,
                    ) < apart(listing[j].parsed.start, anchor.start)),
            None => forall|i: int|
                0 <= i < listing.len() ==> !fits(#[trigger] listing[i], anchor, label),
        },
{
    assert forall|i: int| 0 <= i < listing.len() implies (#[trigger] listing[i]).parsed.start.distance_spec(
        anchor.start,
    ) == apart(listing[i].parsed.start, anchor.start) && fits(listing[i], anchor, label)
        == crate::scan::siblings::is_candidate(listing[i], anchor, label) by {
        crate::laws::moment::whole_seconds_apart(anchor.start, listing[i].parsed.start);
    }
    match r {
        Some(p) => {
            let i = choose|i: int| #[trigger]
                crate::scan::siblings::is_nearest(listing, anchor, label, i) && listing[i].path == p;
            assert(listing[i].path == p);
            assert(fits(listing[i], anchor, label));
        },
        None => {},
    }
}

/// The listing has an entry for every path whose name tells of a clip, with what it
/// tells, and no other.
pub proof fn listings_hold_the_clips(paths: Seq<Seq<char>>)
    ensures
        ({
            let l = crate::scan::siblings::listing_of(paths);
            &&& forall|i: int|
                0 <= i < l.len() ==> paths.contains((#[trigger] l[i]).path)
                    && crate::scan::siblings::path_reading(l[i].path) == Some(l[i].parsed)
            &&& forall|k: int|
                0 <= k < paths.len() && crate::scan::siblings::path_reading(#[trigger] paths[k])
                    is Some ==> l.contains(
                    EntryView {
                        path: paths[k],
                        parsed: crate::scan::siblings::path_reading(paths[k])->0,
                    },
                )
        }),
{
    let f = |p: Seq<char>|
        match crate::scan::siblings::path_reading(p) {
            Some(parsed) => Some(EntryView { path: p, parsed }),
            None => None,
        };
    let l = crate::scan::siblings::listing_of(paths);
    crate::laws::seqs::lemma_filter_map(paths, f);
    assert(l == paths.filter_map(f));
    assert forall|i: int| 0 <= i < l.len() implies paths.contains((#[trigger] l[i]).path)
        && crate::scan::siblings::path_reading(l[i].path) == Some(l[i].parsed) by {
        let k = choose|k: int| 0 <= k < paths.len() && f(#[trigger] paths[k]) == Some(l[i]);
        assert(paths[k] == l[i].path);
    }
    assert forall|k: int|
        0 <= k < paths.len() && crate::scan::siblings::path_reading(#[trigger] paths[k])
            is Some implies l.contains(
        EntryView { path: paths[k], parsed: crate::scan::siblings::path_reading(paths[k])->0 },
    ) by {
        assert(f(paths[k]) is Some);
    }
}

/// A segment is known by its path and its start, a trip by its first segment: these
/// alone go into their identifiers, each in a space of its own.
pub proof fn identifiers_come_from_their_names(path: Seq<char>, start: Moment, first: u128)
    ensures
        crate::ids::segment_id(path, start) == crate::ids::uuid_v5(
            0x6ba7b811_9dad_11d1_80b4_00c04fd430c8,
            path + seq!['|'] + crate::text::decimal_int(start.secs as int) + seq!['.']
                + crate::text::decimal_int(start.nanos as int),
        ),
        crate::ids::trip_id(first) == crate::ids::uuid_v5(
            0x6ba7b812_9dad_11d1_80b4_00c04fd430c8,
            crate::ids::hyphenated(first),
        ),
{
    reveal_strlit("|");
    reveal_strlit(".");
    assert("|"@ =~= seq!['|']);
    assert("."@ =~= seq!['.']);
}

} // verus!
