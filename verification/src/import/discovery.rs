//! Finding the cards of dashcams among the drives.

use super::types::{is_prealloc, ImportSource, WalkedFile};
use crate::db::table::contains_string;
use crate::error::AppError;
use crate::paths::file_name_of;
use crate::scan::naming::CameraKind;
use crate::text::{concat2, owned, same_str, to_lowercase};
use vstd::prelude::*;

verus! {

/// How many of its folders a card of a Wolf Box has at least.
pub const WOLFBOX_MIN_MATCH: usize = 3;

/// How many of its folders a card of a Thinkware has at least.
pub const THINKWARE_MIN_MATCH: usize = 2;

/// How many of its folders a card of a 70mai has at least.
pub const SEVENTYMAI_MIN_MATCH: usize = 4;

/// The kind of drive that can be taken out, as Windows numbers it.
pub const DRIVE_REMOVABLE: u32 = 2;

/// The folders of a Wolf Box.
pub open spec fn wolfbox_folders() -> Seq<Seq<char>> {
    seq![
        "front_norm"@,
        "front_emer"@,
        "front_photo"@,
        "rear_norm"@,
        "rear_emer"@,
        "rear_photo"@,
        "extra_norm"@,
        "extra_emer"@,
        "extra_photo"@,
    ]
}

/// The folders of a Thinkware.
pub open spec fn thinkware_folders() -> Seq<Seq<char>> {
    seq!["cont_rec"@, "evt_rec"@, "manual_rec"@, "parking_rec"@]
}

/// The folders of a 70mai.
pub open spec fn seventymai_folders() -> Seq<Seq<char>> {
    seq!["normal"@, "event"@, "parking"@, "lapse"@, "photo"@]
}

/// The directory is one that the system keeps on a drive. The name is given in
/// lower case.
pub open spec fn is_system_dir(lower: Seq<char>) -> bool {
    lower == "system volume information"@ || lower == "$recycle.bin"@
}

/// Whether the directory is one that the system keeps on a drive. The name is
/// given in lower case.
pub fn is_system_name(lower: &str) -> (r: bool)
    ensures
        r == is_system_dir(lower@),
{
    same_str(lower, "system volume information") || same_str(lower, "$recycle.bin")
}

/// Whether the directory is one that the system keeps on a drive, in upper or
/// lower case.
pub fn is_skipped_dir(name: &str) -> (r: bool)
    ensures
        r == is_system_dir(crate::text::lowercase(name@)),
        crate::text::is_ascii_text(name@) ==> r == is_system_dir(crate::text::ascii_lower(name@)),
{
    let lower = to_lowercase(name);
    is_system_name(lower.as_str())
}

/// The names that occur in a list of directories.
pub open spec fn matches_in(folders: Seq<Seq<char>>, names: Seq<Seq<char>>) -> nat
    decreases folders.len(),
{
    if folders.len() == 0 {
        0
    } else {
        matches_in(folders.drop_last(), names) + if names.contains(folders.last()) {
            1nat
        } else {
            0
        }
    }
}

/// The camera whose card has these directories. The names are given in lower
/// case.
pub open spec fn kind_in(names: Seq<Seq<char>>) -> Option<CameraKind> {
    if matches_in(wolfbox_folders(), names) >= WOLFBOX_MIN_MATCH {
        Some(CameraKind::WolfBox)
    } else if matches_in(thinkware_folders(), names) >= THINKWARE_MIN_MATCH {
        Some(CameraKind::Thinkware)
    } else if matches_in(seventymai_folders(), names) >= SEVENTYMAI_MIN_MATCH {
        Some(CameraKind::SeventyMai)
    } else {
        None
    }
}

fn push_text(v: &mut Vec<String>, s: &str)
    ensures
        crate::text::views(final(v)@) == crate::text::views(old(v)@).push(s@),
{
    let ghost before = v@;
    v.push(owned(s));
    proof {
        assert(crate::text::views(v@) == crate::text::views(before).push(s@));
    }
}

fn wolfbox_folder_list() -> (r: Vec<String>)
    ensures
        crate::text::views(r@) == wolfbox_folders(),
{
    let mut v: Vec<String> = Vec::new();
    push_text(&mut v, "front_norm");
    push_text(&mut v, "front_emer");
    push_text(&mut v, "front_photo");
    push_text(&mut v, "rear_norm");
    push_text(&mut v, "rear_emer");
    push_text(&mut v, "rear_photo");
    push_text(&mut v, "extra_norm");
    push_text(&mut v, "extra_emer");
    push_text(&mut v, "extra_photo");
    proof {
        assert(crate::text::views(v@) == wolfbox_folders());
    }
    v
}

fn thinkware_folder_list() -> (r: Vec<String>)
    ensures
        crate::text::views(r@) == thinkware_folders(),
{
    let mut v: Vec<String> = Vec::new();
    push_text(&mut v, "cont_rec");
    push_text(&mut v, "evt_rec");
    push_text(&mut v, "manual_rec");
    push_text(&mut v, "parking_rec");
    proof {
        assert(crate::text::views(v@) == thinkware_folders());
    }
    v
}

fn seventymai_folder_list() -> (r: Vec<String>)
    ensures
        crate::text::views(r@) == seventymai_folders(),
{
    let mut v: Vec<String> = Vec::new();
    push_text(&mut v, "normal");
    push_text(&mut v, "event");
    push_text(&mut v, "parking");
    push_text(&mut v, "lapse");
    push_text(&mut v, "photo");
    proof {
        assert(crate::text::views(v@) == seventymai_folders());
    }
    v
}

fn count_matches(folders: &Vec<String>, names: &Vec<String>) -> (r: usize)
    ensures
        r == matches_in(crate::text::views(folders@), crate::text::views(names@)),
{
    let ghost fv = crate::text::views(folders@);
    let ghost nv = crate::text::views(names@);
    let mut n: usize = 0;
    let mut i: usize = 0;
    proof {
        assert(fv.take(0).len() == 0);
    }
    while i < folders.len()
        invariant
            i <= folders.len(),
            n <= i,
            fv == crate::text::views(folders@),
            nv == crate::text::views(names@),
            n == matches_in(fv.take(i as int), nv),
        decreases folders.len() - i,
    {
        proof {
            assert(fv.take(i + 1).drop_last() == fv.take(i as int));
            assert(fv.take(i + 1).last() == folders@[i as int]@);
        }
        if contains_string(names, &folders[i]) {
            n += 1;
        }
        i += 1;
    }
    proof {
        assert(fv.take(fv.len() as int) == fv);
    }
    n
}

/// The camera whose card has these directories. The names are given in lower
/// case.
pub fn kind_of_folders(names: &Vec<String>) -> (r: Option<CameraKind>)
    ensures
        r == kind_in(crate::text::views(names@)),
{
    if count_matches(&wolfbox_folder_list(), names) >= WOLFBOX_MIN_MATCH {
        Some(CameraKind::WolfBox)
    } else if count_matches(&thinkware_folder_list(), names) >= THINKWARE_MIN_MATCH {
        Some(CameraKind::Thinkware)
    } else if count_matches(&seventymai_folder_list(), names) >= SEVENTYMAI_MIN_MATCH {
        Some(CameraKind::SeventyMai)
    } else {
        None
    }
}

/// The names in lower case.
pub open spec fn lowered(names: Seq<Seq<char>>) -> Seq<Seq<char>> {
    names.map_values(|n: Seq<char>| crate::text::lowercase(n))
}

/// The camera whose card has these directories in its root, in upper or lower
/// case. Where the root cannot be read there is none.
pub open spec fn kind_of_root(dir_names: Option<Vec<String>>) -> Option<CameraKind> {
    match dir_names {
        Some(names) => kind_in(lowered(crate::text::views(names@))),
        None => None,
    }
}

/// The camera whose card has these directories in its root.
pub fn detect_dashcam_kind(dir_names: &Option<Vec<String>>) -> (r: Option<CameraKind>)
    ensures
        r == kind_of_root(*dir_names),
        dir_names matches Some(names) ==> (forall|i: int|
            0 <= i < names.len() ==> crate::text::is_ascii_text(#[trigger] names@[i]@))
            ==> r == kind_in(
            crate::text::views(names@).map_values(|n: Seq<char>| crate::text::ascii_lower(n)),
        ),
{
    let names = match dir_names {
        Some(v) => v,
        None => {
            return None;
        },
    };
    let ghost nv = crate::text::views(names@);
    let mut lower: Vec<String> = Vec::new();
    let mut i: usize = 0;
    while i < names.len()
        invariant
            i <= names.len(),
            nv == crate::text::views(names@),
            crate::text::views(lower@) == lowered(nv).take(i as int),
            forall|k: int|
                0 <= k < i && crate::text::is_ascii_text(#[trigger] names@[k]@)
                    ==> crate::text::lowercase(names@[k]@) == crate::text::ascii_lower(
                    names@[k]@,
                ),
        decreases names.len() - i,
    {
        let l = to_lowercase(names[i].as_str());
        let ghost before = lower@;
        let ghost lv = l@;
        lower.push(l);
        proof {
            assert(nv[i as int] == names@[i as int]@);
            assert(lowered(nv)[i as int] == lv);
            assert(crate::text::views(lower@) == crate::text::views(before).push(lv));
            assert(lowered(nv).take(i + 1) == lowered(nv).take(i as int).push(lv));
        }
        i += 1;
    }
    proof {
        assert(lowered(nv).take(nv.len() as int) == lowered(nv));
        let by_ascii = nv.map_values(|n: Seq<char>| crate::text::ascii_lower(n));
        if forall|k: int| 0 <= k < names.len() ==> crate::text::is_ascii_text(#[trigger] names@[k]@) {
            assert forall|k: int| 0 <= k < nv.len() implies lowered(nv)[k] == by_ascii[k] by {
                assert(nv[k] == names@[k]@);
            }
            assert(lowered(nv) == by_ascii);
        }
    }
    kind_of_folders(&lower)
}

/// The number of files on a card and their size together. Files that only hold
/// space do not count.
pub fn count_files_and_size(files: &Vec<WalkedFile>) -> (r: (u32, u64))
    requires
        files.len() <= u32::MAX,
        super::types::sum_sizes(super::types::real_files(files@)) <= u64::MAX,
    ensures
        r.0 == super::types::real_files(files@).len(),
        r.1 == super::types::sum_sizes(super::types::real_files(files@)),
{
    let ghost p = |f: WalkedFile| !super::types::is_placeholder(f.name@);
    let mut count: u32 = 0;
    let mut total: u64 = 0;
    let mut i: usize = 0;
    proof {
        reveal(Seq::filter);
        assert(files@.take(0).filter(p) == Seq::<WalkedFile>::empty());
    }
    while i < files.len()
        invariant
            i <= files.len(),
            files.len() <= u32::MAX,
            count <= i,
            p == (|f: WalkedFile| !super::types::is_placeholder(f.name@)),
            super::types::sum_sizes(files@.filter(p)) <= u64::MAX,
            count == files@.take(i as int).filter(p).len(),
            total == super::types::sum_sizes(files@.take(i as int).filter(p)),
        decreases files.len() - i,
    {
        proof {
            reveal(Seq::filter);
            assert(files@.take(i + 1).drop_last() == files@.take(i as int));
            assert(files@.take(i + 1).last() == files@[i as int]);
            lemma_sum_grows(files@, p, i + 1);
        }
        if !is_prealloc(files[i].name.as_str()) {
            proof {
                let u = files@.take(i as int).filter(p);
                assert(u.push(files@[i as int]).drop_last() == u);
            }
            count += 1;
            total += files[i].size;
        }
        i += 1;
    }
    proof {
        assert(files@.take(files@.len() as int) == files@);
    }
    (count, total)
}

pub(crate) proof fn lemma_sum_grows(
    files: Seq<WalkedFile>,
    p: spec_fn(WalkedFile) -> bool,
    n: int,
)
    requires
        0 <= n <= files.len(),
    ensures
        super::types::sum_sizes(files.take(n).filter(p)) <= super::types::sum_sizes(
            files.filter(p),
        ),
    decreases files.len(),
{
    reveal(Seq::filter);
    if n == files.len() {
        assert(files.take(n) == files);
    } else {
        let u = files.drop_last();
        lemma_sum_grows(u, p, n);
        assert(u.take(n) == files.take(n));
        if p(files.last()) {
            assert(u.filter(p).push(files.last()).drop_last() == u.filter(p));
        }
    }
}

// ------------------------------------------------------------------------- Linux

/// The directories under which drives appear.
pub open spec fn mount_roots(user: Option<Seq<char>>) -> Seq<Seq<char>> {
    let shared = seq!["/media"@, "/mnt"@, "/run/media"@];
    match user {
        Some(u) => if u.len() > 0 {
            seq!["/run/media/"@ + u, "/media/"@ + u] + shared
        } else {
            shared
        },
        None => shared,
    }
}

/// The directories under which drives appear, for the user of this name.
pub fn linux_mount_roots(user: &Option<String>) -> (r: Vec<String>)
    ensures
        crate::text::views(r@) == mount_roots(crate::text::opt_view(*user)),
{
    let mut v: Vec<String> = Vec::new();
    if let Some(u) = user {
        let c = crate::text::chars_of(u.as_str());
        if c.len() > 0 {
            push_text(&mut v, concat2("/run/media/", u.as_str()).as_str());
            push_text(&mut v, concat2("/media/", u.as_str()).as_str());
        }
    }
    push_text(&mut v, "/media");
    push_text(&mut v, "/mnt");
    push_text(&mut v, "/run/media");
    proof {
        assert(crate::text::views(v@) == mount_roots(crate::text::opt_view(*user)));
    }
    v
}

/// What stands under a directory of mounted drives: its path, the path without
/// links, whether it is a directory, and the directories in it.
#[derive(Debug)]
pub struct MountChild {
    pub path: String,
    pub key: String,
    pub is_dir: bool,
    pub dir_names: Option<Vec<String>>,
}

/// A card: the place among the given directories, and its camera.
#[derive(Debug)]
pub struct Card {
    pub child: usize,
    pub path: String,
    pub label: String,
    pub kind: CameraKind,
}

/// The directory is the first one with its path without links.
pub open spec fn is_first(children: Seq<MountChild>, i: int) -> bool {
    forall|j: int|
        0 <= j < i ==> !((#[trigger] children[j]).is_dir && children[j].key@ == children[i].key@)
}

/// The directory is a card, and was not met before under another name.
pub open spec fn is_card(children: Seq<MountChild>, i: int) -> bool {
    &&& children[i].is_dir
    &&& is_first(children, i)
    &&& kind_of_root(children[i].dir_names) is Some
}

/// The places of the cards.
pub open spec fn card_places(children: Seq<MountChild>, n: int) -> Seq<int>
    decreases n,
{
    if n <= 0 {
        Seq::empty()
    } else if is_card(children, n - 1) {
        card_places(children, n - 1).push(n - 1)
    } else {
        card_places(children, n - 1)
    }
}

/// What a card is called: like its directory.
pub open spec fn card_label(path: Seq<char>) -> Seq<char> {
    match crate::paths::file_name(path) {
        Some(n) => n,
        None => "sd"@,
    }
}

fn is_first_child(children: &Vec<MountChild>, i: usize) -> (r: bool)
    requires
        i < children.len(),
    ensures
        r == is_first(children@, i as int),
{
    let mut j: usize = 0;
    while j < i
        invariant
            j <= i < children.len(),
            forall|k: int|
                0 <= k < j ==> !((#[trigger] children@[k]).is_dir && children@[k].key@
                    == children@[i as int].key@),
        decreases i - j,
    {
        if children[j].is_dir && same_str(children[j].key.as_str(), children[i].key.as_str()) {
            return false;
        }
        j += 1;
    }
    true
}

/// The cards among mounted drives, each once.
pub fn scan_linux_mount_roots(children: &Vec<MountChild>) -> (r: Vec<Card>)
    ensures
        ({
            let at = card_places(children@, children.len() as int);
            &&& r.len() == at.len()
            &&& forall|k: int|
                0 <= k < r.len() ==> {
                    &&& (#[trigger] r@[k]).child == at[k]
                    &&& r@[k].path@ == children@[at[k]].key@
                    &&& r@[k].label@ == card_label(children@[at[k]].path@)
                    &&& kind_of_root(children@[at[k]].dir_names) == Some(r@[k].kind)
                }
        }),
{
    let mut out: Vec<Card> = Vec::new();
    let mut i: usize = 0;
    while i < children.len()
        invariant
            i <= children.len(),
            out.len() == card_places(children@, i as int).len(),
            forall|k: int|
                0 <= k < out.len() ==> {
                    let at = card_places(children@, i as int);
                    &&& (#[trigger] out@[k]).child == at[k]
                    &&& out@[k].path@ == children@[at[k]].key@
                    &&& out@[k].label@ == card_label(children@[at[k]].path@)
                    &&& kind_of_root(children@[at[k]].dir_names) == Some(out@[k].kind)
                },
        decreases children.len() - i,
    {
        let c = &children[i];
        if c.is_dir && is_first_child(children, i) {
            if let Some(kind) = detect_dashcam_kind(&c.dir_names) {
                let label = match file_name_of(c.path.as_str()) {
                    Some(n) => n,
                    None => owned("sd"),
                };
                out.push(Card { child: i, path: owned(c.key.as_str()), label, kind });
            }
        }
        i += 1;
    }
    out
}

/// The card as a source of files.
pub open spec fn is_source_of(
    s: ImportSource,
    card: Card,
    files: Seq<WalkedFile>,
    writable: bool,
) -> bool {
    &&& s.path == card.path
    &&& s.label == card.label
    &&& s.read_only == !writable
    &&& s.file_count == super::types::real_files(files).len()
    &&& s.total_bytes == super::types::sum_sizes(super::types::real_files(files))
    &&& s.detected_kind == Some(card.kind)
}

fn source_of_card(card: Card, files: &Vec<WalkedFile>, writable: bool) -> (r: ImportSource)
    requires
        files.len() <= u32::MAX,
        super::types::sum_sizes(super::types::real_files(files@)) <= u64::MAX,
    ensures
        is_source_of(r, card, files@, writable),
{
    let (file_count, total_bytes) = count_files_and_size(files);
    ImportSource {
        path: card.path,
        label: card.label,
        read_only: !writable,
        file_count,
        total_bytes,
        detected_kind: Some(card.kind),
    }
}

/// The cards as sources of files, given for each the files on it and whether it
/// can be written to.
pub fn find_sd_cards(cards: Vec<Card>, files: &Vec<Vec<WalkedFile>>, writable: &Vec<bool>) -> (r:
    Result<Vec<ImportSource>, AppError>)
    requires
        files.len() == cards.len(),
        writable.len() == cards.len(),
        forall|i: int|
            0 <= i < files.len() ==> (#[trigger] files@[i])@.len() <= u32::MAX
                && super::types::sum_sizes(super::types::real_files(files@[i]@)) <= u64::MAX,
    ensures
        r matches Ok(v) && v.len() == cards.len() && forall|i: int|
            0 <= i < cards.len() ==> is_source_of(
                #[trigger] v@[i],
                cards@[i],
                files@[i]@,
                writable@[i],
            ),
{
    let ghost all = cards@;
    let mut out: Vec<ImportSource> = Vec::new();
    let mut n: usize = 0;
    for c in it: cards
        invariant
            it.seq() == all,
            n == it.index(),
            files.len() == all.len(),
            writable.len() == all.len(),
            forall|i: int|
                0 <= i < files.len() ==> (#[trigger] files@[i])@.len() <= u32::MAX
                    && super::types::sum_sizes(super::types::real_files(files@[i]@)) <= u64::MAX,
            out.len() == n,
            forall|i: int|
                0 <= i < n ==> is_source_of(
                    #[trigger] out@[i],
                    all[i],
                    files@[i]@,
                    writable@[i],
                ),
    {
        let s = source_of_card(c, &files[n], writable[n]);
        out.push(s);
        n += 1;
    }
    Ok(out)
}

// ----------------------------------------------------------------------- Windows

/// Bit `i` of the mask is set.
pub open spec fn has_bit(mask: u32, i: u32) -> bool {
    mask & (1u32 << i) != 0
}

/// The letter of a drive.
pub open spec fn drive_letter(i: int) -> char {
    (65 + i) as char
}

/// The numbers of the drives in a mask, below `n`.
pub open spec fn drives_in(mask: u32, n: nat) -> Seq<u32>
    decreases n,
{
    if n == 0 {
        Seq::empty()
    } else if has_bit(mask, (n - 1) as u32) {
        drives_in(mask, (n - 1) as nat).push((n - 1) as u32)
    } else {
        drives_in(mask, (n - 1) as nat)
    }
}

/// The numbers of the drives that there are, given the mask that the system
/// reports. An empty mask means that it could not tell.
pub fn logical_drives(mask: u32) -> (r: Result<Vec<u32>, AppError>)
    ensures
        match r {
            Ok(v) => mask != 0 && v@ == drives_in(mask, 26),
            Err(e) => mask == 0 && crate::error::is_internal(e, "GetLogicalDrives failed"@),
        },
{
    if mask == 0 {
        return Err(AppError::Internal(owned("GetLogicalDrives failed")));
    }
    let mut out: Vec<u32> = Vec::new();
    let mut i: u32 = 0;
    while i < 26
        invariant
            i <= 26,
            out@ == drives_in(mask, i as nat),
        decreases 26 - i,
    {
        if mask & (1u32 << i) != 0 {
            out.push(i);
        }
        i += 1;
    }
    Ok(out)
}

/// The root of a drive.
pub fn drive_root(i: u32) -> (r: String)
    requires
        i < 26,
    ensures
        r@ == seq![drive_letter(i as int)] + ":\\"@,
{
    let mut s = String::new();
    s.push((65 + i as u8) as char);
    let r = concat2(s.as_str(), ":\\");
    proof {
        assert(s@ == seq![drive_letter(i as int)]);
    }
    r
}

/// The card in a drive, where it holds one that can be taken out.
pub fn card_in_drive(i: u32, drive_type: u32, dir_names: &Option<Vec<String>>) -> (r: Option<Card>)
    requires
        i < 26,
    ensures
        match r {
            Some(c) => drive_type == DRIVE_REMOVABLE && kind_of_root(*dir_names) == Some(c.kind)
                && c.child == i && c.path@ == seq![drive_letter(i as int)] + ":\\"@ && c.label@
                == "sd-"@.push(drive_letter(i as int)),
            None => drive_type != DRIVE_REMOVABLE || kind_of_root(*dir_names) is None,
        },
{
    if drive_type != DRIVE_REMOVABLE {
        return None;
    }
    match detect_dashcam_kind(dir_names) {
        None => None,
        Some(kind) => {
            let mut label = owned("sd-");
            label.push((65 + i as u8) as char);
            Some(Card { child: i as usize, path: drive_root(i), label, kind })
        },
    }
}

/// A card is found once, whatever ways lead to it.
pub proof fn cards_are_found_once(children: Seq<MountChild>, n: int, a: int, b: int)
    requires
        0 <= n <= children.len(),
        0 <= a < b < card_places(children, n).len(),
    ensures
        children[card_places(children, n)[a]].key@ != children[card_places(children, n)[b]].key@,
    decreases n,
{
    if n > 0 {
        lemma_places(children, n - 1);
        let u = card_places(children, n - 1);
        if b < u.len() {
            cards_are_found_once(children, n - 1, a, b);
        } else {
            assert(is_card(children, u[a]));
            assert(children[u[a]].is_dir);
        }
    }
}

proof fn lemma_places(children: Seq<MountChild>, n: int)
    requires
        0 <= n <= children.len(),
    ensures
        forall|k: int|
            0 <= k < card_places(children, n).len() ==> 0 <= #[trigger] card_places(children, n)[k]
                < n && is_card(children, card_places(children, n)[k]),
    decreases n,
{
    if n > 0 {
        lemma_places(children, n - 1);
        let u = card_places(children, n - 1);
        assert forall|k: int| 0 <= k < card_places(children, n).len() implies 0
            <= #[trigger] card_places(children, n)[k] < n && is_card(
            children,
            card_places(children, n)[k],
        ) by {
            if k < u.len() {
                assert(card_places(children, n)[k] == u[k]);
            }
        }
    }
}

/// A character as UTF-16: one unit, or a pair of surrogates.
pub open spec fn utf16_of(c: char) -> Seq<u16> {
    let n = c as u32;
    if n < 0x10000 {
        seq![n as u16]
    } else {
        seq![(0xd800 + (n - 0x10000) / 0x400) as u16, (0xdc00 + (n - 0x10000) % 0x400) as u16]
    }
}

/// A text as UTF-16.
pub open spec fn utf16(s: Seq<char>) -> Seq<u16>
    decreases s.len(),
{
    if s.len() == 0 {
        Seq::empty()
    } else {
        utf16(s.drop_last()) + utf16_of(s.last())
    }
}

/// A text as UTF-16 with a zero at its end, as Windows takes it.
pub fn to_wide_null(s: &str) -> (r: Vec<u16>)
    ensures
        r@ == utf16(s@).push(0),
{
    let c = crate::text::chars_of(s);
    let mut out: Vec<u16> = Vec::new();
    let mut i: usize = 0;
    proof {
        assert(c@.take(0).len() == 0);
    }
    while i < c.len()
        invariant
            i <= c.len(),
            out@ == utf16(c@.take(i as int)),
        decreases c.len() - i,
    {
        let ghost before = out@;
        proof {
            assert(c@.take(i + 1).drop_last() == c@.take(i as int));
            assert(c@.take(i + 1).last() == c@[i as int]);
        }
        let n: u32 = c[i] as u32;
        if n < 0x10000 {
            out.push(n as u16);
        } else {
            out.push((0xd800 + (n - 0x10000) / 0x400) as u16);
            out.push((0xdc00 + (n - 0x10000) % 0x400) as u16);
        }
        proof {
            assert(out@ == before + utf16_of(c@[i as int]));
        }
        i += 1;
    }
    proof {
        assert(c@.take(c@.len() as int) == c@);
    }
    out.push(0);
    out
}

} // verus!
