//! What an import does with the files of a card.

use crate::import::discovery::MountChild;
use crate::import::distribute::{Category, FileOutcome, FilePlan};
use crate::import::types::{FileEntry, UnknownFile, WalkedFile};
use crate::import::{RunView, SourceEvent, SourcePhase};
use crate::scan::naming::CameraKind;
use vstd::prelude::*;

verus! {

// ------------------------------------------------------------------- names

proof fn lemma_last_dot(name: Seq<char>)
    ensures
        match crate::import::distribute::last_dot(name) {
            Some(i) => 0 <= i < name.len() && name[i] == '.' && forall|k: int|
                i < k < name.len() ==> #[trigger] name[k] != '.',
            None => forall|k: int| 0 <= k < name.len() ==> #[trigger] name[k] != '.',
        },
    decreases name.len(),
{
    if name.len() > 0 && name.last() != '.' {
        let u = name.drop_last();
        lemma_last_dot(u);
        assert forall|k: int| 0 <= k < u.len() implies u[k] == #[trigger] name[k] by {}
        assert(name[name.len() - 1] == name.last());
    }
}

/// A name with an extension is its stem, a dot and the extension, in which there is no
/// dot; a name without one is its own stem. A dot at the start begins no extension.
pub proof fn names_are_stem_and_extension(name: Seq<char>)
    ensures
        ({
            let stem = crate::import::distribute::stem_of(name);
            match crate::import::distribute::extension_of(name) {
                Some(e) => stem.len() > 0 && name == stem + seq!['.'] + e && forall|k: int|
                    0 <= k < e.len() ==> #[trigger] e[k] != '.',
                None => stem == name && forall|k: int|
                    1 <= k < name.len() ==> #[trigger] name[k] != '.',
            }
        }),
{
    lemma_last_dot(name);
    match crate::import::distribute::last_dot(name) {
        Some(i) => {
            if i > 0 {
                assert(name =~= name.take(i) + seq!['.'] + name.skip(i + 1));
                let e = name.skip(i + 1);
                assert forall|k: int| 0 <= k < e.len() implies #[trigger] e[k] != '.' by {
                    assert(e[k] == name[i + 1 + k]);
                }
            }
        },
        None => {},
    }
}

/// Another name for a file has the number behind its stem, and its extension.
pub proof fn numbers_stand_before_the_extension(name: Seq<char>, n: nat)
    ensures
        ({
            let k = crate::import::distribute::stem_of(name).len() as int;
            crate::import::distribute::numbered(name, n) == name.take(k) + seq!['_']
                + crate::text::decimal(n) + name.skip(k)
        }),
{
    names_are_stem_and_extension(name);
    reveal_strlit("_");
    reveal_strlit(".");
    reveal_strlit("");
    assert("_"@ =~= seq!['_']);
    assert("."@ =~= seq!['.']);
    assert(""@ =~= Seq::empty());
    let stem = crate::import::distribute::stem_of(name);
    let k = stem.len() as int;
    assert(name.take(k) =~= stem);
    match crate::import::distribute::extension_of(name) {
        Some(e) => {
            assert(name.skip(k) =~= seq!['.'] + e);
        },
        None => {
            assert(name.skip(k) =~= Seq::empty());
        },
    }
}

/// A file that holds space is one, whatever else its name says; then come what the user
/// does not want, logs of positions, videos and photos by their extension, and of every
/// other file the user is asked.
pub proof fn kinds_go_by_the_name(name: Seq<char>, ext: Seq<char>, ignored: bool)
    ensures
        ({
            let c = crate::import::distribute::category(name, ext, ignored);
            let holds_space = name.len() >= 14 && name.take(14) == ".PreAllocFile_"@;
            let log = crate::gps::seventy_mai::is_log_name(name);
            let photo = ext == ".jpg"@ || ext == ".jpeg"@ || ext == ".png"@;
            &&& c == Category::Placeholder <==> holds_space
            &&& c == Category::Ignored <==> !holds_space && ignored
            &&& c == Category::PositionLog <==> !holds_space && !ignored && log
            &&& c == Category::Video <==> !holds_space && !ignored && !log && ext == ".mp4"@
            &&& c == Category::Photo <==> !holds_space && !ignored && !log && photo
            &&& c == Category::Unknown <==> !holds_space && !ignored && !log && !photo && ext
                != ".mp4"@
        }),
{
    reveal_strlit(".PreAllocFile_");
    reveal_strlit(".mp4");
    reveal_strlit(".jpg");
    reveal_strlit(".jpeg");
    reveal_strlit(".png");
    assert(".PreAllocFile_"@.len() == 14);
    assert(name.len() >= 14 ==> name.take(14) =~= name.subrange(0, 14));
    assert(".mp4"@[1] == 'm');
    assert(".jpg"@[1] == 'j');
    assert(".jpeg"@[1] == 'j');
    assert(".png"@[1] == 'p');
}

/// Videos go to the directory of videos, photos to that of photos, and logs of
/// positions to the root, all under their own names; the user is asked about the copy
/// that was made.
pub proof fn files_go_where_their_kind_belongs(
    p: FilePlan,
    c: Category,
    entry: FileEntry,
    root: Seq<char>,
)
    requires
        crate::import::distribute::is_plan(p, c, entry, root),
    ensures
        ({
            let name = crate::import::distribute::name_of(entry.rel_path@);
            match p {
                FilePlan::Discard => c == Category::Placeholder || c == Category::Ignored,
                FilePlan::KeepLog { dest } => c == Category::PositionLog && dest@
                    == crate::paths::path_join(root, name),
                FilePlan::Place { dest_dir, filename, is_video } => filename@ == name && (c
                    == Category::Video && is_video && dest_dir@ == crate::paths::path_join(
                    root,
                    "Videos"@,
                ) || c == Category::Photo && !is_video && dest_dir@ == crate::paths::path_join(
                    root,
                    "Photos"@,
                )),
                FilePlan::Ask(u) => c == Category::Unknown && u.staged_path@ == entry.staged_path@
                    && u.rel_path@ == entry.rel_path@ && u.filename@ == name && u.size
                    == entry.size,
            }
        }),
{
}

/// Digits, as many as given.
pub open spec fn is_number(s: Seq<char>, n: nat) -> bool {
    s.len() == n && crate::text::all_digits(s)
}

proof fn lemma_digits_clear(s: Seq<char>, c: char)
    requires
        crate::text::all_digits(s),
        !crate::text::is_digit(c),
    ensures
        !s.contains(c),
{
    if s.contains(c) {
        let k = choose|k: int| 0 <= k < s.len() && s[k] == c;
        assert(crate::text::is_digit(s[k]));
    }
}

/// A name that begins with a year, a month and a day, with underscores between them,
/// gives this date.
pub proof fn dates_are_read_from_names(
    path: Seq<char>,
    y: Seq<char>,
    m: Seq<char>,
    d: Seq<char>,
    rest: Seq<char>,
)
    requires
        is_number(y, 4),
        is_number(m, 2),
        is_number(d, 2),
        crate::import::distribute::stem_of(crate::import::distribute::name_of(path)) == y + seq![
            '_',
        ] + m + seq!['_'] + d + seq!['_'] + rest,
    ensures
        crate::import::distribute::date_in(path) == Some(y + seq!['-'] + m + seq!['-'] + d),
{
    let stem = crate::import::distribute::stem_of(crate::import::distribute::name_of(path));
    lemma_digits_clear(y, '_');
    lemma_digits_clear(m, '_');
    lemma_digits_clear(d, '_');
    let a = y;
    let b = m + seq!['_'] + d + seq!['_'] + rest;
    let c = d + seq!['_'] + rest;
    assert(stem =~= y + seq!['_'] + b);
    assert(b =~= m + seq!['_'] + c);
    crate::laws::text::lemma_split_concat(y, b, '_');
    crate::laws::text::lemma_split_concat(m, c, '_');
    crate::laws::text::lemma_split_concat(d, rest, '_');
    crate::laws::text::lemma_split_one(y, '_');
    crate::laws::text::lemma_split_one(m, '_');
    crate::laws::text::lemma_split_one(d, '_');
    let p = crate::text::split(stem, '_');
    assert(p[0] == y && p[1] == m && p[2] == d);
    reveal_strlit("-");
    assert("-"@ =~= seq!['-']);
}

/// So does a name that is nothing but the date; a name that begins otherwise gives none.
pub proof fn bare_dates_are_read_from_names(
    path: Seq<char>,
    y: Seq<char>,
    m: Seq<char>,
    d: Seq<char>,
)
    requires
        !y.contains('_'),
        !m.contains('_'),
        !d.contains('_'),
        crate::import::distribute::stem_of(crate::import::distribute::name_of(path)) == y + seq![
            '_',
        ] + m + seq!['_'] + d,
    ensures
        is_number(y, 4) && is_number(m, 2) && is_number(d, 2)
            ==> crate::import::distribute::date_in(path) == Some(
            y + seq!['-'] + m + seq!['-'] + d,
        ),
        !(is_number(y, 4) && is_number(m, 2) && is_number(d, 2))
            ==> crate::import::distribute::date_in(path) is None,
{
    let stem = crate::import::distribute::stem_of(crate::import::distribute::name_of(path));
    let b = m + seq!['_'] + d;
    assert(stem =~= y + seq!['_'] + b);
    crate::laws::text::lemma_split_concat(y, b, '_');
    crate::laws::text::lemma_split_concat(m, d, '_');
    crate::laws::text::lemma_split_one(y, '_');
    crate::laws::text::lemma_split_one(m, '_');
    crate::laws::text::lemma_split_one(d, '_');
    let p = crate::text::split(stem, '_');
    assert(p.len() == 3 && p[0] == y && p[1] == m && p[2] == d);
    reveal_strlit("-");
    assert("-"@ =~= seq!['-']);
}

/// A file whose name is taken is a duplicate exactly where the contents are the same; any
/// other gets the first numbered name that is free, in the same directory.
pub proof fn taken_names_get_the_first_free_number(
    source: Seq<u8>,
    existing: Seq<u8>,
    dir: Seq<char>,
    name: Seq<char>,
    taken: Seq<Seq<char>>,
    r: crate::import::distribute::Placement,
)
    requires
        crate::import::distribute::is_placement(source, existing, dir, name, taken, r),
    ensures
        r is Duplicate <==> source == existing,
        r matches crate::import::distribute::Placement::Renamed { dest, name: n, warning } ==> {
            let k = crate::import::distribute::stem_of(name).len() as int;
            &&& !taken.contains(n@)
            &&& dest@ == crate::paths::path_join(dir, n@)
            &&& exists|i: nat|
                1 <= i && n@ == name.take(k) + seq!['_'] + (#[trigger] crate::text::decimal(i))
                    + name.skip(k)
        },
{
    if let crate::import::distribute::Placement::Renamed { dest, name: n, warning } = r {
        let i = choose|i: nat|
            1 <= i && n@ == #[trigger] crate::import::distribute::numbered(name, i) && forall|m: nat|
                1 <= m < i ==> taken.contains(
                    #[trigger] crate::import::distribute::numbered(name, m),
                );
        numbers_stand_before_the_extension(name, i);
        let d = crate::text::decimal(i);
    }
}

/// Files are copied one after the other, each from its place in the source to the same
/// place under the directory of the copies; a cancelled import copies nothing more.
pub proof fn files_are_copied_to_their_place(
    s: crate::import::stage::Staging,
    cancelled: bool,
    r: Result<Option<crate::import::stage::CopyStep>, crate::error::AppError>,
)
    requires
        s.wf(),
        crate::import::stage::is_next_copy(s, cancelled, r),
    ensures
        s.next == s.manifest@.len() ==> r is Ok && r->Ok_0 is None,
        s.next < s.manifest@.len() && cancelled ==> r is Err,
        s.next < s.manifest@.len() && !cancelled ==> {
            let f = s.manifest@[s.next as int];
            &&& r is Ok && r->Ok_0 is Some
            &&& r->Ok_0->0.src@ == crate::paths::path_join(s.source_path@, f.rel_path@)
            &&& r->Ok_0->0.dst@ == crate::paths::path_join(s.staging_dir@, f.rel_path@)
            &&& !f.verified
        },
{
}

/// What the user decides of a file is done to this file: it is deleted and its name or
/// its extension is remembered, or it is moved under its own name.
pub proof fn decisions_are_carried_out(
    s: crate::import::distribute::DecisionStep,
    d: crate::import::types::UnknownFileDecision,
    root: Seq<char>,
)
    requires
        crate::import::distribute::is_step(s, d, root),
    ensures
        ({
            let name = crate::import::distribute::name_of(d.staged_path@);
            match s {
                crate::import::distribute::DecisionStep::DeleteAndIgnoreName { path, filename } =>
                d.action == crate::import::types::UnknownFileAction::DeleteFilename && path@
                    == d.staged_path@ && filename@ == name,
                crate::import::distribute::DecisionStep::DeleteAndIgnoreExtension {
                    path,
                    extension,
                } => d.action == crate::import::types::UnknownFileAction::DeleteExtension && path@
                    == d.staged_path@ && (extension@.len() == 0
                    <==> crate::import::distribute::extension_of(name) is None),
                crate::import::distribute::DecisionStep::MoveToOther { path, dir, dest } => d.action
                    == crate::import::types::UnknownFileAction::MoveToOther && path@
                    == d.staged_path@ && dir@ == crate::paths::path_join(root, "Other"@) && dest@
                    == crate::paths::path_join(crate::paths::path_join(root, "Other"@), name),
            }
        }),
{
    reveal_strlit(".");
    reveal_strlit("");
    assert("."@.len() == 1);
    assert(""@.len() == 0);
}

/// The copies of a source go to a directory of its own, under the hidden one for copies.
pub proof fn copies_go_to_their_own_directory(root: Seq<char>, label: Seq<char>)
    ensures
        crate::import::stage::staging_of(root, label) == crate::paths::path_join(
            crate::paths::path_join(root, ".staging"@),
            label,
        ),
{
}

/// A card is called like its directory, and drives appear in the user's own places
/// before the shared ones.
pub proof fn cards_are_called_like_their_directory(path: Seq<char>, user: Seq<char>)
    ensures
        crate::paths::file_name(path) is Some ==> crate::import::discovery::card_label(path)
            == crate::paths::file_name(path)->0,
        user.len() > 0 ==> ({
            let r = crate::import::discovery::mount_roots(Some(user));
            &&& r.len() == 5
            &&& r[0] == "/run/media/"@ + user && r[1] == "/media/"@ + user
            &&& r.skip(2) == crate::import::discovery::mount_roots(None)
        }),
        crate::import::discovery::mount_roots(None) == seq!["/media"@, "/mnt"@, "/run/media"@],
        crate::import::discovery::mount_roots(Some(Seq::empty()))
            == crate::import::discovery::mount_roots(None),
{
    if user.len() > 0 {
        let r = crate::import::discovery::mount_roots(Some(user));
        assert(r.skip(2) =~= crate::import::discovery::mount_roots(None));
    }
}

/// A source is its card: its place, its name, what it holds without the files that hold
/// space, whether it can be written to, and its camera.
pub proof fn sources_are_their_cards(
    s: crate::import::types::ImportSource,
    card: crate::import::discovery::Card,
    files: Seq<WalkedFile>,
    writable: bool,
)
    requires
        crate::import::discovery::is_source_of(s, card, files, writable),
    ensures
        s.path == card.path && s.label == card.label,
        s.read_only <==> !writable,
        s.file_count == crate::import::types::real_files(files).len(),
        s.total_bytes == crate::import::types::sum_sizes(crate::import::types::real_files(files)),
        s.detected_kind == Some(card.kind),
{
}

// ----------------------------------------------------------------- the counts

/// One more outcome adds one to exactly one of the counts, the one that its kind
/// belongs to; a file to ask about is put behind the others.
pub proof fn outcomes_are_counted_by_their_kind(o: Seq<FileOutcome>, x: FileOutcome)
    ensures
        ({
            let r = o.push(x);
            &&& crate::import::distribute::videos(r) - crate::import::distribute::videos(o)
                == if x is VideoMoved {
                1int
            } else {
                0
            }
            &&& crate::import::distribute::photos(r) - crate::import::distribute::photos(o)
                == if x is PhotoMoved {
                1int
            } else {
                0
            }
            &&& crate::import::distribute::duplicates(r) - crate::import::distribute::duplicates(o)
                == if x is Duplicate {
                1int
            } else {
                0
            }
            &&& crate::import::distribute::unknown_files(r) == match x {
                FileOutcome::Unknown(u) => crate::import::distribute::unknown_files(o).push(u),
                _ => crate::import::distribute::unknown_files(o),
            }
            &&& crate::import::distribute::videos(Seq::empty()) == 0
            &&& crate::import::distribute::photos(Seq::empty()) == 0
            &&& crate::import::distribute::duplicates(Seq::empty()) == 0
            &&& crate::import::distribute::unknown_files(Seq::empty()) == Seq::<
                UnknownFile,
            >::empty()
        }),
{
    assert(o.push(x).drop_last() =~= o);
}

/// The places of the files that are still there are all of them, in their order.
pub proof fn files_still_there_keep_their_places(present: Seq<bool>)
    ensures
        ({
            let r = crate::import::distribute::still_there(present);
            &&& forall|k: int|
                0 <= k < r.len() ==> 0 <= #[trigger] r[k] < present.len() && present[r[k]]
            &&& forall|i: int| 0 <= i < present.len() && #[trigger] present[i] ==> r.contains(i)
            &&& forall|a: int, b: int| 0 <= a < b < r.len() ==> #[trigger] r[a] < #[trigger] r[b]
        }),
    decreases present.len(),
{
    if present.len() > 0 {
        let u = present.drop_last();
        files_still_there_keep_their_places(u);
        let before = crate::import::distribute::still_there(u);
        let r = crate::import::distribute::still_there(present);
        assert(present[present.len() - 1] == present.last());
        assert forall|k: int| 0 <= k < before.len() implies 0 <= #[trigger] before[k]
            < present.len() && present[before[k]] by {
            assert(u[before[k]] == present[before[k]]);
        }
        assert forall|i: int| 0 <= i < present.len() && #[trigger] present[i] implies r.contains(
            i,
        ) by {
            if i < u.len() {
                assert(u[i]);
                let k = choose|k: int| 0 <= k < before.len() && before[k] == i;
                assert(r[k] == i);
            } else {
                assert(r[r.len() - 1] == i);
            }
        }
    }
}

/// The sizes of the files added up, from the first on.
pub open spec fn total_size(m: Seq<FileEntry>) -> nat
    decreases m.len(),
{
    if m.len() == 0 {
        0
    } else {
        (m[0].size + total_size(m.skip(1))) as nat
    }
}

proof fn lemma_total_last(m: Seq<FileEntry>)
    requires
        m.len() > 0,
    ensures
        total_size(m) == total_size(m.drop_last()) + m.last().size,
    decreases m.len(),
{
    if m.len() == 1 {
        assert(m.skip(1) =~= Seq::empty());
        assert(m.drop_last() =~= Seq::empty());
    } else {
        lemma_total_last(m.skip(1));
        assert(m.skip(1).drop_last() =~= m.drop_last().skip(1));
        assert(m.skip(1).last() == m.last());
        assert(m.drop_last()[0] == m[0]);
    }
}

/// The size of what is copied is the sizes of the files added up.
pub proof fn copies_add_up(m: Seq<FileEntry>)
    ensures
        crate::import::stage::content_size(crate::import::stage::contents(m)) == total_size(m),
    decreases m.len(),
{
    let c = crate::import::stage::contents(m);
    if m.len() > 0 {
        let u = m.drop_last();
        copies_add_up(u);
        lemma_total_last(m);
        assert(c.drop_last() =~= crate::import::stage::contents(u));
        assert(c.last().1 == m.last().size);
    }
}

/// What is to be copied of a walk is every file but those that hold space, each with
/// its path and its size; sizes add up file by file.
pub proof fn walks_give_all_real_files(files: Seq<WalkedFile>, f: WalkedFile)
    ensures
        ({
            let counts = !(f.name@.len() >= 14 && f.name@.take(14) == ".PreAllocFile_"@);
            &&& crate::import::stage::wanted(files.push(f)) == if counts {
                crate::import::stage::wanted(files).push((f.rel_path@, f.size))
            } else {
                crate::import::stage::wanted(files)
            }
            &&& crate::import::types::real_files(files.push(f)).len()
                - crate::import::types::real_files(files).len() == if counts {
                1int
            } else {
                0
            }
            &&& crate::import::types::sum_sizes(
                crate::import::types::real_files(files.push(f)),
            ) - crate::import::types::sum_sizes(crate::import::types::real_files(files))
                == if counts {
                f.size as int
            } else {
                0
            }
            &&& crate::import::stage::wanted(Seq::empty()).len() == 0
            &&& crate::import::types::sum_sizes(Seq::empty()) == 0
        }),
{
    reveal_strlit(".PreAllocFile_");
    assert(".PreAllocFile_"@.len() == 14);
    let name = f.name@;
    assert(name.len() >= 14 ==> name.take(14) =~= name.subrange(0, 14));
    reveal(Seq::filter);
    assert(files.push(f).drop_last() =~= files);
    let a = crate::import::types::real_files(files);
    let b = crate::import::types::real_files(files.push(f));
    assert(crate::import::types::is_placeholder(name) <==> name.len() >= 14 && name.take(14)
        == ".PreAllocFile_"@);
    if crate::import::types::is_placeholder(name) {
        assert(b == a);
    } else {
        assert(b == a.push(f));
        assert(b.drop_last() =~= a);
    }
    assert(crate::import::stage::wanted(files.push(f)) =~= if crate::import::types::is_placeholder(
        name,
    ) {
        crate::import::stage::wanted(files)
    } else {
        crate::import::stage::wanted(files).push((f.rel_path@, f.size))
    });
}

/// A hash is spelled with two digits for each byte, the higher half first.
pub proof fn hashes_are_spelled_byte_by_byte(b: Seq<u8>, i: int)
    requires
        0 <= i < b.len(),
    ensures
        crate::import::stage::hex(b).len() == 2 * b.len(),
        crate::import::stage::hex(b)[2 * i] == crate::ids::hex_digit((b[i] / 16) as nat),
        crate::import::stage::hex(b)[2 * i + 1] == crate::ids::hex_digit((b[i] % 16) as nat),
    decreases b.len(),
{
    let u = b.drop_last();
    if u.len() > 0 {
        hashes_are_spelled_byte_by_byte(u, 0);
    } else {
        assert(crate::import::stage::hex(u).len() == 0);
    }
    assert(crate::import::stage::hex(u).len() == 2 * u.len());
    if i < u.len() {
        hashes_are_spelled_byte_by_byte(u, i);
        assert(u[i] == b[i]);
    } else {
        assert(b[i] == b.last());
    }
}

// ------------------------------------------------------------ the run of a source

/// What is known of a source, its name, place and whether it can be written to, never
/// changes, nor whether it may be wiped.
pub proof fn sources_keep_their_names(v: RunView, e: SourceEvent, cancelled: bool)
    ensures
        ({
            let r = crate::import::after_event(v, e, cancelled);
            &&& r.result.source_label == v.result.source_label
            &&& r.result.source_path == v.result.source_path
            &&& r.result.read_only == v.result.read_only
            &&& r.wipe_eligible == v.wipe_eligible
        }),
{
}

/// Once the copies are made, the source tells how many there are and how large, and
/// whether every one of them was found equal; without files the work is over.
pub proof fn copied_sources_tell_their_copies(v: RunView, m: Vec<FileEntry>, cancelled: bool)
    requires
        v.phase == SourcePhase::Stage,
        total_size(m@) <= u64::MAX,
        m@.len() <= u32::MAX,
    ensures
        ({
            let r = crate::import::after_event(v, SourceEvent::Staged(Ok(m)), cancelled);
            let equal = forall|i: int| 0 <= i < m@.len() ==> (#[trigger] m@[i]).verified;
            if m@.len() == 0 {
                &&& r.phase == SourcePhase::Done
                &&& r.result.no_files
                &&& r.result.error == v.result.error
            } else {
                &&& r.result.files_staged == m@.len()
                &&& r.result.bytes_staged == total_size(m@)
                &&& r.all_verified == equal
                &&& r.phase == if v.wipe_eligible && equal && !cancelled && !v.result.read_only {
                    SourcePhase::ConfirmWipe
                } else if cancelled {
                    SourcePhase::Cleanup
                } else {
                    SourcePhase::Distribute
                }
                &&& r.result.error == v.result.error && r.result.warnings == v.result.warnings
                &&& r.result.no_files == v.result.no_files && r.result.source_wiped
                    == v.result.source_wiped
            }
        }),
{
    copies_add_up(m@);
    assert(crate::import::are_verified(m@) <==> forall|i: int|
        0 <= i < m@.len() ==> (#[trigger] m@[i]).verified);
}

/// Once the copies are sorted, the source tells what became of them, and the user is
/// asked exactly where there are files to ask about.
pub proof fn sorted_sources_tell_what_became(
    v: RunView,
    d: crate::import::types::DistributeResult,
    unknowns: bool,
    cancelled: bool,
)
    requires
        v.phase == SourcePhase::Distribute,
    ensures
        ({
            let r = crate::import::after_event(
                v,
                SourceEvent::Distributed(Ok((d, unknowns))),
                cancelled,
            );
            &&& r.result.videos_moved == d.videos_moved
            &&& r.result.photos_moved == d.photos_moved
            &&& r.result.dups_skipped == d.dups_skipped
            &&& r.result.earliest_date == crate::text::opt_view(d.earliest_date)
            &&& r.result.latest_date == crate::text::opt_view(d.latest_date)
            &&& r.result.files_staged == v.result.files_staged
            &&& r.result.bytes_staged == v.result.bytes_staged
            &&& r.result.error == v.result.error && r.result.warnings == v.result.warnings
            &&& r.phase == if unknowns {
                SourcePhase::AskUnknowns
            } else {
                SourcePhase::Cleanup
            }
        }),
{
}

/// A failure ends the work with its words where it concerns the files; a failed wipe or
/// clean-up is only a warning, put behind the others.
pub proof fn failures_are_told(v: RunView, err: crate::error::AppError, cancelled: bool)
    ensures
        ({
            let staged = crate::import::after_event(v, SourceEvent::Staged(Err(err)), cancelled);
            let sorted = crate::import::after_event(
                v,
                SourceEvent::Distributed(Err(err)),
                cancelled,
            );
            let wiped = crate::import::after_event(v, SourceEvent::Wiped(Err(err)), cancelled);
            let cleaned = crate::import::after_event(
                v,
                SourceEvent::CleanedUp(Err(err)),
                cancelled,
            );
            &&& v.phase == SourcePhase::Stage ==> staged.phase == SourcePhase::Done
                && staged.result.error == Some(err.words())
            &&& v.phase == SourcePhase::Distribute ==> sorted.phase == SourcePhase::Done
                && sorted.result.error == Some("Distribute failed: "@ + err.words())
            &&& v.phase == SourcePhase::Wipe ==> wiped.result.error == v.result.error
                && wiped.result.warnings == v.result.warnings.push("Wipe failed: "@ + err.words())
                && !(wiped.phase == SourcePhase::Done) && wiped.result.source_wiped
                == v.result.source_wiped
            &&& v.phase == SourcePhase::Cleanup ==> cleaned.phase == SourcePhase::Done
                && cleaned.result.error == v.result.error && cleaned.result.warnings
                == v.result.warnings.push("Cleanup error: "@ + err.words())
        }),
{
}

/// Where wiping and cleaning up succeed the source tells so, and nothing else changes;
/// what the user's decisions dealt with is counted.
pub proof fn successes_are_told(v: RunView, n: u32, cancelled: bool)
    ensures
        ({
            let wiped = crate::import::after_event(v, SourceEvent::Wiped(Ok(())), cancelled);
            let cleaned = crate::import::after_event(v, SourceEvent::CleanedUp(Ok(())), cancelled);
            let asked = crate::import::after_event(v, SourceEvent::UnknownsHandled(n), cancelled);
            &&& v.phase == SourcePhase::Wipe ==> wiped.result.source_wiped
                && wiped.result.warnings == v.result.warnings && wiped.result.error
                == v.result.error && wiped.phase == if cancelled {
                SourcePhase::Cleanup
            } else {
                SourcePhase::Distribute
            }
            &&& v.phase == SourcePhase::Cleanup ==> cleaned.phase == SourcePhase::Done
                && cleaned.result == v.result
            &&& v.phase == SourcePhase::AskUnknowns ==> asked.phase == SourcePhase::Cleanup
                && asked.result.unknown_files == n && asked.result.videos_moved
                == v.result.videos_moved && asked.result.error == v.result.error
        }),
{
}

/// Nothing is known of a source before its work: no file was copied, moved or wiped,
/// and nothing went wrong.
pub proof fn untouched_sources_tell_nothing(label: Seq<char>, path: Seq<char>, read_only: bool)
    ensures
        ({
            let r = crate::import::untouched(label, path, read_only);
            &&& r.source_label == label && r.source_path == path && r.read_only == read_only
            &&& r.files_staged == 0 && r.bytes_staged == 0 && !r.source_wiped
            &&& r.videos_moved == 0 && r.photos_moved == 0 && r.dups_skipped == 0
            &&& r.unknown_files == 0 && !r.no_files
            &&& r.earliest_date is None && r.latest_date is None && r.error is None
            &&& r.warnings.len() == 0
        }),
{
}

/// A source is refused where it lies in the library or holds it, and what is told of it
/// says which, and names the library.
pub proof fn overlaps_are_told_apart(source: Seq<char>, root: Seq<char>)
    ensures
        ({
            let inside = crate::paths::lies_under(source, root);
            let around = crate::paths::lies_under(root, source);
            let words = crate::import::overlap(source, root);
            &&& words is None <==> !inside && !around
            &&& inside && !around ==> words is Some && crate::text::has_prefix(
                words->0,
                "Source folder is inside the library at "@ + root,
            )
            &&& around && !inside ==> words is Some && crate::text::has_prefix(
                words->0,
                "Source folder contains the library at "@ + root,
            )
            &&& inside && around ==> words is Some && crate::text::has_prefix(
                words->0,
                "Source folder is the library root"@,
            )
        }),
{
    crate::laws::text::prefixes_stand_at_the_start(
        Seq::empty(),
        "Source folder is inside the library at "@ + root,
        " \u{2014} pick a folder outside the library."@,
    );
    crate::laws::text::prefixes_stand_at_the_start(
        Seq::empty(),
        "Source folder contains the library at "@ + root,
        " \u{2014} pick a more specific folder."@,
    );
    reveal_strlit("Source folder is the library root \u{2014} pick a folder outside the library.");
    reveal_strlit("Source folder is the library root");
    assert("Source folder is the library root \u{2014} pick a folder outside the library."@.subrange(
        0,
        "Source folder is the library root"@.len() as int,
    ) =~= "Source folder is the library root"@);
}

/// The import is refused for the first source that overlaps with the library, and only
/// where there is one.
pub proof fn the_first_overlap_refuses(sources: Seq<Seq<char>>, root: Seq<char>, i: int)
    requires
        0 <= i <= sources.len(),
    ensures
        match crate::import::first_overlap(sources, root, i) {
            Some(words) => exists|k: int|
                i <= k < sources.len() && crate::import::overlap(#[trigger] sources[k], root)
                    == Some(words) && forall|j: int|
                    i <= j < k ==> crate::import::overlap(#[trigger] sources[j], root) is None,
            None => forall|j: int|
                i <= j < sources.len() ==> crate::import::overlap(#[trigger] sources[j], root)
                    is None,
        },
    decreases sources.len() - i,
{
    if i < sources.len() && crate::import::overlap(sources[i], root) is None {
        the_first_overlap_refuses(sources, root, i + 1);
        match crate::import::first_overlap(sources, root, i + 1) {
            Some(words) => {
                let k = choose|k: int|
                    i + 1 <= k < sources.len() && crate::import::overlap(#[trigger] sources[k], root)
                        == Some(words) && forall|j: int|
                        i + 1 <= j < k ==> crate::import::overlap(#[trigger] sources[j], root)
                            is None;
                assert(crate::import::overlap(sources[k], root) == Some(words));
            },
            None => {},
        }
    } else if i < sources.len() {
        assert(crate::import::overlap(sources[i], root) is Some);
    }
}

/// The directory of videos stands for the library that holds it; any other path stands
/// for itself.
pub proof fn libraries_hold_their_videos(path: Seq<char>)
    ensures
        ({
            let c = crate::paths::components(path);
            let videos = c.len() > 0 && c.last() != ".."@ && crate::text::ascii_lower(c.last())
                == "videos"@;
            crate::import::library_root(path) == if videos {
                crate::paths::path_of(path, c.drop_last())
            } else {
                path
            }
        }),
{
}

/// A lock names the process whose number it spells, alone or on a line.
pub proof fn locks_name_their_process(n: nat)
    requires
        n <= u32::MAX,
    ensures
        crate::import::owner_in(crate::text::decimal(n)) == Some(n),
        crate::import::owner_in(crate::text::decimal(n) + seq!['\n']) == Some(n),
{
    crate::text::decimal_spells_the_number(n);
    let d = crate::text::decimal(n);
    let l = d + seq!['\n'];
    assert(crate::text::is_digit(d[0]));
    assert(crate::text::is_digit(d[d.len() - 1]));
    assert(l[0] == d[0]);
    assert(crate::text::trim_start(d) == d);
    assert(crate::text::trim_end(d) == d);
    assert(crate::text::trim_start(l) == l);
    assert(l.last() == '\n');
    assert(l.drop_last() =~= d);
    assert(crate::text::trim_end(l) == crate::text::trim_end(d));
    assert(!(d.len() > 1 && d[0] == '+'));
}

// ---------------------------------------------------------------------- cards

proof fn lemma_matches(f: Seq<Seq<char>>, names: Seq<Seq<char>>, n: int)
    requires
        0 <= n <= f.len(),
    ensures
        crate::import::discovery::matches_in(f.take(n), names) <= crate::import::discovery::matches_in(
            f,
            names,
        ),
    decreases f.len(),
{
    if n < f.len() {
        lemma_matches(f.drop_last(), names, n);
        assert(f.drop_last().take(n) =~= f.take(n));
    } else {
        assert(f.take(n) =~= f);
    }
}

proof fn lemma_match_at(f: Seq<Seq<char>>, names: Seq<Seq<char>>, i: int)
    requires
        0 <= i < f.len(),
        names.contains(f[i]),
    ensures
        crate::import::discovery::matches_in(f.take(i + 1), names)
            == crate::import::discovery::matches_in(f.take(i), names) + 1,
{
    assert(f.take(i + 1).drop_last() =~= f.take(i));
    assert(f.take(i + 1).last() == f[i]);
}

/// Three of its folders make a Wolf Box.
pub proof fn three_folders_make_a_wolf_box(names: Seq<Seq<char>>, i: int, j: int, k: int)
    requires
        0 <= i < j < k < 9,
        names.contains(crate::import::discovery::wolfbox_folders()[i]),
        names.contains(crate::import::discovery::wolfbox_folders()[j]),
        names.contains(crate::import::discovery::wolfbox_folders()[k]),
    ensures
        crate::import::discovery::kind_in(names) == Some(CameraKind::WolfBox),
{
    let f = crate::import::discovery::wolfbox_folders();
    lemma_match_at(f, names, i);
    lemma_match_at(f, names, j);
    lemma_match_at(f, names, k);
    lemma_matches(f.take(j), names, i + 1);
    lemma_matches(f.take(k), names, j + 1);
    lemma_matches(f, names, k + 1);
    assert(f.take(j).take(i + 1) =~= f.take(i + 1));
    assert(f.take(k).take(j + 1) =~= f.take(j + 1));
}

/// A card is no camera's where fewer of its folders are there than make one: the count
/// of a camera's folders is at most the number of names.
pub proof fn no_folders_make_no_camera(names: Seq<Seq<char>>)
    requires
        forall|i: int|
            0 <= i < 9 ==> !names.contains(
                #[trigger] crate::import::discovery::wolfbox_folders()[i],
            ),
        forall|i: int|
            0 <= i < 4 ==> !names.contains(
                #[trigger] crate::import::discovery::thinkware_folders()[i],
            ),
        forall|i: int|
            0 <= i < 5 ==> !names.contains(
                #[trigger] crate::import::discovery::seventymai_folders()[i],
            ),
    ensures
        crate::import::discovery::kind_in(names) is None,
{
    lemma_no_matches(crate::import::discovery::wolfbox_folders(), names);
    lemma_no_matches(crate::import::discovery::thinkware_folders(), names);
    lemma_no_matches(crate::import::discovery::seventymai_folders(), names);
}

proof fn lemma_no_matches(f: Seq<Seq<char>>, names: Seq<Seq<char>>)
    requires
        forall|i: int| 0 <= i < f.len() ==> !names.contains(#[trigger] f[i]),
    ensures
        crate::import::discovery::matches_in(f, names) == 0,
    decreases f.len(),
{
    if f.len() > 0 {
        let u = f.drop_last();
        assert forall|i: int| 0 <= i < u.len() implies !names.contains(#[trigger] u[i]) by {
            assert(u[i] == f[i]);
        }
        lemma_no_matches(u, names);
        assert(f[f.len() - 1] == f.last());
    }
}

/// Two of its folders make a Thinkware, and four a 70mai, where the card is none of the
/// cameras before them.
pub proof fn folders_make_the_other_cameras(names: Seq<Seq<char>>)
    requires
        crate::import::discovery::matches_in(
            crate::import::discovery::wolfbox_folders(),
            names,
        ) < 3,
    ensures
        crate::import::discovery::matches_in(
            crate::import::discovery::thinkware_folders(),
            names,
        ) >= 2 ==> crate::import::discovery::kind_in(names) == Some(CameraKind::Thinkware),
        crate::import::discovery::matches_in(
            crate::import::discovery::thinkware_folders(),
            names,
        ) < 2 ==> crate::import::discovery::kind_in(names)
            == if crate::import::discovery::matches_in(
            crate::import::discovery::seventymai_folders(),
            names,
        ) >= 4 {
            Some(CameraKind::SeventyMai)
        } else {
            None
        },
{
}

/// The cards are all directories that are one and are met for the first time, in their
/// order.
pub proof fn cards_are_where_their_folders_are(children: Seq<MountChild>, n: int)
    requires
        0 <= n <= children.len(),
    ensures
        ({
            let r = crate::import::discovery::card_places(children, n);
            &&& forall|k: int|
                0 <= k < r.len() ==> 0 <= #[trigger] r[k] < n && children[r[k]].is_dir
                    && crate::import::discovery::kind_of_root(children[r[k]].dir_names) is Some
            &&& forall|i: int|
                0 <= i < n && (#[trigger] children[i]).is_dir
                    && crate::import::discovery::kind_of_root(children[i].dir_names) is Some && (
                forall|j: int|
                    0 <= j < i && (#[trigger] children[j]).is_dir ==> children[j].key@
                        != children[i].key@) ==> r.contains(i)
            &&& forall|a: int, b: int| 0 <= a < b < r.len() ==> #[trigger] r[a] < #[trigger] r[b]
        }),
    decreases n,
{
    if n > 0 {
        cards_are_where_their_folders_are(children, n - 1);
        let before = crate::import::discovery::card_places(children, n - 1);
        let r = crate::import::discovery::card_places(children, n);
        assert forall|i: int|
            0 <= i < n && (#[trigger] children[i]).is_dir
                && crate::import::discovery::kind_of_root(children[i].dir_names) is Some && (forall|
                j: int,
            |
                0 <= j < i && (#[trigger] children[j]).is_dir ==> children[j].key@
                    != children[i].key@) implies r.contains(i) by {
            if i < n - 1 {
                assert(before.contains(i));
                let k = choose|k: int| 0 <= k < before.len() && before[k] == i;
                assert(r[k] == i);
            } else {
                assert(crate::import::discovery::is_first(children, i));
                assert(r[r.len() - 1] == i);
            }
        }
    }
}

/// The drives are those whose bit is set, in the order of their letters.
pub proof fn drives_are_the_bits_set(mask: u32, n: nat)
    requires
        n <= 26,
    ensures
        ({
            let r = crate::import::discovery::drives_in(mask, n);
            &&& forall|k: int|
                0 <= k < r.len() ==> (#[trigger] r[k]) < n && mask & (1u32 << r[k]) != 0
            &&& forall|i: u32|
                i < n && mask & (#[trigger] (1u32 << i)) != 0 ==> r.contains(i)
            &&& forall|a: int, b: int| 0 <= a < b < r.len() ==> #[trigger] r[a] < #[trigger] r[b]
        }),
    decreases n,
{
    if n > 0 {
        drives_are_the_bits_set(mask, (n - 1) as nat);
        let before = crate::import::discovery::drives_in(mask, (n - 1) as nat);
        let r = crate::import::discovery::drives_in(mask, n);
        assert forall|i: u32| i < n && mask & (#[trigger] (1u32 << i)) != 0 implies r.contains(
            i,
        ) by {
            if i < n - 1 {
                let k = choose|k: int| 0 <= k < before.len() && before[k] == i;
                assert(r[k] == i);
            } else {
                assert(r[r.len() - 1] == i);
            }
        }
    }
}

/// A file that was to have a place counts as moved, as what it is, where it was moved, and
/// else as one that the library had; the others are what was planned for them.
pub proof fn outcomes_tell_what_was_done(r: FileOutcome, plan: FilePlan, moved: bool)
    requires
        crate::import::distribute::is_outcome(r, plan, moved),
    ensures
        r is Discarded <==> plan is Discard,
        r is LogKept <==> plan is KeepLog,
        r is Duplicate <==> plan is Place && !moved,
        r is VideoMoved || r is PhotoMoved <==> plan is Place && moved,
        plan matches FilePlan::Place { filename, is_video, .. } ==> (moved ==> (r is VideoMoved
            <==> is_video)) && (r matches FileOutcome::VideoMoved { filename: f } ==> f
            == filename),
        plan matches FilePlan::Ask(u) ==> r == FileOutcome::Unknown(u),
        r is Unknown <==> plan is Ask,
{
}

/// The drives have the letters from A to Z.
pub proof fn drives_have_their_letters(i: int)
    requires
        0 <= i < 26,
    ensures
        'A' <= crate::import::discovery::drive_letter(i) && crate::import::discovery::drive_letter(
            i,
        ) <= 'Z',
        crate::import::discovery::drive_letter(0) == 'A',
        crate::import::discovery::drive_letter(25) == 'Z',
        i < 25 ==> crate::import::discovery::drive_letter(i + 1) as int
            == crate::import::discovery::drive_letter(i) as int + 1,
{
}

/// A character is found again from its units.
pub proof fn units_spell_the_character(c: char)
    ensures
        ({
            let u = crate::import::discovery::utf16_of(c);
            let n = c as int;
            if n < 0x10000 {
                u.len() == 1 && u[0] == n
            } else {
                &&& u.len() == 2
                &&& 0xd800 <= u[0] < 0xdc00 && 0xdc00 <= u[1] < 0xe000
                &&& (u[0] - 0xd800) * 0x400 + (u[1] - 0xdc00) + 0x10000 == n
            }
        }),
{
    let n = c as u32;
    if n >= 0x10000 {
        let m = n - 0x10000;
        assert(0 <= m < 0x100000);
        assert(m / 0x400 < 0x400);
        assert((m / 0x400) * 0x400 + m % 0x400 == m);
    }
}

/// The units of a text are those of its characters, one after the other.
pub proof fn units_follow_the_text(a: Seq<char>, b: Seq<char>)
    ensures
        crate::import::discovery::utf16(a + b) == crate::import::discovery::utf16(a)
            + crate::import::discovery::utf16(b),
    decreases b.len(),
{
    if b.len() > 0 {
        let u = b.drop_last();
        units_follow_the_text(a, u);
        assert((a + b).drop_last() =~= a + u);
        assert((a + b).last() == b.last());
        assert(crate::import::discovery::utf16(a + b) =~= crate::import::discovery::utf16(a)
            + crate::import::discovery::utf16(b));
    } else {
        assert(a + b =~= a);
        assert(crate::import::discovery::utf16(a) + crate::import::discovery::utf16(b)
            =~= crate::import::discovery::utf16(a));
    }
}

} // verus!
