//! Sorting the copied files into the library.

use super::stage::same_hash;
use super::types::{
    is_prealloc, DistributeResult, FileEntry, UnknownFile, UnknownFileAction, UnknownFileDecision,
};
use crate::db::table::contains_string;
use crate::error::AppError;
use crate::gps::seventy_mai::names_gps_log;
use crate::paths::{file_name_of, from_archive_relative};
use crate::text::{
    are_digits, chars_of, concat2, concat3, decimal_string, owned, precedes, push_chars, same_str,
    split_chars, string_of, to_lowercase,
};
use vstd::prelude::*;
use vstd::slice::slice_subrange;
use vstd::string::StringExecFns;

verus! {

/// Where the last dot of a name stands.
pub open spec fn last_dot(name: Seq<char>) -> Option<int>
    decreases name.len(),
{
    if name.len() == 0 {
        None
    } else if name.last() == '.' {
        Some(name.len() - 1)
    } else {
        last_dot(name.drop_last())
    }
}

/// The name of a file without its extension. A dot at the start begins none.
pub open spec fn stem_of(name: Seq<char>) -> Seq<char> {
    match last_dot(name) {
        Some(i) => if i > 0 {
            name.take(i)
        } else {
            name
        },
        None => name,
    }
}

/// The extension of a file name.
pub open spec fn extension_of(name: Seq<char>) -> Option<Seq<char>> {
    match last_dot(name) {
        Some(i) => if i > 0 {
            Some(name.skip(i + 1))
        } else {
            None
        },
        None => None,
    }
}

fn find_last_dot(name: &Vec<char>) -> (r: Option<usize>)
    ensures
        match r {
            Some(i) => i < name.len() && last_dot(name@) == Some(i as int),
            None => last_dot(name@) is None,
        },
{
    let mut n: usize = name.len();
    proof {
        assert(name@.take(n as int) == name@);
    }
    while n > 0
        invariant
            n <= name.len(),
            last_dot(name@) == last_dot(name@.take(n as int)),
        decreases n,
    {
        proof {
            assert(name@.take(n as int).drop_last() == name@.take(n - 1));
            assert(name@.take(n as int).last() == name@[n - 1]);
        }
        if name[n - 1] == '.' {
            return Some(n - 1);
        }
        n -= 1;
    }
    None
}

/// The name of a file in two parts: before its extension, and the extension.
pub fn split_name(name: &str) -> (r: (String, Option<String>))
    ensures
        r.0@ == stem_of(name@),
        crate::text::opt_view(r.1) == extension_of(name@),
{
    let c = chars_of(name);
    match find_last_dot(&c) {
        Some(i) => if i > 0 {
            let stem = string_of(slice_subrange(c.as_slice(), 0, i));
            let ext = string_of(slice_subrange(c.as_slice(), i + 1, c.len()));
            proof {
                assert(c@.subrange(0, i as int) == c@.take(i as int));
                assert(c@.subrange(i + 1, c@.len() as int) == c@.skip(i + 1));
            }
            (stem, Some(ext))
        } else {
            (owned(name), None)
        },
        None => (owned(name), None),
    }
}

/// The extension with its dot, in lower case, or nothing.
pub open spec fn dotted_ext(name: Seq<char>) -> Seq<char> {
    match extension_of(name) {
        Some(e) => "."@ + crate::text::lowercase(e),
        None => ""@,
    }
}

/// An extension of ASCII characters is lowered letter by letter, so that its
/// letters count in either case.
pub open spec fn lowers_ascii(name: Seq<char>) -> bool {
    extension_of(name) matches Some(e) ==> crate::text::is_ascii_text(e) ==> crate::text::lowercase(
        e,
    ) == crate::text::ascii_lower(e)
}

/// The extension with its dot, in lower case, or nothing.
pub fn lower_ext(name: &str) -> (r: String)
    ensures
        r@ == dotted_ext(name@),
        lowers_ascii(name@),
{
    let (_, ext) = split_name(name);
    match ext {
        Some(e) => concat2(".", to_lowercase(e.as_str()).as_str()),
        None => owned(""),
    }
}

/// The name of the file at the end of a path.
pub open spec fn name_of(path: Seq<char>) -> Seq<char> {
    match crate::paths::file_name(path) {
        Some(n) => n,
        None => ""@,
    }
}

fn name_at(path: &str) -> (r: String)
    ensures
        r@ == name_of(path@),
{
    match file_name_of(path) {
        Some(n) => n,
        None => owned(""),
    }
}

/// What kind of file it is, for the library.
#[derive(Debug, Clone, Copy, PartialEq, Eq, Structural)]
pub enum Category {
    /// It only holds space on the card.
    Placeholder,
    /// The user wants no such files.
    Ignored,
    /// A log of positions.
    PositionLog,
    Video,
    Photo,
    Unknown,
}

/// What kind of file it is, by its name, its extension with the dot in lower
/// case, and whether the user wants such files.
pub open spec fn category(name: Seq<char>, ext: Seq<char>, ignored: bool) -> Category {
    if super::types::is_placeholder(name) {
        Category::Placeholder
    } else if ignored {
        Category::Ignored
    } else if crate::gps::seventy_mai::is_log_name(name) {
        Category::PositionLog
    } else if ext == ".mp4"@ {
        Category::Video
    } else if ext == ".jpg"@ || ext == ".jpeg"@ || ext == ".png"@ {
        Category::Photo
    } else {
        Category::Unknown
    }
}

/// What kind of file it is, by its name, its extension with the dot in lower
/// case, and whether the user wants such files.
pub fn classify_file(name: &str, ext: &str, ignored: bool) -> (r: Category)
    ensures
        r == category(name@, ext@, ignored),
{
    if is_prealloc(name) {
        Category::Placeholder
    } else if ignored {
        Category::Ignored
    } else if names_gps_log(name) {
        Category::PositionLog
    } else if same_str(ext, ".mp4") {
        Category::Video
    } else if same_str(ext, ".jpg") || same_str(ext, ".jpeg") || same_str(ext, ".png") {
        Category::Photo
    } else {
        Category::Unknown
    }
}

/// Whether the file is a log of positions, which is kept at the root of the
/// library.
pub fn is_gps_sidecar(filename: &str) -> (r: bool)
    ensures
        r == crate::gps::seventy_mai::is_log_name(filename@),
{
    names_gps_log(filename)
}

/// What is to be done with a copied file.
#[derive(Debug)]
pub enum FilePlan {
    /// Delete the copy.
    Discard,
    /// Move it there, in place of what is there.
    KeepLog { dest: String },
    /// Find a place for it in the directory.
    Place { dest_dir: String, filename: String, is_video: bool },
    /// Ask the user.
    Ask(UnknownFile),
}

/// The plan for a copied file of a kind.
pub open spec fn is_plan(p: FilePlan, c: Category, entry: FileEntry, root: Seq<char>) -> bool {
    let name = name_of(entry.rel_path@);
    match c {
        Category::Placeholder => p is Discard,
        Category::Ignored => p is Discard,
        Category::PositionLog => p matches FilePlan::KeepLog { dest } && dest@
            == crate::paths::path_join(root, name),
        Category::Video => p matches FilePlan::Place { dest_dir, filename, is_video } && dest_dir@
            == crate::paths::path_join(root, "Videos"@) && filename@ == name && is_video,
        Category::Photo => p matches FilePlan::Place { dest_dir, filename, is_video } && dest_dir@
            == crate::paths::path_join(root, "Photos"@) && filename@ == name && !is_video,
        Category::Unknown => p matches FilePlan::Ask(u) && u.staged_path@ == entry.staged_path@
            && u.rel_path@ == entry.rel_path@ && u.extension@ == dotted_ext(name) && lowers_ascii(
            name,
        ) && u.filename@ == name && u.size == entry.size,
    }
}

/// What is to be done with a copied file, given what kind of file it is.
pub fn plan_for(entry: &FileEntry, root_path: &str, kind: Category) -> (r: FilePlan)
    ensures
        is_plan(r, kind, *entry, root_path@),
{
    let filename = name_at(entry.rel_path.as_str());
    match kind {
        Category::Placeholder => FilePlan::Discard,
        Category::Ignored => FilePlan::Discard,
        Category::PositionLog => FilePlan::KeepLog {
            dest: from_archive_relative(filename.as_str(), root_path),
        },
        Category::Video => FilePlan::Place {
            dest_dir: from_archive_relative("Videos", root_path),
            filename,
            is_video: true,
        },
        Category::Photo => FilePlan::Place {
            dest_dir: from_archive_relative("Photos", root_path),
            filename,
            is_video: false,
        },
        Category::Unknown => FilePlan::Ask(
            UnknownFile {
                staged_path: owned(entry.staged_path.as_str()),
                rel_path: owned(entry.rel_path.as_str()),
                extension: lower_ext(filename.as_str()),
                filename,
                size: entry.size,
            },
        ),
    }
}

/// What is to be done with a copied file. A cancelled import goes no further.
pub fn plan_file(entry: &FileEntry, root_path: &str, ignored: bool, cancelled: bool) -> (r: Result<
    FilePlan,
    AppError,
>)
    ensures
        match r {
            Ok(p) => !cancelled && is_plan(
                p,
                category(
                    name_of(entry.rel_path@),
                    dotted_ext(name_of(entry.rel_path@)),
                    ignored,
                ),
                *entry,
                root_path@,
            ),
            Err(e) => cancelled && crate::error::is_internal(e, "interrupted by user"@),
        },
        r is Ok ==> lowers_ascii(name_of(entry.rel_path@)),
{
    if cancelled {
        return Err(AppError::Internal(owned("interrupted by user")));
    }
    let filename = name_at(entry.rel_path.as_str());
    let ext = lower_ext(filename.as_str());
    let kind = classify_file(filename.as_str(), ext.as_str(), ignored);
    Ok(plan_for(entry, root_path, kind))
}

// ------------------------------------------------------------------------ places

/// Where a file goes that has to give way to another one of its name.
#[derive(Debug)]
pub enum Placement {
    /// The library has it already: delete the copy.
    Duplicate,
    /// Move it there, under another name, and tell the user.
    Renamed { dest: String, name: String, warning: String },
}

/// The `n`th other name for a file.
pub open spec fn numbered(name: Seq<char>, n: nat) -> Seq<char> {
    stem_of(name) + "_"@ + crate::text::decimal(n) + match extension_of(name) {
        Some(e) => "."@ + e,
        None => ""@,
    }
}

fn numbered_name(name: &str, n: u32) -> (r: String)
    ensures
        r@ == numbered(name@, n as nat),
{
    let (stem, ext) = split_name(name);
    let mut r = concat3(stem.as_str(), "_", decimal_string(n as u64).as_str());
    match ext {
        Some(e) => {
            let tail = concat2(".", e.as_str());
            r.append(tail.as_str());
        },
        None => {
            r.append("");
        },
    }
    r
}

/// Other names for a file differ from each other.
pub proof fn numbered_names_differ(name: Seq<char>, m: nat, n: nat)
    requires
        m != n,
    ensures
        numbered(name, m) != numbered(name, n),
{
    let tail = match extension_of(name) {
        Some(e) => "."@ + e,
        None => ""@,
    };
    let head = stem_of(name) + "_"@;
    let a = head + crate::text::decimal(m) + tail;
    let b = head + crate::text::decimal(n) + tail;
    assert(a == numbered(name, m));
    assert(b == numbered(name, n));
    if a == b {
        let from = head.len() as int;
        let to = a.len() - tail.len();
        assert(a.subrange(from, to) == crate::text::decimal(m));
        assert(b.subrange(from, to) == crate::text::decimal(n));
        crate::text::decimal_spells_the_number(m);
        crate::text::decimal_spells_the_number(n);
    }
}

/// The first `k` other names.
spec fn other_names(name: Seq<char>, k: nat) -> Seq<Seq<char>> {
    Seq::new(k, |i: int| numbered(name, (i + 1) as nat))
}

/// Among more names than there are files, one is free.
proof fn lemma_free_name(name: Seq<char>, taken: Seq<Seq<char>>, k: nat)
    requires
        k > taken.len(),
    ensures
        exists|i: int| 1 <= i <= k && !taken.contains(#[trigger] numbered(name, i as nat)),
{
    if forall|i: int| 1 <= i <= k ==> taken.contains(#[trigger] numbered(name, i as nat)) {
        let names = other_names(name, k);
        assert forall|i: int, j: int| 0 <= i < names.len() && 0 <= j < names.len() && i != j implies names[i]
            != names[j] by {
            numbered_names_differ(name, (i + 1) as nat, (j + 1) as nat);
        }
        assert(names.no_duplicates());
        names.unique_seq_to_set();
        taken.lemma_cardinality_of_set();
        assert forall|x: Seq<char>| names.to_set().contains(x) implies taken.to_set().contains(
            x,
        ) by {
            assert(names.contains(x));
            let i = choose|i: int| 0 <= i < names.len() && names[i] == x;
            assert(taken.contains(numbered(name, (i + 1) as nat)));
        }
        vstd::set_lib::lemma_len_subset(names.to_set(), taken.to_set());
    }
}

/// The first other name that is free.
fn free_name(name: &str, taken: &Vec<String>) -> (r: String)
    requires
        taken.len() < u32::MAX,
    ensures
        exists|n: nat|
            1 <= n && r@ == #[trigger] numbered(name@, n) && !crate::text::views(
                taken@,
            ).contains(r@) && forall|m: nat|
                1 <= m < n ==> crate::text::views(taken@).contains(#[trigger] numbered(name@, m)),
{
    let ghost tv = crate::text::views(taken@);
    let mut n: u32 = 1;
    let mut candidate = numbered_name(name, n);
    while contains_string(taken, &candidate)
        invariant
            1 <= n <= taken.len() + 1,
            taken.len() < u32::MAX,
            tv == crate::text::views(taken@),
            candidate@ == numbered(name@, n as nat),
            forall|m: nat| 1 <= m < n ==> tv.contains(#[trigger] numbered(name@, m)),
        decreases taken.len() + 1 - n,
    {
        proof {
            assert(tv.contains(numbered(name@, n as nat)));
            if n == taken.len() + 1 {
                lemma_free_name(name@, tv, n as nat);
            }
        }
        n = n + 1;
        candidate = numbered_name(name, n);
    }
    candidate
}

/// Whether the name is free, given the names in the directory.
pub fn has_room(filename: &String, taken: &Vec<String>) -> (r: bool)
    ensures
        r == !crate::text::views(taken@).contains(filename@),
{
    !contains_string(taken, filename)
}

/// The file is a duplicate of the one that has its name, or gets another name that is free.
pub open spec fn is_placement(
    source_hash: Seq<u8>,
    existing_hash: Seq<u8>,
    dest_dir: Seq<char>,
    filename: Seq<char>,
    taken: Seq<Seq<char>>,
    r: Placement,
) -> bool {
    match r {
        Placement::Duplicate => source_hash == existing_hash,
        Placement::Renamed { dest, name, warning } => {
            &&& source_hash != existing_hash
            &&& exists|n: nat|
                1 <= n && name@ == #[trigger] numbered(filename, n) && forall|m: nat|
                    1 <= m < n ==> taken.contains(
                        #[trigger] numbered(filename, m),
                    )
            &&& !taken.contains(name@)
            &&& dest@ == crate::paths::path_join(dest_dir, name@)
            &&& warning@ == "Name collision with different content: "@ + filename
                + " \u{2014} saved as "@ + name@
        },
    }
}

/// Where a file goes whose name is taken, given its hash, the hash of the file
/// that has the name, and the names in the directory.
pub fn move_to_destination(
    source_hash: &[u8; 32],
    existing_hash: &[u8; 32],
    dest_dir: &str,
    filename: &str,
    taken: &Vec<String>,
) -> (r: Placement)
    requires
        taken.len() < u32::MAX,
    ensures
        is_placement(source_hash@, existing_hash@, dest_dir@, filename@, crate::text::views(taken@), r),
{
    if same_hash(source_hash, existing_hash) {
        return Placement::Duplicate;
    }
    let name = free_name(filename, taken);
    let mut warning = concat3(
        "Name collision with different content: ",
        filename,
        " \u{2014} saved as ",
    );
    warning.append(name.as_str());
    Placement::Renamed { dest: from_archive_relative(name.as_str(), dest_dir), name, warning }
}

/// What follows a copy to another drive, made because the file could not simply
/// be moved.
#[derive(Debug)]
pub enum AfterCopy {
    /// The copy is good: delete the file.
    RemoveSource,
    /// The copy is not: delete it, and stop.
    RemoveCopy(AppError),
}

/// What follows a copy to another drive, given the hashes of the file and of
/// the copy.
pub fn move_file(src_hash: &[u8; 32], dst_hash: &[u8; 32]) -> (r: AfterCopy)
    ensures
        match r {
            AfterCopy::RemoveSource => src_hash@ == dst_hash@,
            AfterCopy::RemoveCopy(e) => src_hash@ != dst_hash@ && crate::error::is_internal(
                e,
                "hash mismatch in cross-volume move fallback"@,
            ),
        },
{
    if same_hash(src_hash, dst_hash) {
        AfterCopy::RemoveSource
    } else {
        AfterCopy::RemoveCopy(
            AppError::Internal(owned("hash mismatch in cross-volume move fallback")),
        )
    }
}

// ------------------------------------------------------------------------- dates

/// The date that the name of a file begins with: a year, a month and a day, with
/// underscores between them.
pub open spec fn date_in(path: Seq<char>) -> Option<Seq<char>> {
    let p = crate::text::split(stem_of(name_of(path)), '_');
    if p.len() >= 3 && p[0].len() == 4 && p[1].len() == 2 && p[2].len() == 2
        && crate::text::all_digits(p[0]) && crate::text::all_digits(p[1])
        && crate::text::all_digits(p[2]) {
        Some(p[0] + "-"@ + p[1] + "-"@ + p[2])
    } else {
        None
    }
}

/// The date that the name of a file begins with.
pub fn extract_date_from_filename(filename: &str) -> (r: Option<String>)
    ensures
        crate::text::opt_view(r) == date_in(filename@),
{
    let name = name_at(filename);
    let (stem, _) = split_name(name.as_str());
    let p = split_chars(chars_of(stem.as_str()).as_slice(), '_');
    proof {
        let v = crate::text::split(stem@, '_');
        assert(v.len() == p.len());
        assert(forall|i: int| 0 <= i < p.len() ==> #[trigger] v[i] == p@[i]@);
    }
    if p.len() >= 3 && p[0].len() == 4 && p[1].len() == 2 && p[2].len() == 2 && are_digits(
        p[0].as_slice(),
    ) && are_digits(p[1].as_slice()) && are_digits(p[2].as_slice()) {
        let mut s = string_of(p[0].as_slice());
        s.append("-");
        push_chars(&mut s, p[1].as_slice());
        s.append("-");
        push_chars(&mut s, p[2].as_slice());
        Some(s)
    } else {
        None
    }
}

// ------------------------------------------------------------------- the tallies

/// What became of a copied file.
#[derive(Debug)]
pub enum FileOutcome {
    Discarded,
    LogKept,
    VideoMoved { filename: String },
    PhotoMoved,
    Duplicate,
    Unknown(UnknownFile),
}

/// What became of the file says how its plan went, given whether the file was
/// moved to the place that was found for it, or the library had it already.
pub open spec fn is_outcome(r: FileOutcome, plan: FilePlan, moved: bool) -> bool {
    match plan {
        FilePlan::Discard => r is Discarded,
        FilePlan::KeepLog { .. } => r is LogKept,
        FilePlan::Place { filename, is_video, .. } => if !moved {
            r is Duplicate
        } else if is_video {
            r matches FileOutcome::VideoMoved { filename: f } && f == filename
        } else {
            r is PhotoMoved
        },
        FilePlan::Ask(u) => r == FileOutcome::Unknown(u),
    }
}

/// What became of a file once its plan is carried out, given whether the file was
/// moved to the place that was found for it, or the library had it already.
pub fn outcome_of(plan: FilePlan, moved: bool) -> (r: FileOutcome)
    ensures
        is_outcome(r, plan, moved),
{
    match plan {
        FilePlan::Discard => FileOutcome::Discarded,
        FilePlan::KeepLog { .. } => FileOutcome::LogKept,
        FilePlan::Place { filename, is_video, .. } => if !moved {
            FileOutcome::Duplicate
        } else if is_video {
            FileOutcome::VideoMoved { filename }
        } else {
            FileOutcome::PhotoMoved
        },
        FilePlan::Ask(u) => FileOutcome::Unknown(u),
    }
}

/// The number of videos.
pub open spec fn videos(o: Seq<FileOutcome>) -> nat
    decreases o.len(),
{
    if o.len() == 0 {
        0
    } else {
        videos(o.drop_last()) + if o.last() is VideoMoved {
            1nat
        } else {
            0
        }
    }
}

/// The number of photos.
pub open spec fn photos(o: Seq<FileOutcome>) -> nat
    decreases o.len(),
{
    if o.len() == 0 {
        0
    } else {
        photos(o.drop_last()) + if o.last() is PhotoMoved {
            1nat
        } else {
            0
        }
    }
}

/// The number of files that the library had already.
pub open spec fn duplicates(o: Seq<FileOutcome>) -> nat
    decreases o.len(),
{
    if o.len() == 0 {
        0
    } else {
        duplicates(o.drop_last()) + if o.last() is Duplicate {
            1nat
        } else {
            0
        }
    }
}

/// The number of files that were deleted, or kept as logs.
pub open spec fn put_aside(o: Seq<FileOutcome>) -> nat
    decreases o.len(),
{
    if o.len() == 0 {
        0
    } else {
        put_aside(o.drop_last()) + if o.last() is Discarded || o.last() is LogKept {
            1nat
        } else {
            0
        }
    }
}

/// The files of which nothing says where they belong.
pub open spec fn unknown_files(o: Seq<FileOutcome>) -> Seq<UnknownFile>
    decreases o.len(),
{
    if o.len() == 0 {
        Seq::empty()
    } else {
        match o.last() {
            FileOutcome::Unknown(u) => unknown_files(o.drop_last()).push(u),
            _ => unknown_files(o.drop_last()),
        }
    }
}

/// The date in the name of a moved video.
pub open spec fn video_date(o: FileOutcome) -> Option<Seq<char>> {
    match o {
        FileOutcome::VideoMoved { filename } => date_in(filename@),
        _ => None,
    }
}

/// The first date among the moved videos.
pub open spec fn first_date(o: Seq<FileOutcome>) -> Option<Seq<char>>
    decreases o.len(),
{
    if o.len() == 0 {
        None
    } else {
        let before = first_date(o.drop_last());
        match (video_date(o.last()), before) {
            (None, _) => before,
            (Some(d), None) => Some(d),
            (Some(d), Some(e)) => if crate::text::lex_lt(d, e) {
                Some(d)
            } else {
                before
            },
        }
    }
}

/// The last date among the moved videos.
pub open spec fn last_date(o: Seq<FileOutcome>) -> Option<Seq<char>>
    decreases o.len(),
{
    if o.len() == 0 {
        None
    } else {
        let before = last_date(o.drop_last());
        match (video_date(o.last()), before) {
            (None, _) => before,
            (Some(d), None) => Some(d),
            (Some(d), Some(e)) => if crate::text::lex_lt(e, d) {
                Some(d)
            } else {
                before
            },
        }
    }
}

fn earlier(date: &String, best: Option<String>) -> (r: Option<String>)
    ensures
        crate::text::opt_view(r) == match best {
            None => Some(date@),
            Some(e) => if crate::text::lex_lt(date@, e@) {
                Some(date@)
            } else {
                Some(e@)
            },
        },
{
    match best {
        None => Some(owned(date.as_str())),
        Some(e) => if precedes(date.as_str(), e.as_str()) {
            Some(owned(date.as_str()))
        } else {
            Some(e)
        },
    }
}

fn later(date: &String, best: Option<String>) -> (r: Option<String>)
    ensures
        crate::text::opt_view(r) == match best {
            None => Some(date@),
            Some(e) => if crate::text::lex_lt(e@, date@) {
                Some(date@)
            } else {
                Some(e@)
            },
        },
{
    match best {
        None => Some(owned(date.as_str())),
        Some(e) => if precedes(e.as_str(), date.as_str()) {
            Some(owned(date.as_str()))
        } else {
            Some(e)
        },
    }
}

/// What became of all copied files, and the files that the user is asked about.
pub fn distribute_files(outcomes: Vec<FileOutcome>) -> (r: (DistributeResult, Vec<UnknownFile>))
    requires
        outcomes.len() <= u32::MAX,
    ensures
        r.0.videos_moved == videos(outcomes@),
        r.0.photos_moved == photos(outcomes@),
        r.0.dups_skipped == duplicates(outcomes@),
        crate::text::opt_view(r.0.earliest_date) == first_date(outcomes@),
        crate::text::opt_view(r.0.latest_date) == last_date(outcomes@),
        r.1@ == unknown_files(outcomes@),
{
    let ghost all = outcomes@;
    let mut videos_moved: u32 = 0;
    let mut photos_moved: u32 = 0;
    let mut dups_skipped: u32 = 0;
    let mut first: Option<String> = None;
    let mut last: Option<String> = None;
    let mut unknowns: Vec<UnknownFile> = Vec::new();
    let ghost mut n: int = 0;
    proof {
        assert(all.take(0).len() == 0);
    }
    for o in it: outcomes
        invariant
            it.seq() == all,
            n == it.index(),
            all.len() <= u32::MAX,
            videos_moved == videos(all.take(n)),
            photos_moved == photos(all.take(n)),
            dups_skipped == duplicates(all.take(n)),
            videos_moved <= n,
            photos_moved <= n,
            dups_skipped <= n,
            crate::text::opt_view(first) == first_date(all.take(n)),
            crate::text::opt_view(last) == last_date(all.take(n)),
            unknowns@ == unknown_files(all.take(n)),
    {
        proof {
            assert(all.take(n + 1).drop_last() == all.take(n));
            assert(all.take(n + 1).last() == o);
        }
        match o {
            FileOutcome::Discarded => {},
            FileOutcome::LogKept => {},
            FileOutcome::VideoMoved { filename } => {
                videos_moved += 1;
                if let Some(date) = extract_date_from_filename(filename.as_str()) {
                    first = earlier(&date, first);
                    last = later(&date, last);
                }
            },
            FileOutcome::PhotoMoved => {
                photos_moved += 1;
            },
            FileOutcome::Duplicate => {
                dups_skipped += 1;
            },
            FileOutcome::Unknown(u) => {
                unknowns.push(u);
            },
        }
        proof {
            n = n + 1;
        }
    }
    proof {
        assert(all.take(all.len() as int) == all);
    }
    (
        DistributeResult {
            videos_moved,
            photos_moved,
            dups_skipped,
            earliest_date: first,
            latest_date: last,
        },
        unknowns,
    )
}

/// Every copied file is accounted for, once.
pub proof fn every_file_is_counted(o: Seq<FileOutcome>)
    ensures
        videos(o) + photos(o) + duplicates(o) + put_aside(o) + unknown_files(o).len() == o.len(),
    decreases o.len(),
{
    if o.len() > 0 {
        every_file_is_counted(o.drop_last());
    }
}

/// What kind of file a copied file is, given whether the user wants such files.
pub open spec fn kind_of(entry: FileEntry, ignored: bool) -> Category {
    category(name_of(entry.rel_path@), dotted_ext(name_of(entry.rel_path@)), ignored)
}

/// The number of copied files of a kind that were moved, or that were not.
pub open spec fn of_kind(
    entries: Seq<FileEntry>,
    ignored: Seq<bool>,
    moved: Seq<bool>,
    kind: Category,
    was_moved: bool,
) -> nat
    decreases entries.len(),
{
    if entries.len() == 0 {
        0
    } else {
        let i = entries.len() - 1;
        of_kind(entries.drop_last(), ignored, moved, kind, was_moved) + if kind_of(
            entries[i],
            ignored[i],
        ) == kind && moved[i] == was_moved {
            1nat
        } else {
            0
        }
    }
}

/// The copied files that are neither video nor photo, nor any other kind that
/// the library knows.
pub open spec fn strangers(entries: Seq<FileEntry>, ignored: Seq<bool>) -> Seq<FileEntry>
    decreases entries.len(),
{
    if entries.len() == 0 {
        Seq::empty()
    } else {
        let i = entries.len() - 1;
        let before = strangers(entries.drop_last(), ignored);
        if kind_of(entries[i], ignored[i]) == Category::Unknown {
            before.push(entries[i])
        } else {
            before
        }
    }
}

/// Every file has one fate, and its kind decides it: the videos and photos are
/// moved or were there already, and are counted as such, and the user is asked
/// about the files of no known kind, each in its turn.
pub proof fn each_file_has_one_fate(
    entries: Seq<FileEntry>,
    ignored: Seq<bool>,
    root: Seq<char>,
    plans: Seq<FilePlan>,
    moved: Seq<bool>,
    o: Seq<FileOutcome>,
)
    requires
        plans.len() == entries.len(),
        o.len() == entries.len(),
        forall|i: int|
            0 <= i < entries.len() ==> is_plan(
                #[trigger] plans[i],
                kind_of(entries[i], ignored[i]),
                entries[i],
                root,
            ),
        forall|i: int| 0 <= i < entries.len() ==> is_outcome(#[trigger] o[i], plans[i], moved[i]),
    ensures
        videos(o) == of_kind(entries, ignored, moved, Category::Video, true),
        photos(o) == of_kind(entries, ignored, moved, Category::Photo, true),
        duplicates(o) == of_kind(entries, ignored, moved, Category::Video, false) + of_kind(
            entries,
            ignored,
            moved,
            Category::Photo,
            false,
        ),
        unknown_files(o).len() == strangers(entries, ignored).len(),
        forall|k: int|
            0 <= k < unknown_files(o).len() ==> is_plan(
                FilePlan::Ask(#[trigger] unknown_files(o)[k]),
                Category::Unknown,
                strangers(entries, ignored)[k],
                root,
            ),
    decreases entries.len(),
{
    if entries.len() > 0 {
        let i = entries.len() - 1;
        assert(is_plan(plans[i], kind_of(entries[i], ignored[i]), entries[i], root));
        assert(is_outcome(o[i], plans[i], moved[i]));
        assert forall|j: int| 0 <= j < entries.drop_last().len() implies is_plan(
            #[trigger] plans.drop_last()[j],
            kind_of(entries.drop_last()[j], ignored[j]),
            entries.drop_last()[j],
            root,
        ) by {
            assert(plans.drop_last()[j] == plans[j]);
        }
        assert forall|j: int| 0 <= j < entries.drop_last().len() implies is_outcome(
            #[trigger] o.drop_last()[j],
            plans.drop_last()[j],
            moved[j],
        ) by {
            assert(o.drop_last()[j] == o[j]);
        }
        each_file_has_one_fate(
            entries.drop_last(),
            ignored,
            root,
            plans.drop_last(),
            moved,
            o.drop_last(),
        );
        assert forall|k: int| 0 <= k < unknown_files(o).len() implies is_plan(
            FilePlan::Ask(#[trigger] unknown_files(o)[k]),
            Category::Unknown,
            strangers(entries, ignored)[k],
            root,
        ) by {
            if k < unknown_files(o.drop_last()).len() {
                assert(unknown_files(o)[k] == unknown_files(o.drop_last())[k]);
            }
        }
    }
}

/// The date is in the name of a moved video.
pub open spec fn has_date(o: Seq<FileOutcome>, date: Seq<char>) -> bool {
    exists|k: int| 0 <= k < o.len() && #[trigger] video_date(o[k]) == Some(date)
}

proof fn lemma_dates_occur(o: Seq<FileOutcome>)
    ensures
        first_date(o) matches Some(first) ==> has_date(o, first),
        last_date(o) matches Some(last) ==> has_date(o, last),
    decreases o.len(),
{
    if o.len() > 0 {
        let u = o.drop_last();
        lemma_dates_occur(u);
        assert forall|d: Seq<char>| #[trigger] has_date(u, d) implies has_date(o, d) by {
            let k = choose|k: int| 0 <= k < u.len() && #[trigger] video_date(u[k]) == Some(d);
            assert(video_date(o[k]) == Some(d));
        }
        if let Some(d) = video_date(o.last()) {
            assert(video_date(o[o.len() - 1]) == Some(d));
            assert(has_date(o, d));
        }
    }
}

/// The first and the last date are dates of moved videos, and no date of one
/// lies outside them.
pub proof fn dates_are_bounds(o: Seq<FileOutcome>, i: int, date: Seq<char>)
    requires
        0 <= i < o.len(),
        video_date(o[i]) == Some(date),
    ensures
        first_date(o) matches Some(first) && has_date(o, first) && !crate::text::lex_lt(
            date,
            first,
        ),
        last_date(o) matches Some(last) && has_date(o, last) && !crate::text::lex_lt(last, date),
    decreases o.len(),
{
    lemma_dates_occur(o);
    let u = o.drop_last();
    if i < u.len() {
        assert(u[i] == o[i]);
        dates_are_bounds(u, i, date);
        if let Some(d) = video_date(o.last()) {
            let first = first_date(u)->0;
            let last = last_date(u)->0;
            if crate::text::lex_lt(d, first) && crate::text::lex_lt(date, d) {
                crate::text::lemma_lex_transitive(date, d, first);
            }
            if crate::text::lex_lt(last, d) && crate::text::lex_lt(d, date) {
                crate::text::lemma_lex_transitive(last, d, date);
            }
        }
    } else {
        crate::text::lemma_lex_irreflexive(date);
    }
}

// ---------------------------------------------------------------- unknown files

/// What is done because of a decision.
#[derive(Debug)]
pub enum DecisionStep {
    DeleteAndIgnoreName { path: String, filename: String },
    DeleteAndIgnoreExtension { path: String, extension: String },
    MoveToOther { path: String, dir: String, dest: String },
}

/// The step carries out the decision.
pub open spec fn is_step(s: DecisionStep, d: UnknownFileDecision, root: Seq<char>) -> bool {
    let name = name_of(d.staged_path@);
    let other = crate::paths::path_join(root, "Other"@);
    match d.action {
        UnknownFileAction::DeleteFilename => s matches DecisionStep::DeleteAndIgnoreName {
            path,
            filename,
        } && path@ == d.staged_path@ && filename@ == name,
        UnknownFileAction::DeleteExtension => s matches DecisionStep::DeleteAndIgnoreExtension {
            path,
            extension,
        } && path@ == d.staged_path@ && extension@ == dotted_ext(name) && lowers_ascii(name),
        UnknownFileAction::MoveToOther => s matches DecisionStep::MoveToOther { path, dir, dest }
            && path@ == d.staged_path@ && dir@ == other && dest@ == crate::paths::path_join(
            other,
            name,
        ),
    }
}

fn step_for(d: &UnknownFileDecision, root_path: &str) -> (s: DecisionStep)
    ensures
        is_step(s, *d, root_path@),
{
    let filename = name_at(d.staged_path.as_str());
    let path = owned(d.staged_path.as_str());
    match d.action {
        UnknownFileAction::DeleteFilename => DecisionStep::DeleteAndIgnoreName { path, filename },
        UnknownFileAction::DeleteExtension => DecisionStep::DeleteAndIgnoreExtension {
            path,
            extension: lower_ext(filename.as_str()),
        },
        UnknownFileAction::MoveToOther => {
            let dir = from_archive_relative("Other", root_path);
            let dest = from_archive_relative(filename.as_str(), dir.as_str());
            DecisionStep::MoveToOther { path, dir, dest }
        },
    }
}

/// The places of the files that are still there.
pub open spec fn still_there(present: Seq<bool>) -> Seq<int>
    decreases present.len(),
{
    if present.len() == 0 {
        Seq::empty()
    } else if present.last() {
        still_there(present.drop_last()).push(present.len() - 1)
    } else {
        still_there(present.drop_last())
    }
}

/// What is done because of the decisions. Files that are not there any more are
/// passed over.
pub fn apply_unknown_decisions(
    decisions: &Vec<UnknownFileDecision>,
    present: &Vec<bool>,
    root_path: &str,
) -> (r: Vec<DecisionStep>)
    requires
        present.len() == decisions.len(),
    ensures
        r.len() == still_there(present@).len(),
        forall|k: int|
            0 <= k < r.len() ==> is_step(
                #[trigger] r@[k],
                decisions@[still_there(present@)[k]],
                root_path@,
            ),
{
    let mut out: Vec<DecisionStep> = Vec::new();
    let mut i: usize = 0;
    proof {
        assert(present@.take(0).len() == 0);
    }
    while i < decisions.len()
        invariant
            i <= decisions.len(),
            present.len() == decisions.len(),
            out.len() == still_there(present@.take(i as int)).len(),
            forall|k: int|
                0 <= k < out.len() ==> is_step(
                    #[trigger] out@[k],
                    decisions@[still_there(present@.take(i as int))[k]],
                    root_path@,
                ),
        decreases decisions.len() - i,
    {
        proof {
            assert(present@.take(i + 1).drop_last() == present@.take(i as int));
            assert(present@.take(i + 1).last() == present@[i as int]);
        }
        if present[i] {
            out.push(step_for(&decisions[i], root_path));
        }
        i += 1;
    }
    proof {
        assert(present@.take(present@.len() as int) == present@);
    }
    out
}

} // verus!
