//! Copying the files of a source, with a check of every copy.

use super::discovery::is_skipped_dir;
use super::types::{is_prealloc, FileEntry, ImportSource, WalkedFile};
use crate::error::AppError;
use crate::paths::{from_archive_relative, parent_of};
use crate::text::{chars_of, concat2, concat3, decimal_string, owned, starts_with};
use vstd::prelude::*;
use vstd::string::StringExecFns;

verus! {

/// The shortest time between two reports of progress, in milliseconds.
pub const PROGRESS_THROTTLE_MS: u128 = 66;

/// Whether the walk through a source enters a directory: the source itself, and
/// those below it that neither the system keeps nor are hidden.
pub fn enters_dir(depth: usize, name: &str) -> (r: bool)
    ensures
        r == (depth == 0 || !super::discovery::is_system_dir(crate::text::lowercase(name@))
            && !crate::text::has_prefix(name@, "."@)),
        crate::text::is_ascii_text(name@) ==> r == (depth == 0 || !super::discovery::is_system_dir(
            crate::text::ascii_lower(name@),
        ) && !crate::text::has_prefix(name@, "."@)),
{
    depth == 0 || !is_skipped_dir(name) && !starts_with(chars_of(name).as_slice(), ".")
}

/// Whether the walk goes on: it stops when the import is cancelled, or at an
/// entry that cannot be read.
pub fn walk_on(cancelled: bool, error: &Option<String>) -> (r: Result<(), AppError>)
    ensures
        match r {
            Ok(_) => !cancelled && error is None,
            Err(e) => if cancelled {
                crate::error::is_internal(e, "interrupted by user"@)
            } else {
                error matches Some(m) && crate::error::is_internal(e, "walk source: "@ + m@)
            },
        },
{
    if cancelled {
        return Err(AppError::Internal(owned("interrupted by user")));
    }
    match error {
        Some(m) => Err(AppError::Internal(concat2("walk source: ", m.as_str()))),
        None => Ok(()),
    }
}

/// The files, and their sizes.
pub open spec fn contents(entries: Seq<FileEntry>) -> Seq<(Seq<char>, u64)> {
    entries.map_values(|e: FileEntry| (e.rel_path@, e.size))
}

/// The files met on the walk that are to be copied, and their sizes.
pub open spec fn wanted(files: Seq<WalkedFile>) -> Seq<(Seq<char>, u64)> {
    super::types::real_files(files).map_values(|f: WalkedFile| (f.rel_path@, f.size))
}

/// The size of all files together.
pub open spec fn content_size(c: Seq<(Seq<char>, u64)>) -> nat
    decreases c.len(),
{
    if c.len() == 0 {
        0
    } else {
        content_size(c.drop_last()) + c.last().1 as nat
    }
}

pub(crate) proof fn lemma_size_grows(c: Seq<(Seq<char>, u64)>, n: int)
    requires
        0 <= n <= c.len(),
    ensures
        content_size(c.take(n)) <= content_size(c),
    decreases c.len(),
{
    if n == c.len() {
        assert(c.take(n) == c);
    } else {
        lemma_size_grows(c.drop_last(), n);
        assert(c.drop_last().take(n) == c.take(n));
    }
}

/// A copy that is to be made: from where, to where, and the directory that must
/// be there for it.
#[derive(Debug)]
pub struct CopyStep {
    pub src: String,
    pub dst: String,
    pub parent: Option<String>,
}

/// The copying of a source, as far as it has come: the files before `next` are
/// copied and checked.
#[derive(Debug)]
pub struct Staging {
    pub source_path: String,
    pub staging_dir: String,
    pub manifest: Vec<FileEntry>,
    pub next: usize,
    pub bytes_done: u64,
    pub bytes_total: u64,
}

impl Staging {
    /// The files before `next` are copied and checked, the others are not, and
    /// the sizes add up.
    pub open spec fn wf(&self) -> bool {
        &&& self.next <= self.manifest.len()
        &&& forall|i: int|
            0 <= i < self.manifest.len() ==> (#[trigger] self.manifest@[i]).verified == (i
                < self.next)
        &&& forall|i: int|
            0 <= i < self.next ==> (#[trigger] self.manifest@[i]).staged_path@
                == crate::paths::path_join(self.staging_dir@, self.manifest@[i].rel_path@)
        &&& self.bytes_total == content_size(contents(self.manifest@))
        &&& self.bytes_done == content_size(contents(self.manifest@).take(self.next as int))
    }
}

/// The directory that the copies of a source go to.
pub open spec fn staging_of(root: Seq<char>, label: Seq<char>) -> Seq<char> {
    crate::paths::path_join(crate::paths::path_join(root, ".staging"@), label)
}

/// Nothing is known yet of a file but its path and size.
pub open spec fn is_untouched(e: FileEntry) -> bool {
    !e.verified && e.staged_path@.len() == 0 && e.source_hash@ == Seq::new(32, |k: int| 0u8)
}

/// The copying of a source, before the first file, given the files that were
/// met on the walk through it.
pub fn stage_source(source: &ImportSource, root_path: &str, files: Vec<WalkedFile>) -> (r: Staging)
    requires
        content_size(wanted(files@)) <= u64::MAX,
    ensures
        r.wf(),
        r.next == 0,
        r.source_path@ == source.path@,
        r.staging_dir@ == staging_of(root_path@, source.label@),
        contents(r.manifest@) == wanted(files@),
        forall|i: int| 0 <= i < r.manifest.len() ==> is_untouched(#[trigger] r.manifest@[i]),
{
    let ghost all = files@;
    let ghost p = |f: WalkedFile| !super::types::is_placeholder(f.name@);
    let ghost g = |f: WalkedFile| (f.rel_path@, f.size);
    let mut manifest: Vec<FileEntry> = Vec::new();
    let mut total: u64 = 0;
    let ghost mut n: int = 0;
    proof {
        reveal(Seq::filter);
        assert(all.take(0).filter(p) == Seq::<WalkedFile>::empty());
        assert(contents(manifest@) == all.take(0).filter(p).map_values(g));
    }
    for f in it: files
        invariant
            it.seq() == all,
            n == it.index(),
            p == (|f: WalkedFile| !super::types::is_placeholder(f.name@)),
            g == (|f: WalkedFile| (f.rel_path@, f.size)),
            content_size(all.filter(p).map_values(g)) <= u64::MAX,
            contents(manifest@) == all.take(n).filter(p).map_values(g),
            total == content_size(contents(manifest@)),
            forall|i: int| 0 <= i < manifest.len() ==> is_untouched(#[trigger] manifest@[i]),
    {
        let ghost before = contents(manifest@);
        let ghost old_manifest = manifest@;
        proof {
            reveal(Seq::filter);
            assert(all.take(n + 1).drop_last() == all.take(n));
            assert(all.take(n + 1).last() == f);
        }
        if !is_prealloc(f.name.as_str()) {
            proof {
                lemma_filter_prefix(all, p, n + 1);
                let u = all.take(n + 1).filter(p);
                assert(u == all.take(n).filter(p).push(f));
                assert(u.map_values(g) == before.push(g(f)));
                let m = all.filter(p).map_values(g);
                assert(m.take(u.len() as int) == u.map_values(g));
                lemma_size_grows(m, u.len() as int);
                assert(before.push(g(f)).drop_last() == before);
            }
            total += f.size;
            let ghost fv = g(f);
            let entry = FileEntry {
                rel_path: f.rel_path,
                size: f.size,
                source_hash: [0;32],
                staged_path: String::new(),
                verified: false,
            };
            proof {
                assert(entry.source_hash@ == Seq::new(32, |k: int| 0u8));
                assert(is_untouched(entry));
            }
            manifest.push(entry);
            proof {
                assert(contents(manifest@) == before.push(fv));
                assert(forall|i: int|
                    0 <= i < old_manifest.len() ==> #[trigger] manifest@[i] == old_manifest[i]);
            }
        }
        proof {
            n = n + 1;
        }
    }
    proof {
        assert(all.take(all.len() as int) == all);
        assert(contents(manifest@).take(0).len() == 0);
    }
    let staging = from_archive_relative(".staging", root_path);
    Staging {
        source_path: owned(source.path.as_str()),
        staging_dir: from_archive_relative(source.label.as_str(), staging.as_str()),
        manifest,
        next: 0,
        bytes_done: 0,
        bytes_total: total,
    }
}

proof fn lemma_filter_prefix<T>(s: Seq<T>, p: spec_fn(T) -> bool, n: int)
    requires
        0 <= n <= s.len(),
    ensures
        s.take(n).filter(p).len() <= s.filter(p).len(),
        s.filter(p).take(s.take(n).filter(p).len() as int) == s.take(n).filter(p),
    decreases s.len(),
{
    reveal(Seq::filter);
    if n == s.len() {
        assert(s.take(n) == s);
        assert(s.filter(p).take(s.filter(p).len() as int) == s.filter(p));
    } else {
        let u = s.drop_last();
        lemma_filter_prefix(u, p, n);
        assert(u.take(n) == s.take(n));
        let k = s.take(n).filter(p).len() as int;
        assert(s.filter(p).take(k) == u.filter(p).take(k));
    }
}

/// Whether the copies have room. Where the room is not known, the copying is
/// tried.
pub fn check_space(needed: u64, free: Option<u64>) -> (r: Result<(), AppError>)
    ensures
        match r {
            Ok(_) => free matches Some(f) ==> f >= needed,
            Err(e) => free matches Some(f) && f < needed && crate::error::is_internal(
                e,
                "insufficient disk space: need "@ + crate::text::decimal(needed as nat)
                    + " bytes, have "@ + crate::text::decimal(f as nat) + " bytes free"@,
            ),
        },
{
    match free {
        Some(f) => if f < needed {
            let mut s = concat3(
                "insufficient disk space: need ",
                decimal_string(needed).as_str(),
                " bytes, have ",
            );
            s.append(decimal_string(f).as_str());
            s.append(" bytes free");
            Err(AppError::Internal(s))
        } else {
            Ok(())
        },
        None => Ok(()),
    }
}

/// Bytes as hexadecimal digits, two for each.
pub open spec fn hex(bytes: Seq<u8>) -> Seq<char>
    decreases bytes.len(),
{
    if bytes.len() == 0 {
        Seq::empty()
    } else {
        hex(bytes.drop_last()).push(crate::ids::hex_digit((bytes.last() / 16) as nat)).push(
            crate::ids::hex_digit((bytes.last() % 16) as nat),
        )
    }
}

fn digit_of(d: u8) -> (c: char)
    requires
        d < 16,
    ensures
        c == crate::ids::hex_digit(d as nat),
{
    if d < 10 {
        (48 + d) as char
    } else {
        (87 + d) as char
    }
}

/// A hash as hexadecimal digits.
pub fn hash_hex(hash: &[u8; 32]) -> (s: String)
    ensures
        s@ == hex(hash@),
{
    let mut s = String::new();
    let mut i: usize = 0;
    while i < 32
        invariant
            i <= 32,
            s@ == hex(hash@.take(i as int)),
        decreases 32 - i,
    {
        proof {
            assert(hash@.take(i + 1).drop_last() == hash@.take(i as int));
            assert(hash@.take(i + 1).last() == hash@[i as int]);
        }
        s.push(digit_of(hash[i] / 16));
        s.push(digit_of(hash[i] % 16));
        i += 1;
    }
    proof {
        assert(hash@.take(32) == hash@);
    }
    s
}

/// Whether two hashes are equal.
pub fn same_hash(a: &[u8; 32], b: &[u8; 32]) -> (r: bool)
    ensures
        r == (a@ == b@),
{
    let mut i: usize = 0;
    while i < 32
        invariant
            i <= 32,
            forall|j: int| 0 <= j < i ==> a@[j] == b@[j],
        decreases 32 - i,
    {
        if a[i] != b[i] {
            return false;
        }
        i += 1;
    }
    proof {
        assert(a@ =~= b@);
    }
    true
}

/// What is said when a copy differs from the file.
pub open spec fn mismatch_text(src: Seq<char>, expected: Seq<u8>, got: Seq<u8>) -> Seq<char> {
    "Hash mismatch after copying file!\nSource: "@ + src + "\nExpected: "@ + hex(expected)
        + "\nGot:      "@ + hex(got)
        + "\nThis could indicate a failing SD card, bad USB connection, or disk error.\nThe source has NOT been wiped. Your files are safe."@
}

fn mismatch_message(src: &str, expected: &[u8; 32], got: &[u8; 32]) -> (s: String)
    ensures
        s@ == mismatch_text(src@, expected@, got@),
{
    let mut s = concat3("Hash mismatch after copying file!\nSource: ", src, "\nExpected: ");
    s.append(hash_hex(expected).as_str());
    s.append("\nGot:      ");
    s.append(hash_hex(got).as_str());
    s.append(
        "\nThis could indicate a failing SD card, bad USB connection, or disk error.\nThe source has NOT been wiped. Your files are safe.",
    );
    s
}

/// The copy is the next one to make; there is none when all files are copied, or when
/// the import was cancelled.
pub open spec fn is_next_copy(
    s: Staging,
    cancelled: bool,
    r: Result<Option<CopyStep>, AppError>,
) -> bool {
    match r {
        Ok(None) => s.next == s.manifest.len(),
        Ok(Some(c)) => s.next < s.manifest.len() && !cancelled && c.src@
            == crate::paths::path_join(
            s.source_path@,
            s.manifest@[s.next as int].rel_path@,
        ) && c.dst@ == crate::paths::path_join(
            s.staging_dir@,
            s.manifest@[s.next as int].rel_path@,
        ) && crate::text::opt_view(c.parent) == crate::paths::parent(c.dst@),
        Err(e) => s.next < s.manifest.len() && cancelled
            && crate::error::is_internal(e, "interrupted by user"@),
    }
}

impl Staging {
    /// The next copy to make, or nothing when all files are copied. A cancelled
    /// import goes no further.
    pub fn next_copy(&self, cancelled: bool) -> (r: Result<Option<CopyStep>, AppError>)
        requires
            self.wf(),
        ensures
            is_next_copy(*self, cancelled, r),
    {
        if self.next >= self.manifest.len() {
            return Ok(None);
        }
        if cancelled {
            return Err(AppError::Internal(owned("interrupted by user")));
        }
        let rel = &self.manifest[self.next].rel_path;
        let dst = from_archive_relative(rel.as_str(), self.staging_dir.as_str());
        Ok(
            Some(
                CopyStep {
                    src: from_archive_relative(rel.as_str(), self.source_path.as_str()),
                    parent: parent_of(dst.as_str()),
                    dst,
                },
            ),
        )
    }

    /// Takes note of a copy: the hash of the file, taken while it was copied,
    /// and that of the copy, read back. They must be equal.
    pub fn record_copy(&mut self, src_hash: [u8; 32], dst_hash: [u8; 32]) -> (r: Result<
        (),
        AppError,
    >)
        requires
            old(self).wf(),
            old(self).next < old(self).manifest.len(),
        ensures
            ({
                let before = *old(self);
                let after = *final(self);
                let i = before.next as int;
                match r {
                    Ok(_) => {
                        &&& src_hash@ == dst_hash@
                        &&& after.wf()
                        &&& after.next == i + 1
                        &&& after.source_path == before.source_path
                        &&& after.staging_dir == before.staging_dir
                        &&& after.bytes_total == before.bytes_total
                        &&& contents(after.manifest@) == contents(before.manifest@)
                        &&& after.manifest@[i].source_hash == src_hash
                        &&& forall|j: int|
                            0 <= j < before.manifest.len() && j != i ==> #[trigger] after.manifest@[j]
                                == before.manifest@[j]
                    },
                    Err(e) => {
                        &&& src_hash@ != dst_hash@
                        &&& after == before
                        &&& crate::error::is_internal(
                            e,
                            mismatch_text(
                                crate::paths::path_join(
                                    before.source_path@,
                                    before.manifest@[i].rel_path@,
                                ),
                                src_hash@,
                                dst_hash@,
                            ),
                        )
                    },
                }
            }),
    {
        let i: usize = self.next;
        if !same_hash(&src_hash, &dst_hash) {
            let src = from_archive_relative(
                self.manifest[i].rel_path.as_str(),
                self.source_path.as_str(),
            );
            return Err(
                AppError::Internal(mismatch_message(src.as_str(), &src_hash, &dst_hash)),
            );
        }
        let ghost c = contents(self.manifest@);
        let size: u64 = self.manifest[i].size;
        proof {
            assert(c.take(i + 1).drop_last() == c.take(i as int));
            assert(c.take(i + 1).last() == c[i as int]);
            lemma_size_grows(c, i + 1);
        }
        let entry = FileEntry {
            rel_path: owned(self.manifest[i].rel_path.as_str()),
            size,
            source_hash: src_hash,
            staged_path: from_archive_relative(
                self.manifest[i].rel_path.as_str(),
                self.staging_dir.as_str(),
            ),
            verified: true,
        };
        self.manifest.set(i, entry);
        self.next = i + 1;
        self.bytes_done = self.bytes_done + size;
        proof {
            assert(contents(self.manifest@) == c);
        }
        Ok(())
    }

    /// The copied files, once all are copied.
    pub fn finish(self) -> (r: Vec<FileEntry>)
        requires
            self.wf(),
            self.next == self.manifest.len(),
        ensures
            r == self.manifest,
            forall|i: int|
                0 <= i < r.len() ==> (#[trigger] r@[i]).verified && r@[i].staged_path@
                    == crate::paths::path_join(self.staging_dir@, r@[i].rel_path@),
    {
        self.manifest
    }
}

/// Whether progress is to be reported: after the last file, and otherwise not
/// too often.
pub fn is_progress_due(files_done: usize, files_total: usize, since_last_ms: u128) -> (r: bool)
    ensures
        r == (files_done == files_total || since_last_ms >= PROGRESS_THROTTLE_MS),
{
    files_done == files_total || since_last_ms >= PROGRESS_THROTTLE_MS
}

/// When all files are copied, every one of them was read back and found equal,
/// and the bytes that were counted are those of all files.
pub proof fn staged_files_are_verified(s: Staging)
    requires
        s.wf(),
        s.next == s.manifest.len(),
    ensures
        forall|i: int| 0 <= i < s.manifest.len() ==> (#[trigger] s.manifest@[i]).verified,
        s.bytes_done == s.bytes_total,
{
    assert(contents(s.manifest@).take(s.next as int) == contents(s.manifest@));
}

} // verus!
