//! What the steps of an import hand to each other.

use crate::scan::naming::CameraKind;
use vstd::prelude::*;

verus! {

/// Where files come from: a card or a folder.
#[derive(Debug)]
pub struct ImportSource {
    pub path: String,
    pub label: String,
    pub read_only: bool,
    pub file_count: u32,
    pub total_bytes: u64,
    pub detected_kind: Option<CameraKind>,
}

/// A file met on the way through a directory tree.
#[derive(Debug)]
pub struct WalkedFile {
    pub name: String,
    pub rel_path: String,
    pub size: u64,
}

/// A file that is copied: where it is in the source, its size, its hash, where
/// the copy is, and whether the copy was read back and found equal.
#[derive(Debug)]
pub struct FileEntry {
    pub rel_path: String,
    pub size: u64,
    pub source_hash: [u8; 32],
    pub staged_path: String,
    pub verified: bool,
}

/// A file of which nothing says where it belongs.
#[derive(Debug)]
pub struct UnknownFile {
    pub staged_path: String,
    pub rel_path: String,
    pub extension: String,
    pub filename: String,
    pub size: u64,
}

/// What to do with such a file.
#[derive(Debug, Clone, Copy, PartialEq, Eq, Structural)]
pub enum UnknownFileAction {
    /// Delete it, and from now on every file of its name.
    DeleteFilename,
    /// Delete it, and from now on every file with its extension.
    DeleteExtension,
    /// Keep it in the directory for other files.
    MoveToOther,
}

/// What the user wants done with a file.
#[derive(Debug)]
pub struct UnknownFileDecision {
    pub staged_path: String,
    pub action: UnknownFileAction,
}

/// What to do when a file on the card cannot be deleted.
#[derive(Debug, Clone, Copy, PartialEq, Eq, Structural)]
pub enum WipeErrorAction {
    Retry,
    Skip,
    Cancel,
}

/// What became of the copied files.
#[derive(Debug)]
pub struct DistributeResult {
    pub videos_moved: u32,
    pub photos_moved: u32,
    pub dups_skipped: u32,
    pub earliest_date: Option<String>,
    pub latest_date: Option<String>,
}

/// What became of a source.
#[derive(Debug)]
pub struct SourceResult {
    pub source_label: String,
    pub source_path: String,
    pub files_staged: u32,
    pub bytes_staged: u64,
    pub source_wiped: bool,
    pub read_only: bool,
    pub videos_moved: u32,
    pub photos_moved: u32,
    pub dups_skipped: u32,
    pub unknown_files: u32,
    pub no_files: bool,
    pub earliest_date: Option<String>,
    pub latest_date: Option<String>,
    pub error: Option<String>,
    pub warnings: Vec<String>,
}

/// What became of an import.
#[derive(Debug)]
pub struct ImportResult {
    pub sources: Vec<SourceResult>,
    pub log_path: Option<String>,
}

/// Names of the files that cameras create to hold space on the card.
pub open spec fn is_placeholder(name: Seq<char>) -> bool {
    crate::text::has_prefix(name, ".PreAllocFile_"@)
}

/// Whether the file only holds space on the card.
pub fn is_prealloc(name: &str) -> (r: bool)
    ensures
        r == is_placeholder(name@),
{
    crate::text::starts_with(crate::text::chars_of(name).as_slice(), ".PreAllocFile_")
}

/// The files that hold footage.
pub open spec fn real_files(files: Seq<WalkedFile>) -> Seq<WalkedFile> {
    files.filter(|f: WalkedFile| !is_placeholder(f.name@))
}

/// The size of all files together.
pub open spec fn sum_sizes(files: Seq<WalkedFile>) -> nat
    decreases files.len(),
{
    if files.len() == 0 {
        0
    } else {
        sum_sizes(files.drop_last()) + files.last().size as nat
    }
}

} // verus!
