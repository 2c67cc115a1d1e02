//! Bringing footage into the library: finding cards, copying with a check of
//! every file, and sorting the files into place.

pub mod discovery;
pub mod distribute;
pub mod stage;
pub mod types;

use crate::error::AppError;
use crate::import::types::{
    DistributeResult, FileEntry, ImportResult, ImportSource, SourceResult,
};
use crate::paths::{file_name_of, from_archive_relative, is_under, parent_of};
use crate::text::{
    ascii_lowered, chars_of, concat2, concat3, is_str, owned, parse_unsigned, trimmed,
};
use vstd::prelude::*;

verus! {

/// How long the logs of imports are kept, in seconds.
pub const LOG_KEEP_SECONDS: u64 = 2_592_000;

// -------------------------------------------------------------------- the library

/// The root of the library that a path stands for: the directory of videos
/// stands for the one that holds it.
pub open spec fn library_root(path: Seq<char>) -> Seq<char> {
    match crate::paths::file_name(path) {
        Some(n) => if crate::text::ascii_lower(n) == "videos"@ {
            match crate::paths::parent(path) {
                Some(p) => p,
                None => path,
            }
        } else {
            path
        },
        None => path,
    }
}

/// The root of the library that a path stands for.
pub fn resolve_library_root(root_path: &str) -> (r: String)
    ensures
        r@ == library_root(root_path@),
{
    match file_name_of(root_path) {
        Some(n) => {
            let lower = ascii_lowered(chars_of(n.as_str()).as_slice());
            if is_str(lower.as_slice(), "videos") {
                match parent_of(root_path) {
                    Some(p) => p,
                    None => owned(root_path),
                }
            } else {
                owned(root_path)
            }
        },
        None => owned(root_path),
    }
}

/// Why files of a source cannot be brought into a library: the two overlap.
pub open spec fn overlap(source: Seq<char>, root: Seq<char>) -> Option<Seq<char>> {
    let inside = crate::paths::lies_under(source, root);
    let around = crate::paths::lies_under(root, source);
    if inside && around {
        Some("Source folder is the library root \u{2014} pick a folder outside the library."@)
    } else if inside {
        Some(
            "Source folder is inside the library at "@ + root
                + " \u{2014} pick a folder outside the library."@,
        )
    } else if around {
        Some(
            "Source folder contains the library at "@ + root
                + " \u{2014} pick a more specific folder."@,
        )
    } else {
        None
    }
}

/// Refuses a source that overlaps with the library. Both paths are given without
/// links, where they exist.
pub fn guard_against_self_import(source: &str, library_root: &str) -> (r: Result<(), AppError>)
    ensures
        match r {
            Ok(_) => overlap(source@, library_root@) is None,
            Err(e) => overlap(source@, library_root@) matches Some(words)
                && crate::error::is_internal(e, words),
        },
{
    let inside = is_under(source, library_root);
    let around = is_under(library_root, source);
    if inside && around {
        return Err(
            AppError::Internal(
                owned(
                    "Source folder is the library root \u{2014} pick a folder outside the library.",
                ),
            ),
        );
    }
    if inside {
        return Err(
            AppError::Internal(
                concat3(
                    "Source folder is inside the library at ",
                    library_root,
                    " \u{2014} pick a folder outside the library.",
                ),
            ),
        );
    }
    if around {
        return Err(
            AppError::Internal(
                concat3(
                    "Source folder contains the library at ",
                    library_root,
                    " \u{2014} pick a more specific folder.",
                ),
            ),
        );
    }
    Ok(())
}

/// A source that overlaps with the library is refused, whichever way.
pub proof fn overlapping_sources_are_refused(source: Seq<char>, root: Seq<char>)
    ensures
        overlap(source, root) is Some <==> crate::paths::lies_under(source, root)
            || crate::paths::lies_under(root, source),
        overlap(root, root) is Some,
{
    let c = crate::paths::components(root);
    assert(c.take(c.len() as int) == c);
    assert(crate::paths::lies_under(root, root));
}

/// The directories that an import needs in the library.
pub fn import_dirs(root: &str) -> (r: Vec<String>)
    ensures
        crate::text::views(r@) == seq![
            crate::paths::path_join(root@, "Videos"@),
            crate::paths::path_join(root@, "Photos"@),
            crate::paths::path_join(root@, ".staging"@),
            crate::paths::path_join(root@, ".logs"@),
        ],
{
    let a = from_archive_relative("Videos", root);
    let b = from_archive_relative("Photos", root);
    let c = from_archive_relative(".staging", root);
    let d = from_archive_relative(".logs", root);
    let v: Vec<String> = vec![a, b, c, d];
    proof {
        assert(crate::text::views(v@) =~= seq![
            crate::paths::path_join(root@, "Videos"@),
            crate::paths::path_join(root@, "Photos"@),
            crate::paths::path_join(root@, ".staging"@),
            crate::paths::path_join(root@, ".logs"@),
        ]);
    }
    v
}

/// The file whose presence says that an import is running.
pub fn lock_path(root: &str) -> (r: String)
    ensures
        r@ == crate::paths::path_join(crate::paths::path_join(root@, ".staging"@), ".lock"@),
{
    let staging = from_archive_relative(".staging", root);
    from_archive_relative(".lock", staging.as_str())
}

/// The process that a lock names.
pub open spec fn owner_in(contents: Seq<char>) -> Option<nat> {
    crate::text::unsigned_value(crate::text::trim(contents), u32::MAX as nat)
}

/// The process that a lock names.
pub fn lock_owner(contents: &str) -> (r: Option<u32>)
    ensures
        match r {
            Some(n) => owner_in(contents@) == Some(n as nat),
            None => owner_in(contents@) is None,
        },
{
    let c = chars_of(contents);
    match parse_unsigned(trimmed(c.as_slice()), 0xffff_ffff) {
        Some(n) => Some(n as u32),
        None => None,
    }
}

/// Whether a lock that is in the way may be removed: the process that it names
/// is gone. Otherwise the import is refused.
pub fn acquire_lock(path: &str, contents: &Option<String>, owner_alive: bool) -> (r: Result<
    (),
    AppError,
>)
    ensures
        ({
            let stale = contents matches Some(c) && owner_in(c@) is Some && !owner_alive;
            match r {
                Ok(_) => stale,
                Err(e) => !stale && crate::error::is_internal(
                    e,
                    "Lock file exists at "@ + path@
                        + " \u{2014} another import may be running"@,
                ),
            }
        }),
{
    let stale = match contents {
        Some(c) => lock_owner(c.as_str()).is_some() && !owner_alive,
        None => false,
    };
    if stale {
        Ok(())
    } else {
        Err(
            AppError::Internal(
                concat3(
                    "Lock file exists at ",
                    path,
                    " \u{2014} another import may be running",
                ),
            ),
        )
    }
}

// ---------------------------------------------------------------- the one import

/// Whether an import is running, whether it is to stop, and whether there is one
/// that takes answers.
#[derive(Debug)]
pub struct ImportState {
    pub running: bool,
    pub cancelled: bool,
    pub takes_answers: bool,
}

/// The first source that overlaps with the library.
pub open spec fn first_overlap(sources: Seq<Seq<char>>, root: Seq<char>, i: int) -> Option<
    Seq<char>,
>
    decreases sources.len() - i,
{
    if i < 0 || i >= sources.len() {
        None
    } else if overlap(sources[i], root) is Some {
        overlap(sources[i], root)
    } else {
        first_overlap(sources, root, i + 1)
    }
}

impl ImportState {
    /// No import is running.
    pub fn new() -> (r: ImportState)
        ensures
            !r.running,
            !r.cancelled,
            !r.takes_answers,
    {
        ImportState { running: false, cancelled: false, takes_answers: false }
    }

    /// Starts an import, unless one is running or a source overlaps with the
    /// library.
    pub fn start_import(&mut self, library_root: &str, sources: &Vec<String>) -> (r: Result<
        (),
        AppError,
    >)
        ensures
            ({
                let refusal = first_overlap(crate::text::views(sources@), library_root@, 0);
                match r {
                    Ok(_) => !old(self).running && refusal is None && final(self).running
                        && !final(self).cancelled && final(self).takes_answers,
                    Err(e) => *final(self) == *old(self) && if old(self).running {
                        e is ImportAlreadyRunning
                    } else {
                        refusal matches Some(words) && crate::error::is_internal(e, words)
                    },
                }
            }),
    {
        if self.running {
            return Err(AppError::ImportAlreadyRunning);
        }
        let ghost sv = crate::text::views(sources@);
        let mut i: usize = 0;
        while i < sources.len()
            invariant
                i <= sources.len(),
                sv == crate::text::views(sources@),
                !self.running,
                *self == *old(self),
                first_overlap(sv, library_root@, 0) == first_overlap(sv, library_root@, i as int),
            decreases sources.len() - i,
        {
            proof {
                assert(sv[i as int] == sources@[i as int]@);
            }
            if let Err(e) = guard_against_self_import(sources[i].as_str(), library_root) {
                return Err(e);
            }
            i += 1;
        }
        self.running = true;
        self.cancelled = false;
        self.takes_answers = true;
        Ok(())
    }

    /// Asks the running import to stop.
    pub fn cancel_import(&mut self) -> (r: Result<(), AppError>)
        ensures
            match r {
                Ok(_) => old(self).running && (*final(self) == ImportState {
                    cancelled: true,
                    ..*old(self)
                }),
                Err(e) => !old(self).running && e is NoImportRunning && *final(self)
                    == *old(self),
            },
    {
        if !self.running {
            return Err(AppError::NoImportRunning);
        }
        self.cancelled = true;
        Ok(())
    }

    /// The import has ended.
    pub fn finish(&mut self)
        ensures
            *final(self) == (ImportState { running: false, ..*old(self) }),
    {
        self.running = false;
    }

    /// Whether an answer of the user can be handed on. There must have been an
    /// import.
    pub fn check_answer(&self) -> (r: Result<(), AppError>)
        ensures
            match r {
                Ok(_) => self.takes_answers,
                Err(e) => !self.takes_answers && e is NoImportRunning,
            },
    {
        if self.takes_answers {
            Ok(())
        } else {
            Err(AppError::NoImportRunning)
        }
    }
}

/// A folder as a source. Its files are copied and nothing in it is touched.
pub fn folder_source(source_path: &str) -> (r: ImportSource)
    ensures
        r.path@ == source_path@,
        r.label@ == match crate::paths::file_name(source_path@) {
            Some(n) => n,
            None => "folder"@,
        },
        !r.read_only,
        r.file_count == 0,
        r.total_bytes == 0,
        r.detected_kind is None,
{
    let label = match file_name_of(source_path) {
        Some(n) => n,
        None => owned("folder"),
    };
    ImportSource {
        path: owned(source_path),
        label,
        read_only: false,
        file_count: 0,
        total_bytes: 0,
        detected_kind: None,
    }
}

// --------------------------------------------------------------------- one source

/// The mathematical value of what became of a source.
pub struct ResultView {
    pub source_label: Seq<char>,
    pub source_path: Seq<char>,
    pub files_staged: u32,
    pub bytes_staged: u64,
    pub source_wiped: bool,
    pub read_only: bool,
    pub videos_moved: u32,
    pub photos_moved: u32,
    pub dups_skipped: u32,
    pub unknown_files: u32,
    pub no_files: bool,
    pub earliest_date: Option<Seq<char>>,
    pub latest_date: Option<Seq<char>>,
    pub error: Option<Seq<char>>,
    pub warnings: Seq<Seq<char>>,
}

impl View for SourceResult {
    type V = ResultView;

    open spec fn view(&self) -> ResultView {
        ResultView {
            source_label: self.source_label@,
            source_path: self.source_path@,
            files_staged: self.files_staged,
            bytes_staged: self.bytes_staged,
            source_wiped: self.source_wiped,
            read_only: self.read_only,
            videos_moved: self.videos_moved,
            photos_moved: self.photos_moved,
            dups_skipped: self.dups_skipped,
            unknown_files: self.unknown_files,
            no_files: self.no_files,
            earliest_date: crate::text::opt_view(self.earliest_date),
            latest_date: crate::text::opt_view(self.latest_date),
            error: crate::text::opt_view(self.error),
            warnings: crate::text::views(self.warnings@),
        }
    }
}

/// What is known of a source before anything was done.
pub open spec fn untouched(label: Seq<char>, path: Seq<char>, read_only: bool) -> ResultView {
    ResultView {
        source_label: label,
        source_path: path,
        files_staged: 0,
        bytes_staged: 0,
        source_wiped: false,
        read_only,
        videos_moved: 0,
        photos_moved: 0,
        dups_skipped: 0,
        unknown_files: 0,
        no_files: false,
        earliest_date: None,
        latest_date: None,
        error: None,
        warnings: Seq::empty(),
    }
}

fn untouched_result(label: &str, path: &str, read_only: bool) -> (r: SourceResult)
    ensures
        r@ == untouched(label@, path@, read_only),
{
    let r = SourceResult {
        source_label: owned(label),
        source_path: owned(path),
        files_staged: 0,
        bytes_staged: 0,
        source_wiped: false,
        read_only,
        videos_moved: 0,
        photos_moved: 0,
        dups_skipped: 0,
        unknown_files: 0,
        no_files: false,
        earliest_date: None,
        latest_date: None,
        error: None,
        warnings: Vec::new(),
    };
    proof {
        assert(r@.warnings == Seq::<Seq<char>>::empty());
    }
    r
}

/// What became of an import that could not begin.
pub fn error_result(msg: String, log_path: Option<String>) -> (r: ImportResult)
    ensures
        r.log_path == log_path,
        r.sources.len() == 1,
        r.sources@[0]@ == (ResultView { error: Some(msg@), ..untouched(""@, ""@, false) }),
{
    let mut s = untouched_result("", "", false);
    s.error = Some(msg);
    let mut sources: Vec<SourceResult> = Vec::new();
    sources.push(s);
    ImportResult { sources, log_path }
}

/// What became of a source that was not reached before the import was cancelled.
pub fn cancelled_result(source: &ImportSource) -> (r: SourceResult)
    ensures
        r@ == (ResultView {
            error: Some("Cancelled by user"@),
            ..untouched(source.label@, source.path@, source.read_only)
        }),
{
    let mut s = untouched_result(
        source.label.as_str(),
        source.path.as_str(),
        source.read_only,
    );
    s.error = Some(owned("Cancelled by user"));
    s
}

/// What is done next with a source.
#[derive(Debug, Clone, Copy, PartialEq, Eq, Structural)]
pub enum SourcePhase {
    /// Copy its files.
    Stage,
    /// Ask whether the source is to be wiped.
    ConfirmWipe,
    /// Wipe it.
    Wipe,
    /// Sort the copies into the library.
    Distribute,
    /// Ask about the files of which nothing says where they belong.
    AskUnknowns,
    /// Delete what is left of the copies.
    Cleanup,
    /// Nothing: it is finished.
    Done,
}

/// What came of it.
#[derive(Debug)]
pub enum SourceEvent {
    Staged(Result<Vec<FileEntry>, AppError>),
    /// The answer of the user, where there was one.
    WipeAnswer(Option<bool>),
    Wiped(Result<(), AppError>),
    /// What became of the copies, and whether there are files to ask about.
    Distributed(Result<(DistributeResult, bool), AppError>),
    /// How many of these files were dealt with.
    UnknownsHandled(u32),
    CleanedUp(Result<(), AppError>),
}

/// The work on one source.
#[derive(Debug)]
pub struct SourceRun {
    pub wipe_eligible: bool,
    pub all_verified: bool,
    pub phase: SourcePhase,
    pub result: SourceResult,
}

/// The mathematical value of the work on a source.
pub struct RunView {
    pub wipe_eligible: bool,
    pub all_verified: bool,
    pub phase: SourcePhase,
    pub result: ResultView,
}

impl View for SourceRun {
    type V = RunView;

    open spec fn view(&self) -> RunView {
        RunView {
            wipe_eligible: self.wipe_eligible,
            all_verified: self.all_verified,
            phase: self.phase,
            result: self.result@,
        }
    }
}

/// Every copy was read back and found equal.
pub open spec fn are_verified(m: Seq<FileEntry>) -> bool {
    forall|i: int| 0 <= i < m.len() ==> (#[trigger] m[i]).verified
}

/// What follows the copying and the wipe.
pub open spec fn sorting_phase(cancelled: bool) -> SourcePhase {
    if cancelled {
        SourcePhase::Cleanup
    } else {
        SourcePhase::Distribute
    }
}

/// The work on a source after an event. Events that do not belong to the phase
/// change nothing.
pub open spec fn after_event(v: RunView, e: SourceEvent, cancelled: bool) -> RunView {
    match (v.phase, e) {
        (SourcePhase::Stage, SourceEvent::Staged(Err(err))) => RunView {
            phase: SourcePhase::Done,
            result: ResultView { error: Some(err.words()), ..v.result },
            ..v
        },
        (SourcePhase::Stage, SourceEvent::Staged(Ok(m))) => if m.len() == 0 {
            RunView {
                phase: SourcePhase::Done,
                result: ResultView { no_files: true, ..v.result },
                ..v
            }
        } else {
            RunView {
                all_verified: are_verified(m@),
                phase: if v.wipe_eligible && are_verified(m@) && !cancelled && !v.result.read_only {
                    SourcePhase::ConfirmWipe
                } else {
                    sorting_phase(cancelled)
                },
                result: ResultView {
                    files_staged: m.len() as u32,
                    bytes_staged: stage::content_size(stage::contents(m@)) as u64,
                    ..v.result
                },
                ..v
            }
        },
        (SourcePhase::ConfirmWipe, SourceEvent::WipeAnswer(a)) => RunView {
            phase: if a == Some(true) {
                SourcePhase::Wipe
            } else {
                sorting_phase(cancelled)
            },
            ..v
        },
        (SourcePhase::Wipe, SourceEvent::Wiped(r)) => RunView {
            phase: sorting_phase(cancelled),
            result: match r {
                Ok(_) => ResultView { source_wiped: true, ..v.result },
                Err(err) => ResultView {
                    warnings: v.result.warnings.push("Wipe failed: "@ + err.words()),
                    ..v.result
                },
            },
            ..v
        },
        (SourcePhase::Distribute, SourceEvent::Distributed(Err(err))) => RunView {
            phase: SourcePhase::Done,
            result: ResultView {
                error: Some("Distribute failed: "@ + err.words()),
                ..v.result
            },
            ..v
        },
        (SourcePhase::Distribute, SourceEvent::Distributed(Ok((d, unknowns)))) => RunView {
            phase: if unknowns {
                SourcePhase::AskUnknowns
            } else {
                SourcePhase::Cleanup
            },
            result: ResultView {
                videos_moved: d.videos_moved,
                photos_moved: d.photos_moved,
                dups_skipped: d.dups_skipped,
                earliest_date: crate::text::opt_view(d.earliest_date),
                latest_date: crate::text::opt_view(d.latest_date),
                ..v.result
            },
            ..v
        },
        (SourcePhase::AskUnknowns, SourceEvent::UnknownsHandled(n)) => RunView {
            phase: SourcePhase::Cleanup,
            result: ResultView { unknown_files: n, ..v.result },
            ..v
        },
        (SourcePhase::Cleanup, SourceEvent::CleanedUp(r)) => RunView {
            phase: SourcePhase::Done,
            result: match r {
                Ok(_) => v.result,
                Err(err) => ResultView {
                    warnings: v.result.warnings.push("Cleanup error: "@ + err.words()),
                    ..v.result
                },
            },
            ..v
        },
        _ => v,
    }
}

/// The work on a source before anything was done.
pub fn begin_source(source: &ImportSource, wipe_eligible: bool) -> (r: SourceRun)
    ensures
        r@ == (RunView {
            wipe_eligible,
            all_verified: false,
            phase: SourcePhase::Stage,
            result: untouched(source.label@, source.path@, source.read_only),
        }),
{
    SourceRun {
        wipe_eligible,
        all_verified: false,
        phase: SourcePhase::Stage,
        result: untouched_result(
            source.label.as_str(),
            source.path.as_str(),
            source.read_only,
        ),
    }
}

fn all_are_verified(m: &Vec<FileEntry>) -> (r: bool)
    ensures
        r == are_verified(m@),
{
    let mut i: usize = 0;
    while i < m.len()
        invariant
            i <= m.len(),
            forall|j: int| 0 <= j < i ==> (#[trigger] m@[j]).verified,
        decreases m.len() - i,
    {
        if !m[i].verified {
            return false;
        }
        i += 1;
    }
    true
}

fn total_size(m: &Vec<FileEntry>) -> (r: u64)
    requires
        stage::content_size(stage::contents(m@)) <= u64::MAX,
    ensures
        r == stage::content_size(stage::contents(m@)),
{
    let ghost c = stage::contents(m@);
    let mut total: u64 = 0;
    let mut i: usize = 0;
    proof {
        assert(c.take(0).len() == 0);
    }
    while i < m.len()
        invariant
            i <= m.len(),
            c == stage::contents(m@),
            stage::content_size(c) <= u64::MAX,
            total == stage::content_size(c.take(i as int)),
        decreases m.len() - i,
    {
        proof {
            assert(c.take(i + 1).drop_last() == c.take(i as int));
            assert(c.take(i + 1).last() == c[i as int]);
            stage::lemma_size_grows(c, i + 1);
        }
        total += m[i].size;
        i += 1;
    }
    proof {
        assert(c.take(c.len() as int) == c);
    }
    total
}

fn next_after_wipe(cancelled: bool) -> (r: SourcePhase)
    ensures
        r == sorting_phase(cancelled),
{
    if cancelled {
        SourcePhase::Cleanup
    } else {
        SourcePhase::Distribute
    }
}

fn push_warning(warnings: &mut Vec<String>, head: &str, e: &AppError)
    ensures
        crate::text::views(final(warnings)@) == crate::text::views(old(warnings)@).push(
            head@ + e.words(),
        ),
{
    let ghost before = warnings@;
    let text = concat2(head, e.describe().as_str());
    let ghost tv = text@;
    warnings.push(text);
    proof {
        assert(crate::text::views(warnings@) == crate::text::views(before).push(tv));
    }
}

/// Takes note of what came of a phase, given whether the import was cancelled
/// meanwhile, and decides what is done next.
pub fn process_source(run: SourceRun, event: SourceEvent, cancelled: bool) -> (r: SourceRun)
    requires
        event matches SourceEvent::Staged(Ok(m)) ==> stage::content_size(stage::contents(m@))
            <= u64::MAX,
    ensures
        r@ == after_event(run@, event, cancelled),
{
    let mut run = run;
    match run.phase {
        SourcePhase::Stage => match event {
            SourceEvent::Staged(Err(e)) => {
                run.result.error = Some(e.describe());
                run.phase = SourcePhase::Done;
            },
            SourceEvent::Staged(Ok(m)) => if m.len() == 0 {
                run.result.no_files = true;
                run.phase = SourcePhase::Done;
            } else {
                run.result.files_staged = m.len() as u32;
                run.result.bytes_staged = total_size(&m);
                run.all_verified = all_are_verified(&m);
                run.phase =
                if run.wipe_eligible && run.all_verified && !cancelled && !run.result.read_only {
                    SourcePhase::ConfirmWipe
                } else {
                    next_after_wipe(cancelled)
                };
            },
            _ => {},
        },
        SourcePhase::ConfirmWipe => match event {
            SourceEvent::WipeAnswer(a) => {
                let yes = match a {
                    Some(b) => b,
                    None => false,
                };
                run.phase =
                if yes {
                    SourcePhase::Wipe
                } else {
                    next_after_wipe(cancelled)
                };
            },
            _ => {},
        },
        SourcePhase::Wipe => match event {
            SourceEvent::Wiped(r) => {
                match r {
                    Ok(_) => {
                        run.result.source_wiped = true;
                    },
                    Err(e) => {
                        push_warning(&mut run.result.warnings, "Wipe failed: ", &e);
                    },
                }
                run.phase = next_after_wipe(cancelled);
            },
            _ => {},
        },
        SourcePhase::Distribute => match event {
            SourceEvent::Distributed(Err(e)) => {
                run.result.error = Some(concat2("Distribute failed: ", e.describe().as_str()));
                run.phase = SourcePhase::Done;
            },
            SourceEvent::Distributed(Ok((d, unknowns))) => {
                run.result.videos_moved = d.videos_moved;
                run.result.photos_moved = d.photos_moved;
                run.result.dups_skipped = d.dups_skipped;
                run.result.earliest_date = d.earliest_date;
                run.result.latest_date = d.latest_date;
                run.phase =
                if unknowns {
                    SourcePhase::AskUnknowns
                } else {
                    SourcePhase::Cleanup
                };
            },
            _ => {},
        },
        SourcePhase::AskUnknowns => match event {
            SourceEvent::UnknownsHandled(n) => {
                run.result.unknown_files = n;
                run.phase = SourcePhase::Cleanup;
            },
            _ => {},
        },
        SourcePhase::Cleanup => match event {
            SourceEvent::CleanedUp(r) => {
                if let Err(e) = r {
                    push_warning(&mut run.result.warnings, "Cleanup error: ", &e);
                }
                run.phase = SourcePhase::Done;
            },
            _ => {},
        },
        SourcePhase::Done => {},
    }
    run
}

/// How many files the user's decisions dealt with: none where there was no
/// answer, or where carrying it out failed.
pub fn handle_unknowns(applied: Option<Result<u32, AppError>>) -> (r: u32)
    ensures
        r == match applied {
            Some(Ok(n)) => n,
            _ => 0,
        },
{
    match applied {
        Some(Ok(n)) => n,
        _ => 0,
    }
}

/// What became of the sources of an import: those that were not reached are
/// reported as cancelled.
pub fn run_pipeline(
    finished: Vec<SourceResult>,
    not_reached: &Vec<ImportSource>,
    log_path: Option<String>,
) -> (r: ImportResult)
    ensures
        r.log_path == log_path,
        r.sources.len() == finished.len() + not_reached.len(),
        forall|i: int| 0 <= i < finished.len() ==> #[trigger] r.sources@[i] == finished@[i],
        forall|i: int|
            0 <= i < not_reached.len() ==> (#[trigger] r.sources@[finished.len() + i])@
                == (ResultView {
                error: Some("Cancelled by user"@),
                ..untouched(
                    not_reached@[i].label@,
                    not_reached@[i].path@,
                    not_reached@[i].read_only,
                )
            }),
{
    let ghost done = finished@;
    let mut sources = finished;
    let mut i: usize = 0;
    while i < not_reached.len()
        invariant
            i <= not_reached.len(),
            sources.len() == done.len() + i,
            forall|j: int| 0 <= j < done.len() ==> #[trigger] sources@[j] == done[j],
            forall|j: int|
                0 <= j < i ==> (#[trigger] sources@[done.len() + j])@ == (ResultView {
                    error: Some("Cancelled by user"@),
                    ..untouched(
                        not_reached@[j].label@,
                        not_reached@[j].path@,
                        not_reached@[j].read_only,
                    )
                }),
        decreases not_reached.len() - i,
    {
        sources.push(cancelled_result(&not_reached[i]));
        i += 1;
    }
    ImportResult { sources, log_path }
}

// --------------------------------------------------------------------------- laws

/// Only what was copied, read back and found equal is ever wiped, and only where
/// the source may be wiped and can be written to.
pub open spec fn is_safe(v: RunView) -> bool {
    &&& v.phase == SourcePhase::ConfirmWipe || v.phase == SourcePhase::Wipe
        || v.result.source_wiped ==> v.wipe_eligible && v.all_verified && !v.result.read_only
    &&& v.phase == SourcePhase::Stage ==> !v.result.source_wiped
}

/// Nothing is wiped that was not copied, read back and found equal: this holds
/// at the beginning, and whatever happens it goes on holding.
pub proof fn wiping_follows_verified_copies(
    source: ImportSource,
    wipe_eligible: bool,
    v: RunView,
    e: SourceEvent,
    cancelled: bool,
)
    ensures
        is_safe(
            RunView {
                wipe_eligible,
                all_verified: false,
                phase: SourcePhase::Stage,
                result: untouched(source.label@, source.path@, source.read_only),
            },
        ),
        is_safe(v) ==> is_safe(after_event(v, e, cancelled)),
{
}

/// A source is wiped only after the user has said so, and an import that was
/// cancelled before asks nobody.
pub proof fn only_a_yes_wipes(v: RunView, e: SourceEvent, cancelled: bool)
    ensures
        v.phase != SourcePhase::Wipe && after_event(v, e, cancelled).phase == SourcePhase::Wipe
            ==> v.phase == SourcePhase::ConfirmWipe && (e matches SourceEvent::WipeAnswer(a) && a
            == Some(true)),
        v.phase != SourcePhase::ConfirmWipe && after_event(v, e, cancelled).phase
            == SourcePhase::ConfirmWipe ==> !cancelled,
        !v.result.source_wiped && after_event(v, e, cancelled).result.source_wiped ==> v.phase
            == SourcePhase::Wipe && (e matches SourceEvent::Wiped(r) && r is Ok),
{
}

/// How far the work is from its end.
pub open spec fn distance_to_end(p: SourcePhase) -> nat {
    match p {
        SourcePhase::Stage => 6,
        SourcePhase::ConfirmWipe => 5,
        SourcePhase::Wipe => 4,
        SourcePhase::Distribute => 3,
        SourcePhase::AskUnknowns => 2,
        SourcePhase::Cleanup => 1,
        SourcePhase::Done => 0,
    }
}

/// The event belongs to the phase.
pub open spec fn answers(p: SourcePhase, e: SourceEvent) -> bool {
    match p {
        SourcePhase::Stage => e is Staged,
        SourcePhase::ConfirmWipe => e is WipeAnswer,
        SourcePhase::Wipe => e is Wiped,
        SourcePhase::Distribute => e is Distributed,
        SourcePhase::AskUnknowns => e is UnknownsHandled,
        SourcePhase::Cleanup => e is CleanedUp,
        SourcePhase::Done => false,
    }
}

/// Every event that belongs to the phase brings the work nearer to its end, and
/// a failed wipe does not keep the copies out of the library.
pub proof fn work_on_a_source_ends(v: RunView, e: SourceEvent, cancelled: bool)
    ensures
        answers(v.phase, e) ==> distance_to_end(after_event(v, e, cancelled).phase)
            < distance_to_end(v.phase),
        v.phase == SourcePhase::Wipe && (e matches SourceEvent::Wiped(r) && r is Err) && !cancelled
            ==> after_event(v, e, cancelled).phase == SourcePhase::Distribute,
{
}

} // verus!
