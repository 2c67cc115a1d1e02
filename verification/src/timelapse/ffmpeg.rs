//! Running the encoder: its arguments, the steps of an encode, and what it
//! says.

use crate::error::AppError;
use crate::paths::{from_archive_relative, parent_of};
use crate::text::{
    chars_of, concat2, contains, lines_of, owned, push_chars, push_decimal, starts_with,
    string_of, trimmed,
};
use crate::timelapse::speed_curve::{compose_window_filter, push_seconds, CurveSegment};
use crate::timelapse::types::{saturating_difference, FfmpegCapabilities};
use vstd::prelude::*;
use vstd::string::StringExecFns;

verus! {

// ------------------------------------------------------------------ probing

/// The first line of a text, trimmed; empty where there is none.
pub open spec fn first_line(text: Seq<char>) -> Seq<char> {
    let l = crate::text::lines(text);
    if l.len() == 0 {
        Seq::empty()
    } else {
        crate::text::trim(l[0])
    }
}

/// The first line of a text, trimmed.
pub fn first_line_of(text: &str) -> (r: String)
    ensures
        r@ == first_line(text@),
{
    let v = chars_of(text);
    let l = lines_of(v.as_slice());
    if l.len() == 0 {
        return String::new();
    }
    let ghost lv = crate::text::pieces(l@);
    proof {
        assert(lv[0] == l@[0]@);
    }
    string_of(trimmed(l[0].as_slice()))
}

/// The version that `ffmpeg -version` reports, given whether it succeeded, its
/// exit status in words, and what it printed.
pub fn read_version(success: bool, status: &str, stdout: &str) -> (r: Result<String, AppError>)
    ensures
        match r {
            Ok(v) => success && crate::text::has_prefix(first_line(stdout@), "ffmpeg"@) && v@
                == first_line(stdout@),
            Err(e) => if !success {
                crate::error::is_internal(e, "ffmpeg -version exited with status "@ + status@)
            } else {
                !crate::text::has_prefix(first_line(stdout@), "ffmpeg"@)
                    && crate::error::is_internal(
                    e,
                    "expected 'ffmpeg version ...' but got: "@ + first_line(stdout@),
                )
            },
        },
{
    if !success {
        return Err(AppError::Internal(concat2("ffmpeg -version exited with status ", status)));
    }
    let line = first_line_of(stdout);
    let v = chars_of(line.as_str());
    if !starts_with(v.as_slice(), "ffmpeg") {
        return Err(
            AppError::Internal(
                concat2("expected 'ffmpeg version ...' but got: ", line.as_str()),
            ),
        );
    }
    Ok(line)
}

/// What the encoder can do, given its version and its list of encoders.
pub fn probe_ffmpeg(version: String, encoders: &str) -> (r: FfmpegCapabilities)
    ensures
        r.version == version,
        r.nvenc_hevc == crate::text::has_substring(encoders@, "hevc_nvenc"@),
{
    FfmpegCapabilities { version, nvenc_hevc: contains(encoders, "hevc_nvenc") }
}

// ----------------------------------------------------------------- encoders

/// The encoders that timelapses are made with.
#[derive(Debug, Clone, Copy, PartialEq, Eq, Structural)]
pub enum Encoder {
    HevcNvenc,
    LibX265,
}

impl Encoder {
    /// The name of the encoder.
    pub open spec fn name(self) -> Seq<char> {
        match self {
            Encoder::HevcNvenc => "hevc_nvenc"@,
            Encoder::LibX265 => "libx265"@,
        }
    }

    /// The name of the encoder.
    pub fn as_str(self) -> (r: &'static str)
        ensures
            r@ == self.name(),
    {
        match self {
            Encoder::HevcNvenc => "hevc_nvenc",
            Encoder::LibX265 => "libx265",
        }
    }

    /// The filter that scales frames where the encoder wants them.
    pub open spec fn scaling(self) -> Seq<char> {
        match self {
            Encoder::HevcNvenc => "scale_cuda"@,
            Encoder::LibX265 => "scale"@,
        }
    }

    /// The filter that scales frames where the encoder wants them.
    pub fn scale_filter(self) -> (r: &'static str)
        ensures
            r@ == self.scaling(),
    {
        match self {
            Encoder::HevcNvenc => "scale_cuda",
            Encoder::LibX265 => "scale",
        }
    }

    /// Whether frames are decoded on the graphics card.
    pub fn needs_cuda_hwaccel(self) -> (r: bool)
        ensures
            r == (self == Encoder::HevcNvenc),
    {
        matches!(self, Encoder::HevcNvenc)
    }

    /// The encoder for an installation.
    pub fn pick(caps: &FfmpegCapabilities) -> (r: Encoder)
        ensures
            r == (if caps.nvenc_hevc {
                Encoder::HevcNvenc
            } else {
                Encoder::LibX265
            }),
    {
        if caps.nvenc_hevc {
            Encoder::HevcNvenc
        } else {
            Encoder::LibX265
        }
    }
}

// ---------------------------------------------------------------- arguments

fn arg(v: &mut Vec<String>, s: &str)
    ensures
        crate::text::views(final(v)@) == crate::text::views(old(v)@).push(s@),
{
    let ghost before = v@;
    v.push(owned(s));
    proof {
        assert(crate::text::views(v@) == crate::text::views(before).push(s@));
    }
}

/// Overwrite without asking, and say nothing but errors.
pub open spec fn quiet_flags() -> Seq<Seq<char>> {
    seq!["-y"@, "-hide_banner"@, "-nostats"@, "-loglevel"@, "error"@]
}

/// The flags of an encoder, with the number of threads that it may use.
pub open spec fn encoder_flags(encoder: Encoder, threads: Option<u64>) -> Seq<Seq<char>> {
    match encoder {
        Encoder::HevcNvenc => seq![
            "-c:v"@,
            "hevc_nvenc"@,
            "-preset"@,
            "p5"@,
            "-cq"@,
            "26"@,
            "-tag:v"@,
            "hvc1"@,
        ],
        Encoder::LibX265 => seq![
            "-c:v"@,
            "libx265"@,
            "-crf"@,
            "26"@,
            "-preset"@,
            "medium"@,
            "-x265-params"@,
            x265_params(threads),
            "-tag:v"@,
            "hvc1"@,
        ],
    }
}

/// The parameters of the software encoder.
pub open spec fn x265_params(threads: Option<u64>) -> Seq<char> {
    match threads {
        Some(n) if n >= 1 => "log-level=error"@ + ":pools="@ + crate::text::decimal(n as nat),
        _ => "log-level=error"@,
    }
}

/// Decoding on the graphics card, where the encoder wants it.
pub open spec fn decoding_flags(encoder: Encoder, software_input: bool) -> Seq<Seq<char>> {
    if encoder == Encoder::HevcNvenc && !software_input {
        seq!["-hwaccel"@, "cuda"@, "-hwaccel_output_format"@, "cuda"@]
    } else {
        Seq::empty()
    }
}

/// The filter that scales frames.
pub open spec fn scaling_for(encoder: Encoder, software_input: bool) -> Seq<char> {
    if software_input {
        "scale"@
    } else {
        encoder.scaling()
    }
}

/// The arguments that put files together without encoding them again.
pub open spec fn concat_args(list_path: Seq<char>, output: Seq<char>) -> Seq<Seq<char>> {
    quiet_flags() + seq![
        "-f"@,
        "concat"@,
        "-safe"@,
        "0"@,
        "-i"@,
        list_path,
        "-c"@,
        "copy"@,
        "-an"@,
        output,
    ]
}

/// The arguments that encode a whole input at one rate.
pub open spec fn whole_args(
    source: Seq<char>,
    rate: u32,
    encoder: Encoder,
    software_input: bool,
    threads: Option<u64>,
    output: Seq<char>,
) -> Seq<Seq<char>> {
    quiet_flags() + decoding_flags(encoder, software_input) + seq![
        "-i"@,
        source,
        "-filter_complex"@,
        crate::timelapse::speed_curve::window_filter(scaling_for(encoder, software_input), rate),
        "-map"@,
        "[out]"@,
        "-an"@,
    ] + encoder_flags(encoder, threads) + seq![output]
}

/// The arguments that encode one stretch of an input.
pub open spec fn stretch_args(
    source: Seq<char>,
    start_ms: i64,
    duration_ms: i64,
    rate: u32,
    encoder: Encoder,
    software_input: bool,
    threads: Option<u64>,
    output: Seq<char>,
) -> Seq<Seq<char>> {
    quiet_flags() + decoding_flags(encoder, software_input) + seq![
        "-ss"@,
        crate::timelapse::speed_curve::seconds_text(start_ms as int),
        "-t"@,
        crate::timelapse::speed_curve::seconds_text(duration_ms as int),
        "-i"@,
        source,
        "-filter_complex"@,
        crate::timelapse::speed_curve::window_filter(scaling_for(encoder, software_input), rate),
        "-map"@,
        "[out]"@,
        "-an"@,
    ] + encoder_flags(encoder, threads) + seq![output]
}

fn apply_loglevel_flags(v: &mut Vec<String>)
    ensures
        crate::text::views(final(v)@) == crate::text::views(old(v)@) + quiet_flags(),
{
    let ghost before = crate::text::views(v@);
    arg(v, "-y");
    arg(v, "-hide_banner");
    arg(v, "-nostats");
    arg(v, "-loglevel");
    arg(v, "error");
    proof {
        assert(crate::text::views(v@) == before + quiet_flags());
    }
}

fn apply_encoder_flags(v: &mut Vec<String>, encoder: Encoder, cpu_pool_threads: Option<u64>)
    ensures
        crate::text::views(final(v)@) == crate::text::views(old(v)@) + encoder_flags(
            encoder,
            cpu_pool_threads,
        ),
{
    let ghost before = crate::text::views(v@);
    match encoder {
        Encoder::HevcNvenc => {
            arg(v, "-c:v");
            arg(v, "hevc_nvenc");
            arg(v, "-preset");
            arg(v, "p5");
            arg(v, "-cq");
            arg(v, "26");
        },
        Encoder::LibX265 => {
            let mut params = owned("log-level=error");
            if let Some(threads) = cpu_pool_threads {
                if threads >= 1 {
                    params.append(":pools=");
                    push_decimal(&mut params, threads);
                }
            }
            arg(v, "-c:v");
            arg(v, "libx265");
            arg(v, "-crf");
            arg(v, "26");
            arg(v, "-preset");
            arg(v, "medium");
            arg(v, "-x265-params");
            arg(v, params.as_str());
        },
    }
    arg(v, "-tag:v");
    arg(v, "hvc1");
    proof {
        assert(crate::text::views(v@) == before + encoder_flags(encoder, cpu_pool_threads));
    }
}

fn apply_decoding_flags(v: &mut Vec<String>, encoder: Encoder, software_input: bool)
    ensures
        crate::text::views(final(v)@) == crate::text::views(old(v)@) + decoding_flags(
            encoder,
            software_input,
        ),
{
    let ghost before = crate::text::views(v@);
    if encoder.needs_cuda_hwaccel() && !software_input {
        arg(v, "-hwaccel");
        arg(v, "cuda");
        arg(v, "-hwaccel_output_format");
        arg(v, "cuda");
    }
    proof {
        assert(crate::text::views(v@) == before + decoding_flags(encoder, software_input));
    }
}

/// The arguments that put files together without encoding them again.
pub fn concat_arguments(list_path: &str, output: &str) -> (r: Vec<String>)
    ensures
        crate::text::views(r@) == concat_args(list_path@, output@),
{
    let mut v: Vec<String> = Vec::new();
    apply_loglevel_flags(&mut v);
    arg(&mut v, "-f");
    arg(&mut v, "concat");
    arg(&mut v, "-safe");
    arg(&mut v, "0");
    arg(&mut v, "-i");
    arg(&mut v, list_path);
    arg(&mut v, "-c");
    arg(&mut v, "copy");
    arg(&mut v, "-an");
    arg(&mut v, output);
    proof {
        assert(crate::text::views(v@) == concat_args(list_path@, output@));
    }
    v
}

/// The arguments that encode a whole input at one rate.
pub fn whole_arguments(
    source: &str,
    rate: u32,
    encoder: Encoder,
    software_input: bool,
    cpu_pool_threads: Option<u64>,
    output: &str,
) -> (r: Vec<String>)
    ensures
        crate::text::views(r@) == whole_args(
            source@,
            rate,
            encoder,
            software_input,
            cpu_pool_threads,
            output@,
        ),
{
    let scale_filter = if software_input {
        "scale"
    } else {
        encoder.scale_filter()
    };
    let filter = compose_window_filter(scale_filter, rate);
    let mut v: Vec<String> = Vec::new();
    apply_loglevel_flags(&mut v);
    apply_decoding_flags(&mut v, encoder, software_input);
    arg(&mut v, "-i");
    arg(&mut v, source);
    arg(&mut v, "-filter_complex");
    arg(&mut v, filter.as_str());
    arg(&mut v, "-map");
    arg(&mut v, "[out]");
    arg(&mut v, "-an");
    apply_encoder_flags(&mut v, encoder, cpu_pool_threads);
    arg(&mut v, output);
    proof {
        assert(crate::text::views(v@) == whole_args(
            source@,
            rate,
            encoder,
            software_input,
            cpu_pool_threads,
            output@,
        ));
    }
    v
}

/// The arguments that encode one stretch of an input.
pub fn encode_window(
    source: &str,
    start_ms: i64,
    duration_ms: i64,
    rate: u32,
    encoder: Encoder,
    software_input: bool,
    cpu_pool_threads: Option<u64>,
    output: &str,
) -> (r: Vec<String>)
    ensures
        crate::text::views(r@) == stretch_args(
            source@,
            start_ms,
            duration_ms,
            rate,
            encoder,
            software_input,
            cpu_pool_threads,
            output@,
        ),
{
    let scale_filter = if software_input {
        "scale"
    } else {
        encoder.scale_filter()
    };
    let filter = compose_window_filter(scale_filter, rate);
    let mut start = String::new();
    push_seconds(&mut start, start_ms);
    let mut duration = String::new();
    push_seconds(&mut duration, duration_ms);
    proof {
        assert(start@ == crate::timelapse::speed_curve::seconds_text(start_ms as int));
        assert(duration@ == crate::timelapse::speed_curve::seconds_text(duration_ms as int));
    }
    let mut v: Vec<String> = Vec::new();
    apply_loglevel_flags(&mut v);
    apply_decoding_flags(&mut v, encoder, software_input);
    arg(&mut v, "-ss");
    arg(&mut v, start.as_str());
    arg(&mut v, "-t");
    arg(&mut v, duration.as_str());
    arg(&mut v, "-i");
    arg(&mut v, source);
    arg(&mut v, "-filter_complex");
    arg(&mut v, filter.as_str());
    arg(&mut v, "-map");
    arg(&mut v, "[out]");
    arg(&mut v, "-an");
    apply_encoder_flags(&mut v, encoder, cpu_pool_threads);
    arg(&mut v, output);
    proof {
        assert(crate::text::views(v@) == stretch_args(
            source@,
            start_ms,
            duration_ms,
            rate,
            encoder,
            software_input,
            cpu_pool_threads,
            output@,
        ));
    }
    v
}

/// A path between single quotes: a quote in it ends the quoting, stands for
/// itself behind a backslash, and starts the quoting again.
pub open spec fn quoted(p: Seq<char>) -> Seq<char>
    decreases p.len(),
{
    if p.len() == 0 {
        Seq::empty()
    } else if p.last() == '\'' {
        quoted(p.drop_last()) + "'\\''"@
    } else {
        quoted(p.drop_last()).push(p.last())
    }
}

/// The list of files that the encoder puts together.
pub open spec fn concat_list(paths: Seq<Seq<char>>) -> Seq<char>
    decreases paths.len(),
{
    if paths.len() == 0 {
        Seq::empty()
    } else {
        concat_list(paths.drop_last()) + "file '"@ + quoted(paths.last()) + "'\n"@
    }
}

fn push_quoted(s: &mut String, p: &str)
    ensures
        final(s)@ == old(s)@ + quoted(p@),
{
    let v = chars_of(p);
    let ghost start = s@;
    let mut i: usize = 0;
    proof {
        assert(start + quoted(p@.take(0)) == start);
    }
    while i < v.len()
        invariant
            v@ == p@,
            i <= v.len(),
            s@ == start + quoted(p@.take(i as int)),
        decreases v.len() - i,
    {
        proof {
            assert(p@.take(i + 1).drop_last() == p@.take(i as int));
            assert(p@.take(i + 1).last() == v@[i as int]);
        }
        if v[i] == '\'' {
            s.append("'\\''");
        } else {
            s.push(v[i]);
        }
        proof {
            assert(s@ == start + quoted(p@.take(i + 1)));
        }
        i += 1;
    }
    proof {
        assert(p@.take(p@.len() as int) == p@);
    }
}

/// The list of files that the encoder puts together.
pub fn write_concat_list(paths: &Vec<String>) -> (r: String)
    ensures
        r@ == concat_list(crate::text::views(paths@)),
{
    let ghost all = crate::text::views(paths@);
    let mut s = String::new();
    let mut i: usize = 0;
    while i < paths.len()
        invariant
            all == crate::text::views(paths@),
            i <= paths.len(),
            s@ == concat_list(all.take(i as int)),
        decreases paths.len() - i,
    {
        proof {
            assert(all.take(i + 1).drop_last() == all.take(i as int));
            assert(all.take(i + 1).last() == paths@[i as int]@);
        }
        s.append("file '");
        push_quoted(&mut s, paths[i].as_str());
        s.append("'\n");
        i += 1;
    }
    proof {
        assert(all.take(all.len() as int) == all);
    }
    s
}

// ------------------------------------------------------- steps of an encode

/// What is to be encoded, and how.
#[derive(Debug)]
pub struct EncodeArgs {
    pub source_paths: Vec<String>,
    pub output_path: String,
    pub encoder: Encoder,
    pub curve: Vec<CurveSegment>,
    pub scratch_dir: String,
    pub cpu_pool_threads: Option<u64>,
    pub software_input: bool,
}

/// What is to be encoded, with texts as sequences of characters.
#[verifier::ext_equal]
pub struct EncodeView {
    pub source_paths: Seq<Seq<char>>,
    pub output_path: Seq<char>,
    pub encoder: Encoder,
    pub curve: Seq<CurveSegment>,
    pub scratch_dir: Seq<char>,
    pub cpu_pool_threads: Option<u64>,
    pub software_input: bool,
}

impl View for EncodeArgs {
    type V = EncodeView;

    open spec fn view(&self) -> EncodeView {
        EncodeView {
            source_paths: crate::text::views(self.source_paths@),
            output_path: self.output_path@,
            encoder: self.encoder,
            curve: self.curve@,
            scratch_dir: self.scratch_dir@,
            cpu_pool_threads: self.cpu_pool_threads,
            software_input: self.software_input,
        }
    }
}

/// Something that a step does.
#[derive(Debug)]
pub enum Action {
    /// Make the directory of the output.
    MakeOutputDir(String),
    /// Make the scratch directory.
    MakeScratchDir(String),
    /// Write a list of files.
    WriteList { path: String, content: String },
    /// Run the encoder with these arguments; it writes the file `output`.
    Run { args: Vec<String>, output: String },
    /// Move the finished file to its place.
    Place { from: String, to: String },
    /// Give up.
    GiveUp(String),
}

/// Something that a step does, with texts as sequences of characters.
#[verifier::ext_equal]
pub enum ActionView {
    MakeOutputDir(Seq<char>),
    MakeScratchDir(Seq<char>),
    WriteList { path: Seq<char>, content: Seq<char> },
    Run { args: Seq<Seq<char>>, output: Seq<char> },
    Place { from: Seq<char>, to: Seq<char> },
    GiveUp(Seq<char>),
}

impl View for Action {
    type V = ActionView;

    open spec fn view(&self) -> ActionView {
        match self {
            Action::MakeOutputDir(p) => ActionView::MakeOutputDir(p@),
            Action::MakeScratchDir(p) => ActionView::MakeScratchDir(p@),
            Action::WriteList { path, content } => ActionView::WriteList {
                path: path@,
                content: content@,
            },
            Action::Run { args, output } => ActionView::Run {
                args: crate::text::views(args@),
                output: output@,
            },
            Action::Place { from, to } => ActionView::Place { from: from@, to: to@ },
            Action::GiveUp(m) => ActionView::GiveUp(m@),
        }
    }
}

/// A step of an encode: files to remove beforehand, what is done, files to
/// remove afterwards in any case, and files to remove where it fails.
#[derive(Debug)]
pub struct Step {
    pub before: Vec<String>,
    pub action: Action,
    pub after: Vec<String>,
    pub on_failure: Vec<String>,
}

/// A step, with texts as sequences of characters.
#[verifier::ext_equal]
pub struct StepView {
    pub before: Seq<Seq<char>>,
    pub action: ActionView,
    pub after: Seq<Seq<char>>,
    pub on_failure: Seq<Seq<char>>,
}

impl View for Step {
    type V = StepView;

    open spec fn view(&self) -> StepView {
        StepView {
            before: crate::text::views(self.before@),
            action: self.action@,
            after: crate::text::views(self.after@),
            on_failure: crate::text::views(self.on_failure@),
        }
    }
}

/// The views of steps.
pub open spec fn step_views(v: Seq<Step>) -> Seq<StepView> {
    v.map_values(|s: Step| s@)
}

/// A file in the scratch directory.
pub open spec fn scratch(dir: Seq<char>, name: Seq<char>) -> Seq<char> {
    crate::paths::path_join(dir, name)
}

/// The file of a stretch in the scratch directory.
pub open spec fn stretch_file(dir: Seq<char>, i: nat) -> Seq<char> {
    crate::paths::path_join(dir, "__multi_window_"@ + crate::text::decimal(i) + ".mp4"@)
}

/// The stretch has footage.
pub open spec fn has_length(s: CurveSegment) -> bool {
    s.concat_end > s.concat_start
}

/// The files of the stretches with footage among the first `n`.
pub open spec fn stretch_files(dir: Seq<char>, curve: Seq<CurveSegment>, n: int) -> Seq<Seq<char>>
    decreases n,
{
    if n <= 0 {
        Seq::empty()
    } else if has_length(curve[n - 1]) {
        stretch_files(dir, curve, n - 1).push(stretch_file(dir, (n - 1) as nat))
    } else {
        stretch_files(dir, curve, n - 1)
    }
}

/// The name of the file that all sources are put together in.
pub open spec fn source_name(curve: Seq<CurveSegment>) -> Seq<char> {
    if curve.len() <= 1 {
        "__single_source.mp4"@
    } else {
        "__multi_source.mp4"@
    }
}

/// The file that all sources are put together in.
pub open spec fn source_file(a: EncodeView) -> Seq<char> {
    scratch(a.scratch_dir, source_name(a.curve))
}

/// The list of the sources.
pub open spec fn source_list(a: EncodeView) -> Seq<char> {
    scratch(a.scratch_dir, "__multi_source_list.txt"@)
}

/// The list of the stretches.
pub open spec fn stretch_list(a: EncodeView) -> Seq<char> {
    scratch(a.scratch_dir, "__multi_windows_list.txt"@)
}

/// The file that the encode writes before it is moved to its place.
pub open spec fn unplaced(a: EncodeView) -> Seq<char> {
    scratch(a.scratch_dir, "__output.mp4"@)
}

/// The steps that make the directories.
pub open spec fn opening_steps(a: EncodeView) -> Seq<StepView> {
    let none = Seq::<Seq<char>>::empty();
    let dirs = match crate::paths::parent(a.output_path) {
        Some(p) => seq![
            StepView {
                before: none,
                action: ActionView::MakeOutputDir(p),
                after: none,
                on_failure: none,
            },
        ],
        None => Seq::empty(),
    };
    dirs.push(
        StepView {
            before: none,
            action: ActionView::MakeScratchDir(a.scratch_dir),
            after: none,
            on_failure: none,
        },
    )
}

/// The steps that put the sources together.
pub open spec fn source_steps(a: EncodeView) -> Seq<StepView> {
    seq![
        StepView {
            before: seq![unplaced(a)],
            action: ActionView::WriteList {
                path: source_list(a),
                content: concat_list(a.source_paths),
            },
            after: Seq::empty(),
            on_failure: seq![source_file(a), unplaced(a)],
        },
        StepView {
            before: Seq::empty(),
            action: ActionView::Run {
                args: concat_args(source_list(a), source_file(a)),
                output: source_file(a),
            },
            after: seq![source_list(a)],
            on_failure: seq![source_file(a), unplaced(a)],
        },
    ]
}

/// The step that encodes everything at one rate.
pub open spec fn whole_step(a: EncodeView) -> StepView {
    let rate = if a.curve.len() == 1 {
        a.curve[0].rate
    } else {
        1
    };
    StepView {
        before: Seq::empty(),
        action: ActionView::Run {
            args: whole_args(
                source_file(a),
                rate,
                a.encoder,
                a.software_input,
                a.cpu_pool_threads,
                unplaced(a),
            ),
            output: unplaced(a),
        },
        after: seq![source_file(a)],
        on_failure: seq![unplaced(a)],
    }
}

/// The step that encodes the stretch `i`. Where it fails, nothing is kept of
/// the stretches so far.
pub open spec fn stretch_step(a: EncodeView, i: int) -> StepView {
    let s = a.curve[i];
    let file = stretch_file(a.scratch_dir, i as nat);
    StepView {
        before: seq![file],
        action: ActionView::Run {
            args: stretch_args(
                source_file(a),
                s.concat_start,
                crate::timelapse::types::saturated(s.span()) as i64,
                s.rate,
                a.encoder,
                a.software_input,
                a.cpu_pool_threads,
                file,
            ),
            output: file,
        },
        after: Seq::empty(),
        on_failure: seq![file, source_file(a)] + stretch_files(a.scratch_dir, a.curve, i)
            + seq![unplaced(a)],
    }
}

/// The steps that encode the stretches with footage among the first `n`.
pub open spec fn stretch_steps(a: EncodeView, n: int) -> Seq<StepView>
    decreases n,
{
    if n <= 0 {
        Seq::empty()
    } else if has_length(a.curve[n - 1]) {
        stretch_steps(a, n - 1).push(stretch_step(a, n - 1))
    } else {
        stretch_steps(a, n - 1)
    }
}

/// The steps that put the stretches together.
pub open spec fn joining_steps(a: EncodeView) -> Seq<StepView> {
    let files = stretch_files(a.scratch_dir, a.curve, a.curve.len() as int);
    if files.len() == 0 {
        seq![
            StepView {
                before: seq![source_file(a)],
                action: ActionView::GiveUp(
                    "multi-window encode produced no segments \u{2014} curve had no usable spans"@,
                ),
                after: Seq::empty(),
                on_failure: seq![unplaced(a)],
            },
        ]
    } else {
        seq![
            StepView {
                before: seq![source_file(a)],
                action: ActionView::WriteList {
                    path: stretch_list(a),
                    content: concat_list(files),
                },
                after: Seq::empty(),
                on_failure: files.push(unplaced(a)),
            },
            StepView {
                before: Seq::empty(),
                action: ActionView::Run {
                    args: concat_args(stretch_list(a), unplaced(a)),
                    output: unplaced(a),
                },
                after: seq![stretch_list(a)] + files,
                on_failure: seq![unplaced(a)],
            },
        ]
    }
}

/// The step that moves the finished file to its place.
pub open spec fn placing_step(a: EncodeView) -> StepView {
    StepView {
        before: Seq::empty(),
        action: ActionView::Place { from: unplaced(a), to: a.output_path },
        after: Seq::empty(),
        on_failure: seq![unplaced(a)],
    }
}

/// The steps of an encode. A curve of one segment is encoded in one go, any
/// other stretch by stretch.
pub open spec fn encode_steps(a: EncodeView) -> Seq<StepView> {
    let body = if a.curve.len() <= 1 {
        seq![whole_step(a)]
    } else {
        stretch_steps(a, a.curve.len() as int) + joining_steps(a)
    };
    (opening_steps(a) + source_steps(a) + body).push(placing_step(a))
}

fn one(s: &str) -> (r: Vec<String>)
    ensures
        crate::text::views(r@) == seq![s@],
{
    let mut v: Vec<String> = Vec::new();
    arg(&mut v, s);
    proof {
        assert(crate::text::views(v@) == seq![s@]);
    }
    v
}

fn two(a: &str, b: &str) -> (r: Vec<String>)
    ensures
        crate::text::views(r@) == seq![a@, b@],
{
    let mut v = one(a);
    arg(&mut v, b);
    proof {
        assert(crate::text::views(v@) == seq![a@, b@]);
    }
    v
}

fn none() -> (r: Vec<String>)
    ensures
        crate::text::views(r@) == Seq::<Seq<char>>::empty(),
{
    let r: Vec<String> = Vec::new();
    proof {
        assert(crate::text::views(r@) == Seq::<Seq<char>>::empty());
    }
    r
}

fn append_strings(v: &mut Vec<String>, more: &Vec<String>)
    ensures
        crate::text::views(final(v)@) == crate::text::views(old(v)@) + crate::text::views(more@),
{
    let ghost start = crate::text::views(v@);
    let ghost m = crate::text::views(more@);
    let mut i: usize = 0;
    proof {
        assert(start + m.take(0) == start);
    }
    while i < more.len()
        invariant
            i <= more.len(),
            m == crate::text::views(more@),
            crate::text::views(v@) == start + m.take(i as int),
        decreases more.len() - i,
    {
        arg(v, more[i].as_str());
        proof {
            assert(m.take(i + 1) == m.take(i as int).push(more@[i as int]@));
            assert(crate::text::views(v@) == start + m.take(i + 1));
        }
        i += 1;
    }
    proof {
        assert(m.take(m.len() as int) == m);
    }
}

fn push_step(v: &mut Vec<Step>, s: Step)
    ensures
        step_views(final(v)@) == step_views(old(v)@).push(s@),
{
    let ghost before = v@;
    let ghost sv = s@;
    v.push(s);
    proof {
        assert(step_views(v@) == step_views(before).push(sv));
    }
}

fn stretch_path(dir: &str, i: usize) -> (r: String)
    ensures
        r@ == stretch_file(dir@, i as nat),
{
    let mut name = owned("__multi_window_");
    push_decimal(&mut name, i as u64);
    name.append(".mp4");
    from_archive_relative(name.as_str(), dir)
}

fn push_opening(v: &mut Vec<Step>, a: &EncodeArgs)
    ensures
        step_views(final(v)@) == step_views(old(v)@) + opening_steps(a@),
{
    let ghost start = step_views(v@);
    if let Some(p) = parent_of(a.output_path.as_str()) {
        push_step(
            v,
            Step {
                before: none(),
                action: Action::MakeOutputDir(p),
                after: none(),
                on_failure: none(),
            },
        );
    }
    push_step(
        v,
        Step {
            before: none(),
            action: Action::MakeScratchDir(owned(a.scratch_dir.as_str())),
            after: none(),
            on_failure: none(),
        },
    );
    proof {
        assert(step_views(v@) == start + opening_steps(a@));
    }
}

fn prepare_concat_source(v: &mut Vec<Step>, a: &EncodeArgs, source: &str, tmp: &str)
    requires
        source@ == source_file(a@),
        tmp@ == unplaced(a@),
    ensures
        step_views(final(v)@) == step_views(old(v)@) + source_steps(a@),
{
    let ghost start = step_views(v@);
    let list = from_archive_relative("__multi_source_list.txt", a.scratch_dir.as_str());
    push_step(
        v,
        Step {
            before: one(tmp),
            action: Action::WriteList {
                path: owned(list.as_str()),
                content: write_concat_list(&a.source_paths),
            },
            after: none(),
            on_failure: two(source, tmp),
        },
    );
    push_step(
        v,
        Step {
            before: none(),
            action: Action::Run {
                args: concat_arguments(list.as_str(), source),
                output: owned(source),
            },
            after: one(list.as_str()),
            on_failure: two(source, tmp),
        },
    );
    proof {
        assert(step_views(v@) == start + source_steps(a@));
    }
}

fn encode_single_shot(v: &mut Vec<Step>, a: &EncodeArgs, source: &str, tmp: &str)
    requires
        a.curve.len() <= 1,
        source@ == source_file(a@),
        tmp@ == unplaced(a@),
    ensures
        step_views(final(v)@) == step_views(old(v)@).push(whole_step(a@)),
{
    let rate: u32 = if a.curve.len() == 1 {
        a.curve[0].rate
    } else {
        1
    };
    push_step(
        v,
        Step {
            before: none(),
            action: Action::Run {
                args: whole_arguments(
                    source,
                    rate,
                    a.encoder,
                    a.software_input,
                    a.cpu_pool_threads,
                    tmp,
                ),
                output: owned(tmp),
            },
            after: one(source),
            on_failure: one(tmp),
        },
    );
}

fn encode_multi_window(v: &mut Vec<Step>, a: &EncodeArgs, source: &str, tmp: &str) -> (files: Vec<
    String,
>)
    requires
        source@ == source_file(a@),
        tmp@ == unplaced(a@),
    ensures
        step_views(final(v)@) == step_views(old(v)@) + stretch_steps(a@, a.curve.len() as int),
        crate::text::views(files@) == stretch_files(
            a.scratch_dir@,
            a.curve@,
            a.curve.len() as int,
        ),
{
    let ghost start = step_views(v@);
    let mut files: Vec<String> = Vec::new();
    let mut i: usize = 0;
    proof {
        assert(start + stretch_steps(a@, 0) == start);
        assert(crate::text::views(files@) == stretch_files(a.scratch_dir@, a.curve@, 0));
    }
    while i < a.curve.len()
        invariant
            i <= a.curve.len(),
            source@ == source_file(a@),
            tmp@ == unplaced(a@),
            step_views(v@) == start + stretch_steps(a@, i as int),
            crate::text::views(files@) == stretch_files(a.scratch_dir@, a.curve@, i as int),
        decreases a.curve.len() - i,
    {
        let s = a.curve[i];
        if s.concat_end > s.concat_start {
            let duration: i64 = saturating_difference(s.concat_end, s.concat_start);
            let file = stretch_path(a.scratch_dir.as_str(), i);
            let mut on_failure = two(file.as_str(), source);
            append_strings(&mut on_failure, &files);
            arg(&mut on_failure, tmp);
            let step = Step {
                before: one(file.as_str()),
                action: Action::Run {
                    args: encode_window(
                        source,
                        s.concat_start,
                        duration,
                        s.rate,
                        a.encoder,
                        a.software_input,
                        a.cpu_pool_threads,
                        file.as_str(),
                    ),
                    output: owned(file.as_str()),
                },
                after: none(),
                on_failure,
            };
            proof {
                let w = stretch_step(a@, i as int);
                assert(step@.on_failure == w.on_failure);
                assert(step@.before == w.before);
                assert(step@.after == w.after);
                assert(step@.action == w.action);
                assert(step@ == w);
            }
            push_step(v, step);
            arg(&mut files, file.as_str());
        }
        i += 1;
        proof {
            assert(step_views(v@) == start + stretch_steps(a@, i as int));
        }
    }
    files
}

fn concat_window_outputs(v: &mut Vec<Step>, a: &EncodeArgs, source: &str, tmp: &str, files: &Vec<String>)
    requires
        source@ == source_file(a@),
        tmp@ == unplaced(a@),
        crate::text::views(files@) == stretch_files(
            a.scratch_dir@,
            a.curve@,
            a.curve.len() as int,
        ),
    ensures
        step_views(final(v)@) == step_views(old(v)@) + joining_steps(a@),
{
    let ghost start = step_views(v@);
    let ghost fv = crate::text::views(files@);
    if files.len() == 0 {
        push_step(
            v,
            Step {
                before: one(source),
                action: Action::GiveUp(
                    owned(
                        "multi-window encode produced no segments \u{2014} curve had no usable spans",
                    ),
                ),
                after: none(),
                on_failure: one(tmp),
            },
        );
    } else {
        let list = from_archive_relative("__multi_windows_list.txt", a.scratch_dir.as_str());
        let mut on_failure = none();
        append_strings(&mut on_failure, files);
        arg(&mut on_failure, tmp);
        let mut after = one(list.as_str());
        append_strings(&mut after, files);
        proof {
            assert(crate::text::views(on_failure@) == fv.push(tmp@));
        }
        push_step(
            v,
            Step {
                before: one(source),
                action: Action::WriteList {
                    path: owned(list.as_str()),
                    content: write_concat_list(files),
                },
                after: none(),
                on_failure,
            },
        );
        push_step(
            v,
            Step {
                before: none(),
                action: Action::Run {
                    args: concat_arguments(list.as_str(), tmp),
                    output: owned(tmp),
                },
                after,
                on_failure: one(tmp),
            },
        );
    }
    proof {
        assert(step_views(v@) == start + joining_steps(a@));
    }
}

/// The steps of an encode. There must be something to encode.
pub fn encode_trip_channel(a: &EncodeArgs) -> (r: Result<Vec<Step>, AppError>)
    ensures
        match r {
            Ok(steps) => a.source_paths.len() > 0 && step_views(steps@) == encode_steps(a@),
            Err(e) => a.source_paths.len() == 0 && crate::error::is_internal(
                e,
                "no source segments for trip"@,
            ),
        },
{
    if a.source_paths.len() == 0 {
        return Err(AppError::Internal(owned("no source segments for trip")));
    }
    let tmp = from_archive_relative("__output.mp4", a.scratch_dir.as_str());
    let source = if a.curve.len() <= 1 {
        from_archive_relative("__single_source.mp4", a.scratch_dir.as_str())
    } else {
        from_archive_relative("__multi_source.mp4", a.scratch_dir.as_str())
    };
    let mut v: Vec<Step> = Vec::new();
    push_opening(&mut v, a);
    prepare_concat_source(&mut v, a, source.as_str(), tmp.as_str());
    if a.curve.len() <= 1 {
        encode_single_shot(&mut v, a, source.as_str(), tmp.as_str());
    } else {
        let files = encode_multi_window(&mut v, a, source.as_str(), tmp.as_str());
        concat_window_outputs(&mut v, a, source.as_str(), tmp.as_str(), &files);
    }
    push_step(
        &mut v,
        Step {
            before: none(),
            action: Action::Place {
                from: owned(tmp.as_str()),
                to: owned(a.output_path.as_str()),
            },
            after: none(),
            on_failure: one(tmp.as_str()),
        },
    );
    proof {
        assert(step_views(v@) == encode_steps(a@));
    }
    Ok(v)
}

/// The error of a step that failed, given the reason.
pub open spec fn failure_text(action: ActionView, reason: Seq<char>) -> Seq<char> {
    match action {
        ActionView::MakeOutputDir(_) => reason,
        ActionView::MakeScratchDir(_) => "scratch dir create failed: "@ + reason,
        ActionView::WriteList { path, content } => "failed to write concat list: "@ + reason,
        ActionView::Run { args, output } => reason,
        ActionView::Place { from, to } => "could not move encoded output into place: "@ + reason,
        ActionView::GiveUp(m) => m,
    }
}

/// The error of a step that failed, given the reason.
pub fn step_failure(action: &Action, reason: &str) -> (e: AppError)
    ensures
        match action@ {
            ActionView::MakeOutputDir(_) => e matches AppError::Io(m) && m@ == reason@,
            _ => crate::error::is_internal(e, failure_text(action@, reason@)),
        },
{
    match action {
        Action::MakeOutputDir(_) => AppError::Io(owned(reason)),
        Action::MakeScratchDir(_) => AppError::Internal(
            concat2("scratch dir create failed: ", reason),
        ),
        Action::WriteList { .. } => AppError::Internal(
            concat2("failed to write concat list: ", reason),
        ),
        Action::Run { .. } => AppError::Internal(owned(reason)),
        Action::Place { .. } => AppError::Internal(
            concat2("could not move encoded output into place: ", reason),
        ),
        Action::GiveUp(m) => AppError::Internal(owned(m.as_str())),
    }
}

// ------------------------------------------------- what an encode leaves behind

/// The file that an action writes.
pub open spec fn written_by(action: ActionView) -> Set<Seq<char>> {
    match action {
        ActionView::WriteList { path, content } => set![path],
        ActionView::Run { args, output } => set![output],
        _ => Set::empty(),
    }
}

/// The file that an action moves away.
pub open spec fn moved_by(action: ActionView) -> Set<Seq<char>> {
    match action {
        ActionView::Place { from, to } => set![from],
        _ => Set::empty(),
    }
}

/// The scratch files that are left when a step has succeeded.
pub open spec fn left_by(files: Set<Seq<char>>, s: StepView) -> Set<Seq<char>> {
    files.difference(s.before.to_set()).union(written_by(s.action)).difference(
        moved_by(s.action),
    ).difference(s.after.to_set())
}

/// The scratch files that are left when all steps have succeeded.
pub open spec fn left_by_all(files: Set<Seq<char>>, steps: Seq<StepView>) -> Set<Seq<char>>
    decreases steps.len(),
{
    if steps.len() == 0 {
        files
    } else {
        left_by(left_by_all(files, steps.drop_last()), steps.last())
    }
}

/// The scratch files that a step leaves where it fails. A list that could not
/// be written is taken not to be there.
pub open spec fn left_by_failure(files: Set<Seq<char>>, s: StepView) -> Set<Seq<char>> {
    let there = files.difference(s.before.to_set()).union(
        if s.action is Run {
            written_by(s.action)
        } else {
            Set::empty()
        },
    );
    there.difference(s.after.to_set()).difference(s.on_failure.to_set())
}

/// Whichever step fails, no scratch file is left.
pub open spec fn cleans_up(files: Set<Seq<char>>, steps: Seq<StepView>) -> bool
    decreases steps.len(),
{
    steps.len() > 0 ==> cleans_up(files, steps.drop_last()) && left_by_failure(
        left_by_all(files, steps.drop_last()),
        steps.last(),
    ) == Set::<Seq<char>>::empty()
}

proof fn lemma_steps_concat(files: Set<Seq<char>>, a: Seq<StepView>, b: Seq<StepView>)
    ensures
        left_by_all(files, a + b) == left_by_all(left_by_all(files, a), b),
        cleans_up(files, a + b) <==> cleans_up(files, a) && cleans_up(left_by_all(files, a), b),
    decreases b.len(),
{
    if b.len() == 0 {
        assert(a + b == a);
    } else {
        lemma_steps_concat(files, a, b.drop_last());
        assert((a + b).drop_last() == a + b.drop_last());
        assert((a + b).last() == b.last());
    }
}

proof fn lemma_left_monotone(f: Set<Seq<char>>, g: Set<Seq<char>>, s: StepView)
    requires
        f.subset_of(g),
    ensures
        left_by(f, s).subset_of(left_by(g, s)),
        left_by_failure(f, s).subset_of(left_by_failure(g, s)),
{
}

proof fn lemma_steps_monotone(f: Set<Seq<char>>, g: Set<Seq<char>>, steps: Seq<StepView>)
    requires
        f.subset_of(g),
    ensures
        left_by_all(f, steps).subset_of(left_by_all(g, steps)),
        cleans_up(g, steps) ==> cleans_up(f, steps),
    decreases steps.len(),
{
    if steps.len() > 0 {
        let u = steps.drop_last();
        lemma_steps_monotone(f, g, u);
        lemma_left_monotone(left_by_all(f, u), left_by_all(g, u), steps.last());
        if cleans_up(g, steps) {
            assert(left_by_failure(left_by_all(f, u), steps.last()) == Set::<Seq<char>>::empty());
        }
    }
}

proof fn lemma_two_steps(files: Set<Seq<char>>, s: StepView, t: StepView)
    ensures
        left_by_all(files, seq![s, t]) == left_by(left_by(files, s), t),
        cleans_up(files, seq![s, t]) <==> left_by_failure(files, s) == Set::<Seq<char>>::empty()
            && left_by_failure(left_by(files, s), t) == Set::<Seq<char>>::empty(),
        left_by_all(files, seq![s]) == left_by(files, s),
        cleans_up(files, seq![s]) <==> left_by_failure(files, s) == Set::<Seq<char>>::empty(),
{
    reveal_with_fuel(left_by_all, 3);
    reveal_with_fuel(cleans_up, 3);
    assert(seq![s, t].drop_last() == seq![s]);
    assert(seq![s].drop_last() == Seq::<StepView>::empty());
}

proof fn lemma_contains_pushed(s: Seq<Seq<char>>, x: Seq<char>)
    ensures
        s.push(x).to_set() == s.to_set().insert(x),
{
    let a = s.push(x).to_set();
    let b = s.to_set().insert(x);
    assert forall|y: Seq<char>| a.contains(y) <==> #[trigger] b.contains(y) by {
        if s.contains(y) {
            let k = choose|k: int| 0 <= k < s.len() && s[k] == y;
            assert(s.push(x)[k] == y);
        }
        if y == x {
            assert(s.push(x)[s.len() as int] == x);
        }
        if s.push(x).contains(y) && y != x {
            let k = choose|k: int| 0 <= k < s.push(x).len() && s.push(x)[k] == y;
            assert(s[k] == y);
        }
    }
    assert(a == b);
}

proof fn lemma_contains_concat(s: Seq<Seq<char>>, t: Seq<Seq<char>>)
    ensures
        (s + t).to_set() == s.to_set().union(t.to_set()),
{
    let a = (s + t).to_set();
    let b = s.to_set().union(t.to_set());
    assert forall|y: Seq<char>| a.contains(y) <==> #[trigger] b.contains(y) by {
        if s.contains(y) {
            let k = choose|k: int| 0 <= k < s.len() && s[k] == y;
            assert((s + t)[k] == y);
        }
        if t.contains(y) {
            let k = choose|k: int| 0 <= k < t.len() && t[k] == y;
            assert((s + t)[s.len() + k] == y);
        }
        if (s + t).contains(y) {
            let k = choose|k: int| 0 <= k < (s + t).len() && (s + t)[k] == y;
            if k < s.len() {
                assert(s[k] == y);
            } else {
                assert(t[k - s.len()] == y);
            }
        }
    }
    assert(a == b);
}

proof fn lemma_one_set(x: Seq<char>)
    ensures
        seq![x].to_set() == set![x],
        Seq::<Seq<char>>::empty().to_set() == Set::<Seq<char>>::empty(),
{
    let a = seq![x].to_set();
    assert(seq![x][0] == x);
    assert forall|y: Seq<char>| a.contains(y) <==> #[trigger] set![x].contains(y) by {}
    assert(a == set![x]);
    assert(Seq::<Seq<char>>::empty().to_set() == Set::<Seq<char>>::empty());
}

proof fn lemma_two_set(x: Seq<char>, y: Seq<char>)
    ensures
        seq![x, y].to_set() == set![x, y],
{
    lemma_one_set(x);
    lemma_contains_pushed(seq![x], y);
    assert(seq![x].push(y) == seq![x, y]);
    assert(seq![x, y].to_set() == set![x, y]);
}

proof fn lemma_stretches_clean(a: EncodeView, n: int)
    requires
        0 <= n <= a.curve.len(),
    ensures
        cleans_up(set![source_file(a)], stretch_steps(a, n)),
        left_by_all(set![source_file(a)], stretch_steps(a, n)).subset_of(
            stretch_files(a.scratch_dir, a.curve, n).to_set().insert(source_file(a)),
        ),
    decreases n,
{
    let start = set![source_file(a)];
    if n > 0 {
        lemma_stretches_clean(a, n - 1);
        if has_length(a.curve[n - 1]) {
            let u = stretch_steps(a, n - 1);
            let t = stretch_step(a, n - 1);
            let file = stretch_file(a.scratch_dir, (n - 1) as nat);
            let files = stretch_files(a.scratch_dir, a.curve, n - 1);
            assert(u.push(t).drop_last() == u);
            lemma_contains_pushed(files, file);
            lemma_one_set(file);
            lemma_two_set(file, source_file(a));
            lemma_contains_concat(seq![file, source_file(a)], files);
            lemma_contains_concat(
                seq![file, source_file(a)] + files,
                seq![unplaced(a)],
            );
            let here = left_by_all(start, u);
            assert(left_by_failure(here, t) == Set::<Seq<char>>::empty());
            assert(left_by(here, t).subset_of(files.push(file).to_set().insert(source_file(a))));
        }
    } else {
        assert(stretch_files(a.scratch_dir, a.curve, 0).to_set() == Set::<Seq<char>>::empty()) by {
            lemma_one_set(source_file(a));
        }
    }
}

/// An encode leaves no scratch file behind, whichever of its steps fails, and
/// none when it succeeds: the finished file has been moved to its place.
pub proof fn encodes_leave_no_scratch_files(a: EncodeView)
    ensures
        cleans_up(Set::empty(), encode_steps(a)),
        left_by_all(Set::empty(), encode_steps(a)) == Set::<Seq<char>>::empty(),
{
    let none = Set::<Seq<char>>::empty();
    let opening = opening_steps(a);
    let sources = source_steps(a);
    let body = if a.curve.len() <= 1 {
        seq![whole_step(a)]
    } else {
        stretch_steps(a, a.curve.len() as int) + joining_steps(a)
    };
    let src = source_file(a);
    let tmp = unplaced(a);
    let list = source_list(a);
    lemma_one_set(src);
    lemma_one_set(tmp);
    lemma_one_set(list);
    lemma_two_set(src, tmp);
    assert(left_by_all(none, opening) == none && cleans_up(none, opening)) by {
        match crate::paths::parent(a.output_path) {
            Some(p) => {
                lemma_two_steps(none, opening[0], opening[1]);
                assert(opening == seq![opening[0], opening[1]]);
                assert(left_by(none, opening[0]) == none);
                assert(left_by(none, opening[1]) == none);
                assert(left_by_failure(none, opening[0]) == none);
                assert(left_by_failure(none, opening[1]) == none);
            },
            None => {
                lemma_two_steps(none, opening[0], opening[0]);
                assert(opening == seq![opening[0]]);
                assert(left_by(none, opening[0]) == none);
                assert(left_by_failure(none, opening[0]) == none);
            },
        }
    }
    lemma_two_steps(none, sources[0], sources[1]);
    assert(sources == seq![sources[0], sources[1]]);
    assert(left_by_failure(none, sources[0]) == none);
    assert(left_by(none, sources[0]).subset_of(set![list]));
    assert(left_by_failure(left_by(none, sources[0]), sources[1]) == none);
    assert(left_by_all(none, sources).subset_of(set![src]));
    let after_sources = left_by_all(none, sources);
    assert(cleans_up(after_sources, body) && left_by_all(after_sources, body).subset_of(
        set![tmp],
    )) by {
        lemma_steps_monotone(after_sources, set![src], body);
        if a.curve.len() <= 1 {
            let w = whole_step(a);
            lemma_two_steps(set![src], w, w);
            assert(left_by_failure(set![src], w) == none);
            assert(left_by(set![src], w).subset_of(set![tmp]));
        } else {
            lemma_body_cleans(a);
        }
    }
    let place = placing_step(a);
    lemma_two_steps(left_by_all(after_sources, body), place, place);
    let before_place = left_by_all(after_sources, body);
    assert(left_by_failure(before_place, place) == none);
    assert(left_by(before_place, place) == none);
    lemma_steps_concat(none, opening, sources);
    lemma_steps_concat(none, opening + sources, body);
    lemma_steps_concat(none, opening + sources + body, seq![place]);
    assert((opening + sources + body).push(place) == opening + sources + body + seq![place]);
}

proof fn lemma_body_cleans(a: EncodeView)
    ensures
        cleans_up(
            set![source_file(a)],
            stretch_steps(a, a.curve.len() as int) + joining_steps(a),
        ),
        left_by_all(
            set![source_file(a)],
            stretch_steps(a, a.curve.len() as int) + joining_steps(a),
        ).subset_of(set![unplaced(a)]),
{
    let none = Set::<Seq<char>>::empty();
    let src = source_file(a);
    let tmp = unplaced(a);
    let n = a.curve.len() as int;
    let files = stretch_files(a.scratch_dir, a.curve, n);
    let joins = joining_steps(a);
    lemma_stretches_clean(a, n);
    lemma_steps_concat(set![src], stretch_steps(a, n), joins);
    let here = left_by_all(set![src], stretch_steps(a, n));
    let bound = files.to_set().insert(src);
    lemma_one_set(src);
    lemma_one_set(tmp);
    lemma_one_set(stretch_list(a));
    lemma_contains_pushed(files, tmp);
    lemma_contains_concat(seq![stretch_list(a)], files);
    lemma_steps_monotone(here, bound, joins);
    if files.len() == 0 {
        lemma_two_steps(bound, joins[0], joins[0]);
        assert(joins == seq![joins[0]]);
        assert(files == Seq::<Seq<char>>::empty());
        assert(left_by_failure(bound, joins[0]) == none);
        assert(left_by(bound, joins[0]).subset_of(set![tmp]));
    } else {
        lemma_two_steps(bound, joins[0], joins[1]);
        assert(joins == seq![joins[0], joins[1]]);
        assert(left_by_failure(bound, joins[0]) == none);
        assert(left_by(bound, joins[0]).subset_of(
            files.to_set().insert(stretch_list(a)),
        ));
        assert(left_by_failure(left_by(bound, joins[0]), joins[1]) == none);
        assert(left_by(left_by(bound, joins[0]), joins[1]).subset_of(set![tmp]));
    }
}

// --------------------------------------------------------- running the encoder

/// How often a running encoder is looked at, in milliseconds.
pub const POLL_INTERVAL_MS: u64 = 500;

/// How much of what the encoder complains of is kept, in bytes.
pub const STDERR_TAIL_BYTES: usize = 65536;

/// What a look at the running encoder shows.
#[derive(Debug)]
pub enum Look {
    Running,
    Exited,
    Failed(String),
}

/// What is done after a look.
#[derive(Debug)]
pub enum Watch {
    Kill,
    Collect,
    Wait,
    Fail(AppError),
}

/// What is done after a look at the running encoder. A cancelled encode is
/// killed whatever it is doing.
pub fn watch(cancelled: bool, look: Look) -> (r: Watch)
    ensures
        match r {
            Watch::Kill => cancelled,
            Watch::Collect => !cancelled && look is Exited,
            Watch::Wait => !cancelled && look is Running,
            Watch::Fail(e) => !cancelled && (look matches Look::Failed(why)
                && crate::error::is_internal(e, "error waiting on ffmpeg: "@ + why@)),
        },
{
    if cancelled {
        return Watch::Kill;
    }
    match look {
        Look::Running => Watch::Wait,
        Look::Exited => Watch::Collect,
        Look::Failed(why) => Watch::Fail(
            AppError::Internal(concat2("error waiting on ffmpeg: ", why.as_str())),
        ),
    }
}

/// What a run of the encoder came to, given its exit status and the end of what
/// it complained of.
pub fn run_result(cancelled: bool, success: bool, status: &str, stderr: &str) -> (r: Result<
    (),
    AppError,
>)
    ensures
        match r {
            Ok(_) => !cancelled && success,
            Err(e) => if cancelled {
                crate::error::is_internal(e, "cancelled"@)
            } else {
                !success && crate::error::is_internal(
                    e,
                    "ffmpeg exited with "@ + status@ + ": "@ + last_lines(stderr@, 8),
                )
            },
        },
{
    if cancelled {
        return Err(AppError::Internal(owned("cancelled")));
    }
    if !success {
        let mut m = concat2("ffmpeg exited with ", status);
        m.append(": ");
        m.append(tail_lines(stderr, 8).as_str());
        return Err(AppError::Internal(m));
    }
    Ok(())
}

/// The last `n` lines of a text, in one line.
pub open spec fn last_lines(s: Seq<char>, n: nat) -> Seq<char> {
    let l = crate::text::lines(s);
    let start = if l.len() > n {
        l.len() - n
    } else {
        0
    };
    crate::text::join(l.skip(start), " | "@)
}

/// The last `n` lines of a text, in one line.
pub fn tail_lines(s: &str, n: usize) -> (r: String)
    ensures
        r@ == last_lines(s@, n as nat),
{
    let v = chars_of(s);
    let l = lines_of(v.as_slice());
    let ghost lv = crate::text::pieces(l@);
    let start: usize = if l.len() > n {
        l.len() - n
    } else {
        0
    };
    let ghost rest = lv.skip(start as int);
    let mut out = String::new();
    let mut i: usize = start;
    while i < l.len()
        invariant
            start <= i <= l.len(),
            lv == crate::text::pieces(l@),
            rest == lv.skip(start as int),
            out@ == crate::text::join(rest.take(i - start), " | "@),
        decreases l.len() - i,
    {
        proof {
            assert(rest.take(i + 1 - start).drop_last() == rest.take(i - start));
            assert(rest.take(i + 1 - start).last() == l@[i as int]@);
        }
        if i > start {
            out.append(" | ");
        }
        push_chars(&mut out, l[i].as_slice());
        proof {
            if i == start {
                assert(rest.take(0) == Seq::<Seq<char>>::empty());
                assert(out@ == rest.take(1)[0]);
            }
        }
        i += 1;
    }
    proof {
        assert(rest.take(rest.len() as int) == rest);
    }
    out
}

/// The last `n` bytes of `s`, or all of them.
pub open spec fn tail_of(s: Seq<u8>, n: int) -> Seq<u8> {
    if s.len() > n {
        s.skip(s.len() - n)
    } else {
        s
    }
}

/// How far the kept bytes may grow before they are cut.
pub open spec fn high_water(max_bytes: int) -> int {
    let twice = if 2 * max_bytes > usize::MAX {
        usize::MAX as int
    } else {
        2 * max_bytes
    };
    if twice < 8192 {
        8192
    } else {
        twice
    }
}

fn keep_tail(buf: Vec<u8>, max_bytes: usize) -> (r: Vec<u8>)
    ensures
        r@ == tail_of(buf@, max_bytes as int),
{
    if buf.len() <= max_bytes {
        return buf;
    }
    let start: usize = buf.len() - max_bytes;
    let mut r: Vec<u8> = Vec::new();
    let mut i: usize = start;
    while i < buf.len()
        invariant
            start <= i <= buf.len(),
            r@ == buf@.subrange(start as int, i as int),
        decreases buf.len() - i,
    {
        r.push(buf[i]);
        i += 1;
    }
    proof {
        assert(r@ == buf@.skip(start as int));
    }
    r
}

/// The kept bytes with the next chunk put behind them; cut to the last
/// `max_bytes` where they have grown too far.
pub fn drain_chunk(buf: Vec<u8>, chunk: &Vec<u8>, max_bytes: usize) -> (r: Vec<u8>)
    ensures
        r@ == (if buf.len() + chunk.len() > high_water(max_bytes as int) {
            tail_of(buf@ + chunk@, max_bytes as int)
        } else {
            buf@ + chunk@
        }),
{
    let ghost first = buf@;
    let mut all = buf;
    let mut i: usize = 0;
    proof {
        assert(first + chunk@.take(0) == first);
    }
    while i < chunk.len()
        invariant
            i <= chunk.len(),
            all@ == first + chunk@.take(i as int),
        decreases chunk.len() - i,
    {
        all.push(chunk[i]);
        i += 1;
        proof {
            assert(all@ == first + chunk@.take(i as int));
        }
    }
    proof {
        assert(chunk@.take(chunk@.len() as int) == chunk@);
    }
    let twice: usize = if max_bytes > usize::MAX / 2 {
        usize::MAX
    } else {
        max_bytes * 2
    };
    let high: usize = if twice < 8192 {
        8192
    } else {
        twice
    };
    if all.len() > high {
        keep_tail(all, max_bytes)
    } else {
        all
    }
}

/// The last of the kept bytes, once everything has been read.
pub fn drain_end(buf: Vec<u8>, max_bytes: usize) -> (r: Vec<u8>)
    ensures
        r@ == tail_of(buf@, max_bytes as int),
{
    keep_tail(buf, max_bytes)
}

/// The bytes are the end of all that was read: everything, or at least the last
/// `max_bytes`.
pub open spec fn is_end_of(buf: Seq<u8>, all: Seq<u8>, max_bytes: int) -> bool {
    &&& buf.len() <= all.len()
    &&& buf == all.skip(all.len() - buf.len())
    &&& buf.len() >= max_bytes || buf.len() == all.len()
}

/// However the bytes come in, what is kept in the end are the last `max_bytes`
/// of them: each chunk keeps the end of all that was read, and the last cut
/// takes the end from that.
pub proof fn the_end_is_kept(buf: Seq<u8>, all: Seq<u8>, chunk: Seq<u8>, max_bytes: int)
    requires
        0 <= max_bytes,
        is_end_of(buf, all, max_bytes),
    ensures
        is_end_of(buf + chunk, all + chunk, max_bytes),
        is_end_of(tail_of(buf + chunk, max_bytes), all + chunk, max_bytes),
        tail_of(buf, max_bytes) == tail_of(all, max_bytes),
{
    let b = buf + chunk;
    let a = all + chunk;
    assert(b == a.skip(a.len() - b.len()));
    let t = tail_of(b, max_bytes);
    assert(t == a.skip(a.len() - t.len()));
    assert(tail_of(buf, max_bytes) == tail_of(all, max_bytes));
}

} // verus!
