//! What the encoder is told.

use crate::timelapse::ffmpeg::Encoder;
use crate::timelapse::speed_curve::CurveSegment;
use vstd::prelude::*;

verus! {

/// The option stands among the arguments, with the value behind it.
pub open spec fn has_option(args: Seq<Seq<char>>, option: Seq<char>, value: Seq<char>) -> bool {
    exists|i: int|
        0 <= i && i + 1 < args.len() && #[trigger] args[i] == option && args[i + 1] == value
}

/// The arguments tell of the encode: its source, its output, its filter, the encoder, how
/// frames are decoded, and on how many threads.
pub open spec fn tells_the_encode(
    args: Seq<Seq<char>>,
    source: Seq<char>,
    rate: u32,
    encoder: Encoder,
    software_input: bool,
    threads: Option<u64>,
    output: Seq<char>,
) -> bool {
    let on_card = encoder == Encoder::HevcNvenc && !software_input;
    let scale = if on_card {
        "scale_cuda"@
    } else {
        "scale"@
    };
    &&& args.len() > 0 && args.last() == output
    &&& has_option(args, "-i"@, source)
    &&& has_option(
        args,
        "-filter_complex"@,
        crate::timelapse::speed_curve::window_filter(scale, rate),
    )
    &&& has_option(args, "-map"@, "[out]"@)
    &&& args.contains("-an"@)
    &&& args.contains("-y"@)
    &&& has_option(args, "-tag:v"@, "hvc1"@)
    &&& on_card ==> has_option(args, "-hwaccel"@, "cuda"@) && has_option(
        args,
        "-hwaccel_output_format"@,
        "cuda"@,
    )
    &&& match encoder {
        Encoder::HevcNvenc => has_option(args, "-c:v"@, "hevc_nvenc"@) && has_option(
            args,
            "-preset"@,
            "p5"@,
        ) && has_option(args, "-cq"@, "26"@),
        Encoder::LibX265 => has_option(args, "-c:v"@, "libx265"@) && has_option(
            args,
            "-crf"@,
            "26"@,
        ) && has_option(args, "-preset"@, "medium"@) && has_option(
            args,
            "-x265-params"@,
            if threads is Some && threads->0 >= 1 {
                "log-level=error:pools="@ + crate::text::decimal(threads->0 as nat)
            } else {
                "log-level=error"@
            },
        ),
    }
}

proof fn lemma_option(args: Seq<Seq<char>>, option: Seq<char>, value: Seq<char>, i: int)
    requires
        0 <= i,
        i + 1 < args.len(),
        args[i] == option,
        args[i + 1] == value,
    ensures
        has_option(args, option, value),
{
}

proof fn lemma_tail(
    args: Seq<Seq<char>>,
    n: int,
    encoder: Encoder,
    threads: Option<u64>,
    output: Seq<char>,
)
    requires
        0 <= n,
        args.len() == n + crate::timelapse::ffmpeg::encoder_flags(encoder, threads).len() + 1,
        forall|i: int|
            0 <= i < crate::timelapse::ffmpeg::encoder_flags(encoder, threads).len() ==> args[n + i]
                == #[trigger] crate::timelapse::ffmpeg::encoder_flags(encoder, threads)[i],
        args.last() == output,
    ensures
        has_option(args, "-tag:v"@, "hvc1"@),
        match encoder {
            Encoder::HevcNvenc => has_option(args, "-c:v"@, "hevc_nvenc"@) && has_option(
                args,
                "-preset"@,
                "p5"@,
            ) && has_option(args, "-cq"@, "26"@),
            Encoder::LibX265 => has_option(args, "-c:v"@, "libx265"@) && has_option(
                args,
                "-crf"@,
                "26"@,
            ) && has_option(args, "-preset"@, "medium"@) && has_option(
                args,
                "-x265-params"@,
                if threads is Some && threads->0 >= 1 {
                    "log-level=error:pools="@ + crate::text::decimal(threads->0 as nat)
                } else {
                    "log-level=error"@
                },
            ),
        },
{
    let f = crate::timelapse::ffmpeg::encoder_flags(encoder, threads);
    assert forall|i: int| 0 <= i < f.len() implies args[n + i] == #[trigger] f[i] by {}
    match encoder {
        Encoder::HevcNvenc => {
            assert(f.len() == 8);
            assert(f[0] == "-c:v"@ && f[1] == "hevc_nvenc"@ && f[2] == "-preset"@ && f[3] == "p5"@);
            assert(f[4] == "-cq"@ && f[5] == "26"@ && f[6] == "-tag:v"@ && f[7] == "hvc1"@);
            lemma_option(args, "-c:v"@, "hevc_nvenc"@, n);
            lemma_option(args, "-preset"@, "p5"@, n + 2);
            lemma_option(args, "-cq"@, "26"@, n + 4);
            lemma_option(args, "-tag:v"@, "hvc1"@, n + 6);
        },
        Encoder::LibX265 => {
            reveal_strlit("log-level=error");
            reveal_strlit(":pools=");
            reveal_strlit("log-level=error:pools=");
            assert("log-level=error:pools="@ =~= "log-level=error"@ + ":pools="@);
            let x = crate::timelapse::ffmpeg::x265_params(threads);
            assert(f.len() == 10);
            assert(f[0] == "-c:v"@ && f[1] == "libx265"@ && f[2] == "-crf"@ && f[3] == "26"@);
            assert(f[4] == "-preset"@ && f[5] == "medium"@ && f[6] == "-x265-params"@ && f[7] == x);
            assert(f[8] == "-tag:v"@ && f[9] == "hvc1"@);
            lemma_option(args, "-c:v"@, "libx265"@, n);
            lemma_option(args, "-crf"@, "26"@, n + 2);
            lemma_option(args, "-preset"@, "medium"@, n + 4);
            lemma_option(args, "-x265-params"@, x, n + 6);
            lemma_option(args, "-tag:v"@, "hvc1"@, n + 8);
        },
    }
}

/// An encode at one rate is told its source, its output and how it is made.
pub proof fn whole_encodes_are_told(
    source: Seq<char>,
    rate: u32,
    encoder: Encoder,
    software_input: bool,
    threads: Option<u64>,
    output: Seq<char>,
)
    ensures
        tells_the_encode(
            crate::timelapse::ffmpeg::whole_args(
                source,
                rate,
                encoder,
                software_input,
                threads,
                output,
            ),
            source,
            rate,
            encoder,
            software_input,
            threads,
            output,
        ),
{
    let args = crate::timelapse::ffmpeg::whole_args(
        source,
        rate,
        encoder,
        software_input,
        threads,
        output,
    );
    let d = crate::timelapse::ffmpeg::decoding_flags(encoder, software_input);
    let n = 5 + d.len() as int;
    let filter = crate::timelapse::speed_curve::window_filter(
        crate::timelapse::ffmpeg::scaling_for(encoder, software_input),
        rate,
    );
    assert(args[0] == "-y"@);
    lemma_option(args, "-i"@, source, n);
    lemma_option(args, "-filter_complex"@, filter, n + 2);
    lemma_option(args, "-map"@, "[out]"@, n + 4);
    assert(args[n + 6] == "-an"@);
    if encoder == Encoder::HevcNvenc && !software_input {
        assert(d.len() == 4);
        lemma_option(args, "-hwaccel"@, "cuda"@, 5);
        lemma_option(args, "-hwaccel_output_format"@, "cuda"@, 7);
    }
    lemma_tail(args, n + 7, encoder, threads, output);
}

/// An encode of a stretch is told so too, and from where and how long it is.
pub proof fn stretch_encodes_are_told(
    source: Seq<char>,
    start_ms: i64,
    duration_ms: i64,
    rate: u32,
    encoder: Encoder,
    software_input: bool,
    threads: Option<u64>,
    output: Seq<char>,
)
    ensures
        ({
            let args = crate::timelapse::ffmpeg::stretch_args(
                source,
                start_ms,
                duration_ms,
                rate,
                encoder,
                software_input,
                threads,
                output,
            );
            &&& tells_the_encode(
                args,
                source,
                rate,
                encoder,
                software_input,
                threads,
                output,
            )
            &&& has_option(
                args,
                "-ss"@,
                crate::timelapse::speed_curve::seconds_text(start_ms as int),
            )
            &&& has_option(
                args,
                "-t"@,
                crate::timelapse::speed_curve::seconds_text(duration_ms as int),
            )
        }),
{
    let args = crate::timelapse::ffmpeg::stretch_args(
        source,
        start_ms,
        duration_ms,
        rate,
        encoder,
        software_input,
        threads,
        output,
    );
    let d = crate::timelapse::ffmpeg::decoding_flags(encoder, software_input);
    let n = 5 + d.len() as int;
    let filter = crate::timelapse::speed_curve::window_filter(
        crate::timelapse::ffmpeg::scaling_for(encoder, software_input),
        rate,
    );
    assert(args[0] == "-y"@);
    lemma_option(
        args,
        "-ss"@,
        crate::timelapse::speed_curve::seconds_text(start_ms as int),
        n,
    );
    lemma_option(
        args,
        "-t"@,
        crate::timelapse::speed_curve::seconds_text(duration_ms as int),
        n + 2,
    );
    lemma_option(args, "-i"@, source, n + 4);
    lemma_option(args, "-filter_complex"@, filter, n + 6);
    lemma_option(args, "-map"@, "[out]"@, n + 8);
    assert(args[n + 10] == "-an"@);
    if encoder == Encoder::HevcNvenc && !software_input {
        assert(d.len() == 4);
        lemma_option(args, "-hwaccel"@, "cuda"@, 5);
        lemma_option(args, "-hwaccel_output_format"@, "cuda"@, 7);
    }
    lemma_tail(args, n + 11, encoder, threads, output);
}

/// Files are put together from their list into the output, without encoding them again.
pub proof fn joins_are_told(list: Seq<char>, output: Seq<char>)
    ensures
        ({
            let a = crate::timelapse::ffmpeg::concat_args(list, output);
            let b = crate::trips::merge::splice_args(list, output);
            &&& a.last() == output && b.last() == output
            &&& has_option(a, "-f"@, "concat"@) && has_option(b, "-f"@, "concat"@)
            &&& has_option(a, "-i"@, list) && has_option(b, "-i"@, list)
            &&& has_option(a, "-c"@, "copy"@) && has_option(b, "-c"@, "copy"@)
            &&& has_option(a, "-safe"@, "0"@) && has_option(b, "-safe"@, "0"@)
        }),
{
    let a = crate::timelapse::ffmpeg::concat_args(list, output);
    let b = crate::trips::merge::splice_args(list, output);
    lemma_option(a, "-f"@, "concat"@, 5);
    lemma_option(a, "-safe"@, "0"@, 7);
    lemma_option(a, "-i"@, list, 9);
    lemma_option(a, "-c"@, "copy"@, 11);
    lemma_option(b, "-f"@, "concat"@, 4);
    lemma_option(b, "-safe"@, "0"@, 6);
    lemma_option(b, "-i"@, list, 8);
    lemma_option(b, "-c"@, "copy"@, 10);
}

/// The first line is what stands before the first line feed, without white space around it.
pub proof fn first_lines_end_with_the_line_feed(l: Seq<char>, rest: Seq<char>)
    requires
        !l.contains('\n'),
        l.len() > 0 && l.last() != '\r',
    ensures
        crate::timelapse::ffmpeg::first_line(l + seq!['\n'] + rest) == crate::text::trim(l),
        crate::timelapse::ffmpeg::first_line(l) == crate::text::trim(l),
        crate::timelapse::ffmpeg::first_line(Seq::empty()).len() == 0,
{
    crate::laws::text::lemma_split_one(l, '\n');
    crate::laws::text::lemma_split_one(Seq::empty(), '\n');
    crate::laws::text::lemma_split_concat(l, rest, '\n');
    crate::text::lemma_split_nonempty(rest, '\n');
    let p = crate::text::split(l + seq!['\n'] + rest, '\n');
    assert(p[0] == l && p.len() >= 2);
    assert(p.drop_last()[0] == l);
    assert(crate::text::lines(l + seq!['\n'] + rest)[0] == l);
    assert(crate::text::lines(l)[0] == l);
}

/// Twice as much as is kept may stand there before it is cut, and never less than eight
/// kibibytes.
pub proof fn output_may_grow_to_twice_its_size(max_bytes: int)
    requires
        0 <= 2 * max_bytes <= usize::MAX,
    ensures
        ({
            let h = crate::timelapse::ffmpeg::high_water(max_bytes);
            &&& 2 * max_bytes <= h && 8192 <= h
            &&& h == 2 * max_bytes || h == 8192
        }),
{
}

/// What is kept of the bytes is their end, and all of them where they are few.
pub proof fn the_end_of_the_output_is_kept(s: Seq<u8>, n: int)
    requires
        0 <= n,
    ensures
        ({
            let t = crate::timelapse::ffmpeg::tail_of(s, n);
            &&& t.len() <= n
            &&& t.len() == n || t == s
            &&& exists|a: Seq<u8>| s == #[trigger] (a + t)
        }),
{
    let t = crate::timelapse::ffmpeg::tail_of(s, n);
    let a = s.take(s.len() - t.len());
    assert(s =~= a + t);
    assert(t.len() == s.len() ==> t =~= s);
}

/// A curve of one stretch and one of several never use one file for their sources.
pub proof fn sources_are_kept_apart(a: Seq<CurveSegment>, b: Seq<CurveSegment>)
    requires
        a.len() <= 1 < b.len(),
    ensures
        crate::timelapse::ffmpeg::source_name(a) == "__single_source.mp4"@,
        crate::timelapse::ffmpeg::source_name(b) == "__multi_source.mp4"@,
        crate::timelapse::ffmpeg::source_name(a) != crate::timelapse::ffmpeg::source_name(b),
{
    reveal_strlit("__single_source.mp4");
    reveal_strlit("__multi_source.mp4");
}

/// What is told of a failure is its last lines, joined; a short text is told whole.
pub proof fn failures_tell_their_last_lines(s: Seq<char>, n: nat)
    ensures
        ({
            let l = crate::text::lines(s);
            &&& l.len() <= n ==> crate::timelapse::ffmpeg::last_lines(s, n) == crate::text::join(
                l,
                " | "@,
            )
            &&& l.len() > n ==> crate::timelapse::ffmpeg::last_lines(s, n) == crate::text::join(
                l.subrange(l.len() - n, l.len() as int),
                " | "@,
            )
        }),
{
    let l = crate::text::lines(s);
    assert(l.skip(0) =~= l);
    if l.len() > n {
        assert(l.skip(l.len() - n) =~= l.subrange(l.len() - n, l.len() as int));
    }
}

} // verus!
