//! What the steps of an encode do.

use crate::timelapse::ffmpeg::{ActionView, EncodeView, StepView};
use crate::timelapse::speed_curve::CurveSegment;
use vstd::prelude::*;

verus! {

// ------------------------------------------------------------------- arguments

/// Two arguments follow each other.
pub open spec fn has_pair(args: Seq<Seq<char>>, a: Seq<char>, b: Seq<char>) -> bool {
    exists|k: int| 0 <= k < args.len() - 1 && #[trigger] args[k] == a && args[k + 1] == b
}

/// The encoder seeks to a time of a file, and reads a length of it.
pub open spec fn cuts_out(
    args: Seq<Seq<char>>,
    source: Seq<char>,
    start: Seq<char>,
    length: Seq<char>,
) -> bool {
    exists|k: int|
        0 <= k < args.len() - 5 && #[trigger] args[k] == "-ss"@ && args[k + 1] == start && args[k + 2]
            == "-t"@ && args[k + 3] == length && args[k + 4] == "-i"@ && args[k + 5] == source
}

/// The encoder shows every `rate`th frame, or each frame that much faster.
pub open spec fn speeds_up(args: Seq<Seq<char>>, rate: u32) -> bool {
    exists|k: int|
        0 <= k < args.len() - 1 && #[trigger] args[k] == "-filter_complex"@ && crate::text::has_suffix(
            args[k + 1],
            "setpts=PTS/"@ + crate::text::decimal(rate as nat) + "[out]"@,
        )
}

/// The arguments say where to start in their input.
pub open spec fn is_cut(s: StepView) -> bool {
    s.action matches ActionView::Run { args, output } && args.contains("-ss"@)
}

/// The steps that cut something out of their input.
pub open spec fn cut_runs(steps: Seq<StepView>) -> Seq<StepView> {
    steps.filter(|s: StepView| is_cut(s))
}

/// The segments of a curve that have a length.
pub open spec fn with_footage(curve: Seq<CurveSegment>) -> Seq<CurveSegment> {
    curve.filter(|s: CurveSegment| s.concat_start < s.concat_end)
}

/// The time with three decimal places, in seconds.
pub open spec fn seconds(ms: int) -> Seq<char> {
    crate::timelapse::speed_curve::seconds_text(ms)
}

/// The run cuts the segment out of the source, speeds it up as the segment asks,
/// and writes it to its output.
pub open spec fn makes_stretch(s: StepView, seg: CurveSegment, source: Seq<char>) -> bool {
    s.action matches ActionView::Run { args, output } && {
        &&& cuts_out(
            args,
            source,
            seconds(seg.concat_start as int),
            seconds(crate::timelapse::types::saturated(seg.concat_end - seg.concat_start)),
        )
        &&& speeds_up(args, seg.rate)
        &&& args.last() == output
    }
}

proof fn lemma_quiet()
    ensures
        crate::timelapse::ffmpeg::quiet_flags().len() == 5,
        !crate::timelapse::ffmpeg::quiet_flags().contains("-ss"@),
{
    reveal_strlit("-y");
    reveal_strlit("-hide_banner");
    reveal_strlit("-nostats");
    reveal_strlit("-loglevel");
    reveal_strlit("error");
    reveal_strlit("-ss");
    let q = crate::timelapse::ffmpeg::quiet_flags();
    if q.contains("-ss"@) {
        let k = choose|k: int| 0 <= k < q.len() && q[k] == "-ss"@;
        assert(q[k].len() == 3);
    }
}

/// A path ends as the name that was put behind its directory.
pub proof fn lemma_joined_ends(d: Seq<char>, name: Seq<char>)
    requires
        name.len() > 0,
    ensures
        crate::paths::path_join(d, name).len() >= name.len(),
        crate::paths::path_join(d, name).last() == name.last(),
{
}

proof fn lemma_files_end(a: EncodeView)
    ensures
        crate::timelapse::ffmpeg::source_file(a).last() == '4',
        crate::timelapse::ffmpeg::source_list(a).last() == 't',
        crate::timelapse::ffmpeg::stretch_list(a).last() == 't',
        crate::timelapse::ffmpeg::unplaced(a).last() == '4',
{
    reveal_strlit("__single_source.mp4");
    reveal_strlit("__multi_source.mp4");
    reveal_strlit("__multi_source_list.txt");
    reveal_strlit("__multi_windows_list.txt");
    reveal_strlit("__output.mp4");
    lemma_joined_ends(a.scratch_dir, "__single_source.mp4"@);
    lemma_joined_ends(a.scratch_dir, "__multi_source.mp4"@);
    lemma_joined_ends(a.scratch_dir, "__multi_source_list.txt"@);
    lemma_joined_ends(a.scratch_dir, "__multi_windows_list.txt"@);
    lemma_joined_ends(a.scratch_dir, "__output.mp4"@);
}

proof fn lemma_concat_is_no_cut(list: Seq<char>, out: Seq<char>)
    requires
        list.last() == 't',
        out.last() == '4',
    ensures
        !crate::timelapse::ffmpeg::concat_args(list, out).contains("-ss"@),
        has_pair(crate::timelapse::ffmpeg::concat_args(list, out), "-i"@, list),
        crate::timelapse::ffmpeg::concat_args(list, out).last() == out,
{
    lemma_quiet();
    reveal_strlit("-ss");
    reveal_strlit("-f");
    reveal_strlit("concat");
    reveal_strlit("-safe");
    reveal_strlit("0");
    reveal_strlit("-i");
    reveal_strlit("-c");
    reveal_strlit("copy");
    reveal_strlit("-an");
    let q = crate::timelapse::ffmpeg::quiet_flags();
    let v = crate::timelapse::ffmpeg::concat_args(list, out);
    if v.contains("-ss"@) {
        let k = choose|k: int| 0 <= k < v.len() && v[k] == "-ss"@;
        if k < 5 {
            assert(q[k] == "-ss"@);
        } else {
            assert("-ss"@.last() == 's');
            assert("-an"@[1] == 'a');
        }
    }
    assert(v[9] == "-i"@ && v[10] == list);
}

proof fn lemma_filter_rate(scaling: Seq<char>, rate: u32)
    ensures
        crate::text::has_suffix(
            crate::timelapse::speed_curve::window_filter(scaling, rate),
            "setpts=PTS/"@ + crate::text::decimal(rate as nat) + "[out]"@,
        ),
{
    reveal_strlit(",setpts=PTS/");
    reveal_strlit("setpts=PTS/");
    let tail = "setpts=PTS/"@ + crate::text::decimal(rate as nat) + "[out]"@;
    let w = crate::timelapse::speed_curve::window_filter(scaling, rate);
    let head = "[0:v]"@ + crate::timelapse::speed_curve::normalizing(scaling);
    assert(",setpts=PTS/"@ =~= seq![','] + "setpts=PTS/"@);
    assert(w =~= head + seq![','] + tail);
    assert(w.subrange(w.len() - tail.len(), w.len() as int) =~= tail);
}

proof fn lemma_stretch_makes(a: EncodeView, i: int)
    requires
        0 <= i < a.curve.len(),
    ensures
        is_cut(crate::timelapse::ffmpeg::stretch_step(a, i)),
        makes_stretch(
            crate::timelapse::ffmpeg::stretch_step(a, i),
            a.curve[i],
            crate::timelapse::ffmpeg::source_file(a),
        ),
{
    let s = a.curve[i];
    let src = crate::timelapse::ffmpeg::source_file(a);
    let step = crate::timelapse::ffmpeg::stretch_step(a, i);
    let file = crate::timelapse::ffmpeg::stretch_file(a.scratch_dir, i as nat);
    let len = crate::timelapse::types::saturated(s.span()) as i64;
    let v = crate::timelapse::ffmpeg::stretch_args(
        src,
        s.concat_start,
        len,
        s.rate,
        a.encoder,
        a.software_input,
        a.cpu_pool_threads,
        file,
    );
    lemma_quiet();
    let d = crate::timelapse::ffmpeg::decoding_flags(a.encoder, a.software_input);
    let k = 5 + d.len() as int;
    let scaling = crate::timelapse::ffmpeg::scaling_for(a.encoder, a.software_input);
    assert(v[k] == "-ss"@);
    assert(v[k + 1] == seconds(s.concat_start as int));
    assert(v[k + 2] == "-t"@);
    assert(v[k + 3] == seconds(len as int));
    assert(v[k + 4] == "-i"@);
    assert(v[k + 5] == src);
    assert(v[k + 6] == "-filter_complex"@);
    assert(v[k + 7] == crate::timelapse::speed_curve::window_filter(scaling, s.rate));
    lemma_filter_rate(scaling, s.rate);
    assert(v.contains("-ss"@));
    assert(cuts_out(v, src, seconds(s.concat_start as int), seconds(len as int)));
    assert(speeds_up(v, s.rate));
    assert(v.last() == file);
}

/// The runs make the segments, one after the other, from the source.
pub open spec fn make_stretches(
    runs: Seq<StepView>,
    segments: Seq<CurveSegment>,
    source: Seq<char>,
) -> bool {
    &&& runs.len() == segments.len()
    &&& forall|k: int|
        0 <= k < runs.len() ==> makes_stretch(#[trigger] runs[k], segments[k], source)
}

/// The files that the runs write.
pub open spec fn outputs_of(runs: Seq<StepView>) -> Seq<Seq<char>> {
    runs.map_values(
        |s: StepView|
            match s.action {
                ActionView::Run { args, output } => output,
                _ => Seq::empty(),
            },
    )
}

proof fn lemma_stretches(a: EncodeView, n: int)
    requires
        0 <= n <= a.curve.len(),
    ensures
        ({
            let steps = crate::timelapse::ffmpeg::stretch_steps(a, n);
            let cut = |s: StepView| is_cut(s);
            &&& steps.filter(cut) == steps
            &&& make_stretches(
                steps,
                with_footage(a.curve.take(n)),
                crate::timelapse::ffmpeg::source_file(a),
            )
            &&& outputs_of(steps) == crate::timelapse::ffmpeg::stretch_files(
                a.scratch_dir,
                a.curve,
                n,
            )
        }),
    decreases n,
{
    reveal(Seq::filter);
    let cut = |s: StepView| is_cut(s);
    let f = |s: CurveSegment| s.concat_start < s.concat_end;
    let src = crate::timelapse::ffmpeg::source_file(a);
    let steps = crate::timelapse::ffmpeg::stretch_steps(a, n);
    if n > 0 {
        lemma_stretches(a, n - 1);
        let before = crate::timelapse::ffmpeg::stretch_steps(a, n - 1);
        let seg = a.curve[n - 1];
        assert(a.curve.take(n).drop_last() == a.curve.take(n - 1));
        assert(a.curve.take(n).last() == seg);
        if crate::timelapse::ffmpeg::has_length(seg) {
            let x = crate::timelapse::ffmpeg::stretch_step(a, n - 1);
            lemma_stretch_makes(a, n - 1);
            assert(steps.drop_last() == before);
            assert(steps.last() == x);
            assert(steps.filter(cut) == steps);
            let w = with_footage(a.curve.take(n));
            assert(w == with_footage(a.curve.take(n - 1)).push(seg));
            assert forall|k: int| 0 <= k < steps.len() implies makes_stretch(
                #[trigger] steps[k],
                w[k],
                src,
            ) by {
                if k < before.len() {
                    assert(steps[k] == before[k]);
                }
            }
            assert(outputs_of(steps) =~= outputs_of(before).push(
                crate::timelapse::ffmpeg::stretch_file(a.scratch_dir, (n - 1) as nat),
            ));
        } else {
            assert(with_footage(a.curve.take(n)) == with_footage(a.curve.take(n - 1)));
        }
    } else {
        assert(outputs_of(steps) =~= Seq::<Seq<char>>::empty());
        assert(with_footage(a.curve.take(0)).len() == 0);
    }
}

proof fn lemma_no_cuts(s: Seq<StepView>)
    requires
        forall|i: int| 0 <= i < s.len() ==> !is_cut(#[trigger] s[i]),
    ensures
        s.filter(|x: StepView| is_cut(x)) == Seq::<StepView>::empty(),
    decreases s.len(),
{
    reveal(Seq::filter);
    if s.len() > 0 {
        let u = s.drop_last();
        assert forall|i: int| 0 <= i < u.len() implies !is_cut(#[trigger] u[i]) by {
            assert(u[i] == s[i]);
        }
        lemma_no_cuts(u);
        assert(!is_cut(s[s.len() - 1]));
    }
}

/// The steps of an encode of more than one segment: the opening, the stretches,
/// and the rest.
proof fn lemma_parts(a: EncodeView)
    requires
        a.curve.len() > 1,
    ensures
        ({
            let cut = |s: StepView| is_cut(s);
            let n = a.curve.len() as int;
            crate::timelapse::ffmpeg::encode_steps(a).filter(cut)
                == crate::timelapse::ffmpeg::stretch_steps(a, n)
        }),
{
    let cut = |s: StepView| is_cut(s);
    let n = a.curve.len() as int;
    let head = crate::timelapse::ffmpeg::opening_steps(a) + crate::timelapse::ffmpeg::source_steps(
        a,
    );
    let mid = crate::timelapse::ffmpeg::stretch_steps(a, n);
    let tail = crate::timelapse::ffmpeg::joining_steps(a).push(
        crate::timelapse::ffmpeg::placing_step(a),
    );
    lemma_files_end(a);
    lemma_concat_is_no_cut(
        crate::timelapse::ffmpeg::source_list(a),
        crate::timelapse::ffmpeg::source_file(a),
    );
    lemma_concat_is_no_cut(
        crate::timelapse::ffmpeg::stretch_list(a),
        crate::timelapse::ffmpeg::unplaced(a),
    );
    assert forall|i: int| 0 <= i < head.len() implies !is_cut(#[trigger] head[i]) by {}
    assert forall|i: int| 0 <= i < tail.len() implies !is_cut(#[trigger] tail[i]) by {}
    lemma_no_cuts(head);
    lemma_no_cuts(tail);
    lemma_stretches(a, n);
    assert(crate::timelapse::ffmpeg::encode_steps(a) =~= head + (mid + tail));
    Seq::filter_distributes_over_add(mid, tail, cut);
    Seq::filter_distributes_over_add(head, mid + tail, cut);
    assert(Seq::<StepView>::empty() + (mid + Seq::<StepView>::empty()) =~= mid);
}

/// The stretches that an encode cuts out of its source, one after the other, are
/// the segments of the curve that have a length: each from its own start, for its
/// own length, and at its own rate.
pub proof fn encodes_cut_out_the_curve(a: EncodeView)
    requires
        a.curve.len() > 1,
    ensures
        exists|source: Seq<char>|
            #[trigger] make_stretches(
                cut_runs(crate::timelapse::ffmpeg::encode_steps(a)),
                with_footage(a.curve),
                source,
            ),
{
    lemma_parts(a);
    lemma_stretches(a, a.curve.len() as int);
    assert(a.curve.take(a.curve.len() as int) == a.curve);
    assert(make_stretches(
        cut_runs(crate::timelapse::ffmpeg::encode_steps(a)),
        with_footage(a.curve),
        crate::timelapse::ffmpeg::source_file(a),
    ));
}

/// A list of the files is written, and the next step puts them together into the
/// output.
pub open spec fn puts_together(
    steps: Seq<StepView>,
    i: int,
    files: Seq<Seq<char>>,
    result: Seq<char>,
) -> bool {
    &&& 0 <= i < steps.len() - 1
    &&& steps[i].action matches ActionView::WriteList { path, content } && content
        == crate::timelapse::ffmpeg::concat_list(files) && (
    steps[i + 1].action matches ActionView::Run { args, output } && has_pair(args, "-i"@, path)
        && has_pair(args, "-c"@, "copy"@) && args.last() == output && output == result)
}

proof fn lemma_copies(list: Seq<char>, out: Seq<char>)
    ensures
        has_pair(crate::timelapse::ffmpeg::concat_args(list, out), "-c"@, "copy"@),
{
    lemma_quiet();
    let v = crate::timelapse::ffmpeg::concat_args(list, out);
    assert(v[11] == "-c"@ && v[12] == "copy"@);
}

/// The steps put all sources together at `i`, cut the stretches out of what that
/// gives, put the stretches together at `j`, and move what that gives to the place
/// of the output.
pub open spec fn leads_to_output(
    steps: Seq<StepView>,
    a: EncodeView,
    i: int,
    j: int,
    source: Seq<char>,
    done: Seq<char>,
) -> bool {
    &&& i < j
    &&& puts_together(steps, i, a.source_paths, source)
    &&& make_stretches(cut_runs(steps), with_footage(a.curve), source)
    &&& puts_together(steps, j, outputs_of(cut_runs(steps)), done)
    &&& steps.last().action == (ActionView::Place { from: done, to: a.output_path })
}

proof fn lemma_source_joined(a: EncodeView)
    ensures
        puts_together(
            crate::timelapse::ffmpeg::encode_steps(a),
            crate::timelapse::ffmpeg::opening_steps(a).len() as int,
            a.source_paths,
            crate::timelapse::ffmpeg::source_file(a),
        ),
{
    let steps = crate::timelapse::ffmpeg::encode_steps(a);
    let i = crate::timelapse::ffmpeg::opening_steps(a).len() as int;
    let list = crate::timelapse::ffmpeg::source_list(a);
    let src = crate::timelapse::ffmpeg::source_file(a);
    lemma_files_end(a);
    lemma_concat_is_no_cut(list, src);
    lemma_copies(list, src);
    assert(steps[i] == crate::timelapse::ffmpeg::source_steps(a)[0]);
    assert(steps[i + 1] == crate::timelapse::ffmpeg::source_steps(a)[1]);
}

proof fn lemma_stretches_joined(a: EncodeView)
    requires
        a.curve.len() > 1,
        crate::timelapse::ffmpeg::stretch_files(
            a.scratch_dir,
            a.curve,
            a.curve.len() as int,
        ).len() > 0,
    ensures
        puts_together(
            crate::timelapse::ffmpeg::encode_steps(a),
            crate::timelapse::ffmpeg::opening_steps(a).len() as int + 2
                + crate::timelapse::ffmpeg::stretch_steps(a, a.curve.len() as int).len(),
            crate::timelapse::ffmpeg::stretch_files(a.scratch_dir, a.curve, a.curve.len() as int),
            crate::timelapse::ffmpeg::unplaced(a),
        ),
{
    let steps = crate::timelapse::ffmpeg::encode_steps(a);
    let j = crate::timelapse::ffmpeg::opening_steps(a).len() as int + 2
        + crate::timelapse::ffmpeg::stretch_steps(a, a.curve.len() as int).len();
    let list = crate::timelapse::ffmpeg::stretch_list(a);
    let tmp = crate::timelapse::ffmpeg::unplaced(a);
    lemma_files_end(a);
    lemma_concat_is_no_cut(list, tmp);
    lemma_copies(list, tmp);
    assert(steps[j] == crate::timelapse::ffmpeg::joining_steps(a)[0]);
    assert(steps[j + 1] == crate::timelapse::ffmpeg::joining_steps(a)[1]);
}

/// An encode puts all sources together, in their order; cuts the stretches out of
/// what that gives; puts the stretches together, in the order of the curve; and
/// moves what that gives to the place of the output.
pub proof fn encodes_lead_from_the_sources_to_the_output(a: EncodeView)
    requires
        a.curve.len() > 1,
        with_footage(a.curve).len() > 0,
    ensures
        exists|i: int, j: int, source: Seq<char>, done: Seq<char>|
            #[trigger] leads_to_output(
                crate::timelapse::ffmpeg::encode_steps(a),
                a,
                i,
                j,
                source,
                done,
            ),
{
    let n = a.curve.len() as int;
    let i = crate::timelapse::ffmpeg::opening_steps(a).len() as int;
    let j = i + 2 + crate::timelapse::ffmpeg::stretch_steps(a, n).len();
    lemma_cuts_of_encode(a);
    lemma_source_joined(a);
    lemma_stretches_joined(a);
    lemma_leads(
        crate::timelapse::ffmpeg::encode_steps(a),
        a,
        i,
        j,
        crate::timelapse::ffmpeg::source_file(a),
        crate::timelapse::ffmpeg::unplaced(a),
    );
}

proof fn lemma_leads(
    steps: Seq<StepView>,
    a: EncodeView,
    i: int,
    j: int,
    source: Seq<char>,
    done: Seq<char>,
)
    requires
        i < j,
        puts_together(steps, i, a.source_paths, source),
        make_stretches(cut_runs(steps), with_footage(a.curve), source),
        puts_together(steps, j, outputs_of(cut_runs(steps)), done),
        steps.last().action == (ActionView::Place { from: done, to: a.output_path }),
    ensures
        leads_to_output(steps, a, i, j, source, done),
{
}

#[verifier::rlimit(40)]
proof fn lemma_cuts_of_encode(a: EncodeView)
    requires
        a.curve.len() > 1,
        with_footage(a.curve).len() > 0,
    ensures
        ({
            let steps = crate::timelapse::ffmpeg::encode_steps(a);
            let files = crate::timelapse::ffmpeg::stretch_files(
                a.scratch_dir,
                a.curve,
                a.curve.len() as int,
            );
            &&& make_stretches(
                cut_runs(steps),
                with_footage(a.curve),
                crate::timelapse::ffmpeg::source_file(a),
            )
            &&& outputs_of(cut_runs(steps)) == files
            &&& files.len() > 0
            &&& steps.last().action == (ActionView::Place {
                from: crate::timelapse::ffmpeg::unplaced(a),
                to: a.output_path,
            })
        }),
{
    let n = a.curve.len() as int;
    lemma_parts(a);
    lemma_stretches(a, n);
    assert(a.curve.take(n) == a.curve);
}

/// A curve of one segment is encoded in one go, at its rate: all sources are put
/// together, and what that gives is encoded and moved to the place of the output.
pub proof fn single_rates_are_encoded_in_one_go(a: EncodeView)
    requires
        a.curve.len() == 1,
    ensures
        ({
            let steps = crate::timelapse::ffmpeg::encode_steps(a);
            exists|i: int, source: Seq<char>|
                #[trigger] puts_together(steps, i, a.source_paths, source) && i + 4 == steps.len()
                    && (steps[i + 2].action matches ActionView::Run { args, output } && has_pair(
                    args,
                    "-i"@,
                    source,
                ) && speeds_up(args, a.curve[0].rate) && !args.contains("-ss"@) && args.last()
                    == output && steps[i + 3].action == (ActionView::Place {
                    from: output,
                    to: a.output_path,
                }))
        }),
{
    let steps = crate::timelapse::ffmpeg::encode_steps(a);
    let opening = crate::timelapse::ffmpeg::opening_steps(a);
    let src = crate::timelapse::ffmpeg::source_file(a);
    let tmp = crate::timelapse::ffmpeg::unplaced(a);
    let i = opening.len() as int;
    lemma_files_end(a);
    lemma_concat_is_no_cut(crate::timelapse::ffmpeg::source_list(a), src);
    lemma_copies(crate::timelapse::ffmpeg::source_list(a), src);
    assert(steps[i] == crate::timelapse::ffmpeg::source_steps(a)[0]);
    assert(steps[i + 1] == crate::timelapse::ffmpeg::source_steps(a)[1]);
    assert(steps[i + 2] == crate::timelapse::ffmpeg::whole_step(a));
    assert(steps[i + 3] == crate::timelapse::ffmpeg::placing_step(a));
    assert(puts_together(steps, i, a.source_paths, src));
    let rate = a.curve[0].rate;
    let v = crate::timelapse::ffmpeg::whole_args(
        src,
        rate,
        a.encoder,
        a.software_input,
        a.cpu_pool_threads,
        tmp,
    );
    let d = crate::timelapse::ffmpeg::decoding_flags(a.encoder, a.software_input);
    let k = 5 + d.len() as int;
    let scaling = crate::timelapse::ffmpeg::scaling_for(a.encoder, a.software_input);
    lemma_quiet();
    assert(v[k] == "-i"@ && v[k + 1] == src);
    assert(v[k + 2] == "-filter_complex"@);
    assert(v[k + 3] == crate::timelapse::speed_curve::window_filter(scaling, rate));
    lemma_filter_rate(scaling, rate);
    assert(has_pair(v, "-i"@, src));
    assert(speeds_up(v, rate));
    lemma_whole_is_no_cut(a, v);
}

proof fn lemma_whole_is_no_cut(a: EncodeView, v: Seq<Seq<char>>)
    requires
        a.curve.len() == 1,
        v == crate::timelapse::ffmpeg::whole_args(
            crate::timelapse::ffmpeg::source_file(a),
            a.curve[0].rate,
            a.encoder,
            a.software_input,
            a.cpu_pool_threads,
            crate::timelapse::ffmpeg::unplaced(a),
        ),
    ensures
        !v.contains("-ss"@),
{
    lemma_quiet();
    lemma_files_end(a);
    reveal_strlit("-ss");
    reveal_strlit("-hwaccel");
    reveal_strlit("cuda");
    reveal_strlit("-hwaccel_output_format");
    reveal_strlit("-i");
    reveal_strlit("-filter_complex");
    reveal_strlit("-map");
    reveal_strlit("[out]");
    reveal_strlit("-an");
    reveal_strlit("-c:v");
    reveal_strlit("hevc_nvenc");
    reveal_strlit("-preset");
    reveal_strlit("p5");
    reveal_strlit("-cq");
    reveal_strlit("26");
    reveal_strlit("-tag:v");
    reveal_strlit("hvc1");
    reveal_strlit("libx265");
    reveal_strlit("-crf");
    reveal_strlit("medium");
    reveal_strlit("-x265-params");
    reveal_strlit("log-level=error");
    reveal_strlit(":pools=");
    let q = crate::timelapse::ffmpeg::quiet_flags();
    let d = crate::timelapse::ffmpeg::decoding_flags(a.encoder, a.software_input);
    let x = crate::timelapse::ffmpeg::encoder_flags(a.encoder, a.cpu_pool_threads);
    let scaling = crate::timelapse::ffmpeg::scaling_for(a.encoder, a.software_input);
    let w = crate::timelapse::speed_curve::window_filter(scaling, a.curve[0].rate);
    lemma_filter_rate(scaling, a.curve[0].rate);
    assert(w.last() == ']') by {
        reveal_strlit("[out]");
        let tail = "setpts=PTS/"@ + crate::text::decimal(a.curve[0].rate as nat) + "[out]"@;
        assert(w.subrange(w.len() - tail.len(), w.len() as int).last() == tail.last());
    }
    assert("-ss"@.last() == 's' && "-ss"@.len() == 3);
    if v.contains("-ss"@) {
        let k = choose|k: int| 0 <= k < v.len() && v[k] == "-ss"@;
        let n = 5 + d.len() as int;
        if k < 5 {
            assert(q[k] == "-ss"@);
        } else if k < n {
            assert(d[k - 5] == "-ss"@);
        } else if k < n + 7 {
            assert("-an"@.last() == 'n');
        } else if k < n + 7 + x.len() {
            assert(x[k - n - 7] == "-ss"@);
            let p = crate::timelapse::ffmpeg::x265_params(a.cpu_pool_threads);
            assert(p.len() >= 15);
            assert("-cq"@.last() == 'q');
        } else {
            assert(v[k] == crate::timelapse::ffmpeg::unplaced(a));
        }
    }
}

// ----------------------------------------------------------------------- texts

/// What a quoted path stands for: four characters for a quote, one for any other.
pub open spec fn unquoted(s: Seq<char>) -> Seq<char>
    decreases s.len(),
{
    if s.len() == 0 {
        s
    } else if s[0] == '\'' && s.len() >= 4 {
        seq!['\''] + unquoted(s.skip(4))
    } else {
        seq![s[0]] + unquoted(s.skip(1))
    }
}

proof fn lemma_quoted_push_front(c: char, p: Seq<char>)
    ensures
        crate::timelapse::ffmpeg::quoted(seq![c] + p) == (if c == '\'' {
            seq!['\'', '\\', '\'', '\'']
        } else {
            seq![c]
        }) + crate::timelapse::ffmpeg::quoted(p),
    decreases p.len(),
{
    reveal_strlit("'\\''");
    assert("'\\''"@ =~= seq!['\'', '\\', '\'', '\'']);
    let s = seq![c] + p;
    if p.len() == 0 {
        assert(s.drop_last() =~= Seq::<char>::empty());
        assert(crate::timelapse::ffmpeg::quoted(s.drop_last()) == Seq::<char>::empty());
        assert(crate::timelapse::ffmpeg::quoted(s) =~= (if c == '\'' {
            seq!['\'', '\\', '\'', '\'']
        } else {
            seq![c]
        }) + crate::timelapse::ffmpeg::quoted(p));
    } else {
        lemma_quoted_push_front(c, p.drop_last());
        assert(s.drop_last() =~= seq![c] + p.drop_last());
        assert(s.last() == p.last());
        assert(crate::timelapse::ffmpeg::quoted(s) =~= (if c == '\'' {
            seq!['\'', '\\', '\'', '\'']
        } else {
            seq![c]
        }) + crate::timelapse::ffmpeg::quoted(p));
    }
}

/// A quoted path stands for the path.
pub proof fn quoted_paths_read_back(p: Seq<char>)
    ensures
        unquoted(crate::timelapse::ffmpeg::quoted(p)) == p,
    decreases p.len(),
{
    if p.len() > 0 {
        let c = p[0];
        let rest = p.skip(1);
        quoted_paths_read_back(rest);
        assert(p =~= seq![c] + rest);
        lemma_quoted_push_front(c, rest);
        let q = crate::timelapse::ffmpeg::quoted(p);
        let r = crate::timelapse::ffmpeg::quoted(rest);
        if c == '\'' {
            assert(q.skip(4) =~= r);
        } else {
            assert(q.skip(1) =~= r);
        }
    }
}

/// The list names every file once, in order, each between quotes on a line of its
/// own.
pub proof fn lists_name_their_files(files: Seq<Seq<char>>, more: Seq<char>)
    ensures
        crate::timelapse::ffmpeg::concat_list(Seq::empty()) == Seq::<char>::empty(),
        crate::timelapse::ffmpeg::concat_list(files.push(more))
            == crate::timelapse::ffmpeg::concat_list(files) + seq!['f', 'i', 'l', 'e', ' ', '\'']
            + crate::timelapse::ffmpeg::quoted(more) + seq!['\'', '\n'],
{
    reveal_strlit("file '");
    reveal_strlit("'\n");
    assert("file '"@ =~= seq!['f', 'i', 'l', 'e', ' ', '\'']);
    assert("'\n"@ =~= seq!['\'', '\n']);
    assert(files.push(more).drop_last() == files);
}

proof fn lemma_zeros(s: Seq<char>, n: nat)
    requires
        crate::text::all_digits(s),
    ensures
        crate::text::all_digits(crate::text::zeros(n) + s),
        crate::text::digits_value(crate::text::zeros(n) + s) == crate::text::digits_value(s),
    decreases n + s.len(),
{
    let z = crate::text::zeros(n) + s;
    assert forall|i: int| 0 <= i < z.len() implies crate::text::is_digit(#[trigger] z[i]) by {
        if i >= n {
            assert(z[i] == s[i - n]);
        }
    }
    if s.len() > 0 {
        assert forall|i: int| 0 <= i < s.drop_last().len() implies crate::text::is_digit(
            #[trigger] s.drop_last()[i],
        ) by {
            assert(s.drop_last()[i] == s[i]);
        }
        lemma_zeros(s.drop_last(), n);
        assert(z.drop_last() =~= crate::text::zeros(n) + s.drop_last());
    } else if n > 0 {
        lemma_zeros(s, (n - 1) as nat);
        assert(z.drop_last() =~= crate::text::zeros((n - 1) as nat) + s);
        assert(z.last() == '0');
    }
}

proof fn lemma_small_decimal(n: nat)
    requires
        n < 1000,
    ensures
        crate::text::decimal(n).len() <= 3,
{
    reveal_with_fuel(crate::text::decimal, 4);
}

/// A time is spelled in seconds: whole ones before the point, thousandths in three
/// digits behind it. Together they give the milliseconds.
pub proof fn times_spell_their_milliseconds(ms: int)
    requires
        ms >= 0,
    ensures
        exists|whole: Seq<char>, part: Seq<char>|
            #[trigger] (whole + seq!['.'] + part) == seconds(ms) && crate::text::all_digits(whole)
                && whole.len() > 0 && crate::text::all_digits(part) && part.len() == 3
                && crate::text::digits_value(whole) * 1000 + crate::text::digits_value(part) == ms,
{
    let m = ms as nat;
    let whole = crate::text::decimal(m / 1000);
    let f = m % 1000;
    let part = crate::text::padded(f, 3);
    crate::text::decimal_spells_the_number(m / 1000);
    crate::text::decimal_spells_the_number(f);
    lemma_small_decimal(f);
    let d = crate::text::decimal(f);
    if d.len() < 3 {
        lemma_zeros(d, (3 - d.len()) as nat);
    }
    assert(whole + seq!['.'] + part =~= seconds(ms));
}

/// Times that differ are spelled differently.
pub proof fn times_are_told_apart(a: int, b: int)
    requires
        a >= 0,
        b >= 0,
        seconds(a) == seconds(b),
    ensures
        a == b,
{
    times_spell_their_milliseconds(a);
    times_spell_their_milliseconds(b);
    let (w, p) = choose|w: Seq<char>, p: Seq<char>|
        #[trigger] (w + seq!['.'] + p) == seconds(a) && crate::text::all_digits(w) && w.len() > 0
            && crate::text::all_digits(p) && p.len() == 3 && crate::text::digits_value(w) * 1000
            + crate::text::digits_value(p) == a;
    let (x, q) = choose|x: Seq<char>, q: Seq<char>|
        #[trigger] (x + seq!['.'] + q) == seconds(b) && crate::text::all_digits(x) && x.len() > 0
            && crate::text::all_digits(q) && q.len() == 3 && crate::text::digits_value(x) * 1000
            + crate::text::digits_value(q) == b;
    let s = seconds(a);
    assert(w =~= s.take(s.len() - 4));
    assert(x =~= s.take(s.len() - 4));
    assert(p =~= s.skip(s.len() - 3));
    assert(q =~= s.skip(s.len() - 3));
}

} // verus!
