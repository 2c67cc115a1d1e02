//! How fast each stretch of a trip is shown, and the filter that does it.

use serde_json::{Number, Value};
use tripviewer::timelapse::speed_curve::{
    build_curve, collapse_gaps, compose_filter, compose_filter_from_curve, compose_window_filter,
    envelope_of, holds_bare_list, open_envelope, restrict_curve_to_coverage, sanitize_for_encode,
    CurveEnvelope, CurveSegment, Run, MIN_WINDOW_OUTPUT_MS,
};
use tripviewer::timelapse::types::{EventWindow, Tier};

fn ms(seconds: f64) -> i64 {
    (seconds * 1000.0).round() as i64
}

fn w(start: f64, end: f64) -> EventWindow {
    EventWindow { start_ms: ms(start), end_ms: ms(end) }
}

fn seg(s: f64, e: f64, r: u32) -> CurveSegment {
    CurveSegment { concat_start: ms(s), concat_end: ms(e), rate: r }
}

fn runs(v: &[(f64, f64)]) -> Vec<Run> {
    v.iter().map(|r| Run { start: ms(r.0), end: ms(r.1) }).collect()
}

const CPU: &str = "scale";
const LBL: &str = "0:v";

fn serialize_curve(curve: &Vec<CurveSegment>) -> String {
    let e = envelope_of(curve);
    let segments = e.segments.iter().map(|s| {
        let mut m = serde_json::Map::new();
        let start = Number::from_f64(s.concat_start as f64 / 1000.0).unwrap();
        let end = Number::from_f64(s.concat_end as f64 / 1000.0).unwrap();
        m.insert("concatStart".to_string(), Value::Number(start));
        m.insert("concatEnd".to_string(), Value::Number(end));
        m.insert("rate".to_string(), Value::Number(Number::from(s.rate)));
        Value::Object(m)
    });
    let mut m = serde_json::Map::new();
    m.insert("segments".to_string(), Value::Array(segments.collect()));
    m.insert("version".to_string(), Value::Number(Number::from(e.version)));
    serde_json::to_string(&Value::Object(m)).unwrap()
}

fn read_segments(v: &Value) -> Option<Vec<CurveSegment>> {
    let mut out = Vec::new();
    for s in v.as_array()? {
        out.push(seg(
            s.get("concatStart")?.as_f64()?,
            s.get("concatEnd")?.as_f64()?,
            s.get("rate")?.as_u64()? as u32,
        ));
    }
    Some(out)
}

fn deserialize_curve(json: &str) -> Option<Vec<CurveSegment>> {
    let v: Value = serde_json::from_str(json).ok()?;
    if holds_bare_list(json) {
        return read_segments(&v);
    }
    open_envelope(CurveEnvelope {
        version: v.get("version")?.as_u64()? as u32,
        segments: read_segments(v.get("segments")?)?,
    })
}

// envelope round-trip

#[test]
fn serialize_curve_emits_versioned_envelope() {
    let curve = vec![seg(0.0, 60.0, 8)];
    let json = serialize_curve(&curve);
    assert!(
        json.contains("\"version\":1"),
        "expected version tag in output: {json}"
    );
    assert!(
        json.contains("\"segments\""),
        "expected segments key in output: {json}"
    );
}

#[test]
fn deserialize_curve_round_trips_via_envelope() {
    let curve = vec![
        seg(0.0, 25.0, 16),
        seg(25.0, 40.0, 1),
        seg(40.0, 60.0, 16),
    ];
    let json = serialize_curve(&curve);
    let back = deserialize_curve(&json).expect("envelope should parse");
    assert_eq!(back, curve);
}

#[test]
fn deserialize_curve_accepts_legacy_bare_array() {
    // Pre-versioning shape - what existing rows in the wild look
    // like. Must continue to play back without re-encoding.
    let legacy = "[{\"concatStart\":0.0,\"concatEnd\":300.0,\"rate\":8}]";
    let parsed = deserialize_curve(legacy).expect("legacy should parse");
    assert_eq!(parsed.len(), 1);
    assert_eq!(parsed[0].rate, 8);
    assert_eq!(parsed[0].concat_end, ms(300.0));
}

#[test]
fn deserialize_curve_rejects_unknown_future_version() {
    let json = "{\"version\":99,\"segments\":[]}";
    assert!(
        deserialize_curve(json).is_none(),
        "unknown version should be rejected so caller falls back"
    );
}

#[test]
fn deserialize_curve_rejects_garbage() {
    assert!(deserialize_curve("not json").is_none());
    assert!(deserialize_curve("").is_none());
    assert!(deserialize_curve("{\"version\":1}").is_none()); // missing segments
}

// build_curve

#[test]
fn build_curve_fixed_tier_is_one_segment() {
    let c = build_curve(&vec![], Tier::Tier8x, ms(300.0));
    assert_eq!(
        c,
        vec![seg(0.0, 300.0, 8)]
    );
}

#[test]
fn build_curve_variable_tier_without_windows_is_one_segment() {
    let c = build_curve(&vec![], Tier::Tier16x, ms(300.0));
    assert_eq!(c.len(), 1);
    assert_eq!(c[0].rate, 16);
}

#[test]
fn build_curve_variable_tier_with_middle_window_has_three_segments() {
    // Plan example: 60 s trip, 16x tier, event at [25, 40].
    let c = build_curve(&vec![w(25.0, 40.0)], Tier::Tier16x, ms(60.0));
    assert_eq!(
        c,
        vec![
            seg(0.0, 25.0, 16),
            seg(25.0, 40.0, 1),
            seg(40.0, 60.0, 16),
        ]
    );
}

#[test]
fn build_curve_variable_tier_clamps_overshoot_windows() {
    let c = build_curve(&vec![w(-5.0, 10.0), w(90.0, 200.0)], Tier::Tier16x, ms(100.0));
    // Two event segments plus the 10-90 gap at base rate.
    assert_eq!(
        c,
        vec![
            seg(0.0, 10.0, 1),
            seg(10.0, 90.0, 16),
            seg(90.0, 100.0, 1),
        ]
    );
}

#[test]
fn build_curve_zero_duration_returns_well_formed_curve() {
    let c = build_curve(&vec![w(0.0, 5.0)], Tier::Tier16x, ms(0.0));
    assert_eq!(c.len(), 1);
    assert_eq!(c[0].concat_start, 0);
    assert_eq!(c[0].concat_end, 0);
}

// restrict_curve_to_coverage

// Trip curve used across the coverage tests: 16x with a 1x event at
// [60,75], like the player examples.
fn trip() -> Vec<CurveSegment> {
    vec![seg(0.0, 60.0, 16), seg(60.0, 75.0, 1), seg(75.0, 300.0, 16)]
}

#[test]
fn restrict_full_coverage_reproduces_trip_curve() {
    let got = restrict_curve_to_coverage(&trip(), &runs(&[(0.0, 300.0)]));
    assert_eq!(got, trip());
}

#[test]
fn restrict_middle_gap_drops_event_inside_gap() {
    // Camera off over [30,90] - the [60,75] event is entirely inside
    // the gap, so it must not appear in the channel's curve.
    let got = restrict_curve_to_coverage(&trip(), &runs(&[(0.0, 30.0), (90.0, 300.0)]));
    assert_eq!(got, vec![seg(0.0, 30.0, 16), seg(90.0, 300.0, 16)]);
}

#[test]
fn restrict_leading_gap() {
    let got = restrict_curve_to_coverage(&trip(), &runs(&[(90.0, 300.0)]));
    assert_eq!(got, vec![seg(90.0, 300.0, 16)]);
}

#[test]
fn restrict_keeps_partial_event_overlap() {
    // Coverage ends mid-event: keep the base run and the clipped event.
    let got = restrict_curve_to_coverage(&trip(), &runs(&[(0.0, 70.0)]));
    assert_eq!(got, vec![seg(0.0, 60.0, 16), seg(60.0, 70.0, 1)]);
}

#[test]
fn sanitize_clamps_rate_of_short_high_speed_fragment() {
    // The May 18 rear failure: an isolated 0.4s covered run at 16x ->
    // 0.025s output -> NVENC won't open. Clamp to 0.4/0.1 = 4x.
    let got = sanitize_for_encode(&vec![seg(100.0, 100.4, 16)], ms(0.1));
    assert_eq!(got, vec![seg(100.0, 100.4, 4)]);
    // At 60x the same fragment also clamps to 4x.
    let got60 = sanitize_for_encode(&vec![seg(100.0, 100.4, 60)], ms(0.1));
    assert_eq!(got60, vec![seg(100.0, 100.4, 4)]);
}

#[test]
fn sanitize_leaves_long_segments_untouched() {
    // 6s @ 60x = exactly 0.1s output -> at the floor, not below -> kept.
    assert_eq!(
        sanitize_for_encode(&vec![seg(0.0, 6.0, 60)], ms(0.1)),
        vec![seg(0.0, 6.0, 60)]
    );
    // A normal long base run is well above the floor.
    assert_eq!(
        sanitize_for_encode(&vec![seg(0.0, 300.0, 16)], ms(0.1)),
        vec![seg(0.0, 300.0, 16)]
    );
}

#[test]
fn sanitize_absorbs_subfloor_sliver_into_previous_contiguous_segment() {
    // A 0.02s base sliver between two segments (e.g. event-boundary
    // clipping) is absorbed into the previous segment, not encoded.
    let got = sanitize_for_encode(&vec![seg(0.0, 60.0, 16), seg(60.0, 60.02, 16), seg(60.02, 75.0, 1)], ms(0.1));
    assert_eq!(got, vec![seg(0.0, 60.02, 16), seg(60.02, 75.0, 1)]);
}

#[test]
fn sanitize_does_not_merge_across_a_gap() {
    // A sub-floor isolated run after a gap has no contiguous prev, so
    // it's left at rate 1 (best effort) rather than merged across the gap.
    let got = sanitize_for_encode(&vec![seg(0.0, 30.0, 16), seg(90.0, 90.05, 16)], ms(0.1));
    assert_eq!(got, vec![seg(0.0, 30.0, 16), seg(90.0, 90.05, 1)]);
}

#[test]
fn collapse_gaps_makes_curve_contiguous_preserving_spans_and_rates() {
    let gappy = vec![seg(0.0, 30.0, 16), seg(90.0, 300.0, 16)];
    let got = collapse_gaps(&gappy);
    // [0,30] stays; [90,300] (span 210) shifts to [30,240].
    assert_eq!(got, vec![seg(0.0, 30.0, 16), seg(30.0, 240.0, 16)]);
}

#[test]
fn collapse_gaps_is_noop_for_contiguous_curve() {
    assert_eq!(collapse_gaps(&trip()), trip());
}

#[test]
fn restrict_then_collapse_full_coverage_is_identity() {
    // Full-coverage channels must encode and persist exactly as today.
    let persist = restrict_curve_to_coverage(&trip(), &runs(&[(0.0, 300.0)]));
    let source = collapse_gaps(&persist);
    assert_eq!(persist, trip());
    assert_eq!(source, trip());
}

#[test]
fn restrict_empty_coverage_is_empty() {
    assert!(restrict_curve_to_coverage(&trip(), &runs(&[])).is_empty());
    // Degenerate zero-width ranges contribute nothing.
    assert!(restrict_curve_to_coverage(&trip(), &runs(&[(50.0, 50.0)])).is_empty());
}

#[test]
fn restrict_output_is_sorted_and_within_coverage() {
    let got = restrict_curve_to_coverage(&trip(), &runs(&[(0.0, 30.0), (90.0, 300.0)]));
    for w in got.windows(2) {
        assert!(w[0].concat_start <= w[1].concat_start);
    }
    // Nothing leaks into the [30,90] gap.
    assert!(got.iter().all(|s| s.concat_end <= ms(30.0) || s.concat_start >= ms(90.0)));
}

// compose_filter
// Head shape is `[0:v]format=yuv420p,scale=1920:-2,...` for CPU
// and `[0:v]scale_cuda=1920:-2:format=yuv420p,...` for CUDA. This
// normalization is the load-bearing fix for the filter-reinit
// error on heterogeneous source files (different resolution /
// pix_fmt across segments, or real-file vs black-placeholder).

#[test]
fn fixed_tier_is_single_pass() {
    let got = compose_filter(&vec![], Tier::Tier8x, ms(300.0), CPU, LBL);
    assert_eq!(got, "[0:v]format=yuv420p,scale=1920:-2,setpts=PTS/8[out]");
}

#[test]
fn fixed_tier_ignores_windows() {
    // 8x has base == event, so even with windows we should get
    // the single-pass form.
    let got = compose_filter(&vec![w(10.0, 20.0)], Tier::Tier8x, ms(300.0), CPU, LBL);
    assert_eq!(got, "[0:v]format=yuv420p,scale=1920:-2,setpts=PTS/8[out]");
}

#[test]
fn variable_tier_with_no_windows_is_single_pass() {
    let got = compose_filter(&vec![], Tier::Tier16x, ms(300.0), CPU, LBL);
    assert_eq!(got, "[0:v]format=yuv420p,scale=1920:-2,setpts=PTS/16[out]");
}

#[test]
fn variable_tier_with_one_middle_window_has_three_segments() {
    let got = compose_filter(&vec![w(60.0, 80.0)], Tier::Tier16x, ms(300.0), CPU, LBL);
    // Three parts: [0-60 @ 16x], [60-80 @ 1x], [80-300 @ 16x]
    assert!(
        got.contains("trim=0.000:60.000"),
        "leading segment missing: {got}"
    );
    assert!(
        got.contains("trim=60.000:80.000"),
        "event segment missing: {got}"
    );
    assert!(
        got.contains("trim=80.000:300.000"),
        "trailing segment missing: {got}"
    );
    // Each per-segment chain now ends with `setpts=PTS/r[s{i}];`,
    // so look for the [s{i}] terminator to assert the rate.
    assert!(got.contains("PTS/16[s0]"), "base rate PTS/16 missing on s0: {got}");
    assert!(got.contains("PTS/1[s1]"), "event rate PTS/1 missing on s1: {got}");
    assert!(got.contains("PTS/16[s2]"), "base rate PTS/16 missing on s2: {got}");
    assert!(got.contains("concat=n=3:v=1[out]"));
}

#[test]
fn variable_tier_window_at_start_skips_leading() {
    let got = compose_filter(&vec![w(0.0, 10.0)], Tier::Tier60x, ms(120.0), CPU, LBL);
    // Two parts: [0-10 @ 8x], [10-120 @ 60x]
    assert!(got.contains("concat=n=2:v=1[out]"));
    assert!(got.contains("trim=0.000:10.000"));
    assert!(got.contains("trim=10.000:120.000"));
    assert!(got.contains("PTS/8[s0]"));
    assert!(got.contains("PTS/60[s1]"));
}

#[test]
fn variable_tier_window_at_end_skips_trailing() {
    let got = compose_filter(&vec![w(100.0, 120.0)], Tier::Tier16x, ms(120.0), CPU, LBL);
    assert!(got.contains("concat=n=2:v=1[out]"));
    assert!(got.contains("trim=0.000:100.000"));
    assert!(got.contains("trim=100.000:120.000"));
}

#[test]
fn variable_tier_multiple_windows() {
    let got = compose_filter(&vec![w(10.0, 20.0), w(50.0, 60.0)], Tier::Tier16x, ms(100.0), CPU, LBL);
    // Five parts: base, event, base, event, base
    assert!(got.contains("concat=n=5:v=1[out]"));
}

#[test]
fn variable_tier_clamps_window_end_at_duration() {
    let got = compose_filter(&vec![w(80.0, 200.0)], Tier::Tier16x, ms(100.0), CPU, LBL);
    // Window clamped to [80, 100]; trailing base segment should NOT exist.
    assert!(got.contains("concat=n=2:v=1[out]"));
    assert!(got.contains("trim=80.000:100.000"));
    assert!(
        !got.contains("trim=100.000"),
        "trailing segment should be absent: {got}"
    );
}

#[test]
fn variable_tier_drops_zero_width_window() {
    let got = compose_filter(&vec![w(50.0, 50.0)], Tier::Tier16x, ms(100.0), CPU, LBL);
    // Degenerate window - filter should reduce to single-pass.
    assert_eq!(got, "[0:v]format=yuv420p,scale=1920:-2,setpts=PTS/16[out]");
}

#[test]
fn variable_tier_window_covering_whole_trip() {
    let got = compose_filter(&vec![w(0.0, 100.0)], Tier::Tier16x, ms(100.0), CPU, LBL);
    // Single-segment curve (event covers the whole trip) collapses
    // to the simple passthrough form - no concat filter needed.
    assert_eq!(got, "[0:v]format=yuv420p,scale=1920:-2,setpts=PTS/1[out]");
}

#[test]
fn filter_body_is_identical_across_invocations() {
    // Sanity: the function is pure in its inputs. Two calls with
    // identical args must produce byte-identical strings. This is
    // what guarantees front/interior/rear stay synced when we run
    // the same filter against each channel.
    let a = compose_filter(&vec![w(10.0, 20.0)], Tier::Tier16x, ms(60.0), CPU, LBL);
    let b = compose_filter(&vec![w(10.0, 20.0)], Tier::Tier16x, ms(60.0), CPU, LBL);
    assert_eq!(a, b);
}

#[test]
fn zero_duration_is_tolerated() {
    let got = compose_filter(&vec![w(0.0, 10.0)], Tier::Tier16x, ms(0.0), CPU, LBL);
    // Falls back to single-pass base rate.
    assert_eq!(got, "[0:v]format=yuv420p,scale=1920:-2,setpts=PTS/16[out]");
}

#[test]
fn cuda_scale_filter_uses_inline_format_option() {
    // Fixed tier: scale_cuda appears once with format=yuv420p as
    // a parameter. No CPU `scale=` and no separate `format=`
    // filter - frames stay on the GPU end-to-end.
    let got = compose_filter(&vec![], Tier::Tier8x, ms(300.0), "scale_cuda", LBL);
    assert_eq!(
        got,
        "[0:v]scale_cuda=1920:-2:format=yuv420p,setpts=PTS/8[out]"
    );

    // Variable tier: still ONE scale_cuda at the head. The whole
    // point of the new filter shape is that resize + format
    // happens once before split, not per per-segment trim chain.
    let got = compose_filter(&vec![w(10.0, 20.0), w(50.0, 60.0)], Tier::Tier16x, ms(100.0), "scale_cuda", LBL);
    let cuda_count = got.matches("scale_cuda=1920:-2:format=yuv420p").count();
    assert_eq!(cuda_count, 1, "expected exactly one head scale_cuda: {got}");
    assert!(!got.contains(",scale="), "CPU scale leaked into CUDA path: {got}");
    // Sanity-check the structural shape:
    assert!(got.starts_with("[0:v]scale_cuda=1920:-2:format=yuv420p,split=5"));
    assert!(got.contains("concat=n=5:v=1[out]"));
}

#[test]
fn input_label_is_substituted_into_head() {
    // Caller passes "vcat" (the output of an upstream concat
    // filter) - the head reads from that pad, not the default
    // [0:v]. Tests both fixed and variable curve shapes.
    let fixed = compose_filter(&vec![], Tier::Tier8x, ms(300.0), CPU, "vcat");
    assert_eq!(fixed, "[vcat]format=yuv420p,scale=1920:-2,setpts=PTS/8[out]");

    let var = compose_filter(&vec![w(60.0, 80.0)], Tier::Tier16x, ms(300.0), CPU, "vcat");
    assert!(
        var.starts_with("[vcat]format=yuv420p,scale=1920:-2,split=3[v0][v1][v2];"),
        "head shape wrong: {var}"
    );
}

#[test]
fn window_filter_cpu_shape() {
    let got = compose_window_filter("scale", 16);
    assert_eq!(got, "[0:v]format=yuv420p,scale=1920:-2,setpts=PTS/16[out]");
}

#[test]
fn window_filter_cuda_shape() {
    let got = compose_window_filter("scale_cuda", 8);
    assert_eq!(
        got,
        "[0:v]scale_cuda=1920:-2:format=yuv420p,setpts=PTS/8[out]"
    );
}

#[test]
fn window_filter_has_no_split_or_concat() {
    // Memory regression test: the whole reason this filter exists
    // is to avoid the split=N -> trim -> concat=N graph that was
    // pinning 12-36 GB per ffmpeg on variable-tier jobs. Make sure
    // those structures don't sneak back in.
    let got = compose_window_filter("scale_cuda", 60);
    assert!(!got.contains("split="));
    assert!(!got.contains("concat="));
    assert!(!got.contains("trim="));
}

#[test]
fn multi_segment_normalizes_then_splits() {
    let got = compose_filter(&vec![w(60.0, 80.0)], Tier::Tier16x, ms(300.0), CPU, LBL);
    // Three-segment curve -> split=3 then three trim chains.
    assert!(
        got.starts_with("[0:v]format=yuv420p,scale=1920:-2,split=3[v0][v1][v2];"),
        "head shape wrong: {got}"
    );
    assert!(got.contains("[v0]trim=0.000:60.000,setpts=PTS-STARTPTS,setpts=PTS/16[s0];"));
    assert!(got.contains("[v1]trim=60.000:80.000,setpts=PTS-STARTPTS,setpts=PTS/1[s1];"));
    assert!(got.contains("[v2]trim=80.000:300.000,setpts=PTS-STARTPTS,setpts=PTS/16[s2];"));
    assert!(got.ends_with("[s0][s1][s2]concat=n=3:v=1[out]"));
    // Per-segment scale should NOT appear - normalization is
    // upstream of trim.
    assert_eq!(got.matches(",scale=").count(), 1, "scale should appear exactly once at head: {got}");
}

// More edges

#[test]
fn encodes_of_whole_channels_use_the_curve_of_the_trip() {
    let curve = build_curve(&vec![w(60.0, 80.0)], Tier::Tier16x, ms(300.0));
    let whole = restrict_curve_to_coverage(&curve, &runs(&[(0.0, 300.0)]));
    let got = compose_filter_from_curve(&collapse_gaps(&whole), CPU, LBL);
    assert_eq!(got, compose_filter(&vec![w(60.0, 80.0)], Tier::Tier16x, ms(300.0), CPU, LBL));
}

#[test]
fn short_stretches_reach_the_shortest_output() {
    let got = sanitize_for_encode(&vec![seg(0.0, 3.0, 60)], MIN_WINDOW_OUTPUT_MS);
    assert_eq!(got.len(), 1);
    let span = got[0].concat_end - got[0].concat_start;
    assert!(span >= MIN_WINDOW_OUTPUT_MS * got[0].rate as i64);
}

#[test]
fn collapsing_keeps_pieces_without_a_width_and_is_done_once() {
    let gappy = vec![seg(5.0, 5.0, 4), seg(10.0, 12.0, 16), seg(20.0, 20.0, 1), seg(30.0, 31.0, 8)];
    let closed = collapse_gaps(&gappy);
    let want = vec![seg(0.0, 0.0, 4), seg(0.0, 2.0, 16), seg(2.0, 2.0, 1), seg(2.0, 3.0, 8)];
    assert_eq!(closed, want);
    assert_eq!(collapse_gaps(&closed), closed);
}

#[test]
fn sanitized_stretches_start_at_pieces_and_are_not_faster() {
    let curve = vec![seg(0.0, 1.0, 16), seg(1.0, 1.05, 8), seg(1.05, 9.0, 16)];
    let got = sanitize_for_encode(&curve, 100);
    for s in &got {
        assert!(curve.iter().any(|c| c.concat_start == s.concat_start && s.rate <= c.rate));
    }
    assert_eq!(got, vec![seg(0.0, 1.05, 10), seg(1.05, 9.0, 16)]);
}

#[test]
fn windows_without_a_length_count_for_nothing() {
    let c = build_curve(&vec![w(5.0, 5.0), w(25.0, 40.0), w(30.0, 30.0)], Tier::Tier16x, ms(60.0));
    assert_eq!(c, build_curve(&vec![w(25.0, 40.0)], Tier::Tier16x, ms(60.0)));
    assert_eq!(c, vec![seg(0.0, 25.0, 16), seg(25.0, 40.0, 1), seg(40.0, 60.0, 16)]);
}
