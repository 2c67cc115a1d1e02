//! Speed curves: at which rate each stretch of a trip is shown.
//!
//! Times are in milliseconds.

use crate::sort::sort_stable;
use crate::text::{push_decimal, push_padded, same_str};
use crate::timelapse::types::{saturating_difference, saturating_sum, EventWindow, Tier};
use vstd::prelude::*;
use vstd::string::StringExecFns;

verus! {

/// The width of the encoded picture.
pub const OUT_WIDTH: u32 = 1920;

/// The version of the curve format.
pub const CURRENT_CURVE_VERSION: u32 = 1;

/// The shortest stretch of output that an encoder takes.
pub const MIN_WINDOW_OUTPUT_MS: i64 = 100;

/// A stretch of footage and the rate at which it is shown.
#[derive(Debug, Clone, Copy, PartialEq, Eq, Structural)]
pub struct CurveSegment {
    pub concat_start: i64,
    pub concat_end: i64,
    pub rate: u32,
}

impl CurveSegment {
    /// The length of the stretch.
    pub open spec fn span(self) -> int {
        self.concat_end - self.concat_start
    }

    /// The time lies in the stretch.
    pub open spec fn covers(self, t: int) -> bool {
        self.concat_start <= t < self.concat_end
    }
}

// ------------------------------------------------------------ stored curves

/// A stored curve: the version of its format, and its segments.
#[derive(Debug)]
pub struct CurveEnvelope {
    pub version: u32,
    pub segments: Vec<CurveSegment>,
}

/// The text holds a bare list of segments, as it was stored before there were
/// versions.
pub open spec fn is_bare_list(json: Seq<char>) -> bool {
    crate::text::trim_start(json).len() > 0 && crate::text::trim_start(json)[0] == '['
}

/// Whether the text holds a bare list of segments.
pub fn holds_bare_list(json: &str) -> (r: bool)
    ensures
        r == is_bare_list(json@),
{
    let v = crate::text::chars_of(json);
    let t = crate::text::trimmed_start(v.as_slice());
    t.len() > 0 && t[0] == '['
}

/// A curve as it is stored.
pub fn envelope_of(segments: &Vec<CurveSegment>) -> (r: CurveEnvelope)
    ensures
        r.version == CURRENT_CURVE_VERSION,
        r.segments@ == segments@,
{
    CurveEnvelope { version: CURRENT_CURVE_VERSION, segments: copy_curve(segments) }
}

/// The curve in an envelope. One of another version is not understood.
pub fn open_envelope(envelope: CurveEnvelope) -> (r: Option<Vec<CurveSegment>>)
    ensures
        match r {
            Some(c) => envelope.version == CURRENT_CURVE_VERSION && c == envelope.segments,
            None => envelope.version != CURRENT_CURVE_VERSION,
        },
{
    if envelope.version != CURRENT_CURVE_VERSION {
        return None;
    }
    Some(envelope.segments)
}

/// A copy of a curve.
pub fn copy_curve(c: &Vec<CurveSegment>) -> (r: Vec<CurveSegment>)
    ensures
        r@ == c@,
{
    let mut r: Vec<CurveSegment> = Vec::new();
    let mut i: usize = 0;
    while i < c.len()
        invariant
            i <= c.len(),
            r@ == c@.take(i as int),
        decreases c.len() - i,
    {
        r.push(c[i]);
        i += 1;
        proof {
            assert(c@.take(i as int) == c@.take(i - 1).push(c@[i - 1]));
        }
    }
    proof {
        assert(c@.take(c@.len() as int) == c@);
    }
    r
}

// ------------------------------------------------------------------- curves

/// The part of a window that lies within the trip.
pub open spec fn clip(w: EventWindow, total: i64) -> Option<EventWindow> {
    let start: i64 = if w.start_ms > 0 {
        w.start_ms
    } else {
        0
    };
    let end: i64 = if w.end_ms < total {
        w.end_ms
    } else {
        total
    };
    if end <= start {
        None
    } else {
        Some(EventWindow { start_ms: start, end_ms: end })
    }
}

/// The parts of the windows that lie within the trip.
pub open spec fn clipped(windows: Seq<EventWindow>, total: i64) -> Seq<EventWindow> {
    windows.filter_map(|w: EventWindow| clip(w, total))
}

/// Where the last window ends; the start of the trip where there is none.
pub open spec fn reached(ws: Seq<EventWindow>) -> i64 {
    if ws.len() == 0 {
        0
    } else {
        ws.last().end_ms
    }
}

/// The curve up to the end of the last window: each window at the event rate,
/// what lies before it at the base rate.
pub open spec fn pieces(ws: Seq<EventWindow>, base: u32, event: u32) -> Seq<CurveSegment>
    decreases ws.len(),
{
    if ws.len() == 0 {
        Seq::empty()
    } else {
        let w = ws.last();
        let cursor = reached(ws.drop_last());
        let before = pieces(ws.drop_last(), base, event);
        let lead = if w.start_ms > cursor {
            before.push(
                CurveSegment { concat_start: cursor, concat_end: w.start_ms, rate: base },
            )
        } else {
            before
        };
        lead.push(CurveSegment { concat_start: w.start_ms, concat_end: w.end_ms, rate: event })
    }
}

/// The speed curve of a trip: events at the event rate, the rest at the base
/// rate.
pub open spec fn curve_of(windows: Seq<EventWindow>, tier: Tier, total: i64) -> Seq<CurveSegment> {
    if total <= 0 {
        seq![CurveSegment { concat_start: 0, concat_end: 0, rate: tier.base() }]
    } else {
        let ws = if tier.base() != tier.event() {
            clipped(windows, total)
        } else {
            Seq::empty()
        };
        let head = pieces(ws, tier.base(), tier.event());
        if reached(ws) < total {
            head.push(
                CurveSegment { concat_start: reached(ws), concat_end: total, rate: tier.base() },
            )
        } else {
            head
        }
    }
}

/// The speed curve of a trip.
pub fn build_curve(windows: &Vec<EventWindow>, tier: Tier, total_duration_ms: i64) -> (r: Vec<
    CurveSegment,
>)
    ensures
        r@ == curve_of(windows@, tier, total_duration_ms),
{
    let mut out: Vec<CurveSegment> = Vec::new();
    if total_duration_ms <= 0 {
        out.push(CurveSegment { concat_start: 0, concat_end: 0, rate: tier.base_rate() });
        return out;
    }
    let base: u32 = tier.base_rate();
    let event: u32 = tier.event_rate();
    let mut cursor: i64 = 0;
    let ghost mut ws: Seq<EventWindow> = Seq::empty();
    if tier.is_variable() {
        let ghost f = |w: EventWindow| clip(w, total_duration_ms);
        let mut i: usize = 0;
        proof {
            reveal(Seq::filter_map);
            assert(windows@.take(0).filter_map(f) == Seq::<EventWindow>::empty());
        }
        while i < windows.len()
            invariant
                i <= windows.len(),
                f == (|w: EventWindow| clip(w, total_duration_ms)),
                base == tier.base(),
                event == tier.event(),
                ws == windows@.take(i as int).filter_map(f),
                cursor == reached(ws),
                out@ == pieces(ws, base, event),
            decreases windows.len() - i,
        {
            let w = windows[i];
            let start: i64 = if w.start_ms > 0 {
                w.start_ms
            } else {
                0
            };
            let end: i64 = if w.end_ms < total_duration_ms {
                w.end_ms
            } else {
                total_duration_ms
            };
            proof {
                reveal(Seq::filter_map);
                assert(windows@.take(i + 1).drop_last() == windows@.take(i as int));
                assert(windows@.take(i + 1).last() == w);
            }
            if end > start {
                if start > cursor {
                    out.push(
                        CurveSegment { concat_start: cursor, concat_end: start, rate: base },
                    );
                }
                out.push(CurveSegment { concat_start: start, concat_end: end, rate: event });
                cursor = end;
                proof {
                    let x = EventWindow { start_ms: start, end_ms: end };
                    assert(ws.push(x).drop_last() == ws);
                    ws = ws.push(x);
                }
            }
            i += 1;
        }
        proof {
            assert(windows@.take(windows@.len() as int) == windows@);
        }
    }
    if cursor < total_duration_ms {
        out.push(
            CurveSegment { concat_start: cursor, concat_end: total_duration_ms, rate: base },
        );
    }
    out
}

/// The window has a length.
pub open spec fn has_length(w: EventWindow) -> bool {
    w.start_ms < w.end_ms
}

/// Those of the windows that have a length come one after the other.
pub open spec fn are_in_order(ws: Seq<EventWindow>) -> bool {
    forall|i: int, j: int|
        0 <= i < j < ws.len() && has_length(#[trigger] ws[i]) && has_length(#[trigger] ws[j])
            ==> ws[i].end_ms <= ws[j].start_ms
}

/// The segments follow each other without a gap from `a` to `b`, and each has a
/// length.
pub open spec fn tiles(c: Seq<CurveSegment>, a: int, b: int) -> bool
    decreases c.len(),
{
    if c.len() == 0 {
        a == b
    } else {
        c.last().concat_end == b && c.last().concat_start < b && tiles(
            c.drop_last(),
            a,
            c.last().concat_start as int,
        )
    }
}

/// The rate that a curve gives to a time.
pub open spec fn shows_at(c: Seq<CurveSegment>, t: int, rate: u32) -> bool {
    exists|i: int| 0 <= i < c.len() && (#[trigger] c[i]).covers(t) && c[i].rate == rate
}

/// The time lies in one of the windows.
pub open spec fn in_event(ws: Seq<EventWindow>, t: int) -> bool {
    exists|i: int| 0 <= i < ws.len() && (#[trigger] ws[i]).start_ms <= t < ws[i].end_ms
}

/// The rate that is right for a time.
pub open spec fn rate_for(ws: Seq<EventWindow>, t: int, base: u32, event: u32) -> u32 {
    if in_event(ws, t) {
        event
    } else {
        base
    }
}

/// The parts of windows that end by a time end by it too.
proof fn lemma_clipped_by(windows: Seq<EventWindow>, total: i64, by: i64)
    requires
        forall|k: int|
            0 <= k < windows.len() && has_length(#[trigger] windows[k]) ==> windows[k].end_ms <= by,
    ensures
        forall|i: int|
            0 <= i < clipped(windows, total).len() ==> (#[trigger] clipped(
                windows,
                total,
            )[i]).end_ms <= by,
    decreases windows.len(),
{
    reveal(Seq::filter_map);
    if windows.len() > 0 {
        let u = windows.drop_last();
        let w = windows.last();
        assert forall|k: int| 0 <= k < u.len() && has_length(#[trigger] u[k]) implies u[k].end_ms
            <= by by {
            assert(has_length(windows[k]));
        }
        lemma_clipped_by(u, total, by);
        let d = clipped(u, total);
        assert(clipped(windows, total) == match clip(w, total) {
            Some(x) => d.push(x),
            None => d,
        });
        if clip(w, total) is Some {
            assert(has_length(windows[windows.len() - 1]));
        }
    }
}

proof fn lemma_clipped_in_order(windows: Seq<EventWindow>, total: i64)
    requires
        are_in_order(windows),
    ensures
        are_in_order(clipped(windows, total)),
        forall|i: int|
            0 <= i < clipped(windows, total).len() ==> 0 <= (#[trigger] clipped(
                windows,
                total,
            )[i]).start_ms < clipped(windows, total)[i].end_ms <= total,
        forall|t: int|
            0 <= t < total ==> (in_event(clipped(windows, total), t) <==> #[trigger] in_event(
                windows,
                t,
            )),
    decreases windows.len(),
{
    reveal(Seq::filter_map);
    let f = |w: EventWindow| clip(w, total);
    let c = clipped(windows, total);
    if windows.len() > 0 {
        let u = windows.drop_last();
        let w = windows.last();
        assert forall|i: int, j: int|
            0 <= i < j < u.len() && has_length(#[trigger] u[i]) && has_length(
                #[trigger] u[j],
            ) implies u[i].end_ms <= u[j].start_ms by {
            assert(has_length(windows[i]) && has_length(windows[j]));
        }
        lemma_clipped_in_order(u, total);
        let d = clipped(u, total);
        assert(c == match clip(w, total) {
            Some(x) => d.push(x),
            None => d,
        });
        if clip(w, total) is Some {
            assert(has_length(w));
            assert forall|k: int| 0 <= k < u.len() && has_length(#[trigger] u[k]) implies
                u[k].end_ms <= w.start_ms by {
                assert(has_length(windows[k]) && has_length(windows[windows.len() - 1]));
            }
            lemma_clipped_by(u, total, w.start_ms);
        }
        assert forall|i: int, j: int|
            0 <= i < j < c.len() && has_length(#[trigger] c[i]) && has_length(
                #[trigger] c[j],
            ) implies c[i].end_ms <= c[j].start_ms by {
            if j < d.len() {
                assert(has_length(d[i]) && has_length(d[j]));
            } else {
                assert(d[i].end_ms <= w.start_ms);
            }
        }
        assert forall|t: int| 0 <= t < total implies (in_event(c, t) <==> #[trigger] in_event(
            windows,
            t,
        )) by {
            if in_event(c, t) {
                let i = choose|i: int|
                    0 <= i < c.len() && (#[trigger] c[i]).start_ms <= t < c[i].end_ms;
                if i < d.len() {
                    assert(d[i].start_ms <= t < d[i].end_ms);
                    assert(in_event(d, t));
                    assert(in_event(u, t));
                    let k = choose|k: int|
                        0 <= k < u.len() && (#[trigger] u[k]).start_ms <= t < u[k].end_ms;
                    assert(windows[k] == u[k]);
                } else {
                    assert(windows[windows.len() - 1] == w);
                }
            }
            if in_event(windows, t) {
                let k = choose|k: int|
                    0 <= k < windows.len() && (#[trigger] windows[k]).start_ms <= t
                        < windows[k].end_ms;
                if k < u.len() {
                    assert(u[k] == windows[k]);
                    assert(in_event(u, t));
                    assert(in_event(d, t));
                    let i = choose|i: int|
                        0 <= i < d.len() && (#[trigger] d[i]).start_ms <= t < d[i].end_ms;
                    assert(c[i] == d[i]);
                } else {
                    assert(c[d.len() as int].start_ms <= t < c[d.len() as int].end_ms);
                }
            }
        }
    }
}

proof fn lemma_pieces_tile(ws: Seq<EventWindow>, base: u32, event: u32)
    requires
        are_in_order(ws),
        forall|i: int|
            0 <= i < ws.len() ==> 0 <= (#[trigger] ws[i]).start_ms < ws[i].end_ms,
    ensures
        tiles(pieces(ws, base, event), 0, reached(ws) as int),
        forall|t: int|
            0 <= t < reached(ws) ==> shows_at(
                pieces(ws, base, event),
                t,
                #[trigger] rate_for(ws, t, base, event),
            ),
        0 <= reached(ws),
    decreases ws.len(),
{
    let c = pieces(ws, base, event);
    if ws.len() > 0 {
        let u = ws.drop_last();
        let w = ws.last();
        assert forall|i: int, j: int|
            0 <= i < j < u.len() && has_length(#[trigger] u[i]) && has_length(
                #[trigger] u[j],
            ) implies u[i].end_ms <= u[j].start_ms by {
            assert(has_length(ws[i]) && has_length(ws[j]));
        }
        lemma_pieces_tile(u, base, event);
        let before = pieces(u, base, event);
        let cursor = reached(u);
        let n = ws.len() - 1;
        assert(ws[n] == w);
        assert(ws[n].start_ms < ws[n].end_ms);
        if u.len() > 0 {
            assert(has_length(ws[n - 1]) && has_length(ws[n]));
            assert(ws[n - 1].end_ms <= ws[n].start_ms);
        }
        let lead = if w.start_ms > cursor {
            before.push(
                CurveSegment { concat_start: cursor, concat_end: w.start_ms, rate: base },
            )
        } else {
            before
        };
        if w.start_ms > cursor {
            assert(lead.drop_last() == before);
        }
        assert(c.drop_last() == lead);
        reveal_with_fuel(tiles, 3);
        assert forall|t: int| 0 <= t < reached(ws) implies shows_at(
            c,
            t,
            #[trigger] rate_for(ws, t, base, event),
        ) by {
            if t < cursor {
                assert(shows_at(before, t, rate_for(u, t, base, event)));
                if in_event(u, t) {
                    let i = choose|i: int|
                        0 <= i < before.len() && (#[trigger] before[i]).covers(t) && before[i].rate
                            == event;
                    assert(c[i] == before[i]);
                    let k = choose|k: int|
                        0 <= k < u.len() && (#[trigger] u[k]).start_ms <= t < u[k].end_ms;
                    assert(ws[k] == u[k]);
                } else {
                    let i = choose|i: int|
                        0 <= i < before.len() && (#[trigger] before[i]).covers(t) && before[i].rate
                            == base;
                    assert(c[i] == before[i]);
                    if in_event(ws, t) {
                        let k = choose|k: int|
                            0 <= k < ws.len() && (#[trigger] ws[k]).start_ms <= t < ws[k].end_ms;
                        if k < n {
                            assert(u[k] == ws[k]);
                        }
                    }
                }
            } else if t < w.start_ms {
                assert(c[before.len() as int].covers(t));
                if in_event(ws, t) {
                    let k = choose|k: int|
                        0 <= k < ws.len() && (#[trigger] ws[k]).start_ms <= t < ws[k].end_ms;
                    if k < n - 1 {
                        assert(has_length(ws[k]) && has_length(ws[n - 1]));
                        assert(ws[k].end_ms <= ws[n - 1].start_ms);
                        assert(ws[n - 1].start_ms < ws[n - 1].end_ms);
                    }
                }
            } else {
                assert(c[c.len() - 1].covers(t));
                assert(ws[n].start_ms <= t < ws[n].end_ms);
            }
        }
    }
}

/// The curve of a trip covers the trip from its start to its end without gaps
/// or overlaps. Within events it runs at the event rate, elsewhere at the base
/// rate. Windows without a length count for nothing.
pub proof fn curve_covers_the_trip(windows: Seq<EventWindow>, tier: Tier, total: i64)
    requires
        total > 0,
        are_in_order(windows),
    ensures
        tiles(curve_of(windows, tier, total), 0, total as int),
        forall|t: int|
            0 <= t < total ==> shows_at(
                curve_of(windows, tier, total),
                t,
                #[trigger] rate_for(windows, t, tier.base(), tier.event()),
            ),
{
    reveal_with_fuel(tiles, 2);
    let c = curve_of(windows, tier, total);
    let base = tier.base();
    let event = tier.event();
    if base != event {
        let ws = clipped(windows, total);
        lemma_clipped_in_order(windows, total);
        lemma_pieces_tile(ws, base, event);
        let head = pieces(ws, base, event);
        if reached(ws) < total {
            assert(c.drop_last() == head);
        }
        if ws.len() > 0 {
            assert(ws[ws.len() - 1].end_ms <= total);
        }
        assert forall|t: int| 0 <= t < total implies shows_at(
            c,
            t,
            #[trigger] rate_for(windows, t, base, event),
        ) by {
            assert(in_event(ws, t) <==> in_event(windows, t));
            if t < reached(ws) {
                let r = rate_for(ws, t, base, event);
                assert(shows_at(head, t, r));
                let i = choose|i: int|
                    0 <= i < head.len() && (#[trigger] head[i]).covers(t) && head[i].rate == r;
                assert(c[i] == head[i]);
            } else {
                assert(c[head.len() as int].covers(t));
                if in_event(ws, t) {
                    let k = choose|k: int|
                        0 <= k < ws.len() && (#[trigger] ws[k]).start_ms <= t < ws[k].end_ms;
                    if k < ws.len() - 1 {
                        assert(has_length(ws[k]) && has_length(ws[ws.len() - 1]));
                        assert(ws[k].end_ms <= ws[ws.len() - 1].start_ms);
                        assert(ws[ws.len() - 1].start_ms < ws[ws.len() - 1].end_ms);
                    }
                }
            }
        }
    } else {
        let none = Seq::<EventWindow>::empty();
        assert(pieces(none, base, event) == Seq::<CurveSegment>::empty());
        assert(c == seq![CurveSegment { concat_start: 0, concat_end: total, rate: base }]);
        assert(c.drop_last() == Seq::<CurveSegment>::empty());
        assert forall|t: int| 0 <= t < total implies shows_at(
            c,
            t,
            #[trigger] rate_for(windows, t, base, event),
        ) by {
            assert(c[0].covers(t));
        }
    }
}

// ---------------------------------------------------------------- coverage

/// A stretch of time from its start up to its end.
#[derive(Debug, Clone, Copy, PartialEq, Eq, Structural)]
pub struct Run {
    pub start: i64,
    pub end: i64,
}

/// The part of a segment that lies in a run.
pub open spec fn within(s: CurveSegment, run: Run) -> Option<CurveSegment> {
    let start: i64 = if s.concat_start > run.start {
        s.concat_start
    } else {
        run.start
    };
    let end: i64 = if s.concat_end < run.end {
        s.concat_end
    } else {
        run.end
    };
    if end > start {
        Some(CurveSegment { concat_start: start, concat_end: end, rate: s.rate })
    } else {
        None
    }
}

/// The parts of a curve that lie in a run.
pub open spec fn parts_within(curve: Seq<CurveSegment>, run: Run) -> Seq<CurveSegment> {
    if run.end <= run.start {
        Seq::empty()
    } else {
        curve.filter_map(|s: CurveSegment| within(s, run))
    }
}

/// The parts of a curve that lie in one run after the other.
pub open spec fn parts_in_runs(curve: Seq<CurveSegment>, covered: Seq<Run>) -> Seq<CurveSegment>
    decreases covered.len(),
{
    if covered.len() == 0 {
        Seq::empty()
    } else {
        parts_in_runs(curve, covered.drop_last()) + parts_within(curve, covered.last())
    }
}

/// Where a segment starts.
pub open spec fn start_of() -> spec_fn(CurveSegment) -> int {
    |s: CurveSegment| s.concat_start as int
}

/// The parts of a curve that footage covers, in the order of their starts.
pub open spec fn restricted(curve: Seq<CurveSegment>, covered: Seq<Run>) -> Seq<CurveSegment> {
    crate::sort::sort_by(parts_in_runs(curve, covered), start_of())
}

/// The parts of a trip's curve that footage covers.
pub fn restrict_curve_to_coverage(trip_curve: &Vec<CurveSegment>, covered: &Vec<Run>) -> (r: Vec<
    CurveSegment,
>)
    ensures
        r@ == restricted(trip_curve@, covered@),
{
    let mut out: Vec<CurveSegment> = Vec::new();
    let mut keys: Vec<i128> = Vec::new();
    let ghost key = start_of();
    let mut i: usize = 0;
    while i < covered.len()
        invariant
            i <= covered.len(),
            key == start_of(),
            out@ == parts_in_runs(trip_curve@, covered@.take(i as int)),
            keys.len() == out.len(),
            forall|k: int| 0 <= k < out.len() ==> #[trigger] keys@[k] == key(out@[k]),
        decreases covered.len() - i,
    {
        let run = covered[i];
        proof {
            assert(covered@.take(i + 1).drop_last() == covered@.take(i as int));
            assert(covered@.take(i + 1).last() == run);
        }
        let ghost before = out@;
        if run.end > run.start {
            let ghost f = |s: CurveSegment| within(s, run);
            let mut j: usize = 0;
            proof {
                reveal(Seq::filter_map);
                assert(trip_curve@.take(0).filter_map(f) == Seq::<CurveSegment>::empty());
                assert(out@ == before + trip_curve@.take(0).filter_map(f));
            }
            while j < trip_curve.len()
                invariant
                    j <= trip_curve.len(),
                    key == start_of(),
                    f == (|s: CurveSegment| within(s, run)),
                    out@ == before + trip_curve@.take(j as int).filter_map(f),
                    keys.len() == out.len(),
                    forall|k: int| 0 <= k < out.len() ==> #[trigger] keys@[k] == key(out@[k]),
                decreases trip_curve.len() - j,
            {
                let s = trip_curve[j];
                let start: i64 = if s.concat_start > run.start {
                    s.concat_start
                } else {
                    run.start
                };
                let end: i64 = if s.concat_end < run.end {
                    s.concat_end
                } else {
                    run.end
                };
                proof {
                    reveal(Seq::filter_map);
                    assert(trip_curve@.take(j + 1).drop_last() == trip_curve@.take(j as int));
                    assert(trip_curve@.take(j + 1).last() == s);
                }
                if end > start {
                    out.push(CurveSegment { concat_start: start, concat_end: end, rate: s.rate });
                    keys.push(start as i128);
                }
                proof {
                    assert(out@ == before + trip_curve@.take(j + 1).filter_map(f));
                }
                j += 1;
            }
            proof {
                assert(trip_curve@.take(trip_curve@.len() as int) == trip_curve@);
            }
        } else {
            proof {
                assert(before + Seq::<CurveSegment>::empty() == before);
            }
        }
        i += 1;
    }
    proof {
        assert(covered@.take(covered@.len() as int) == covered@);
    }
    sort_stable(out, keys, Ghost(key))
}

proof fn lemma_part_within(curve: Seq<CurveSegment>, run: Run, i: int)
    requires
        0 <= i < parts_within(curve, run).len(),
    ensures
        exists|k: int|
            0 <= k < curve.len() && within(#[trigger] curve[k], run) == Some(
                parts_within(curve, run)[i],
            ),
    decreases curve.len(),
{
    reveal(Seq::filter_map);
    let f = |s: CurveSegment| within(s, run);
    let u = curve.drop_last();
    if i < u.filter_map(f).len() {
        lemma_part_within(u, run, i);
        let k = choose|k: int|
            0 <= k < u.len() && within(#[trigger] u[k], run) == Some(parts_within(u, run)[i]);
        assert(curve[k] == u[k]);
    } else {
        assert(curve[curve.len() - 1] == curve.last());
    }
}

proof fn lemma_within_part(curve: Seq<CurveSegment>, run: Run, k: int) -> (i: int)
    requires
        run.start < run.end,
        0 <= k < curve.len(),
        within(curve[k], run) is Some,
    ensures
        0 <= i < parts_within(curve, run).len(),
        parts_within(curve, run)[i] == within(curve[k], run)->0,
    decreases curve.len(),
{
    reveal(Seq::filter_map);
    let f = |s: CurveSegment| within(s, run);
    let u = curve.drop_last();
    if k == curve.len() - 1 {
        u.filter_map(f).len() as int
    } else {
        lemma_within_part(u, run, k)
    }
}

proof fn lemma_part_in_runs(curve: Seq<CurveSegment>, covered: Seq<Run>, i: int)
    requires
        0 <= i < parts_in_runs(curve, covered).len(),
    ensures
        exists|j: int, k: int|
            0 <= j < covered.len() && 0 <= k < curve.len() && (#[trigger] covered[j]).start
                < covered[j].end && within(#[trigger] curve[k], covered[j]) == Some(
                parts_in_runs(curve, covered)[i],
            ),
    decreases covered.len(),
{
    let u = covered.drop_last();
    let before = parts_in_runs(curve, u);
    if i < before.len() {
        lemma_part_in_runs(curve, u, i);
        let (j, k) = choose|j: int, k: int|
            0 <= j < u.len() && 0 <= k < curve.len() && (#[trigger] u[j]).start < u[j].end
                && within(#[trigger] curve[k], u[j]) == Some(before[i]);
        assert(covered[j] == u[j]);
    } else {
        lemma_part_within(curve, covered.last(), i - before.len());
        let k = choose|k: int|
            0 <= k < curve.len() && within(#[trigger] curve[k], covered.last()) == Some(
                parts_within(curve, covered.last())[i - before.len()],
            );
        assert(covered[covered.len() - 1] == covered.last());
        assert(within(curve[k], covered[covered.len() - 1]) == Some(
            parts_in_runs(curve, covered)[i],
        ));
    }
}

proof fn lemma_in_runs_part(curve: Seq<CurveSegment>, covered: Seq<Run>, j: int, k: int) -> (i: int)
    requires
        0 <= j < covered.len(),
        0 <= k < curve.len(),
        covered[j].start < covered[j].end,
        within(curve[k], covered[j]) is Some,
    ensures
        0 <= i < parts_in_runs(curve, covered).len(),
        parts_in_runs(curve, covered)[i] == within(curve[k], covered[j])->0,
    decreases covered.len(),
{
    let u = covered.drop_last();
    if j == covered.len() - 1 {
        let i = lemma_within_part(curve, covered.last(), k);
        parts_in_runs(curve, u).len() + i
    } else {
        lemma_in_runs_part(curve, u, j, k)
    }
}

/// The time lies in one of the runs.
pub open spec fn is_covered(covered: Seq<Run>, t: int) -> bool {
    exists|j: int| 0 <= j < covered.len() && (#[trigger] covered[j]).start <= t < covered[j].end
}

/// What is left of a curve comes in order, every segment lies within one run of
/// footage, and at every time it shows the rates that the curve shows there if
/// there is footage, and nothing otherwise.
pub proof fn restriction_keeps_what_is_covered(curve: Seq<CurveSegment>, covered: Seq<Run>)
    ensures
        crate::sort::is_sorted(restricted(curve, covered), start_of()),
        forall|i: int|
            0 <= i < restricted(curve, covered).len() ==> exists|j: int|
                0 <= j < covered.len() && (#[trigger] covered[j]).start <= (#[trigger] restricted(
                    curve,
                    covered,
                )[i]).concat_start && restricted(curve, covered)[i].concat_end <= covered[j].end,
        forall|t: int, rate: u32|
            #[trigger] shows_at(restricted(curve, covered), t, rate) <==> (shows_at(curve, t, rate)
                && is_covered(covered, t)),
{
    let p = parts_in_runs(curve, covered);
    let r = restricted(curve, covered);
    crate::sort::sort_is_sorted(p, start_of());
    crate::sort::sort_is_permutation(p, start_of());
    assert forall|x: CurveSegment| p.contains(x) <==> #[trigger] r.contains(x) by {
        broadcast use vstd::seq_lib::group_to_multiset_ensures;

        assert(p.to_multiset().count(x) == r.to_multiset().count(x));
    }
    assert forall|i: int| 0 <= i < r.len() implies exists|j: int|
        0 <= j < covered.len() && (#[trigger] covered[j]).start <= (#[trigger] r[i]).concat_start
            && r[i].concat_end <= covered[j].end by {
        assert(r.contains(r[i]));
        let m = choose|m: int| 0 <= m < p.len() && p[m] == r[i];
        lemma_part_in_runs(curve, covered, m);
        let (j, k) = choose|j: int, k: int|
            0 <= j < covered.len() && 0 <= k < curve.len() && (#[trigger] covered[j]).start
                < covered[j].end && within(#[trigger] curve[k], covered[j]) == Some(p[m]);
        assert(covered[j].start <= r[i].concat_start);
    }
    assert forall|t: int, rate: u32|
        #[trigger] shows_at(r, t, rate) <==> (shows_at(curve, t, rate) && is_covered(
            covered,
            t,
        )) by {
        if shows_at(r, t, rate) {
            let i = choose|i: int|
                0 <= i < r.len() && (#[trigger] r[i]).covers(t) && r[i].rate == rate;
            assert(r.contains(r[i]));
            let m = choose|m: int| 0 <= m < p.len() && p[m] == r[i];
            lemma_part_in_runs(curve, covered, m);
            let (j, k) = choose|j: int, k: int|
                0 <= j < covered.len() && 0 <= k < curve.len() && (#[trigger] covered[j]).start
                    < covered[j].end && within(#[trigger] curve[k], covered[j]) == Some(p[m]);
            assert(curve[k].covers(t));
            assert(covered[j].start <= t < covered[j].end);
        }
        if shows_at(curve, t, rate) && is_covered(covered, t) {
            let k = choose|k: int|
                0 <= k < curve.len() && (#[trigger] curve[k]).covers(t) && curve[k].rate == rate;
            let j = choose|j: int|
                0 <= j < covered.len() && (#[trigger] covered[j]).start <= t < covered[j].end;
            let m = lemma_in_runs_part(curve, covered, j, k);
            assert(p.contains(p[m]));
            assert(r.contains(p[m]));
            let i = choose|i: int| 0 <= i < r.len() && r[i] == p[m];
            assert(r[i].covers(t));
        }
    }
}

proof fn lemma_sorted_stays<T>(s: Seq<T>, key: spec_fn(T) -> int)
    requires
        crate::sort::is_sorted(s, key),
    ensures
        crate::sort::sort_by(s, key) == s,
    decreases s.len(),
{
    if s.len() > 0 {
        let u = s.drop_last();
        assert forall|i: int, j: int| 0 <= i < j < u.len() implies key(#[trigger] u[i]) <= key(
            #[trigger] u[j],
        ) by {
            assert(u[i] == s[i] && u[j] == s[j]);
        }
        lemma_sorted_stays(u, key);
        if u.len() > 0 {
            assert(s[u.len() - 1] == u.last());
            assert(s[s.len() - 1] == s.last());
            assert(key(u.last()) <= key(s.last()));
        }
        assert(crate::sort::insert_by(u, s.last(), key) == u.push(s.last()));
        assert(u.push(s.last()) == s);
    }
}

proof fn lemma_tiles_bounds(c: Seq<CurveSegment>, a: int, b: int)
    requires
        tiles(c, a, b),
    ensures
        a <= b,
        forall|i: int|
            0 <= i < c.len() ==> a <= (#[trigger] c[i]).concat_start && c[i].concat_start
                < c[i].concat_end && c[i].concat_end <= b,
        crate::sort::is_sorted(c, start_of()),
    decreases c.len(),
{
    if c.len() > 0 {
        let u = c.drop_last();
        lemma_tiles_bounds(u, a, c.last().concat_start as int);
        assert forall|i: int| 0 <= i < c.len() implies a <= (#[trigger] c[i]).concat_start
            && c[i].concat_start < c[i].concat_end && c[i].concat_end <= b by {
            if i < u.len() {
                assert(u[i] == c[i]);
            }
        }
        assert forall|i: int, j: int| 0 <= i < j < c.len() implies (start_of())(#[trigger] c[i])
            <= (start_of())(#[trigger] c[j]) by {
            assert(u[i] == c[i]);
            if j < u.len() {
                assert(u[j] == c[j]);
            }
        }
    }
}

/// Footage of the whole trip leaves its curve as it is.
pub proof fn full_coverage_keeps_the_curve(curve: Seq<CurveSegment>, a: i64, b: i64)
    requires
        tiles(curve, a as int, b as int),
    ensures
        restricted(curve, seq![Run { start: a, end: b }]) == curve,
{
    let run = Run { start: a, end: b };
    let covered = seq![run];
    lemma_tiles_bounds(curve, a as int, b as int);
    assert(covered.drop_last() == Seq::<Run>::empty());
    assert(parts_in_runs(curve, covered.drop_last()) == Seq::<CurveSegment>::empty());
    assert(parts_in_runs(curve, covered) == parts_within(curve, run));
    if a < b {
        lemma_all_within(curve, run);
    } else {
        if curve.len() > 0 {
            assert(curve[0].concat_start < curve[0].concat_end);
        }
        assert(curve == Seq::<CurveSegment>::empty());
    }
    lemma_sorted_stays(curve, start_of());
}

proof fn lemma_all_within(curve: Seq<CurveSegment>, run: Run)
    requires
        forall|i: int|
            0 <= i < curve.len() ==> run.start <= (#[trigger] curve[i]).concat_start
                && curve[i].concat_start < curve[i].concat_end && curve[i].concat_end <= run.end,
    ensures
        curve.filter_map(|s: CurveSegment| within(s, run)) == curve,
    decreases curve.len(),
{
    reveal(Seq::filter_map);
    if curve.len() > 0 {
        let u = curve.drop_last();
        assert forall|i: int| 0 <= i < u.len() implies run.start <= (#[trigger] u[i]).concat_start
            && u[i].concat_start < u[i].concat_end && u[i].concat_end <= run.end by {
            assert(u[i] == curve[i]);
        }
        lemma_all_within(u, run);
        assert(curve[curve.len() - 1] == curve.last());
        assert(u.push(curve.last()) == curve);
    } else {
        assert(curve.filter_map(|s: CurveSegment| within(s, run)) == curve);
    }
}

// --------------------------------------------------------------- sanitizing

/// The rate at which a stretch gives enough output: the wanted rate, or the
/// highest that does, or 1.
pub open spec fn fitting_rate(span: int, rate: u32, min_output: i64) -> u32 {
    if span < min_output * rate {
        if span / (min_output as int) < 1 {
            1
        } else {
            (span / (min_output as int)) as u32
        }
    } else {
        rate
    }
}

/// The curve with one more segment. One without a length is dropped; one that
/// is too short in itself goes to the segment that it follows.
pub open spec fn with_segment(
    out: Seq<CurveSegment>,
    s: CurveSegment,
    min_output: i64,
) -> Seq<CurveSegment> {
    let span = crate::timelapse::types::saturated(s.span());
    if span <= 0 {
        out
    } else if span < min_output && out.len() > 0 && out.last().concat_end == s.concat_start {
        out.drop_last().push(
            CurveSegment {
                concat_start: out.last().concat_start,
                concat_end: s.concat_end,
                rate: out.last().rate,
            },
        )
    } else {
        out.push(
            CurveSegment {
                concat_start: s.concat_start,
                concat_end: s.concat_end,
                rate: fitting_rate(span, s.rate, min_output),
            },
        )
    }
}

/// The curve without stretches whose output would be too short to encode.
pub open spec fn sanitized(curve: Seq<CurveSegment>, min_output: i64) -> Seq<CurveSegment>
    decreases curve.len(),
{
    if curve.len() == 0 {
        Seq::empty()
    } else {
        with_segment(sanitized(curve.drop_last(), min_output), curve.last(), min_output)
    }
}

fn fit_rate(span: i64, rate: u32, min_output: i64) -> (r: u32)
    requires
        span > 0,
    ensures
        r == fitting_rate(span as int, rate, min_output),
{
    proof {
        assert(-0x8000_0000_0000_0000 * 0x1_0000_0000 <= min_output * rate <= 0x8000_0000_0000_0000
            * 0x1_0000_0000) by (nonlinear_arith)
            requires
                -0x8000_0000_0000_0000 <= min_output <= 0x7fff_ffff_ffff_ffff,
                0 <= rate <= 0xffff_ffff,
        ;
    }
    if (span as i128) < min_output as i128 * rate as i128 {
        proof {
            assert(min_output > 0) by (nonlinear_arith)
                requires
                    0 < span,
                    span < min_output * rate,
                    0 <= rate,
            ;
            assert(0 <= (span as int) / (min_output as int) && (span as int) / (min_output as int) < rate) by (nonlinear_arith)
                requires
                    0 < span,
                    span < min_output * rate,
                    0 <= rate,
                    min_output > 0,
            ;
        }
        let q: u64 = span as u64 / min_output as u64;
        if q < 1 {
            1
        } else {
            q as u32
        }
    } else {
        rate
    }
}

/// The curve without stretches whose output would be too short to encode.
pub fn sanitize_for_encode(curve: &Vec<CurveSegment>, min_output_ms: i64) -> (r: Vec<CurveSegment>)
    ensures
        r@ == sanitized(curve@, min_output_ms),
{
    let mut out: Vec<CurveSegment> = Vec::new();
    let mut i: usize = 0;
    while i < curve.len()
        invariant
            i <= curve.len(),
            out@ == sanitized(curve@.take(i as int), min_output_ms),
        decreases curve.len() - i,
    {
        let s = curve[i];
        proof {
            assert(curve@.take(i + 1).drop_last() == curve@.take(i as int));
            assert(curve@.take(i + 1).last() == s);
        }
        let span: i64 = saturating_difference(s.concat_end, s.concat_start);
        if span > 0 {
            let n: usize = out.len();
            if span < min_output_ms && n > 0 && out[n - 1].concat_end == s.concat_start {
                let ghost before = out@;
                let prev = out[n - 1];
                out.set(
                    n - 1,
                    CurveSegment {
                        concat_start: prev.concat_start,
                        concat_end: s.concat_end,
                        rate: prev.rate,
                    },
                );
                proof {
                    assert(out@ == with_segment(before, s, min_output_ms));
                }
            } else {
                let rate: u32 = fit_rate(span, s.rate, min_output_ms);
                out.push(
                    CurveSegment { concat_start: s.concat_start, concat_end: s.concat_end, rate },
                );
            }
        }
        i += 1;
    }
    proof {
        assert(curve@.take(curve@.len() as int) == curve@);
    }
    out
}

/// Every stretch of a sanitized curve has a length, and gives enough output
/// unless it runs at its own speed.
pub proof fn sanitized_stretches_are_long_enough(curve: Seq<CurveSegment>, min_output: i64)
    ensures
        forall|i: int|
            0 <= i < sanitized(curve, min_output).len() ==> (#[trigger] sanitized(
                curve,
                min_output,
            )[i]).span() > 0 && (sanitized(curve, min_output)[i].rate <= 1 || sanitized(
                curve,
                min_output,
            )[i].span() >= min_output * sanitized(curve, min_output)[i].rate),
    decreases curve.len(),
{
    if curve.len() > 0 {
        let out = sanitized(curve.drop_last(), min_output);
        let s = curve.last();
        let r = sanitized(curve, min_output);
        sanitized_stretches_are_long_enough(curve.drop_last(), min_output);
        let span = crate::timelapse::types::saturated(s.span());
        assert forall|i: int| 0 <= i < r.len() implies (#[trigger] r[i]).span() > 0 && (r[i].rate
            <= 1 || r[i].span() >= min_output * r[i].rate) by {
            if i < out.len() && r[i] == out[i] {
            } else if i < out.len() {
                assert(out[i] == out.last());
                assert(out[i].span() > 0);
            } else {
                let q = span / (min_output as int);
                if span < min_output * s.rate && q >= 1 {
                    assert(min_output > 0) by (nonlinear_arith)
                        requires
                            0 < span,
                            span < min_output * s.rate,
                            0 <= s.rate,
                    ;
                    assert(0 <= q < s.rate && min_output * q <= span) by (nonlinear_arith)
                        requires
                            0 < span,
                            span < min_output * s.rate,
                            0 <= s.rate,
                            min_output > 0,
                            q == span / (min_output as int),
                    ;
                }
            }
        }
    }
}

/// The stretch starts where the piece does, reaches at least as far, and is not
/// faster.
pub open spec fn slows_down(r: CurveSegment, piece: CurveSegment) -> bool {
    r.concat_start == piece.concat_start && r.concat_end >= piece.concat_end && r.rate
        <= piece.rate
}

/// Every stretch of a sanitized curve starts where a piece of the curve starts,
/// and runs at most at that piece's rate.
pub proof fn sanitized_stretches_begin_as_pieces(curve: Seq<CurveSegment>, min_output: i64)
    ensures
        forall|i: int|
            0 <= i < sanitized(curve, min_output).len() ==> exists|k: int|
                0 <= k < curve.len() && slows_down(
                    #[trigger] sanitized(curve, min_output)[i],
                    #[trigger] curve[k],
                ),
    decreases curve.len(),
{
    if curve.len() > 0 {
        let u = curve.drop_last();
        let out = sanitized(u, min_output);
        let s = curve.last();
        let r = sanitized(curve, min_output);
        let n = curve.len() - 1;
        sanitized_stretches_begin_as_pieces(u, min_output);
        assert forall|i: int| 0 <= i < r.len() implies exists|k: int|
            0 <= k < curve.len() && slows_down(#[trigger] r[i], #[trigger] curve[k]) by {
            if i < out.len() {
                assert(out[i] == out[i]);
                let k = choose|k: int| 0 <= k < u.len() && slows_down(out[i], #[trigger] u[k]);
                assert(curve[k] == u[k]);
                assert(slows_down(r[i], curve[k]));
            } else {
                let span = crate::timelapse::types::saturated(s.span());
                let q = span / (min_output as int);
                if span < min_output * s.rate {
                    assert(min_output > 0 && s.rate >= 1) by (nonlinear_arith)
                        requires
                            0 < span,
                            span < min_output * s.rate,
                            0 <= s.rate,
                    ;
                    assert(q < s.rate) by (nonlinear_arith)
                        requires
                            0 < span,
                            span < min_output * s.rate,
                            min_output > 0,
                            q == span / (min_output as int),
                    ;
                }
                assert(slows_down(r[i], curve[n]));
            }
        }
    }
}

/// The time lies in one of the stretches.
pub open spec fn has_footage(c: Seq<CurveSegment>, t: int) -> bool {
    exists|i: int| 0 <= i < c.len() && (#[trigger] c[i]).covers(t)
}

/// Sanitizing a curve leaves out no footage and adds none.
pub proof fn sanitizing_keeps_the_footage(curve: Seq<CurveSegment>, min_output: i64, t: int)
    ensures
        has_footage(sanitized(curve, min_output), t) <==> has_footage(curve, t),
    decreases curve.len(),
{
    if curve.len() > 0 {
        let u = curve.drop_last();
        let out = sanitized(u, min_output);
        let s = curve.last();
        let r = sanitized(curve, min_output);
        sanitizing_keeps_the_footage(u, min_output, t);
        sanitized_stretches_are_long_enough(u, min_output);
        if has_footage(r, t) {
            let i = choose|i: int| 0 <= i < r.len() && (#[trigger] r[i]).covers(t);
            if i < out.len() && out[i].covers(t) {
                assert(has_footage(out, t));
                let k = choose|k: int| 0 <= k < u.len() && (#[trigger] u[k]).covers(t);
                assert(curve[k] == u[k]);
            } else {
                assert(curve[curve.len() - 1].covers(t));
            }
        }
        if has_footage(curve, t) {
            let k = choose|k: int| 0 <= k < curve.len() && (#[trigger] curve[k]).covers(t);
            if k < u.len() {
                assert(u[k] == curve[k]);
                assert(has_footage(out, t));
                let i = choose|i: int| 0 <= i < out.len() && (#[trigger] out[i]).covers(t);
                assert(r[i].covers(t));
            } else {
                assert(s.covers(t));
                assert(r[r.len() - 1].covers(t)) by {
                    if r.len() == out.len() {
                        assert(out[out.len() - 1].span() > 0);
                    }
                }
            }
        }
    }
}

// --------------------------------------------------------------- collapsing

/// The length of the footage that the curve shows.
pub open spec fn footage(curve: Seq<CurveSegment>) -> int
    decreases curve.len(),
{
    if curve.len() == 0 {
        0
    } else {
        crate::timelapse::types::saturated(
            footage(curve.drop_last()) + crate::timelapse::types::saturated(curve.last().span()),
        )
    }
}

/// The curve over the footage alone: the gaps between its segments are closed.
pub open spec fn collapsed(curve: Seq<CurveSegment>) -> Seq<CurveSegment>
    decreases curve.len(),
{
    if curve.len() == 0 {
        Seq::empty()
    } else {
        collapsed(curve.drop_last()).push(
            CurveSegment {
                concat_start: footage(curve.drop_last()) as i64,
                concat_end: footage(curve) as i64,
                rate: curve.last().rate,
            },
        )
    }
}

/// The curve over the footage alone.
pub fn collapse_gaps(curve: &Vec<CurveSegment>) -> (r: Vec<CurveSegment>)
    ensures
        r@ == collapsed(curve@),
{
    let mut out: Vec<CurveSegment> = Vec::new();
    let mut cursor: i64 = 0;
    let mut i: usize = 0;
    while i < curve.len()
        invariant
            i <= curve.len(),
            out@ == collapsed(curve@.take(i as int)),
            cursor == footage(curve@.take(i as int)),
        decreases curve.len() - i,
    {
        let s = curve[i];
        proof {
            assert(curve@.take(i + 1).drop_last() == curve@.take(i as int));
            assert(curve@.take(i + 1).last() == s);
        }
        let span: i64 = saturating_difference(s.concat_end, s.concat_start);
        let end: i64 = saturating_sum(cursor, span);
        out.push(CurveSegment { concat_start: cursor, concat_end: end, rate: s.rate });
        cursor = end;
        i += 1;
    }
    proof {
        assert(curve@.take(curve@.len() as int) == curve@);
    }
    out
}

/// The footage can be counted at every point of the curve.
pub open spec fn is_countable(curve: Seq<CurveSegment>) -> bool
    decreases curve.len(),
{
    curve.len() > 0 ==> i64::MIN <= curve.last().span() <= i64::MAX && i64::MIN <= footage(
        curve.drop_last(),
    ) + curve.last().span() <= i64::MAX && is_countable(curve.drop_last())
}

/// The segments follow each other without a gap from `a` to `b`.
pub open spec fn follows(c: Seq<CurveSegment>, a: int, b: int) -> bool
    decreases c.len(),
{
    if c.len() == 0 {
        a == b
    } else {
        c.last().concat_end == b && follows(c.drop_last(), a, c.last().concat_start as int)
    }
}

/// Closing the gaps keeps every segment's length and rate, and the segments
/// then follow each other from zero on. Segments without a length stay too.
pub proof fn collapsing_closes_the_gaps(curve: Seq<CurveSegment>)
    requires
        is_countable(curve),
    ensures
        collapsed(curve).len() == curve.len(),
        forall|i: int|
            0 <= i < curve.len() ==> (#[trigger] collapsed(curve)[i]).span() == curve[i].span()
                && collapsed(curve)[i].rate == curve[i].rate,
        curve.len() > 0 ==> collapsed(curve)[0].concat_start == 0,
        forall|i: int, k: int|
            0 <= i < k < curve.len() && k == i + 1 ==> (#[trigger] collapsed(curve)[k]).concat_start
                == (#[trigger] collapsed(curve)[i]).concat_end,
        follows(collapsed(curve), 0, footage(curve)),
        i64::MIN <= footage(curve) <= i64::MAX,
    decreases curve.len(),
{
    if curve.len() > 0 {
        let u = curve.drop_last();
        collapsing_closes_the_gaps(u);
        let r = collapsed(curve);
        assert(r.drop_last() == collapsed(u));
        if u.len() > 0 {
            assert(collapsed(u).last().concat_end == footage(u));
            assert(r[0] == collapsed(u)[0]);
        }
        assert forall|i: int, k: int| 0 <= i < k < curve.len() && k == i + 1 implies (
        #[trigger] r[k]).concat_start == (#[trigger] r[i]).concat_end by {
            assert(r[i] == collapsed(u)[i]);
            if k < u.len() {
                assert(r[k] == collapsed(u)[k]);
            }
        }
        assert forall|i: int| 0 <= i < curve.len() implies (#[trigger] r[i]).span()
            == curve[i].span() && r[i].rate == curve[i].rate by {
            if i < u.len() {
                assert(r[i] == collapsed(u)[i]);
                assert(u[i] == curve[i]);
            }
        }
    }
}

/// A curve without gaps that starts at zero stays as it is.
pub proof fn collapsing_keeps_a_closed_curve(curve: Seq<CurveSegment>, b: int)
    requires
        is_countable(curve),
        follows(curve, 0, b),
    ensures
        collapsed(curve) == curve,
        footage(curve) == b,
    decreases curve.len(),
{
    if curve.len() > 0 {
        let u = curve.drop_last();
        collapsing_keeps_a_closed_curve(u, curve.last().concat_start as int);
        assert(u.push(curve.last()) == curve);
        assert(collapsed(curve) == curve);
    }
}

proof fn lemma_collapsed_countable(curve: Seq<CurveSegment>)
    requires
        is_countable(curve),
    ensures
        is_countable(collapsed(curve)),
        footage(collapsed(curve)) == footage(curve),
    decreases curve.len(),
{
    if curve.len() > 0 {
        let u = curve.drop_last();
        lemma_collapsed_countable(u);
        collapsing_closes_the_gaps(curve);
        collapsing_closes_the_gaps(u);
        let r = collapsed(curve);
        assert(r.drop_last() == collapsed(u));
        assert(r[r.len() - 1] == r.last());
        assert(r.last().span() == curve.last().span());
    }
}

/// Once the gaps are closed there are none to close.
pub proof fn collapsing_twice_is_collapsing_once(curve: Seq<CurveSegment>)
    requires
        is_countable(curve),
    ensures
        collapsed(collapsed(curve)) == collapsed(curve),
{
    lemma_collapsed_countable(curve);
    collapsing_closes_the_gaps(curve);
    collapsing_keeps_a_closed_curve(collapsed(curve), footage(curve));
}

proof fn lemma_tiles_follow(curve: Seq<CurveSegment>, b: int)
    requires
        tiles(curve, 0, b),
    ensures
        follows(curve, 0, b),
        is_countable(curve),
        footage(curve) == b,
    decreases curve.len(),
{
    if curve.len() > 0 {
        lemma_tiles_follow(curve.drop_last(), curve.last().concat_start as int);
        lemma_tiles_bounds(curve, 0, b);
        assert(curve[curve.len() - 1] == curve.last());
    }
}

/// With footage of the whole trip, the curve that is kept and the curve that is
/// encoded are the curve of the trip.
pub proof fn full_coverage_encodes_the_curve(curve: Seq<CurveSegment>, total: i64)
    requires
        tiles(curve, 0, total as int),
    ensures
        restricted(curve, seq![Run { start: 0, end: total }]) == curve,
        collapsed(restricted(curve, seq![Run { start: 0, end: total }])) == curve,
{
    full_coverage_keeps_the_curve(curve, 0, total);
    lemma_tiles_follow(curve, total as int);
    collapsing_keeps_a_closed_curve(curve, total as int);
}

// ------------------------------------------------------------ filter graphs

/// A time in seconds with three decimal places.
pub open spec fn seconds_text(ms: int) -> Seq<char> {
    let m = if ms < 0 {
        (-ms) as nat
    } else {
        ms as nat
    };
    let sign = if ms < 0 {
        seq!['-']
    } else {
        Seq::empty()
    };
    sign + crate::text::decimal(m / 1000) + seq!['.'] + crate::text::padded(m % 1000, 3)
}

/// Appends a time in seconds with three decimal places.
pub fn push_seconds(s: &mut String, ms: i64)
    ensures
        final(s)@ == old(s)@ + seconds_text(ms as int),
{
    let m: u64 = if ms < 0 {
        (-(ms as i128)) as u64
    } else {
        ms as u64
    };
    let ghost start = s@;
    if ms < 0 {
        s.push('-');
    }
    push_decimal(s, m / 1000);
    s.push('.');
    push_padded(s, m % 1000, 3);
    proof {
        assert(s@ == start + seconds_text(ms as int));
    }
}

/// The filters that bring every frame to one size and format.
pub open spec fn normalizing(scale_filter: Seq<char>) -> Seq<char> {
    if scale_filter == "scale_cuda"@ {
        "scale_cuda="@ + crate::text::decimal(OUT_WIDTH as nat) + ":-2:format=yuv420p"@
    } else {
        "format=yuv420p,"@ + scale_filter + "="@ + crate::text::decimal(OUT_WIDTH as nat) + ":-2"@
    }
}

fn push_normalizing(s: &mut String, scale_filter: &str)
    ensures
        final(s)@ == old(s)@ + normalizing(scale_filter@),
{
    let ghost start = s@;
    if same_str(scale_filter, "scale_cuda") {
        s.append("scale_cuda=");
        push_decimal(s, OUT_WIDTH as u64);
        s.append(":-2:format=yuv420p");
    } else {
        s.append("format=yuv420p,");
        s.append(scale_filter);
        s.append("=");
        push_decimal(s, OUT_WIDTH as u64);
        s.append(":-2");
    }
    proof {
        assert(s@ == start + normalizing(scale_filter@));
    }
}

/// The names of the first `n` streams of a kind.
pub open spec fn stream_names(kind: Seq<char>, n: nat) -> Seq<char>
    decreases n,
{
    if n == 0 {
        Seq::empty()
    } else {
        stream_names(kind, (n - 1) as nat) + "["@ + kind + crate::text::decimal((n - 1) as nat)
            + "]"@
    }
}

fn push_stream_names(s: &mut String, kind: &str, n: usize)
    ensures
        final(s)@ == old(s)@ + stream_names(kind@, n as nat),
{
    let ghost start = s@;
    let mut i: usize = 0;
    proof {
        assert(start + stream_names(kind@, 0) == start);
    }
    while i < n
        invariant
            i <= n,
            s@ == start + stream_names(kind@, i as nat),
        decreases n - i,
    {
        s.append("[");
        s.append(kind);
        push_decimal(s, i as u64);
        s.append("]");
        i += 1;
        proof {
            assert(s@ == start + stream_names(kind@, i as nat));
        }
    }
}

/// The filters of one stretch: cut it out and change its rate.
pub open spec fn stretch_filter(i: nat, s: CurveSegment) -> Seq<char> {
    "[v"@ + crate::text::decimal(i) + "]trim="@ + seconds_text(s.concat_start as int) + ":"@
        + seconds_text(s.concat_end as int) + ",setpts=PTS-STARTPTS,setpts=PTS/"@
        + crate::text::decimal(s.rate as nat) + "[s"@ + crate::text::decimal(i) + "];"@
}

/// The filters of all stretches.
pub open spec fn stretch_filters(curve: Seq<CurveSegment>) -> Seq<char>
    decreases curve.len(),
{
    if curve.len() == 0 {
        Seq::empty()
    } else {
        stretch_filters(curve.drop_last()) + stretch_filter(
            (curve.len() - 1) as nat,
            curve.last(),
        )
    }
}

fn push_stretch_filter(s: &mut String, i: usize, x: CurveSegment)
    ensures
        final(s)@ == old(s)@ + stretch_filter(i as nat, x),
{
    let ghost start = s@;
    s.append("[v");
    push_decimal(s, i as u64);
    s.append("]trim=");
    push_seconds(s, x.concat_start);
    s.append(":");
    push_seconds(s, x.concat_end);
    s.append(",setpts=PTS-STARTPTS,setpts=PTS/");
    push_decimal(s, x.rate as u64);
    s.append("[s");
    push_decimal(s, i as u64);
    s.append("];");
    proof {
        assert(s@ == start + stretch_filter(i as nat, x));
    }
}

/// The filter graph that shows a whole input by a curve: one rate for a single
/// segment; else the normalized input is split, each stretch is cut out and
/// changed, and the stretches are put together again.
pub open spec fn filter_graph(
    curve: Seq<CurveSegment>,
    scale_filter: Seq<char>,
    input_label: Seq<char>,
) -> Seq<char> {
    let head = "["@ + input_label + "]"@ + normalizing(scale_filter);
    if curve.len() <= 1 {
        let rate = if curve.len() == 1 {
            curve[0].rate
        } else {
            1
        };
        head + ",setpts=PTS/"@ + crate::text::decimal(rate as nat) + "[out]"@
    } else {
        let n = curve.len();
        head + ",split="@ + crate::text::decimal(n) + stream_names("v"@, n) + ";"@
            + stretch_filters(curve) + stream_names("s"@, n) + "concat=n="@ + crate::text::decimal(
            n,
        ) + ":v=1[out]"@
    }
}

/// The filter graph that shows a whole input by a curve.
pub fn compose_filter_from_curve(
    curve: &Vec<CurveSegment>,
    scale_filter: &str,
    input_label: &str,
) -> (r: String)
    ensures
        r@ == filter_graph(curve@, scale_filter@, input_label@),
{
    let mut s = String::new();
    s.append("[");
    s.append(input_label);
    s.append("]");
    push_normalizing(&mut s, scale_filter);
    let ghost head = "["@ + input_label@ + "]"@ + normalizing(scale_filter@);
    proof {
        assert(s@ == head);
    }
    let n: usize = curve.len();
    if n <= 1 {
        let rate: u32 = if n == 1 {
            curve[0].rate
        } else {
            1
        };
        s.append(",setpts=PTS/");
        push_decimal(&mut s, rate as u64);
        s.append("[out]");
        return s;
    }
    s.append(",split=");
    push_decimal(&mut s, n as u64);
    push_stream_names(&mut s, "v", n);
    s.append(";");
    let ghost start = s@;
    let mut i: usize = 0;
    proof {
        assert(start + stretch_filters(curve@.take(0)) == start);
    }
    while i < n
        invariant
            n == curve.len(),
            i <= n,
            s@ == start + stretch_filters(curve@.take(i as int)),
        decreases n - i,
    {
        proof {
            assert(curve@.take(i + 1).drop_last() == curve@.take(i as int));
            assert(curve@.take(i + 1).last() == curve@[i as int]);
        }
        push_stretch_filter(&mut s, i, curve[i]);
        proof {
            assert(s@ == start + stretch_filters(curve@.take(i + 1)));
        }
        i += 1;
    }
    proof {
        assert(curve@.take(curve@.len() as int) == curve@);
    }
    push_stream_names(&mut s, "s", n);
    s.append("concat=n=");
    push_decimal(&mut s, n as u64);
    s.append(":v=1[out]");
    s
}

/// The filter graph that shows a trip by its speed curve.
pub fn compose_filter(
    windows: &Vec<EventWindow>,
    tier: Tier,
    total_duration_ms: i64,
    scale_filter: &str,
    input_label: &str,
) -> (r: String)
    ensures
        r@ == filter_graph(
            curve_of(windows@, tier, total_duration_ms),
            scale_filter@,
            input_label@,
        ),
{
    let curve = build_curve(windows, tier, total_duration_ms);
    compose_filter_from_curve(&curve, scale_filter, input_label)
}

/// The filter graph of one stretch that is an input of its own.
pub open spec fn window_filter(scale_filter: Seq<char>, rate: u32) -> Seq<char> {
    "[0:v]"@ + normalizing(scale_filter) + ",setpts=PTS/"@ + crate::text::decimal(rate as nat)
        + "[out]"@
}

/// The filter graph of one stretch that is an input of its own.
pub fn compose_window_filter(scale_filter: &str, rate: u32) -> (r: String)
    ensures
        r@ == window_filter(scale_filter@, rate),
{
    let mut s = String::new();
    s.append("[0:v]");
    push_normalizing(&mut s, scale_filter);
    s.append(",setpts=PTS/");
    push_decimal(&mut s, rate as u64);
    s.append("[out]");
    s
}

} // verus!
