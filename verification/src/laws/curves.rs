//! What speed curves and their filter graphs are for.

use crate::timelapse::speed_curve::CurveSegment;
use crate::timelapse::types::{EventWindow, Tier};
use vstd::prelude::*;

verus! {

/// Each tier is named by its rate outside events; within events it runs no faster.
pub proof fn tiers_are_named_by_their_rate(t: Tier)
    ensures
        t.name() == crate::text::decimal(t.base() as nat) + seq!['x'],
        1 <= t.event() <= t.base(),
        t.base() == t.event() <==> t == Tier::Tier8x,
        t == Tier::Tier16x ==> t.event() == 1,
        t != Tier::Tier16x ==> t.event() == 8,
{
    reveal_strlit("8x");
    reveal_strlit("16x");
    reveal_strlit("60x");
    assert("8x"@ =~= seq!['8', 'x']);
    assert("16x"@ =~= seq!['1', '6', 'x']);
    assert("60x"@ =~= seq!['6', '0', 'x']);
    reveal_with_fuel(crate::text::decimal, 3);
    assert(crate::text::decimal(8) =~= seq!['8']);
    assert(crate::text::decimal(16) =~= seq!['1', '6']);
    assert(crate::text::decimal(60) =~= seq!['6', '0']);
}

/// The rate that fits is the highest, up to the wanted one, at which the stretch gives
/// enough output; at its own speed every stretch is shown.
pub proof fn fitting_rates_are_the_highest(span: int, rate: u32, min_output: i64, other: int)
    requires
        0 < span <= i64::MAX,
        0 < min_output,
        1 <= rate,
    ensures
        ({
            let r = crate::timelapse::speed_curve::fitting_rate(span, rate, min_output);
            &&& 1 <= r <= rate
            &&& r == 1 || min_output * r <= span
            &&& 1 <= other <= rate && min_output * other <= span ==> other <= r
        }),
{
    let q = span / (min_output as int);
    vstd::arithmetic::div_mod::lemma_fundamental_div_mod(span, min_output as int);
    assert(min_output * q <= span < min_output * q + min_output);
    if span < min_output * rate {
        assert(q < rate) by (nonlinear_arith)
            requires
                min_output * q <= span,
                span < min_output * rate,
                0 < min_output,
        ;
        assert(0 <= q) by (nonlinear_arith)
            requires
                0 < span,
                span < min_output * q + min_output,
                0 < min_output,
        ;
        if min_output * other <= span {
            assert(other <= q) by (nonlinear_arith)
                requires
                    min_output * other <= span,
                    span < min_output * q + min_output,
                    0 < min_output,
            ;
        }
    } else {
        assert(min_output * rate <= span);
    }
}

/// A curve all of whose stretches give enough output is encoded as it is.
pub proof fn long_stretches_stay(curve: Seq<CurveSegment>, min_output: i64)
    requires
        0 < min_output,
        forall|i: int|
            0 <= i < curve.len() ==> 1 <= (#[trigger] curve[i]).rate && min_output * curve[i].rate
                <= curve[i].span() && curve[i].span() <= i64::MAX,
    ensures
        crate::timelapse::speed_curve::sanitized(curve, min_output) == curve,
    decreases curve.len(),
{
    if curve.len() > 0 {
        let u = curve.drop_last();
        assert forall|i: int| 0 <= i < u.len() implies 1 <= (#[trigger] u[i]).rate && min_output
            * u[i].rate <= u[i].span() && u[i].span() <= i64::MAX by {
            assert(u[i] == curve[i]);
        }
        long_stretches_stay(u, min_output);
        let s = curve[curve.len() - 1];
        assert(min_output <= min_output * s.rate) by (nonlinear_arith)
            requires
                0 < min_output,
                1 <= s.rate,
        ;
        assert(crate::timelapse::speed_curve::sanitized(curve, min_output) =~= u.push(s));
        assert(u.push(s) =~= curve);
    }
}

/// The part stands in the text at the place.
pub open spec fn stands_at(text: Seq<char>, part: Seq<char>, at: int) -> bool {
    0 <= at && at + part.len() <= text.len() && text.subrange(at, at + part.len()) == part
}

/// The filters of stretch `i`: it is cut out of its stream from its start to its end,
/// and runs at its rate.
pub open spec fn cut_of(i: nat, s: CurveSegment) -> Seq<char> {
    "[v"@ + crate::text::decimal(i) + "]trim="@ + crate::timelapse::speed_curve::seconds_text(
        s.concat_start as int,
    ) + ":"@ + crate::timelapse::speed_curve::seconds_text(s.concat_end as int)
        + ",setpts=PTS-STARTPTS,setpts=PTS/"@ + crate::text::decimal(s.rate as nat) + "[s"@
        + crate::text::decimal(i) + "];"@
}

/// The lengths of the filters of the first stretches.
pub open spec fn cuts_len(curve: Seq<CurveSegment>, n: int) -> int
    decreases n,
{
    if n <= 0 {
        0
    } else {
        cuts_len(curve, n - 1) + cut_of((n - 1) as nat, curve[n - 1]).len()
    }
}

proof fn lemma_cuts(curve: Seq<CurveSegment>, i: int)
    requires
        0 <= i < curve.len(),
    ensures
        crate::timelapse::speed_curve::stretch_filters(curve).len() == cuts_len(
            curve,
            curve.len() as int,
        ),
        stands_at(
            crate::timelapse::speed_curve::stretch_filters(curve),
            cut_of(i as nat, curve[i]),
            cuts_len(curve, i),
        ),
    decreases curve.len(),
{
    let u = curve.drop_last();
    let t = crate::timelapse::speed_curve::stretch_filters(curve);
    let before = crate::timelapse::speed_curve::stretch_filters(u);
    let n = u.len() as int;
    lemma_cuts_len(u, curve, n);
    if u.len() > 0 {
        lemma_cuts(u, 0);
    }
    let own = cut_of(n as nat, curve.last());
    assert(t =~= before + own);
    if i < n {
        lemma_cuts(u, i);
        lemma_cuts_len(u, curve, i);
        let at = cuts_len(curve, i);
        let part = cut_of(i as nat, curve[i]);
        assert(t.subrange(at, at + part.len()) =~= before.subrange(at, at + part.len()));
    } else {
        assert(t.subrange(before.len() as int, t.len() as int) =~= own);
    }
}

proof fn lemma_cuts_len(u: Seq<CurveSegment>, curve: Seq<CurveSegment>, n: int)
    requires
        0 <= n <= u.len() <= curve.len(),
        forall|i: int| 0 <= i < u.len() ==> u[i] == #[trigger] curve[i],
    ensures
        cuts_len(u, n) == cuts_len(curve, n),
        0 <= cuts_len(u, n),
    decreases n,
{
    if n > 0 {
        lemma_cuts_len(u, curve, n - 1);
        assert(u[n - 1] == curve[n - 1]);
    }
}

proof fn lemma_put_together(
    h: Seq<char>,
    a: Seq<char>,
    b: Seq<char>,
    c: Seq<char>,
    d: Seq<char>,
)
    ensures
        h + a + b + c + d == h + (a + b + c + d),
{
    assert(h + a + b =~= h + (a + b));
    assert(h + (a + b) + c =~= h + (a + b + c));
    assert(h + (a + b + c) + d =~= h + (a + b + c + d));
}

proof fn lemma_parts(
    head: Seq<char>,
    mid: Seq<char>,
    tail: Seq<char>,
    at: int,
    part: Seq<char>,
)
    requires
        stands_at(mid, part, at),
    ensures
        stands_at(head + mid + tail, head, 0),
        stands_at(head + mid + tail, part, head.len() + at),
        stands_at(head + mid + tail, tail, (head.len() + mid.len()) as int),
{
    let g = head + mid + tail;
    let n = head.len() as int;
    assert(g.subrange(0, n) =~= head);
    assert(g.subrange(n + at, n + at + part.len()) =~= mid.subrange(at, at + part.len()));
    assert(g.subrange(n + mid.len(), g.len() as int) =~= tail);
}

/// The graph of a curve of several stretches starts with the input, holds the cut of
/// every stretch, in their order, and ends with all of them put together.
pub proof fn graphs_cut_out_every_stretch(
    curve: Seq<CurveSegment>,
    scale: Seq<char>,
    input: Seq<char>,
    i: int,
)
    requires
        curve.len() > 1,
        0 <= i < curve.len(),
    ensures
        ({
            let g = crate::timelapse::speed_curve::filter_graph(curve, scale, input);
            let head = "["@ + input + "]"@ + crate::timelapse::speed_curve::normalizing(scale)
                + ",split="@ + crate::text::decimal(curve.len())
                + crate::timelapse::speed_curve::stream_names("v"@, curve.len()) + ";"@;
            let tail = crate::timelapse::speed_curve::stream_names("s"@, curve.len())
                + "concat=n="@ + crate::text::decimal(curve.len()) + ":v=1[out]"@;
            &&& stands_at(g, head, 0)
            &&& stands_at(g, cut_of(i as nat, curve[i]), head.len() + cuts_len(curve, i))
            &&& stands_at(g, tail, head.len() + cuts_len(curve, curve.len() as int))
            &&& g.len() == head.len() + cuts_len(curve, curve.len() as int) + tail.len()
        }),
{
    let g = crate::timelapse::speed_curve::filter_graph(curve, scale, input);
    let head = "["@ + input + "]"@ + crate::timelapse::speed_curve::normalizing(scale) + ",split="@
        + crate::text::decimal(curve.len()) + crate::timelapse::speed_curve::stream_names(
        "v"@,
        curve.len(),
    ) + ";"@;
    let tail = crate::timelapse::speed_curve::stream_names("s"@, curve.len()) + "concat=n="@
        + crate::text::decimal(curve.len()) + ":v=1[out]"@;
    let mid = crate::timelapse::speed_curve::stretch_filters(curve);
    lemma_cuts(curve, i);
    lemma_put_together(
        head + mid,
        crate::timelapse::speed_curve::stream_names("s"@, curve.len()),
        "concat=n="@,
        crate::text::decimal(curve.len()),
        ":v=1[out]"@,
    );
    assert(g == head + mid + tail);
    lemma_parts(head, mid, tail, cuts_len(curve, i), cut_of(i as nat, curve[i]));
}

/// Where there is no footage the curve is one stretch of no length, at the base rate.
pub proof fn curves_of_no_footage_are_empty(windows: Seq<EventWindow>, tier: Tier, total: i64)
    requires
        total <= 0,
    ensures
        ({
            let c = crate::timelapse::speed_curve::curve_of(windows, tier, total);
            &&& c.len() == 1
            &&& c[0].concat_start == 0 && c[0].concat_end == 0
            &&& c[0].rate == tier.base()
        }),
{
}

/// The streams are named one after the other, each by its number in brackets.
pub proof fn streams_are_numbered(kind: Seq<char>, n: nat)
    ensures
        crate::timelapse::speed_curve::stream_names(kind, 0).len() == 0,
        crate::timelapse::speed_curve::stream_names(kind, n + 1)
            == crate::timelapse::speed_curve::stream_names(kind, n) + (seq!['['] + kind
            + crate::text::decimal(n) + seq![']']),
{
    reveal_strlit("[");
    reveal_strlit("]");
    assert("["@ =~= seq!['[']);
    assert("]"@ =~= seq![']']);
    assert(crate::timelapse::speed_curve::stream_names(kind, n + 1)
        =~= crate::timelapse::speed_curve::stream_names(kind, n) + (seq!['['] + kind
        + crate::text::decimal(n) + seq![']']));
}

/// A text holds a bare list exactly where it begins with a bracket, after white space.
pub proof fn bare_lists_begin_with_a_bracket(blank: Seq<char>, c: char, rest: Seq<char>)
    requires
        forall|i: int| 0 <= i < blank.len() ==> crate::text::is_space(#[trigger] blank[i]),
        !crate::text::is_space(c),
    ensures
        crate::timelapse::speed_curve::is_bare_list(blank + (seq![c] + rest)) <==> c == '[',
        !crate::timelapse::speed_curve::is_bare_list(blank),
{
    let t = seq![c] + rest;
    crate::laws::paths::lemma_trim_start(blank, t);
    crate::laws::paths::lemma_trim_start(blank, Seq::empty());
    assert(blank + Seq::<char>::empty() =~= blank);
    assert(t[0] == c);
}

/// A curve of one stretch is shown whole, at its rate.
pub proof fn single_stretches_are_shown_whole(
    s: CurveSegment,
    scale: Seq<char>,
    input: Seq<char>,
)
    ensures
        crate::timelapse::speed_curve::filter_graph(seq![s], scale, input) == "["@ + input + "]"@
            + crate::timelapse::speed_curve::normalizing(scale) + ",setpts=PTS/"@
            + crate::text::decimal(s.rate as nat) + "[out]"@,
        crate::timelapse::speed_curve::window_filter(scale, s.rate)
            == crate::timelapse::speed_curve::filter_graph(seq![s], scale, "0:v"@),
{
    reveal_strlit("[0:v]");
    reveal_strlit("[");
    reveal_strlit("0:v");
    reveal_strlit("]");
    assert("[0:v]"@ =~= "["@ + "0:v"@ + "]"@);
}

} // verus!
