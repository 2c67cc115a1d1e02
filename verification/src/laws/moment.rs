//! Laws of dates and times.

use crate::moment::Moment;
use vstd::prelude::*;

verus! {

/// The order of moments is that of their seconds, and within a second that of the
/// nanoseconds.
pub proof fn moments_are_ordered_by_time(a: Moment, b: Moment)
    ensures
        a.order() < b.order() <==> a.secs < b.secs || a.secs == b.secs && a.nanos < b.nanos,
        a.order() == b.order() <==> a == b,
{
}

/// Going on from a moment and looking back gives the seconds that were gone.
pub proof fn going_on_and_looking_back(m: Moment, seconds: int)
    requires
        m.nanos < 1_000_000_000,
        i64::MIN <= m.secs + seconds <= i64::MAX,
    ensures
        m.after(seconds).secs == m.secs + seconds,
        m.after(seconds).nanos == m.nanos,
        m.after(seconds).seconds_since_spec(m) == seconds,
        m.seconds_since_spec(m.after(seconds)) == -seconds,
{
    let n = m.after(seconds);
    assert(n.nanos_since(m) == seconds * 1_000_000_000);
    assert(m.nanos_since(n) == -seconds * 1_000_000_000);
}

/// A moment in milliseconds goes on by a thousand with each second, and does not go back
/// within one.
pub proof fn milliseconds_count_the_time(a: Moment, b: Moment)
    ensures
        a.nanos == b.nanos ==> b.millis_spec() - a.millis_spec() == 1000 * (b.secs - a.secs),
        a.secs == b.secs && b.nanos - a.nanos == 1_000_000 ==> b.millis_spec() - a.millis_spec()
            == 1,
        a.secs == 0 && a.nanos == 0 ==> a.millis_spec() == 0,
        a.secs == b.secs && a.nanos <= b.nanos ==> a.millis_spec() <= b.millis_spec(),
{
}

/// Between moments on whole seconds lie the seconds that they differ by.
pub proof fn whole_seconds_apart(a: Moment, b: Moment)
    requires
        a.nanos == 0,
        b.nanos == 0,
    ensures
        b.seconds_since_spec(a) == b.secs - a.secs,
        b.distance_spec(a) == if b.secs >= a.secs {
            b.secs - a.secs
        } else {
            a.secs - b.secs
        },
{
    assert(b.nanos_since(a) == (b.secs - a.secs) * 1_000_000_000);
}

/// Every second, minute, hour, day, month and year follows on the one before it;
/// the count begins with 1970.
pub proof fn times_follow_each_other(y: int, m: int, d: int, hh: int, mi: int, ss: int)
    requires
        0 <= y <= 9999,
        crate::moment::is_date(y, m, d),
        0 <= hh < 24,
        0 <= mi < 60,
        0 <= ss < 60,
    ensures
        ({
            let t = crate::moment::civil(y, m, d, hh, mi, ss);
            &&& t is Some
            &&& t->0.nanos == 0
            &&& crate::moment::civil(y, m, d, 0, 0, 0)->0.secs + hh * 3600 + mi * 60 + ss
                == t->0.secs
            &&& crate::moment::is_date(y, m, d + 1) ==> crate::moment::civil(
                y,
                m,
                d + 1,
                hh,
                mi,
                ss,
            )->0.secs == t->0.secs + 86400
            &&& m < 12 && !crate::moment::is_date(y, m, d + 1) ==> crate::moment::civil(
                y,
                m + 1,
                1,
                hh,
                mi,
                ss,
            )->0.secs == t->0.secs + 86400
            &&& m == 12 && d == 31 && y < 9999 ==> crate::moment::civil(
                y + 1,
                1,
                1,
                hh,
                mi,
                ss,
            )->0.secs == t->0.secs + 86400
        }),
        crate::moment::civil(1970, 1, 1, 0, 0, 0) == Some(Moment { secs: 0, nanos: 0 }),
{
    lemma_year(y);
    lemma_months(y, m);
    reveal_with_fuel(crate::moment::days_before_month, 13);
}

proof fn lemma_year(y: int)
    ensures
        crate::moment::days_before_year(y + 1) == crate::moment::days_before_year(y) + (
        if crate::moment::is_leap_year(y) {
            366int
        } else {
            365
        }),
        crate::moment::days_before_year(1970) == 719162,
{
    lemma_quotients(y, 4);
    lemma_quotients(y, 100);
    lemma_quotients(y, 400);
}

proof fn lemma_quotients(y: int, d: int)
    requires
        d == 4 || d == 100 || d == 400,
    ensures
        y / d - (y - 1) / d == if y % d == 0 {
            1int
        } else {
            0
        },
{
}

proof fn lemma_months(y: int, m: int)
    requires
        1 <= m <= 12,
    ensures
        crate::moment::days_before_month(y, m + 1) == crate::moment::days_before_month(y, m)
            + crate::moment::month_days(y, m),
        0 <= crate::moment::days_before_month(y, m) <= 31 * (m - 1),
    decreases m,
{
    if m > 1 {
        lemma_months(y, m - 1);
    }
}

/// What is not a date or a time of day has no moment.
pub proof fn there_is_no_other_time(y: int, m: int, d: int, hh: int, mi: int, ss: int)
    ensures
        crate::moment::civil(y, m, d, hh, mi, ss) is Some ==> 1 <= m <= 12 && 1 <= d <= 31 && 0 <= hh
            < 24 && 0 <= mi < 60 && 0 <= ss < 60,
        crate::moment::civil(y, 2, 30, hh, mi, ss) is None,
        !crate::moment::is_leap_year(y) ==> crate::moment::civil(y, 2, 29, hh, mi, ss) is None,
        crate::moment::civil(y, 4, 31, hh, mi, ss) is None,
{
}

} // verus!
