//! Identifiers of segments and trips: 128-bit UUIDs and their text.

use crate::error::AppError;
use crate::moment::Moment;
use crate::text::{concat3, decimal_int_string};
use vstd::prelude::*;
use vstd::string::StringExecFns;

verus! {

/// The hexadecimal digit of a number below sixteen, in lower case.
pub open spec fn hex_digit(d: nat) -> char {
    if d < 10 {
        (48 + d) as char
    } else {
        (87 + d) as char
    }
}

/// The last `digits` hexadecimal digits of a number.
pub open spec fn hex_digits(n: nat, digits: nat) -> Seq<char>
    decreases digits,
{
    if digits == 0 {
        Seq::empty()
    } else {
        hex_digits(n / 16, (digits - 1) as nat).push(hex_digit(n % 16))
    }
}

/// The text of a UUID: 32 lower-case hexadecimal digits in five groups with
/// hyphens between them.
pub open spec fn hyphenated(id: u128) -> Seq<char> {
    let h = hex_digits(id as nat, 32);
    h.subrange(0, 8) + seq!['-'] + h.subrange(8, 12) + seq!['-'] + h.subrange(12, 16) + seq!['-']
        + h.subrange(16, 20) + seq!['-'] + h.subrange(20, 32)
}

/// What `Uuid::parse_str` reads from a text.
pub uninterp spec fn uuid_in(text: Seq<char>) -> Option<u128>;

/// What the error of `Uuid::parse_str` says of a text that is no UUID.
pub uninterp spec fn uuid_complaint(text: Seq<char>) -> Seq<char>;

/// `uuid::Uuid::parse_str`, with the error as its text. The result depends on
/// the text alone, and the hyphenated form of every UUID reads as that UUID.
#[verifier::external_body]
pub(crate) fn parse_uuid(text: &str) -> (r: Result<u128, String>)
    ensures
        match r {
            Ok(id) => uuid_in(text@) == Some(id),
            Err(e) => uuid_in(text@) is None && e@ == uuid_complaint(text@),
        },
        r is Ok <== (exists|n: u128| text@ == #[trigger] hyphenated(n)),
        r is Ok ==> (forall|n: u128| text@ == #[trigger] hyphenated(n) ==> r->Ok_0 == n),
{
    match uuid::Uuid::parse_str(text) {
        Ok(id) => Ok(id.as_u128()),
        Err(e) => Err(e.to_string()),
    }
}

/// `uuid::Uuid::to_string`: the hyphenated form in lower case.
#[verifier::external_body]
pub(crate) fn uuid_string(id: u128) -> (s: String)
    ensures
        s@ == hyphenated(id),
{
    uuid::Uuid::from_u128(id).to_string()
}

/// What `Uuid::new_v5` derives from a namespace and a name.
pub uninterp spec fn uuid_v5(namespace: u128, name: Seq<char>) -> u128;

/// `uuid::Uuid::new_v5`: the name-based UUID of the UTF-8 form of a name in a
/// namespace, a function of the two alone.
#[verifier::external_body]
pub(crate) fn name_uuid(namespace: u128, name: &str) -> (id: u128)
    ensures
        id == uuid_v5(namespace, name@),
{
    uuid::Uuid::new_v5(&uuid::Uuid::from_u128(namespace), name.as_bytes()).as_u128()
}

/// What the debug form of a string slice is.
pub uninterp spec fn debug_quoted(text: Seq<char>) -> Seq<char>;

/// The debug form of a `str`: quoted, with special characters escaped. It
/// depends on the text alone.
#[verifier::external_body]
fn debug_string(text: &str) -> (s: String)
    ensures
        s@ == debug_quoted(text@),
{
    format!("{text:?}")
}

/// The namespace of segment identifiers.
pub const SEGMENT_NAMESPACE: u128 = 0x6ba7b811_9dad_11d1_80b4_00c04fd430c8;

/// The namespace of trip identifiers.
pub const TRIP_NAMESPACE: u128 = 0x6ba7b812_9dad_11d1_80b4_00c04fd430c8;

/// The identifier of the segment with the given main file and start.
pub open spec fn segment_id(path: Seq<char>, start: Moment) -> u128 {
    uuid_v5(
        SEGMENT_NAMESPACE,
        path + "|"@ + crate::text::decimal_int(start.secs as int) + "."@
            + crate::text::decimal_int(start.nanos as int),
    )
}

/// The identifier of the trip whose first segment is given.
pub open spec fn trip_id(first_segment: u128) -> u128 {
    uuid_v5(TRIP_NAMESPACE, hyphenated(first_segment))
}

/// The identifier of a segment, derived from its main file and its start: the
/// same file gives the same identifier on every scan.
pub fn derive_segment_id(path: &str, start: Moment) -> (id: u128)
    ensures
        id == segment_id(path@, start),
{
    let mut name = concat3(path, "|", decimal_int_string(start.secs).as_str());
    name.append(".");
    name.append(decimal_int_string(start.nanos as i64).as_str());
    name_uuid(SEGMENT_NAMESPACE, name.as_str())
}

/// The identifier of a trip, derived from its first segment.
pub fn derive_trip_id(first_segment: u128) -> (id: u128)
    ensures
        id == trip_id(first_segment),
{
    name_uuid(TRIP_NAMESPACE, uuid_string(first_segment).as_str())
}

/// The text of an identifier.
pub fn id_text(id: u128) -> (s: String)
    ensures
        s@ == hyphenated(id),
{
    uuid_string(id)
}

/// The complaint about a text that names no trip.
pub open spec fn trip_uuid_complaint(text: Seq<char>) -> Seq<char> {
    "invalid trip UUID "@ + debug_quoted(text) + ": "@ + uuid_complaint(text)
}

/// The trip that a text names.
pub fn parse_trip_uuid(text: &str) -> (r: Result<u128, AppError>)
    ensures
        match r {
            Ok(id) => uuid_in(text@) == Some(id),
            Err(e) => uuid_in(text@) is None && crate::error::is_internal(
                e,
                trip_uuid_complaint(text@),
            ),
        },
{
    match parse_uuid(text) {
        Ok(id) => Ok(id),
        Err(why) => {
            let mut m = concat3("invalid trip UUID ", debug_string(text).as_str(), ": ");
            m.append(why.as_str());
            Err(AppError::Internal(m))
        },
    }
}

/// The trips that the texts name, or the complaint about the first text that
/// names none.
pub fn parse_trip_uuids(texts: &Vec<String>) -> (r: Result<Vec<u128>, AppError>)
    ensures
        match r {
            Ok(ids) => ids.len() == texts.len() && forall|i: int|
                0 <= i < texts.len() ==> uuid_in((#[trigger] texts@[i])@) == Some(ids@[i]),
            Err(e) => exists|k: int|
                0 <= k < texts.len() && uuid_in((#[trigger] texts@[k])@) is None && (forall|j: int|
                    0 <= j < k ==> uuid_in((#[trigger] texts@[j])@) is Some)
                    && crate::error::is_internal(e, trip_uuid_complaint(texts@[k]@)),
        },
{
    let mut ids: Vec<u128> = Vec::new();
    let mut i: usize = 0;
    while i < texts.len()
        invariant
            i <= texts.len(),
            ids.len() == i,
            forall|j: int| 0 <= j < i ==> uuid_in((#[trigger] texts@[j])@) == Some(ids@[j]),
        decreases texts.len() - i,
    {
        match parse_trip_uuid(texts[i].as_str()) {
            Ok(id) => {
                ids.push(id);
            },
            Err(e) => {
                return Err(e);
            },
        }
        i += 1;
    }
    Ok(ids)
}

proof fn lemma_hex_digits_len(n: nat, digits: nat)
    ensures
        hex_digits(n, digits).len() == digits,
    decreases digits,
{
    if digits > 0 {
        lemma_hex_digits_len(n / 16, (digits - 1) as nat);
    }
}

/// `c` is a hexadecimal digit.
pub open spec fn is_hex(c: char) -> bool {
    ('0' <= c && c <= '9') || ('a' <= c && c <= 'f') || ('A' <= c && c <= 'F')
}

proof fn lemma_hex_digits_are_hex(n: nat, digits: nat)
    ensures
        hex_digits(n, digits).len() == digits,
        forall|i: int| 0 <= i < digits ==> is_hex(#[trigger] hex_digits(n, digits)[i]),
    decreases digits,
{
    if digits > 0 {
        lemma_hex_digits_are_hex(n / 16, (digits - 1) as nat);
        let h = hex_digits(n / 16, (digits - 1) as nat);
        assert(is_hex(hex_digit(n % 16)));
        assert forall|i: int| 0 <= i < digits implies is_hex(
            #[trigger] hex_digits(n, digits)[i],
        ) by {
            if i < digits - 1 {
                assert(hex_digits(n, digits)[i] == h[i]);
            }
        }
    }
}

/// `s` has the shape of a UUID: 36 characters, hyphens at four fixed places and
/// hexadecimal digits at all others.
pub open spec fn has_uuid_shape(s: Seq<char>) -> bool {
    &&& s.len() == 36
    &&& forall|i: int|
        0 <= i < 36 ==> if i == 8 || i == 13 || i == 18 || i == 23 {
            #[trigger] s[i] == '-'
        } else {
            is_hex(s[i])
        }
}

/// Whether a text has the shape of a UUID.
pub fn is_uuid_shape(s: &[char]) -> (r: bool)
    ensures
        r == has_uuid_shape(s@),
{
    if s.len() != 36 {
        return false;
    }
    let mut i: usize = 0;
    while i < 36
        invariant
            i <= 36,
            s.len() == 36,
            forall|j: int|
                0 <= j < i ==> if j == 8 || j == 13 || j == 18 || j == 23 {
                    #[trigger] s@[j] == '-'
                } else {
                    is_hex(s@[j])
                },
        decreases 36 - i,
    {
        let c = s[i];
        if i == 8 || i == 13 || i == 18 || i == 23 {
            if c != '-' {
                proof {
                    assert(s@[i as int] != '-');
                }
                return false;
            }
        } else if !('0' <= c && c <= '9' || 'a' <= c && c <= 'f' || 'A' <= c && c <= 'F') {
            proof {
                assert(!is_hex(s@[i as int]));
            }
            return false;
        }
        i += 1;
    }
    true
}

/// The text of every identifier has the shape of a UUID.
pub proof fn id_text_has_uuid_shape(id: u128)
    ensures
        has_uuid_shape(hyphenated(id)),
{
    lemma_hex_digits_are_hex(id as nat, 32);
    let h = hex_digits(id as nat, 32);
    let s = hyphenated(id);
    assert(s.len() == 36);
    assert forall|i: int| 0 <= i < 36 implies if i == 8 || i == 13 || i == 18 || i == 23 {
        #[trigger] s[i] == '-'
    } else {
        is_hex(s[i])
    } by {
        if i < 8 {
            assert(s[i] == h[i]);
        } else if 8 < i < 13 {
            assert(s[i] == h[i - 1]);
        } else if 13 < i < 18 {
            assert(s[i] == h[i - 2]);
        } else if 18 < i < 23 {
            assert(s[i] == h[i - 3]);
        } else if i > 23 {
            assert(s[i] == h[i - 4]);
        }
    }
}

proof fn lemma_hex_digits_injective(a: nat, b: nat, digits: nat)
    requires
        hex_digits(a, digits) == hex_digits(b, digits),
    ensures
        a % vstd::arithmetic::power::pow(16, digits) as nat == b % vstd::arithmetic::power::pow(
            16,
            digits,
        ) as nat,
    decreases digits,
{
    use_pow(digits);
    if digits > 0 {
        let d = (digits - 1) as nat;
        let x = hex_digits(a, digits);
        let y = hex_digits(b, digits);
        assert(x.last() == hex_digit(a % 16) && y.last() == hex_digit(b % 16));
        assert(a % 16 == b % 16);
        assert(x.drop_last() == hex_digits(a / 16, d));
        assert(y.drop_last() == hex_digits(b / 16, d));
        lemma_hex_digits_injective(a / 16, b / 16, d);
        use_pow(d);
        let p = vstd::arithmetic::power::pow(16, d);
        vstd::arithmetic::div_mod::lemma_mod_breakdown(a as int, 16, p);
        vstd::arithmetic::div_mod::lemma_mod_breakdown(b as int, 16, p);
    } else {
        vstd::arithmetic::power::lemma_pow0(16);
    }
}

proof fn use_pow(d: nat)
    ensures
        vstd::arithmetic::power::pow(16, d) > 0,
        d > 0 ==> vstd::arithmetic::power::pow(16, d) == 16 * vstd::arithmetic::power::pow(
            16,
            (d - 1) as nat,
        ),
{
    vstd::arithmetic::power::lemma_pow_positive(16, d);
    if d > 0 {
        reveal(vstd::arithmetic::power::pow);
    }
}

/// Different identifiers have different texts.
pub proof fn id_texts_differ(a: u128, b: u128)
    requires
        hyphenated(a) == hyphenated(b),
    ensures
        a == b,
{
    lemma_hex_digits_len(a as nat, 32);
    lemma_hex_digits_len(b as nat, 32);
    let x = hex_digits(a as nat, 32);
    let y = hex_digits(b as nat, 32);
    let s = hyphenated(a);
    assert forall|i: int| 0 <= i < 32 implies x[i] == y[i] by {
        if i < 8 {
            assert(s[i] == x[i]);
        } else if i < 12 {
            assert(s[i + 1] == x[i]);
        } else if i < 16 {
            assert(s[i + 2] == x[i]);
        } else if i < 20 {
            assert(s[i + 3] == x[i]);
        } else {
            assert(s[i + 4] == x[i]);
        }
    }
    assert(x == y);
    lemma_hex_digits_injective(a as nat, b as nat, 32);
    assert(vstd::arithmetic::power::pow(16, 32) == 0x1_0000_0000_0000_0000_0000_0000_0000_0000int)
        by {
        reveal_with_fuel(vstd::arithmetic::power::pow, 33);
    }
    vstd::arithmetic::div_mod::lemma_small_mod(
        a as nat,
        vstd::arithmetic::power::pow(16, 32) as nat,
    );
    vstd::arithmetic::div_mod::lemma_small_mod(
        b as nat,
        vstd::arithmetic::power::pow(16, 32) as nat,
    );
}

} // verus!
