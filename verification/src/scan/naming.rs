//! File names of the supported cameras.
//!
//! Each format has a spec function from the characters of a file name to what
//! the name tells. Dates are read by the calendar functions of `moment`; the
//! rest of each format stands in a function of its own that takes the date as
//! an argument.

use crate::error::AppError;
use crate::moment::{civil_moment, parse_datetime, Moment};
use crate::text::{
    are_digits, chars_of, digits_number, ends_with, is_str, owned, parse_unsigned, push_chars,
    split_chars, string_of,
};
use vstd::prelude::*;
use vstd::slice::slice_subrange;
use vstd::string::StringExecFns;

verus! {

/// Label of the camera that looks ahead.
pub const LABEL_FRONT: &'static str = "Front";

/// Label of the camera that looks into the cabin.
pub const LABEL_INTERIOR: &'static str = "Interior";

/// Label of the camera that looks behind.
pub const LABEL_REAR: &'static str = "Rear";

/// Why the camera recorded the clip.
#[derive(Debug, Clone, Copy, PartialEq, Eq, Structural)]
pub enum EventMode {
    Normal,
    Event,
    Parked,
    Lapse,
    Other(u8),
}

/// Which family of cameras wrote a file.
#[derive(Debug, Clone, Copy, PartialEq, Eq, Structural)]
pub enum CameraKind {
    WolfBox,
    Thinkware,
    Miltona,
    SeventyMai,
    Generic,
}

impl CameraKind {
    /// Whether positions can be read from files of this camera: from all but
    /// those of Thinkware.
    pub open spec fn has_gps(self) -> bool {
        self != CameraKind::Thinkware
    }

    /// Whether positions can be read from files of this camera.
    pub fn gps_supported(self) -> (r: bool)
        ensures
            r == self.has_gps(),
    {
        match self {
            CameraKind::WolfBox => true,
            CameraKind::Miltona => true,
            CameraKind::SeventyMai => true,
            CameraKind::Thinkware => false,
            CameraKind::Generic => true,
        }
    }
}

/// What a file name tells of the clip.
#[derive(Debug)]
pub struct ParsedName {
    pub start_time: Moment,
    pub event_mode: EventMode,
    pub channel_label: String,
    pub group_key: String,
    pub camera_kind: CameraKind,
}

/// What a file name tells, with texts as sequences of characters.
pub struct NameView {
    pub start: Moment,
    pub mode: EventMode,
    pub label: Seq<char>,
    pub key: Seq<char>,
    pub kind: CameraKind,
}

impl View for ParsedName {
    type V = NameView;

    open spec fn view(&self) -> NameView {
        NameView {
            start: self.start_time,
            mode: self.event_mode,
            label: self.channel_label@,
            key: self.group_key@,
            kind: self.camera_kind,
        }
    }
}

impl Clone for ParsedName {
    fn clone(&self) -> (r: Self)
        ensures
            r == *self,
    {
        ParsedName {
            start_time: self.start_time,
            event_mode: self.event_mode,
            channel_label: self.channel_label.clone(),
            group_key: self.group_key.clone(),
            camera_kind: self.camera_kind,
        }
    }
}

/// The view of an optional parsed name.
pub open spec fn name_view(o: Option<ParsedName>) -> Option<NameView> {
    match o {
        Some(p) => Some(p@),
        None => None,
    }
}

/// The file name without its video extension, where it has one.
pub open spec fn stem_of(name: Seq<char>) -> Option<Seq<char>> {
    if crate::text::has_suffix(name, ".MP4"@) || crate::text::has_suffix(name, ".mp4"@)
        || crate::text::has_suffix(name, ".MOV"@) || crate::text::has_suffix(name, ".mov"@) {
        Some(name.take(name.len() - 4))
    } else {
        None
    }
}

/// The file name without its video extension, as characters.
fn stem_chars(filename: &str) -> (r: Option<Vec<char>>)
    ensures
        match r {
            Some(v) => stem_of(filename@) == Some(v@),
            None => stem_of(filename@) is None,
        },
{
    let all = chars_of(filename);
    proof {
        reveal_strlit(".MP4");
        reveal_strlit(".mp4");
        reveal_strlit(".MOV");
        reveal_strlit(".mov");
    }
    if ends_with(all.as_slice(), ".MP4") || ends_with(all.as_slice(), ".mp4") || ends_with(
        all.as_slice(),
        ".MOV",
    ) || ends_with(all.as_slice(), ".mov") {
        let mut v = all;
        let n: usize = v.len() - 4;
        v.truncate(n);
        proof {
            assert(v@ == filename@.take(n as int));
        }
        Some(v)
    } else {
        None
    }
}

/// The file name without its video extension, where it has one.
pub fn strip_video_ext(filename: &str) -> (r: Option<String>)
    ensures
        crate::text::opt_view(r) == stem_of(filename@),
{
    match stem_chars(filename) {
        Some(v) => Some(string_of(v.as_slice())),
        None => None,
    }
}

/// The channel label for the letters that cameras with a cabin camera use.
pub open spec fn fir_label(chan: Seq<char>) -> Option<Seq<char>> {
    if chan == "F"@ {
        Some(LABEL_FRONT@)
    } else if chan == "I"@ {
        Some(LABEL_INTERIOR@)
    } else if chan == "R"@ {
        Some(LABEL_REAR@)
    } else {
        None
    }
}

fn fir_channel(chan: &[char]) -> (r: Option<String>)
    ensures
        crate::text::opt_view(r) == fir_label(chan@),
{
    if is_str(chan, "F") {
        Some(owned(LABEL_FRONT))
    } else if is_str(chan, "I") {
        Some(owned(LABEL_INTERIOR))
    } else if is_str(chan, "R") {
        Some(owned(LABEL_REAR))
    } else {
        None
    }
}

// ---------------------------------------------------------------- Wolf Box

/// The date and time as a Wolf Box name spells them.
pub open spec fn wolfbox_stamp(p: Seq<Seq<char>>) -> Seq<char> {
    p[0] + "_"@ + p[1] + "_"@ + p[2] + "_"@ + p[3]
}

/// The recording mode of a Wolf Box event code.
pub open spec fn wolfbox_mode(code: Seq<char>) -> Option<EventMode> {
    if code == "00"@ {
        Some(EventMode::Normal)
    } else if code == "02"@ {
        Some(EventMode::Event)
    } else {
        match crate::text::unsigned_value(code, 255) {
            Some(n) => Some(EventMode::Other(n as u8)),
            None => None,
        }
    }
}

/// What the six fields of a Wolf Box name tell, given its start.
pub open spec fn wolfbox_fields(p: Seq<Seq<char>>, start: Option<Moment>) -> Option<NameView> {
    match (start, wolfbox_mode(p[4]), fir_label(p[5])) {
        (Some(t), Some(mode), Some(label)) => Some(
            NameView {
                start: t,
                mode,
                label,
                key: "wb:"@ + wolfbox_stamp(p) + "_"@ + p[4],
                kind: CameraKind::WolfBox,
            },
        ),
        _ => None,
    }
}

/// `YYYY_MM_DD_HHMMSS_EE_C`: what a Wolf Box name tells.
pub open spec fn wolfbox_name(name: Seq<char>) -> Option<NameView> {
    match stem_of(name) {
        Some(stem) => {
            let p = crate::text::split(stem, '_');
            if p.len() == 6 {
                wolfbox_fields(p, crate::moment::datetime_in(wolfbox_stamp(p), "%Y_%m_%d_%H%M%S"@))
            } else {
                None
            }
        },
        None => None,
    }
}

fn wolfbox_stamp_text(p: &Vec<Vec<char>>) -> (s: String)
    requires
        p.len() >= 4,
    ensures
        s@ == wolfbox_stamp(crate::text::pieces(p@)),
{
    let mut s = string_of(p[0].as_slice());
    s.append("_");
    push_chars(&mut s, p[1].as_slice());
    s.append("_");
    push_chars(&mut s, p[2].as_slice());
    s.append("_");
    push_chars(&mut s, p[3].as_slice());
    s
}

fn wolfbox_event_mode(code: &[char]) -> (r: Option<EventMode>)
    ensures
        r == wolfbox_mode(code@),
{
    if is_str(code, "00") {
        Some(EventMode::Normal)
    } else if is_str(code, "02") {
        Some(EventMode::Event)
    } else {
        match parse_unsigned(code, 255) {
            Some(n) => Some(EventMode::Other(n as u8)),
            None => None,
        }
    }
}

/// What the six fields of a Wolf Box name tell, given its start.
pub fn wolfbox_from_fields(p: &Vec<Vec<char>>, start: Option<Moment>) -> (r: Option<ParsedName>)
    requires
        p.len() == 6,
    ensures
        name_view(r) == wolfbox_fields(crate::text::pieces(p@), start),
{
    let ghost parts = crate::text::pieces(p@);
    let start_time = match start {
        Some(t) => t,
        None => {
            return None;
        },
    };
    let event_mode = match wolfbox_event_mode(p[4].as_slice()) {
        Some(m) => m,
        None => {
            return None;
        },
    };
    let channel_label = match fir_channel(p[5].as_slice()) {
        Some(l) => l,
        None => {
            return None;
        },
    };
    let mut group_key = owned("wb:");
    group_key.append(wolfbox_stamp_text(p).as_str());
    group_key.append("_");
    push_chars(&mut group_key, p[4].as_slice());
    Some(
        ParsedName {
            start_time,
            event_mode,
            channel_label,
            group_key,
            camera_kind: CameraKind::WolfBox,
        },
    )
}

/// Reads a Wolf Box name.
pub fn parse_wolfbox(filename: &str) -> (r: Option<ParsedName>)
    ensures
        name_view(r) == wolfbox_name(filename@),
{
    let stem = match stem_chars(filename) {
        Some(v) => v,
        None => {
            return None;
        },
    };
    let p = split_chars(stem.as_slice(), '_');
    if p.len() != 6 {
        return None;
    }
    let start = parse_datetime(wolfbox_stamp_text(&p).as_str(), "%Y_%m_%d_%H%M%S");
    wolfbox_from_fields(&p, start)
}

// --------------------------------------------------------------- Thinkware

/// Three ASCII capitals.
pub open spec fn is_thinkware_prefix(s: Seq<char>) -> bool {
    s.len() == 3 && forall|i: int| 0 <= i < 3 ==> 'A' <= #[trigger] s[i] && s[i] <= 'Z'
}

/// The date and time of a Thinkware name, as the calendar reads them.
pub open spec fn thinkware_stamp(p: Seq<Seq<char>>) -> Seq<char> {
    p[1] + "-"@ + p[2] + "-"@ + p[3] + "T"@ + p[4] + ":"@ + p[5] + ":"@ + p[6]
}

/// The channel label for cameras without a cabin camera.
pub open spec fn fr_label(chan: Seq<char>) -> Option<Seq<char>> {
    if chan == "F"@ {
        Some(LABEL_FRONT@)
    } else if chan == "R"@ {
        Some(LABEL_REAR@)
    } else {
        None
    }
}

/// What the eight fields of a Thinkware name tell, given its start.
pub open spec fn thinkware_fields(p: Seq<Seq<char>>, start: Option<Moment>) -> Option<NameView> {
    if is_thinkware_prefix(p[0]) {
        match (start, fr_label(p[7])) {
            (Some(t), Some(label)) => Some(
                NameView {
                    start: t,
                    mode: if p[0] == "EVT"@ {
                        EventMode::Event
                    } else {
                        EventMode::Normal
                    },
                    label,
                    key: "tw:"@ + p[1] + p[2] + p[3] + "_"@ + p[4] + p[5] + p[6] + "_"@ + p[0],
                    kind: CameraKind::Thinkware,
                },
            ),
            _ => None,
        }
    } else {
        None
    }
}

/// `PPP_YYYY_MM_DD_HH_MM_SS_C`: what a Thinkware name tells.
pub open spec fn thinkware_name(name: Seq<char>) -> Option<NameView> {
    match stem_of(name) {
        Some(stem) => {
            let p = crate::text::split(stem, '_');
            if p.len() == 8 {
                thinkware_fields(
                    p,
                    crate::moment::datetime_in(thinkware_stamp(p), "%Y-%m-%dT%H:%M:%S"@),
                )
            } else {
                None
            }
        },
        None => None,
    }
}

fn thinkware_stamp_text(p: &Vec<Vec<char>>) -> (s: String)
    requires
        p.len() == 8,
    ensures
        s@ == thinkware_stamp(crate::text::pieces(p@)),
{
    let mut s = string_of(p[1].as_slice());
    s.append("-");
    push_chars(&mut s, p[2].as_slice());
    s.append("-");
    push_chars(&mut s, p[3].as_slice());
    s.append("T");
    push_chars(&mut s, p[4].as_slice());
    s.append(":");
    push_chars(&mut s, p[5].as_slice());
    s.append(":");
    push_chars(&mut s, p[6].as_slice());
    s
}

fn thinkware_prefix(s: &[char]) -> (r: bool)
    ensures
        r == is_thinkware_prefix(s@),
{
    if s.len() != 3 {
        return false;
    }
    let ok = 'A' <= s[0] && s[0] <= 'Z' && 'A' <= s[1] && s[1] <= 'Z' && 'A' <= s[2] && s[2] <= 'Z';
    proof {
        if !ok {
            assert(!('A' <= s@[0] && s@[0] <= 'Z') || !('A' <= s@[1] && s@[1] <= 'Z') || !('A'
                <= s@[2] && s@[2] <= 'Z'));
        }
    }
    ok
}

/// What the eight fields of a Thinkware name tell, given its start.
pub fn thinkware_from_fields(p: &Vec<Vec<char>>, start: Option<Moment>) -> (r: Option<ParsedName>)
    requires
        p.len() == 8,
    ensures
        name_view(r) == thinkware_fields(crate::text::pieces(p@), start),
{
    let ghost parts = crate::text::pieces(p@);
    if !thinkware_prefix(p[0].as_slice()) {
        proof {
            assert(parts[0] == p[0]@);
        }
        return None;
    }
    let start_time = match start {
        Some(t) => t,
        None => {
            return None;
        },
    };
    let event_mode = if is_str(p[0].as_slice(), "EVT") {
        EventMode::Event
    } else {
        EventMode::Normal
    };
    let channel_label = if is_str(p[7].as_slice(), "F") {
        owned(LABEL_FRONT)
    } else if is_str(p[7].as_slice(), "R") {
        owned(LABEL_REAR)
    } else {
        proof {
            assert(parts[7] == p[7]@);
        }
        return None;
    };
    let mut group_key = owned("tw:");
    push_chars(&mut group_key, p[1].as_slice());
    push_chars(&mut group_key, p[2].as_slice());
    push_chars(&mut group_key, p[3].as_slice());
    group_key.append("_");
    push_chars(&mut group_key, p[4].as_slice());
    push_chars(&mut group_key, p[5].as_slice());
    push_chars(&mut group_key, p[6].as_slice());
    group_key.append("_");
    push_chars(&mut group_key, p[0].as_slice());
    proof {
        assert(parts[0] == p[0]@ && parts[7] == p[7]@);
    }
    Some(
        ParsedName {
            start_time,
            event_mode,
            channel_label,
            group_key,
            camera_kind: CameraKind::Thinkware,
        },
    )
}

/// Reads a Thinkware name.
pub fn parse_thinkware(filename: &str) -> (r: Option<ParsedName>)
    ensures
        name_view(r) == thinkware_name(filename@),
{
    let stem = match stem_chars(filename) {
        Some(v) => v,
        None => {
            return None;
        },
    };
    let p = split_chars(stem.as_slice(), '_');
    if p.len() != 8 {
        return None;
    }
    let start = parse_datetime(thinkware_stamp_text(&p).as_str(), "%Y-%m-%dT%H:%M:%S");
    thinkware_from_fields(&p, start)
}

// ----------------------------------------------------------------- Miltona

/// A serial number of at least one digit with a channel letter behind it.
pub open spec fn is_serial_and_letter(tail: Seq<char>) -> bool {
    tail.len() >= 2 && crate::text::all_digits(tail.drop_last())
}

/// The date, time and tail of a Miltona name have the right shape.
pub open spec fn is_miltona_shape(p: Seq<Seq<char>>) -> bool {
    &&& p[0].len() == 6 && crate::text::all_digits(p[0])
    &&& p[1].len() == 6 && crate::text::all_digits(p[1])
    &&& is_serial_and_letter(p[2])
}

/// The date and time of a Miltona name, as the calendar reads them: its years
/// count from 2000.
pub open spec fn miltona_stamp(p: Seq<Seq<char>>) -> Seq<char> {
    "20"@ + p[0].subrange(0, 2) + "-"@ + p[0].subrange(2, 4) + "-"@ + p[0].subrange(4, 6) + "T"@
        + p[1].subrange(0, 2) + ":"@ + p[1].subrange(2, 4) + ":"@ + p[1].subrange(4, 6)
}

/// What the three fields of a Miltona name tell, given its start.
pub open spec fn miltona_fields(p: Seq<Seq<char>>, start: Option<Moment>) -> Option<NameView> {
    if is_miltona_shape(p) {
        match (start, fir_label(seq![p[2].last()])) {
            (Some(t), Some(label)) => Some(
                NameView {
                    start: t,
                    mode: EventMode::Normal,
                    label,
                    key: "mt:"@ + p[0] + "_"@ + p[1] + "_"@ + p[2].drop_last(),
                    kind: CameraKind::Miltona,
                },
            ),
            _ => None,
        }
    } else {
        None
    }
}

/// `FILEYYMMDD-HHMMSS-<serial><C>`: what a Miltona name tells.
pub open spec fn miltona_name(name: Seq<char>) -> Option<NameView> {
    match stem_of(name) {
        Some(stem) => if crate::text::has_prefix(stem, "FILE"@) {
            let p = crate::text::split(stem.skip(4), '-');
            if p.len() == 3 && is_miltona_shape(p) {
                miltona_fields(
                    p,
                    crate::moment::datetime_in(miltona_stamp(p), "%Y-%m-%dT%H:%M:%S"@),
                )
            } else {
                None
            }
        } else {
            None
        },
        None => None,
    }
}

fn serial_and_letter(tail: &[char]) -> (r: bool)
    ensures
        r == is_serial_and_letter(tail@),
{
    if tail.len() < 2 {
        return false;
    }
    let serial = slice_subrange(tail, 0, tail.len() - 1);
    proof {
        assert(serial@ == tail@.drop_last());
    }
    are_digits(serial)
}

fn miltona_shape(p: &Vec<Vec<char>>) -> (r: bool)
    requires
        p.len() == 3,
    ensures
        r == is_miltona_shape(crate::text::pieces(p@)),
{
    proof {
        let parts = crate::text::pieces(p@);
        assert(parts[0] == p[0]@ && parts[1] == p[1]@ && parts[2] == p[2]@);
    }
    p[0].len() == 6 && are_digits(p[0].as_slice()) && p[1].len() == 6 && are_digits(p[1].as_slice())
        && serial_and_letter(p[2].as_slice())
}

fn push_range(s: &mut String, v: &[char], from: usize, to: usize)
    requires
        from <= to <= v.len(),
    ensures
        final(s)@ == old(s)@ + v@.subrange(from as int, to as int),
{
    push_chars(s, slice_subrange(v, from, to));
}

fn miltona_stamp_text(p: &Vec<Vec<char>>) -> (s: String)
    requires
        p.len() == 3,
        is_miltona_shape(crate::text::pieces(p@)),
    ensures
        s@ == miltona_stamp(crate::text::pieces(p@)),
{
    proof {
        let parts = crate::text::pieces(p@);
        assert(parts[0] == p[0]@ && parts[1] == p[1]@);
    }
    let mut s = owned("20");
    push_range(&mut s, p[0].as_slice(), 0, 2);
    s.append("-");
    push_range(&mut s, p[0].as_slice(), 2, 4);
    s.append("-");
    push_range(&mut s, p[0].as_slice(), 4, 6);
    s.append("T");
    push_range(&mut s, p[1].as_slice(), 0, 2);
    s.append(":");
    push_range(&mut s, p[1].as_slice(), 2, 4);
    s.append(":");
    push_range(&mut s, p[1].as_slice(), 4, 6);
    s
}

/// What the three fields of a Miltona name tell, given its start.
pub fn miltona_from_fields(p: &Vec<Vec<char>>, start: Option<Moment>) -> (r: Option<ParsedName>)
    requires
        p.len() == 3,
    ensures
        name_view(r) == miltona_fields(crate::text::pieces(p@), start),
{
    if !miltona_shape(p) {
        return None;
    }
    let ghost parts = crate::text::pieces(p@);
    proof {
        assert(parts[0] == p[0]@ && parts[1] == p[1]@ && parts[2] == p[2]@);
    }
    let start_time = match start {
        Some(t) => t,
        None => {
            return None;
        },
    };
    let tail = p[2].as_slice();
    let letter = slice_subrange(tail, tail.len() - 1, tail.len());
    let serial = slice_subrange(tail, 0, tail.len() - 1);
    proof {
        assert(letter@ == seq![parts[2].last()]);
        assert(serial@ == parts[2].drop_last());
    }
    let channel_label = match fir_channel(letter) {
        Some(l) => l,
        None => {
            return None;
        },
    };
    let mut group_key = owned("mt:");
    push_chars(&mut group_key, p[0].as_slice());
    group_key.append("_");
    push_chars(&mut group_key, p[1].as_slice());
    group_key.append("_");
    push_chars(&mut group_key, serial);
    Some(
        ParsedName {
            start_time,
            event_mode: EventMode::Normal,
            channel_label,
            group_key,
            camera_kind: CameraKind::Miltona,
        },
    )
}

/// Reads a Miltona name.
pub fn parse_miltona(filename: &str) -> (r: Option<ParsedName>)
    ensures
        name_view(r) == miltona_name(filename@),
{
    let stem = match stem_chars(filename) {
        Some(v) => v,
        None => {
            return None;
        },
    };
    if !crate::text::starts_with(stem.as_slice(), "FILE") {
        return None;
    }
    proof {
        reveal_strlit("FILE");
    }
    let rest = slice_subrange(stem.as_slice(), 4, stem.len());
    proof {
        assert(rest@ == stem@.skip(4));
    }
    let p = split_chars(rest, '-');
    if p.len() != 3 || !miltona_shape(&p) {
        return None;
    }
    let start = parse_datetime(miltona_stamp_text(&p).as_str(), "%Y-%m-%dT%H:%M:%S");
    miltona_from_fields(&p, start)
}

// -------------------------------------------------------------------- 70mai

/// The recording mode of a 70mai prefix.
pub open spec fn seventy_mai_mode(prefix: Seq<char>) -> Option<EventMode> {
    if prefix == "NO"@ {
        Some(EventMode::Normal)
    } else if prefix == "EV"@ {
        Some(EventMode::Event)
    } else if prefix == "PA"@ {
        Some(EventMode::Parked)
    } else if prefix == "LA"@ {
        Some(EventMode::Lapse)
    } else {
        None
    }
}

/// The channel label of a 70mai letter.
pub open spec fn fb_label(c: char) -> Option<Seq<char>> {
    if c == 'F' {
        Some(LABEL_FRONT@)
    } else if c == 'B' {
        Some(LABEL_REAR@)
    } else {
        None
    }
}

/// The date, time and tail of a 70mai name have the right shape.
pub open spec fn is_seventy_mai_shape(p: Seq<Seq<char>>) -> bool {
    &&& p[0].len() == 8 && crate::text::all_digits(p[0])
    &&& p[1].len() == 6 && crate::text::all_digits(p[1])
    &&& is_serial_and_letter(p[2])
}

/// The start of a 70mai clip, where the date and the time exist.
pub open spec fn seventy_mai_start(date: Seq<char>, time: Seq<char>) -> Option<Moment> {
    crate::moment::civil(
        crate::text::digits_value(date.subrange(0, 4)) as int,
        crate::text::digits_value(date.subrange(4, 6)) as int,
        crate::text::digits_value(date.subrange(6, 8)) as int,
        crate::text::digits_value(time.subrange(0, 2)) as int,
        crate::text::digits_value(time.subrange(2, 4)) as int,
        crate::text::digits_value(time.subrange(4, 6)) as int,
    )
}

/// What a 70mai name with the given prefix and fields tells.
pub open spec fn seventy_mai_fields(prefix: Seq<char>, p: Seq<Seq<char>>) -> Option<NameView> {
    if p.len() == 3 && is_seventy_mai_shape(p) {
        match (
            seventy_mai_mode(prefix),
            seventy_mai_start(p[0], p[1]),
            fb_label(p[2].last()),
        ) {
            (Some(mode), Some(start), Some(label)) => Some(
                NameView {
                    start,
                    mode,
                    label,
                    key: "7m:"@ + prefix + p[0] + "-"@ + p[1] + "-"@ + p[2].drop_last(),
                    kind: CameraKind::SeventyMai,
                },
            ),
            _ => None,
        }
    } else {
        None
    }
}

/// `<PP>YYYYMMDD-HHMMSS-<serial><C>`: what a 70mai name tells.
pub open spec fn seventy_mai_name(name: Seq<char>) -> Option<NameView> {
    match stem_of(name) {
        Some(stem) => if stem.len() >= 2 {
            seventy_mai_fields(stem.take(2), crate::text::split(stem.skip(2), '-'))
        } else {
            None
        },
        None => None,
    }
}

fn small_number(v: &[char], from: usize, to: usize) -> (n: u32)
    requires
        from <= to <= v.len(),
        to - from <= 4,
        crate::text::all_digits(v@),
    ensures
        n == crate::text::digits_value(v@.subrange(from as int, to as int)),
        n <= 9999,
{
    let d = slice_subrange(v, from, to);
    proof {
        let s = d@;
        reveal_with_fuel(crate::text::digits_value, 5);
        assert forall|i: int| 0 <= i < s.len() implies crate::text::is_digit(#[trigger] s[i]) by {
            assert(s[i] == v@[from + i]);
        }
        if s.len() >= 1 {
            assert(crate::text::is_digit(s[s.len() - 1]));
        }
        if s.len() >= 2 {
            assert(s.drop_last().last() == s[s.len() - 2]);
            assert(crate::text::is_digit(s[s.len() - 2]));
        }
        if s.len() >= 3 {
            assert(s.drop_last().drop_last().last() == s[s.len() - 3]);
            assert(crate::text::is_digit(s[s.len() - 3]));
        }
        if s.len() >= 4 {
            assert(s.drop_last().drop_last().drop_last().last() == s[s.len() - 4]);
            assert(crate::text::is_digit(s[s.len() - 4]));
        }
        assert(crate::text::digits_value(s) <= 9999);
    }
    match digits_number(d, 9999) {
        Some(n) => n as u32,
        None => 0,
    }
}

/// Reads a 70mai name.
pub fn parse_seventy_mai(filename: &str) -> (r: Option<ParsedName>)
    ensures
        name_view(r) == seventy_mai_name(filename@),
{
    let stem = match stem_chars(filename) {
        Some(v) => v,
        None => {
            return None;
        },
    };
    if stem.len() < 2 {
        return None;
    }
    let prefix = slice_subrange(stem.as_slice(), 0, 2);
    let rest = slice_subrange(stem.as_slice(), 2, stem.len());
    proof {
        assert(prefix@ == stem@.take(2));
        assert(rest@ == stem@.skip(2));
    }
    let event_mode = if is_str(prefix, "NO") {
        EventMode::Normal
    } else if is_str(prefix, "EV") {
        EventMode::Event
    } else if is_str(prefix, "PA") {
        EventMode::Parked
    } else if is_str(prefix, "LA") {
        EventMode::Lapse
    } else {
        return None;
    };
    let p = split_chars(rest, '-');
    if p.len() != 3 {
        return None;
    }
    let ghost parts = crate::text::pieces(p@);
    proof {
        assert(parts[0] == p[0]@ && parts[1] == p[1]@ && parts[2] == p[2]@);
    }
    let date = p[0].as_slice();
    let time = p[1].as_slice();
    let tail = p[2].as_slice();
    if !(date.len() == 8 && are_digits(date) && time.len() == 6 && are_digits(time)
        && serial_and_letter(tail)) {
        return None;
    }
    let start = civil_moment(
        small_number(date, 0, 4) as i32,
        small_number(date, 4, 6),
        small_number(date, 6, 8),
        small_number(time, 0, 2),
        small_number(time, 2, 4),
        small_number(time, 4, 6),
    );
    let start_time = match start {
        Some(t) => t,
        None => {
            return None;
        },
    };
    let letter: char = tail[tail.len() - 1];
    let channel_label = if letter == 'F' {
        owned(LABEL_FRONT)
    } else if letter == 'B' {
        owned(LABEL_REAR)
    } else {
        return None;
    };
    let serial = slice_subrange(tail, 0, tail.len() - 1);
    proof {
        assert(serial@ == parts[2].drop_last());
    }
    let mut group_key = owned("7m:");
    push_chars(&mut group_key, prefix);
    push_chars(&mut group_key, date);
    group_key.append("-");
    push_chars(&mut group_key, time);
    group_key.append("-");
    push_chars(&mut group_key, serial);
    Some(
        ParsedName {
            start_time,
            event_mode,
            channel_label,
            group_key,
            camera_kind: CameraKind::SeventyMai,
        },
    )
}

// ------------------------------------------------------------------ generic

/// The channel label of the last field of a four-channel recorder's name.
pub open spec fn generic_label(chan: Seq<char>) -> Option<Seq<char>> {
    if chan == "A"@ || chan == "a"@ {
        Some("Channel A"@)
    } else if chan == "B"@ || chan == "b"@ {
        Some("Channel B"@)
    } else if chan == "C"@ || chan == "c"@ {
        Some("Channel C"@)
    } else if chan == "D"@ || chan == "d"@ {
        Some("Channel D"@)
    } else if chan == "1"@ {
        Some("Channel 1"@)
    } else if chan == "2"@ {
        Some("Channel 2"@)
    } else if chan == "3"@ {
        Some("Channel 3"@)
    } else if chan == "4"@ {
        Some("Channel 4"@)
    } else {
        None
    }
}

fn generic_channel(chan: &[char]) -> (r: Option<String>)
    ensures
        crate::text::opt_view(r) == generic_label(chan@),
{
    if is_str(chan, "A") || is_str(chan, "a") {
        Some(owned("Channel A"))
    } else if is_str(chan, "B") || is_str(chan, "b") {
        Some(owned("Channel B"))
    } else if is_str(chan, "C") || is_str(chan, "c") {
        Some(owned("Channel C"))
    } else if is_str(chan, "D") || is_str(chan, "d") {
        Some(owned("Channel D"))
    } else if is_str(chan, "1") {
        Some(owned("Channel 1"))
    } else if is_str(chan, "2") {
        Some(owned("Channel 2"))
    } else if is_str(chan, "3") {
        Some(owned("Channel 3"))
    } else if is_str(chan, "4") {
        Some(owned("Channel 4"))
    } else {
        None
    }
}

/// All runs of `n` neighbouring fields, each joined with underscores.
pub open spec fn windows(p: Seq<Seq<char>>, n: int) -> Seq<Seq<char>> {
    if p.len() < n {
        Seq::empty()
    } else {
        Seq::new(
            (p.len() - n + 1) as nat,
            |i: int| crate::text::join(p.subrange(i, i + n), seq!['_']),
        )
    }
}

/// What the calendar reads from each text.
pub open spec fn readings(texts: Seq<Seq<char>>, format: Seq<char>) -> Seq<Option<Moment>> {
    texts.map_values(|t: Seq<char>| crate::moment::datetime_in(t, format))
}

/// The first date among the readings, with its place.
pub open spec fn first_reading(r: Seq<Option<Moment>>, i: int) -> Option<(int, Moment)>
    decreases r.len() - i,
{
    if i < 0 || i >= r.len() {
        None
    } else if r[i] is Some {
        Some((i, r[i]->0))
    } else {
        first_reading(r, i + 1)
    }
}

/// The date in the fields of a name: the first run of four fields that reads as
/// one with the time in one field, else the first run of six with the time in
/// three.
pub open spec fn timestamp_from(
    four: Seq<Seq<char>>,
    four_read: Seq<Option<Moment>>,
    six: Seq<Seq<char>>,
    six_read: Seq<Option<Moment>>,
) -> Option<(Moment, Seq<char>)> {
    match first_reading(four_read, 0) {
        Some((i, t)) => Some((t, four[i])),
        None => match first_reading(six_read, 0) {
            Some((i, t)) => Some((t, six[i])),
            None => None,
        },
    }
}

/// The date in the fields of a name.
pub open spec fn timestamp_in(p: Seq<Seq<char>>) -> Option<(Moment, Seq<char>)> {
    let four = windows(p, 4);
    let six = windows(p, 6);
    timestamp_from(
        four,
        readings(four, "%Y_%m_%d_%H%M%S"@),
        six,
        readings(six, "%Y_%m_%d_%H_%M_%S"@),
    )
}

/// What the fields of a four-channel recorder's name tell, given the date in
/// the fields before the last.
pub open spec fn generic_fields(
    p: Seq<Seq<char>>,
    found: Option<(Moment, Seq<char>)>,
) -> Option<NameView> {
    match (generic_label(p.last()), found) {
        (Some(label), Some((t, text))) => Some(
            NameView {
                start: t,
                mode: EventMode::Normal,
                label,
                key: "g4:"@ + text,
                kind: CameraKind::Generic,
            },
        ),
        _ => None,
    }
}

/// `...<date>..._<channel>`: what a four-channel recorder's name tells.
pub open spec fn generic_name(name: Seq<char>) -> Option<NameView> {
    match stem_of(name) {
        Some(stem) => {
            let p = crate::text::split(stem, '_');
            if p.len() >= 2 {
                generic_fields(p, timestamp_in(p.drop_last()))
            } else {
                None
            }
        },
        None => None,
    }
}

/// The fields from `from` on, `n` of them, joined with underscores.
fn join_window(p: &Vec<Vec<char>>, from: usize, n: usize) -> (s: String)
    requires
        from + n <= p.len(),
        n >= 1,
    ensures
        s@ == crate::text::join(
            crate::text::pieces(p@).subrange(from as int, from + n),
            seq!['_'],
        ),
{
    let ghost parts = crate::text::pieces(p@);
    let mut s = string_of(p[from].as_slice());
    let mut k: usize = 1;
    proof {
        assert(parts.subrange(from as int, from + 1) == seq![parts[from as int]]);
    }
    while k < n
        invariant
            parts == crate::text::pieces(p@),
            from + n <= p.len(),
            1 <= k <= n,
            s@ == crate::text::join(parts.subrange(from as int, from + k), seq!['_']),
        decreases n - k,
    {
        let ghost before = s@;
        s.push('_');
        push_chars(&mut s, p[from + k].as_slice());
        proof {
            let w = parts.subrange(from as int, from + k + 1);
            assert(w.drop_last() == parts.subrange(from as int, from + k));
            assert(w.last() == parts[from + k]);
            assert(s@ == before + seq!['_'] + parts[from + k]);
        }
        k += 1;
    }
    s
}

/// All runs of `n` of the first `len` fields.
fn window_texts(p: &Vec<Vec<char>>, len: usize, n: usize) -> (v: Vec<String>)
    requires
        len <= p.len(),
        n >= 1,
    ensures
        crate::text::views(v@) == windows(crate::text::pieces(p@).take(len as int), n as int),
{
    let ghost parts = crate::text::pieces(p@).take(len as int);
    let mut v: Vec<String> = Vec::new();
    if len < n {
        proof {
            assert(crate::text::views(v@) == windows(parts, n as int));
        }
        return v;
    }
    let count: usize = len - n + 1;
    let mut i: usize = 0;
    while i < count
        invariant
            len <= p.len(),
            1 <= n <= len,
            count == len - n + 1,
            i <= count,
            parts == crate::text::pieces(p@).take(len as int),
            crate::text::views(v@) == windows(parts, n as int).take(i as int),
        decreases count - i,
    {
        let s = join_window(p, i, n);
        proof {
            assert(crate::text::pieces(p@).subrange(i as int, i + n) == parts.subrange(
                i as int,
                i + n,
            ));
            assert(s@ == windows(parts, n as int)[i as int]);
        }
        let ghost sv = s@;
        let ghost before = v@;
        v.push(s);
        proof {
            assert(crate::text::views(v@) == crate::text::views(before).push(sv));
            assert(windows(parts, n as int).take(i + 1) == windows(parts, n as int).take(
                i as int,
            ).push(sv));
        }
        i += 1;
    }
    proof {
        assert(windows(parts, n as int).take(count as int) == windows(parts, n as int));
    }
    v
}

fn read_all(texts: &Vec<String>, format: &str) -> (v: Vec<Option<Moment>>)
    requires
        crate::moment::is_stamp_format(format@),
    ensures
        v@ == readings(crate::text::views(texts@), format@),
{
    let mut v: Vec<Option<Moment>> = Vec::new();
    let mut i: usize = 0;
    while i < texts.len()
        invariant
            i <= texts.len(),
            crate::moment::is_stamp_format(format@),
            v@ == readings(crate::text::views(texts@), format@).take(i as int),
        decreases texts.len() - i,
    {
        let t = parse_datetime(texts[i].as_str(), format);
        v.push(t);
        i += 1;
        proof {
            let all = readings(crate::text::views(texts@), format@);
            assert(all[i - 1] == t);
            assert(all.take(i as int) == all.take(i - 1).push(t));
        }
    }
    proof {
        let all = readings(crate::text::views(texts@), format@);
        assert(all.take(all.len() as int) == all);
    }
    v
}

fn first_read(v: &Vec<Option<Moment>>) -> (r: Option<(usize, Moment)>)
    ensures
        match r {
            Some((i, t)) => i < v.len() && first_reading(v@, 0) == Some((i as int, t)),
            None => first_reading(v@, 0) is None,
        },
{
    let mut i: usize = 0;
    while i < v.len()
        invariant
            i <= v.len(),
            first_reading(v@, 0) == first_reading(v@, i as int),
        decreases v.len() - i,
    {
        if let Some(t) = v[i] {
            return Some((i, t));
        }
        i += 1;
    }
    None
}

/// Picks the date of a name, given what the calendar read from each run of
/// fields.
pub fn pick_timestamp(
    four: &Vec<String>,
    four_read: &Vec<Option<Moment>>,
    six: &Vec<String>,
    six_read: &Vec<Option<Moment>>,
) -> (r: Option<(Moment, String)>)
    requires
        four.len() == four_read.len(),
        six.len() == six_read.len(),
    ensures
        match r {
            Some((t, s)) => timestamp_from(
                crate::text::views(four@),
                four_read@,
                crate::text::views(six@),
                six_read@,
            ) == Some((t, s@)),
            None => timestamp_from(
                crate::text::views(four@),
                four_read@,
                crate::text::views(six@),
                six_read@,
            ) is None,
        },
{
    if let Some((i, t)) = first_read(four_read) {
        return Some((t, four[i].clone()));
    }
    if let Some((i, t)) = first_read(six_read) {
        return Some((t, six[i].clone()));
    }
    None
}

/// The date in the fields of a name before the last.
pub fn find_timestamp(p: &Vec<Vec<char>>) -> (r: Option<(Moment, String)>)
    requires
        p.len() >= 1,
    ensures
        match r {
            Some((t, s)) => timestamp_in(crate::text::pieces(p@).drop_last()) == Some((t, s@)),
            None => timestamp_in(crate::text::pieces(p@).drop_last()) is None,
        },
{
    proof {
        assert(crate::text::pieces(p@).take(p@.len() - 1) == crate::text::pieces(p@).drop_last());
    }
    let four = window_texts(p, p.len() - 1, 4);
    let six = window_texts(p, p.len() - 1, 6);
    let four_read = read_all(&four, "%Y_%m_%d_%H%M%S");
    let six_read = read_all(&six, "%Y_%m_%d_%H_%M_%S");
    pick_timestamp(&four, &four_read, &six, &six_read)
}

/// The view of a date found in a name.
pub open spec fn found_view(found: Option<(Moment, String)>) -> Option<(Moment, Seq<char>)> {
    match found {
        Some((t, s)) => Some((t, s@)),
        None => None,
    }
}

/// What the fields of a four-channel recorder's name tell, given the date in
/// the fields before the last.
pub fn generic_from_fields(p: &Vec<Vec<char>>, found: Option<(Moment, String)>) -> (r: Option<
    ParsedName,
>)
    requires
        p.len() >= 1,
    ensures
        name_view(r) == generic_fields(crate::text::pieces(p@), found_view(found)),
{
    proof {
        assert(crate::text::pieces(p@).last() == p[p.len() - 1]@);
    }
    let channel_label = match generic_channel(p[p.len() - 1].as_slice()) {
        Some(l) => l,
        None => {
            return None;
        },
    };
    match found {
        Some((start_time, text)) => {
            let mut group_key = owned("g4:");
            group_key.append(text.as_str());
            Some(
                ParsedName {
                    start_time,
                    event_mode: EventMode::Normal,
                    channel_label,
                    group_key,
                    camera_kind: CameraKind::Generic,
                },
            )
        },
        None => None,
    }
}

/// Reads the name of a four-channel recorder.
pub fn parse_generic(filename: &str) -> (r: Option<ParsedName>)
    ensures
        name_view(r) == generic_name(filename@),
{
    let stem = match stem_chars(filename) {
        Some(v) => v,
        None => {
            return None;
        },
    };
    let p = split_chars(stem.as_slice(), '_');
    if p.len() < 2 {
        return None;
    }
    let found = find_timestamp(&p);
    generic_from_fields(&p, found)
}

// --------------------------------------------------------------------- all

/// What a file name tells: what the first format tells that matches it, in the
/// order Wolf Box, Thinkware, Miltona, 70mai, four-channel recorder.
pub open spec fn reading(name: Seq<char>) -> Option<NameView> {
    if wolfbox_name(name) is Some {
        wolfbox_name(name)
    } else if thinkware_name(name) is Some {
        thinkware_name(name)
    } else if miltona_name(name) is Some {
        miltona_name(name)
    } else if seventy_mai_name(name) is Some {
        seventy_mai_name(name)
    } else {
        generic_name(name)
    }
}

/// What a file name tells, or the error that no format matches it.
pub fn parse(filename: &str) -> (r: Result<ParsedName, AppError>)
    ensures
        match r {
            Ok(p) => reading(filename@) == Some(p@),
            Err(e) => reading(filename@) is None && (e matches AppError::InvalidFilename(s) && s@
                == filename@),
        },
{
    if let Some(p) = parse_wolfbox(filename) {
        return Ok(p);
    }
    if let Some(p) = parse_thinkware(filename) {
        return Ok(p);
    }
    if let Some(p) = parse_miltona(filename) {
        return Ok(p);
    }
    if let Some(p) = parse_seventy_mai(filename) {
        return Ok(p);
    }
    if let Some(p) = parse_generic(filename) {
        return Ok(p);
    }
    Err(AppError::InvalidFilename(owned(filename)))
}

/// The two names differ at most in the character before their extension.
pub open spec fn differ_in_channel(a: Seq<char>, b: Seq<char>) -> bool {
    &&& a.len() == b.len()
    &&& a.len() >= 5
    &&& a.take(a.len() - 5) == b.take(b.len() - 5)
    &&& a.skip(a.len() - 4) == b.skip(b.len() - 4)
}

/// A last character that separates nothing belongs to the last field alone.
proof fn lemma_last_field(s: Seq<char>, sep: char)
    requires
        s.len() > 0,
    ensures
        s.last() == sep ==> crate::text::split(s, sep).last().len() == 0,
        s.last() != sep ==> {
            let p = crate::text::split(s, sep);
            let q = crate::text::split(s.drop_last(), sep);
            p.len() == q.len() && p.len() > 0 && p.drop_last() == q.drop_last() && p.last()
                == q.last().push(s.last())
        },
{
    crate::text::lemma_split_nonempty(s.drop_last(), sep);
    let p = crate::text::split(s, sep);
    let q = crate::text::split(s.drop_last(), sep);
    if s.last() != sep {
        assert(p.drop_last() == q.drop_last());
    }
}

/// The fields of two texts that differ in their last character alone, where it
/// separates nothing in either: all fields but the last are the same, and so is
/// the last without its last character.
proof fn lemma_same_fields(s: Seq<char>, t: Seq<char>, sep: char)
    requires
        s.len() > 0,
        t.len() > 0,
        s.drop_last() == t.drop_last(),
        s.last() != sep,
        t.last() != sep,
    ensures
        crate::text::split(s, sep).len() == crate::text::split(t, sep).len(),
        crate::text::split(s, sep).len() > 0,
        crate::text::split(s, sep).drop_last() == crate::text::split(t, sep).drop_last(),
        forall|i: int|
            0 <= i < crate::text::split(s, sep).len() - 1 ==> #[trigger] crate::text::split(s, sep)[i]
                == crate::text::split(t, sep)[i],
        crate::text::split(s, sep).last().len() > 0,
        crate::text::split(t, sep).last().len() > 0,
        crate::text::split(s, sep).last().drop_last() == crate::text::split(
            t,
            sep,
        ).last().drop_last(),
{
    lemma_last_field(s, sep);
    lemma_last_field(t, sep);
    let p = crate::text::split(s, sep);
    let r = crate::text::split(t, sep);
    let q = crate::text::split(s.drop_last(), sep);
    assert(p.last().drop_last() == q.last());
    assert(r.last().drop_last() == q.last());
    assert forall|i: int| 0 <= i < p.len() - 1 implies #[trigger] p[i] == r[i] by {
        assert(p[i] == p.drop_last()[i]);
        assert(r[i] == r.drop_last()[i]);
    }
}

proof fn lemma_stems(a: Seq<char>, b: Seq<char>)
    requires
        differ_in_channel(a, b),
        stem_of(a) is Some,
    ensures
        stem_of(b) is Some,
        (stem_of(a)->0).len() == (stem_of(b)->0).len(),
        (stem_of(a)->0).len() > 0,
        (stem_of(a)->0).drop_last() == (stem_of(b)->0).drop_last(),
{
    reveal_strlit(".MP4");
    reveal_strlit(".mp4");
    reveal_strlit(".MOV");
    reveal_strlit(".mov");
    let n = a.len() as int;
    assert forall|i: int| n - 4 <= i < n implies #[trigger] a[i] == b[i] by {
        assert(a[i] == a.skip(n - 4)[i - (n - 4)]);
        assert(b[i] == b.skip(n - 4)[i - (n - 4)]);
    }
    assert(a.skip(n - 4) == a.subrange(n - 4, n));
    assert(b.skip(n - 4) == b.subrange(n - 4, n));
    assert(a.take(n - 4).drop_last() == a.take(n - 5));
    assert(b.take(n - 4).drop_last() == b.take(n - 5));
}

proof fn lemma_no_empty_channel()
    ensures
        fir_label(Seq::<char>::empty()) is None,
        fr_label(Seq::<char>::empty()) is None,
        generic_label(Seq::<char>::empty()) is None,
{
    reveal_strlit("F");
    reveal_strlit("I");
    reveal_strlit("R");
    reveal_strlit("A");
    reveal_strlit("a");
    reveal_strlit("B");
    reveal_strlit("b");
    reveal_strlit("C");
    reveal_strlit("c");
    reveal_strlit("D");
    reveal_strlit("d");
    reveal_strlit("1");
    reveal_strlit("2");
    reveal_strlit("3");
    reveal_strlit("4");
    assert(Seq::<char>::empty().len() == 0);
}

/// Neither text ends in the separator, where its last field is not empty.
proof fn lemma_ends(s: Seq<char>, sep: char)
    requires
        s.len() > 0,
        crate::text::split(s, sep).last().len() > 0,
    ensures
        s.last() != sep,
{
    lemma_last_field(s, sep);
}

proof fn lemma_wolfbox_channels(a: Seq<char>, b: Seq<char>)
    requires
        differ_in_channel(a, b),
        wolfbox_name(a) is Some,
        wolfbox_name(b) is Some,
    ensures
        wolfbox_name(a)->0.key == wolfbox_name(b)->0.key,
        wolfbox_name(a)->0.start == wolfbox_name(b)->0.start,
        wolfbox_name(a)->0.mode == wolfbox_name(b)->0.mode,
{
    lemma_stems(a, b);
    lemma_no_empty_channel();
    let s = stem_of(a)->0;
    let t = stem_of(b)->0;
    let p = crate::text::split(s, '_');
    let r = crate::text::split(t, '_');
    assert(p.last() == p[5] && r.last() == r[5]);
    assert(p[5].len() == 0 ==> p[5] == Seq::<char>::empty());
    assert(r[5].len() == 0 ==> r[5] == Seq::<char>::empty());
    lemma_ends(s, '_');
    lemma_ends(t, '_');
    lemma_same_fields(s, t, '_');
}

proof fn lemma_thinkware_channels(a: Seq<char>, b: Seq<char>)
    requires
        differ_in_channel(a, b),
        thinkware_name(a) is Some,
        thinkware_name(b) is Some,
    ensures
        thinkware_name(a)->0.key == thinkware_name(b)->0.key,
        thinkware_name(a)->0.start == thinkware_name(b)->0.start,
        thinkware_name(a)->0.mode == thinkware_name(b)->0.mode,
{
    lemma_stems(a, b);
    lemma_no_empty_channel();
    let s = stem_of(a)->0;
    let t = stem_of(b)->0;
    let p = crate::text::split(s, '_');
    let r = crate::text::split(t, '_');
    assert(p.last() == p[7] && r.last() == r[7]);
    assert(p[7].len() == 0 ==> p[7] == Seq::<char>::empty());
    assert(r[7].len() == 0 ==> r[7] == Seq::<char>::empty());
    lemma_ends(s, '_');
    lemma_ends(t, '_');
    lemma_same_fields(s, t, '_');
}

proof fn lemma_miltona_channels(a: Seq<char>, b: Seq<char>)
    requires
        differ_in_channel(a, b),
        miltona_name(a) is Some,
        miltona_name(b) is Some,
    ensures
        miltona_name(a)->0.key == miltona_name(b)->0.key,
        miltona_name(a)->0.start == miltona_name(b)->0.start,
        miltona_name(a)->0.mode == miltona_name(b)->0.mode,
{
    lemma_stems(a, b);
    reveal_strlit("FILE");
    let s = (stem_of(a)->0).skip(4);
    let t = (stem_of(b)->0).skip(4);
    let p = crate::text::split(s, '-');
    let r = crate::text::split(t, '-');
    assert(p.last() == p[2] && r.last() == r[2]);
    if s.len() == 0 {
        assert(s == Seq::<char>::empty());
    }
    assert(s.len() == t.len() && s.len() > 0);
    assert(s.drop_last() == (stem_of(a)->0).drop_last().skip(4));
    assert(t.drop_last() == (stem_of(b)->0).drop_last().skip(4));
    lemma_ends(s, '-');
    lemma_ends(t, '-');
    lemma_same_fields(s, t, '-');
}

proof fn lemma_seventy_mai_channels(a: Seq<char>, b: Seq<char>)
    requires
        differ_in_channel(a, b),
        seventy_mai_name(a) is Some,
        seventy_mai_name(b) is Some,
    ensures
        seventy_mai_name(a)->0.key == seventy_mai_name(b)->0.key,
        seventy_mai_name(a)->0.start == seventy_mai_name(b)->0.start,
        seventy_mai_name(a)->0.mode == seventy_mai_name(b)->0.mode,
{
    lemma_stems(a, b);
    let u = stem_of(a)->0;
    let v = stem_of(b)->0;
    let s = u.skip(2);
    let t = v.skip(2);
    let p = crate::text::split(s, '-');
    let r = crate::text::split(t, '-');
    assert(p.last() == p[2] && r.last() == r[2]);
    if s.len() == 0 {
        assert(s == Seq::<char>::empty());
    }
    assert(s.len() == t.len() && s.len() > 0);
    assert(s.drop_last() == u.drop_last().skip(2));
    assert(t.drop_last() == v.drop_last().skip(2));
    assert(u.take(2) == u.drop_last().take(2));
    assert(v.take(2) == v.drop_last().take(2));
    lemma_ends(s, '-');
    lemma_ends(t, '-');
    lemma_same_fields(s, t, '-');
}

proof fn lemma_generic_channels(a: Seq<char>, b: Seq<char>)
    requires
        differ_in_channel(a, b),
        generic_name(a) is Some,
        generic_name(b) is Some,
    ensures
        generic_name(a)->0.key == generic_name(b)->0.key,
        generic_name(a)->0.start == generic_name(b)->0.start,
        generic_name(a)->0.mode == generic_name(b)->0.mode,
{
    lemma_stems(a, b);
    lemma_no_empty_channel();
    let s = stem_of(a)->0;
    let t = stem_of(b)->0;
    let p = crate::text::split(s, '_');
    let r = crate::text::split(t, '_');
    assert(p.last().len() == 0 ==> p.last() == Seq::<char>::empty());
    assert(r.last().len() == 0 ==> r.last() == Seq::<char>::empty());
    lemma_ends(s, '_');
    lemma_ends(t, '_');
    lemma_same_fields(s, t, '_');
}

/// All channels of one recording share their group key: names of one camera
/// family that differ only in the channel, the character before the extension,
/// have the same key, the same start and the same mode.
pub proof fn channels_share_a_key(a: Seq<char>, x: NameView, b: Seq<char>, y: NameView)
    requires
        differ_in_channel(a, b),
        reading(a) == Some(x),
        reading(b) == Some(y),
        x.kind == y.kind,
    ensures
        x.key == y.key,
        x.start == y.start,
        x.mode == y.mode,
{
    lemma_kind_of(a, x);
    lemma_kind_of(b, y);
    match x.kind {
        CameraKind::WolfBox => lemma_wolfbox_channels(a, b),
        CameraKind::Thinkware => lemma_thinkware_channels(a, b),
        CameraKind::Miltona => lemma_miltona_channels(a, b),
        CameraKind::SeventyMai => lemma_seventy_mai_channels(a, b),
        CameraKind::Generic => lemma_generic_channels(a, b),
    }
}

/// A name is read by the format of the family that it tells.
proof fn lemma_kind_of(name: Seq<char>, n: NameView)
    requires
        reading(name) == Some(n),
    ensures
        n.kind == CameraKind::WolfBox ==> wolfbox_name(name) == Some(n),
        n.kind == CameraKind::Thinkware ==> thinkware_name(name) == Some(n),
        n.kind == CameraKind::Miltona ==> miltona_name(name) == Some(n),
        n.kind == CameraKind::SeventyMai ==> seventy_mai_name(name) == Some(n),
        n.kind == CameraKind::Generic ==> generic_name(name) == Some(n),
{
}

/// The formats keep their groups apart: clips of different camera families
/// never share a group key, because every key starts with the mark of its
/// family.
pub proof fn families_never_share_a_key(a: Seq<char>, x: NameView, b: Seq<char>, y: NameView)
    requires
        reading(a) == Some(x),
        reading(b) == Some(y),
        x.key == y.key,
    ensures
        x.kind == y.kind,
{
    reveal_strlit("wb:");
    reveal_strlit("tw:");
    reveal_strlit("mt:");
    reveal_strlit("7m:");
    reveal_strlit("g4:");
    lemma_key_mark(a, x);
    lemma_key_mark(b, y);
}

/// The first character of a group key marks the camera family.
proof fn lemma_key_mark(name: Seq<char>, n: NameView)
    requires
        reading(name) == Some(n),
    ensures
        n.key.len() >= 1,
        n.kind == CameraKind::WolfBox <==> n.key[0] == 'w',
        n.kind == CameraKind::Thinkware <==> n.key[0] == 't',
        n.kind == CameraKind::Miltona <==> n.key[0] == 'm',
        n.kind == CameraKind::SeventyMai <==> n.key[0] == '7',
        n.kind == CameraKind::Generic <==> n.key[0] == 'g',
{
    reveal_strlit("wb:");
    reveal_strlit("tw:");
    reveal_strlit("mt:");
    reveal_strlit("7m:");
    reveal_strlit("g4:");
    if wolfbox_name(name) is Some {
        assert(n.key[0] == 'w');
    } else if thinkware_name(name) is Some {
        assert(n.key[0] == 't');
    } else if miltona_name(name) is Some {
        assert(n.key[0] == 'm');
    } else if seventy_mai_name(name) is Some {
        assert(n.key[0] == '7');
    } else {
        assert(n.key[0] == 'g');
    }
}

} // verus!
