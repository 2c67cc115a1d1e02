//! What file names tell.

use crate::moment::Moment;
use crate::scan::naming::{CameraKind, EventMode, LABEL_FRONT, LABEL_INTERIOR, LABEL_REAR};
use vstd::prelude::*;

verus! {

/// The extension of a video.
pub open spec fn is_video_extension(e: Seq<char>) -> bool {
    e == ".MP4"@ || e == ".mp4"@ || e == ".MOV"@ || e == ".mov"@
}

proof fn lemma_stem(stem: Seq<char>, e: Seq<char>)
    requires
        is_video_extension(e),
    ensures
        crate::scan::naming::stem_of(stem + e) == Some(stem),
{
    reveal_strlit(".MP4");
    reveal_strlit(".mp4");
    reveal_strlit(".MOV");
    reveal_strlit(".mov");
    let name = stem + e;
    assert(e.len() == 4);
    assert(name.subrange(name.len() - 4, name.len() as int) == e);
    assert(name.take(name.len() - 4) == stem);
}

/// The letter of a channel and its label, for cameras with front, interior and
/// rear.
pub open spec fn is_fir_channel(letter: Seq<char>, label: Seq<char>) -> bool {
    ||| letter == seq!['F'] && label == LABEL_FRONT@
    ||| letter == seq!['I'] && label == LABEL_INTERIOR@
    ||| letter == seq!['R'] && label == LABEL_REAR@
}

/// The letter names a channel.
pub open spec fn is_fir_letter(letter: Seq<char>) -> bool {
    letter == seq!['F'] || letter == seq!['I'] || letter == seq!['R']
}

/// A Wolf Box name of six fields, with underscores between them, tells: the start
/// that its first four fields spell, the mode of the fifth, and the channel of the
/// sixth. Its key holds all but the channel. It is read exactly where the start
/// can be read, the code is a number up to 255, and the letter names a channel.
pub proof fn wolfbox_names_tell_their_fields(p: Seq<Seq<char>>, e: Seq<char>)
    requires
        p.len() == 6,
        crate::laws::text::are_clear_of(p, '_'),
        is_video_extension(e),
    ensures
        ({
            let stamp = crate::text::join(p.take(4), seq!['_']);
            let start = crate::moment::datetime_in(stamp, "%Y_%m_%d_%H%M%S"@);
            let code = crate::text::unsigned_value(p[4], 255);
            match crate::scan::naming::wolfbox_name(crate::text::join(p, seq!['_']) + e) {
                Some(n) => {
                    &&& start == Some(n.start)
                    &&& is_fir_channel(p[5], n.label)
                    &&& (n.mode == EventMode::Normal <==> p[4] == seq!['0', '0'])
                    &&& (n.mode == EventMode::Event <==> p[4] == seq!['0', '2'])
                    &&& (n.mode matches EventMode::Other(v) ==> code == Some(v as nat))
                    &&& n.mode != EventMode::Parked
                    &&& n.mode != EventMode::Lapse
                    &&& n.key == seq!['w', 'b', ':'] + stamp + seq!['_'] + p[4]
                    &&& n.kind == CameraKind::WolfBox
                },
                None => start is None || code is None || !is_fir_letter(p[5]),
            }
        }),
{
    let stem = crate::text::join(p, seq!['_']);
    lemma_stem(stem, e);
    crate::laws::text::joined_pieces_split_back(p, '_');
    lemma_join_four(p);
    lemma_letters();
    reveal_strlit("_");
    reveal_strlit("wb:");
    reveal_strlit("00");
    reveal_strlit("02");
    assert("00"@ =~= seq!['0', '0']);
    assert("02"@ =~= seq!['0', '2']);
    assert("_"@ =~= seq!['_']);
    assert("wb:"@ =~= seq!['w', 'b', ':']);
    assert(crate::scan::naming::wolfbox_stamp(p) == crate::text::join(p.take(4), seq!['_']));
    reveal_with_fuel(crate::text::digits_value, 3);
}

proof fn lemma_join_four(p: Seq<Seq<char>>)
    requires
        p.len() >= 4,
    ensures
        crate::text::join(p.take(4), seq!['_']) == p[0] + seq!['_'] + p[1] + seq!['_'] + p[2]
            + seq!['_'] + p[3],
{
    crate::laws::text::lemma_join_one(p, seq!['_']);
    crate::laws::text::lemma_join_last(p, seq!['_'], 1);
    crate::laws::text::lemma_join_last(p, seq!['_'], 2);
    crate::laws::text::lemma_join_last(p, seq!['_'], 3);
}

proof fn lemma_letters()
    ensures
        "F"@ == seq!['F'],
        "I"@ == seq!['I'],
        "R"@ == seq!['R'],
{
    reveal_strlit("F");
    reveal_strlit("I");
    reveal_strlit("R");
    assert("F"@ =~= seq!['F']);
    assert("I"@ =~= seq!['I']);
    assert("R"@ =~= seq!['R']);
}

/// A Thinkware name of eight fields tells: the start that the second to the
/// seventh spell, an event where the first is `EVT`, and the channel of the last.
/// Its key holds all but the channel.
pub proof fn thinkware_names_tell_their_fields(p: Seq<Seq<char>>, e: Seq<char>)
    requires
        p.len() == 8,
        crate::laws::text::are_clear_of(p, '_'),
        is_video_extension(e),
    ensures
        ({
            let text = p[1] + seq!['-'] + p[2] + seq!['-'] + p[3] + seq!['T'] + p[4] + seq![':']
                + p[5] + seq![':'] + p[6];
            let start = crate::moment::datetime_in(text, "%Y-%m-%dT%H:%M:%S"@);
            let capitals = p[0].len() == 3 && forall|i: int|
                0 <= i < p[0].len() ==> 'A' <= #[trigger] p[0][i] && p[0][i] <= 'Z';
            match crate::scan::naming::thinkware_name(crate::text::join(p, seq!['_']) + e) {
                Some(n) => {
                    &&& capitals
                    &&& start == Some(n.start)
                    &&& (p[7] == seq!['F'] && n.label == LABEL_FRONT@ || p[7] == seq!['R'] && n.label
                        == LABEL_REAR@)
                    &&& n.mode == (if p[0] == seq!['E', 'V', 'T'] {
                        EventMode::Event
                    } else {
                        EventMode::Normal
                    })
                    &&& n.key == seq!['t', 'w', ':'] + p[1] + p[2] + p[3] + seq!['_'] + p[4] + p[5]
                        + p[6] + seq!['_'] + p[0]
                    &&& n.kind == CameraKind::Thinkware
                },
                None => !capitals || start is None || p[7] != seq!['F'] && p[7] != seq!['R'],
            }
        }),
{
    let stem = crate::text::join(p, seq!['_']);
    lemma_stem(stem, e);
    crate::laws::text::joined_pieces_split_back(p, '_');
    lemma_letters();
    reveal_strlit("_");
    reveal_strlit("-");
    reveal_strlit("T");
    reveal_strlit(":");
    reveal_strlit("tw:");
    reveal_strlit("EVT");
    assert("_"@ =~= seq!['_']);
    assert("-"@ =~= seq!['-']);
    assert("T"@ =~= seq!['T']);
    assert(":"@ =~= seq![':']);
    assert("EVT"@ =~= seq!['E', 'V', 'T']);
    assert("tw:"@ =~= seq!['t', 'w', ':']);
}

/// The digits of a clock: six of them, two for each of three numbers.
pub open spec fn are_six_digits(s: Seq<char>) -> bool {
    s.len() == 6 && crate::text::all_digits(s)
}

/// A Miltona name of a date, a time, a serial number and a letter tells: the start
/// that date and time spell, in this century, and the channel of the letter. Its
/// key holds all but the channel.
pub proof fn miltona_names_tell_their_fields(
    date: Seq<char>,
    time: Seq<char>,
    serial: Seq<char>,
    letter: char,
    e: Seq<char>,
)
    requires
        are_six_digits(date),
        are_six_digits(time),
        serial.len() > 0,
        crate::text::all_digits(serial),
        letter != '-',
        is_video_extension(e),
    ensures
        ({
            let name = seq!['F', 'I', 'L', 'E'] + date + seq!['-'] + time + seq!['-'] + serial.push(
                letter,
            ) + e;
            let text = seq!['2', '0', date[0], date[1], '-', date[2], date[3], '-', date[4], date[5]]
                + seq!['T', time[0], time[1], ':', time[2], time[3], ':', time[4], time[5]];
            let start = crate::moment::datetime_in(text, "%Y-%m-%dT%H:%M:%S"@);
            match crate::scan::naming::miltona_name(name) {
                Some(n) => {
                    &&& start == Some(n.start)
                    &&& is_fir_channel(seq![letter], n.label)
                    &&& n.mode == EventMode::Normal
                    &&& n.key == seq!['m', 't', ':'] + date + seq!['_'] + time + seq!['_'] + serial
                    &&& n.kind == CameraKind::Miltona
                },
                None => start is None || !is_fir_letter(seq![letter]),
            }
        }),
{
    let p = seq![date, time, serial.push(letter)];
    let head = seq!['F', 'I', 'L', 'E'];
    let body = crate::text::join(p, seq!['-']);
    lemma_three_fields(date, time, serial, letter);
    let stem = head + body;
    assert(head + date + seq!['-'] + time + seq!['-'] + serial.push(letter) == stem);
    lemma_stem(stem, e);
    reveal_strlit("FILE");
    assert("FILE"@ =~= head);
    assert(stem.subrange(0, 4) == head);
    assert(stem.skip(4) == body);
    lemma_letters();
    reveal_strlit("_");
    reveal_strlit("-");
    reveal_strlit("T");
    reveal_strlit(":");
    reveal_strlit("20");
    reveal_strlit("mt:");
    assert("_"@ =~= seq!['_']);
    assert("mt:"@ =~= seq!['m', 't', ':']);
    assert(p[2].drop_last() == serial);
    assert(p[2].last() == letter);
    let text = seq!['2', '0', date[0], date[1], '-', date[2], date[3], '-', date[4], date[5]]
        + seq!['T', time[0], time[1], ':', time[2], time[3], ':', time[4], time[5]];
    assert(crate::scan::naming::miltona_stamp(p) =~= text);
    assert(crate::scan::naming::is_miltona_shape(p));
}

proof fn lemma_three_fields(date: Seq<char>, time: Seq<char>, serial: Seq<char>, letter: char)
    requires
        crate::text::all_digits(date),
        crate::text::all_digits(time),
        crate::text::all_digits(serial),
        letter != '-',
    ensures
        ({
            let p = seq![date, time, serial.push(letter)];
            &&& crate::text::join(p, seq!['-']) == date + seq!['-'] + time + seq!['-'] + serial.push(
                letter,
            )
            &&& crate::text::split(crate::text::join(p, seq!['-']), '-') == p
        }),
{
    let p = seq![date, time, serial.push(letter)];
    assert forall|i: int| 0 <= i < p.len() implies !(#[trigger] p[i]).contains('-') by {
        if p[i].contains('-') {
            let k = choose|k: int| 0 <= k < p[i].len() && p[i][k] == '-';
            if i < 2 || k < serial.len() {
                assert(crate::text::is_digit(p[i][k])) by {
                    if i == 0 {
                        assert(crate::text::is_digit(date[k]));
                    } else if i == 1 {
                        assert(crate::text::is_digit(time[k]));
                    } else {
                        assert(crate::text::is_digit(serial[k]));
                    }
                }
            }
        }
    }
    crate::laws::text::joined_pieces_split_back(p, '-');
    assert(p.take(3) == p);
    crate::laws::text::lemma_join_one(p, seq!['-']);
    crate::laws::text::lemma_join_last(p, seq!['-'], 1);
    crate::laws::text::lemma_join_last(p, seq!['-'], 2);
}

/// The mode of a 70mai prefix.
pub open spec fn is_seventy_mai_mode(prefix: Seq<char>, mode: EventMode) -> bool {
    ||| prefix == seq!['N', 'O'] && mode == EventMode::Normal
    ||| prefix == seq!['E', 'V'] && mode == EventMode::Event
    ||| prefix == seq!['P', 'A'] && mode == EventMode::Parked
    ||| prefix == seq!['L', 'A'] && mode == EventMode::Lapse
}

/// A 70mai name of a prefix, a date, a time, a serial number and a letter tells:
/// the mode of the prefix, the moment of the date and the time, and the channel of
/// the letter. Its key holds all but the channel.
pub proof fn seventy_mai_names_tell_their_fields(
    prefix: Seq<char>,
    date: Seq<char>,
    time: Seq<char>,
    serial: Seq<char>,
    letter: char,
    e: Seq<char>,
)
    requires
        prefix.len() == 2,
        date.len() == 8,
        crate::text::all_digits(date),
        are_six_digits(time),
        serial.len() > 0,
        crate::text::all_digits(serial),
        letter != '-',
        is_video_extension(e),
    ensures
        ({
            let body = date + seq!['-'] + time + seq!['-'] + serial.push(letter);
            let start = crate::moment::civil(
                crate::text::digits_value(date.take(4)) as int,
                crate::text::digits_value(seq![date[4], date[5]]) as int,
                crate::text::digits_value(seq![date[6], date[7]]) as int,
                crate::text::digits_value(seq![time[0], time[1]]) as int,
                crate::text::digits_value(seq![time[2], time[3]]) as int,
                crate::text::digits_value(seq![time[4], time[5]]) as int,
            );
            match crate::scan::naming::seventy_mai_name(prefix + body + e) {
                Some(n) => {
                    &&& is_seventy_mai_mode(prefix, n.mode)
                    &&& start == Some(n.start)
                    &&& (letter == 'F' && n.label == LABEL_FRONT@ || letter == 'B' && n.label
                        == LABEL_REAR@)
                    &&& n.key == seq!['7', 'm', ':'] + prefix + date + seq!['-'] + time + seq!['-']
                        + serial
                    &&& n.kind == CameraKind::SeventyMai
                },
                None => start is None || letter != 'F' && letter != 'B' || forall|m: EventMode|
                    !is_seventy_mai_mode(prefix, m),
            }
        }),
{
    let p = seq![date, time, serial.push(letter)];
    let body = date + seq!['-'] + time + seq!['-'] + serial.push(letter);
    lemma_three_fields(date, time, serial, letter);
    lemma_stem(prefix + body, e);
    let stem = prefix + body;
    assert(stem.take(2) == prefix);
    assert(stem.skip(2) == body);
    reveal_strlit("-");
    reveal_strlit("7m:");
    reveal_strlit("NO");
    reveal_strlit("EV");
    reveal_strlit("PA");
    reveal_strlit("LA");
    assert("NO"@ =~= seq!['N', 'O']);
    assert("EV"@ =~= seq!['E', 'V']);
    assert("PA"@ =~= seq!['P', 'A']);
    assert("LA"@ =~= seq!['L', 'A']);
    assert("-"@ =~= seq!['-']);
    assert("7m:"@ =~= seq!['7', 'm', ':']);
    assert(p[2].drop_last() == serial);
    assert(date.subrange(0, 4) =~= date.take(4));
    assert(date.subrange(4, 6) =~= seq![date[4], date[5]]);
    assert(date.subrange(6, 8) =~= seq![date[6], date[7]]);
    assert(time.subrange(0, 2) =~= seq![time[0], time[1]]);
    assert(time.subrange(2, 4) =~= seq![time[2], time[3]]);
    assert(time.subrange(4, 6) =~= seq![time[4], time[5]]);
    if crate::scan::naming::seventy_mai_mode(prefix) is None {
        assert forall|m: EventMode| !is_seventy_mai_mode(prefix, m) by {}
    }
}

/// The field names a channel of a four-channel recorder, and the label says which:
/// a letter from A to D in either case, or a digit from 1 to 4.
pub open spec fn is_recorder_channel(field: Seq<char>, label: Seq<char>) -> bool {
    field.len() == 1 && label.len() == 9 && label.take(8) == seq![
        'C',
        'h',
        'a',
        'n',
        'n',
        'e',
        'l',
        ' ',
    ] && ({
        let c = field[0];
        let d = label[8];
        ||| 'A' <= c && c <= 'D' && d == c
        ||| 'a' <= c && c <= 'd' && c == crate::text::lower_char(d) && 'A' <= d && d <= 'D'
        ||| '1' <= c && c <= '4' && d == c
    })
}

/// The field names a channel of a four-channel recorder.
pub open spec fn is_recorder_field(field: Seq<char>) -> bool {
    field.len() == 1 && ('A' <= field[0] && field[0] <= 'D' || 'a' <= field[0] && field[0] <= 'd'
        || '1' <= field[0] && field[0] <= '4')
}

/// The run of `n` fields that starts at the `i`th, with underscores between them.
pub open spec fn run_text(p: Seq<Seq<char>>, i: int, n: int) -> Seq<char> {
    crate::text::join(p.subrange(i, i + n), seq!['_'])
}

/// What the calendar reads from a run of fields: of four, with the time in the
/// last one, or of six, with the time in the last three.
pub open spec fn run_start(p: Seq<Seq<char>>, i: int, n: int) -> Option<Moment> {
    crate::moment::datetime_in(
        run_text(p, i, n),
        if n == 4 {
            "%Y_%m_%d_%H%M%S"@
        } else {
            "%Y_%m_%d_%H_%M_%S"@
        },
    )
}

/// A run of `n` fields reads as a start.
pub open spec fn some_run_reads(p: Seq<Seq<char>>, n: int) -> bool {
    exists|i: int| 0 <= i <= p.len() - n && #[trigger] run_start(p, i, n) is Some
}

/// The start is what the first run of `n` fields tells that reads as one.
pub open spec fn is_first_run(
    p: Seq<Seq<char>>,
    i: int,
    n: int,
    start: Moment,
    text: Seq<char>,
) -> bool {
    &&& 0 <= i <= p.len() - n
    &&& run_start(p, i, n) == Some(start)
    &&& text == run_text(p, i, n)
    &&& forall|k: int| 0 <= k < i ==> #[trigger] run_start(p, k, n) is None
}

proof fn lemma_first_reading(r: Seq<Option<Moment>>, i: int)
    requires
        0 <= i <= r.len(),
    ensures
        match crate::scan::naming::first_reading(r, i) {
            Some((k, t)) => i <= k < r.len() && r[k] == Some(t) && forall|j: int|
                i <= j < k ==> #[trigger] r[j] is None,
            None => forall|j: int| i <= j < r.len() ==> #[trigger] r[j] is None,
        },
    decreases r.len() - i,
{
    if i < r.len() && r[i] is None {
        lemma_first_reading(r, i + 1);
    }
}

proof fn lemma_first_run(p: Seq<Seq<char>>, n: int)
    requires
        n == 4 || n == 6,
    ensures
        ({
            let w = crate::scan::naming::windows(p, n);
            let f = if n == 4 {
                "%Y_%m_%d_%H%M%S"@
            } else {
                "%Y_%m_%d_%H_%M_%S"@
            };
            match crate::scan::naming::first_reading(crate::scan::naming::readings(w, f), 0) {
                Some((k, t)) => 0 <= k < w.len() && is_first_run(p, k, n, t, w[k])
                    && some_run_reads(p, n),
                None => !some_run_reads(p, n),
            }
        }),
{
    let w = crate::scan::naming::windows(p, n);
    let f = if n == 4 {
        "%Y_%m_%d_%H%M%S"@
    } else {
        "%Y_%m_%d_%H_%M_%S"@
    };
    let r = crate::scan::naming::readings(w, f);
    lemma_first_reading(r, 0);
    assert forall|i: int| 0 <= i <= p.len() - n implies i < w.len() && #[trigger] run_start(p, i, n)
        == r[i] by {
        assert(w[i] == run_text(p, i, n));
    }
    match crate::scan::naming::first_reading(r, 0) {
        Some((k, t)) => {
            assert(run_start(p, k, n) == r[k]);
            assert forall|j: int| 0 <= j < k implies #[trigger] run_start(p, j, n) is None by {
                assert(r[j] is None);
            }
        },
        None => {
            if some_run_reads(p, n) {
                let i = choose|i: int| 0 <= i <= p.len() - n && #[trigger] run_start(p, i, n) is Some;
                assert(r[i] is None);
            }
        },
    }
}

/// A name of a four-channel recorder tells the channel of its last field, and the
/// start of the first run of four fields before it that reads as one; only where
/// there is none, that of the first run of six. The text of the very run is its
/// key.
pub proof fn recorder_names_tell_their_fields(p: Seq<Seq<char>>, e: Seq<char>)
    requires
        p.len() >= 2,
        crate::laws::text::are_clear_of(p, '_'),
        is_video_extension(e),
    ensures
        ({
            let q = p.drop_last();
            match crate::scan::naming::generic_name(crate::text::join(p, seq!['_']) + e) {
                Some(n) => {
                    &&& is_recorder_channel(p.last(), n.label)
                    &&& n.mode == EventMode::Normal
                    &&& n.kind == CameraKind::Generic
                    &&& n.key.take(3) == seq!['g', '4', ':']
                    &&& if some_run_reads(q, 4) {
                        exists|i: int| #[trigger] is_first_run(q, i, 4, n.start, n.key.skip(3))
                    } else {
                        exists|i: int| #[trigger] is_first_run(q, i, 6, n.start, n.key.skip(3))
                    }
                },
                None => !is_recorder_field(p.last()) || !some_run_reads(q, 4) && !some_run_reads(
                    q,
                    6,
                ),
            }
        }),
{
    let q = p.drop_last();
    let name = crate::text::join(p, seq!['_']) + e;
    lemma_stem(crate::text::join(p, seq!['_']), e);
    crate::laws::text::joined_pieces_split_back(p, '_');
    lemma_first_run(q, 4);
    lemma_first_run(q, 6);
    lemma_recorder_label(p.last());
    reveal_strlit("g4:");
    match crate::scan::naming::generic_name(name) {
        Some(n) => {
            let found = crate::scan::naming::timestamp_in(q);
            let text = match found {
                Some((t, text)) => text,
                None => Seq::empty(),
            };
            assert(n.key == "g4:"@ + text);
            assert(n.key.take(3) =~= seq!['g', '4', ':']);
            assert(n.key.skip(3) =~= text);
            let four = crate::scan::naming::first_reading(
                crate::scan::naming::readings(
                    crate::scan::naming::windows(q, 4),
                    "%Y_%m_%d_%H%M%S"@,
                ),
                0,
            );
            let six = crate::scan::naming::first_reading(
                crate::scan::naming::readings(
                    crate::scan::naming::windows(q, 6),
                    "%Y_%m_%d_%H_%M_%S"@,
                ),
                0,
            );
            match (four, six) {
                (Some((k, t)), _) => {
                    assert(is_first_run(q, k, 4, n.start, n.key.skip(3)));
                },
                (None, Some((k, t))) => {
                    assert(is_first_run(q, k, 6, n.start, n.key.skip(3)));
                },
                _ => {},
            }
        },
        None => {},
    }
}

proof fn lemma_recorder_label(f: Seq<char>)
    ensures
        match crate::scan::naming::generic_label(f) {
            Some(l) => is_recorder_channel(f, l) && is_recorder_field(f),
            None => !is_recorder_field(f),
        },
{
    reveal_strlit("A");
    reveal_strlit("a");
    reveal_strlit("B");
    reveal_strlit("b");
    reveal_strlit("C");
    reveal_strlit("c");
    reveal_strlit("D");
    reveal_strlit("d");
    reveal_strlit("1");
    reveal_strlit("2");
    reveal_strlit("3");
    reveal_strlit("4");
    reveal_strlit("Channel A");
    reveal_strlit("Channel B");
    reveal_strlit("Channel C");
    reveal_strlit("Channel D");
    reveal_strlit("Channel 1");
    reveal_strlit("Channel 2");
    reveal_strlit("Channel 3");
    reveal_strlit("Channel 4");
    let head = seq!['C', 'h', 'a', 'n', 'n', 'e', 'l', ' '];
    assert("Channel A"@.take(8) =~= head);
    assert("Channel B"@.take(8) =~= head);
    assert("Channel C"@.take(8) =~= head);
    assert("Channel D"@.take(8) =~= head);
    assert("Channel 1"@.take(8) =~= head);
    assert("Channel 2"@.take(8) =~= head);
    assert("Channel 3"@.take(8) =~= head);
    assert("Channel 4"@.take(8) =~= head);
    if is_recorder_field(f) {
        let c = f[0];
        assert(f =~= seq![c]);
        if c == 'A' {
            assert(f =~= "A"@);
        } else if c == 'B' {
            assert(f =~= "B"@);
        } else if c == 'C' {
            assert(f =~= "C"@);
        } else if c == 'D' {
            assert(f =~= "D"@);
        } else if c == 'a' {
            assert(f =~= "a"@);
        } else if c == 'b' {
            assert(f =~= "b"@);
        } else if c == 'c' {
            assert(f =~= "c"@);
        } else if c == 'd' {
            assert(f =~= "d"@);
        } else if c == '1' {
            assert(f =~= "1"@);
        } else if c == '2' {
            assert(f =~= "2"@);
        } else if c == '3' {
            assert(f =~= "3"@);
        } else {
            assert(f =~= "4"@);
        }
    }
}

/// Every name is read by the first format that takes it: Wolf Box, Thinkware,
/// Miltona, 70mai, and then the four-channel recorders.
pub proof fn names_are_read_by_the_first_format(name: Seq<char>)
    ensures
        crate::scan::naming::wolfbox_name(name) is Some ==> crate::scan::naming::reading(name)
            == crate::scan::naming::wolfbox_name(name),
        crate::scan::naming::thinkware_name(name) is Some ==> crate::scan::naming::reading(name)
            == crate::scan::naming::thinkware_name(name),
        crate::scan::naming::wolfbox_name(name) is None && crate::scan::naming::thinkware_name(name)
            is None && crate::scan::naming::miltona_name(name) is Some
            ==> crate::scan::naming::reading(name) == crate::scan::naming::miltona_name(name),
        crate::scan::naming::wolfbox_name(name) is None && crate::scan::naming::thinkware_name(name)
            is None && crate::scan::naming::miltona_name(name) is None
            && crate::scan::naming::seventy_mai_name(name) is Some
            ==> crate::scan::naming::reading(name) == crate::scan::naming::seventy_mai_name(name),
        crate::scan::naming::reading(name) is None ==> crate::scan::naming::generic_name(name)
            is None,
{
}

} // verus!
