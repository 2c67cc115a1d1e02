//! How many encodes may run side by side.

use crate::text::{
    chars_of, char_is_space, contains, lines_of, parse_unsigned, starts_with, string_of,
    to_lowercase, trimmed, trimmed_start,
};
use crate::timelapse::ffmpeg::Encoder;
use vstd::prelude::*;
use vstd::slice::slice_subrange;

verus! {

/// The most encodes that run side by side.
pub const MAX_CONCURRENCY: usize = 4;

/// The memory that one encode takes, in gigabytes.
pub const PER_JOB_GB: u64 = 12;

/// The memory that is left to everything else, in gigabytes.
pub const OS_RESERVE_GB: u64 = 8;

/// A number brought into the range from 1 to the most encodes.
pub open spec fn clamped(n: int) -> int {
    if n < 1 {
        1
    } else if n > MAX_CONCURRENCY {
        MAX_CONCURRENCY as int
    } else {
        n
    }
}

/// A number brought into the range from 1 to the most encodes.
pub fn clamp_concurrency(n: usize) -> (r: usize)
    ensures
        r == clamped(n as int),
{
    if n < 1 {
        1
    } else if n > MAX_CONCURRENCY {
        MAX_CONCURRENCY
    } else {
        n
    }
}

/// The number of encodes that the memory allows, at least one.
pub open spec fn memory_allows(total_bytes: int) -> int {
    let gb = total_bytes / 1073741824;
    let free = if gb > OS_RESERVE_GB {
        gb - OS_RESERVE_GB
    } else {
        0
    };
    if free / (PER_JOB_GB as int) < 1 {
        1
    } else {
        free / (PER_JOB_GB as int)
    }
}

/// What is asked for, or what the memory allows if that is less. Where the size
/// of the memory is not known it sets no limit.
pub fn apply_ram_cap(requested: usize, total_ram_bytes: Option<u64>) -> (r: usize)
    ensures
        r == match total_ram_bytes {
            Some(b) => if requested < memory_allows(b as int) {
                requested as int
            } else {
                memory_allows(b as int)
            },
            None => requested as int,
        },
{
    let gb: u64 = match total_ram_bytes {
        Some(b) => b / 1073741824,
        None => {
            return requested;
        },
    };
    let free: u64 = if gb > OS_RESERVE_GB {
        gb - OS_RESERVE_GB
    } else {
        0
    };
    let mut allowed: u64 = free / PER_JOB_GB;
    if allowed < 1 {
        allowed = 1;
    }
    if (requested as u64) < allowed {
        requested
    } else {
        allowed as usize
    }
}

/// A professional card, by its name in lower case.
pub open spec fn is_professional(lower: Seq<char>) -> bool {
    ||| crate::text::has_substring(lower, "rtx a"@)
    ||| crate::text::has_substring(lower, "quadro"@)
    ||| crate::text::has_substring(lower, "tesla"@)
}

/// The number of encodes that a card takes, by its name in lower case.
pub open spec fn card_takes(lower: Seq<char>) -> int {
    if is_professional(lower) {
        MAX_CONCURRENCY as int
    } else {
        2
    }
}

/// The number of encodes that a card takes, by its name in lower case.
pub fn classify_lowered(lower: &str) -> (r: usize)
    ensures
        r == card_takes(lower@),
{
    if contains(lower, "rtx a") || contains(lower, "quadro") || contains(lower, "tesla") {
        return MAX_CONCURRENCY;
    }
    2
}

/// The number of encodes that a card takes, by its name.
pub fn classify_nvidia_gpu(name: &str) -> (r: usize)
    ensures
        r == card_takes(crate::text::lowercase(name@)),
        crate::text::is_ascii_text(name@) ==> r == card_takes(crate::text::ascii_lower(name@)),
{
    let lower = to_lowercase(name);
    classify_lowered(lower.as_str())
}

/// The number of encodes that a graphics card takes, by its name where it is
/// known.
pub fn detect_nvenc_concurrency(gpu_name: &Option<String>) -> (r: usize)
    ensures
        r == match gpu_name {
            Some(n) => card_takes(crate::text::lowercase(n@)),
            None => 2int,
        },
        gpu_name matches Some(n) ==> crate::text::is_ascii_text(n@) ==> r == card_takes(
            crate::text::ascii_lower(n@),
        ),
{
    match gpu_name {
        Some(name) => classify_nvidia_gpu(name.as_str()),
        None => 2,
    }
}

/// The number of encodes that the processor takes.
pub fn detect_libx265_concurrency(cores: usize) -> (r: usize)
    ensures
        r == if cores / 4 < 1 {
            1int
        } else {
            (cores / 4) as int
        },
{
    if cores / 4 < 1 {
        1
    } else {
        cores / 4
    }
}

/// The number of encodes to run side by side: what the encoder takes, within
/// the limits, and no more than the memory allows. The name of the graphics card
/// is given in lower case.
pub open spec fn recommended(
    encoder: Encoder,
    lower_gpu_name: Option<Seq<char>>,
    cores: int,
    total_ram_bytes: Option<u64>,
) -> int {
    let raw = match encoder {
        Encoder::HevcNvenc => match lower_gpu_name {
            Some(n) => card_takes(n),
            None => 2,
        },
        Encoder::LibX265 => if cores / 4 < 1 {
            1
        } else {
            cores / 4
        },
    };
    match total_ram_bytes {
        Some(b) => if clamped(raw) < memory_allows(b as int) {
            clamped(raw)
        } else {
            memory_allows(b as int)
        },
        None => clamped(raw),
    }
}

/// The number of encodes to run side by side.
pub fn detect_recommended_concurrency(
    encoder: Encoder,
    gpu_name: &Option<String>,
    cores: usize,
    total_ram_bytes: Option<u64>,
) -> (r: usize)
    ensures
        r == recommended(
            encoder,
            match gpu_name {
                Some(n) => Some(crate::text::lowercase(n@)),
                None => None,
            },
            cores as int,
            total_ram_bytes,
        ),
        gpu_name matches Some(n) ==> crate::text::is_ascii_text(n@) ==> r == recommended(
            encoder,
            Some(crate::text::ascii_lower(n@)),
            cores as int,
            total_ram_bytes,
        ),
        1 <= r <= MAX_CONCURRENCY,
{
    let raw: usize = match encoder {
        Encoder::HevcNvenc => detect_nvenc_concurrency(gpu_name),
        Encoder::LibX265 => detect_libx265_concurrency(cores),
    };
    apply_ram_cap(clamp_concurrency(raw), total_ram_bytes)
}

// ------------------------------------------------------------------- parsing

/// What follows the first colon with a blank behind it.
pub open spec fn after_colon(s: Seq<char>) -> Option<Seq<char>>
    decreases s.len(),
{
    if s.len() < 2 {
        None
    } else if s[0] == ':' && s[1] == ' ' {
        Some(s.skip(2))
    } else {
        after_colon(s.skip(1))
    }
}

/// What comes before the first character `c`; everything where there is none.
pub open spec fn up_to(s: Seq<char>, c: char) -> Seq<char>
    decreases s.len(),
{
    if s.len() == 0 || s[0] == c {
        Seq::empty()
    } else {
        seq![s[0]] + up_to(s.skip(1), c)
    }
}

/// The name of the first card in the list of cards.
pub open spec fn first_gpu_name(text: Seq<char>) -> Option<Seq<char>> {
    let l = crate::text::lines(text);
    if l.len() == 0 {
        None
    } else {
        match after_colon(crate::text::trim(l[0])) {
            None => None,
            Some(rest) => {
                let name = crate::text::trim(up_to(rest, '('));
                if name.len() == 0 {
                    None
                } else {
                    Some(name)
                }
            },
        }
    }
}

fn find_colon(s: &[char]) -> (r: Option<usize>)
    ensures
        match r {
            Some(i) => i <= s.len() && after_colon(s@) == Some(s@.skip(i as int)),
            None => after_colon(s@) is None,
        },
{
    let mut i: usize = 0;
    proof {
        assert(s@.skip(0) == s@);
    }
    while i < s.len() && s.len() - i >= 2
        invariant
            i <= s.len(),
            after_colon(s@) == after_colon(s@.skip(i as int)),
        decreases s.len() - i,
    {
        if s[i] == ':' && s[i + 1] == ' ' {
            proof {
                assert(s@.skip(i as int).skip(2) == s@.skip(i + 2));
            }
            return Some(i + 2);
        }
        proof {
            assert(s@.skip(i as int).skip(1) == s@.skip(i + 1));
        }
        i += 1;
    }
    None
}

fn find_end(s: &[char], c: char) -> (r: usize)
    ensures
        r <= s.len(),
        up_to(s@, c) == s@.take(r as int),
{
    let mut i: usize = 0;
    proof {
        assert(s@.skip(0) == s@);
        assert(s@.take(0) + up_to(s@, c) == up_to(s@, c));
    }
    while i < s.len() && s[i] != c
        invariant
            i <= s.len(),
            up_to(s@, c) == s@.take(i as int) + up_to(s@.skip(i as int), c),
        decreases s.len() - i,
    {
        proof {
            let rest = s@.skip(i as int);
            assert(rest.skip(1) == s@.skip(i + 1));
            assert(rest[0] == s@[i as int]);
            assert(s@.take(i as int) + (seq![rest[0]] + up_to(rest.skip(1), c)) == s@.take(i + 1)
                + up_to(s@.skip(i + 1), c));
        }
        i += 1;
    }
    proof {
        assert(up_to(s@.skip(i as int), c) == Seq::<char>::empty());
        assert(s@.take(i as int) + Seq::<char>::empty() == s@.take(i as int));
    }
    i
}

/// The name of the first card in the list of cards.
pub fn parse_first_gpu_name(text: &str) -> (r: Option<String>)
    ensures
        crate::text::opt_view(r) == first_gpu_name(text@),
{
    let v = chars_of(text);
    let l = lines_of(v.as_slice());
    let ghost lv = crate::text::pieces(l@);
    if l.len() == 0 {
        return None;
    }
    proof {
        assert(lv[0] == l@[0]@);
    }
    let line = trimmed(l[0].as_slice());
    let at: usize = match find_colon(line) {
        Some(i) => i,
        None => {
            return None;
        },
    };
    let rest = slice_subrange(line, at, line.len());
    proof {
        assert(rest@ == line@.skip(at as int));
    }
    let end: usize = find_end(rest, '(');
    let before = slice_subrange(rest, 0, end);
    proof {
        assert(before@ == rest@.take(end as int));
    }
    let name = trimmed(before);
    if name.len() == 0 {
        None
    } else {
        Some(string_of(name))
    }
}

/// The first word of a text: what stands before the next white space.
pub open spec fn first_word(s: Seq<char>) -> Seq<char>
    decreases s.len(),
{
    if s.len() == 0 || crate::text::is_space(s[0]) {
        Seq::empty()
    } else {
        seq![s[0]] + first_word(s.skip(1))
    }
}

fn word_end(s: &[char]) -> (r: usize)
    ensures
        r <= s.len(),
        first_word(s@) == s@.take(r as int),
{
    let mut i: usize = 0;
    proof {
        assert(s@.skip(0) == s@);
        assert(s@.take(0) + first_word(s@) == first_word(s@));
    }
    while i < s.len() && !char_is_space(s[i])
        invariant
            i <= s.len(),
            first_word(s@) == s@.take(i as int) + first_word(s@.skip(i as int)),
        decreases s.len() - i,
    {
        proof {
            let rest = s@.skip(i as int);
            assert(rest.skip(1) == s@.skip(i + 1));
            assert(rest[0] == s@[i as int]);
            assert(s@.take(i as int) + (seq![rest[0]] + first_word(rest.skip(1))) == s@.take(i + 1)
                + first_word(s@.skip(i + 1)));
        }
        i += 1;
    }
    proof {
        assert(first_word(s@.skip(i as int)) == Seq::<char>::empty());
        assert(s@.take(i as int) + Seq::<char>::empty() == s@.take(i as int));
    }
    i
}

/// The size of the memory in the first of the lines that states it, in
/// kilobytes.
pub open spec fn stated_memory(lines: Seq<Seq<char>>) -> Option<nat>
    decreases lines.len(),
{
    if lines.len() == 0 {
        None
    } else if crate::text::has_prefix(lines[0], "MemTotal:"@) {
        crate::text::unsigned_value(
            first_word(crate::text::trim_start(lines[0].skip("MemTotal:"@.len() as int))),
            u64::MAX as nat,
        )
    } else {
        stated_memory(lines.skip(1))
    }
}

/// The size of the memory that the system states, in kilobytes.
pub fn mem_total_kb(meminfo: &str) -> (r: Option<u64>)
    ensures
        match r {
            Some(kb) => stated_memory(crate::text::lines(meminfo@)) == Some(kb as nat),
            None => stated_memory(crate::text::lines(meminfo@)) is None,
        },
{
    let v = chars_of(meminfo);
    let l = lines_of(v.as_slice());
    let ghost lv = crate::text::pieces(l@);
    proof {
        reveal_strlit("MemTotal:");
        assert(lv.skip(0) == lv);
    }
    let mut i: usize = 0;
    while i < l.len()
        invariant
            i <= l.len(),
            "MemTotal:"@.len() == 9,
            lv == crate::text::pieces(l@),
            lv == crate::text::lines(meminfo@),
            stated_memory(lv) == stated_memory(lv.skip(i as int)),
        decreases l.len() - i,
    {
        let line = l[i].as_slice();
        proof {
            assert(lv.skip(i as int)[0] == line@);
            assert(lv.skip(i as int).skip(1) == lv.skip(i + 1));
        }
        if starts_with(line, "MemTotal:") {
            let rest = slice_subrange(line, 9, line.len());
            proof {
                assert(rest@ == line@.skip(9));
            }
            let word = trimmed_start(rest);
            let end: usize = word_end(word);
            let digits = slice_subrange(word, 0, end);
            proof {
                assert(digits@ == word@.take(end as int));
            }
            return parse_unsigned(digits, u64::MAX);
        }
        i += 1;
    }
    None
}

/// The size of the memory that the system states, in bytes.
pub fn total_ram_bytes(meminfo: &str) -> (r: Option<u64>)
    requires
        stated_memory(crate::text::lines(meminfo@)) matches Some(kb) ==> kb * 1024 <= u64::MAX,
    ensures
        match r {
            Some(b) => stated_memory(crate::text::lines(meminfo@)) matches Some(kb) && b == kb
                * 1024,
            None => stated_memory(crate::text::lines(meminfo@)) is None,
        },
{
    match mem_total_kb(meminfo) {
        Some(kb) => Some(kb * 1024),
        None => None,
    }
}

} // verus!
