//! What is learned of the machine, and how many encodes it runs.

use crate::timelapse::ffmpeg::Encoder;
use vstd::prelude::*;

verus! {

/// A number of encodes stays between one and four, and a number between them stays as
/// it is.
pub proof fn numbers_of_encodes_are_clamped(n: int)
    ensures
        1 <= crate::timelapse::concurrency::clamped(n) <= 4,
        1 <= n <= 4 ==> crate::timelapse::concurrency::clamped(n) == n,
        n < 1 ==> crate::timelapse::concurrency::clamped(n) == 1,
        n > 4 ==> crate::timelapse::concurrency::clamped(n) == 4,
{
}

/// The memory allows the largest number of encodes for which eight gigabytes for the
/// system and twelve for each encode are there, and always one.
pub proof fn memory_is_shared_out(bytes: int, n: int)
    requires
        0 <= bytes,
        1 < n,
    ensures
        n <= crate::timelapse::concurrency::memory_allows(bytes) <==> (8 + 12 * n) * 1073741824
            <= bytes,
        1 <= crate::timelapse::concurrency::memory_allows(bytes),
{
    let gb = bytes / 1073741824;
    assert((8 + 12 * n) * 1073741824 <= bytes <==> 8 + 12 * n <= gb);
}

/// The number of encodes is what the encoder takes, but no more than four and no more
/// than the memory allows, and at least one. The processor takes one for four cores; a
/// professional card takes four, any other two.
pub proof fn recommendations_respect_the_limits(
    encoder: Encoder,
    gpu: Option<Seq<char>>,
    cores: int,
    ram: Option<u64>,
)
    requires
        0 <= cores,
    ensures
        ({
            let r = crate::timelapse::concurrency::recommended(encoder, gpu, cores, ram);
            let wanted: int = match encoder {
                Encoder::LibX265 => cores / 4,
                Encoder::HevcNvenc => if gpu is Some
                    && crate::timelapse::concurrency::is_professional(gpu->0) {
                    4
                } else {
                    2
                },
            };
            &&& 1 <= r <= 4
            &&& wanted >= 1 ==> r <= wanted
            &&& ram is Some ==> r <= crate::timelapse::concurrency::memory_allows(ram->0 as int)
            &&& ram is None ==> r == if wanted < 1 {
                1
            } else if wanted > 4 {
                4
            } else {
                wanted
            }
            &&& ram is Some && r < crate::timelapse::concurrency::memory_allows(ram->0 as int)
                ==> r == crate::timelapse::concurrency::recommended(encoder, gpu, cores, None)
        }),
{
}

/// What follows the first colon and blank is found behind it.
pub proof fn what_follows_a_colon_is_found(a: Seq<char>, rest: Seq<char>)
    requires
        forall|i: int| 0 <= i < a.len() ==> #[trigger] a[i] != ':',
    ensures
        crate::timelapse::concurrency::after_colon(a + seq![':', ' '] + rest) == Some(rest),
    decreases a.len(),
{
    let s = a + seq![':', ' '] + rest;
    if a.len() > 0 {
        assert(a[0] != ':');
        assert(s[0] == a[0]);
        let b = a.skip(1);
        assert forall|i: int| 0 <= i < b.len() implies #[trigger] b[i] != ':' by {
            assert(b[i] == a[i + 1]);
        }
        what_follows_a_colon_is_found(b, rest);
        assert(s.skip(1) =~= b + seq![':', ' '] + rest);
    } else {
        assert(s[0] == ':' && s[1] == ' ');
        assert(s.skip(2) =~= rest);
    }
}

/// What comes before a character is cut off at its first place.
pub proof fn texts_are_cut_at_the_first_place(a: Seq<char>, rest: Seq<char>, c: char)
    requires
        forall|i: int| 0 <= i < a.len() ==> #[trigger] a[i] != c,
    ensures
        crate::timelapse::concurrency::up_to(a + seq![c] + rest, c) == a,
        crate::timelapse::concurrency::up_to(a, c) == a,
    decreases a.len(),
{
    let s = a + seq![c] + rest;
    if a.len() > 0 {
        assert(a[0] != c);
        let b = a.skip(1);
        assert forall|i: int| 0 <= i < b.len() implies #[trigger] b[i] != c by {
            assert(b[i] == a[i + 1]);
        }
        texts_are_cut_at_the_first_place(b, rest, c);
        assert(s[0] == a[0]);
        assert(s.skip(1) =~= b + seq![c] + rest);
        assert(seq![a[0]] + b =~= a);
    } else {
        assert(s[0] == c);
        assert(a =~= Seq::empty());
    }
}

/// A card for professionals takes as many encodes as a run may have, and any other two.
pub proof fn cards_take_by_their_name(lower: Seq<char>)
    ensures
        crate::text::has_substring(lower, "quadro"@) || crate::text::has_substring(lower, "tesla"@)
            || crate::text::has_substring(lower, "rtx a"@)
            ==> crate::timelapse::concurrency::card_takes(lower) == 4,
        !crate::text::has_substring(lower, "quadro"@) && !crate::text::has_substring(
            lower,
            "tesla"@,
        ) && !crate::text::has_substring(lower, "rtx a"@)
            ==> crate::timelapse::concurrency::card_takes(lower) == 2,
{
}

/// The name of a card is what stands in the first line between the first colon and the
/// first bracket, without white space around it.
pub proof fn cards_are_named_in_the_first_line(
    text: Seq<char>,
    a: Seq<char>,
    name: Seq<char>,
    rest: Seq<char>,
)
    requires
        crate::text::lines(text).len() > 0,
        crate::text::trim(crate::text::lines(text)[0]) == a + seq![':', ' '] + (name + seq!['(']
            + rest),
        forall|i: int| 0 <= i < a.len() ==> #[trigger] a[i] != ':',
        forall|i: int| 0 <= i < name.len() ==> #[trigger] name[i] != '(',
    ensures
        crate::timelapse::concurrency::first_gpu_name(text) == if crate::text::trim(name).len()
            == 0 {
            None
        } else {
            Some(crate::text::trim(name))
        },
{
    what_follows_a_colon_is_found(a, name + seq!['('] + rest);
    texts_are_cut_at_the_first_place(name, rest, '(');
}

/// A word ends with the next white space.
pub proof fn words_end_with_white_space(w: Seq<char>, rest: Seq<char>)
    requires
        forall|i: int| 0 <= i < w.len() ==> !crate::text::is_space(#[trigger] w[i]),
        rest.len() == 0 || crate::text::is_space(rest[0]),
    ensures
        crate::timelapse::concurrency::first_word(w + rest) == w,
    decreases w.len(),
{
    let s = w + rest;
    if w.len() > 0 {
        assert(!crate::text::is_space(w[0]));
        let b = w.skip(1);
        assert forall|i: int| 0 <= i < b.len() implies !crate::text::is_space(#[trigger] b[i]) by {
            assert(b[i] == w[i + 1]);
        }
        words_end_with_white_space(b, rest);
        assert(s[0] == w[0]);
        assert(s.skip(1) =~= b + rest);
        assert(seq![w[0]] + b =~= w);
    } else {
        assert(s =~= rest);
        assert(w =~= Seq::empty());
    }
}

/// The line states the memory.
pub open spec fn states_memory(l: Seq<char>) -> bool {
    l.len() >= 9 && l.take(9) == seq!['M', 'e', 'm', 'T', 'o', 't', 'a', 'l', ':']
}

/// The memory is read from the first line that states it: the number that follows, up
/// to the next white space. Without such a line it is not known.
pub proof fn memory_is_read_from_its_line(lines: Seq<Seq<char>>, k: int)
    requires
        0 <= k <= lines.len(),
        forall|j: int| 0 <= j < k ==> !states_memory(#[trigger] lines[j]),
    ensures
        k == lines.len() ==> crate::timelapse::concurrency::stated_memory(lines) is None,
        k < lines.len() && states_memory(lines[k])
            ==> crate::timelapse::concurrency::stated_memory(lines) == crate::text::unsigned_value(
            crate::timelapse::concurrency::first_word(crate::text::trim_start(lines[k].skip(9))),
            u64::MAX as nat,
        ),
    decreases lines.len(),
{
    reveal_strlit("MemTotal:");
    assert("MemTotal:"@ =~= seq!['M', 'e', 'm', 'T', 'o', 't', 'a', 'l', ':']);
    if lines.len() > 0 {
        assert(lines[0].len() >= 9 ==> lines[0].take(9) =~= lines[0].subrange(0, 9));
        if k > 0 {
            assert(!states_memory(lines[0]));
            let u = lines.skip(1);
            assert forall|j: int| 0 <= j < k - 1 implies !states_memory(#[trigger] u[j]) by {
                assert(u[j] == lines[j + 1]);
            }
            memory_is_read_from_its_line(u, k - 1);
            if k < lines.len() {
                assert(u[k - 1] == lines[k]);
            }
        }
    }
}

/// A row is listed with the full path of its output, and is otherwise as it is.
pub proof fn jobs_are_listed_with_full_paths(r: crate::db::rows::JobView, root: Seq<char>)
    ensures
        ({
            let f = crate::timelapse::commands::with_full_path(r, root);
            &&& f.output_path is Some <==> r.output_path is Some
            &&& r.output_path is Some ==> f.output_path->0 == crate::paths::path_join(
                root,
                r.output_path->0,
            )
            &&& f == (crate::db::rows::JobView { output_path: f.output_path, ..r })
        }),
{
}

} // verus!
