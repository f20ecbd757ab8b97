//! How numbers and runs of column bytes are written in a sixel stream.

use vstd::prelude::*;

verus! {

/// `String::push` appends the character to the string.
pub assume_specification[ String::push ](s: &mut String, ch: char)
    ensures
        final(s)@ == old(s)@.push(ch),
;

/// The byte of a column with no pixel lit: `?`.
pub const EMPTY_COLUMN: u8 = 63;

/// What a data byte carries: the byte lowered by 63, and nothing where the
/// byte is below 63.
pub open spec fn payload(byte: u8) -> int {
    if byte >= 63 {
        byte - 63
    } else {
        0
    }
}

/// The value of pixel `i` of a column in its byte: 1, 2, 4, 8, 16, 32 from
/// the top pixel down (and 64, one more than any byte of six pixels holds,
/// for what would be a seventh).
pub open spec fn weight(i: int) -> int
    recommends
        0 <= i <= 6,
{
    if i <= 0 {
        1
    } else if i == 1 {
        2
    } else if i == 2 {
        4
    } else if i == 3 {
        8
    } else if i == 4 {
        16
    } else if i == 5 {
        32
    } else {
        64
    }
}

/// Whether pixel `i` of the column that `byte` encodes is lit; pixel 0 is
/// the topmost of the six.
pub open spec fn bit_is_set(byte: u8, i: int) -> bool
    recommends
        0 <= i < 6,
{
    (payload(byte) / weight(i)) % 2 == 1
}

/// The character of the decimal digit `d`.
pub open spec fn digit(d: int) -> char
    recommends
        0 <= d < 10,
{
    (d + 48) as char
}

/// The decimal numeral of `n`: no sign, no leading zero, `"0"` for zero.
pub open spec fn decimal(n: nat) -> Seq<char>
    decreases n,
{
    if n < 10 {
        seq![digit(n as int)]
    } else {
        decimal(n / 10).push(digit((n % 10) as int))
    }
}

/// How many bytes the run that starts at `start` holds: the byte there and
/// every byte after it up to the first that differs. Zero past the end.
pub open spec fn run_length(track: Seq<u8>, start: int) -> nat
    decreases track.len() - start,
{
    if start < 0 || start >= track.len() {
        0
    } else if start + 1 < track.len() && track[start + 1] == track[start] {
        1 + run_length(track, start + 1)
    } else {
        1
    }
}

/// A run of `count` times `character`: `!<count><character>` from three on,
/// the character itself once or twice below that.
pub open spec fn run_text(count: nat, character: char) -> Seq<char> {
    if count > 2 {
        seq!['!'] + decimal(count) + seq![character]
    } else {
        Seq::new(count, |i: int| character)
    }
}

/// The track from `start` on, run after run, each written as `run_text` has it.
pub open spec fn compressed_from(track: Seq<u8>, start: int) -> Seq<char>
    decreases track.len() - start,
{
    if start < 0 || start >= track.len() {
        Seq::empty()
    } else {
        let count = run_length(track, start);
        proof {
            lemma_run_length_bounds(track, start);
        }
        run_text(count, track[start] as char) + compressed_from(track, start + count)
    }
}

/// The run-length form of a whole track.
pub open spec fn compressed(track: Seq<u8>) -> Seq<char> {
    compressed_from(track, 0)
}

/// A run is at least one byte long and ends inside the track.
pub proof fn lemma_run_length_bounds(track: Seq<u8>, start: int)
    requires
        0 <= start < track.len(),
    ensures
        1 <= run_length(track, start) <= track.len() - start,
    decreases track.len() - start,
{
    if start + 1 < track.len() && track[start + 1] == track[start] {
        lemma_run_length_bounds(track, start + 1);
    }
}

/// `count` equal bytes from `start` on, followed by another byte or by the
/// end of the track, are one run.
pub proof fn lemma_run_length_is(track: Seq<u8>, start: int, count: int)
    requires
        0 <= start,
        1 <= count,
        start + count <= track.len(),
        forall|j: int| start <= j < start + count ==> track[j] == track[start],
        start + count == track.len() || track[start + count] != track[start],
    ensures
        run_length(track, start) == count,
    decreases count,
{
    if count > 1 {
        lemma_run_length_is(track, start + 1, count - 1);
    }
}

/// A run holds one byte throughout, and is as long as it can be: the byte
/// after it, if there is one, is another. So no two runs in a row hold the
/// same byte, and a track has one run-length form only.
pub proof fn lemma_run_is_maximal(track: Seq<u8>, start: int)
    requires
        0 <= start < track.len(),
    ensures
        forall|j: int|
            start <= j < start + run_length(track, start) ==> #[trigger] track[j] == track[start],
        start + run_length(track, start) < track.len() ==> track[start + run_length(track, start)]
            != track[start],
    decreases track.len() - start,
{
    if start + 1 < track.len() && track[start + 1] == track[start] {
        lemma_run_is_maximal(track, start + 1);
    }
}

/// The track from `start` on as its runs give it back: each run as many
/// times its byte as the run is long.
pub open spec fn unrolled_from(track: Seq<u8>, start: int) -> Seq<u8>
    decreases track.len() - start,
{
    if start < 0 || start >= track.len() {
        Seq::empty()
    } else {
        let count = run_length(track, start);
        proof {
            lemma_run_length_bounds(track, start);
        }
        Seq::new(count, |i: int| track[start]) + unrolled_from(track, start + count)
    }
}

/// The run-length form loses nothing: the runs, each written out in full,
/// are the track.
pub proof fn lemma_runs_give_track(track: Seq<u8>, start: int)
    requires
        0 <= start <= track.len(),
    ensures
        unrolled_from(track, start) == track.skip(start),
    decreases track.len() - start,
{
    if start < track.len() {
        let count = run_length(track, start);
        lemma_run_length_bounds(track, start);
        lemma_run_is_maximal(track, start);
        lemma_runs_give_track(track, start + count);
    }
}

/// Appends the decimal numeral of `n`.
pub fn push_decimal(out: &mut String, n: usize)
    ensures
        final(out)@ == old(out)@ + decimal(n as nat),
    decreases n,
{
    if n >= 10 {
        push_decimal(out, n / 10);
    }
    let d: u8 = (n % 10) as u8;
    out.push((d + 48) as char);
}

} // verus!
