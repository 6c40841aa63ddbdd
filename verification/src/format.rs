//! The encoded format, as functions on mathematical sequences.
//!
//! Encoding cuts the input into runs of equal bytes, none longer than
//! [`MAX_RUN_LENGTH`], and writes one record per run. Decoding scans the
//! encoded bytes from left to right; a byte that equals the byte directly
//! before it is a repetition marker, and the byte after a marker is a length
//! byte.

use vstd::prelude::*;

verus! {

/// The longest run that a single record can describe: the byte itself, its
/// repetition, and up to 255 further occurrences counted by the length byte.
pub const MAX_RUN_LENGTH: usize = 257;

/// `count` copies of `value`.
pub open spec fn repeated(value: u8, count: nat) -> Seq<u8> {
    Seq::new(count, |i: int| value)
}

/// The record that stands for `len` occurrences of `value` in a row: the
/// byte alone when it occurs once, else the byte twice and `len - 2`.
pub open spec fn record(value: u8, len: nat) -> Seq<u8> {
    if len <= 1 {
        seq![value]
    } else {
        seq![value, value, (len - 2) as u8]
    }
}

/// How many of the bytes of `s` from `start` on equal `s[start]`, counting
/// no further than `limit`. At least 1, so that a scan always advances.
pub open spec fn run_length_within(s: Seq<u8>, start: int, limit: nat) -> nat
    decreases limit,
{
    if limit <= 1 || start + 1 >= s.len() || s[start + 1] != s[start] {
        1
    } else {
        1 + run_length_within(s, start + 1, (limit - 1) as nat)
    }
}

/// The length of the run that the encoder takes at `start`: the equal bytes
/// from there on, cut off at `MAX_RUN_LENGTH`.
pub open spec fn run_length(s: Seq<u8>, start: int) -> nat {
    run_length_within(s, start, MAX_RUN_LENGTH as nat)
}

/// Whether the `len` bytes of `s` from `start` form a run that cannot be
/// extended: they are equal, and the run stops at the limit, at the end of
/// `s`, or before a different byte.
pub open spec fn is_run_within(s: Seq<u8>, start: int, len: nat, limit: nat) -> bool {
    &&& 0 <= start
    &&& 1 <= len <= limit
    &&& start + len <= s.len()
    &&& forall|k: int| start <= k < start + len ==> s[k] == s[start]
    &&& (len == limit || start + len == s.len() || s[start + len] != s[start])
}

/// Whether the `len` bytes of `s` from `start` form the run that the encoder
/// takes there.
pub open spec fn is_run(s: Seq<u8>, start: int, len: nat) -> bool {
    is_run_within(s, start, len, MAX_RUN_LENGTH as nat)
}

/// The encoding of the bytes of `s` from `start` on: the record of the run
/// at `start`, followed by the encoding of what comes after that run.
pub open spec fn encode_from(s: Seq<u8>, start: int) -> Seq<u8>
    decreases s.len() - start,
    via encode_from_terminates
{
    if start < 0 || start >= s.len() {
        Seq::empty()
    } else {
        let n = run_length(s, start);
        record(s[start], n) + encode_from(s, start + n)
    }
}

#[via_fn]
proof fn encode_from_terminates(s: Seq<u8>, start: int) {
    if 0 <= start < s.len() {
        lemma_run_length_within(s, start, MAX_RUN_LENGTH as nat);
    }
}

/// The encoding of `s`.
pub open spec fn spec_encode(s: Seq<u8>) -> Seq<u8> {
    encode_from(s, 0)
}

/// Whether the byte of `s` at `pos` is a repetition marker: it equals the
/// byte directly before it. The first byte never is one.
pub open spec fn is_marker(s: Seq<u8>, pos: int) -> bool {
    0 < pos < s.len() && s[pos] == s[pos - 1]
}

/// `head` followed by `tail`, where there is a `tail`.
pub open spec fn prepend(head: Seq<u8>, tail: Option<Seq<u8>>) -> Option<Seq<u8>> {
    match tail {
        Some(rest) => Some(head + rest),
        None => None,
    }
}

/// What the bytes of `s` from `pos` on decode to, when the scan stands at
/// `pos`. A marker stands for one more occurrence of its byte than the length
/// byte behind it says; any other byte stands for itself. `None` where the
/// scan meets a marker as the last byte of `s`, with no length byte behind
/// it.
pub open spec fn decode_from(s: Seq<u8>, pos: int) -> Option<Seq<u8>>
    decreases s.len() - pos,
{
    if pos < 0 || pos >= s.len() {
        Some(Seq::empty())
    } else if is_marker(s, pos) {
        if pos + 1 >= s.len() {
            None
        } else {
            prepend(repeated(s[pos], s[pos + 1] as nat + 1), decode_from(s, pos + 2))
        }
    } else {
        prepend(seq![s[pos]], decode_from(s, pos + 1))
    }
}

/// The decoding of `s`, or `None` where `s` ends in a marker that lacks its
/// length byte.
pub open spec fn spec_decode(s: Seq<u8>) -> Option<Seq<u8>> {
    decode_from(s, 0)
}

/// Whether no two neighbours in `s` are equal.
pub open spec fn has_no_repeats(s: Seq<u8>) -> bool {
    forall|i: int| 0 < i < s.len() ==> #[trigger] s[i] != s[i - 1]
}

/// Whether the decoder finds the record boundaries in the encoding of the
/// bytes of `s` from `start` on.
///
/// The decoder takes a byte for a marker when it equals the byte before it,
/// and that byte may be a length byte. So a run that is written with a length
/// byte must not be followed by a byte of that very value: a run of `n >= 2`
/// bytes must not be followed by the byte `n - 2`.
pub open spec fn is_unambiguous_from(s: Seq<u8>, start: int) -> bool
    decreases s.len() - start,
    via is_unambiguous_from_terminates
{
    if start < 0 || start >= s.len() {
        true
    } else {
        let n = run_length(s, start);
        &&& n >= 2 && start + n < s.len() ==> s[start + n] != n - 2
        &&& is_unambiguous_from(s, start + n)
    }
}

#[via_fn]
proof fn is_unambiguous_from_terminates(s: Seq<u8>, start: int) {
    if 0 <= start < s.len() {
        lemma_run_length_within(s, start, MAX_RUN_LENGTH as nat);
    }
}

/// Whether the decoder finds the record boundaries in the encoding of `s`.
pub open spec fn is_unambiguous(s: Seq<u8>) -> bool {
    is_unambiguous_from(s, 0)
}

/// The run length computed at `start` is that of a run that cannot be
/// extended.
pub proof fn lemma_run_length_within(s: Seq<u8>, start: int, limit: nat)
    requires
        0 <= start < s.len(),
        1 <= limit,
    ensures
        is_run_within(s, start, run_length_within(s, start, limit), limit),
    decreases limit,
{
    if !(limit <= 1 || start + 1 >= s.len() || s[start + 1] != s[start]) {
        lemma_run_length_within(s, start + 1, (limit - 1) as nat);
    }
}

/// There is one run at `start` that cannot be extended, and the run length
/// computed there is its length.
pub proof fn lemma_run_within_unique(s: Seq<u8>, start: int, len: nat, limit: nat)
    requires
        is_run_within(s, start, len, limit),
    ensures
        run_length_within(s, start, limit) == len,
    decreases limit,
{
    if len > 1 {
        assert(s[start + 1] == s[start]);
        lemma_run_within_unique(s, start + 1, (len - 1) as nat, (limit - 1) as nat);
    }
}

/// The run that the encoder takes at `start` cannot be extended.
pub proof fn lemma_run_length(s: Seq<u8>, start: int)
    requires
        0 <= start < s.len(),
    ensures
        is_run(s, start, run_length(s, start)),
{
    lemma_run_length_within(s, start, MAX_RUN_LENGTH as nat);
}

/// A run at `start` that cannot be extended is the run that the encoder takes
/// there.
pub proof fn lemma_run_unique(s: Seq<u8>, start: int, len: nat)
    requires
        is_run(s, start, len),
    ensures
        run_length(s, start) == len,
{
    lemma_run_within_unique(s, start, len, MAX_RUN_LENGTH as nat);
}

} // verus!
