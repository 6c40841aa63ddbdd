//! What holds of encoding and decoding, proved over the model in
//! [`crate::format`].
//!
//! The laws on encoding come first, then those on decoding, then those on
//! the two together.

use crate::ambiguity::lemma_ambiguous_is_not_inverted;
use crate::format::{
    decode_from, encode_from, has_no_repeats, is_marker, is_run, is_unambiguous,
    is_unambiguous_from, lemma_run_length, lemma_run_unique, prepend, record, repeated,
    run_length, spec_decode, spec_encode, MAX_RUN_LENGTH,
};
use vstd::prelude::*;

verus! {

proof fn lemma_encode_from_len(s: Seq<u8>, start: int)
    requires
        0 <= start <= s.len(),
    ensures
        2 * encode_from(s, start).len() <= 3 * (s.len() - start),
        encode_from(s, start).len() == 0 <==> start == s.len(),
    decreases s.len() - start,
{
    if start < s.len() {
        lemma_run_length(s, start);
        lemma_encode_from_len(s, start + run_length(s, start));
    }
}

/// The encoding is empty for empty input only, and never longer than one and
/// a half times the input.
pub proof fn lemma_encode_len(s: Seq<u8>)
    ensures
        2 * spec_encode(s).len() <= 3 * s.len(),
        spec_encode(s).len() == 0 <==> s.len() == 0,
{
    lemma_encode_from_len(s, 0);
}

proof fn lemma_encode_from_without_repeats(s: Seq<u8>, start: int)
    requires
        has_no_repeats(s),
        0 <= start <= s.len(),
    ensures
        encode_from(s, start) == s.subrange(start, s.len() as int),
        is_unambiguous_from(s, start),
    decreases s.len() - start,
{
    if start < s.len() {
        assert(run_length(s, start) == 1) by {
            if start + 1 < s.len() {
                assert(s[start + 1] != s[start + 1 - 1]);
            }
        }
        lemma_encode_from_without_repeats(s, start + 1);
        assert(record(s[start], 1) + s.subrange(start + 1, s.len() as int) =~= s.subrange(
            start,
            s.len() as int,
        ));
    } else {
        assert(encode_from(s, start) =~= s.subrange(start, s.len() as int));
    }
}

/// Input without two equal neighbours is its own encoding, and that encoding
/// is unambiguous.
pub proof fn lemma_encode_without_repeats(s: Seq<u8>)
    requires
        has_no_repeats(s),
    ensures
        spec_encode(s) == s,
        is_unambiguous(s),
{
    lemma_encode_from_without_repeats(s, 0);
    assert(s.subrange(0, s.len() as int) =~= s);
}

/// The encoding of the bytes from `start` on is the encoding of those bytes
/// taken by themselves: what stands before `start` has no part in it.
pub proof fn lemma_encode_from_is_encode_of_rest(s: Seq<u8>, start: int)
    requires
        0 <= start <= s.len(),
    ensures
        encode_from(s, start) == spec_encode(s.subrange(start, s.len() as int)),
    decreases s.len() - start,
{
    let rest = s.subrange(start, s.len() as int);
    if start < s.len() {
        let n = run_length(s, start);
        lemma_run_length(s, start);
        assert(is_run(rest, 0, n));
        lemma_run_unique(rest, 0, n);
        lemma_encode_from_is_encode_of_rest(s, start + n);
        lemma_encode_from_is_encode_of_rest(rest, n as int);
        assert(rest.subrange(n as int, rest.len() as int) =~= s.subrange(
            start + n,
            s.len() as int,
        ));
    }
}

/// A run of no more than `MAX_RUN_LENGTH` equal bytes is encoded as its one
/// record, and that record is decoded to the run.
pub proof fn lemma_encode_short_run(value: u8, len: nat)
    requires
        1 <= len <= MAX_RUN_LENGTH,
    ensures
        spec_encode(repeated(value, len)) == record(value, len),
        spec_decode(record(value, len)) == Some(repeated(value, len)),
{
    let s = repeated(value, len);
    assert(is_run(s, 0, len));
    lemma_run_unique(s, 0, len);
    assert(spec_encode(s) =~= record(value, len)) by {
        assert(encode_from(s, len as int) =~= Seq::<u8>::empty());
    }
    lemma_decode_inverts_encode_of_constant(value, len);
}

/// A run of more than `MAX_RUN_LENGTH` equal bytes is split: it is encoded as
/// the record of `MAX_RUN_LENGTH` of them, followed by the encoding of the
/// others.
pub proof fn lemma_encode_long_run(value: u8, len: nat)
    requires
        len > MAX_RUN_LENGTH,
    ensures
        spec_encode(repeated(value, len)) == record(value, MAX_RUN_LENGTH as nat) + spec_encode(
            repeated(value, (len - MAX_RUN_LENGTH) as nat),
        ),
{
    let s = repeated(value, len);
    let full = MAX_RUN_LENGTH as nat;
    assert(is_run(s, 0, full));
    lemma_run_unique(s, 0, full);
    lemma_encode_from_is_encode_of_rest(s, full as int);
    assert(s.subrange(full as int, s.len() as int) =~= repeated(value, (len - full) as nat));
}

proof fn lemma_encode_from_begins(s: Seq<u8>, start: int)
    requires
        0 <= start < s.len(),
    ensures
        encode_from(s, start).len() > 0,
        encode_from(s, start)[0] == s[start],
{
}

proof fn lemma_encode_from_injective(a: Seq<u8>, i: int, b: Seq<u8>, j: int)
    requires
        0 <= i <= a.len(),
        0 <= j <= b.len(),
        encode_from(a, i) == encode_from(b, j),
    ensures
        a.subrange(i, a.len() as int) == b.subrange(j, b.len() as int),
    decreases a.len() - i,
{
    let left = a.subrange(i, a.len() as int);
    let right = b.subrange(j, b.len() as int);
    if i == a.len() || j == b.len() {
        if i < a.len() {
            lemma_encode_from_begins(a, i);
        }
        if j < b.len() {
            lemma_encode_from_begins(b, j);
        }
        assert(left =~= right);
    } else {
        let na = run_length(a, i);
        let nb = run_length(b, j);
        let ra = encode_from(a, i + na);
        let rb = encode_from(b, j + nb);
        let ea = record(a[i], na) + ra;
        let eb = record(b[j], nb) + rb;
        lemma_run_length(a, i);
        lemma_run_length(b, j);
        assert(ea[0] == eb[0]);
        if na == 1 && nb >= 2 {
            // A byte that was written alone is not followed by itself.
            assert(eb[1] == b[j]);
            assert(ea.len() == eb.len());
            lemma_encode_from_begins(a, i + 1);
            assert(ea[1] == a[i + 1]);
        } else if na >= 2 && nb == 1 {
            assert(ea[1] == a[i]);
            assert(ea.len() == eb.len());
            lemma_encode_from_begins(b, j + 1);
            assert(eb[1] == b[j + 1]);
        } else {
            if na >= 2 {
                assert(ea[2] == eb[2]);
            }
            assert(na == nb);
            let skipped = record(a[i], na).len() as int;
            assert(ra =~= ea.subrange(skipped, ea.len() as int));
            assert(rb =~= eb.subrange(skipped, eb.len() as int));
            lemma_encode_from_injective(a, i + na, b, j + nb);
            let ta = a.subrange(i + na, a.len() as int);
            let tb = b.subrange(j + nb, b.len() as int);
            assert(left =~= repeated(a[i], na) + ta);
            assert(right =~= repeated(b[j], nb) + tb);
        }
    }
}

/// Encoding loses nothing: inputs with the same encoding are the same.
pub proof fn lemma_encode_injective(a: Seq<u8>, b: Seq<u8>)
    requires
        spec_encode(a) == spec_encode(b),
    ensures
        a == b,
{
    lemma_encode_from_injective(a, 0, b, 0);
    assert(a.subrange(0, a.len() as int) =~= a);
    assert(b.subrange(0, b.len() as int) =~= b);
}

/// The first byte of the input is never taken for a repetition marker,
/// whatever its value: it stands for itself, and what is decoded begins with
/// it.
pub proof fn lemma_first_byte_is_literal(s: Seq<u8>)
    requires
        s.len() > 0,
    ensures
        spec_decode(s) == prepend(seq![s[0]], decode_from(s, 1)),
        spec_decode(s) matches Some(bytes) ==> bytes.len() > 0 && bytes[0] == s[0],
{
}

proof fn lemma_decode_from_fails(s: Seq<u8>, pos: int)
    requires
        0 <= pos <= s.len(),
        decode_from(s, pos) is None,
    ensures
        is_marker(s, s.len() - 1),
    decreases s.len() - pos,
{
    if is_marker(s, pos) {
        if pos + 1 < s.len() {
            lemma_decode_from_fails(s, pos + 2);
        }
    } else {
        lemma_decode_from_fails(s, pos + 1);
    }
}

/// Decoding fails on no other input than one whose last byte equals the byte
/// before it.
pub proof fn lemma_decode_fails_at_last_byte(s: Seq<u8>)
    requires
        spec_decode(s) is None,
    ensures
        is_marker(s, s.len() - 1),
{
    lemma_decode_from_fails(s, 0);
}

proof fn lemma_decode_from_len(s: Seq<u8>, pos: int)
    requires
        0 <= pos <= s.len(),
    ensures
        decode_from(s, pos) matches Some(bytes) ==> bytes.len() <= 128 * (s.len() - pos),
    decreases s.len() - pos,
{
    if pos < s.len() {
        if is_marker(s, pos) {
            if pos + 1 < s.len() {
                lemma_decode_from_len(s, pos + 2);
            }
        } else {
            lemma_decode_from_len(s, pos + 1);
        }
    }
}

/// What is decoded is at most 128 times as long as the encoded bytes: a
/// marker and its length byte stand for no more than 256 bytes.
pub proof fn lemma_decode_len(s: Seq<u8>)
    ensures
        spec_decode(s) matches Some(bytes) ==> bytes.len() <= 128 * s.len(),
{
    lemma_decode_from_len(s, 0);
}

/// Decoding, begun behind any bytes `before` that do not end in the byte at
/// `start`, gives the input back from `start` on, where its encoding is
/// unambiguous.
proof fn lemma_decode_inverts_encode_from(before: Seq<u8>, s: Seq<u8>, start: int)
    requires
        0 <= start <= s.len(),
        is_unambiguous_from(s, start),
        before.len() > 0 && start < s.len() ==> before.last() != s[start],
    ensures
        decode_from(before + encode_from(s, start), before.len() as int) == Some(
            s.subrange(start, s.len() as int),
        ),
    decreases s.len() - start,
{
    let encoded = before + encode_from(s, start);
    let pos = before.len() as int;
    if start >= s.len() {
        assert(s.subrange(start, s.len() as int) =~= Seq::<u8>::empty());
    } else {
        let n = run_length(s, start);
        let value = s[start];
        let rest = encode_from(s, start + n);
        let through = before + record(value, n);
        lemma_run_length(s, start);
        assert(encoded =~= through + rest);
        assert(encoded[pos] == value);
        assert(!is_marker(encoded, pos));
        lemma_decode_inverts_encode_from(through, s, start + n);
        let tail = s.subrange(start + n, s.len() as int);
        if n == 1 {
            assert(seq![value] + tail =~= s.subrange(start, s.len() as int));
        } else {
            assert(encoded[pos + 1] == value);
            assert(encoded[pos + 2] == (n - 2) as u8);
            assert(is_marker(encoded, pos + 1));
            assert(decode_from(encoded, pos + 1) == Some(repeated(value, (n - 1) as nat) + tail));
            assert(seq![value] + (repeated(value, (n - 1) as nat) + tail) =~= s.subrange(
                start,
                s.len() as int,
            ));
        }
    }
}

/// Decoding inverts encoding on every input whose encoding is unambiguous.
pub proof fn lemma_decode_inverts_encode(s: Seq<u8>)
    requires
        is_unambiguous(s),
    ensures
        spec_decode(spec_encode(s)) == Some(s),
{
    lemma_decode_inverts_encode_from(Seq::<u8>::empty(), s, 0);
    assert(Seq::<u8>::empty() + spec_encode(s) =~= spec_encode(s));
    assert(s.subrange(0, s.len() as int) =~= s);
}

/// Decoding inverts encoding on the inputs whose encoding is unambiguous, and
/// on no others.
pub proof fn lemma_decode_inverts_encode_iff(s: Seq<u8>)
    ensures
        spec_decode(spec_encode(s)) == Some(s) <==> is_unambiguous(s),
{
    if is_unambiguous(s) {
        lemma_decode_inverts_encode(s);
    } else {
        lemma_ambiguous_is_not_inverted(s);
    }
}

proof fn lemma_constant_is_unambiguous_from(value: u8, count: nat, start: int)
    requires
        0 <= start <= count,
        value != 255 || count - start <= MAX_RUN_LENGTH,
    ensures
        is_unambiguous_from(repeated(value, count), start),
    decreases count - start,
{
    let s = repeated(value, count);
    if start < count {
        let left = count - start;
        let n = if left <= MAX_RUN_LENGTH {
            left as nat
        } else {
            MAX_RUN_LENGTH as nat
        };
        assert(is_run(s, start, n));
        lemma_run_unique(s, start, n);
        lemma_constant_is_unambiguous_from(value, count, start + n);
    }
}

/// Decoding inverts encoding on a sequence of equal bytes of any length,
/// unless the byte is 255 and there are more than `MAX_RUN_LENGTH` of them:
/// the length byte of a full record is 255.
pub proof fn lemma_decode_inverts_encode_of_constant(value: u8, count: nat)
    requires
        value != 255 || count <= MAX_RUN_LENGTH,
    ensures
        is_unambiguous(repeated(value, count)),
        spec_decode(spec_encode(repeated(value, count))) == Some(repeated(value, count)),
{
    lemma_constant_is_unambiguous_from(value, count, 0);
    lemma_decode_inverts_encode(repeated(value, count));
}

} // verus!
