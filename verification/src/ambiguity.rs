//! Why an ambiguous encoding is never decoded to the input it came from.
//!
//! Where a run that is written with a length byte is followed by a byte of
//! that very value, the decoder takes the first byte of the next record for a
//! marker. From there on it runs ahead of the input or falls behind it, and
//! the proofs below follow it until what it writes differs from the input.

use crate::format::{
    decode_from, encode_from, is_marker, is_run, is_unambiguous, is_unambiguous_from,
    lemma_run_length, record, run_length, spec_decode, spec_encode,
};
use vstd::prelude::*;

verus! {

/// Whether decoding `e` from `pos` on gives exactly the bytes of `s` from
/// `at` on.
spec fn yields(e: Seq<u8>, pos: int, s: Seq<u8>, at: int) -> bool {
    &&& 0 <= at <= s.len()
    &&& decode_from(e, pos) == Some(s.subrange(at, s.len() as int))
}

/// At the end of the encoded bytes nothing more is written.
proof fn lemma_end_step(e: Seq<u8>, pos: int, s: Seq<u8>, at: int)
    requires
        pos >= e.len(),
        yields(e, pos, s, at),
    ensures
        at == s.len(),
{
    assert(s.subrange(at, s.len() as int).len() == 0);
}

/// A byte that is no marker writes itself.
proof fn lemma_literal_step(e: Seq<u8>, pos: int, s: Seq<u8>, at: int)
    requires
        0 <= pos < e.len(),
        !is_marker(e, pos),
        yields(e, pos, s, at),
    ensures
        at < s.len(),
        s[at] == e[pos],
        yields(e, pos + 1, s, at + 1),
{
    let target = s.subrange(at, s.len() as int);
    let rest = decode_from(e, pos + 1)->0;
    assert(seq![e[pos]] + rest == target);
    assert(target.len() == 1 + rest.len());
    assert(target[0] == e[pos]);
    assert(rest =~= s.subrange(at + 1, s.len() as int)) by {
        assert forall|k: int| 0 <= k < rest.len() implies rest[k] == s[at + 1 + k] by {
            assert(target[k + 1] == rest[k]);
        }
    }
}

/// A marker writes its byte once more than the length byte behind it says.
proof fn lemma_marker_step(e: Seq<u8>, pos: int, s: Seq<u8>, at: int)
    requires
        is_marker(e, pos),
        yields(e, pos, s, at),
    ensures
        pos + 1 < e.len(),
        at + e[pos + 1] + 1 <= s.len(),
        forall|i: int| at <= i < at + e[pos + 1] + 1 ==> s[i] == e[pos],
        yields(e, pos + 2, s, at + e[pos + 1] + 1),
{
    let target = s.subrange(at, s.len() as int);
    let count = e[pos + 1] as nat + 1;
    let rest = decode_from(e, pos + 2)->0;
    let written = Seq::new(count, |i: int| e[pos]);
    assert(written + rest == target);
    assert(target.len() == count + rest.len());
    assert forall|i: int| at <= i < at + count implies s[i] == e[pos] by {
        assert(target[i - at] == written[i - at]);
    }
    assert(rest =~= s.subrange(at + count, s.len() as int)) by {
        assert forall|k: int| 0 <= k < rest.len() implies rest[k] == s[at + count + k] by {
            assert(target[k + count] == rest[k]);
        }
    }
}

/// The encoding of the bytes from `start` on, written behind `before`, holds
/// the record of the run at `start` and then the encoding of what follows
/// that run.
proof fn lemma_record_in_stream(before: Seq<u8>, s: Seq<u8>, start: int)
    requires
        0 <= start < s.len(),
    ensures
        ({
            let e = before + encode_from(s, start);
            let q = before.len() as int;
            let n = run_length(s, start);
            let through = before + record(s[start], n);
            &&& is_run(s, start, n)
            &&& e == through + encode_from(s, start + n)
            &&& q < e.len()
            &&& e[q] == s[start]
            &&& n == 1 ==> through.len() == q + 1 && through.last() == s[start]
            &&& n >= 2 ==> through.len() == q + 3 && through.last() == n - 2 && e[q + 1]
                == s[start] && e[q + 2] == n - 2
            &&& start + n == s.len() ==> e.len() == through.len()
            &&& start + n < s.len() ==> e.len() > through.len() && e[through.len() as int]
                == s[start + n]
        }),
{
    let e = before + encode_from(s, start);
    let n = run_length(s, start);
    let through = before + record(s[start], n);
    lemma_run_length(s, start);
    assert(e =~= through + encode_from(s, start + n));
    if start + n < s.len() {
        lemma_run_length(s, start + n);
    }
}

/// The decoder stands at the record of `start` and has written one byte
/// less than the input holds before `start`, the last of them being no 255:
/// it never catches up. It writes the byte of each record that it reads, so
/// the input would have to go on with the same byte for ever.
proof fn lemma_one_behind(before: Seq<u8>, s: Seq<u8>, start: int)
    requires
        0 < start <= s.len(),
        before.len() > 0,
        s[start - 1] != 255,
        start < s.len() && s[start] == s[start - 1] ==> before.last() == 255,
    ensures
        !yields(before + encode_from(s, start), before.len() as int, s, start - 1),
    decreases s.len() - start,
{
    let e = before + encode_from(s, start);
    let q = before.len() as int;
    if yields(e, q, s, start - 1) {
        if start == s.len() {
            lemma_end_step(e, q, s, start - 1);
        } else {
            lemma_record_in_stream(before, s, start);
            let n = run_length(s, start);
            let through = before + record(s[start], n);
            assert(e[q - 1] == before.last());
            if is_marker(e, q) {
                lemma_marker_step(e, q, s, start - 1);
                assert(s[start - 1] == s[start]);
            } else {
                lemma_literal_step(e, q, s, start - 1);
                if n == 1 {
                    lemma_one_behind(through, s, start + 1);
                } else {
                    assert(is_marker(e, q + 1));
                    lemma_marker_step(e, q + 1, s, start);
                    lemma_one_behind(through, s, start + n);
                }
            }
        }
    }
}

/// The decoder has taken the first byte of the record at `start` for a
/// length byte, and has written the input as far as `start`: the byte of
/// that record, which is no 255, is then written once too few.
proof fn lemma_first_byte_skipped(before: Seq<u8>, s: Seq<u8>, start: int)
    requires
        0 <= start < s.len(),
        s[start] != 255,
    ensures
        !yields(before + encode_from(s, start), before.len() as int + 1, s, start),
{
    let e = before + encode_from(s, start);
    let q = before.len() as int;
    if yields(e, q + 1, s, start) {
        lemma_record_in_stream(before, s, start);
        let n = run_length(s, start);
        let through = before + record(s[start], n);
        if n == 1 {
            lemma_one_behind(through, s, start + 1);
        } else {
            assert(is_marker(e, q + 1));
            lemma_marker_step(e, q + 1, s, start);
            lemma_one_behind(through, s, start + n);
        }
    }
}

/// The decoder takes the first byte of the record at `start` for a marker,
/// and has already written the first byte of that run, which is no 255: what
/// it writes next differs from the input.
proof fn lemma_one_ahead(before: Seq<u8>, s: Seq<u8>, start: int)
    requires
        0 <= start < s.len(),
        before.len() > 0,
        before.last() == s[start],
        s[start] != 255,
    ensures
        !yields(before + encode_from(s, start), before.len() as int, s, start + 1),
{
    let e = before + encode_from(s, start);
    let q = before.len() as int;
    if yields(e, q, s, start + 1) {
        lemma_record_in_stream(before, s, start);
        let n = run_length(s, start);
        let v = s[start];
        assert(e[q - 1] == before.last());
        assert(is_marker(e, q));
        lemma_marker_step(e, q, s, start + 1);
        if n == 1 {
            assert(s[start + 1] == v);
        } else {
            let at = start + v + 2;
            assert(at <= start + n) by {
                if start + n < at {
                    assert(s[start + n] == v);
                }
            }
            if is_marker(e, q + 2) {
                lemma_marker_step(e, q + 2, s, at);
                assert(s[start + n] == v);
            } else {
                lemma_literal_step(e, q + 2, s, at);
            }
        }
    }
}

/// The decoder stands in a record of 255s, `offset` bytes into it, behind a
/// 255, so that it takes every 255 for a marker. It has written `ahead`
/// bytes more than the input holds before `start`, 254 or more of them, all
/// of them 255s that the input holds too. With every record it gets further
/// ahead, so the input would have to go on with 255s for ever.
proof fn lemma_far_ahead(before: Seq<u8>, s: Seq<u8>, start: int, offset: int, ahead: int)
    requires
        0 <= start < s.len(),
        start + ahead <= s.len(),
        forall|i: int| start <= i < start + ahead ==> s[i] == 255,
        offset == 0 ==> ahead >= 254 && before.len() > 0 && before.last() == 255,
        offset == 1 ==> ahead >= 255,
        offset == 2 ==> ahead >= 257,
        0 <= offset <= 2,
    ensures
        !yields(
            before + encode_from(s, start),
            before.len() as int + offset,
            s,
            start + ahead,
        ),
    decreases s.len() - start, 2 - offset,
{
    let e = before + encode_from(s, start);
    let q = before.len() as int;
    if yields(e, q + offset, s, start + ahead) {
        lemma_record_in_stream(before, s, start);
        let n = run_length(s, start);
        let through = before + record(255, n);
        assert(n >= 254) by {
            if n < 254 {
                assert(s[start + n] == 255);
            }
        }
        if offset == 0 {
            assert(e[q - 1] == before.last());
            assert(is_marker(e, q));
            lemma_marker_step(e, q, s, start + ahead);
            lemma_far_ahead(before, s, start, 2, ahead + 256);
        } else if offset == 1 {
            assert(is_marker(e, q + 1));
            lemma_marker_step(e, q + 1, s, start + ahead);
            assert(n == 257) by {
                if n < 257 {
                    assert(s[start + n] == 255);
                }
            }
            lemma_far_ahead(through, s, start + 257, 0, ahead - 1);
        } else {
            assert(n == 257) by {
                if n < 257 {
                    assert(s[start + n] == 255);
                }
            }
            assert(is_marker(e, q + 2));
            lemma_marker_step(e, q + 2, s, start + ahead);
            assert(s[start + 257] == 255) by {
                if ahead == 257 {
                    assert(s[start + ahead] == e[q + 2]);
                }
            }
            lemma_far_ahead(through, s, start + 257, 1, ahead - 1);
        }
    }
}

/// The decoder takes the first byte of the record at `start` for a marker,
/// having written the input as far as `start`: it does not write the rest of
/// the input.
proof fn lemma_boundary_missed(before: Seq<u8>, s: Seq<u8>, start: int)
    requires
        0 <= start < s.len(),
        before.len() > 0,
        before.last() == s[start],
    ensures
        !yields(before + encode_from(s, start), before.len() as int, s, start),
{
    let e = before + encode_from(s, start);
    let q = before.len() as int;
    if yields(e, q, s, start) {
        lemma_record_in_stream(before, s, start);
        let n = run_length(s, start);
        let v = s[start];
        let through = before + record(v, n);
        assert(e[q - 1] == before.last());
        assert(is_marker(e, q));
        lemma_marker_step(e, q, s, start);
        if n == 1 {
            // The length byte is the first byte of the next record.
            assert(s[start + 1] == 0) by {
                if s[start + 1] != 0 {
                    assert(s[start + 1] == v);
                }
            }
            lemma_first_byte_skipped(through, s, start + 1);
        } else {
            // The length byte is the repetition of the byte.
            let at = start + v + 1;
            assert(at <= start + n) by {
                if start + n < at {
                    assert(s[start + n] == v);
                }
            }
            if is_marker(e, q + 2) {
                lemma_marker_step(e, q + 2, s, at);
                let next = s[start + n];
                if next == 0 {
                    lemma_first_byte_skipped(through, s, start + n);
                } else {
                    assert(s[start + n] == v);
                    assert(n == 257 && v == 255);
                    assert forall|i: int| start + 257 <= i < start + 257 + 255 implies s[i]
                        == 255 by {
                        assert(s[i] == e[q + 2]);
                    }
                    lemma_far_ahead(through, s, start + 257, 1, 255);
                }
            } else {
                lemma_literal_step(e, q + 2, s, at);
                assert(at == start + n) by {
                    if at < start + n {
                        assert(s[at] == v);
                    }
                }
                lemma_one_ahead(through, s, start + n);
            }
        }
    }
}

/// Where the encoding of the bytes from `start` on is ambiguous, decoding it
/// does not give those bytes back.
proof fn lemma_ambiguous_is_not_inverted_from(before: Seq<u8>, s: Seq<u8>, start: int)
    requires
        0 <= start <= s.len(),
        !is_unambiguous_from(s, start),
        before.len() > 0 && start < s.len() ==> before.last() != s[start],
    ensures
        !yields(before + encode_from(s, start), before.len() as int, s, start),
    decreases s.len() - start,
{
    let e = before + encode_from(s, start);
    let q = before.len() as int;
    if yields(e, q, s, start) {
        lemma_record_in_stream(before, s, start);
        let n = run_length(s, start);
        let through = before + record(s[start], n);
        if q > 0 {
            assert(e[q - 1] == before.last());
        }
        assert(!is_marker(e, q));
        lemma_literal_step(e, q, s, start);
        if n >= 2 {
            assert(is_marker(e, q + 1));
            lemma_marker_step(e, q + 1, s, start + 1);
        }
        if n >= 2 && start + n < s.len() && s[start + n] == n - 2 {
            lemma_boundary_missed(through, s, start + n);
        } else {
            lemma_ambiguous_is_not_inverted_from(through, s, start + n);
        }
    }
}

/// Decoding does not invert encoding on any input whose encoding is
/// ambiguous: it fails, or gives other bytes.
pub proof fn lemma_ambiguous_is_not_inverted(s: Seq<u8>)
    requires
        !is_unambiguous(s),
    ensures
        spec_decode(spec_encode(s)) != Some(s),
{
    lemma_ambiguous_is_not_inverted_from(Seq::<u8>::empty(), s, 0);
    assert(Seq::<u8>::empty() + spec_encode(s) =~= spec_encode(s));
    assert(s.subrange(0, s.len() as int) =~= s);
}

} // verus!
