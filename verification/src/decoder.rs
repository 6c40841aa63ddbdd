//! The decoder: one forward pass that expands repetition markers.

use crate::format::{decode_from, is_marker, prepend, repeated, spec_decode};
use crate::laws::lemma_decode_len;
use vstd::prelude::*;

verus! {

/// Why encoded bytes could not be decoded.
#[derive(Debug, Clone, Copy, PartialEq, Eq)]
pub enum DecodeError {
    /// The input is malformed: its last byte is a repetition marker, and the
    /// length byte that has to follow a marker is missing.
    TruncatedMarker,
}

/// Appends `count` copies of `value` to `out`.
fn push_repeated(out: &mut Vec<u8>, value: u8, count: u8)
    ensures
        final(out)@ == old(out)@ + repeated(value, count as nat),
{
    let mut done: u8 = 0;
    while done < count
        invariant
            done <= count,
            out@ == old(out)@ + repeated(value, done as nat),
        decreases count - done,
    {
        out.push(value);
        done += 1;
        assert(out@ =~= old(out)@ + repeated(value, done as nat));
    }
}

/// Decodes `data`, scanning it from left to right.
///
/// A byte that equals the input byte directly before it is a repetition
/// marker: the byte behind it is a length byte `L`, and the two together
/// stand for `L + 1` further occurrences of the marker's value. Every other
/// byte stands for itself. The first byte is never taken for a marker,
/// whatever its value.
///
/// Fails with [`DecodeError::TruncatedMarker`] exactly when the scan meets a
/// marker as the last byte of `data`; nothing is read past the end.
///
/// What [`crate::encode`] wrote is decoded to what it was given exactly where
/// that encoding is unambiguous; see [`crate::laws`].
pub fn decode(data: Vec<u8>) -> (decoded: Result<Vec<u8>, DecodeError>)
    ensures
        decoded is Ok <==> spec_decode(data@) is Some,
        decoded matches Ok(bytes) ==> spec_decode(data@) == Some(bytes@),
        decoded matches Err(e) ==> e == DecodeError::TruncatedMarker,
        decoded is Err ==> is_marker(data@, data@.len() - 1),
        data@.len() == 0 ==> (decoded matches Ok(bytes) && bytes@.len() == 0),
        data@.len() > 0 ==> (decoded matches Ok(bytes) ==> bytes@.len() > 0 && bytes@[0]
            == data@[0]),
        decoded matches Ok(bytes) ==> bytes@.len() <= 128 * data@.len(),
{
    let mut decoded: Vec<u8> = Vec::new();
    if data.len() == 0 {
        return Ok(decoded);
    }
    // Some value that differs from the first byte, so that the first byte is
    // not taken for a marker.
    let mut previous: u8 = if data[0] < u8::MAX {
        data[0] + 1
    } else {
        data[0] - 1
    };
    let mut i: usize = 0;
    while i < data.len()
        invariant
            i <= data.len(),
            i == 0 ==> data.len() > 0 && previous != data@[0],
            i > 0 ==> previous == data@[i - 1],
            spec_decode(data@) == prepend(decoded@, decode_from(data@, i as int)),
        decreases data.len() - i,
    {
        let ghost before = decoded@;
        let ghost at = i as int;
        let current: u8 = data[i];
        if current == previous {
            if i + 1 >= data.len() {
                return Err(DecodeError::TruncatedMarker);
            }
            i += 1;
            let len: u8 = data[i];
            push_repeated(&mut decoded, previous, len);
        }
        decoded.push(current);
        previous = data[i];
        i += 1;
        proof {
            let rest = decode_from(data@, i as int);
            let written = decoded@.subrange(before.len() as int, decoded@.len() as int);
            assert(decode_from(data@, at) == prepend(written, rest)) by {
                if current == data@[at - 1] && at > 0 {
                    assert(written =~= repeated(current, data@[at + 1] as nat + 1));
                } else {
                    assert(written =~= seq![current]);
                }
            }
            assert(decoded@ =~= before + written);
            if rest is Some {
                assert(before + (written + rest->0) =~= decoded@ + rest->0);
            }
        }
    }
    proof {
        lemma_decode_len(data@);
    }
    Ok(decoded)
}

} // verus!
