//! The encoder: one forward pass that collects runs and writes their records.

use crate::format::{
    encode_from, has_no_repeats, lemma_run_unique, record, spec_encode, MAX_RUN_LENGTH,
};
use crate::laws::{lemma_encode_len, lemma_encode_without_repeats};
use vstd::prelude::*;

verus! {

/// Appends the record of `len` occurrences of `value` to `out`.
fn push_record(out: &mut Vec<u8>, value: u8, len: usize)
    requires
        1 <= len <= MAX_RUN_LENGTH,
    ensures
        final(out)@ == old(out)@ + record(value, len as nat),
{
    out.push(value);
    if len > 1 {
        out.push(value);
        out.push((len - 2) as u8);
    }
    assert(out@ =~= old(out)@ + record(value, len as nat));
}

/// Encodes `data`: each run of equal bytes becomes one record, and a run
/// longer than `MAX_RUN_LENGTH` becomes several records in a row.
///
/// Empty input, and no other, gives empty output. Input without two equal
/// neighbours comes back unchanged, and no input grows by more than half.
pub fn encode(data: Vec<u8>) -> (encoded: Vec<u8>)
    ensures
        encoded@ == spec_encode(data@),
        data@.len() == 0 <==> encoded@.len() == 0,
        has_no_repeats(data@) ==> encoded@ == data@,
        2 * encoded@.len() <= 3 * data@.len(),
{
    let mut encoded: Vec<u8> = Vec::new();
    if data.len() == 0 {
        return encoded;
    }
    let mut previous: u8 = data[0];
    let mut len: usize = 1;
    let mut i: usize = 1;
    while i < data.len()
        invariant
            1 <= len <= MAX_RUN_LENGTH,
            len <= i <= data.len(),
            forall|k: int| i - len <= k < i ==> data@[k] == previous,
            spec_encode(data@) == encoded@ + encode_from(data@, i - len),
        decreases data.len() - i,
    {
        let current: u8 = data[i];
        if current == previous && len < MAX_RUN_LENGTH {
            len += 1;
        } else {
            let ghost before = encoded@;
            proof {
                lemma_run_unique(data@, i - len, len as nat);
            }
            push_record(&mut encoded, previous, len);
            assert(spec_encode(data@) == encoded@ + encode_from(data@, i as int)) by {
                let rest = encode_from(data@, i as int);
                let written = record(previous, len as nat);
                assert(encoded@ + rest =~= before + (written + rest));
            }
            previous = current;
            len = 1;
        }
        i += 1;
    }
    proof {
        lemma_run_unique(data@, i - len, len as nat);
        assert(encode_from(data@, i as int) =~= Seq::<u8>::empty());
    }
    push_record(&mut encoded, previous, len);
    proof {
        lemma_encode_len(data@);
        if has_no_repeats(data@) {
            lemma_encode_without_repeats(data@);
        }
    }
    encoded
}

} // verus!
