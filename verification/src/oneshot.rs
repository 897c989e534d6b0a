//! Whole-buffer run-length encoding.

use vstd::prelude::*;

use crate::model::Run;
use crate::model::carry_after;
use crate::model::encoded_pairs;
use crate::model::flush_bytes;
use crate::model::lemma_rle_len;
use crate::model::lemma_scan_snoc;
use crate::model::rle;
use crate::model::run_valid;

verus! {

/// Run-length encode a whole buffer into a fresh vector of 2-byte records.
///
/// An empty input yields an empty output.
pub fn encode(input: &[u8]) -> (output: Vec<u8>)
    ensures
        output@ == rle(input@),
{
    let mut output: Vec<u8> = Vec::new();
    let mut state: Option<Run> = None;
    let mut i: usize = 0;
    while i < input.len()
        invariant
            i <= input@.len(),
            output@ == encoded_pairs(input@.take(i as int), None),
            state == carry_after(input@.take(i as int), None),
        decreases input@.len() - i,
    {
        let b = input[i];
        let ghost pre = input@.take(i as int);
        proof {
            assert(input@.take(i as int + 1) =~= pre.push(b));
            lemma_scan_snoc(pre, None, b);
        }
        match state {
            None => {
                state = Some(Run { count: 1, byte: b });
            },
            Some(r) => {
                if r.byte == b && r.count < 255 {
                    state = Some(Run { count: r.count + 1, byte: r.byte });
                } else {
                    output.push(r.count);
                    output.push(r.byte);
                    state = Some(Run { count: 1, byte: b });
                    assert(output@ =~= encoded_pairs(pre, None) + seq![r.count, r.byte]);
                }
            },
        }
        i = i + 1;
    }
    proof {
        assert(input@.take(i as int) =~= input@);
    }
    match state {
        None => {
            assert(output@ =~= rle(input@));
        },
        Some(r) => {
            output.push(r.count);
            output.push(r.byte);
            assert(output@ =~= encoded_pairs(input@, None) + seq![r.count, r.byte]);
        },
    }
    output
}

/// Run-length encode a whole buffer into the front of a caller-provided
/// buffer, leaving the rest of it untouched, and return the number of bytes
/// written.
///
/// The output buffer must be able to hold the worst case of one 2-byte record
/// per input byte.
pub fn encode_into(input: &[u8], output: &mut Vec<u8>) -> (n: usize)
    requires
        old(output)@.len() >= 2 * input@.len(),
    ensures
        final(output)@.len() == old(output)@.len(),
        n == rle(input@).len(),
        final(output)@.take(n as int) == rle(input@),
        final(output)@.skip(n as int) == old(output)@.skip(n as int),
{
    let mut o: usize = 0;
    let mut state: Option<Run> = None;
    let mut i: usize = 0;
    while i < input.len()
        invariant
            i <= input@.len(),
            output@.len() == old(output)@.len() >= 2 * input@.len(),
            o == encoded_pairs(input@.take(i as int), None).len(),
            output@.take(o as int) == encoded_pairs(input@.take(i as int), None),
            forall|j: int| o <= j < output@.len() ==> #[trigger] output@[j] == old(output)@[j],
            state == carry_after(input@.take(i as int), None),
            run_valid(state),
            o + flush_bytes(state).len() <= 2 * i,
        decreases input@.len() - i,
    {
        let b = input[i];
        let ghost pre = input@.take(i as int);
        proof {
            assert(input@.take(i as int + 1) =~= pre.push(b));
            lemma_scan_snoc(pre, None, b);
            lemma_rle_len(pre.push(b), None);
        }
        match state {
            None => {
                state = Some(Run { count: 1, byte: b });
            },
            Some(r) => {
                if r.byte == b && r.count < 255 {
                    state = Some(Run { count: r.count + 1, byte: r.byte });
                } else {
                    let olen = output.len();
                    proof {
                        assert(flush_bytes(state).len() == 2);
                        assert(o + 2 <= 2 * input@.len() <= olen);
                    }
                    output[o] = r.count;
                    output[o + 1] = r.byte;
                    o = o + 2;
                    state = Some(Run { count: 1, byte: b });
                    assert(output@.take(o as int)
                        =~= encoded_pairs(pre, None) + seq![r.count, r.byte]);
                }
            },
        }
        i = i + 1;
    }
    proof {
        assert(input@.take(i as int) =~= input@);
    }
    match state {
        None => {
            assert(output@.take(o as int) =~= rle(input@));
        },
        Some(r) => {
            let olen = output.len();
            proof {
                assert(flush_bytes(state).len() == 2);
                assert(o + 2 <= 2 * input@.len() <= olen);
            }
            output[o] = r.count;
            output[o + 1] = r.byte;
            o = o + 2;
            assert(output@.take(o as int)
                =~= encoded_pairs(input@, None) + seq![r.count, r.byte]);
        },
    }
    proof {
        assert(output@.skip(o as int) =~= old(output)@.skip(o as int));
    }
    o
}

} // verus!
