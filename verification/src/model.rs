//! The mathematical model of run-length encoding.
//!
//! A byte sequence is encoded as a flat sequence of 2-byte records
//! `[count, value]` with `count` in `[1, 255]`: records appear in the order
//! runs occur in the input, and a run longer than 255 bytes is split into
//! consecutive records for the same value.
//!
//! The model is a left-to-right scan: `step_carry` and `step_emits` describe
//! what one input byte does to the run in progress, `encoded_pairs` and
//! `carry_after` iterate that scan over a sequence, and `rle` closes the scan
//! by flushing the final run.

use vstd::prelude::*;

verus! {

/// A run in progress: `count` occurrences of `byte`, `count` in `[1, 255]`.
#[derive(Clone, Copy, PartialEq, Eq, Structural, Debug)]
pub struct Run {
    pub count: u8,
    pub byte: u8,
}

/// A carried run is valid when its count is at least 1 (it never exceeds 255,
/// which is all a byte can hold).
pub open spec fn run_valid(carry: Option<Run>) -> bool {
    match carry {
        None => true,
        Some(r) => 1 <= r.count,
    }
}

/// The record bytes emitted when input byte `b` arrives on top of `carry`.
///
/// A record is emitted exactly when a run is in progress and is ended either
/// by a differing byte or by having already reached the 255 cap.
pub open spec fn step_emits(carry: Option<Run>, b: u8) -> Seq<u8> {
    match carry {
        None => Seq::empty(),
        Some(r) => if r.byte == b && r.count < 255 {
            Seq::empty()
        } else {
            seq![r.count, r.byte]
        },
    }
}

/// The run in progress after input byte `b` arrives on top of `carry`.
pub open spec fn step_carry(carry: Option<Run>, b: u8) -> Option<Run> {
    match carry {
        None => Some(Run { count: 1, byte: b }),
        Some(r) => if r.byte == b && r.count < 255 {
            Some(Run { count: (r.count + 1) as u8, byte: r.byte })
        } else {
            Some(Run { count: 1, byte: b })
        },
    }
}

/// All completed records emitted while scanning `s`, starting from `carry`.
pub open spec fn encoded_pairs(s: Seq<u8>, carry: Option<Run>) -> Seq<u8>
    decreases s.len(),
{
    if s.len() == 0 {
        Seq::empty()
    } else {
        encoded_pairs(s.drop_last(), carry)
            + step_emits(carry_after(s.drop_last(), carry), s.last())
    }
}

/// The run still in progress after scanning `s`, starting from `carry`.
pub open spec fn carry_after(s: Seq<u8>, carry: Option<Run>) -> Option<Run>
    decreases s.len(),
{
    if s.len() == 0 {
        carry
    } else {
        step_carry(carry_after(s.drop_last(), carry), s.last())
    }
}

/// The final record produced when the input ends with `carry` outstanding.
pub open spec fn flush_bytes(carry: Option<Run>) -> Seq<u8> {
    match carry {
        None => Seq::empty(),
        Some(r) => seq![r.count, r.byte],
    }
}

/// The run-length encoding of a whole byte sequence: every completed record,
/// then the final run flushed.
pub open spec fn rle(s: Seq<u8>) -> Seq<u8> {
    encoded_pairs(s, None) + flush_bytes(carry_after(s, None))
}

/// Scanning one more byte appends that byte's emission and steps the carry.
pub proof fn lemma_scan_snoc(s: Seq<u8>, carry: Option<Run>, b: u8)
    ensures
        encoded_pairs(s.push(b), carry)
            == encoded_pairs(s, carry) + step_emits(carry_after(s, carry), b),
        carry_after(s.push(b), carry) == step_carry(carry_after(s, carry), b),
{
    assert(s.push(b).drop_last() =~= s);
    assert(s.push(b).last() == b);
}

/// The carry stays valid across a scan, and is absent exactly when nothing
/// has been scanned at all.
pub proof fn lemma_carry_valid(s: Seq<u8>, carry: Option<Run>)
    requires
        run_valid(carry),
    ensures
        run_valid(carry_after(s, carry)),
        carry_after(s, carry) is None <==> (s.len() == 0 && carry is None),
    decreases s.len(),
{
    if s.len() > 0 {
        lemma_carry_valid(s.drop_last(), carry);
    }
}

/// Splitting the input anywhere does not change the encoding: scanning the
/// two pieces in order, carrying the run in progress across the boundary,
/// emits exactly what scanning the whole input emits, and ends in the same
/// carry.
pub proof fn lemma_split(s: Seq<u8>, t: Seq<u8>, carry: Option<Run>)
    ensures
        carry_after(s + t, carry) == carry_after(t, carry_after(s, carry)),
        encoded_pairs(s + t, carry)
            == encoded_pairs(s, carry) + encoded_pairs(t, carry_after(s, carry)),
    decreases t.len(),
{
    let k = carry_after(s, carry);
    if t.len() == 0 {
        assert(s + t =~= s);
        assert(encoded_pairs(s, carry) + encoded_pairs(t, k) =~= encoded_pairs(s, carry));
    } else {
        let t0 = t.drop_last();
        let b = t.last();
        lemma_split(s, t0, carry);
        assert((s + t).drop_last() =~= s + t0);
        assert((s + t).last() == b);
        assert(encoded_pairs(s, carry) + encoded_pairs(t0, k) + step_emits(carry_after(t0, k), b)
            =~= encoded_pairs(s, carry) + (encoded_pairs(t0, k) + step_emits(carry_after(t0, k), b)));
    }
}

/// The emitted records always form whole 2-byte records.
pub proof fn lemma_pairs_even(s: Seq<u8>, carry: Option<Run>)
    ensures
        encoded_pairs(s, carry).len() % 2 == 0,
    decreases s.len(),
{
    if s.len() > 0 {
        lemma_pairs_even(s.drop_last(), carry);
    }
}

/// A well-formed encoded stream: whole 2-byte records, each with a count
/// byte in `[1, 255]`.
pub open spec fn records_valid(e: Seq<u8>) -> bool {
    &&& e.len() % 2 == 0
    &&& forall|i: int| 0 <= i < e.len() && i % 2 == 0 ==> 1 <= #[trigger] e[i] <= 255
}

proof fn lemma_records_valid_append(x: Seq<u8>, y: Seq<u8>)
    requires
        records_valid(x),
        records_valid(y),
    ensures
        records_valid(x + y),
{
    assert forall|i: int| 0 <= i < (x + y).len() && i % 2 == 0 implies 1 <= #[trigger] (x + y)[i]
        <= 255 by {
        if i < x.len() {
            assert((x + y)[i] == x[i]);
        } else {
            assert((x + y)[i] == y[i - x.len()]);
            assert((i - x.len()) % 2 == 0);
        }
    }
}

proof fn lemma_pairs_records_valid(s: Seq<u8>, carry: Option<Run>)
    requires
        run_valid(carry),
    ensures
        records_valid(encoded_pairs(s, carry)),
    decreases s.len(),
{
    if s.len() > 0 {
        let s0 = s.drop_last();
        lemma_pairs_records_valid(s0, carry);
        lemma_carry_valid(s0, carry);
        assert(records_valid(step_emits(carry_after(s0, carry), s.last())));
        lemma_records_valid_append(
            encoded_pairs(s0, carry),
            step_emits(carry_after(s0, carry), s.last()),
        );
    }
}

/// Cap invariant: the encoded stream consists of whole 2-byte records, and no
/// record's count byte is ever 0 or exceeds 255.
pub proof fn lemma_cap_invariant(s: Seq<u8>)
    ensures
        records_valid(rle(s)),
{
    lemma_pairs_records_valid(s, None);
    lemma_carry_valid(s, None);
    lemma_records_valid_append(encoded_pairs(s, None), flush_bytes(carry_after(s, None)));
}

/// Every input byte contributes at most 2 bytes of output: what the scan of
/// `s` emits plus its final flush is bounded by `2 * s.len()` beyond the
/// flush the incoming carry alone would need.
pub proof fn lemma_rle_len(s: Seq<u8>, carry: Option<Run>)
    ensures
        encoded_pairs(s, carry).len() + flush_bytes(carry_after(s, carry)).len() <= 2 * s.len()
            + flush_bytes(carry).len(),
    decreases s.len(),
{
    if s.len() > 0 {
        lemma_rle_len(s.drop_last(), carry);
    }
}

/// Run-length decoding: each 2-byte record `[count, value]` in turn expands
/// to `count` copies of `value`.
pub open spec fn decoded(e: Seq<u8>) -> Seq<u8>
    decreases e.len(),
{
    if e.len() < 2 {
        Seq::empty()
    } else {
        Seq::new(e[0] as nat, |i: int| e[1]) + decoded(e.skip(2))
    }
}

/// Decoding distributes over concatenation at any record boundary.
pub proof fn lemma_decoded_append(x: Seq<u8>, y: Seq<u8>)
    requires
        x.len() % 2 == 0,
    ensures
        decoded(x + y) == decoded(x) + decoded(y),
    decreases x.len(),
{
    if x.len() == 0 {
        assert(x + y =~= y);
        assert(decoded(x) + decoded(y) =~= decoded(y));
    } else {
        assert((x + y).skip(2) =~= x.skip(2) + y);
        lemma_decoded_append(x.skip(2), y);
        assert((x + y)[0] == x[0] && (x + y)[1] == x[1]);
        assert(Seq::new(x[0] as nat, |i: int| (x + y)[1]) + (decoded(x.skip(2)) + decoded(y))
            =~= (Seq::new(x[0] as nat, |i: int| x[1]) + decoded(x.skip(2))) + decoded(y));
    }
}

/// A run of `l` copies of `b`, as a sequence.
pub open spec fn repeated(b: u8, l: nat) -> Seq<u8> {
    Seq::new(l, |i: int| b)
}

/// The sum of the count bytes of an encoded record sequence.
pub open spec fn counts_sum(e: Seq<u8>) -> int
    decreases e.len(),
{
    if e.len() < 2 {
        0
    } else {
        e[0] + counts_sum(e.skip(2))
    }
}

proof fn lemma_counts_sum_is_decoded_len(e: Seq<u8>)
    ensures
        counts_sum(e) == decoded(e).len(),
    decreases e.len(),
{
    if e.len() >= 2 {
        lemma_counts_sum_is_decoded_len(e.skip(2));
    }
}

proof fn lemma_uniform_scan(s: Seq<u8>, carry: Option<Run>, b: u8)
    requires
        forall|i: int| 0 <= i < s.len() ==> s[i] == b,
        carry matches Some(r) ==> r.byte == b,
    ensures
        carry_after(s, carry) matches Some(r) ==> r.byte == b,
        forall|i: int|
            0 <= i < encoded_pairs(s, carry).len() && i % 2 == 1
                ==> #[trigger] encoded_pairs(s, carry)[i] == b,
    decreases s.len(),
{
    if s.len() > 0 {
        let s0 = s.drop_last();
        let e0 = encoded_pairs(s0, carry);
        let em = step_emits(carry_after(s0, carry), s.last());
        lemma_uniform_scan(s0, carry, b);
        lemma_pairs_even(s0, carry);
        assert forall|i: int|
            0 <= i < encoded_pairs(s, carry).len() && i % 2 == 1 implies #[trigger] encoded_pairs(
            s,
            carry,
        )[i] == b by {
            if i < e0.len() {
                assert(encoded_pairs(s, carry)[i] == e0[i]);
            } else {
                assert(encoded_pairs(s, carry)[i] == em[i - e0.len()]);
                assert((i - e0.len()) % 2 == 1);
            }
        }
    }
}

/// The records a single run produces: encoding `l` copies of `b` yields
/// records that all carry the byte `b`, whose count bytes sum to exactly
/// `l`; runs compose by `lemma_split`.
pub proof fn lemma_run_records(b: u8, l: nat)
    ensures
        records_valid(rle(repeated(b, l))),
        counts_sum(rle(repeated(b, l))) == l,
        forall|i: int|
            0 <= i < rle(repeated(b, l)).len() && i % 2 == 1 ==> #[trigger] rle(repeated(b, l))[i]
                == b,
{
    let s = repeated(b, l);
    lemma_cap_invariant(s);
    lemma_round_trip(s);
    lemma_counts_sum_is_decoded_len(rle(s));
    lemma_uniform_scan(s, None, b);
    lemma_pairs_even(s, None);
    assert forall|i: int| 0 <= i < rle(s).len() && i % 2 == 1 implies #[trigger] rle(s)[i]
        == b by {
        let e = encoded_pairs(s, None);
        if i < e.len() {
            assert(rle(s)[i] == e[i]);
        } else {
            assert(rle(s)[i] == flush_bytes(carry_after(s, None))[i - e.len()]);
            if carry_after(s, None) is Some {
                assert((i - e.len()) % 2 == 1);
                assert(i - e.len() == 1);
            }
        }
    }
}

proof fn lemma_round_trip_scan(s: Seq<u8>, carry: Option<Run>)
    requires
        run_valid(carry),
    ensures
        decoded(encoded_pairs(s, carry) + flush_bytes(carry_after(s, carry)))
            == decoded(flush_bytes(carry)) + s,
    decreases s.len(),
{
    if s.len() == 0 {
        assert(encoded_pairs(s, carry) + flush_bytes(carry) =~= flush_bytes(carry));
        assert(decoded(flush_bytes(carry)) + s =~= decoded(flush_bytes(carry)));
    } else {
        let s0 = s.drop_last();
        let b = s.last();
        let e0 = encoded_pairs(s0, carry);
        let k = carry_after(s0, carry);
        lemma_round_trip_scan(s0, carry);
        lemma_carry_valid(s0, carry);
        lemma_pairs_even(s0, carry);
        assert(s0.push(b) =~= s);
        lemma_scan_snoc(s0, carry, b);
        lemma_decoded_append(e0, flush_bytes(k));
        lemma_decoded_append(e0, step_emits(k, b) + flush_bytes(step_carry(k, b)));
        assert(encoded_pairs(s, carry) + flush_bytes(carry_after(s, carry))
            =~= e0 + (step_emits(k, b) + flush_bytes(step_carry(k, b))));
        match k {
            None => {
                // nothing scanned yet: the byte starts the first run
                assert(step_emits(k, b) + flush_bytes(step_carry(k, b)) =~= seq![1u8, b]);
                assert(decoded(seq![1u8, b].skip(2)) =~= Seq::<u8>::empty());
                assert(decoded(seq![1u8, b]) =~= seq![b]);
                assert(decoded(flush_bytes(carry)) + s0 + seq![b] =~= decoded(flush_bytes(carry)) + s);
            },
            Some(r) => {
                assert(decoded(flush_bytes(k).skip(2)) =~= Seq::<u8>::empty());
                assert(decoded(flush_bytes(k)) =~= Seq::new(r.count as nat, |i: int| r.byte));
                if r.byte == b && r.count < 255 {
                    // the run is extended by one byte
                    let r1 = Run { count: (r.count + 1) as u8, byte: r.byte };
                    assert(step_emits(k, b) + flush_bytes(step_carry(k, b)) =~= seq![r1.count, r1.byte]);
                    assert(decoded(seq![r1.count, r1.byte].skip(2)) =~= Seq::<u8>::empty());
                    assert(decoded(seq![r1.count, r1.byte]) =~= Seq::new(r1.count as nat, |i: int| r1.byte));
                    assert(Seq::new(r1.count as nat, |i: int| r1.byte)
                        =~= Seq::new(r.count as nat, |i: int| r.byte).push(b));
                    assert(decoded(e0) + Seq::new(r1.count as nat, |i: int| r1.byte)
                        =~= (decoded(e0) + Seq::new(r.count as nat, |i: int| r.byte)).push(b));
                    assert(decoded(flush_bytes(carry)) + s0.push(b) =~= (decoded(flush_bytes(carry)) + s0).push(b));
                } else {
                    // the run is emitted and the byte starts a fresh one
                    assert(step_emits(k, b) + flush_bytes(step_carry(k, b))
                        =~= seq![r.count, r.byte] + seq![1u8, b]);
                    lemma_decoded_append(seq![r.count, r.byte], seq![1u8, b]);
                    assert(decoded(seq![r.count, r.byte].skip(2)) =~= Seq::<u8>::empty());
                    assert(decoded(seq![r.count, r.byte]) =~= Seq::new(r.count as nat, |i: int| r.byte));
                    assert(decoded(seq![1u8, b].skip(2)) =~= Seq::<u8>::empty());
                    assert(decoded(seq![1u8, b]) =~= seq![b]);
                    assert(decoded(e0) + (Seq::new(r.count as nat, |i: int| r.byte) + seq![b])
                        =~= (decoded(e0) + Seq::new(r.count as nat, |i: int| r.byte)) + seq![b]);
                    assert(decoded(flush_bytes(carry)) + s0 + seq![b] =~= decoded(flush_bytes(carry)) + s);
                }
            },
        }
    }
}

/// Round-trip decodability: decoding the run-length encoding of any byte
/// sequence gives back exactly that sequence.
pub proof fn lemma_round_trip(s: Seq<u8>)
    ensures
        decoded(rle(s)) == s,
{
    lemma_round_trip_scan(s, None);
    assert(decoded(flush_bytes(None::<Run>)) + s =~= s);
}

} // verus!
