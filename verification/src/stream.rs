//! Incremental, bounded-memory streaming run-length encoding.
//!
//! [`Encoder`] pulls input from a [`ByteSource`] in chunks sized by its own
//! internal read buffer and serves the encoded records to caller-provided
//! output buffers of arbitrary size. A run in progress at a chunk boundary is
//! carried to the next chunk; a completed record that does not fit in the
//! caller's buffer is held back and delivered first on the next call.

use vstd::prelude::*;

use crate::model::Run;
use crate::model::carry_after;
use crate::model::encoded_pairs;
use crate::model::flush_bytes;
use crate::model::lemma_carry_valid;
use crate::model::lemma_scan_snoc;
use crate::model::lemma_split;
use crate::model::rle;
use crate::model::run_valid;
use crate::model::step_emits;

verus! {

/// The one failure the streaming encoder can meet: the underlying byte
/// source failed to deliver a chunk.
#[derive(Clone, Copy, PartialEq, Eq, Structural, Debug)]
pub struct SourceError;

/// A pull-based source of bytes.
///
/// An implementation serves one byte stream, `remaining()`, in chunks of its
/// own choosing: each successful `read` hands over some prefix of what is
/// left. Returning `Ok(0)` into a non-empty buffer means the stream is
/// exhausted; a short read does not.
pub trait ByteSource {
    /// The bytes this source has not yet delivered. A verified
    /// implementation overrides this with its own stream; the default is the
    /// exhausted stream, so an implementation living outside the verifier
    /// (an I/O adapter, say) need not provide one.
    open spec fn remaining(&self) -> Seq<u8> {
        Seq::empty()
    }

    /// Pull the next chunk of the stream into the front of `buf`, returning
    /// how many bytes were delivered. On failure the stream is left where it
    /// was, so the caller may simply try again.
    fn read(&mut self, buf: &mut Vec<u8>) -> (r: Result<usize, SourceError>)
        ensures
            final(buf)@.len() == old(buf)@.len(),
            match r {
                Ok(n) => {
                    &&& n <= old(buf)@.len()
                    &&& n <= old(self).remaining().len()
                    &&& final(buf)@.take(n as int) == old(self).remaining().take(n as int)
                    &&& final(self).remaining() == old(self).remaining().skip(n as int)
                    &&& (n == 0 ==> old(self).remaining().len() == 0 || old(buf)@.len() == 0)
                },
                Err(_) => final(self).remaining() == old(self).remaining(),
            },
    ;
}

/// A source that serves the contents of a vector, in chunks as large as the
/// caller's buffer allows.
pub struct VecSource {
    data: Vec<u8>,
    pos: usize,
}

impl VecSource {
    /// A source that will deliver exactly the bytes of `data`.
    pub fn new(data: Vec<u8>) -> (r: VecSource)
        ensures
            r.remaining() == data@,
    {
        let r = VecSource { data, pos: 0 };
        proof {
            assert(r.remaining() =~= r.data@);
        }
        r
    }
}

impl ByteSource for VecSource {
    closed spec fn remaining(&self) -> Seq<u8> {
        self.data@.skip(
            if self.pos <= self.data@.len() {
                self.pos as int
            } else {
                self.data@.len() as int
            },
        )
    }

    fn read(&mut self, buf: &mut Vec<u8>) -> (r: Result<usize, SourceError>)
        // beyond the trait's contract: this source never fails, and always
        // delivers as much as the buffer and the stream allow
        ensures
            r is Ok,
            r matches Ok(n) ==> n == (if old(buf)@.len() <= old(self).remaining().len() {
                old(buf)@.len()
            } else {
                old(self).remaining().len()
            }),
    {
        if self.pos >= self.data.len() {
            proof {
                assert(self.remaining() =~= Seq::<u8>::empty());
                assert(buf@.take(0) =~= self.remaining().take(0));
            }
            return Ok(0);
        }
        let mut i: usize = 0;
        while i < buf.len() && self.pos < self.data.len()
            invariant
                self.data@ == old(self).data@,
                old(self).pos <= self.pos <= self.data@.len(),
                old(self).pos < self.data@.len(),
                i == self.pos - old(self).pos,
                i <= buf@.len(),
                buf@.len() == old(buf)@.len(),
                buf@.take(i as int) == old(self).remaining().take(i as int),
            decreases self.data@.len() - self.pos,
        {
            let b = self.data[self.pos];
            buf[i] = b;
            proof {
                assert(old(self).remaining()[i as int] == self.data@[self.pos as int]);
                assert(buf@.take(i as int + 1)
                    =~= old(self).remaining().take(i as int + 1));
            }
            i = i + 1;
            self.pos = self.pos + 1;
        }
        proof {
            assert(self.remaining() =~= old(self).remaining().skip(i as int));
        }
        Ok(i)
    }
}

/// A streaming run-length encoder.
///
/// It pulls chunks from its byte source into an internal buffer of fixed
/// capacity, scans them, and writes completed records into the buffers its
/// caller hands to [`Encoder::read`]. A run in progress at a chunk boundary
/// is kept as carry state; a record that does not fit in the caller's buffer
/// is held back (at most 2 bytes) and delivered first on the next call.
pub struct Encoder<R: ByteSource> {
    input: R,
    buffer: Vec<u8>,
    start: usize,
    end: usize,
    state: Option<Run>,
    pending_a: u8,
    pending_b: u8,
    pending_start: u8,
    pending_len: u8,
    processed: Ghost<Seq<u8>>,
    emitted: Ghost<Seq<u8>>,
    flushed: bool,
}

impl<R: ByteSource> Encoder<R> {
    /// Record bytes held back from an earlier call, oldest first.
    pub closed spec fn pending_bytes(self) -> Seq<u8> {
        seq![self.pending_a, self.pending_b].subrange(
            self.pending_start as int,
            self.pending_start as int + self.pending_len as int,
        )
    }

    /// Source bytes pulled into the internal buffer but not yet scanned.
    pub closed spec fn unread(self) -> Seq<u8> {
        self.buffer@.subrange(self.start as int, self.end as int)
    }

    /// The size of the internal read buffer, fixed at construction.
    pub closed spec fn capacity(self) -> nat {
        self.buffer@.len()
    }

    /// Every byte this encoder has returned so far, across all calls, in
    /// order.
    pub closed spec fn output_so_far(self) -> Seq<u8> {
        self.emitted@
    }

    /// The whole stream this encoder is encoding: what it has already
    /// scanned, then what waits unscanned in its internal buffer, then what
    /// the source has not yet delivered.
    pub closed spec fn stream(self) -> Seq<u8> {
        self.processed@ + self.unread() + self.input.remaining()
    }

    /// The terminal state: the source has reported exhaustion, the final
    /// run has been flushed, and no held-back byte is left. It is latched:
    /// a done encoder never touches its source again.
    pub closed spec fn done(self) -> bool {
        &&& self.flushed
        &&& self.pending_len == 0
    }

    /// The encoder's invariant. Everything handed out so far, followed by
    /// the held-back bytes, is exactly what the scan of the bytes consumed so
    /// far emits — so the encoder can never deliver anything but a prefix of
    /// the true encoding of its stream.
    pub closed spec fn wf(self) -> bool {
        &&& self.start <= self.end <= self.buffer@.len()
        &&& 1 <= self.buffer@.len()
        &&& self.pending_start as int + self.pending_len as int <= 2
        &&& run_valid(self.state)
        &&& if self.flushed {
            &&& self.state is None
            &&& self.start == self.end
            &&& self.input.remaining().len() == 0
            &&& self.emitted@ + self.pending_bytes() == rle(self.processed@)
        } else {
            &&& self.emitted@ + self.pending_bytes() == encoded_pairs(self.processed@, None)
            &&& self.state == carry_after(self.processed@, None)
        }
    }

    /// At every moment, everything a well-formed encoder has handed out,
    /// concatenated in call order, is a prefix of the one-shot encoding of
    /// its whole stream — whatever chunk sizes the source chose and however
    /// the caller sized the output buffers.
    pub proof fn lemma_output_is_prefix(self)
        requires
            self.wf(),
        ensures
            self.output_so_far().is_prefix_of(rle(self.stream())),
    {
        if self.flushed {
            assert(self.unread() =~= Seq::<u8>::empty());
            assert(self.stream() =~= self.processed@);
            assert(rle(self.stream()) =~= self.emitted@ + self.pending_bytes());
        } else {
            let rest = self.unread() + self.input.remaining();
            lemma_split(self.processed@, rest, None);
            assert(self.stream() =~= self.processed@ + rest);
            let tail = encoded_pairs(rest, carry_after(self.processed@, None))
                + flush_bytes(carry_after(rest, carry_after(self.processed@, None)));
            assert(rle(self.stream()) =~= self.emitted@ + self.pending_bytes() + tail);
        }
        assert(self.output_so_far()
            =~= rle(self.stream()).take(self.output_so_far().len() as int));
    }

    /// Once an encoder is done, everything it has handed out, concatenated in
    /// call order, is exactly the one-shot encoding of its whole source
    /// stream — however the source chose its chunks and however the caller
    /// sized the output buffers.
    pub proof fn lemma_done_output_complete(self)
        requires
            self.wf(),
            self.done(),
        ensures
            self.output_so_far() == rle(self.stream()),
    {
        assert(self.pending_bytes() =~= Seq::<u8>::empty());
        assert(self.unread() =~= Seq::<u8>::empty());
        assert(self.stream() =~= self.processed@);
        assert(self.emitted@ + self.pending_bytes() =~= self.emitted@);
    }

    /// Build an encoder over `input` with an internal read buffer of
    /// `capacity` bytes, allocated once and reused for every pull.
    pub fn with_capacity(capacity: usize, input: R) -> (r: Self)
        requires
            capacity >= 1,
        ensures
            r.wf(),
            r.capacity() == capacity,
            r.output_so_far() == Seq::<u8>::empty(),
            r.stream() == input.remaining(),
            !r.done(),
    {
        let mut buffer: Vec<u8> = Vec::new();
        let mut k: usize = 0;
        while k < capacity
            invariant
                buffer@.len() == k,
                k <= capacity,
            decreases capacity - k,
        {
            buffer.push(0);
            k = k + 1;
        }
        let r = Encoder {
            input,
            buffer,
            start: 0,
            end: 0,
            state: None,
            pending_a: 0,
            pending_b: 0,
            pending_start: 0,
            pending_len: 0,
            processed: Ghost(Seq::empty()),
            emitted: Ghost(Seq::empty()),
            flushed: false,
        };
        proof {
            assert(r.pending_bytes() =~= Seq::<u8>::empty());
            assert(r.unread() =~= Seq::<u8>::empty());
            assert(r.emitted@ + r.pending_bytes() =~= encoded_pairs(r.processed@, None));
            assert(r.stream() =~= input.remaining());
        }
        r
    }

    /// Serve the next encoded bytes into the front of `output`, returning how
    /// many bytes were written.
    ///
    /// Held-back bytes are delivered first, and are owed unconditionally:
    /// when any are present and the buffer is non-empty the call succeeds
    /// without consulting the source, returning at least them — exactly the
    /// buffer's length when they fill it. Then, as long as nothing has been
    /// produced, fresh chunks are pulled from the source and scanned, so that
    /// 0 is returned only into an empty buffer or once the whole stream has
    /// been encoded and delivered. The concatenation of everything `read`
    /// returns is always a prefix of the one-shot encoding of the stream, and
    /// is all of it when the encoder is done; a done encoder never touches
    /// its source again and every further call succeeds with 0. A
    /// zero-length output buffer succeeds with 0 and is a state-preserving
    /// no-op. A source failure is reported only when it happens before any
    /// byte of output was produced in the same call, so a failed call leaves
    /// carry, held-back bytes and cursors untouched and may simply be
    /// retried.
    pub fn read(&mut self, output: &mut Vec<u8>) -> (r: Result<usize, SourceError>)
        requires
            old(self).wf(),
        ensures
            final(self).wf(),
            final(self).capacity() == old(self).capacity(),
            final(output)@.len() == old(output)@.len(),
            final(self).stream() == old(self).stream(),
            old(output)@.len() == 0 ==> r == Ok::<usize, SourceError>(0)
                && *final(self) == *old(self),
            old(self).done() ==> r == Ok::<usize, SourceError>(0)
                && *final(self) == *old(self),
            old(self).pending_bytes().len() > 0 && old(output)@.len() > 0 ==> r is Ok,
            match r {
                Ok(n) => {
                    &&& n <= old(output)@.len()
                    &&& final(self).output_so_far() == old(self).output_so_far()
                        + final(output)@.take(n as int)
                    &&& final(output)@.skip(n as int) == old(output)@.skip(n as int)
                    &&& (old(self).pending_bytes().len() >= old(output)@.len()
                        ==> n == old(output)@.len())
                    &&& (n >= old(self).pending_bytes().len() || n == old(output)@.len())
                    &&& (n == 0 && old(output)@.len() > 0 ==> final(self).done())
                    &&& (final(self).done() ==> final(self).output_so_far()
                        == rle(final(self).stream()))
                },
                Err(_) => {
                    &&& final(self).output_so_far() == old(self).output_so_far()
                    &&& final(output)@ == old(output)@
                },
            },
    {
        if output.len() == 0 {
            proof {
                if self.done() {
                    assert(self.pending_bytes() =~= Seq::<u8>::empty());
                    assert(self.unread() =~= Seq::<u8>::empty());
                    assert(self.stream() =~= self.processed@);
                    assert(self.emitted@ + self.pending_bytes() =~= self.emitted@);
                }
            }
            return Ok(0);
        }
        let olen = output.len();
        let mut oi: usize = 0;

        // Drain held-back bytes first, oldest first.
        while oi < olen && self.pending_len > 0
            invariant
                olen == output@.len() == old(output)@.len(),
                oi <= olen,
                self.input == old(self).input,
                self.buffer == old(self).buffer,
                self.start == old(self).start,
                self.end == old(self).end,
                self.state == old(self).state,
                self.pending_a == old(self).pending_a,
                self.pending_b == old(self).pending_b,
                self.processed == old(self).processed,
                self.flushed == old(self).flushed,
                self.pending_start as int + self.pending_len as int <= 2,
                old(self).pending_bytes() == output@.take(oi as int) + self.pending_bytes(),
                self.emitted@ == old(self).emitted@ + output@.take(oi as int),
                oi == 0 ==> *self == *old(self),
                forall|j: int| oi <= j < olen ==> #[trigger] output@[j] == old(output)@[j],
            decreases self.pending_len,
        {
            let b = if self.pending_start == 0 {
                self.pending_a
            } else {
                self.pending_b
            };
            proof {
                assert(b == self.pending_bytes()[0]);
            }
            let ghost mid = *self;
            output[oi] = b;
            self.pending_start = self.pending_start + 1;
            self.pending_len = self.pending_len - 1;
            self.emitted = Ghost(self.emitted@.push(b));
            oi = oi + 1;
            proof {
                assert(mid.pending_bytes() =~= seq![b] + self.pending_bytes());
                assert(output@.take(oi as int) =~= output@.take(oi as int - 1).push(b));
                assert(old(self).pending_bytes()
                    =~= output@.take(oi as int) + self.pending_bytes());
                assert(self.emitted@ =~= old(self).emitted@ + output@.take(oi as int));
            }
        }

        if self.pending_len > 0 {
            // The caller's buffer is full and held-back bytes remain: no new
            // input is consumed this call.
            proof {
                assert(self.emitted@ + self.pending_bytes()
                    =~= old(self).emitted@ + old(self).pending_bytes());
                assert(self.unread() =~= old(self).unread());
                assert(self.stream() =~= old(self).stream());
                assert(output@.skip(oi as int) =~= old(output)@.skip(oi as int));
            }
            return Ok(oi);
        }

        proof {
            assert(self.pending_bytes() =~= Seq::<u8>::empty());
            assert(self.emitted@ + self.pending_bytes() =~= self.emitted@);
            assert(old(self).emitted@ + old(self).pending_bytes()
                =~= self.emitted@ + self.pending_bytes());
            assert(self.unread() =~= old(self).unread());
            assert(self.stream() =~= old(self).stream());
        }

        loop
            invariant
                olen == output@.len() == old(output)@.len(),
                0 < olen,
                oi <= olen,
                self.wf(),
                self.capacity() == old(self).capacity(),
                self.pending_len == 0,
                self.emitted@ == old(self).emitted@ + output@.take(oi as int),
                self.stream() == old(self).stream(),
                old(self).pending_bytes().len() >= olen ==> oi == olen,
                old(self).pending_bytes().len() <= olen ==> old(self).pending_bytes().len() <= oi,
                forall|j: int| oi <= j < olen ==> #[trigger] output@[j] == old(output)@[j],
                old(self).done() ==> oi == 0 && *self == *old(self),
            decreases self.input.remaining().len() + self.end - self.start,
        {
            if oi == olen {
                proof {
                    assert(output@.skip(oi as int) =~= old(output)@.skip(oi as int));
                    if self.done() {
                        assert(self.pending_bytes() =~= Seq::<u8>::empty());
                        assert(self.unread() =~= Seq::<u8>::empty());
                        assert(self.stream() =~= self.processed@);
                        assert(self.emitted@ + self.pending_bytes() =~= self.emitted@);
                    }
                }
                return Ok(oi);
            }
            if self.start == self.end {
                if self.flushed {
                    // The stream was already flushed on an earlier call:
                    // nothing more can come, and the source is left alone.
                    proof {
                        assert(output@.skip(oi as int) =~= old(output)@.skip(oi as int));
                        assert(self.pending_bytes() =~= Seq::<u8>::empty());
                        assert(self.unread() =~= Seq::<u8>::empty());
                        assert(self.stream() =~= self.processed@);
                        assert(self.emitted@ + self.pending_bytes() =~= self.emitted@);
                    }
                    return Ok(oi);
                }
                // No unscanned input: pull a fresh chunk from the source.
                let ghost before_pull = *self;
                let pull = self.input.read(&mut self.buffer);
                match pull {
                    Err(e) => {
                        proof {
                            assert(self.unread() =~= Seq::<u8>::empty());
                            assert(before_pull.unread() =~= Seq::<u8>::empty());
                            assert(self.stream() =~= old(self).stream());
                        }
                        if oi > 0 {
                            // Output was already produced: deliver it; the
                            // failure will surface on the next call.
                            proof {
                                assert(output@.skip(oi as int)
                                    =~= old(output)@.skip(oi as int));
                            }
                            return Ok(oi);
                        }
                        proof {
                            assert(output@.take(0) =~= Seq::<u8>::empty());
                            assert(self.emitted@ =~= old(self).emitted@);
                            assert(output@ =~= old(output)@);
                            assert(self.pending_bytes() =~= before_pull.pending_bytes());
                        }
                        return Err(e);
                    },
                    Ok(n) => {
                        self.start = 0;
                        self.end = n;
                        proof {
                            assert(self.unread()
                                =~= before_pull.input.remaining().take(n as int));
                            assert(self.stream() =~= old(self).stream());
                        }
                        if n == 0 {
                            // End of source: flush the run in progress, then
                            // this encoder is done for good.
                            let ghost before_flush = *self;
                            match self.state {
                                None => {
                                    proof {
                                        if !self.flushed {
                                            lemma_carry_valid(self.processed@, None);
                                            assert(self.processed@ =~= Seq::<u8>::empty());
                                            assert(self.emitted@ + self.pending_bytes()
                                                =~= rle(self.processed@));
                                        }
                                    }
                                    self.flushed = true;
                                    proof {
                                        assert(self.stream() =~= old(self).stream());
                                        assert(output@.skip(oi as int)
                                            =~= old(output)@.skip(oi as int));
                                        assert(self.stream() =~= self.processed@);
                                        assert(self.output_so_far() =~= rle(self.stream()));
                                    }
                                    return Ok(oi);
                                },
                                Some(r) => {
                                    self.state = None;
                                    self.flushed = true;
                                    output[oi] = r.count;
                                    self.emitted = Ghost(self.emitted@.push(r.count));
                                    oi = oi + 1;
                                    if oi < olen {
                                        output[oi] = r.byte;
                                        self.emitted = Ghost(self.emitted@.push(r.byte));
                                        oi = oi + 1;
                                    } else {
                                        self.pending_a = r.byte;
                                        self.pending_start = 0;
                                        self.pending_len = 1;
                                    }
                                    proof {
                                        assert(self.emitted@ + self.pending_bytes()
                                            =~= before_flush.emitted@
                                                + seq![r.count, r.byte]);
                                        assert(self.emitted@ + self.pending_bytes()
                                            =~= rle(self.processed@));
                                        assert(self.unread() =~= Seq::<u8>::empty());
                                        assert(self.stream() =~= old(self).stream());
                                        assert(self.emitted@
                                            =~= old(self).emitted@ + output@.take(oi as int));
                                        assert(output@.skip(oi as int)
                                            =~= old(output)@.skip(oi as int));
                                        if self.done() {
                                            assert(self.pending_bytes()
                                                =~= Seq::<u8>::empty());
                                            assert(self.stream() =~= self.processed@);
                                            assert(self.output_so_far()
                                                =~= rle(self.stream()));
                                        }
                                    }
                                    return Ok(oi);
                                },
                            }
                        }
                    },
                }
            }

            // Scan the unread bytes, writing completed records as they close.
            let ghost src_at_scan = self.input.remaining();
            while self.start < self.end
                invariant
                    olen == output@.len() == old(output)@.len(),
                    0 < olen,
                    oi <= olen,
                    self.wf(),
                    self.capacity() == old(self).capacity(),
                    !self.flushed,
                    self.pending_len == 0,
                    old(self).pending_bytes().len() >= olen ==> oi == olen,
                    old(self).pending_bytes().len() <= olen ==> old(self).pending_bytes().len() <= oi,
                    self.input.remaining() == src_at_scan,
                    self.emitted@ == old(self).emitted@ + output@.take(oi as int),
                    self.stream() == old(self).stream(),
                    forall|j: int| oi <= j < olen ==> #[trigger] output@[j] == old(output)@[j],
                    !old(self).done(),
                decreases self.end - self.start,
            {
                let cur = self.buffer[self.start];
                let ghost pre = self.processed@;
                let ghost before_step = *self;
                proof {
                    lemma_scan_snoc(pre, None, cur);
                    assert(self.unread()[0] == cur);
                }
                match self.state {
                    None => {
                        self.state = Some(Run { count: 1, byte: cur });
                        self.start = self.start + 1;
                        self.processed = Ghost(pre.push(cur));
                        proof {
                            assert(self.emitted@ + self.pending_bytes()
                                =~= encoded_pairs(self.processed@, None));
                            assert(self.stream() =~= before_step.stream());
                        }
                    },
                    Some(r) => {
                        if r.byte == cur && r.count < 255 {
                            self.state = Some(Run { count: r.count + 1, byte: r.byte });
                            self.start = self.start + 1;
                            self.processed = Ghost(pre.push(cur));
                            proof {
                                assert(self.emitted@ + self.pending_bytes()
                                    =~= encoded_pairs(self.processed@, None));
                                assert(self.stream() =~= before_step.stream());
                            }
                        } else {
                            // The run is complete: emit its record and start a
                            // fresh run at the current byte.
                            self.state = Some(Run { count: 1, byte: cur });
                            self.start = self.start + 1;
                            self.processed = Ghost(pre.push(cur));
                            proof {
                                assert(step_emits(carry_after(pre, None), cur)
                                    =~= seq![r.count, r.byte]);
                                assert(self.stream() =~= before_step.stream());
                            }
                            if oi < olen {
                                output[oi] = r.count;
                                self.emitted = Ghost(self.emitted@.push(r.count));
                                oi = oi + 1;
                                if oi < olen {
                                    output[oi] = r.byte;
                                    self.emitted = Ghost(self.emitted@.push(r.byte));
                                    oi = oi + 1;
                                    proof {
                                        assert(self.emitted@ + self.pending_bytes()
                                            =~= encoded_pairs(self.processed@, None));
                                        assert(self.emitted@ =~= old(self).emitted@
                                            + output@.take(oi as int));
                                    }
                                } else {
                                    // Only the count byte fit: hold the value
                                    // byte back for the next call.
                                    self.pending_a = r.byte;
                                    self.pending_start = 0;
                                    self.pending_len = 1;
                                    proof {
                                        assert(self.pending_bytes() =~= seq![r.byte]);
                                        assert(self.emitted@ + self.pending_bytes()
                                            =~= encoded_pairs(self.processed@, None));
                                        assert(self.emitted@ =~= old(self).emitted@
                                            + output@.take(oi as int));
                                        assert(output@.skip(oi as int)
                                            =~= old(output)@.skip(oi as int));
                                    }
                                    return Ok(oi);
                                }
                            } else {
                                // No room at all: hold the whole record back.
                                self.pending_a = r.count;
                                self.pending_b = r.byte;
                                self.pending_start = 0;
                                self.pending_len = 2;
                                proof {
                                    assert(self.pending_bytes() =~= seq![r.count, r.byte]);
                                    assert(self.emitted@ + self.pending_bytes()
                                        =~= encoded_pairs(self.processed@, None));
                                    assert(output@.skip(oi as int)
                                        =~= old(output)@.skip(oi as int));
                                }
                                return Ok(oi);
                            }
                        }
                    },
                }
            }

            if oi > 0 {
                proof {
                    assert(output@.skip(oi as int) =~= old(output)@.skip(oi as int));
                }
                return Ok(oi);
            }
        }
    }
}

} // verus!
