use rle::encode;
use rle::ByteSource;
use rle::Encoder;
use rle::SourceError;
use rle::VecSource;

/// Pull everything out of `encoder`, `out_size` bytes at a time, until it
/// reports exhaustion.
fn drain_all(encoder: &mut Encoder<VecSource>, out_size: usize) -> Vec<u8> {
    let mut collected = Vec::new();
    loop {
        let mut buf = vec![0xCC; out_size];
        let n = encoder.read(&mut buf).unwrap();
        if n == 0 {
            break;
        }
        collected.extend_from_slice(&buf[..n]);
    }
    collected
}

#[test]
fn enc() {
    let input: Vec<u8> = vec![0, 0, 0, 0, 0, 3, 3, 3];

    let mut encoder = Encoder::with_capacity(10, VecSource::new(input));

    let mut output = Vec::new();

    loop {
        let mut buf = vec![0xCC; 10];

        let bytes_read = encoder.read(&mut buf).unwrap();

        if bytes_read == 0 {
            break;
        }

        output.extend_from_slice(&buf[..bytes_read]);
    }

    assert_eq!(&output, &vec![5, 0, 3, 3]);
}

#[test]
fn test_encode_pipe() {
    let input: Vec<u8> = vec![1, 2, 2, 10, 10, 10, 10, 10, 10, 10, 10, 10, 10, 5, 5, 5, 5, 5];
    let expected: Vec<u8> = vec![1, 1, 2, 2, 10, 10, 5, 5];
    let mut encoder = Encoder::with_capacity(10, VecSource::new(input));
    let output = drain_all(&mut encoder, 16);
    assert_eq!(output, expected);
}

#[test]
fn one_byte_output_buffers_still_produce_the_full_stream() {
    let input: Vec<u8> = vec![1, 2, 2, 10, 10, 10, 10, 10, 10, 10, 10, 10, 10, 5, 5, 5, 5, 5];
    let expected = encode(&input);
    let mut encoder = Encoder::with_capacity(10, VecSource::new(input));
    let output = drain_all(&mut encoder, 1);
    assert_eq!(output, expected);
}

#[test]
fn zero_length_output_buffer_is_a_state_preserving_noop() {
    let input: Vec<u8> = vec![0, 0, 0, 0, 0, 3, 3, 3];
    let mut encoder = Encoder::with_capacity(4, VecSource::new(input));

    let mut empty: Vec<u8> = Vec::new();
    assert_eq!(encoder.read(&mut empty).unwrap(), 0);
    assert_eq!(encoder.read(&mut empty).unwrap(), 0);

    // the stream is still served in full afterwards
    assert_eq!(drain_all(&mut encoder, 10), vec![5, 0, 3, 3]);
}

#[test]
fn reads_return_zero_forever_after_exhaustion() {
    let input: Vec<u8> = vec![7, 7, 8];
    let mut encoder = Encoder::with_capacity(4, VecSource::new(input));
    let output = drain_all(&mut encoder, 3);
    assert_eq!(output, vec![2, 7, 1, 8]);
    for _ in 0..4 {
        let mut buf = vec![0xCC; 5];
        assert_eq!(encoder.read(&mut buf).unwrap(), 0);
    }
}

#[test]
fn empty_source_yields_nothing() {
    let mut encoder = Encoder::with_capacity(3, VecSource::new(Vec::new()));
    let mut buf = vec![0xCC; 4];
    assert_eq!(encoder.read(&mut buf).unwrap(), 0);
    assert_eq!(encoder.read(&mut buf).unwrap(), 0);
}

#[test]
fn run_of_300_across_chunk_boundaries_splits_at_the_cap() {
    let input = vec![9u8; 300];
    let mut encoder = Encoder::with_capacity(7, VecSource::new(input));
    let output = drain_all(&mut encoder, 5);
    assert_eq!(output, vec![255, 9, 45, 9]);
}

/// A source that delivers its bytes in ragged chunks: 1 byte, then 3, then
/// 2, then 5, and so on, regardless of how much room the buffer has.
struct RaggedSource {
    data: Vec<u8>,
    pos: usize,
    step: usize,
}

impl ByteSource for RaggedSource {
    fn read(&mut self, buf: &mut Vec<u8>) -> Result<usize, SourceError> {
        let sizes = [1usize, 3, 2, 5, 4, 7];
        let want = sizes[self.step % sizes.len()];
        self.step += 1;
        let left = self.data.len() - self.pos;
        let n = want.min(left).min(buf.len());
        for i in 0..n {
            buf[i] = self.data[self.pos + i];
        }
        self.pos += n;
        Ok(n)
    }
}

#[test]
fn ragged_source_chunks_do_not_change_the_encoding() {
    let mut input: Vec<u8> = Vec::new();
    for i in 0..333u32 {
        input.push((i / 11) as u8 % 3);
    }
    let expected = encode(&input);
    for out_size in [1usize, 2, 7, 64] {
        let source = RaggedSource { data: input.clone(), pos: 0, step: 0 };
        let mut encoder = Encoder::with_capacity(8, source);
        let mut collected = Vec::new();
        loop {
            let mut buf = vec![0xCC; out_size];
            let n = encoder.read(&mut buf).unwrap();
            if n == 0 {
                break;
            }
            collected.extend_from_slice(&buf[..n]);
        }
        assert_eq!(collected, expected, "out {out_size}");
    }
}

/// A source that fails a given number of times before serving its bytes.
struct FlakySource {
    inner: VecSource,
    failures_left: usize,
}

impl ByteSource for FlakySource {
    fn read(&mut self, buf: &mut Vec<u8>) -> Result<usize, SourceError> {
        if self.failures_left > 0 {
            self.failures_left -= 1;
            return Err(SourceError);
        }
        self.inner.read(buf)
    }
}

#[test]
fn source_failure_surfaces_and_a_retry_succeeds() {
    let input: Vec<u8> = vec![0, 0, 0, 0, 0, 3, 3, 3];
    let source = FlakySource { inner: VecSource::new(input), failures_left: 2 };
    let mut encoder = Encoder::with_capacity(10, source);

    let mut buf = vec![0xCC; 10];
    assert_eq!(encoder.read(&mut buf), Err(SourceError));
    assert_eq!(encoder.read(&mut buf), Err(SourceError));

    // nothing was consumed or emitted on the failed pulls
    let mut collected = Vec::new();
    loop {
        let mut buf = vec![0xCC; 10];
        let n = encoder.read(&mut buf).unwrap();
        if n == 0 {
            break;
        }
        collected.extend_from_slice(&buf[..n]);
    }
    assert_eq!(collected, vec![5, 0, 3, 3]);
}

/// A source that serves its bytes, reports exhaustion once, and fails on any
/// pull after that.
struct OneEndSource {
    inner: VecSource,
    ended: bool,
}

impl ByteSource for OneEndSource {
    fn read(&mut self, buf: &mut Vec<u8>) -> Result<usize, SourceError> {
        if self.ended {
            return Err(SourceError);
        }
        let n = self.inner.read(buf)?;
        if n == 0 {
            self.ended = true;
        }
        Ok(n)
    }
}

#[test]
fn a_done_encoder_never_touches_its_source_again() {
    let input: Vec<u8> = vec![7, 7, 8];
    let source = OneEndSource { inner: VecSource::new(input), ended: false };
    let mut encoder = Encoder::with_capacity(4, source);
    let mut collected = Vec::new();
    loop {
        let mut buf = vec![0xCC; 4];
        let n = encoder.read(&mut buf).unwrap();
        if n == 0 {
            break;
        }
        collected.extend_from_slice(&buf[..n]);
    }
    assert_eq!(collected, vec![2, 7, 1, 8]);
    // completion is latched: no further call pulls from the source, which
    // would fail now
    for _ in 0..3 {
        let mut buf = vec![0xCC; 4];
        assert_eq!(encoder.read(&mut buf), Ok(0));
    }
}

#[test]
fn streaming_matches_the_one_shot_encoder_for_all_buffer_sizes() {
    let mut input: Vec<u8> = Vec::new();
    for i in 0..400u32 {
        // mixed short and long runs, crossing every chunk size used below
        input.push((i / 7) as u8 % 5);
    }
    let expected = encode(&input);
    for capacity in [1usize, 2, 3, 10, 64] {
        for out_size in [1usize, 2, 3, 5, 128] {
            let mut encoder =
                Encoder::with_capacity(capacity, VecSource::new(input.clone()));
            let output = drain_all(&mut encoder, out_size);
            assert_eq!(output, expected, "capacity {capacity}, out {out_size}");
        }
    }
}
