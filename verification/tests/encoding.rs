use rle::encode;
use rle::encode_into;

#[test]
fn it_works() {
    assert_eq!(
        encode(&[1, 2, 3, 4, 4, 4, 5]),
        &[1, 1, 1, 2, 1, 3, 3, 4, 1, 5]
    );
}

#[test]
fn encode_empty_is_empty() {
    assert_eq!(encode(&[]), Vec::<u8>::new());
}

#[test]
fn encode_single_byte() {
    assert_eq!(encode(&[7]), vec![1, 7]);
}

#[test]
fn encode_run_of_exactly_255_is_one_record() {
    let input = vec![9u8; 255];
    assert_eq!(encode(&input), vec![255, 9]);
}

#[test]
fn encode_run_of_300_splits_at_the_cap() {
    let input = vec![9u8; 300];
    assert_eq!(encode(&input), vec![255, 9, 45, 9]);
}

#[test]
fn encode_run_of_256_splits_into_255_and_1() {
    let input = vec![4u8; 256];
    assert_eq!(encode(&input), vec![255, 4, 1, 4]);
}

#[test]
fn encode_output_length_is_always_even_and_counts_nonzero() {
    let input = vec![1, 1, 2, 3, 3, 3, 3, 4];
    let out = encode(&input);
    assert_eq!(out.len() % 2, 0);
    for pair in out.chunks(2) {
        assert!(pair[0] >= 1);
    }
}

#[test]
fn encode_into_writes_records_and_returns_length() {
    let input = [1u8, 2, 3, 4, 4, 4, 5];
    let mut output = vec![0u8; 2 * input.len()];
    let n = encode_into(&input, &mut output);
    assert_eq!(n, 10);
    assert_eq!(&output[..n], &[1, 1, 1, 2, 1, 3, 3, 4, 1, 5]);
}

#[test]
fn encode_into_leaves_the_tail_untouched() {
    let input = [8u8, 8, 8];
    let mut output = vec![0xCC; 2 * input.len()];
    let n = encode_into(&input, &mut output);
    assert_eq!(n, 2);
    assert_eq!(&output[..2], &[3, 8]);
    assert_eq!(&output[2..], &[0xCC, 0xCC, 0xCC, 0xCC]);
}

#[test]
fn encode_into_empty_input_writes_nothing() {
    let mut output = vec![0xAB; 4];
    let n = encode_into(&[], &mut output);
    assert_eq!(n, 0);
    assert_eq!(output, vec![0xAB; 4]);
}

fn decode(encoded: &[u8]) -> Vec<u8> {
    let mut out = Vec::new();
    for pair in encoded.chunks(2) {
        for _ in 0..pair[0] {
            out.push(pair[1]);
        }
    }
    out
}

#[test]
fn encode_round_trips_through_decoding() {
    let inputs: Vec<Vec<u8>> = vec![
        vec![],
        vec![0],
        vec![1, 2, 3, 4, 4, 4, 5],
        vec![9; 300],
        vec![0, 0, 0, 0, 0, 3, 3, 3],
        (0..=255u8).collect(),
    ];
    for input in inputs {
        assert_eq!(decode(&encode(&input)), input);
    }
}
