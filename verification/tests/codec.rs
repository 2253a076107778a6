//! End-to-end tests of the run-length codec over in-memory buffers.

use rle_codec::DecodeError;
use rle_codec::Decoder;
use rle_codec::EncodeError;
use rle_codec::Encoder;
use rle_codec::VecSink;
use rle_codec::VecSource;

/// Encodes `data` through a fresh encoder and returns the framed bytes.
fn encode_all(data: &[u8]) -> Vec<u8> {
    let mut enc = Encoder::new(VecSink::new());
    let n = enc.feed(data).unwrap();
    assert_eq!(n, data.len());
    enc.finalize().unwrap();
    enc.into_sink().into_vec()
}

/// Decodes a whole stream, pulling `capacity` bytes at a time.
fn decode_all(encoded: Vec<u8>, capacity: usize) -> Result<Vec<u8>, DecodeError> {
    let mut dec = Decoder::new(VecSource::new(encoded));
    let mut out = Vec::new();
    loop {
        let part = dec.pull(capacity)?;
        if part.is_empty() {
            return Ok(out);
        }
        out.extend(part);
    }
}

#[test]
fn test_rle() {
    let cases = [
        &[1, 2, 3, 4, 5, 6, 7, 8, 9, 10, 11, 12, 13, 14, 15, 16][..],
        &[10; 300][..],
        &[1, 1, 1, 1, 1, 1, 10, 2, 2, 2, 2, 10, 11, 12, 3, 3, 3, 4, 4, 3, 3, 3][..],
    ];

    for case in cases {
        println!("case: {case:?}");

        let encoded = encode_all(case);

        println!("encoded: {encoded:?}");

        let decoded = decode_all(encoded, 128).unwrap();

        println!("decoded: {decoded:?}");

        assert_eq!(&decoded[..], case);
    }
}

#[test]
fn empty_input_encodes_to_nothing() {
    assert_eq!(encode_all(&[]), Vec::<u8>::new());
    assert_eq!(decode_all(Vec::new(), 64).unwrap(), Vec::<u8>::new());
}

#[test]
fn single_byte_is_a_count_one_run() {
    assert_eq!(encode_all(&[5]), vec![0x80, 5]);
    assert_eq!(decode_all(vec![0x80, 5], 64).unwrap(), vec![5]);
}

#[test]
fn run_of_300_splits_into_three_repeat_chunks() {
    let encoded = encode_all(&[10; 300]);
    assert_eq!(encoded, vec![0xFF, 10, 0xFF, 10, 0x80 | 43, 10]);
    let decoded = decode_all(encoded, 64).unwrap();
    assert_eq!(decoded, vec![10; 300]);
}

#[test]
fn run_of_128_fills_one_repeat_chunk() {
    assert_eq!(encode_all(&[7; 128]), vec![0xFF, 7]);
}

#[test]
fn run_of_129_spills_into_a_second_chunk() {
    assert_eq!(encode_all(&[7; 129]), vec![0xFF, 7, 0x80, 7]);
}

#[test]
fn literal_of_129_fills_one_literal_chunk() {
    let data: Vec<u8> = (0..129u32).map(|i| (i % 2) as u8).collect();
    let mut expected = vec![127u8];
    expected.extend(&data);
    assert_eq!(encode_all(&data), expected);
}

#[test]
fn literal_of_130_spills_into_a_second_chunk() {
    let data: Vec<u8> = (0..130u32).map(|i| (i % 2) as u8).collect();
    let mut expected = vec![127u8];
    expected.extend(&data[..129]);
    expected.push(0x80);
    expected.push(data[129]);
    assert_eq!(encode_all(&data), expected);
}

#[test]
fn clean_eof_after_full_chunk_reports_end_of_stream() {
    let mut dec = Decoder::new(VecSource::new(vec![0xFF, 7]));
    let first = dec.pull(200).unwrap();
    assert_eq!(first, vec![7; 128]);
    assert_eq!(dec.pull(200).unwrap(), Vec::<u8>::new());
    assert_eq!(dec.pull(200).unwrap(), Vec::<u8>::new());
}

#[test]
fn missing_repeat_value_is_malformed() {
    assert_eq!(decode_all(vec![0xFF], 64), Err(DecodeError::MalformedStream));
}

#[test]
fn missing_literal_payload_is_malformed() {
    assert_eq!(decode_all(vec![0x00], 64), Err(DecodeError::MalformedStream));
}

#[test]
fn short_literal_payload_is_malformed() {
    assert_eq!(decode_all(vec![0x01, 1, 2], 64), Err(DecodeError::MalformedStream));
}

#[test]
fn chunk_drains_across_small_pulls() {
    let mut dec = Decoder::new(VecSource::new(vec![0x83, 9]));
    assert_eq!(dec.pull(3).unwrap(), vec![9, 9, 9]);
    assert_eq!(dec.pull(3).unwrap(), vec![9]);
    assert_eq!(dec.pull(3).unwrap(), Vec::<u8>::new());
}

#[test]
fn literal_drains_across_small_pulls() {
    let mut dec = Decoder::new(VecSource::new(vec![0x01, 4, 5, 6]));
    assert_eq!(dec.pull(2).unwrap(), vec![4, 5]);
    assert_eq!(dec.pull(2).unwrap(), vec![6]);
    assert_eq!(dec.pull(2).unwrap(), Vec::<u8>::new());
}

#[test]
fn zero_capacity_returns_nothing_and_keeps_the_stream() {
    let mut dec = Decoder::new(VecSource::new(vec![0x80, 5]));
    assert_eq!(dec.pull(0).unwrap(), Vec::<u8>::new());
    assert_eq!(dec.pull(8).unwrap(), vec![5]);
}

#[test]
fn finalize_twice_reports_already_finalized() {
    let mut enc = Encoder::new(VecSink::new());
    enc.feed(&[1, 2, 3]).unwrap();
    enc.finalize().unwrap();
    assert_eq!(enc.finalize(), Err(EncodeError::AlreadyFinalized));
    let bytes = enc.into_sink().into_vec();
    assert_eq!(decode_all(bytes, 16).unwrap(), vec![1, 2, 3]);
}

#[test]
fn feed_after_finalize_reports_already_finalized() {
    let mut enc = Encoder::new(VecSink::new());
    enc.feed(&[1]).unwrap();
    enc.finalize().unwrap();
    assert_eq!(enc.feed(&[2]), Err(EncodeError::AlreadyFinalized));
    let bytes = enc.into_sink().into_vec();
    assert_eq!(bytes, vec![0x80, 1]);
}

#[test]
fn byte_at_a_time_equals_bulk_feeding() {
    let data = [3u8, 3, 3, 8, 9, 9, 2, 2, 2, 2, 1];
    let bulk = encode_all(&data);
    let mut enc = Encoder::new(VecSink::new());
    for b in data {
        enc.feed(&[b]).unwrap();
    }
    enc.finalize().unwrap();
    assert_eq!(enc.into_sink().into_vec(), bulk);
}

#[test]
fn rule_four_merges_literal_tail_into_a_run() {
    // 1,2,2 : the literal [1,2] gives its tail up; a 1-run of 1 is flushed
    // and a 2-run of 2 follows.
    assert_eq!(encode_all(&[1, 2, 2]), vec![0x80, 1, 0x81, 2]);
    // 1,2,3,3 : the literal shrinks by one and is flushed, then a 2-run of 3.
    assert_eq!(encode_all(&[1, 2, 3, 3]), vec![0x00, 1, 2, 0x81, 3]);
}

#[test]
fn one_shot_helpers_match_streaming() {
    let data = [1u8, 1, 1, 1, 1, 1, 10, 2, 2, 2, 2, 10, 11, 12, 3, 3, 3, 4, 4, 3, 3, 3];
    assert_eq!(rle_codec::encode_bytes(&data), encode_all(&data));
    assert_eq!(rle_codec::decode_bytes(&encode_all(&data)).unwrap().as_slice(), &data);
}

#[test]
fn one_shot_round_trip_over_varied_runs() {
    let mut data = Vec::new();
    for i in 0..600u32 {
        for _ in 0..(i % 7 + 1) {
            data.push((i % 251) as u8);
        }
    }
    let encoded = rle_codec::encode_bytes(&data);
    assert_eq!(rle_codec::decode_bytes(&encoded).unwrap(), data);
}

#[test]
fn one_shot_decode_rejects_truncation() {
    assert_eq!(rle_codec::decode_bytes(&[0x00]), Err(DecodeError::MalformedStream));
}
