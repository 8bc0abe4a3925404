use lzma_codec::cyclic_buffer::CyclicBuffer;
use lzma_codec::data_buffers::{align_slices, DecoderDataBuffer, EncoderDataBuffer};
use lzma_codec::length_codec::{LengthCodecDecoder, LengthCodecEncoder, LengthValueCodec};
use lzma_codec::literals_codec::LiteralSubcoder;
use lzma_codec::match_finder::{get_hash4_size, BruteForceMatchFinder, HC4MatchFinder, Match};
use lzma_codec::range_codec::{RangeDecoder, RangeEncProbability, RangeEncoder};

const MAX_NICE_LEN: usize = 273;
const MATCH_LEN_MIN: usize = 2;
const LOW_LENGTH_MAX: usize = 8;
const MID_LENGTH_MAX: usize = 8;
const HIGH_LENGTH_MAX: usize = 256;

#[test]
fn range_codec_test_range_encoder() {
    let mut encoder = RangeEncoder::new();
    for i in 0..100 {
        encoder.encode_direct_bits(i, 8);
    }
    let buf = encoder.finish();

    assert_eq!(buf.len(), 105);

    let mut decoder = RangeDecoder::new(buf).unwrap();

    for i in 0..100 {
        let result = decoder.decode_direct_bits(8).unwrap();
        assert_eq!(result, i);
    }

    assert!(decoder.is_finished());
}

#[test]
fn range_codec_test_range_encoder_probs() {
    let mut prob = RangeEncProbability::new();
    let mut encoder = RangeEncoder::new();
    for i in 0..100u32 {
        for bit in 0..32 {
            encoder.encode_bit(&mut prob, (i >> bit) & 1);
        }
    }
    let buf = encoder.finish();

    assert_eq!(buf.len(), 197);

    let mut prob = RangeEncProbability::new();
    let mut decoder = RangeDecoder::new(buf).unwrap();
    for i in 0..100u32 {
        let mut result = 0;
        for bit in 0..32 {
            result |= decoder.decode_bit(&mut prob).unwrap() << bit;
        }

        assert_eq!(result, i);
    }

    assert!(decoder.is_finished());
}

#[test]
fn range_codec_test_range_encoder_probs_zeroes() {
    let mut prob = RangeEncProbability::new();
    let mut encoder = RangeEncoder::new();
    for _ in 0..1000 {
        encoder.encode_bit(&mut prob, 0);
    }
    encoder.encode_bit(&mut prob, 1);
    for _ in 0..1000 {
        encoder.encode_bit(&mut prob, 0);
    }
    let buf = encoder.finish();

    assert_eq!(buf.len(), 14);

    let mut prob = RangeEncProbability::new();
    let mut decoder = RangeDecoder::new(buf).unwrap();
    for _ in 0..1000 {
        let result = decoder.decode_bit(&mut prob).unwrap();

        assert_eq!(result, 0);
    }

    let result = decoder.decode_bit(&mut prob).unwrap();
    assert_eq!(result, 1);

    for _ in 0..1000 {
        let result = decoder.decode_bit(&mut prob).unwrap();

        assert_eq!(result, 0);
    }

    assert!(decoder.is_finished());
}

#[test]
fn test_length_value_codec() {
    let mut codec = LengthValueCodec::new(8);
    let mut encoder = RangeEncoder::new();
    for i in 0..256 {
        codec.encode_bit_tree(&mut encoder, i);
    }
    let buf = encoder.finish();

    assert_eq!(buf.len(), 227);

    let mut codec = LengthValueCodec::new(8);
    let mut decoder = RangeDecoder::new(buf).unwrap();
    for i in 0..256 {
        let result = codec.decode_bit_tree(&mut decoder).unwrap();
        assert_eq!(result, i);
    }

    assert!(decoder.is_finished());
}

#[test]
fn test_length_value_codec_reverse() {
    let mut codec = LengthValueCodec::new(8);
    let mut encoder = RangeEncoder::new();
    for i in 0..256 {
        codec.encode_reverse_bit_tree(&mut encoder, i);
    }
    let buf = encoder.finish();

    assert_eq!(buf.len(), 266);

    let mut codec = LengthValueCodec::new(8);
    let mut decoder = RangeDecoder::new(buf).unwrap();
    for i in 0..256 {
        let result = codec.decode_reverse_bit_tree(&mut decoder).unwrap();
        assert_eq!(result, i);
    }

    assert!(decoder.is_finished());
}

#[test]
fn test_length_codec() {
    let mut codec = LengthCodecEncoder::new(1, MAX_NICE_LEN as u32);
    let mut encoder = RangeEncoder::new();

    let max = (MATCH_LEN_MIN + LOW_LENGTH_MAX + MID_LENGTH_MAX + HIGH_LENGTH_MAX) as u32;

    for i in 2..max {
        codec.encode(&mut encoder, i, 0);
    }
    for i in (2..max).rev() {
        codec.encode(&mut encoder, i, 0);
    }

    let buf = encoder.finish();

    assert_eq!(buf.len(), 475);

    let mut codec = LengthCodecDecoder::new(1);
    let mut decoder = RangeDecoder::new(buf).unwrap();

    for i in 2..max {
        let result = codec.decode(&mut decoder, 0).unwrap();
        assert_eq!(result, i);
    }
    for i in (2..max).rev() {
        let result = codec.decode(&mut decoder, 0).unwrap();
        assert_eq!(result, i);
    }

    assert!(decoder.is_finished());
}

#[test]
fn test_literal_normal_codec() {
    let mut subcoder = LiteralSubcoder::new();
    let mut encoder = RangeEncoder::new();
    for i in 0..256 {
        subcoder.encode_normal_literal(&mut encoder, i as u8);
    }
    let buf = encoder.finish();

    let mut subcoder = LiteralSubcoder::new();
    let mut decoder = RangeDecoder::new(buf).unwrap();
    for i in 0..256 {
        let result = subcoder.decode_normal_literal(&mut decoder).unwrap();
        assert_eq!(result, i as u8);
    }

    assert!(decoder.is_finished());
}

#[test]
fn test_literal_matched_codec() {
    let match_byte = 127;

    let mut subcoder = LiteralSubcoder::new();
    let mut encoder = RangeEncoder::new();
    for i in 0..256 {
        subcoder.encode_matched_literal(&mut encoder, i as u8, match_byte);
    }
    let buf = encoder.finish();

    let mut subcoder = LiteralSubcoder::new();
    let mut decoder = RangeDecoder::new(buf).unwrap();
    for i in 0..256 {
        let result = subcoder.decode_matched_literal(&mut decoder, match_byte).unwrap();
        assert_eq!(result, i as u8);
    }

    assert!(decoder.is_finished());
}

#[test]
fn test_align_slices() {
    let left = (&[1, 2, 3][..], &[4, 5, 6, 7][..]);
    let right = (&[8, 9, 10, 11][..], &[12, 13, 14][..]);

    let (left, right) = align_slices(left, right);

    assert_eq!(left[0], &[1, 2, 3][..]);
    assert_eq!(left[1], &[4][..]);
    assert_eq!(left[2], &[5, 6, 7][..]);

    assert_eq!(right[0], &[8, 9, 10][..]);
    assert_eq!(right[1], &[11][..]);
    assert_eq!(right[2], &[12, 13, 14][..]);
}

#[test]
fn test_align_slices_left_longer() {
    let left = (&[1, 2, 3][..], &[4, 5, 6, 7, 8, 9][..]);
    let right = (&[8, 9, 10, 11][..], &[12][..]);

    let (left, right) = align_slices(right, left);

    assert_eq!(left[0], &[1, 2, 3][..]);
    assert_eq!(left[1], &[4][..]);
    assert_eq!(left[2], &[5, 6, 7, 8, 9][..]);

    assert_eq!(right[0], &[8, 9, 10][..]);
    assert_eq!(right[1], &[11][..]);
    assert_eq!(right[2], &[12][..]);
}

#[test]
fn test_align_slices_right_longer() {
    let left = (&[1, 2, 3][..], &[4][..]);
    let right = (&[8, 9, 10, 11][..], &[12, 13, 14, 15][..]);

    let (left, right) = align_slices(right, left);

    assert_eq!(left[0], &[1, 2, 3][..]);
    assert_eq!(left[1], &[4][..]);
    assert_eq!(left[2], &[][..]);

    assert_eq!(right[0], &[8, 9, 10][..]);
    assert_eq!(right[1], &[11][..]);
    assert_eq!(right[2], &[12, 13, 14, 15][..]);
}

#[test]
fn test_align_slices_left_empty() {
    let left: (&[i32], &[i32]) = (&[][..], &[][..]);
    let right = (&[1, 2][..], &[3, 4][..]);

    let (left, right) = align_slices(right, left);

    assert_eq!(left[0], &[][..]);
    assert_eq!(left[1], &[][..]);
    assert_eq!(left[2], &[][..]);

    assert_eq!(right[0], &[][..]);
    assert_eq!(right[1], &[1, 2][..]);
    assert_eq!(right[2], &[3, 4][..]);
}

fn assert_matches_equal(matches_1: &[Match], matches_2: &[Match]) {
    let mut matches1 = matches_1.to_vec();
    let mut matches2 = matches_2.to_vec();

    for m in &matches1 {
        if matches2.iter().find(|&m2| m == m2).is_some() {
            // Remove every match2 with the same length but different distance
            let mut i = 0;
            while i < matches2.len() {
                if matches2[i].len == m.len && matches2[i].distance != m.distance {
                    matches2.remove(i);
                } else {
                    i += 1;
                }
            }
        }
    }

    matches1.sort_by_key(|m| m.distance);
    matches2.sort_by_key(|m| m.distance);

    assert_eq!(matches1, matches2);
}

#[test]
fn test_find_short_matches() {
    let mut data = vec![];
    data.extend(vec![0; 1000]); // Pad the data with zeros

    for i in 0..10 {
        data.push(255); // Short 2 byte matches
        data.push(i);
        data.extend(vec![0; 10]); // Space sequences with zeros
    }

    for i in 0..10 {
        data.push(255); // Same matches again
        data.push(i);
        data.extend(vec![0; 10]); // Space sequences with zeros
    }

    let mut buffer = EncoderDataBuffer::new(1000, 2000);
    buffer.append_data(&data);
    buffer.skip(1000); // Skip the padding

    let mut hc4 = HC4MatchFinder::new(998, 5, 5, 10);
    let mut brute = BruteForceMatchFinder::new(5, 998);

    let mut out_vec_1 = Vec::new();
    let mut out_vec_2 = Vec::new();

    for _ in 0..buffer.forwards_bytes() - 4 {
        brute.find_and_write_matches(&buffer, &mut out_vec_2);
        hc4.find_and_write_matches(&buffer, &mut out_vec_1);

        if buffer.get_byte(0) == 255 {
            assert_matches_equal(&out_vec_1, &out_vec_2);
        }

        buffer.increment_pos();
    }
}

#[test]
fn test_find_long_matches() {
    let mut data = vec![];
    data.extend(vec![0; 1000]); // Pad the data with zeros

    let sequence = [1, 2, 3, 4, 5, 6, 7, 8, 9];

    for i in 2..sequence.len() {
        data.push(255); // Match start identifier for testing
        data.extend(&sequence[0..(sequence.len() - i + 2)]); // Long matches, in decreasing length order
        data.push(i as u8 + 100); // Some random data to pad the sequences
        data.extend(vec![0; 10]); // Space sequences with zeros
    }

    let mut buffer = EncoderDataBuffer::new(1000, 2000);
    buffer.append_data(&data);
    buffer.skip(1000); // Skip the padding

    let mut hc4 = HC4MatchFinder::new(998, 12, 12, 20);
    let mut brute = BruteForceMatchFinder::new(12, 998);

    let mut out_vec_1 = Vec::new();
    let mut out_vec_2 = Vec::new();

    for _ in 0..buffer.forwards_bytes() - 4 {
        brute.find_and_write_matches(&buffer, &mut out_vec_2);

        hc4.find_and_write_matches(&buffer, &mut out_vec_1);

        if buffer.get_byte(0) == 255 && out_vec_2.len() > 2 {
            assert_matches_equal(&out_vec_1, &out_vec_2);
        }

        buffer.increment_pos();
    }
}

#[test]
fn bit_tree_tables_stay_in_lockstep() {
    let mut enc_codec = LengthValueCodec::new(6);
    let mut encoder = RangeEncoder::new();
    let symbols = [5u32, 63, 0, 17, 17, 42, 1, 60];
    for &s in &symbols {
        enc_codec.encode_bit_tree(&mut encoder, s);
    }
    let buf = encoder.finish();
    let mut dec_codec = LengthValueCodec::new(6);
    let mut decoder = RangeDecoder::new(buf).unwrap();
    for &s in &symbols {
        assert_eq!(dec_codec.decode_bit_tree(&mut decoder).unwrap(), s);
    }
    assert_eq!(enc_codec.probabilities(), dec_codec.probabilities());
    assert_ne!(enc_codec.probabilities(), LengthValueCodec::new(6).probabilities());
}

#[test]
fn direct_bits_round_trip_for_every_width() {
    let mut encoder = RangeEncoder::new();
    let mut values = Vec::new();
    for n in 1..=32u32 {
        let v: u32 = if n == 32 { 0xDEAD_BEEF } else { (0x9E37_79B9u32 >> (32 - n)) | 1 };
        values.push((v, n));
        encoder.encode_direct_bits(v, n);
        encoder.encode_direct_bits(0, n);
    }
    let buf = encoder.finish();
    let mut decoder = RangeDecoder::new(buf).unwrap();
    for &(v, n) in &values {
        assert_eq!(decoder.decode_direct_bits(n).unwrap(), v);
        assert_eq!(decoder.decode_direct_bits(n).unwrap(), 0);
    }
    assert!(decoder.is_finished());
}

#[test]
fn finish_of_a_fresh_encoder_emits_five_bytes() {
    let buf = RangeEncoder::new().finish();
    assert_eq!(buf, vec![0, 0, 0, 0, 0]);
}

#[test]
fn decoder_reads_the_initial_code_big_endian() {
    let d = RangeDecoder::new(vec![0, 0, 0, 0, 0]).unwrap();
    assert!(d.is_finished());
    let d = RangeDecoder::new(vec![0, 0, 0, 0, 1]).unwrap();
    assert!(!d.is_finished());
    assert!(RangeDecoder::new(vec![1, 0, 0, 0, 0]).is_err());
    assert!(RangeDecoder::new(vec![0, 0xFF, 0xFF, 0xFF, 0xFF]).is_err());
    assert!(RangeDecoder::new(vec![0, 0, 0]).is_err());
}

#[test]
fn probability_adapts_by_one_thirty_second() {
    let mut p = RangeEncProbability::new();
    assert_eq!(p.0, 1024);
    p.increment();
    assert_eq!(p.0, 1024 + (2048 - 1024) / 32);
    let mut q = RangeEncProbability::new();
    q.decrement();
    assert_eq!(q.0, 1024 - 1024 / 32);
}

#[test]
fn cyclic_buffer_appends_past_data_across_the_seam() {
    let mut buf = CyclicBuffer::new(8);
    for b in 1..=10u8 {
        buf.push(b);
    }
    // Last 8 bytes held: 3..=10; copy the 4 bytes from 6 back: 5, 6, 7, 8.
    buf.append_past_data(1..5);
    assert_eq!(buf.pos(), 14);
    let got: Vec<u8> = (0..8).rev().map(|k| buf.get_relative(k)).collect();
    assert_eq!(got, vec![7, 8, 9, 10, 5, 6, 7, 8]);
    let (a, b) = buf.as_slices();
    let mut all = a.to_vec();
    all.extend_from_slice(b);
    assert_eq!(all, vec![7, 8, 9, 10, 5, 6, 7, 8]);
}

#[test]
fn decoder_buffer_flushes_into_a_bounded_slice() {
    let mut window = DecoderDataBuffer::new(16, 10);
    for b in [1u8, 2, 3, 4, 5, 6] {
        window.append_byte(b);
    }
    window.append_match(2, 3);
    let mut out = [0u8; 4];
    assert_eq!(window.flush(&mut out), 4);
    assert_eq!(out, [1, 2, 3, 4]);
    let mut rest = [9u8; 8];
    assert_eq!(window.flush(&mut rest), 5);
    assert_eq!(rest, [5, 6, 4, 5, 6, 9, 9, 9]);
    assert_eq!(window.flush(&mut rest), 0);
}

#[test]
fn hash4_size_covers_every_dictionary_size() {
    assert_eq!(get_hash4_size(1), 0x1_0000);
    assert_eq!(get_hash4_size(0x40_0000), 0x20_0000);
    assert_eq!(get_hash4_size(0x40_0001), 0x40_0000);
    assert_eq!(get_hash4_size(0x200_0000), 0x100_0000);
    assert_eq!(get_hash4_size(0x200_0001), 0x80_0000);
    assert_eq!(get_hash4_size(u32::MAX), 0x80_0000);
}
