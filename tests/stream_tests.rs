use lzma_codec::encoders::{EncodeInstruction, LZMAEncoderInput, LZMAFastInstructionPicker};
use lzma_codec::error::LzmaError;
use lzma_codec::match_finder::HC4MatchFinder;
use lzma_codec::state::State;
use lzma_codec::header::{parse_lzma_header, parse_props_from_u8, props_to_u8, LzmaHeaderProps};
use lzma_codec::lzma::{compress, decompress, LzmaConfig, PickerKind};

fn sample_source() -> Vec<u8> {
    let text = "The quick brown fox jumps over the lazy dog. \
                Pack my box with five dozen liquor jugs! 0123456789\n";
    let mut v = Vec::new();
    for (i, b) in text.bytes().enumerate() {
        v.push(b);
        if i % 7 == 0 {
            v.push((i * 31 % 251) as u8);
        }
    }
    v
}

fn config(picker: PickerKind) -> LzmaConfig {
    LzmaConfig {
        dict_size: 0x4000,
        lc: 3,
        lp: 0,
        pb: 2,
        nice_len: 270,
        match_finder_depth_limit: 48,
        picker,
    }
}

#[test]
fn compressed_round_trip_of_repeated_source() {
    let source = sample_source();
    let mut input = Vec::new();
    for _ in 0..100 {
        input.extend_from_slice(&source);
    }
    let packed = compress(&input, &config(PickerKind::Fast));
    assert!(packed.len() < input.len() / 10);
    let unpacked = decompress(&packed).unwrap();
    assert_eq!(unpacked, input);
}

#[test]
fn optimal_output_is_not_longer_than_fast() {
    let source = sample_source();
    let mut input = Vec::new();
    for _ in 0..20 {
        input.extend_from_slice(&source);
    }
    let fast = compress(&input, &config(PickerKind::Fast));
    let optimal = compress(&input, &config(PickerKind::Optimal));
    assert!(optimal.len() <= fast.len());
    assert_eq!(decompress(&fast).unwrap(), input);
    assert_eq!(decompress(&optimal).unwrap(), input);
}

#[test]
fn round_trip_of_empty_and_tiny_inputs() {
    for input in [vec![], vec![7u8], vec![1u8, 2], vec![9u8; 3], vec![0u8; 5000]] {
        let packed = compress(&input, &config(PickerKind::Fast));
        assert_eq!(decompress(&packed).unwrap(), input);
    }
}

#[test]
fn round_trip_of_pseudo_random_bytes() {
    let mut x: u32 = 12345;
    let mut input = Vec::new();
    for _ in 0..20000 {
        x = x.wrapping_mul(1103515245).wrapping_add(12345);
        input.push((x >> 16) as u8 & 0x0F);
    }
    for (lc, lp, pb) in [(3, 0, 2), (0, 2, 0), (4, 0, 4), (1, 3, 1)] {
        let cfg = LzmaConfig { lc, lp, pb, ..config(PickerKind::Fast) };
        let packed = compress(&input, &cfg);
        assert_eq!(decompress(&packed).unwrap(), input);
    }
}

#[test]
fn props_byte_round_trips() {
    for pb in 0..=4u8 {
        for lp in 0..=4u8 {
            for lc in 0..=8u8 {
                let p = LzmaHeaderProps { pb, lp, lc };
                let b = props_to_u8(p);
                assert_eq!(parse_props_from_u8(b), Ok(p));
            }
        }
    }
    assert_eq!(props_to_u8(LzmaHeaderProps { pb: 2, lp: 0, lc: 3 }), 0x5d);
    assert_eq!(parse_props_from_u8(225), Err(LzmaError::InvalidHeader));
}

#[test]
fn header_fields_are_read_little_endian() {
    let bytes = [0x5d, 0x00, 0x00, 0x01, 0x00, 0x10, 0x20, 0, 0, 0, 0, 0, 0];
    let h = parse_lzma_header(&bytes).unwrap();
    assert_eq!(h.props, LzmaHeaderProps { pb: 2, lp: 0, lc: 3 });
    assert_eq!(h.dict_size, 0x10000);
    assert_eq!(h.uncompressed_size, 0x2010);
    let small = [0x5d, 0x00, 0x01, 0, 0, 0, 0, 0, 0, 0, 0, 0, 0];
    assert_eq!(parse_lzma_header(&small), Err(LzmaError::InvalidHeader));
    assert_eq!(parse_lzma_header(&bytes[..5]), Err(LzmaError::UnexpectedEof));
}

#[test]
fn decoder_rejects_bad_streams() {
    let packed = compress(b"hello hello hello", &config(PickerKind::Fast));
    let mut bad = packed.clone();
    bad[13] = 1;
    assert_eq!(decompress(&bad), Err(LzmaError::InvalidInput));
    let truncated = &packed[..packed.len() - 3];
    assert!(decompress(truncated).is_err());
}

#[test]
fn compressed_header_records_dictionary_and_size_little_endian() {
    let input = vec![3u8; 1000];
    let packed = compress(&input, &config(PickerKind::Fast));
    assert_eq!(packed[0], 0x5d);
    assert_eq!(&packed[1..5], &[0x00, 0x40, 0x00, 0x00]);
    assert_eq!(&packed[5..13], &[0xe8, 0x03, 0, 0, 0, 0, 0, 0]);
}

#[test]
fn fast_picker_matches_repeat_earlier_bytes() {
    let mut data = Vec::new();
    for i in 0..600u32 {
        data.push(b"abcdefgh"[(i % 8) as usize] ^ ((i / 97) as u8));
    }
    let finder = HC4MatchFinder::new(4096, 32, 273, 16);
    let mut input = LZMAEncoderInput::new(finder, 4096);
    input.append_data(&data);
    let mut picker = LZMAFastInstructionPicker::new(32);
    let state = State::new();
    let mut seen_match = false;
    while input.forward_bytes() > 0 {
        let start = input.pos() as usize;
        let ins = picker.get_next_symbol(&mut input, &state);
        match ins {
            EncodeInstruction::Literal(ctx) => assert_eq!(ctx.byte, data[start]),
            EncodeInstruction::Match(m) => {
                seen_match = true;
                assert!(m.len >= 2 && m.len <= 273);
                assert!(m.distance as usize + 1 <= start);
                for i in 0..m.len as usize {
                    assert_eq!(data[start + i], data[start + i - m.distance as usize - 1]);
                }
            }
            EncodeInstruction::Rep { rep_index, len } => {
                assert!(rep_index < 4);
                for i in 0..len as usize {
                    assert_eq!(data[start + i], data[start + i - 1]);
                }
            }
        }
        let end = start + ins.length() as usize;
        while (input.pos() as usize) < end {
            input.increment_pos();
        }
    }
    assert!(seen_match);
}
