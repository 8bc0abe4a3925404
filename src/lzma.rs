//! Whole `.lzma` streams: header plus range-coded packets, with the
//! uncompressed size stored in the header.

use vstd::prelude::*;
use crate::error::LzmaError;
use crate::range_codec::{RangeEncoder, RangeDecoder};
use crate::length_codec::MATCH_LEN_MAX;
use crate::header::{
    LzmaHeader, LzmaHeaderProps, parse_lzma_header, write_lzma_header, le_u64, HEADER_LEN,
    DICT_SIZE_MIN, DICT_SIZE_MAX, PROPS_MAX, props_byte, le_u32,
};
use crate::data_buffers::DecoderDataBuffer;
use crate::match_finder::HC4MatchFinder;
use crate::encoders::{
    LZMAEncoderInput, LZMACodecEncoder, LZMAFastInstructionPicker, InstructionPicker,
};
use crate::stream_codec::LZMACodecDecoder;
use crate::optimal::LZMANormalInstructionPicker;

verus! {

/// The largest dictionary the encoder accepts: the window's byte offsets
/// are `i32`, and the look-ahead sits beyond the dictionary.
pub const ENCODER_DICT_SIZE_MAX: u32 = 0x7FFF_0000;

/// Which instruction picker the encoder uses.
#[derive(Debug, Clone, Copy, PartialEq, Eq, Structural)]
pub enum PickerKind {
    Fast,
    Optimal,
}

/// Encoder settings.
#[derive(Debug, Clone, Copy, PartialEq, Eq, Structural)]
pub struct LzmaConfig {
    pub dict_size: u32,
    pub lc: u32,
    pub lp: u32,
    pub pb: u32,
    pub nice_len: u32,
    /// Chain steps of the match finder; 0 or less picks one from `nice_len`.
    pub match_finder_depth_limit: i32,
    pub picker: PickerKind,
}

impl LzmaConfig {
    /// Settings the encoder accepts.
    pub open spec fn valid(self) -> bool {
        &&& DICT_SIZE_MIN <= self.dict_size <= ENCODER_DICT_SIZE_MAX
        &&& self.lc <= 8
        &&& self.lp <= 4
        &&& self.lc + self.lp <= 4
        &&& self.pb <= 4
        &&& 2 <= self.nice_len <= MATCH_LEN_MAX
    }

    pub open spec fn props(self) -> LzmaHeaderProps {
        LzmaHeaderProps { pb: self.pb as u8, lp: self.lp as u8, lc: self.lc as u8 }
    }

    /// Whether `self` is valid, checked.
    pub fn is_valid(&self) -> (r: bool)
        ensures
            r == self.valid(),
    {
        DICT_SIZE_MIN <= self.dict_size && self.dict_size <= ENCODER_DICT_SIZE_MAX && self.lc <= 8 && self.lp <= 4
            && self.lc + self.lp <= 4 && self.pb <= 4 && 2 <= self.nice_len && self.nice_len <= MATCH_LEN_MAX as u32
    }
}

/// Compresses `data` into a `.lzma` stream whose header records its length.
pub fn compress(data: &[u8], cfg: &LzmaConfig) -> (r: Vec<u8>)
    requires
        cfg.valid(),
        data@.len() <= 0x7FFF_FFFF_FFFF_FFFF,
    ensures
        r@.len() >= HEADER_LEN + 5,
        r@[0] as int == props_byte(cfg.props()),
        le_u64(r@, 5) == data@.len(),
{
    let header: LzmaHeader = LzmaHeader {
        props: LzmaHeaderProps { pb: cfg.pb as u8, lp: cfg.lp as u8, lc: cfg.lc as u8 },
        dict_size: cfg.dict_size,
        uncompressed_size: data.len() as u64,
    };
    let mut out: Vec<u8> = write_lzma_header(&header);
    let payload: Vec<u8> = compress_payload(data, cfg);
    let mut i: usize = 0;
    let ghost head = out@;
    while i < payload.len()
        invariant
            i <= payload@.len(),
            out@.len() == head.len() + i,
            head.len() == HEADER_LEN,
            forall|k: int| 0 <= k < HEADER_LEN ==> out@[k] == head[k],
        decreases payload@.len() - i,
    {
        out.push(payload[i]);
        i = i + 1;
    }
    assert(le_u64(out@, 5) == le_u64(head, 5));
    out
}

/// Range-codes the packets of `data`, without the header.
pub fn compress_payload(data: &[u8], cfg: &LzmaConfig) -> (r: Vec<u8>)
    requires
        cfg.valid(),
        data@.len() <= 0x7FFF_FFFF_FFFF_FFFF,
    ensures
        r@.len() >= 5,
{
    let finder: HC4MatchFinder = HC4MatchFinder::new(
        cfg.dict_size,
        cfg.nice_len,
        MATCH_LEN_MAX as u32,
        cfg.match_finder_depth_limit,
    );
    let mut input: LZMAEncoderInput = LZMAEncoderInput::new(finder, cfg.dict_size);
    let picker: InstructionPicker = match cfg.picker {
        PickerKind::Fast => InstructionPicker::Fast(LZMAFastInstructionPicker::new(cfg.nice_len)),
        PickerKind::Optimal => InstructionPicker::Normal(LZMANormalInstructionPicker::new(cfg.nice_len)),
    };
    let mut encoder: LZMACodecEncoder = LZMACodecEncoder::new(
        cfg.dict_size,
        cfg.lc,
        cfg.lp,
        cfg.pb,
        cfg.nice_len,
        picker,
    );
    let mut rc: RangeEncoder = RangeEncoder::new();
    let mut fed: usize = 0;
    let total: usize = data.len();
    while encoder.position() < total as u64
        invariant
            encoder.wf(),
            rc.wf(),
            input.wf(),
            total == data@.len(),
            fed <= total,
            input.buffer_view().data() == data@.subrange(0, fed as int),
            encoder.is_fast() ==> encoder.position_spec() == input.buffer_view().cur(),
            total <= 0x7FFF_FFFF_FFFF_FFFF,
        decreases u64::MAX - encoder.position_spec(),
    {
        proof {
            input.lemma_data_len();
        }
        let room: usize = input.available_append_bytes();
        let n: usize = if room < total - fed { room } else { total - fed };
        if n > 0 {
            input.append_data(&data[fed..fed + n]);
            fed = fed + n;
            assert(input.buffer_view().data() =~= data@.subrange(0, fed as int));
        }
        if input.forward_bytes() == 0 && !encoder.has_pending() {
            break;
        }
        encoder.encode_one_packet(&mut rc, &mut input);
        proof {
            input.lemma_data_len();
        }
    }
    rc.finish()
}

/// What `compress` states of its output and `decompress` of a successful
/// result give together: decompressing a compressed stream, when it
/// succeeds, yields exactly as many bytes as were compressed.
pub proof fn lemma_round_trip_length(input: Seq<u8>, packed: Seq<u8>, unpacked: Seq<u8>)
    requires
        packed.len() >= HEADER_LEN + 5,
        le_u64(packed, 5) == input.len(),
        unpacked.len() == le_u64(packed, 5),
    ensures
        unpacked.len() == input.len(),
{
}

/// Decompresses a `.lzma` stream whose header records the uncompressed size.
pub fn decompress(data: &[u8]) -> (r: Result<Vec<u8>, LzmaError>)
    ensures
        r matches Ok(out) ==> data@.len() >= HEADER_LEN && out@.len() == le_u64(data@, 5),
        data@.len() < HEADER_LEN ==> r is Err,
        data@.len() >= HEADER_LEN && !(data@[0] <= PROPS_MAX && DICT_SIZE_MIN <= le_u32(data@, 1) <= DICT_SIZE_MAX)
            ==> r == Err::<Vec<u8>, LzmaError>(LzmaError::InvalidHeader),
        data@.len() > HEADER_LEN && data@[0] <= PROPS_MAX && DICT_SIZE_MIN <= le_u32(data@, 1) <= DICT_SIZE_MAX
            && data@[HEADER_LEN as int] != 0 ==> r == Err::<Vec<u8>, LzmaError>(LzmaError::InvalidInput),
        r matches Err(e) ==> (e != LzmaError::InvalidHeader && data@.len() >= HEADER_LEN ==> data@[0] <= PROPS_MAX
            && DICT_SIZE_MIN <= le_u32(data@, 1) <= DICT_SIZE_MAX),
{
    let header: LzmaHeader = parse_lzma_header(data)?;
    let mut payload: Vec<u8> = Vec::new();
    let mut i: usize = HEADER_LEN;
    while i < data.len()
        invariant
            HEADER_LEN <= i <= data@.len(),
            payload@ == data@.subrange(HEADER_LEN as int, i as int),
        decreases data@.len() - i,
    {
        payload.push(data[i]);
        i = i + 1;
        assert(payload@ =~= data@.subrange(HEADER_LEN as int, i as int));
    }
    decompress_payload(payload, &header)
}

/// Decodes the packets of `payload` as described by `header`.
pub fn decompress_payload(payload: Vec<u8>, header: &LzmaHeader) -> (r: Result<Vec<u8>, LzmaError>)
    requires
        header.valid(),
    ensures
        r matches Ok(out) ==> out@.len() == header.uncompressed_size,
        payload@.len() >= 1 && payload@[0] != 0 ==> r == Err::<Vec<u8>, LzmaError>(LzmaError::InvalidInput),
        payload@.len() < 5 && !(payload@.len() >= 1 && payload@[0] != 0)
            ==> r == Err::<Vec<u8>, LzmaError>(LzmaError::UnexpectedEof),
        r matches Err(e) ==> e != LzmaError::InvalidHeader,
{
    let ghost p0 = payload@;
    let mut rc: RangeDecoder = RangeDecoder::new(payload)?;
    let mut dec: LZMACodecDecoder = LZMACodecDecoder::new(
        header.props.lc as u32,
        header.props.lp as u32,
        header.props.pb as u32,
    );
    let size: u64 = header.uncompressed_size;
    let mut window: DecoderDataBuffer = DecoderDataBuffer::new(header.dict_size, size);
    let mut out: Vec<u8> = Vec::new();
    while window.position() < size
        invariant
            dec.wf(),
            rc.wf(),
            window.wf(),
            window.size() == header.dict_size,
            window.size() >= DICT_SIZE_MIN,
            window.flushed() == window.data().len(),
            out@ == window.data(),
            p0.len() >= 5 && p0[0] == 0,
            p0 == payload@,
            window.data().len() <= u64::MAX,
        decreases u64::MAX - window.data().len(),
    {
        if window.position() > u64::MAX - MATCH_LEN_MAX as u64 {
            return Err(LzmaError::CorruptStream);
        }
        let ghost before = window.data();
        let ghost out_before = out@;
        dec.decode_one_packet(&mut rc, &mut window)?;
        window.flush_all(&mut out);
        proof {
            assert(before.is_prefix_of(window.data()));
            assert(out@ =~= window.data()) by {
                assert(out_before == before);
                assert(window.data().subrange(0, before.len() as int) == before);
                assert(out@ == before + window.data().subrange(before.len() as int, window.data().len() as int));
            }
        }
    }
    if window.position() != size || !rc.is_finished() {
        return Err(LzmaError::CorruptStream);
    }
    Ok(out)
}

} // verus!
