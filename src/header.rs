//! The 13-byte `.lzma` header: properties byte, dictionary size and
//! uncompressed size.

use vstd::prelude::*;
use byteorder::ByteOrder;
use crate::error::LzmaError;

verus! {

pub const DICT_SIZE_MIN: u32 = 4096;
pub const DICT_SIZE_MAX: u32 = 0xFFFF_FFF0;
/// The largest valid properties byte: `(4 * 5 + 4) * 9 + 8`.
pub const PROPS_MAX: u8 = 224;
pub const HEADER_LEN: usize = 13;

/// Reads `b[at..at + 4]` as a little-endian integer.
pub open spec fn le_u32(b: Seq<u8>, at: int) -> int {
    b[at] + b[at + 1] * 0x100 + b[at + 2] * 0x1_0000 + b[at + 3] * 0x100_0000
}

/// Reads `b[at..at + 8]` as a little-endian integer.
pub open spec fn le_u64(b: Seq<u8>, at: int) -> int {
    le_u32(b, at) + le_u32(b, at + 4) * 0x1_0000_0000
}

/// Relies on byteorder's `LittleEndian::read_u32`: the four bytes at `at`,
/// least significant first.
#[verifier::external_body]
fn read_le_u32(b: &[u8], at: usize) -> (r: u32)
    requires
        at + 4 <= b@.len(),
    ensures
        r as int == le_u32(b@, at as int),
{
    byteorder::LittleEndian::read_u32(&b[at..])
}

/// Relies on byteorder's `LittleEndian::read_u64`: the eight bytes at `at`,
/// least significant first.
#[verifier::external_body]
fn read_le_u64(b: &[u8], at: usize) -> (r: u64)
    requires
        at + 8 <= b@.len(),
    ensures
        r as int == le_u64(b@, at as int),
{
    byteorder::LittleEndian::read_u64(&b[at..])
}

/// Relies on byteorder's `LittleEndian::write_u32`: the four bytes of `n`,
/// least significant first.
#[verifier::external_body]
fn le_bytes_u32(n: u32) -> (r: Vec<u8>)
    ensures
        r@.len() == 4,
        le_u32(r@, 0) == n,
{
    let mut b: Vec<u8> = vec![0u8; 4];
    byteorder::LittleEndian::write_u32(&mut b, n);
    b
}

/// Relies on byteorder's `LittleEndian::write_u64`: the eight bytes of `n`,
/// least significant first.
#[verifier::external_body]
fn le_bytes_u64(n: u64) -> (r: Vec<u8>)
    ensures
        r@.len() == 8,
        le_u64(r@, 0) == n,
{
    let mut b: Vec<u8> = vec![0u8; 8];
    byteorder::LittleEndian::write_u64(&mut b, n);
    b
}

/// The literal-context and position bits of a stream.
#[derive(Debug, Clone, Copy, PartialEq, Eq, Structural)]
pub struct LzmaHeaderProps {
    pub pb: u8,
    pub lp: u8,
    pub lc: u8,
}

impl LzmaHeaderProps {
    pub open spec fn valid(self) -> bool {
        self.pb <= 4 && self.lp <= 4 && self.lc <= 8
    }
}

#[derive(Debug, Clone, Copy, PartialEq, Eq, Structural)]
pub struct LzmaHeader {
    pub props: LzmaHeaderProps,
    pub dict_size: u32,
    pub uncompressed_size: u64,
}

impl LzmaHeader {
    pub open spec fn valid(self) -> bool {
        &&& self.props.valid()
        &&& DICT_SIZE_MIN <= self.dict_size <= DICT_SIZE_MAX
    }
}

/// The properties byte of `lc`, `lp` and `pb`.
pub open spec fn props_byte(p: LzmaHeaderProps) -> int {
    (p.pb * 5 + p.lp) * 9 + p.lc
}

/// The properties that a byte at most 224 stands for.
pub open spec fn props_of_byte(b: int) -> LzmaHeaderProps {
    LzmaHeaderProps { pb: (b / 45) as u8, lp: ((b % 45) / 9) as u8, lc: (b % 9) as u8 }
}

/// Splits a properties byte into `pb`, `lp` and `lc`.
pub fn parse_props_from_u8(props: u8) -> (r: Result<LzmaHeaderProps, LzmaError>)
    ensures
        props > PROPS_MAX ==> r == Err::<LzmaHeaderProps, LzmaError>(LzmaError::InvalidHeader),
        props <= PROPS_MAX ==> r == Ok::<LzmaHeaderProps, LzmaError>(props_of_byte(props as int)),
        r matches Ok(p) ==> p.valid(),
{
    if props > PROPS_MAX {
        return Err(LzmaError::InvalidHeader);
    }
    let pb: u8 = props / 45;
    let rest: u8 = props - pb * 45;
    let lp: u8 = rest / 9;
    let lc: u8 = rest - lp * 9;
    Ok(LzmaHeaderProps { pb, lp, lc })
}

/// The properties byte of `props`.
pub fn props_to_u8(props: LzmaHeaderProps) -> (r: u8)
    requires
        props.valid(),
    ensures
        r as int == props_byte(props),
        r <= PROPS_MAX,
{
    (props.pb * 5 + props.lp) * 9 + props.lc
}

/// Every valid set of properties survives a trip through its byte.
pub proof fn lemma_props_round_trip(p: LzmaHeaderProps)
    requires
        p.valid(),
    ensures
        0 <= props_byte(p) <= PROPS_MAX,
        props_of_byte(props_byte(p)) == p,
{
    let b = props_byte(p);
    assert(b / 45 == p.pb && (b % 45) / 9 == p.lp && b % 9 == p.lc) by (nonlinear_arith)
        requires b == (p.pb * 5 + p.lp) * 9 + p.lc, p.pb <= 4, p.lp <= 4, p.lc <= 8, p.pb >= 0, p.lp >= 0, p.lc >= 0;
}

/// Reads the header at the start of `data`.
pub fn parse_lzma_header(data: &[u8]) -> (r: Result<LzmaHeader, LzmaError>)
    ensures
        data@.len() < HEADER_LEN ==> r == Err::<LzmaHeader, LzmaError>(
            if data@.len() >= 1 && data@[0] > PROPS_MAX { LzmaError::InvalidHeader } else { LzmaError::UnexpectedEof },
        ),
        data@.len() >= HEADER_LEN ==> (r is Ok <==> (data@[0] <= PROPS_MAX && DICT_SIZE_MIN <= le_u32(data@, 1)
            <= DICT_SIZE_MAX)),
        data@.len() >= HEADER_LEN && r is Err ==> r == Err::<LzmaHeader, LzmaError>(LzmaError::InvalidHeader),
        r matches Ok(h) ==> h.valid() && h.props == props_of_byte(data@[0] as int) && h.dict_size == le_u32(data@, 1)
            && h.uncompressed_size == le_u64(data@, 5),
{
    if data.len() < 1 {
        return Err(LzmaError::UnexpectedEof);
    }
    let props: LzmaHeaderProps = parse_props_from_u8(data[0])?;
    if data.len() < HEADER_LEN {
        return Err(LzmaError::UnexpectedEof);
    }
    let dict_size: u32 = read_le_u32(data, 1);
    let uncompressed_size: u64 = read_le_u64(data, 5);
    if dict_size > DICT_SIZE_MAX || dict_size < DICT_SIZE_MIN {
        return Err(LzmaError::InvalidHeader);
    }
    Ok(LzmaHeader { props, dict_size, uncompressed_size })
}

/// Writes the 13 header bytes of `header`.
pub fn write_lzma_header(header: &LzmaHeader) -> (r: Vec<u8>)
    requires
        header.props.valid(),
    ensures
        r@.len() == HEADER_LEN,
        r@[0] as int == props_byte(header.props),
        le_u32(r@, 1) == header.dict_size,
        le_u64(r@, 5) == header.uncompressed_size,
{
    let mut out: Vec<u8> = Vec::new();
    out.push(props_to_u8(header.props));
    let d: Vec<u8> = le_bytes_u32(header.dict_size);
    let s: Vec<u8> = le_bytes_u64(header.uncompressed_size);
    let mut i: usize = 0;
    while i < 4
        invariant
            i <= 4,
            d@.len() == 4,
            out@.len() == 1 + i,
            out@[0] as int == props_byte(header.props),
            forall|k: int| 0 <= k < i ==> out@[1 + k] == d@[k],
        decreases 4 - i,
    {
        out.push(d[i]);
        i = i + 1;
    }
    let mut j: usize = 0;
    while j < 8
        invariant
            j <= 8,
            s@.len() == 8,
            d@.len() == 4,
            out@.len() == 5 + j,
            out@[0] as int == props_byte(header.props),
            forall|k: int| 0 <= k < 4 ==> out@[1 + k] == d@[k],
            forall|k: int| 0 <= k < j ==> out@[5 + k] == s@[k],
        decreases 8 - j,
    {
        out.push(s[j]);
        j = j + 1;
    }
    assert(le_u32(out@, 1) == le_u32(d@, 0));
    assert(le_u32(out@, 5) == le_u32(s@, 0));
    assert(le_u32(out@, 9) == le_u32(s@, 4));
    out
}

/// Writing a valid header and reading it back gives the same header.
pub proof fn lemma_header_round_trip(h: LzmaHeader, bytes: Seq<u8>)
    requires
        h.valid(),
        bytes.len() == HEADER_LEN,
        bytes[0] as int == props_byte(h.props),
        le_u32(bytes, 1) == h.dict_size,
        le_u64(bytes, 5) == h.uncompressed_size,
    ensures
        bytes[0] <= PROPS_MAX,
        props_of_byte(bytes[0] as int) == h.props,
        DICT_SIZE_MIN <= le_u32(bytes, 1) <= DICT_SIZE_MAX,
{
    lemma_props_round_trip(h.props);
}

} // verus!
