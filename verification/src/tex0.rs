//! Textures (`TEX0` sub-files): the header that follows a texture's sub-file
//! header.
use vstd::prelude::*;

use crate::common::{
    be_u16, be_u32, big_endian, in_range, lemma_big_endian_values, read, ParseError, Part,
};
use crate::RawBrres;

verus! {

/// A texture. Only its header is read so far; `data` stays empty.
pub struct TEX0 {
    pub header: Header,
    pub data: Vec<u8>,
}

/// What a [`TEX0`] holds, as plain values.
pub struct Tex0View {
    pub header: Header,
    pub data: Seq<u8>,
}

impl View for TEX0 {
    type V = Tex0View;

    open spec fn view(&self) -> Tex0View {
        Tex0View { header: self.header, data: self.data@ }
    }
}

/// The header of a texture (0x1C bytes). The mipmap bounds are
/// single-precision floats, held as their bit patterns.
#[derive(Clone, Copy, Debug, PartialEq, Eq, Structural)]
pub struct Header {
    pub flag: u32,
    pub width: u16,
    pub height: u16,
    pub format: u32,
    pub mipmap_num: u32,
    pub min_mipmap: u32,
    pub max_mipmap: u32,
}

/// The texture header at `offset` of the archive `d`.
pub open spec fn spec_tex0_header(d: Seq<u8>, offset: int) -> Result<Header, ParseError> {
    if !in_range(d, offset, 0x1C) {
        Err(ParseError::OutOfBounds(Part::Tex0Header))
    } else {
        Ok(
            Header {
                flag: be_u32(d, offset),
                width: be_u16(d, offset + 0x4),
                height: be_u16(d, offset + 0x6),
                format: be_u32(d, offset + 0x8),
                mipmap_num: be_u32(d, offset + 0xC),
                min_mipmap: be_u32(d, offset + 0x10),
                max_mipmap: be_u32(d, offset + 0x14),
            },
        )
    }
}

impl Header {
    /// Reads the texture header at `offset`.
    pub fn new(brres: RawBrres, offset: usize) -> (r: Result<Self, ParseError>)
        ensures
            r == spec_tex0_header(brres@, offset as int),
    {
        let ctx = Part::Tex0Header;
        let data = match brres.slice(offset, 0x1C) {
            Some(d) => d,
            None => return Err(ParseError::OutOfBounds(ctx)),
        };
        let flag: u32 = read(data, 0x0, ctx)?;
        let width: u16 = read(data, 0x4, ctx)?;
        let height: u16 = read(data, 0x6, ctx)?;
        let format: u32 = read(data, 0x8, ctx)?;
        let mipmap_num: u32 = read(data, 0xC, ctx)?;
        let min_mipmap: u32 = read(data, 0x10, ctx)?;
        let max_mipmap: u32 = read(data, 0x14, ctx)?;
        Ok(Header { flag, width, height, format, mipmap_num, min_mipmap, max_mipmap })
    }
}

/// The texture whose sub-file starts at `offset`, its sub-file header being
/// `header_length` bytes long.
pub open spec fn spec_tex0(d: Seq<u8>, offset: int, header_length: int) -> Result<Tex0View, ParseError> {
    match spec_tex0_header(d, offset + header_length) {
        Ok(header) => Ok(Tex0View { header, data: Seq::empty() }),
        Err(e) => Err(e),
    }
}

impl TEX0 {
    /// Reads the texture whose sub-file starts at `offset`; its header follows
    /// the `header_length` bytes of the sub-file header.
    pub fn new(brres: RawBrres, offset: usize, header_length: usize) -> (r: Result<Self, ParseError>)
        ensures
            crate::common::result_view(r) == spec_tex0(brres@, offset as int, header_length as int),
    {
        let start = match offset.checked_add(header_length) {
            Some(s) => s,
            None => {
                proof {
                    brres.lemma_len();
                }
                return Err(ParseError::OutOfBounds(Part::Tex0Header));
            },
        };
        let header = Header::new(brres, start)?;
        Ok(TEX0 { header, data: Vec::new() })
    }
}

/// A texture header is read exactly where its 0x1C bytes lie inside the
/// archive, and holds the numbers that its bytes write big-endian: flag at
/// 0, width at 4..6, height at 6..8, format at 8, mipmap count at 0xC, and
/// the bit patterns of the mipmap bounds at 0x10 and 0x14.
pub proof fn lemma_tex0_header_fields(d: Seq<u8>, offset: int)
    ensures
        spec_tex0_header(d, offset) is Ok <==> 0 <= offset && offset + 0x1C <= d.len(),
        spec_tex0_header(d, offset) matches Ok(h) ==> {
            &&& h.flag == big_endian(d, offset, 4)
            &&& h.width == big_endian(d, offset + 4, 2)
            &&& h.height == big_endian(d, offset + 6, 2)
            &&& h.format == big_endian(d, offset + 8, 4)
            &&& h.mipmap_num == big_endian(d, offset + 0xC, 4)
            &&& h.min_mipmap == big_endian(d, offset + 0x10, 4)
            &&& h.max_mipmap == big_endian(d, offset + 0x14, 4)
        },
{
    lemma_big_endian_values(d, offset);
    lemma_big_endian_values(d, offset + 4);
    lemma_big_endian_values(d, offset + 6);
    lemma_big_endian_values(d, offset + 8);
    lemma_big_endian_values(d, offset + 0xC);
    lemma_big_endian_values(d, offset + 0x10);
    lemma_big_endian_values(d, offset + 0x14);
}

/// A texture's header is the one right after its sub-file header, and its
/// data stays empty.
pub proof fn lemma_tex0_place(d: Seq<u8>, offset: int, header_length: int)
    ensures
        spec_tex0(d, offset, header_length) matches Ok(t) ==> spec_tex0_header(
            d,
            offset + header_length,
        ) == Ok::<Header, ParseError>(t.header) && t.data.len() == 0,
        spec_tex0(d, offset, header_length) is Err ==> spec_tex0_header(d, offset + header_length) is Err,
{
}

} // verus!
