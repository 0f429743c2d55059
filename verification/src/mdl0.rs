//! Models (`MDL0` sub-files): the header that follows a model's sub-file
//! header.
use vstd::prelude::*;

pub mod vertices;

use crate::common::{
    be_u32, be_vec3, big_endian, in_range, lemma_big_endian_values, read, read_be_u32, ParseError,
    Part, Vec3,
};
use crate::RawBrres;

verus! {

/// A model. Only its header is read so far.
pub struct MDL0 {
    pub header: Header,
}

/// The header of a model: its byte length stands in its first four bytes,
/// and the fields below lie inside those bytes.
#[derive(Clone, Copy, Debug, PartialEq, Eq, Structural)]
pub struct Header {
    pub length: u32,
    pub file_header_offset: usize,
    pub scale_mode: u32,
    pub tex_mode: u32,
    pub vertex_count: u32,
    pub face_count: u32,
    pub matrices_count: u32,
    pub normalize_matrices: bool,
    pub need_tex_matrices: bool,
    pub bounding_volume: bool,
    pub matrices_offset: usize,
    pub bounding_volume_min: Vec3,
    pub bounding_volume_max: Vec3,
}

/// The byte length of the fields of a model header.
pub open spec fn mdl0_header_min_len() -> int {
    0x40
}

/// The model header at `offset` of the archive `d`.
pub open spec fn spec_mdl0_header(d: Seq<u8>, offset: int) -> Result<Header, ParseError> {
    if !in_range(d, offset, 4) {
        Err(ParseError::OutOfBounds(Part::Mdl0Header))
    } else {
        let length = be_u32(d, offset);
        if !in_range(d, offset, length as int) || length < mdl0_header_min_len() {
            Err(ParseError::OutOfBounds(Part::Mdl0Header))
        } else {
            Ok(
                Header {
                    length,
                    file_header_offset: be_u32(d, offset + 0x04) as usize,
                    scale_mode: be_u32(d, offset + 0x08),
                    tex_mode: be_u32(d, offset + 0x0C),
                    vertex_count: be_u32(d, offset + 0x10),
                    face_count: be_u32(d, offset + 0x14),
                    matrices_count: be_u32(d, offset + 0x1C),
                    normalize_matrices: d[offset + 0x20] != 0,
                    need_tex_matrices: d[offset + 0x21] != 0,
                    bounding_volume: d[offset + 0x22] != 0,
                    matrices_offset: be_u32(d, offset + 0x24) as usize,
                    bounding_volume_min: be_vec3(d, offset + 0x28),
                    bounding_volume_max: be_vec3(d, offset + 0x34),
                },
            )
        }
    }
}

impl Header {
    /// Reads the model header at `offset`.
    pub fn new(brres: RawBrres, offset: usize) -> (r: Result<Self, ParseError>)
        ensures
            r == spec_mdl0_header(brres@, offset as int),
    {
        let len_bytes = match brres.slice(offset, 4) {
            Some(b) => b,
            None => return Err(ParseError::OutOfBounds(Part::Mdl0Header)),
        };
        let length = read_be_u32(len_bytes, 0);
        let data = match brres.slice(offset, length as usize) {
            Some(b) => b,
            None => return Err(ParseError::OutOfBounds(Part::Mdl0Header)),
        };
        if length < 0x40 {
            return Err(ParseError::OutOfBounds(Part::Mdl0Header));
        }
        let ctx = Part::Mdl0Header;
        let file_header_offset = read_be_u32(data, 0x04) as usize;
        let scale_mode = read_be_u32(data, 0x08);
        let tex_mode = read_be_u32(data, 0x0C);
        let vertex_count = read_be_u32(data, 0x10);
        let face_count = read_be_u32(data, 0x14);
        let matrices_count = read_be_u32(data, 0x1C);
        let normalize_matrices = data[0x20] != 0;
        let need_tex_matrices = data[0x21] != 0;
        let bounding_volume = data[0x22] != 0;
        let matrices_offset = read_be_u32(data, 0x24) as usize;
        let bounding_volume_min: Vec3 = read(data, 0x28, ctx)?;
        let bounding_volume_max: Vec3 = read(data, 0x34, ctx)?;
        Ok(
            Header {
                length,
                file_header_offset,
                scale_mode,
                tex_mode,
                vertex_count,
                face_count,
                matrices_count,
                normalize_matrices,
                need_tex_matrices,
                bounding_volume,
                matrices_offset,
                bounding_volume_min,
                bounding_volume_max,
            },
        )
    }
}

/// The model whose sub-file starts at `offset`, its sub-file header being
/// `header_length` bytes long.
pub open spec fn spec_mdl0(d: Seq<u8>, offset: int, header_length: int) -> Result<MDL0, ParseError> {
    match spec_mdl0_header(d, offset + header_length) {
        Ok(header) => Ok(MDL0 { header }),
        Err(e) => Err(e),
    }
}

impl MDL0 {
    /// Reads the model whose sub-file starts at `offset`; its header follows
    /// the `header_length` bytes of the sub-file header.
    pub fn new(brres: RawBrres, offset: usize, header_length: usize) -> (r: Result<Self, ParseError>)
        ensures
            r == spec_mdl0(brres@, offset as int, header_length as int),
    {
        let start = match offset.checked_add(header_length) {
            Some(s) => s,
            None => {
                proof {
                    brres.lemma_len();
                }
                return Err(ParseError::OutOfBounds(Part::Mdl0Header));
            },
        };
        let header = Header::new(brres, start)?;
        Ok(MDL0 { header })
    }
}

/// A model header is read exactly where its first four bytes lie inside the
/// archive, the length they write big-endian is at least 0x40, and that many
/// bytes lie inside the archive; it holds the numbers its bytes write
/// big-endian at their places, and flags that are set where a byte is not
/// zero.
pub proof fn lemma_mdl0_header_fields(d: Seq<u8>, offset: int)
    ensures
        spec_mdl0_header(d, offset) is Ok <==> 0 <= offset && offset + 4 <= d.len() && big_endian(
            d,
            offset,
            4,
        ) >= 0x40 && offset + big_endian(d, offset, 4) <= d.len(),
        spec_mdl0_header(d, offset) matches Ok(h) ==> {
            &&& h.length == big_endian(d, offset, 4)
            &&& h.file_header_offset == big_endian(d, offset + 0x04, 4)
            &&& h.scale_mode == big_endian(d, offset + 0x08, 4)
            &&& h.tex_mode == big_endian(d, offset + 0x0C, 4)
            &&& h.vertex_count == big_endian(d, offset + 0x10, 4)
            &&& h.face_count == big_endian(d, offset + 0x14, 4)
            &&& h.matrices_count == big_endian(d, offset + 0x1C, 4)
            &&& h.normalize_matrices == (d[offset + 0x20] != 0)
            &&& h.need_tex_matrices == (d[offset + 0x21] != 0)
            &&& h.bounding_volume == (d[offset + 0x22] != 0)
            &&& h.matrices_offset == big_endian(d, offset + 0x24, 4)
            &&& h.bounding_volume_min.x == big_endian(d, offset + 0x28, 4)
            &&& h.bounding_volume_min.y == big_endian(d, offset + 0x2C, 4)
            &&& h.bounding_volume_min.z == big_endian(d, offset + 0x30, 4)
            &&& h.bounding_volume_max.x == big_endian(d, offset + 0x34, 4)
            &&& h.bounding_volume_max.y == big_endian(d, offset + 0x38, 4)
            &&& h.bounding_volume_max.z == big_endian(d, offset + 0x3C, 4)
        },
{
    lemma_big_endian_values(d, offset);
    if in_range(d, offset, 4) && in_range(d, offset, be_u32(d, offset) as int) && be_u32(d, offset) >= 0x40 {
        lemma_big_endian_values(d, offset + 0x04);
        lemma_big_endian_values(d, offset + 0x08);
        lemma_big_endian_values(d, offset + 0x0C);
        lemma_big_endian_values(d, offset + 0x10);
        lemma_big_endian_values(d, offset + 0x14);
        lemma_big_endian_values(d, offset + 0x1C);
        lemma_big_endian_values(d, offset + 0x24);
        lemma_big_endian_values(d, offset + 0x28);
        lemma_big_endian_values(d, offset + 0x2C);
        lemma_big_endian_values(d, offset + 0x30);
        lemma_big_endian_values(d, offset + 0x34);
        lemma_big_endian_values(d, offset + 0x38);
        lemma_big_endian_values(d, offset + 0x3C);
    }
}

/// A model's header is the one right after its sub-file header.
pub proof fn lemma_mdl0_place(d: Seq<u8>, offset: int, header_length: int)
    ensures
        spec_mdl0(d, offset, header_length) matches Ok(m) ==> spec_mdl0_header(
            d,
            offset + header_length,
        ) == Ok::<Header, ParseError>(m.header),
        spec_mdl0(d, offset, header_length) is Err ==> spec_mdl0_header(d, offset + header_length) is Err,
{
}

} // verus!
