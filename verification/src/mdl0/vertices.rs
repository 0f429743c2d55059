//! The header of one vertex array of a model.
use vstd::prelude::*;

use crate::common::{
    be_i32, be_u16, be_u32, be_vec3, big_endian, in_range, lemma_big_endian_subrange,
    lemma_big_endian_values, lemma_vec3_fields, read, spec_variable_string, twos_complement,
    ParseError, Part, VariableString, VariableStringView, Vec3,
};
use vstd::utf8::{decode_utf8, valid_utf8};
use crate::RawBrres;

verus! {

/// The 0x38-byte header of a vertex array. The offset of its name counts
/// from the start of the header, and the name must lie inside it.
pub struct EntryHeader {
    pub length: u32,
    pub mdl0_offset: i32,
    pub data_offset: i32,
    pub name_offset: i32,
    pub name: VariableString,
    pub index: u32,
    pub is_3d: bool,
    pub format: u32,
    pub divisor: u8,
    pub stride: u8,
    pub vertex_count: u16,
    pub bounding_volume_min: Vec3,
    pub bounding_volume_max: Vec3,
}

/// What an [`EntryHeader`] holds, as plain values.
pub struct EntryHeaderView {
    pub length: u32,
    pub mdl0_offset: i32,
    pub data_offset: i32,
    pub name_offset: i32,
    pub name: VariableStringView,
    pub index: u32,
    pub is_3d: bool,
    pub format: u32,
    pub divisor: u8,
    pub stride: u8,
    pub vertex_count: u16,
    pub bounding_volume_min: Vec3,
    pub bounding_volume_max: Vec3,
}

impl View for EntryHeader {
    type V = EntryHeaderView;

    open spec fn view(&self) -> EntryHeaderView {
        EntryHeaderView {
            length: self.length,
            mdl0_offset: self.mdl0_offset,
            data_offset: self.data_offset,
            name_offset: self.name_offset,
            name: self.name@,
            index: self.index,
            is_3d: self.is_3d,
            format: self.format,
            divisor: self.divisor,
            stride: self.stride,
            vertex_count: self.vertex_count,
            bounding_volume_min: self.bounding_volume_min,
            bounding_volume_max: self.bounding_volume_max,
        }
    }
}

/// The byte length of a vertex array header.
pub open spec fn vertex_entry_len() -> int {
    0x38
}

/// The vertex array header at `offset` of the archive `d`.
pub open spec fn spec_vertex_entry(d: Seq<u8>, offset: int) -> Result<EntryHeaderView, ParseError> {
    if !in_range(d, offset, vertex_entry_len()) {
        Err(ParseError::OutOfBounds(Part::VertexEntry))
    } else {
        let e = d.subrange(offset, offset + vertex_entry_len());
        let name_offset = be_i32(e, 0xC);
        let name = if name_offset < 0 {
            Err(ParseError::OutOfBounds(Part::VertexEntry))
        } else {
            spec_variable_string(e, name_offset as int, Part::VertexEntry)
        };
        match name {
            Err(err) => Err(err),
            Ok(name) => Ok(
                EntryHeaderView {
                    length: be_u32(e, 0x0),
                    mdl0_offset: be_i32(e, 0x4),
                    data_offset: be_i32(e, 0x8),
                    name_offset,
                    name,
                    index: be_u32(e, 0x10),
                    is_3d: be_u32(e, 0x14) == 1,
                    format: be_u32(e, 0x18),
                    divisor: e[0x1C],
                    stride: e[0x1D],
                    vertex_count: be_u16(e, 0x1E),
                    bounding_volume_min: be_vec3(e, 0x20),
                    bounding_volume_max: be_vec3(e, 0x2C),
                },
            ),
        }
    }
}

impl EntryHeader {
    /// Reads the vertex array header at `offset`.
    pub fn new(brres: RawBrres, offset: usize) -> (r: Result<Self, ParseError>)
        ensures
            crate::common::result_view(r) == spec_vertex_entry(brres@, offset as int),
    {
        let ctx = Part::VertexEntry;
        let data = match brres.slice(offset, 0x38) {
            Some(d) => d,
            None => return Err(ParseError::OutOfBounds(ctx)),
        };
        let length: u32 = read(data, 0x0, ctx)?;
        let mdl0_offset: i32 = read(data, 0x4, ctx)?;
        let data_offset: i32 = read(data, 0x8, ctx)?;
        let name_offset: i32 = read(data, 0xC, ctx)?;
        if name_offset < 0 {
            return Err(ParseError::OutOfBounds(ctx));
        }
        let name: VariableString = read(data, name_offset as usize, ctx)?;
        let index: u32 = read(data, 0x10, ctx)?;
        let is_3d = read::<u32>(data, 0x14, ctx)? == 0x1;
        let format: u32 = read(data, 0x18, ctx)?;
        let divisor: u8 = read(data, 0x1C, ctx)?;
        let stride: u8 = read(data, 0x1D, ctx)?;
        let vertex_count: u16 = read(data, 0x1E, ctx)?;
        let bounding_volume_min: Vec3 = read(data, 0x20, ctx)?;
        let bounding_volume_max: Vec3 = read(data, 0x2C, ctx)?;
        Ok(
            EntryHeader {
                length,
                mdl0_offset,
                data_offset,
                name_offset,
                name,
                index,
                is_3d,
                format,
                divisor,
                stride,
                vertex_count,
                bounding_volume_min,
                bounding_volume_max,
            },
        )
    }
}

/// A vertex array header is read exactly where its 0x38 bytes lie inside
/// the archive, the offset of its name (bytes 0xC..0x10, signed) leaves room
/// for the name's length before it, and the name, of the length written in
/// the four bytes before it, lies inside the header and is valid UTF-8. It
/// holds the numbers that its bytes write big-endian (two's complement for
/// the signed offsets) at their places.
pub proof fn lemma_vertex_entry_fields(d: Seq<u8>, offset: int)
    ensures
        spec_vertex_entry(d, offset) matches Ok(e) ==> {
            let no = e.name_offset as int;
            let len = big_endian(d, offset + no - 4, 4) as int;
            &&& 0 <= offset && offset + 0x38 <= d.len()
            &&& e.length == big_endian(d, offset, 4)
            &&& e.mdl0_offset == twos_complement(big_endian(d, offset + 4, 4), 4)
            &&& e.data_offset == twos_complement(big_endian(d, offset + 8, 4), 4)
            &&& e.name_offset == twos_complement(big_endian(d, offset + 0xC, 4), 4)
            &&& 4 <= no && no + len <= 0x38
            &&& e.name.length == len
            &&& valid_utf8(d.subrange(offset + no, offset + no + len))
            &&& e.name.string == decode_utf8(d.subrange(offset + no, offset + no + len))
            &&& e.index == big_endian(d, offset + 0x10, 4)
            &&& e.is_3d == (big_endian(d, offset + 0x14, 4) == 1)
            &&& e.format == big_endian(d, offset + 0x18, 4)
            &&& e.divisor == d[offset + 0x1C]
            &&& e.stride == d[offset + 0x1D]
            &&& e.vertex_count == big_endian(d, offset + 0x1E, 2)
        },
        0 <= offset && offset + 0x38 <= d.len() && twos_complement(big_endian(d, offset + 0xC, 4), 4)
            < 4 ==> spec_vertex_entry(d, offset) == Err::<EntryHeaderView, ParseError>(
            ParseError::OutOfBounds(Part::VertexEntry),
        ),
        !(0 <= offset && offset + 0x38 <= d.len()) ==> spec_vertex_entry(d, offset) == Err::<
            EntryHeaderView,
            ParseError,
        >(ParseError::OutOfBounds(Part::VertexEntry)),
{
    if in_range(d, offset, 0x38) {
        let b = offset + 0x38;
        let e = d.subrange(offset, b);
        lemma_big_endian_values(e, 0);
        lemma_big_endian_values(e, 4);
        lemma_big_endian_values(e, 8);
        lemma_big_endian_values(e, 0xC);
        lemma_big_endian_values(e, 0x10);
        lemma_big_endian_values(e, 0x14);
        lemma_big_endian_values(e, 0x18);
        lemma_big_endian_values(e, 0x1E);
        lemma_big_endian_subrange(d, offset, b, 0, 4);
        lemma_big_endian_subrange(d, offset, b, 4, 4);
        lemma_big_endian_subrange(d, offset, b, 8, 4);
        lemma_big_endian_subrange(d, offset, b, 0xC, 4);
        lemma_big_endian_subrange(d, offset, b, 0x10, 4);
        lemma_big_endian_subrange(d, offset, b, 0x14, 4);
        lemma_big_endian_subrange(d, offset, b, 0x18, 4);
        lemma_big_endian_subrange(d, offset, b, 0x1E, 2);
        let no = be_i32(e, 0xC) as int;
        if 4 <= no <= 0x38 {
            lemma_big_endian_values(e, no - 4);
            lemma_big_endian_subrange(d, offset, b, no - 4, 4);
            let len = be_u32(e, no - 4) as int;
            if no + len <= 0x38 {
                assert(e.subrange(no, no + len) =~= d.subrange(offset + no, offset + no + len));
            }
        }
    }
}

/// The bounding volume of a vertex array is the two vectors whose
/// coordinates its bytes 0x20..0x38 write big-endian.
pub proof fn lemma_vertex_entry_volume(d: Seq<u8>, offset: int)
    ensures
        spec_vertex_entry(d, offset) matches Ok(e) ==> {
            &&& e.bounding_volume_min.x == big_endian(d, offset + 0x20, 4)
            &&& e.bounding_volume_min.y == big_endian(d, offset + 0x24, 4)
            &&& e.bounding_volume_min.z == big_endian(d, offset + 0x28, 4)
            &&& e.bounding_volume_max.x == big_endian(d, offset + 0x2C, 4)
            &&& e.bounding_volume_max.y == big_endian(d, offset + 0x30, 4)
            &&& e.bounding_volume_max.z == big_endian(d, offset + 0x34, 4)
        },
{
    if let Ok(v) = spec_vertex_entry(d, offset) {
        let b = offset + 0x38;
        let e = d.subrange(offset, b);
        assert(v.bounding_volume_min == be_vec3(e, 0x20));
        assert(v.bounding_volume_max == be_vec3(e, 0x2C));
        lemma_vec3_fields(e, 0x20);
        lemma_vec3_fields(e, 0x2C);
        lemma_big_endian_subrange(d, offset, b, 0x20, 4);
        lemma_big_endian_subrange(d, offset, b, 0x24, 4);
        lemma_big_endian_subrange(d, offset, b, 0x28, 4);
        lemma_big_endian_subrange(d, offset, b, 0x2C, 4);
        lemma_big_endian_subrange(d, offset, b, 0x30, 4);
        lemma_big_endian_subrange(d, offset, b, 0x34, 4);
    }
}

} // verus!
