//! Sub-files: the header that every sub-file (model, texture, animation, ...)
//! starts with, and the reading of the sub-file kinds that are supported.
use vstd::prelude::*;
use vstd::utf8::{decode_utf8, encode_utf8, valid_utf8};

use crate::common::{
    be_u32, big_endian, in_range, lemma_be_u32_subrange, lemma_big_endian_values,
    lemma_utf8_chars_iff_encoding, read, section_magic, read_be_u32, result_view, spec_section_count, spec_section_type,
    spec_variable_string, utf8_chars, ParseError, Part, SectionType, VariableString,
};
use crate::index_group::{spec_index_header, IndexHeader};
use crate::mdl0::{spec_mdl0, spec_mdl0_header, MDL0};
use crate::tex0::{spec_tex0, spec_tex0_header, Tex0View, TEX0};
use crate::RawBrres;

verus! {

/// The header of a sub-file: magic, length, format version, offset back to
/// the archive, then one offset per section of the sub-file and the offset
/// of the sub-file's name (both relative to the start of the sub-file).
pub struct Header {
    pub header_length: usize,
    pub section_type: SectionType,
    pub length: u32,
    pub version: u32,
    pub out_brres_off: u32,
    pub num_section_offsets: u32,
    pub section_offsets: Vec<u32>,
    pub name: String,
    pub file_off: usize,
}

/// What a sub-file [`Header`] holds, as plain values.
pub struct HeaderView {
    pub header_length: usize,
    pub section_type: SectionType,
    pub length: u32,
    pub version: u32,
    pub out_brres_off: u32,
    pub num_section_offsets: u32,
    pub section_offsets: Seq<u32>,
    pub name: Seq<char>,
    pub file_off: usize,
}

impl View for Header {
    type V = HeaderView;

    open spec fn view(&self) -> HeaderView {
        HeaderView {
            header_length: self.header_length,
            section_type: self.section_type,
            length: self.length,
            version: self.version,
            out_brres_off: self.out_brres_off,
            num_section_offsets: self.num_section_offsets,
            section_offsets: self.section_offsets@,
            name: self.name@,
            file_off: self.file_off,
        }
    }
}

/// The sub-file header at `offset` of the archive `d`.
pub open spec fn spec_subfile_header(d: Seq<u8>, offset: int) -> Result<HeaderView, ParseError> {
    if !in_range(d, offset, 0x10) {
        Err(ParseError::OutOfBounds(Part::SubFileHeader))
    } else {
        match utf8_chars(d.subrange(offset, offset + 4)) {
            None => Err(ParseError::InvalidUtf8(Part::SubFileHeader)),
            Some(magic) => match spec_section_type(magic) {
                None => Err(ParseError::BadMagic(Part::SubFileHeader)),
                Some(t) => {
                    let version = be_u32(d, offset + 0x8);
                    let num = spec_section_count(t, version);
                    let sections = offset + 0x10;
                    if !in_range(d, sections, num * 4 + 4) {
                        Err(ParseError::OutOfBounds(Part::SubFileHeader))
                    } else {
                        let rel_name_off = be_u32(d, sections + num * 4);
                        match spec_variable_string(d, offset + rel_name_off, Part::SubFileHeader) {
                            Err(e) => Err(e),
                            Ok(name) => Ok(
                                HeaderView {
                                    header_length: (num * 4 + 0x14) as usize,
                                    section_type: t,
                                    length: be_u32(d, offset + 0x4),
                                    version,
                                    out_brres_off: be_u32(d, offset + 0xC),
                                    num_section_offsets: num,
                                    section_offsets: Seq::new(
                                        num as nat,
                                        |n: int| be_u32(d, sections + n * 4),
                                    ),
                                    name: name.string,
                                    file_off: offset as usize,
                                },
                            ),
                        }
                    }
                },
            },
        }
    }
}

impl Header {
    /// Reads the sub-file header at `offset`.
    pub fn new(brres: RawBrres, offset: usize) -> (r: Result<Self, ParseError>)
        ensures
            result_view(r) == spec_subfile_header(brres@, offset as int),
    {
        let ctx = Part::SubFileHeader;
        let data = match brres.slice(offset, 0x10) {
            Some(d) => d,
            None => return Err(ParseError::OutOfBounds(ctx)),
        };
        proof {
            brres.lemma_len();
            assert(data@.subrange(0, 4) =~= brres@.subrange(offset as int, offset + 4));
        }
        let magic: String = read(data, 0, ctx)?;
        let section_type = SectionType::str_to_type(magic)?;
        let length = read_be_u32(data, 0x4);
        let version = read_be_u32(data, 0x8);
        let out_brres_off = read_be_u32(data, 0xC);
        let num_section_offsets = section_type.get_section_count(version);
        let section_data_size: usize = (num_section_offsets as usize) * 4 + 4;
        let sections_start = offset + 0x10;
        let sections = match brres.slice(sections_start, section_data_size) {
            Some(d) => d,
            None => return Err(ParseError::OutOfBounds(ctx)),
        };
        let ghost d = brres@;
        let mut section_offsets: Vec<u32> = Vec::new();
        let mut n: u32 = 0;
        while n < num_section_offsets
            invariant
                n <= num_section_offsets,
                num_section_offsets <= 14,
                sections.len() == section_data_size,
                in_range(d, sections_start as int, section_data_size as int),
                sections@ == d.subrange(sections_start as int, sections_start + section_data_size),
                section_data_size == num_section_offsets * 4 + 4,
                section_offsets@ == Seq::new(
                    n as nat,
                    |i: int| be_u32(d, sections_start + i * 4),
                ),
            decreases num_section_offsets - n,
        {
            let off = read_be_u32(sections, (n as usize) * 4);
            proof {
                lemma_be_u32_subrange(
                    d,
                    sections_start as int,
                    sections_start + section_data_size,
                    n * 4,
                );
            }
            section_offsets.push(off);
            n = n + 1;
            proof {
                assert(section_offsets@ =~= Seq::new(
                    n as nat,
                    |i: int| be_u32(d, sections_start + i * 4),
                ));
            }
        }
        let rel_name_off = read_be_u32(sections, (num_section_offsets as usize) * 4);
        let name_off = match offset.checked_add(rel_name_off as usize) {
            Some(o) => o,
            None => {
                proof {
                    brres.lemma_len();
                }
                return Err(ParseError::OutOfBounds(ctx));
            },
        };
        let name: VariableString = read(brres.bytes(), name_off, ctx)?;
        Ok(
            Header {
                header_length: (num_section_offsets as usize) * 4 + 0x14,
                section_type,
                length,
                version,
                out_brres_off,
                num_section_offsets,
                section_offsets,
                name: name.string,
                file_off: offset,
            },
        )
    }
}

/// The content of a sub-file, once generated.
pub enum SubFileData {
    Mdl0(MDL0),
    Tex0(TEX0),
    Unsupported,
}

/// What a [`SubFileData`] holds, as plain values.
pub enum SubFileDataView {
    Mdl0(MDL0),
    Tex0(Tex0View),
    Unsupported,
}

impl View for SubFileData {
    type V = SubFileDataView;

    open spec fn view(&self) -> SubFileDataView {
        match self {
            SubFileData::Mdl0(m) => SubFileDataView::Mdl0(*m),
            SubFileData::Tex0(t) => SubFileDataView::Tex0(t@),
            SubFileData::Unsupported => SubFileDataView::Unsupported,
        }
    }
}

/// A sub-file: its header, and its content once generated.
pub struct SubFile {
    pub header: Header,
    pub file: Option<SubFileData>,
}

/// What a [`SubFile`] holds, as plain values.
pub struct SubFileView {
    pub header: HeaderView,
    pub file: Option<SubFileDataView>,
}

impl View for SubFile {
    type V = SubFileView;

    open spec fn view(&self) -> SubFileView {
        SubFileView {
            header: self.header@,
            file: match self.file {
                Some(f) => Some(f@),
                None => None,
            },
        }
    }
}

/// The content of the sub-file with header `h`: a model or a texture is read
/// after the header; for a model the index group of its vertex arrays (its
/// third section) must parse as well; other kinds are not read.
pub open spec fn spec_generate(h: HeaderView, d: Seq<u8>) -> Result<SubFileDataView, ParseError> {
    match h.section_type {
        SectionType::MDL0 => match spec_mdl0(d, h.file_off as int, h.header_length as int) {
            Err(e) => Err(e),
            Ok(m) => if h.section_offsets.len() < 3 {
                Err(ParseError::MissingSection(Part::SubFileHeader))
            } else {
                match spec_index_header(
                    d,
                    h.file_off + h.section_offsets[2],
                    Seq::empty(),
                ) {
                    Err(e) => Err(e),
                    Ok(_) => Ok(SubFileDataView::Mdl0(m)),
                }
            },
        },
        SectionType::TEX0 => match spec_tex0(d, h.file_off as int, h.header_length as int) {
            Err(e) => Err(e),
            Ok(t) => Ok(SubFileDataView::Tex0(t)),
        },
        _ => Ok(SubFileDataView::Unsupported),
    }
}

/// The content that a sub-file with header `h` and content `old` holds
/// after generation, whether it succeeded or not: a model is stored as soon
/// as its header is read, before its vertex group is checked.
pub open spec fn spec_file_after_generate(
    h: HeaderView,
    d: Seq<u8>,
    old: Option<SubFileDataView>,
) -> Option<SubFileDataView> {
    match h.section_type {
        SectionType::MDL0 => match spec_mdl0(d, h.file_off as int, h.header_length as int) {
            Err(_) => old,
            Ok(m) => Some(SubFileDataView::Mdl0(m)),
        },
        SectionType::TEX0 => match spec_tex0(d, h.file_off as int, h.header_length as int) {
            Err(_) => old,
            Ok(t) => Some(SubFileDataView::Tex0(t)),
        },
        _ => Some(SubFileDataView::Unsupported),
    }
}

impl SubFile {
    /// Reads the header of the sub-file at `offset`; its content is left
    /// to [`SubFile::generate_subfile`].
    pub fn new(brres: RawBrres, offset: usize) -> (r: Result<Self, ParseError>)
        ensures
            result_view(r) == match spec_subfile_header(brres@, offset as int) {
                Ok(h) => Ok(SubFileView { header: h, file: None }),
                Err(e) => Err(e),
            },
    {
        let header = Header::new(brres, offset)?;
        Ok(SubFile { header, file: None })
    }

    fn create_mdl0(&mut self, brres: RawBrres) -> (r: Result<(), ParseError>)
        requires
            old(self).header.section_type == SectionType::MDL0,
        ensures
            final(self).header == old(self).header,
            final(self)@.file == spec_file_after_generate(old(self)@.header, brres@, old(self)@.file),
            r == match spec_generate(old(self)@.header, brres@) {
                Ok(_) => Ok::<(), ParseError>(()),
                Err(e) => Err(e),
            },
    {
        let mdl0 = MDL0::new(brres, self.header.file_off, self.header.header_length)?;
        self.file = Some(SubFileData::Mdl0(mdl0));
        if self.header.section_offsets.len() < 3 {
            return Err(ParseError::MissingSection(Part::SubFileHeader));
        }
        let start = match self.header.file_off.checked_add(self.header.section_offsets[2] as usize) {
            Some(s) => s,
            None => {
                proof {
                    brres.lemma_len();
                }
                return Err(ParseError::OutOfBounds(Part::IndexHeader));
            },
        };
        let _verts_index_group = IndexHeader::new(brres, start)?;
        Ok(())
    }

    fn create_tex0(&mut self, brres: RawBrres) -> (r: Result<(), ParseError>)
        requires
            old(self).header.section_type == SectionType::TEX0,
        ensures
            final(self).header == old(self).header,
            final(self)@.file == spec_file_after_generate(old(self)@.header, brres@, old(self)@.file),
            r == match spec_generate(old(self)@.header, brres@) {
                Ok(_) => Ok::<(), ParseError>(()),
                Err(e) => Err(e),
            },
    {
        let tex0 = TEX0::new(brres, self.header.file_off, self.header.header_length)?;
        self.file = Some(SubFileData::Tex0(tex0));
        Ok(())
    }

    /// Reads the content of the sub-file: a model or a texture; other kinds
    /// are marked unsupported.
    pub fn generate_subfile(&mut self, brres: RawBrres) -> (r: Result<(), ParseError>)
        ensures
            final(self).header == old(self).header,
            final(self)@.file == spec_file_after_generate(old(self)@.header, brres@, old(self)@.file),
            r == match spec_generate(old(self)@.header, brres@) {
                Ok(_) => Ok::<(), ParseError>(()),
                Err(e) => Err(e),
            },
            r is Ok ==> final(self)@.file == Some(spec_generate(old(self)@.header, brres@)->Ok_0),
    {
        match self.header.section_type {
            SectionType::MDL0 => self.create_mdl0(brres),
            SectionType::TEX0 => self.create_tex0(brres),
            _ => {
                self.file = Some(SubFileData::Unsupported);
                Ok(())
            },
        }
    }
}

/// A sub-file header read from an archive starts with the UTF-8 encoding of
/// its kind's magic, lists as many section offsets as its kind and version
/// call for, and its length covers exactly those offsets.
pub proof fn lemma_subfile_header_shape(d: Seq<u8>, offset: int)
    requires
        d.len() <= usize::MAX,
    ensures
        spec_subfile_header(d, offset) matches Ok(h) ==> {
            &&& d.subrange(offset, offset + 4) == encode_utf8(section_magic(h.section_type))
            &&& h.num_section_offsets == spec_section_count(h.section_type, h.version)
            &&& h.section_offsets.len() == h.num_section_offsets
            &&& h.header_length == 4 * h.num_section_offsets + 0x14
            &&& h.file_off == offset
        },
{
    if let Ok(h) = spec_subfile_header(d, offset) {
        lemma_utf8_chars_iff_encoding(d.subrange(offset, offset + 4), section_magic(h.section_type));
    }
}

/// The content generated for a sub-file is of the kind its header names:
/// a model for `MDL0`, a texture for `TEX0`, and no content for the others.
pub proof fn lemma_generate_kind(h: HeaderView, d: Seq<u8>)
    ensures
        spec_generate(h, d) matches Ok(x) ==> match x {
            SubFileDataView::Mdl0(_) => h.section_type == SectionType::MDL0,
            SubFileDataView::Tex0(_) => h.section_type == SectionType::TEX0,
            SubFileDataView::Unsupported => h.section_type != SectionType::MDL0
                && h.section_type != SectionType::TEX0,
        },
{
}

/// Generating a model stores it as soon as its header is read, whether or
/// not the rest succeeds; a model that lists its vertex section then fails
/// exactly with the error of reading the vertex group there (the group read
/// is dropped), and one that does not list it fails with `MissingSection`.
pub proof fn lemma_model_generation(h: HeaderView, d: Seq<u8>, old: Option<SubFileDataView>)
    requires
        h.section_type == SectionType::MDL0,
    ensures
        match spec_mdl0(d, h.file_off as int, h.header_length as int) {
            Err(e) => spec_generate(h, d) == Err::<SubFileDataView, ParseError>(e)
                && spec_file_after_generate(h, d, old) == old,
            Ok(m) => {
                &&& spec_file_after_generate(h, d, old) == Some(SubFileDataView::Mdl0(m))
                &&& h.section_offsets.len() < 3 ==> spec_generate(h, d) == Err::<
                    SubFileDataView,
                    ParseError,
                >(ParseError::MissingSection(Part::SubFileHeader))
                &&& h.section_offsets.len() >= 3 ==> match spec_index_header(
                    d,
                    h.file_off + h.section_offsets[2],
                    Seq::empty(),
                ) {
                    Ok(_) => spec_generate(h, d) == Ok::<SubFileDataView, ParseError>(
                        SubFileDataView::Mdl0(m),
                    ),
                    Err(e) => spec_generate(h, d) == Err::<SubFileDataView, ParseError>(e),
                }
            },
        },
{
}

/// A sub-file header holds the numbers that its bytes write big-endian:
/// length at 4, version at 8, offset back to the archive at 0xC, then one
/// section offset per four bytes from 0x10 on; the name is the UTF-8 text,
/// of the length written in the four bytes before it, at the offset written
/// after the section offsets (counted from the start of the sub-file).
pub proof fn lemma_subfile_header_fields(d: Seq<u8>, offset: int)
    ensures
        spec_subfile_header(d, offset) matches Ok(h) ==> {
            let num = h.num_section_offsets as int;
            let name_off = offset + big_endian(d, offset + 0x10 + 4 * num, 4);
            let len = big_endian(d, name_off - 4, 4) as int;
            &&& 0 <= offset && offset + 0x10 + 4 * num + 4 <= d.len()
            &&& h.length == big_endian(d, offset + 4, 4)
            &&& h.version == big_endian(d, offset + 8, 4)
            &&& h.out_brres_off == big_endian(d, offset + 0xC, 4)
            &&& h.section_offsets.len() == num
            &&& (forall|n: int|
                0 <= n < num ==> #[trigger] h.section_offsets[n] == big_endian(
                    d,
                    offset + 0x10 + 4 * n,
                    4,
                ))
            &&& 4 <= name_off && name_off + len <= d.len()
            &&& valid_utf8(d.subrange(name_off, name_off + len))
            &&& h.name == decode_utf8(d.subrange(name_off, name_off + len))
        },
{
    if let Ok(h) = spec_subfile_header(d, offset) {
        let num = h.num_section_offsets as int;
        lemma_big_endian_values(d, offset + 4);
        lemma_big_endian_values(d, offset + 8);
        lemma_big_endian_values(d, offset + 0xC);
        lemma_big_endian_values(d, offset + 0x10 + 4 * num);
        let name_off = offset + big_endian(d, offset + 0x10 + 4 * num, 4);
        lemma_big_endian_values(d, name_off - 4);
        assert forall|n: int| 0 <= n < num implies #[trigger] h.section_offsets[n] == big_endian(
            d,
            offset + 0x10 + 4 * n,
            4,
        ) by {
            lemma_big_endian_values(d, offset + 0x10 + 4 * n);
        }
    }
}

/// The content generated for a model or a texture is the header that lies
/// right after the sub-file header, which is four bytes per section offset
/// plus 0x14 long.
pub proof fn lemma_generate_content(h: HeaderView, d: Seq<u8>)
    ensures
        spec_generate(h, d) matches Ok(SubFileDataView::Mdl0(m)) ==> spec_mdl0_header(
            d,
            h.file_off + h.header_length,
        ) == Ok::<crate::mdl0::Header, ParseError>(m.header),
        spec_generate(h, d) matches Ok(SubFileDataView::Tex0(t)) ==> spec_tex0_header(
            d,
            h.file_off + h.header_length,
        ) == Ok::<crate::tex0::Header, ParseError>(t.header) && t.data.len() == 0,
{
}

/// A sub-file header fails with an out-of-bounds error where its sixteen
/// bytes are not inside the archive, with a UTF-8 error where its first four
/// bytes are not valid UTF-8, and with a bad magic where they are not the
/// magic of any kind of sub-file.
pub proof fn lemma_subfile_header_errors(d: Seq<u8>, offset: int)
    requires
        d.len() <= usize::MAX,
    ensures
        !(0 <= offset && offset + 0x10 <= d.len()) ==> spec_subfile_header(d, offset) == Err::<
            HeaderView,
            ParseError,
        >(ParseError::OutOfBounds(Part::SubFileHeader)),
        0 <= offset && offset + 0x10 <= d.len() && !valid_utf8(d.subrange(offset, offset + 4))
            ==> spec_subfile_header(d, offset) == Err::<HeaderView, ParseError>(
            ParseError::InvalidUtf8(Part::SubFileHeader),
        ),
        0 <= offset && offset + 0x10 <= d.len() && (forall|t: SectionType|
            d.subrange(offset, offset + 4) != #[trigger] encode_utf8(section_magic(t)))
            ==> spec_subfile_header(d, offset) is Err,
{
    if 0 <= offset && offset + 0x10 <= d.len() && (forall|t: SectionType|
        d.subrange(offset, offset + 4) != #[trigger] encode_utf8(section_magic(t))) {
        if let Ok(h) = spec_subfile_header(d, offset) {
            lemma_subfile_header_shape(d, offset);
            assert(d.subrange(offset, offset + 4) == encode_utf8(section_magic(h.section_type)));
        }
    }
}

} // verus!
