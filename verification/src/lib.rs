//! Reader for BRRES archives: the binary resource container of the Wii's
//! NintendoWare graphics runtime (models, textures, animations).
//!
//! An archive starts with a file header (magic `bres`), points to a root
//! header (magic `root`), and holds a tree of index groups: each group is a
//! binary search tree of named entries, and each entry points either to a
//! nested group (a folder) or to a sub-file such as a model or a texture.
//! All integers are big-endian.
use vstd::prelude::*;
use vstd::slice::*;

pub mod common;
pub mod mdl0;
pub mod tex0;
pub mod index_group;
pub mod subfile;

use crate::index_group::{
    all_generated, lemma_fill_entry, lemma_index_header_wf, skeleton, spec_fill_entry,
    spec_index_header, spec_subfiles, wf_entry, IndexHeader, IndexHeaderView,
};
use crate::common::{
    be_u16, be_u32, big_endian, chars_are, in_range, lemma_big_endian_values, lemma_ascii4_encoding, lemma_utf8_chars_iff_encoding, read, read_be_u16, read_be_u32, result_view, utf8_chars,
    Endian, ParseError, Part,
};

verus! {

/// The bytes of a whole archive. Every offset in the format is relative to
/// the start of these bytes (or to a structure inside them).
#[derive(Debug, Clone, Copy, PartialEq, Eq)]
pub struct RawBrres<'a> {
    data: &'a [u8],
}

impl<'a> View for RawBrres<'a> {
    type V = Seq<u8>;

    closed spec fn view(&self) -> Seq<u8> {
        self.data@
    }
}

impl<'a> RawBrres<'a> {
    /// Wraps the bytes of an archive.
    pub fn new(data: &'a [u8]) -> (r: Self)
        ensures
            r@ == data@,
    {
        Self { data }
    }

    /// An archive is no longer than the address space.
    pub proof fn lemma_len(&self)
        ensures
            self@.len() <= usize::MAX,
    {
        assert(self.data@.len() == self.data.len());
    }

    /// The bytes of the archive as a slice.
    pub fn bytes(&self) -> (r: &'a [u8])
        ensures
            r@ == self@,
    {
        self.data
    }

    /// The `size` bytes from `offset` on, if they lie inside the archive.
    pub fn slice(&self, offset: usize, size: usize) -> (r: Option<&'a [u8]>)
        ensures
            r is Some <==> in_range(self@, offset as int, size as int),
            r matches Some(s) ==> s@ == self@.subrange(offset as int, offset + size),
    {
        let len = self.data.len();
        if offset <= len && size <= len - offset {
            Some(slice_subrange(self.data, offset, offset + size))
        } else {
            None
        }
    }
}

/// Copies exactly sixteen bytes into an array.
fn to_array_16(s: &[u8]) -> (r: [u8; 16])
    requires
        s.len() == 16,
    ensures
        r@ == s@,
{
    let mut a = [0u8; 16];
    let mut i: usize = 0;
    while i < 16
        invariant
            i <= 16,
            s.len() == 16,
            forall|j: int| 0 <= j < i ==> a@[j] == s@[j],
        decreases 16 - i,
    {
        a[i] = s[i];
        i = i + 1;
    }
    assert(a@ =~= s@);
    a
}

/// Copies exactly eight bytes into an array.
fn to_array_8(s: &[u8]) -> (r: [u8; 8])
    requires
        s.len() == 8,
    ensures
        r@ == s@,
{
    let mut a = [0u8; 8];
    let mut i: usize = 0;
    while i < 8
        invariant
            i <= 8,
            s.len() == 8,
            forall|j: int| 0 <= j < i ==> a@[j] == s@[j],
        decreases 8 - i,
    {
        a[i] = s[i];
        i = i + 1;
    }
    assert(a@ =~= s@);
    a
}

/// The four characters of the file header's magic.
pub open spec fn bres_magic() -> Seq<char> {
    seq!['b', 'r', 'e', 's']
}

/// The four characters of the root header's magic.
pub open spec fn root_magic() -> Seq<char> {
    seq!['r', 'o', 'o', 't']
}

/// The first sixteen bytes of an archive.
pub struct FileHeader {
    pub magic: String,
    pub byte_order: Endian,
    pub file_size: u32,
    pub root_offset: u16,
    pub num_sections: u16,
}

/// What a [`FileHeader`] holds, as plain values.
pub struct FileHeaderView {
    pub magic: Seq<char>,
    pub byte_order: Endian,
    pub file_size: u32,
    pub root_offset: u16,
    pub num_sections: u16,
}

impl View for FileHeader {
    type V = FileHeaderView;

    open spec fn view(&self) -> FileHeaderView {
        FileHeaderView {
            magic: self.magic@,
            byte_order: self.byte_order,
            file_size: self.file_size,
            root_offset: self.root_offset,
            num_sections: self.num_sections,
        }
    }
}

/// The file header that the sixteen bytes `d` hold: magic `bres` at 0, byte
/// order mark at 4 (`FF FE` is little-endian, anything else big-endian), file
/// size at 8, offset of the root header at 12, number of sections at 14.
pub open spec fn spec_file_header(d: Seq<u8>) -> Result<FileHeaderView, ParseError> {
    match utf8_chars(d.subrange(0, 4)) {
        None => Err(ParseError::InvalidUtf8(Part::FileHeader)),
        Some(m) => if m != bres_magic() {
            Err(ParseError::BadMagic(Part::FileHeader))
        } else {
            Ok(
                FileHeaderView {
                    magic: m,
                    byte_order: if d[4] == 0xFF && d[5] == 0xFE {
                        Endian::Little
                    } else {
                        Endian::Big
                    },
                    file_size: be_u32(d, 8),
                    root_offset: be_u16(d, 12),
                    num_sections: be_u16(d, 14),
                },
            )
        },
    }
}

impl FileHeader {
    /// Reads the file header from the first sixteen bytes of an archive.
    pub fn new(data: &[u8; 16]) -> (r: Result<Self, ParseError>)
        ensures
            result_view(r) == spec_file_header(data@),
    {
        let d = data.as_slice();
        let magic: String = read(d, 0, Part::FileHeader)?;
        if !chars_are(magic.as_str(), 'b', 'r', 'e', 's') {
            return Err(ParseError::BadMagic(Part::FileHeader));
        }
        let byte_order = if d[4] == 0xFF && d[5] == 0xFE {
            Endian::Little
        } else {
            Endian::Big
        };
        let file_size = read_be_u32(d, 8);
        let root_offset = read_be_u16(d, 12);
        let num_sections = read_be_u16(d, 14);
        Ok(FileHeader { magic, byte_order, file_size, root_offset, num_sections })
    }
}

/// The header of the root folder: magic `root`, then the byte length of the
/// root section.
pub struct RootHeader {
    pub magic: String,
    pub len_sections: u32,
    pub offset: usize,
}

/// What a [`RootHeader`] holds, as plain values.
pub struct RootHeaderView {
    pub magic: Seq<char>,
    pub len_sections: u32,
    pub offset: usize,
}

impl View for RootHeader {
    type V = RootHeaderView;

    open spec fn view(&self) -> RootHeaderView {
        RootHeaderView { magic: self.magic@, len_sections: self.len_sections, offset: self.offset }
    }
}

/// The root header that the eight bytes `d`, found at `offset`, hold.
pub open spec fn spec_root_header(d: Seq<u8>, offset: usize) -> Result<RootHeaderView, ParseError> {
    match utf8_chars(d.subrange(0, 4)) {
        None => Err(ParseError::InvalidUtf8(Part::RootHeader)),
        Some(m) => if m != root_magic() {
            Err(ParseError::BadMagic(Part::RootHeader))
        } else {
            Ok(RootHeaderView { magic: m, len_sections: be_u32(d, 4), offset })
        },
    }
}

impl RootHeader {
    /// Reads the root header from its eight bytes, found at `offset`.
    pub fn new(data: &[u8; 8], offset: usize) -> (r: Result<Self, ParseError>)
        ensures
            result_view(r) == spec_root_header(data@, offset),
    {
        let d = data.as_slice();
        let magic: String = read(d, 0, Part::RootHeader)?;
        if !chars_are(magic.as_str(), 'r', 'o', 'o', 't') {
            return Err(ParseError::BadMagic(Part::RootHeader));
        }
        let len_sections = read_be_u32(d, 4);
        Ok(RootHeader { magic, len_sections, offset })
    }
}

/// A whole archive: its file header, its root header, and the tree of its
/// root folder with the content of every sub-file generated.
pub struct Brres {
    pub file_header: FileHeader,
    pub root_header: RootHeader,
    pub index: IndexHeader,
}

/// What a [`Brres`] holds, as plain values.
pub struct BrresView {
    pub file_header: FileHeaderView,
    pub root_header: RootHeaderView,
    pub index: IndexHeaderView,
}

impl View for Brres {
    type V = BrresView;

    open spec fn view(&self) -> BrresView {
        BrresView { file_header: self.file_header@, root_header: self.root_header@, index: self.index@ }
    }
}

/// The archive that `d` holds: the file header in the first sixteen bytes;
/// the root header at the offset that it names; the root folder's group
/// right after the root header; then the content of every sub-file of the
/// tree, in the order of [`crate::index_group::spec_subfiles`].
pub open spec fn spec_parse_brres(d: Seq<u8>) -> Result<BrresView, ParseError> {
    if !in_range(d, 0, 16) {
        Err(ParseError::OutOfBounds(Part::FileHeader))
    } else {
        match spec_file_header(d.subrange(0, 16)) {
            Err(e) => Err(e),
            Ok(file_header) => {
                let ro = file_header.root_offset as int;
                if !in_range(d, ro, 8) {
                    Err(ParseError::OutOfBounds(Part::RootHeader))
                } else {
                    match spec_root_header(d.subrange(ro, ro + 8), ro as usize) {
                        Err(e) => Err(e),
                        Ok(root_header) => match spec_index_header(d, ro + 8, Seq::empty()) {
                            Err(e) => Err(e),
                            Ok(index) => match spec_fill_entry(index.root, d) {
                                Err(e) => Err(e),
                                Ok(root) => Ok(
                                    BrresView {
                                        file_header,
                                        root_header,
                                        index: IndexHeaderView { root, ..index },
                                    },
                                ),
                            },
                        },
                    }
                }
            },
        }
    }
}

/// Reads a whole archive from its bytes.
pub fn parse_brres(data: &[u8]) -> (r: Result<Brres, ParseError>)
    ensures
        result_view(r) == spec_parse_brres(data@),
{
    let brres = RawBrres::new(data);
    let file_header_data = match brres.slice(0, 0x10) {
        Some(d) => to_array_16(d),
        None => return Err(ParseError::OutOfBounds(Part::FileHeader)),
    };
    let file_header = FileHeader::new(&file_header_data)?;
    let root_offset = file_header.root_offset as usize;
    let root_header_data = match brres.slice(root_offset, 0x8) {
        Some(d) => to_array_8(d),
        None => return Err(ParseError::OutOfBounds(Part::RootHeader)),
    };
    let root_header = RootHeader::new(&root_header_data, root_offset)?;
    let index = IndexHeader::new(brres, root_header.offset + 0x8)?;
    let IndexHeader { len_group, num_group, root, offset } = index;
    let root = root.fill_subfiles(brres)?;
    Ok(
        Brres {
            file_header,
            root_header,
            index: IndexHeader { len_group, num_group, root, offset },
        },
    )
}

/// An archive is read only where its first four bytes are the ASCII letters
/// `bres`, and it is little-endian exactly where the next two bytes are
/// `FF FE`.
pub proof fn lemma_file_header_magic(d: Seq<u8>)
    requires
        d.len() == 16,
    ensures
        spec_file_header(d) is Ok <==> d.subrange(0, 4) == seq![0x62u8, 0x72u8, 0x65u8, 0x73u8],
        spec_file_header(d) matches Ok(h) ==> (h.byte_order == Endian::Little <==> (d[4] == 0xFF
            && d[5] == 0xFE)),
{
    lemma_utf8_chars_iff_encoding(d.subrange(0, 4), bres_magic());
    lemma_ascii4_encoding('b', 'r', 'e', 's');
}

/// A root header is read only where its first four bytes are the ASCII
/// letters `root`.
pub proof fn lemma_root_header_magic(d: Seq<u8>, offset: usize)
    requires
        d.len() == 8,
    ensures
        spec_root_header(d, offset) is Ok <==> d.subrange(0, 4) == seq![0x72u8, 0x6Fu8, 0x6Fu8, 0x74u8],
{
    lemma_utf8_chars_iff_encoding(d.subrange(0, 4), root_magic());
    lemma_ascii4_encoding('r', 'o', 'o', 't');
}

/// An archive that reads successfully has a well-formed tree (see
/// [`wf_entry`]) below a root entry, every sub-file of which holds the
/// content that its header gives; apart from that content, the tree is the
/// root folder's group exactly as it is read.
pub proof fn lemma_parse_brres(d: Seq<u8>)
    ensures
        spec_parse_brres(d) matches Ok(b) ==> {
            &&& b.index.root.root
            &&& wf_entry(b.index.root)
            &&& all_generated(spec_subfiles(b.index.root), d)
            &&& spec_index_header(d, b.file_header.root_offset + 8, Seq::empty()) matches Ok(
                group,
            ) && skeleton(b.index.root) == skeleton(group.root)
        },
{
    if in_range(d, 0, 16) {
        if let Ok(file_header) = spec_file_header(d.subrange(0, 16)) {
            let ro = file_header.root_offset as int;
            lemma_index_header_wf(d, ro + 8, Seq::empty());
            if let Ok(group) = spec_index_header(d, ro + 8, Seq::empty()) {
                lemma_fill_entry(group.root, d);
            }
        }
    }
}

/// The file header holds the numbers that its bytes write big-endian: the
/// file size at 8..12, the root header's offset at 12..14, the number of
/// sections at 14..16, with magic `bres`.
pub proof fn lemma_file_header_fields(d: Seq<u8>)
    requires
        d.len() == 16,
    ensures
        spec_file_header(d) matches Ok(h) ==> {
            &&& h.magic == seq!['b', 'r', 'e', 's']
            &&& h.file_size == big_endian(d, 8, 4)
            &&& h.root_offset == big_endian(d, 12, 2)
            &&& h.num_sections == big_endian(d, 14, 2)
        },
{
    lemma_big_endian_values(d, 8);
    lemma_big_endian_values(d, 12);
    lemma_big_endian_values(d, 14);
}

/// The root header holds, with magic `root`, the number that its bytes 4..8
/// write big-endian, and the offset it was found at.
pub proof fn lemma_root_header_fields(d: Seq<u8>, offset: usize)
    requires
        d.len() == 8,
    ensures
        spec_root_header(d, offset) matches Ok(h) ==> {
            &&& h.magic == seq!['r', 'o', 'o', 't']
            &&& h.len_sections == big_endian(d, 4, 4)
            &&& h.offset == offset
        },
{
    lemma_big_endian_values(d, 4);
}

/// An archive that reads successfully carries the numbers its first bytes
/// write: its size at 8..12 and the offset of its root header at 12..14;
/// the root header found there is named `root` and gives the length of the
/// root section in its bytes 4..8; the root folder's group follows the root
/// header.
pub proof fn lemma_parse_brres_headers(d: Seq<u8>)
    ensures
        spec_parse_brres(d) matches Ok(b) ==> {
            let ro = big_endian(d, 12, 2) as int;
            &&& d.len() >= 16
            &&& d.subrange(0, 4) == seq![0x62u8, 0x72u8, 0x65u8, 0x73u8]
            &&& b.file_header.file_size == big_endian(d, 8, 4)
            &&& b.file_header.root_offset == ro
            &&& b.file_header.num_sections == big_endian(d, 14, 2)
            &&& ro + 8 <= d.len()
            &&& d.subrange(ro, ro + 4) == seq![0x72u8, 0x6Fu8, 0x6Fu8, 0x74u8]
            &&& b.root_header.len_sections == big_endian(d, ro + 4, 4)
            &&& b.root_header.offset == ro
            &&& b.index.offset == ro + 8
        },
{
    if in_range(d, 0, 16) {
        let h = d.subrange(0, 16);
        lemma_file_header_magic(h);
        lemma_file_header_fields(h);
        assert(h.subrange(0, 4) =~= d.subrange(0, 4));
        assert(big_endian(h, 8, 4) == big_endian(d, 8, 4)) by {
            reveal_with_fuel(big_endian, 5);
        }
        assert(big_endian(h, 12, 2) == big_endian(d, 12, 2)) by {
            reveal_with_fuel(big_endian, 3);
        }
        assert(big_endian(h, 14, 2) == big_endian(d, 14, 2)) by {
            reveal_with_fuel(big_endian, 3);
        }
        if let Ok(fh) = spec_file_header(h) {
            let ro = fh.root_offset as int;
            if in_range(d, ro, 8) {
                let r = d.subrange(ro, ro + 8);
                lemma_root_header_magic(r, ro as usize);
                lemma_root_header_fields(r, ro as usize);
                assert(r.subrange(0, 4) =~= d.subrange(ro, ro + 4));
                assert(big_endian(r, 4, 4) == big_endian(d, ro + 4, 4)) by {
                    reveal_with_fuel(big_endian, 5);
                }
                if let Ok(group) = spec_index_header(d, ro + 8, Seq::empty()) {
                    assert(group.offset == ro + 8);
                }
            }
        }
    }
}

} // verus!
