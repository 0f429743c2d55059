use brres::common::{ParseError, Part, SectionType};
use brres::index_group::{EntryLine, IndexEntry, IndexHeader};
use brres::mdl0::vertices::EntryHeader;
use brres::mdl0::MDL0;
use brres::subfile::{SubFile, SubFileData};
use brres::tex0::TEX0;
use brres::{parse_brres, FileHeader, RawBrres, RootHeader};
use brres::common::Endian;

/// A byte buffer written at fixed places, big-endian.
struct Buf(Vec<u8>);

impl Buf {
    fn new(len: usize) -> Buf {
        Buf(vec![0; len])
    }
    fn u16(&mut self, at: usize, v: u16) {
        self.0[at..at + 2].copy_from_slice(&v.to_be_bytes());
    }
    fn u32(&mut self, at: usize, v: u32) {
        self.0[at..at + 4].copy_from_slice(&v.to_be_bytes());
    }
    fn bytes(&mut self, at: usize, b: &[u8]) {
        self.0[at..at + b.len()].copy_from_slice(b);
    }
    /// A length-prefixed name whose characters start at `at`.
    fn name(&mut self, at: usize, s: &str) {
        self.u32(at - 4, s.len() as u32);
        self.bytes(at, s.as_bytes());
    }
    /// A group header at `at` with its root entry and `entries` more entries
    /// (id, left, right, name offset, data offset).
    fn group(&mut self, at: usize, entries: &[(u16, u16, u16, u32, u32)], root_left: u16) {
        self.u32(at, 0x10 * (entries.len() as u32 + 1) + 8);
        self.u32(at + 4, entries.len() as u32);
        self.u16(at + 8, 0xFFFF);
        self.u16(at + 12, root_left);
        for (i, (id, l, r, name, data)) in entries.iter().enumerate() {
            let e = at + 8 + 0x10 * (i + 1);
            self.u16(e, *id);
            self.u16(e + 4, *l);
            self.u16(e + 6, *r);
            self.u32(e + 8, *name);
            self.u32(e + 12, *data);
        }
    }
    /// The file header and the root header.
    fn headers(&mut self) {
        let len = self.0.len() as u32;
        self.bytes(0, b"bres");
        self.bytes(4, &[0xFE, 0xFF]);
        self.u32(8, len);
        self.u16(12, 0x10);
        self.u16(14, 1);
        self.bytes(0x10, b"root");
        self.u32(0x14, 0x100);
    }
    /// A texture sub-file at `at`, named by the name at `name_at`.
    fn texture(&mut self, at: usize, name_at: usize) {
        self.bytes(at, b"TEX0");
        self.u32(at + 4, 0x40);
        self.u32(at + 8, 1);
        self.u32(at + 12, 0xFFFF_FF80);
        self.u32(at + 0x10, 0x40);
        self.u32(at + 0x14, (name_at - at) as u32);
        let h = at + 0x18;
        self.u32(h, 7);
        self.u16(h + 4, 64);
        self.u16(h + 6, 32);
        self.u32(h + 8, 14);
        self.u32(h + 0xC, 1);
        self.u32(h + 0x10, 0.0f32.to_bits());
        self.u32(h + 0x14, 1.0f32.to_bits());
    }
}

/// An archive whose root group holds one texture, `tex`, at 0x80.
fn texture_archive() -> Vec<u8> {
    let mut b = Buf::new(0xE0);
    b.headers();
    b.group(0x18, &[(0, 0, 0, 0xD4 - 0x18, 0x80 - 0x18)], 1);
    b.texture(0x80, 0xD4);
    b.name(0xD4, "tex");
    b.0
}

/// An archive whose root group holds a folder `Textures(NW4R)` at 0x100 that
/// holds one texture, `tex`, at 0x180.
fn folder_archive() -> Vec<u8> {
    let mut b = Buf::new(0x200);
    b.headers();
    b.group(0x18, &[(0, 0, 0, 0x64 - 0x18, 0x100 - 0x18)], 1);
    b.name(0x64, "Textures(NW4R)");
    b.group(0x100, &[(0, 0, 0, 0x1E4 - 0x100, 0x180 - 0x100)], 1);
    b.texture(0x180, 0x1E4);
    b.name(0x1E4, "tex");
    b.0
}

/// An archive whose root group holds one model, `mdl`, at 0x80, of format
/// `version`; its vertex group lies at 0x140.
fn model_archive(version: u32) -> Vec<u8> {
    let mut b = Buf::new(0x180);
    b.headers();
    b.group(0x18, &[(0, 0, 0, 0x164 - 0x18, 0x80 - 0x18)], 1);
    let at = 0x80;
    b.bytes(at, b"MDL0");
    b.u32(at + 4, 0xC0);
    b.u32(at + 8, version);
    let count = if version == 8 { 11 } else { 0 };
    for i in 0..count {
        b.u32(at + 0x10 + 4 * i, if i == 2 { 0x140 - 0x80 } else { 0 });
    }
    b.u32(at + 0x10 + 4 * count, (0x164 - at) as u32);
    let h = at + 0x14 + 4 * count;
    b.u32(h, 0x40);
    b.u32(h + 0x04, 0x1234);
    b.u32(h + 0x08, 1);
    b.u32(h + 0x0C, 2);
    b.u32(h + 0x10, 300);
    b.u32(h + 0x14, 100);
    b.u32(h + 0x1C, 5);
    b.bytes(h + 0x20, &[1, 0, 2]);
    b.u32(h + 0x24, 0x80);
    b.u32(h + 0x28, (-1.0f32).to_bits());
    b.u32(h + 0x34, 1.0f32.to_bits());
    b.group(0x140, &[], 0);
    b.name(0x164, "mdl");
    b.0
}

fn root_child(e: &IndexEntry) -> &IndexEntry {
    e.left.as_ref().expect("a child")
}

#[test]
fn parses_texture_archive() {
    let data = texture_archive();
    let b = parse_brres(&data).expect("archive");
    assert_eq!(b.file_header.magic, "bres");
    assert_eq!(b.file_header.byte_order, Endian::Big);
    assert_eq!(b.file_header.file_size, 0xE0);
    assert_eq!(b.file_header.root_offset, 0x10);
    assert_eq!(b.file_header.num_sections, 1);
    assert_eq!(b.root_header.magic, "root");
    assert_eq!(b.root_header.len_sections, 0x100);
    assert_eq!(b.root_header.offset, 0x10);
    assert_eq!(b.index.offset, 0x18);
    assert_eq!(b.index.num_group, 1);
    let root = &b.index.root;
    assert!(root.root);
    assert_eq!(root.name, "ROOT");
    assert_eq!(root.len_name, 4);
    assert_eq!(root.id, 0xFFFF);
    assert!(root.sub_file.is_none() && root.sub_index.is_none());
    let tex = root_child(root);
    assert_eq!(tex.name, "tex");
    assert_eq!(tex.len_name, 3);
    assert_eq!(tex.current_idx, 1);
    assert_eq!(tex.group_offset, 0x18);
    // Every child has a smaller id than its parent.
    assert!(tex.id < root.id);
    let sf = tex.sub_file.as_ref().expect("sub-file");
    assert_eq!(sf.header.section_type, SectionType::TEX0);
    assert_eq!(sf.header.name, "tex");
    assert_eq!(sf.header.version, 1);
    assert_eq!(sf.header.length, 0x40);
    assert_eq!(sf.header.out_brres_off, 0xFFFF_FF80);
    assert_eq!(sf.header.num_section_offsets, 1);
    assert_eq!(sf.header.section_offsets, vec![0x40]);
    assert_eq!(sf.header.header_length, 0x18);
    assert_eq!(sf.header.file_off, 0x80);
    match sf.file.as_ref().expect("content") {
        SubFileData::Tex0(t) => {
            assert_eq!(t.header.flag, 7);
            assert_eq!(t.header.width, 64);
            assert_eq!(t.header.height, 32);
            assert_eq!(t.header.format, 14);
            assert_eq!(t.header.mipmap_num, 1);
            assert_eq!(f32::from_bits(t.header.min_mipmap), 0.0);
            assert_eq!(f32::from_bits(t.header.max_mipmap), 1.0);
            assert!(t.data.is_empty());
        },
        _ => panic!("expected a texture"),
    }
}

#[test]
fn little_endian_mark() {
    let mut data = texture_archive();
    data[4] = 0xFF;
    data[5] = 0xFE;
    let b = parse_brres(&data).expect("archive");
    assert_eq!(b.file_header.byte_order, Endian::Little);
}

#[test]
fn parses_folders() {
    let data = folder_archive();
    let b = parse_brres(&data).expect("archive");
    let folder = root_child(&b.index.root);
    assert_eq!(folder.name, "Textures(NW4R)");
    assert!(folder.sub_file.is_none());
    let nested = folder.sub_index.as_ref().expect("folder");
    assert_eq!(nested.offset, 0x100);
    assert!(nested.root.root);
    let tex = root_child(&nested.root);
    assert_eq!(tex.name, "tex");
    assert_eq!(tex.group_offset, 0x100);
    assert!(matches!(
        tex.sub_file.as_ref().unwrap().file,
        Some(SubFileData::Tex0(_))
    ));

    let mut lines = Vec::new();
    b.index.root.entry_names(&mut lines);
    let shown: Vec<String> = lines
        .iter()
        .map(|l| match l {
            EntryLine::Node(n) => format!("node {}", n),
            EntryLine::EnterFolder(n) => format!("enter {}", n),
        })
        .collect();
    assert_eq!(
        shown,
        vec![
            "node ROOT",
            "node Textures(NW4R)",
            "enter Textures(NW4R)",
            "node ROOT",
            "node tex"
        ]
    );

    let mut files: Vec<&SubFile> = Vec::new();
    b.index.root.create_subfiles(&mut files);
    assert_eq!(files.len(), 1);
    assert_eq!(files[0].header.name, "tex");
}

#[test]
fn parses_models_and_their_vertex_group() {
    let data = model_archive(8);
    let b = parse_brres(&data).expect("archive");
    let mdl = root_child(&b.index.root);
    let sf = mdl.sub_file.as_ref().unwrap();
    assert_eq!(sf.header.section_type, SectionType::MDL0);
    assert_eq!(sf.header.num_section_offsets, 11);
    assert_eq!(sf.header.section_offsets.len(), 11);
    assert_eq!(sf.header.header_length, 11 * 4 + 0x14);
    match sf.file.as_ref().unwrap() {
        SubFileData::Mdl0(m) => {
            let h = &m.header;
            assert_eq!(h.length, 0x40);
            assert_eq!(h.file_header_offset, 0x1234);
            assert_eq!(h.scale_mode, 1);
            assert_eq!(h.tex_mode, 2);
            assert_eq!(h.vertex_count, 300);
            assert_eq!(h.face_count, 100);
            assert_eq!(h.matrices_count, 5);
            assert!(h.normalize_matrices);
            assert!(!h.need_tex_matrices);
            assert!(h.bounding_volume);
            assert_eq!(h.matrices_offset, 0x80);
            assert_eq!(f32::from_bits(h.bounding_volume_min.x), -1.0);
            assert_eq!(f32::from_bits(h.bounding_volume_max.x), 1.0);
        },
        _ => panic!("expected a model"),
    }
}

#[test]
fn model_without_vertex_section() {
    let data = model_archive(9);
    assert!(matches!(
        parse_brres(&data),
        Err(ParseError::MissingSection(Part::SubFileHeader))
    ));
}

#[test]
fn model_vertex_group_must_parse() {
    let mut data = model_archive(8);
    // The vertex group's offset now points past the end.
    let at = 0x80 + 0x10 + 8;
    data[at..at + 4].copy_from_slice(&0x1000u32.to_be_bytes());
    assert!(matches!(parse_brres(&data), Err(ParseError::OutOfBounds(Part::IndexHeader))));
    // The model keeps its header even though its vertex group failed.
    let brres = RawBrres::new(&data);
    let mut sf = SubFile::new(brres, 0x80).unwrap();
    assert!(sf.generate_subfile(brres).is_err());
    assert!(matches!(sf.file, Some(SubFileData::Mdl0(_))));
}

#[test]
fn model_header_too_short() {
    let mut data = model_archive(8);
    let h = 0x80 + 0x14 + 44;
    data[h..h + 4].copy_from_slice(&0x3Fu32.to_be_bytes());
    assert!(matches!(parse_brres(&data), Err(ParseError::OutOfBounds(Part::Mdl0Header))));
}

#[test]
fn truncated_texture() {
    let mut data = texture_archive();
    // The texture header now begins near the end of the archive.
    data[0x80 + 0x14..0x80 + 0x18].copy_from_slice(&0x58u32.to_be_bytes());
    let mut b = Buf(data);
    b.name(0xD8, "t");
    let data = b.0;
    let brres = RawBrres::new(&data);
    let mut sf = SubFile::new(brres, 0x80).unwrap();
    sf.header.header_length = 0x50;
    assert!(matches!(
        sf.generate_subfile(brres),
        Err(ParseError::OutOfBounds(Part::Tex0Header))
    ));
    assert!(sf.file.is_none());
    assert!(matches!(
        TEX0::new(brres, 0x80, 0x50),
        Err(ParseError::OutOfBounds(Part::Tex0Header))
    ));
    assert!(TEX0::new(brres, 0x80, 0x18).is_ok());
}

#[test]
fn unsupported_kinds_are_marked() {
    let mut data = texture_archive();
    data[0x80..0x84].copy_from_slice(b"SRT0");
    let b = parse_brres(&data).expect("archive");
    let sf = root_child(&b.index.root).sub_file.as_ref().unwrap();
    assert_eq!(sf.header.section_type, SectionType::SRT0);
    assert!(matches!(sf.file, Some(SubFileData::Unsupported)));
}

#[test]
fn file_header_errors() {
    assert!(matches!(parse_brres(&[0u8; 15]), Err(ParseError::OutOfBounds(Part::FileHeader))));
    let mut data = texture_archive();
    data[3] = b'n';
    assert!(matches!(parse_brres(&data), Err(ParseError::BadMagic(Part::FileHeader))));
    data[3] = 0xFF;
    assert!(matches!(parse_brres(&data), Err(ParseError::InvalidUtf8(Part::FileHeader))));

    let mut header = [0u8; 16];
    header[0..4].copy_from_slice(b"bres");
    header[4] = 0xFF;
    header[5] = 0xFE;
    header[12] = 0x01;
    header[13] = 0x02;
    let h = FileHeader::new(&header).unwrap();
    assert_eq!(h.byte_order, Endian::Little);
    assert_eq!(h.root_offset, 0x102);
}

#[test]
fn root_header_errors() {
    let mut data = texture_archive();
    data[12..14].copy_from_slice(&0xDCu16.to_be_bytes());
    assert!(matches!(parse_brres(&data), Err(ParseError::OutOfBounds(Part::RootHeader))));
    let mut data = texture_archive();
    data[0x13] = b'x';
    assert!(matches!(parse_brres(&data), Err(ParseError::BadMagic(Part::RootHeader))));
    let mut data = texture_archive();
    data[0x10] = 0x80;
    assert!(matches!(parse_brres(&data), Err(ParseError::InvalidUtf8(Part::RootHeader))));

    let r = RootHeader::new(b"root\x00\x00\x01\x00", 0x30).unwrap();
    assert_eq!(r.len_sections, 0x100);
    assert_eq!(r.offset, 0x30);
}

#[test]
fn entry_errors() {
    // A name that is not UTF-8.
    let mut data = texture_archive();
    data[0xD4] = 0xFF;
    assert!(matches!(parse_brres(&data), Err(ParseError::InvalidUtf8(Part::IndexEntry))));
    // A name offset past the end.
    let mut data = texture_archive();
    data[0x38..0x3C].copy_from_slice(&0x1000u32.to_be_bytes());
    assert!(matches!(parse_brres(&data), Err(ParseError::OutOfBounds(Part::IndexEntry))));
    // A data pointer that overflows with its group offset.
    let mut data = texture_archive();
    data[0x3C..0x40].copy_from_slice(&0xFFFF_FFF0u32.to_be_bytes());
    assert!(matches!(parse_brres(&data), Err(ParseError::Overflow(Part::IndexEntry))));
    // A data pointer past the end.
    let mut data = texture_archive();
    data[0x3C..0x40].copy_from_slice(&0x1000u32.to_be_bytes());
    assert!(matches!(parse_brres(&data), Err(ParseError::OutOfBounds(Part::IndexEntry))));
    // A sub-file whose magic is alphanumeric but names no kind.
    let mut data = texture_archive();
    data[0x80..0x84].copy_from_slice(b"ABCD");
    assert!(matches!(parse_brres(&data), Err(ParseError::BadMagic(Part::SubFileHeader))));
    // A group header that lies past the end.
    assert!(matches!(
        IndexHeader::new(RawBrres::new(&texture_archive()), 0xDC),
        Err(ParseError::OutOfBounds(Part::IndexHeader))
    ));
}

#[test]
fn folder_pointing_at_itself_is_a_cycle() {
    let mut data = texture_archive();
    // The entry now points at its own group, whose first bytes are no magic.
    data[0x3C..0x40].copy_from_slice(&0u32.to_be_bytes());
    assert!(matches!(parse_brres(&data), Err(ParseError::Cycle)));
}

/// An archive whose root group starts a chain of `n` groups, each nested in
/// the one before, the last one holding a texture.
fn chain_archive(n: usize) -> Vec<u8> {
    let groups = 0x18;
    let tex = groups + 40 * (n + 1);
    let names = tex + 0x40 + 4;
    let mut b = Buf::new(names + 0x10);
    b.headers();
    b.name(names, "f");
    for k in 0..=n {
        let at = groups + 40 * k;
        let target = if k == n { tex } else { at + 40 };
        b.group(at, &[(0, 0, 0, (names - at) as u32, (target - at) as u32)], 1);
    }
    b.texture(tex, names);
    b.0
}

#[test]
fn deep_folder_chains_are_read() {
    for n in [1usize, 32, 33, 40, 100] {
        let data = chain_archive(n);
        let b = parse_brres(&data).expect("archive");
        let mut e = &b.index.root;
        for _ in 0..n {
            e = &root_child(e).sub_index.as_ref().expect("folder").root;
        }
        let last = root_child(e);
        assert!(matches!(last.sub_file.as_ref().unwrap().file, Some(SubFileData::Tex0(_))));
    }
}

#[test]
fn nested_folder_pointing_at_itself_is_a_cycle() {
    let mut data = chain_archive(5);
    // The entry of the fourth group now points at its own group.
    let group = 0x18 + 40 * 3;
    let entry = group + 8 + 0x10;
    data[entry + 12..entry + 16].copy_from_slice(&0u32.to_be_bytes());
    assert!(matches!(parse_brres(&data), Err(ParseError::Cycle)));
    assert!(matches!(IndexHeader::new(RawBrres::new(&data), group), Err(ParseError::Cycle)));
    // The groups below it are still read on their own.
    assert!(IndexHeader::new(RawBrres::new(&data), group + 40).is_ok());
}

#[test]
fn a_group_reached_twice_without_a_cycle_is_read_twice() {
    // Two entries of the root group point at the same nested group.
    let mut b = Buf::new(0x200);
    b.headers();
    b.group(0x18, &[(1, 2, 0, 0x64 - 0x18, 0x100 - 0x18), (0, 0, 0, 0x64 - 0x18, 0x100 - 0x18)], 1);
    b.name(0x64, "Textures(NW4R)");
    b.group(0x100, &[(0, 0, 0, 0x1E4 - 0x100, 0x180 - 0x100)], 1);
    b.texture(0x180, 0x1E4);
    b.name(0x1E4, "tex");
    let data = b.0;
    let archive = parse_brres(&data).expect("archive");
    let first = root_child(&archive.index.root);
    let second = root_child(first);
    assert!(first.sub_index.is_some() && second.sub_index.is_some());
    let mut files: Vec<&SubFile> = Vec::new();
    archive.index.root.create_subfiles(&mut files);
    assert_eq!(files.len(), 2);
}

#[test]
fn children_need_smaller_ids() {
    let mut data = texture_archive();
    // The root entry's id is now 0, so entry 1 (id 0) is no child of it.
    data[0x20..0x22].copy_from_slice(&0u16.to_be_bytes());
    let b = parse_brres(&data).expect("archive");
    assert!(b.index.root.left.is_none());
    // Reading the entry on its own still works.
    let e = IndexEntry::new(RawBrres::new(&data), 0x20, false, 1).unwrap();
    assert_eq!(e.name, "tex");
    assert!(e.sub_file.as_ref().unwrap().file.is_none());
    let filled = e.fill_subfiles(RawBrres::new(&data)).unwrap();
    assert!(matches!(filled.sub_file.unwrap().file, Some(SubFileData::Tex0(_))));
}

#[test]
fn model_direct() {
    let data = model_archive(8);
    let brres = RawBrres::new(&data);
    let m = MDL0::new(brres, 0x80, 0x40).unwrap();
    assert_eq!(m.header.vertex_count, 300);
    assert!(matches!(MDL0::new(brres, 0x80, usize::MAX), Err(ParseError::OutOfBounds(Part::Mdl0Header))));
}

#[test]
fn vertex_entry_header() {
    let mut b = Buf::new(0x40);
    let at = 8;
    b.u32(at, 0x38);
    b.u32(at + 4, (-0x20i32) as u32);
    b.u32(at + 8, 0x40);
    b.u32(at + 0xC, 0x34);
    b.u32(at + 0x10, 3);
    b.u32(at + 0x14, 1);
    b.u32(at + 0x18, 4);
    b.bytes(at + 0x1C, &[2, 12]);
    b.u16(at + 0x1E, 0x102);
    b.u32(at + 0x20, 1.5f32.to_bits());
    // The name, inside the header: two characters at 0x34.
    b.u32(at + 0x30, 2);
    b.bytes(at + 0x34, b"ab");
    let e = EntryHeader::new(RawBrres::new(&b.0), at).unwrap();
    assert_eq!(e.length, 0x38);
    assert_eq!(e.mdl0_offset, -0x20);
    assert_eq!(e.data_offset, 0x40);
    assert_eq!(e.name_offset, 0x34);
    assert_eq!(e.name.string, "ab");
    assert_eq!(e.index, 3);
    assert!(e.is_3d);
    assert_eq!(e.format, 4);
    assert_eq!(e.divisor, 2);
    assert_eq!(e.stride, 12);
    assert_eq!(e.vertex_count, 0x102);
    assert_eq!(f32::from_bits(e.bounding_volume_min.x), 1.5);
    // A negative name offset, and a name past the header's end.
    b.u32(at + 0xC, (-4i32) as u32);
    assert!(matches!(EntryHeader::new(RawBrres::new(&b.0), at), Err(ParseError::OutOfBounds(Part::VertexEntry))));
    b.u32(at + 0xC, 0x38);
    assert!(matches!(EntryHeader::new(RawBrres::new(&b.0), at), Err(ParseError::OutOfBounds(Part::VertexEntry))));
    assert!(matches!(EntryHeader::new(RawBrres::new(&b.0), 9), Err(ParseError::OutOfBounds(Part::VertexEntry))));
}
