use brres::common::{
    decode_string, read, Endian, ParseError, Part, SectionType, VariableString, Vec3,
};
use brres::RawBrres;

#[test]
fn read_u32_big_endian() {
    let data = [0x12u8, 0x34, 0x56, 0x78, 0x9A];
    let v: Result<u32, ParseError> = read(&data, 1, Part::FileHeader);
    assert_eq!(v, Ok(0x3456789A));
    let e: Result<u32, ParseError> = read(&data, 2, Part::FileHeader);
    assert_eq!(e, Err(ParseError::OutOfBounds(Part::FileHeader)));
}

#[test]
fn read_every_integer_width() {
    let data = [0xFFu8, 0xFE, 0x00, 0x01, 0x80, 0x00, 0x00, 0x00, 0x7F];
    assert_eq!(read::<u8>(&data, 8, Part::IndexEntry), Ok(0x7F));
    assert_eq!(read::<u16>(&data, 0, Part::IndexEntry), Ok(0xFFFE));
    assert_eq!(read::<i16>(&data, 0, Part::IndexEntry), Ok(-2));
    assert_eq!(read::<i16>(&data, 2, Part::IndexEntry), Ok(1));
    assert_eq!(read::<i32>(&data, 0, Part::IndexEntry), Ok(-0x1FFFF));
    assert_eq!(read::<i32>(&data, 4, Part::IndexEntry), Ok(i32::MIN));
    assert_eq!(read::<u64>(&data, 0, Part::IndexEntry), Ok(0xFFFE_0001_8000_0000));
    assert_eq!(read::<i64>(&data, 1, Part::IndexEntry), Ok(-0x01FF_FE7F_FFFF_FF81));
    assert_eq!(read::<u64>(&data, 2, Part::IndexEntry), Err(ParseError::OutOfBounds(Part::IndexEntry)));
    assert_eq!(read::<u8>(&data, 9, Part::IndexEntry), Err(ParseError::OutOfBounds(Part::IndexEntry)));
    assert_eq!(read::<u16>(&data, usize::MAX, Part::IndexEntry), Err(ParseError::OutOfBounds(Part::IndexEntry)));
}

#[test]
fn read_flag_byte() {
    let data = [0u8, 1, 0x80];
    assert_eq!(read::<bool>(&data, 0, Part::Mdl0Header), Ok(false));
    assert_eq!(read::<bool>(&data, 1, Part::Mdl0Header), Ok(true));
    assert_eq!(read::<bool>(&data, 2, Part::Mdl0Header), Ok(true));
    assert_eq!(read::<bool>(&data, 3, Part::Mdl0Header), Err(ParseError::OutOfBounds(Part::Mdl0Header)));
}

#[test]
fn read_four_byte_magic() {
    let data = *b"xMDL0";
    assert_eq!(read::<String>(&data, 1, Part::SubFileHeader), Ok("MDL0".to_string()));
    assert_eq!(read::<String>(&data, 2, Part::SubFileHeader), Err(ParseError::OutOfBounds(Part::SubFileHeader)));
    let bad = [0x4Du8, 0xFF, 0x4C, 0x30];
    assert_eq!(read::<String>(&bad, 0, Part::SubFileHeader), Err(ParseError::InvalidUtf8(Part::SubFileHeader)));
}

#[test]
fn read_length_prefixed_name() {
    let mut data = vec![0u8, 0, 0, 3];
    data.extend_from_slice(b"abcdef");
    let v: VariableString = read(&data, 4, Part::IndexEntry).unwrap();
    assert_eq!(v.string, "abc");
    assert_eq!(v.length, 3);
    // The name would run past the end.
    data[3] = 7;
    assert!(matches!(read::<VariableString>(&data, 4, Part::IndexEntry), Err(ParseError::OutOfBounds(Part::IndexEntry))));
    // No room for the length in front of the name.
    assert!(matches!(read::<VariableString>(&data, 3, Part::IndexEntry), Err(ParseError::OutOfBounds(Part::IndexEntry))));
    assert!(matches!(read::<VariableString>(&data, 11, Part::IndexEntry), Err(ParseError::OutOfBounds(Part::IndexEntry))));
    // Invalid UTF-8.
    let bad = [0u8, 0, 0, 1, 0xC3];
    assert!(matches!(read::<VariableString>(&bad, 4, Part::IndexEntry), Err(ParseError::InvalidUtf8(Part::IndexEntry))));
    // An empty name.
    let empty = [0u8, 0, 0, 0];
    let v: VariableString = read(&empty, 4, Part::IndexEntry).unwrap();
    assert_eq!(v.string, "");
    assert_eq!(v.length, 0);
}

#[test]
fn decode_string_is_utf8() {
    assert_eq!(decode_string(&[0xC3, 0xA9, 0x41]), Some("\u{e9}A".to_string()));
    assert_eq!(decode_string(&[0x41, 0xFF]), None);
    assert_eq!(decode_string(&[0xED, 0xA0, 0x80]), None);
    assert_eq!(decode_string(&[]), Some(String::new()));
}

#[test]
fn vec3_bits() {
    let mut data = [0u8; 12];
    data[0..4].copy_from_slice(&1.0f32.to_bits().to_be_bytes());
    data[4..8].copy_from_slice(&(-2.5f32).to_bits().to_be_bytes());
    data[8..12].copy_from_slice(&0.25f32.to_bits().to_be_bytes());
    let v = Vec3::raw_new(&data).unwrap();
    assert_eq!(f32::from_bits(v.x), 1.0);
    assert_eq!(f32::from_bits(v.y), -2.5);
    assert_eq!(f32::from_bits(v.z), 0.25);
    assert_eq!(read::<Vec3>(&data, 0, Part::VertexEntry), Ok(v));
    assert_eq!(read::<Vec3>(&data, 1, Part::VertexEntry), Err(ParseError::OutOfBounds(Part::VertexEntry)));
}

#[test]
fn section_kinds_by_magic() {
    let all = [
        SectionType::MDL0, SectionType::TEX0, SectionType::SRT0, SectionType::CHR0,
        SectionType::PAT0, SectionType::CLR0, SectionType::SHP0, SectionType::SCN0,
        SectionType::PLT0, SectionType::VIS0,
    ];
    let names = ["MDL0", "TEX0", "SRT0", "CHR0", "PAT0", "CLR0", "SHP0", "SCN0", "PLT0", "VIS0"];
    for (t, n) in all.iter().zip(names.iter()) {
        assert_eq!(t.as_str(), *n);
        // Reading back the magic of a kind gives that kind again.
        assert_eq!(SectionType::str_to_type(t.as_str().to_string()), Ok(*t));
    }
    for bad in ["mdl0", "MDL", "MDL00", "", "TEX1", "\u{e9}DL0"] {
        assert_eq!(
            SectionType::str_to_type(bad.to_string()),
            Err(ParseError::BadMagic(Part::SubFileHeader))
        );
    }
}

#[test]
fn section_counts() {
    let table = [
        (SectionType::MDL0, 8, 11), (SectionType::MDL0, 11, 14), (SectionType::MDL0, 9, 0),
        (SectionType::TEX0, 1, 1), (SectionType::TEX0, 2, 2), (SectionType::TEX0, 3, 1), (SectionType::TEX0, 4, 0),
        (SectionType::SRT0, 4, 1), (SectionType::SRT0, 5, 2), (SectionType::SRT0, 3, 0),
        (SectionType::CHR0, 3, 1), (SectionType::CHR0, 5, 2), (SectionType::CHR0, 4, 0),
        (SectionType::PAT0, 4, 6), (SectionType::PAT0, 3, 0),
        (SectionType::CLR0, 4, 2), (SectionType::CLR0, 3, 0),
        (SectionType::SHP0, 4, 3), (SectionType::SHP0, 5, 0),
        (SectionType::SCN0, 4, 6), (SectionType::SCN0, 5, 7), (SectionType::SCN0, 3, 0),
        (SectionType::PLT0, 1, 0), (SectionType::VIS0, 4, 0),
    ];
    for (t, version, count) in table {
        assert_eq!(t.get_section_count(version), count, "{:?} v{}", t, version);
    }
}

#[test]
fn endian_names() {
    assert_eq!(Endian::Big.as_str(), "Big");
    assert_eq!(Endian::Little.as_str(), "Little");
}

#[test]
fn raw_slices() {
    let data = [1u8, 2, 3, 4];
    let b = RawBrres::new(&data);
    assert_eq!(b.slice(1, 2), Some(&data[1..3]));
    assert_eq!(b.slice(4, 0), Some(&data[4..4]));
    assert_eq!(b.slice(3, 2), None);
    assert_eq!(b.slice(5, 0), None);
    assert_eq!(b.slice(usize::MAX, 2), None);
    assert_eq!(b.bytes(), &data[..]);
}
