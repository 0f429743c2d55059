//! Byte-level building blocks shared by every structure of the archive:
//! big-endian integers, length-prefixed names, section kinds and errors.
use vstd::prelude::*;
use vstd::utf8::*;
use vstd::slice::*;
use vstd::string::*;

verus! {

/// The structure of the archive in which a parse error was met.
#[derive(Clone, Copy, Debug, PartialEq, Eq, Structural)]
pub enum Part {
    FileHeader,
    RootHeader,
    IndexHeader,
    IndexEntry,
    SubFileHeader,
    Mdl0Header,
    Tex0Header,
    VertexEntry,
}

/// Why an archive (or one structure of it) could not be read.
#[derive(Clone, Copy, Debug, PartialEq, Eq, Structural)]
pub enum ParseError {
    /// The bytes that the structure needs lie (partly) outside the data.
    OutOfBounds(Part),
    /// A name or a magic is not valid UTF-8.
    InvalidUtf8(Part),
    /// A magic does not name the expected kind of structure.
    BadMagic(Part),
    /// The sum of a data pointer and its group offset exceeds `u32::MAX`.
    Overflow(Part),
    /// A model does not list the section that holds its vertex group.
    MissingSection(Part),
    /// A nested group lies where a group that encloses it lies, so reading
    /// it would start over without end.
    Cycle,
}

/// The result of a parse, each value taken by its view.
pub open spec fn result_view<T: View>(r: Result<T, ParseError>) -> Result<T::V, ParseError> {
    match r {
        Ok(v) => Ok(v@),
        Err(e) => Err(e),
    }
}

/// `size` bytes from `offset` on lie inside `data`.
pub open spec fn in_range(data: Seq<u8>, offset: int, size: int) -> bool {
    0 <= offset && 0 <= size && offset + size <= data.len()
}

/// The characters that `bytes` encode in UTF-8, if they are valid UTF-8.
pub open spec fn utf8_chars(bytes: Seq<u8>) -> Option<Seq<char>> {
    if valid_utf8(bytes) {
        Some(decode_utf8(bytes))
    } else {
        None
    }
}

/// `String::from_utf8`: the string that `bytes` encode, or `None` where they
/// are not valid UTF-8 (the contract states exactly that, with vstd's
/// definitions of validity and decoding).
#[verifier::external_body]
fn string_from_utf8(bytes: Vec<u8>) -> (r: Option<String>)
    ensures
        r is Some <==> valid_utf8(bytes@),
        r matches Some(s) ==> s@ == decode_utf8(bytes@),
{
    String::from_utf8(bytes).ok()
}

/// Decodes `bytes` as UTF-8.
pub fn decode_string(bytes: &[u8]) -> (r: Option<String>)
    ensures
        r is Some <==> utf8_chars(bytes@) is Some,
        r matches Some(s) ==> utf8_chars(bytes@) == Some(s@),
{
    let v = slice_to_vec(bytes);
    string_from_utf8(v)
}

/// Bytes decode to `chars` exactly when they are the UTF-8 encoding of
/// `chars`.
pub proof fn lemma_utf8_chars_iff_encoding(bytes: Seq<u8>, chars: Seq<char>)
    ensures
        utf8_chars(bytes) == Some(chars) <==> bytes == encode_utf8(chars),
{
    if utf8_chars(bytes) == Some(chars) {
        decode_utf8_encode_utf8(bytes);
    }
    if bytes == encode_utf8(chars) {
        encode_utf8_valid_utf8(chars);
        encode_utf8_decode_utf8(chars);
    }
}

/// Four ASCII characters are encoded by their four codes.
pub proof fn lemma_ascii4_encoding(a: char, b: char, c: char, d: char)
    requires
        a <= '\u{7f}',
        b <= '\u{7f}',
        c <= '\u{7f}',
        d <= '\u{7f}',
    ensures
        encode_utf8(seq![a, b, c, d]) == seq![a as u8, b as u8, c as u8, d as u8],
{
    let chars = seq![a, b, c, d];
    assert(is_ascii_chars(chars)) by {
        assert forall|i| 0 <= i < chars.len() implies '\0' <= #[trigger] chars[i] <= '\u{7f}' by {}
    }
    is_ascii_chars_encode_utf8(chars);
    assert(encode_utf8(chars) =~= seq![a as u8, b as u8, c as u8, d as u8]) by {
        assert(chars[0] as u8 == encode_utf8(chars)[0]);
        assert(chars[1] as u8 == encode_utf8(chars)[1]);
        assert(chars[2] as u8 == encode_utf8(chars)[2]);
        assert(chars[3] as u8 == encode_utf8(chars)[3]);
    }
}

// ---------------------------------------------------------------------------
// Big-endian integers
// ---------------------------------------------------------------------------

/// The big-endian `u16` stored at `data[i..i + 2]`.
pub open spec fn be_u16(data: Seq<u8>, i: int) -> u16 {
    (data[i] as int * 0x100 + data[i + 1] as int) as u16
}

/// The big-endian `u32` stored at `data[i..i + 4]`.
pub open spec fn be_u32(data: Seq<u8>, i: int) -> u32 {
    (data[i] as int * 0x1000000 + data[i + 1] as int * 0x10000 + data[i + 2] as int * 0x100
        + data[i + 3] as int) as u32
}

/// The big-endian `u64` stored at `data[i..i + 8]`.
pub open spec fn be_u64(data: Seq<u8>, i: int) -> u64 {
    (be_u32(data, i) as int * 0x1_0000_0000 + be_u32(data, i + 4) as int) as u64
}

/// The big-endian two's-complement `i16` stored at `data[i..i + 2]`.
pub open spec fn be_i16(data: Seq<u8>, i: int) -> i16 {
    let u = be_u16(data, i);
    if u < 0x8000 {
        u as i16
    } else {
        (u as int - 0x10000) as i16
    }
}

/// The big-endian two's-complement `i32` stored at `data[i..i + 4]`.
pub open spec fn be_i32(data: Seq<u8>, i: int) -> i32 {
    let u = be_u32(data, i);
    if u < 0x8000_0000 {
        u as i32
    } else {
        (u as int - 0x1_0000_0000) as i32
    }
}

/// The big-endian two's-complement `i64` stored at `data[i..i + 8]`.
pub open spec fn be_i64(data: Seq<u8>, i: int) -> i64 {
    let u = be_u64(data, i);
    if u < 0x8000_0000_0000_0000 {
        u as i64
    } else {
        (u as int - 0x1_0000_0000_0000_0000) as i64
    }
}

/// The number that the `n` bytes of `s` from `i` on write in base 256, the
/// most significant byte first.
pub open spec fn big_endian(s: Seq<u8>, i: int, n: nat) -> nat
    decreases n,
{
    if n == 0 {
        0
    } else {
        big_endian(s, i, (n - 1) as nat) * 256 + s[i + n - 1] as nat
    }
}

/// The number of `n` bytes read as a two's-complement signed number.
pub open spec fn twos_complement(u: nat, n: nat) -> int {
    if u < pow256(n) / 2 {
        u as int
    } else {
        u - pow256(n)
    }
}

/// 256 to the power `n`.
pub open spec fn pow256(n: nat) -> nat
    decreases n,
{
    if n == 0 {
        1
    } else {
        256 * pow256((n - 1) as nat)
    }
}

/// The number that bytes of a sub-range write is the one that the same bytes
/// of the whole write.
pub proof fn lemma_big_endian_subrange(d: Seq<u8>, a: int, b: int, i: int, n: nat)
    requires
        0 <= a <= b <= d.len(),
        0 <= i,
        i + n <= b - a,
    ensures
        big_endian(d.subrange(a, b), i, n) == big_endian(d, a + i, n),
    decreases n,
{
    if n > 0 {
        lemma_big_endian_subrange(d, a, b, i, (n - 1) as nat);
    }
}

/// The big-endian readers give the numbers that the bytes write in base 256,
/// the signed ones read in two's complement.
pub proof fn lemma_big_endian_values(s: Seq<u8>, i: int)
    ensures
        in_range(s, i, 2) ==> be_u16(s, i) == big_endian(s, i, 2),
        in_range(s, i, 4) ==> be_u32(s, i) == big_endian(s, i, 4),
        in_range(s, i, 8) ==> be_u64(s, i) == big_endian(s, i, 8),
        in_range(s, i, 2) ==> be_i16(s, i) == twos_complement(big_endian(s, i, 2), 2),
        in_range(s, i, 4) ==> be_i32(s, i) == twos_complement(big_endian(s, i, 4), 4),
        in_range(s, i, 8) ==> be_i64(s, i) == twos_complement(big_endian(s, i, 8), 8),
{
    reveal_with_fuel(big_endian, 9);
    reveal_with_fuel(pow256, 9);
    assert(pow256(2) == 0x10000);
    assert(pow256(4) == 0x1_0000_0000);
    assert(pow256(8) == 0x1_0000_0000_0000_0000);
    if in_range(s, i, 8) {
        assert(big_endian(s, i, 8) == big_endian(s, i, 4) * 0x1_0000_0000 + big_endian(s, i + 4, 4));
    }
}

/// A big-endian `u16` read from a sub-range is the one at the same place of
/// the whole.
pub proof fn lemma_be_u16_subrange(d: Seq<u8>, a: int, b: int, i: int)
    requires
        0 <= a <= b <= d.len(),
        0 <= i,
        i + 2 <= b - a,
    ensures
        be_u16(d.subrange(a, b), i) == be_u16(d, a + i),
{
}

/// A big-endian `u32` read from a sub-range is the one at the same place of
/// the whole.
pub proof fn lemma_be_u32_subrange(d: Seq<u8>, a: int, b: int, i: int)
    requires
        0 <= a <= b <= d.len(),
        0 <= i,
        i + 4 <= b - a,
    ensures
        be_u32(d.subrange(a, b), i) == be_u32(d, a + i),
{
}

/// Reads the big-endian `u16` at `offset`.
pub fn read_be_u16(data: &[u8], offset: usize) -> (r: u16)
    requires
        offset + 2 <= data.len(),
    ensures
        r == be_u16(data@, offset as int),
{
    (data[offset] as u16) * 0x100 + (data[offset + 1] as u16)
}

/// Reads the big-endian `u32` at `offset`.
pub fn read_be_u32(data: &[u8], offset: usize) -> (r: u32)
    requires
        offset + 4 <= data.len(),
    ensures
        r == be_u32(data@, offset as int),
{
    (data[offset] as u32) * 0x1000000 + (data[offset + 1] as u32) * 0x10000 + (data[offset
        + 2] as u32) * 0x100 + (data[offset + 3] as u32)
}

/// Reads the big-endian `u64` at `offset`.
pub fn read_be_u64(data: &[u8], offset: usize) -> (r: u64)
    requires
        offset + 8 <= data.len(),
    ensures
        r == be_u64(data@, offset as int),
{
    let hi = read_be_u32(data, offset);
    let lo = read_be_u32(data, offset + 4);
    (hi as u64) * 0x1_0000_0000 + (lo as u64)
}

/// Reads the big-endian `i16` at `offset`.
pub fn read_be_i16(data: &[u8], offset: usize) -> (r: i16)
    requires
        offset + 2 <= data.len(),
    ensures
        r == be_i16(data@, offset as int),
{
    let u = read_be_u16(data, offset);
    if u < 0x8000 {
        u as i16
    } else {
        ((u - 0x8000) as i16) + i16::MIN
    }
}

/// Reads the big-endian `i32` at `offset`.
pub fn read_be_i32(data: &[u8], offset: usize) -> (r: i32)
    requires
        offset + 4 <= data.len(),
    ensures
        r == be_i32(data@, offset as int),
{
    let u = read_be_u32(data, offset);
    if u < 0x8000_0000 {
        u as i32
    } else {
        ((u - 0x8000_0000) as i32) + i32::MIN
    }
}

/// Reads the big-endian `i64` at `offset`.
pub fn read_be_i64(data: &[u8], offset: usize) -> (r: i64)
    requires
        offset + 8 <= data.len(),
    ensures
        r == be_i64(data@, offset as int),
{
    let u = read_be_u64(data, offset);
    if u < 0x8000_0000_0000_0000 {
        u as i64
    } else {
        ((u - 0x8000_0000_0000_0000) as i64) + i64::MIN
    }
}

// ---------------------------------------------------------------------------
// Typed reads
// ---------------------------------------------------------------------------

/// A value that can be read from a byte buffer at an offset.
pub trait FromBytes: Sized + View {
    /// What `from_bytes` yields on `data` at `offset`, errors naming `ctx`.
    spec fn spec_from_bytes(data: Seq<u8>, offset: int, ctx: Part) -> Result<Self::V, ParseError>;

    /// Reads a value from `data` at `offset`; an error names `ctx`.
    fn from_bytes(data: &[u8], offset: usize, ctx: Part) -> (r: Result<Self, ParseError>)
        ensures
            result_view(r) == Self::spec_from_bytes(data@, offset as int, ctx),
    ;
}

/// Reads a `T` from `data` at `offset`; an error names `ctx`.
pub fn read<T: FromBytes>(data: &[u8], offset: usize, ctx: Part) -> (r: Result<T, ParseError>)
    ensures
        result_view(r) == T::spec_from_bytes(data@, offset as int, ctx),
{
    T::from_bytes(data, offset, ctx)
}

/// What [`read`] gives for each integer type, and for flags: the number that
/// the bytes at `offset` write big-endian (two's complement for the signed
/// types), or `OutOfBounds` naming `ctx` where they are not all inside the
/// data.
pub proof fn lemma_read_integers(data: Seq<u8>, offset: int, ctx: Part)
    ensures
        <u8 as FromBytes>::spec_from_bytes(data, offset, ctx) == if 0 <= offset && offset + 1
            <= data.len() {
            Ok::<u8, ParseError>(data[offset])
        } else {
            Err(ParseError::OutOfBounds(ctx))
        },
        <bool as FromBytes>::spec_from_bytes(data, offset, ctx) == if 0 <= offset && offset + 1
            <= data.len() {
            Ok::<bool, ParseError>(data[offset] != 0)
        } else {
            Err(ParseError::OutOfBounds(ctx))
        },
        <u16 as FromBytes>::spec_from_bytes(data, offset, ctx) matches Ok(v) ==> 0 <= offset
            && offset + 2 <= data.len() && v == big_endian(data, offset, 2),
        0 <= offset && offset + 2 <= data.len() ==> <u16 as FromBytes>::spec_from_bytes(data, offset, ctx) is Ok,
        <u32 as FromBytes>::spec_from_bytes(data, offset, ctx) matches Ok(v) ==> 0 <= offset
            && offset + 4 <= data.len() && v == big_endian(data, offset, 4),
        0 <= offset && offset + 4 <= data.len() ==> <u32 as FromBytes>::spec_from_bytes(data, offset, ctx) is Ok,
        <u64 as FromBytes>::spec_from_bytes(data, offset, ctx) matches Ok(v) ==> 0 <= offset
            && offset + 8 <= data.len() && v == big_endian(data, offset, 8),
        0 <= offset && offset + 8 <= data.len() ==> <u64 as FromBytes>::spec_from_bytes(data, offset, ctx) is Ok,
        <i16 as FromBytes>::spec_from_bytes(data, offset, ctx) matches Ok(v) ==> 0 <= offset
            && offset + 2 <= data.len() && v == twos_complement(big_endian(data, offset, 2), 2),
        0 <= offset && offset + 2 <= data.len() ==> <i16 as FromBytes>::spec_from_bytes(data, offset, ctx) is Ok,
        <i32 as FromBytes>::spec_from_bytes(data, offset, ctx) matches Ok(v) ==> 0 <= offset
            && offset + 4 <= data.len() && v == twos_complement(big_endian(data, offset, 4), 4),
        0 <= offset && offset + 4 <= data.len() ==> <i32 as FromBytes>::spec_from_bytes(data, offset, ctx) is Ok,
        <i64 as FromBytes>::spec_from_bytes(data, offset, ctx) matches Ok(v) ==> 0 <= offset
            && offset + 8 <= data.len() && v == twos_complement(big_endian(data, offset, 8), 8),
        0 <= offset && offset + 8 <= data.len() ==> <i64 as FromBytes>::spec_from_bytes(data, offset, ctx) is Ok,
        <Vec3 as FromBytes>::spec_from_bytes(data, offset, ctx) matches Ok(v) ==> 0 <= offset
            && offset + 12 <= data.len() && v.x == big_endian(data, offset, 4) && v.y == big_endian(
            data,
            offset + 4,
            4,
        ) && v.z == big_endian(data, offset + 8, 4),
        0 <= offset && offset + 12 <= data.len() ==> <Vec3 as FromBytes>::spec_from_bytes(data, offset, ctx) is Ok,
{
    lemma_big_endian_values(data, offset);
    lemma_big_endian_values(data, offset + 4);
    lemma_big_endian_values(data, offset + 8);
}

/// A length-prefixed name is read exactly where the four bytes before it
/// lie inside the data, the name of the length they write big-endian follows
/// inside the data, and it is valid UTF-8; it is then the text those bytes
/// encode, and its length is that number. A four-byte magic is read exactly
/// where its bytes lie inside the data and are valid UTF-8.
pub proof fn lemma_read_names(data: Seq<u8>, offset: int, ctx: Part)
    ensures
        ({
            let len = big_endian(data, offset - 4, 4) as int;
            spec_variable_string(data, offset, ctx) is Ok <==> (4 <= offset && offset + len
                <= data.len() && valid_utf8(data.subrange(offset, offset + len)))
        }),
        spec_variable_string(data, offset, ctx) matches Ok(v) ==> {
            let len = big_endian(data, offset - 4, 4) as int;
            &&& v.length == len
            &&& v.string == decode_utf8(data.subrange(offset, offset + len))
        },
        <String as FromBytes>::spec_from_bytes(data, offset, ctx) is Ok <==> (0 <= offset && offset
            + 4 <= data.len() && valid_utf8(data.subrange(offset, offset + 4))),
        <String as FromBytes>::spec_from_bytes(data, offset, ctx) matches Ok(v) ==> v == decode_utf8(
            data.subrange(offset, offset + 4),
        ),
{
    lemma_big_endian_values(data, offset - 4);
}

/// A vector holds the numbers that its three groups of four bytes write
/// big-endian.
pub proof fn lemma_vec3_fields(data: Seq<u8>, offset: int)
    requires
        in_range(data, offset, 12),
    ensures
        be_vec3(data, offset).x == big_endian(data, offset, 4),
        be_vec3(data, offset).y == big_endian(data, offset + 4, 4),
        be_vec3(data, offset).z == big_endian(data, offset + 8, 4),
{
    lemma_big_endian_values(data, offset);
    lemma_big_endian_values(data, offset + 4);
    lemma_big_endian_values(data, offset + 8);
}

/// The magic of each kind of sub-file, as the ASCII bytes that begin it.
pub proof fn lemma_section_magic_bytes()
    ensures
        encode_utf8(section_magic(SectionType::MDL0)) == seq![0x4Du8, 0x44, 0x4C, 0x30],
        encode_utf8(section_magic(SectionType::TEX0)) == seq![0x54u8, 0x45, 0x58, 0x30],
        encode_utf8(section_magic(SectionType::SRT0)) == seq![0x53u8, 0x52, 0x54, 0x30],
        encode_utf8(section_magic(SectionType::CHR0)) == seq![0x43u8, 0x48, 0x52, 0x30],
        encode_utf8(section_magic(SectionType::PAT0)) == seq![0x50u8, 0x41, 0x54, 0x30],
        encode_utf8(section_magic(SectionType::CLR0)) == seq![0x43u8, 0x4C, 0x52, 0x30],
        encode_utf8(section_magic(SectionType::SHP0)) == seq![0x53u8, 0x48, 0x50, 0x30],
        encode_utf8(section_magic(SectionType::SCN0)) == seq![0x53u8, 0x43, 0x4E, 0x30],
        encode_utf8(section_magic(SectionType::PLT0)) == seq![0x50u8, 0x4C, 0x54, 0x30],
        encode_utf8(section_magic(SectionType::VIS0)) == seq![0x56u8, 0x49, 0x53, 0x30],
{
    lemma_ascii4_encoding('M', 'D', 'L', '0');
    lemma_ascii4_encoding('T', 'E', 'X', '0');
    lemma_ascii4_encoding('S', 'R', 'T', '0');
    lemma_ascii4_encoding('C', 'H', 'R', '0');
    lemma_ascii4_encoding('P', 'A', 'T', '0');
    lemma_ascii4_encoding('C', 'L', 'R', '0');
    lemma_ascii4_encoding('S', 'H', 'P', '0');
    lemma_ascii4_encoding('S', 'C', 'N', '0');
    lemma_ascii4_encoding('P', 'L', 'T', '0');
    lemma_ascii4_encoding('V', 'I', 'S', '0');
}

/// How many section offsets each kind of sub-file lists for each format
/// version: models list 11 (version 8) or 14 (version 11); textures 1
/// (versions 1 and 3) or 2 (version 2); texture animations 1 (version 4) or
/// 2 (version 5); bone animations 1 (version 3) or 2 (version 5); pattern
/// animations 6 (version 4); colour animations 2 (version 4); shape
/// animations 3 (version 4); scene animations 6 (version 4) or 7 (version
/// 5); every other pair lists none.
pub proof fn lemma_section_counts(t: SectionType, version: u32)
    ensures
        spec_section_count(t, version) == if t == SectionType::MDL0 && version == 8 {
            11u32
        } else if t == SectionType::MDL0 && version == 11 {
            14
        } else if t == SectionType::TEX0 && (version == 1 || version == 3) {
            1
        } else if t == SectionType::TEX0 && version == 2 {
            2
        } else if t == SectionType::SRT0 && version == 4 {
            1
        } else if t == SectionType::SRT0 && version == 5 {
            2
        } else if t == SectionType::CHR0 && version == 3 {
            1
        } else if t == SectionType::CHR0 && version == 5 {
            2
        } else if t == SectionType::PAT0 && version == 4 {
            6
        } else if t == SectionType::CLR0 && version == 4 {
            2
        } else if t == SectionType::SHP0 && version == 4 {
            3
        } else if t == SectionType::SCN0 && version == 4 {
            6
        } else if t == SectionType::SCN0 && version == 5 {
            7
        } else {
            0
        },
{
}

/// `offset + size <= data.len()`, computed without overflow.
fn fits(data: &[u8], offset: usize, size: usize) -> (r: bool)
    ensures
        r == in_range(data@, offset as int, size as int),
        r ==> offset + size <= data.len(),
{
    offset <= data.len() && size <= data.len() - offset
}

impl FromBytes for u8 {
    open spec fn spec_from_bytes(data: Seq<u8>, offset: int, ctx: Part) -> Result<u8, ParseError> {
        if in_range(data, offset, 1) {
            Ok(data[offset])
        } else {
            Err(ParseError::OutOfBounds(ctx))
        }
    }

    fn from_bytes(data: &[u8], offset: usize, ctx: Part) -> (r: Result<u8, ParseError>) {
        if fits(data, offset, 1) {
            Ok(data[offset])
        } else {
            Err(ParseError::OutOfBounds(ctx))
        }
    }
}

impl FromBytes for u16 {
    open spec fn spec_from_bytes(data: Seq<u8>, offset: int, ctx: Part) -> Result<u16, ParseError> {
        if in_range(data, offset, 2) {
            Ok(be_u16(data, offset))
        } else {
            Err(ParseError::OutOfBounds(ctx))
        }
    }

    fn from_bytes(data: &[u8], offset: usize, ctx: Part) -> (r: Result<u16, ParseError>) {
        if fits(data, offset, 2) {
            Ok(read_be_u16(data, offset))
        } else {
            Err(ParseError::OutOfBounds(ctx))
        }
    }
}

impl FromBytes for i16 {
    open spec fn spec_from_bytes(data: Seq<u8>, offset: int, ctx: Part) -> Result<i16, ParseError> {
        if in_range(data, offset, 2) {
            Ok(be_i16(data, offset))
        } else {
            Err(ParseError::OutOfBounds(ctx))
        }
    }

    fn from_bytes(data: &[u8], offset: usize, ctx: Part) -> (r: Result<i16, ParseError>) {
        if fits(data, offset, 2) {
            Ok(read_be_i16(data, offset))
        } else {
            Err(ParseError::OutOfBounds(ctx))
        }
    }
}

impl FromBytes for u32 {
    open spec fn spec_from_bytes(data: Seq<u8>, offset: int, ctx: Part) -> Result<u32, ParseError> {
        if in_range(data, offset, 4) {
            Ok(be_u32(data, offset))
        } else {
            Err(ParseError::OutOfBounds(ctx))
        }
    }

    fn from_bytes(data: &[u8], offset: usize, ctx: Part) -> (r: Result<u32, ParseError>) {
        if fits(data, offset, 4) {
            Ok(read_be_u32(data, offset))
        } else {
            Err(ParseError::OutOfBounds(ctx))
        }
    }
}

impl FromBytes for i32 {
    open spec fn spec_from_bytes(data: Seq<u8>, offset: int, ctx: Part) -> Result<i32, ParseError> {
        if in_range(data, offset, 4) {
            Ok(be_i32(data, offset))
        } else {
            Err(ParseError::OutOfBounds(ctx))
        }
    }

    fn from_bytes(data: &[u8], offset: usize, ctx: Part) -> (r: Result<i32, ParseError>) {
        if fits(data, offset, 4) {
            Ok(read_be_i32(data, offset))
        } else {
            Err(ParseError::OutOfBounds(ctx))
        }
    }
}

impl FromBytes for u64 {
    open spec fn spec_from_bytes(data: Seq<u8>, offset: int, ctx: Part) -> Result<u64, ParseError> {
        if in_range(data, offset, 8) {
            Ok(be_u64(data, offset))
        } else {
            Err(ParseError::OutOfBounds(ctx))
        }
    }

    fn from_bytes(data: &[u8], offset: usize, ctx: Part) -> (r: Result<u64, ParseError>) {
        if fits(data, offset, 8) {
            Ok(read_be_u64(data, offset))
        } else {
            Err(ParseError::OutOfBounds(ctx))
        }
    }
}

impl FromBytes for i64 {
    open spec fn spec_from_bytes(data: Seq<u8>, offset: int, ctx: Part) -> Result<i64, ParseError> {
        if in_range(data, offset, 8) {
            Ok(be_i64(data, offset))
        } else {
            Err(ParseError::OutOfBounds(ctx))
        }
    }

    fn from_bytes(data: &[u8], offset: usize, ctx: Part) -> (r: Result<i64, ParseError>) {
        if fits(data, offset, 8) {
            Ok(read_be_i64(data, offset))
        } else {
            Err(ParseError::OutOfBounds(ctx))
        }
    }
}

/// A flag byte: any value but zero is `true`.
impl FromBytes for bool {
    open spec fn spec_from_bytes(data: Seq<u8>, offset: int, ctx: Part) -> Result<bool, ParseError> {
        if in_range(data, offset, 1) {
            Ok(data[offset] != 0)
        } else {
            Err(ParseError::OutOfBounds(ctx))
        }
    }

    fn from_bytes(data: &[u8], offset: usize, ctx: Part) -> (r: Result<bool, ParseError>) {
        if fits(data, offset, 1) {
            Ok(data[offset] != 0)
        } else {
            Err(ParseError::OutOfBounds(ctx))
        }
    }
}

/// A four-byte magic, decoded as UTF-8.
impl FromBytes for String {
    open spec fn spec_from_bytes(data: Seq<u8>, offset: int, ctx: Part) -> Result<
        Seq<char>,
        ParseError,
    > {
        if !in_range(data, offset, 4) {
            Err(ParseError::OutOfBounds(ctx))
        } else {
            match utf8_chars(data.subrange(offset, offset + 4)) {
                Some(s) => Ok(s),
                None => Err(ParseError::InvalidUtf8(ctx)),
            }
        }
    }

    fn from_bytes(data: &[u8], offset: usize, ctx: Part) -> (r: Result<String, ParseError>) {
        if !fits(data, offset, 4) {
            return Err(ParseError::OutOfBounds(ctx));
        }
        match decode_string(slice_subrange(data, offset, offset + 4)) {
            Some(s) => Ok(s),
            None => Err(ParseError::InvalidUtf8(ctx)),
        }
    }
}

// ---------------------------------------------------------------------------
// Length-prefixed names
// ---------------------------------------------------------------------------

/// A name stored as UTF-8 bytes whose length, a big-endian `u32`, stands in
/// the four bytes just before them.
pub struct VariableString {
    pub string: String,
    pub length: usize,
}

/// What a [`VariableString`] holds, as plain values.
pub struct VariableStringView {
    pub string: Seq<char>,
    pub length: usize,
}

impl View for VariableString {
    type V = VariableStringView;

    open spec fn view(&self) -> VariableStringView {
        VariableStringView { string: self.string@, length: self.length }
    }
}

/// The name whose bytes start at `offset`: its length is read from
/// `data[offset - 4..offset]`, its characters from the bytes that follow.
pub open spec fn spec_variable_string(data: Seq<u8>, offset: int, ctx: Part) -> Result<
    VariableStringView,
    ParseError,
> {
    if !(4 <= offset <= data.len()) {
        Err(ParseError::OutOfBounds(ctx))
    } else {
        let len = be_u32(data, offset - 4);
        if !in_range(data, offset, len as int) {
            Err(ParseError::OutOfBounds(ctx))
        } else {
            match utf8_chars(data.subrange(offset, offset + len)) {
                Some(s) => Ok(VariableStringView { string: s, length: len as usize }),
                None => Err(ParseError::InvalidUtf8(ctx)),
            }
        }
    }
}

impl FromBytes for VariableString {
    open spec fn spec_from_bytes(data: Seq<u8>, offset: int, ctx: Part) -> Result<
        VariableStringView,
        ParseError,
    > {
        spec_variable_string(data, offset, ctx)
    }

    fn from_bytes(data: &[u8], offset: usize, ctx: Part) -> (r: Result<VariableString, ParseError>) {
        if offset < 4 || offset > data.len() {
            return Err(ParseError::OutOfBounds(ctx));
        }
        let len = read_be_u32(data, offset - 4);
        if !fits(data, offset, len as usize) {
            return Err(ParseError::OutOfBounds(ctx));
        }
        let end = offset + len as usize;
        match decode_string(slice_subrange(data, offset, end)) {
            Some(s) => Ok(VariableString { string: s, length: len as usize }),
            None => Err(ParseError::InvalidUtf8(ctx)),
        }
    }
}

// ---------------------------------------------------------------------------
// Vectors of three single-precision floats
// ---------------------------------------------------------------------------

/// Three IEEE-754 single-precision numbers, each held as its bit pattern
/// (what `f32::from_bits` turns into the number).
#[derive(Clone, Copy, Debug, PartialEq, Eq, Structural)]
pub struct Vec3 {
    pub x: u32,
    pub y: u32,
    pub z: u32,
}

impl View for Vec3 {
    type V = Vec3;

    open spec fn view(&self) -> Vec3 {
        *self
    }
}

/// The vector stored big-endian at `data[i..i + 12]`.
pub open spec fn be_vec3(data: Seq<u8>, i: int) -> Vec3 {
    Vec3 { x: be_u32(data, i), y: be_u32(data, i + 4), z: be_u32(data, i + 8) }
}

impl Vec3 {
    /// Reads a vector from exactly twelve bytes.
    pub fn raw_new(data: &[u8; 12]) -> (r: Result<Vec3, ParseError>)
        ensures
            r == Ok::<Vec3, ParseError>(be_vec3(data@, 0)),
    {
        let s = data.as_slice();
        Ok(Vec3 { x: read_be_u32(s, 0), y: read_be_u32(s, 4), z: read_be_u32(s, 8) })
    }
}

impl FromBytes for Vec3 {
    open spec fn spec_from_bytes(data: Seq<u8>, offset: int, ctx: Part) -> Result<Vec3, ParseError> {
        if in_range(data, offset, 12) {
            Ok(be_vec3(data, offset))
        } else {
            Err(ParseError::OutOfBounds(ctx))
        }
    }

    fn from_bytes(data: &[u8], offset: usize, ctx: Part) -> (r: Result<Vec3, ParseError>) {
        if fits(data, offset, 12) {
            Ok(
                Vec3 {
                    x: read_be_u32(data, offset),
                    y: read_be_u32(data, offset + 4),
                    z: read_be_u32(data, offset + 8),
                },
            )
        } else {
            Err(ParseError::OutOfBounds(ctx))
        }
    }
}

// ---------------------------------------------------------------------------
// Kinds of sub-files
// ---------------------------------------------------------------------------

/// The kind of a sub-file, named by the four-character magic it starts with.
#[allow(non_camel_case_types)]
#[derive(Clone, Copy, Debug, PartialEq, Eq, Structural)]
pub enum SectionType {
    MDL0,
    TEX0,
    SRT0,
    CHR0,
    PAT0,
    CLR0,
    SHP0,
    SCN0,
    PLT0,
    VIS0,
}

/// The magic of each kind of sub-file.
pub open spec fn section_magic(t: SectionType) -> Seq<char> {
    match t {
        SectionType::MDL0 => seq!['M', 'D', 'L', '0'],
        SectionType::TEX0 => seq!['T', 'E', 'X', '0'],
        SectionType::SRT0 => seq!['S', 'R', 'T', '0'],
        SectionType::CHR0 => seq!['C', 'H', 'R', '0'],
        SectionType::PAT0 => seq!['P', 'A', 'T', '0'],
        SectionType::CLR0 => seq!['C', 'L', 'R', '0'],
        SectionType::SHP0 => seq!['S', 'H', 'P', '0'],
        SectionType::SCN0 => seq!['S', 'C', 'N', '0'],
        SectionType::PLT0 => seq!['P', 'L', 'T', '0'],
        SectionType::VIS0 => seq!['V', 'I', 'S', '0'],
    }
}

/// The kind whose magic is `s`, if any.
pub open spec fn spec_section_type(s: Seq<char>) -> Option<SectionType> {
    if s == section_magic(SectionType::MDL0) {
        Some(SectionType::MDL0)
    } else if s == section_magic(SectionType::TEX0) {
        Some(SectionType::TEX0)
    } else if s == section_magic(SectionType::SRT0) {
        Some(SectionType::SRT0)
    } else if s == section_magic(SectionType::CHR0) {
        Some(SectionType::CHR0)
    } else if s == section_magic(SectionType::PAT0) {
        Some(SectionType::PAT0)
    } else if s == section_magic(SectionType::CLR0) {
        Some(SectionType::CLR0)
    } else if s == section_magic(SectionType::SHP0) {
        Some(SectionType::SHP0)
    } else if s == section_magic(SectionType::SCN0) {
        Some(SectionType::SCN0)
    } else if s == section_magic(SectionType::PLT0) {
        Some(SectionType::PLT0)
    } else if s == section_magic(SectionType::VIS0) {
        Some(SectionType::VIS0)
    } else {
        None
    }
}

/// How many section offsets a sub-file of kind `t` and format `version` lists
/// after its header.
pub open spec fn spec_section_count(t: SectionType, version: u32) -> u32 {
    match t {
        SectionType::MDL0 => if version == 8 {
            11
        } else if version == 11 {
            14
        } else {
            0
        },
        SectionType::TEX0 => if version == 1 || version == 3 {
            1
        } else if version == 2 {
            2
        } else {
            0
        },
        SectionType::SRT0 => if version == 4 {
            1
        } else if version == 5 {
            2
        } else {
            0
        },
        SectionType::CHR0 => if version == 3 {
            1
        } else if version == 5 {
            2
        } else {
            0
        },
        SectionType::PAT0 => if version == 4 {
            6
        } else {
            0
        },
        SectionType::CLR0 => if version == 4 {
            2
        } else {
            0
        },
        SectionType::SHP0 => if version == 4 {
            3
        } else {
            0
        },
        SectionType::SCN0 => if version == 4 {
            6
        } else if version == 5 {
            7
        } else {
            0
        },
        SectionType::PLT0 => 0,
        SectionType::VIS0 => 0,
    }
}

/// The characters of `s` are exactly `a`, `b`, `c`, `d`.
pub(crate) fn chars_are(s: &str, a: char, b: char, c: char, d: char) -> (r: bool)
    ensures
        r == (s@ == seq![a, b, c, d]),
{
    if s.unicode_len() != 4 {
        return false;
    }
    let r = s.get_char(0) == a && s.get_char(1) == b && s.get_char(2) == c && s.get_char(3) == d;
    proof {
        if r {
            assert(s@ =~= seq![a, b, c, d]);
        }
    }
    r
}

impl SectionType {
    /// The kind of sub-file whose magic is `magic`.
    pub fn str_to_type(magic: String) -> (r: Result<SectionType, ParseError>)
        ensures
            r == match spec_section_type(magic@) {
                Some(t) => Ok::<SectionType, ParseError>(t),
                None => Err(ParseError::BadMagic(Part::SubFileHeader)),
            },
    {
        let s = magic.as_str();
        if chars_are(s, 'M', 'D', 'L', '0') {
            Ok(SectionType::MDL0)
        } else if chars_are(s, 'T', 'E', 'X', '0') {
            Ok(SectionType::TEX0)
        } else if chars_are(s, 'S', 'R', 'T', '0') {
            Ok(SectionType::SRT0)
        } else if chars_are(s, 'C', 'H', 'R', '0') {
            Ok(SectionType::CHR0)
        } else if chars_are(s, 'P', 'A', 'T', '0') {
            Ok(SectionType::PAT0)
        } else if chars_are(s, 'C', 'L', 'R', '0') {
            Ok(SectionType::CLR0)
        } else if chars_are(s, 'S', 'H', 'P', '0') {
            Ok(SectionType::SHP0)
        } else if chars_are(s, 'S', 'C', 'N', '0') {
            Ok(SectionType::SCN0)
        } else if chars_are(s, 'P', 'L', 'T', '0') {
            Ok(SectionType::PLT0)
        } else if chars_are(s, 'V', 'I', 'S', '0') {
            Ok(SectionType::VIS0)
        } else {
            Err(ParseError::BadMagic(Part::SubFileHeader))
        }
    }

    /// How many section offsets a sub-file of this kind and format `version`
    /// lists after its header.
    pub fn get_section_count(&self, version: u32) -> (r: u32)
        ensures
            r == spec_section_count(*self, version),
    {
        match self {
            SectionType::MDL0 => match version {
                8 => 11,
                11 => 14,
                _ => 0,
            },
            SectionType::TEX0 => match version {
                1 => 1,
                2 => 2,
                3 => 1,
                _ => 0,
            },
            SectionType::SRT0 => match version {
                4 => 1,
                5 => 2,
                _ => 0,
            },
            SectionType::CHR0 => match version {
                3 => 1,
                5 => 2,
                _ => 0,
            },
            SectionType::PAT0 => match version {
                4 => 6,
                _ => 0,
            },
            SectionType::CLR0 => match version {
                4 => 2,
                _ => 0,
            },
            SectionType::SHP0 => match version {
                4 => 3,
                _ => 0,
            },
            SectionType::SCN0 => match version {
                4 => 6,
                5 => 7,
                _ => 0,
            },
            SectionType::PLT0 => 0,
            SectionType::VIS0 => 0,
        }
    }

    /// The magic of this kind of sub-file.
    pub fn as_str(&self) -> (r: &'static str)
        ensures
            r@ == section_magic(*self),
    {
        match self {
            SectionType::MDL0 => {
                proof {
                    reveal_strlit("MDL0");
                }
                "MDL0"
            },
            SectionType::TEX0 => {
                proof {
                    reveal_strlit("TEX0");
                }
                "TEX0"
            },
            SectionType::SRT0 => {
                proof {
                    reveal_strlit("SRT0");
                }
                "SRT0"
            },
            SectionType::CHR0 => {
                proof {
                    reveal_strlit("CHR0");
                }
                "CHR0"
            },
            SectionType::PAT0 => {
                proof {
                    reveal_strlit("PAT0");
                }
                "PAT0"
            },
            SectionType::CLR0 => {
                proof {
                    reveal_strlit("CLR0");
                }
                "CLR0"
            },
            SectionType::SHP0 => {
                proof {
                    reveal_strlit("SHP0");
                }
                "SHP0"
            },
            SectionType::SCN0 => {
                proof {
                    reveal_strlit("SCN0");
                }
                "SCN0"
            },
            SectionType::PLT0 => {
                proof {
                    reveal_strlit("PLT0");
                }
                "PLT0"
            },
            SectionType::VIS0 => {
                proof {
                    reveal_strlit("VIS0");
                }
                "VIS0"
            },
        }
    }
}

/// Distinct kinds have distinct magics, so reading back the magic of a kind
/// gives that kind again.
pub proof fn lemma_section_magic_round_trip(t: SectionType)
    ensures
        spec_section_type(section_magic(t)) == Some(t),
{
}

/// Byte order mark of an archive.
#[derive(Clone, Copy, Debug, PartialEq, Eq, Structural)]
pub enum Endian {
    Big,
    Little,
}

impl Endian {
    /// The name of the byte order.
    pub fn as_str(&self) -> (r: &'static str)
        ensures
            r@ == (match *self {
                Endian::Big => seq!['B', 'i', 'g'],
                Endian::Little => seq!['L', 'i', 't', 't', 'l', 'e'],
            }),
    {
        match self {
            Endian::Big => {
                proof {
                    reveal_strlit("Big");
                }
                "Big"
            },
            Endian::Little => {
                proof {
                    reveal_strlit("Little");
                }
                "Little"
            },
        }
    }
}

} // verus!
