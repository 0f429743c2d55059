//! Index groups: the folders of an archive.
//!
//! A group is an eight-byte header followed by sixteen-byte entries. The
//! entry at the header's end is the group's root; every entry names up to two
//! children by their index in the group, and an index counts as a child only
//! where the child's id is smaller than the parent's, so following children
//! always ends. An entry other than the root names a nested group or a
//! sub-file through its data pointer, relative to the start of its group.
//! Reading keeps the offsets of the groups it is inside of; a nested group
//! at one of those offsets would make it start over without end, and is
//! reported as a cycle.
use vstd::prelude::*;
use vstd::set_lib::{lemma_int_range, set_int_range};

use crate::common::{
    be_u16, be_u32, big_endian, in_range, lemma_be_u16_subrange, lemma_big_endian_values, lemma_be_u32_subrange, read, read_be_u16, read_be_u32, result_view, spec_variable_string,
    ParseError, Part, VariableString,
};
use crate::subfile::{
    spec_generate, spec_subfile_header, HeaderView, SubFile, SubFileDataView, SubFileView,
};
use vstd::utf8::{decode_utf8, valid_utf8};
use crate::RawBrres;

verus! {

/// The header of an index group, with the tree of its entries.
pub struct IndexHeader {
    pub len_group: u32,
    pub num_group: u32,
    pub root: IndexEntry,
    pub offset: usize,
}

/// One entry of an index group, with the entries below it.
pub struct IndexEntry {
    pub id: u16,
    pub flag: u16,
    pub left_idx: u16,
    pub left: Option<Box<IndexEntry>>,
    pub right_idx: u16,
    pub right: Option<Box<IndexEntry>>,
    pub name: String,
    pub len_name: u32,
    pub data_ptr: u32,
    pub root: bool,
    pub current_idx: u16,
    pub group_offset: usize,
    pub sub_index: Option<Box<IndexHeader>>,
    pub sub_file: Option<SubFile>,
}

/// What an [`IndexHeader`] holds, as plain values.
pub struct IndexHeaderView {
    pub len_group: u32,
    pub num_group: u32,
    pub root: IndexEntryView,
    pub offset: usize,
}

/// What an [`IndexEntry`] holds, as plain values.
pub struct IndexEntryView {
    pub id: u16,
    pub flag: u16,
    pub left_idx: u16,
    pub left: Option<Box<IndexEntryView>>,
    pub right_idx: u16,
    pub right: Option<Box<IndexEntryView>>,
    pub name: Seq<char>,
    pub len_name: u32,
    pub data_ptr: u32,
    pub root: bool,
    pub current_idx: u16,
    pub group_offset: usize,
    pub sub_index: Option<Box<IndexHeaderView>>,
    pub sub_file: Option<SubFileView>,
}

impl IndexHeader {
    /// The header as plain values.
    pub open spec fn view_header(self) -> IndexHeaderView
        decreases self,
    {
        IndexHeaderView {
            len_group: self.len_group,
            num_group: self.num_group,
            root: self.root.view_entry(),
            offset: self.offset,
        }
    }
}

impl IndexEntry {
    /// The entry as plain values.
    pub open spec fn view_entry(self) -> IndexEntryView
        decreases self,
    {
        IndexEntryView {
            id: self.id,
            flag: self.flag,
            left_idx: self.left_idx,
            left: match self.left {
                Some(b) => Some(Box::new((*b).view_entry())),
                None => None,
            },
            right_idx: self.right_idx,
            right: match self.right {
                Some(b) => Some(Box::new((*b).view_entry())),
                None => None,
            },
            name: self.name@,
            len_name: self.len_name,
            data_ptr: self.data_ptr,
            root: self.root,
            current_idx: self.current_idx,
            group_offset: self.group_offset,
            sub_index: match self.sub_index {
                Some(h) => Some(Box::new((*h).view_header())),
                None => None,
            },
            sub_file: match self.sub_file {
                Some(f) => Some(f@),
                None => None,
            },
        }
    }
}

impl View for IndexHeader {
    type V = IndexHeaderView;

    open spec fn view(&self) -> IndexHeaderView {
        self.view_header()
    }
}

impl View for IndexEntry {
    type V = IndexEntryView;

    open spec fn view(&self) -> IndexEntryView {
        self.view_entry()
    }
}

/// A nested group as plain values.
pub open spec fn sub_index_view(h: Option<Box<IndexHeader>>) -> Option<Box<IndexHeaderView>> {
    match h {
        Some(b) => Some(Box::new((*b).view_header())),
        None => None,
    }
}

/// A child entry as plain values.
pub open spec fn child_view(e: Option<Box<IndexEntry>>) -> Option<Box<IndexEntryView>> {
    match e {
        Some(b) => Some(Box::new((*b).view_entry())),
        None => None,
    }
}

/// A sub-file as plain values.
pub open spec fn sub_file_view(f: Option<SubFile>) -> Option<SubFileView> {
    match f {
        Some(f) => Some(f@),
        None => None,
    }
}

/// The offsets of a chain of groups, as a set.
pub open spec fn chain_members(chain: Seq<int>) -> Set<int> {
    Set::new(|x: int| chain.contains(x))
}

/// How many offsets of the archive hold none of the groups of `chain`: what
/// decreases each time reading enters a nested group.
pub open spec fn chain_measure(d: Seq<u8>, chain: Seq<int>) -> nat {
    set_int_range(0, d.len() as int).difference(chain_members(chain)).len()
}

/// A chain with one more group holds what the chain held, and that group.
pub proof fn lemma_contains_push(chain: Seq<int>, off: int, x: int)
    ensures
        chain.push(off).contains(x) <==> (chain.contains(x) || x == off),
{
    if chain.push(off).contains(x) {
        let i = choose|i: int| 0 <= i < chain.push(off).len() && chain.push(off)[i] == x;
        if i < chain.len() {
            assert(chain[i] == x);
        }
    }
    if chain.contains(x) {
        let i = choose|i: int| 0 <= i < chain.len() && chain[i] == x;
        assert(chain.push(off)[i] == x);
    }
    if x == off {
        assert(chain.push(off)[chain.len() as int] == x);
    }
}

/// Entering a group at an offset of the archive that the chain does not
/// hold yet leaves fewer offsets free.
pub proof fn lemma_chain_measure_push(d: Seq<u8>, chain: Seq<int>, off: int)
    requires
        0 <= off < d.len(),
        !chain.contains(off),
    ensures
        chain_measure(d, chain.push(off)) < chain_measure(d, chain),
{
    let range = set_int_range(0, d.len() as int);
    lemma_int_range(0, d.len() as int);
    let free = range.difference(chain_members(chain));
    assert(chain_members(chain.push(off)) =~= chain_members(chain).insert(off)) by {
        assert forall|x: int| chain.push(off).contains(x) <==> (chain.contains(x) || x == off) by {
            lemma_contains_push(chain, off, x);
        }
    }
    assert(range.difference(chain_members(chain.push(off))) =~= free.remove(off));
    assert(free.contains(off));
}

/// Where the entry with index `idx` of the group whose entries start at
/// `root_offset` lies (the root entry lies at `root_offset` itself).
pub open spec fn entry_offset(root_offset: int, root: bool, idx: u16) -> int {
    if root {
        root_offset
    } else {
        root_offset + 16 * idx
    }
}

/// Twice the id of the entry at that place, plus four, where it lies inside
/// the archive: what decreases from an entry to its children.
pub open spec fn entry_measure(d: Seq<u8>, root_offset: int, root: bool, idx: u16) -> int {
    let off = entry_offset(root_offset, root, idx);
    if in_range(d, off, 16) {
        2 * be_u16(d, off) + 4
    } else {
        0
    }
}

/// Index `c` names a child of an entry with id `id`: it is not zero, and the
/// entry it names has a smaller id.
pub open spec fn spec_is_child(d: Seq<u8>, root_offset: int, id: u16, c: u16) -> bool {
    &&& c != 0
    &&& in_range(d, root_offset + 16 * c, 2)
    &&& be_u16(d, root_offset + 16 * c) < id
}

/// The four bytes of `m` are ASCII letters or digits: the magic of a
/// sub-file, rather than the header of a nested group.
pub open spec fn all_alphanumeric(m: Seq<u8>) -> bool {
    forall|i: int| 0 <= i < m.len() ==> is_alphanumeric(#[trigger] m[i])
}

/// `b` is an ASCII letter or digit.
pub open spec fn is_alphanumeric(b: u8) -> bool {
    (0x30 <= b <= 0x39) || (0x41 <= b <= 0x5A) || (0x61 <= b <= 0x7A)
}

/// The characters of the root entry's name.
pub open spec fn root_name() -> Seq<char> {
    seq!['R', 'O', 'O', 'T']
}

/// The name of an entry: `ROOT` for the root entry, else the length-prefixed
/// name at `rel_name_off` from the start of the group.
pub open spec fn spec_entry_name(d: Seq<u8>, root: bool, group_offset: int, rel_name_off: u32) -> Result<
    (Seq<char>, u32),
    ParseError,
> {
    if root {
        Ok((root_name(), 4u32))
    } else {
        match spec_variable_string(d, group_offset + rel_name_off, Part::IndexEntry) {
            Ok(v) => Ok((v.string, v.length as u32)),
            Err(e) => Err(e),
        }
    }
}

/// The child that index `c` of an entry with id `id` names, if it names one.
pub open spec fn spec_child(d: Seq<u8>, root_offset: int, id: u16, c: u16, chain: Seq<int>) -> Result<
    Option<Box<IndexEntryView>>,
    ParseError,
>
    decreases chain_measure(d, chain), 2 * id + 3,
{
    if spec_is_child(d, root_offset, id, c) {
        match spec_index_entry(d, root_offset, false, c, chain) {
            Ok(e) => Ok(Some(Box::new(e))),
            Err(e) => Err(e),
        }
    } else {
        Ok(None)
    }
}

/// The group whose header lies at `offset`, read inside the groups at the
/// offsets of `outer` (the groups still being read around it). A group that
/// lies where one of those lies makes reading start over without end.
pub open spec fn spec_index_header(d: Seq<u8>, offset: int, outer: Seq<int>) -> Result<
    IndexHeaderView,
    ParseError,
>
    decreases chain_measure(d, outer), 0int,
{
    if outer.contains(offset) {
        Err(ParseError::Cycle)
    } else if !in_range(d, offset, 8) {
        Err(ParseError::OutOfBounds(Part::IndexHeader))
    } else {
        proof {
            lemma_chain_measure_push(d, outer, offset);
        }
        match spec_index_entry(d, offset + 8, true, 0, outer.push(offset)) {
            Err(e) => Err(e),
            Ok(root) => Ok(
                IndexHeaderView {
                    len_group: be_u32(d, offset),
                    num_group: be_u32(d, offset + 4),
                    root,
                    offset: offset as usize,
                },
            ),
        }
    }
}

/// The entry `idx` (or the root entry) of the group whose entries start at
/// `root_offset`, with its children, its name, and what it points to, read
/// inside the groups at the offsets of `chain`.
pub open spec fn spec_index_entry(
    d: Seq<u8>,
    root_offset: int,
    root: bool,
    idx: u16,
    chain: Seq<int>,
) -> Result<IndexEntryView, ParseError>
    decreases chain_measure(d, chain), entry_measure(d, root_offset, root, idx),
{
    let off = entry_offset(root_offset, root, idx);
    if !in_range(d, off, 16) {
        Err(ParseError::OutOfBounds(Part::IndexEntry))
    } else {
        let id = be_u16(d, off);
        match spec_child(d, root_offset, id, be_u16(d, off + 4), chain) {
            Err(e) => Err(e),
            Ok(left) => match spec_child(d, root_offset, id, be_u16(d, off + 6), chain) {
                Err(e) => Err(e),
                Ok(right) => match spec_entry_name(d, root, root_offset - 8, be_u32(d, off + 8)) {
                    Err(e) => Err(e),
                    Ok((name, len_name)) => match spec_entry_data(
                        d,
                        root,
                        be_u32(d, off + 12),
                        root_offset - 8,
                        chain,
                    ) {
                        Err(e) => Err(e),
                        Ok((sub_index, sub_file)) => Ok(
                            entry_view_of(
                                d,
                                root_offset,
                                root,
                                idx,
                                left,
                                right,
                                name,
                                len_name,
                                sub_index,
                                sub_file,
                            ),
                        ),
                    },
                },
            },
        }
    }
}

/// What the data pointer of an entry points to: nothing for the root entry.
pub open spec fn spec_entry_data(
    d: Seq<u8>,
    root: bool,
    data_ptr: u32,
    group_offset: int,
    chain: Seq<int>,
) -> Result<(Option<Box<IndexHeaderView>>, Option<SubFileView>), ParseError>
    decreases chain_measure(d, chain), 2int,
{
    if root {
        Ok((None, None))
    } else {
        spec_parse_data(d, data_ptr, group_offset, chain)
    }
}

/// The entry at its place in the archive, with the parts read elsewhere.
pub open spec fn entry_view_of(
    d: Seq<u8>,
    root_offset: int,
    root: bool,
    idx: u16,
    left: Option<Box<IndexEntryView>>,
    right: Option<Box<IndexEntryView>>,
    name: Seq<char>,
    len_name: u32,
    sub_index: Option<Box<IndexHeaderView>>,
    sub_file: Option<SubFileView>,
) -> IndexEntryView {
    let off = entry_offset(root_offset, root, idx);
    IndexEntryView {
        id: be_u16(d, off),
        flag: be_u16(d, off + 2),
        left_idx: be_u16(d, off + 4),
        left,
        right_idx: be_u16(d, off + 6),
        right,
        name,
        len_name,
        data_ptr: be_u32(d, off + 12),
        root,
        current_idx: idx,
        group_offset: (root_offset - 8) as usize,
        sub_index,
        sub_file,
    }
}

/// What the data pointer `data_ptr` of an entry in the group at
/// `group_offset` points to, read inside the groups at the offsets of
/// `chain`: a nested group, or (where its first four bytes are letters or
/// digits, the magic of a sub-file) a sub-file.
pub open spec fn spec_parse_data(
    d: Seq<u8>,
    data_ptr: u32,
    group_offset: int,
    chain: Seq<int>,
) -> Result<(Option<Box<IndexHeaderView>>, Option<SubFileView>), ParseError>
    decreases chain_measure(d, chain), 1int,
{
    let start = data_ptr + group_offset;
    if start > u32::MAX {
        Err(ParseError::Overflow(Part::IndexEntry))
    } else if !in_range(d, start, 4) {
        Err(ParseError::OutOfBounds(Part::IndexEntry))
    } else if !all_alphanumeric(d.subrange(start, start + 4)) {
        match spec_index_header(d, start, chain) {
            Ok(h) => Ok((Some(Box::new(h)), None)),
            Err(e) => Err(e),
        }
    } else {
        match spec_subfile_header(d, start) {
            Ok(h) => Ok((None, Some(SubFileView { header: h, file: None }))),
            Err(e) => Err(e),
        }
    }
}

/// Whether the child index `child_idx` names a child of an entry with id
/// `id`.
fn is_child(brres: RawBrres, root_offset: usize, id: u16, child_idx: u16) -> (r: bool)
    ensures
        r == spec_is_child(brres@, root_offset as int, id, child_idx),
{
    if child_idx == 0 {
        return false;
    }
    let child_off = match root_offset.checked_add(16 * (child_idx as usize)) {
        Some(o) => o,
        None => {
            proof {
                brres.lemma_len();
            }
            return false;
        },
    };
    match brres.slice(child_off, 2) {
        Some(s) => read_be_u16(s, 0) < id,
        None => false,
    }
}

/// The four bytes are ASCII letters or digits.
fn is_magic(m: &[u8]) -> (r: bool)
    ensures
        r == all_alphanumeric(m@),
{
    let mut i: usize = 0;
    while i < m.len()
        invariant
            i <= m.len(),
            forall|j: int| 0 <= j < i ==> is_alphanumeric(#[trigger] m@[j]),
        decreases m.len() - i,
    {
        let b = m[i];
        if !((0x30 <= b && b <= 0x39) || (0x41 <= b && b <= 0x5A) || (0x61 <= b && b <= 0x7A)) {
            return false;
        }
        i = i + 1;
    }
    true
}

/// The offsets of a chain of groups, as integers.
pub open spec fn chain_view(chain: Seq<usize>) -> Seq<int> {
    chain.map_values(|x: usize| x as int)
}

/// Whether a group of the chain lies at `offset`.
fn chain_contains(chain: &Vec<usize>, offset: usize) -> (r: bool)
    ensures
        r == chain_view(chain@).contains(offset as int),
{
    let mut i: usize = 0;
    while i < chain.len()
        invariant
            i <= chain.len(),
            forall|j: int| 0 <= j < i ==> chain@[j] != offset,
        decreases chain.len() - i,
    {
        if chain[i] == offset {
            assert(chain_view(chain@)[i as int] == offset as int);
            return true;
        }
        i = i + 1;
    }
    proof {
        if chain_view(chain@).contains(offset as int) {
            let j = choose|j: int|
                0 <= j < chain_view(chain@).len() && chain_view(chain@)[j] == offset as int;
            assert(chain@[j] == offset);
        }
    }
    false
}

/// The chain with one more group, at `offset`.
fn chain_push(chain: &Vec<usize>, offset: usize) -> (r: Vec<usize>)
    ensures
        chain_view(r@) == chain_view(chain@).push(offset as int),
{
    let mut r: Vec<usize> = Vec::new();
    let mut i: usize = 0;
    while i < chain.len()
        invariant
            i <= chain.len(),
            r@ == chain@.subrange(0, i as int),
        decreases chain.len() - i,
    {
        r.push(chain[i]);
        i = i + 1;
        proof {
            assert(r@ =~= chain@.subrange(0, i as int));
        }
    }
    r.push(offset);
    proof {
        assert(r@ =~= chain@.push(offset));
        assert(chain_view(r@) =~= chain_view(chain@).push(offset as int));
    }
    r
}

impl IndexHeader {
    /// Reads the group whose header lies at `offset`.
    pub fn new(brres: RawBrres, offset: usize) -> (r: Result<Self, ParseError>)
        ensures
            result_view(r) == spec_index_header(brres@, offset as int, Seq::empty()),
    {
        let chain: Vec<usize> = Vec::new();
        proof {
            assert(chain_view(chain@) =~= Seq::<int>::empty());
        }
        parse_header(brres, offset, &chain)
    }
}

impl IndexEntry {
    /// Reads the entry `current_idx` (or, if `root`, the root entry) of the
    /// group whose entries start at `root_offset`, with all below it.
    pub fn new(brres: RawBrres, root_offset: usize, root: bool, current_idx: u16) -> (r: Result<
        Self,
        ParseError,
    >)
        requires
            root_offset >= 8,
        ensures
            result_view(r) == spec_index_entry(
                brres@,
                root_offset as int,
                root,
                current_idx,
                Seq::empty(),
            ),
    {
        let chain: Vec<usize> = Vec::new();
        proof {
            assert(chain_view(chain@) =~= Seq::<int>::empty());
        }
        parse_entry(brres, root_offset, root, current_idx, &chain)
    }
}

/// Reads the group whose header lies at `offset`, inside the groups at the
/// offsets of `outer`.
pub fn parse_header(brres: RawBrres, offset: usize, outer: &Vec<usize>) -> (r: Result<
    IndexHeader,
    ParseError,
>)
    ensures
        result_view(r) == spec_index_header(brres@, offset as int, chain_view(outer@)),
    decreases chain_measure(brres@, chain_view(outer@)), 0int,
{
    proof {
        brres.lemma_len();
    }
    if chain_contains(outer, offset) {
        return Err(ParseError::Cycle);
    }
    let data = match brres.slice(offset, 8) {
        Some(d) => d,
        None => return Err(ParseError::OutOfBounds(Part::IndexHeader)),
    };
    let len_group = read_be_u32(data, 0);
    let num_group = read_be_u32(data, 4);
    proof {
        lemma_be_u32_subrange(brres@, offset as int, offset + 8, 0);
        lemma_be_u32_subrange(brres@, offset as int, offset + 8, 4);
        lemma_chain_measure_push(brres@, chain_view(outer@), offset as int);
    }
    let chain = chain_push(outer, offset);
    let root = parse_entry(brres, offset + 8, true, 0, &chain)?;
    Ok(IndexHeader { len_group, num_group, root, offset })
}

/// Reads the entry `current_idx` (or, if `root`, the root entry) of the group
/// whose entries start at `root_offset`, inside the groups at the offsets of
/// `chain`.
pub fn parse_entry(
    brres: RawBrres,
    root_offset: usize,
    root: bool,
    current_idx: u16,
    chain: &Vec<usize>,
) -> (r: Result<IndexEntry, ParseError>)
    requires
        root_offset >= 8,
    ensures
        result_view(r) == spec_index_entry(
            brres@,
            root_offset as int,
            root,
            current_idx,
            chain_view(chain@),
        ),
    decreases chain_measure(brres@, chain_view(chain@)), entry_measure(
        brres@,
        root_offset as int,
        root,
        current_idx,
    ),
{
    proof {
        brres.lemma_len();
    }
    let ctx = Part::IndexEntry;
    let group_offset = root_offset - 8;
    let offset = if root {
        root_offset
    } else {
        match root_offset.checked_add(16 * (current_idx as usize)) {
            Some(o) => o,
            None => return Err(ParseError::OutOfBounds(ctx)),
        }
    };
    let (id, flag, left_idx, right_idx, rel_name_off, data_ptr) = match entry_fields(brres, offset) {
        Some(f) => f,
        None => return Err(ParseError::OutOfBounds(ctx)),
    };
    let left = parse_child(brres, root_offset, id, left_idx, chain)?;
    let right = parse_child(brres, root_offset, id, right_idx, chain)?;
    let (name, len_name) = entry_name(brres, root, group_offset, rel_name_off)?;
    let (sub_index, sub_file) = entry_data(brres, root, data_ptr, group_offset, chain)?;
    Ok(
        IndexEntry {
            id,
            flag,
            left_idx,
            left,
            right_idx,
            right,
            name,
            len_name,
            data_ptr,
            root,
            current_idx,
            group_offset,
            sub_index,
            sub_file,
        },
    )
}

/// Reads the sixteen bytes of the entry at `offset`: id, flag, the indices of
/// its two children, the offset of its name and its data pointer.
fn entry_fields(brres: RawBrres, offset: usize) -> (r: Option<(u16, u16, u16, u16, u32, u32)>)
    ensures
        r is Some <==> in_range(brres@, offset as int, 16),
        r matches Some((id, flag, left_idx, right_idx, rel_name_off, data_ptr)) ==> {
            &&& id == be_u16(brres@, offset as int)
            &&& flag == be_u16(brres@, offset + 2)
            &&& left_idx == be_u16(brres@, offset + 4)
            &&& right_idx == be_u16(brres@, offset + 6)
            &&& rel_name_off == be_u32(brres@, offset + 8)
            &&& data_ptr == be_u32(brres@, offset + 12)
        },
{
    let data = match brres.slice(offset, 0x10) {
        Some(d) => d,
        None => return None,
    };
    proof {
        brres.lemma_len();
        lemma_be_u16_subrange(brres@, offset as int, offset + 16, 0);
        lemma_be_u16_subrange(brres@, offset as int, offset + 16, 2);
        lemma_be_u16_subrange(brres@, offset as int, offset + 16, 4);
        lemma_be_u16_subrange(brres@, offset as int, offset + 16, 6);
        lemma_be_u32_subrange(brres@, offset as int, offset + 16, 8);
        lemma_be_u32_subrange(brres@, offset as int, offset + 16, 12);
    }
    Some(
        (
            read_be_u16(data, 0),
            read_be_u16(data, 2),
            read_be_u16(data, 4),
            read_be_u16(data, 6),
            read_be_u32(data, 8),
            read_be_u32(data, 12),
        ),
    )
}

/// Reads what the data pointer of an entry points to: nothing for the root
/// entry.
fn entry_data(
    brres: RawBrres,
    root: bool,
    data_ptr: u32,
    group_offset: usize,
    chain: &Vec<usize>,
) -> (r: Result<
    (Option<Box<IndexHeader>>, Option<SubFile>),
    ParseError,
>)
    ensures
        match r {
            Ok((h, f)) => spec_entry_data(
                brres@,
                root,
                data_ptr,
                group_offset as int,
                chain_view(chain@),
            ) == Ok::<_, ParseError>((sub_index_view(h), sub_file_view(f))),
            Err(e) => spec_entry_data(
                brres@,
                root,
                data_ptr,
                group_offset as int,
                chain_view(chain@),
            ) == Err::<(Option<Box<IndexHeaderView>>, Option<SubFileView>), ParseError>(e),
        },
    decreases chain_measure(brres@, chain_view(chain@)), 2int,
{
    if root {
        Ok((None, None))
    } else {
        parse_data(brres, data_ptr, group_offset, chain)
    }
}

/// Reads the child that index `c` of an entry with id `id` names, if it
/// names one.
fn parse_child(brres: RawBrres, root_offset: usize, id: u16, c: u16, chain: &Vec<usize>) -> (r: Result<
    Option<Box<IndexEntry>>,
    ParseError,
>)
    requires
        root_offset >= 8,
    ensures
        match r {
            Ok(e) => spec_child(brres@, root_offset as int, id, c, chain_view(chain@)) == Ok::<
                _,
                ParseError,
            >(child_view(e)),
            Err(e) => spec_child(brres@, root_offset as int, id, c, chain_view(chain@)) == Err::<
                Option<Box<IndexEntryView>>,
                ParseError,
            >(e),
        },
    decreases chain_measure(brres@, chain_view(chain@)), 2 * id + 3,
{
    if is_child(brres, root_offset, id, c) {
        let e = parse_entry(brres, root_offset, false, c, chain)?;
        Ok(Some(Box::new(e)))
    } else {
        Ok(None)
    }
}

/// Reads the name of an entry of the group at `group_offset`.
fn entry_name(brres: RawBrres, root: bool, group_offset: usize, rel_name_off: u32) -> (r: Result<
    (String, u32),
    ParseError,
>)
    ensures
        match r {
            Ok((name, len)) => spec_entry_name(brres@, root, group_offset as int, rel_name_off)
                == Ok::<_, ParseError>((name@, len)),
            Err(e) => spec_entry_name(brres@, root, group_offset as int, rel_name_off) == Err::<
                (Seq<char>, u32),
                ParseError,
            >(e),
        },
{
    if root {
        proof {
            reveal_strlit("ROOT");
            assert("ROOT"@ =~= root_name());
        }
        Ok(("ROOT".to_owned(), 4u32))
    } else {
        let name_off = match group_offset.checked_add(rel_name_off as usize) {
            Some(o) => o,
            None => {
                proof {
                    brres.lemma_len();
                }
                return Err(ParseError::OutOfBounds(Part::IndexEntry));
            },
        };
        let v: VariableString = read(brres.bytes(), name_off, Part::IndexEntry)?;
        Ok((v.string, v.length as u32))
    }
}

/// Reads what the data pointer `data_ptr` of an entry in the group at
/// `group_offset` points to, inside the groups at the offsets of `chain`.
fn parse_data(brres: RawBrres, data_ptr: u32, group_offset: usize, chain: &Vec<usize>) -> (r: Result<
    (Option<Box<IndexHeader>>, Option<SubFile>),
    ParseError,
>)
    ensures
        match r {
            Ok((h, f)) => spec_parse_data(
                brres@,
                data_ptr,
                group_offset as int,
                chain_view(chain@),
            ) == Ok::<_, ParseError>((sub_index_view(h), sub_file_view(f))),
            Err(e) => spec_parse_data(
                brres@,
                data_ptr,
                group_offset as int,
                chain_view(chain@),
            ) == Err::<(Option<Box<IndexHeaderView>>, Option<SubFileView>), ParseError>(e),
        },
    decreases chain_measure(brres@, chain_view(chain@)), 1int,
{
    if group_offset > (u32::MAX - data_ptr) as usize {
        return Err(ParseError::Overflow(Part::IndexEntry));
    }
    let start = data_ptr as usize + group_offset;
    let magic_raw = match brres.slice(start, 4) {
        Some(m) => m,
        None => return Err(ParseError::OutOfBounds(Part::IndexEntry)),
    };
    if !is_magic(magic_raw) {
        let sub_index = parse_header(brres, start, chain)?;
        Ok((Some(Box::new(sub_index)), None))
    } else {
        let sub_file = SubFile::new(brres, start)?;
        Ok((None, Some(sub_file)))
    }
}

// ---------------------------------------------------------------------------
// Sub-file content, names and sub-files of a tree
// ---------------------------------------------------------------------------

/// The sub-files of the tree below `e`, in the order in which they are
/// generated: the entry's own (unless it is a root entry), those of its
/// nested group, those below its left child, those below its right child.
pub open spec fn spec_subfiles(e: IndexEntryView) -> Seq<SubFileView>
    decreases e,
{
    let own: Seq<SubFileView> = match e.sub_file {
        Some(f) => if e.root {
            Seq::empty()
        } else {
            seq![f]
        },
        None => Seq::empty(),
    };
    let nested: Seq<SubFileView> = match e.sub_index {
        Some(h) => spec_subfiles(h.root),
        None => Seq::empty(),
    };
    let left: Seq<SubFileView> = match e.left {
        Some(l) => spec_subfiles(*l),
        None => Seq::empty(),
    };
    let right: Seq<SubFileView> = match e.right {
        Some(r) => spec_subfiles(*r),
        None => Seq::empty(),
    };
    own + nested + left + right
}

/// The own sub-file of an entry after generation: only an entry other than
/// a root entry has its sub-file's content read.
pub open spec fn spec_fill_own(f: Option<SubFileView>, root: bool, d: Seq<u8>) -> Result<
    Option<SubFileView>,
    ParseError,
> {
    match f {
        Some(f) => if root {
            Ok(Some(f))
        } else {
            match spec_generate(f.header, d) {
                Ok(x) => Ok(Some(SubFileView { header: f.header, file: Some(x) })),
                Err(err) => Err(err),
            }
        },
        None => Ok(None),
    }
}

/// A nested group after generation of the sub-files below it.
pub open spec fn spec_fill_nested(h: Option<Box<IndexHeaderView>>, d: Seq<u8>) -> Result<
    Option<Box<IndexHeaderView>>,
    ParseError,
>
    decreases h,
{
    match h {
        Some(h) => match spec_fill_entry(h.root, d) {
            Ok(r) => Ok(
                Some(
                    Box::new(
                        IndexHeaderView {
                            len_group: h.len_group,
                            num_group: h.num_group,
                            root: r,
                            offset: h.offset,
                        },
                    ),
                ),
            ),
            Err(err) => Err(err),
        },
        None => Ok(None),
    }
}

/// A child after generation of the sub-files below it.
pub open spec fn spec_fill_child(c: Option<Box<IndexEntryView>>, d: Seq<u8>) -> Result<
    Option<Box<IndexEntryView>>,
    ParseError,
>
    decreases c,
{
    match c {
        Some(c) => match spec_fill_entry(*c, d) {
            Ok(x) => Ok(Some(Box::new(x))),
            Err(err) => Err(err),
        },
        None => Ok(None),
    }
}

/// The tree below `e` with the content of every sub-file generated, in the
/// order of [`spec_subfiles`]; the first sub-file whose content cannot be
/// read gives the error.
pub open spec fn spec_fill_entry(e: IndexEntryView, d: Seq<u8>) -> Result<IndexEntryView, ParseError>
    decreases e,
{
    match spec_fill_own(e.sub_file, e.root, d) {
        Err(err) => Err(err),
        Ok(sub_file) => match spec_fill_nested(e.sub_index, d) {
            Err(err) => Err(err),
            Ok(sub_index) => match spec_fill_child(e.left, d) {
                Err(err) => Err(err),
                Ok(left) => match spec_fill_child(e.right, d) {
                    Err(err) => Err(err),
                    Ok(right) => Ok(IndexEntryView { left, right, sub_index, sub_file, ..e }),
                },
            },
        },
    }
}

/// Generates the content of an entry's own sub-file (unless it is a root
/// entry).
fn fill_own(f: Option<SubFile>, root: bool, brres: RawBrres) -> (r: Result<
    Option<SubFile>,
    ParseError,
>)
    ensures
        match r {
            Ok(x) => spec_fill_own(sub_file_view(f), root, brres@) == Ok::<_, ParseError>(
                sub_file_view(x),
            ),
            Err(e) => spec_fill_own(sub_file_view(f), root, brres@) == Err::<
                Option<SubFileView>,
                ParseError,
            >(e),
        },
{
    match f {
        Some(f) => {
            let mut f = f;
            if !root {
                f.generate_subfile(brres)?;
            }
            Ok(Some(f))
        },
        None => Ok(None),
    }
}

/// Generates the content of the sub-files below a nested group.
fn fill_nested(h: Option<Box<IndexHeader>>, brres: RawBrres) -> (r: Result<
    Option<Box<IndexHeader>>,
    ParseError,
>)
    ensures
        match r {
            Ok(x) => spec_fill_nested(sub_index_view(h), brres@) == Ok::<_, ParseError>(
                sub_index_view(x),
            ),
            Err(e) => spec_fill_nested(sub_index_view(h), brres@) == Err::<
                Option<Box<IndexHeaderView>>,
                ParseError,
            >(e),
        },
    decreases h,
{
    match h {
        Some(h) => {
            let IndexHeader { len_group, num_group, root, offset } = *h;
            let root = root.fill_subfiles(brres)?;
            Ok(Some(Box::new(IndexHeader { len_group, num_group, root, offset })))
        },
        None => Ok(None),
    }
}

/// Generates the content of the sub-files below a child.
fn fill_child(c: Option<Box<IndexEntry>>, brres: RawBrres) -> (r: Result<
    Option<Box<IndexEntry>>,
    ParseError,
>)
    ensures
        match r {
            Ok(x) => spec_fill_child(child_view(c), brres@) == Ok::<_, ParseError>(child_view(x)),
            Err(e) => spec_fill_child(child_view(c), brres@) == Err::<
                Option<Box<IndexEntryView>>,
                ParseError,
            >(e),
        },
    decreases c,
{
    match c {
        Some(c) => {
            let x = (*c).fill_subfiles(brres)?;
            Ok(Some(Box::new(x)))
        },
        None => Ok(None),
    }
}

impl IndexEntry {
    /// Generates the content of every sub-file in the tree below this entry
    /// (its own, unless it is a root entry, then those of its nested group,
    /// its left child and its right child), stopping at the first error.
    pub fn fill_subfiles(self, brres: RawBrres) -> (r: Result<IndexEntry, ParseError>)
        ensures
            result_view(r) == spec_fill_entry(self@, brres@),
        decreases self,
    {
        let IndexEntry {
            id,
            flag,
            left_idx,
            left,
            right_idx,
            right,
            name,
            len_name,
            data_ptr,
            root,
            current_idx,
            group_offset,
            sub_index,
            sub_file,
        } = self;
        let sub_file = fill_own(sub_file, root, brres)?;
        let sub_index = fill_nested(sub_index, brres)?;
        let left = fill_child(left, brres)?;
        let right = fill_child(right, brres)?;
        Ok(
            IndexEntry {
                id,
                flag,
                left_idx,
                left,
                right_idx,
                right,
                name,
                len_name,
                data_ptr,
                root,
                current_idx,
                group_offset,
                sub_index,
                sub_file,
            },
        )
    }
}

/// One line of the listing of a tree's names.
pub enum EntryLine {
    /// The name of an entry.
    Node(String),
    /// The name of an entry whose nested group the listing enters next.
    EnterFolder(String),
}

/// What an [`EntryLine`] holds, as plain values.
pub enum EntryLineView {
    Node(Seq<char>),
    EnterFolder(Seq<char>),
}

impl View for EntryLine {
    type V = EntryLineView;

    open spec fn view(&self) -> EntryLineView {
        match self {
            EntryLine::Node(s) => EntryLineView::Node(s@),
            EntryLine::EnterFolder(s) => EntryLineView::EnterFolder(s@),
        }
    }
}

/// Lines as plain values.
pub open spec fn lines_view(v: Seq<EntryLine>) -> Seq<EntryLineView> {
    v.map_values(|l: EntryLine| l@)
}

/// References to sub-files as plain values.
pub open spec fn subfile_refs_view(v: Seq<&SubFile>) -> Seq<SubFileView> {
    v.map_values(|f: &SubFile| f@)
}

/// The listing of the names in the tree below `e`: the entry's name; where
/// it has a nested group, a line that enters it and that group's listing;
/// then the listings below its left and its right child.
pub open spec fn spec_entry_lines(e: IndexEntryView) -> Seq<EntryLineView>
    decreases e,
{
    let nested: Seq<EntryLineView> = match e.sub_index {
        Some(h) => seq![EntryLineView::EnterFolder(e.name)] + spec_entry_lines(h.root),
        None => Seq::empty(),
    };
    let left: Seq<EntryLineView> = match e.left {
        Some(l) => spec_entry_lines(*l),
        None => Seq::empty(),
    };
    let right: Seq<EntryLineView> = match e.right {
        Some(r) => spec_entry_lines(*r),
        None => Seq::empty(),
    };
    seq![EntryLineView::Node(e.name)] + nested + left + right
}

impl IndexEntry {
    /// Appends the listing of the names in the tree below this entry.
    pub fn entry_names(&self, lines: &mut Vec<EntryLine>)
        ensures
            lines_view(final(lines)@) == lines_view(old(lines)@) + spec_entry_lines(self@),
        decreases self,
    {
        let ghost start = lines_view(lines@);
        lines.push(EntryLine::Node(self.name.clone()));
        proof {
            assert(lines_view(lines@) =~= start + seq![EntryLineView::Node(self.name@)]);
        }
        let ghost after_own = lines_view(lines@);
        match &self.sub_index {
            Some(h) => {
                lines.push(EntryLine::EnterFolder(self.name.clone()));
                proof {
                    assert(lines_view(lines@) =~= after_own + seq![
                        EntryLineView::EnterFolder(self.name@),
                    ]);
                }
                h.root.entry_names(lines);
                proof {
                    assert(self@.sub_index == Some(Box::new(h.view_header())));
                    assert(lines_view(lines@) =~= after_own + (seq![
                        EntryLineView::EnterFolder(self.name@),
                    ] + spec_entry_lines(h.root@)));
                }
            },
            None => {},
        }
        let ghost after_nested = lines_view(lines@);
        match &self.left {
            Some(l) => l.entry_names(lines),
            None => {},
        }
        let ghost after_left = lines_view(lines@);
        match &self.right {
            Some(r) => r.entry_names(lines),
            None => {},
        }
        proof {
            let e = self@;
            let nested: Seq<EntryLineView> = match e.sub_index {
                Some(h) => seq![EntryLineView::EnterFolder(e.name)] + spec_entry_lines(h.root),
                None => Seq::empty(),
            };
            let left: Seq<EntryLineView> = match e.left {
                Some(l) => spec_entry_lines(*l),
                None => Seq::empty(),
            };
            let right: Seq<EntryLineView> = match e.right {
                Some(r) => spec_entry_lines(*r),
                None => Seq::empty(),
            };
            assert(after_nested =~= start + seq![EntryLineView::Node(e.name)] + nested);
            assert(after_left =~= start + seq![EntryLineView::Node(e.name)] + nested + left);
            assert(lines_view(lines@) =~= start + (seq![EntryLineView::Node(e.name)] + nested + left
                + right));
        }
    }

    /// Appends the sub-files of the tree below this entry, in the order of
    /// [`spec_subfiles`].
    pub fn create_subfiles<'a>(&'a self, sub_files: &mut Vec<&'a SubFile>)
        ensures
            subfile_refs_view(final(sub_files)@) == subfile_refs_view(old(sub_files)@)
                + spec_subfiles(self@),
        decreases self,
    {
        let ghost start = subfile_refs_view(sub_files@);
        if !self.root {
            match &self.sub_file {
                Some(f) => {
                    sub_files.push(f);
                    proof {
                        assert(subfile_refs_view(sub_files@) =~= start + seq![f@]);
                    }
                },
                None => {},
            }
        }
        let ghost after_own = subfile_refs_view(sub_files@);
        match &self.sub_index {
            Some(h) => {
                h.root.create_subfiles(sub_files);
                proof {
                    assert(self@.sub_index == Some(Box::new(h.view_header())));
                }
            },
            None => {},
        }
        let ghost after_nested = subfile_refs_view(sub_files@);
        match &self.left {
            Some(l) => l.create_subfiles(sub_files),
            None => {},
        }
        let ghost after_left = subfile_refs_view(sub_files@);
        match &self.right {
            Some(r) => r.create_subfiles(sub_files),
            None => {},
        }
        proof {
            let e = self@;
            let own: Seq<SubFileView> = match e.sub_file {
                Some(f) => if e.root {
                    Seq::empty()
                } else {
                    seq![f]
                },
                None => Seq::empty(),
            };
            let nested: Seq<SubFileView> = match e.sub_index {
                Some(h) => spec_subfiles(h.root),
                None => Seq::empty(),
            };
            let left: Seq<SubFileView> = match e.left {
                Some(l) => spec_subfiles(*l),
                None => Seq::empty(),
            };
            let right: Seq<SubFileView> = match e.right {
                Some(r) => spec_subfiles(*r),
                None => Seq::empty(),
            };
            assert(after_own =~= start + own);
            assert(after_nested =~= start + own + nested);
            assert(after_left =~= start + own + nested + left);
            assert(subfile_refs_view(sub_files@) =~= start + (own + nested + left + right));
        }
    }
}

// ---------------------------------------------------------------------------
// Shape of a parsed tree
// ---------------------------------------------------------------------------

/// The shape that every tree read from an archive has: each child has a
/// smaller id than its parent and is not a root entry; a root entry is named
/// `ROOT` (length 4) and points to nothing; no entry points both to a nested
/// group and to a sub-file; a nested group starts with a root entry.
pub open spec fn wf_entry(e: IndexEntryView) -> bool
    decreases e,
{
    &&& match e.left {
        Some(l) => l.id < e.id && !l.root && wf_entry(*l),
        None => true,
    }
    &&& match e.right {
        Some(r) => r.id < e.id && !r.root && wf_entry(*r),
        None => true,
    }
    &&& (e.root ==> e.name == root_name() && e.len_name == 4 && e.sub_index is None
        && e.sub_file is None)
    &&& !(e.sub_index is Some && e.sub_file is Some)
    &&& match e.sub_index {
        Some(h) => h.root.root && wf_entry(h.root),
        None => true,
    }
}

/// Every group read from an archive has a well-formed tree below a root
/// entry.
pub proof fn lemma_index_header_wf(d: Seq<u8>, offset: int, outer: Seq<int>)
    ensures
        spec_index_header(d, offset, outer) matches Ok(h) ==> h.root.root && wf_entry(h.root),
    decreases chain_measure(d, outer), 0int,
{
    if !outer.contains(offset) && in_range(d, offset, 8) {
        lemma_chain_measure_push(d, outer, offset);
        lemma_index_entry_wf(d, offset + 8, true, 0, outer.push(offset));
    }
}

/// Every entry read from an archive is well formed, and carries the id and
/// the rootness of its place.
pub proof fn lemma_index_entry_wf(
    d: Seq<u8>,
    root_offset: int,
    root: bool,
    idx: u16,
    chain: Seq<int>,
)
    ensures
        spec_index_entry(d, root_offset, root, idx, chain) matches Ok(e) ==> {
            &&& wf_entry(e)
            &&& e.root == root
            &&& e.id == be_u16(d, entry_offset(root_offset, root, idx))
        },
    decreases chain_measure(d, chain), entry_measure(d, root_offset, root, idx),
{
    let off = entry_offset(root_offset, root, idx);
    if in_range(d, off, 16) {
        let id = be_u16(d, off);
        lemma_child_wf(d, root_offset, id, be_u16(d, off + 4), chain);
        lemma_child_wf(d, root_offset, id, be_u16(d, off + 6), chain);
        lemma_entry_data_wf(d, root, be_u32(d, off + 12), root_offset - 8, chain);
        if let Ok(e) = spec_index_entry(d, root_offset, root, idx, chain) {
            assert(wf_entry(e));
        }
    }
}

/// A child read from an archive has a smaller id than its parent.
proof fn lemma_child_wf(d: Seq<u8>, root_offset: int, id: u16, c: u16, chain: Seq<int>)
    ensures
        spec_child(d, root_offset, id, c, chain) matches Ok(Some(x)) ==> x.id < id && !x.root
            && wf_entry(*x),
    decreases chain_measure(d, chain), 2 * id + 3,
{
    if spec_is_child(d, root_offset, id, c) {
        lemma_index_entry_wf(d, root_offset, false, c, chain);
    }
}

proof fn lemma_entry_data_wf(
    d: Seq<u8>,
    root: bool,
    data_ptr: u32,
    group_offset: int,
    chain: Seq<int>,
)
    ensures
        spec_entry_data(d, root, data_ptr, group_offset, chain) matches Ok((h, f)) ==> {
            &&& !(h is Some && f is Some)
            &&& (root ==> h is None && f is None)
            &&& (h matches Some(h) ==> h.root.root && wf_entry(h.root))
        },
    decreases chain_measure(d, chain), 2int,
{
    if !root {
        lemma_parse_data_wf(d, data_ptr, group_offset, chain);
    }
}

proof fn lemma_parse_data_wf(d: Seq<u8>, data_ptr: u32, group_offset: int, chain: Seq<int>)
    ensures
        spec_parse_data(d, data_ptr, group_offset, chain) matches Ok((h, f)) ==> {
            &&& !(h is Some && f is Some)
            &&& (h matches Some(h) ==> h.root.root && wf_entry(h.root))
        },
    decreases chain_measure(d, chain), 1int,
{
    let start = data_ptr + group_offset;
    if start <= u32::MAX && in_range(d, start, 4) && !all_alphanumeric(d.subrange(start, start + 4)) {
        lemma_index_header_wf(d, start, chain);
    }
}

// ---------------------------------------------------------------------------
// What the chain of enclosing groups changes
// ---------------------------------------------------------------------------

/// Every group of `inner` is a group of `outer`.
pub open spec fn chain_within(inner: Seq<int>, outer: Seq<int>) -> bool {
    forall|x: int| inner.contains(x) ==> outer.contains(x)
}

proof fn lemma_chain_within_push(inner: Seq<int>, outer: Seq<int>, off: int)
    requires
        chain_within(inner, outer),
    ensures
        chain_within(inner.push(off), outer.push(off)),
{
    assert forall|x: int| inner.push(off).contains(x) implies outer.push(off).contains(x) by {
        lemma_contains_push(inner, off, x);
        lemma_contains_push(outer, off, x);
    }
}

/// The chain of enclosing groups only detects cycles: a group read inside
/// the groups of `outer` gives, unless it meets a cycle, what it gives
/// inside fewer enclosing groups, and in particular what
/// [`IndexHeader::new`] gives at that offset.
pub proof fn lemma_header_chain(d: Seq<u8>, offset: int, outer: Seq<int>, inner: Seq<int>)
    requires
        chain_within(inner, outer),
    ensures
        spec_index_header(d, offset, outer) != Err::<IndexHeaderView, ParseError>(ParseError::Cycle)
            ==> spec_index_header(d, offset, outer) == spec_index_header(d, offset, inner),
    decreases chain_measure(d, outer), 0int,
{
    if !outer.contains(offset) && in_range(d, offset, 8) {
        lemma_chain_measure_push(d, outer, offset);
        lemma_chain_within_push(inner, outer, offset);
        lemma_entry_chain(d, offset + 8, true, 0, outer.push(offset), inner.push(offset));
    }
}

/// An entry read inside the groups of `outer` gives, unless it meets a
/// cycle, what it gives inside fewer enclosing groups.
pub proof fn lemma_entry_chain(
    d: Seq<u8>,
    root_offset: int,
    root: bool,
    idx: u16,
    outer: Seq<int>,
    inner: Seq<int>,
)
    requires
        chain_within(inner, outer),
    ensures
        spec_index_entry(d, root_offset, root, idx, outer) != Err::<IndexEntryView, ParseError>(
            ParseError::Cycle,
        ) ==> spec_index_entry(d, root_offset, root, idx, outer) == spec_index_entry(
            d,
            root_offset,
            root,
            idx,
            inner,
        ),
    decreases chain_measure(d, outer), entry_measure(d, root_offset, root, idx),
{
    let off = entry_offset(root_offset, root, idx);
    if in_range(d, off, 16) {
        let id = be_u16(d, off);
        lemma_child_chain(d, root_offset, id, be_u16(d, off + 4), outer, inner);
        lemma_child_chain(d, root_offset, id, be_u16(d, off + 6), outer, inner);
        lemma_entry_data_chain(d, root, be_u32(d, off + 12), root_offset - 8, outer, inner);
    }
}

proof fn lemma_child_chain(d: Seq<u8>, root_offset: int, id: u16, c: u16, outer: Seq<int>, inner: Seq<int>)
    requires
        chain_within(inner, outer),
    ensures
        spec_child(d, root_offset, id, c, outer) != Err::<Option<Box<IndexEntryView>>, ParseError>(
            ParseError::Cycle,
        ) ==> spec_child(d, root_offset, id, c, outer) == spec_child(d, root_offset, id, c, inner),
    decreases chain_measure(d, outer), 2 * id + 3,
{
    if spec_is_child(d, root_offset, id, c) {
        lemma_entry_chain(d, root_offset, false, c, outer, inner);
    }
}

proof fn lemma_entry_data_chain(
    d: Seq<u8>,
    root: bool,
    data_ptr: u32,
    group_offset: int,
    outer: Seq<int>,
    inner: Seq<int>,
)
    requires
        chain_within(inner, outer),
    ensures
        spec_entry_data(d, root, data_ptr, group_offset, outer) != Err::<
            (Option<Box<IndexHeaderView>>, Option<SubFileView>),
            ParseError,
        >(ParseError::Cycle) ==> spec_entry_data(d, root, data_ptr, group_offset, outer)
            == spec_entry_data(d, root, data_ptr, group_offset, inner),
    decreases chain_measure(d, outer), 2int,
{
    if !root {
        lemma_parse_data_chain(d, data_ptr, group_offset, outer, inner);
    }
}

/// What a data pointer points to, read inside the groups of `outer`, is,
/// unless it meets a cycle, what it is inside fewer enclosing groups: a
/// nested group's errors are passed on unchanged.
pub proof fn lemma_parse_data_chain(
    d: Seq<u8>,
    data_ptr: u32,
    group_offset: int,
    outer: Seq<int>,
    inner: Seq<int>,
)
    requires
        chain_within(inner, outer),
    ensures
        spec_parse_data(d, data_ptr, group_offset, outer) != Err::<
            (Option<Box<IndexHeaderView>>, Option<SubFileView>),
            ParseError,
        >(ParseError::Cycle) ==> spec_parse_data(d, data_ptr, group_offset, outer)
            == spec_parse_data(d, data_ptr, group_offset, inner),
    decreases chain_measure(d, outer), 1int,
{
    let start = data_ptr + group_offset;
    if start <= u32::MAX && in_range(d, start, 4) && !all_alphanumeric(d.subrange(start, start + 4)) {
        lemma_header_chain(d, start, outer, inner);
    }
}

/// The tree below `e` with the content of every sub-file dropped.
pub open spec fn skeleton(e: IndexEntryView) -> IndexEntryView
    decreases e,
{
    IndexEntryView {
        left: match e.left {
            Some(l) => Some(Box::new(skeleton(*l))),
            None => None,
        },
        right: match e.right {
            Some(r) => Some(Box::new(skeleton(*r))),
            None => None,
        },
        sub_index: match e.sub_index {
            Some(h) => Some(
                Box::new(
                    IndexHeaderView {
                        len_group: h.len_group,
                        num_group: h.num_group,
                        root: skeleton(h.root),
                        offset: h.offset,
                    },
                ),
            ),
            None => None,
        },
        sub_file: match e.sub_file {
            Some(f) => Some(SubFileView { header: f.header, file: None }),
            None => None,
        },
        ..e
    }
}

/// Every sub-file of `s` holds the content that its header gives.
pub open spec fn all_generated(s: Seq<SubFileView>, d: Seq<u8>) -> bool {
    forall|i: int|
        0 <= i < s.len() ==> {
            &&& (#[trigger] s[i]).file is Some
            &&& spec_generate(s[i].header, d) == Ok::<SubFileDataView, ParseError>(s[i].file->0)
        }
}

/// `after` is `before` with the content of every sub-file generated.
pub open spec fn generated_from(before: Seq<SubFileView>, after: Seq<SubFileView>, d: Seq<u8>) -> bool {
    &&& before.len() == after.len()
    &&& forall|i: int| 0 <= i < before.len() ==> (#[trigger] after[i]).header == before[i].header
    &&& all_generated(after, d)
}

proof fn lemma_generated_from_concat(
    a1: Seq<SubFileView>,
    b1: Seq<SubFileView>,
    a2: Seq<SubFileView>,
    b2: Seq<SubFileView>,
    d: Seq<u8>,
)
    requires
        generated_from(a1, b1, d),
        generated_from(a2, b2, d),
    ensures
        generated_from(a1 + a2, b1 + b2, d),
{
    let a = a1 + a2;
    let b = b1 + b2;
    assert forall|i: int| 0 <= i < a.len() implies (#[trigger] b[i]).header == a[i].header by {
        if i < a1.len() {
            assert(b[i] == b1[i] && a[i] == a1[i]);
        } else {
            assert(b[i] == b2[i - a1.len()] && a[i] == a2[i - a1.len()]);
        }
    }
    assert forall|i: int| 0 <= i < b.len() implies {
        &&& (#[trigger] b[i]).file is Some
        &&& spec_generate(b[i].header, d) == Ok::<SubFileDataView, ParseError>(b[i].file->0)
    } by {
        if i < b1.len() {
            assert(b[i] == b1[i]);
        } else {
            assert(b[i] == b2[i - b1.len()]);
        }
    }
}

/// Generating the content of the sub-files of a tree changes nothing but
/// that content, fills every sub-file in the order of [`spec_subfiles`] with
/// the content its header gives, and keeps a well-formed tree well formed.
pub proof fn lemma_fill_entry(e: IndexEntryView, d: Seq<u8>)
    ensures
        spec_fill_entry(e, d) matches Ok(e2) ==> {
            &&& skeleton(e2) == skeleton(e)
            &&& generated_from(spec_subfiles(e), spec_subfiles(e2), d)
            &&& (wf_entry(e) ==> wf_entry(e2))
        },
    decreases e,
{
    if let Ok(e2) = spec_fill_entry(e, d) {
        let own: Seq<SubFileView> = match e.sub_file {
            Some(f) => if e.root {
                Seq::empty()
            } else {
                seq![f]
            },
            None => Seq::empty(),
        };
        let own2: Seq<SubFileView> = match e2.sub_file {
            Some(f) => if e2.root {
                Seq::empty()
            } else {
                seq![f]
            },
            None => Seq::empty(),
        };
        assert(generated_from(own, own2, d));
        let nested: Seq<SubFileView> = match e.sub_index {
            Some(h) => spec_subfiles(h.root),
            None => Seq::empty(),
        };
        let nested2: Seq<SubFileView> = match e2.sub_index {
            Some(h) => spec_subfiles(h.root),
            None => Seq::empty(),
        };
        match e.sub_index {
            Some(h) => {
                lemma_fill_entry(h.root, d);
            },
            None => {},
        }
        assert(generated_from(nested, nested2, d));
        let left: Seq<SubFileView> = match e.left {
            Some(l) => spec_subfiles(*l),
            None => Seq::empty(),
        };
        let left2: Seq<SubFileView> = match e2.left {
            Some(l) => spec_subfiles(*l),
            None => Seq::empty(),
        };
        match e.left {
            Some(l) => {
                lemma_fill_entry(*l, d);
            },
            None => {},
        }
        assert(generated_from(left, left2, d));
        let right: Seq<SubFileView> = match e.right {
            Some(r) => spec_subfiles(*r),
            None => Seq::empty(),
        };
        let right2: Seq<SubFileView> = match e2.right {
            Some(r) => spec_subfiles(*r),
            None => Seq::empty(),
        };
        match e.right {
            Some(r) => {
                lemma_fill_entry(*r, d);
            },
            None => {},
        }
        assert(generated_from(right, right2, d));
        lemma_generated_from_concat(own, own2, nested, nested2, d);
        lemma_generated_from_concat(own + nested, own2 + nested2, left, left2, d);
        lemma_generated_from_concat(own + nested + left, own2 + nested2 + left2, right, right2, d);
        assert(skeleton(e2) == skeleton(e));
    }
}

// ---------------------------------------------------------------------------
// What an entry holds, in terms of the archive's bytes
// ---------------------------------------------------------------------------

/// A group holds, unless it lies where an enclosing group lies, the numbers
/// that its first eight bytes write big-endian, and the tree of its root
/// entry, which starts right after them.
pub proof fn lemma_index_header_fields(d: Seq<u8>, offset: int, outer: Seq<int>)
    requires
        d.len() <= usize::MAX,
    ensures
        outer.contains(offset) ==> spec_index_header(d, offset, outer) == Err::<
            IndexHeaderView,
            ParseError,
        >(ParseError::Cycle),
        spec_index_header(d, offset, outer) matches Ok(h) ==> {
            &&& !outer.contains(offset)
            &&& 0 <= offset && offset + 8 <= d.len()
            &&& h.len_group == big_endian(d, offset, 4)
            &&& h.num_group == big_endian(d, offset + 4, 4)
            &&& h.offset == offset
            &&& spec_index_entry(d, offset + 8, true, 0, outer.push(offset)) == Ok::<
                IndexEntryView,
                ParseError,
            >(h.root)
        },
{
    lemma_big_endian_values(d, offset);
    lemma_big_endian_values(d, offset + 4);
}

/// An entry read from the group whose entries start at `root_offset` holds
/// the numbers that its sixteen bytes write big-endian (id, flag, left and
/// right child index, name offset, data pointer). Its left (and right)
/// child is there exactly when that index is not zero and names, sixteen
/// bytes per index from `root_offset`, an entry with a smaller id, and it is
/// then the entry read at that index. The root entry is named `ROOT` and
/// points to nothing; any other entry is named by the UTF-8 text at its name
/// offset (counted from the group's start, 8 bytes before `root_offset`),
/// and its data pointer (counted from there too) names a sub-file where the
/// four bytes there are ASCII letters or digits, and a nested group, read
/// inside the same groups, otherwise.
#[verifier::spinoff_prover]
#[verifier::rlimit(40)]
pub proof fn lemma_index_entry_fields(
    d: Seq<u8>,
    root_offset: int,
    root: bool,
    idx: u16,
    chain: Seq<int>,
)
    requires
        root_offset >= 8,
        d.len() <= usize::MAX,
    ensures
        spec_index_entry(d, root_offset, root, idx, chain) matches Ok(e) ==> {
            let off = if root {
                root_offset
            } else {
                root_offset + 16 * idx
            };
            let id = big_endian(d, off, 2) as int;
            let li = big_endian(d, off + 4, 2) as int;
            let ri = big_endian(d, off + 6, 2) as int;
            let group = root_offset - 8;
            &&& 0 <= off && off + 16 <= d.len()
            &&& e.id == id
            &&& e.flag == big_endian(d, off + 2, 2)
            &&& e.left_idx == li
            &&& e.right_idx == ri
            &&& e.data_ptr == big_endian(d, off + 12, 4)
            &&& e.root == root
            &&& e.current_idx == idx
            &&& e.group_offset == group
            &&& (e.left is Some <==> (li != 0 && root_offset + 16 * li + 2 <= d.len() && big_endian(
                d,
                root_offset + 16 * li,
                2,
            ) < id))
            &&& (e.left matches Some(l) ==> spec_index_entry(d, root_offset, false, li as u16, chain)
                == Ok::<IndexEntryView, ParseError>(*l))
            &&& (e.right is Some <==> (ri != 0 && root_offset + 16 * ri + 2 <= d.len()
                && big_endian(d, root_offset + 16 * ri, 2) < id))
            &&& (e.right matches Some(r) ==> spec_index_entry(d, root_offset, false, ri as u16, chain)
                == Ok::<IndexEntryView, ParseError>(*r))
            &&& (root ==> e.name == seq!['R', 'O', 'O', 'T'] && e.len_name == 4 && e.sub_index is None
                && e.sub_file is None)
            &&& (!root ==> {
                let name_off = group + big_endian(d, off + 8, 4);
                let len = big_endian(d, name_off - 4, 4) as int;
                &&& 4 <= name_off && name_off + len <= d.len()
                &&& e.len_name == len
                &&& valid_utf8(d.subrange(name_off, name_off + len))
                &&& e.name == decode_utf8(d.subrange(name_off, name_off + len))
            })
            &&& (!root ==> {
                let start = group + e.data_ptr;
                &&& start <= u32::MAX
                &&& 0 <= start && start + 4 <= d.len()
                &&& (e.sub_file is Some <==> (forall|k: int|
                    0 <= k < 4 ==> {
                        let b = #[trigger] d[start + k];
                        (0x30 <= b <= 0x39) || (0x41 <= b <= 0x5A) || (0x61 <= b <= 0x7A)
                    }))
                &&& (e.sub_file is Some <==> e.sub_index is None)
                &&& (e.sub_index matches Some(h) ==> spec_index_header(d, start, chain) == Ok::<
                    IndexHeaderView,
                    ParseError,
                >(*h))
                &&& (e.sub_file matches Some(f) ==> f.file is None && spec_subfile_header(d, start)
                    == Ok::<HeaderView, ParseError>(f.header))
            })
        },
{
    lemma_entry_parts(d, root_offset, root, idx, chain);
    if let Ok(e) = spec_index_entry(d, root_offset, root, idx, chain) {
        let off = entry_offset(root_offset, root, idx);
        lemma_big_endian_values(d, off);
        lemma_big_endian_values(d, off + 2);
        lemma_big_endian_values(d, off + 4);
        lemma_big_endian_values(d, off + 6);
        lemma_big_endian_values(d, off + 8);
        lemma_big_endian_values(d, off + 12);
        let id = be_u16(d, off);
        lemma_child_raw(d, root_offset, id, be_u16(d, off + 4), chain);
        lemma_child_raw(d, root_offset, id, be_u16(d, off + 6), chain);
        lemma_entry_name_raw(d, root, root_offset - 8, be_u32(d, off + 8));
        lemma_entry_data_raw(d, root, be_u32(d, off + 12), root_offset - 8, chain);
        assert(off == (if root {
            root_offset
        } else {
            root_offset + 16 * idx
        }));
        assert(e.id == big_endian(d, off, 2));
        assert(e.left_idx == big_endian(d, off + 4, 2));
        assert(e.right_idx == big_endian(d, off + 6, 2));
    }
}

/// The parts of an entry that reads successfully.
proof fn lemma_entry_parts(d: Seq<u8>, root_offset: int, root: bool, idx: u16, chain: Seq<int>)
    requires
        root_offset >= 8,
        d.len() <= usize::MAX,
    ensures
        spec_index_entry(d, root_offset, root, idx, chain) matches Ok(e) ==> {
            let off = entry_offset(root_offset, root, idx);
            let id = be_u16(d, off);
            &&& in_range(d, off, 16)
            &&& spec_child(d, root_offset, id, be_u16(d, off + 4), chain) == Ok::<
                Option<Box<IndexEntryView>>,
                ParseError,
            >(e.left)
            &&& spec_child(d, root_offset, id, be_u16(d, off + 6), chain) == Ok::<
                Option<Box<IndexEntryView>>,
                ParseError,
            >(e.right)
            &&& spec_entry_name(d, root, root_offset - 8, be_u32(d, off + 8)) == Ok::<
                (Seq<char>, u32),
                ParseError,
            >((e.name, e.len_name))
            &&& spec_entry_data(d, root, be_u32(d, off + 12), root_offset - 8, chain) == Ok::<
                (Option<Box<IndexHeaderView>>, Option<SubFileView>),
                ParseError,
            >((e.sub_index, e.sub_file))
            &&& e.id == id
            &&& e.flag == be_u16(d, off + 2)
            &&& e.left_idx == be_u16(d, off + 4)
            &&& e.right_idx == be_u16(d, off + 6)
            &&& e.data_ptr == be_u32(d, off + 12)
            &&& e.root == root
            &&& e.current_idx == idx
            &&& e.group_offset == root_offset - 8
        },
{
}

/// A child index names a child exactly when it is not zero and the entry it
/// names has a smaller id; the child is then the entry read there.
proof fn lemma_child_raw(d: Seq<u8>, root_offset: int, id: u16, c: u16, chain: Seq<int>)
    requires
        root_offset >= 0,
    ensures
        spec_child(d, root_offset, id, c, chain) matches Ok(x) ==> {
            &&& (x is Some <==> (c != 0 && root_offset + 16 * c + 2 <= d.len() && big_endian(
                d,
                root_offset + 16 * c,
                2,
            ) < id))
            &&& (x matches Some(b) ==> spec_index_entry(d, root_offset, false, c, chain) == Ok::<
                IndexEntryView,
                ParseError,
            >(*b))
        },
{
    lemma_big_endian_values(d, root_offset + 16 * c);
}

proof fn lemma_entry_name_raw(d: Seq<u8>, root: bool, group: int, rel_name_off: u32)
    ensures
        spec_entry_name(d, root, group, rel_name_off) matches Ok((name, len_name)) ==> {
            &&& root ==> name == seq!['R', 'O', 'O', 'T'] && len_name == 4
            &&& !root ==> {
                let name_off = group + rel_name_off;
                let len = big_endian(d, name_off - 4, 4) as int;
                &&& 4 <= name_off && name_off + len <= d.len()
                &&& len_name == len
                &&& valid_utf8(d.subrange(name_off, name_off + len))
                &&& name == decode_utf8(d.subrange(name_off, name_off + len))
            }
        },
{
    lemma_big_endian_values(d, group + rel_name_off - 4);
}

proof fn lemma_entry_data_raw(d: Seq<u8>, root: bool, data_ptr: u32, group: int, chain: Seq<int>)
    ensures
        spec_entry_data(d, root, data_ptr, group, chain) matches Ok((sub_index, sub_file)) ==> {
            &&& root ==> sub_index is None && sub_file is None
            &&& !root ==> {
                let start = group + data_ptr;
                &&& start <= u32::MAX
                &&& 0 <= start && start + 4 <= d.len()
                &&& (sub_file is Some <==> (forall|k: int|
                    0 <= k < 4 ==> {
                        let b = #[trigger] d[start + k];
                        (0x30 <= b <= 0x39) || (0x41 <= b <= 0x5A) || (0x61 <= b <= 0x7A)
                    }))
                &&& (sub_file is Some <==> sub_index is None)
                &&& (sub_index matches Some(h) ==> spec_index_header(d, start, chain) == Ok::<
                    IndexHeaderView,
                    ParseError,
                >(*h))
                &&& (sub_file matches Some(f) ==> f.file is None && spec_subfile_header(d, start)
                    == Ok::<HeaderView, ParseError>(f.header))
            }
        },
{
    if !root {
        let start = group + data_ptr;
        if in_range(d, start, 4) {
            let m = d.subrange(start, start + 4);
            assert(all_alphanumeric(m) <==> (forall|k: int|
                0 <= k < 4 ==> {
                    let b = #[trigger] d[start + k];
                    (0x30 <= b <= 0x39) || (0x41 <= b <= 0x5A) || (0x61 <= b <= 0x7A)
                })) by {
                if all_alphanumeric(m) {
                    assert forall|k: int| 0 <= k < 4 implies {
                        let b = #[trigger] d[start + k];
                        (0x30 <= b <= 0x39) || (0x41 <= b <= 0x5A) || (0x61 <= b <= 0x7A)
                    } by {
                        assert(m[k] == d[start + k]);
                        assert(is_alphanumeric(m[k]));
                    }
                }
                if forall|k: int|
                    0 <= k < 4 ==> {
                        let b = #[trigger] d[start + k];
                        (0x30 <= b <= 0x39) || (0x41 <= b <= 0x5A) || (0x61 <= b <= 0x7A)
                    } {
                    assert forall|k: int| 0 <= k < m.len() implies is_alphanumeric(#[trigger] m[k]) by {
                        assert(m[k] == d[start + k]);
                    }
                }
            }
        }
    }
}

// ---------------------------------------------------------------------------
// Entries reachable in a tree
// ---------------------------------------------------------------------------

/// `x` is `e` or an entry below it: through its left child, its right child,
/// or the root of its nested group.
pub open spec fn reaches(e: IndexEntryView, x: IndexEntryView) -> bool
    decreases e,
{
    ||| x == e
    ||| match e.left {
        Some(l) => reaches(*l, x),
        None => false,
    }
    ||| match e.right {
        Some(r) => reaches(*r, x),
        None => false,
    }
    ||| match e.sub_index {
        Some(h) => reaches(h.root, x),
        None => false,
    }
}

proof fn lemma_contains_in_concat<A>(a: Seq<A>, b: Seq<A>, c: Seq<A>, d: Seq<A>, v: A, part: int)
    requires
        0 <= part < 4,
        part == 0 ==> a.contains(v),
        part == 1 ==> b.contains(v),
        part == 2 ==> c.contains(v),
        part == 3 ==> d.contains(v),
    ensures
        (a + b + c + d).contains(v),
{
    let s = a + b + c + d;
    if part == 0 {
        let i = choose|i: int| 0 <= i < a.len() && a[i] == v;
        assert(s[i] == v);
    } else if part == 1 {
        let i = choose|i: int| 0 <= i < b.len() && b[i] == v;
        assert(s[a.len() + i] == v);
    } else if part == 2 {
        let i = choose|i: int| 0 <= i < c.len() && c[i] == v;
        assert(s[a.len() + b.len() + i] == v);
    } else {
        let i = choose|i: int| 0 <= i < d.len() && d[i] == v;
        assert(s[a.len() + b.len() + c.len() + i] == v);
    }
}

/// The sub-file of every entry below `e` (other than a root entry) is among
/// the sub-files of the tree.
pub proof fn lemma_subfiles_complete(e: IndexEntryView, x: IndexEntryView)
    requires
        reaches(e, x),
        !x.root,
        x.sub_file is Some,
    ensures
        spec_subfiles(e).contains(x.sub_file->0),
    decreases e,
{
    let own: Seq<SubFileView> = match e.sub_file {
        Some(f) => if e.root {
            Seq::empty()
        } else {
            seq![f]
        },
        None => Seq::empty(),
    };
    let nested: Seq<SubFileView> = match e.sub_index {
        Some(h) => spec_subfiles(h.root),
        None => Seq::empty(),
    };
    let left: Seq<SubFileView> = match e.left {
        Some(l) => spec_subfiles(*l),
        None => Seq::empty(),
    };
    let right: Seq<SubFileView> = match e.right {
        Some(r) => spec_subfiles(*r),
        None => Seq::empty(),
    };
    assert(spec_subfiles(e) == own + nested + left + right);
    let v = x.sub_file->0;
    if x == e {
        assert(own[0] == v);
        lemma_contains_in_concat(own, nested, left, right, v, 0);
    } else if e.left is Some && reaches(*e.left->0, x) {
        lemma_subfiles_complete(*e.left->0, x);
        lemma_contains_in_concat(own, nested, left, right, v, 2);
    } else if e.right is Some && reaches(*e.right->0, x) {
        lemma_subfiles_complete(*e.right->0, x);
        lemma_contains_in_concat(own, nested, left, right, v, 3);
    } else {
        let h = e.sub_index->0;
        lemma_subfiles_complete(h.root, x);
        lemma_contains_in_concat(own, nested, left, right, v, 1);
    }
}

/// Every sub-file of the tree below `e` is the sub-file of an entry below
/// `e` that is not a root entry.
pub proof fn lemma_subfiles_sound(e: IndexEntryView, i: int)
    requires
        0 <= i < spec_subfiles(e).len(),
    ensures
        exists|x: IndexEntryView|
            reaches(e, x) && !x.root && x.sub_file == Some(#[trigger] spec_subfiles(e)[i]),
    decreases e,
{
    let own: Seq<SubFileView> = match e.sub_file {
        Some(f) => if e.root {
            Seq::empty()
        } else {
            seq![f]
        },
        None => Seq::empty(),
    };
    let nested: Seq<SubFileView> = match e.sub_index {
        Some(h) => spec_subfiles(h.root),
        None => Seq::empty(),
    };
    let left: Seq<SubFileView> = match e.left {
        Some(l) => spec_subfiles(*l),
        None => Seq::empty(),
    };
    let right: Seq<SubFileView> = match e.right {
        Some(r) => spec_subfiles(*r),
        None => Seq::empty(),
    };
    let s = spec_subfiles(e);
    assert(s == own + nested + left + right);
    if i < own.len() {
        assert(reaches(e, e));
        assert(e.sub_file == Some(s[i]));
    } else if i < own.len() + nested.len() {
        let h = e.sub_index->0;
        let j = i - own.len();
        lemma_subfiles_sound(h.root, j);
        let x = choose|x: IndexEntryView|
            reaches(h.root, x) && !x.root && x.sub_file == Some(#[trigger] spec_subfiles(h.root)[j]);
        assert(s[i] == nested[j]);
        assert(reaches(e, x));
    } else if i < own.len() + nested.len() + left.len() {
        let l = *e.left->0;
        let j = i - own.len() - nested.len();
        lemma_subfiles_sound(l, j);
        let x = choose|x: IndexEntryView|
            reaches(l, x) && !x.root && x.sub_file == Some(#[trigger] spec_subfiles(l)[j]);
        assert(s[i] == left[j]);
        assert(reaches(e, x));
    } else {
        let r = *e.right->0;
        let j = i - own.len() - nested.len() - left.len();
        lemma_subfiles_sound(r, j);
        let x = choose|x: IndexEntryView|
            reaches(r, x) && !x.root && x.sub_file == Some(#[trigger] spec_subfiles(r)[j]);
        assert(s[i] == right[j]);
        assert(reaches(e, x));
    }
}

/// The listing of the names below `e` names every entry below `e`, and
/// enters the nested group of every entry below `e` that has one.
pub proof fn lemma_entry_lines_complete(e: IndexEntryView, x: IndexEntryView)
    requires
        reaches(e, x),
    ensures
        spec_entry_lines(e).contains(EntryLineView::Node(x.name)),
        x.sub_index is Some ==> spec_entry_lines(e).contains(EntryLineView::EnterFolder(x.name)),
    decreases e,
{
    let first = seq![EntryLineView::Node(e.name)];
    let nested: Seq<EntryLineView> = match e.sub_index {
        Some(h) => seq![EntryLineView::EnterFolder(e.name)] + spec_entry_lines(h.root),
        None => Seq::empty(),
    };
    let left: Seq<EntryLineView> = match e.left {
        Some(l) => spec_entry_lines(*l),
        None => Seq::empty(),
    };
    let right: Seq<EntryLineView> = match e.right {
        Some(r) => spec_entry_lines(*r),
        None => Seq::empty(),
    };
    assert(spec_entry_lines(e) == first + nested + left + right);
    let node = EntryLineView::Node(x.name);
    let enter = EntryLineView::EnterFolder(x.name);
    if x == e {
        assert(first[0] == node);
        lemma_contains_in_concat(first, nested, left, right, node, 0);
        if x.sub_index is Some {
            assert(nested[0] == enter);
            lemma_contains_in_concat(first, nested, left, right, enter, 1);
        }
    } else if e.left is Some && reaches(*e.left->0, x) {
        lemma_entry_lines_complete(*e.left->0, x);
        lemma_contains_in_concat(first, nested, left, right, node, 2);
        if x.sub_index is Some {
            lemma_contains_in_concat(first, nested, left, right, enter, 2);
        }
    } else if e.right is Some && reaches(*e.right->0, x) {
        lemma_entry_lines_complete(*e.right->0, x);
        lemma_contains_in_concat(first, nested, left, right, node, 3);
        if x.sub_index is Some {
            lemma_contains_in_concat(first, nested, left, right, enter, 3);
        }
    } else {
        let h = e.sub_index->0;
        lemma_entry_lines_complete(h.root, x);
        let rest = spec_entry_lines(h.root);
        let i = choose|i: int| 0 <= i < rest.len() && rest[i] == node;
        assert(nested[i + 1] == node);
        lemma_contains_in_concat(first, nested, left, right, node, 1);
        if x.sub_index is Some {
            let k = choose|k: int| 0 <= k < rest.len() && rest[k] == enter;
            assert(nested[k + 1] == enter);
            lemma_contains_in_concat(first, nested, left, right, enter, 1);
        }
    }
}

/// Every line of the listing of the names below `e` names an entry below
/// `e`, and a line that enters a group names an entry that has one.
pub proof fn lemma_entry_lines_sound(e: IndexEntryView, i: int)
    requires
        0 <= i < spec_entry_lines(e).len(),
    ensures
        match spec_entry_lines(e)[i] {
            EntryLineView::Node(n) => exists|x: IndexEntryView| reaches(e, x) && x.name == n,
            EntryLineView::EnterFolder(n) => exists|x: IndexEntryView|
                reaches(e, x) && x.name == n && x.sub_index is Some,
        },
    decreases e,
{
    let first = seq![EntryLineView::Node(e.name)];
    let nested: Seq<EntryLineView> = match e.sub_index {
        Some(h) => seq![EntryLineView::EnterFolder(e.name)] + spec_entry_lines(h.root),
        None => Seq::empty(),
    };
    let left: Seq<EntryLineView> = match e.left {
        Some(l) => spec_entry_lines(*l),
        None => Seq::empty(),
    };
    let right: Seq<EntryLineView> = match e.right {
        Some(r) => spec_entry_lines(*r),
        None => Seq::empty(),
    };
    let s = spec_entry_lines(e);
    assert(s == first + nested + left + right);
    assert(reaches(e, e));
    if i == 0 {
    } else if i == 1 && e.sub_index is Some {
        assert(s[i] == nested[0]);
    } else if i < 1 + nested.len() {
        let h = e.sub_index->0;
        let j = i - 2;
        lemma_entry_lines_sound(h.root, j);
        assert(s[i] == spec_entry_lines(h.root)[j]);
        match spec_entry_lines(h.root)[j] {
            EntryLineView::Node(n) => {
                let x = choose|x: IndexEntryView| reaches(h.root, x) && x.name == n;
                assert(reaches(e, x));
            },
            EntryLineView::EnterFolder(n) => {
                let x = choose|x: IndexEntryView|
                    reaches(h.root, x) && x.name == n && x.sub_index is Some;
                assert(reaches(e, x));
            },
        }
    } else if i < 1 + nested.len() + left.len() {
        let l = *e.left->0;
        let j = i - 1 - nested.len();
        lemma_entry_lines_sound(l, j);
        assert(s[i] == spec_entry_lines(l)[j]);
        match spec_entry_lines(l)[j] {
            EntryLineView::Node(n) => {
                let x = choose|x: IndexEntryView| reaches(l, x) && x.name == n;
                assert(reaches(e, x));
            },
            EntryLineView::EnterFolder(n) => {
                let x = choose|x: IndexEntryView| reaches(l, x) && x.name == n && x.sub_index is Some;
                assert(reaches(e, x));
            },
        }
    } else {
        let r = *e.right->0;
        let j = i - 1 - nested.len() - left.len();
        lemma_entry_lines_sound(r, j);
        assert(s[i] == spec_entry_lines(r)[j]);
        match spec_entry_lines(r)[j] {
            EntryLineView::Node(n) => {
                let x = choose|x: IndexEntryView| reaches(r, x) && x.name == n;
                assert(reaches(e, x));
            },
            EntryLineView::EnterFolder(n) => {
                let x = choose|x: IndexEntryView| reaches(r, x) && x.name == n && x.sub_index is Some;
                assert(reaches(e, x));
            },
        }
    }
}

/// How many entries lie below `e`, `e` included, through left and right
/// children and the roots of nested groups.
pub open spec fn tree_size(e: IndexEntryView) -> nat
    decreases e,
{
    1 + match e.left {
        Some(l) => tree_size(*l),
        None => 0,
    } + match e.right {
        Some(r) => tree_size(*r),
        None => 0,
    } + match e.sub_index {
        Some(h) => tree_size(h.root),
        None => 0,
    }
}

/// How many of the entries below `e`, `e` included, have a nested group.
pub open spec fn folder_count(e: IndexEntryView) -> nat
    decreases e,
{
    (if e.sub_index is Some {
        1nat
    } else {
        0nat
    }) + match e.left {
        Some(l) => folder_count(*l),
        None => 0,
    } + match e.right {
        Some(r) => folder_count(*r),
        None => 0,
    } + match e.sub_index {
        Some(h) => folder_count(h.root),
        None => 0,
    }
}

/// How many of the entries below `e`, `e` included, are no root entry and
/// have a sub-file.
pub open spec fn subfile_count(e: IndexEntryView) -> nat
    decreases e,
{
    (if !e.root && e.sub_file is Some {
        1nat
    } else {
        0nat
    }) + match e.left {
        Some(l) => subfile_count(*l),
        None => 0,
    } + match e.right {
        Some(r) => subfile_count(*r),
        None => 0,
    } + match e.sub_index {
        Some(h) => subfile_count(h.root),
        None => 0,
    }
}

/// The listing of the names below `e` has one line per entry and one more
/// per nested group, and starts with `e`'s name, followed by the line that
/// enters its nested group if it has one; the sub-files below `e` are one
/// per entry (not a root entry) that has one, `e`'s own first.
pub proof fn lemma_listing_counts(e: IndexEntryView)
    ensures
        spec_entry_lines(e).len() == tree_size(e) + folder_count(e),
        spec_entry_lines(e)[0] == EntryLineView::Node(e.name),
        e.sub_index is Some ==> spec_entry_lines(e)[1] == EntryLineView::EnterFolder(e.name),
        spec_subfiles(e).len() == subfile_count(e),
        !e.root && e.sub_file is Some ==> spec_subfiles(e)[0] == e.sub_file->0,
    decreases e,
{
    match e.left {
        Some(l) => lemma_listing_counts(*l),
        None => {},
    }
    match e.right {
        Some(r) => lemma_listing_counts(*r),
        None => {},
    }
    match e.sub_index {
        Some(h) => lemma_listing_counts(h.root),
        None => {},
    }
}

/// A group fails to read where its eight header bytes do not lie inside the
/// archive; an entry fails where its sixteen bytes do not.
pub proof fn lemma_index_bounds(d: Seq<u8>, offset: int, outer: Seq<int>, root: bool, idx: u16)
    ensures
        !outer.contains(offset) && !(0 <= offset && offset + 8 <= d.len()) ==> spec_index_header(
            d,
            offset,
            outer,
        ) == Err::<IndexHeaderView, ParseError>(ParseError::OutOfBounds(Part::IndexHeader)),
        ({
            let off = if root {
                offset
            } else {
                offset + 16 * idx
            };
            !(0 <= off && off + 16 <= d.len()) ==> spec_index_entry(d, offset, root, idx, outer)
                == Err::<IndexEntryView, ParseError>(ParseError::OutOfBounds(Part::IndexEntry))
        }),
{
}

/// What a data pointer names: where it and the group's offset sum to more
/// than `u32::MAX`, an overflow; where the four bytes there are not inside
/// the archive, an out-of-bounds error; where they are ASCII letters or
/// digits, the sub-file there (its content not yet read); else the group
/// there, read inside the same groups.
pub proof fn lemma_parse_data_result(d: Seq<u8>, data_ptr: u32, group_offset: int, chain: Seq<int>)
    requires
        group_offset >= 0,
    ensures
        ({
            let start = data_ptr + group_offset;
            let letters = forall|k: int|
                0 <= k < 4 ==> {
                    let b = #[trigger] d[start + k];
                    (0x30 <= b <= 0x39) || (0x41 <= b <= 0x5A) || (0x61 <= b <= 0x7A)
                };
            &&& start > 0xFFFF_FFFF ==> spec_parse_data(d, data_ptr, group_offset, chain) == Err::<
                (Option<Box<IndexHeaderView>>, Option<SubFileView>),
                ParseError,
            >(ParseError::Overflow(Part::IndexEntry))
            &&& start <= 0xFFFF_FFFF && start + 4 > d.len() ==> spec_parse_data(
                d,
                data_ptr,
                group_offset,
                chain,
            ) == Err::<(Option<Box<IndexHeaderView>>, Option<SubFileView>), ParseError>(
                ParseError::OutOfBounds(Part::IndexEntry),
            )
            &&& start <= 0xFFFF_FFFF && start + 4 <= d.len() && letters ==> spec_parse_data(
                d,
                data_ptr,
                group_offset,
                chain,
            ) == match spec_subfile_header(d, start) {
                Ok(h) => Ok((None::<Box<IndexHeaderView>>, Some(SubFileView { header: h, file: None }))),
                Err(e) => Err(e),
            }
            &&& start <= 0xFFFF_FFFF && start + 4 <= d.len() && !letters ==> spec_parse_data(
                d,
                data_ptr,
                group_offset,
                chain,
            ) == match spec_index_header(d, start, chain) {
                Ok(h) => Ok((Some(Box::new(h)), None::<SubFileView>)),
                Err(e) => Err(e),
            }
        }),
{
    let start = data_ptr + group_offset;
    if start <= 0xFFFF_FFFF && start + 4 <= d.len() {
        let m = d.subrange(start, start + 4);
        assert(all_alphanumeric(m) <==> (forall|k: int|
            0 <= k < 4 ==> {
                let b = #[trigger] d[start + k];
                (0x30 <= b <= 0x39) || (0x41 <= b <= 0x5A) || (0x61 <= b <= 0x7A)
            })) by {
            if all_alphanumeric(m) {
                assert forall|k: int| 0 <= k < 4 implies {
                    let b = #[trigger] d[start + k];
                    (0x30 <= b <= 0x39) || (0x41 <= b <= 0x5A) || (0x61 <= b <= 0x7A)
                } by {
                    assert(m[k] == d[start + k]);
                    assert(is_alphanumeric(m[k]));
                }
            }
            if forall|k: int|
                0 <= k < 4 ==> {
                    let b = #[trigger] d[start + k];
                    (0x30 <= b <= 0x39) || (0x41 <= b <= 0x5A) || (0x61 <= b <= 0x7A)
                } {
                assert forall|k: int| 0 <= k < m.len() implies is_alphanumeric(#[trigger] m[k]) by {
                    assert(m[k] == d[start + k]);
                }
            }
        }
    }
}

} // verus!
