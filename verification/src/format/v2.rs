//! Header and section directory of GSYM version 2.
use vstd::prelude::*;
use crate::bytes;
use crate::endian;
use crate::endian::{Cursor, Encoder, Endian};
use crate::error::Error;
use crate::format::v1;
use crate::format::v1::{detect_endian_on, read_preamble};
use crate::format::{align_up, GSYM_MAGIC};
use crate::sort;
use crate::sort::{sorted_order, Ranked};
use std::collections::BTreeSet;
use std::ops::Range;

verus! {

/// Version number in the header.
pub const VERSION: u16 = 2;

/// Size of the header.
pub const HEADER_SIZE: usize = 20;

/// Size of a directory entry.
pub const GLOBAL_DATA_SIZE: usize = 20;

/// Size of an entry of the address-info table.
pub const ADDRESS_INFO_OFFSET_SIZE: u8 = 8;

/// Size of a string offset.
pub const STRING_OFFSET_SIZE: u8 = 8;

/// Size of an entry of the file table.
pub const FILE_ENTRY_SIZE: usize = 16;

/// The one string-table encoding there is.
pub const STRING_TABLE_ENCODING_DEFAULT: u8 = 0;

/// Directory entry type that ends the directory.
pub const GLOBAL_END: u32 = 0;

/// Section of the address offsets.
pub const GLOBAL_ADDRESS_OFFSETS: u32 = 1;

/// Section of the offsets of the function records.
pub const GLOBAL_ADDRESS_INFO_OFFSETS: u32 = 2;

/// Section of the string table.
pub const GLOBAL_STRING_TABLE: u32 = 3;

/// Section of the file table.
pub const GLOBAL_FILE_TABLE: u32 = 4;

/// Section of the function records.
pub const GLOBAL_FUNCTION_INFO: u32 = 5;

/// Section of the build identifier.
pub const GLOBAL_UUID: u32 = 6;

/// Version 2 header.
#[derive(Clone, Copy, Debug, PartialEq, Eq, Structural)]
pub struct Header {
    /// Size of an address offset: one to eight bytes.
    pub address_offset_size: u8,
    /// Encoding of the string table.
    pub string_table_encoding: u8,
    /// Address that address offsets are relative to.
    pub base_address: u64,
    /// Number of functions.
    pub address_count: u32,
}

/// One entry of the section directory.
#[derive(Clone, Copy, Debug, PartialEq, Eq, Structural)]
pub struct GlobalData {
    /// What the section holds.
    pub section_type: u32,
    /// Where the section starts in the file.
    pub file_offset: u64,
    /// Size of the section.
    pub file_size: u64,
}

/// The section directory of a file.
#[derive(Debug, PartialEq, Eq)]
pub struct Directory {
    /// The entries without the terminator.
    pub entries: Vec<GlobalData>,
    /// Offset behind the terminator.
    pub end_offset: usize,
}

/// The first entry of the given type.
pub open spec fn find_section(entries: Seq<GlobalData>, section_type: u32) -> Option<GlobalData>
    decreases entries.len(),
{
    if entries.len() == 0 {
        None
    } else if entries[0].section_type == section_type {
        Some(entries[0])
    } else {
        find_section(entries.drop_first(), section_type)
    }
}

/// Whether an entry of the given type is among `entries`.
pub open spec fn has_section(entries: Seq<GlobalData>, section_type: u32) -> bool {
    exists|i: int| 0 <= i < entries.len() && (#[trigger] entries[i]).section_type == section_type
}

/// Whether no two entries have one type.
pub open spec fn distinct_types(entries: Seq<GlobalData>) -> bool {
    forall|i: int, j: int|
        0 <= i < j < entries.len() ==> (#[trigger] entries[i]).section_type != (
        #[trigger] entries[j]).section_type
}

/// The entry at `i` is the one that is found by its type.
pub proof fn lemma_find_section(entries: Seq<GlobalData>, i: int)
    requires
        0 <= i < entries.len(),
        distinct_types(entries),
    ensures
        find_section(entries, entries[i].section_type) == Some(entries[i]),
    decreases entries.len(),
{
    if i > 0 {
        assert(entries[0].section_type != entries[i].section_type);
        let rest = entries.drop_first();
        assert forall|a: int, b: int| 0 <= a < b < rest.len() implies (#[trigger] rest[a]).section_type
            != (#[trigger] rest[b]).section_type by {
            assert(entries[a + 1].section_type != entries[b + 1].section_type);
        }
        lemma_find_section(rest, i - 1);
    }
}

/// A type that no entry has is not found.
pub proof fn lemma_no_section(entries: Seq<GlobalData>, section_type: u32)
    requires
        !has_section(entries, section_type),
    ensures
        find_section(entries, section_type) is None,
    decreases entries.len(),
{
    if entries.len() > 0 {
        assert(entries[0].section_type != section_type);
        let rest = entries.drop_first();
        assert(!has_section(rest, section_type)) by {
            if has_section(rest, section_type) {
                let i = choose|i: int|
                    0 <= i < rest.len() && (#[trigger] rest[i]).section_type == section_type;
                assert(entries[i + 1].section_type == section_type);
            }
        }
        lemma_no_section(rest, section_type);
    }
}

/// What is found is one of the entries and has the type.
pub proof fn lemma_found_section(entries: Seq<GlobalData>, section_type: u32)
    ensures
        find_section(entries, section_type) matches Some(entry) ==> entry.section_type
            == section_type && entries.contains(entry),
        has_section(entries, section_type) ==> find_section(entries, section_type) is Some,
    decreases entries.len(),
{
    if entries.len() > 0 {
        let rest = entries.drop_first();
        lemma_found_section(rest, section_type);
        if let Some(entry) = find_section(rest, section_type) {
            let i = choose|i: int| 0 <= i < rest.len() && rest[i] == entry;
            assert(entries[i + 1] == entry);
        }
        if entries[0].section_type == section_type {
            assert(entries.contains(entries[0]));
        } else if has_section(entries, section_type) {
            let i = choose|i: int|
                0 <= i < entries.len() && (#[trigger] entries[i]).section_type == section_type;
            assert(rest[i - 1].section_type == section_type);
        }
    }
}

impl Directory {
    /// The section of the given type.
    pub fn get(&self, section_type: u32) -> (entry: Option<GlobalData>)
        ensures
            entry == find_section(self.entries@, section_type),
    {
        let mut i: usize = 0;
        assert(self.entries@.subrange(0, self.entries@.len() as int) =~= self.entries@);
        while i < self.entries.len()
            invariant
                i <= self.entries@.len(),
                find_section(self.entries@, section_type) == find_section(
                    self.entries@.subrange(i as int, self.entries@.len() as int),
                    section_type,
                ),
            decreases self.entries@.len() - i,
        {
            let ghost rest = self.entries@.subrange(i as int, self.entries@.len() as int);
            assert(rest[0] == self.entries@[i as int]);
            assert(rest.drop_first() =~= self.entries@.subrange(
                i + 1,
                self.entries@.len() as int,
            ));
            if self.entries[i].section_type == section_type {
                return Some(self.entries[i]);
            }
            i = i + 1;
        }
        None
    }
}

/// The error of an address-offset size that version 2 does not have, if it is.
pub open spec fn address_offset_size_error(size: u8) -> Option<Error> {
    if 1 <= size <= 8 {
        None
    } else {
        Some(Error::InvalidAddressOffsetSize { version: VERSION, size })
    }
}

fn validate_address_offset_size(size: u8) -> (result: Result<(), Error>)
    ensures
        result == (match address_offset_size_error(size) {
            Some(error) => Err::<(), Error>(error),
            None => Ok(()),
        }),
{
    if 1 <= size && size <= 8 {
        Ok(())
    } else {
        Err(Error::InvalidAddressOffsetSize { version: VERSION, size })
    }
}

/// Outcome of reading the fields behind the version number.
#[verifier::opaque]
pub open spec fn fields_at(s: Seq<u8>, endian: Endian) -> Result<Header, Error> {
    match endian::uint_at(s, 6, 1, endian) {
        Err(error) => Err(error),
        Ok((width, _)) => match address_offset_size_error(width as u8) {
            Some(error) => Err(error),
            None => match endian::uint_at(s, 7, 1, endian) {
                Err(error) => Err(error),
                Ok((encoding, _)) => if encoding != STRING_TABLE_ENCODING_DEFAULT {
                    Err(Error::UnsupportedStringTableEncoding(encoding as u8))
                } else {
                    match endian::uint_at(s, 8, 8, endian) {
                        Err(error) => Err(error),
                        Ok((base_address, _)) => match endian::uint_at(s, 16, 4, endian) {
                            Err(error) => Err(error),
                            Ok((count, _)) => Ok(
                                Header {
                                    address_offset_size: width as u8,
                                    string_table_encoding: encoding as u8,
                                    base_address,
                                    address_count: count as u32,
                                },
                            ),
                        },
                    }
                },
            },
        },
    }
}

/// The header of the file `s` and the byte order of the file.
pub open spec fn header_decoded(s: Seq<u8>, native: Endian) -> Result<(Header, Endian), Error> {
    match v1::preamble_at(s, native, VERSION) {
        Err(error) => Err(error),
        Ok(endian) => match fields_at(s, endian) {
            Err(error) => Err(error),
            Ok(header) => Ok((header, endian)),
        },
    }
}

/// The bytes of a header.
#[verifier::opaque]
pub open spec fn header_encoded(header: Header, endian: Endian) -> Result<Seq<u8>, Error> {
    match address_offset_size_error(header.address_offset_size) {
        Some(error) => Err(error),
        None => if header.string_table_encoding != STRING_TABLE_ENCODING_DEFAULT {
            Err(Error::UnsupportedStringTableEncoding(header.string_table_encoding))
        } else {
            Ok(
                bytes::uint_bytes(GSYM_MAGIC as nat, 4, endian) + bytes::uint_bytes(
                    VERSION as nat,
                    2,
                    endian,
                ) + seq![header.address_offset_size] + seq![header.string_table_encoding]
                    + bytes::uint_bytes(header.base_address as nat, 8, endian)
                    + bytes::uint_bytes(header.address_count as nat, 4, endian),
            )
        },
    }
}

/// A header that was written is read back, with its byte order, whatever the
/// byte order of the machine.
pub proof fn law_header_round_trip(s: Seq<u8>, header: Header, endian: Endian, native: Endian)
    requires
        header_encoded(header, endian) is Ok,
        bytes::holds_at(s, 0, header_encoded(header, endian)->Ok_0),
    ensures
        header_encoded(header, endian)->Ok_0.len() == HEADER_SIZE,
        header_decoded(s, native) == Ok::<(Header, Endian), Error>((header, endian)),
{
    reveal(fields_at);
    reveal(header_encoded);
    let b1 = bytes::uint_bytes(GSYM_MAGIC as nat, 4, endian);
    let b2 = bytes::uint_bytes(VERSION as nat, 2, endian);
    let b3 = seq![header.address_offset_size];
    let b4 = seq![header.string_table_encoding];
    let b5 = bytes::uint_bytes(header.base_address as nat, 8, endian);
    let b6 = bytes::uint_bytes(header.address_count as nat, 4, endian);
    bytes::lemma_uint_bytes_len(GSYM_MAGIC as nat, 4, endian);
    bytes::lemma_uint_bytes_len(VERSION as nat, 2, endian);
    bytes::lemma_uint_bytes_len(header.base_address as nat, 8, endian);
    bytes::lemma_uint_bytes_len(header.address_count as nat, 4, endian);
    bytes::lemma_pow256_values();
    let t2 = b1 + b2;
    let t3 = t2 + b3;
    let t4 = t3 + b4;
    let t5 = t4 + b5;
    bytes::lemma_holds_at_split(s, 0, t5, b6);
    bytes::lemma_holds_at_split(s, 0, t4, b5);
    bytes::lemma_holds_at_split(s, 0, t3, b4);
    bytes::lemma_holds_at_split(s, 0, t2, b3);
    bytes::lemma_holds_at_split(s, 0, b1, b2);
    v1::lemma_magic(s, endian, native);
    endian::law_uint_reads_back(s, 4, VERSION as u64, 2, endian);
    bytes::lemma_holds_at_index(s, 6, b3, 0);
    bytes::lemma_holds_at_index(s, 7, b4, 0);
    v1::lemma_byte(s, 6, endian);
    v1::lemma_byte(s, 7, endian);
    endian::law_uint_reads_back(s, 8, header.base_address, 8, endian);
    endian::law_uint_reads_back(s, 16, header.address_count as u64, 4, endian);
}

/// Outcome of reading a directory entry at `pos`.
pub open spec fn entry_at(s: Seq<u8>, pos: int, endian: Endian) -> Result<(GlobalData, int), Error> {
    match endian::uint_at(s, pos, 4, endian) {
        Err(error) => Err(error),
        Ok((section_type, p1)) => match endian::uint_at(s, p1, 8, endian) {
            Err(error) => Err(error),
            Ok((file_offset, p2)) => match endian::uint_at(s, p2, 8, endian) {
                Err(error) => Err(error),
                Ok((file_size, p3)) => Ok(
                    (GlobalData { section_type: section_type as u32, file_offset, file_size }, p3),
                ),
            },
        },
    }
}

/// The bytes of a directory entry.
pub open spec fn entry_bytes(entry: GlobalData, endian: Endian) -> Seq<u8> {
    bytes::uint_bytes(entry.section_type as nat, 4, endian) + bytes::uint_bytes(
        entry.file_offset as nat,
        8,
        endian,
    ) + bytes::uint_bytes(entry.file_size as nat, 8, endian)
}

/// A directory entry that was written is read back.
pub proof fn law_entry_round_trip(s: Seq<u8>, pos: int, entry: GlobalData, endian: Endian)
    requires
        bytes::holds_at(s, pos, entry_bytes(entry, endian)),
    ensures
        entry_bytes(entry, endian).len() == GLOBAL_DATA_SIZE,
        entry_at(s, pos, endian) == Ok::<(GlobalData, int), Error>((entry, pos + GLOBAL_DATA_SIZE)),
{
    let b1 = bytes::uint_bytes(entry.section_type as nat, 4, endian);
    let b2 = bytes::uint_bytes(entry.file_offset as nat, 8, endian);
    let b3 = bytes::uint_bytes(entry.file_size as nat, 8, endian);
    bytes::lemma_uint_bytes_len(entry.section_type as nat, 4, endian);
    bytes::lemma_uint_bytes_len(entry.file_offset as nat, 8, endian);
    bytes::lemma_uint_bytes_len(entry.file_size as nat, 8, endian);
    bytes::lemma_pow256_values();
    bytes::lemma_holds_at_split(s, pos, b1 + b2, b3);
    bytes::lemma_holds_at_split(s, pos, b1, b2);
    endian::law_uint_reads_back(s, pos, entry.section_type as u64, 4, endian);
    endian::law_uint_reads_back(s, pos + 4, entry.file_offset, 8, endian);
    endian::law_uint_reads_back(s, pos + 12, entry.file_size, 8, endian);
}

/// The error of a directory entry behind the entries `done`, if it has one.
pub open spec fn entry_error(
    entry: GlobalData,
    done: Seq<GlobalData>,
    input_len: nat,
) -> Option<Error> {
    if has_section(done, entry.section_type) {
        Some(Error::DuplicateSection(entry.section_type))
    } else if entry.file_size == 0 {
        Some(Error::ZeroSizedSection { section_type: entry.section_type })
    } else if entry.file_offset + entry.file_size > u64::MAX {
        Some(Error::Overflow("v2 section end"))
    } else if entry.file_offset + entry.file_size > input_len {
        Some(
            Error::SectionOutOfBounds {
                section_type: entry.section_type,
                offset: entry.file_offset,
                size: entry.file_size,
                input_len: input_len as usize,
            },
        )
    } else {
        None
    }
}

/// Outcome of reading the directory at `pos`, behind the entries `done`: all
/// entries and the offset behind the terminator.
pub open spec fn entries_at(s: Seq<u8>, pos: int, endian: Endian, done: Seq<GlobalData>) -> Result<
    (Seq<GlobalData>, int),
    Error,
>
    decreases s.len() - pos,
{
    match entry_at(s, pos, endian) {
        Err(error) => Err(error),
        Ok((entry, end)) => if entry.section_type == GLOBAL_END {
            if entry.file_offset != 0 || entry.file_size != 0 {
                Err(Error::InvalidFormat("v2 directory terminator is not all zero"))
            } else {
                Ok((done, end))
            }
        } else {
            match entry_error(entry, done, s.len()) {
                Some(error) => Err(error),
                None => entries_at(s, end, endian, done.push(entry)),
            }
        },
    }
}

/// The first required section that is missing.
pub open spec fn missing_section(entries: Seq<GlobalData>) -> Option<u32> {
    if !has_section(entries, GLOBAL_ADDRESS_OFFSETS) {
        Some(GLOBAL_ADDRESS_OFFSETS)
    } else if !has_section(entries, GLOBAL_ADDRESS_INFO_OFFSETS) {
        Some(GLOBAL_ADDRESS_INFO_OFFSETS)
    } else if !has_section(entries, GLOBAL_STRING_TABLE) {
        Some(GLOBAL_STRING_TABLE)
    } else if !has_section(entries, GLOBAL_FILE_TABLE) {
        Some(GLOBAL_FILE_TABLE)
    } else if !has_section(entries, GLOBAL_FUNCTION_INFO) {
        Some(GLOBAL_FUNCTION_INFO)
    } else {
        None
    }
}

/// The error of a section whose size, place or content breaks a rule of its
/// type, if it does.
pub open spec fn section_error(s: Seq<u8>, header: Header, entry: GlobalData) -> Option<Error> {
    if entry.section_type == GLOBAL_ADDRESS_OFFSETS {
        if entry.file_size != header.address_count * header.address_offset_size {
            Some(Error::InvalidFormat("v2 address-table size mismatch"))
        } else if header.address_offset_size == 0 || entry.file_offset as int
            % header.address_offset_size as int != 0 {
            Some(Error::InvalidFormat("v2 address table is misaligned"))
        } else {
            None
        }
    } else if entry.section_type == GLOBAL_ADDRESS_INFO_OFFSETS {
        if entry.file_size != header.address_count * ADDRESS_INFO_OFFSET_SIZE {
            Some(Error::InvalidFormat("v2 address-info table size mismatch"))
        } else if entry.file_offset as int % ADDRESS_INFO_OFFSET_SIZE as int != 0 {
            Some(Error::InvalidFormat("v2 address-info table is misaligned"))
        } else {
            None
        }
    } else if entry.section_type == GLOBAL_FILE_TABLE {
        if entry.file_size < 4 || (entry.file_size - 4) % FILE_ENTRY_SIZE as int != 0 {
            Some(Error::InvalidFormat("invalid v2 file-table size"))
        } else if entry.file_offset % 4 != 0 {
            Some(Error::InvalidFormat("v2 file table is misaligned"))
        } else {
            None
        }
    } else if entry.section_type == GLOBAL_STRING_TABLE {
        if entry.file_offset > usize::MAX {
            Some(Error::Overflow("v2 string-table offset"))
        } else if entry.file_offset >= s.len() || s[entry.file_offset as int] != 0 {
            Some(Error::InvalidFormat("GSYM string table does not begin with an empty string"))
        } else {
            None
        }
    } else if entry.section_type == GLOBAL_FUNCTION_INFO && entry.file_offset % 4 != 0 {
        Some(Error::InvalidFormat("v2 FunctionInfo section is misaligned"))
    } else {
        None
    }
}

/// The error of the first of the sections from index `i` on that has one.
pub open spec fn sections_error(
    s: Seq<u8>,
    header: Header,
    entries: Seq<GlobalData>,
    i: int,
) -> Option<Error>
    decreases entries.len() - i,
{
    if i >= entries.len() {
        None
    } else {
        match section_error(s, header, entries[i]) {
            Some(error) => Some(error),
            None => sections_error(s, header, entries, i + 1),
        }
    }
}

/// Offset behind a section.
pub open spec fn section_end(entry: GlobalData) -> int {
    entry.file_offset + entry.file_size
}

/// Whether no section touches the directory or another section.
pub open spec fn sections_disjoint(entries: Seq<GlobalData>, directory_end: int) -> bool {
    &&& forall|i: int|
        0 <= i < entries.len() ==> (#[trigger] entries[i]).file_offset >= directory_end
    &&& forall|i: int, j: int|
        0 <= i < entries.len() && 0 <= j < entries.len() && i != j ==> section_end(
            #[trigger] entries[i],
        ) <= (#[trigger] entries[j]).file_offset || section_end(entries[j])
            <= entries[i].file_offset
}

/// The section directory of the file `s`.
pub open spec fn directory_at(s: Seq<u8>, endian: Endian, header: Header) -> Result<
    (Seq<GlobalData>, int),
    Error,
> {
    if s.len() < HEADER_SIZE {
        Err(Error::InvalidOffset { offset: HEADER_SIZE as u64, input_len: s.len() as usize })
    } else {
        match entries_at(s, HEADER_SIZE as int, endian, Seq::empty()) {
            Err(error) => Err(error),
            Ok((entries, end)) => match missing_section(entries) {
                Some(section_type) => Err(Error::MissingSection(section_type)),
                None => match sections_error(s, header, entries, 0) {
                    Some(error) => Err(error),
                    None => if !sections_disjoint(entries, end) {
                        Err(
                            Error::InvalidFormat("v2 sections overlap each other or the directory"),
                        )
                    } else {
                        Ok((entries, end))
                    },
                },
            },
        }
    }
}

impl Header {
    /// Reads the header of a file on a machine with the given byte order.
    pub fn decode_on(input: &[u8], native: Endian) -> (result: Result<(Self, Endian), Error>)
        ensures
            result == header_decoded(input@, native),
    {
        proof {
            reveal(fields_at);
        }
        let endian = detect_endian_on(input, native)?;
        let mut cursor = Cursor::new(input, endian);
        read_preamble(&mut cursor, VERSION)?;
        proof {
            v1::lemma_byte(input@, 6, endian);
            v1::lemma_byte(input@, 7, endian);
        }
        let address_offset_size: u8 = cursor.read_u8()?;
        validate_address_offset_size(address_offset_size)?;
        let string_table_encoding: u8 = cursor.read_u8()?;
        if string_table_encoding != STRING_TABLE_ENCODING_DEFAULT {
            return Err(Error::UnsupportedStringTableEncoding(string_table_encoding));
        }
        let base_address: u64 = cursor.read_u64()?;
        let address_count: u32 = cursor.read_u32()?;
        Ok(
            (
                Header { address_offset_size, string_table_encoding, base_address, address_count },
                endian,
            ),
        )
    }

    /// Reads the header of a file.
    pub fn decode(input: &[u8]) -> (result: Result<(Self, Endian), Error>)
        ensures
            result == header_decoded(input@, Endian::Little) || result == header_decoded(
                input@,
                Endian::Big,
            ),
    {
        Header::decode_on(input, Endian::native())
    }

    /// The bytes of the header.
    pub fn encode(&self, endian: Endian) -> (result: Result<Vec<u8>, Error>)
        ensures
            match header_encoded(*self, endian) {
                Ok(data) => result matches Ok(bytes) && bytes@ == data,
                Err(error) => result == Err::<Vec<u8>, Error>(error),
            },
    {
        proof {
            reveal(header_encoded);
        }
        validate_address_offset_size(self.address_offset_size)?;
        if self.string_table_encoding != STRING_TABLE_ENCODING_DEFAULT {
            return Err(Error::UnsupportedStringTableEncoding(self.string_table_encoding));
        }
        let mut output = Encoder::with_capacity(endian, HEADER_SIZE);
        output.write_u32(GSYM_MAGIC);
        output.write_u16(VERSION);
        output.write_u8(self.address_offset_size);
        output.write_u8(self.string_table_encoding);
        output.write_u64(self.base_address);
        output.write_u32(self.address_count);
        assert(output.bytes@ =~= header_encoded(*self, endian)->Ok_0);
        Ok(output.into_inner())
    }
}

impl GlobalData {
    /// Reads a directory entry.
    pub fn decode_from(cursor: &mut Cursor<'_>) -> (result: Result<Self, Error>)
        requires
            old(cursor).wf(),
        ensures
            Cursor::reads(
                *old(cursor),
                *final(cursor),
                result,
                entry_at(old(cursor).bytes@, old(cursor).position as int, old(cursor).endian),
            ),
    {
        let section_type: u32 = cursor.read_u32()?;
        let file_offset: u64 = cursor.read_u64()?;
        let file_size: u64 = cursor.read_u64()?;
        Ok(GlobalData { section_type, file_offset, file_size })
    }

    /// Writes a directory entry.
    pub fn encode_into(self, output: &mut Encoder)
        ensures
            Encoder::appends(*old(output), *final(output), entry_bytes(self, old(output).endian)),
    {
        output.write_u32(self.section_type);
        output.write_u64(self.file_offset);
        output.write_u64(self.file_size);
        assert(output.bytes@ =~= old(output).bytes@ + entry_bytes(self, output.endian));
    }
}

/// Sections ranked by where they start.
struct ByOffset<'a> {
    entries: &'a Vec<GlobalData>,
}

impl<'a> Ranked for ByOffset<'a> {
    closed spec fn count(&self) -> nat {
        self.entries@.len()
    }

    closed spec fn ranks(&self) -> spec_fn(int, int) -> bool {
        let entries = self.entries@;
        |i: int, j: int| entries[i].file_offset <= entries[j].file_offset
    }

    proof fn ranking(&self) {
    }

    fn at_most(&self, i: usize, j: usize) -> (result: bool) {
        self.entries[i].file_offset <= self.entries[j].file_offset
    }
}

/// Checks that no section touches the directory or another section.
fn check_disjoint(directory_end: usize, entries: &Vec<GlobalData>) -> (disjoint: bool)
    requires
        forall|i: int|
            0 <= i < entries@.len() ==> 0 < (#[trigger] entries@[i]).file_size && section_end(
                entries@[i],
            ) <= u64::MAX,
    ensures
        disjoint == sections_disjoint(entries@, directory_end as int),
{
    let ranked = ByOffset { entries };
    let order = sorted_order(&ranked, entries.len());
    let ghost o = sort::indices(order@);
    let ghost le = ranked.ranks();
    let mut previous_end: u64 = directory_end as u64;
    let mut k: usize = 0;
    while k < order.len()
        invariant
            k <= order@.len(),
            order@.len() == entries@.len(),
            o == sort::indices(order@),
            le == ranked.ranks(),
            ranked.entries@ == entries@,
            sort::is_order(le, entries@.len(), o),
            forall|i: int|
                0 <= i < entries@.len() ==> 0 < (#[trigger] entries@[i]).file_size && section_end(
                    entries@[i],
                ) <= u64::MAX,
            previous_end == (if k == 0 {
                directory_end as int
            } else {
                section_end(entries@[o[k - 1]])
            }),
            forall|a: int|
                0 <= a < k ==> entries@[#[trigger] o[a]].file_offset >= directory_end,
            forall|a: int, b: int|
                0 <= a < b < k ==> section_end(entries@[#[trigger] o[a]]) <= entries@[
                #[trigger] o[b]].file_offset,
        decreases order@.len() - k,
    {
        let ghost x = o[k as int];
        assert(x == order@[k as int]);
        let entry: GlobalData = entries[order[k]];
        if entry.file_offset < previous_end {
            proof {
                if k > 0 {
                    let y = o[k - 1];
                    assert(sort::before(le, o[k - 1], o[k as int]));
                    assert(entries@[y].file_offset <= entries@[x].file_offset);
                    assert(x != y);
                    assert(!(section_end(entries@[x]) <= entries@[y].file_offset));
                }
                assert(!sections_disjoint(entries@, directory_end as int));
            }
            return false;
        }
        proof {
            assert forall|a: int| 0 <= a < k implies section_end(entries@[#[trigger] o[a]])
                <= entries@[x].file_offset by {
                if a < k - 1 {
                    assert(section_end(entries@[o[a]]) <= entries@[o[k - 1]].file_offset);
                }
            }
            if k > 0 {
                assert(entries@[o[k - 1]].file_offset >= directory_end);
            }
        }
        previous_end = entry.file_offset + entry.file_size;
        k = k + 1;
    }
    proof {
        assert forall|i: int| 0 <= i < entries@.len() implies (#[trigger] entries@[i]).file_offset
            >= directory_end by {
            assert(o.contains(i));
            let a = choose|a: int| 0 <= a < o.len() && o[a] == i;
            assert(entries@[o[a]].file_offset >= directory_end);
        }
        assert forall|i: int, j: int|
            0 <= i < entries@.len() && 0 <= j < entries@.len() && i != j implies section_end(
            #[trigger] entries@[i],
        ) <= (#[trigger] entries@[j]).file_offset || section_end(entries@[j])
            <= entries@[i].file_offset by {
            assert(o.contains(i) && o.contains(j));
            let a = choose|a: int| 0 <= a < o.len() && o[a] == i;
            let b = choose|b: int| 0 <= b < o.len() && o[b] == j;
            if a < b {
                assert(section_end(entries@[o[a]]) <= entries@[o[b]].file_offset);
            } else {
                assert(section_end(entries@[o[b]]) <= entries@[o[a]].file_offset);
            }
        }
    }
    true
}

/// Adds a section type to the types seen and returns whether it is new.
fn observe_type(seen: &mut BTreeSet<u32>, section_type: u32) -> (fresh: bool)
    ensures
        final(seen)@ == old(seen)@.insert(section_type),
        fresh == !old(seen)@.contains(section_type),
{
    broadcast use vstd::laws_cmp::group_laws_cmp;

    seen.insert(section_type)
}

/// Whether a section type was seen.
fn was_seen(seen: &BTreeSet<u32>, section_type: u32) -> (found: bool)
    ensures
        found == seen@.contains(section_type),
{
    broadcast use vstd::laws_cmp::group_laws_cmp;
    broadcast use vstd::std_specs::btree::group_btree_axioms;

    seen.contains(&section_type)
}

/// Whether `seen` holds the types of `entries`.
spec fn types_of(seen: Set<u32>, entries: Seq<GlobalData>) -> bool {
    forall|t: u32| #[trigger] seen.contains(t) <==> has_section(entries, t)
}

proof fn lemma_types_push(seen: Set<u32>, entries: Seq<GlobalData>, entry: GlobalData)
    requires
        types_of(seen, entries),
    ensures
        types_of(seen.insert(entry.section_type), entries.push(entry)),
{
    let grown = entries.push(entry);
    assert forall|t: u32| #[trigger] seen.insert(entry.section_type).contains(t) <==> has_section(
        grown,
        t,
    ) by {
        if t == entry.section_type {
            assert(grown[entries.len() as int].section_type == t);
        } else {
            if has_section(entries, t) {
                let i = choose|i: int|
                    0 <= i < entries.len() && (#[trigger] entries[i]).section_type == t;
                assert(grown[i].section_type == t);
            }
            if has_section(grown, t) {
                let i = choose|i: int|
                    0 <= i < grown.len() && (#[trigger] grown[i]).section_type == t;
                assert(entries[i].section_type == t);
            }
        }
    }
}

/// What the entries of a directory have in common: they lie in the input, are
/// not empty, and no two have one type.
pub open spec fn entries_valid(entries: Seq<GlobalData>, input_len: nat) -> bool {
    &&& distinct_types(entries)
    &&& forall|i: int|
        0 <= i < entries.len() ==> {
            &&& 0 < (#[trigger] entries[i]).file_size
            &&& section_end(entries[i]) <= input_len
            &&& section_end(entries[i]) <= u64::MAX
        }
}

proof fn lemma_entries_valid_push(entries: Seq<GlobalData>, entry: GlobalData, input_len: nat)
    requires
        entries_valid(entries, input_len),
        entry_error(entry, entries, input_len) is None,
    ensures
        entries_valid(entries.push(entry), input_len),
{
    let grown = entries.push(entry);
    assert forall|i: int, j: int| 0 <= i < j < grown.len() implies (#[trigger] grown[i]).section_type
        != (#[trigger] grown[j]).section_type by {
        if j == entries.len() {
            assert(entries[i].section_type != entry.section_type);
        } else {
            assert(entries[i].section_type != entries[j].section_type);
        }
    }
    assert forall|i: int| 0 <= i < grown.len() implies {
        &&& 0 < (#[trigger] grown[i]).file_size
        &&& section_end(grown[i]) <= input_len
        &&& section_end(grown[i]) <= u64::MAX
    } by {
        if i < entries.len() {
            assert(grown[i] == entries[i]);
        }
    }
}

/// Reads the entries of the directory, up to its terminator.
fn read_entries(cursor: &mut Cursor<'_>) -> (result: Result<(Vec<GlobalData>, BTreeSet<u32>), Error>)
    requires
        old(cursor).wf(),
    ensures
        final(cursor).wf(),
        final(cursor).same_input(*old(cursor)),
        match entries_at(
            old(cursor).bytes@,
            old(cursor).position as int,
            old(cursor).endian,
            Seq::empty(),
        ) {
            Ok((entries, end)) => {
                &&& result matches Ok((list, seen))
                &&& list@ == entries
                &&& types_of(seen@, entries)
                &&& entries_valid(entries, old(cursor).bytes@.len())
                &&& final(cursor).position == end
            },
            Err(error) => result == Err::<(Vec<GlobalData>, BTreeSet<u32>), Error>(error),
        },
{
    let ghost s = cursor.bytes@;
    let ghost endian = cursor.endian;
    let ghost start = cursor.position as int;
    let input_len: usize = cursor.bytes.len();
    let mut entries: Vec<GlobalData> = Vec::new();
    let mut seen: BTreeSet<u32> = BTreeSet::new();
    assert(types_of(seen@, entries@)) by {
        assert forall|t: u32| #[trigger] seen@.contains(t) <==> has_section(entries@, t) by {}
    }
    loop
        invariant
            cursor.wf(),
            cursor.bytes@ == s,
            cursor.endian == endian,
            s == old(cursor).bytes@,
            endian == old(cursor).endian,
            start == old(cursor).position,
            input_len == s.len(),
            types_of(seen@, entries@),
            entries_valid(entries@, s.len()),
            entries_at(s, start, endian, Seq::empty()) == entries_at(
                s,
                cursor.position as int,
                endian,
                entries@,
            ),
        decreases s.len() - cursor.position,
    {
        let entry = GlobalData::decode_from(cursor)?;
        if entry.section_type == GLOBAL_END {
            if entry.file_offset != 0 || entry.file_size != 0 {
                return Err(Error::InvalidFormat("v2 directory terminator is not all zero"));
            }
            return Ok((entries, seen));
        }
        let ghost known = seen@;
        if !observe_type(&mut seen, entry.section_type) {
            return Err(Error::DuplicateSection(entry.section_type));
        }
        if entry.file_size == 0 {
            return Err(Error::ZeroSizedSection { section_type: entry.section_type });
        }
        let end: u64 = match entry.file_offset.checked_add(entry.file_size) {
            Some(end) => end,
            None => return Err(Error::Overflow("v2 section end")),
        };
        if end > input_len as u64 {
            return Err(
                Error::SectionOutOfBounds {
                    section_type: entry.section_type,
                    offset: entry.file_offset,
                    size: entry.file_size,
                    input_len,
                },
            );
        }
        proof {
            lemma_types_push(known, entries@, entry);
            lemma_entries_valid_push(entries@, entry, s.len());
        }
        entries.push(entry);
    }
}

/// Checks the size, place and content of one section.
fn check_section(input: &[u8], header: &Header, entry: &GlobalData) -> (result: Result<(), Error>)
    ensures
        result == (match section_error(input@, *header, *entry) {
            Some(error) => Err::<(), Error>(error),
            None => Ok(()),
        }),
{
    let count: u64 = header.address_count as u64;
    if entry.section_type == GLOBAL_ADDRESS_OFFSETS {
        proof {
            assert(header.address_count * header.address_offset_size <= 0xffff_ffff * 0xff)
                by (nonlinear_arith)
                requires
                    header.address_count <= 0xffff_ffff,
                    header.address_offset_size <= 0xff,
            ;
        }
        if entry.file_size != count * header.address_offset_size as u64 {
            return Err(Error::InvalidFormat("v2 address-table size mismatch"));
        }
        if header.address_offset_size == 0 || entry.file_offset % header.address_offset_size as u64
            != 0 {
            return Err(Error::InvalidFormat("v2 address table is misaligned"));
        }
    } else if entry.section_type == GLOBAL_ADDRESS_INFO_OFFSETS {
        if entry.file_size != count * 8 {
            return Err(Error::InvalidFormat("v2 address-info table size mismatch"));
        }
        if entry.file_offset % 8 != 0 {
            return Err(Error::InvalidFormat("v2 address-info table is misaligned"));
        }
    } else if entry.section_type == GLOBAL_FILE_TABLE {
        if entry.file_size < 4 || (entry.file_size - 4) % FILE_ENTRY_SIZE as u64 != 0 {
            return Err(Error::InvalidFormat("invalid v2 file-table size"));
        }
        if entry.file_offset % 4 != 0 {
            return Err(Error::InvalidFormat("v2 file table is misaligned"));
        }
    } else if entry.section_type == GLOBAL_STRING_TABLE {
        if entry.file_offset > usize::MAX as u64 {
            return Err(Error::Overflow("v2 string-table offset"));
        }
        let offset: usize = entry.file_offset as usize;
        if offset >= input.len() || input[offset] != 0 {
            return Err(
                Error::InvalidFormat("GSYM string table does not begin with an empty string"),
            );
        }
    } else if entry.section_type == GLOBAL_FUNCTION_INFO && entry.file_offset % 4 != 0 {
        return Err(Error::InvalidFormat("v2 FunctionInfo section is misaligned"));
    }
    Ok(())
}

/// Checks every section and that no two of them overlap.
fn validate_sections(
    input: &[u8],
    directory_end: usize,
    header: &Header,
    entries: &Vec<GlobalData>,
) -> (result: Result<(), Error>)
    requires
        entries_valid(entries@, input@.len()),
    ensures
        result == (match sections_error(input@, *header, entries@, 0) {
            Some(error) => Err::<(), Error>(error),
            None => if sections_disjoint(entries@, directory_end as int) {
                Ok(())
            } else {
                Err(Error::InvalidFormat("v2 sections overlap each other or the directory"))
            },
        }),
{
    let mut i: usize = 0;
    while i < entries.len()
        invariant
            i <= entries@.len(),
            sections_error(input@, *header, entries@, 0) == sections_error(
                input@,
                *header,
                entries@,
                i as int,
            ),
        decreases entries@.len() - i,
    {
        check_section(input, header, &entries[i])?;
        i = i + 1;
    }
    if !check_disjoint(directory_end, entries) {
        return Err(Error::InvalidFormat("v2 sections overlap each other or the directory"));
    }
    Ok(())
}

/// Reads and checks the section directory of a file.
pub fn parse_directory(input: &[u8], endian: Endian, header: &Header) -> (result: Result<
    Directory,
    Error,
>)
    ensures
        match directory_at(input@, endian, *header) {
            Ok((entries, end)) => {
                &&& result matches Ok(directory)
                &&& directory.entries@ == entries
                &&& directory.end_offset == end
                &&& entries_valid(entries, input@.len())
            },
            Err(error) => result == Err::<Directory, Error>(error),
        },
{
    let mut cursor = Cursor::at(input, endian, HEADER_SIZE)?;
    let (entries, seen) = read_entries(&mut cursor)?;
    let end_offset: usize = cursor.position();
    if !was_seen(&seen, GLOBAL_ADDRESS_OFFSETS) {
        return Err(Error::MissingSection(GLOBAL_ADDRESS_OFFSETS));
    }
    if !was_seen(&seen, GLOBAL_ADDRESS_INFO_OFFSETS) {
        return Err(Error::MissingSection(GLOBAL_ADDRESS_INFO_OFFSETS));
    }
    if !was_seen(&seen, GLOBAL_STRING_TABLE) {
        return Err(Error::MissingSection(GLOBAL_STRING_TABLE));
    }
    if !was_seen(&seen, GLOBAL_FILE_TABLE) {
        return Err(Error::MissingSection(GLOBAL_FILE_TABLE));
    }
    if !was_seen(&seen, GLOBAL_FUNCTION_INFO) {
        return Err(Error::MissingSection(GLOBAL_FUNCTION_INFO));
    }
    validate_sections(input, end_offset, header, &entries)?;
    Ok(Directory { entries, end_offset })
}

/// Size of a file table.
pub fn file_table_size(file_count: u32) -> (result: Result<usize, Error>)
    ensures
        result == (if crate::format::spec_file_table_size(file_count, FILE_ENTRY_SIZE)
            <= usize::MAX {
            Ok::<usize, Error>(
                crate::format::spec_file_table_size(file_count, FILE_ENTRY_SIZE) as usize,
            )
        } else {
            Err(Error::Overflow("v2 file-table size"))
        }),
{
    crate::format::file_table_size(file_count, FILE_ENTRY_SIZE, "v2 file-table size")
}

/// Where the sections of a file to be written stand.
#[derive(Debug, PartialEq, Eq)]
pub struct WriteLayout {
    /// The directory entries in order, without the terminator.
    pub directory: Vec<GlobalData>,
    /// Offset behind the directory.
    pub directory_end: usize,
    /// Build identifier, where there is one.
    pub uuid: Option<Range<usize>>,
    /// Address offsets.
    pub address_offsets: Range<usize>,
    /// Offsets of the function records.
    pub address_info_offsets: Range<usize>,
    /// File table.
    pub file_table: Range<usize>,
    /// String table.
    pub string_table: Range<usize>,
    /// Function records.
    pub function_info: Range<usize>,
    /// Size of the file.
    pub file_size: usize,
}

/// Where the sections of a file stand, without regard to machine limits.
pub struct Places {
    /// Offset behind the directory.
    pub directory_end: nat,
    /// Offset behind the build identifier.
    pub uuid_end: nat,
    /// Start of the address offsets.
    pub address_start: nat,
    /// End of the address offsets.
    pub address_end: nat,
    /// Start of the offsets of the function records.
    pub info_start: nat,
    /// End of the offsets of the function records.
    pub info_end: nat,
    /// Start of the file table.
    pub file_start: nat,
    /// End of the file table, and start of the string table.
    pub file_end: nat,
    /// End of the string table.
    pub string_end: nat,
    /// Start of the function records.
    pub function_start: nat,
    /// End of the function records.
    pub function_end: nat,
}

/// Where the sections of a file stand: one behind the other, each aligned to
/// what it holds.
pub open spec fn places_of(
    header: Header,
    uuid_size: nat,
    file_count: u32,
    string_size: nat,
    function_size: nat,
) -> Places {
    let entry_count: nat = if uuid_size == 0 {
        6
    } else {
        7
    };
    let directory_end = HEADER_SIZE as nat + entry_count * GLOBAL_DATA_SIZE as nat;
    let uuid_end = directory_end + uuid_size;
    let address_start = crate::format::aligned(uuid_end, header.address_offset_size as nat);
    let address_end = address_start + header.address_count as nat
        * header.address_offset_size as nat;
    let info_start = crate::format::aligned(address_end, ADDRESS_INFO_OFFSET_SIZE as nat);
    let info_end = info_start + header.address_count as nat * ADDRESS_INFO_OFFSET_SIZE as nat;
    let file_start = crate::format::aligned(info_end, 4);
    let file_end = file_start + crate::format::spec_file_table_size(
        file_count,
        FILE_ENTRY_SIZE,
    ) as nat;
    let string_end = file_end + string_size;
    let function_start = crate::format::aligned(string_end, 4);
    Places {
        directory_end,
        uuid_end,
        address_start,
        address_end,
        info_start,
        info_end,
        file_start,
        file_end,
        string_end,
        function_start,
        function_end: function_start + function_size,
    }
}

/// The first offset or size that a machine word cannot hold, if there is one.
pub open spec fn places_error(header: Header, file_count: u32, places: Places) -> Option<Error> {
    if places.uuid_end > usize::MAX {
        Some(Error::Overflow("v2 UUID section end"))
    } else if header.address_offset_size == 0 || places.address_start > usize::MAX {
        Some(Error::Overflow("v2 address-table alignment"))
    } else if header.address_count * header.address_offset_size > usize::MAX {
        Some(Error::Overflow("v2 address-table size"))
    } else if places.address_end > usize::MAX {
        Some(Error::Overflow("v2 address table"))
    } else if places.info_start > usize::MAX {
        Some(Error::Overflow("v2 address-info alignment"))
    } else if header.address_count * ADDRESS_INFO_OFFSET_SIZE > usize::MAX {
        Some(Error::Overflow("v2 address-info size"))
    } else if places.info_end > usize::MAX {
        Some(Error::Overflow("v2 address-info table"))
    } else if places.file_start > usize::MAX {
        Some(Error::Overflow("v2 file-table alignment"))
    } else if crate::format::spec_file_table_size(file_count, FILE_ENTRY_SIZE) > usize::MAX {
        Some(Error::Overflow("v2 file-table size"))
    } else if places.file_end > usize::MAX {
        Some(Error::Overflow("v2 file table"))
    } else if places.string_end > usize::MAX {
        Some(Error::Overflow("v2 string table"))
    } else if places.function_start > usize::MAX {
        Some(Error::Overflow("v2 FunctionInfo alignment"))
    } else if places.function_end > usize::MAX {
        Some(Error::Overflow("v2 FunctionInfo section"))
    } else {
        None
    }
}

/// The directory entry of a section from `start` to `end`.
pub open spec fn entry_of(section_type: u32, start: nat, end: nat) -> GlobalData {
    GlobalData { section_type, file_offset: start as u64, file_size: (end - start) as u64 }
}

/// The directory of a file whose sections stand at `places`.
pub open spec fn directory_of(places: Places) -> Seq<GlobalData> {
    let uuid = if places.uuid_end == places.directory_end {
        Seq::empty()
    } else {
        seq![entry_of(GLOBAL_UUID, places.directory_end, places.uuid_end)]
    };
    uuid + seq![
        entry_of(GLOBAL_ADDRESS_OFFSETS, places.address_start, places.address_end),
        entry_of(GLOBAL_ADDRESS_INFO_OFFSETS, places.info_start, places.info_end),
        entry_of(GLOBAL_FILE_TABLE, places.file_start, places.file_end),
        entry_of(GLOBAL_STRING_TABLE, places.file_end, places.string_end),
        entry_of(GLOBAL_FUNCTION_INFO, places.function_start, places.function_end),
    ]
}

/// Whether `layout` puts the sections at `places`.
pub open spec fn layout_at(layout: WriteLayout, places: Places) -> bool {
    &&& layout.directory@ == directory_of(places)
    &&& layout.directory_end == places.directory_end
    &&& layout.uuid == (if places.uuid_end == places.directory_end {
        None
    } else {
        Some(Range { start: places.directory_end as usize, end: places.uuid_end as usize })
    })
    &&& layout.address_offsets == (Range {
        start: places.address_start as usize,
        end: places.address_end as usize,
    })
    &&& layout.address_info_offsets == (Range {
        start: places.info_start as usize,
        end: places.info_end as usize,
    })
    &&& layout.file_table == (Range {
        start: places.file_start as usize,
        end: places.file_end as usize,
    })
    &&& layout.string_table == (Range {
        start: places.file_end as usize,
        end: places.string_end as usize,
    })
    &&& layout.function_info == (Range {
        start: places.function_start as usize,
        end: places.function_end as usize,
    })
    &&& layout.file_size == places.function_end
}

/// The end of a section of `size` bytes from `start` on.
fn checked_end(start: usize, size: usize, context: &'static str) -> (result: Result<usize, Error>)
    ensures
        result == (if start + size > usize::MAX {
            Err::<usize, Error>(Error::Overflow(context))
        } else {
            Ok((start + size) as usize)
        }),
{
    match start.checked_add(size) {
        Some(end) => Ok(end),
        None => Err(Error::Overflow(context)),
    }
}

fn checked_align(value: usize, alignment: usize, context: &'static str) -> (result: Result<
    usize,
    Error,
>)
    ensures
        result == (if alignment == 0 || crate::format::aligned(value as nat, alignment as nat)
            > usize::MAX {
            Err::<usize, Error>(Error::Overflow(context))
        } else {
            Ok(crate::format::aligned(value as nat, alignment as nat) as usize)
        }),
{
    match align_up(value, alignment) {
        Some(rounded) => Ok(rounded),
        None => Err(Error::Overflow(context)),
    }
}

fn checked_size(count: u32, width: u8, context: &'static str) -> (result: Result<usize, Error>)
    ensures
        result == (if count * width > usize::MAX {
            Err::<usize, Error>(Error::Overflow(context))
        } else {
            Ok((count * width) as usize)
        }),
{
    match (count as usize).checked_mul(width as usize) {
        Some(size) => Ok(size),
        None => Err(Error::Overflow(context)),
    }
}

/// The directory entry of a section.
fn entry_for(section_type: u32, range: &Range<usize>) -> (entry: GlobalData)
    requires
        range.start <= range.end,
    ensures
        entry == entry_of(section_type, range.start as nat, range.end as nat),
{
    GlobalData {
        section_type,
        file_offset: range.start as u64,
        file_size: (range.end - range.start) as u64,
    }
}

impl Header {
    /// Where the sections of a file with this header stand.
    pub fn write_layout(
        &self,
        uuid_size: usize,
        file_count: u32,
        string_table_size: usize,
        function_info_size: usize,
    ) -> (result: Result<WriteLayout, Error>)
        ensures
            ({
                let places = places_of(
                    *self,
                    uuid_size as nat,
                    file_count,
                    string_table_size as nat,
                    function_info_size as nat,
                );
                match places_error(*self, file_count, places) {
                    Some(error) => result == Err::<WriteLayout, Error>(error),
                    None => result matches Ok(layout) && layout_at(layout, places),
                }
            }),
    {
        let has_uuid: bool = uuid_size != 0;
        let entry_count: usize = if has_uuid {
            7
        } else {
            6
        };
        let directory_end: usize = HEADER_SIZE + entry_count * GLOBAL_DATA_SIZE;
        let uuid_end: usize = checked_end(directory_end, uuid_size, "v2 UUID section end")?;
        let address_start: usize = checked_align(
            uuid_end,
            self.address_offset_size as usize,
            "v2 address-table alignment",
        )?;
        let address_size: usize = checked_size(
            self.address_count,
            self.address_offset_size,
            "v2 address-table size",
        )?;
        let address_end: usize = checked_end(address_start, address_size, "v2 address table")?;
        let info_start: usize = checked_align(
            address_end,
            ADDRESS_INFO_OFFSET_SIZE as usize,
            "v2 address-info alignment",
        )?;
        let info_size: usize = checked_size(
            self.address_count,
            ADDRESS_INFO_OFFSET_SIZE,
            "v2 address-info size",
        )?;
        let info_end: usize = checked_end(info_start, info_size, "v2 address-info table")?;
        let file_start: usize = checked_align(info_end, 4, "v2 file-table alignment")?;
        let file_size: usize = file_table_size(file_count)?;
        let file_end: usize = checked_end(file_start, file_size, "v2 file table")?;
        let string_end: usize = checked_end(file_end, string_table_size, "v2 string table")?;
        let function_start: usize = checked_align(string_end, 4, "v2 FunctionInfo alignment")?;
        let function_end: usize = checked_end(
            function_start,
            function_info_size,
            "v2 FunctionInfo section",
        )?;
        let ghost places = places_of(
            *self,
            uuid_size as nat,
            file_count,
            string_table_size as nat,
            function_info_size as nat,
        );
        let address_offsets = address_start..address_end;
        let address_info_offsets = info_start..info_end;
        let file_table = file_start..file_end;
        let string_table = file_end..string_end;
        let function_info = function_start..function_end;
        let mut directory: Vec<GlobalData> = Vec::new();
        let uuid: Option<Range<usize>> = if has_uuid {
            let range = directory_end..uuid_end;
            directory.push(entry_for(GLOBAL_UUID, &range));
            Some(range)
        } else {
            None
        };
        directory.push(entry_for(GLOBAL_ADDRESS_OFFSETS, &address_offsets));
        directory.push(entry_for(GLOBAL_ADDRESS_INFO_OFFSETS, &address_info_offsets));
        directory.push(entry_for(GLOBAL_FILE_TABLE, &file_table));
        directory.push(entry_for(GLOBAL_STRING_TABLE, &string_table));
        directory.push(entry_for(GLOBAL_FUNCTION_INFO, &function_info));
        assert(directory@ =~= directory_of(places));
        Ok(
            WriteLayout {
                directory,
                directory_end,
                uuid,
                address_offsets,
                address_info_offsets,
                file_table,
                string_table,
                function_info,
                file_size: function_end,
            },
        )
    }
}

/// Sections are laid out in order, each at a multiple of its alignment and none
/// over another or over the directory.
pub proof fn law_places_are_ordered(
    header: Header,
    uuid_size: nat,
    file_count: u32,
    string_size: nat,
    function_size: nat,
)
    requires
        header.address_offset_size > 0,
    ensures
        ({
            let places = places_of(header, uuid_size, file_count, string_size, function_size);
            &&& places.directory_end <= places.uuid_end <= places.address_start
                <= places.address_end <= places.info_start <= places.info_end <= places.file_start
                <= places.file_end <= places.string_end <= places.function_start
                <= places.function_end
            &&& places.address_start % (header.address_offset_size as nat) == 0
            &&& places.info_start % 8 == 0
            &&& places.file_start % 4 == 0
            &&& places.function_start % 4 == 0
        }),
{
    let places = places_of(header, uuid_size, file_count, string_size, function_size);
    crate::format::lemma_aligned(places.uuid_end, header.address_offset_size as nat);
    crate::format::lemma_aligned(places.address_end, ADDRESS_INFO_OFFSET_SIZE as nat);
    crate::format::lemma_aligned(places.info_end, 4);
    crate::format::lemma_aligned(places.string_end, 4);
    assert(header.address_count as nat * header.address_offset_size as nat >= 0)
        by (nonlinear_arith);
    assert(file_count * FILE_ENTRY_SIZE >= 0) by (nonlinear_arith);
}

} // verus!
