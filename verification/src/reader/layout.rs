//! Where the tables of a file stand, whatever its version.
use vstd::prelude::*;
use crate::endian;
use crate::endian::{Cursor, Endian};
use crate::error::Error;
use crate::format::v1;
use crate::format::v2;
use crate::version::GsymVersion;
use std::ops::Range;

verus! {

/// Where the tables of a file stand and how they are to be read.
#[derive(Debug, PartialEq, Eq)]
pub struct ParsedLayout {
    /// Version of the file.
    pub version: GsymVersion,
    /// Byte order of the file.
    pub endian: Endian,
    /// Size of an address offset.
    pub address_offset_size: u8,
    /// Size of a string offset.
    pub string_offset_size: u8,
    /// Address that address offsets are relative to.
    pub base_address: u64,
    /// Number of functions.
    pub address_count: u32,
    /// Build identifier.
    pub build_id: Range<usize>,
    /// Address offsets.
    pub address_offsets: Range<usize>,
    /// Offsets of the function records.
    pub address_info_offsets: Range<usize>,
    /// File table.
    pub file_table: Range<usize>,
    /// String table.
    pub string_table: Range<usize>,
    /// Function records.
    pub function_info: Range<usize>,
    /// Number of files.
    pub file_count: u32,
}

/// Whether a range lies in an input of `len` bytes.
pub open spec fn in_input(range: Range<usize>, len: nat) -> bool {
    range.start <= range.end <= len
}

impl ParsedLayout {
    /// Every table lies in the input, and the widths are ones that are read.
    pub open spec fn wf(&self, len: nat) -> bool {
        &&& in_input(self.build_id, len)
        &&& in_input(self.address_offsets, len)
        &&& in_input(self.address_info_offsets, len)
        &&& in_input(self.file_table, len)
        &&& in_input(self.string_table, len)
        &&& in_input(self.function_info, len)
        &&& 1 <= self.address_offset_size <= 8
        &&& self.string_offset_size == (match self.version {
            GsymVersion::V1 => 4u8,
            GsymVersion::V2 => 8u8,
        })
        &&& self.address_offsets.end - self.address_offsets.start == self.address_count
            * self.address_offset_size
        &&& self.address_info_offsets.end - self.address_info_offsets.start == self.address_count
            * self.string_offset_size
        &&& self.file_table.end - self.file_table.start == 4 + self.file_count * (2
            * self.string_offset_size)
    }
}

/// The layout of the version 1 file `s`.
pub open spec fn parsed_v1(s: Seq<u8>, native: Endian) -> Result<ParsedLayout, Error> {
    match v1::header_decoded(s, native) {
        Err(error) => Err(error),
        Ok((header, endian)) => match v1::layout_of(header, s.len() as usize) {
            Err(error) => Err(error),
            Ok(layout) => match endian::uint_at(s, layout.file_table_offset as int, 4, endian) {
                Err(error) => Err(error),
                Ok((file_count, _)) => {
                    let size = crate::format::spec_file_table_size(
                        file_count as u32,
                        v1::FILE_ENTRY_SIZE,
                    );
                    if size > usize::MAX {
                        Err(Error::Overflow("v1 file-table size"))
                    } else if layout.file_table_offset + size > usize::MAX {
                        Err(Error::Overflow("v1 file table end"))
                    } else if layout.file_table_offset + size > layout.string_table.start {
                        Err(Error::InvalidFormat("v1 file table overlaps string table"))
                    } else {
                        Ok(
                            ParsedLayout {
                                version: GsymVersion::V1,
                                endian,
                                address_offset_size: header.address_offset_size,
                                string_offset_size: v1::STRING_OFFSET_SIZE,
                                base_address: header.base_address,
                                address_count: header.address_count,
                                build_id: Range {
                                    start: 28,
                                    end: (28 + header.uuid.len()) as usize,
                                },
                                address_offsets: layout.address_offsets,
                                address_info_offsets: layout.address_info_offsets,
                                file_table: Range {
                                    start: layout.file_table_offset,
                                    end: (layout.file_table_offset + size) as usize,
                                },
                                string_table: layout.string_table,
                                function_info: Range {
                                    start: layout.function_info_offset,
                                    end: s.len() as usize,
                                },
                                file_count: file_count as u32,
                            },
                        )
                    }
                },
            },
        },
    }
}

/// Where the section of the given type stands.
pub open spec fn section_range(entries: Seq<v2::GlobalData>, section_type: u32) -> Range<usize> {
    match v2::find_section(entries, section_type) {
        Some(entry) => Range {
            start: entry.file_offset as usize,
            end: (entry.file_offset + entry.file_size) as usize,
        },
        None => Range { start: 0, end: 0 },
    }
}

/// The layout of the version 2 file `s`.
pub open spec fn parsed_v2(s: Seq<u8>, native: Endian) -> Result<ParsedLayout, Error> {
    match v2::header_decoded(s, native) {
        Err(error) => Err(error),
        Ok((header, endian)) => match v2::directory_at(s, endian, header) {
            Err(error) => Err(error),
            Ok((entries, _)) => {
                let file_table = section_range(entries, v2::GLOBAL_FILE_TABLE);
                match endian::uint_at(s, file_table.start as int, 4, endian) {
                    Err(error) => Err(error),
                    Ok((file_count, _)) => {
                        let size = crate::format::spec_file_table_size(
                            file_count as u32,
                            v2::FILE_ENTRY_SIZE,
                        );
                        if size > usize::MAX {
                            Err(Error::Overflow("v2 file-table size"))
                        } else if size != file_table.end - file_table.start {
                            Err(Error::InvalidFormat("v2 file-table count does not match its size"))
                        } else {
                            Ok(
                                ParsedLayout {
                                    version: GsymVersion::V2,
                                    endian,
                                    address_offset_size: header.address_offset_size,
                                    string_offset_size: v2::STRING_OFFSET_SIZE,
                                    base_address: header.base_address,
                                    address_count: header.address_count,
                                    build_id: section_range(entries, v2::GLOBAL_UUID),
                                    address_offsets: section_range(
                                        entries,
                                        v2::GLOBAL_ADDRESS_OFFSETS,
                                    ),
                                    address_info_offsets: section_range(
                                        entries,
                                        v2::GLOBAL_ADDRESS_INFO_OFFSETS,
                                    ),
                                    file_table,
                                    string_table: section_range(entries, v2::GLOBAL_STRING_TABLE),
                                    function_info: section_range(
                                        entries,
                                        v2::GLOBAL_FUNCTION_INFO,
                                    ),
                                    file_count: file_count as u32,
                                },
                            )
                        }
                    },
                }
            },
        },
    }
}

/// The layout of the file `s`, read on a machine with the byte order `native`.
#[verifier::opaque]
pub open spec fn parsed(s: Seq<u8>, native: Endian) -> Result<ParsedLayout, Error> {
    match v1::byte_order(s, native) {
        Err(error) => Err(error),
        Ok(endian) => match endian::uint_at(s, 4, 2, endian) {
            Err(error) => Err(error),
            Ok((version, _)) => if version == v1::VERSION {
                parsed_v1(s, native)
            } else if version == v2::VERSION {
                parsed_v2(s, native)
            } else {
                Err(Error::UnsupportedVersion(version as u16))
            },
        },
    }
}

fn parse_v1(data: &[u8], native: Endian) -> (result: Result<ParsedLayout, Error>)
    ensures
        result == parsed_v1(data@, native),
        result matches Ok(layout) ==> layout.wf(data@.len()),
{
    proof {
        reveal(v1::fields_at);
    }
    let (header, endian) = v1::Header::decode_on(data, native)?;
    let layout = header.layout(data.len())?;
    proof {
        lemma_v1_layout(header@, data@.len() as usize);
    }
    let mut files = Cursor::at(data, endian, layout.file_table_offset)?;
    let file_count: u32 = files.read_u32()?;
    let file_size: usize = v1::file_table_size(file_count)?;
    let file_end: usize = match layout.file_table_offset.checked_add(file_size) {
        Some(end) => end,
        None => return Err(Error::Overflow("v1 file table end")),
    };
    if file_end > layout.string_table.start {
        return Err(Error::InvalidFormat("v1 file table overlaps string table"));
    }
    let uuid_size: usize = header.uuid.as_slice().len();
    Ok(
        ParsedLayout {
            version: GsymVersion::V1,
            endian,
            address_offset_size: header.address_offset_size,
            string_offset_size: v1::STRING_OFFSET_SIZE,
            base_address: header.base_address,
            address_count: header.address_count,
            build_id: 28..28 + uuid_size,
            address_offsets: layout.address_offsets,
            address_info_offsets: layout.address_info_offsets,
            file_table: layout.file_table_offset..file_end,
            string_table: layout.string_table,
            function_info: layout.function_info_offset..data.len(),
            file_count,
        },
    )
}

/// The tables of a version 1 file lie one behind the other, within the input.
pub proof fn lemma_v1_layout(header: v1::HeaderView, input_len: usize)
    ensures
        v1::layout_of(header, input_len) matches Ok(layout) ==> {
            &&& v1::HEADER_SIZE <= layout.address_offsets.start <= layout.address_offsets.end
                <= layout.address_info_offsets.start <= layout.address_info_offsets.end
                <= layout.file_table_offset <= layout.string_table.start <= layout.string_table.end
                <= input_len
            &&& layout.function_info_offset == layout.string_table.end
            &&& layout.address_offsets.end - layout.address_offsets.start == header.address_count
                * header.address_offset_size
            &&& layout.address_info_offsets.end - layout.address_info_offsets.start
                == header.address_count * 4
        },
{
    if let Ok(layout) = v1::layout_of(header, input_len) {
        crate::format::lemma_aligned(v1::HEADER_SIZE as nat, header.address_offset_size as nat);
        crate::format::lemma_aligned(v1::address_offsets_end(header), 4);
        crate::format::lemma_aligned(v1::address_info_end(header), 4);
        assert(header.address_count as nat * header.address_offset_size as nat >= 0)
            by (nonlinear_arith);
    }
}

/// Where the section of the given type stands.
fn section(directory: &v2::Directory, section_type: u32, Ghost(len): Ghost<nat>) -> (range: Range<
    usize,
>)
    requires
        v2::entries_valid(directory.entries@, len),
        len <= usize::MAX,
    ensures
        range == section_range(directory.entries@, section_type),
        in_input(range, len),
{
    proof {
        v2::lemma_found_section(directory.entries@, section_type);
    }
    match directory.get(section_type) {
        Some(entry) => {
            proof {
                let i = choose|i: int|
                    0 <= i < directory.entries@.len() && directory.entries@[i] == entry;
                assert(directory.entries@[i] == entry);
            }
            let start: usize = entry.file_offset as usize;
            let end: usize = start + entry.file_size as usize;
            start..end
        },
        None => 0..0,
    }
}

/// Sections of a directory that was accepted keep the rules of their types.
pub proof fn lemma_section_checked(
    s: Seq<u8>,
    header: v2::Header,
    entries: Seq<v2::GlobalData>,
    i: int,
    k: int,
)
    requires
        v2::sections_error(s, header, entries, i) is None,
        0 <= i <= k < entries.len(),
    ensures
        v2::section_error(s, header, entries[k]) is None,
    decreases k - i,
{
    if i < k {
        lemma_section_checked(s, header, entries, i + 1, k);
    }
}

fn parse_v2(data: &[u8], native: Endian) -> (result: Result<ParsedLayout, Error>)
    ensures
        result == parsed_v2(data@, native),
        result matches Ok(layout) ==> layout.wf(data@.len()),
{
    proof {
        reveal(v2::fields_at);
    }
    let (header, endian) = v2::Header::decode_on(data, native)?;
    let directory = v2::parse_directory(data, endian, &header)?;
    let len: usize = data.len();
    let file_table = section(&directory, v2::GLOBAL_FILE_TABLE, Ghost(data@.len()));
    let mut file_cursor = Cursor::at(data, endian, file_table.start)?;
    let file_count: u32 = file_cursor.read_u32()?;
    let file_size: usize = v2::file_table_size(file_count)?;
    if file_size != file_table.end - file_table.start {
        return Err(Error::InvalidFormat("v2 file-table count does not match its size"));
    }
    let build_id = section(&directory, v2::GLOBAL_UUID, Ghost(data@.len()));
    let address_offsets = section(&directory, v2::GLOBAL_ADDRESS_OFFSETS, Ghost(data@.len()));
    let address_info_offsets = section(
        &directory,
        v2::GLOBAL_ADDRESS_INFO_OFFSETS,
        Ghost(data@.len()),
    );
    let string_table = section(&directory, v2::GLOBAL_STRING_TABLE, Ghost(data@.len()));
    let function_info = section(&directory, v2::GLOBAL_FUNCTION_INFO, Ghost(data@.len()));
    proof {
        lemma_section_size(data@, header, directory.entries@, v2::GLOBAL_ADDRESS_OFFSETS);
        lemma_section_size(data@, header, directory.entries@, v2::GLOBAL_ADDRESS_INFO_OFFSETS);
    }
    Ok(
        ParsedLayout {
            version: GsymVersion::V2,
            endian,
            address_offset_size: header.address_offset_size,
            string_offset_size: v2::STRING_OFFSET_SIZE,
            base_address: header.base_address,
            address_count: header.address_count,
            build_id,
            address_offsets,
            address_info_offsets,
            file_table,
            string_table,
            function_info,
            file_count,
        },
    )
}

/// The address tables of a directory that was accepted have an entry for each
/// function.
proof fn lemma_section_size(
    s: Seq<u8>,
    header: v2::Header,
    entries: Seq<v2::GlobalData>,
    section_type: u32,
)
    requires
        v2::entries_valid(entries, s.len()),
        s.len() <= usize::MAX,
        v2::missing_section(entries) is None,
        v2::sections_error(s, header, entries, 0) is None,
        section_type == v2::GLOBAL_ADDRESS_OFFSETS || section_type
            == v2::GLOBAL_ADDRESS_INFO_OFFSETS,
    ensures
        section_range(entries, section_type).end - section_range(entries, section_type).start
            == header.address_count * (if section_type == v2::GLOBAL_ADDRESS_OFFSETS {
            header.address_offset_size
        } else {
            8u8
        }),
{
    v2::lemma_found_section(entries, section_type);
    let entry = v2::find_section(entries, section_type)->0;
    let i = choose|i: int| 0 <= i < entries.len() && entries[i] == entry;
    assert(entries[i] == entry);
    lemma_section_checked(s, header, entries, 0, i);
}

/// Parses the tables of a file on a machine with the given byte order.
pub fn parse_on(data: &[u8], native: Endian) -> (result: Result<ParsedLayout, Error>)
    ensures
        result == parsed(data@, native),
        result matches Ok(layout) ==> layout.wf(data@.len()),
{
    proof {
        reveal(parsed);
    }
    let endian = v1::detect_endian_on(data, native)?;
    let mut prefix = Cursor::new(data, endian);
    prefix.read_u32()?;
    let version: u16 = prefix.read_u16()?;
    if version == v1::VERSION {
        parse_v1(data, native)
    } else if version == v2::VERSION {
        parse_v2(data, native)
    } else {
        Err(Error::UnsupportedVersion(version))
    }
}

/// What the tables of a file are does not depend on the machine that reads it.
pub proof fn law_tables_are_the_files_own(s: Seq<u8>, one: Endian, other: Endian)
    ensures
        parsed(s, one) is Ok ==> parsed(s, other) == parsed(s, one),
{
    reveal(parsed);
    v1::law_byte_order_is_the_files_own(s, one, other);
}

} // verus!
