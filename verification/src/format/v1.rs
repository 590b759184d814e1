//! Header and table layout of GSYM version 1.
use vstd::prelude::*;
use crate::bytes;
use crate::endian;
use crate::endian::{Cursor, Encoder, Endian};
use crate::error::Error;
use crate::format::{align_up, GSYM_CIGAM, GSYM_MAGIC};
use crate::model::copy_bytes;
use std::ops::Range;

verus! {

/// Version number in the header.
pub const VERSION: u16 = 1;

/// Size of the header.
pub const HEADER_SIZE: usize = 48;

/// Size of the field that holds the build identifier.
pub const MAX_UUID_SIZE: usize = 20;

/// Size of an entry of the address-info table.
pub const ADDRESS_INFO_OFFSET_SIZE: u8 = 4;

/// Size of a string offset.
pub const STRING_OFFSET_SIZE: u8 = 4;

/// Size of an entry of the file table.
pub const FILE_ENTRY_SIZE: usize = 8;

/// A build identifier of at most 20 bytes.
#[derive(Debug, PartialEq, Eq)]
pub struct FixedUuid {
    /// The identifier.
    pub bytes: Vec<u8>,
}

impl View for FixedUuid {
    type V = Seq<u8>;

    open spec fn view(&self) -> Seq<u8> {
        self.bytes@
    }
}

impl Clone for FixedUuid {
    fn clone(&self) -> (copy: Self)
        ensures
            copy@ == self@,
    {
        FixedUuid { bytes: copy_bytes(self.bytes.as_slice()) }
    }
}

impl Default for FixedUuid {
    fn default() -> (uuid: Self)
        ensures
            uuid@ == Seq::<u8>::empty(),
    {
        FixedUuid { bytes: Vec::new() }
    }
}

impl FixedUuid {
    /// Takes a build identifier that fits the field.
    pub fn new(uuid: &[u8]) -> (result: Result<Self, Error>)
        ensures
            match result {
                Ok(fixed) => uuid@.len() <= MAX_UUID_SIZE && fixed@ == uuid@,
                Err(error) => uuid@.len() > MAX_UUID_SIZE && error == (Error::V1BuildIdTooLong {
                    size: uuid@.len() as usize,
                }),
            },
    {
        if uuid.len() > MAX_UUID_SIZE {
            return Err(Error::V1BuildIdTooLong { size: uuid.len() });
        }
        Ok(FixedUuid { bytes: copy_bytes(uuid) })
    }

    /// The identifier.
    pub fn as_slice(&self) -> (uuid: &[u8])
        ensures
            uuid@ == self@,
    {
        self.bytes.as_slice()
    }
}

/// What a version 1 header says.
pub struct HeaderView {
    /// Size of an address offset.
    pub address_offset_size: u8,
    /// Address that address offsets are relative to.
    pub base_address: u64,
    /// Number of functions.
    pub address_count: u32,
    /// File offset of the string table.
    pub string_table_offset: u32,
    /// Size of the string table.
    pub string_table_size: u32,
    /// Build identifier.
    pub uuid: Seq<u8>,
}

/// Version 1 header.
#[derive(Debug, PartialEq, Eq)]
pub struct Header {
    /// Size of an address offset: 1, 2, 4 or 8 bytes.
    pub address_offset_size: u8,
    /// Address that address offsets are relative to.
    pub base_address: u64,
    /// Number of functions.
    pub address_count: u32,
    /// File offset of the string table.
    pub string_table_offset: u32,
    /// Size of the string table.
    pub string_table_size: u32,
    /// Build identifier.
    pub uuid: FixedUuid,
}

impl View for Header {
    type V = HeaderView;

    open spec fn view(&self) -> HeaderView {
        HeaderView {
            address_offset_size: self.address_offset_size,
            base_address: self.base_address,
            address_count: self.address_count,
            string_table_offset: self.string_table_offset,
            string_table_size: self.string_table_size,
            uuid: self.uuid@,
        }
    }
}

impl Clone for Header {
    fn clone(&self) -> (copy: Self)
        ensures
            copy@ == self@,
    {
        Header {
            address_offset_size: self.address_offset_size,
            base_address: self.base_address,
            address_count: self.address_count,
            string_table_offset: self.string_table_offset,
            string_table_size: self.string_table_size,
            uuid: self.uuid.clone(),
        }
    }
}

/// Where the tables of a version 1 file stand.
#[derive(Debug, PartialEq, Eq)]
pub struct Layout {
    /// Address offsets.
    pub address_offsets: Range<usize>,
    /// Offsets of the function records.
    pub address_info_offsets: Range<usize>,
    /// Start of the file table.
    pub file_table_offset: usize,
    /// String table.
    pub string_table: Range<usize>,
    /// Start of the function records.
    pub function_info_offset: usize,
}

/// The other byte order.
pub open spec fn other_order(endian: Endian) -> Endian {
    match endian {
        Endian::Little => Endian::Big,
        Endian::Big => Endian::Little,
    }
}

/// Byte order of the file `s`. The number that an unknown magic is reported
/// with is read in the byte order `native` of the machine.
pub open spec fn byte_order(s: Seq<u8>, native: Endian) -> Result<Endian, Error> {
    match endian::uint_at(s, 0, 4, native) {
        Err(error) => Err(error),
        Ok((magic, _)) => if magic == GSYM_MAGIC {
            Ok(native)
        } else if magic == GSYM_CIGAM {
            Ok(other_order(native))
        } else {
            Err(Error::InvalidMagic(magic as u32))
        },
    }
}

/// Determines the byte order of a file on a machine with the given byte order.
pub fn detect_endian_on(input: &[u8], native: Endian) -> (result: Result<Endian, Error>)
    ensures
        result == byte_order(input@, native),
{
    let mut cursor = Cursor::new(input, native);
    let magic: u32 = cursor.read_u32()?;
    if magic == GSYM_MAGIC {
        Ok(native)
    } else if magic == GSYM_CIGAM {
        match native {
            Endian::Little => Ok(Endian::Big),
            Endian::Big => Ok(Endian::Little),
        }
    } else {
        Err(Error::InvalidMagic(magic))
    }
}

/// Determines the byte order of a file.
pub fn detect_endian(input: &[u8]) -> (result: Result<Endian, Error>)
    ensures
        result == byte_order(input@, Endian::Little) || result == byte_order(input@, Endian::Big),
{
    detect_endian_on(input, Endian::native())
}

/// The error of an address-offset size that version 1 does not have, if it is.
pub open spec fn address_offset_size_error(size: u8) -> Option<Error> {
    if size == 1 || size == 2 || size == 4 || size == 8 {
        None
    } else {
        Some(Error::InvalidAddressOffsetSize { version: VERSION, size })
    }
}

/// Checks the size of address offsets.
pub fn validate_address_offset_size(size: u8) -> (result: Result<(), Error>)
    ensures
        result == (match address_offset_size_error(size) {
            Some(error) => Err::<(), Error>(error),
            None => Ok(()),
        }),
{
    if size == 1 || size == 2 || size == 4 || size == 8 {
        Ok(())
    } else {
        Err(Error::InvalidAddressOffsetSize { version: VERSION, size })
    }
}

/// Outcome of reading the fields behind the version number.
#[verifier::opaque]
pub open spec fn fields_at(s: Seq<u8>, endian: Endian) -> Result<HeaderView, Error> {
    match endian::uint_at(s, 6, 1, endian) {
        Err(error) => Err(error),
        Ok((width, _)) => match address_offset_size_error(width as u8) {
            Some(error) => Err(error),
            None => match endian::uint_at(s, 7, 1, endian) {
                Err(error) => Err(error),
                Ok((uuid_size, _)) => if uuid_size > MAX_UUID_SIZE {
                    Err(Error::InvalidUuidSize(uuid_size as usize))
                } else {
                    match endian::uint_at(s, 8, 8, endian) {
                        Err(error) => Err(error),
                        Ok((base_address, _)) => match endian::uint_at(s, 16, 4, endian) {
                            Err(error) => Err(error),
                            Ok((count, _)) => match endian::uint_at(s, 20, 4, endian) {
                                Err(error) => Err(error),
                                Ok((offset, _)) => match endian::uint_at(s, 24, 4, endian) {
                                    Err(error) => Err(error),
                                    Ok((size, _)) => if s.len() < HEADER_SIZE {
                                        Err(endian::eof_at(s, 28, MAX_UUID_SIZE as int))
                                    } else {
                                        Ok(
                                            HeaderView {
                                                address_offset_size: width as u8,
                                                base_address,
                                                address_count: count as u32,
                                                string_table_offset: offset as u32,
                                                string_table_size: size as u32,
                                                uuid: s.subrange(28, 28 + uuid_size),
                                            },
                                        )
                                    },
                                },
                            },
                        },
                    }
                },
            },
        },
    }
}

/// Outcome of reading the magic and the version number, which must be
/// `version`.
pub open spec fn preamble_at(s: Seq<u8>, native: Endian, version: u16) -> Result<Endian, Error> {
    match byte_order(s, native) {
        Err(error) => Err(error),
        Ok(endian) => match endian::uint_at(s, 0, 4, endian) {
            Err(error) => Err(error),
            Ok((magic, _)) => if magic != GSYM_MAGIC {
                Err(Error::InvalidMagic(magic as u32))
            } else {
                match endian::uint_at(s, 4, 2, endian) {
                    Err(error) => Err(error),
                    Ok((found, _)) => if found != version {
                        Err(Error::UnsupportedVersion(found as u16))
                    } else {
                        Ok(endian)
                    },
                }
            },
        },
    }
}

/// The header of the file `s` and the byte order of the file.
pub open spec fn header_decoded(s: Seq<u8>, native: Endian) -> Result<(HeaderView, Endian), Error> {
    match preamble_at(s, native, VERSION) {
        Err(error) => Err(error),
        Ok(endian) => match fields_at(s, endian) {
            Err(error) => Err(error),
            Ok(header) => Ok((header, endian)),
        },
    }
}

/// Reads the magic and the version number.
pub fn read_preamble(cursor: &mut Cursor<'_>, version: u16) -> (result: Result<(), Error>)
    requires
        old(cursor).wf(),
        old(cursor).position == 0,
    ensures
        final(cursor).wf(),
        final(cursor).same_input(*old(cursor)),
        forall|native: Endian|
            byte_order(old(cursor).bytes@, native) == Ok::<Endian, Error>(old(cursor).endian)
                ==> match #[trigger] preamble_at(old(cursor).bytes@, native, version) {
                Ok(endian) => result == Ok::<(), Error>(()) && endian == old(cursor).endian
                    && final(cursor).position == 6,
                Err(error) => result == Err::<(), Error>(error),
            },
{
    let magic: u32 = cursor.read_u32()?;
    if magic != GSYM_MAGIC {
        return Err(Error::InvalidMagic(magic));
    }
    let found: u16 = cursor.read_u16()?;
    if found != version {
        return Err(Error::UnsupportedVersion(found));
    }
    Ok(())
}

/// Reads one byte as an integer.
pub proof fn lemma_byte(s: Seq<u8>, pos: int, endian: Endian)
    requires
        0 <= pos,
    ensures
        pos < s.len() ==> endian::uint_at(s, pos, 1, endian) == Ok::<(u64, int), Error>(
            (s[pos] as u64, pos + 1),
        ),
        pos >= s.len() ==> endian::uint_at(s, pos, 1, endian) == Err::<(u64, int), Error>(
            endian::eof_at(s, pos, 1),
        ),
{
    if pos < s.len() {
        let b = s.subrange(pos, pos + 1);
        assert(b[0] == s[pos]);
        reveal_with_fuel(bytes::le_value, 2);
        reveal_with_fuel(bytes::be_value, 2);
        assert(b.drop_first() =~= Seq::<u8>::empty());
        assert(b.drop_last() =~= Seq::<u8>::empty());
    }
}

impl Header {
    /// Reads the header of a file on a machine with the given byte order.
    pub fn decode_on(input: &[u8], native: Endian) -> (result: Result<(Self, Endian), Error>)
        ensures
            match header_decoded(input@, native) {
                Ok((view, order)) => {
                    &&& result matches Ok((header, endian))
                    &&& header@ == view
                    &&& endian == order
                },
                Err(error) => result == Err::<(Self, Endian), Error>(error),
            },
    {
        proof {
            reveal(fields_at);
        }
        let endian = detect_endian_on(input, native)?;
        let mut cursor = Cursor::new(input, endian);
        read_preamble(&mut cursor, VERSION)?;
        proof {
            lemma_byte(input@, 6, endian);
            lemma_byte(input@, 7, endian);
        }
        let address_offset_size: u8 = cursor.read_u8()?;
        validate_address_offset_size(address_offset_size)?;
        let uuid_size: usize = cursor.read_u8()? as usize;
        if uuid_size > MAX_UUID_SIZE {
            return Err(Error::InvalidUuidSize(uuid_size));
        }
        let base_address: u64 = cursor.read_u64()?;
        let address_count: u32 = cursor.read_u32()?;
        let string_table_offset: u32 = cursor.read_u32()?;
        let string_table_size: u32 = cursor.read_u32()?;
        let storage = cursor.take(MAX_UUID_SIZE)?;
        let uuid = FixedUuid::new(vstd::slice::slice_subrange(storage, 0, uuid_size))?;
        let header = Header {
            address_offset_size,
            base_address,
            address_count,
            string_table_offset,
            string_table_size,
            uuid,
        };
        assert(header@.uuid =~= input@.subrange(28, 28 + uuid_size));
        Ok((header, endian))
    }

    /// Reads the header of a file.
    pub fn decode(input: &[u8]) -> (result: Result<(Self, Endian), Error>)
        ensures
            exists|native: Endian|
                match #[trigger] header_decoded(input@, native) {
                    Ok((view, order)) => {
                        &&& result matches Ok((header, endian))
                        &&& header@ == view
                        &&& endian == order
                    },
                    Err(error) => result == Err::<(Self, Endian), Error>(error),
                },
    {
        let native = Endian::native();
        let result = Header::decode_on(input, native);
        assert(match header_decoded(input@, native) {
            Ok((view, order)) => {
                &&& result matches Ok((header, endian))
                &&& header@ == view
                &&& endian == order
            },
            Err(error) => result == Err::<(Self, Endian), Error>(error),
        });
        result
    }

    /// The bytes of the header.
    pub fn encode(&self, endian: Endian) -> (result: Result<Vec<u8>, Error>)
        ensures
            match header_encoded(self@, endian) {
                Ok(data) => result matches Ok(bytes) && bytes@ == data,
                Err(error) => result == Err::<Vec<u8>, Error>(error),
            },
    {
        proof {
            reveal(header_encoded);
        }
        validate_address_offset_size(self.address_offset_size)?;
        if self.uuid.bytes.len() > MAX_UUID_SIZE {
            return Err(Error::V1BuildIdTooLong { size: self.uuid.bytes.len() });
        }
        let mut output = Encoder::with_capacity(endian, HEADER_SIZE);
        output.write_u32(GSYM_MAGIC);
        output.write_u16(VERSION);
        output.write_u8(self.address_offset_size);
        output.write_u8(self.uuid.bytes.len() as u8);
        output.write_u64(self.base_address);
        output.write_u32(self.address_count);
        output.write_u32(self.string_table_offset);
        output.write_u32(self.string_table_size);
        output.write_bytes(self.uuid.as_slice());
        let ghost fields = output.bytes@;
        let ghost mut padding: Seq<u8> = Seq::empty();
        let mut i: usize = self.uuid.bytes.len();
        while i < MAX_UUID_SIZE
            invariant
                self@.uuid.len() <= i <= MAX_UUID_SIZE,
                output.bytes@ == fields + padding,
                padding == bytes::zeros((i - self@.uuid.len()) as nat),
            decreases MAX_UUID_SIZE - i,
        {
            output.write_u8(0);
            i = i + 1;
            proof {
                padding = padding.push(0);
                assert(padding =~= bytes::zeros((i - self@.uuid.len()) as nat));
                assert(output.bytes@ =~= fields + padding);
            }
        }
        assert(output.bytes@ =~= header_encoded(self@, endian)->Ok_0);
        Ok(output.into_inner())
    }

    /// Where the tables of a file of `input_len` bytes stand.
    pub fn layout(&self, input_len: usize) -> (result: Result<Layout, Error>)
        ensures
            result == layout_of(self@, input_len),
    {
        let address_offsets_start: usize = match align_up(
            HEADER_SIZE,
            self.address_offset_size as usize,
        ) {
            Some(start) => start,
            None => return Err(Error::Overflow("v1 address-table alignment")),
        };
        let count: usize = self.address_count as usize;
        let address_offsets_size: usize = match count.checked_mul(
            self.address_offset_size as usize,
        ) {
            Some(size) => size,
            None => return Err(Error::Overflow("v1 address-table size")),
        };
        let address_offsets_end: usize = match address_offsets_start.checked_add(
            address_offsets_size,
        ) {
            Some(end) => end,
            None => return Err(Error::Overflow("v1 address-table end")),
        };
        let address_info_start: usize = match align_up(address_offsets_end, 4) {
            Some(start) => start,
            None => return Err(Error::Overflow("v1 address-info alignment")),
        };
        let address_info_size: usize = match count.checked_mul(ADDRESS_INFO_OFFSET_SIZE as usize) {
            Some(size) => size,
            None => return Err(Error::Overflow("v1 address-info table size")),
        };
        let address_info_end: usize = match address_info_start.checked_add(address_info_size) {
            Some(end) => end,
            None => return Err(Error::Overflow("v1 address-info table end")),
        };
        let file_table_offset: usize = match align_up(address_info_end, 4) {
            Some(offset) => offset,
            None => return Err(Error::Overflow("v1 file-table alignment")),
        };
        let string_start: usize = self.string_table_offset as usize;
        let string_end: usize = match string_start.checked_add(self.string_table_size as usize) {
            Some(end) => end,
            None => return Err(Error::Overflow("v1 string-table end")),
        };
        if file_table_offset > string_start {
            return Err(Error::InvalidFormat("v1 string table overlaps fixed tables"));
        }
        if string_end > input_len {
            return Err(
                Error::SectionOutOfBounds {
                    section_type: 3,
                    offset: self.string_table_offset as u64,
                    size: self.string_table_size as u64,
                    input_len,
                },
            );
        }
        Ok(
            Layout {
                address_offsets: address_offsets_start..address_offsets_end,
                address_info_offsets: address_info_start..address_info_end,
                file_table_offset,
                string_table: string_start..string_end,
                function_info_offset: string_end,
            },
        )
    }
}

/// The bytes of a header.
#[verifier::opaque]
pub open spec fn header_encoded(header: HeaderView, endian: Endian) -> Result<Seq<u8>, Error> {
    match address_offset_size_error(header.address_offset_size) {
        Some(error) => Err(error),
        None => if header.uuid.len() > MAX_UUID_SIZE {
            Err(Error::V1BuildIdTooLong { size: header.uuid.len() as usize })
        } else {
            Ok(
                bytes::uint_bytes(GSYM_MAGIC as nat, 4, endian) + bytes::uint_bytes(
                    VERSION as nat,
                    2,
                    endian,
                ) + seq![header.address_offset_size] + seq![header.uuid.len() as u8]
                    + bytes::uint_bytes(header.base_address as nat, 8, endian) + bytes::uint_bytes(
                    header.address_count as nat,
                    4,
                    endian,
                ) + bytes::uint_bytes(header.string_table_offset as nat, 4, endian)
                    + bytes::uint_bytes(header.string_table_size as nat, 4, endian) + header.uuid
                    + bytes::zeros((MAX_UUID_SIZE - header.uuid.len()) as nat),
            )
        },
    }
}

/// Start of the address offsets.
pub open spec fn address_offsets_start(header: HeaderView) -> nat {
    crate::format::aligned(HEADER_SIZE as nat, header.address_offset_size as nat)
}

/// End of the address offsets.
pub open spec fn address_offsets_end(header: HeaderView) -> nat {
    address_offsets_start(header) + header.address_count as nat * header.address_offset_size as nat
}

/// Start of the offsets of the function records.
pub open spec fn address_info_start(header: HeaderView) -> nat {
    crate::format::aligned(address_offsets_end(header), 4)
}

/// End of the offsets of the function records.
pub open spec fn address_info_end(header: HeaderView) -> nat {
    address_info_start(header) + header.address_count as nat * ADDRESS_INFO_OFFSET_SIZE as nat
}

/// Start of the file table.
pub open spec fn file_table_start(header: HeaderView) -> nat {
    crate::format::aligned(address_info_end(header), 4)
}

/// Where the tables of a file of `input_len` bytes stand.
pub open spec fn layout_of(header: HeaderView, input_len: usize) -> Result<Layout, Error> {
    let string_end = header.string_table_offset + header.string_table_size;
    if header.address_offset_size == 0 || address_offsets_start(header) > usize::MAX {
        Err(Error::Overflow("v1 address-table alignment"))
    } else if header.address_count * header.address_offset_size > usize::MAX {
        Err(Error::Overflow("v1 address-table size"))
    } else if address_offsets_end(header) > usize::MAX {
        Err(Error::Overflow("v1 address-table end"))
    } else if address_info_start(header) > usize::MAX {
        Err(Error::Overflow("v1 address-info alignment"))
    } else if header.address_count * ADDRESS_INFO_OFFSET_SIZE > usize::MAX {
        Err(Error::Overflow("v1 address-info table size"))
    } else if address_info_end(header) > usize::MAX {
        Err(Error::Overflow("v1 address-info table end"))
    } else if file_table_start(header) > usize::MAX {
        Err(Error::Overflow("v1 file-table alignment"))
    } else if string_end > usize::MAX {
        Err(Error::Overflow("v1 string-table end"))
    } else if file_table_start(header) > header.string_table_offset {
        Err(Error::InvalidFormat("v1 string table overlaps fixed tables"))
    } else if string_end > input_len {
        Err(
            Error::SectionOutOfBounds {
                section_type: 3,
                offset: header.string_table_offset as u64,
                size: header.string_table_size as u64,
                input_len,
            },
        )
    } else {
        Ok(
            Layout {
                address_offsets: Range {
                    start: address_offsets_start(header) as usize,
                    end: address_offsets_end(header) as usize,
                },
                address_info_offsets: Range {
                    start: address_info_start(header) as usize,
                    end: address_info_end(header) as usize,
                },
                file_table_offset: file_table_start(header) as usize,
                string_table: Range {
                    start: header.string_table_offset as usize,
                    end: string_end as usize,
                },
                function_info_offset: string_end as usize,
            },
        )
    }
}

/// The four bytes of the magic number read in both byte orders.
pub proof fn lemma_magic(s: Seq<u8>, endian: Endian, native: Endian)
    requires
        bytes::holds_at(s, 0, bytes::uint_bytes(GSYM_MAGIC as nat, 4, endian)),
    ensures
        byte_order(s, native) == Ok::<Endian, Error>(endian),
        endian::uint_at(s, 0, 4, endian) == Ok::<(u64, int), Error>((GSYM_MAGIC as u64, 4)),
{
    let magic = GSYM_MAGIC as nat;
    bytes::lemma_uint_bytes_len(magic, 4, endian);
    bytes::lemma_pow256_values();
    bytes::lemma_uint_round_trip(magic, 4, endian);
    let b = s.subrange(0, 4);
    assert(b == bytes::uint_bytes(magic, 4, endian));
    reveal_with_fuel(bytes::le_bytes, 5);
    reveal_with_fuel(bytes::be_bytes, 5);
    reveal_with_fuel(bytes::le_value, 5);
    reveal_with_fuel(bytes::be_value, 5);
    match endian {
        Endian::Little => {
            assert(b =~= seq![0x4du8, 0x59u8, 0x53u8, 0x47u8]);
        },
        Endian::Big => {
            assert(b =~= seq![0x47u8, 0x53u8, 0x59u8, 0x4du8]);
        },
    }
    lemma_four_bytes(b);
}

/// Values of four bytes in both orders.
proof fn lemma_four_bytes(b: Seq<u8>)
    requires
        b.len() == 4,
    ensures
        bytes::le_value(b) == b[0] + 0x100 * b[1] + 0x1_0000 * b[2] + 0x100_0000 * b[3],
        bytes::be_value(b) == b[3] + 0x100 * b[2] + 0x1_0000 * b[1] + 0x100_0000 * b[0],
{
    reveal_with_fuel(bytes::le_value, 5);
    reveal_with_fuel(bytes::be_value, 5);
    let c = b.drop_first();
    let d = c.drop_first();
    let e = d.drop_first();
    assert(c[0] == b[1] && d[0] == b[2] && e[0] == b[3] && e.drop_first().len() == 0);
    let f = b.drop_last();
    let g = f.drop_last();
    let h = g.drop_last();
    assert(f.last() == b[2] && g.last() == b[1] && h.last() == b[0] && h.drop_last().len() == 0);
}

/// A header that was written is read back, with its byte order, whatever the
/// byte order of the machine.
pub proof fn law_header_round_trip(s: Seq<u8>, header: HeaderView, endian: Endian, native: Endian)
    requires
        header.uuid.len() <= MAX_UUID_SIZE,
        header_encoded(header, endian) is Ok,
        bytes::holds_at(s, 0, header_encoded(header, endian)->Ok_0),
    ensures
        header_encoded(header, endian)->Ok_0.len() == HEADER_SIZE,
        header_decoded(s, native) == Ok::<(HeaderView, Endian), Error>((header, endian)),
{
    reveal(fields_at);
    reveal(header_encoded);
    let b1 = bytes::uint_bytes(GSYM_MAGIC as nat, 4, endian);
    let b2 = bytes::uint_bytes(VERSION as nat, 2, endian);
    let b3 = seq![header.address_offset_size];
    let b4 = seq![header.uuid.len() as u8];
    let b5 = bytes::uint_bytes(header.base_address as nat, 8, endian);
    let b6 = bytes::uint_bytes(header.address_count as nat, 4, endian);
    let b7 = bytes::uint_bytes(header.string_table_offset as nat, 4, endian);
    let b8 = bytes::uint_bytes(header.string_table_size as nat, 4, endian);
    let b9 = header.uuid;
    let b10 = bytes::zeros((MAX_UUID_SIZE - header.uuid.len()) as nat);
    bytes::lemma_uint_bytes_len(GSYM_MAGIC as nat, 4, endian);
    bytes::lemma_uint_bytes_len(VERSION as nat, 2, endian);
    bytes::lemma_uint_bytes_len(header.base_address as nat, 8, endian);
    bytes::lemma_uint_bytes_len(header.address_count as nat, 4, endian);
    bytes::lemma_uint_bytes_len(header.string_table_offset as nat, 4, endian);
    bytes::lemma_uint_bytes_len(header.string_table_size as nat, 4, endian);
    bytes::lemma_pow256_values();
    let t2 = b1 + b2;
    let t3 = t2 + b3;
    let t4 = t3 + b4;
    let t5 = t4 + b5;
    let t6 = t5 + b6;
    let t7 = t6 + b7;
    let t8 = t7 + b8;
    let t9 = t8 + b9;
    bytes::lemma_holds_at_split(s, 0, t9, b10);
    bytes::lemma_holds_at_split(s, 0, t8, b9);
    bytes::lemma_holds_at_split(s, 0, t7, b8);
    bytes::lemma_holds_at_split(s, 0, t6, b7);
    bytes::lemma_holds_at_split(s, 0, t5, b6);
    bytes::lemma_holds_at_split(s, 0, t4, b5);
    bytes::lemma_holds_at_split(s, 0, t3, b4);
    bytes::lemma_holds_at_split(s, 0, t2, b3);
    bytes::lemma_holds_at_split(s, 0, b1, b2);
    lemma_magic(s, endian, native);
    endian::law_uint_reads_back(s, 4, VERSION as u64, 2, endian);
    bytes::lemma_holds_at_index(s, 6, b3, 0);
    bytes::lemma_holds_at_index(s, 7, b4, 0);
    lemma_byte(s, 6, endian);
    lemma_byte(s, 7, endian);
    endian::law_uint_reads_back(s, 8, header.base_address, 8, endian);
    endian::law_uint_reads_back(s, 16, header.address_count as u64, 4, endian);
    endian::law_uint_reads_back(s, 20, header.string_table_offset as u64, 4, endian);
    endian::law_uint_reads_back(s, 24, header.string_table_size as u64, 4, endian);
}

/// Size of a file table.
pub fn file_table_size(file_count: u32) -> (result: Result<usize, Error>)
    ensures
        result == (if crate::format::spec_file_table_size(file_count, FILE_ENTRY_SIZE)
            <= usize::MAX {
            Ok::<usize, Error>(
                crate::format::spec_file_table_size(file_count, FILE_ENTRY_SIZE) as usize,
            )
        } else {
            Err(Error::Overflow("v1 file-table size"))
        }),
{
    crate::format::file_table_size(file_count, FILE_ENTRY_SIZE, "v1 file-table size")
}

/// Four bytes are determined by the number that they make up.
proof fn lemma_four_digits(a: u8, b: u8, c: u8, d: u8, w: u8, x: u8, y: u8, z: u8)
    requires
        a + 0x100 * b + 0x1_0000 * c + 0x100_0000 * d == w + 0x100 * x + 0x1_0000 * y
            + 0x100_0000 * z,
    ensures
        a == w && b == x && c == y && d == z,
{
    assert(d == z);
    assert(c == y);
    assert(b == x);
}

/// What the byte order of a file is does not depend on the machine that reads
/// it.
pub proof fn law_byte_order_is_the_files_own(s: Seq<u8>, one: Endian, other: Endian)
    ensures
        byte_order(s, one) is Ok ==> byte_order(s, other) == byte_order(s, one),
{
    if s.len() >= 4 && byte_order(s, one) is Ok {
        let b = s.subrange(0, 4);
        lemma_four_bytes(b);
        let ascending = bytes::le_value(b) == GSYM_MAGIC || bytes::be_value(b) == GSYM_CIGAM;
        let descending = bytes::le_value(b) == GSYM_CIGAM || bytes::be_value(b) == GSYM_MAGIC;
        if ascending {
            if bytes::le_value(b) == GSYM_MAGIC {
                lemma_four_digits(b[0], b[1], b[2], b[3], 0x4d, 0x59, 0x53, 0x47);
            } else {
                lemma_four_digits(b[3], b[2], b[1], b[0], 0x47, 0x53, 0x59, 0x4d);
            }
            assert(b[0] == 0x4d && b[1] == 0x59 && b[2] == 0x53 && b[3] == 0x47);
            assert(bytes::le_value(b) == GSYM_MAGIC && bytes::be_value(b) == GSYM_CIGAM);
        } else {
            assert(descending);
            if bytes::le_value(b) == GSYM_CIGAM {
                lemma_four_digits(b[0], b[1], b[2], b[3], 0x47, 0x53, 0x59, 0x4d);
            } else {
                lemma_four_digits(b[3], b[2], b[1], b[0], 0x4d, 0x59, 0x53, 0x47);
            }
            assert(b[0] == 0x47 && b[1] == 0x53 && b[2] == 0x59 && b[3] == 0x4d);
            assert(bytes::le_value(b) == GSYM_CIGAM && bytes::be_value(b) == GSYM_MAGIC);
        }
    }
}

} // verus!
