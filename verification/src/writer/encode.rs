//! The bytes of a whole file.
use vstd::prelude::*;
use crate::bytes;
use crate::endian;
use crate::endian::{Encoder, Endian};
use crate::error::Error;
use crate::format::align_up;
use crate::format::function;
use crate::format::function::{EncodedFunction, EncodedFunctionView};
use crate::format::v1;
use crate::format::v1::FixedUuid;
use crate::format::v2;
use crate::format::v2::GlobalData;
use crate::writer::tables;
use crate::writer::tables::{
    align_output, encode_function_section, write_address_offsets, write_file_table,
};

verus! {

/// A file in two parts: everything up to the function records, and those.
pub struct EncodedImage {
    /// Everything up to the function records.
    pub prefix: Vec<u8>,
    /// The function records.
    pub function_info: Vec<u8>,
}

/// The bytes of a file in two parts.
pub struct ImageView {
    /// Everything up to the function records.
    pub prefix: Seq<u8>,
    /// The function records.
    pub function_info: Seq<u8>,
}

impl View for EncodedImage {
    type V = ImageView;

    open spec fn view(&self) -> ImageView {
        ImageView { prefix: self.prefix@, function_info: self.function_info@ }
    }
}

impl EncodedImage {
    /// Puts the parts together.
    pub fn into_bytes(self) -> (bytes: Vec<u8>)
        ensures
            bytes@ == self@.prefix + self@.function_info,
    {
        let mut bytes = self.prefix;
        bytes.extend_from_slice(self.function_info.as_slice());
        assert(bytes@ =~= self@.prefix + self@.function_info);
        bytes
    }
}

/// The number of functions, or the error of too many of them.
pub open spec fn count_error(count: nat) -> Option<Error> {
    if count > u32::MAX {
        Some(
            Error::Limit {
                context: "function count",
                value: count as u64,
                limit: u32::MAX as u64,
            },
        )
    } else {
        None
    }
}

fn function_count(functions: &Vec<EncodedFunction>) -> (result: Result<u32, Error>)
    ensures
        result == (match count_error(functions@.len()) {
            Some(error) => Err::<u32, Error>(error),
            None => Ok(functions@.len() as u32),
        }),
{
    if functions.len() as u64 > u32::MAX as u64 {
        return Err(
            Error::Limit {
                context: "function count",
                value: functions.len() as u64,
                limit: u32::MAX as u64,
            },
        );
    }
    Ok(functions.len() as u32)
}

fn checked_table_size(count: usize, width: usize, context: &'static str) -> (result: Result<
    usize,
    Error,
>)
    ensures
        result == (if count * width > usize::MAX {
            Err::<usize, Error>(Error::Overflow(context))
        } else {
            Ok((count * width) as usize)
        }),
{
    match count.checked_mul(width) {
        Some(size) => Ok(size),
        None => Err(Error::Overflow(context)),
    }
}

/// The error of a version 1 field that does not fit 32 bits.
pub open spec fn narrow_error(value: nat, field: &'static str) -> Option<Error> {
    if value > u32::MAX {
        Some(Error::V1LimitExceeded { field, value: value as u64 })
    } else {
        None
    }
}

fn narrow_v1(value: usize, field: &'static str) -> (result: Result<u32, Error>)
    ensures
        result == (match narrow_error(value as nat, field) {
            Some(error) => Err::<u32, Error>(error),
            None => Ok(value as u32),
        }),
{
    if value as u64 > u32::MAX as u64 {
        return Err(Error::V1LimitExceeded { field, value: value as u64 });
    }
    Ok(value as u32)
}

/// Where the tables of a version 1 file end and start.
pub struct V1Places {
    /// End of the address offsets.
    pub address_end: nat,
    /// Start of the offsets of the function records.
    pub info_start: nat,
    /// End of the offsets of the function records.
    pub info_end: nat,
    /// Start of the file table.
    pub file_start: nat,
    /// Start of the string table.
    pub string_start: nat,
    /// Start of the function records.
    pub function_base: nat,
}

/// Where the tables of a version 1 file end and start.
pub open spec fn v1_places(count: nat, width: nat, file_count: nat, string_size: nat) -> V1Places {
    let address_end = v1::HEADER_SIZE as nat + count * width;
    let info_start = crate::format::aligned(address_end, 4);
    let info_end = info_start + count * 4;
    let file_start = crate::format::aligned(info_end, 4);
    let string_start = file_start + 4 + file_count * 8;
    V1Places {
        address_end,
        info_start,
        info_end,
        file_start,
        string_start,
        function_base: string_start + string_size,
    }
}

/// The first offset or size that a machine word cannot hold, if there is one.
pub open spec fn v1_places_error(count: nat, width: nat, file_count: nat, string_size: nat) -> Option<
    Error,
> {
    let places = v1_places(count, width, file_count, string_size);
    if count * width > usize::MAX {
        Some(Error::Overflow("v1 address"))
    } else if places.address_end > usize::MAX {
        Some(Error::Overflow("v1 address table end"))
    } else if places.info_start > usize::MAX {
        Some(Error::Overflow("v1 info alignment"))
    } else if count * 4 > usize::MAX {
        Some(Error::Overflow("v1 address-info"))
    } else if places.info_end > usize::MAX {
        Some(Error::Overflow("v1 address-info table end"))
    } else if places.file_start > usize::MAX {
        Some(Error::Overflow("v1 file alignment"))
    } else if file_count * 8 > usize::MAX {
        Some(Error::Overflow("v1 file"))
    } else if 4 + file_count * 8 > usize::MAX {
        Some(Error::Overflow("v1 file table size"))
    } else if places.string_start > usize::MAX {
        Some(Error::Overflow("v1 string offset"))
    } else if places.function_base > usize::MAX {
        Some(Error::Overflow("v1 FunctionInfo base"))
    } else {
        None
    }
}

/// The header of a version 1 file.
pub open spec fn v1_header(
    base: u64,
    width: u8,
    count: nat,
    places: V1Places,
    string_size: nat,
    build_id: Seq<u8>,
) -> v1::HeaderView {
    v1::HeaderView {
        address_offset_size: width,
        base_address: base,
        address_count: count as u32,
        string_table_offset: places.string_start as u32,
        string_table_size: string_size as u32,
        uuid: build_id,
    }
}

/// The bytes of the offsets of the function records from index `i` on.
pub open spec fn v1_offsets_bytes(offsets: Seq<usize>, i: int, endian: Endian) -> Result<
    Seq<u8>,
    Error,
>
    decreases offsets.len() - i,
{
    if i >= offsets.len() {
        Ok(Seq::empty())
    } else {
        match narrow_error(offsets[i] as nat, "FunctionInfo offset") {
            Some(error) => Err(error),
            None => endian::joined(
                Ok(bytes::uint_bytes(offsets[i] as nat, 4, endian)),
                v1_offsets_bytes(offsets, i + 1, endian),
            ),
        }
    }
}

/// Everything of a version 1 file behind the header and before the function
/// records, put behind `header`.
#[verifier::opaque]
pub open spec fn v1_prefix(
    header: Result<Seq<u8>, Error>,
    base: u64,
    width: u8,
    files: Seq<(u64, u64)>,
    strings: Seq<u8>,
    functions: Seq<EncodedFunctionView>,
    offsets: Seq<usize>,
    endian: Endian,
) -> Result<Seq<u8>, Error> {
    let addresses = endian::joined(
        tables::aligned_output(header, width as nat),
        tables::addresses_bytes(functions, 0, base, width, endian),
    );
    let infos = endian::joined(
        tables::aligned_output(addresses, 4),
        v1_offsets_bytes(offsets, 0, endian),
    );
    let with_files = endian::joined(
        tables::aligned_output(infos, 4),
        tables::file_table_bytes(files, 4, endian),
    );
    endian::joined(with_files, Ok(strings))
}

/// The bytes of a version 1 file.
pub open spec fn v1_image(
    endian: Endian,
    build_id: Seq<u8>,
    base: u64,
    width: u8,
    files: Seq<(u64, u64)>,
    strings: Seq<u8>,
    functions: Seq<EncodedFunctionView>,
) -> Result<ImageView, Error> {
    let count = functions.len();
    let places = v1_places(count, width as nat, files.len(), strings.len());
    if build_id.len() > v1::MAX_UUID_SIZE {
        Err(Error::V1BuildIdTooLong { size: build_id.len() as usize })
    } else if count_error(count) is Some {
        Err(count_error(count)->0)
    } else if v1_places_error(count, width as nat, files.len(), strings.len()) is Some {
        Err(v1_places_error(count, width as nat, files.len(), strings.len())->0)
    } else {
        match tables::section_from(
            functions,
            0,
            4,
            endian,
            places.function_base,
            tables::empty_section(),
        ) {
            Err(error) => Err(error),
            Ok(section) => if narrow_error(places.string_start, "string-table offset") is Some {
                Err(narrow_error(places.string_start, "string-table offset")->0)
            } else if narrow_error(strings.len(), "string-table size") is Some {
                Err(narrow_error(strings.len(), "string-table size")->0)
            } else {
                match v1_prefix(
                    v1::header_encoded(
                        v1_header(base, width, count, places, strings.len(), build_id),
                        endian,
                    ),
                    base,
                    width,
                    files,
                    strings,
                    functions,
                    section.offsets,
                    endian,
                ) {
                    Err(error) => Err(error),
                    Ok(prefix) => Ok(ImageView { prefix, function_info: section.bytes }),
                }
            },
        }
    }
}

fn write_v1_offsets(output: &mut Encoder, offsets: &Vec<usize>) -> (result: Result<(), Error>)
    ensures
        final(output).endian == old(output).endian,
        tables::becomes(
            *final(output),
            result,
            endian::joined(
                Ok(old(output).bytes@),
                v1_offsets_bytes(offsets@, 0, old(output).endian),
            ),
        ),
{
    let ghost endian = output.endian;
    let ghost start = output.bytes@;
    let ghost expected = v1_offsets_bytes(offsets@, 0, endian);
    let mut i: usize = 0;
    while i < offsets.len()
        invariant
            i <= offsets@.len(),
            output.endian == endian,
            endian == old(output).endian,
            start == old(output).bytes@,
            expected == v1_offsets_bytes(offsets@, 0, endian),
            match v1_offsets_bytes(offsets@, i as int, endian) {
                Ok(rest) => expected is Ok && start + expected->Ok_0 == output.bytes@ + rest,
                Err(error) => expected == Err::<Seq<u8>, Error>(error),
            },
        decreases offsets@.len() - i,
    {
        let narrow: u32 = narrow_v1(offsets[i], "FunctionInfo offset")?;
        let ghost before = output.bytes@;
        let ghost rest = v1_offsets_bytes(offsets@, i + 1, endian);
        output.write_u32(narrow);
        proof {
            if rest is Ok {
                let part = bytes::uint_bytes(narrow as nat, 4, endian);
                assert(before + (part + rest->Ok_0) =~= before + part + rest->Ok_0);
            }
        }
        i = i + 1;
    }
    assert(output.bytes@ + Seq::<u8>::empty() =~= output.bytes@);
    Ok(())
}

/// Computes where the string table and the function records of a version 1
/// file start.
fn place_v1(count: usize, width: u8, file_count: usize, string_size: usize) -> (result: Result<
    (usize, usize),
    Error,
>)
    ensures
        ({
            let places = v1_places(
                count as nat,
                width as nat,
                file_count as nat,
                string_size as nat,
            );
            match v1_places_error(
                count as nat,
                width as nat,
                file_count as nat,
                string_size as nat,
            ) {
                Some(error) => result == Err::<(usize, usize), Error>(error),
                None => {
                    &&& result matches Ok((string_start, function_base))
                    &&& string_start == places.string_start
                    &&& function_base == places.function_base
                },
            }
        }),
{
    let address_size: usize = checked_table_size(count, width as usize, "v1 address")?;
    let address_end: usize = match v1::HEADER_SIZE.checked_add(address_size) {
        Some(end) => end,
        None => return Err(Error::Overflow("v1 address table end")),
    };
    let info_start: usize = match align_up(address_end, 4) {
        Some(start) => start,
        None => return Err(Error::Overflow("v1 info alignment")),
    };
    let info_size: usize = checked_table_size(count, 4, "v1 address-info")?;
    let info_end: usize = match info_start.checked_add(info_size) {
        Some(end) => end,
        None => return Err(Error::Overflow("v1 address-info table end")),
    };
    let file_start: usize = match align_up(info_end, 4) {
        Some(start) => start,
        None => return Err(Error::Overflow("v1 file alignment")),
    };
    let entries_size: usize = checked_table_size(file_count, 8, "v1 file")?;
    let file_size: usize = match entries_size.checked_add(4) {
        Some(size) => size,
        None => return Err(Error::Overflow("v1 file table size")),
    };
    let string_start: usize = match file_start.checked_add(file_size) {
        Some(start) => start,
        None => return Err(Error::Overflow("v1 string offset")),
    };
    let function_base: usize = match string_start.checked_add(string_size) {
        Some(base) => base,
        None => return Err(Error::Overflow("v1 FunctionInfo base")),
    };
    Ok((string_start, function_base))
}

/// Writes everything of a version 1 file up to the function records.
fn write_v1_prefix(
    header: &v1::Header,
    base: u64,
    width: u8,
    files: &Vec<(u64, u64)>,
    strings: &[u8],
    functions: &Vec<EncodedFunction>,
    offsets: &Vec<usize>,
    endian: Endian,
) -> (result: Result<Vec<u8>, Error>)
    ensures
        match v1_prefix(
            v1::header_encoded(header@, endian),
            base,
            width,
            files@,
            strings@,
            function::encoded_function_views(functions@),
            offsets@,
            endian,
        ) {
            Ok(prefix) => result matches Ok(bytes) && bytes@ == prefix,
            Err(error) => result == Err::<Vec<u8>, Error>(error),
        },
{
    proof {
        reveal(v1_prefix);
    }
    let encoded = header.encode(endian)?;
    let mut output = Encoder::new(endian);
    output.write_bytes(encoded.as_slice());
    assert(output.bytes@ =~= encoded@);
    write_address_offsets(&mut output, functions, base, width)?;
    align_output(&mut output, 4)?;
    write_v1_offsets(&mut output, offsets)?;
    align_output(&mut output, 4)?;
    write_file_table(&mut output, files, 4)?;
    output.write_bytes(strings);
    Ok(output.into_inner())
}

/// Encodes a version 1 file.
pub fn encode_v1(
    endian: Endian,
    build_id: &Vec<u8>,
    base: u64,
    width: u8,
    files: &Vec<(u64, u64)>,
    strings: &[u8],
    functions: &Vec<EncodedFunction>,
) -> (result: Result<EncodedImage, Error>)
    ensures
        match v1_image(
            endian,
            build_id@,
            base,
            width,
            files@,
            strings@,
            function::encoded_function_views(functions@),
        ) {
            Ok(view) => result matches Ok(image) && image@ == view,
            Err(error) => result == Err::<EncodedImage, Error>(error),
        },
{
    let ghost views = function::encoded_function_views(functions@);
    let ghost places = v1_places(
        views.len(),
        width as nat,
        files@.len(),
        strings@.len(),
    );
    if build_id.len() > v1::MAX_UUID_SIZE {
        return Err(Error::V1BuildIdTooLong { size: build_id.len() });
    }
    let count: u32 = function_count(functions)?;
    let (string_start, function_base) = place_v1(
        functions.len(),
        width,
        files.len(),
        strings.len(),
    )?;
    let (offsets, function_info) = encode_function_section(functions, endian, 4, function_base)?;
    let header = v1::Header {
        address_offset_size: width,
        base_address: base,
        address_count: count,
        string_table_offset: narrow_v1(string_start, "string-table offset")?,
        string_table_size: narrow_v1(strings.len(), "string-table size")?,
        uuid: FixedUuid::new(build_id.as_slice())?,
    };
    assert(header@ == v1_header(base, width, views.len(), places, strings@.len(), build_id@));
    let prefix = write_v1_prefix(
        &header,
        base,
        width,
        files,
        strings,
        functions,
        &offsets,
        endian,
    )?;
    Ok(EncodedImage { prefix, function_info })
}

/// The bytes of directory entries from index `i` on.
pub open spec fn directory_bytes(entries: Seq<GlobalData>, i: int, endian: Endian) -> Seq<u8>
    decreases entries.len() - i,
{
    if i >= entries.len() {
        Seq::empty()
    } else {
        v2::entry_bytes(entries[i], endian) + directory_bytes(entries, i + 1, endian)
    }
}

/// The entry that ends a directory.
pub open spec fn directory_end() -> GlobalData {
    GlobalData { section_type: v2::GLOBAL_END, file_offset: 0, file_size: 0 }
}

/// The bytes of the offsets of the function records from index `i` on.
pub open spec fn v2_offsets_bytes(offsets: Seq<usize>, i: int, endian: Endian) -> Seq<u8>
    decreases offsets.len() - i,
{
    if i >= offsets.len() {
        Seq::empty()
    } else {
        bytes::uint_bytes(offsets[i] as nat, 8, endian) + v2_offsets_bytes(offsets, i + 1, endian)
    }
}

/// The header of a version 2 file.
pub open spec fn v2_header(base: u64, width: u8, count: nat) -> v2::Header {
    v2::Header {
        address_offset_size: width,
        string_table_encoding: v2::STRING_TABLE_ENCODING_DEFAULT,
        base_address: base,
        address_count: count as u32,
    }
}

/// Everything of a version 2 file behind the header and before the function
/// records, put behind `header`.
#[verifier::opaque]
pub open spec fn v2_prefix(
    header: Result<Seq<u8>, Error>,
    directory: Seq<GlobalData>,
    build_id: Seq<u8>,
    base: u64,
    width: u8,
    files: Seq<(u64, u64)>,
    strings: Seq<u8>,
    functions: Seq<EncodedFunctionView>,
    offsets: Seq<usize>,
    endian: Endian,
) -> Result<Seq<u8>, Error> {
    let with_directory = endian::joined(
        header,
        Ok(directory_bytes(directory, 0, endian) + v2::entry_bytes(directory_end(), endian)),
    );
    let with_build_id = endian::joined(with_directory, Ok(build_id));
    let addresses = endian::joined(
        tables::aligned_output(
            tables::aligned_output(with_build_id, width as nat),
            width as nat,
        ),
        tables::addresses_bytes(functions, 0, base, width, endian),
    );
    let infos = endian::joined(
        tables::aligned_output(addresses, 8),
        Ok(v2_offsets_bytes(offsets, 0, endian)),
    );
    let with_files = endian::joined(
        tables::aligned_output(infos, 4),
        tables::file_table_bytes(files, 8, endian),
    );
    tables::aligned_output(endian::joined(with_files, Ok(strings)), 4)
}

/// The error of more files than can be counted.
pub open spec fn file_count_error(count: nat) -> Option<Error> {
    if count > u32::MAX {
        Some(Error::Limit { context: "file count", value: count as u64, limit: u32::MAX as u64 })
    } else {
        None
    }
}

/// The directory of a version 2 file with the given table sizes.
#[verifier::opaque]
pub open spec fn v2_directory(
    header: v2::Header,
    build_id: nat,
    files: u32,
    strings: nat,
    function_info: nat,
) -> Result<Seq<GlobalData>, Error> {
    let places = v2::places_of(header, build_id, files, strings, function_info);
    match v2::places_error(header, files, places) {
        Some(error) => Err(error),
        None => Ok(v2::directory_of(places)),
    }
}

/// The bytes of a version 2 file.
pub open spec fn v2_image(
    endian: Endian,
    build_id: Seq<u8>,
    base: u64,
    width: u8,
    files: Seq<(u64, u64)>,
    strings: Seq<u8>,
    functions: Seq<EncodedFunctionView>,
) -> Result<ImageView, Error> {
    let count = functions.len();
    match tables::section_from(functions, 0, 8, endian, 0, tables::empty_section()) {
        Err(error) => Err(error),
        Ok(section) => if count_error(count) is Some {
            Err(count_error(count)->0)
        } else if file_count_error(files.len()) is Some {
            Err(file_count_error(files.len())->0)
        } else {
            let header = v2_header(base, width, count);
            match v2_directory(
                header,
                build_id.len(),
                files.len() as u32,
                strings.len(),
                section.bytes.len(),
            ) {
                Err(error) => Err(error),
                Ok(directory) => match v2_prefix(
                    v2::header_encoded(header, endian),
                    directory,
                    build_id,
                    base,
                    width,
                    files,
                    strings,
                    functions,
                    section.offsets,
                    endian,
                ) {
                    Err(error) => Err(error),
                    Ok(prefix) => Ok(ImageView { prefix, function_info: section.bytes }),
                },
            }
        },
    }
}

fn write_directory(output: &mut Encoder, directory: &Vec<GlobalData>)
    ensures
        final(output).endian == old(output).endian,
        final(output).bytes@ == old(output).bytes@ + (directory_bytes(
            directory@,
            0,
            old(output).endian,
        ) + v2::entry_bytes(directory_end(), old(output).endian)),
{
    let ghost endian = output.endian;
    let ghost start = output.bytes@;
    let ghost whole = directory_bytes(directory@, 0, endian);
    let mut i: usize = 0;
    while i < directory.len()
        invariant
            i <= directory@.len(),
            output.endian == endian,
            start + whole == output.bytes@ + directory_bytes(directory@, i as int, endian),
        decreases directory@.len() - i,
    {
        let ghost before = output.bytes@;
        let entry: GlobalData = directory[i];
        entry.encode_into(output);
        proof {
            let part = v2::entry_bytes(entry, endian);
            let rest = directory_bytes(directory@, i + 1, endian);
            assert(before + (part + rest) =~= before + part + rest);
        }
        i = i + 1;
    }
    assert(output.bytes@ + Seq::<u8>::empty() =~= output.bytes@);
    let last = GlobalData { section_type: v2::GLOBAL_END, file_offset: 0, file_size: 0 };
    last.encode_into(output);
    proof {
        let part = v2::entry_bytes(directory_end(), endian);
        assert(start + whole + part =~= start + (whole + part));
    }
}

fn write_v2_offsets(output: &mut Encoder, offsets: &Vec<usize>)
    ensures
        final(output).endian == old(output).endian,
        final(output).bytes@ == old(output).bytes@ + v2_offsets_bytes(
            offsets@,
            0,
            old(output).endian,
        ),
{
    let ghost endian = output.endian;
    let ghost start = output.bytes@;
    let ghost whole = v2_offsets_bytes(offsets@, 0, endian);
    let mut i: usize = 0;
    while i < offsets.len()
        invariant
            i <= offsets@.len(),
            output.endian == endian,
            start + whole == output.bytes@ + v2_offsets_bytes(offsets@, i as int, endian),
        decreases offsets@.len() - i,
    {
        let ghost before = output.bytes@;
        output.write_u64(offsets[i] as u64);
        proof {
            let part = bytes::uint_bytes(offsets@[i as int] as nat, 8, endian);
            let rest = v2_offsets_bytes(offsets@, i + 1, endian);
            assert(before + (part + rest) =~= before + part + rest);
        }
        i = i + 1;
    }
    assert(output.bytes@ + Seq::<u8>::empty() =~= output.bytes@);
}

/// Writes everything of a version 2 file up to the function records.
fn write_v2_prefix(
    header: &v2::Header,
    directory: &Vec<GlobalData>,
    build_id: &Vec<u8>,
    base: u64,
    width: u8,
    files: &Vec<(u64, u64)>,
    strings: &[u8],
    functions: &Vec<EncodedFunction>,
    offsets: &Vec<usize>,
    endian: Endian,
) -> (result: Result<Vec<u8>, Error>)
    ensures
        match v2_prefix(
            v2::header_encoded(*header, endian),
            directory@,
            build_id@,
            base,
            width,
            files@,
            strings@,
            function::encoded_function_views(functions@),
            offsets@,
            endian,
        ) {
            Ok(prefix) => result matches Ok(bytes) && bytes@ == prefix,
            Err(error) => result == Err::<Vec<u8>, Error>(error),
        },
{
    proof {
        reveal(v2_prefix);
    }
    let encoded = header.encode(endian)?;
    let mut output = Encoder::new(endian);
    output.write_bytes(encoded.as_slice());
    assert(output.bytes@ =~= encoded@);
    write_directory(&mut output, directory);
    output.write_bytes(build_id.as_slice());
    align_output(&mut output, width as usize)?;
    write_address_offsets(&mut output, functions, base, width)?;
    align_output(&mut output, 8)?;
    write_v2_offsets(&mut output, offsets);
    align_output(&mut output, 4)?;
    write_file_table(&mut output, files, 8)?;
    output.write_bytes(strings);
    align_output(&mut output, 4)?;
    Ok(output.into_inner())
}

/// Lays the tables of a version 2 file out.
fn layout_directory(
    header: &v2::Header,
    build_id: usize,
    files: u32,
    strings: usize,
    function_info: usize,
) -> (result: Result<Vec<GlobalData>, Error>)
    ensures
        match v2_directory(
            *header,
            build_id as nat,
            files,
            strings as nat,
            function_info as nat,
        ) {
            Ok(directory) => result matches Ok(entries) && entries@ == directory,
            Err(error) => result == Err::<Vec<GlobalData>, Error>(error),
        },
{
    proof {
        reveal(v2_directory);
    }
    let layout = header.write_layout(build_id, files, strings, function_info)?;
    Ok(layout.directory)
}

/// Encodes a version 2 file.
pub fn encode_v2(
    endian: Endian,
    build_id: &Vec<u8>,
    base: u64,
    width: u8,
    files: &Vec<(u64, u64)>,
    strings: &[u8],
    functions: &Vec<EncodedFunction>,
) -> (result: Result<EncodedImage, Error>)
    ensures
        match v2_image(
            endian,
            build_id@,
            base,
            width,
            files@,
            strings@,
            function::encoded_function_views(functions@),
        ) {
            Ok(view) => result matches Ok(image) && image@ == view,
            Err(error) => result == Err::<EncodedImage, Error>(error),
        },
{
    let ghost views = function::encoded_function_views(functions@);
    let (offsets, function_info) = encode_function_section(functions, endian, 8, 0)?;
    let header = v2::Header {
        address_offset_size: width,
        string_table_encoding: v2::STRING_TABLE_ENCODING_DEFAULT,
        base_address: base,
        address_count: function_count(functions)?,
    };
    if files.len() as u64 > u32::MAX as u64 {
        return Err(
            Error::Limit {
                context: "file count",
                value: files.len() as u64,
                limit: u32::MAX as u64,
            },
        );
    }
    let directory = layout_directory(
        &header,
        build_id.len(),
        files.len() as u32,
        strings.len(),
        function_info.len(),
    )?;
    let prefix = write_v2_prefix(
        &header,
        &directory,
        build_id,
        base,
        width,
        files,
        strings,
        functions,
        &offsets,
        endian,
    )?;
    Ok(EncodedImage { prefix, function_info })
}

} // verus!
