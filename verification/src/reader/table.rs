//! Reading of single table entries: strings, files, addresses and functions.
use vstd::prelude::*;
use vstd::slice::slice_subrange;
use crate::bytes;
use crate::endian;
use crate::endian::{Cursor, Endian};
use crate::error::Error;
use crate::model::{AddressRange, FileIndex, FileView};
use crate::reader::layout::ParsedLayout;
use crate::version::GsymVersion;
use std::ops::Range;

verus! {

/// Offset of the first zero byte of `s` from `pos` up to `end`.
pub open spec fn nul_at(s: Seq<u8>, pos: int, end: int) -> Option<int>
    decreases end - pos,
{
    if pos >= end {
        None
    } else if s[pos] == 0 {
        Some(pos)
    } else {
        nul_at(s, pos + 1, end)
    }
}

/// The string at `offset` of the string table that `table` is.
pub open spec fn string_of(s: Seq<u8>, table: Range<usize>, offset: u64) -> Result<Seq<u8>, Error> {
    let start = table.start + offset;
    if offset > usize::MAX {
        Err(Error::Overflow("string offset"))
    } else if start > usize::MAX {
        Err(Error::Overflow("string address"))
    } else if start >= table.end {
        Err(Error::InvalidOffset { offset: start as u64, input_len: s.len() as usize })
    } else if table.end > s.len() {
        Err(Error::InvalidFormat("string table is outside the file"))
    } else {
        match nul_at(s, start, table.end as int) {
            None => Err(Error::InvalidFormat("unterminated string")),
            Some(end) => Ok(s.subrange(start, end)),
        }
    }
}

pub proof fn lemma_nul_at(s: Seq<u8>, pos: int, end: int)
    requires
        0 <= pos,
    ensures
        nul_at(s, pos, end) matches Some(nul) ==> {
            &&& pos <= nul < end
            &&& s[nul] == 0
            &&& forall|k: int| pos <= k < nul ==> s[k] != 0
        },
        nul_at(s, pos, end) is None ==> forall|k: int| pos <= k < end ==> s[k] != 0,
    decreases end - pos,
{
    if pos < end && s[pos] != 0 {
        lemma_nul_at(s, pos + 1, end);
    }
}

/// A string that was written with a zero byte behind it is read back, if it
/// holds none itself.
pub proof fn law_string_reads_back(s: Seq<u8>, table: Range<usize>, offset: u64, string: Seq<u8>)
    requires
        table.start <= table.end <= s.len(),
        s.len() <= usize::MAX,
        bytes::holds_at(s, table.start + offset, string + seq![0u8]),
        table.start + offset + string.len() < table.end,
        !string.contains(0u8),
    ensures
        string_of(s, table, offset) == Ok::<Seq<u8>, Error>(string),
{
    let start = table.start + offset;
    bytes::lemma_holds_at_split(s, start, string, seq![0u8]);
    bytes::lemma_holds_at_index(s, start + string.len(), seq![0u8], 0);
    lemma_nul_at(s, start, table.end as int);
    assert forall|k: int| start <= k < start + string.len() implies s[k] != 0 by {
        bytes::lemma_holds_at_index(s, start, string, k - start);
        assert(string[k - start] != 0) by {
            if string[k - start] == 0 {
                assert(string.contains(0u8));
            }
        }
    }
    assert(s[start + string.len()] == 0);
    let nul = nul_at(s, start, table.end as int)->0;
    assert(nul == start + string.len());
}

/// Resolves a string-table offset.
pub fn string_at<'data>(data: &'data [u8], table: &Range<usize>, offset: u64) -> (result: Result<
    &'data [u8],
    Error,
>)
    ensures
        match string_of(data@, *table, offset) {
            Ok(string) => result matches Ok(bytes) && bytes@ == string,
            Err(error) => result == Err::<&'data [u8], Error>(error),
        },
{
    let len: usize = data.len();
    if offset > usize::MAX as u64 {
        return Err(Error::Overflow("string offset"));
    }
    let start: usize = match table.start.checked_add(offset as usize) {
        Some(start) => start,
        None => return Err(Error::Overflow("string address")),
    };
    if start >= table.end {
        return Err(Error::InvalidOffset { offset: start as u64, input_len: len });
    }
    if table.end > len {
        return Err(Error::InvalidFormat("string table is outside the file"));
    }
    let mut end: usize = start;
    while end < table.end
        invariant
            start <= end <= table.end <= data@.len(),
            start == table.start + offset,
            offset <= usize::MAX,
            start < table.end,
            nul_at(data@, start as int, table.end as int) == nul_at(
                data@,
                end as int,
                table.end as int,
            ),
        decreases table.end - end,
    {
        if data[end] == 0 {
            return Ok(slice_subrange(data, start, end));
        }
        end = end + 1;
    }
    Err(Error::InvalidFormat("unterminated string"))
}

/// File offset of an entry of the file table.
pub open spec fn file_entry_at(layout: ParsedLayout, index: u32) -> int {
    layout.file_table.start + 4 + index * (2 * layout.string_offset_size)
}

/// The entry of the file table with the given index.
pub open spec fn file_of(s: Seq<u8>, layout: ParsedLayout, index: FileIndex) -> Result<
    FileView,
    Error,
> {
    if index.0 >= layout.file_count {
        Err(
            Error::OutOfRange {
                field: "file index",
                value: index.0 as u64,
                max: if layout.file_count == 0 {
                    0
                } else {
                    (layout.file_count - 1) as u64
                },
            },
        )
    } else {
        let at = file_entry_at(layout, index.0);
        let width = layout.string_offset_size as int;
        match endian::uint_at(s, at, width, layout.endian) {
            Err(error) => Err(error),
            Ok((directory, next)) => match endian::uint_at(s, next, width, layout.endian) {
                Err(error) => Err(error),
                Ok((basename, _)) => match string_of(s, layout.string_table, directory) {
                    Err(error) => Err(error),
                    Ok(directory) => match string_of(s, layout.string_table, basename) {
                        Err(error) => Err(error),
                        Ok(basename) => Ok(FileView { directory, basename }),
                    },
                },
            },
        }
    }
}

/// An entry of a table lies in the table.
pub proof fn lemma_entry_in_table(index: int, count: int, width: int)
    requires
        0 <= index < count,
        0 <= width,
    ensures
        0 <= index * width,
        index * width + width <= count * width,
{
    assert(0 <= index * width && index * width + width <= count * width) by (nonlinear_arith)
        requires
            0 <= index < count,
            0 <= width,
    ;
}

/// Resolves a file-table index.
pub fn file_at<'data>(data: &'data [u8], layout: &ParsedLayout, index: FileIndex) -> (result: Result<
    (&'data [u8], &'data [u8]),
    Error,
>)
    requires
        layout.wf(data@.len()),
    ensures
        match file_of(data@, *layout, index) {
            Ok(file) => result matches Ok((directory, basename)) && directory@ == file.directory
                && basename@ == file.basename,
            Err(error) => result == Err::<(&'data [u8], &'data [u8]), Error>(error),
        },
{
    let len: usize = data.len();
    if index.0 >= layout.file_count {
        let max: u64 = if layout.file_count == 0 {
            0
        } else {
            (layout.file_count - 1) as u64
        };
        return Err(Error::OutOfRange { field: "file index", value: index.0 as u64, max });
    }
    proof {
        lemma_entry_in_table(
            index.0 as int,
            layout.file_count as int,
            2 * layout.string_offset_size as int,
        );
    }
    let entry_size: usize = 2 * layout.string_offset_size as usize;
    let offset: usize = layout.file_table.start + 4 + index.0 as usize * entry_size;
    let mut cursor = Cursor::at(data, layout.endian, offset)?;
    let directory: u64 = cursor.read_uint(layout.string_offset_size)?;
    let basename: u64 = cursor.read_uint(layout.string_offset_size)?;
    let directory = string_at(data, &layout.string_table, directory)?;
    let basename = string_at(data, &layout.string_table, basename)?;
    Ok((directory, basename))
}

/// Address offset of the function with the given index.
pub open spec fn entry_of(s: Seq<u8>, layout: ParsedLayout, index: int) -> nat {
    let at = layout.address_offsets.start + index * layout.address_offset_size;
    bytes::uint_value(s.subrange(at, at + layout.address_offset_size), layout.endian)
}

/// Start address of the function with the given index.
pub open spec fn address_of(s: Seq<u8>, layout: ParsedLayout, index: int) -> Result<u64, Error> {
    if layout.base_address + entry_of(s, layout, index) > u64::MAX {
        Err(Error::Overflow("function address"))
    } else {
        Ok((layout.base_address + entry_of(s, layout, index)) as u64)
    }
}

/// Reads the address offset of a function.
pub fn entry_at(data: &[u8], layout: &ParsedLayout, index: usize) -> (entry: u64)
    requires
        layout.wf(data@.len()),
        index < layout.address_count,
    ensures
        entry == entry_of(data@, *layout, index as int),
{
    let len: usize = data.len();
    proof {
        lemma_entry_in_table(
            index as int,
            layout.address_count as int,
            layout.address_offset_size as int,
        );
    }
    let start: usize = layout.address_offsets.start + index * layout.address_offset_size as usize;
    let end: usize = start + layout.address_offset_size as usize;
    let entry = slice_subrange(data, start, end);
    match layout.endian {
        Endian::Little => bytes::le_uint(entry),
        Endian::Big => bytes::be_uint(entry),
    }
}

/// Reads the start address of a function.
pub fn address_at(data: &[u8], layout: &ParsedLayout, index: usize) -> (result: Result<u64, Error>)
    requires
        layout.wf(data@.len()),
        index < layout.address_count,
    ensures
        result == address_of(data@, *layout, index as int),
{
    let entry: u64 = entry_at(data, layout, index);
    match layout.base_address.checked_add(entry) {
        Some(address) => Ok(address),
        None => Err(Error::Overflow("function address")),
    }
}

/// What the address-info table says of the function with the given index.
pub open spec fn info_of(s: Seq<u8>, layout: ParsedLayout, index: int) -> nat {
    let at = layout.address_info_offsets.start + index * layout.string_offset_size;
    bytes::uint_value(s.subrange(at, at + layout.string_offset_size), layout.endian)
}

/// File offset of the records of the function with the given index.
pub open spec fn function_offset_of(s: Seq<u8>, layout: ParsedLayout, index: int) -> Result<
    usize,
    Error,
> {
    let absolute = match layout.version {
        GsymVersion::V1 => info_of(s, layout, index) as int,
        GsymVersion::V2 => info_of(s, layout, index) + layout.function_info.start,
    };
    if absolute > u64::MAX {
        Err(Error::Overflow("FunctionInfo offset"))
    } else if absolute > usize::MAX {
        Err(Error::Overflow("FunctionInfo offset conversion"))
    } else {
        Ok(absolute as usize)
    }
}

/// File offset of the records of the function with an index that was not checked:
/// what stands where the table would hold it, if the file goes that far.
pub open spec fn unchecked_offset_of(s: Seq<u8>, layout: ParsedLayout, index: int) -> Result<
    usize,
    Error,
> {
    let step = index * layout.string_offset_size;
    let at = layout.address_info_offsets.start + step;
    if step > usize::MAX {
        Err(Error::Overflow("address-info table index"))
    } else if at > usize::MAX {
        Err(Error::Overflow("address-info table offset"))
    } else if at > s.len() {
        Err(Error::InvalidOffset { offset: at as u64, input_len: s.len() as usize })
    } else if at + layout.string_offset_size > s.len() {
        Err(endian::eof_at(s, at, layout.string_offset_size as int))
    } else {
        function_offset_of(s, layout, index)
    }
}

/// Reads the file offset of the records of a function.
pub fn function_offset_at(data: &[u8], layout: &ParsedLayout, index: usize) -> (result: Result<
    usize,
    Error,
>)
    requires
        layout.wf(data@.len()),
    ensures
        result == unchecked_offset_of(data@, *layout, index as int),
        index < layout.address_count ==> result == function_offset_of(
            data@,
            *layout,
            index as int,
        ),
{
    let len: usize = data.len();
    proof {
        if index < layout.address_count {
            lemma_entry_in_table(
                index as int,
                layout.address_count as int,
                layout.string_offset_size as int,
            );
        }
    }
    let width: usize = layout.string_offset_size as usize;
    let step: usize = match index.checked_mul(width) {
        Some(step) => step,
        None => return Err(Error::Overflow("address-info table index")),
    };
    let start: usize = match layout.address_info_offsets.start.checked_add(step) {
        Some(start) => start,
        None => return Err(Error::Overflow("address-info table offset")),
    };
    if start > len {
        return Err(Error::InvalidOffset { offset: start as u64, input_len: len });
    }
    if width > len - start {
        return Err(Error::UnexpectedEof { offset: start, needed: width, remaining: len - start });
    }
    let entry = slice_subrange(data, start, start + width);
    let relative: u64 = match layout.endian {
        Endian::Little => bytes::le_uint(entry),
        Endian::Big => bytes::be_uint(entry),
    };
    proof {
        bytes::lemma_uint_value_bound(entry@, layout.endian);
        bytes::lemma_pow256_values();
    }
    let absolute: u64 = match layout.version {
        GsymVersion::V1 => relative,
        GsymVersion::V2 => match relative.checked_add(layout.function_info.start as u64) {
            Some(absolute) => absolute,
            None => return Err(Error::Overflow("FunctionInfo offset")),
        },
    };
    if absolute > usize::MAX as u64 {
        return Err(Error::Overflow("FunctionInfo offset conversion"));
    }
    Ok(absolute as usize)
}

/// What the head of a function's records says.
pub struct RawView {
    /// Address range.
    pub range: AddressRange,
    /// String offset of the name.
    pub name: u64,
    /// From the head of the function up to the end of the section.
    pub data: Seq<u8>,
    /// From the first record on.
    pub records: Seq<u8>,
}

/// A function's head and where its records are.
#[derive(Clone, Copy, Debug)]
pub struct RawFunction<'data> {
    /// Address range.
    pub range: AddressRange,
    /// String offset of the name.
    pub name: u64,
    /// From the head of the function up to the end of the section.
    pub data: &'data [u8],
    /// From the first record on.
    pub records: &'data [u8],
}

impl<'data> View for RawFunction<'data> {
    type V = RawView;

    open spec fn view(&self) -> RawView {
        RawView {
            range: self.range,
            name: self.name,
            data: self.data@,
            records: self.records@,
        }
    }
}

/// The head of the function with the given index and start address.
pub open spec fn raw_of(s: Seq<u8>, layout: ParsedLayout, index: int, start: u64) -> Result<
    RawView,
    Error,
> {
    match function_offset_of(s, layout, index) {
        Err(error) => Err(error),
        Ok(offset) => if offset < layout.function_info.start || offset
            >= layout.function_info.end {
            Err(Error::InvalidOffset { offset: offset as u64, input_len: s.len() as usize })
        } else {
            let data = s.subrange(offset as int, layout.function_info.end as int);
            match endian::uint_at(data, 0, 4, layout.endian) {
                Err(error) => Err(error),
                Ok((size, p1)) => match endian::uint_at(
                    data,
                    p1,
                    layout.string_offset_size as int,
                    layout.endian,
                ) {
                    Err(error) => Err(error),
                    Ok((name, p2)) => if name == 0 {
                        Err(Error::ZeroNameOffset)
                    } else if start + size > u64::MAX {
                        Err(Error::Overflow("function range"))
                    } else {
                        Ok(
                            RawView {
                                range: AddressRange { start, end: (start + size) as u64 },
                                name,
                                data,
                                records: data.subrange(p2, data.len() as int),
                            },
                        )
                    },
                },
            }
        },
    }
}

/// Reads the head of a function whose start address is known.
pub fn raw_function_at<'data>(
    data: &'data [u8],
    layout: &ParsedLayout,
    index: usize,
    start: u64,
) -> (result: Result<RawFunction<'data>, Error>)
    requires
        layout.wf(data@.len()),
        index < layout.address_count,
    ensures
        match raw_of(data@, *layout, index as int, start) {
            Ok(view) => result matches Ok(raw) && raw@ == view,
            Err(error) => result == Err::<RawFunction<'data>, Error>(error),
        },
{
    let offset: usize = function_offset_at(data, layout, index)?;
    if offset < layout.function_info.start || offset >= layout.function_info.end {
        return Err(Error::InvalidOffset { offset: offset as u64, input_len: data.len() });
    }
    let section = slice_subrange(data, offset, layout.function_info.end);
    let mut head = Cursor::new(section, layout.endian);
    let size: u32 = head.read_u32()?;
    let name: u64 = head.read_uint(layout.string_offset_size)?;
    if name == 0 {
        return Err(Error::ZeroNameOffset);
    }
    let end: u64 = match start.checked_add(size as u64) {
        Some(end) => end,
        None => return Err(Error::Overflow("function range")),
    };
    let records = slice_subrange(section, head.position(), section.len());
    Ok(RawFunction { range: AddressRange { start, end }, name, data: section, records })
}

} // verus!
