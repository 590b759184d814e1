//! Verification of a whole file.
use vstd::prelude::*;
use crate::error::Error;
use crate::format::function;
use crate::format::function::EncodedFunction;
use crate::model;
use crate::model::{FileIndex, Function, FunctionView};
use crate::reader::layout::ParsedLayout;
use crate::reader::owned;
use crate::reader::owned::{decode_at, validate_at};
use crate::reader::search;
use crate::reader::table;
use crate::reader::table::{address_at, file_at, raw_function_at, string_at, RawFunction, RawView};

verus! {

/// Validation results for an entire GSYM file.
#[derive(Clone, Copy, Debug, PartialEq, Eq, Structural)]
#[non_exhaustive]
pub struct VerifyReport {
    /// Number of validated top-level functions.
    pub functions: usize,
    /// Number of validated file entries.
    pub files: usize,
    /// Number of strings in the string table.
    pub strings: usize,
    /// Size of the function records.
    pub function_info_bytes: usize,
}

impl Default for VerifyReport {
    fn default() -> (report: Self)
        ensures
            report == (VerifyReport { functions: 0, files: 0, strings: 0, function_info_bytes: 0 }),
    {
        VerifyReport { functions: 0, files: 0, strings: 0, function_info_bytes: 0 }
    }
}

/// An indexed function: its head and its name.
pub struct FoundView {
    /// Head of the function.
    pub raw: RawView,
    /// Name of the function.
    pub name: Seq<u8>,
}

/// The function with the given index; none behind the last one.
pub open spec fn found_of(s: Seq<u8>, layout: ParsedLayout, index: int) -> Result<
    Option<FoundView>,
    Error,
> {
    if index >= layout.address_count {
        Ok(None)
    } else {
        match table::address_of(s, layout, index) {
            Err(error) => Err(error),
            Ok(start) => match table::raw_of(s, layout, index, start) {
                Err(error) => Err(error),
                Ok(raw) => match table::string_of(s, layout.string_table, raw.name) {
                    Err(error) => Err(error),
                    Ok(name) => Ok(Some(FoundView { raw, name })),
                },
            },
        }
    }
}

/// Finds the function with the given index.
pub fn find_at<'data>(data: &'data [u8], layout: &ParsedLayout, index: usize) -> (result: Result<
    Option<(RawFunction<'data>, &'data [u8])>,
    Error,
>)
    requires
        layout.wf(data@.len()),
    ensures
        match found_of(data@, *layout, index as int) {
            Ok(Some(found)) => {
                &&& result matches Ok(Some((raw, name)))
                &&& raw@ == found.raw
                &&& name@ == found.name
            },
            Ok(None) => result matches Ok(None),
            Err(error) => result == Err::<Option<(RawFunction<'data>, &'data [u8])>, Error>(error),
        },
{
    if index >= layout.address_count as usize {
        return Ok(None);
    }
    let start: u64 = address_at(data, layout, index)?;
    let raw = raw_function_at(data, layout, index, start)?;
    let name = string_at(data, &layout.string_table, raw.name)?;
    Ok(Some((raw, name)))
}

/// The records of a function.
pub open spec fn encoded_of(layout: ParsedLayout, raw: RawView) -> Result<
    function::EncodedFunctionView,
    Error,
> {
    match function::function_at(
        raw.data,
        0,
        layout.string_offset_size,
        layout.endian,
        raw.range.start,
    ) {
        Err(error) => Err(error),
        Ok((encoded, _)) => Ok(encoded),
    }
}

/// A function with everything that it refers to.
pub open spec fn decoded_of(s: Seq<u8>, layout: ParsedLayout, raw: RawView) -> Result<
    FunctionView,
    Error,
> {
    match encoded_of(layout, raw) {
        Err(error) => Err(error),
        Ok(encoded) => owned::owned_of(s, layout, encoded, None, 0),
    }
}

/// Reads the records of a function.
pub fn encoded_at(layout: &ParsedLayout, raw: RawFunction<'_>) -> (result: Result<
    EncodedFunction,
    Error,
>)
    ensures
        match encoded_of(*layout, raw@) {
            Ok(view) => result matches Ok(encoded) && encoded@ == view,
            Err(error) => result == Err::<EncodedFunction, Error>(error),
        },
{
    function::decode(raw.data, layout.endian, layout.string_offset_size, raw.range.start)
}

/// The first rule that the function with the given index breaks, if it breaks
/// one.
pub open spec fn function_error(s: Seq<u8>, layout: ParsedLayout, index: int) -> Option<Error> {
    match found_of(s, layout, index) {
        Err(error) => Some(error),
        Ok(None) => None,
        Ok(Some(found)) => match encoded_of(layout, found.raw) {
            Err(error) => Some(error),
            Ok(encoded) => owned::checked_of(s, layout, encoded, None, 0),
        },
    }
}

/// The first rule that the functions from `index` on break, if they break one,
/// behind a function that starts at `previous`.
pub open spec fn functions_error(
    s: Seq<u8>,
    layout: ParsedLayout,
    index: int,
    previous: Option<u64>,
) -> Option<Error>
    decreases layout.address_count - index,
{
    if index >= layout.address_count {
        None
    } else {
        match table::address_of(s, layout, index) {
            Err(error) => Some(error),
            Ok(address) => if previous is Some && address < previous->0 {
                Some(Error::InvalidFormat("address table is not sorted"))
            } else {
                match function_error(s, layout, index) {
                    Some(error) => Some(error),
                    None => functions_error(s, layout, index + 1, Some(address)),
                }
            },
        }
    }
}

/// The error of the first file entry from `index` on that cannot be resolved.
pub open spec fn file_entries_error(s: Seq<u8>, layout: ParsedLayout, index: int) -> Option<Error>
    decreases layout.file_count - index,
{
    if index >= layout.file_count {
        None
    } else {
        match table::file_of(s, layout, FileIndex(index as u32)) {
            Err(error) => Some(error),
            Ok(_) => file_entries_error(s, layout, index + 1),
        }
    }
}

/// The error of the reserved file entry.
pub open spec fn reserved_file_error(s: Seq<u8>, layout: ParsedLayout) -> Option<Error> {
    if layout.file_count == 0 {
        None
    } else {
        match table::file_of(s, layout, FileIndex(0)) {
            Err(error) => Some(error),
            Ok(file) => if file.directory.len() != 0 || file.basename.len() != 0 {
                Some(Error::InvalidFormat("file-table index zero must be empty"))
            } else {
                None
            },
        }
    }
}

/// The first rule that a file breaks, if it breaks one.
pub open spec fn verify_error(s: Seq<u8>, layout: ParsedLayout) -> Option<Error> {
    if layout.string_table.start >= s.len() || s[layout.string_table.start as int] != 0 {
        Some(Error::InvalidFormat("GSYM string table does not begin with an empty string"))
    } else {
        match reserved_file_error(s, layout) {
            Some(error) => Some(error),
            None => match functions_error(s, layout, 0, None) {
                Some(error) => Some(error),
                None => file_entries_error(s, layout, 0),
            },
        }
    }
}

/// Number of zero bytes.
pub open spec fn zero_count(s: Seq<u8>) -> nat
    decreases s.len(),
{
    if s.len() == 0 {
        0
    } else {
        zero_count(s.drop_last()) + (if s.last() == 0 {
            1nat
        } else {
            0nat
        })
    }
}

/// What verification reports of a file that breaks no rule.
pub open spec fn report_of(s: Seq<u8>, layout: ParsedLayout) -> VerifyReport {
    VerifyReport {
        functions: layout.address_count as usize,
        files: layout.file_count as usize,
        strings: zero_count(
            s.subrange(layout.string_table.start as int, layout.string_table.end as int),
        ) as usize,
        function_info_bytes: (layout.function_info.end - layout.function_info.start) as usize,
    }
}

/// The functions of a file that breaks no rule.
pub open spec fn functions_of(s: Seq<u8>, layout: ParsedLayout) -> Seq<FunctionView> {
    Seq::new(
        layout.address_count as nat,
        |i: int| decoded_of(s, layout, (found_of(s, layout, i)->Ok_0->0).raw)->Ok_0,
    )
}

proof fn lemma_functions_verified(
    s: Seq<u8>,
    layout: ParsedLayout,
    index: int,
    previous: Option<u64>,
)
    requires
        0 <= index,
        functions_error(s, layout, index, previous) is None,
    ensures
        forall|i: int|
            index <= i < layout.address_count ==> function_error(s, layout, i) is None && (
            #[trigger] table::address_of(s, layout, i)) is Ok,
        forall|i: int, j: int|
            index <= i <= j < layout.address_count ==> #[trigger] table::entry_of(s, layout, i)
                <= #[trigger] table::entry_of(s, layout, j),
        previous matches Some(start) ==> forall|i: int|
            index <= i < layout.address_count ==> start <= (#[trigger] table::address_of(
                s,
                layout,
                i,
            ))->Ok_0,
    decreases layout.address_count - index,
{
    if index < layout.address_count {
        let address = table::address_of(s, layout, index)->Ok_0;
        lemma_functions_verified(s, layout, index + 1, Some(address));
        assert forall|i: int, j: int| index <= i <= j < layout.address_count implies (
        #[trigger] table::entry_of(s, layout, i)) <= #[trigger] table::entry_of(s, layout, j) by {
            if i == index && j > index {
                assert(table::address_of(s, layout, j) is Ok);
            }
        }
    }
}

/// The address table of a file that verification accepts is sorted, every
/// address in it can be held, and every function in it can be decoded.
pub proof fn law_verified_functions(s: Seq<u8>, layout: ParsedLayout)
    requires
        verify_error(s, layout) is None,
    ensures
        search::table_sorted(s, layout),
        search::addresses_fit(s, layout),
        forall|i: int|
            0 <= i < layout.address_count ==> {
                &&& (#[trigger] found_of(s, layout, i)) matches Ok(Some(found))
                &&& decoded_of(s, layout, found.raw) is Ok
            },
{
    lemma_functions_verified(s, layout, 0, None);
    assert forall|i: int| 0 <= i < layout.address_count implies layout.base_address
        + #[trigger] table::entry_of(s, layout, i) <= u64::MAX by {
        assert(table::address_of(s, layout, i) is Ok);
    }
    assert forall|i: int| 0 <= i < layout.address_count implies {
        &&& (#[trigger] found_of(s, layout, i)) matches Ok(Some(found))
        &&& decoded_of(s, layout, found.raw) is Ok
    } by {
        assert(table::address_of(s, layout, i) is Ok);
        assert(function_error(s, layout, i) is None);
        let found = found_of(s, layout, i)->Ok_0->0;
        let encoded = encoded_of(layout, found.raw)->Ok_0;
        owned::law_decode_agrees_with_verification(s, layout, encoded, None, 0);
    }
}

/// Every file entry of a file that verification accepts can be resolved.
pub proof fn law_verified_files(s: Seq<u8>, layout: ParsedLayout, index: u32)
    requires
        verify_error(s, layout) is None,
        index < layout.file_count,
    ensures
        table::file_of(s, layout, FileIndex(index)) is Ok,
{
    lemma_files_verified(s, layout, 0, index);
}

proof fn lemma_files_verified(s: Seq<u8>, layout: ParsedLayout, from: int, index: u32)
    requires
        0 <= from <= index < layout.file_count,
        file_entries_error(s, layout, from) is None,
    ensures
        table::file_of(s, layout, FileIndex(index)) is Ok,
    decreases index - from,
{
    if from < index {
        lemma_files_verified(s, layout, from + 1, index);
    }
}

/// Counts zero bytes.
pub fn count_zeros(bytes: &[u8]) -> (count: usize)
    ensures
        count == zero_count(bytes@),
{
    let len: usize = bytes.len();
    let mut count: usize = 0;
    let mut i: usize = 0;
    assert(bytes@.subrange(0, 0) =~= Seq::<u8>::empty());
    while i < len
        invariant
            i <= len,
            len == bytes@.len(),
            count <= i,
            count == zero_count(bytes@.subrange(0, i as int)),
        decreases len - i,
    {
        assert(bytes@.subrange(0, i + 1).drop_last() =~= bytes@.subrange(0, i as int));
        if bytes[i] == 0 {
            count = count + 1;
        }
        i = i + 1;
    }
    assert(bytes@.subrange(0, len as int) =~= bytes@);
    count
}

fn check_reserved_file(data: &[u8], layout: &ParsedLayout) -> (result: Result<(), Error>)
    requires
        layout.wf(data@.len()),
    ensures
        result == (match reserved_file_error(data@, *layout) {
            Some(error) => Err::<(), Error>(error),
            None => Ok(()),
        }),
{
    if layout.file_count > 0 {
        let (directory, basename) = file_at(data, layout, FileIndex(0))?;
        if directory.len() != 0 || basename.len() != 0 {
            return Err(Error::InvalidFormat("file-table index zero must be empty"));
        }
    }
    Ok(())
}

fn check_file_entries(data: &[u8], layout: &ParsedLayout) -> (result: Result<(), Error>)
    requires
        layout.wf(data@.len()),
    ensures
        result == (match file_entries_error(data@, *layout, 0) {
            Some(error) => Err::<(), Error>(error),
            None => Ok(()),
        }),
{
    let mut index: u32 = 0;
    while index < layout.file_count
        invariant
            layout.wf(data@.len()),
            index <= layout.file_count,
            file_entries_error(data@, *layout, 0) == file_entries_error(
                data@,
                *layout,
                index as int,
            ),
        decreases layout.file_count - index,
    {
        file_at(data, layout, FileIndex(index))?;
        index = index + 1;
    }
    Ok(())
}

/// Verifies a whole file, and decodes its functions where `decode` asks for it.
#[verifier::rlimit(40)]
pub fn verify_at(data: &[u8], layout: &ParsedLayout, decode: bool) -> (result: Result<
    (VerifyReport, Vec<Function>),
    Error,
>)
    requires
        layout.wf(data@.len()),
    ensures
        match verify_error(data@, *layout) {
            Some(error) => result == Err::<(VerifyReport, Vec<Function>), Error>(error),
            None => {
                &&& result matches Ok((report, functions))
                &&& report == report_of(data@, *layout)
                &&& model::function_views(functions@) == (if decode {
                    functions_of(data@, *layout)
                } else {
                    Seq::empty()
                })
            },
        },
{
    let len: usize = data.len();
    if layout.string_table.start >= len || data[layout.string_table.start] != 0 {
        return Err(
            Error::InvalidFormat("GSYM string table does not begin with an empty string"),
        );
    }
    check_reserved_file(data, layout)?;
    let mut functions: Vec<Function> = Vec::new();
    let mut previous: Option<u64> = None;
    let mut index: usize = 0;
    let count: usize = layout.address_count as usize;
    assert(model::function_views(functions@) =~= functions_of(data@, *layout).subrange(0, 0));
    while index < count
        invariant
            layout.wf(data@.len()),
            index <= count,
            count == layout.address_count,
            verify_error(data@, *layout) == (match functions_error(
                data@,
                *layout,
                index as int,
                previous,
            ) {
                Some(error) => Some(error),
                None => file_entries_error(data@, *layout, 0),
            }),
            model::function_views(functions@) == (if decode {
                functions_of(data@, *layout).subrange(0, index as int)
            } else {
                Seq::empty()
            }),
        decreases count - index,
    {
        let address: u64 = address_at(data, layout, index)?;
        if let Some(value) = previous {
            if address < value {
                return Err(Error::InvalidFormat("address table is not sorted"));
            }
        }
        previous = Some(address);
        let (raw, _name) = match find_at(data, layout, index)? {
            Some(found) => found,
            None => return Err(Error::FunctionIndexOutOfBounds { index, count }),
        };
        let encoded = encoded_at(layout, raw)?;
        validate_at(data, layout, &encoded, None, 0)?;
        proof {
            owned::law_decode_agrees_with_verification(data@, *layout, encoded@, None, 0);
        }
        if decode {
            let function = decode_at(data, layout, &encoded, None, 0)?;
            let ghost before = model::function_views(functions@);
            functions.push(function);
            proof {
                assert(model::function_views(functions@) =~= before.push(function@));
                assert(functions_of(data@, *layout)[index as int] == function@);
                assert(before.push(function@) =~= functions_of(data@, *layout).subrange(
                    0,
                    index + 1,
                ));
            }
        }
        index = index + 1;
    }
    check_file_entries(data, layout)?;
    proof {
        assert(functions_of(data@, *layout).subrange(0, count as int) =~= functions_of(
            data@,
            *layout,
        ));
    }
    let strings = vstd::slice::slice_subrange(
        data,
        layout.string_table.start,
        layout.string_table.end,
    );
    let report = VerifyReport {
        functions: count,
        files: layout.file_count as usize,
        strings: count_zeros(strings),
        function_info_bytes: layout.function_info.end - layout.function_info.start,
    };
    Ok((report, functions))
}

proof fn lemma_zeros_counted(s: Seq<u8>)
    ensures
        zero_count(s) == s.to_multiset().count(0),
    decreases s.len(),
{
    broadcast use vstd::seq_lib::group_to_multiset_ensures;

    if s.len() > 0 {
        let rest = s.drop_last();
        lemma_zeros_counted(rest);
        assert(s =~= rest.push(s.last()));
    }
}

/// Verification reports the functions, the files, the NUL bytes of the string table, and
/// the size of the records of a file.
pub proof fn law_reports_count(s: Seq<u8>, layout: ParsedLayout)
    requires
        layout.string_table.start <= layout.string_table.end <= s.len() <= usize::MAX,
        layout.function_info.start <= layout.function_info.end,
        layout.address_count <= usize::MAX,
        layout.file_count <= usize::MAX,
    ensures
        ({
            let report = report_of(s, layout);
            let strings = s.subrange(
                layout.string_table.start as int,
                layout.string_table.end as int,
            );
            &&& report.functions == layout.address_count
            &&& report.files == layout.file_count
            &&& report.strings == strings.to_multiset().count(0)
            &&& layout.function_info.start + report.function_info_bytes
                == layout.function_info.end
        }),
{
    let strings = s.subrange(layout.string_table.start as int, layout.string_table.end as int);
    lemma_zeros_counted(strings);
    lemma_zeros_fit(strings);
}

proof fn lemma_zeros_fit(s: Seq<u8>)
    ensures
        zero_count(s) <= s.len(),
    decreases s.len(),
{
    if s.len() > 0 {
        lemma_zeros_fit(s.drop_last());
    }
}

/// The first file entry of a file that verification accepts names no file.
pub proof fn law_the_first_file_is_empty(s: Seq<u8>, layout: ParsedLayout)
    requires
        verify_error(s, layout) is None,
        layout.file_count > 0,
    ensures
        table::file_of(s, layout, FileIndex(0)) matches Ok(file) && file.directory.len() == 0
            && file.basename.len() == 0,
{
}

/// The string table of a file that verification accepts begins with an empty string, and
/// every function in it is sound.
pub proof fn law_verified_functions_are_sound(s: Seq<u8>, layout: ParsedLayout)
    requires
        verify_error(s, layout) is None,
    ensures
        layout.string_table.start < s.len() && s[layout.string_table.start as int] == 0,
        forall|i: int|
            0 <= i < layout.address_count ==> {
                &&& (#[trigger] found_of(s, layout, i)) matches Ok(Some(found))
                &&& encoded_of(layout, found.raw) matches Ok(encoded)
                &&& owned::is_sound(encoded)
            },
{
    lemma_functions_verified(s, layout, 0, None);
    assert forall|i: int| 0 <= i < layout.address_count implies {
        &&& (#[trigger] found_of(s, layout, i)) matches Ok(Some(found))
        &&& encoded_of(layout, found.raw) matches Ok(encoded)
        &&& owned::is_sound(encoded)
    } by {
        assert(table::address_of(s, layout, i) is Ok);
        assert(function_error(s, layout, i) is None);
        let found = found_of(s, layout, i)->Ok_0->0;
        let encoded = encoded_of(layout, found.raw)->Ok_0;
        owned::law_checked_functions_are_sound(s, layout, encoded, None, 0);
    }
}

} // verus!
