//! From a builder's files and functions to the bytes of a file.
use vstd::prelude::*;
use crate::builder::{BuilderOptions, OptionsView};
use crate::error::Error;
use crate::format::function;
use crate::format::function::{EncodedFunction, EncodedFunctionView};
use crate::model;
use crate::model::{FileEntry, FileView, Function, FunctionView};
use crate::validation;
use crate::validation::{validate_file_table, validate_for_writer};
use crate::version::GsymVersion;
use crate::writer::encode;
use crate::writer::encode::{encode_v1, encode_v2, EncodedImage, ImageView};
use crate::writer::finalize;
use crate::writer::finalize::FunctionSetPolicy;
use crate::writer::options::WriterView;
use crate::writer::ordering;
use crate::writer::ordering::sort_by_start;
use crate::writer::semantic;
use crate::writer::semantic::{encode_function, intern_files};
use crate::writer::strings;
use crate::writer::strings::StringTable;
use crate::writer::tables;
use crate::writer::tables::address_offset_width;

verus! {

/// The functions as they are written.
pub open spec fn final_functions(
    options: OptionsView,
    policy: FunctionSetPolicy,
    functions: Seq<FunctionView>,
) -> Seq<FunctionView> {
    finalize::finalized(
        functions,
        options.executable_ranges,
        options.repair_zero_sized_functions,
        policy,
    )
}

/// Whether a function starts before the image base.
pub open spec fn precedes(functions: Seq<FunctionView>, base: u64) -> bool {
    exists|i: int| 0 <= i < functions.len() && (#[trigger] functions[i]).range.start < base
}

/// Distance of an address from the image base, or zero before it.
pub open spec fn above(address: u64, base: u64) -> u64 {
    if address >= base {
        (address - base) as u64
    } else {
        0
    }
}

/// The image base of a file that is written.
pub open spec fn base_of(writer: WriterView, functions: Seq<FunctionView>) -> u64 {
    match writer.base_address {
        Some(base) => base,
        None => functions[0].range.start,
    }
}

/// Bytes per address offset of a file that is written.
pub open spec fn offset_width(writer: WriterView, functions: Seq<FunctionView>) -> u8 {
    tables::width_of(above(functions.last().range.start, base_of(writer, functions)))
}

/// The file table of a file that is written, and the strings that it refers to.
pub open spec fn written_files(files: Seq<FileView>) -> (Seq<(u64, u64)>, Seq<Seq<u8>>) {
    semantic::files_encoded(files, 0, strings::no_strings(), Seq::empty())
}

/// The functions of a file that is written, and the strings of the file.
pub open spec fn written_functions(files: Seq<FileView>, functions: Seq<FunctionView>) -> Result<
    (Seq<EncodedFunctionView>, Seq<Seq<u8>>),
    Error,
> {
    semantic::functions_encoded(functions, 0, written_files(files).1, 0, Seq::empty())
}

/// The bytes of a file with the given tables.
#[verifier::opaque]
pub open spec fn tables_image(
    writer: WriterView,
    base: u64,
    width: u8,
    files: Seq<(u64, u64)>,
    strings: Seq<Seq<u8>>,
    functions: Seq<EncodedFunctionView>,
) -> Result<ImageView, Error> {
    match writer.version {
        GsymVersion::V1 => encode::v1_image(
            writer.endian,
            writer.build_id,
            base,
            width,
            files,
            strings::table_bytes(strings),
            functions,
        ),
        GsymVersion::V2 => encode::v2_image(
            writer.endian,
            writer.build_id,
            base,
            width,
            files,
            strings::table_bytes(strings),
            functions,
        ),
    }
}

/// The bytes of a file, one part behind the other.
pub open spec fn bytes_of(image: ImageView) -> Seq<u8> {
    image.prefix + image.function_info
}

/// The bytes of a file with the functions as they are written.
pub open spec fn finalized_image(
    writer: WriterView,
    files: Seq<FileView>,
    functions: Seq<FunctionView>,
) -> Result<ImageView, Error> {
    if functions.len() == 0 {
        Err(Error::InvalidModel("at least one function is required"))
    } else if precedes(functions, base_of(writer, functions)) {
        Err(Error::InvalidModel("function address precedes the selected image base"))
    } else {
        match written_functions(files, functions) {
            Err(error) => Err(error),
            Ok((encoded, strings)) => tables_image(
                writer,
                base_of(writer, functions),
                offset_width(writer, functions),
                written_files(files).0,
                strings,
                encoded,
            ),
        }
    }
}

/// The bytes of a file with the given files and functions.
pub open spec fn image_of(
    options: OptionsView,
    policy: FunctionSetPolicy,
    files: Seq<FileView>,
    functions: Seq<FunctionView>,
) -> Result<ImageView, Error> {
    match validation::file_table_error(files) {
        Some(error) => Err(error),
        None => match validation::functions_error(functions, 0, Some(files.len()), None, 0) {
            Some(error) => Err(error),
            None => finalized_image(
                options.writer,
                files,
                final_functions(options, policy, functions),
            ),
        },
    }
}

/// The bytes of a file with the given files, and with the given functions as they
/// stand but in order of their starts.
pub open spec fn verbatim_of(
    options: OptionsView,
    files: Seq<FileView>,
    functions: Seq<FunctionView>,
) -> Result<ImageView, Error> {
    match validation::file_table_error(files) {
        Some(error) => Err(error),
        None => match validation::functions_error(functions, 0, Some(files.len()), None, 0) {
            Some(error) => Err(error),
            None => finalized_image(options.writer, files, ordering::by_start(functions)),
        },
    }
}

fn validate_functions(functions: &Vec<Function>, file_count: usize) -> (result: Result<(), Error>)
    ensures
        result == validation::outcome(
            validation::functions_error(
                model::function_views(functions@),
                0,
                Some(file_count as nat),
                None,
                0,
            ),
        ),
{
    let ghost views = model::function_views(functions@);
    let mut i: usize = 0;
    while i < functions.len()
        invariant
            i <= functions@.len(),
            views == model::function_views(functions@),
            validation::functions_error(views, 0, Some(file_count as nat), None, 0)
                == validation::functions_error(
                views,
                i as int,
                Some(file_count as nat),
                None,
                0,
            ),
        decreases functions@.len() - i,
    {
        assert(views[i as int] == functions@[i as int]@);
        validate_for_writer(&functions[i], file_count)?;
        i = i + 1;
    }
    Ok(())
}

fn any_precedes(functions: &Vec<Function>, base: u64) -> (result: bool)
    ensures
        result == precedes(model::function_views(functions@), base),
{
    let ghost views = model::function_views(functions@);
    let mut i: usize = 0;
    while i < functions.len()
        invariant
            i <= functions@.len(),
            views == model::function_views(functions@),
            forall|k: int| 0 <= k < i ==> (#[trigger] views[k]).range.start >= base,
        decreases functions@.len() - i,
    {
        proof {
            model::lemma_function_view(functions@[i as int]);
            assert(views[i as int].range == functions@[i as int].range);
        }
        if functions[i].range.start < base {
            return true;
        }
        i = i + 1;
    }
    false
}

fn encode_functions(functions: &Vec<Function>, strings: &mut StringTable) -> (result: Result<
    Vec<EncodedFunction>,
    Error,
>)
    requires
        old(strings).wf(),
    ensures
        final(strings).wf(),
        match semantic::functions_encoded(
            model::function_views(functions@),
            0,
            old(strings).strings(),
            0,
            Seq::empty(),
        ) {
            Ok((views, grown)) => {
                &&& result matches Ok(encoded)
                &&& function::encoded_function_views(encoded@) == views
                &&& final(strings).strings() == grown
            },
            Err(error) => result == Err::<Vec<EncodedFunction>, Error>(error),
        },
{
    let ghost views = model::function_views(functions@);
    let ghost expected = semantic::functions_encoded(
        views,
        0,
        strings.strings(),
        0,
        Seq::empty(),
    );
    let mut encoded: Vec<EncodedFunction> = Vec::new();
    assert(function::encoded_function_views(encoded@) =~= Seq::<EncodedFunctionView>::empty());
    let mut i: usize = 0;
    while i < functions.len()
        invariant
            i <= functions@.len(),
            views == model::function_views(functions@),
            strings.wf(),
            expected == semantic::functions_encoded(
                views,
                0,
                old(strings).strings(),
                0,
                Seq::empty(),
            ),
            expected == semantic::functions_encoded(
                views,
                i as int,
                strings.strings(),
                0,
                function::encoded_function_views(encoded@),
            ),
        decreases functions@.len() - i,
    {
        assert(views[i as int] == functions@[i as int]@);
        let item = encode_function(&functions[i], strings, 0)?;
        let ghost before = function::encoded_function_views(encoded@);
        encoded.push(item);
        assert(function::encoded_function_views(encoded@) =~= before.push(item@));
        i = i + 1;
    }
    Ok(encoded)
}

fn encode_tables(
    options: &BuilderOptions,
    base: u64,
    width: u8,
    files: &Vec<(u64, u64)>,
    strings: &StringTable,
    functions: &Vec<EncodedFunction>,
) -> (result: Result<EncodedImage, Error>)
    requires
        strings.wf(),
        width == 1 || width == 2 || width == 4 || width == 8,
    ensures
        match tables_image(
            options@.writer,
            base,
            width,
            files@,
            strings.strings(),
            function::encoded_function_views(functions@),
        ) {
            Ok(view) => result matches Ok(image) && image@ == view,
            Err(error) => result == Err::<EncodedImage, Error>(error),
        },
{
    proof {
        reveal(tables_image);
    }
    let writer = &options.writer;
    match writer.version {
        GsymVersion::V1 => encode_v1(
            writer.endian,
            &writer.build_id,
            base,
            width,
            files,
            strings.bytes(),
            functions,
        ),
        GsymVersion::V2 => encode_v2(
            writer.endian,
            &writer.build_id,
            base,
            width,
            files,
            strings.bytes(),
            functions,
        ),
    }
}

/// Encodes files and functions as they are written.
fn encode_finalized(
    options: &BuilderOptions,
    files: &Vec<FileEntry>,
    functions: Vec<Function>,
) -> (result: Result<EncodedImage, Error>)
    ensures
        match finalized_image(
            options@.writer,
            model::file_views(files@),
            model::function_views(functions@),
        ) {
            Ok(view) => result matches Ok(image) && image@ == view,
            Err(error) => result == Err::<EncodedImage, Error>(error),
        },
{
    let ghost views = model::function_views(functions@);
    let count: usize = functions.len();
    if count == 0 {
        return Err(Error::InvalidModel("at least one function is required"));
    }
    proof {
        model::lemma_function_view(functions@[0]);
        model::lemma_function_view(functions@[count - 1]);
        assert(views[0].range == functions@[0].range);
        assert(views.last().range == functions@[count - 1].range);
    }
    let base: u64 = match options.writer.base_address {
        Some(base) => base,
        None => functions[0].range.start,
    };
    if any_precedes(&functions, base) {
        return Err(Error::InvalidModel("function address precedes the selected image base"));
    }
    let width: u8 = address_offset_width(functions[count - 1].range.start.saturating_sub(base));
    let mut strings = StringTable::new();
    let encoded_files = intern_files(files, &mut strings);
    let encoded_functions = encode_functions(&functions, &mut strings)?;
    encode_tables(options, base, width, &encoded_files, &strings, &encoded_functions)
}

/// Encodes files and functions.
pub fn encode_image(
    options: &BuilderOptions,
    policy: FunctionSetPolicy,
    files: &Vec<FileEntry>,
    functions: Vec<Function>,
) -> (result: Result<EncodedImage, Error>)
    ensures
        match image_of(
            options@,
            policy,
            model::file_views(files@),
            model::function_views(functions@),
        ) {
            Ok(view) => result matches Ok(image) && image@ == view,
            Err(error) => result == Err::<EncodedImage, Error>(error),
        },
{
    validate_file_table(files)?;
    validate_functions(&functions, files.len())?;
    let functions = finalize::finalize(
        functions,
        &options.executable_ranges,
        options.repair_zero_sized_functions,
        policy,
    );
    encode_finalized(options, files, functions)
}

/// Encodes files, and functions as they stand but in order of their starts.
pub fn encode_verbatim(
    options: &BuilderOptions,
    files: &Vec<FileEntry>,
    functions: Vec<Function>,
) -> (result: Result<EncodedImage, Error>)
    ensures
        match verbatim_of(
            options@,
            model::file_views(files@),
            model::function_views(functions@),
        ) {
            Ok(view) => result matches Ok(image) && image@ == view,
            Err(error) => result == Err::<EncodedImage, Error>(error),
        },
{
    validate_file_table(files)?;
    validate_functions(&functions, files.len())?;
    let functions = sort_by_start(functions);
    encode_finalized(options, files, functions)
}

} // verus!
