//! Laws on what is read from a file that was written.
use vstd::prelude::*;
use crate::builder;
use crate::builder::BuilderView;
use crate::bytes;
use crate::endian;
use crate::endian::Endian;
use crate::error::Error;
use crate::format::function;
use crate::format::function::EncodedFunctionView;
use crate::model::{FileIndex, FileView, FunctionView, LookupView};
use crate::reader::answers;
use crate::reader::gsym;
use crate::reader::layout;
use crate::reader::layout::ParsedLayout;
use crate::reader::lookup;
use crate::reader::lookup::LookupOptions;
use crate::reader::owned;
use crate::reader::table;
use crate::reader::verify;
use crate::transform;
use crate::transform::DecodedView;
use crate::validation;
use crate::version::GsymVersion;
use crate::writer::finalize;
use crate::writer::image;
use crate::writer::named;
use crate::writer::options::WriterView;
use crate::writer::ordering;
use crate::writer::read_back;
use crate::writer::resolve;
use crate::writer::semantic;
use crate::writer::sound;
use crate::writer::strings;

verus! {

/// The functions of the file that a builder describes.
pub open spec fn written_model(builder: BuilderView) -> Seq<FunctionView> {
    image::final_functions(builder.options, builder.policy, builder.functions)
}

/// The bytes of the file that a builder describes.
pub open spec fn written_bytes(builder: BuilderView) -> Seq<u8> {
    image::bytes_of(builder::built(builder)->Ok_0)
}

/// Whether every string that a builder holds can be read back.
pub open spec fn is_clean(builder: BuilderView) -> bool {
    sound::files_clean(builder.files) && sound::all_clean(builder.functions)
}

/// Whether a file can be read where it was written.
spec fn file_reads(s: Seq<u8>, layout: ParsedLayout, files: Seq<FileView>, k: int) -> bool {
    table::file_of(s, layout, FileIndex(k as u32)) == Ok::<FileView, Error>(files[k])
}

proof fn lemma_file_reads(
    s: Seq<u8>,
    layout: ParsedLayout,
    entries: Seq<(u64, u64)>,
    files: Seq<FileView>,
    k: int,
)
    requires
        layout.file_count == files.len(),
        0 <= k < files.len(),
        read_back::file_placed(s, layout, entries, k),
        resolve::file_resolves(s, layout, entries[k], files[k]),
    ensures
        file_reads(s, layout, files, k),
{
}

/// Whether a function can be read where it was written.
spec fn function_reads(
    s: Seq<u8>,
    layout: ParsedLayout,
    functions: Seq<FunctionView>,
    k: int,
) -> bool {
    &&& table::address_of(s, layout, k) == Ok::<u64, Error>(functions[k].range.start)
    &&& verify::function_error(s, layout, k) is None
    &&& verify::found_of(s, layout, k) matches Ok(Some(found))
    &&& verify::decoded_of(s, layout, found.raw) == Ok::<FunctionView, Error>(functions[k])
}

/// The head and the records of a function are read where it was written.
proof fn lemma_raw_reads(
    s: Seq<u8>,
    layout: ParsedLayout,
    encoded: Seq<EncodedFunctionView>,
    k: int,
)
    requires
        s.len() <= usize::MAX,
        layout.wf(s.len()),
        0 <= k < encoded.len(),
        read_back::function_placed(s, layout, encoded, k),
    ensures
        table::address_of(s, layout, k) == Ok::<u64, Error>(encoded[k].range.start),
        table::raw_of(s, layout, k, encoded[k].range.start) matches Ok(raw) && {
            &&& raw.name == encoded[k].name
            &&& verify::encoded_of(layout, raw) == Ok::<EncodedFunctionView, Error>(encoded[k])
        },
{
    let function = encoded[k];
    let width = layout.string_offset_size;
    let endian = layout.endian;
    let part = function::function_bytes(function, width, endian)->Ok_0;
    let offset = table::function_offset_of(s, layout, k)->Ok_0;
    let data = s.subrange(offset as int, layout.function_info.end as int);
    assert(bytes::holds_at(data, 0, part)) by {
        assert(data.subrange(0, part.len() as int) =~= s.subrange(
            offset as int,
            offset + part.len(),
        ));
    }
    function::lemma_head_reads_back(data, 0, function, width, endian);
    function::law_function_round_trip(data, 0, function, width, endian);
}

proof fn lemma_function_reads(
    s: Seq<u8>,
    layout: ParsedLayout,
    encoded: Seq<EncodedFunctionView>,
    functions: Seq<FunctionView>,
    k: int,
)
    requires
        s.len() <= usize::MAX,
        layout.wf(s.len()),
        layout.address_count == functions.len(),
        encoded.len() == functions.len(),
        0 <= k < functions.len(),
        read_back::function_placed(s, layout, encoded, k),
        resolve::function_resolves(s, layout, encoded[k], functions[k], None, 0),
    ensures
        function_reads(s, layout, functions, k),
{
    let function = encoded[k];
    lemma_raw_reads(s, layout, encoded, k);
    owned::law_decode_agrees_with_verification(s, layout, function, None, 0);
    assert(owned::checked_of(s, layout, function, None, 0) is None);
    lemma_name_resolves(s, layout, function);
}

/// A function that was written shows the names of its inline calls.
proof fn lemma_shows_names(
    s: Seq<u8>,
    layout: ParsedLayout,
    encoded: Seq<EncodedFunctionView>,
    functions: Seq<FunctionView>,
    k: int,
)
    requires
        s.len() <= usize::MAX,
        layout.wf(s.len()),
        encoded.len() == functions.len(),
        0 <= k < functions.len(),
        read_back::function_placed(s, layout, encoded, k),
        resolve::function_resolves(s, layout, encoded[k], functions[k], None, 0),
        named::names_follow(encoded[k], functions[k]),
    ensures
        answers::shows_names(s, layout, k),
{
    lemma_raw_reads(s, layout, encoded, k);
    if let Some(node) = functions[k].inline {
        named::lemma_names_shown(s, layout, encoded[k].inline->0, node);
    }
}

/// The name of a function that resolves is read.
proof fn lemma_name_resolves(s: Seq<u8>, layout: ParsedLayout, function: EncodedFunctionView)
    requires
        owned::checked_of(s, layout, function, None, 0) is None,
    ensures
        table::string_of(s, layout.string_table, function.name) is Ok,
{
}

/// Functions that can all be read, in ascending order, are accepted.
proof fn lemma_functions_accepted(
    s: Seq<u8>,
    layout: ParsedLayout,
    functions: Seq<FunctionView>,
    i: int,
    previous: Option<u64>,
)
    requires
        0 <= i,
        layout.address_count == functions.len(),
        forall|k: int|
            0 <= k < functions.len() ==> #[trigger] function_reads(s, layout, functions, k),
        ordering::starts_ascend(functions),
        previous is Some ==> 0 < i <= functions.len() && previous->0 == functions[i
            - 1].range.start,
    ensures
        verify::functions_error(s, layout, i, previous) is None,
    decreases functions.len() - i,
{
    if i < functions.len() {
        assert(function_reads(s, layout, functions, i));
        if i > 0 {
            assert(functions[i - 1].range.start <= functions[i].range.start);
        }
        lemma_functions_accepted(s, layout, functions, i + 1, Some(functions[i].range.start));
    }
}

proof fn lemma_files_accepted(
    s: Seq<u8>,
    layout: ParsedLayout,
    files: Seq<FileView>,
    i: int,
)
    requires
        0 <= i,
        layout.file_count == files.len(),
        forall|k: int| 0 <= k < files.len() ==> #[trigger] file_reads(s, layout, files, k),
    ensures
        verify::file_entries_error(s, layout, i) is None,
    decreases files.len() - i,
{
    if i < files.len() {
        assert(file_reads(s, layout, files, i));
        lemma_files_accepted(s, layout, files, i + 1);
    }
}

/// What is read from a file whose tables hold what was written.
proof fn lemma_tables_read(
    s: Seq<u8>,
    layout: ParsedLayout,
    files: Seq<FileView>,
    functions: Seq<FunctionView>,
)
    requires
        validation::file_table_error(files) is None,
        sound::all_sound(functions, files.len()),
        ordering::starts_ascend(functions),
        image::written_functions(files, functions) is Ok,
        ({
            let (encoded, whole) = image::written_functions(files, functions)->Ok_0;
            read_back::tables_hold(
                s,
                layout,
                image::written_files(files).0,
                strings::table_bytes(whole),
                encoded,
            )
        }),
    ensures
        verify::verify_error(s, layout) is None,
        verify::functions_of(s, layout) == sound::cut_functions(functions),
        transform::files_of(s, layout) == sound::cut_files(files),
        layout.file_count == files.len(),
        sound::all_clean(functions) ==> forall|k: int|
            0 <= k < functions.len() ==> #[trigger] answers::shows_names(s, layout, k),
{
    let (entries, with_files) = image::written_files(files);
    let (encoded, whole) = image::written_functions(files, functions)->Ok_0;
    let read = sound::cut_functions(functions);
    let read_files = sound::cut_files(files);
    assert(strings::is_table(strings::no_strings()));
    resolve::lemma_files_grow(files, 0, strings::no_strings(), Seq::empty());
    resolve::lemma_functions_grow(functions, 0, with_files, 0, Seq::empty());
    assert(strings::grows(whole, whole)) by {
        assert(whole.subrange(0, whole.len() as int) =~= whole);
    }
    assert(resolve::strings_held(s, layout, whole));
    resolve::lemma_files_resolve(
        s,
        layout,
        files,
        0,
        strings::no_strings(),
        Seq::empty(),
        whole,
    );
    assert forall|k: int| 0 <= k < files.len() implies #[trigger] file_reads(
        s,
        layout,
        read_files,
        k,
    ) by {
        assert(read_back::file_placed(s, layout, entries, k));
        assert(resolve::file_resolves(s, layout, entries[k], sound::cut_file(files[k])));
        lemma_file_reads(s, layout, entries, read_files, k);
    }
    assert(resolve::files_resolve(s, layout, files.len())) by {
        assert forall|index: u32| index < files.len() implies (#[trigger] table::file_of(
            s,
            layout,
            FileIndex(index),
        )) is Ok by {
            assert(file_reads(s, layout, read_files, index as int));
        }
    }
    assert forall|k: int| 0 <= k < functions.len() implies sound::sound(
        #[trigger] functions[k],
        files.len(),
        None,
    ) by {}
    resolve::lemma_functions_resolve(
        s,
        layout,
        functions,
        0,
        files.len(),
        None,
        0,
        with_files,
        Seq::empty(),
        whole,
    );
    assert forall|k: int| 0 <= k < functions.len() implies {
        &&& #[trigger] function_reads(s, layout, read, k)
        &&& read[k].range == functions[k].range
    } by {
        assert(read_back::function_placed(s, layout, encoded, k));
        sound::lemma_cut_function(functions[k]);
        assert(resolve::function_resolves(s, layout, encoded[k], read[k], None, 0));
        lemma_function_reads(s, layout, encoded, read, k);
    }
    assert(ordering::starts_ascend(read)) by {
        assert forall|i: int, j: int| 0 <= i <= j < read.len() implies (
        #[trigger] read[i]).range.start <= (#[trigger] read[j]).range.start by {
            assert(function_reads(s, layout, read, i) && function_reads(s, layout, read, j));
            assert(functions[i].range.start <= functions[j].range.start);
        }
    }
    lemma_functions_accepted(s, layout, read, 0, None);
    lemma_files_accepted(s, layout, read_files, 0);
    strings::lemma_string_held(whole, 0);
    assert(whole.subrange(0, 0) =~= Seq::<Seq<u8>>::empty());
    bytes::lemma_holds_at_index(strings::table_bytes(whole), 0, whole[0] + seq![0u8], 0);
    bytes::lemma_holds_at_index(
        s,
        layout.string_table.start as int,
        strings::table_bytes(whole),
        0,
    );
    assert(file_reads(s, layout, read_files, 0));
    assert(sound::is_clean(files[0].directory) && sound::is_clean(files[0].basename));
    sound::lemma_clean_stays(files[0].directory);
    sound::lemma_clean_stays(files[0].basename);
    assert(verify::functions_of(s, layout) =~= read) by {
        assert forall|k: int| 0 <= k < functions.len() implies verify::functions_of(s, layout)[k]
            == read[k] by {
            assert(function_reads(s, layout, read, k));
        }
    }
    named::lemma_functions_named(functions, 0, with_files, 0, Seq::empty());
    if sound::all_clean(functions) {
        sound::lemma_clean_functions_stay(functions);
        assert forall|k: int| 0 <= k < functions.len() implies #[trigger] answers::shows_names(
            s,
            layout,
            k,
        ) by {
            assert(read_back::function_placed(s, layout, encoded, k));
            assert(resolve::function_resolves(s, layout, encoded[k], read[k], None, 0));
            lemma_shows_names(s, layout, encoded, functions, k);
        }
    }
    assert(transform::files_of(s, layout) =~= read_files) by {
        assert forall|k: int| 0 <= k < files.len() implies transform::files_of(s, layout)[k]
            == read_files[k] by {
            assert(file_reads(s, layout, read_files, k));
        }
    }
}

/// What is read from a file with the given files and functions.
pub open spec fn reads_as(
    s: Seq<u8>,
    native: Endian,
    writer: WriterView,
    files: Seq<FileView>,
    functions: Seq<FunctionView>,
) -> bool {
    &&& layout::parsed(s, native) matches Ok(layout)
    &&& layout.address_count == functions.len()
    &&& layout.file_count == files.len()
    &&& layout.address_offset_size == image::offset_width(writer, functions)
    &&& layout.version == writer.version
    &&& layout.endian == writer.endian
    &&& layout.base_address == image::base_of(writer, functions)
    &&& gsym::build_id_of(s, layout) == writer.build_id
    &&& verify::verify_error(s, layout) is None
    &&& verify::functions_of(s, layout) == sound::cut_functions(functions)
    &&& transform::files_of(s, layout) == sound::cut_files(files)
    &&& sound::all_clean(functions) ==> forall|k: int|
        0 <= k < functions.len() ==> #[trigger] answers::shows_names(s, layout, k)
}

/// What is read from a file with functions as they are written.
pub proof fn lemma_final_file(
    writer: WriterView,
    files: Seq<FileView>,
    functions: Seq<FunctionView>,
    native: Endian,
)
    requires
        validation::file_table_error(files) is None,
        sound::all_sound(functions, files.len()),
        ordering::starts_ascend(functions),
        image::finalized_image(writer, files, functions) is Ok,
        image::bytes_of(image::finalized_image(writer, files, functions)->Ok_0).len()
            <= usize::MAX,
    ensures
        reads_as(
            image::bytes_of(image::finalized_image(writer, files, functions)->Ok_0),
            native,
            writer,
            files,
            functions,
        ),
{
    let s = image::bytes_of(image::finalized_image(writer, files, functions)->Ok_0);
    let base = image::base_of(writer, functions);
    let width = image::offset_width(writer, functions);
    let (encoded, whole) = image::written_functions(files, functions)->Ok_0;
    let entries = image::written_files(files).0;
    assert(strings::is_table(strings::no_strings()));
    resolve::lemma_files_grow(files, 0, strings::no_strings(), Seq::empty());
    resolve::lemma_functions_grow(
        functions,
        0,
        image::written_files(files).1,
        0,
        Seq::empty(),
    );
    let table = strings::table_bytes(whole);
    strings::lemma_string_held(whole, 0);
    assert(whole.subrange(0, 0) =~= Seq::<Seq<u8>>::empty());
    bytes::lemma_holds_at_index(table, 0, whole[0] + seq![0u8], 0);
    lemma_encoded_count(files, functions);
    reveal(image::tables_image);
    match writer.version {
        GsymVersion::V1 => read_back::lemma_v1_reads_back(
            writer.endian,
            writer.build_id,
            base,
            width,
            entries,
            table,
            encoded,
            native,
        ),
        GsymVersion::V2 => read_back::lemma_v2_reads_back(
            writer.endian,
            writer.build_id,
            base,
            width,
            entries,
            table,
            encoded,
            native,
        ),
    }
    let layout = layout::parsed(s, native)->Ok_0;
    lemma_tables_read(s, layout, files, functions);
}

/// What is read from a file that was written.
proof fn lemma_written_file(builder: BuilderView, native: Endian)
    requires
        builder::built(builder) is Ok,
        written_bytes(builder).len() <= usize::MAX,
    ensures
        reads_as(
            written_bytes(builder),
            native,
            builder.options.writer,
            builder.files,
            written_model(builder),
        ),
{
    let files = builder.files;
    let options = builder.options;
    let functions = written_model(builder);
    sound::lemma_valid_are_sound(builder.functions, 0, files.len(), None, 0);
    sound::lemma_finalized_sound(
        builder.functions,
        files.len(),
        options.executable_ranges,
        options.repair_zero_sized_functions,
        builder.policy,
    );
    assert forall|i: int| 0 <= i < builder.functions.len() implies (
    #[trigger] builder.functions[i]).range.start <= builder.functions[i].range.end by {
        assert(sound::sound(builder.functions[i], files.len(), None));
    }
    finalize::law_finalized_functions_ascend(
        builder.functions,
        options.executable_ranges,
        options.repair_zero_sized_functions,
        builder.policy,
    );
    assert(ordering::starts_ascend(functions)) by {
        assert forall|i: int, j: int| 0 <= i <= j < functions.len() implies (
        #[trigger] functions[i]).range.start <= (#[trigger] functions[j]).range.start by {
            if i < j {
                assert(!finalize::comes_before(functions[j].range, functions[i].range));
            }
        }
    }
    lemma_final_file(options.writer, files, functions, native);
}

proof fn lemma_written_clean(builder: BuilderView)
    requires
        sound::all_clean(builder.functions),
    ensures
        sound::all_clean(written_model(builder)),
        sound::cut_functions(written_model(builder)) == written_model(builder),
{
    sound::lemma_finalized_clean(
        builder.functions,
        builder.options.executable_ranges,
        builder.options.repair_zero_sized_functions,
        builder.policy,
    );
    sound::lemma_clean_functions_stay(written_model(builder));
}

/// Whatever is written, for either version and byte order, is a file that is
/// parsed and that verification accepts, with as many functions and files as
/// were written.
pub proof fn law_written_file_verifies(builder: BuilderView, native: Endian)
    requires
        builder::built(builder) is Ok,
        written_bytes(builder).len() <= usize::MAX,
    ensures
        ({
            let s = written_bytes(builder);
            &&& layout::parsed(s, native) matches Ok(layout)
            &&& verify::verify_error(s, layout) is None
            &&& layout.address_count == written_model(builder).len()
            &&& layout.file_count == builder.files.len()
        }),
{
    lemma_written_file(builder, native);
}

/// The file table of a file that was written is read back, whatever the strings
/// of the functions are: each index leads to its file, not normalized, and an
/// index behind the last is refused. Names with a NUL in them are left out: a
/// string ends at the first NUL when it is read.
pub proof fn law_written_files_read_back(builder: BuilderView, native: Endian, index: FileIndex)
    requires
        builder::built(builder) is Ok,
        written_bytes(builder).len() <= usize::MAX,
        sound::files_clean(builder.files),
    ensures
        ({
            let s = written_bytes(builder);
            &&& layout::parsed(s, native) matches Ok(layout)
            &&& layout.file_count == builder.files.len()
            &&& transform::files_of(s, layout) == builder.files
            &&& table::file_of(s, layout, index) == if index.0 < builder.files.len() {
                Ok::<FileView, Error>(builder.files[index.0 as int])
            } else {
                Err(
                    Error::OutOfRange {
                        field: "file index",
                        value: index.0 as u64,
                        max: (builder.files.len() - 1) as u64,
                    },
                )
            }
        }),
{
    lemma_written_file(builder, native);
    sound::lemma_clean_files_stay(builder.files);
    let s = written_bytes(builder);
    let layout = layout::parsed(s, native)->Ok_0;
    if index.0 < builder.files.len() {
        verify::law_verified_files(s, layout, index.0);
        assert(transform::files_of(s, layout)[index.0 as int] == builder.files[index.0 as int]);
        assert(FileIndex((index.0 as int) as u32) == index);
    }
}

/// A file that was written is read back: its version, byte order, base address
/// and build identifier are the ones that were asked for, verification accepts
/// it, and decoding it gives the files of the builder and the functions as they
/// were finalized. A string that holds a NUL is read up to the first one.
pub proof fn law_written_file_reads_back(builder: BuilderView, native: Endian)
    requires
        builder::built(builder) is Ok,
        written_bytes(builder).len() <= usize::MAX,
    ensures
        ({
            let s = written_bytes(builder);
            let writer = builder.options.writer;
            let functions = written_model(builder);
            &&& layout::parsed(s, native) matches Ok(layout)
            &&& layout.address_count == functions.len()
            &&& layout.address_offset_size == image::offset_width(writer, functions)
            &&& transform::decoded(s, layout) == Ok::<DecodedView, Error>(
                DecodedView {
                    source_version: writer.version,
                    source_endian: writer.endian,
                    base_address: image::base_of(writer, functions),
                    build_id: writer.build_id,
                    files: sound::cut_files(builder.files),
                    functions: sound::cut_functions(functions),
                },
            )
        }),
        is_clean(builder) ==> sound::cut_files(builder.files) == builder.files
            && sound::cut_functions(written_model(builder)) == written_model(builder),
{
    lemma_written_file(builder, native);
    if is_clean(builder) {
        lemma_written_clean(builder);
        sound::lemma_clean_files_stay(builder.files);
    }
}

/// A lookup in a file that was written does not fail. It finds the function
/// that answers for the address among those that were written, and tells of it
/// what was written; where none answers, it finds nothing. Strings with a NUL in
/// them are left out: a string ends at the first NUL when it is read.
pub proof fn law_written_file_answers(
    builder: BuilderView,
    native: Endian,
    address: u64,
    options: LookupOptions,
)
    requires
        builder::built(builder) is Ok,
        written_bytes(builder).len() <= usize::MAX,
        is_clean(builder),
    ensures
        ({
            let s = written_bytes(builder);
            let functions = written_model(builder);
            let found = lookup::looked_up(s, layout::parsed(s, native)->Ok_0, address, options);
            &&& layout::parsed(s, native) is Ok
            &&& forall|k: int| #[trigger]
                answers::is_answer(functions, address, k) ==> found == Ok::<
                    Option<LookupView>,
                    Error,
                >(Some(answers::answer_of(functions[k], builder.files, address, options)))
            &&& (forall|k: int| !answers::is_answer(functions, address, k)) ==> found == Ok::<
                Option<LookupView>,
                Error,
            >(None)
        }),
{
    lemma_written_file(builder, native);
    lemma_written_clean(builder);
    sound::lemma_clean_files_stay(builder.files);
    let s = written_bytes(builder);
    let layout = layout::parsed(s, native)->Ok_0;
    answers::law_lookup_tells_the_model(s, layout, address, options);
}

/// As many functions are encoded as there are.
proof fn lemma_encoded_count(files: Seq<FileView>, functions: Seq<FunctionView>)
    requires
        image::written_functions(files, functions) is Ok,
    ensures
        image::written_functions(files, functions)->Ok_0.0.len() == functions.len(),
{
    lemma_encoded_len(functions, 0, image::written_files(files).1, 0, Seq::empty());
}

proof fn lemma_encoded_len(
    functions: Seq<FunctionView>,
    i: int,
    before: Seq<Seq<u8>>,
    depth: nat,
    done: Seq<EncodedFunctionView>,
)
    requires
        0 <= i <= functions.len(),
        done.len() == i,
    ensures
        semantic::functions_encoded(functions, i, before, depth, done) matches Ok((encoded, _))
            ==> encoded.len() == functions.len(),
    decreases functions.len() - i,
{
    if i < functions.len() {
        if let Ok((one, next)) = semantic::function_encoded(functions[i], before, depth) {
            lemma_encoded_len(functions, i + 1, next, depth, done.push(one));
        }
    }
}

} // verus!
