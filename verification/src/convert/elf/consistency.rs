//! Laws on what a conversion starts with.
use vstd::prelude::*;

use crate::builder;
use crate::convert::elf::accepted;
use crate::convert::elf::converter;
use crate::convert::elf::converter::{ConversionRules, SharedInputs};
use crate::convert::elf::discovery;
use crate::convert::elf::distinct;
use crate::convert::elf::image;
use crate::convert::elf::object_file;
use crate::convert::elf::object_file::ObjectKind;
use crate::convert::elf::options::InputsView;
use crate::convert::elf::placement;
use crate::convert::elf::symbols;
use crate::endian::Endian;
use crate::error::ErrorView;
use crate::model;
use crate::model::AddressRange;

verus! {

/// Whether a companion is for the machine of an image, and has its build
/// identifier where both have one.
pub open spec fn belongs_to(image: Seq<u8>, companion: Seq<u8>) -> bool {
    &&& is_for_machine_of(image, companion)
    &&& object_file::object_build_id(image) matches Ok(Some(id)) ==> (object_file::object_build_id(
        companion,
    ) matches Ok(Some(other)) ==> other == id)
}

/// Whether an image and a companion are ELF files for one machine.
pub open spec fn is_for_machine_of(image: Seq<u8>, companion: Seq<u8>) -> bool {
    &&& object_file::object_header(image) matches Ok(own)
    &&& object_file::object_header(companion) matches Ok(other)
    &&& own.elf
    &&& other.elf
    &&& other.architecture == own.architecture
    &&& other.is_64 == own.is_64
    &&& other.little_endian == own.little_endian
}

/// A conversion goes on only with companions that belong to the image: a debug file
/// and a file of symbols for its machine and with its build identifier, and a
/// package for its machine.
pub proof fn law_companions_belong_to_the_image(
    rules: ConversionRules,
    inputs: InputsView,
    unpacked: Result<Option<Seq<u8>>, ErrorView>,
    shared: SharedInputs,
)
    ensures
        converter::prepared(rules, inputs, unpacked, shared) is Ok ==> {
            &&& inputs.debug matches Some(debug) ==> belongs_to(inputs.image, debug)
            &&& inputs.symbols matches Some(symbols) ==> (rules.symbols ==> belongs_to(
                inputs.image,
                symbols,
            ))
            &&& inputs.dwp matches Some(dwp) ==> is_for_machine_of(inputs.image, dwp)
        },
{
}

/// The builder of a conversion has the byte order of the image, its build
/// identifier or none, and the lowest start of its executable ranges as the base
/// address. The ranges are those of the layout, and nothing else is imported yet
/// but functions of symbols.
pub proof fn law_conversions_start_with_the_image(
    rules: ConversionRules,
    inputs: InputsView,
    unpacked: Result<Option<Seq<u8>>, ErrorView>,
    shared: SharedInputs,
)
    ensures
        converter::prepared(rules, inputs, unpacked, shared) matches Ok(start) ==> {
            let options = start.state.builder.options;
            &&& object_file::object_header(inputs.image) matches Ok(header)
            &&& image::image_layout(
                object_file::object_sections(inputs.image),
                header.kind == ObjectKind::Relocatable,
            ) matches Ok(layout)
            &&& start.layout == layout
            &&& start.rules.executable == layout.ranges
            &&& options.executable_ranges == layout.ranges
            &&& options.writer.version == rules.writer.version
            &&& options.writer.endian == if header.little_endian {
                Endian::Little
            } else {
                Endian::Big
            }
            &&& options.writer.build_id == (match object_file::object_build_id(inputs.image) {
                Ok(Some(id)) => id,
                _ => Seq::empty(),
            })
            &&& options.writer.base_address matches Some(base) && (exists|r: int|
                0 <= r < layout.ranges.len() && (#[trigger] layout.ranges[r]).start == base)
                && forall|r: int|
                0 <= r < layout.ranges.len() ==> base <= (#[trigger] layout.ranges[r]).start
            &&& start.state.builder.files == builder::empty_builder().files
            &&& !rules.symbols ==> start.state.builder.functions.len() == 0
            &&& start.state.builder.functions.len() <= usize::MAX
                ==> start.state.stats.symbol_functions == start.state.builder.functions.len()
            &&& start.state.stats.dwarf_functions == 0 && start.state.stats.line_rows == 0
                && start.state.stats.inline_nodes == 0 && start.state.stats.split_dwarf_units == 0
            &&& start.rules.inlines <==> (rules.dwarf matches Some(dwarf) && dwarf.inline_info)
            &&& start.rules.call_sites <==> (rules.dwarf matches Some(dwarf) && dwarf.call_sites)
        },
{
    if let Ok(start) = converter::prepared(rules, inputs, unpacked, shared) {
        let header = object_file::object_header(inputs.image)->Ok_0;
        let sections = object_file::object_sections(inputs.image);
        let relocatable = header.kind == ObjectKind::Relocatable;
        let layout = image::image_layout(sections, relocatable)->Ok_0;
        let given = image::layout_of(sections, relocatable).ranges;
        placement::lemma_sorted_ranges(given);
        assert forall|r: int| 0 <= r < layout.ranges.len() implies layout.ranges[0].start <= (
        #[trigger] layout.ranges[r]).start by {
            assert(model::range_at_most(layout.ranges[0], layout.ranges[r]));
        }
        assert(layout.ranges[0].start == layout.ranges[0].start);
    }
}

/// Whether what is said of inputs being one is true of their bytes.
pub open spec fn is_truly_shared(
    inputs: InputsView,
    embedded: Option<Seq<u8>>,
    shared: SharedInputs,
) -> bool {
    let debug = converter::debug_bytes(inputs, embedded);
    &&& shared.symbols_debug ==> inputs.symbols == Some(debug)
    &&& shared.symbols_image ==> inputs.symbols == Some(inputs.image)
    &&& shared.debug_image ==> debug == inputs.image
}

/// Whether a file is one whose symbols are read: the given one, the debug file, which
/// is the given one or else the one that the image holds, and the image.
pub open spec fn is_symbol_file(
    inputs: InputsView,
    embedded: Option<Seq<u8>>,
    file: Seq<u8>,
) -> bool {
    ||| inputs.symbols == Some(file)
    ||| inputs.debug == Some(file)
    ||| inputs.debug is None && embedded == Some(file)
    ||| file == inputs.image
}

/// The functions that a conversion has from symbols are those that a symbol of one
/// of its files stands for and that lie in one executable range. The files are the
/// one that is given for symbols, the debug file and the image.
pub proof fn law_symbols_of_all_files_are_imported(
    rules: ConversionRules,
    inputs: InputsView,
    unpacked: Result<Option<Seq<u8>>, ErrorView>,
    shared: SharedInputs,
)
    requires
        rules.symbols,
        converter::prepared(rules, inputs, unpacked, shared) matches Ok(start) ==> is_truly_shared(
            inputs,
            start.embedded,
            shared,
        ),
    ensures
        converter::prepared(rules, inputs, unpacked, shared) matches Ok(start) ==> {
            let functions = start.state.builder.functions;
            &&& forall|k: int|
                0 <= k < functions.len() ==> (#[trigger] functions[k]) == model::plain_function(
                    functions[k].range,
                    functions[k].name,
                )
            &&& forall|range: AddressRange, name: Seq<u8>|
                (exists|k: int|
                    0 <= k < functions.len() && (#[trigger] functions[k]).range == range
                        && functions[k].name == name) <==> (#[trigger] has_symbol_file(
                    inputs,
                    start.embedded,
                    start.layout,
                    range,
                    name,
                ) && accepted::is_executable(start.layout, range))
        },
{
    if let Ok(start) = converter::prepared(rules, inputs, unpacked, shared) {
        let files = converter::symbol_files(inputs, start.embedded, shared);
        let functions = start.state.builder.functions;
        let import = distinct::imported(files, start.layout);
        accepted::law_symbols_in_code_become_functions(files, start.layout);
        assert(functions =~= distinct::plain_functions(import.functions));
        lemma_symbol_files(inputs, start.embedded, shared);
        assert forall|range: AddressRange, name: Seq<u8>|
            (exists|k: int|
                0 <= k < functions.len() && (#[trigger] functions[k]).range == range
                    && functions[k].name == name) <==> (#[trigger] has_symbol_file(
                inputs,
                start.embedded,
                start.layout,
                range,
                name,
            ) && accepted::is_executable(start.layout, range)) by {
            let held = import.functions.contains((range, name));
            if exists|k: int|
                0 <= k < functions.len() && (#[trigger] functions[k]).range == range
                    && functions[k].name == name {
                let k = choose|k: int|
                    0 <= k < functions.len() && (#[trigger] functions[k]).range == range
                        && functions[k].name == name;
                assert(import.functions[k] == (range, name));
                assert(held);
            }
            if held {
                let k = choose|k: int|
                    0 <= k < import.functions.len() && import.functions[k] == (range, name);
                assert(functions[k].range == range && functions[k].name == name);
            }
            lemma_has_symbol_file(inputs, start.embedded, shared, start.layout, range, name);
        }
    }
}

/// Whether a symbol of one of the files of a conversion stands for a function.
pub open spec fn has_symbol_file(
    inputs: InputsView,
    embedded: Option<Seq<u8>>,
    layout: image::LayoutView,
    range: AddressRange,
    name: Seq<u8>,
) -> bool {
    exists|file: Seq<u8>| #[trigger]
        is_symbol_file(inputs, embedded, file) && accepted::is_symbol_of(
            seq![file],
            layout,
            1,
            range,
            name,
        )
}

proof fn lemma_symbol_files(
    inputs: InputsView,
    embedded: Option<Seq<u8>>,
    shared: SharedInputs,
)
    requires
        is_truly_shared(inputs, embedded, shared),
    ensures
        forall|file: Seq<u8>| #[trigger]
            is_symbol_file(inputs, embedded, file) <==> converter::symbol_files(
                inputs,
                embedded,
                shared,
            ).contains(file),
{
    let files = converter::symbol_files(inputs, embedded, shared);
    let separate = inputs.debug is Some || embedded is Some;
    let from_symbols = match inputs.symbols {
        Some(symbols) => seq![symbols],
        None => Seq::empty(),
    };
    let from_debug = if separate && !(inputs.symbols is Some && shared.symbols_debug) {
        seq![converter::debug_bytes(inputs, embedded)]
    } else {
        Seq::empty()
    };
    let from_image = if (inputs.symbols is Some && shared.symbols_image) || (separate
        && shared.debug_image) {
        Seq::empty()
    } else {
        seq![inputs.image]
    };
    assert(files == from_symbols + from_debug + from_image);
    assert forall|file: Seq<u8>| #[trigger]
        is_symbol_file(inputs, embedded, file) <==> files.contains(file) by {
        if from_symbols.contains(file) {
            let i = choose|i: int| 0 <= i < from_symbols.len() && from_symbols[i] == file;
            assert(files[i] == file);
        }
        if from_debug.contains(file) {
            let i = choose|i: int| 0 <= i < from_debug.len() && from_debug[i] == file;
            assert(files[from_symbols.len() + i] == file);
        }
        if from_image.contains(file) {
            let i = choose|i: int| 0 <= i < from_image.len() && from_image[i] == file;
            assert(files[from_symbols.len() + from_debug.len() + i] == file);
        }
        if inputs.symbols == Some(file) {
            assert(from_symbols[0] == file);
        }
        if separate && converter::debug_bytes(inputs, embedded) == file && !(inputs.symbols is Some
            && shared.symbols_debug) {
            assert(from_debug[0] == file);
        }
        if from_image.len() > 0 {
            assert(from_image[0] == inputs.image);
        }
        if files.contains(file) {
            let i = choose|i: int| 0 <= i < files.len() && files[i] == file;
        }
    }
}

proof fn lemma_has_symbol_file(
    inputs: InputsView,
    embedded: Option<Seq<u8>>,
    shared: SharedInputs,
    layout: image::LayoutView,
    range: AddressRange,
    name: Seq<u8>,
)
    requires
        is_truly_shared(inputs, embedded, shared),
    ensures
        ({
            let files = converter::symbol_files(inputs, embedded, shared);
            has_symbol_file(inputs, embedded, layout, range, name) <==> accepted::is_symbol_of(
                files,
                layout,
                files.len(),
                range,
                name,
            )
        }),
{
    let files = converter::symbol_files(inputs, embedded, shared);
    lemma_symbol_files(inputs, embedded, shared);
    if has_symbol_file(inputs, embedded, layout, range, name) {
        let file = choose|file: Seq<u8>| #[trigger]
            is_symbol_file(inputs, embedded, file) && accepted::is_symbol_of(
                seq![file],
                layout,
                1,
                range,
                name,
            );
        let one = seq![file];
        let (z, s) = choose|z: int, s: int|
            0 <= z < 1 && 0 <= s < symbols::all_symbols(one[z]).len()
                && #[trigger] accepted::stands_for(
                one[z],
                layout,
                symbols::all_symbols(one[z])[s],
                range,
                name,
            );
        assert(one[z] == file);
        assert(files.contains(file));
        let f = choose|f: int| 0 <= f < files.len() && files[f] == file;
        assert(accepted::stands_for(
            files[f],
            layout,
            symbols::all_symbols(files[f])[s],
            range,
            name,
        ));
    }
    if accepted::is_symbol_of(files, layout, files.len(), range, name) {
        let (f, s) = choose|f: int, s: int|
            0 <= f < files.len() && 0 <= s < symbols::all_symbols(
                files[f],
            ).len() && #[trigger] accepted::stands_for(
                files[f],
                layout,
                symbols::all_symbols(files[f])[s],
                range,
                name,
            );
        let file = files[f];
        let one = seq![file];
        assert(files.contains(file));
        assert(is_symbol_file(inputs, embedded, file));
        assert(accepted::stands_for(
            one[0],
            layout,
            symbols::all_symbols(one[0])[s],
            range,
            name,
        ));
        assert(accepted::is_symbol_of(one, layout, 1, range, name));
    }
}

/// The debug file that an image holds is used where no debug file is given, something is
/// to be imported, and it belongs to the image.
pub proof fn law_embedded_files_are_used_where_none_is_given(
    rules: ConversionRules,
    inputs: InputsView,
    maximum_size: u64,
    shared: SharedInputs,
)
    ensures
        ({
            let unpacked = converter::held_data(rules, inputs, maximum_size);
            let wanted = inputs.debug is None && (rules.symbols || rules.dwarf is Some);
            &&& !wanted ==> unpacked == Ok::<Option<Seq<u8>>, ErrorView>(None)
            &&& converter::prepared(rules, inputs, unpacked, shared) matches Ok(start) ==> {
                &&& start.embedded matches Some(bytes) ==> {
                    &&& wanted
                    &&& discovery::unpacked_data(inputs.image, maximum_size) == Ok::<
                        Option<Seq<u8>>,
                        ErrorView,
                    >(Some(bytes))
                    &&& belongs_to(inputs.image, bytes)
                }
                &&& wanted ==> (discovery::unpacked_data(
                    inputs.image,
                    maximum_size,
                ) matches Ok(Some(bytes)) ==> (belongs_to(inputs.image, bytes)
                    && object_file::object_build_id(inputs.image) is Ok
                    && object_file::object_build_id(bytes) is Ok ==> start.embedded == Some(
                    bytes,
                )))
            }
        }),
{
}

} // verus!
