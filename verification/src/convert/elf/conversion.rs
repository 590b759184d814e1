//! Conversion of an image from its bytes to a report.
use vstd::prelude::*;
use vstd::string::*;

use crate::convert::dwarf::debug_info;
use crate::convert::dwarf::debug_info::{
    DebugFilesView, DebugSections, SectionsView, SplitObject,
};
use crate::convert::dwarf::import::ImportView;
use crate::convert::dwarf::units;
use crate::convert::dwarf::units::DebugInfo;
use crate::convert::elf::converter;
use crate::convert::elf::converter::{
    ConversionReport, ConversionRules, ElfConverter, PreparedConversion, PreparedView,
    SharedInputs,
};
use crate::convert::elf::object_file;
use crate::convert::elf::object_file::{parse_elf, ObjectFile};
use crate::convert::elf::options::{ElfInputs, InputsView};
use crate::error::{ElfInputKind, Error, ErrorView};

verus! {

/// The error of the files that hold an image's DWARF data.
pub open spec fn debug_files_error(
    inputs: InputsView,
    embedded: Option<Seq<u8>>,
) -> Option<ErrorView> {
    match object_file::parse_error(
        object_file::object_header(converter::debug_bytes(inputs, embedded)),
        ElfInputKind::Debug,
        true,
    ) {
        Some(error) => Some(error),
        None => match converter::optional_input_error(
            inputs.supplementary,
            ElfInputKind::Supplementary,
        ) {
            Some(error) => Some(error),
            None => converter::optional_input_error(inputs.dwp, ElfInputKind::Dwp),
        },
    }
}

/// Whether the sections of a conversion's DWARF data may be loaded as `outcome`
/// says.
pub open spec fn may_load_inputs(
    prepared: PreparedView,
    inputs: InputsView,
    outcome: Result<SectionsView, ErrorView>,
) -> bool {
    match debug_files_error(inputs, prepared.embedded) {
        Some(error) => outcome == Err::<SectionsView, ErrorView>(error),
        None => debug_info::may_load_debug(
            DebugFilesView {
                debug: converter::debug_bytes(inputs, prepared.embedded),
                supplementary: inputs.supplementary,
                package: inputs.dwp,
            },
            prepared.layout,
            outcome,
        ),
    }
}

/// What an import has come to, or its error.
pub open spec fn import_outcome(state: ImportView) -> Result<ImportView, ErrorView> {
    match state.error {
        Some(error) => Err(error),
        None => Ok(state),
    }
}

/// Whether the DWARF data in some sections is imported as `outcome` says.
pub open spec fn is_imported(
    prepared: PreparedView,
    sections: SectionsView,
    objects: Seq<SplitObject>,
    outcome: Result<ImportView, ErrorView>,
) -> bool {
    exists|info: DebugInfo|
        {
            &&& debug_info::says_info(info, sections, objects)
            &&& outcome == import_outcome(
                #[trigger] units::imported(prepared.rules, info, prepared.state),
            )
        }
}

/// Whether inputs may be converted as `outcome` says, given the debug file that
/// the image holds and which inputs are one and the same. No individual split
/// files are looked for.
pub open spec fn may_convert(
    rules: ConversionRules,
    inputs: InputsView,
    unpacked: Result<Option<Seq<u8>>, ErrorView>,
    shared: SharedInputs,
    outcome: Result<ImportView, ErrorView>,
) -> bool {
    match converter::prepared(rules, inputs, unpacked, shared) {
        Err(error) => outcome == Err::<ImportView, ErrorView>(error),
        Ok(prepared) => if rules.dwarf is None {
            outcome == Ok::<ImportView, ErrorView>(prepared.state)
        } else {
            exists|loaded: Result<SectionsView, ErrorView>|
                {
                    &&& #[trigger] may_load_inputs(prepared, inputs, loaded)
                    &&& match loaded {
                        Err(error) => outcome == Err::<ImportView, ErrorView>(error),
                        Ok(sections) => is_imported(prepared, sections, Seq::empty(), outcome),
                    }
                }
        },
    }
}

/// Whether inputs may be one and the same as told: they hold the same bytes.
pub open spec fn may_be_shared(inputs: InputsView, shared: SharedInputs) -> bool {
    &&& shared.symbols_debug ==> inputs.symbols is Some && inputs.symbols == inputs.debug
    &&& shared.symbols_image ==> inputs.symbols == Some(inputs.image)
    &&& shared.debug_image ==> inputs.debug == Some(inputs.image)
}

/// Whether a report, or an error, is what a conversion has come to.
pub open spec fn concludes<P>(
    result: Result<ConversionReport<P>, Error>,
    outcome: Result<ImportView, ErrorView>,
) -> bool {
    match outcome {
        Ok(state) => result matches Ok(report) && report.builder.wf() && converter::reports(
            report,
            state,
        ),
        Err(view) => result matches Err(error) && error@ == view,
    }
}

/// Calls `std::ptr::eq`, which tells whether two references point to the same
/// memory; slices then hold the same bytes. Where they lie rests on the machine,
/// so nothing more is stated.
#[verifier::external_body]
fn is_same_slice(one: &[u8], other: &[u8]) -> (same: bool)
    ensures
        same ==> one@ == other@,
{
    std::ptr::eq(one, other)
}

/// Tells which inputs are one and the same.
pub fn shared_inputs(inputs: &ElfInputs<'_>) -> (shared: SharedInputs)
    ensures
        may_be_shared(inputs@, shared),
{
    let symbols_debug: bool = match (inputs.symbols, inputs.debug) {
        (Some(symbols), Some(debug)) => is_same_slice(symbols, debug),
        _ => false,
    };
    let symbols_image: bool = match inputs.symbols {
        Some(symbols) => is_same_slice(symbols, inputs.image),
        None => false,
    };
    let debug_image: bool = match inputs.debug {
        Some(debug) => is_same_slice(debug, inputs.image),
        None => false,
    };
    SharedInputs { symbols_debug, symbols_image, debug_image }
}

fn parse_optional<'data>(input: Option<&'data [u8]>, kind: ElfInputKind) -> (result: Result<
    Option<ObjectFile<'data>>,
    Error,
>)
    ensures
        match converter::optional_input_error(
            crate::convert::elf::options::input_bytes(input),
            kind,
        ) {
            Some(view) => result matches Err(error) && error@ == view,
            None => match input {
                Some(bytes) => result matches Ok(Some(file)) && file@ == bytes@,
                None => result matches Ok(None),
            },
        },
{
    match input {
        Some(bytes) => Ok(Some(parse_elf(bytes, kind)?)),
        None => Ok(None),
    }
}

impl PreparedConversion {
    /// Loads the sections that hold the DWARF data of a conversion's inputs.
    pub fn debug_sections(&self, inputs: &ElfInputs<'_>) -> (result: Result<DebugSections, Error>)
        ensures
            may_load_inputs(self@, inputs@, debug_info::sections_outcome(result)),
    {
        let debug: &[u8] = match inputs.debug {
            Some(debug) => debug,
            None => match self.embedded() {
                Some(bytes) => bytes.as_slice(),
                None => inputs.image,
            },
        };
        let debug_file = parse_elf(debug, ElfInputKind::Debug)?;
        let supplementary = parse_optional(inputs.supplementary, ElfInputKind::Supplementary)?;
        let package = parse_optional(inputs.dwp, ElfInputKind::Dwp)?;
        DebugSections::load(&debug_file, supplementary.as_ref(), package.as_ref(), self.layout())
    }

    /// Imports the DWARF data in some sections, and returns the finished report.
    /// `objects` holds the individual split files of the units, in order.
    pub fn import_sections<P>(self, sections: &DebugSections, objects: &Vec<SplitObject>) -> (result:
        Result<ConversionReport<P>, Error>)
        ensures
            exists|outcome: Result<ImportView, ErrorView>|
                is_imported(self@, sections@, objects@, outcome) && #[trigger] concludes(
                    result,
                    outcome,
                ),
    {
        let info = sections.read(objects);
        let ghost outcome = import_outcome(units::imported(self@.rules, info, self@.state));
        let ghost prepared = self@;
        let result = self.import(&info);
        assert(is_imported(prepared, sections@, objects@, outcome));
        assert(concludes(result, outcome));
        result
    }
}

impl<P> ElfConverter<P> {
    /// Converts linked ELF image/debug inputs into a GSYM builder.
    ///
    /// Companions are cross-checked against the image, so a debug or symbol
    /// file from a different architecture or build is rejected. Split data is
    /// taken from the package; individual split files are not looked for.
    ///
    /// # Errors
    ///
    /// Returns an error for malformed inputs, incompatible companion files,
    /// invalid DWARF, or unrepresentable GSYM records.
    pub fn convert(&self, inputs: &ElfInputs<'_>) -> (result: Result<ConversionReport<P>, Error>)
        ensures
            exists|shared: SharedInputs, outcome: Result<ImportView, ErrorView>|
                may_be_shared(inputs@, shared) && #[trigger] may_convert(
                    self.rules(),
                    inputs@,
                    converter::held_data(
                        self.rules(),
                        inputs@,
                        self.spec_options().gnu_debugdata_max_decompressed_size,
                    ),
                    shared,
                    outcome,
                ) && concludes(result, outcome),
    {
        let unpacked = self.embedded_debug_data(inputs);
        let ghost usable = converter::held_data(
            self.rules(),
            inputs@,
            self.spec_options().gnu_debugdata_max_decompressed_size,
        );
        let shared = shared_inputs(inputs);
        let ghost view = converter::prepared(self.rules(), inputs@, usable, shared);
        let prepared = match self.prepare(inputs, unpacked, shared) {
            Ok(prepared) => prepared,
            Err(error) => {
                let ghost outcome = Err::<ImportView, ErrorView>(error@);
                assert(may_convert(self.rules(), inputs@, usable, shared, outcome));
                let result = Err::<ConversionReport<P>, Error>(error);
                assert(concludes(result, outcome));
                return result;
            },
        };
        if self.options().dwarf.is_none() {
            let ghost outcome = Ok::<ImportView, ErrorView>(prepared@.state);
            assert(may_convert(self.rules(), inputs@, usable, shared, outcome));
            let result = Ok::<ConversionReport<P>, Error>(prepared.finish());
            assert(concludes(result, outcome));
            return result;
        }
        let loaded = prepared.debug_sections(inputs);
        assert(may_load_inputs(prepared@, inputs@, debug_info::sections_outcome(loaded)));
        match loaded {
            Err(error) => {
                let ghost outcome = Err::<ImportView, ErrorView>(error@);
                assert(may_convert(self.rules(), inputs@, usable, shared, outcome));
                let result = Err::<ConversionReport<P>, Error>(error);
                assert(concludes(result, outcome));
                result
            },
            Ok(sections) => {
                let objects: Vec<SplitObject> = Vec::new();
                assert(objects@ =~= Seq::<SplitObject>::empty());
                let ghost before = prepared@;
                let result: Result<ConversionReport<P>, Error> = prepared.import_sections(
                    &sections,
                    &objects,
                );
                proof {
                    let outcome = choose|outcome: Result<ImportView, ErrorView>|
                        is_imported(before, sections@, objects@, outcome) && #[trigger] concludes(
                            result,
                            outcome,
                        );
                    assert(may_load_inputs(before, inputs@, Ok(sections@)));
                    assert(may_convert(self.rules(), inputs@, usable, shared, outcome));
                }
                result
            },
        }
    }
}

} // verus!
