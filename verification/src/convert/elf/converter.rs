//! Conversion of an image and its companions.
use vstd::prelude::*;
use vstd::string::*;

use crate::builder;
use crate::builder::{BuilderOptions, BuilderView, GsymBuilder};
use crate::convert::diagnostic;
use crate::convert::diagnostic::{ConversionWarning, WarningView};
use crate::convert::dwarf::import;
use crate::convert::dwarf::import::{ImportContext, ImportView, Rules};
use crate::convert::dwarf::units;
use crate::convert::dwarf::units::{import_dwarf, DebugInfo};
use crate::convert::elf::discovery;
use crate::convert::elf::discovery::{
    unpack_gnu_debugdata, validated_gnu_debugdata,
};
use crate::convert::elf::distinct;
use crate::convert::elf::distinct::import_distinct_symbols;
use crate::convert::elf::image;
use crate::convert::elf::image::{
    cross_check_elf_architecture, cross_check_elf_identity, require_supported_kind, AddressLayout,
    LayoutView,
};
use crate::convert::elf::object_file;
use crate::convert::elf::object_file::{malformed, parse_elf, ObjectFile, ObjectKind};
use crate::convert::elf::options::{ConversionOptions, DwarfImportOptions, ElfInputs, InputsView};
use crate::convert::stats;
use crate::convert::stats::ConversionStats;
use crate::endian::Endian;
use crate::error::{ElfInputKind, Error, ErrorView};
use crate::model::{copy_ranges, AddressRange};
use crate::writer::options::{WriterOptions, WriterView};

verus! {

/// Which inputs are one and the same.
#[derive(Clone, Copy, Debug, PartialEq, Eq, Structural)]
pub struct SharedInputs {
    /// The symbol-table input is the debug input.
    pub symbols_debug: bool,
    /// The symbol-table input is the image.
    pub symbols_image: bool,
    /// The debug input is the image.
    pub debug_image: bool,
}

/// The settings that a conversion of given inputs depends on.
pub struct ConversionRules {
    /// GSYM writer settings.
    pub writer: WriterView,
    /// Whether symbols are imported.
    pub symbols: bool,
    /// Which DWARF records are imported.
    pub dwarf: Option<DwarfImportOptions>,
}

/// A conversion before its DWARF data is imported.
pub struct PreparedView {
    /// The import so far.
    pub state: ImportView,
    /// What is imported of DWARF data.
    pub rules: Rules,
    /// Where the sections lie.
    pub layout: LayoutView,
    /// The debug file that the image holds.
    pub embedded: Option<Seq<u8>>,
}

/// The error of an optional ELF input.
pub open spec fn optional_input_error(
    input: Option<Seq<u8>>,
    kind: ElfInputKind,
) -> Option<ErrorView> {
    match input {
        Some(bytes) => object_file::parse_error(object_file::object_header(bytes), kind, true),
        None => None,
    }
}

/// What is known of an image.
pub struct ImageView {
    /// Where the sections lie.
    pub layout: LayoutView,
    /// Build identifier.
    pub build_id: Seq<u8>,
}

/// What is read of an image first.
pub open spec fn image_of(data: Seq<u8>) -> Result<ImageView, ErrorView> {
    match object_file::parse_error(
        object_file::object_header(data),
        ElfInputKind::Image,
        true,
    ) {
        Some(error) => Err(error),
        None => {
            let header = object_file::object_header(data)->Ok_0;
            if !image::is_supported(header.kind) {
                Err(
                    ErrorView::Plain(
                        Error::InvalidModel("ELF input is not ET_EXEC, ET_DYN, or ET_REL"),
                    ),
                )
            } else {
                match image::image_layout(
                    object_file::object_sections(data),
                    header.kind == ObjectKind::Relocatable,
                ) {
                    Err(error) => Err(error@),
                    Ok(layout) => if layout.ranges.len() == 0 {
                        Err(
                            ErrorView::Plain(
                                Error::InvalidModel("ELF image has no executable sections"),
                            ),
                        )
                    } else {
                        match object_file::object_build_id(data) {
                            Err(text) => Err(object_file::parser_error("ELF build ID", text)),
                            Ok(id) => Ok(
                                ImageView {
                                    layout,
                                    build_id: match id {
                                        Some(id) => id,
                                        None => Seq::empty(),
                                    },
                                },
                            ),
                        }
                    },
                }
            }
        },
    }
}

/// Whether the debug file that an image holds is wanted.
pub open spec fn wants_embedded(rules: ConversionRules, inputs: InputsView) -> bool {
    inputs.debug is None && (rules.symbols || rules.dwarf is Some)
}

/// The debug file that an image holds, if a conversion wants one. An image that
/// cannot be parsed holds none.
pub open spec fn held_data(
    rules: ConversionRules,
    inputs: InputsView,
    maximum_size: u64,
) -> Result<Option<Seq<u8>>, ErrorView> {
    if wants_embedded(rules, inputs) && object_file::parse_error(
        object_file::object_header(inputs.image),
        ElfInputKind::Image,
        true,
    ) is None {
        discovery::unpacked_data(inputs.image, maximum_size)
    } else {
        Ok(None)
    }
}

/// The debug file that is used: the given one, or else the one that the image
/// holds, or else the image.
pub open spec fn debug_bytes(inputs: InputsView, embedded: Option<Seq<u8>>) -> Seq<u8> {
    match inputs.debug {
        Some(debug) => debug,
        None => match embedded {
            Some(bytes) => bytes,
            None => inputs.image,
        },
    }
}

/// The error of the companions of an image.
pub open spec fn companions_error(
    inputs: InputsView,
    embedded: Option<Seq<u8>>,
) -> Option<ErrorView> {
    let debug = debug_bytes(inputs, embedded);
    match object_file::parse_error(
        object_file::object_header(debug),
        ElfInputKind::Debug,
        true,
    ) {
        Some(error) => Some(error),
        None => {
            let identity = if inputs.debug is Some {
                image::companion_error(inputs.image, debug, ElfInputKind::Debug)
            } else {
                None
            };
            match identity {
                Some(error) => Some(error),
                None => match optional_input_error(
                    inputs.supplementary,
                    ElfInputKind::Supplementary,
                ) {
                    Some(error) => Some(error),
                    None => match optional_input_error(inputs.dwp, ElfInputKind::Dwp) {
                        Some(error) => Some(error),
                        None => match inputs.dwp {
                            None => None,
                            Some(dwp) => match image::architecture_error(
                                object_file::object_header(inputs.image)->Ok_0,
                                object_file::object_header(dwp)->Ok_0,
                                ElfInputKind::Dwp,
                            ) {
                                Some(error) => Some(error@),
                                None => None,
                            },
                        },
                    },
                },
            }
        },
    }
}

/// The builder that a conversion starts with.
pub open spec fn starting_builder(
    rules: ConversionRules,
    little_endian: bool,
    image: ImageView,
) -> BuilderView {
    BuilderView {
        options: builder::OptionsView {
            writer: WriterView {
                version: rules.writer.version,
                endian: if little_endian {
                    Endian::Little
                } else {
                    Endian::Big
                },
                base_address: Some(image.layout.ranges[0].start),
                build_id: image.build_id,
            },
            executable_ranges: image.layout.ranges,
            ..builder::default_options()
        },
        ..builder::empty_builder()
    }
}

/// The files whose symbols are imported, each one once.
pub open spec fn symbol_files(
    inputs: InputsView,
    embedded: Option<Seq<u8>>,
    shared: SharedInputs,
) -> Seq<Seq<u8>> {
    let separate = inputs.debug is Some || embedded is Some;
    let from_symbols = match inputs.symbols {
        Some(symbols) => seq![symbols],
        None => Seq::empty(),
    };
    let from_debug = if separate && !(inputs.symbols is Some && shared.symbols_debug) {
        seq![debug_bytes(inputs, embedded)]
    } else {
        Seq::empty()
    };
    let from_image = if (inputs.symbols is Some && shared.symbols_image) || (separate
        && shared.debug_image) {
        Seq::empty()
    } else {
        seq![inputs.image]
    };
    from_symbols + from_debug + from_image
}

/// The error of the symbol-table input.
pub open spec fn symbols_error(inputs: InputsView) -> Option<ErrorView> {
    match inputs.symbols {
        None => None,
        Some(symbols) => match object_file::parse_error(
            object_file::object_header(symbols),
            ElfInputKind::Symbols,
            true,
        ) {
            Some(error) => Some(error),
            None => image::companion_error(inputs.image, symbols, ElfInputKind::Symbols),
        },
    }
}

/// An import with the symbols of the inputs.
pub open spec fn with_symbols(
    inputs: InputsView,
    embedded: Option<Seq<u8>>,
    shared: SharedInputs,
    layout: LayoutView,
    state: ImportView,
) -> Result<ImportView, ErrorView> {
    match symbols_error(inputs) {
        Some(error) => Err(error),
        None => {
            let import = distinct::imported(symbol_files(inputs, embedded, shared), layout);
            match import.error {
                Some(error) => Err(error),
                None => Ok(
                    ImportView {
                        builder: BuilderView {
                            functions: state.builder.functions + distinct::plain_functions(
                                import.functions,
                            ),
                            ..state.builder
                        },
                        stats: ConversionStats {
                            symbol_functions: import.functions.len() as usize,
                            rejected_ranges: stats::more(
                                state.stats.rejected_ranges,
                                import.rejected,
                            ),
                            ..state.stats
                        },
                        ..state
                    },
                ),
            }
        },
    }
}

/// What is imported of DWARF data.
pub open spec fn dwarf_rules(dwarf: Option<DwarfImportOptions>, executable: Seq<AddressRange>) -> Rules {
    Rules {
        executable,
        inlines: dwarf is Some && dwarf->0.inline_info,
        call_sites: dwarf is Some && dwarf->0.call_sites,
    }
}

/// A conversion of inputs before their DWARF data is imported. `unpacked` is
/// the debug file that the image holds.
pub open spec fn prepared(
    rules: ConversionRules,
    inputs: InputsView,
    unpacked: Result<Option<Seq<u8>>, ErrorView>,
    shared: SharedInputs,
) -> Result<PreparedView, ErrorView> {
    match image_of(inputs.image) {
        Err(error) => Err(error),
        Ok(image) => {
            let found = if wants_embedded(rules, inputs) {
                discovery::embedded(inputs.image, unpacked, Seq::empty())
            } else {
                discovery::Embedded { bytes: None, warnings: Seq::empty() }
            };
            match companions_error(inputs, found.bytes) {
                Some(error) => Err(error),
                None => {
                    let start = ImportView {
                        builder: starting_builder(
                            rules,
                            object_file::object_header(inputs.image)->Ok_0.little_endian,
                            image,
                        ),
                        stats: stats::no_counts(),
                        warnings: found.warnings,
                        error: None,
                    };
                    let state = if rules.symbols {
                        with_symbols(inputs, found.bytes, shared, image.layout, start)
                    } else {
                        Ok(start)
                    };
                    match state {
                        Err(error) => Err(error),
                        Ok(state) => Ok(
                            PreparedView {
                                state,
                                rules: dwarf_rules(rules.dwarf, image.layout.ranges),
                                layout: image.layout,
                                embedded: found.bytes,
                            },
                        ),
                    }
                },
            }
        },
    }
}

/// A conversion before its DWARF data is imported.
pub struct PreparedConversion {
    context: ImportContext,
    layout: AddressLayout,
    embedded: Option<Vec<u8>>,
}

impl View for PreparedConversion {
    type V = PreparedView;

    closed spec fn view(&self) -> PreparedView {
        PreparedView {
            state: self.context@,
            rules: self.context.rules(),
            layout: self.layout@,
            embedded: object_file::optional_bytes(self.embedded),
        }
    }
}

impl PreparedConversion {
    #[verifier::type_invariant]
    spec fn inv(self) -> bool {
        self.context.builder.wf()
    }

    /// Returns where the sections lie.
    pub fn layout(&self) -> (layout: &AddressLayout)
        ensures
            layout@ == self@.layout,
    {
        &self.layout
    }

    /// Returns the debug file that the image holds, if it is used.
    pub fn embedded(&self) -> (embedded: &Option<Vec<u8>>)
        ensures
            object_file::optional_bytes(*embedded) == self@.embedded,
    {
        &self.embedded
    }

    /// Imports DWARF data, and returns the finished report.
    pub fn import<P>(self, info: &DebugInfo) -> (result: Result<ConversionReport<P>, Error>)
        ensures
            ({
                let state = units::imported(self@.rules, *info, self@.state);
                match state.error {
                    Some(view) => result matches Err(error) && error@ == view,
                    None => result matches Ok(report) && report.builder.wf() && reports(
                        report,
                        state,
                    ),
                }
            }),
    {
        proof {
            use_type_invariant(&self);
        }
        let PreparedConversion { context, layout: _, embedded: _ } = self;
        let mut context: ImportContext = context;
        import_dwarf(&mut context, info)?;
        Ok(report_of(context))
    }

    /// Returns the report of a conversion without DWARF data.
    pub fn finish<P>(self) -> (report: ConversionReport<P>)
        ensures
            report.builder.wf(),
            reports(report, self@.state),
    {
        proof {
            use_type_invariant(&self);
        }
        let PreparedConversion { context, layout: _, embedded: _ } = self;
        report_of(context)
    }
}

/// Successful conversion output plus diagnostics and provenance.
///
/// The builder is ready to encode, or to edit first. The discovered paths
/// record which companion files were selected, and are `None` when the input
/// supplied them or none were found. `P` is the type of paths.
pub struct ConversionReport<P> {
    /// Populated builder ready for encoding or further modification.
    pub builder: GsymBuilder,
    /// Counts of imported and rejected records.
    pub stats: ConversionStats,
    /// Non-fatal issues encountered during conversion.
    pub warnings: Vec<ConversionWarning>,
    /// Automatically selected main debug file.
    pub discovered_debug: Option<P>,
    /// Automatically selected supplementary debug file.
    pub discovered_supplementary: Option<P>,
    /// Automatically selected DWP package.
    pub discovered_dwp: Option<P>,
}

/// Whether a report says what an import has come to, and names no discovered
/// files.
pub open spec fn reports<P>(report: ConversionReport<P>, state: ImportView) -> bool {
    &&& report.builder@ == state.builder
    &&& report.stats == state.stats
    &&& diagnostic::warning_views(report.warnings@) == state.warnings
    &&& report.discovered_debug is None
    &&& report.discovered_supplementary is None
    &&& report.discovered_dwp is None
}

fn report_of<P>(context: ImportContext) -> (report: ConversionReport<P>)
    requires
        context.builder.wf(),
    ensures
        report.builder.wf(),
        reports(report, context@),
{
    ConversionReport {
        builder: context.builder,
        stats: context.stats,
        warnings: context.warnings,
        discovered_debug: None,
        discovered_supplementary: None,
        discovered_dwp: None,
    }
}

impl<P> ConversionReport<P> {
    /// Adds what a search for companions found: its warnings, behind those of
    /// the conversion, and the selected files.
    pub fn with_discovery(
        self,
        debug_warnings: Vec<ConversionWarning>,
        supplementary_warnings: Vec<ConversionWarning>,
        debug: Option<P>,
        supplementary: Option<P>,
        dwp: Option<P>,
    ) -> (report: Self)
        requires
            self.builder.wf(),
        ensures
            report.builder.wf(),
            report.builder@ == self.builder@,
            report.stats == self.stats,
            report.warnings@ == self.warnings@ + debug_warnings@ + supplementary_warnings@,
            report.discovered_debug == debug,
            report.discovered_supplementary == supplementary,
            report.discovered_dwp == dwp,
    {
        let mut warnings: Vec<ConversionWarning> = self.warnings;
        let mut first: Vec<ConversionWarning> = debug_warnings;
        let mut second: Vec<ConversionWarning> = supplementary_warnings;
        warnings.append(&mut first);
        warnings.append(&mut second);
        ConversionReport {
            builder: self.builder,
            stats: self.stats,
            warnings,
            discovered_debug: debug,
            discovered_supplementary: supplementary,
            discovered_dwp: dwp,
        }
    }
}

/// Reusable ELF-to-GSYM converter with immutable options.
///
/// Options are fixed at construction, so one converter can be shared across
/// many images. `P` is the type of paths.
#[derive(Debug, PartialEq, Eq)]
pub struct ElfConverter<P> {
    options: ConversionOptions<P>,
}

/// An image that could be read.
struct Image<'data> {
    file: ObjectFile<'data>,
    layout: AddressLayout,
    build_id: Vec<u8>,
}

fn read_image<'data>(data: &'data [u8]) -> (result: Result<Image<'data>, Error>)
    ensures
        match image_of(data@) {
            Ok(view) => result matches Ok(image) && image.file@ == data@ && image.layout@
                == view.layout && image.build_id@ == view.build_id,
            Err(view) => result matches Err(error) && error@ == view,
        },
{
    let file = parse_elf(data, ElfInputKind::Image)?;
    require_supported_kind(file.header().kind)?;
    let layout = AddressLayout::new(&file)?;
    if layout.ranges().len() == 0 {
        return Err(Error::InvalidModel("ELF image has no executable sections"));
    }
    let build_id: Vec<u8> = match file.build_id() {
        Ok(Some(id)) => id,
        Ok(None) => Vec::new(),
        Err(source) => return Err(malformed("ELF build ID", source)),
    };
    Ok(Image { file, layout, build_id })
}

fn check_optional_input(input: Option<&[u8]>, kind: ElfInputKind) -> (result: Result<(), Error>)
    ensures
        match optional_input_error(crate::convert::elf::options::input_bytes(input), kind) {
            Some(view) => result matches Err(error) && error@ == view,
            None => result == Ok::<(), Error>(()),
        },
{
    if let Some(bytes) = input {
        parse_elf(bytes, kind)?;
    }
    Ok(())
}

fn check_companions(
    image: &ObjectFile<'_>,
    inputs: &ElfInputs<'_>,
    debug: &[u8],
    Ghost(embedded): Ghost<Option<Seq<u8>>>,
) -> (result: Result<(), Error>)
    requires
        image@ == inputs@.image,
        debug@ == debug_bytes(inputs@, embedded),
    ensures
        match companions_error(inputs@, embedded) {
            Some(view) => result matches Err(error) && error@ == view,
            None => result == Ok::<(), Error>(()),
        },
{
    let debug_file = parse_elf(debug, ElfInputKind::Debug)?;
    if inputs.debug.is_some() {
        cross_check_elf_identity(image, &debug_file, ElfInputKind::Debug)?;
    }
    check_optional_input(inputs.supplementary, ElfInputKind::Supplementary)?;
    check_optional_input(inputs.dwp, ElfInputKind::Dwp)?;
    if let Some(bytes) = inputs.dwp {
        let dwp = parse_elf(bytes, ElfInputKind::Dwp)?;
        cross_check_elf_architecture(image.header(), dwp.header(), ElfInputKind::Dwp)?;
    }
    Ok(())
}

/// Imports the symbols of the inputs.
fn import_symbols(
    context: &mut ImportContext,
    image: &ObjectFile<'_>,
    layout: &AddressLayout,
    inputs: &ElfInputs<'_>,
    debug: &[u8],
    shared: SharedInputs,
    embedded: &Option<Vec<u8>>,
) -> (result: Result<(), Error>)
    requires
        old(context).builder.wf(),
        image@ == inputs@.image,
        debug@ == debug_bytes(inputs@, object_file::optional_bytes(*embedded)),
        companions_error(inputs@, object_file::optional_bytes(*embedded)) is None,
        old(context).stats == stats::no_counts(),
    ensures
        final(context).builder.wf(),
        final(context).rules() == old(context).rules(),
        match with_symbols(
            inputs@,
            object_file::optional_bytes(*embedded),
            shared,
            layout@,
            old(context)@,
        ) {
            Ok(state) => result == Ok::<(), Error>(()) && final(context)@ == state,
            Err(view) => result matches Err(error) && error@ == view,
        },
{
    let ghost unpacked = object_file::optional_bytes(*embedded);
    let debug_file = parse_elf(debug, ElfInputKind::Debug)?;
    let separate: bool = inputs.debug.is_some() || embedded.is_some();
    let mut files: Vec<&ObjectFile<'_>> = Vec::new();
    let symbols_file: Option<ObjectFile<'_>> = match inputs.symbols {
        Some(bytes) => {
            let file = parse_elf(bytes, ElfInputKind::Symbols)?;
            cross_check_elf_identity(image, &file, ElfInputKind::Symbols)?;
            Some(file)
        },
        None => None,
    };
    if let Some(file) = &symbols_file {
        files.push(file);
    }
    let given: bool = symbols_file.is_some();
    if separate && !(given && shared.symbols_debug) {
        files.push(&debug_file);
    }
    if !((given && shared.symbols_image) || (separate && shared.debug_image)) {
        files.push(image);
    }
    assert(distinct::file_bytes(files@) =~= symbol_files(inputs@, unpacked, shared));
    let mut rejected: usize = context.stats.rejected_ranges;
    let imported: usize = import_distinct_symbols(
        &files,
        layout,
        &mut context.builder,
        &mut rejected,
    )?;
    context.stats.rejected_ranges = rejected;
    context.stats.symbol_functions = imported;
    Ok(())
}

fn start_builder(
    writer: &WriterOptions,
    little_endian: bool,
    layout: &AddressLayout,
    build_id: Vec<u8>,
    Ghost(rules): Ghost<ConversionRules>,
) -> (builder: GsymBuilder)
    requires
        layout@.ranges.len() > 0,
        writer@ == rules.writer,
    ensures
        builder.wf(),
        builder@ == starting_builder(
            rules,
            little_endian,
            ImageView { layout: layout@, build_id: build_id@ },
        ),
{
    let ranges = layout.ranges();
    let mut settings = writer.clone();
    settings.endian = if little_endian {
        Endian::Little
    } else {
        Endian::Big
    };
    settings.base_address = Some(ranges[0].start);
    settings.build_id = build_id;
    let options = BuilderOptions {
        writer: settings,
        executable_ranges: copy_ranges(ranges),
        repair_zero_sized_functions: true,
        merge_equal_address_functions: false,
    };
    GsymBuilder::with_options(options)
}

impl<P> ElfConverter<P> {
    /// The options.
    pub closed spec fn spec_options(&self) -> ConversionOptions<P> {
        self.options
    }

    /// The settings that a conversion of given inputs depends on.
    pub open spec fn rules(&self) -> ConversionRules {
        ConversionRules {
            writer: self.spec_options().writer@,
            symbols: self.spec_options().include_symbols,
            dwarf: self.spec_options().dwarf,
        }
    }

    /// Creates a converter using `options`.
    pub fn new(options: ConversionOptions<P>) -> (converter: Self)
        ensures
            converter.spec_options() == options,
    {
        ElfConverter { options }
    }

    /// Returns this converter's immutable options.
    pub fn options(&self) -> (options: &ConversionOptions<P>)
        ensures
            *options == self.spec_options(),
    {
        &self.options
    }

    /// Unpacks the debug file that the image holds, if the conversion wants one.
    ///
    /// An image that cannot be parsed holds none; preparing its conversion says
    /// what is wrong with it.
    pub fn embedded_debug_data(&self, inputs: &ElfInputs<'_>) -> (result: Result<
        Option<Vec<u8>>,
        Error,
    >)
        ensures
            discovery::unpacked_view(result) == held_data(
                self.rules(),
                inputs@,
                self.spec_options().gnu_debugdata_max_decompressed_size,
            ),
    {
        if inputs.debug.is_some() || !self.options.wants_companions() {
            return Ok(None);
        }
        match parse_elf(inputs.image, ElfInputKind::Image) {
            Ok(image) => unpack_gnu_debugdata(
                &image,
                self.options.gnu_debugdata_max_decompressed_size,
            ),
            Err(_) => Ok(None),
        }
    }

    /// Converts linked ELF inputs up to their DWARF data.
    ///
    /// Companions are cross-checked against the image, so a debug or symbol
    /// file from a different architecture or build is rejected. `unpacked` is
    /// the debug file that the image holds.
    pub fn prepare(
        &self,
        inputs: &ElfInputs<'_>,
        unpacked: Result<Option<Vec<u8>>, Error>,
        shared: SharedInputs,
    ) -> (result: Result<PreparedConversion, Error>)
        ensures
            match prepared(
                self.rules(),
                inputs@,
                discovery::unpacked_view(unpacked),
                shared,
            ) {
                Ok(view) => result matches Ok(conversion) && conversion@ == view,
                Err(view) => result matches Err(error) && error@ == view,
            },
    {
        let ghost rules = self.rules();
        let image = read_image(inputs.image)?;
        let mut warnings: Vec<ConversionWarning> = Vec::new();
        assert(diagnostic::warning_views(warnings@) =~= Seq::<WarningView>::empty());
        let embedded: Option<Vec<u8>> = if inputs.debug.is_none()
            && self.options.wants_companions() {
            validated_gnu_debugdata(&image.file, unpacked, &mut warnings)
        } else {
            None
        };
        let debug: &[u8] = match inputs.debug {
            Some(debug) => debug,
            None => match &embedded {
                Some(bytes) => bytes.as_slice(),
                None => inputs.image,
            },
        };
        check_companions(
            &image.file,
            inputs,
            debug,
            Ghost(object_file::optional_bytes(embedded)),
        )?;
        let builder = start_builder(
            &self.options.writer,
            image.file.header().little_endian,
            &image.layout,
            image.build_id,
            Ghost(rules),
        );
        let (include_inlines, include_call_sites) = match self.options.dwarf {
            Some(dwarf) => (dwarf.inline_info, dwarf.call_sites),
            None => (false, false),
        };
        let mut context = ImportContext {
            executable_ranges: copy_ranges(image.layout.ranges()),
            include_inlines,
            include_call_sites,
            builder,
            stats: ConversionStats::default(),
            warnings,
        };
        if self.options.include_symbols {
            import_symbols(
                &mut context,
                &image.file,
                &image.layout,
                inputs,
                debug,
                shared,
                &embedded,
            )?;
        }
        Ok(PreparedConversion { context, layout: image.layout, embedded })
    }
}

} // verus!
