//! Inputs and settings of a conversion.
use vstd::prelude::*;
use vstd::string::*;

use crate::writer::options;
use crate::writer::options::WriterOptions;

verus! {

/// ELF inputs used to construct a GSYM file.
///
/// Only the image is required. Leaving a companion out makes the converter
/// fall back to the image itself for symbols and DWARF, so a single unstripped
/// binary needs nothing else.
#[derive(Clone, Copy, Debug, PartialEq, Eq)]
pub struct ElfInputs<'data> {
    /// Linked `ET_EXEC`, `ET_DYN`, or relocatable `ET_REL` ELF image.
    pub image: &'data [u8],
    /// Explicit separate DWARF ELF, if different from the image.
    pub debug: Option<&'data [u8]>,
    /// Extra symbol-table ELF read alongside the image's and debug input's own
    /// tables.
    pub symbols: Option<&'data [u8]>,
    /// Supplementary DWARF ELF referenced by the main debug input.
    pub supplementary: Option<&'data [u8]>,
    /// Packaged split-DWARF input.
    pub dwp: Option<&'data [u8]>,
}

/// The bytes of ELF inputs.
pub struct InputsView {
    /// Image.
    pub image: Seq<u8>,
    /// Separate DWARF ELF.
    pub debug: Option<Seq<u8>>,
    /// Symbol-table ELF.
    pub symbols: Option<Seq<u8>>,
    /// Supplementary DWARF ELF.
    pub supplementary: Option<Seq<u8>>,
    /// Packaged split-DWARF input.
    pub dwp: Option<Seq<u8>>,
}

/// The bytes of an optional input.
pub open spec fn input_bytes(input: Option<&[u8]>) -> Option<Seq<u8>> {
    match input {
        Some(bytes) => Some(bytes@),
        None => None,
    }
}

impl<'data> View for ElfInputs<'data> {
    type V = InputsView;

    open spec fn view(&self) -> InputsView {
        InputsView {
            image: self.image@,
            debug: input_bytes(self.debug),
            symbols: input_bytes(self.symbols),
            supplementary: input_bytes(self.supplementary),
            dwp: input_bytes(self.dwp),
        }
    }
}

impl<'data> ElfInputs<'data> {
    /// Creates inputs using one ELF for the image, symbols, and DWARF.
    pub fn new(image: &'data [u8]) -> (inputs: Self)
        ensures
            inputs@ == (InputsView {
                image: image@,
                debug: None,
                symbols: None,
                supplementary: None,
                dwp: None,
            }),
    {
        ElfInputs { image, debug: None, symbols: None, supplementary: None, dwp: None }
    }

    /// Uses an explicit ELF containing the image's DWARF sections.
    pub fn with_debug(self, debug: &'data [u8]) -> (inputs: Self)
        ensures
            inputs@ == (InputsView { debug: Some(debug@), ..self@ }),
    {
        ElfInputs { debug: Some(debug), ..self }
    }

    /// Adds an explicit ELF symbol table to the ones already imported.
    pub fn with_symbols(self, symbols: &'data [u8]) -> (inputs: Self)
        ensures
            inputs@ == (InputsView { symbols: Some(symbols@), ..self@ }),
    {
        ElfInputs { symbols: Some(symbols), ..self }
    }

    /// Supplies the supplementary DWARF ELF referenced by the main debug input.
    pub fn with_supplementary(self, supplementary: &'data [u8]) -> (inputs: Self)
        ensures
            inputs@ == (InputsView { supplementary: Some(supplementary@), ..self@ }),
    {
        ElfInputs { supplementary: Some(supplementary), ..self }
    }

    /// Supplies a packaged split-DWARF file.
    pub fn with_dwp(self, dwp: &'data [u8]) -> (inputs: Self)
        ensures
            inputs@ == (InputsView { dwp: Some(dwp@), ..self@ }),
    {
        ElfInputs { dwp: Some(dwp), ..self }
    }
}

/// Selects optional DWARF records to import.
///
/// Inline information is on by default because it is what distinguishes GSYM
/// from a symbol table. Call sites are off. Line rows are always imported.
#[derive(Clone, Copy, Debug, PartialEq, Eq, Structural)]
pub struct DwarfImportOptions {
    /// Import inline-call trees.
    pub inline_info: bool,
    /// Import DWARF call-site records.
    pub call_sites: bool,
}

impl Default for DwarfImportOptions {
    fn default() -> (options: Self)
        ensures
            options == (DwarfImportOptions { inline_info: true, call_sites: false }),
    {
        DwarfImportOptions { inline_info: true, call_sites: false }
    }
}

/// Companion-file discovery policy for path-based conversion.
#[derive(Clone, Copy, Debug, PartialEq, Eq, Structural)]
pub enum DiscoveryPolicy {
    /// Convert only the requested image path.
    Disabled,
    /// Search separate, supplementary, split-DWARF, and remote debug sources.
    Enabled,
}

impl Default for DiscoveryPolicy {
    fn default() -> (policy: Self)
        ensures
            policy == DiscoveryPolicy::Enabled,
    {
        DiscoveryPolicy::Enabled
    }
}

/// A potentially slow operation reported during path-based debug discovery.
///
/// `P` is the type of paths.
#[derive(Debug, PartialEq, Eq)]
pub enum DiscoveryEvent<'path, P> {
    /// A debuginfod request is about to be issued.
    DebuginfodRequest {
        /// Kind of companion being requested, such as `debug file`.
        artifact: &'static str,
        /// Hexadecimal ELF build ID.
        build_id: &'path str,
        /// Debuginfod server base URL.
        endpoint: &'path str,
        /// Image or debug file whose companion is being requested.
        related_path: &'path P,
    },
}

/// Controls ELF/DWARF import and optional companion discovery.
///
/// The writer's settings select the output version, but its byte order, base
/// address, and build ID are overwritten from the image. `P` is the type of
/// paths, which the conversion only hands on.
#[derive(Debug, PartialEq, Eq)]
pub struct ConversionOptions<P> {
    /// GSYM writer settings.
    pub writer: WriterOptions,
    /// Import ELF `STT_FUNC` symbols.
    pub include_symbols: bool,
    /// DWARF import settings, or `None` to disable DWARF import.
    pub dwarf: Option<DwarfImportOptions>,
    /// Whether path conversion searches for companion debug files.
    pub discovery: DiscoveryPolicy,
    /// Roots searched for build-ID and mirrored-path debug files.
    pub debug_directories: Vec<P>,
    /// Debuginfod server URLs tried in order.
    pub debuginfod_urls: Vec<String>,
    /// Local debuginfod cache root.
    pub debuginfod_cache: P,
    /// Maximum accepted debuginfod response size in bytes.
    pub debuginfod_max_download_size: u64,
    /// Maximum decompressed `.gnu_debugdata` size in bytes.
    pub gnu_debugdata_max_decompressed_size: u64,
}

/// Largest debuginfod response and decompressed `.gnu_debugdata` that are
/// accepted unless other sizes are set.
pub const DEFAULT_SIZE_LIMIT: u64 = 0x4000_0000;

impl<P> ConversionOptions<P> {
    /// Creates the default settings with the given directories, servers and
    /// cache.
    pub fn new(debug_directories: Vec<P>, debuginfod_urls: Vec<String>, debuginfod_cache: P) -> (
    options: Self)
        ensures
            options.writer@ == options::default_writer(),
            options.include_symbols,
            options.dwarf == Some(DwarfImportOptions { inline_info: true, call_sites: false }),
            options.discovery == DiscoveryPolicy::Enabled,
            options.debug_directories == debug_directories,
            options.debuginfod_urls == debuginfod_urls,
            options.debuginfod_cache == debuginfod_cache,
            options.debuginfod_max_download_size == 0x4000_0000,
            options.gnu_debugdata_max_decompressed_size == 0x4000_0000,
    {
        ConversionOptions {
            writer: WriterOptions::default(),
            include_symbols: true,
            dwarf: Some(DwarfImportOptions::default()),
            discovery: DiscoveryPolicy::default(),
            debug_directories,
            debuginfod_urls,
            debuginfod_cache,
            debuginfod_max_download_size: DEFAULT_SIZE_LIMIT,
            gnu_debugdata_max_decompressed_size: DEFAULT_SIZE_LIMIT,
        }
    }

    /// Whether anything is imported that a companion could hold.
    pub open spec fn spec_wants_companions(&self) -> bool {
        self.include_symbols || self.dwarf is Some
    }

    /// Returns whether anything is imported that a companion could hold.
    pub fn wants_companions(&self) -> (wants: bool)
        ensures
            wants == self.spec_wants_companions(),
    {
        self.include_symbols || self.dwarf.is_some()
    }

    /// Returns whether a separate debug file is searched for.
    pub fn searches_debug_file(&self) -> (searches: bool)
        ensures
            searches == (self.discovery == DiscoveryPolicy::Enabled
                && self.spec_wants_companions()),
    {
        self.discovery == DiscoveryPolicy::Enabled && self.wants_companions()
    }

    /// Returns whether supplementary and split debug files are searched for.
    pub fn searches_dwarf_files(&self) -> (searches: bool)
        ensures
            searches == (self.discovery == DiscoveryPolicy::Enabled && self.dwarf is Some),
    {
        self.discovery == DiscoveryPolicy::Enabled && self.dwarf.is_some()
    }
}

} // verus!
