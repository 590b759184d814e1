//! What the conversion reads of object files.
//!
//! Object files are parsed by the `object` crate. The records hold what its
//! methods return as plain values, and the named results say that they depend
//! on the file's bytes alone.
use vstd::prelude::*;
use vstd::string::*;

use object::{Object, ObjectSection, ObjectSymbol};

use crate::error::{ElfInputKind, Error, ErrorView};

verus! {

/// Kind of an object file.
#[derive(Clone, Copy, Debug, PartialEq, Eq, Structural)]
pub enum ObjectKind {
    /// Executable.
    Executable,
    /// Dynamic shared object.
    Dynamic,
    /// Relocatable object.
    Relocatable,
    /// Anything else.
    Other,
}

/// What an object file says of itself.
#[derive(Debug)]
pub struct ObjectHeader {
    /// Whether the file is an ELF file.
    pub elf: bool,
    /// Kind of the file.
    pub kind: ObjectKind,
    /// Whether the file is little-endian.
    pub little_endian: bool,
    /// Whether addresses have 64 bits.
    pub is_64: bool,
    /// Name of the architecture.
    pub architecture: String,
}

/// What an object file says of itself, with its texts as characters.
pub struct HeaderView {
    /// Whether the file is an ELF file.
    pub elf: bool,
    /// Kind of the file.
    pub kind: ObjectKind,
    /// Whether the file is little-endian.
    pub little_endian: bool,
    /// Whether addresses have 64 bits.
    pub is_64: bool,
    /// Name of the architecture.
    pub architecture: Seq<char>,
}

impl View for ObjectHeader {
    type V = HeaderView;

    open spec fn view(&self) -> HeaderView {
        HeaderView {
            elf: self.elf,
            kind: self.kind,
            little_endian: self.little_endian,
            is_64: self.is_64,
            architecture: self.architecture@,
        }
    }
}

/// Kind of a section.
#[derive(Clone, Copy, Debug, PartialEq, Eq, Structural)]
pub enum SectionKind {
    /// Executable code.
    Text,
    /// Debugging information.
    Debug,
    /// Anything else.
    Other,
}

/// A section of an object file.
#[derive(Debug)]
pub struct Section {
    /// Index in the file.
    pub index: usize,
    /// Kind of the section.
    pub kind: SectionKind,
    /// Name, if it can be read.
    pub name: Option<Vec<u8>>,
    /// Address.
    pub address: u64,
    /// Size in memory.
    pub size: u64,
}

/// What a section says.
pub struct SectionView {
    /// Index in the file.
    pub index: usize,
    /// Kind of the section.
    pub kind: SectionKind,
    /// Name, if it can be read.
    pub name: Option<Seq<u8>>,
    /// Address.
    pub address: u64,
    /// Size in memory.
    pub size: u64,
}

/// The bytes of an optional string.
pub open spec fn optional_bytes(bytes: Option<Vec<u8>>) -> Option<Seq<u8>> {
    match bytes {
        Some(bytes) => Some(bytes@),
        None => None,
    }
}

impl View for Section {
    type V = SectionView;

    open spec fn view(&self) -> SectionView {
        SectionView {
            index: self.index,
            kind: self.kind,
            name: optional_bytes(self.name),
            address: self.address,
            size: self.size,
        }
    }
}

/// What the sections of a list say.
pub open spec fn section_views(sections: Seq<Section>) -> Seq<SectionView> {
    Seq::new(sections.len(), |i: int| sections[i]@)
}

/// A symbol of an object file.
#[derive(Debug)]
pub struct Symbol {
    /// Whether the symbol stands for code.
    pub text: bool,
    /// Whether the symbol is defined in the file.
    pub definition: bool,
    /// Address.
    pub address: u64,
    /// Size.
    pub size: u64,
    /// Index of the section.
    pub section: Option<usize>,
    /// Name, if it can be read.
    pub name: Option<Vec<u8>>,
}

/// What a symbol says.
pub struct SymbolView {
    /// Whether the symbol stands for code.
    pub text: bool,
    /// Whether the symbol is defined in the file.
    pub definition: bool,
    /// Address.
    pub address: u64,
    /// Size.
    pub size: u64,
    /// Index of the section.
    pub section: Option<usize>,
    /// Name, if it can be read.
    pub name: Option<Seq<u8>>,
}

impl View for Symbol {
    type V = SymbolView;

    open spec fn view(&self) -> SymbolView {
        SymbolView {
            text: self.text,
            definition: self.definition,
            address: self.address,
            size: self.size,
            section: self.section,
            name: optional_bytes(self.name),
        }
    }
}

/// What the symbols of a list say.
pub open spec fn symbol_views(symbols: Seq<Symbol>) -> Seq<SymbolView> {
    Seq::new(symbols.len(), |i: int| symbols[i]@)
}

/// What a relocation refers to.
#[derive(Clone, Copy, Debug, PartialEq, Eq, Structural)]
pub enum RelocationTarget {
    /// A symbol, by its index.
    Symbol(usize),
    /// A section, by its index.
    Section(usize),
    /// An absolute address.
    Absolute,
    /// Anything else.
    Other,
}

/// A relocation of a section.
#[derive(Debug)]
pub struct Relocation {
    /// Offset in the section.
    pub offset: u64,
    /// Name of the operation.
    pub kind: String,
    /// Name of the way in which the result is encoded.
    pub encoding: String,
    /// What the relocation refers to.
    pub target: RelocationTarget,
    /// Number that is added.
    pub addend: i64,
    /// Whether the value at the offset is added too.
    pub implicit_addend: bool,
}

/// What a relocation says.
pub struct RelocationView {
    /// Offset in the section.
    pub offset: u64,
    /// Name of the operation.
    pub kind: Seq<char>,
    /// Name of the way in which the result is encoded.
    pub encoding: Seq<char>,
    /// What the relocation refers to.
    pub target: RelocationTarget,
    /// Number that is added.
    pub addend: i64,
    /// Whether the value at the offset is added too.
    pub implicit_addend: bool,
}

impl View for Relocation {
    type V = RelocationView;

    open spec fn view(&self) -> RelocationView {
        RelocationView {
            offset: self.offset,
            kind: self.kind@,
            encoding: self.encoding@,
            target: self.target,
            addend: self.addend,
            implicit_addend: self.implicit_addend,
        }
    }
}

/// What the relocations of a list say.
pub open spec fn relocation_views(relocations: Seq<Relocation>) -> Seq<RelocationView> {
    Seq::new(relocations.len(), |i: int| relocations[i]@)
}

/// What `object::File::parse` and the methods of the file that it returns say
/// of the file as a whole, or why the bytes are no object file.
pub uninterp spec fn object_header(data: Seq<u8>) -> Result<HeaderView, Seq<char>>;

/// The sections that `object::Object::sections` returns.
pub uninterp spec fn object_sections(data: Seq<u8>) -> Seq<SectionView>;

/// The section that `object::Object::section_by_index` returns.
pub uninterp spec fn object_section(data: Seq<u8>, index: usize) -> Result<SectionView, Seq<char>>;

/// The section that `object::Object::section_by_name` returns.
pub uninterp spec fn object_section_named(data: Seq<u8>, name: Seq<char>) -> Option<SectionView>;

/// The bytes that `object::ObjectSection::data` returns.
pub uninterp spec fn object_section_data(data: Seq<u8>, index: usize) -> Result<
    Seq<u8>,
    Seq<char>,
>;

/// The bytes of a section as a file stores them.
pub struct StoredData {
    /// The bytes.
    pub bytes: Vec<u8>,
    /// How many bytes they unpack to, if they are compressed.
    pub unpacked_size: Option<u64>,
}

/// The bytes of a section as a file stores them.
pub struct StoredView {
    /// The bytes.
    pub bytes: Seq<u8>,
    /// How many bytes they unpack to, if they are compressed.
    pub unpacked_size: Option<u64>,
}

impl View for StoredData {
    type V = StoredView;

    open spec fn view(&self) -> StoredView {
        StoredView { bytes: self.bytes@, unpacked_size: self.unpacked_size }
    }
}

/// What `object::ObjectSection::compressed_data` returns.
pub uninterp spec fn object_stored_data(data: Seq<u8>, index: usize) -> Result<
    StoredView,
    Seq<char>,
>;

/// The bytes that `object::ObjectSection::uncompressed_data` returns for a
/// compressed section where it succeeds.
pub uninterp spec fn object_unpacked_data(data: Seq<u8>, index: usize) -> Seq<u8>;

/// Whether the section at an index may be read as `outcome` says: one that is
/// not compressed as its bytes, and one that is as what they unpack to, in the
/// length that the section gives, if at all. Whether there is room for them
/// rests on the machine.
pub open spec fn may_be_read(
    data: Seq<u8>,
    index: usize,
    outcome: Result<Seq<u8>, Seq<char>>,
) -> bool {
    match object_stored_data(data, index) {
        Err(text) => outcome == Err::<Seq<u8>, Seq<char>>(text),
        Ok(stored) => match stored.unpacked_size {
            None => outcome == Ok::<Seq<u8>, Seq<char>>(stored.bytes),
            Some(size) => outcome matches Ok(bytes) ==> bytes.len() == size && bytes
                == object_unpacked_data(data, index),
        },
    }
}

/// Bytes, or the text of an error, as they are stated.
pub open spec fn outcome_view(result: Result<Vec<u8>, String>) -> Result<Seq<u8>, Seq<char>> {
    match result {
        Ok(bytes) => Ok(bytes@),
        Err(text) => Err(text@),
    }
}

/// The relocations that `object::ObjectSection::relocations` returns where
/// `limit` is the largest `usize`, which a count is cut to.
pub uninterp spec fn object_relocations(data: Seq<u8>, index: usize, limit: nat) -> Seq<
    RelocationView,
>;

/// The symbols that `object::Object::symbols` returns.
pub uninterp spec fn object_symbols(data: Seq<u8>) -> Seq<SymbolView>;

/// The symbols that `object::Object::dynamic_symbols` returns.
pub uninterp spec fn object_dynamic_symbols(data: Seq<u8>) -> Seq<SymbolView>;

/// The symbol that `object::Object::symbol_by_index` returns.
pub uninterp spec fn object_symbol(data: Seq<u8>, index: usize) -> Result<SymbolView, Seq<char>>;

/// The identifier that `object::Object::build_id` returns.
pub uninterp spec fn object_build_id(data: Seq<u8>) -> Result<Option<Seq<u8>>, Seq<char>>;

/// The file name and checksum that `object::Object::gnu_debuglink` returns.
pub uninterp spec fn object_debuglink(data: Seq<u8>) -> Result<
    Option<(Seq<u8>, u32)>,
    Seq<char>,
>;

/// The file name and identifier that `object::Object::gnu_debugaltlink`
/// returns.
pub uninterp spec fn object_debugaltlink(data: Seq<u8>) -> Result<
    Option<(Seq<u8>, Seq<u8>)>,
    Seq<char>,
>;

/// Calls `object::File::parse`, and the methods of the file that say what it
/// is. The result depends on the bytes alone; the architecture is given by the
/// name of its variant.
#[verifier::external_body]
fn read_header(data: &[u8]) -> (result: Result<ObjectHeader, String>)
    ensures
        match object_header(data@) {
            Ok(view) => result matches Ok(header) && header@ == view,
            Err(text) => result matches Err(source) && source@ == text,
        },
{
    let file = object::File::parse(data).map_err(|error| error.to_string())?;
    Ok(ObjectHeader {
        elf: matches!(file.format(), object::BinaryFormat::Elf),
        kind: match file.kind() {
            object::ObjectKind::Executable => ObjectKind::Executable,
            object::ObjectKind::Dynamic => ObjectKind::Dynamic,
            object::ObjectKind::Relocatable => ObjectKind::Relocatable,
            _ => ObjectKind::Other,
        },
        little_endian: file.is_little_endian(),
        is_64: file.is_64(),
        architecture: format!("{:?}", file.architecture()),
    })
}

/// Calls `object::Object::sections`, and turns each section into plain values.
/// The result depends on the bytes alone.
#[verifier::external_body]
fn read_sections(data: &[u8]) -> (sections: Vec<Section>)
    requires
        object_header(data@) is Ok,
    ensures
        section_views(sections@) == object_sections(data@),
{
    let file = object::File::parse(data).unwrap();
    file.sections().map(|section| Section {
        index: section.index().0,
        kind: match section.kind() {
            object::SectionKind::Text => SectionKind::Text,
            object::SectionKind::Debug => SectionKind::Debug,
            _ => SectionKind::Other,
        },
        name: section.name_bytes().ok().map(<[u8]>::to_vec),
        address: section.address(),
        size: section.size(),
    }).collect()
}

/// Calls `object::Object::section_by_index`, and turns the section into plain
/// values. The result depends on the bytes and the index alone.
#[verifier::external_body]
fn read_section(data: &[u8], index: usize) -> (result: Result<Section, String>)
    requires
        object_header(data@) is Ok,
    ensures
        match object_section(data@, index) {
            Ok(view) => result matches Ok(section) && section@ == view,
            Err(text) => result matches Err(source) && source@ == text,
        },
{
    let file = object::File::parse(data).unwrap();
    file.section_by_index(object::SectionIndex(index)).map(|section| Section {
        index: section.index().0,
        kind: match section.kind() {
            object::SectionKind::Text => SectionKind::Text,
            object::SectionKind::Debug => SectionKind::Debug,
            _ => SectionKind::Other,
        },
        name: section.name_bytes().ok().map(<[u8]>::to_vec),
        address: section.address(),
        size: section.size(),
    }).map_err(|error| error.to_string())
}

/// Calls `object::Object::section_by_name`, and turns the section into plain
/// values. The result depends on the bytes and the name alone.
#[verifier::external_body]
fn read_section_named(data: &[u8], name: &str) -> (section: Option<Section>)
    requires
        object_header(data@) is Ok,
    ensures
        match object_section_named(data@, name@) {
            Some(view) => section matches Some(found) && found@ == view,
            None => section is None,
        },
{
    let file = object::File::parse(data).unwrap();
    file.section_by_name(name).map(|section| Section {
        index: section.index().0,
        kind: match section.kind() {
            object::SectionKind::Text => SectionKind::Text,
            object::SectionKind::Debug => SectionKind::Debug,
            _ => SectionKind::Other,
        },
        name: section.name_bytes().ok().map(<[u8]>::to_vec),
        address: section.address(),
        size: section.size(),
    })
}

/// Calls `object::ObjectSection::data` on the section at an index. The result
/// depends on the bytes and the index alone.
#[verifier::external_body]
fn read_section_data(data: &[u8], index: usize) -> (result: Result<Vec<u8>, String>)
    requires
        object_header(data@) is Ok,
    ensures
        match object_section_data(data@, index) {
            Ok(bytes) => result matches Ok(copy) && copy@ == bytes,
            Err(text) => result matches Err(source) && source@ == text,
        },
{
    let file = object::File::parse(data).unwrap();
    file.section_by_index(object::SectionIndex(index))
        .and_then(|section| section.data())
        .map(<[u8]>::to_vec)
        .map_err(|error| error.to_string())
}

/// Calls `object::ObjectSection::compressed_data` on the section at an index.
/// The result depends on the bytes and the index alone.
#[verifier::external_body]
fn read_stored_data(data: &[u8], index: usize) -> (result: Result<StoredData, String>)
    requires
        object_header(data@) is Ok,
    ensures
        match object_stored_data(data@, index) {
            Ok(view) => result matches Ok(stored) && stored@ == view,
            Err(text) => result matches Err(source) && source@ == text,
        },
{
    let file = object::File::parse(data).unwrap();
    file.section_by_index(object::SectionIndex(index))
        .and_then(|section| section.compressed_data())
        .map(|found| StoredData {
            bytes: found.data.to_vec(),
            unpacked_size: match found.format {
                object::CompressionFormat::None => None,
                _ => Some(found.uncompressed_size),
            },
        })
        .map_err(|error| error.to_string())
}

/// Calls `object::ObjectSection::uncompressed_data` on a compressed section. It
/// returns what the stream unpacks to, as many bytes as the section gives as
/// their number, or an error. The bytes depend on the file and the index alone.
/// Which of the two comes also rests on the memory that can be had, and on how
/// much more than was asked for the allocator gives: a stream that goes on behind
/// the given number of bytes is cut or refused by that.
#[verifier::external_body]
fn unpack_section(data: &[u8], index: usize) -> (result: Result<Vec<u8>, String>)
    requires
        object_header(data@) is Ok,
        object_stored_data(data@, index) matches Ok(stored) && stored.unpacked_size is Some,
    ensures
        result matches Ok(bytes) ==> object_stored_data(data@, index) matches Ok(stored)
            && stored.unpacked_size matches Some(size) && bytes@.len() == size && bytes@
            == object_unpacked_data(data@, index),
{
    let file = object::File::parse(data).unwrap();
    file.section_by_index(object::SectionIndex(index))
        .and_then(|section| section.uncompressed_data())
        .map(|bytes| bytes.into_owned())
        .map_err(|error| error.to_string())
}

/// Calls `object::ObjectSection::relocations` on the section at an index, and
/// turns each relocation into plain values; the operation and the encoding are
/// given by the names of their variants. The result depends on the bytes,
/// the index and the largest `usize`, and is empty where there is no such
/// section.
#[verifier::external_body]
fn read_relocations(data: &[u8], index: usize) -> (relocations: Vec<Relocation>)
    requires
        object_header(data@) is Ok,
    ensures
        relocation_views(relocations@) == object_relocations(
            data@,
            index,
            usize::MAX as nat,
        ),
{
    let file = object::File::parse(data).unwrap();
    let section = file.section_by_index(object::SectionIndex(index));
    section.into_iter().flat_map(|found| found.relocations()).map(|(offset, found)| Relocation {
        offset,
        kind: format!("{:?}", found.kind()),
        encoding: format!("{:?}", found.encoding()),
        target: match found.target() {
            object::RelocationTarget::Symbol(symbol) => RelocationTarget::Symbol(symbol.0),
            object::RelocationTarget::Section(section) => RelocationTarget::Section(section.0),
            object::RelocationTarget::Absolute => RelocationTarget::Absolute,
            _ => RelocationTarget::Other,
        },
        addend: found.addend(), implicit_addend: found.has_implicit_addend(),
    }).collect()
}

/// Calls `object::Object::symbols`, and turns each symbol into plain values.
/// The result depends on the bytes alone.
#[verifier::external_body]
fn read_symbols(data: &[u8]) -> (symbols: Vec<Symbol>)
    requires
        object_header(data@) is Ok,
    ensures
        symbol_views(symbols@) == object_symbols(data@),
{
    let file = object::File::parse(data).unwrap();
    file.symbols().map(|symbol| Symbol {
        text: matches!(symbol.kind(), object::SymbolKind::Text),
        definition: symbol.is_definition(),
        address: symbol.address(),
        size: symbol.size(),
        section: symbol.section_index().map(|index| index.0),
        name: symbol.name_bytes().ok().map(<[u8]>::to_vec),
    }).collect()
}

/// Calls `object::Object::dynamic_symbols`, and turns each symbol into plain
/// values. The result depends on the bytes alone.
#[verifier::external_body]
fn read_dynamic_symbols(data: &[u8]) -> (symbols: Vec<Symbol>)
    requires
        object_header(data@) is Ok,
    ensures
        symbol_views(symbols@) == object_dynamic_symbols(data@),
{
    let file = object::File::parse(data).unwrap();
    file.dynamic_symbols().map(|symbol| Symbol {
        text: matches!(symbol.kind(), object::SymbolKind::Text),
        definition: symbol.is_definition(),
        address: symbol.address(),
        size: symbol.size(),
        section: symbol.section_index().map(|index| index.0),
        name: symbol.name_bytes().ok().map(<[u8]>::to_vec),
    }).collect()
}

/// Calls `object::Object::symbol_by_index`, and turns the symbol into plain
/// values. The result depends on the bytes and the index alone.
#[verifier::external_body]
fn read_symbol(data: &[u8], index: usize) -> (result: Result<Symbol, String>)
    requires
        object_header(data@) is Ok,
    ensures
        match object_symbol(data@, index) {
            Ok(view) => result matches Ok(symbol) && symbol@ == view,
            Err(text) => result matches Err(source) && source@ == text,
        },
{
    let file = object::File::parse(data).unwrap();
    file.symbol_by_index(object::SymbolIndex(index)).map(|symbol| Symbol {
        text: matches!(symbol.kind(), object::SymbolKind::Text),
        definition: symbol.is_definition(),
        address: symbol.address(),
        size: symbol.size(),
        section: symbol.section_index().map(|index| index.0),
        name: symbol.name_bytes().ok().map(<[u8]>::to_vec),
    }).map_err(|error| error.to_string())
}

/// Calls `object::Object::build_id`. The result depends on the bytes alone.
#[verifier::external_body]
fn read_build_id(data: &[u8]) -> (result: Result<Option<Vec<u8>>, String>)
    requires
        object_header(data@) is Ok,
    ensures
        match object_build_id(data@) {
            Ok(view) => result matches Ok(found) && optional_bytes(found) == view,
            Err(text) => result matches Err(source) && source@ == text,
        },
{
    let file = object::File::parse(data).unwrap();
    file.build_id()
        .map(|found| found.map(<[u8]>::to_vec))
        .map_err(|error| error.to_string())
}

/// A file name and a checksum.
pub open spec fn link_view(link: Option<(Vec<u8>, u32)>) -> Option<(Seq<u8>, u32)> {
    match link {
        Some((name, checksum)) => Some((name@, checksum)),
        None => None,
    }
}

/// Calls `object::Object::gnu_debuglink`. The result depends on the bytes
/// alone.
#[verifier::external_body]
fn read_debuglink(data: &[u8]) -> (result: Result<Option<(Vec<u8>, u32)>, String>)
    requires
        object_header(data@) is Ok,
    ensures
        match object_debuglink(data@) {
            Ok(view) => result matches Ok(found) && link_view(found) == view,
            Err(text) => result matches Err(source) && source@ == text,
        },
{
    let file = object::File::parse(data).unwrap();
    file.gnu_debuglink()
        .map(|found| found.map(|(name, checksum)| (name.to_vec(), checksum)))
        .map_err(|error| error.to_string())
}

/// A file name and an identifier.
pub open spec fn altlink_view(link: Option<(Vec<u8>, Vec<u8>)>) -> Option<(Seq<u8>, Seq<u8>)> {
    match link {
        Some((name, id)) => Some((name@, id@)),
        None => None,
    }
}

/// Calls `object::Object::gnu_debugaltlink`. The result depends on the bytes
/// alone.
#[verifier::external_body]
fn read_debugaltlink(data: &[u8]) -> (result: Result<Option<(Vec<u8>, Vec<u8>)>, String>)
    requires
        object_header(data@) is Ok,
    ensures
        match object_debugaltlink(data@) {
            Ok(view) => result matches Ok(found) && altlink_view(found) == view,
            Err(text) => result matches Err(source) && source@ == text,
        },
{
    let file = object::File::parse(data).unwrap();
    file.gnu_debugaltlink()
        .map(|found| found.map(|(name, id)| (name.to_vec(), id.to_vec())))
        .map_err(|error| error.to_string())
}

/// An object file that could be parsed.
pub struct ObjectFile<'data> {
    data: &'data [u8],
    header: ObjectHeader,
}

impl<'data> View for ObjectFile<'data> {
    type V = Seq<u8>;

    closed spec fn view(&self) -> Seq<u8> {
        self.data@
    }
}

/// What a message of the object-file parser says of a context.
pub open spec fn parser_error(context: &'static str, text: Seq<char>) -> ErrorView {
    ErrorView::Malformed { context, detail: text }
}

/// Turns what the object-file parser said of a context into an error.
pub fn malformed(context: &'static str, source: String) -> (error: Error)
    ensures
        error@ == parser_error(context, source@),
{
    Error::Malformed { context, detail: crate::error::Detail::Described(source) }
}

/// Outcome of parsing an input whose header is the given one.
pub open spec fn parse_error(
    header: Result<HeaderView, Seq<char>>,
    input: ElfInputKind,
    elf: bool,
) -> Option<ErrorView> {
    match header {
        Err(source) => Some(ErrorView::Object { input, source }),
        Ok(header) => if elf && !header.elf {
            Some(ErrorView::Plain(Error::NotElf { input }))
        } else {
            None
        },
    }
}

/// What a header result says.
pub open spec fn header_view(header: Result<ObjectHeader, String>) -> Result<
    HeaderView,
    Seq<char>,
> {
    match header {
        Ok(header) => Ok(header@),
        Err(source) => Err(source@),
    }
}

/// Accepts the header of an input, which may have to be an ELF file.
pub fn accept_header(
    header: Result<ObjectHeader, String>,
    input: ElfInputKind,
    elf: bool,
) -> (result: Result<ObjectHeader, Error>)
    ensures
        match parse_error(header_view(header), input, elf) {
            Some(view) => result matches Err(error) && error@ == view,
            None => result matches Ok(accepted) && Ok::<HeaderView, Seq<char>>(accepted@)
                == header_view(header),
        },
{
    match header {
        Err(source) => Err(Error::Object { input, source }),
        Ok(header) => if elf && !header.elf {
            Err(Error::NotElf { input })
        } else {
            Ok(header)
        },
    }
}

impl<'data> ObjectFile<'data> {
    #[verifier::type_invariant]
    spec fn inv(self) -> bool {
        object_header(self.data@) == Ok::<HeaderView, Seq<char>>(self.header@)
    }

    /// Parses an object file of any format.
    pub fn parse(data: &'data [u8], input: ElfInputKind) -> (result: Result<Self, Error>)
        ensures
            match parse_error(object_header(data@), input, false) {
                Some(view) => result matches Err(error) && error@ == view,
                None => result matches Ok(file) && file@ == data@,
            },
    {
        let header = accept_header(read_header(data), input, false)?;
        Ok(ObjectFile { data, header })
    }

    /// Returns the bytes of the file.
    pub fn bytes(&self) -> (data: &'data [u8])
        ensures
            data@ == self@,
    {
        self.data
    }

    /// Returns what the file says of itself.
    pub fn header(&self) -> (header: &ObjectHeader)
        ensures
            object_header(self@) == Ok::<HeaderView, Seq<char>>(header@),
    {
        proof {
            use_type_invariant(self);
        }
        &self.header
    }

    /// Returns the sections.
    pub fn sections(&self) -> (sections: Vec<Section>)
        ensures
            section_views(sections@) == object_sections(self@),
    {
        proof {
            use_type_invariant(self);
        }
        read_sections(self.data)
    }

    /// Returns the section at an index.
    pub fn section(&self, index: usize) -> (result: Result<Section, String>)
        ensures
            match object_section(self@, index) {
                Ok(view) => result matches Ok(section) && section@ == view,
                Err(text) => result matches Err(source) && source@ == text,
            },
    {
        proof {
            use_type_invariant(self);
        }
        read_section(self.data, index)
    }

    /// Returns the section with a name.
    pub fn section_named(&self, name: &str) -> (section: Option<Section>)
        ensures
            match object_section_named(self@, name@) {
                Some(view) => section matches Some(found) && found@ == view,
                None => section is None,
            },
    {
        proof {
            use_type_invariant(self);
        }
        read_section_named(self.data, name)
    }

    /// Returns the bytes of the section at an index as they stand.
    pub fn section_data(&self, index: usize) -> (result: Result<Vec<u8>, String>)
        ensures
            match object_section_data(self@, index) {
                Ok(bytes) => result matches Ok(copy) && copy@ == bytes,
                Err(text) => result matches Err(source) && source@ == text,
            },
    {
        proof {
            use_type_invariant(self);
        }
        read_section_data(self.data, index)
    }

    /// Returns the bytes of the section at an index without compression.
    pub fn uncompressed_data(&self, index: usize) -> (result: Result<Vec<u8>, String>)
        ensures
            may_be_read(self@, index, outcome_view(result)),
    {
        proof {
            use_type_invariant(self);
        }
        let stored = read_stored_data(self.data, index)?;
        match stored.unpacked_size {
            None => Ok(stored.bytes),
            Some(_) => unpack_section(self.data, index),
        }
    }

    /// Returns the relocations of the section at an index.
    pub fn relocations(&self, index: usize) -> (relocations: Vec<Relocation>)
        ensures
            relocation_views(relocations@) == object_relocations(
                self@,
                index,
                usize::MAX as nat,
            ),
    {
        proof {
            use_type_invariant(self);
        }
        read_relocations(self.data, index)
    }

    /// Returns the symbols.
    pub fn symbols(&self) -> (symbols: Vec<Symbol>)
        ensures
            symbol_views(symbols@) == object_symbols(self@),
    {
        proof {
            use_type_invariant(self);
        }
        read_symbols(self.data)
    }

    /// Returns the dynamic symbols.
    pub fn dynamic_symbols(&self) -> (symbols: Vec<Symbol>)
        ensures
            symbol_views(symbols@) == object_dynamic_symbols(self@),
    {
        proof {
            use_type_invariant(self);
        }
        read_dynamic_symbols(self.data)
    }

    /// Returns the symbol at an index.
    pub fn symbol(&self, index: usize) -> (result: Result<Symbol, String>)
        ensures
            match object_symbol(self@, index) {
                Ok(view) => result matches Ok(symbol) && symbol@ == view,
                Err(text) => result matches Err(source) && source@ == text,
            },
    {
        proof {
            use_type_invariant(self);
        }
        read_symbol(self.data, index)
    }

    /// Returns the build identifier.
    pub fn build_id(&self) -> (result: Result<Option<Vec<u8>>, String>)
        ensures
            match object_build_id(self@) {
                Ok(view) => result matches Ok(found) && optional_bytes(found) == view,
                Err(text) => result matches Err(source) && source@ == text,
            },
    {
        proof {
            use_type_invariant(self);
        }
        read_build_id(self.data)
    }

    /// Returns the name and the checksum of the separate debug file.
    pub fn debuglink(&self) -> (result: Result<Option<(Vec<u8>, u32)>, String>)
        ensures
            match object_debuglink(self@) {
                Ok(view) => result matches Ok(found) && link_view(found) == view,
                Err(text) => result matches Err(source) && source@ == text,
            },
    {
        proof {
            use_type_invariant(self);
        }
        read_debuglink(self.data)
    }

    /// Returns the name and the build identifier of the supplementary file.
    pub fn debugaltlink(&self) -> (result: Result<Option<(Vec<u8>, Vec<u8>)>, String>)
        ensures
            match object_debugaltlink(self@) {
                Ok(view) => result matches Ok(found) && altlink_view(found) == view,
                Err(text) => result matches Err(source) && source@ == text,
            },
    {
        proof {
            use_type_invariant(self);
        }
        read_debugaltlink(self.data)
    }
}

/// Parses an ELF file.
pub fn parse_elf<'data>(bytes: &'data [u8], input: ElfInputKind) -> (result: Result<
    ObjectFile<'data>,
    Error,
>)
    ensures
        match parse_error(object_header(bytes@), input, true) {
            Some(view) => result matches Err(error) && error@ == view,
            None => result matches Ok(file) && file@ == bytes@,
        },
{
    let header = accept_header(read_header(bytes), input, true)?;
    Ok(ObjectFile { data: bytes, header })
}

} // verus!
