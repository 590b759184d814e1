//! Sections of debugging information and their relocations.
use std::collections::HashMap;

use vstd::prelude::*;
use vstd::std_specs::hash::*;
use vstd::string::*;

use crate::convert::elf::image;
use crate::convert::elf::image::{is_debug_section, AddressLayout, LayoutView};
use crate::convert::elf::object_file;
use crate::convert::elf::object_file::{
    malformed, ObjectFile, Relocation, RelocationTarget, RelocationView, Section, SectionView,
    Symbol, SymbolView,
};
use crate::convert::elf::symbols;
use crate::error::{Detail, Error, ErrorView};
use crate::text;
use crate::text::push_hexadecimal;

verus! {

broadcast use vstd::std_specs::hash::group_hash_axioms;

/// Operation of a relocation.
#[derive(Clone, Copy, Debug, PartialEq, Eq, Structural)]
pub enum RelocationKind {
    /// The operation is unknown.
    Unknown,
    /// No relocation.
    NoOperation,
    /// The target.
    Absolute,
    /// The target relative to the place.
    Relative,
    /// The target's slot relative to the global offset table.
    Got,
    /// The target's slot relative to the place.
    GotRelative,
    /// The global offset table relative to the place.
    GotBaseRelative,
    /// The target relative to the global offset table.
    GotBaseOffset,
    /// The target's linkage entry relative to the place.
    PltRelative,
    /// The target relative to the image.
    ImageOffset,
    /// The target relative to its section.
    SectionOffset,
    /// The index of the target's section.
    SectionIndex,
    /// Anything else.
    Other,
}

/// How the result of a relocation is encoded.
#[derive(Clone, Copy, Debug, PartialEq, Eq, Structural)]
pub enum RelocationEncoding {
    /// The encoding is unknown.
    Unknown,
    /// Generic encoding.
    Generic,
    /// Sign extension on x86.
    X86Signed,
    /// Instruction-relative addressing on x86.
    X86RipRelative,
    /// Instruction-relative addressing of a load on x86.
    X86RipRelativeMovq,
    /// Branch target on x86.
    X86Branch,
    /// Halved offset on s390x.
    S390xDbl,
    /// Call target on AArch64.
    AArch64Call,
    /// Branch offset on LoongArch.
    LoongArchBranch,
    /// 48-bit instruction on SHARC+.
    SharcTypeA,
    /// 32-bit instruction on SHARC+.
    SharcTypeB,
    /// 64-bit literal on E2K.
    E2KLit,
    /// 28-bit displacement on E2K.
    E2KDisp,
    /// Anything else.
    Other,
}

/// The operation with a name.
pub open spec fn kind_named(name: Seq<char>) -> RelocationKind {
    if name == "Unknown"@ {
        RelocationKind::Unknown
    } else if name == "None"@ {
        RelocationKind::NoOperation
    } else if name == "Absolute"@ {
        RelocationKind::Absolute
    } else if name == "Relative"@ {
        RelocationKind::Relative
    } else if name == "Got"@ {
        RelocationKind::Got
    } else if name == "GotRelative"@ {
        RelocationKind::GotRelative
    } else if name == "GotBaseRelative"@ {
        RelocationKind::GotBaseRelative
    } else if name == "GotBaseOffset"@ {
        RelocationKind::GotBaseOffset
    } else if name == "PltRelative"@ {
        RelocationKind::PltRelative
    } else if name == "ImageOffset"@ {
        RelocationKind::ImageOffset
    } else if name == "SectionOffset"@ {
        RelocationKind::SectionOffset
    } else if name == "SectionIndex"@ {
        RelocationKind::SectionIndex
    } else {
        RelocationKind::Other
    }
}

/// The encoding with a name.
pub open spec fn encoding_named(name: Seq<char>) -> RelocationEncoding {
    if name == "Unknown"@ {
        RelocationEncoding::Unknown
    } else if name == "Generic"@ {
        RelocationEncoding::Generic
    } else if name == "X86Signed"@ {
        RelocationEncoding::X86Signed
    } else if name == "X86RipRelative"@ {
        RelocationEncoding::X86RipRelative
    } else if name == "X86RipRelativeMovq"@ {
        RelocationEncoding::X86RipRelativeMovq
    } else if name == "X86Branch"@ {
        RelocationEncoding::X86Branch
    } else if name == "S390xDbl"@ {
        RelocationEncoding::S390xDbl
    } else if name == "AArch64Call"@ {
        RelocationEncoding::AArch64Call
    } else if name == "LoongArchBranch"@ {
        RelocationEncoding::LoongArchBranch
    } else if name == "SharcTypeA"@ {
        RelocationEncoding::SharcTypeA
    } else if name == "SharcTypeB"@ {
        RelocationEncoding::SharcTypeB
    } else if name == "E2KLit"@ {
        RelocationEncoding::E2KLit
    } else if name == "E2KDisp"@ {
        RelocationEncoding::E2KDisp
    } else {
        RelocationEncoding::Other
    }
}

/// Whether a text reads as given.
pub(crate) fn is_text(text: &String, expected: &str) -> (same: bool)
    ensures
        same == (text@ == expected@),
{
    let other = String::from_str(expected);
    *text == other
}

/// The name of an operation.
pub open spec fn kind_text(kind: RelocationKind) -> Seq<char> {
    match kind {
        RelocationKind::Unknown => "Unknown"@,
        RelocationKind::NoOperation => "None"@,
        RelocationKind::Absolute => "Absolute"@,
        RelocationKind::Relative => "Relative"@,
        RelocationKind::Got => "Got"@,
        RelocationKind::GotRelative => "GotRelative"@,
        RelocationKind::GotBaseRelative => "GotBaseRelative"@,
        RelocationKind::GotBaseOffset => "GotBaseOffset"@,
        RelocationKind::PltRelative => "PltRelative"@,
        RelocationKind::ImageOffset => "ImageOffset"@,
        RelocationKind::SectionOffset => "SectionOffset"@,
        RelocationKind::SectionIndex => "SectionIndex"@,
        RelocationKind::Other => "Other"@,
    }
}

impl RelocationKind {
    /// Finds the operation with a name.
    pub fn named(name: &String) -> (found: Self)
        ensures
            found == kind_named(name@),
    {
        if is_text(name, "Unknown") {
            return RelocationKind::Unknown;
        }
        if is_text(name, "None") {
            return RelocationKind::NoOperation;
        }
        if is_text(name, "Absolute") {
            return RelocationKind::Absolute;
        }
        if is_text(name, "Relative") {
            return RelocationKind::Relative;
        }
        if is_text(name, "Got") {
            return RelocationKind::Got;
        }
        if is_text(name, "GotRelative") {
            return RelocationKind::GotRelative;
        }
        if is_text(name, "GotBaseRelative") {
            return RelocationKind::GotBaseRelative;
        }
        if is_text(name, "GotBaseOffset") {
            return RelocationKind::GotBaseOffset;
        }
        if is_text(name, "PltRelative") {
            return RelocationKind::PltRelative;
        }
        if is_text(name, "ImageOffset") {
            return RelocationKind::ImageOffset;
        }
        if is_text(name, "SectionOffset") {
            return RelocationKind::SectionOffset;
        }
        if is_text(name, "SectionIndex") {
            return RelocationKind::SectionIndex;
        }
        RelocationKind::Other
    }

    /// Names the operation.
    pub fn text(&self) -> (text: &'static str)
        ensures
            text@ == kind_text(*self),
    {
        match self {
            RelocationKind::Unknown => "Unknown",
            RelocationKind::NoOperation => "None",
            RelocationKind::Absolute => "Absolute",
            RelocationKind::Relative => "Relative",
            RelocationKind::Got => "Got",
            RelocationKind::GotRelative => "GotRelative",
            RelocationKind::GotBaseRelative => "GotBaseRelative",
            RelocationKind::GotBaseOffset => "GotBaseOffset",
            RelocationKind::PltRelative => "PltRelative",
            RelocationKind::ImageOffset => "ImageOffset",
            RelocationKind::SectionOffset => "SectionOffset",
            RelocationKind::SectionIndex => "SectionIndex",
            RelocationKind::Other => "Other",
        }
    }
}

impl RelocationEncoding {
    /// Finds the encoding with a name.
    pub fn named(name: &String) -> (found: Self)
        ensures
            found == encoding_named(name@),
    {
        if is_text(name, "Unknown") {
            return RelocationEncoding::Unknown;
        }
        if is_text(name, "Generic") {
            return RelocationEncoding::Generic;
        }
        if is_text(name, "X86Signed") {
            return RelocationEncoding::X86Signed;
        }
        if is_text(name, "X86RipRelative") {
            return RelocationEncoding::X86RipRelative;
        }
        if is_text(name, "X86RipRelativeMovq") {
            return RelocationEncoding::X86RipRelativeMovq;
        }
        if is_text(name, "X86Branch") {
            return RelocationEncoding::X86Branch;
        }
        if is_text(name, "S390xDbl") {
            return RelocationEncoding::S390xDbl;
        }
        if is_text(name, "AArch64Call") {
            return RelocationEncoding::AArch64Call;
        }
        if is_text(name, "LoongArchBranch") {
            return RelocationEncoding::LoongArchBranch;
        }
        if is_text(name, "SharcTypeA") {
            return RelocationEncoding::SharcTypeA;
        }
        if is_text(name, "SharcTypeB") {
            return RelocationEncoding::SharcTypeB;
        }
        if is_text(name, "E2KLit") {
            return RelocationEncoding::E2KLit;
        }
        if is_text(name, "E2KDisp") {
            return RelocationEncoding::E2KDisp;
        }
        RelocationEncoding::Other
    }
}

/// Whether debugging information can be relocated with an encoding.
pub open spec fn is_supported(kind: RelocationKind, encoding: RelocationEncoding) -> bool {
    encoding == RelocationEncoding::Generic || (kind == RelocationKind::Absolute && encoding
        == RelocationEncoding::X86Signed)
}

/// Returns whether debugging information can be relocated with an encoding.
pub fn debug_relocation_encoding_supported(
    kind: RelocationKind,
    encoding: RelocationEncoding,
) -> (supported: bool)
    ensures
        supported == is_supported(kind, encoding),
{
    encoding == RelocationEncoding::Generic || (kind == RelocationKind::Absolute && encoding
        == RelocationEncoding::X86Signed)
}

/// The 64-bit number that an integer wraps to.
pub open spec fn wrapped(number: int) -> u64 {
    (number % 0x1_0000_0000_0000_0000) as u64
}

/// The error of a relocation with an explanation.
pub open spec fn relocation_error(detail: Seq<char>) -> ErrorView {
    ErrorView::Malformed { context: "DWARF relocation", detail }
}

/// The value that a relocation comes to.
pub open spec fn relocated_value(
    kind: RelocationKind,
    target: u64,
    section_base: u64,
    place: u64,
    addend: i64,
) -> Result<u64, ErrorView> {
    match kind {
        RelocationKind::Absolute => Ok(wrapped(target + addend)),
        RelocationKind::Relative => Ok(wrapped(target - place + addend)),
        RelocationKind::SectionOffset => Ok(wrapped(target - section_base + addend)),
        RelocationKind::Other => Err(relocation_error("unrecognised kind "@ + kind_text(kind))),
        _ => Err(relocation_error("unsupported kind "@ + kind_text(kind))),
    }
}

fn described(before: &str, after: &str) -> (error: Error)
    ensures
        error@ == relocation_error(before@ + after@),
{
    let mut detail = String::from_str(before);
    detail.append(after);
    Error::Malformed { context: "DWARF relocation", detail: Detail::Described(detail) }
}

fn described_at(before: &str, offset: u64) -> (error: Error)
    ensures
        error@ == relocation_error(before@ + text::hexadecimal(offset as nat)),
{
    let mut detail = String::from_str(before);
    push_hexadecimal(&mut detail, offset);
    Error::Malformed { context: "DWARF relocation", detail: Detail::Described(detail) }
}

fn add_signed(value: u64, addend: i64) -> (sum: u64)
    ensures
        sum == wrapped(value + addend),
{
    let low: u64 = if addend >= 0 {
        value.wrapping_add(addend as u64)
    } else if addend == i64::MIN {
        value.wrapping_sub(0x8000_0000_0000_0000)
    } else {
        value.wrapping_sub((-addend) as u64)
    };
    low
}

/// Computes the value that a relocation comes to.
pub fn calculate_relocation_value(
    kind: RelocationKind,
    target: u64,
    target_section_base: u64,
    place: u64,
    addend: i64,
) -> (result: Result<u64, Error>)
    ensures
        match relocated_value(kind, target, target_section_base, place, addend) {
            Ok(value) => result == Ok::<u64, Error>(value),
            Err(view) => result matches Err(error) && error@ == view,
        },
{
    let value: u64 = match kind {
        RelocationKind::Absolute => target,
        RelocationKind::Relative => target.wrapping_sub(place),
        RelocationKind::SectionOffset => target.wrapping_sub(target_section_base),
        RelocationKind::Other => return Err(described("unrecognised kind ", kind.text())),
        _ => return Err(described("unsupported kind ", kind.text())),
    };
    Ok(add_signed(value, addend))
}

/// A value that takes the place of another, or is added to it.
#[derive(Clone, Copy, Debug, PartialEq, Eq)]
pub struct RelocationEntry {
    /// Offset in the section.
    pub offset: u64,
    /// Whether the value at the offset is added.
    pub implicit_addend: bool,
    /// The value.
    pub value: u64,
}

/// The relocations of a section by offset.
#[derive(Debug)]
pub struct DwarfRelocations {
    entries: HashMap<u64, RelocationEntry>,
}

impl View for DwarfRelocations {
    type V = Map<u64, RelocationEntry>;

    closed spec fn view(&self) -> Map<u64, RelocationEntry> {
        self.entries@
    }
}

/// A value at an offset once it is relocated.
pub open spec fn applied(
    relocations: Map<u64, RelocationEntry>,
    offset: usize,
    value: u64,
) -> u64 {
    if relocations.dom().contains(offset as u64) {
        let relocation = relocations[offset as u64];
        if relocation.implicit_addend {
            wrapped(value + relocation.value)
        } else {
            relocation.value
        }
    } else {
        value
    }
}

/// The error of two relocations at one offset.
pub open spec fn repeated_error(offset: u64) -> ErrorView {
    relocation_error("multiple entries at "@ + text::hexadecimal(offset as nat))
}

/// The relocations of the first `count` entries, unless two have one offset.
pub open spec fn collected(entries: Seq<RelocationEntry>, count: nat) -> Result<
    Map<u64, RelocationEntry>,
    ErrorView,
>
    decreases count,
{
    if count == 0 {
        Ok(Map::empty())
    } else {
        match collected(entries, (count - 1) as nat) {
            Err(error) => Err(error),
            Ok(relocations) => {
                let entry = entries[count - 1];
                if relocations.dom().contains(entry.offset) {
                    Err(repeated_error(entry.offset))
                } else {
                    Ok(relocations.insert(entry.offset, entry))
                }
            },
        }
    }
}

proof fn lemma_collecting_stops(entries: Seq<RelocationEntry>, count: nat, whole: nat)
    requires
        count <= whole,
        collected(entries, count) is Err,
    ensures
        collected(entries, whole) == collected(entries, count),
    decreases whole,
{
    if count < whole {
        lemma_collecting_stops(entries, count, (whole - 1) as nat);
    }
}

/// A relocation applies at its own offset and nowhere else, and entries of
/// which no two have one offset are all accepted.
pub proof fn law_relocations_apply(entries: Seq<RelocationEntry>, count: nat)
    requires
        count <= entries.len(),
        forall|i: int, j: int|
            0 <= i < j < count ==> (#[trigger] entries[i]).offset != (
            #[trigger] entries[j]).offset,
    ensures
        collected(entries, count) is Ok,
        forall|i: int|
            0 <= i < count ==> collected(entries, count)->Ok_0.dom().contains(
                (#[trigger] entries[i]).offset,
            ) && collected(entries, count)->Ok_0[entries[i].offset] == entries[i],
        forall|offset: u64|
            #[trigger] collected(entries, count)->Ok_0.dom().contains(offset) ==> exists|i: int|
                0 <= i < count && (#[trigger] entries[i]).offset == offset,
    decreases count,
{
    if count > 0 {
        law_relocations_apply(entries, (count - 1) as nat);
    }
}

impl DwarfRelocations {
    /// Starts without relocations.
    pub fn empty() -> (relocations: Self)
        ensures
            relocations@ == Map::<u64, RelocationEntry>::empty(),
    {
        let relocations = DwarfRelocations { entries: HashMap::new() };
        assert(relocations@ =~= Map::<u64, RelocationEntry>::empty());
        relocations
    }

    /// Adds a relocation.
    fn insert(&mut self, entry: RelocationEntry) -> (result: Result<(), Error>)
        ensures
            if old(self)@.dom().contains(entry.offset) {
                result matches Err(error) && error@ == repeated_error(entry.offset)
            } else {
                result == Ok::<(), Error>(()) && final(self)@ == old(self)@.insert(
                    entry.offset,
                    entry,
                )
            },
    {
        if self.entries.contains_key(&entry.offset) {
            return Err(described_at("multiple entries at ", entry.offset));
        }
        self.entries.insert(entry.offset, entry);
        Ok(())
    }

    /// Collects relocations, no two of which may have one offset.
    pub fn new(entries: Vec<RelocationEntry>) -> (result: Result<Self, Error>)
        ensures
            match collected(entries@, entries@.len()) {
                Ok(view) => result matches Ok(relocations) && relocations@ == view,
                Err(view) => result matches Err(error) && error@ == view,
            },
    {
        let mut relocations = DwarfRelocations::empty();
        let mut i: usize = 0;
        while i < entries.len()
            invariant
                i <= entries@.len(),
                collected(entries@, i as nat) == Ok::<Map<u64, RelocationEntry>, ErrorView>(
                    relocations@,
                ),
            decreases entries@.len() - i,
        {
            proof {
                if collected(entries@, (i + 1) as nat) is Err {
                    lemma_collecting_stops(entries@, (i + 1) as nat, entries@.len());
                }
            }
            relocations.insert(entries[i])?;
            i = i + 1;
        }
        Ok(relocations)
    }

    /// Relocates a value that was read at an offset.
    pub fn apply(&self, offset: usize, value: u64) -> (relocated: u64)
        ensures
            relocated == applied(self@, offset, value),
    {
        match self.entries.get(&(offset as u64)) {
            Some(relocation) => if relocation.implicit_addend {
                value.wrapping_add(relocation.value)
            } else {
                relocation.value
            },
            None => value,
        }
    }
}

/// The address of a section that a relocation refers to: debugging information
/// counts from zero.
pub open spec fn target_base(section: SectionView, layout: LayoutView) -> Result<u64, ErrorView> {
    if image::is_debug(section) {
        Ok(0)
    } else {
        match image::base_of(layout, section) {
            Ok(base) => Ok(base),
            Err(error) => Err(error@),
        }
    }
}

/// The address of a relocation's target, and of the target's section.
/// `symbol` is the target where it is one, and `section` the target or the
/// section of the symbol.
pub open spec fn target_of(
    relocation: RelocationView,
    symbol: Option<Result<SymbolView, Seq<char>>>,
    section: Option<Result<SectionView, Seq<char>>>,
    layout: LayoutView,
) -> Result<(u64, u64), ErrorView> {
    match relocation.target {
        RelocationTarget::Symbol(_) => match symbol {
            Some(Ok(symbol)) => match section {
                None => Ok((symbol.address, 0)),
                Some(Err(text)) => Err(
                    object_file::parser_error("DWARF relocation section", text),
                ),
                Some(Ok(section)) => match target_base(section, layout) {
                    Err(error) => Err(error),
                    Ok(base) => if image::is_debug(section) {
                        Ok((symbol.address, 0))
                    } else if base + symbol.address > u64::MAX {
                        Err(ErrorView::Plain(Error::Overflow("debug relocation target")))
                    } else {
                        Ok(((base + symbol.address) as u64, base))
                    },
                },
            },
            Some(Err(text)) => Err(object_file::parser_error("DWARF relocation symbol", text)),
            None => Err(ErrorView::Plain(Error::InvalidModel("relocation symbol is not loaded"))),
        },
        RelocationTarget::Section(_) => match section {
            Some(Ok(section)) => match target_base(section, layout) {
                Err(error) => Err(error),
                Ok(base) => Ok((base, base)),
            },
            Some(Err(text)) => Err(object_file::parser_error("DWARF relocation section", text)),
            None => Err(ErrorView::Plain(Error::InvalidModel("relocation section is not loaded"))),
        },
        RelocationTarget::Absolute => Err(
            relocation_error(
                "unsupported target at "@ + text::hexadecimal(relocation.offset as nat),
            ),
        ),
        RelocationTarget::Other => Err(
            relocation_error(
                "unrecognised target at "@ + text::hexadecimal(relocation.offset as nat),
            ),
        ),
    }
}

/// Whether debugging information can be relocated by an operation.
pub open spec fn is_debug_kind(kind: RelocationKind) -> bool {
    kind == RelocationKind::Absolute || kind == RelocationKind::Relative || kind
        == RelocationKind::SectionOffset
}

/// What a relocation of a section at an address comes to, unless it does
/// nothing.
pub open spec fn entry_of(
    relocation: RelocationView,
    address: u64,
    symbol: Option<Result<SymbolView, Seq<char>>>,
    section: Option<Result<SectionView, Seq<char>>>,
    layout: LayoutView,
) -> Result<Option<RelocationEntry>, ErrorView> {
    let kind = kind_named(relocation.kind);
    if kind == RelocationKind::NoOperation {
        Ok(None)
    } else if !is_debug_kind(kind) || !is_supported(kind, encoding_named(relocation.encoding)) {
        Err(
            relocation_error(
                "unsupported kind/encoding "@ + relocation.kind + "/"@ + relocation.encoding
                    + " at "@ + text::hexadecimal(relocation.offset as nat),
            ),
        )
    } else {
        match target_of(relocation, symbol, section, layout) {
            Err(error) => Err(error),
            Ok((target, base)) => match relocated_value(
                kind,
                target,
                base,
                wrapped(address + relocation.offset),
                relocation.addend,
            ) {
                Err(error) => Err(error),
                Ok(value) => Ok(
                    Some(
                        RelocationEntry {
                            offset: relocation.offset,
                            implicit_addend: relocation.implicit_addend,
                            value,
                        },
                    ),
                ),
            },
        }
    }
}

/// What a symbol result says.
pub open spec fn symbol_view(symbol: Option<Result<Symbol, String>>) -> Option<
    Result<SymbolView, Seq<char>>,
> {
    match symbol {
        None => None,
        Some(Ok(symbol)) => Some(Ok(symbol@)),
        Some(Err(source)) => Some(Err(source@)),
    }
}

fn find_base(section: &Section, layout: &AddressLayout) -> (result: Result<u64, Error>)
    ensures
        match target_base(section@, layout@) {
            Ok(base) => result == Ok::<u64, Error>(base),
            Err(view) => result matches Err(error) && error@ == view,
        },
{
    if is_debug_section(section) {
        Ok(0)
    } else {
        layout.section_base(section)
    }
}

fn find_symbol_target(
    symbol: &Symbol,
    section: Option<Result<Section, String>>,
    layout: &AddressLayout,
) -> (result: Result<(u64, u64), Error>)
    ensures
        forall|relocation: RelocationView|
            (#[trigger] relocation.target) is Symbol ==> match target_of(
                relocation,
                Some(Ok(symbol@)),
                symbols::section_view(section),
                layout@,
            ) {
                Ok(target) => result == Ok::<(u64, u64), Error>(target),
                Err(view) => result matches Err(error) && error@ == view,
            },
{
    match section {
        None => Ok((symbol.address, 0)),
        Some(Err(source)) => Err(malformed("DWARF relocation section", source)),
        Some(Ok(section)) => {
            let base: u64 = find_base(&section, layout)?;
            if is_debug_section(&section) {
                return Ok((symbol.address, 0));
            }
            match base.checked_add(symbol.address) {
                Some(address) => Ok((address, base)),
                None => Err(Error::Overflow("debug relocation target")),
            }
        },
    }
}

fn find_target(
    relocation: &Relocation,
    symbol: Option<Result<Symbol, String>>,
    section: Option<Result<Section, String>>,
    layout: &AddressLayout,
) -> (result: Result<(u64, u64), Error>)
    ensures
        match target_of(
            relocation@,
            symbol_view(symbol),
            symbols::section_view(section),
            layout@,
        ) {
            Ok(target) => result == Ok::<(u64, u64), Error>(target),
            Err(view) => result matches Err(error) && error@ == view,
        },
{
    match relocation.target {
        RelocationTarget::Symbol(_) => match symbol {
            Some(Ok(symbol)) => {
                assert(relocation@.target is Symbol);
                find_symbol_target(&symbol, section, layout)
            },
            Some(Err(source)) => Err(malformed("DWARF relocation symbol", source)),
            None => Err(Error::InvalidModel("relocation symbol is not loaded")),
        },
        RelocationTarget::Section(_) => match section {
            Some(Ok(section)) => {
                let base: u64 = find_base(&section, layout)?;
                Ok((base, base))
            },
            Some(Err(source)) => Err(malformed("DWARF relocation section", source)),
            None => Err(Error::InvalidModel("relocation section is not loaded")),
        },
        RelocationTarget::Absolute => Err(
            described_at("unsupported target at ", relocation.offset),
        ),
        RelocationTarget::Other => Err(
            described_at("unrecognised target at ", relocation.offset),
        ),
    }
}

fn unsupported(relocation: &Relocation) -> (error: Error)
    ensures
        error@ == relocation_error(
            "unsupported kind/encoding "@ + relocation.kind@ + "/"@ + relocation.encoding@
                + " at "@ + text::hexadecimal(relocation.offset as nat),
        ),
{
    let mut detail = String::from_str("unsupported kind/encoding ");
    detail.append(relocation.kind.as_str());
    detail.append("/");
    detail.append(relocation.encoding.as_str());
    detail.append(" at ");
    push_hexadecimal(&mut detail, relocation.offset);
    Error::Malformed { context: "DWARF relocation", detail: Detail::Described(detail) }
}

/// Computes what a relocation of a section at an address comes to. `symbol` is
/// the target where it is one, and `section` the target or the section of the
/// symbol.
pub fn relocation_entry(
    relocation: &Relocation,
    address: u64,
    symbol: Option<Result<Symbol, String>>,
    section: Option<Result<Section, String>>,
    layout: &AddressLayout,
) -> (result: Result<Option<RelocationEntry>, Error>)
    ensures
        match entry_of(
            relocation@,
            address,
            symbol_view(symbol),
            symbols::section_view(section),
            layout@,
        ) {
            Ok(entry) => result == Ok::<Option<RelocationEntry>, Error>(entry),
            Err(view) => result matches Err(error) && error@ == view,
        },
{
    let kind = RelocationKind::named(&relocation.kind);
    if kind == RelocationKind::NoOperation {
        return Ok(None);
    }
    let usable: bool = kind == RelocationKind::Absolute || kind == RelocationKind::Relative || kind
        == RelocationKind::SectionOffset;
    if !usable || !debug_relocation_encoding_supported(
        kind,
        RelocationEncoding::named(&relocation.encoding),
    ) {
        return Err(unsupported(relocation));
    }
    let (target, base) = find_target(relocation, symbol, section, layout)?;
    let place: u64 = address.wrapping_add(relocation.offset);
    let value: u64 = calculate_relocation_value(kind, target, base, place, relocation.addend)?;
    Ok(
        Some(
            RelocationEntry {
                offset: relocation.offset,
                implicit_addend: relocation.implicit_addend,
                value,
            },
        ),
    )
}

/// The symbol that a relocation of a file refers to.
pub open spec fn target_symbol(data: Seq<u8>, target: RelocationTarget) -> Option<
    Result<SymbolView, Seq<char>>,
> {
    match target {
        RelocationTarget::Symbol(index) => Some(object_file::object_symbol(data, index)),
        _ => None,
    }
}

/// The section that a relocation of a file refers to.
pub open spec fn target_section(data: Seq<u8>, target: RelocationTarget) -> Option<
    Result<SectionView, Seq<char>>,
> {
    match target {
        RelocationTarget::Section(index) => Some(object_file::object_section(data, index)),
        RelocationTarget::Symbol(index) => match object_file::object_symbol(data, index) {
            Ok(symbol) => match symbol.section {
                Some(section) => Some(object_file::object_section(data, section)),
                None => None,
            },
            Err(_) => None,
        },
        _ => None,
    }
}

/// The relocations of the first `count` entries of a section of a file.
pub open spec fn loaded(
    data: Seq<u8>,
    section: SectionView,
    layout: LayoutView,
    count: nat,
) -> Result<Map<u64, RelocationEntry>, ErrorView>
    decreases count,
{
    if count == 0 {
        Ok(Map::empty())
    } else {
        match loaded(data, section, layout, (count - 1) as nat) {
            Err(error) => Err(error),
            Ok(relocations) => {
                let relocation = object_file::object_relocations(
                    data,
                    section.index,
                    usize::MAX as nat,
                )[count - 1];
                match entry_of(
                    relocation,
                    section.address,
                    target_symbol(data, relocation.target),
                    target_section(data, relocation.target),
                    layout,
                ) {
                    Err(error) => Err(error),
                    Ok(None) => Ok(relocations),
                    Ok(Some(entry)) => if relocations.dom().contains(entry.offset) {
                        Err(repeated_error(entry.offset))
                    } else {
                        Ok(relocations.insert(entry.offset, entry))
                    },
                }
            },
        }
    }
}

proof fn lemma_loading_stops(
    data: Seq<u8>,
    section: SectionView,
    layout: LayoutView,
    count: nat,
    whole: nat,
)
    requires
        count <= whole,
        loaded(data, section, layout, count) is Err,
    ensures
        loaded(data, section, layout, whole) == loaded(data, section, layout, count),
    decreases whole,
{
    if count < whole {
        lemma_loading_stops(data, section, layout, count, (whole - 1) as nat);
    }
}

/// Whether numbers are equal but for what a 64-bit number cannot hold.
pub open spec fn is_congruent(a: int, b: int) -> bool {
    exists|turns: int| a == b + #[trigger] (turns * 0x1_0000_0000_0000_0000)
}

proof fn lemma_wrapped(number: int)
    ensures
        is_congruent(number, wrapped(number) as int),
{
    let turns = number / 0x1_0000_0000_0000_0000;
    assert(number == wrapped(number) as int + turns * 0x1_0000_0000_0000_0000);
}

/// An absolute relocation comes to its target, a relative one to the distance of the
/// target from the place, and one within a section to the distance of the target
/// from the start of its section; each with the addend.
pub proof fn law_relocations_come_to_their_targets(
    kind: RelocationKind,
    target: u64,
    section_base: u64,
    place: u64,
    addend: i64,
)
    ensures
        relocated_value(kind, target, section_base, place, addend) matches Ok(value) ==> {
            let reached = value + (match kind {
                RelocationKind::Relative => place as int,
                RelocationKind::SectionOffset => section_base as int,
                _ => 0,
            });
            is_congruent(target + addend, reached)
        },
        relocated_value(kind, target, section_base, place, addend) is Ok <==> (kind
            == RelocationKind::Absolute || kind == RelocationKind::Relative || kind
            == RelocationKind::SectionOffset),
{
    lemma_wrapped(target + addend);
    lemma_wrapped(target - place + addend);
    lemma_wrapped(target - section_base + addend);
    match kind {
        RelocationKind::Relative => {
            let value = wrapped(target - place + addend);
            let turns = choose|turns: int|
                target - place + addend == value + #[trigger] (turns * 0x1_0000_0000_0000_0000);
            assert(target + addend == value + place + turns * 0x1_0000_0000_0000_0000);
        },
        RelocationKind::SectionOffset => {
            let value = wrapped(target - section_base + addend);
            let turns = choose|turns: int|
                target - section_base + addend == value + #[trigger] (turns
                    * 0x1_0000_0000_0000_0000);
            assert(target + addend == value + section_base + turns * 0x1_0000_0000_0000_0000);
        },
        _ => {},
    }
}

/// What the relocation at `i` of a section comes to.
pub open spec fn entry_at(data: Seq<u8>, section: SectionView, layout: LayoutView, i: int) -> Result<
    Option<RelocationEntry>,
    ErrorView,
> {
    let relocation = object_file::object_relocations(data, section.index, usize::MAX as nat)[i];
    entry_of(
        relocation,
        section.address,
        target_symbol(data, relocation.target),
        target_section(data, relocation.target),
        layout,
    )
}

/// The relocations of a section are loaded where each can be done and no two have
/// one offset: then each that does anything stands at its offset, and no others do.
pub proof fn law_relocations_are_loaded(
    data: Seq<u8>,
    section: SectionView,
    layout: LayoutView,
    count: nat,
)
    ensures
        loaded(data, section, layout, count) matches Ok(map) ==> {
            &&& forall|i: int|
                0 <= i < count ==> (#[trigger] entry_at(data, section, layout, i)) is Ok
            &&& forall|i: int|
                0 <= i < count ==> ((#[trigger] entry_at(data, section, layout, i))->Ok_0 matches Some(
                    entry,
                ) ==> map.dom().contains(entry.offset) && map[entry.offset] == entry)
            &&& forall|offset: u64| #[trigger]
                map.dom().contains(offset) ==> map[offset].offset == offset && exists|i: int|
                    0 <= i < count && #[trigger] entry_at(data, section, layout, i) == Ok::<
                        Option<RelocationEntry>,
                        ErrorView,
                    >(Some(map[offset]))
        },
    decreases count,
{
    if count > 0 {
        law_relocations_are_loaded(data, section, layout, (count - 1) as nat);
        let m = count - 1;
        if let Ok(map) = loaded(data, section, layout, count) {
            let before = loaded(data, section, layout, (count - 1) as nat)->Ok_0;
            let own = entry_at(data, section, layout, m);
            assert forall|offset: u64| #[trigger]
                map.dom().contains(offset) implies map[offset].offset == offset && exists|i: int|
                    0 <= i < count && #[trigger] entry_at(data, section, layout, i) == Ok::<
                        Option<RelocationEntry>,
                        ErrorView,
                    >(Some(map[offset])) by {
                if before.dom().contains(offset) {
                    let i = choose|i: int|
                        0 <= i < m && #[trigger] entry_at(data, section, layout, i) == Ok::<
                            Option<RelocationEntry>,
                            ErrorView,
                        >(Some(before[offset]));
                    assert(entry_at(data, section, layout, i) == Ok::<
                        Option<RelocationEntry>,
                        ErrorView,
                    >(Some(map[offset])));
                } else {
                    assert(own == Ok::<Option<RelocationEntry>, ErrorView>(Some(map[offset])));
                }
            }
        }
    }
}

/// The relocations of a section of a file.
pub open spec fn section_relocations(
    data: Seq<u8>,
    section: SectionView,
    layout: LayoutView,
) -> Result<Map<u64, RelocationEntry>, ErrorView> {
    loaded(
        data,
        section,
        layout,
        object_file::object_relocations(data, section.index, usize::MAX as nat).len(),
    )
}

fn load_target_section(file: &ObjectFile<'_>, symbol: &Option<Result<Symbol, String>>, target:
    RelocationTarget) -> (section: Option<Result<Section, String>>)
    requires
        symbol_view(*symbol) == target_symbol(file@, target),
    ensures
        symbols::section_view(section) == target_section(file@, target),
{
    match target {
        RelocationTarget::Section(index) => Some(file.section(index)),
        RelocationTarget::Symbol(_) => match symbol {
            Some(Ok(symbol)) => match symbol.section {
                Some(index) => Some(file.section(index)),
                None => None,
            },
            _ => None,
        },
        _ => None,
    }
}

impl DwarfRelocations {
    /// Loads the relocations of a section of debugging information.
    pub fn load(file: &ObjectFile<'_>, section: &Section, layout: &AddressLayout) -> (result:
        Result<Self, Error>)
        ensures
            match section_relocations(file@, section@, layout@) {
                Ok(view) => result matches Ok(relocations) && relocations@ == view,
                Err(view) => result matches Err(error) && error@ == view,
            },
    {
        let list = file.relocations(section.index);
        let ghost views = object_file::object_relocations(
            file@,
            section.index,
            usize::MAX as nat,
        );
        let mut relocations = DwarfRelocations::empty();
        let mut i: usize = 0;
        while i < list.len()
            invariant
                views == object_file::object_relocations(
            file@,
            section.index,
            usize::MAX as nat,
        ),
                object_file::relocation_views(list@) == views,
                i <= list@.len(),
                loaded(file@, section@, layout@, i as nat) == Ok::<
                    Map<u64, RelocationEntry>,
                    ErrorView,
                >(relocations@),
            decreases list@.len() - i,
        {
            let relocation: &Relocation = &list[i];
            proof {
                assert(object_file::relocation_views(list@)[i as int] == relocation@);
                if loaded(file@, section@, layout@, (i + 1) as nat) is Err {
                    lemma_loading_stops(
                        file@,
                        section@,
                        layout@,
                        (i + 1) as nat,
                        views.len(),
                    );
                }
            }
            let symbol: Option<Result<Symbol, String>> = match relocation.target {
                RelocationTarget::Symbol(index) => Some(file.symbol(index)),
                _ => None,
            };
            let target = load_target_section(file, &symbol, relocation.target);
            if let Some(entry) = relocation_entry(
                relocation,
                section.address,
                symbol,
                target,
                layout,
            )? {
                relocations.insert(entry)?;
            }
            i = i + 1;
        }
        Ok(relocations)
    }
}

/// A section of debugging information.
pub struct SectionData {
    /// The bytes.
    pub data: Vec<u8>,
    /// The relocations.
    pub relocations: DwarfRelocations,
}

/// A section of debugging information.
pub struct SectionDataView {
    /// The bytes.
    pub data: Seq<u8>,
    /// The relocations.
    pub relocations: Map<u64, RelocationEntry>,
}

impl View for SectionData {
    type V = SectionDataView;

    open spec fn view(&self) -> SectionDataView {
        SectionDataView { data: self.data@, relocations: self.relocations@ }
    }
}

/// A section that is not there.
pub open spec fn no_section() -> SectionDataView {
    SectionDataView { data: Seq::empty(), relocations: Map::empty() }
}

impl Default for SectionData {
    fn default() -> (section: Self)
        ensures
            section@ == no_section(),
    {
        let section = SectionData { data: Vec::new(), relocations: DwarfRelocations::empty() };
        assert(section.data@ =~= Seq::<u8>::empty());
        section
    }
}

/// The section of a file with a name, with its relocations, once its bytes are
/// read as `contents` says.
pub open spec fn named_section(
    data: Seq<u8>,
    name: Seq<char>,
    layout: LayoutView,
    contents: Result<Seq<u8>, Seq<char>>,
) -> Result<SectionDataView, ErrorView> {
    match object_file::object_section_named(data, name) {
        None => Ok(no_section()),
        Some(section) => match contents {
            Err(text) => Err(
                ErrorView::Malformed {
                    context: "DWARF section",
                    detail: "failed to read "@ + name + ": "@ + text,
                },
            ),
            Ok(bytes) => match section_relocations(data, section, layout) {
                Err(error) => Err(error),
                Ok(relocations) => Ok(SectionDataView { data: bytes, relocations }),
            },
        },
    }
}

/// Whether the section of a file with a name may be loaded as `outcome` says.
pub open spec fn may_be_loaded(
    data: Seq<u8>,
    name: Seq<char>,
    layout: LayoutView,
    outcome: Result<SectionDataView, ErrorView>,
) -> bool {
    exists|contents: Result<Seq<u8>, Seq<char>>|
        {
            &&& object_file::object_section_named(data, name) matches Some(section)
                ==> object_file::may_be_read(data, section.index, contents)
            &&& outcome == #[trigger] named_section(data, name, layout, contents)
        }
}

/// A section, or an error, as they are stated.
pub open spec fn loaded_view(result: Result<SectionData, Error>) -> Result<
    SectionDataView,
    ErrorView,
> {
    match result {
        Ok(section) => Ok(section@),
        Err(error) => Err(error@),
    }
}

fn unreadable(name: &str, source: &String) -> (error: Error)
    ensures
        error@ == (ErrorView::Malformed {
            context: "DWARF section",
            detail: "failed to read "@ + name@ + ": "@ + source@,
        }),
{
    let mut detail = String::from_str("failed to read ");
    detail.append(name);
    detail.append(": ");
    detail.append(source.as_str());
    Error::Malformed { context: "DWARF section", detail: Detail::Described(detail) }
}

/// Adds the relocations to the bytes of a section of a file, or says why they
/// could not be read.
pub fn section_with(
    file: &ObjectFile<'_>,
    section: &Section,
    name: &str,
    layout: &AddressLayout,
    contents: Result<Vec<u8>, String>,
) -> (result: Result<SectionData, Error>)
    requires
        object_file::object_section_named(file@, name@) == Some(section@),
    ensures
        loaded_view(result) == named_section(
            file@,
            name@,
            layout@,
            object_file::outcome_view(contents),
        ),
{
    let data: Vec<u8> = match contents {
        Ok(data) => data,
        Err(source) => return Err(unreadable(name, &source)),
    };
    let relocations = DwarfRelocations::load(file, section, layout)?;
    Ok(SectionData { data, relocations })
}

/// Loads the section of a file with a name, with its relocations.
pub fn load_named_section(file: &ObjectFile<'_>, name: &str, layout: &AddressLayout) -> (result:
    Result<SectionData, Error>)
    ensures
        may_be_loaded(file@, name@, layout@, loaded_view(result)),
{
    let section: Section = match file.section_named(name) {
        Some(section) => section,
        None => {
            let section = SectionData::default();
            assert(Ok::<SectionDataView, ErrorView>(section@) == named_section(
                file@,
                name@,
                layout@,
                Err(Seq::empty()),
            ));
            return Ok(section);
        },
    };
    let contents = file.uncompressed_data(section.index);
    section_with(file, &section, name, layout, contents)
}

} // verus!
