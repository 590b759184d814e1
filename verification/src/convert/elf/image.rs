//! Address layout, identity and symbols of an image.
use std::collections::HashMap;

use vstd::prelude::*;
use vstd::std_specs::hash::*;
use vstd::string::*;

use crate::convert::dwarf::ranges;
use crate::convert::dwarf::ranges::sort_ranges;
use crate::convert::elf::object_file;
use crate::convert::elf::object_file::{
    malformed, HeaderView, ObjectFile, ObjectHeader, ObjectKind, Section, SectionKind, SectionView,
};
use crate::error::{CompanionMismatch, ElfInputKind, Error, ErrorView};
use crate::model::{same_bytes, AddressRange};

verus! {

broadcast use vstd::std_specs::hash::group_hash_axioms;

/// Whether an object of this kind can be converted.
pub open spec fn is_supported(kind: ObjectKind) -> bool {
    kind != ObjectKind::Other
}

/// Rejects objects that are neither linked images nor relocatable.
pub fn require_supported_kind(kind: ObjectKind) -> (result: Result<(), Error>)
    ensures
        result == (if is_supported(kind) {
            Ok::<(), Error>(())
        } else {
            Err(Error::InvalidModel("ELF input is not ET_EXEC, ET_DYN, or ET_REL"))
        }),
{
    match kind {
        ObjectKind::Other => Err(
            Error::InvalidModel("ELF input is not ET_EXEC, ET_DYN, or ET_REL"),
        ),
        _ => Ok(()),
    }
}

/// The first bytes of the name of a debug section.
pub open spec fn debug_prefix() -> Seq<u8> {
    seq![0x2e, 0x64, 0x65, 0x62, 0x75, 0x67, 0x5f]
}

/// The first bytes of the name of a debug section that is compressed.
pub open spec fn zdebug_prefix() -> Seq<u8> {
    seq![0x2e, 0x7a, 0x64, 0x65, 0x62, 0x75, 0x67, 0x5f]
}

/// Whether bytes start with others.
pub open spec fn starts_with(bytes: Seq<u8>, prefix: Seq<u8>) -> bool {
    prefix.len() <= bytes.len() && bytes.subrange(0, prefix.len() as int) == prefix
}

/// Whether a section holds debugging information.
pub open spec fn is_debug(section: SectionView) -> bool {
    section.kind == SectionKind::Debug || match section.name {
        Some(name) => starts_with(name, debug_prefix()) || starts_with(name, zdebug_prefix()),
        None => false,
    }
}

fn begins_with(bytes: &Vec<u8>, prefix: &[u8]) -> (begins: bool)
    ensures
        begins == starts_with(bytes@, prefix@),
{
    let count: usize = prefix.len();
    if count > bytes.len() {
        return false;
    }
    let mut i: usize = 0;
    while i < count
        invariant
            count == prefix@.len(),
            count <= bytes@.len(),
            i <= count,
            forall|k: int| 0 <= k < i ==> bytes@[k] == prefix@[k],
        decreases count - i,
    {
        if bytes[i] != prefix[i] {
            assert(bytes@.subrange(0, count as int)[i as int] != prefix@[i as int]);
            return false;
        }
        i = i + 1;
    }
    assert(bytes@.subrange(0, count as int) =~= prefix@);
    true
}

/// Returns whether a section holds debugging information.
pub fn is_debug_section(section: &Section) -> (debug: bool)
    ensures
        debug == is_debug(section@),
{
    if section.kind == SectionKind::Debug {
        return true;
    }
    match &section.name {
        Some(name) => {
            let plain: [u8; 7] = [0x2e, 0x64, 0x65, 0x62, 0x75, 0x67, 0x5f];
            let compressed: [u8; 8] = [0x2e, 0x7a, 0x64, 0x65, 0x62, 0x75, 0x67, 0x5f];
            assert(plain@ =~= debug_prefix());
            assert(compressed@ =~= zdebug_prefix());
            begins_with(name, plain.as_slice()) || begins_with(name, compressed.as_slice())
        },
        None => false,
    }
}

/// The next multiple of sixteen.
pub open spec fn aligned(value: u64) -> Result<u64, Error> {
    if value + 15 > u64::MAX {
        Err(Error::Overflow("relocatable section alignment"))
    } else {
        Ok(((value + 15) / 16 * 16) as u64)
    }
}

/// Rounds an address up to a multiple of sixteen.
pub fn align_section(value: u64) -> (result: Result<u64, Error>)
    ensures
        result == aligned(value),
{
    match value.checked_add(15) {
        Some(sum) => Ok(sum / 16 * 16),
        None => Err(Error::Overflow("relocatable section alignment")),
    }
}

/// Sections that have been laid out.
pub struct Layout {
    /// Executable ranges in the order of the sections.
    pub ranges: Seq<AddressRange>,
    /// Addresses that sections of a relocatable object were given.
    pub bases: Map<usize, u64>,
    /// First address that no section uses.
    pub next: u64,
    /// The error that ended the layout.
    pub error: Option<Error>,
}

/// A layout with an executable section.
pub open spec fn with_text(layout: Layout, section: SectionView, relocatable: bool) -> Layout {
    if section.kind != SectionKind::Text || section.size == 0 {
        layout
    } else {
        let base = if relocatable {
            aligned(layout.next)
        } else {
            Ok(section.address)
        };
        match base {
            Err(error) => Layout { error: Some(error), ..layout },
            Ok(base) => if base + section.size > u64::MAX {
                Layout { error: Some(Error::Overflow("executable section end")), ..layout }
            } else {
                let end = (base + section.size) as u64;
                let ranges = layout.ranges.push(AddressRange { start: base, end });
                if relocatable {
                    Layout {
                        ranges,
                        bases: layout.bases.insert(section.index, base),
                        next: end,
                        error: None,
                    }
                } else {
                    Layout { ranges, ..layout }
                }
            },
        }
    }
}

/// A layout with a section that is neither executable nor debugging
/// information.
pub open spec fn with_other(layout: Layout, section: SectionView) -> Layout {
    if section.size == 0 || layout.bases.dom().contains(section.index) || is_debug(section) {
        layout
    } else {
        match aligned(layout.next) {
            Err(error) => Layout { error: Some(error), ..layout },
            Ok(base) => if base + section.size > u64::MAX {
                Layout {
                    bases: layout.bases.insert(section.index, base),
                    error: Some(Error::Overflow("relocatable section end")),
                    ..layout
                }
            } else {
                Layout {
                    bases: layout.bases.insert(section.index, base),
                    next: (base + section.size) as u64,
                    ..layout
                }
            },
        }
    }
}

/// A layout with the first `count` sections as far as they are executable.
pub open spec fn text_layout(sections: Seq<SectionView>, relocatable: bool, count: nat) -> Layout
    decreases count,
{
    if count == 0 {
        Layout { ranges: Seq::empty(), bases: Map::empty(), next: 0, error: None }
    } else {
        let before = text_layout(sections, relocatable, (count - 1) as nat);
        if before.error is Some {
            before
        } else {
            with_text(before, sections[count - 1], relocatable)
        }
    }
}

/// A layout with the first `count` sections that are not in it yet.
pub open spec fn other_layout(layout: Layout, sections: Seq<SectionView>, count: nat) -> Layout
    decreases count,
{
    if count == 0 {
        layout
    } else {
        let before = other_layout(layout, sections, (count - 1) as nat);
        if before.error is Some {
            before
        } else {
            with_other(before, sections[count - 1])
        }
    }
}

/// The layout of sections.
pub open spec fn layout_of(sections: Seq<SectionView>, relocatable: bool) -> Layout {
    let text = text_layout(sections, relocatable, sections.len());
    if text.error is None && relocatable {
        other_layout(text, sections, sections.len())
    } else {
        text
    }
}

proof fn lemma_text_stops(
    sections: Seq<SectionView>,
    relocatable: bool,
    count: nat,
    whole: nat,
)
    requires
        count <= whole,
        text_layout(sections, relocatable, count).error is Some,
    ensures
        text_layout(sections, relocatable, whole) == text_layout(sections, relocatable, count),
    decreases whole,
{
    if count < whole {
        lemma_text_stops(sections, relocatable, count, (whole - 1) as nat);
    }
}

proof fn lemma_other_stops(layout: Layout, sections: Seq<SectionView>, count: nat, whole: nat)
    requires
        count <= whole,
        other_layout(layout, sections, count).error is Some,
    ensures
        other_layout(layout, sections, whole) == other_layout(layout, sections, count),
    decreases whole,
{
    if count < whole {
        lemma_other_stops(layout, sections, count, (whole - 1) as nat);
    }
}

/// Where the sections of an image lie.
///
/// A relocatable object has no addresses of its own: its sections are laid out
/// one after another.
pub struct AddressLayout {
    ranges: Vec<AddressRange>,
    section_bases: HashMap<usize, u64>,
    relocatable: bool,
}

/// Where the sections of an image lie.
pub struct LayoutView {
    /// Executable ranges by address.
    pub ranges: Seq<AddressRange>,
    /// Addresses that sections of a relocatable object were given.
    pub bases: Map<usize, u64>,
    /// Whether the object is relocatable.
    pub relocatable: bool,
}

impl View for AddressLayout {
    type V = LayoutView;

    closed spec fn view(&self) -> LayoutView {
        LayoutView {
            ranges: self.ranges@,
            bases: self.section_bases@,
            relocatable: self.relocatable,
        }
    }
}

/// The layout of an image with the given sections.
pub open spec fn image_layout(sections: Seq<SectionView>, relocatable: bool) -> Result<
    LayoutView,
    Error,
> {
    let layout = layout_of(sections, relocatable);
    match layout.error {
        Some(error) => Err(error),
        None => Ok(
            LayoutView {
                ranges: ranges::sorted_ranges(layout.ranges),
                bases: layout.bases,
                relocatable,
            },
        ),
    }
}

/// The address of a section in a layout.
pub open spec fn base_of(layout: LayoutView, section: SectionView) -> Result<u64, Error> {
    if !layout.relocatable || is_debug(section) {
        Ok(section.address)
    } else if layout.bases.dom().contains(section.index) {
        Ok(layout.bases[section.index])
    } else {
        Err(Error::InvalidModel("relocation targets an unknown section"))
    }
}

/// Sections that are being laid out.
struct Placed {
    ranges: Vec<AddressRange>,
    section_bases: HashMap<usize, u64>,
    next: u64,
}

spec fn placed(state: Placed) -> Layout {
    Layout {
        ranges: state.ranges@,
        bases: state.section_bases@,
        next: state.next,
        error: None,
    }
}

fn place_text(state: &mut Placed, section: &Section, relocatable: bool) -> (result: Result<
    (),
    Error,
>)
    ensures
        ({
            let next = with_text(placed(*old(state)), section@, relocatable);
            match next.error {
                Some(error) => result == Err::<(), Error>(error),
                None => result == Ok::<(), Error>(()) && placed(*final(state)) == next,
            }
        }),
{
    if section.kind != SectionKind::Text || section.size == 0 {
        return Ok(());
    }
    let base: u64 = if relocatable {
        align_section(state.next)?
    } else {
        section.address
    };
    let end: u64 = match base.checked_add(section.size) {
        Some(end) => end,
        None => return Err(Error::Overflow("executable section end")),
    };
    if relocatable {
        state.section_bases.insert(section.index, base);
        state.next = end;
    }
    state.ranges.push(AddressRange::new(base, end));
    Ok(())
}

fn place_other(state: &mut Placed, section: &Section) -> (result: Result<(), Error>)
    ensures
        ({
            let next = with_other(placed(*old(state)), section@);
            match next.error {
                Some(error) => result == Err::<(), Error>(error),
                None => result == Ok::<(), Error>(()) && placed(*final(state)) == next,
            }
        }),
{
    if section.size == 0 || state.section_bases.contains_key(&section.index) || is_debug_section(
        section,
    ) {
        return Ok(());
    }
    let base: u64 = align_section(state.next)?;
    state.section_bases.insert(section.index, base);
    state.next =
    match base.checked_add(section.size) {
        Some(end) => end,
        None => return Err(Error::Overflow("relocatable section end")),
    };
    Ok(())
}

impl AddressLayout {
    /// Lays the sections of an image out.
    pub fn from_sections(sections: &Vec<Section>, relocatable: bool) -> (result: Result<
        Self,
        Error,
    >)
        ensures
            match image_layout(object_file::section_views(sections@), relocatable) {
                Ok(view) => result matches Ok(layout) && layout@ == view,
                Err(error) => result == Err::<Self, Error>(error),
            },
    {
        let ghost views = object_file::section_views(sections@);
        let mut state = Placed { ranges: Vec::new(), section_bases: HashMap::new(), next: 0 };
        proof {
            assert(state.ranges@ =~= Seq::<AddressRange>::empty());
            assert(state.section_bases@ =~= Map::empty());
        }
        let mut i: usize = 0;
        while i < sections.len()
            invariant
                views == object_file::section_views(sections@),
                i <= sections@.len(),
                placed(state) == text_layout(views, relocatable, i as nat),
            decreases sections@.len() - i,
        {
            proof {
                assert(views[i as int] == sections@[i as int]@);
                if text_layout(views, relocatable, (i + 1) as nat).error is Some {
                    lemma_text_stops(views, relocatable, (i + 1) as nat, views.len());
                }
            }
            place_text(&mut state, &sections[i], relocatable)?;
            i = i + 1;
        }
        if relocatable {
            let ghost text = placed(state);
            let mut j: usize = 0;
            while j < sections.len()
                invariant
                    relocatable,
                    views == object_file::section_views(sections@),
                    text == text_layout(views, relocatable, views.len()),
                    text.error is None,
                    j <= sections@.len(),
                    placed(state) == other_layout(text, views, j as nat),
                decreases sections@.len() - j,
            {
                proof {
                    assert(views[j as int] == sections@[j as int]@);
                    if other_layout(text, views, (j + 1) as nat).error is Some {
                        lemma_other_stops(text, views, (j + 1) as nat, views.len());
                    }
                }
                place_other(&mut state, &sections[j])?;
                j = j + 1;
            }
        }
        let sorted = sort_ranges(&state.ranges);
        Ok(AddressLayout { ranges: sorted, section_bases: state.section_bases, relocatable })
    }

    /// Lays the sections of an object file out.
    pub fn new(file: &ObjectFile<'_>) -> (result: Result<Self, Error>)
        ensures
            object_file::object_header(file@) matches Ok(header) && match image_layout(
                object_file::object_sections(file@),
                header.kind == ObjectKind::Relocatable,
            ) {
                Ok(view) => result matches Ok(layout) && layout@ == view,
                Err(error) => result == Err::<Self, Error>(error),
            },
    {
        let relocatable: bool = file.header().kind == ObjectKind::Relocatable;
        AddressLayout::from_sections(&file.sections(), relocatable)
    }

    /// Returns the executable ranges by address.
    pub fn ranges(&self) -> (ranges: &Vec<AddressRange>)
        ensures
            ranges@ == self@.ranges,
    {
        &self.ranges
    }

    /// Returns whether the object is relocatable.
    pub fn is_relocatable(&self) -> (relocatable: bool)
        ensures
            relocatable == self@.relocatable,
    {
        self.relocatable
    }

    /// Returns the address of a section.
    pub fn section_base(&self, section: &Section) -> (result: Result<u64, Error>)
        ensures
            result == base_of(self@, section@),
    {
        if !self.relocatable || is_debug_section(section) {
            return Ok(section.address);
        }
        match self.section_bases.get(&section.index) {
            Some(base) => Ok(*base),
            None => Err(Error::InvalidModel("relocation targets an unknown section")),
        }
    }
}

/// Whether two objects are for different machines.
pub open spec fn differs_in_architecture(image: HeaderView, companion: HeaderView) -> bool {
    image.architecture != companion.architecture || image.is_64 != companion.is_64
        || image.little_endian != companion.little_endian
}

/// The error of a companion for a different machine.
pub open spec fn architecture_error(
    image: HeaderView,
    companion: HeaderView,
    input: ElfInputKind,
) -> Option<Error> {
    if differs_in_architecture(image, companion) {
        Some(
            Error::CompanionMismatch { input, mismatch: CompanionMismatch::Architecture },
        )
    } else {
        None
    }
}

/// The error of a companion that does not belong to an image.
pub open spec fn identity_error(
    image: HeaderView,
    companion: HeaderView,
    image_id: Result<Option<Seq<u8>>, Seq<char>>,
    companion_id: Result<Option<Seq<u8>>, Seq<char>>,
    input: ElfInputKind,
) -> Option<ErrorView> {
    match architecture_error(image, companion, input) {
        Some(error) => Some(error@),
        None => match image_id {
            Err(text) => Some(object_file::parser_error("image build ID", text)),
            Ok(image_id) => match companion_id {
                Err(text) => Some(object_file::parser_error("companion build ID", text)),
                Ok(companion_id) => if image_id is Some && companion_id is Some && image_id
                    != companion_id {
                    Some(
                        ErrorView::Plain(
                            Error::CompanionMismatch {
                                input,
                                mismatch: CompanionMismatch::BuildId,
                            },
                        ),
                    )
                } else {
                    None
                },
            },
        },
    }
}

/// What a build identifier result says.
pub open spec fn id_view(id: Result<Option<Vec<u8>>, String>) -> Result<
    Option<Seq<u8>>,
    Seq<char>,
> {
    match id {
        Ok(id) => Ok(object_file::optional_bytes(id)),
        Err(source) => Err(source@),
    }
}

/// Rejects a companion for a different machine.
pub fn cross_check_elf_architecture(
    image: &ObjectHeader,
    companion: &ObjectHeader,
    input: ElfInputKind,
) -> (result: Result<(), Error>)
    ensures
        result == (match architecture_error(image@, companion@, input) {
            Some(error) => Err::<(), Error>(error),
            None => Ok(()),
        }),
{
    if !(image.architecture == companion.architecture) || image.is_64 != companion.is_64
        || image.little_endian != companion.little_endian {
        Err(Error::CompanionMismatch { input, mismatch: CompanionMismatch::Architecture })
    } else {
        Ok(())
    }
}

/// Rejects a companion that does not belong to an image: one for a different
/// machine, or one with another build identifier.
pub fn check_identity(
    image: &ObjectHeader,
    companion: &ObjectHeader,
    image_id: Result<Option<Vec<u8>>, String>,
    companion_id: Result<Option<Vec<u8>>, String>,
    input: ElfInputKind,
) -> (result: Result<(), Error>)
    ensures
        match identity_error(image@, companion@, id_view(image_id), id_view(companion_id), input) {
            Some(view) => result matches Err(error) && error@ == view,
            None => result == Ok::<(), Error>(()),
        },
{
    cross_check_elf_architecture(image, companion, input)?;
    let image_id: Option<Vec<u8>> = match image_id {
        Ok(id) => id,
        Err(source) => return Err(malformed("image build ID", source)),
    };
    let companion_id: Option<Vec<u8>> = match companion_id {
        Ok(id) => id,
        Err(source) => return Err(malformed("companion build ID", source)),
    };
    if let Some(expected) = &image_id {
        if let Some(found) = &companion_id {
            if !same_bytes(expected.as_slice(), found.as_slice()) {
                return Err(
                    Error::CompanionMismatch { input, mismatch: CompanionMismatch::BuildId },
                );
            }
        }
    }
    Ok(())
}

/// The error of a companion that does not belong to an image, by their bytes.
pub open spec fn companion_error(
    image: Seq<u8>,
    companion: Seq<u8>,
    input: ElfInputKind,
) -> Option<ErrorView> {
    identity_error(
        object_file::object_header(image)->Ok_0,
        object_file::object_header(companion)->Ok_0,
        object_file::object_build_id(image),
        object_file::object_build_id(companion),
        input,
    )
}

/// Rejects a companion file that does not belong to an image.
pub fn cross_check_elf_identity(
    image: &ObjectFile<'_>,
    companion: &ObjectFile<'_>,
    input: ElfInputKind,
) -> (result: Result<(), Error>)
    ensures
        match companion_error(image@, companion@, input) {
            Some(view) => result matches Err(error) && error@ == view,
            None => result == Ok::<(), Error>(()),
        },
{
    check_identity(
        image.header(),
        companion.header(),
        image.build_id(),
        companion.build_id(),
        input,
    )
}

/// Whether sections of a relocatable object lie apart, each on a multiple of
/// sixteen, and below the first free address.
pub open spec fn lies_apart(layout: Layout) -> bool {
    &&& forall|i: int|
        0 <= i < layout.ranges.len() ==> (#[trigger] layout.ranges[i]).start % 16 == 0
            && layout.ranges[i].start < layout.ranges[i].end <= layout.next
    &&& forall|i: int, j: int|
        0 <= i < j < layout.ranges.len() ==> (#[trigger] layout.ranges[i]).end <= (
        #[trigger] layout.ranges[j]).start
    &&& forall|index: usize| #[trigger]
        layout.bases.dom().contains(index) ==> layout.bases[index] % 16 == 0
}

proof fn lemma_text_apart(sections: Seq<SectionView>, count: nat)
    ensures
        lies_apart(text_layout(sections, true, count)),
    decreases count,
{
    if count > 0 {
        lemma_text_apart(sections, (count - 1) as nat);
    }
}

proof fn lemma_other_apart(layout: Layout, sections: Seq<SectionView>, count: nat)
    requires
        lies_apart(layout),
    ensures
        lies_apart(other_layout(layout, sections, count)),
        other_layout(layout, sections, count).ranges == layout.ranges,
    decreases count,
{
    if count > 0 {
        lemma_other_apart(layout, sections, (count - 1) as nat);
    }
}

/// The executable sections of a relocatable object are laid out apart from one
/// another, and every section that is given an address starts at a multiple of
/// sixteen.
pub proof fn law_relocatable_sections_lie_apart(sections: Seq<SectionView>)
    ensures
        lies_apart(layout_of(sections, true)),
{
    lemma_text_apart(sections, sections.len());
    let text = text_layout(sections, true, sections.len());
    if text.error is None {
        lemma_other_apart(text, sections, sections.len());
    }
}

} // verus!
