//! DWARF data as the parser holds it.
//!
//! The parser reads sections through a reader that applies their relocations.
//! What it finds in them is named over the sections alone: over their bytes,
//! their relocations and their byte order.
use gimli::Error as GimliError;
use gimli::{EndianSlice, RelocateReader, RunTimeEndian};
use vstd::prelude::*;
use vstd::string::*;

use crate::convert::dwarf::sections;
use crate::convert::dwarf::sections::{
    is_text, load_named_section, DwarfRelocations, SectionData, SectionDataView,
};
use crate::convert::elf::image::{AddressLayout, LayoutView};
use crate::convert::elf::object_file::ObjectFile;
use crate::error::{Error, ErrorView};

verus! {

/// The error type of the DWARF parser.
#[verifier::external_type_specification]
#[verifier::external_body]
pub struct ExGimliError(GimliError);

/// Relocations of a section, as the parser applies them.
#[derive(Clone, Copy, Debug)]
pub struct Relocations<'a>(pub &'a DwarfRelocations);

impl<'a> gimli::Relocate<usize> for Relocations<'a> {
    fn relocate_address(&self, offset: usize, value: u64) -> (result: Result<u64, GimliError>)
        ensures
            result == Ok::<u64, GimliError>(sections::applied(self.0@, offset, value)),
    {
        Ok(self.0.apply(offset, value))
    }

    fn relocate_offset(&self, offset: usize, value: usize) -> (result: Result<usize, GimliError>)
        ensures
            ({
                let relocated = sections::applied(self.0@, offset, value as u64);
                if relocated <= usize::MAX {
                    result == Ok::<usize, GimliError>(relocated as usize)
                } else {
                    result is Err
                }
            }),
    {
        offset_from(self.0.apply(offset, value as u64))
    }
}

/// Calls `gimli::ReaderOffset::from_u64` for `usize`, which gives the number
/// back where it fits, and an error where it does not.
#[verifier::external_body]
fn offset_from(number: u64) -> (result: Result<usize, GimliError>)
    ensures
        if number <= usize::MAX {
            result == Ok::<usize, GimliError>(number as usize)
        } else {
            result is Err
        },
{
    gimli::ReaderOffset::from_u64(number)
}

/// A section with the name that the parser asks for it by.
pub struct NamedSection {
    /// Name.
    pub name: &'static str,
    /// Bytes and relocations.
    pub section: SectionData,
}

/// A section with the name that the parser asks for it by.
pub struct NamedView {
    /// Name.
    pub name: Seq<char>,
    /// Bytes and relocations.
    pub section: SectionDataView,
}

impl View for NamedSection {
    type V = NamedView;

    open spec fn view(&self) -> NamedView {
        NamedView { name: self.name@, section: self.section@ }
    }
}

/// The sections of a file that hold DWARF data.
pub struct SectionSet {
    sections: Vec<NamedSection>,
    empty: SectionData,
    little_endian: bool,
}

/// The sections of a file that hold DWARF data.
pub struct SetView {
    /// The sections.
    pub sections: Seq<NamedView>,
    /// Whether numbers in them start with the least significant byte.
    pub little_endian: bool,
}

impl View for SectionSet {
    type V = SetView;

    closed spec fn view(&self) -> SetView {
        SetView {
            sections: named_views(self.sections@),
            little_endian: self.little_endian,
        }
    }
}

/// Named sections as they are stated.
pub open spec fn named_views(sections: Seq<NamedSection>) -> Seq<NamedView> {
    sections.map_values(|section: NamedSection| section@)
}

/// The section with a name among those from `from` on; one that is not there is
/// empty.
pub open spec fn section_from(
    sections: Seq<NamedView>,
    name: Seq<char>,
    from: int,
) -> SectionDataView
    decreases sections.len() - from,
{
    if from < 0 || from >= sections.len() {
        sections::no_section()
    } else if sections[from].name == name {
        sections[from].section
    } else {
        section_from(sections, name, from + 1)
    }
}

impl SectionSet {
    #[verifier::type_invariant]
    spec fn inv(self) -> bool {
        self.empty@ == sections::no_section()
    }

    /// Returns the section with a name, which is empty where there is none.
    pub fn section(&self, name: &str) -> (section: &SectionData)
        ensures
            section@ == section_from(self@.sections, name@, 0),
    {
        proof {
            use_type_invariant(self);
        }
        let wanted = String::from_str(name);
        let mut i: usize = 0;
        while i < self.sections.len()
            invariant
                wanted@ == name@,
                self.empty@ == sections::no_section(),
                i <= self.sections@.len(),
                section_from(self@.sections, name@, 0) == section_from(
                    self@.sections,
                    name@,
                    i as int,
                ),
            decreases self.sections@.len() - i,
        {
            let named: &NamedSection = &self.sections[i];
            assert(self@.sections[i as int] == named@);
            if is_text(&wanted, named.name) {
                return &named.section;
            }
            i = i + 1;
        }
        &self.empty
    }
}

/// What a set of sections is for.
#[derive(Clone, Copy, Debug, PartialEq, Eq, Structural)]
pub enum SetKind {
    /// The DWARF data of an image.
    Whole,
    /// The split data of a unit.
    Split,
    /// A package of split data.
    Package,
}

/// The sections that the parser asks for, and the names that a file has for
/// them, in the order in which they are loaded.
pub open spec fn set_names(kind: SetKind) -> Seq<(Seq<char>, Option<Seq<char>>)> {
    match kind {
        SetKind::Whole => seq![
            (".debug_abbrev"@, Some(".debug_abbrev"@)),
            (".debug_addr"@, Some(".debug_addr"@)),
            (".debug_aranges"@, Some(".debug_aranges"@)),
            (".debug_info"@, Some(".debug_info"@)),
            (".debug_line"@, Some(".debug_line"@)),
            (".debug_line_str"@, Some(".debug_line_str"@)),
            (".debug_macinfo"@, Some(".debug_macinfo"@)),
            (".debug_macro"@, Some(".debug_macro"@)),
            (".debug_names"@, Some(".debug_names"@)),
            (".debug_str"@, Some(".debug_str"@)),
            (".debug_str_offsets"@, Some(".debug_str_offsets"@)),
            (".debug_types"@, Some(".debug_types"@)),
            (".debug_loc"@, Some(".debug_loc"@)),
            (".debug_loclists"@, Some(".debug_loclists"@)),
            (".debug_ranges"@, Some(".debug_ranges"@)),
            (".debug_rnglists"@, Some(".debug_rnglists"@)),
        ],
        SetKind::Split => seq![
            (".debug_abbrev"@, Some(".debug_abbrev.dwo"@)),
            (".debug_addr"@, None),
            (".debug_aranges"@, None),
            (".debug_info"@, Some(".debug_info.dwo"@)),
            (".debug_line"@, Some(".debug_line.dwo"@)),
            (".debug_line_str"@, None),
            (".debug_macinfo"@, Some(".debug_macinfo.dwo"@)),
            (".debug_macro"@, Some(".debug_macro.dwo"@)),
            (".debug_names"@, None),
            (".debug_str"@, Some(".debug_str.dwo"@)),
            (".debug_str_offsets"@, Some(".debug_str_offsets.dwo"@)),
            (".debug_types"@, Some(".debug_types.dwo"@)),
            (".debug_loc"@, Some(".debug_loc.dwo"@)),
            (".debug_loclists"@, Some(".debug_loclists.dwo"@)),
            (".debug_ranges"@, None),
            (".debug_rnglists"@, Some(".debug_rnglists.dwo"@)),
        ],
        SetKind::Package => seq![
            (".debug_cu_index"@, Some(".debug_cu_index"@)),
            (".debug_tu_index"@, Some(".debug_tu_index"@)),
            (".debug_abbrev"@, Some(".debug_abbrev.dwo"@)),
            (".debug_info"@, Some(".debug_info.dwo"@)),
            (".debug_line"@, Some(".debug_line.dwo"@)),
            (".debug_macinfo"@, Some(".debug_macinfo.dwo"@)),
            (".debug_macro"@, Some(".debug_macro.dwo"@)),
            (".debug_str"@, Some(".debug_str.dwo"@)),
            (".debug_str_offsets"@, Some(".debug_str_offsets.dwo"@)),
            (".debug_loc"@, Some(".debug_loc.dwo"@)),
            (".debug_loclists"@, Some(".debug_loclists.dwo"@)),
            (".debug_rnglists"@, Some(".debug_rnglists.dwo"@)),
            (".debug_types"@, Some(".debug_types.dwo"@)),
        ],
    }
}

/// Names of sections as they are stated.
pub open spec fn name_views(names: Seq<(&'static str, Option<&'static str>)>) -> Seq<
    (Seq<char>, Option<Seq<char>>),
> {
    names.map_values(
        |name: (&'static str, Option<&'static str>)|
            (
                name.0@,
                match name.1 {
                    Some(stored) => Some(stored@),
                    None => None,
                },
            ),
    )
}

fn section_names(kind: SetKind) -> (names: Vec<(&'static str, Option<&'static str>)>)
    ensures
        name_views(names@) == set_names(kind),
{
    let names: Vec<(&'static str, Option<&'static str>)> = match kind {
        SetKind::Whole => vec![
            (".debug_abbrev", Some(".debug_abbrev")),
            (".debug_addr", Some(".debug_addr")),
            (".debug_aranges", Some(".debug_aranges")),
            (".debug_info", Some(".debug_info")),
            (".debug_line", Some(".debug_line")),
            (".debug_line_str", Some(".debug_line_str")),
            (".debug_macinfo", Some(".debug_macinfo")),
            (".debug_macro", Some(".debug_macro")),
            (".debug_names", Some(".debug_names")),
            (".debug_str", Some(".debug_str")),
            (".debug_str_offsets", Some(".debug_str_offsets")),
            (".debug_types", Some(".debug_types")),
            (".debug_loc", Some(".debug_loc")),
            (".debug_loclists", Some(".debug_loclists")),
            (".debug_ranges", Some(".debug_ranges")),
            (".debug_rnglists", Some(".debug_rnglists")),
        ],
        SetKind::Split => vec![
            (".debug_abbrev", Some(".debug_abbrev.dwo")),
            (".debug_addr", None),
            (".debug_aranges", None),
            (".debug_info", Some(".debug_info.dwo")),
            (".debug_line", Some(".debug_line.dwo")),
            (".debug_line_str", None),
            (".debug_macinfo", Some(".debug_macinfo.dwo")),
            (".debug_macro", Some(".debug_macro.dwo")),
            (".debug_names", None),
            (".debug_str", Some(".debug_str.dwo")),
            (".debug_str_offsets", Some(".debug_str_offsets.dwo")),
            (".debug_types", Some(".debug_types.dwo")),
            (".debug_loc", Some(".debug_loc.dwo")),
            (".debug_loclists", Some(".debug_loclists.dwo")),
            (".debug_ranges", None),
            (".debug_rnglists", Some(".debug_rnglists.dwo")),
        ],
        SetKind::Package => vec![
            (".debug_cu_index", Some(".debug_cu_index")),
            (".debug_tu_index", Some(".debug_tu_index")),
            (".debug_abbrev", Some(".debug_abbrev.dwo")),
            (".debug_info", Some(".debug_info.dwo")),
            (".debug_line", Some(".debug_line.dwo")),
            (".debug_macinfo", Some(".debug_macinfo.dwo")),
            (".debug_macro", Some(".debug_macro.dwo")),
            (".debug_str", Some(".debug_str.dwo")),
            (".debug_str_offsets", Some(".debug_str_offsets.dwo")),
            (".debug_loc", Some(".debug_loc.dwo")),
            (".debug_loclists", Some(".debug_loclists.dwo")),
            (".debug_rnglists", Some(".debug_rnglists.dwo")),
            (".debug_types", Some(".debug_types.dwo")),
        ],
    };
    assert(name_views(names@) =~= set_names(kind));
    names
}

/// Whether sections may be the first of a set that are loaded from a file.
pub open spec fn may_come_first(
    data: Seq<u8>,
    layout: LayoutView,
    kind: SetKind,
    found: Seq<NamedView>,
) -> bool {
    &&& found.len() <= set_names(kind).len()
    &&& forall|i: int|
        0 <= i < found.len() ==> {
            &&& (#[trigger] found[i]).name == set_names(kind)[i].0
            &&& match set_names(kind)[i].1 {
                None => found[i].section == sections::no_section(),
                Some(name) => sections::may_be_loaded(data, name, layout, Ok(found[i].section)),
            }
        }
}

/// Whether the first sections of a set may be loaded from a file and the next
/// one may not.
pub open spec fn may_stop_after(
    data: Seq<u8>,
    layout: LayoutView,
    kind: SetKind,
    found: Seq<NamedView>,
    error: ErrorView,
) -> bool {
    &&& may_come_first(data, layout, kind, found)
    &&& found.len() < set_names(kind).len()
    &&& set_names(kind)[found.len() as int].1 matches Some(name) && sections::may_be_loaded(
        data,
        name,
        layout,
        Err(error),
    )
}

/// Whether a set of sections may be loaded from a file as `outcome` says: each
/// section in turn, up to the first that cannot be.
pub open spec fn may_load_set(
    data: Seq<u8>,
    layout: LayoutView,
    kind: SetKind,
    little_endian: bool,
    outcome: Result<SetView, ErrorView>,
) -> bool {
    match outcome {
        Ok(set) => {
            &&& set.little_endian == little_endian
            &&& set.sections.len() == set_names(kind).len()
            &&& may_come_first(data, layout, kind, set.sections)
        },
        Err(error) => exists|found: Seq<NamedView>|
            may_stop_after(data, layout, kind, found, error),
    }
}

/// A set of sections, or an error, as they are stated.
pub open spec fn set_outcome(result: Result<SectionSet, Error>) -> Result<SetView, ErrorView> {
    match result {
        Ok(set) => Ok(set@),
        Err(error) => Err(error@),
    }
}

impl SectionSet {
    /// Loads a set of sections from a file, with their relocations. Numbers in
    /// them are read in the given byte order.
    pub fn load(
        file: &ObjectFile<'_>,
        layout: &AddressLayout,
        kind: SetKind,
        little_endian: bool,
    ) -> (result: Result<Self, Error>)
        ensures
            may_load_set(file@, layout@, kind, little_endian, set_outcome(result)),
    {
        let names = section_names(kind);
        let mut found: Vec<NamedSection> = Vec::new();
        let mut i: usize = 0;
        while i < names.len()
            invariant
                name_views(names@) == set_names(kind),
                i <= names@.len(),
                found@.len() == i,
                may_come_first(file@, layout@, kind, named_views(found@)),
            decreases names@.len() - i,
        {
            let (name, stored) = names[i];
            let ghost before = named_views(found@);
            assert(name_views(names@)[i as int] == set_names(kind)[i as int]);
            let section: SectionData = match stored {
                None => SectionData::default(),
                Some(stored) => match load_named_section(file, stored, layout) {
                    Ok(section) => section,
                    Err(error) => {
                        assert(may_stop_after(file@, layout@, kind, before, error@));
                        return Err(error);
                    },
                },
            };
            found.push(NamedSection { name, section });
            assert(named_views(found@) =~= before.push(found@[i as int]@));
            i = i + 1;
        }
        let set = SectionSet { sections: found, empty: SectionData::default(), little_endian };
        assert(set@.sections.len() == names@.len());
        Ok(set)
    }
}

/// A section as the parser holds it.
pub struct OpenView {
    /// Bytes and relocations.
    pub section: SectionDataView,
    /// Whether numbers in it start with the least significant byte.
    pub little_endian: bool,
}

/// The sections of a set by name, read in a byte order.
pub open spec fn opened(set: SetView, little_endian: bool) -> Map<Seq<char>, OpenView> {
    Map::new(
        |name: Seq<char>| true,
        |name: Seq<char>|
            OpenView { section: section_from(set.sections, name, 0), little_endian },
    )
}

/// The sections that a parser reads.
pub struct ContentsView {
    /// The sections by name.
    pub sections: Map<Seq<char>, OpenView>,
    /// The sections of a supplementary object.
    pub supplementary: Option<Map<Seq<char>, OpenView>>,
    /// Whether they hold split data.
    pub split: bool,
}

/// DWARF data under one set of sections.
///
/// It holds a `gimli::Dwarf`, whose reader type is bound by traits of the
/// parser; [`dwarf_contents`] tells what it holds.
#[verifier::external_body]
pub struct DwarfData<'a> {
    pub(crate) dwarf: gimli::Dwarf<RelocateReader<EndianSlice<'a, RunTimeEndian>, Relocations<'a>>>,
}

/// A package of split data.
///
/// It holds a `gimli::DwarfPackage`; [`package_contents`] tells what it holds.
#[verifier::external_body]
pub struct PackageData<'a> {
    package: gimli::DwarfPackage<RelocateReader<EndianSlice<'a, RunTimeEndian>, Relocations<'a>>>,
}

/// The sections that a `gimli::Dwarf` holds.
pub uninterp spec fn dwarf_contents(data: DwarfData<'_>) -> ContentsView;

/// The sections that a `gimli::DwarfPackage` holds.
pub uninterp spec fn package_contents(package: PackageData<'_>) -> SetView;

/// What `gimli::DwarfPackage::load` says of sections that it refuses, where
/// `limit` is the largest `usize`.
pub uninterp spec fn package_problem(set: SetView, limit: nat) -> Option<Seq<char>>;

/// The sections that `gimli::DwarfPackage::find_cu` finds for an identifier, or
/// what it says, where `limit` is the largest `usize`.
pub uninterp spec fn package_unit(
    package: SetView,
    id: u64,
    parent: ContentsView,
    limit: nat,
) -> Result<Option<ContentsView>, Seq<char>>;

/// The sections of an image and of its supplementary object, which are read in
/// the byte order of the image.
pub open spec fn whole_contents(set: SetView, supplementary: Option<SetView>) -> ContentsView {
    ContentsView {
        sections: opened(set, set.little_endian),
        supplementary: match supplementary {
            Some(others) => Some(opened(others, set.little_endian)),
            None => None,
        },
        split: false,
    }
}

/// The sections of a split file: its addresses and old range lists are those of
/// the file with the skeleton unit, and so is the supplementary object.
pub open spec fn split_contents(set: SetView, parent: ContentsView) -> ContentsView {
    ContentsView {
        sections: opened(set, set.little_endian).insert(
            ".debug_addr"@,
            parent.sections[".debug_addr"@],
        ).insert(".debug_ranges"@, parent.sections[".debug_ranges"@]),
        supplementary: parent.supplementary,
        split: true,
    }
}

/// Optional sections as they are stated.
pub open spec fn optional_set(set: Option<&SectionSet>) -> Option<SetView> {
    match set {
        Some(set) => Some(set@),
        None => None,
    }
}

/// Calls `gimli::Dwarf::load` and `load_sup`, which ask for each section by its
/// name and keep it.
#[verifier::external_body]
pub(crate) fn open_dwarf<'a>(set: &'a SectionSet, supplementary: Option<&'a SectionSet>) -> (data:
    DwarfData<'a>)
    ensures
        dwarf_contents(data) == whole_contents(set@, optional_set(supplementary)),
{
    let order = if set.little_endian { RunTimeEndian::Little } else { RunTimeEndian::Big };
    let read = |found: &'a SectionData| RelocateReader::new(
        EndianSlice::new(found.data.as_slice(), order),
        Relocations(&found.relocations),
    );
    let mut dwarf = gimli::Dwarf::load(|id| Ok::<_, ()>(read(set.section(id.name())))).unwrap();
    if let Some(others) = supplementary {
        dwarf.load_sup(|id| Ok::<_, ()>(read(others.section(id.name())))).unwrap();
    }
    DwarfData { dwarf }
}

/// Calls `gimli::Dwarf::load` and `make_dwo`, which takes two sections and the
/// supplementary object from the file with the skeleton unit.
#[verifier::external_body]
pub(crate) fn open_split<'a>(set: &'a SectionSet, parent: &DwarfData<'a>) -> (data: DwarfData<'a>)
    ensures
        dwarf_contents(data) == split_contents(set@, dwarf_contents(*parent)),
{
    let order = if set.little_endian { RunTimeEndian::Little } else { RunTimeEndian::Big };
    let read = |found: &'a SectionData| RelocateReader::new(
        EndianSlice::new(found.data.as_slice(), order),
        Relocations(&found.relocations),
    );
    let mut dwarf = gimli::Dwarf::load(|id| Ok::<_, ()>(read(set.section(id.name())))).unwrap();
    dwarf.make_dwo(&parent.dwarf);
    DwarfData { dwarf }
}

/// Calls `gimli::DwarfPackage::load`, which keeps the sections and reads the
/// indexes. Whether it accepts them depends on the sections and on the largest
/// `usize` alone.
#[verifier::external_body]
pub(crate) fn open_package<'a>(set: &'a SectionSet) -> (result: Result<PackageData<'a>, String>)
    ensures
        match package_problem(set@, usize::MAX as nat) {
            Some(text) => result matches Err(source) && source@ == text,
            None => result matches Ok(package) && package_contents(package) == set@,
        },
{
    let order = if set.little_endian { RunTimeEndian::Little } else { RunTimeEndian::Big };
    let read = |found: &'a SectionData| RelocateReader::new(
        EndianSlice::new(found.data.as_slice(), order),
        Relocations(&found.relocations),
    );
    gimli::DwarfPackage::load(|id| Ok(read(set.section(id.name()))), read(&set.empty))
        .map(|package| PackageData { package })
        .map_err(|error: GimliError| error.to_string())
}

/// Calls `gimli::DwarfPackage::find_cu`. The result depends on the sections of
/// the package, those of the file with the skeleton unit, the identifier and
/// the largest `usize` alone.
#[verifier::external_body]
pub(crate) fn find_split<'a>(package: &PackageData<'a>, id: u64, parent: &DwarfData<'a>) -> (result:
    Result<Option<DwarfData<'a>>, String>)
    ensures
        match package_unit(
            package_contents(*package),
            id,
            dwarf_contents(*parent),
            usize::MAX as nat,
        ) {
            Err(text) => result matches Err(source) && source@ == text,
            Ok(None) => result matches Ok(None),
            Ok(Some(contents)) => result matches Ok(Some(data)) && dwarf_contents(data) == contents,
        },
{
    package.package.find_cu(gimli::DwoId(id), &parent.dwarf)
        .map(|found| found.map(|dwarf| DwarfData { dwarf }))
        .map_err(|error| error.to_string())
}

} // verus!
