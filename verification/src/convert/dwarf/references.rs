//! Names and declarations that entries take from other entries.
use std::collections::{HashMap, HashSet};

use vstd::prelude::*;
use vstd::std_specs::hash::*;

use crate::builder::{BuilderView, GsymBuilder};
use crate::convert::diagnostic;
use crate::convert::diagnostic::{ConversionWarning, WarningView};
use crate::convert::dwarf::collect;
use crate::convert::dwarf::collect::{intern_header_files, push_warning};
use crate::convert::dwarf::model;
use crate::convert::dwarf::model::{
    absolute_entry_offset, attribute_bytes, dwarf_error, file_index_attribute, unsigned_attribute,
    Entry, Reference, Text, Unit, Units,
};
use crate::error::{Error, ErrorView};
use crate::model::{FileIndex, FileView, LineEntry};

verus! {

broadcast use vstd::std_specs::hash::group_hash_axioms;

/// Most references that are followed one after another.
pub const REFERENCE_LIMIT: u8 = 64;

/// The object that an entry's offset counts in.
#[derive(Clone, Copy, Debug, PartialEq, Eq, Structural)]
pub enum DebugSource {
    /// The object with the debugging information.
    Main,
    /// Its supplementary object.
    Supplementary,
}

/// The entries that references have led to.
pub struct Visited {
    main: HashSet<usize>,
    supplementary: HashSet<usize>,
}

/// The entries that references have led to, by object.
pub struct VisitedView {
    /// Offsets in the object with the debugging information.
    pub main: Set<usize>,
    /// Offsets in its supplementary object.
    pub supplementary: Set<usize>,
}

impl View for Visited {
    type V = VisitedView;

    closed spec fn view(&self) -> VisitedView {
        VisitedView { main: self.main@, supplementary: self.supplementary@ }
    }
}

/// No entries.
pub open spec fn nothing_visited() -> VisitedView {
    VisitedView { main: Set::empty(), supplementary: Set::empty() }
}

/// Whether an entry was visited.
pub open spec fn was_visited(visited: VisitedView, source: DebugSource, offset: usize) -> bool {
    match source {
        DebugSource::Main => visited.main.contains(offset),
        DebugSource::Supplementary => visited.supplementary.contains(offset),
    }
}

/// The visited entries with one more.
pub open spec fn visiting(visited: VisitedView, source: DebugSource, offset: usize) -> VisitedView {
    match source {
        DebugSource::Main => VisitedView { main: visited.main.insert(offset), ..visited },
        DebugSource::Supplementary => VisitedView {
            supplementary: visited.supplementary.insert(offset),
            ..visited
        },
    }
}

impl Visited {
    /// Starts without entries.
    pub fn new() -> (visited: Self)
        ensures
            visited@ == nothing_visited(),
    {
        let visited = Visited { main: HashSet::new(), supplementary: HashSet::new() };
        assert(visited@.main =~= Set::empty());
        assert(visited@.supplementary =~= Set::empty());
        visited
    }

    /// Visits an entry, and returns whether it was new.
    pub fn insert(&mut self, source: DebugSource, offset: usize) -> (new: bool)
        ensures
            new == !was_visited(old(self)@, source, offset),
            final(self)@ == visiting(old(self)@, source, offset),
    {
        match source {
            DebugSource::Main => self.main.insert(offset),
            DebugSource::Supplementary => self.supplementary.insert(offset),
        }
    }
}

/// The entry that a reference within a unit leads to, from target `from` on.
pub open spec fn target_from(unit: Unit, offset: usize, from: int) -> Result<Entry, ErrorView>
    decreases unit.targets@.len() - from,
{
    if from < 0 || from >= unit.targets@.len() {
        Err(ErrorView::Plain(Error::InvalidModel("DWARF reference target is not loaded")))
    } else if unit.targets@[from].offset == offset {
        match unit.targets@[from].entry {
            Ok(entry) => Ok(entry),
            Err(source) => Err(model::rejected(source)),
        }
    } else {
        target_from(unit, offset, from + 1)
    }
}

/// The entry that a reference within a unit leads to.
pub open spec fn target_of(unit: Unit, offset: usize) -> Result<Entry, ErrorView> {
    target_from(unit, offset, 0)
}

/// The unit from `from` on that holds an offset, and the offset in the unit.
pub open spec fn unit_from(units: Units, target: usize, from: int) -> Result<
    Option<(int, usize)>,
    ErrorView,
>
    decreases units.units@.len() - from,
{
    if from < 0 || from >= units.units@.len() {
        match units.failure {
            Some(source) => Err(model::rejected(source)),
            None => Ok(None),
        }
    } else {
        let unit = units.units@[from];
        match unit.offset {
            None => unit_from(units, target, from + 1),
            Some(start) => if start + unit.length > usize::MAX {
                Err(ErrorView::Plain(Error::Overflow("DWARF unit end")))
            } else if start <= target < start + unit.length {
                match unit.failure {
                    Some(source) => Err(model::rejected(source)),
                    None => Ok(Some((from, (target - start) as usize))),
                }
            } else {
                unit_from(units, target, from + 1)
            },
        }
    }
}

/// The unit that holds an offset, and the offset in the unit.
pub open spec fn unit_containing(units: Units, target: usize) -> Result<
    Option<(int, usize)>,
    ErrorView,
> {
    unit_from(units, target, 0)
}

/// A name attribute, if it names anything.
pub open spec fn name_attribute(text: Option<Text>, supplementary: bool) -> Result<
    Option<Seq<u8>>,
    ErrorView,
> {
    match text {
        None => Ok(None),
        Some(text) => match model::text_bytes(text, supplementary) {
            Err(error) => Err(error),
            Ok(bytes) => if bytes.len() == 0 {
                Ok(None)
            } else {
                Ok(Some(bytes))
            },
        },
    }
}

/// The name that an entry gives itself.
pub open spec fn own_name(entry: Entry, supplementary: bool) -> Result<
    Option<Seq<u8>>,
    ErrorView,
> {
    match name_attribute(entry.linkage_name, supplementary) {
        Ok(None) => match name_attribute(entry.mips_linkage_name, supplementary) {
            Ok(None) => name_attribute(entry.name, supplementary),
            found => found,
        },
        found => found,
    }
}

/// What following references for a name came to.
pub struct NameSearch {
    /// The name, if there is one.
    pub name: Result<Option<Seq<u8>>, ErrorView>,
    /// The entries visited by then.
    pub visited: VisitedView,
}

/// How many references may still be followed.
pub open spec fn references_left(depth: nat) -> nat {
    if depth < 64 {
        (64 - depth) as nat
    } else {
        0
    }
}

/// The name of an entry: its own, or the one of the entry that it stands for.
pub open spec fn name_of(
    units: Units,
    supplementary: Option<Units>,
    unit: Unit,
    entry: Entry,
    source: DebugSource,
    depth: nat,
    visited: VisitedView,
) -> NameSearch
    decreases references_left(depth), 0nat,
{
    if depth >= 64 {
        NameSearch { name: Ok(None), visited }
    } else {
        match own_name(entry, supplementary is Some) {
            Ok(None) => {
                let origin = optional_reference_name(
                    units,
                    supplementary,
                    unit,
                    entry.abstract_origin,
                    source,
                    depth + 1,
                    visited,
                );
                match origin.name {
                    Ok(None) => optional_reference_name(
                        units,
                        supplementary,
                        unit,
                        entry.specification,
                        source,
                        depth + 1,
                        origin.visited,
                    ),
                    _ => origin,
                }
            },
            name => NameSearch { name, visited },
        }
    }
}

/// The name of the entry that an attribute leads to.
pub open spec fn optional_reference_name(
    units: Units,
    supplementary: Option<Units>,
    unit: Unit,
    reference: Option<Reference>,
    source: DebugSource,
    depth: nat,
    visited: VisitedView,
) -> NameSearch
    decreases references_left(depth), 3nat,
{
    match reference {
        None => NameSearch { name: Ok(None), visited },
        Some(reference) => reference_name(
            units,
            supplementary,
            unit,
            reference,
            source,
            depth,
            visited,
        ),
    }
}

/// The name of the entry that a reference leads to.
pub open spec fn reference_name(
    units: Units,
    supplementary: Option<Units>,
    unit: Unit,
    reference: Reference,
    source: DebugSource,
    depth: nat,
    visited: VisitedView,
) -> NameSearch
    decreases references_left(depth), 2nat,
{
    match reference {
        Reference::Unit(offset) => match model::absolute_offset(unit, offset) {
            Err(error) => NameSearch { name: Err(error), visited },
            Ok(absolute) => if was_visited(visited, source, absolute) {
                NameSearch { name: Ok(None), visited }
            } else {
                let reached = visiting(visited, source, absolute);
                match target_of(unit, offset) {
                    Err(error) => NameSearch { name: Err(error), visited: reached },
                    Ok(entry) => name_of(
                        units,
                        supplementary,
                        unit,
                        entry,
                        source,
                        depth,
                        reached,
                    ),
                }
            },
        },
        Reference::DebugInfo(offset) => absolute_name(
            units,
            supplementary,
            offset,
            DebugSource::Main,
            depth,
            visited,
        ),
        Reference::Supplementary(offset) => match supplementary {
            None => NameSearch { name: Ok(None), visited },
            Some(other) => absolute_name(
                other,
                None,
                offset,
                DebugSource::Supplementary,
                depth,
                visited,
            ),
        },
        Reference::Other => NameSearch { name: Ok(None), visited },
    }
}

/// The name of the entry at an offset of the debug information.
pub open spec fn absolute_name(
    units: Units,
    supplementary: Option<Units>,
    target: usize,
    source: DebugSource,
    depth: nat,
    visited: VisitedView,
) -> NameSearch
    decreases references_left(depth), 1nat,
{
    if was_visited(visited, source, target) {
        NameSearch { name: Ok(None), visited }
    } else {
        let reached = visiting(visited, source, target);
        match unit_containing(units, target) {
            Err(error) => NameSearch { name: Err(error), visited: reached },
            Ok(None) => NameSearch { name: Ok(None), visited: reached },
            Ok(Some((index, offset))) => {
                let unit = units.units@[index];
                match target_of(unit, offset) {
                    Err(error) => NameSearch { name: Err(error), visited: reached },
                    Ok(entry) => name_of(
                        units,
                        supplementary,
                        unit,
                        entry,
                        source,
                        depth,
                        reached,
                    ),
                }
            },
        }
    }
}

/// The name of an entry.
pub open spec fn resolved_name(
    units: Units,
    supplementary: Option<Units>,
    unit: Unit,
    entry: Entry,
) -> Result<Option<Seq<u8>>, ErrorView> {
    name_of(units, supplementary, unit, entry, DebugSource::Main, 0, nothing_visited()).name
}

/// The units that a reference stands for.
pub open spec fn units_of(units: Option<&Units>) -> Option<Units> {
    match units {
        Some(units) => Some(*units),
        None => None,
    }
}

/// Whether a result says what a search came to.
pub open spec fn says_name(
    result: Result<Option<Vec<u8>>, Error>,
    name: Result<Option<Seq<u8>>, ErrorView>,
) -> bool {
    match name {
        Err(view) => result matches Err(error) && error@ == view,
        Ok(None) => result == Ok::<Option<Vec<u8>>, Error>(None),
        Ok(Some(bytes)) => result matches Ok(Some(found)) && found@ == bytes,
    }
}

fn find_target(unit: &Unit, offset: usize) -> (result: Result<&Entry, Error>)
    ensures
        match target_of(*unit, offset) {
            Ok(entry) => result matches Ok(found) && *found == entry,
            Err(view) => result matches Err(error) && error@ == view,
        },
{
    let mut i: usize = 0;
    while i < unit.targets.len()
        invariant
            i <= unit.targets@.len(),
            target_of(*unit, offset) == target_from(*unit, offset, i as int),
        decreases unit.targets@.len() - i,
    {
        if unit.targets[i].offset == offset {
            return match &unit.targets[i].entry {
                Ok(entry) => Ok(entry),
                Err(source) => Err(dwarf_error(source)),
            };
        }
        i = i + 1;
    }
    Err(Error::InvalidModel("DWARF reference target is not loaded"))
}

/// Finds the unit that holds an offset, and the offset in the unit.
pub fn unit_containing_offset(units: &Units, target: usize) -> (result: Result<
    Option<(usize, usize)>,
    Error,
>)
    ensures
        match unit_containing(*units, target) {
            Ok(None) => result == Ok::<Option<(usize, usize)>, Error>(None),
            Ok(Some((index, offset))) => result matches Ok(Some((found, at))) && found == index
                && at == offset && index < units.units@.len(),
            Err(view) => result matches Err(error) && error@ == view,
        },
{
    let mut i: usize = 0;
    while i < units.units.len()
        invariant
            i <= units.units@.len(),
            unit_containing(*units, target) == unit_from(*units, target, i as int),
        decreases units.units@.len() - i,
    {
        let unit: &Unit = &units.units[i];
        if let Some(start) = unit.offset {
            let end: usize = match start.checked_add(unit.length) {
                Some(end) => end,
                None => return Err(Error::Overflow("DWARF unit end")),
            };
            if start <= target && target < end {
                return match &unit.failure {
                    Some(source) => Err(dwarf_error(source)),
                    None => Ok(Some((i, target - start))),
                };
            }
        }
        i = i + 1;
    }
    match &units.failure {
        Some(source) => Err(dwarf_error(source)),
        None => Ok(None),
    }
}

fn read_name(text: &Option<Text>, supplementary: bool) -> (result: Result<Option<Vec<u8>>, Error>)
    ensures
        says_name(result, name_attribute(*text, supplementary)),
{
    match text {
        None => Ok(None),
        Some(text) => {
            let bytes = attribute_bytes(text, supplementary)?;
            if bytes.len() == 0 {
                Ok(None)
            } else {
                Ok(Some(bytes))
            }
        },
    }
}

fn read_own_name(entry: &Entry, supplementary: bool) -> (result: Result<Option<Vec<u8>>, Error>)
    ensures
        says_name(result, own_name(*entry, supplementary)),
{
    if let Some(name) = read_name(&entry.linkage_name, supplementary)? {
        return Ok(Some(name));
    }
    if let Some(name) = read_name(&entry.mips_linkage_name, supplementary)? {
        return Ok(Some(name));
    }
    read_name(&entry.name, supplementary)
}

/// Finds the name of an entry, following references from `depth` on.
pub fn resolve_name_inner(
    units: &Units,
    supplementary: Option<&Units>,
    unit: &Unit,
    entry: &Entry,
    source: DebugSource,
    depth: u8,
    visited: &mut Visited,
) -> (result: Result<Option<Vec<u8>>, Error>)
    ensures
        ({
            let search = name_of(
                *units,
                units_of(supplementary),
                *unit,
                *entry,
                source,
                depth as nat,
                old(visited)@,
            );
            says_name(result, search.name) && final(visited)@ == search.visited
        }),
    decreases references_left(depth as nat), 0nat,
{
    if depth >= REFERENCE_LIMIT {
        return Ok(None);
    }
    if let Some(name) = read_own_name(entry, supplementary.is_some())? {
        return Ok(Some(name));
    }
    if let Some(reference) = entry.abstract_origin {
        if let Some(name) = resolve_reference_name(
            units,
            supplementary,
            unit,
            reference,
            source,
            depth + 1,
            visited,
        )? {
            return Ok(Some(name));
        }
    }
    if let Some(reference) = entry.specification {
        return resolve_reference_name(
            units,
            supplementary,
            unit,
            reference,
            source,
            depth + 1,
            visited,
        );
    }
    Ok(None)
}

/// Finds the name of the entry that a reference leads to.
pub fn resolve_reference_name(
    units: &Units,
    supplementary: Option<&Units>,
    unit: &Unit,
    reference: Reference,
    source: DebugSource,
    depth: u8,
    visited: &mut Visited,
) -> (result: Result<Option<Vec<u8>>, Error>)
    ensures
        ({
            let search = reference_name(
                *units,
                units_of(supplementary),
                *unit,
                reference,
                source,
                depth as nat,
                old(visited)@,
            );
            says_name(result, search.name) && final(visited)@ == search.visited
        }),
    decreases references_left(depth as nat), 2nat,
{
    match reference {
        Reference::Unit(offset) => {
            let absolute: usize = absolute_entry_offset(unit, offset)?;
            if !visited.insert(source, absolute) {
                proof {
                    lemma_visited_again(old(visited)@, source, absolute);
                }
                return Ok(None);
            }
            let entry = find_target(unit, offset)?;
            resolve_name_inner(units, supplementary, unit, entry, source, depth, visited)
        },
        Reference::DebugInfo(offset) => resolve_absolute_name(
            units,
            supplementary,
            offset,
            DebugSource::Main,
            depth,
            visited,
        ),
        Reference::Supplementary(offset) => match supplementary {
            None => Ok(None),
            Some(other) => resolve_absolute_name(
                other,
                None,
                offset,
                DebugSource::Supplementary,
                depth,
                visited,
            ),
        },
        Reference::Other => Ok(None),
    }
}

proof fn lemma_visited_again(visited: VisitedView, source: DebugSource, offset: usize)
    requires
        was_visited(visited, source, offset),
    ensures
        visiting(visited, source, offset) == visited,
{
    assert(visited.main.insert(offset) =~= visited.main || source != DebugSource::Main);
    assert(visited.supplementary.insert(offset) =~= visited.supplementary || source
        != DebugSource::Supplementary);
}

/// Finds the name of the entry at an offset of the debug information.
pub fn resolve_absolute_name(
    units: &Units,
    supplementary: Option<&Units>,
    target: usize,
    source: DebugSource,
    depth: u8,
    visited: &mut Visited,
) -> (result: Result<Option<Vec<u8>>, Error>)
    ensures
        ({
            let search = absolute_name(
                *units,
                units_of(supplementary),
                target,
                source,
                depth as nat,
                old(visited)@,
            );
            says_name(result, search.name) && final(visited)@ == search.visited
        }),
    decreases references_left(depth as nat), 1nat,
{
    if !visited.insert(source, target) {
        proof {
            lemma_visited_again(old(visited)@, source, target);
        }
        return Ok(None);
    }
    let (index, offset) = match unit_containing_offset(units, target)? {
        Some(place) => place,
        None => return Ok(None),
    };
    let unit: &Unit = &units.units[index];
    let entry = find_target(unit, offset)?;
    resolve_name_inner(units, supplementary, unit, entry, source, depth, visited)
}

/// Finds the name of an entry: its own linkage name or name, or the one of the
/// entry that it stands for.
pub fn resolve_name(
    units: &Units,
    supplementary: Option<&Units>,
    unit: &Unit,
    entry: &Entry,
) -> (result: Result<Option<Vec<u8>>, Error>)
    ensures
        says_name(
            result,
            resolved_name(*units, units_of(supplementary), *unit, *entry),
        ),
{
    let mut visited = Visited::new();
    resolve_name_inner(
        units,
        supplementary,
        unit,
        entry,
        DebugSource::Main,
        0,
        &mut visited,
    )
}

/// What looking for a declaration has come to.
pub struct DeclarationSearch {
    /// The declaration, if there is one.
    pub line: Result<Option<LineEntry>, ErrorView>,
    /// The entries visited by then.
    pub visited: VisitedView,
    /// File table by then.
    pub table: Seq<FileView>,
    /// Warnings by then.
    pub warnings: Seq<WarningView>,
}

/// A search that has found nothing yet.
pub open spec fn searching(
    visited: VisitedView,
    table: Seq<FileView>,
    warnings: Seq<WarningView>,
) -> DeclarationSearch {
    DeclarationSearch { line: Ok(None), visited, table, warnings }
}

/// A warning about an entry.
pub open spec fn warned(
    start: DeclarationSearch,
    unit: Unit,
    entry: Entry,
    warning: spec_fn(u64) -> ConversionWarning,
) -> DeclarationSearch {
    match model::absolute_offset(unit, entry.offset) {
        Err(error) => DeclarationSearch { line: Err(error), ..start },
        Ok(offset) => DeclarationSearch {
            warnings: start.warnings.push(WarningView::Plain(warning(offset as u64))),
            ..start
        },
    }
}

/// What an entry says of its own declaration.
pub open spec fn own_declaration(
    unit: Unit,
    entry: Entry,
    files: Map<u64, FileIndex>,
    start: DeclarationSearch,
) -> DeclarationSearch {
    match (model::file_index_of(entry.decl_file), model::unsigned_of(entry.decl_line)) {
        (Some(index), Some(line)) => if !files.dom().contains(index) {
            warned(
                start,
                unit,
                entry,
                |die_offset: u64| ConversionWarning::InvalidDeclarationFile { die_offset, index },
            )
        } else if line > u32::MAX {
            warned(
                start,
                unit,
                entry,
                |die_offset: u64| ConversionWarning::InvalidDeclarationLine { die_offset, line },
            )
        } else {
            DeclarationSearch {
                line: Ok(Some(LineEntry { address: 0, file: files[index], line: line as u32 })),
                ..start
            }
        },
        _ => start,
    }
}

/// The declaration of an entry: its own, or the one of the entry that it
/// stands for.
pub open spec fn declaration_of(
    units: Units,
    supplementary: Option<Units>,
    unit: Unit,
    entry: Entry,
    files: Map<u64, FileIndex>,
    source: DebugSource,
    depth: nat,
    start: DeclarationSearch,
) -> DeclarationSearch
    decreases references_left(depth), 0nat,
{
    if depth >= 64 {
        start
    } else {
        let own = own_declaration(unit, entry, files, start);
        if own.line != Ok::<Option<LineEntry>, ErrorView>(None) {
            own
        } else {
            let origin = optional_reference_declaration(
                units,
                supplementary,
                unit,
                entry.abstract_origin,
                files,
                source,
                depth + 1,
                own,
            );
            if origin.line != Ok::<Option<LineEntry>, ErrorView>(None) {
                origin
            } else {
                optional_reference_declaration(
                    units,
                    supplementary,
                    unit,
                    entry.specification,
                    files,
                    source,
                    depth + 1,
                    origin,
                )
            }
        }
    }
}

/// The declaration of the entry that an attribute leads to.
pub open spec fn optional_reference_declaration(
    units: Units,
    supplementary: Option<Units>,
    unit: Unit,
    reference: Option<Reference>,
    files: Map<u64, FileIndex>,
    source: DebugSource,
    depth: nat,
    start: DeclarationSearch,
) -> DeclarationSearch
    decreases references_left(depth), 3nat,
{
    match reference {
        None => start,
        Some(reference) => reference_declaration(
            units,
            supplementary,
            unit,
            reference,
            files,
            source,
            depth,
            start,
        ),
    }
}

/// The declaration of the entry that a reference leads to.
pub open spec fn reference_declaration(
    units: Units,
    supplementary: Option<Units>,
    unit: Unit,
    reference: Reference,
    files: Map<u64, FileIndex>,
    source: DebugSource,
    depth: nat,
    start: DeclarationSearch,
) -> DeclarationSearch
    decreases references_left(depth), 2nat,
{
    match reference {
        Reference::Unit(offset) => match model::absolute_offset(unit, offset) {
            Err(error) => DeclarationSearch { line: Err(error), ..start },
            Ok(absolute) => if was_visited(start.visited, source, absolute) {
                start
            } else {
                let reached = DeclarationSearch {
                    visited: visiting(start.visited, source, absolute),
                    ..start
                };
                match target_of(unit, offset) {
                    Err(error) => DeclarationSearch { line: Err(error), ..reached },
                    Ok(entry) => declaration_of(
                        units,
                        supplementary,
                        unit,
                        entry,
                        files,
                        source,
                        depth,
                        reached,
                    ),
                }
            },
        },
        Reference::DebugInfo(offset) => absolute_declaration(
            units,
            supplementary,
            offset,
            DebugSource::Main,
            depth,
            start,
        ),
        Reference::Supplementary(offset) => match supplementary {
            None => start,
            Some(other) => absolute_declaration(
                other,
                None,
                offset,
                DebugSource::Supplementary,
                depth,
                start,
            ),
        },
        Reference::Other => start,
    }
}

/// The files of a unit, and the file table with them.
pub open spec fn unit_files(
    unit: Unit,
    supplementary: bool,
    table: Seq<FileView>,
) -> collect::Gathered {
    match unit.line_program {
        None => collect::gathering(table, Seq::empty()),
        Some(program) => collect::header_files(
            program,
            collect::file_count(program, program.header_files),
            supplementary,
            table,
        ),
    }
}

/// The declaration of the entry at an offset of the debug information.
pub open spec fn absolute_declaration(
    units: Units,
    supplementary: Option<Units>,
    target: usize,
    source: DebugSource,
    depth: nat,
    start: DeclarationSearch,
) -> DeclarationSearch
    decreases references_left(depth), 1nat,
{
    if was_visited(start.visited, source, target) {
        start
    } else {
        let reached = DeclarationSearch {
            visited: visiting(start.visited, source, target),
            ..start
        };
        match unit_containing(units, target) {
            Err(error) => DeclarationSearch { line: Err(error), ..reached },
            Ok(None) => reached,
            Ok(Some((index, offset))) => {
                let unit = units.units@[index];
                match target_of(unit, offset) {
                    Err(error) => DeclarationSearch { line: Err(error), ..reached },
                    Ok(entry) => {
                        let named = unit_files(unit, supplementary is Some, start.table);
                        let filed = DeclarationSearch { table: named.table, ..reached };
                        match named.error {
                            Some(error) => DeclarationSearch { line: Err(error), ..filed },
                            None => declaration_of(
                                units,
                                supplementary,
                                unit,
                                entry,
                                named.files,
                                source,
                                depth,
                                filed,
                            ),
                        }
                    },
                }
            },
        }
    }
}

/// Whether a result says what a search came to.
pub open spec fn says_line(
    result: Result<Option<LineEntry>, Error>,
    line: Result<Option<LineEntry>, ErrorView>,
) -> bool {
    match line {
        Err(view) => result matches Err(error) && error@ == view,
        Ok(line) => result == Ok::<Option<LineEntry>, Error>(line),
    }
}

/// Whether a builder, warnings and visited entries are what a search came to.
pub open spec fn searched(
    search: DeclarationSearch,
    before: BuilderView,
    builder: BuilderView,
    warnings: Seq<ConversionWarning>,
    visited: VisitedView,
) -> bool {
    &&& builder == (BuilderView { files: search.table, ..before })
    &&& diagnostic::warning_views(warnings) == search.warnings
    &&& visited == search.visited
}

fn intern_unit_files(unit: &Unit, supplementary: bool, builder: &mut GsymBuilder) -> (result:
    Result<HashMap<u64, FileIndex>, Error>)
    requires
        old(builder).wf(),
    ensures
        final(builder).wf(),
        ({
            let named = unit_files(*unit, supplementary, old(builder)@.files);
            &&& final(builder)@ == (BuilderView { files: named.table, ..old(builder)@ })
            &&& match named.error {
                Some(view) => result matches Err(error) && error@ == view,
                None => result matches Ok(files) && files@ == named.files,
            }
        }),
{
    match &unit.line_program {
        None => {
            let files: HashMap<u64, FileIndex> = HashMap::new();
            assert(files@ =~= Map::empty());
            Ok(files)
        },
        Some(program) => intern_header_files(
            program,
            program.header_files,
            supplementary,
            builder,
        ),
    }
}

/// Reads the declaration that an entry gives itself.
fn read_declaration(
    unit: &Unit,
    entry: &Entry,
    files: &HashMap<u64, FileIndex>,
    warnings: &mut Vec<ConversionWarning>,
) -> (result: Result<Option<LineEntry>, Error>)
    ensures
        forall|visited: VisitedView, table: Seq<FileView>|
            ({
                let search = #[trigger] own_declaration(
                    *unit,
                    *entry,
                    files@,
                    searching(visited, table, diagnostic::warning_views(old(warnings)@)),
                );
                &&& says_line(result, search.line)
                &&& search.visited == visited
                &&& search.table == table
                &&& search.warnings == diagnostic::warning_views(final(warnings)@)
            }),
{
    let index: u64 = match file_index_attribute(entry.decl_file) {
        Some(index) => index,
        None => return Ok(None),
    };
    let line: u64 = match unsigned_attribute(entry.decl_line) {
        Some(line) => line,
        None => return Ok(None),
    };
    let file: FileIndex = match files.get(&index) {
        Some(file) => *file,
        None => {
            let offset: usize = absolute_entry_offset(unit, entry.offset)?;
            push_warning(
                warnings,
                ConversionWarning::InvalidDeclarationFile { die_offset: offset as u64, index },
            );
            return Ok(None);
        },
    };
    if line > u32::MAX as u64 {
        let offset: usize = absolute_entry_offset(unit, entry.offset)?;
        push_warning(
            warnings,
            ConversionWarning::InvalidDeclarationLine { die_offset: offset as u64, line },
        );
        return Ok(None);
    }
    Ok(Some(LineEntry { address: 0, file, line: line as u32 }))
}

/// Looks for the declaration of a function.
pub struct DeclarationResolver {
    visited: Visited,
}

impl View for DeclarationResolver {
    type V = VisitedView;

    closed spec fn view(&self) -> VisitedView {
        self.visited@
    }
}

impl DeclarationResolver {
    /// Starts a search.
    pub fn new() -> (resolver: Self)
        ensures
            resolver@ == nothing_visited(),
    {
        DeclarationResolver { visited: Visited::new() }
    }

    /// Finds the declaration of an entry, following references from `depth`
    /// on.
    pub fn resolve(
        &mut self,
        units: &Units,
        supplementary: Option<&Units>,
        unit: &Unit,
        entry: &Entry,
        files: &HashMap<u64, FileIndex>,
        source: DebugSource,
        depth: u8,
        builder: &mut GsymBuilder,
        warnings: &mut Vec<ConversionWarning>,
    ) -> (result: Result<Option<LineEntry>, Error>)
        requires
            old(builder).wf(),
        ensures
            final(builder).wf(),
            ({
                let search = declaration_of(
                    *units,
                    units_of(supplementary),
                    *unit,
                    *entry,
                    files@,
                    source,
                    depth as nat,
                    searching(
                        old(self)@,
                        old(builder)@.files,
                        diagnostic::warning_views(old(warnings)@),
                    ),
                );
                &&& says_line(result, search.line)
                &&& searched(
                    search,
                    old(builder)@,
                    final(builder)@,
                    final(warnings)@,
                    final(self)@,
                )
            }),
        decreases references_left(depth as nat), 0nat,
    {
        if depth >= REFERENCE_LIMIT {
            return Ok(None);
        }
        let ghost start = searching(
            self@,
            builder@.files,
            diagnostic::warning_views(warnings@),
        );
        let ghost own = own_declaration(*unit, *entry, files@, start);
        if let Some(line) = read_declaration(unit, entry, files, warnings)? {
            return Ok(Some(line));
        }
        if let Some(reference) = entry.abstract_origin {
            if let Some(line) = self.resolve_reference(
                units,
                supplementary,
                unit,
                reference,
                files,
                source,
                depth + 1,
                builder,
                warnings,
            )? {
                return Ok(Some(line));
            }
        }
        if let Some(reference) = entry.specification {
            return self.resolve_reference(
                units,
                supplementary,
                unit,
                reference,
                files,
                source,
                depth + 1,
                builder,
                warnings,
            );
        }
        Ok(None)
    }

    /// Finds the declaration of the entry that a reference leads to.
    fn resolve_reference(
        &mut self,
        units: &Units,
        supplementary: Option<&Units>,
        unit: &Unit,
        reference: Reference,
        files: &HashMap<u64, FileIndex>,
        source: DebugSource,
        depth: u8,
        builder: &mut GsymBuilder,
        warnings: &mut Vec<ConversionWarning>,
    ) -> (result: Result<Option<LineEntry>, Error>)
        requires
            old(builder).wf(),
        ensures
            final(builder).wf(),
            ({
                let search = reference_declaration(
                    *units,
                    units_of(supplementary),
                    *unit,
                    reference,
                    files@,
                    source,
                    depth as nat,
                    searching(
                        old(self)@,
                        old(builder)@.files,
                        diagnostic::warning_views(old(warnings)@),
                    ),
                );
                &&& says_line(result, search.line)
                &&& searched(
                    search,
                    old(builder)@,
                    final(builder)@,
                    final(warnings)@,
                    final(self)@,
                )
            }),
        decreases references_left(depth as nat), 2nat,
    {
        match reference {
            Reference::Unit(offset) => {
                let absolute: usize = absolute_entry_offset(unit, offset)?;
                if !self.visited.insert(source, absolute) {
                    proof {
                        lemma_visited_again(old(self)@, source, absolute);
                    }
                    return Ok(None);
                }
                let entry = find_target(unit, offset)?;
                self.resolve(
                    units,
                    supplementary,
                    unit,
                    entry,
                    files,
                    source,
                    depth,
                    builder,
                    warnings,
                )
            },
            Reference::DebugInfo(offset) => self.resolve_absolute(
                units,
                supplementary,
                offset,
                DebugSource::Main,
                depth,
                builder,
                warnings,
            ),
            Reference::Supplementary(offset) => match supplementary {
                None => Ok(None),
                Some(other) => self.resolve_absolute(
                    other,
                    None,
                    offset,
                    DebugSource::Supplementary,
                    depth,
                    builder,
                    warnings,
                ),
            },
            Reference::Other => Ok(None),
        }
    }

    /// Finds the declaration of the entry at an offset of the debug
    /// information.
    pub fn resolve_absolute(
        &mut self,
        units: &Units,
        supplementary: Option<&Units>,
        target: usize,
        source: DebugSource,
        depth: u8,
        builder: &mut GsymBuilder,
        warnings: &mut Vec<ConversionWarning>,
    ) -> (result: Result<Option<LineEntry>, Error>)
        requires
            old(builder).wf(),
        ensures
            final(builder).wf(),
            ({
                let search = absolute_declaration(
                    *units,
                    units_of(supplementary),
                    target,
                    source,
                    depth as nat,
                    searching(
                        old(self)@,
                        old(builder)@.files,
                        diagnostic::warning_views(old(warnings)@),
                    ),
                );
                &&& says_line(result, search.line)
                &&& searched(
                    search,
                    old(builder)@,
                    final(builder)@,
                    final(warnings)@,
                    final(self)@,
                )
            }),
        decreases references_left(depth as nat), 1nat,
    {
        if !self.visited.insert(source, target) {
            proof {
                lemma_visited_again(old(self)@, source, target);
            }
            return Ok(None);
        }
        let (index, offset) = match unit_containing_offset(units, target)? {
            Some(place) => place,
            None => return Ok(None),
        };
        let unit: &Unit = &units.units[index];
        let entry = find_target(unit, offset)?;
        let files = intern_unit_files(unit, supplementary.is_some(), builder)?;
        self.resolve(
            units,
            supplementary,
            unit,
            entry,
            &files,
            source,
            depth,
            builder,
            warnings,
        )
    }
}

/// Finds the line on which a function is declared.
pub fn resolve_declaration_line(
    units: &Units,
    supplementary: Option<&Units>,
    unit: &Unit,
    entry: &Entry,
    files: &HashMap<u64, FileIndex>,
    builder: &mut GsymBuilder,
    warnings: &mut Vec<ConversionWarning>,
) -> (result: Result<Option<LineEntry>, Error>)
    requires
        old(builder).wf(),
    ensures
        final(builder).wf(),
        ({
            let search = declaration_of(
                *units,
                units_of(supplementary),
                *unit,
                *entry,
                files@,
                DebugSource::Main,
                0,
                searching(
                    nothing_visited(),
                    old(builder)@.files,
                    diagnostic::warning_views(old(warnings)@),
                ),
            );
            &&& says_line(result, search.line)
            &&& final(builder)@ == (BuilderView { files: search.table, ..old(builder)@ })
            &&& diagnostic::warning_views(final(warnings)@) == search.warnings
        }),
{
    let mut resolver = DeclarationResolver::new();
    resolver.resolve(
        units,
        supplementary,
        unit,
        entry,
        files,
        DebugSource::Main,
        0,
        builder,
        warnings,
    )
}

} // verus!
