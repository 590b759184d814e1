//! Laws on the names and declarations that entries have from others.
use vstd::prelude::*;

use crate::convert::dwarf::dies;
use crate::convert::dwarf::model;
use crate::convert::dwarf::model::{Entry, Reference, Text, Unit, Units};
use crate::convert::dwarf::references;
use crate::convert::dwarf::references::{DebugSource, DeclarationSearch, VisitedView};
use crate::error::ErrorView;
use crate::model::{FileIndex, FileView, LineEntry};

verus! {

/// The bytes of a text that is there, can be read and is not empty.
pub open spec fn readable(text: Option<Text>, supplementary: bool) -> Option<Seq<u8>> {
    match text {
        Some(text) => match model::text_bytes(text, supplementary) {
            Ok(bytes) if bytes.len() > 0 => Some(bytes),
            _ => None,
        },
        None => None,
    }
}

/// The name that an entry has of its own: its linkage name, or else its name.
pub open spec fn given_name(entry: Entry, supplementary: bool) -> Option<Seq<u8>> {
    if readable(entry.linkage_name, supplementary) is Some {
        readable(entry.linkage_name, supplementary)
    } else if readable(entry.mips_linkage_name, supplementary) is Some {
        readable(entry.mips_linkage_name, supplementary)
    } else {
        readable(entry.name, supplementary)
    }
}

/// An entry with what is needed to follow its references.
pub struct Place {
    /// Units of its object.
    pub units: Units,
    /// Units of the supplementary object.
    pub supplementary: Option<Units>,
    /// Its unit.
    pub unit: Unit,
    /// The entry.
    pub entry: Entry,
}

/// The entry that a reference of an entry leads to.
pub open spec fn referred(place: Place, reference: Option<Reference>) -> Option<Place> {
    match reference {
        Some(Reference::Unit(offset)) => match references::target_of(place.unit, offset) {
            Ok(entry) => Some(Place { entry, ..place }),
            Err(_) => None,
        },
        Some(Reference::DebugInfo(offset)) => referred_at(
            place.units,
            place.supplementary,
            offset,
        ),
        Some(Reference::Supplementary(offset)) => match place.supplementary {
            Some(other) => referred_at(other, None, offset),
            None => None,
        },
        _ => None,
    }
}

/// The entry at an offset of the debug information.
pub open spec fn referred_at(
    units: Units,
    supplementary: Option<Units>,
    offset: usize,
) -> Option<Place> {
    match references::unit_containing(units, offset) {
        Ok(Some((index, inner))) => match references::target_of(units.units@[index], inner) {
            Ok(entry) => Some(Place { units, supplementary, unit: units.units@[index], entry }),
            Err(_) => None,
        },
        _ => None,
    }
}

/// Whether an entry has a name: its own, or, where it has none, that of the entry
/// that it stands for, over at most `steps` references.
pub open spec fn has_name(place: Place, name: Seq<u8>, steps: nat) -> bool
    decreases steps,
{
    match given_name(place.entry, place.supplementary is Some) {
        Some(own) => name == own,
        None => steps > 0 && {
            ||| referred(place, place.entry.abstract_origin) matches Some(next) && has_name(
                next,
                name,
                (steps - 1) as nat,
            )
            ||| referred(place, place.entry.specification) matches Some(next) && has_name(
                next,
                name,
                (steps - 1) as nat,
            )
        },
    }
}

proof fn lemma_own_name(entry: Entry, supplementary: bool)
    ensures
        references::own_name(entry, supplementary) matches Ok(name) ==> name == given_name(
            entry,
            supplementary,
        ),
{
}

proof fn lemma_name_of(place: Place, source: DebugSource, depth: nat, visited: VisitedView)
    ensures
        references::name_of(
            place.units,
            place.supplementary,
            place.unit,
            place.entry,
            source,
            depth,
            visited,
        ).name matches Ok(Some(name)) ==> depth < 64 && has_name(
            place,
            name,
            (63 - depth) as nat,
        ),
    decreases references::references_left(depth), 0nat,
{
    if depth < 64 {
        lemma_own_name(place.entry, place.supplementary is Some);
        if references::own_name(place.entry, place.supplementary is Some) == Ok::<
            Option<Seq<u8>>,
            ErrorView,
        >(None) {
            lemma_reference_name(
                place,
                place.entry.abstract_origin,
                source,
                depth + 1,
                visited,
            );
            let origin = references::optional_reference_name(
                place.units,
                place.supplementary,
                place.unit,
                place.entry.abstract_origin,
                source,
                depth + 1,
                visited,
            );
            lemma_reference_name(
                place,
                place.entry.specification,
                source,
                depth + 1,
                origin.visited,
            );
        }
    }
}

proof fn lemma_reference_name(
    place: Place,
    reference: Option<Reference>,
    source: DebugSource,
    depth: nat,
    visited: VisitedView,
)
    ensures
        references::optional_reference_name(
            place.units,
            place.supplementary,
            place.unit,
            reference,
            source,
            depth,
            visited,
        ).name matches Ok(Some(name)) ==> depth < 64 && (referred(place, reference) matches Some(
            next,
        ) && has_name(next, name, (63 - depth) as nat)),
    decreases references::references_left(depth), 3nat,
{
    match reference {
        Some(Reference::Unit(offset)) => {
            if let Ok(entry) = references::target_of(place.unit, offset) {
                if let Ok(absolute) = model::absolute_offset(place.unit, offset) {
                    lemma_name_of(
                        Place { entry, ..place },
                        source,
                        depth,
                        references::visiting(visited, source, absolute),
                    );
                }
            }
        },
        Some(Reference::DebugInfo(offset)) => {
            lemma_absolute_name(
                place.units,
                place.supplementary,
                offset,
                DebugSource::Main,
                depth,
                visited,
            );
        },
        Some(Reference::Supplementary(offset)) => {
            if let Some(other) = place.supplementary {
                lemma_absolute_name(
                    other,
                    None,
                    offset,
                    DebugSource::Supplementary,
                    depth,
                    visited,
                );
            }
        },
        _ => {},
    }
}

proof fn lemma_absolute_name(
    units: Units,
    supplementary: Option<Units>,
    target: usize,
    source: DebugSource,
    depth: nat,
    visited: VisitedView,
)
    ensures
        references::absolute_name(units, supplementary, target, source, depth, visited).name matches Ok(
            Some(name),
        ) ==> depth < 64 && (referred_at(units, supplementary, target) matches Some(next)
            && has_name(next, name, (63 - depth) as nat)),
    decreases references::references_left(depth), 1nat,
{
    if let Some(next) = referred_at(units, supplementary, target) {
        lemma_name_of(next, source, depth, references::visiting(visited, source, target));
    }
}

/// The name of an entry is its own linkage name, or else its own name, or else that
/// of an entry that it stands for. Where it has none of its own and the entry of its
/// abstract origin has one, it has that; else, where it has no origin, that of the
/// entry that it specifies.
pub proof fn law_names_come_from_entries(place: Place)
    ensures
        ({
            let name = references::resolved_name(
                place.units,
                place.supplementary,
                place.unit,
                place.entry,
            );
            let other = if place.entry.abstract_origin is Some {
                place.entry.abstract_origin
            } else {
                place.entry.specification
            };
            &&& name matches Ok(Some(found)) ==> has_name(place, found, 63)
            &&& name is Ok ==> (given_name(
                place.entry,
                place.supplementary is Some,
            ) matches Some(own) ==> name == Ok::<Option<Seq<u8>>, ErrorView>(Some(own)))
            &&& name is Ok && given_name(place.entry, place.supplementary is Some) is None ==> (referred(place, other) matches Some(next) ==> (given_name(
                next.entry,
                next.supplementary is Some,
            ) matches Some(own) ==> name == Ok::<Option<Seq<u8>>, ErrorView>(Some(own))))
        }),
{
    let visited = references::nothing_visited();
    lemma_name_of(place, DebugSource::Main, 0, visited);
    lemma_own_name(place.entry, place.supplementary is Some);
    let other = if place.entry.abstract_origin is Some {
        place.entry.abstract_origin
    } else {
        place.entry.specification
    };
    if let Some(next) = referred(place, other) {
        lemma_own_name(next.entry, next.supplementary is Some);
        reveal_with_fuel(references::name_of, 3);
        reveal_with_fuel(references::reference_name, 3);
        reveal_with_fuel(references::optional_reference_name, 3);
        reveal_with_fuel(references::absolute_name, 3);
    }
}

/// Whether an entry says of itself where it is declared: at a line that fits, in the
/// file that its index stands for.
pub open spec fn says_declared(
    entry: Entry,
    files: Map<u64, FileIndex>,
    line: LineEntry,
) -> bool {
    &&& model::file_index_of(entry.decl_file) matches Some(index) && files.dom().contains(index)
        && files[index] == line.file
    &&& model::unsigned_of(entry.decl_line) == Some(line.line as u64)
}

/// Whether a line is where an entry is declared: by what it says itself, or else by
/// what the entry says that it stands for, over at most `steps` references. The
/// files of another unit are those that the unit's header lists.
pub open spec fn is_declared(
    place: Place,
    files: Map<u64, FileIndex>,
    line: LineEntry,
    steps: nat,
) -> bool
    decreases steps, 0nat,
{
    ||| says_declared(place.entry, files, line)
    ||| steps > 0 && is_declared_by(
        place,
        place.entry.abstract_origin,
        files,
        line,
        (steps - 1) as nat,
    )
    ||| steps > 0 && is_declared_by(
        place,
        place.entry.specification,
        files,
        line,
        (steps - 1) as nat,
    )
}

/// Whether a line is where the entry that a reference leads to is declared.
pub open spec fn is_declared_by(
    place: Place,
    reference: Option<Reference>,
    files: Map<u64, FileIndex>,
    line: LineEntry,
    steps: nat,
) -> bool
    decreases steps, 1nat,
{
    referred(place, reference) matches Some(next) && match reference {
        Some(Reference::Unit(_)) => is_declared(next, files, line, steps),
        _ => exists|table: Seq<FileView>|
            is_declared(
                next,
                (#[trigger] references::unit_files(
                    next.unit,
                    next.supplementary is Some,
                    table,
                )).files,
                line,
                steps,
            ),
    }
}

proof fn lemma_declaration_of(
    place: Place,
    files: Map<u64, FileIndex>,
    source: DebugSource,
    depth: nat,
    start: DeclarationSearch,
)
    requires
        start.line == Ok::<Option<LineEntry>, ErrorView>(None),
    ensures
        references::declaration_of(
            place.units,
            place.supplementary,
            place.unit,
            place.entry,
            files,
            source,
            depth,
            start,
        ).line matches Ok(Some(line)) ==> depth < 64 && line.address == 0 && is_declared(
            place,
            files,
            line,
            (63 - depth) as nat,
        ),
    decreases references::references_left(depth), 0nat,
{
    if depth < 64 {
        let own = references::own_declaration(place.unit, place.entry, files, start);
        if own.line == Ok::<Option<LineEntry>, ErrorView>(None) {
            lemma_reference_declaration(
                place,
                place.entry.abstract_origin,
                files,
                source,
                depth + 1,
                own,
            );
            let origin = references::optional_reference_declaration(
                place.units,
                place.supplementary,
                place.unit,
                place.entry.abstract_origin,
                files,
                source,
                depth + 1,
                own,
            );
            if origin.line == Ok::<Option<LineEntry>, ErrorView>(None) {
                lemma_reference_declaration(
                    place,
                    place.entry.specification,
                    files,
                    source,
                    depth + 1,
                    origin,
                );
            }
        }
    }
}

proof fn lemma_reference_declaration(
    place: Place,
    reference: Option<Reference>,
    files: Map<u64, FileIndex>,
    source: DebugSource,
    depth: nat,
    start: DeclarationSearch,
)
    requires
        start.line == Ok::<Option<LineEntry>, ErrorView>(None),
    ensures
        references::optional_reference_declaration(
            place.units,
            place.supplementary,
            place.unit,
            reference,
            files,
            source,
            depth,
            start,
        ).line matches Ok(Some(line)) ==> depth < 64 && line.address == 0 && is_declared_by(
            place,
            reference,
            files,
            line,
            (63 - depth) as nat,
        ),
    decreases references::references_left(depth), 3nat,
{
    match reference {
        Some(Reference::Unit(offset)) => {
            if let Ok(absolute) = model::absolute_offset(place.unit, offset) {
                if let Ok(entry) = references::target_of(place.unit, offset) {
                    let reached = DeclarationSearch {
                        visited: references::visiting(start.visited, source, absolute),
                        ..start
                    };
                    lemma_declaration_of(
                        Place { entry, ..place },
                        files,
                        source,
                        depth,
                        reached,
                    );
                }
            }
        },
        Some(Reference::DebugInfo(offset)) => {
            lemma_absolute_declaration(
                place.units,
                place.supplementary,
                offset,
                DebugSource::Main,
                depth,
                start,
            );
        },
        Some(Reference::Supplementary(offset)) => {
            if let Some(other) = place.supplementary {
                lemma_absolute_declaration(
                    other,
                    None,
                    offset,
                    DebugSource::Supplementary,
                    depth,
                    start,
                );
            }
        },
        _ => {},
    }
}

proof fn lemma_absolute_declaration(
    units: Units,
    supplementary: Option<Units>,
    target: usize,
    source: DebugSource,
    depth: nat,
    start: DeclarationSearch,
)
    requires
        start.line == Ok::<Option<LineEntry>, ErrorView>(None),
    ensures
        references::absolute_declaration(
            units,
            supplementary,
            target,
            source,
            depth,
            start,
        ).line matches Ok(Some(line)) ==> depth < 64 && line.address == 0 && (referred_at(
            units,
            supplementary,
            target,
        ) matches Some(next) && exists|table: Seq<FileView>|
            is_declared(
                next,
                (#[trigger] references::unit_files(
                    next.unit,
                    next.supplementary is Some,
                    table,
                )).files,
                line,
                (63 - depth) as nat,
            )),
    decreases references::references_left(depth), 1nat,
{
    if let Some(next) = referred_at(units, supplementary, target) {
        let named = references::unit_files(next.unit, supplementary is Some, start.table);
        let filed = DeclarationSearch {
            table: named.table,
            visited: references::visiting(start.visited, source, target),
            ..start
        };
        if named.error is None {
            lemma_declaration_of(next, named.files, source, depth, filed);
        }
    }
}

/// The line of a declaration is the one that the entry gives, or else one that an
/// entry gives that it stands for, in the file that the index there stands for.
pub proof fn law_declarations_come_from_entries(
    place: Place,
    files: Map<u64, FileIndex>,
    start: DeclarationSearch,
)
    requires
        start.line == Ok::<Option<LineEntry>, ErrorView>(None),
    ensures
        ({
            let found = references::declaration_of(
                place.units,
                place.supplementary,
                place.unit,
                place.entry,
                files,
                DebugSource::Main,
                0,
                start,
            ).line;
            &&& found matches Ok(Some(line)) ==> line.address == 0 && is_declared(
                place,
                files,
                line,
                63,
            )
            &&& forall|line: LineEntry|
                line.address == 0 && #[trigger] says_declared(place.entry, files, line) ==> found
                    == Ok::<Option<LineEntry>, ErrorView>(Some(line))
        }),
{
    lemma_declaration_of(place, files, DebugSource::Main, 0, start);
}

/// Whether a unit holds an offset of the debug information.
pub open spec fn holds_offset(unit: Unit, target: usize) -> bool {
    unit.offset matches Some(start) && start <= target && target - start < unit.length
}

proof fn lemma_unit_from(units: Units, target: usize, from: int)
    requires
        0 <= from <= units.units@.len(),
    ensures
        match references::unit_from(units, target, from) {
            Ok(Some((index, offset))) => {
                &&& from <= index < units.units@.len()
                &&& holds_offset(units.units@[index], target)
                &&& units.units@[index].offset->0 + offset == target
                &&& forall|u: int|
                    from <= u < index ==> !holds_offset(#[trigger] units.units@[u], target)
            },
            Ok(None) => forall|u: int|
                from <= u < units.units@.len() ==> !holds_offset(
                    #[trigger] units.units@[u],
                    target,
                ),
            Err(_) => units.failure is Some || exists|u: int|
                from <= u < units.units@.len() && is_unusable(#[trigger] units.units@[u]),
        },
    decreases units.units@.len() - from,
{
    if from < units.units@.len() {
        lemma_unit_from(units, target, from + 1);
        let unit = units.units@[from];
        match references::unit_from(units, target, from) {
            Ok(Some((index, _))) => {
                assert forall|u: int| from <= u < index implies !holds_offset(
                    #[trigger] units.units@[u],
                    target,
                ) by {
                    if u == from {
                        assert(unit == units.units@[u]);
                    }
                }
            },
            Ok(None) => {
                assert forall|u: int| from <= u < units.units@.len() implies !holds_offset(
                    #[trigger] units.units@[u],
                    target,
                ) by {
                    if u == from {
                        assert(unit == units.units@[u]);
                    }
                }
            },
            Err(_) => {
                if is_unusable(unit) {
                    assert(is_unusable(units.units@[from]));
                }
            },
        }
    }
}

/// Whether a unit cannot be read, or does not end within the debug information.
pub open spec fn is_unusable(unit: Unit) -> bool {
    unit.failure is Some || (unit.offset matches Some(start) && start + unit.length > usize::MAX)
}

/// An offset of the debug information leads to the first unit that holds it, and to the
/// offset in that unit that is as far from its start. It leads to none where no unit
/// holds it.
pub proof fn law_offsets_lead_to_their_units(units: Units, target: usize)
    ensures
        match references::unit_containing(units, target) {
            Ok(Some((index, offset))) => {
                &&& 0 <= index < units.units@.len()
                &&& holds_offset(units.units@[index], target)
                &&& units.units@[index].offset->0 + offset == target
                &&& forall|u: int|
                    0 <= u < index ==> !holds_offset(#[trigger] units.units@[u], target)
            },
            Ok(None) => forall|u: int|
                0 <= u < units.units@.len() ==> !holds_offset(#[trigger] units.units@[u], target),
            Err(_) => units.failure is Some || exists|u: int|
                0 <= u < units.units@.len() && is_unusable(#[trigger] units.units@[u]),
        },
{
    lemma_unit_from(units, target, 0);
}

/// A call site can lead to one function at most: to the one that has the name of the
/// entry that it originates from. It leads to that one where the entry has a name of its
/// own.
pub proof fn law_call_sites_lead_to_their_origin(place: Place)
    ensures
        ({
            let patterns = dies::call_site_patterns(
                place.units,
                place.supplementary,
                place.unit,
                place.entry,
            );
            patterns matches Ok(names) ==> {
                let origin = referred(place, place.entry.call_origin);
                &&& names.len() <= 1
                &&& names.len() == 1 ==> (origin matches Some(next) && has_name(
                    next,
                    names[0],
                    62,
                ))
                &&& origin matches Some(next) ==> (given_name(
                    next.entry,
                    next.supplementary is Some,
                ) matches Some(own) ==> names == seq![own])
            }
        }),
{
    let visited = references::nothing_visited();
    lemma_reference_name(place, place.entry.call_origin, DebugSource::Main, 1, visited);
    if let Some(next) = referred(place, place.entry.call_origin) {
        lemma_own_name(next.entry, next.supplementary is Some);
        reveal_with_fuel(references::name_of, 3);
        reveal_with_fuel(references::reference_name, 3);
        reveal_with_fuel(references::optional_reference_name, 3);
        reveal_with_fuel(references::absolute_name, 3);
    }
}

} // verus!
