//! The entries that references lead to.
use vstd::prelude::*;
use vstd::string::*;

use crate::convert::dwarf::model::{Entry, Reference, Target, Unit, Units};
use crate::convert::dwarf::reading;
use crate::convert::dwarf::reading::{EntryHead, UnitData};
use crate::convert::dwarf::records;
use crate::convert::dwarf::records::read_entries_at;
use crate::convert::dwarf::references;
use crate::convert::dwarf::references::unit_containing_offset;
use crate::convert::dwarf::source;
use crate::convert::dwarf::source::{ContentsView, DwarfData};
use crate::error::ErrorView;

verus! {

/// Most entries of a unit that are read at once.
const BATCH: usize = 1024;

/// Whether an entry holds a reference that is followed.
pub open spec fn entry_refers(entry: Entry, reference: Reference) -> bool {
    ||| entry.abstract_origin == Some(reference)
    ||| entry.specification == Some(reference)
    ||| entry.call_origin == Some(reference)
}

/// Whether the entry that a reference leads to holds another.
pub open spec fn target_refers(target: Target, reference: Reference) -> bool {
    target.entry matches Ok(entry) && entry_refers(entry, reference)
}

/// Whether an entry of a unit, or one that a reference leads to there, holds a
/// reference that is followed.
pub open spec fn refers(unit: Unit, reference: Reference) -> bool {
    ||| exists|k: int|
        0 <= k < unit.entries@.len() && entry_refers(#[trigger] unit.entries@[k], reference)
    ||| exists|k: int|
        0 <= k < unit.targets@.len() && target_refers(#[trigger] unit.targets@[k], reference)
}

/// Whether the entry at an offset of a unit is at hand.
pub open spec fn has_target(unit: Unit, offset: usize) -> bool {
    exists|k: int| 0 <= k < unit.targets@.len() && (#[trigger] unit.targets@[k]).offset == offset
}

/// Whether the entry at an offset of the debug information is at hand, if there
/// is a unit there.
pub open spec fn reaches(units: Units, target: usize) -> bool {
    match references::unit_containing(units, target) {
        Ok(Some((index, offset))) => has_target(units.units@[index], offset),
        _ => true,
    }
}

/// Whether the entry that a reference of the unit at `index` leads to is at
/// hand.
pub open spec fn is_settled(
    units: Units,
    supplementary: Option<Units>,
    index: int,
    reference: Reference,
) -> bool {
    match reference {
        Reference::Unit(offset) => units.units@[index].failure is Some || has_target(
            units.units@[index],
            offset,
        ),
        Reference::DebugInfo(target) => reaches(units, target),
        Reference::Supplementary(target) => match supplementary {
            Some(others) => reaches(others, target),
            None => true,
        },
        Reference::Other => true,
    }
}

/// Whether every entry that a reference of some units leads to is at hand.
pub open spec fn is_closed(units: Units, supplementary: Option<Units>) -> bool {
    forall|index: int, reference: Reference|
        0 <= index < units.units@.len() && #[trigger] refers(units.units@[index], reference)
            ==> is_settled(units, supplementary, index, reference)
}

/// Units under one set of sections.
pub struct Space<'a> {
    /// The sections.
    pub data: DwarfData<'a>,
    /// The units.
    pub units: Units,
}

/// A reference of a unit of some space.
#[derive(Clone, Copy, Debug, PartialEq, Eq, Structural)]
pub struct Pending {
    /// Place of the space.
    pub place: usize,
    /// Place of the unit.
    pub index: usize,
    /// The reference.
    pub reference: Reference,
}

/// The units of a space, if it is given.
pub open spec fn space_units(spaces: Seq<Space<'_>>, place: Option<usize>) -> Option<Units> {
    match place {
        Some(place) => Some(spaces[place as int].units),
        None => None,
    }
}

/// The space, the unit and the offset in it that an offset of the debug
/// information of a space lies at.
pub open spec fn spot_in(spaces: Seq<Space<'_>>, place: int, target: usize) -> Option<
    (int, int, usize),
> {
    match references::unit_containing(spaces[place].units, target) {
        Ok(Some((index, offset))) => Some((place, index, offset)),
        _ => None,
    }
}

/// The space, the unit and the offset in it that a reference leads to.
pub open spec fn spot_of(
    spaces: Seq<Space<'_>>,
    supplementary: Option<usize>,
    pending: Pending,
) -> Option<(int, int, usize)> {
    match pending.reference {
        Reference::Unit(offset) => Some((pending.place as int, pending.index as int, offset)),
        Reference::DebugInfo(target) => spot_in(spaces, pending.place as int, target),
        Reference::Supplementary(target) => match supplementary {
            Some(place) => spot_in(spaces, place as int, target),
            None => None,
        },
        Reference::Other => None,
    }
}

spec fn is_done(
    spaces: Seq<Space<'_>>,
    supplementary: Option<usize>,
    pending: Pending,
) -> bool {
    match spot_of(spaces, supplementary, pending) {
        None => true,
        Some((place, index, offset)) => spaces[place].units.units@[index].failure is Some
            || has_target(spaces[place].units.units@[index], offset),
    }
}

spec fn is_valid(spaces: Seq<Space<'_>>, pending: Pending) -> bool {
    &&& pending.place < spaces.len()
    &&& pending.index < spaces[pending.place as int].units.units@.len()
}

spec fn all_said(spaces: Seq<Space<'_>>) -> bool {
    forall|place: int|
        0 <= place < spaces.len() ==> records::say_units(
            (#[trigger] spaces[place]).units,
            source::dwarf_contents(spaces[place].data),
        )
}

spec fn all_valid(spaces: Seq<Space<'_>>, queue: Seq<Pending>) -> bool {
    forall|k: int| 0 <= k < queue.len() ==> is_valid(spaces, #[trigger] queue[k])
}

spec fn waits(queue: Seq<Pending>, from: int, pending: Pending) -> bool {
    exists|k: int| from <= k < queue.len() && #[trigger] queue[k] == pending
}

/// Whether each reference has either led to an entry that is at hand, or waits.
spec fn all_tracked(
    spaces: Seq<Space<'_>>,
    supplementary: Option<usize>,
    queue: Seq<Pending>,
    from: int,
) -> bool {
    forall|place: usize, index: usize, reference: Reference|
        place < spaces.len() && index < spaces[place as int].units.units@.len()
            && #[trigger] refers(spaces[place as int].units.units@[index as int], reference) ==> {
            let pending = Pending { place, index, reference };
            is_done(spaces, supplementary, pending) || waits(queue, from, pending)
        }
}

fn push_reference(
    reference: Option<Reference>,
    place: usize,
    index: usize,
    queue: &mut Vec<Pending>,
)
    ensures
        match reference {
            Some(reference) => final(queue)@ == old(queue)@.push(
                Pending { place, index, reference },
            ),
            None => final(queue)@ == old(queue)@,
        },
{
    if let Some(reference) = reference {
        queue.push(Pending { place, index, reference });
    }
}

/// Whether a queue goes on with items of one unit only.
spec fn extends(queue: Seq<Pending>, before: Seq<Pending>, place: usize, index: usize) -> bool {
    &&& before.len() <= queue.len()
    &&& forall|k: int| 0 <= k < before.len() ==> #[trigger] queue[k] == before[k]
    &&& forall|k: int|
        before.len() <= k < queue.len() ==> (#[trigger] queue[k]).place == place && queue[k].index
            == index
}

fn push_references(entry: &Entry, place: usize, index: usize, queue: &mut Vec<Pending>)
    ensures
        extends(final(queue)@, old(queue)@, place, index),
        forall|reference: Reference| #[trigger]
            entry_refers(*entry, reference) ==> waits(
                final(queue)@,
                old(queue)@.len() as int,
                Pending { place, index, reference },
            ),
{
    let ghost start = queue@;
    push_reference(entry.abstract_origin, place, index, queue);
    let ghost first = queue@;
    push_reference(entry.specification, place, index, queue);
    let ghost second = queue@;
    push_reference(entry.call_origin, place, index, queue);
    proof {
        assert forall|reference: Reference| #[trigger] entry_refers(*entry, reference) implies waits(
            queue@,
            start.len() as int,
            Pending { place, index, reference },
        ) by {
            let pending = Pending { place, index, reference };
            if entry.abstract_origin == Some(reference) {
                assert(queue@[start.len() as int] == pending);
            } else if entry.specification == Some(reference) {
                assert(queue@[first.len() as int] == pending);
            } else {
                assert(queue@[second.len() as int] == pending);
            }
        }
    }
}

/// The entries that could be read.
pub open spec fn heads_read(results: Seq<Result<EntryHead, String>>) -> Seq<EntryHead>
    decreases results.len(),
{
    if results.len() == 0 {
        Seq::empty()
    } else {
        match results.last() {
            Ok(head) => heads_read(results.drop_last()).push(head),
            Err(_) => heads_read(results.drop_last()),
        }
    }
}

/// Reads the entries at some offsets of a unit, the last one first.
fn read_targets(unit: &UnitData<'_, '_>, offsets: &Vec<usize>) -> (targets: Vec<Target>)
    ensures
        targets@.len() == offsets@.len(),
        forall|i: int|
            0 <= i < targets@.len() ==> (#[trigger] targets@[i]).offset == offsets@[offsets@.len()
                - 1 - i] && records::says_target(
                targets@[i],
                unit.place().contents,
                unit.place().offset,
            ),
{
    let ghost contents = unit.place().contents;
    let ghost at = unit.place().offset;
    let mut results = unit.read_entries(offsets.as_slice());
    let ghost all = results@;
    let mut heads: Vec<EntryHead> = Vec::new();
    let mut i: usize = 0;
    while i < results.len()
        invariant
            i <= results@.len(),
            heads@ == heads_read(results@.take(i as int)),
        decreases results@.len() - i,
    {
        assert(results@.take(i + 1).drop_last() =~= results@.take(i as int));
        assert(results@.take(i + 1).last() == results@[i as int]);
        if let Ok(head) = &results[i] {
            heads.push(*head);
        }
        i = i + 1;
    }
    assert(results@.take(results@.len() as int) =~= results@);
    let mut entries = read_entries_at(unit, &heads);
    let mut targets: Vec<Target> = Vec::new();
    assert(all.take(all.len() as int) =~= all);
    while results.len() > 0
        invariant
            all.len() == offsets@.len(),
            forall|k: int|
                0 <= k < all.len() ==> reading::head_outcome(#[trigger] all[k])
                    == reading::dwarf_entry(contents, usize::MAX as nat, at, offsets@[k]),
            results@.len() <= all.len(),
            results@ == all.take(results@.len() as int),
            records::say_entries(entries@, contents, at, heads_read(results@)),
            targets@.len() == all.len() - results@.len(),
            forall|k: int|
                0 <= k < targets@.len() ==> (#[trigger] targets@[k]).offset
                    == offsets@[offsets@.len() - 1 - k] && records::says_target(
                    targets@[k],
                    contents,
                    at,
                ),
        decreases results@.len(),
    {
        let ghost before = results@;
        let offset: usize = offsets[results.len() - 1];
        let result = results.pop().unwrap();
        assert(results@ =~= before.drop_last());
        assert(results@ =~= all.take(results@.len() as int));
        assert(result == all[before.len() - 1]);
        let entry: Result<Entry, String> = match result {
            Ok(_) => {
                assert(heads_read(before).drop_last() =~= heads_read(results@));
                Ok(entries.pop().unwrap())
            },
            Err(source) => Err(source),
        };
        targets.push(Target { offset, entry });
    }
    targets
}

fn is_at_hand(unit: &Unit, offset: usize) -> (found: bool)
    ensures
        found == has_target(*unit, offset),
{
    let mut i: usize = 0;
    while i < unit.targets.len()
        invariant
            i <= unit.targets@.len(),
            forall|k: int| 0 <= k < i ==> (#[trigger] unit.targets@[k]).offset != offset,
        decreases unit.targets@.len() - i,
    {
        if unit.targets[i].offset == offset {
            return true;
        }
        i = i + 1;
    }
    false
}

fn is_among(offsets: &Vec<usize>, offset: usize) -> (found: bool)
    ensures
        found == offsets@.contains(offset),
{
    let mut i: usize = 0;
    while i < offsets.len()
        invariant
            i <= offsets@.len(),
            forall|k: int| 0 <= k < i ==> #[trigger] offsets@[k] != offset,
        decreases offsets@.len() - i,
    {
        if offsets[i] == offset {
            return true;
        }
        i = i + 1;
    }
    false
}

fn locate_in(spaces: &Vec<Space<'_>>, place: usize, target: usize) -> (spot: Option<
    (usize, usize, usize),
>)
    requires
        place < spaces@.len(),
    ensures
        match spot_in(spaces@, place as int, target) {
            None => spot is None,
            Some((space, index, offset)) => spot matches Some(found) && found.0 == space && found.1
                == index && found.2 == offset && found.0 < spaces@.len() && found.1
                < spaces@[found.0 as int].units.units@.len(),
        },
{
    match unit_containing_offset(&spaces[place].units, target) {
        Ok(Some((index, offset))) => Some((place, index, offset)),
        _ => None,
    }
}

/// Finds the space, the unit and the offset in it that a reference leads to.
fn locate(spaces: &Vec<Space<'_>>, supplementary: Option<usize>, pending: Pending) -> (spot: Option<
    (usize, usize, usize),
>)
    requires
        supplementary matches Some(place) ==> place < spaces@.len(),
        is_valid(spaces@, pending),
    ensures
        match spot_of(spaces@, supplementary, pending) {
            None => spot is None,
            Some((space, index, offset)) => spot matches Some(found) && found.0 == space && found.1
                == index && found.2 == offset && found.0 < spaces@.len() && found.1
                < spaces@[found.0 as int].units.units@.len(),
        },
{
    match pending.reference {
        Reference::Unit(offset) => Some((pending.place, pending.index, offset)),
        Reference::DebugInfo(target) => locate_in(spaces, pending.place, target),
        Reference::Supplementary(target) => match supplementary {
            Some(place) => locate_in(spaces, place, target),
            None => None,
        },
        Reference::Other => None,
    }
}

/// Entries of one unit that are read together.
struct Batch {
    place: usize,
    index: usize,
    offsets: Vec<usize>,
    next: usize,
}

spec fn is_covered(
    spaces: Seq<Space<'_>>,
    supplementary: Option<usize>,
    batch: Batch,
    pending: Pending,
) -> bool {
    ||| is_done(spaces, supplementary, pending)
    ||| spot_of(spaces, supplementary, pending) matches Some(spot) && spot.0 == batch.place
        && spot.1 == batch.index && batch.offsets@.contains(spot.2)
}

/// Takes references to entries of one unit off the queue, as long as they
/// follow one another.
fn take_batch(
    spaces: &Vec<Space<'_>>,
    supplementary: Option<usize>,
    queue: &Vec<Pending>,
    next: usize,
) -> (batch: Batch)
    requires
        supplementary matches Some(place) ==> place < spaces@.len(),
        all_valid(spaces@, queue@),
        next < queue@.len(),
    ensures
        next < batch.next <= queue@.len(),
        forall|k: int|
            next <= k < batch.next ==> is_covered(
                spaces@,
                supplementary,
                batch,
                #[trigger] queue@[k],
            ),
        batch.offsets@.len() > 0 ==> batch.place < spaces@.len() && batch.index
            < spaces@[batch.place as int].units.units@.len()
            && spaces@[batch.place as int].units.units@[batch.index as int].failure is None,
{
    let mut batch = Batch { place: 0, index: 0, offsets: Vec::new(), next };
    let mut more: bool = true;
    while more && batch.next < queue.len() && batch.offsets.len() < BATCH
        invariant
            supplementary matches Some(place) ==> place < spaces@.len(),
            all_valid(spaces@, queue@),
            next < queue@.len(),
            next <= batch.next <= queue@.len(),
            more && batch.next == next ==> batch.offsets@.len() == 0,
            !more ==> batch.next > next,
            forall|k: int|
                next <= k < batch.next ==> is_covered(
                    spaces@,
                    supplementary,
                    batch,
                    #[trigger] queue@[k],
                ),
            batch.offsets@.len() > 0 ==> batch.place < spaces@.len() && batch.index
                < spaces@[batch.place as int].units.units@.len()
                && spaces@[batch.place as int].units.units@[batch.index as int].failure is None,
        decreases
                queue@.len() - batch.next,
                if more {
                    1int
                } else {
                    0int
                },
    {
        let ghost before = batch;
        let pending = queue[batch.next];
        assert(is_valid(spaces@, queue@[batch.next as int]));
        match locate(spaces, supplementary, pending) {
            None => {
                batch.next = batch.next + 1;
            },
            Some((place, index, offset)) => {
                let unit: &Unit = &spaces[place].units.units[index];
                if unit.failure.is_some() || is_at_hand(unit, offset) {
                    batch.next = batch.next + 1;
                } else if batch.offsets.len() == 0 {
                    batch.place = place;
                    batch.index = index;
                    batch.offsets.push(offset);
                    assert(batch.offsets@[0] == offset);
                    batch.next = batch.next + 1;
                } else if place != batch.place || index != batch.index {
                    more = false;
                } else if is_among(&batch.offsets, offset) {
                    batch.next = batch.next + 1;
                } else {
                    batch.offsets.push(offset);
                    batch.next = batch.next + 1;
                }
            },
        }
        proof {
            assert forall|k: int| next <= k < batch.next implies is_covered(
                spaces@,
                supplementary,
                batch,
                #[trigger] queue@[k],
            ) by {
                assert forall|offset: usize| before.offsets@.contains(offset) implies
                    batch.offsets@.contains(offset) by {
                    let at = choose|at: int|
                        0 <= at < before.offsets@.len() && before.offsets@[at] == offset;
                    assert(batch.offsets@[at] == offset);
                }
                if k < before.next {
                    assert(is_covered(spaces@, supplementary, before, queue@[k]));
                } else if batch.offsets@.len() > before.offsets@.len() {
                    assert(batch.offsets@[batch.offsets@.len() - 1] == batch.offsets@.last());
                }
            }
        }
    }
    batch
}

spec fn same_shape(units: Units, others: Units) -> bool {
    &&& units.failure == others.failure
    &&& units.units@.len() == others.units@.len()
    &&& forall|i: int|
        0 <= i < units.units@.len() ==> {
            &&& (#[trigger] units.units@[i]).offset == others.units@[i].offset
            &&& units.units@[i].length == others.units@[i].length
            &&& units.units@[i].failure == others.units@[i].failure
            &&& units.units@[i].entries == others.units@[i].entries
        }
}

proof fn lemma_units_are_found_alike(units: Units, others: Units, target: usize, from: int)
    requires
        same_shape(units, others),
    ensures
        references::unit_from(units, target, from) == references::unit_from(others, target, from),
        references::unit_from(units, target, from) matches Ok(Some((index, offset))) ==> 0 <= index
            < units.units@.len(),
    decreases units.units@.len() - from,
{
    if 0 <= from < units.units@.len() {
        let unit = units.units@[from];
        lemma_units_are_found_alike(units, others, target, from + 1);
    }
}

/// Whether spaces differ at most in that more entries are at hand.
spec fn is_ahead(spaces: Seq<Space<'_>>, others: Seq<Space<'_>>) -> bool {
    &&& spaces.len() == others.len()
    &&& forall|place: int|
        0 <= place < spaces.len() ==> {
            &&& (#[trigger] spaces[place]).data == others[place].data
            &&& same_shape(spaces[place].units, others[place].units)
        }
    &&& forall|place: int, index: int, offset: usize|
        0 <= place < spaces.len() && 0 <= index < spaces[place].units.units@.len() && has_target(
            others[place].units.units@[index],
            offset,
        ) ==> #[trigger] has_target(spaces[place].units.units@[index], offset)
}

proof fn lemma_done_stays(
    spaces: Seq<Space<'_>>,
    others: Seq<Space<'_>>,
    supplementary: Option<usize>,
    pending: Pending,
)
    requires
        is_ahead(spaces, others),
        supplementary matches Some(place) ==> place < spaces.len(),
        is_valid(spaces, pending),
    ensures
        spot_of(spaces, supplementary, pending) == spot_of(others, supplementary, pending),
        is_done(others, supplementary, pending) ==> is_done(spaces, supplementary, pending),
        spot_of(spaces, supplementary, pending) matches Some(spot) ==> 0 <= spot.0 < spaces.len()
            && 0 <= spot.1 < spaces[spot.0].units.units@.len(),
{
    assert(spaces[pending.place as int].data == others[pending.place as int].data);
    match pending.reference {
        Reference::DebugInfo(target) => {
            lemma_units_are_found_alike(
                spaces[pending.place as int].units,
                others[pending.place as int].units,
                target,
                0,
            );
        },
        Reference::Supplementary(target) => {
            if let Some(place) = supplementary {
                assert(spaces[place as int].data == others[place as int].data);
                lemma_units_are_found_alike(
                    spaces[place as int].units,
                    others[place as int].units,
                    target,
                    0,
                );
            }
        },
        _ => {},
    }
    if is_done(others, supplementary, pending) {
        if let Some((place, index, offset)) = spot_of(spaces, supplementary, pending) {
            assert(spaces[place].data == others[place].data);
            let unit = spaces[place].units.units@[index];
            assert(unit.failure == others[place].units.units@[index].failure);
        }
    }
}

/// Adds entries that references lead to, to their unit.
fn add_targets(spaces: &mut Vec<Space<'_>>, place: usize, index: usize, targets: Vec<Target>)
    requires
        place < old(spaces)@.len(),
        index < old(spaces)@[place as int].units.units@.len(),
    ensures
        final(spaces)@.len() == old(spaces)@.len(),
        forall|p: int|
            0 <= p < old(spaces)@.len() && p != place ==> #[trigger] final(spaces)@[p]
                == old(spaces)@[p],
        final(spaces)@[place as int].data == old(spaces)@[place as int].data,
        final(spaces)@[place as int].units.failure == old(spaces)@[place as int].units.failure,
        final(spaces)@[place as int].units.units@.len()
            == old(spaces)@[place as int].units.units@.len(),
        forall|i: int|
            0 <= i < old(spaces)@[place as int].units.units@.len() && i != index
                ==> #[trigger] final(spaces)@[place as int].units.units@[i]
                == old(spaces)@[place as int].units.units@[i],
        ({
            let before = old(spaces)@[place as int].units.units@[index as int];
            let after = final(spaces)@[place as int].units.units@[index as int];
            &&& after.targets@ == before.targets@ + targets@
            &&& after == (Unit { targets: after.targets, ..before })
        }),
{
    let mut targets = targets;
    let space = &mut spaces[place];
    let unit = &mut space.units.units[index];
    unit.targets.append(&mut targets);
}

proof fn lemma_waits_on(before: Seq<Pending>, after: Seq<Pending>, from: int, pending: Pending)
    requires
        waits(before, from, pending),
        0 <= from,
        before.len() <= after.len(),
        forall|k: int| 0 <= k < before.len() ==> #[trigger] after[k] == before[k],
    ensures
        waits(after, from, pending),
{
    let k = choose|k: int| from <= k < before.len() && #[trigger] before[k] == pending;
    assert(after[k] == pending);
}

/// Whether the references of the first entries of a unit wait.
spec fn entries_wait(
    queue: Seq<Pending>,
    entries: Seq<Entry>,
    place: usize,
    index: usize,
    count: int,
) -> bool {
    forall|k: int, reference: Reference|
        0 <= k < count && #[trigger] entry_refers(entries[k], reference) ==> waits(
            queue,
            0,
            Pending { place, index, reference },
        )
}

fn queue_unit(unit: &Unit, place: usize, index: usize, queue: &mut Vec<Pending>)
    ensures
        extends(final(queue)@, old(queue)@, place, index),
        entries_wait(final(queue)@, unit.entries@, place, index, unit.entries@.len() as int),
{
    let ghost start = queue@;
    let mut i: usize = 0;
    while i < unit.entries.len()
        invariant
            i <= unit.entries@.len(),
            extends(queue@, start, place, index),
            entries_wait(queue@, unit.entries@, place, index, i as int),
        decreases unit.entries@.len() - i,
    {
        let ghost before = queue@;
        push_references(&unit.entries[i], place, index, queue);
        proof {
            assert forall|k: int, reference: Reference|
                0 <= k < i + 1 && #[trigger] entry_refers(unit.entries@[k], reference) implies waits(
                queue@,
                0,
                Pending { place, index, reference },
            ) by {
                let pending = Pending { place, index, reference };
                if k < i {
                    lemma_waits_on(before, queue@, 0, pending);
                } else {
                    let at = choose|at: int|
                        before.len() <= at < queue@.len() && #[trigger] queue@[at] == pending;
                    assert(queue@[at] == pending);
                }
            }
        }
        i = i + 1;
    }
}

/// Whether the references of the entries of the first units of a space wait.
spec fn units_wait(queue: Seq<Pending>, units: Units, place: usize, count: int) -> bool {
    forall|index: usize|
        index < count ==> entries_wait(
            queue,
            (#[trigger] units.units@[index as int]).entries@,
            place,
            index,
            units.units@[index as int].entries@.len() as int,
        )
}

proof fn lemma_entries_wait_on(
    before: Seq<Pending>,
    after: Seq<Pending>,
    entries: Seq<Entry>,
    place: usize,
    index: usize,
)
    requires
        entries_wait(before, entries, place, index, entries.len() as int),
        before.len() <= after.len(),
        forall|k: int| 0 <= k < before.len() ==> #[trigger] after[k] == before[k],
    ensures
        entries_wait(after, entries, place, index, entries.len() as int),
{
    assert forall|k: int, reference: Reference|
        0 <= k < entries.len() && #[trigger] entry_refers(entries[k], reference) implies waits(
        after,
        0,
        Pending { place, index, reference },
    ) by {
        lemma_waits_on(before, after, 0, Pending { place, index, reference });
    }
}

fn queue_space(units: &Units, place: usize, queue: &mut Vec<Pending>)
    ensures
        old(queue)@.len() <= final(queue)@.len(),
        forall|k: int| 0 <= k < old(queue)@.len() ==> #[trigger] final(queue)@[k] == old(queue)@[k],
        forall|k: int|
            old(queue)@.len() <= k < final(queue)@.len() ==> (#[trigger] final(queue)@[k]).place
                == place && final(queue)@[k].index < units.units@.len(),
        units_wait(final(queue)@, *units, place, units.units@.len() as int),
{
    let ghost start = queue@;
    let mut i: usize = 0;
    while i < units.units.len()
        invariant
            i <= units.units@.len(),
            start.len() <= queue@.len(),
            forall|k: int| 0 <= k < start.len() ==> #[trigger] queue@[k] == start[k],
            forall|k: int|
                start.len() <= k < queue@.len() ==> (#[trigger] queue@[k]).place == place
                    && queue@[k].index < units.units@.len(),
            units_wait(queue@, *units, place, i as int),
        decreases units.units@.len() - i,
    {
        let ghost before = queue@;
        queue_unit(&units.units[i], place, i, queue);
        proof {
            assert forall|index: usize| index < i + 1 implies entries_wait(
                queue@,
                (#[trigger] units.units@[index as int]).entries@,
                place,
                index,
                units.units@[index as int].entries@.len() as int,
            ) by {
                if index < i {
                    lemma_entries_wait_on(
                        before,
                        queue@,
                        units.units@[index as int].entries@,
                        place,
                        index,
                    );
                }
            }
        }
        i = i + 1;
    }
}

/// Whether the references of the entries of the first spaces wait.
spec fn spaces_wait(queue: Seq<Pending>, spaces: Seq<Space<'_>>, count: int) -> bool {
    forall|place: usize|
        place < count ==> units_wait(
            queue,
            (#[trigger] spaces[place as int]).units,
            place,
            spaces[place as int].units.units@.len() as int,
        )
}

fn queue_spaces(spaces: &Vec<Space<'_>>) -> (queue: Vec<Pending>)
    ensures
        all_valid(spaces@, queue@),
        spaces_wait(queue@, spaces@, spaces@.len() as int),
{
    let mut queue: Vec<Pending> = Vec::new();
    let mut i: usize = 0;
    while i < spaces.len()
        invariant
            i <= spaces@.len(),
            all_valid(spaces@, queue@),
            spaces_wait(queue@, spaces@, i as int),
        decreases spaces@.len() - i,
    {
        let ghost before = queue@;
        queue_space(&spaces[i].units, i, &mut queue);
        proof {
            assert forall|k: int| 0 <= k < queue@.len() implies is_valid(
                spaces@,
                #[trigger] queue@[k],
            ) by {
                if k < before.len() {
                    assert(is_valid(spaces@, before[k]));
                }
            }
            assert forall|place: usize| place < i + 1 implies units_wait(
                queue@,
                (#[trigger] spaces@[place as int]).units,
                place,
                spaces@[place as int].units.units@.len() as int,
            ) by {
                if place < i {
                    let units = spaces@[place as int].units;
                    assert(units_wait(before, units, place, units.units@.len() as int));
                    assert forall|index: usize| index < units.units@.len() implies entries_wait(
                        queue@,
                        (#[trigger] units.units@[index as int]).entries@,
                        place,
                        index,
                        units.units@[index as int].entries@.len() as int,
                    ) by {
                        lemma_entries_wait_on(
                            before,
                            queue@,
                            units.units@[index as int].entries@,
                            place,
                            index,
                        );
                    }
                }
            }
        }
        i = i + 1;
    }
    queue
}

/// Whether the references of entries that others lead to wait from a place on.
spec fn targets_wait(
    queue: Seq<Pending>,
    from: int,
    targets: Seq<Target>,
    place: usize,
    index: usize,
    count: int,
) -> bool {
    forall|k: int, reference: Reference|
        0 <= k < count && #[trigger] target_refers(targets[k], reference) ==> waits(
            queue,
            from,
            Pending { place, index, reference },
        )
}

fn queue_targets(targets: &Vec<Target>, place: usize, index: usize, queue: &mut Vec<Pending>)
    ensures
        extends(final(queue)@, old(queue)@, place, index),
        targets_wait(
            final(queue)@,
            old(queue)@.len() as int,
            targets@,
            place,
            index,
            targets@.len() as int,
        ),
{
    let ghost start = queue@;
    let mut i: usize = 0;
    while i < targets.len()
        invariant
            i <= targets@.len(),
            extends(queue@, start, place, index),
            targets_wait(queue@, start.len() as int, targets@, place, index, i as int),
        decreases targets@.len() - i,
    {
        let ghost before = queue@;
        if let Ok(entry) = &targets[i].entry {
            push_references(entry, place, index, queue);
        }
        proof {
            assert forall|k: int, reference: Reference|
                0 <= k < i + 1 && #[trigger] target_refers(targets@[k], reference) implies waits(
                queue@,
                start.len() as int,
                Pending { place, index, reference },
            ) by {
                let pending = Pending { place, index, reference };
                if k < i {
                    lemma_waits_on(before, queue@, start.len() as int, pending);
                } else {
                    assert(entry_refers(targets@[k].entry->Ok_0, reference));
                    assert(waits(queue@, before.len() as int, pending));
                    let at = choose|at: int|
                        before.len() <= at < queue@.len() && #[trigger] queue@[at] == pending;
                    assert(queue@[at] == pending);
                }
            }
        }
        i = i + 1;
    }
}

/// Reads the entries of a batch, and has their references wait.
fn follow_batch(
    spaces: &mut Vec<Space<'_>>,
    supplementary: Option<usize>,
    queue: &mut Vec<Pending>,
    batch: Batch,
    Ghost(next): Ghost<int>,
)
    requires
        supplementary matches Some(place) ==> place < old(spaces)@.len(),
        all_said(old(spaces)@),
        all_valid(old(spaces)@, old(queue)@),
        all_tracked(old(spaces)@, supplementary, old(queue)@, next),
        0 <= next < batch.next <= old(queue)@.len(),
        forall|k: int|
            next <= k < batch.next ==> is_covered(
                old(spaces)@,
                supplementary,
                batch,
                #[trigger] old(queue)@[k],
            ),
        batch.place < old(spaces)@.len(),
        batch.index < old(spaces)@[batch.place as int].units.units@.len(),
        old(spaces)@[batch.place as int].units.units@[batch.index as int].failure is None,
    ensures
        is_ahead(final(spaces)@, old(spaces)@),
        all_said(final(spaces)@),
        old(queue)@.len() <= final(queue)@.len(),
        all_valid(final(spaces)@, final(queue)@),
        all_tracked(final(spaces)@, supplementary, final(queue)@, batch.next as int),
{
    let ghost start = spaces@;
    let ghost waiting = queue@;
    let ghost headers = reading::dwarf_headers(
        source::dwarf_contents(start[batch.place as int].data),
        usize::MAX as nat,
    );
    let unit: &Unit = &spaces[batch.place].units.units[batch.index];
    proof {
        assert(records::say_units(
            start[batch.place as int].units,
            source::dwarf_contents(start[batch.place as int].data),
        ));
        assert(records::says_unit(
            start[batch.place as int].units.units@[batch.index as int],
            source::dwarf_contents(start[batch.place as int].data),
            headers.units[batch.index as int],
        ));
    }
    let offset: usize = match unit.offset {
        Some(offset) => offset,
        None => 0,
    };
    let targets: Vec<Target> = match spaces[batch.place].data.open_unit(offset) {
        Ok(unit) => read_targets(&unit, &batch.offsets),
        Err(_) => {
            assert(false);
            Vec::new()
        },
    };
    let ghost added = targets@;
    queue_targets(&targets, batch.place, batch.index, queue);
    add_targets(spaces, batch.place, batch.index, targets);
    proof {
        lemma_batch_followed(start, spaces@, waiting, queue@, supplementary, batch, next, added);
    }
}

proof fn lemma_batch_followed(
    start: Seq<Space<'_>>,
    spaces: Seq<Space<'_>>,
    waiting: Seq<Pending>,
    queue: Seq<Pending>,
    supplementary: Option<usize>,
    batch: Batch,
    next: int,
    added: Seq<Target>,
)
    requires
        supplementary matches Some(place) ==> place < start.len(),
        all_said(start),
        all_valid(start, waiting),
        all_tracked(start, supplementary, waiting, next),
        0 <= next < batch.next <= waiting.len(),
        forall|k: int|
            next <= k < batch.next ==> is_covered(
                start,
                supplementary,
                batch,
                #[trigger] waiting[k],
            ),
        batch.place < start.len(),
        batch.index < start[batch.place as int].units.units@.len(),
        added.len() == batch.offsets@.len(),
        forall|i: int|
            0 <= i < added.len() ==> (#[trigger] added[i]).offset
                == batch.offsets@[batch.offsets@.len() - 1 - i] && records::says_target(
                added[i],
                source::dwarf_contents(start[batch.place as int].data),
                reading::dwarf_headers(
                    source::dwarf_contents(start[batch.place as int].data),
                    usize::MAX as nat,
                ).units[batch.index as int].offset,
            ),
        extends(queue, waiting, batch.place, batch.index),
        targets_wait(
            queue,
            waiting.len() as int,
            added,
            batch.place,
            batch.index,
            added.len() as int,
        ),
        spaces.len() == start.len(),
        forall|p: int|
            0 <= p < start.len() && p != batch.place ==> #[trigger] spaces[p] == start[p],
        spaces[batch.place as int].data == start[batch.place as int].data,
        spaces[batch.place as int].units.failure == start[batch.place as int].units.failure,
        spaces[batch.place as int].units.units@.len()
            == start[batch.place as int].units.units@.len(),
        forall|i: int|
            0 <= i < start[batch.place as int].units.units@.len() && i != batch.index
                ==> #[trigger] spaces[batch.place as int].units.units@[i]
                == start[batch.place as int].units.units@[i],
        ({
            let before = start[batch.place as int].units.units@[batch.index as int];
            let after = spaces[batch.place as int].units.units@[batch.index as int];
            &&& after.targets@ == before.targets@ + added
            &&& after == (Unit { targets: after.targets, ..before })
        }),
    ensures
        is_ahead(spaces, start),
        all_said(spaces),
        all_valid(spaces, queue),
        all_tracked(spaces, supplementary, queue, batch.next as int),
{
    let here = batch.place as int;
    let contents = source::dwarf_contents(start[here].data);
    let headers = reading::dwarf_headers(contents, usize::MAX as nat);
    let before = start[here].units.units@[batch.index as int];
    let after = spaces[here].units.units@[batch.index as int];
    assert(records::say_units(start[here].units, contents));
    assert forall|place: int, index: int, offset: usize|
        0 <= place < spaces.len() && 0 <= index < spaces[place].units.units@.len() && has_target(
            start[place].units.units@[index],
            offset,
        ) implies #[trigger] has_target(spaces[place].units.units@[index], offset) by {
        if place == here && index == batch.index {
            let k = choose|k: int|
                0 <= k < before.targets@.len() && (#[trigger] before.targets@[k]).offset == offset;
            assert(after.targets@[k] == before.targets@[k]);
        }
    }
    assert(is_ahead(spaces, start));
    assert forall|place: int| 0 <= place < spaces.len() implies records::say_units(
        (#[trigger] spaces[place]).units,
        source::dwarf_contents(spaces[place].data),
    ) by {
        assert(records::say_units(start[place].units, source::dwarf_contents(start[place].data)));
        if place == here {
            assert forall|i: int| 0 <= i < headers.units.len() implies records::says_unit(
                #[trigger] spaces[here].units.units@[i],
                contents,
                headers.units[i],
            ) by {
                assert(records::says_unit(
                    start[here].units.units@[i],
                    contents,
                    headers.units[i],
                ));
            }
            assert forall|i: int, k: int|
                0 <= i < headers.units.len() && 0 <= k
                    < spaces[here].units.units@[i].targets@.len() implies records::says_target(
                #[trigger] spaces[here].units.units@[i].targets@[k],
                contents,
                headers.units[i].offset,
            ) by {
                if i == batch.index && k >= before.targets@.len() {
                    assert(after.targets@[k] == added[k - before.targets@.len()]);
                } else {
                    assert(spaces[here].units.units@[i].targets@[k]
                        == start[here].units.units@[i].targets@[k]);
                }
            }
        }
    }
    assert forall|k: int| 0 <= k < queue.len() implies is_valid(spaces, #[trigger] queue[k]) by {
        if k < waiting.len() {
            assert(is_valid(start, waiting[k]));
        }
    }
    assert forall|place: usize, index: usize, reference: Reference|
        place < spaces.len() && index < spaces[place as int].units.units@.len()
            && #[trigger] refers(
            spaces[place as int].units.units@[index as int],
            reference,
        ) implies ({
        let pending = Pending { place, index, reference };
        is_done(spaces, supplementary, pending) || waits(queue, batch.next as int, pending)
    }) by {
        let pending = Pending { place, index, reference };
        lemma_done_stays(spaces, start, supplementary, pending);
        let unit = spaces[place as int].units.units@[index as int];
        let old_unit = start[place as int].units.units@[index as int];
        if refers(old_unit, reference) {
            if !is_done(start, supplementary, pending) {
                let k = choose|k: int| next <= k < waiting.len() && #[trigger] waiting[k] == pending;
                assert(queue[k] == pending);
                if k < batch.next {
                    assert(is_covered(start, supplementary, batch, waiting[k]));
                    let spot = spot_of(start, supplementary, pending)->Some_0;
                    let at = choose|at: int|
                        0 <= at < batch.offsets@.len() && batch.offsets@[at] == spot.2;
                    let new = before.targets@.len() + (added.len() - 1 - at);
                    assert(after.targets@[new] == added[added.len() - 1 - at]);
                    assert(has_target(after, spot.2));
                }
            }
        } else {
            assert(unit.entries == old_unit.entries);
            assert(place == here && index == batch.index);
            let k = choose|k: int|
                0 <= k < unit.targets@.len() && target_refers(
                    #[trigger] unit.targets@[k],
                    reference,
                );
            if k < before.targets@.len() {
                assert(old_unit.targets@[k] == unit.targets@[k]);
                assert(false);
            }
            let new = k - before.targets@.len();
            assert(added[new] == unit.targets@[k]);
            assert(target_refers(added[new], reference));
            let at = choose|at: int|
                waiting.len() <= at < queue.len() && #[trigger] queue[at] == pending;
            assert(queue[at] == pending);
        }
    }
}

/// Reads the entries that references lead to, and those that their own
/// references lead to.
pub(crate) fn follow_references(spaces: &mut Vec<Space<'_>>, supplementary: Option<usize>)
    requires
        supplementary matches Some(place) ==> place < old(spaces)@.len(),
        forall|place: int|
            0 <= place < old(spaces)@.len() ==> records::say_units(
                (#[trigger] old(spaces)@[place]).units,
                source::dwarf_contents(old(spaces)@[place].data),
            ),
        forall|place: int, index: int|
            0 <= place < old(spaces)@.len() && 0 <= index
                < old(spaces)@[place].units.units@.len() ==> (
            #[trigger] old(spaces)@[place].units.units@[index]).targets@.len() == 0,
    ensures
        final(spaces)@.len() == old(spaces)@.len(),
        forall|place: int|
            0 <= place < old(spaces)@.len() ==> {
                &&& (#[trigger] final(spaces)@[place]).data == old(spaces)@[place].data
                &&& records::say_units(
                    final(spaces)@[place].units,
                    source::dwarf_contents(final(spaces)@[place].data),
                )
                &&& is_closed(
                    final(spaces)@[place].units,
                    space_units(final(spaces)@, supplementary),
                )
            },
{
    let ghost start = spaces@;
    let mut queue = queue_spaces(spaces);
    proof {
        assert forall|place: usize, index: usize, reference: Reference|
            place < spaces@.len() && index < spaces@[place as int].units.units@.len()
                && #[trigger] refers(
                spaces@[place as int].units.units@[index as int],
                reference,
            ) implies waits(queue@, 0, Pending { place, index, reference }) by {
            let unit = spaces@[place as int].units.units@[index as int];
            assert(unit.targets@.len() == 0);
            let units = spaces@[place as int].units;
            assert(units_wait(queue@, units, place, units.units@.len() as int));
            assert(entries_wait(queue@, unit.entries@, place, index, unit.entries@.len() as int));
            let k = choose|k: int|
                0 <= k < unit.entries@.len() && entry_refers(#[trigger] unit.entries@[k], reference);
            assert(entry_refers(unit.entries@[k], reference));
        }
        assert(is_ahead(spaces@, start));
    }
    let mut next: usize = 0;
    while next < queue.len()
        invariant
            supplementary matches Some(place) ==> place < spaces@.len(),
            is_ahead(spaces@, start),
            all_said(spaces@),
            all_valid(spaces@, queue@),
            all_tracked(spaces@, supplementary, queue@, next as int),
            next <= queue@.len(),
        decreases usize::MAX - next,
    {
        let ghost before = spaces@;
        let ghost from = next as int;
        let batch = take_batch(spaces, supplementary, &queue, next);
        next = batch.next;
        if batch.offsets.len() > 0 {
            follow_batch(spaces, supplementary, &mut queue, batch, Ghost(from));
            proof {
                lemma_ahead_goes_on(spaces@, before, start);
            }
        } else {
            proof {
                lemma_skipped(spaces@, supplementary, queue@, batch, from);
            }
        }
    }
    let count: usize = spaces.len();
    proof {
        assert forall|place: int| 0 <= place < start.len() implies {
            &&& (#[trigger] spaces@[place]).data == start[place].data
            &&& is_closed(spaces@[place].units, space_units(spaces@, supplementary))
        } by {
            assert(spaces@[place].data == start[place].data);
            assert(place < count);
            assert(spaces@[place].units.units.len() == spaces@[place].units.units@.len());
            lemma_space_is_closed(spaces@, supplementary, queue@, next as int, place as usize);
        }
    }
}

proof fn lemma_ahead_goes_on(
    spaces: Seq<Space<'_>>,
    middle: Seq<Space<'_>>,
    start: Seq<Space<'_>>,
)
    requires
        is_ahead(spaces, middle),
        is_ahead(middle, start),
    ensures
        is_ahead(spaces, start),
{
    assert forall|place: int| 0 <= place < spaces.len() implies {
        &&& (#[trigger] spaces[place]).data == start[place].data
        &&& same_shape(spaces[place].units, start[place].units)
    } by {
        assert(middle[place].data == start[place].data);
        let units = spaces[place].units;
        let between = middle[place].units;
        assert forall|i: int| 0 <= i < units.units@.len() implies {
            &&& (#[trigger] units.units@[i]).offset == start[place].units.units@[i].offset
            &&& units.units@[i].length == start[place].units.units@[i].length
            &&& units.units@[i].failure == start[place].units.units@[i].failure
            &&& units.units@[i].entries == start[place].units.units@[i].entries
        } by {
            assert(between.units@[i].offset == start[place].units.units@[i].offset);
        }
    }
    assert forall|place: int, index: int, offset: usize|
        0 <= place < spaces.len() && 0 <= index < spaces[place].units.units@.len() && has_target(
            start[place].units.units@[index],
            offset,
        ) implies #[trigger] has_target(spaces[place].units.units@[index], offset) by {
        assert(spaces[place].data == middle[place].data);
        assert(has_target(middle[place].units.units@[index], offset));
    }
}

proof fn lemma_skipped(
    spaces: Seq<Space<'_>>,
    supplementary: Option<usize>,
    queue: Seq<Pending>,
    batch: Batch,
    next: int,
)
    requires
        batch.offsets@.len() == 0,
        all_tracked(spaces, supplementary, queue, next),
        next < batch.next <= queue.len(),
        forall|k: int|
            next <= k < batch.next ==> is_covered(
                spaces,
                supplementary,
                batch,
                #[trigger] queue[k],
            ),
    ensures
        all_tracked(spaces, supplementary, queue, batch.next as int),
{
    assert forall|place: usize, index: usize, reference: Reference|
        place < spaces.len() && index < spaces[place as int].units.units@.len()
            && #[trigger] refers(
            spaces[place as int].units.units@[index as int],
            reference,
        ) implies ({
        let pending = Pending { place, index, reference };
        is_done(spaces, supplementary, pending) || waits(queue, batch.next as int, pending)
    }) by {
        let pending = Pending { place, index, reference };
        if !is_done(spaces, supplementary, pending) {
            let k = choose|k: int| next <= k < queue.len() && #[trigger] queue[k] == pending;
            if k < batch.next {
                assert(is_covered(spaces, supplementary, batch, queue[k]));
                assert(false);
            }
            assert(queue[k] == pending);
        }
    }
}

proof fn lemma_space_is_closed(
    spaces: Seq<Space<'_>>,
    supplementary: Option<usize>,
    queue: Seq<Pending>,
    next: int,
    place: usize,
)
    requires
        place < spaces.len(),
        spaces[place as int].units.units@.len() <= usize::MAX,
        next >= queue.len(),
        all_tracked(spaces, supplementary, queue, next),
    ensures
        is_closed(spaces[place as int].units, space_units(spaces, supplementary)),
{
    let units = spaces[place as int].units;
    assert forall|index: int, reference: Reference|
        0 <= index < units.units@.len() && #[trigger] refers(
            units.units@[index],
            reference,
        ) implies is_settled(units, space_units(spaces, supplementary), index, reference) by {
        let at = index as usize;
        assert(refers(spaces[place as int].units.units@[at as int], reference));
        let pending = Pending { place, index: at, reference };
        assert(!waits(queue, next, pending));
        assert(is_done(spaces, supplementary, pending));
        match reference {
            Reference::DebugInfo(target) => {
                lemma_found_unit_is_read(units, target, 0);
            },
            Reference::Supplementary(target) => {
                if let Some(other) = supplementary {
                    lemma_found_unit_is_read(spaces[other as int].units, target, 0);
                }
            },
            _ => {},
        }
    }
}

proof fn lemma_found_unit_is_read(units: Units, target: usize, from: int)
    ensures
        references::unit_from(units, target, from) matches Ok(Some((index, offset)))
            ==> units.units@[index].failure is None,
    decreases units.units@.len() - from,
{
    if 0 <= from < units.units@.len() {
        lemma_found_unit_is_read(units, target, from + 1);
    }
}

proof fn lemma_target_is_found(
    unit: Unit,
    contents: ContentsView,
    at: usize,
    offset: usize,
    place: int,
    from: int,
)
    requires
        0 <= from <= place < unit.targets@.len(),
        unit.targets@[place].offset == offset,
        forall|k: int|
            0 <= k < unit.targets@.len() ==> records::says_target(
                #[trigger] unit.targets@[k],
                contents,
                at,
            ),
    ensures
        match reading::dwarf_entry(contents, usize::MAX as nat, at, offset) {
            Ok(head) => references::target_from(unit, offset, from) matches Ok(entry)
                && records::says_entry(entry, contents, at, head),
            Err(text) => references::target_from(unit, offset, from) == Err::<Entry, ErrorView>(
                ErrorView::Dwarf { source: text },
            ),
        },
    decreases place - from,
{
    assert(records::says_target(unit.targets@[from], contents, at));
    if unit.targets@[from].offset != offset {
        lemma_target_is_found(unit, contents, at, offset, place, from + 1);
    }
}

/// A reference within a unit leads to what the parser reads at its offset, be it
/// one of an entry of the unit or of an entry that another reference leads to.
pub proof fn law_references_lead_to_entries(
    units: Units,
    supplementary: Option<Units>,
    contents: ContentsView,
    index: int,
    offset: usize,
)
    requires
        records::say_units(units, contents),
        is_closed(units, supplementary),
        0 <= index < units.units@.len(),
        units.units@[index].failure is None,
        refers(units.units@[index], Reference::Unit(offset)),
    ensures
        ({
            let limit = usize::MAX as nat;
            let at = reading::dwarf_headers(contents, limit).units[index].offset;
            match reading::dwarf_entry(contents, limit, at, offset) {
                Ok(head) => references::target_of(units.units@[index], offset) matches Ok(entry)
                    && records::says_entry(entry, contents, at, head),
                Err(text) => references::target_of(units.units@[index], offset) == Err::<
                    Entry,
                    ErrorView,
                >(ErrorView::Dwarf { source: text }),
            }
        }),
{
    let unit = units.units@[index];
    let at = reading::dwarf_headers(contents, usize::MAX as nat).units[index].offset;
    assert(is_settled(units, supplementary, index, Reference::Unit(offset)));
    let place = choose|k: int|
        0 <= k < unit.targets@.len() && (#[trigger] unit.targets@[k]).offset == offset;
    assert forall|k: int| 0 <= k < unit.targets@.len() implies records::says_target(
        #[trigger] unit.targets@[k],
        contents,
        at,
    ) by {
        assert(units.units@[index].targets@[k] == unit.targets@[k]);
    }
    lemma_target_is_found(unit, contents, at, offset, place, 0);
}

} // verus!
