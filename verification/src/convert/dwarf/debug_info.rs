//! The DWARF data of an image, with its supplementary and split data.
use vstd::prelude::*;
use vstd::string::*;

use crate::convert::dwarf::model::{attribute_bytes, dwarf_error, Text, Units};
use crate::convert::dwarf::reading;
use crate::convert::dwarf::reading::UnitData;
use crate::convert::dwarf::records;
use crate::convert::dwarf::records::read_units;
use crate::convert::dwarf::source;
use crate::convert::dwarf::source::{
    find_split, open_dwarf, open_package, open_split, ContentsView, DwarfData, PackageData,
    SectionSet, SetKind, SetView,
};
use crate::convert::dwarf::targets;
use crate::convert::dwarf::targets::{follow_references, Space};
use crate::convert::dwarf::units;
use crate::convert::dwarf::units::{check_dwo, DebugInfo, SplitData, SplitSources};
use crate::convert::elf::image::{AddressLayout, LayoutView};
use crate::convert::elf::object_file;
use crate::convert::elf::object_file::ObjectFile;
use crate::error;
use crate::error::{ElfInputKind, Error, ErrorView};

verus! {

/// What came of the search for split data.
pub enum OutcomeView {
    /// There was nowhere to look.
    NotSearched,
    /// It was not there.
    Absent,
    /// Why it could not be used.
    Failed(Seq<char>),
    /// The sections.
    Found(ContentsView),
}

/// The individual file of a skeleton unit.
pub enum SplitObject {
    /// There was nowhere to look.
    NotSearched,
    /// It was not there.
    Absent,
    /// Why it could not be used.
    Failed(String),
    /// Its sections.
    Found(SectionSet),
}

/// What is known of an individual file after one more was tried: the first that
/// can be used, or else why the last one could not be.
pub open spec fn after_attempt(found: SplitObject, attempt: SplitObject) -> SplitObject {
    match found {
        SplitObject::Found(_) => found,
        _ => match attempt {
            SplitObject::Found(_) => attempt,
            SplitObject::Failed(_) => attempt,
            _ => found,
        },
    }
}

impl SplitObject {
    /// Takes one more file that was tried into account.
    pub fn after(self, attempt: SplitObject) -> (found: SplitObject)
        ensures
            found == after_attempt(self, attempt),
    {
        match self {
            SplitObject::Found(sections) => SplitObject::Found(sections),
            other => match attempt {
                SplitObject::Found(sections) => SplitObject::Found(sections),
                SplitObject::Failed(reason) => SplitObject::Failed(reason),
                _ => other,
            },
        }
    }
}

/// What came of the search for an individual file, given the sections of the
/// file with the skeleton unit.
pub open spec fn object_outcome(object: SplitObject, parent: ContentsView) -> OutcomeView {
    match object {
        SplitObject::NotSearched => OutcomeView::NotSearched,
        SplitObject::Absent => OutcomeView::Absent,
        SplitObject::Failed(reason) => OutcomeView::Failed(reason@),
        SplitObject::Found(set) => OutcomeView::Found(source::split_contents(set@, parent)),
    }
}

/// What came of the search in a package.
pub open spec fn package_outcome(
    package: Option<SetView>,
    id: u64,
    parent: ContentsView,
) -> OutcomeView {
    match package {
        None => OutcomeView::NotSearched,
        Some(package) => match source::package_unit(package, id, parent, usize::MAX as nat) {
            Err(text) => OutcomeView::Failed(
                error::message_of(ErrorView::Dwarf { source: text }),
            ),
            Ok(None) => OutcomeView::Absent,
            Ok(Some(contents)) => OutcomeView::Found(contents),
        },
    }
}

/// The individual file of the unit at `index`.
pub open spec fn object_at(objects: Seq<SplitObject>, index: int) -> SplitObject {
    if 0 <= index < objects.len() {
        objects[index]
    } else {
        SplitObject::NotSearched
    }
}

/// What came of the search for the split data of a unit: for its individual
/// file, and where that was not found, in the package. A unit that is no
/// skeleton has none.
pub open spec fn split_outcomes(
    dwo_id: Option<u64>,
    object: SplitObject,
    package: Option<SetView>,
    parent: ContentsView,
) -> (OutcomeView, OutcomeView) {
    match dwo_id {
        None => (OutcomeView::NotSearched, OutcomeView::NotSearched),
        Some(id) => (
            object_outcome(object, parent),
            if object is Found {
                OutcomeView::NotSearched
            } else {
                package_outcome(package, id, parent)
            },
        ),
    }
}

/// Whether records say what came of a search.
pub open spec fn says_split(data: SplitData, outcome: OutcomeView) -> bool {
    match outcome {
        OutcomeView::NotSearched => data is NotSearched,
        OutcomeView::Absent => data is Absent,
        OutcomeView::Failed(text) => data matches SplitData::Failed(reason) && reason@ == text,
        OutcomeView::Found(contents) => data matches SplitData::Found(units) && records::say_units(
            units,
            contents,
        ),
    }
}

/// Whether every entry that a reference of split data leads to is at hand.
pub open spec fn split_is_closed(data: SplitData, supplementary: Option<Units>) -> bool {
    data matches SplitData::Found(units) ==> targets::is_closed(units, supplementary)
}

/// The sections of an image's DWARF data.
pub struct SectionsView {
    /// Sections of the debug file.
    pub main: SetView,
    /// Sections of the supplementary file.
    pub supplementary: Option<SetView>,
    /// Sections of the package.
    pub package: Option<SetView>,
}

/// Whether records say what the parser reads in the DWARF data of an image, and
/// hold every entry that a reference leads to.
pub open spec fn says_info(info: DebugInfo, sections: SectionsView, objects: Seq<SplitObject>) -> bool {
    let parent = source::whole_contents(sections.main, sections.supplementary);
    &&& records::say_units(info.units, parent)
    &&& targets::is_closed(info.units, info.supplementary)
    &&& match sections.supplementary {
        None => info.supplementary is None,
        Some(set) => info.supplementary matches Some(units) && records::say_units(
            units,
            source::whole_contents(set, None),
        ) && targets::is_closed(units, info.supplementary),
    }
    &&& info.splits@.len() == info.units.units@.len()
    &&& forall|i: int|
        0 <= i < info.splits@.len() ==> {
            let outcomes = split_outcomes(
                info.units.units@[i].dwo_id,
                object_at(objects, i),
                sections.package,
                parent,
            );
            &&& says_split((#[trigger] info.splits@[i]).object, outcomes.0)
            &&& says_split(info.splits@[i].package, outcomes.1)
            &&& split_is_closed(info.splits@[i].object, info.supplementary)
            &&& split_is_closed(info.splits@[i].package, info.supplementary)
        }
}

/// Where the split data of a unit is read from.
struct Plan {
    object: SplitData,
    package: SplitData,
    packaged: bool,
    place: Option<usize>,
}

spec fn plans(
    plan: Plan,
    outcomes: (OutcomeView, OutcomeView),
    spaces: Seq<Space<'_>>,
) -> bool {
    match outcomes {
        (OutcomeView::Found(contents), other) => {
            &&& plan.place matches Some(place) && place < spaces.len() && source::dwarf_contents(
                spaces[place as int].data,
            ) == contents
            &&& !plan.packaged
            &&& says_split(plan.package, other)
            &&& other !is Found
        },
        (other, OutcomeView::Found(contents)) => {
            &&& plan.place matches Some(place) && place < spaces.len() && source::dwarf_contents(
                spaces[place as int].data,
            ) == contents
            &&& plan.packaged
            &&& says_split(plan.object, other)
        },
        (object, package) => {
            &&& plan.place is None
            &&& says_split(plan.object, object)
            &&& says_split(plan.package, package)
        },
    }
}

spec fn spaces_said(spaces: Seq<Space<'_>>) -> bool {
    forall|place: int|
        0 <= place < spaces.len() ==> {
            &&& records::say_units(
                (#[trigger] spaces[place]).units,
                source::dwarf_contents(spaces[place].data),
            )
            &&& forall|index: int|
                0 <= index < spaces[place].units.units@.len() ==> (
                #[trigger] spaces[place].units.units@[index]).targets@.len() == 0
        }
}

fn read_space<'a>(data: DwarfData<'a>) -> (space: Space<'a>)
    ensures
        space.data == data,
        spaces_said(seq![space]),
{
    let units = read_units(&data);
    let space = Space { data, units };
    assert(seq![space][0] == space);
    space
}

fn push_space<'a>(spaces: &mut Vec<Space<'a>>, data: DwarfData<'a>)
    requires
        spaces_said(old(spaces)@),
    ensures
        spaces_said(final(spaces)@),
        final(spaces)@.len() == old(spaces)@.len() + 1,
        final(spaces)@.last().data == data,
        forall|k: int|
            0 <= k < old(spaces)@.len() ==> #[trigger] final(spaces)@[k] == old(spaces)@[k],
{
    let space = read_space(data);
    assert(seq![space][0] == space);
    spaces.push(space);
}

/// Looks for the split data of a unit, and reads what is found into a space of
/// its own.
fn plan_split<'a>(
    parent: &DwarfData<'a>,
    dwo_id: Option<u64>,
    object: Option<&'a SplitObject>,
    package: &Option<PackageData<'a>>,
    spaces: &mut Vec<Space<'a>>,
    Ghost(sections): Ghost<Option<SetView>>,
) -> (plan: Plan)
    requires
        spaces_said(old(spaces)@),
        match *package {
            Some(package) => sections == Some(source::package_contents(package)),
            None => sections is None,
        },
    ensures
        spaces_said(final(spaces)@),
        old(spaces)@.len() <= final(spaces)@.len() <= old(spaces)@.len() + 1,
        forall|k: int|
            0 <= k < old(spaces)@.len() ==> #[trigger] final(spaces)@[k] == old(spaces)@[k],
        plan.place matches Some(place) ==> place == old(spaces)@.len() && final(spaces)@.len()
            == old(spaces)@.len() + 1,
        plan.place is None ==> final(spaces)@.len() == old(spaces)@.len(),
        plans(
            plan,
            split_outcomes(
                dwo_id,
                match object {
                    Some(object) => *object,
                    None => SplitObject::NotSearched,
                },
                sections,
                source::dwarf_contents(*parent),
            ),
            final(spaces)@,
        ),
{
    let id: u64 = match dwo_id {
        Some(id) => id,
        None => {
            return Plan {
                object: SplitData::NotSearched,
                package: SplitData::NotSearched,
                packaged: false,
                place: None,
            };
        },
    };
    let tried: SplitData = match object {
        Some(SplitObject::Found(set)) => {
            let place: usize = spaces.len();
            push_space(spaces, open_split(set, parent));
            return Plan {
                object: SplitData::Absent,
                package: SplitData::NotSearched,
                packaged: false,
                place: Some(place),
            };
        },
        Some(SplitObject::Failed(reason)) => SplitData::Failed(reason.clone()),
        Some(SplitObject::Absent) => SplitData::Absent,
        _ => SplitData::NotSearched,
    };
    match package {
        None => Plan {
            object: tried,
            package: SplitData::NotSearched,
            packaged: false,
            place: None,
        },
        Some(package) => match find_split(package, id, parent) {
            Ok(None) => Plan {
                object: tried,
                package: SplitData::Absent,
                packaged: false,
                place: None,
            },
            Ok(Some(data)) => {
                let place: usize = spaces.len();
                push_space(spaces, data);
                Plan {
                    object: tried,
                    package: SplitData::Absent,
                    packaged: true,
                    place: Some(place),
                }
            },
            Err(text) => Plan {
                object: tried,
                package: SplitData::Failed(dwarf_error(&text).message()),
                packaged: false,
                place: None,
            },
        },
    }
}

/// The sections of an image's DWARF data.
pub struct DebugSections {
    main: SectionSet,
    supplementary: Option<SectionSet>,
    package: Option<SectionSet>,
}

/// An optional set of sections as it is stated.
pub open spec fn set_view(set: Option<SectionSet>) -> Option<SetView> {
    match set {
        Some(set) => Some(set@),
        None => None,
    }
}

impl View for DebugSections {
    type V = SectionsView;

    closed spec fn view(&self) -> SectionsView {
        SectionsView {
            main: self.main@,
            supplementary: set_view(self.supplementary),
            package: set_view(self.package),
        }
    }
}

fn no_units() -> (units: Units) {
    Units { units: Vec::new(), failure: None }
}

fn take_units(spaces: &mut Vec<Space<'_>>, place: usize) -> (units: Units)
    requires
        place < old(spaces)@.len(),
    ensures
        units == old(spaces)@[place as int].units,
        final(spaces)@.len() == old(spaces)@.len(),
        forall|k: int|
            0 <= k < old(spaces)@.len() && k != place ==> #[trigger] final(spaces)@[k]
                == old(spaces)@[k],
{
    let mut units = no_units();
    let space = &mut spaces[place];
    std::mem::swap(&mut space.units, &mut units);
    units
}

fn take_plan(plans: &mut Vec<Plan>, at: usize) -> (plan: Plan)
    requires
        at < old(plans)@.len(),
    ensures
        plan == old(plans)@[at as int],
        final(plans)@.len() == old(plans)@.len(),
        forall|k: int|
            0 <= k < old(plans)@.len() && k != at ==> #[trigger] final(plans)@[k] == old(plans)@[k],
{
    let mut plan = Plan {
        object: SplitData::Absent,
        package: SplitData::Absent,
        packaged: false,
        place: None,
    };
    let slot = &mut plans[at];
    std::mem::swap(slot, &mut plan);
    plan
}

/// The outcomes of the searches for the split data of some units.
spec fn all_outcomes(
    units: Units,
    objects: Seq<SplitObject>,
    package: Option<SetView>,
    parent: ContentsView,
    index: int,
) -> (OutcomeView, OutcomeView) {
    split_outcomes(units.units@[index].dwo_id, object_at(objects, index), package, parent)
}

/// Whether the plans of units have places one after another.
spec fn places_rise(plans: Seq<Plan>, from: int, bound: int) -> bool {
    forall|k: int|
        from <= k < plans.len() && (#[trigger] plans[k]).place is Some ==> plans[k].place->Some_0
            >= bound
}

/// Looks for the split data of all units.
fn plan_splits<'a>(
    parent: &DwarfData<'a>,
    units: &Units,
    objects: &'a Vec<SplitObject>,
    package: &Option<PackageData<'a>>,
    Ghost(sections): Ghost<Option<SetView>>,
) -> (planned: (Vec<Plan>, Vec<Space<'a>>))
    requires
        match *package {
            Some(package) => sections == Some(source::package_contents(package)),
            None => sections is None,
        },
    ensures
        spaces_said(planned.1@),
        planned.0@.len() == units.units@.len(),
        forall|k: int|
            0 <= k < planned.0@.len() ==> plans(
                #[trigger] planned.0@[k],
                all_outcomes(*units, objects@, sections, source::dwarf_contents(*parent), k),
                planned.1@,
            ),
        forall|i: int, j: int|
            0 <= i < j < planned.0@.len() && (#[trigger] planned.0@[i]).place is Some && (
            #[trigger] planned.0@[j]).place is Some ==> planned.0@[i].place->Some_0
                < planned.0@[j].place->Some_0,
{
    let mut found: Vec<Space<'a>> = Vec::new();
    let mut list: Vec<Plan> = Vec::new();
    let mut i: usize = 0;
    while i < units.units.len()
        invariant
            match *package {
                Some(package) => sections == Some(source::package_contents(package)),
                None => sections is None,
            },
            i <= units.units@.len(),
            spaces_said(found@),
            list@.len() == i,
            forall|k: int|
                0 <= k < list@.len() ==> plans(
                    #[trigger] list@[k],
                    all_outcomes(*units, objects@, sections, source::dwarf_contents(*parent), k),
                    found@,
                ),
            forall|k: int|
                0 <= k < list@.len() && (#[trigger] list@[k]).place is Some
                    ==> list@[k].place->Some_0 < found@.len(),
            forall|i: int, j: int|
                0 <= i < j < list@.len() && (#[trigger] list@[i]).place is Some && (
                #[trigger] list@[j]).place is Some ==> list@[i].place->Some_0
                    < list@[j].place->Some_0,
        decreases units.units@.len() - i,
    {
        let ghost before = found@;
        let ghost listed = list@;
        let object: Option<&'a SplitObject> = if i < objects.len() {
            Some(&objects[i])
        } else {
            None
        };
        let plan = plan_split(
            parent,
            units.units[i].dwo_id,
            object,
            package,
            &mut found,
            Ghost(sections),
        );
        list.push(plan);
        proof {
            assert forall|k: int| 0 <= k < list@.len() implies plans(
                #[trigger] list@[k],
                all_outcomes(*units, objects@, sections, source::dwarf_contents(*parent), k),
                found@,
            ) by {
                if k < i {
                    assert(list@[k] == listed[k]);
                    assert(plans(
                        listed[k],
                        all_outcomes(
                            *units,
                            objects@,
                            sections,
                            source::dwarf_contents(*parent),
                            k,
                        ),
                        before,
                    ));
                }
            }
        }
        i = i + 1;
    }
    (list, found)
}

/// The records of the split data of units, from their plans.
fn gather_splits(
    spaces: &mut Vec<Space<'_>>,
    base: usize,
    list: Vec<Plan>,
    Ghost(outcomes): Ghost<spec_fn(int) -> (OutcomeView, OutcomeView)>,
    Ghost(found): Ghost<Seq<Space<'_>>>,
    Ghost(supplementary): Ghost<Option<Units>>,
) -> (splits: Vec<SplitSources>)
    requires
        base + found.len() == old(spaces)@.len(),
        forall|k: int|
            0 <= k < found.len() ==> {
                &&& source::dwarf_contents((#[trigger] old(spaces)@[base + k]).data)
                    == source::dwarf_contents(found[k].data)
                &&& records::say_units(
                    old(spaces)@[base + k].units,
                    source::dwarf_contents(found[k].data),
                )
                &&& targets::is_closed(old(spaces)@[base + k].units, supplementary)
            },
        forall|k: int| 0 <= k < list@.len() ==> plans(#[trigger] list@[k], outcomes(k), found),
        forall|i: int, j: int|
            0 <= i < j < list@.len() && (#[trigger] list@[i]).place is Some && (
            #[trigger] list@[j]).place is Some ==> list@[i].place->Some_0
                < list@[j].place->Some_0,
    ensures
        final(spaces)@.len() == old(spaces)@.len(),
        forall|k: int| 0 <= k < base ==> #[trigger] final(spaces)@[k] == old(spaces)@[k],
        splits@.len() == list@.len(),
        forall|k: int|
            0 <= k < list@.len() ==> {
                &&& says_split((#[trigger] splits@[k]).object, outcomes(k).0)
                &&& says_split(splits@[k].package, outcomes(k).1)
                &&& split_is_closed(splits@[k].object, supplementary)
                &&& split_is_closed(splits@[k].package, supplementary)
            },
{
    let ghost start = spaces@;
    let ghost all = list@;
    let mut list: Vec<Plan> = list;
    let mut splits: Vec<SplitSources> = Vec::new();
    let ghost mut bound: int = 0;
    let mut i: usize = 0;
    while i < list.len()
        invariant
            base + found.len() == start.len(),
            spaces@.len() == start.len(),
            forall|k: int|
                0 <= k < found.len() ==> {
                    &&& source::dwarf_contents((#[trigger] start[base + k]).data)
                        == source::dwarf_contents(found[k].data)
                    &&& records::say_units(
                        start[base + k].units,
                        source::dwarf_contents(found[k].data),
                    )
                    &&& targets::is_closed(start[base + k].units, supplementary)
                },
            forall|k: int| 0 <= k < all.len() ==> plans(#[trigger] all[k], outcomes(k), found),
            forall|i: int, j: int|
                0 <= i < j < all.len() && (#[trigger] all[i]).place is Some && (
                #[trigger] all[j]).place is Some ==> all[i].place->Some_0 < all[j].place->Some_0,
            list@.len() == all.len(),
            i <= all.len(),
            forall|k: int| i <= k < all.len() ==> #[trigger] list@[k] == all[k],
            0 <= bound,
            places_rise(all, i as int, bound),
            forall|k: int| base + bound <= k < start.len() ==> #[trigger] spaces@[k] == start[k],
            forall|k: int| 0 <= k < base ==> #[trigger] spaces@[k] == start[k],
            splits@.len() == i,
            forall|k: int|
                0 <= k < i ==> {
                    &&& says_split((#[trigger] splits@[k]).object, outcomes(k).0)
                    &&& says_split(splits@[k].package, outcomes(k).1)
                    &&& split_is_closed(splits@[k].object, supplementary)
                    &&& split_is_closed(splits@[k].package, supplementary)
                },
        decreases all.len() - i,
    {
        let count: usize = spaces.len();
        let plan = take_plan(&mut list, i);
        assert(plan == all[i as int]);
        assert(plans(all[i as int], outcomes(i as int), found));
        let sources: SplitSources = match plan.place {
            None => SplitSources { object: plan.object, package: plan.package },
            Some(place) => {
                assert(base + place < count);
                assert(start[base + place as int] == spaces@[base + place as int]);
                let units = take_units(spaces, base + place);
                proof {
                    bound = place + 1;
                }
                if plan.packaged {
                    SplitSources { object: plan.object, package: SplitData::Found(units) }
                } else {
                    SplitSources { object: SplitData::Found(units), package: plan.package }
                }
            },
        };
        splits.push(sources);
        i = i + 1;
    }
    splits
}

impl DebugSections {
    #[verifier::type_invariant]
    spec fn inv(self) -> bool {
        self.package matches Some(set) ==> source::package_problem(
            set@,
            usize::MAX as nat,
        ) is None
    }

    /// Reads the DWARF data, given the individual files of its units in order.
    pub fn read(&self, objects: &Vec<SplitObject>) -> (info: DebugInfo)
        ensures
            says_info(info, self@, objects@),
    {
        proof {
            use_type_invariant(self);
        }
        let main = open_dwarf(&self.main, self.supplementary.as_ref());
        let ghost parent = source::dwarf_contents(main);
        let package: Option<PackageData<'_>> = match &self.package {
            Some(set) => match open_package(set) {
                Ok(package) => Some(package),
                Err(_) => None,
            },
            None => None,
        };
        let mut spaces: Vec<Space<'_>> = Vec::new();
        push_space(&mut spaces, main);
        let supplementary: Option<usize> = match &self.supplementary {
            Some(set) => {
                push_space(&mut spaces, open_dwarf(set, None));
                Some(1)
            },
            None => None,
        };
        let (list, found) = plan_splits(
            &spaces[0].data,
            &spaces[0].units,
            objects,
            &package,
            Ghost(self@.package),
        );
        let ghost first = spaces@;
        let ghost opened = found@;
        let base: usize = spaces.len();
        let mut found: Vec<Space<'_>> = found;
        spaces.append(&mut found);
        let ghost before = spaces@;
        let ghost units = before[0].units;
        assert(before =~= first + opened);
        assert forall|place: int| 0 <= place < before.len() implies {
            &&& records::say_units(
                (#[trigger] before[place]).units,
                source::dwarf_contents(before[place].data),
            )
            &&& forall|index: int|
                0 <= index < before[place].units.units@.len() ==> (
                #[trigger] before[place].units.units@[index]).targets@.len() == 0
        } by {
            if place < first.len() {
                assert(before[place] == first[place]);
            } else {
                assert(before[place] == opened[place - first.len()]);
            }
        }
        follow_references(&mut spaces, supplementary);
        let ghost done = spaces@;
        let ghost others = targets::space_units(done, supplementary);
        let ghost outcomes = |k: int|
            all_outcomes(done[0].units, objects@, self@.package, parent, k);
        proof {
            lemma_ids_stay(before, done, parent);
            assert forall|k: int| 0 <= k < opened.len() implies {
                &&& source::dwarf_contents((#[trigger] done[base + k]).data)
                    == source::dwarf_contents(opened[k].data)
                &&& records::say_units(
                    done[base + k].units,
                    source::dwarf_contents(opened[k].data),
                )
                &&& targets::is_closed(done[base + k].units, others)
            } by {
                assert(before[base + k] == opened[k]);
                assert(done[base + k].data == before[base + k].data);
            }
            assert forall|k: int| 0 <= k < list@.len() implies plans(
                #[trigger] list@[k],
                outcomes(k),
                opened,
            ) by {
                assert(all_outcomes(units, objects@, self@.package, parent, k) == outcomes(k));
            }
        }
        let splits = gather_splits(
            &mut spaces,
            base,
            list,
            Ghost(outcomes),
            Ghost(opened),
            Ghost(others),
        );
        let supplementary: Option<Units> = match supplementary {
            Some(place) => Some(take_units(&mut spaces, place)),
            None => None,
        };
        let units: Units = take_units(&mut spaces, 0);
        let info = DebugInfo { units, splits, supplementary };
        proof {
            assert(done[0].data == before[0].data);
            if base == 2 {
                assert(done[1].data == before[1].data);
            }
            assert(info.units == done[0].units);
            assert(info.supplementary == others);
            assert forall|i: int| 0 <= i < info.splits@.len() implies ({
                let outcomes = split_outcomes(
                    info.units.units@[i].dwo_id,
                    object_at(objects@, i),
                    self@.package,
                    parent,
                );
                &&& says_split((#[trigger] info.splits@[i]).object, outcomes.0)
                &&& says_split(info.splits@[i].package, outcomes.1)
                &&& split_is_closed(info.splits@[i].object, info.supplementary)
                &&& split_is_closed(info.splits@[i].package, info.supplementary)
            }) by {
                assert(outcomes(i) == all_outcomes(
                    done[0].units,
                    objects@,
                    self@.package,
                    parent,
                    i,
                ));
            }
        }
        info
    }
}

proof fn lemma_ids_stay(before: Seq<Space<'_>>, done: Seq<Space<'_>>, parent: ContentsView)
    requires
        before.len() > 0,
        done.len() > 0,
        records::say_units(before[0].units, parent),
        records::say_units(done[0].units, parent),
    ensures
        before[0].units.units@.len() == done[0].units.units@.len(),
        forall|k: int|
            0 <= k < done[0].units.units@.len() ==> (#[trigger] done[0].units.units@[k]).dwo_id
                == before[0].units.units@[k].dwo_id,
{
    let headers = reading::dwarf_headers(parent, usize::MAX as nat);
    assert forall|k: int| 0 <= k < done[0].units.units@.len() implies (
    #[trigger] done[0].units.units@[k]).dwo_id == before[0].units.units@[k].dwo_id by {
        assert(records::says_unit(done[0].units.units@[k], parent, headers.units[k]));
        assert(records::says_unit(before[0].units.units@[k], parent, headers.units[k]));
    }
}

/// The files that DWARF data is loaded from.
pub struct DebugFilesView {
    /// Debug file.
    pub debug: Seq<u8>,
    /// Supplementary file.
    pub supplementary: Option<Seq<u8>>,
    /// Package.
    pub package: Option<Seq<u8>>,
}

/// Whether numbers in a file start with the least significant byte.
pub open spec fn is_little(data: Seq<u8>) -> bool {
    object_file::object_header(data)->Ok_0.little_endian
}

/// Whether the sections of a supplementary file may be loaded as `outcome`
/// says.
pub open spec fn may_load_supplementary(
    files: DebugFilesView,
    layout: LayoutView,
    outcome: Result<Option<SetView>, ErrorView>,
) -> bool {
    match files.supplementary {
        None => outcome == Ok::<Option<SetView>, ErrorView>(None),
        Some(data) => match outcome {
            Ok(Some(set)) => source::may_load_set(
                data,
                layout,
                SetKind::Whole,
                is_little(files.debug),
                Ok(set),
            ),
            Ok(None) => false,
            Err(error) => source::may_load_set(
                data,
                layout,
                SetKind::Whole,
                is_little(files.debug),
                Err(error),
            ),
        },
    }
}

/// Whether the sections of a package may be loaded as `outcome` says. One whose
/// indexes cannot be read is refused.
pub open spec fn may_load_package(
    files: DebugFilesView,
    layout: LayoutView,
    outcome: Result<Option<SetView>, ErrorView>,
) -> bool {
    match files.package {
        None => outcome == Ok::<Option<SetView>, ErrorView>(None),
        Some(data) => match outcome {
            Ok(Some(set)) => source::may_load_set(
                data,
                layout,
                SetKind::Package,
                is_little(data),
                Ok(set),
            ) && source::package_problem(set, usize::MAX as nat) is None,
            Ok(None) => false,
            Err(error) => {
                ||| source::may_load_set(
                    data,
                    layout,
                    SetKind::Package,
                    is_little(data),
                    Err(error),
                )
                ||| exists|set: SetView|
                    {
                        &&& #[trigger] source::may_load_set(
                            data,
                            layout,
                            SetKind::Package,
                            is_little(data),
                            Ok(set),
                        )
                        &&& source::package_problem(set, usize::MAX as nat) matches Some(text)
                            && error == (ErrorView::Dwarf { source: text })
                    }
            },
        },
    }
}

/// Whether the sections of the debug file may be loaded as `outcome` says.
pub open spec fn may_load_main(
    files: DebugFilesView,
    layout: LayoutView,
    outcome: Result<SetView, ErrorView>,
) -> bool {
    source::may_load_set(files.debug, layout, SetKind::Whole, is_little(files.debug), outcome)
}

/// Whether the sections of an image's DWARF data may be loaded as `outcome`
/// says: first those of the debug file, next those of the supplementary file,
/// and last those of the package.
pub open spec fn may_load_debug(
    files: DebugFilesView,
    layout: LayoutView,
    outcome: Result<SectionsView, ErrorView>,
) -> bool {
    match outcome {
        Ok(sections) => {
            &&& may_load_main(files, layout, Ok(sections.main))
            &&& may_load_supplementary(files, layout, Ok(sections.supplementary))
            &&& may_load_package(files, layout, Ok(sections.package))
        },
        Err(error) => {
            ||| may_load_main(files, layout, Err(error))
            ||| exists|main: SetView|
                {
                    &&& #[trigger] may_load_main(files, layout, Ok(main))
                    &&& may_load_supplementary(files, layout, Err(error))
                }
            ||| exists|main: SetView, supplementary: Option<SetView>|
                {
                    &&& #[trigger] may_load_main(files, layout, Ok(main))
                    &&& #[trigger] may_load_supplementary(files, layout, Ok(supplementary))
                    &&& may_load_package(files, layout, Err(error))
                }
        },
    }
}

/// Loaded sections, or an error, as they are stated.
pub open spec fn sections_outcome(result: Result<DebugSections, Error>) -> Result<
    SectionsView,
    ErrorView,
> {
    match result {
        Ok(sections) => Ok(sections@),
        Err(error) => Err(error@),
    }
}

/// The bytes of an optional file.
pub open spec fn file_view(file: Option<&ObjectFile<'_>>) -> Option<Seq<u8>> {
    match file {
        Some(file) => Some(file@),
        None => None,
    }
}

/// A skeleton unit whose split file is looked for.
pub struct Skeleton {
    /// Identifier of the split unit.
    pub dwo_id: u64,
    /// The file, if the unit names one.
    pub file: Result<Option<DwoName>, Error>,
}

/// The name of a split file.
pub struct DwoName {
    /// Name of the file.
    pub name: Vec<u8>,
    /// Directory that the unit was compiled in.
    pub directory: Option<Vec<u8>>,
}

/// The name of a split file.
pub struct DwoNameView {
    /// Name of the file.
    pub name: Seq<u8>,
    /// Directory that the unit was compiled in.
    pub directory: Option<Seq<u8>>,
}

impl View for DwoName {
    type V = DwoNameView;

    open spec fn view(&self) -> DwoNameView {
        DwoNameView {
            name: self.name@,
            directory: match self.directory {
                Some(directory) => Some(directory@),
                None => None,
            },
        }
    }
}

/// A place where a split file is looked for.
#[derive(Clone, Copy, Debug, PartialEq, Eq, Structural)]
pub enum DwoPlace {
    /// In the directory that the unit was compiled in, below the directory of
    /// the debug file.
    BelowBase,
    /// In the directory that the unit was compiled in.
    Directory,
    /// In the directory of the debug file.
    Base,
}

/// The places where a split file is looked for, in order. A relative directory
/// is tried below that of the debug file first.
pub open spec fn dwo_places(has_directory: bool, relative: bool) -> Seq<DwoPlace> {
    if !has_directory {
        seq![DwoPlace::Base]
    } else if relative {
        seq![DwoPlace::BelowBase, DwoPlace::Directory]
    } else {
        seq![DwoPlace::Directory]
    }
}

impl DwoName {
    /// Tells where the file is looked for, in order. `relative` tells whether
    /// the directory is a relative path.
    pub fn places(&self, relative: bool) -> (places: Vec<DwoPlace>)
        ensures
            places@ == dwo_places(self.directory is Some, relative),
    {
        let mut places: Vec<DwoPlace> = Vec::new();
        if self.directory.is_none() {
            places.push(DwoPlace::Base);
        } else {
            if relative {
                places.push(DwoPlace::BelowBase);
            }
            places.push(DwoPlace::Directory);
        }
        assert(places@ =~= dwo_places(self.directory is Some, relative));
        places
    }
}

/// The split file that a skeleton unit names. An empty name names none, and
/// neither does one of a supplementary object that is not there.
pub open spec fn named_file(
    name: Result<Option<reading::TextView>, Seq<char>>,
    directory: Option<Seq<u8>>,
    supplementary: bool,
) -> Result<Option<DwoNameView>, ErrorView> {
    match name {
        Err(text) => Err(ErrorView::Dwarf { source: text }),
        Ok(None) => Ok(None),
        Ok(Some(text)) => if text.supplementary && !supplementary {
            Ok(None)
        } else {
            match text.value {
                Err(source) => Err(ErrorView::Dwarf { source }),
                Ok(name) => if name.len() == 0 {
                    Ok(None)
                } else {
                    Ok(Some(DwoNameView { name, directory }))
                },
            }
        },
    }
}

/// A skeleton's file as it is stated.
pub open spec fn file_outcome(file: Result<Option<DwoName>, Error>) -> Result<
    Option<DwoNameView>,
    ErrorView,
> {
    match file {
        Err(error) => Err(error@),
        Ok(None) => Ok(None),
        Ok(Some(name)) => Ok(Some(name@)),
    }
}

/// What the parser says of a skeleton's name, as it is stated.
pub open spec fn name_outcome(name: Result<Option<Text>, String>) -> Result<
    Option<reading::TextView>,
    Seq<char>,
> {
    match name {
        Ok(name) => Ok(reading::text_view(name)),
        Err(text) => Err(text@),
    }
}

/// Tells which split file a skeleton unit names.
pub fn split_file(
    name: Result<Option<Text>, String>,
    directory: Option<Vec<u8>>,
    supplementary: bool,
) -> (file: Result<Option<DwoName>, Error>)
    ensures
        file_outcome(file) == named_file(
            name_outcome(name),
            object_file::optional_bytes(directory),
            supplementary,
        ),
{
    let name: Vec<u8> = match &name {
        Err(source) => return Err(dwarf_error(source)),
        Ok(None) => return Ok(None),
        Ok(Some(text)) => attribute_bytes(text, supplementary)?,
    };
    if name.len() == 0 {
        return Ok(None);
    }
    Ok(Some(DwoName { name, directory }))
}

/// Whether a record says which split file the unit with a header stands for.
pub open spec fn says_skeleton(
    skeleton: Option<Skeleton>,
    contents: ContentsView,
    unit: usize,
) -> bool {
    match reading::dwarf_unit(contents, usize::MAX as nat, unit) {
        Err(_) => skeleton is None,
        Ok(dwo_id) => match dwo_id {
            None => skeleton is None,
            Some(id) => skeleton matches Some(skeleton) && skeleton.dwo_id == id && file_outcome(
                skeleton.file,
            ) == named_file(
                reading::dwarf_dwo_name(contents, usize::MAX as nat, unit),
                reading::dwarf_compile_directory(contents, usize::MAX as nat, unit),
                contents.supplementary is Some,
            ),
        },
    }
}

fn read_skeleton_of(data: &DwarfData<'_>, unit: usize, supplementary: bool) -> (skeleton: Option<
    Skeleton,
>)
    requires
        supplementary == source::dwarf_contents(*data).supplementary is Some,
    ensures
        says_skeleton(skeleton, source::dwarf_contents(*data), unit),
{
    let unit: UnitData<'_, '_> = match data.open_unit(unit) {
        Ok(unit) => unit,
        Err(_) => return None,
    };
    let dwo_id: u64 = unit.dwo_id()?;
    let file = split_file(unit.read_dwo_name(), unit.compile_directory(), supplementary);
    Some(Skeleton { dwo_id, file })
}

impl DebugSections {
    /// Loads the sections of an image's DWARF data.
    pub fn load(
        debug: &ObjectFile<'_>,
        supplementary: Option<&ObjectFile<'_>>,
        package: Option<&ObjectFile<'_>>,
        layout: &AddressLayout,
    ) -> (result: Result<Self, Error>)
        ensures
            may_load_debug(
                DebugFilesView {
                    debug: debug@,
                    supplementary: file_view(supplementary),
                    package: file_view(package),
                },
                layout@,
                sections_outcome(result),
            ),
    {
        let ghost files = DebugFilesView {
            debug: debug@,
            supplementary: file_view(supplementary),
            package: file_view(package),
        };
        let little: bool = debug.header().little_endian;
        let main = SectionSet::load(debug, layout, SetKind::Whole, little)?;
        assert(may_load_main(files, layout@, Ok(main@)));
        let others: Option<SectionSet> = match supplementary {
            Some(file) => Some(SectionSet::load(file, layout, SetKind::Whole, little)?),
            None => None,
        };
        assert(may_load_supplementary(files, layout@, Ok(set_view(others))));
        let packed: Option<SectionSet> = match package {
            Some(file) => {
                let set = SectionSet::load(
                    file,
                    layout,
                    SetKind::Package,
                    file.header().little_endian,
                )?;
                if let Err(text) = open_package(&set) {
                    assert(source::may_load_set(
                        file@,
                        layout@,
                        SetKind::Package,
                        is_little(file@),
                        Ok(set@),
                    ));
                    return Err(dwarf_error(&text));
                }
                Some(set)
            },
            None => None,
        };
        Ok(DebugSections { main, supplementary: others, package: packed })
    }

    /// Tells which split file each unit stands for.
    pub fn skeletons(&self) -> (skeletons: Vec<Option<Skeleton>>)
        ensures
            ({
                let contents = source::whole_contents(self@.main, self@.supplementary);
                let headers = reading::dwarf_headers(contents, usize::MAX as nat);
                &&& skeletons@.len() == headers.units.len()
                &&& forall|i: int|
                    0 <= i < skeletons@.len() ==> says_skeleton(
                        #[trigger] skeletons@[i],
                        contents,
                        headers.units[i].offset,
                    )
            }),
    {
        let data = open_dwarf(&self.main, self.supplementary.as_ref());
        let ghost contents = source::dwarf_contents(data);
        let headers = data.read_headers();
        let mut skeletons: Vec<Option<Skeleton>> = Vec::new();
        let mut i: usize = 0;
        while i < headers.units.len()
            invariant
                contents == source::dwarf_contents(data),
                contents.supplementary is Some == self.supplementary is Some,
                i <= headers.units@.len(),
                skeletons@.len() == i,
                forall|k: int|
                    0 <= k < i ==> says_skeleton(
                        #[trigger] skeletons@[k],
                        contents,
                        headers.units@[k].offset,
                    ),
            decreases headers.units@.len() - i,
        {
            skeletons.push(
                read_skeleton_of(&data, headers.units[i].offset, self.supplementary.is_some()),
            );
            i = i + 1;
        }
        skeletons
    }
}

/// The identifier of the first unit of some sections, if they hold a unit.
pub open spec fn first_id(contents: ContentsView) -> Result<Option<Option<u64>>, ErrorView> {
    let headers = reading::dwarf_headers(contents, usize::MAX as nat);
    if headers.units.len() == 0 {
        match headers.failure {
            Some(source) => Err(ErrorView::Dwarf { source }),
            None => Ok(None),
        }
    } else {
        match reading::dwarf_unit(contents, usize::MAX as nat, headers.units[0].offset) {
            Err(source) => Err(ErrorView::Dwarf { source }),
            Ok(dwo_id) => Ok(Some(dwo_id)),
        }
    }
}

/// The error of sections that are not those of the split file with an
/// identifier.
pub open spec fn set_error(set: SetView, expected: u64, path: Seq<char>) -> Option<ErrorView> {
    match first_id(source::whole_contents(set, None)) {
        Err(error) => Some(error),
        Ok(first) => units::dwo_error(first, expected, path),
    }
}

/// Whether the sections of a split file may be loaded as `outcome` says.
pub open spec fn may_load_dwo(
    bytes: Seq<u8>,
    path: Seq<char>,
    expected: u64,
    layout: LayoutView,
    outcome: Result<SetView, ErrorView>,
) -> bool {
    match object_file::parse_error(
        object_file::object_header(bytes),
        ElfInputKind::Dwo,
        false,
    ) {
        Some(error) => outcome == Err::<SetView, ErrorView>(error),
        None => exists|loaded: Result<SetView, ErrorView>|
            {
                &&& #[trigger] source::may_load_set(
                    bytes,
                    layout,
                    SetKind::Split,
                    is_little(bytes),
                    loaded,
                )
                &&& outcome == match loaded {
                    Err(error) => Err(error),
                    Ok(set) => match set_error(set, expected, path) {
                        Some(error) => Err(error),
                        None => Ok(set),
                    },
                }
            },
    }
}

fn check_set(set: &SectionSet, expected: u64, path: &str) -> (result: Result<(), Error>)
    ensures
        match set_error(set@, expected, path@) {
            Some(view) => result matches Err(error) && error@ == view,
            None => result == Ok::<(), Error>(()),
        },
{
    let data = open_dwarf(set, None);
    let headers = data.read_headers();
    let first: Option<Option<u64>> = if headers.units.len() == 0 {
        match &headers.failure {
            Some(source) => return Err(dwarf_error(source)),
            None => None,
        }
    } else {
        match data.open_unit(headers.units[0].offset) {
            Ok(unit) => Some(unit.dwo_id()),
            Err(source) => return Err(dwarf_error(&source)),
        }
    };
    check_dwo(first, expected, path)
}

/// Loads the sections of the split file with an identifier.
pub fn parse_dwo(bytes: &[u8], path: &str, expected: u64, layout: &AddressLayout) -> (result: Result<
    SectionSet,
    Error,
>)
    ensures
        may_load_dwo(bytes@, path@, expected, layout@, source::set_outcome(result)),
{
    let file = ObjectFile::parse(bytes, ElfInputKind::Dwo)?;
    let loaded = SectionSet::load(&file, layout, SetKind::Split, file.header().little_endian);
    assert(source::may_load_set(
        bytes@,
        layout@,
        SetKind::Split,
        is_little(bytes@),
        source::set_outcome(loaded),
    ));
    let set: SectionSet = loaded?;
    check_set(&set, expected, path)?;
    Ok(set)
}

} // verus!
