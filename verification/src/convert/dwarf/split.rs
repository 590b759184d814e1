//! Laws on the use of split data.
use vstd::prelude::*;

use crate::convert::dwarf::debug_info;
use crate::convert::dwarf::debug_info::{DwoNameView, DwoPlace, SplitObject};
use crate::convert::dwarf::reading::TextView;
use crate::convert::dwarf::sections;
use crate::convert::dwarf::source;
use crate::convert::dwarf::source::{ContentsView, NamedView, SetView};
use crate::convert::dwarf::units;
use crate::convert::dwarf::units::LinesView;
use crate::error::ErrorView;

verus! {

/// What is known of an individual file after files were tried one after the other.
pub open spec fn after_attempts(found: SplitObject, attempts: Seq<SplitObject>) -> SplitObject
    decreases attempts.len(),
{
    if attempts.len() == 0 {
        found
    } else {
        debug_info::after_attempt(
            after_attempts(found, attempts.drop_last()),
            attempts.last(),
        )
    }
}

/// Whether the attempt at `k` is the first that found a file.
pub open spec fn is_first_found(attempts: Seq<SplitObject>, k: int) -> bool {
    &&& 0 <= k < attempts.len()
    &&& attempts[k] is Found
    &&& forall|i: int| 0 <= i < k ==> !((#[trigger] attempts[i]) is Found)
}

/// Whether the attempt at `k` is the last that failed.
pub open spec fn is_last_failed(attempts: Seq<SplitObject>, k: int) -> bool {
    &&& 0 <= k < attempts.len()
    &&& attempts[k] is Failed
    &&& forall|i: int| k < i < attempts.len() ==> !((#[trigger] attempts[i]) is Failed)
}

/// Of the files that are tried for a unit the first that can be used is used. Where
/// none can be, the last that failed says why, and a file that is not there changes
/// nothing.
pub proof fn law_the_first_usable_file_is_used(found: SplitObject, attempts: Seq<SplitObject>)
    requires
        !(found is Found),
    ensures
        ({
            let known = after_attempts(found, attempts);
            &&& forall|k: int| #[trigger]
                is_first_found(attempts, k) ==> known == attempts[k]
            &&& (forall|i: int| 0 <= i < attempts.len() ==> !((#[trigger] attempts[i]) is Found))
                ==> {
                &&& !(known is Found)
                &&& forall|k: int| #[trigger]
                    is_last_failed(attempts, k) ==> known == attempts[k]
                &&& (forall|i: int|
                    0 <= i < attempts.len() ==> !((#[trigger] attempts[i]) is Failed)) ==> known
                    == found
            }
        }),
    decreases attempts.len(),
{
    if attempts.len() > 0 {
        let before = attempts.drop_last();
        let n = before.len() as int;
        law_the_first_usable_file_is_used(found, before);
        assert forall|i: int| 0 <= i < n implies #[trigger] before[i] == attempts[i] by {}
        let known = after_attempts(found, attempts);
        assert forall|k: int| #[trigger] is_first_found(attempts, k) implies known
            == attempts[k] by {
            if k < n {
                assert forall|i: int| 0 <= i < k implies !((#[trigger] before[i]) is Found) by {
                    assert(before[i] == attempts[i]);
                }
                assert(is_first_found(before, k));
            } else {
                assert forall|i: int| 0 <= i < n implies !((#[trigger] before[i]) is Found) by {
                    assert(before[i] == attempts[i]);
                }
            }
        }
        if forall|i: int| 0 <= i < attempts.len() ==> !((#[trigger] attempts[i]) is Found) {
            assert forall|i: int| 0 <= i < n implies !((#[trigger] before[i]) is Found) by {
                assert(before[i] == attempts[i]);
            }
            assert(!(attempts[n] is Found));
            assert forall|k: int| #[trigger] is_last_failed(attempts, k) implies known
                == attempts[k] by {
                if k < n {
                    assert(!(attempts[n] is Failed));
                    assert forall|i: int| k < i < n implies !((#[trigger] before[i]) is Failed) by {
                        assert(before[i] == attempts[i]);
                    }
                    assert(is_last_failed(before, k));
                }
            }
            if forall|i: int| 0 <= i < attempts.len() ==> !((#[trigger] attempts[i]) is Failed) {
                assert(!(attempts[n] is Failed));
                assert forall|i: int| 0 <= i < n implies !((#[trigger] before[i]) is Failed) by {
                    assert(before[i] == attempts[i]);
                }
            }
        }
    }
}

/// Split data is looked for only for a skeleton unit, and in the package only where
/// its own file was not found.
pub proof fn law_packages_are_searched_last(
    dwo_id: Option<u64>,
    object: SplitObject,
    package: Option<SetView>,
    parent: ContentsView,
)
    ensures
        ({
            let (own, packaged) = debug_info::split_outcomes(dwo_id, object, package, parent);
            &&& own is Found <==> dwo_id is Some && object is Found
            &&& own is Failed <==> dwo_id is Some && object is Failed
            &&& !(packaged is NotSearched) <==> dwo_id is Some && package is Some && !(
            object is Found)
        }),
{
}

/// Whether a unit has lines.
pub open spec fn has_lines(lines: LinesView) -> bool {
    lines.rows.len() > 0 || lines.sequences.len() > 0
}

/// Whether a unit has files.
pub open spec fn has_files(lines: LinesView) -> bool {
    exists|index: u64| lines.files.dom().contains(index)
}

/// The functions of a split unit have the lines of the skeleton unit if it has any. An
/// index of a file is one into the table of the split unit if it has one, and else
/// into the table that comes with the lines.
pub proof fn law_split_units_have_the_lines_of_their_skeleton(skeleton: LinesView, own: LinesView)
    requires
        own.files.dom().finite(),
    ensures
        ({
            let used = units::executable_lines(skeleton, own);
            let files = units::split_files(skeleton, own);
            &&& has_lines(skeleton) ==> used == skeleton
            &&& !has_lines(skeleton) ==> used == own
            &&& has_files(own) ==> files == own.files
            &&& !has_files(own) && has_lines(skeleton) ==> files == skeleton.files
        }),
{
    let indices = own.files.dom();
    if !has_files(own) {
        assert(indices =~= Set::empty());
    } else if indices.len() == 0 {
        indices.lemma_len0_is_empty();
        assert(false);
    }
}

/// A split file is looked for below the directory of the debug file first and then in
/// its own, unless it has none or that one is absolute.
pub proof fn law_split_files_are_looked_for_in_turn(has_directory: bool, relative: bool)
    ensures
        ({
            let places = debug_info::dwo_places(has_directory, relative);
            &&& places.len() > 0
            &&& places.contains(DwoPlace::Base) <==> !has_directory
            &&& places.contains(DwoPlace::Directory) <==> has_directory
            &&& places.contains(DwoPlace::BelowBase) <==> has_directory && relative
            &&& places.contains(DwoPlace::BelowBase) ==> places[0] == DwoPlace::BelowBase
        }),
{
    let places = debug_info::dwo_places(has_directory, relative);
    if !has_directory {
        assert(places[0] == DwoPlace::Base);
    } else {
        assert(places[places.len() - 1] == DwoPlace::Directory);
        if relative {
            assert(places[0] == DwoPlace::BelowBase);
        }
    }
}

/// A split file is used only if its first unit has the identifier of the skeleton unit.
pub proof fn law_split_files_have_the_identifier(
    first: Option<Option<u64>>,
    expected: u64,
    path: Seq<char>,
)
    ensures
        units::dwo_error(first, expected, path) is None <==> first == Some(Some(expected)),
{
}

/// The sections of a split file are its own, but for its addresses and old range lists:
/// those, and what is in the supplementary object, are those of the skeleton unit.
pub proof fn law_split_files_have_the_addresses_of_their_skeleton(
    set: SetView,
    parent: ContentsView,
    name: Seq<char>,
)
    ensures
        ({
            let contents = source::split_contents(set, parent);
            &&& name == ".debug_addr"@ || name == ".debug_ranges"@ ==> contents.sections[name]
                == parent.sections[name]
            &&& name != ".debug_addr"@ && name != ".debug_ranges"@ ==> contents.sections[name]
                == source::opened(set, set.little_endian)[name]
            &&& contents.supplementary == parent.supplementary
            &&& contents.split
        }),
{
}

/// A skeleton unit names a split file unless the name is empty, or stands in a
/// supplementary object that is not there.
pub proof fn law_skeletons_name_their_files(
    name: Result<Option<TextView>, Seq<char>>,
    directory: Option<Seq<u8>>,
    supplementary: bool,
)
    ensures
        ({
            let file = debug_info::named_file(name, directory, supplementary);
            &&& file matches Ok(Some(file)) ==> {
                &&& name matches Ok(Some(text))
                &&& text.value == Ok::<Seq<u8>, Seq<char>>(file.name)
                &&& text.supplementary ==> supplementary
                &&& file.name.len() > 0
                &&& file.directory == directory
            }
            &&& file == Ok::<Option<DwoNameView>, ErrorView>(None) ==> {
                ||| name == Ok::<Option<TextView>, Seq<char>>(None)
                ||| name matches Ok(Some(text)) && (text.supplementary && !supplementary
                    || text.value == Ok::<Seq<u8>, Seq<char>>(Seq::empty()))
            }
        }),
{
    if let Ok(Some(text)) = name {
        if let Ok(bytes) = text.value {
            if bytes.len() == 0 {
                assert(bytes =~= Seq::empty());
            }
        }
    }
}

proof fn lemma_section_from(sections: Seq<NamedView>, name: Seq<char>, from: int)
    requires
        0 <= from,
    ensures
        forall|i: int|
            from <= i < sections.len() && (#[trigger] sections[i]).name == name && (forall|j: int|
                from <= j < i ==> (#[trigger] sections[j]).name != name) ==> source::section_from(
                sections,
                name,
                from,
            ) == sections[i].section,
        (forall|i: int| from <= i < sections.len() ==> (#[trigger] sections[i]).name != name)
            ==> source::section_from(sections, name, from) == sections::no_section(),
    decreases sections.len() - from,
{
    if from < sections.len() {
        lemma_section_from(sections, name, from + 1);
        assert forall|i: int|
            from <= i < sections.len() && (#[trigger] sections[i]).name == name && (forall|j: int|
                from <= j < i ==> (#[trigger] sections[j]).name
                    != name) implies source::section_from(sections, name, from)
            == sections[i].section by {
            if i > from {
                assert(sections[from].name != name);
            }
        }
    }
}

/// A section is the first that has its name, read in the byte order of the set. It is
/// empty where there is none.
pub proof fn law_sections_are_found_by_name(set: SetView, little_endian: bool, name: Seq<char>)
    ensures
        ({
            let found = source::opened(set, little_endian)[name];
            &&& found.little_endian == little_endian
            &&& forall|i: int|
                0 <= i < set.sections.len() && (#[trigger] set.sections[i]).name == name && (
                forall|j: int| 0 <= j < i ==> (#[trigger] set.sections[j]).name != name)
                    ==> found.section == set.sections[i].section
            &&& (forall|i: int|
                0 <= i < set.sections.len() ==> (#[trigger] set.sections[i]).name != name)
                ==> found.section == sections::no_section()
        }),
{
    lemma_section_from(set.sections, name, 0);
}

} // verus!
