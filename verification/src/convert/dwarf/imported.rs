//! Laws on which functions are imported from DWARF data.
use vstd::prelude::*;

use crate::convert::dwarf::details;
use crate::convert::dwarf::details::Search;
use crate::convert::dwarf::import;
use crate::convert::dwarf::import::{ImportView, Rules, ScopeView};
use crate::convert::dwarf::lines;
use crate::convert::dwarf::model;
use crate::convert::dwarf::model::{ListedRange, Ranges, Unit, Units, DW_TAG_SUBPROGRAM};
use crate::convert::dwarf::references;
use crate::convert::dwarf::units;
use crate::convert::dwarf::units::{DebugInfo, LinesView, SplitData, SplitSources};
use crate::convert::diagnostic::{ConversionWarning, WarningView};
use crate::error::ErrorView;
use crate::model::{AddressRange, FileIndex, FunctionView};

verus! {

/// Whether one of the functions from `from` on has a range and a name.
pub open spec fn has_function(
    functions: Seq<FunctionView>,
    from: int,
    range: AddressRange,
    name: Seq<u8>,
) -> bool {
    exists|k: int|
        from <= k < functions.len() && (#[trigger] functions[k]).range == range && functions[k].name
            == name
}

/// Whether functions were added to others, all that `wanted` tells and no others.
pub open spec fn adds(
    old: Seq<FunctionView>,
    new: Seq<FunctionView>,
    wanted: spec_fn(AddressRange, Seq<u8>) -> bool,
) -> bool {
    &&& old.len() <= new.len()
    &&& forall|k: int| 0 <= k < old.len() ==> #[trigger] new[k] == old[k]
    &&& forall|k: int|
        old.len() <= k < new.len() ==> wanted((#[trigger] new[k]).range, new[k].name)
    &&& forall|range: AddressRange, name: Seq<u8>| #[trigger]
        wanted(range, name) ==> has_function(new, old.len() as int, range, name)
}

proof fn lemma_adds_nothing(
    functions: Seq<FunctionView>,
    wanted: spec_fn(AddressRange, Seq<u8>) -> bool,
)
    requires
        forall|range: AddressRange, name: Seq<u8>| !#[trigger] wanted(range, name),
    ensures
        adds(functions, functions, wanted),
{
}

proof fn lemma_adds_chain(
    a: Seq<FunctionView>,
    b: Seq<FunctionView>,
    c: Seq<FunctionView>,
    first: spec_fn(AddressRange, Seq<u8>) -> bool,
    second: spec_fn(AddressRange, Seq<u8>) -> bool,
    both: spec_fn(AddressRange, Seq<u8>) -> bool,
)
    requires
        adds(a, b, first),
        adds(b, c, second),
        forall|range: AddressRange, name: Seq<u8>| #[trigger]
            both(range, name) <==> (first(range, name) || second(range, name)),
    ensures
        adds(a, c, both),
{
    assert forall|k: int| 0 <= k < a.len() implies #[trigger] c[k] == a[k] by {
        assert(b[k] == a[k]);
        assert(c[k] == b[k]);
    }
    assert forall|k: int| a.len() <= k < c.len() implies both(
        (#[trigger] c[k]).range,
        c[k].name,
    ) by {
        if k < b.len() {
            assert(c[k] == b[k]);
            assert(first(b[k].range, b[k].name));
        } else {
            assert(second(c[k].range, c[k].name));
        }
    }
    assert forall|range: AddressRange, name: Seq<u8>| #[trigger]
        both(range, name) implies has_function(c, a.len() as int, range, name) by {
        if first(range, name) {
            assert(has_function(b, a.len() as int, range, name));
            let k = choose|k: int|
                a.len() <= k < b.len() && (#[trigger] b[k]).range == range && b[k].name == name;
            assert(c[k] == b[k]);
        } else {
            assert(second(range, name));
            assert(has_function(c, b.len() as int, range, name));
            let k = choose|k: int|
                b.len() <= k < c.len() && (#[trigger] c[k]).range == range && c[k].name == name;
            assert(c[k].range == range);
        }
    }
}

/// Whether a listed range holds code: it is not empty, a function can have it, and
/// it lies in one executable range.
pub open spec fn holds_code(executable: Seq<AddressRange>, listed: ListedRange) -> bool {
    &&& listed.begin < listed.end
    &&& listed.end - listed.begin <= u32::MAX
    &&& exists|r: int|
        0 <= r < executable.len() && (#[trigger] executable[r]).start <= listed.begin && listed.end
            <= executable[r].end
}

/// Whether one of the first `count` listed ranges holds code and is the given one.
pub open spec fn is_listed(
    executable: Seq<AddressRange>,
    listed: Seq<ListedRange>,
    count: nat,
    range: AddressRange,
) -> bool {
    exists|r: int|
        0 <= r < count && r < listed.len() && holds_code(executable, #[trigger] listed[r])
            && range.start == listed[r].begin && range.end == listed[r].end
}

/// Whether the entry at `i` of a unit is a subprogram with a name and a range that
/// holds code.
pub open spec fn is_described(
    executable: Seq<AddressRange>,
    all: Units,
    supplementary: Option<Units>,
    unit: Unit,
    i: int,
    range: AddressRange,
    name: Seq<u8>,
) -> bool {
    let entry = unit.entries@[i];
    &&& entry.tag == DW_TAG_SUBPROGRAM
    &&& references::resolved_name(all, supplementary, unit, entry) == Ok::<
        Option<Seq<u8>>,
        ErrorView,
    >(Some(name))
    &&& entry.ranges matches Ranges::Listed { ranges: listed, failure } && is_listed(
        executable,
        listed@,
        listed@.len(),
        range,
    )
}

/// Whether one of the first `count` entries of a unit describes a function.
pub open spec fn unit_describes(
    executable: Seq<AddressRange>,
    all: Units,
    supplementary: Option<Units>,
    unit: Unit,
    count: nat,
    range: AddressRange,
    name: Seq<u8>,
) -> bool {
    exists|i: int|
        0 <= i < count && #[trigger] is_described(
            executable,
            all,
            supplementary,
            unit,
            i,
            range,
            name,
        )
}

proof fn lemma_range_adds(
    rules: Rules,
    scope: ScopeView,
    state: ImportView,
    index: int,
    name: Seq<u8>,
    listed: ListedRange,
)
    requires
        import::with_range(rules, scope, state, index, name, listed).error is None,
    ensures
        ({
            let new = import::with_range(
                rules,
                scope,
                state,
                index,
                name,
                listed,
            ).builder.functions;
            let old = state.builder.functions;
            if holds_code(rules.executable, listed) {
                &&& new.len() == old.len() + 1
                &&& new.drop_last() == old
                &&& new.last().range == (AddressRange { start: listed.begin, end: listed.end })
                &&& new.last().name == name
            } else {
                new == old
            }
        }),
{
    let new = import::with_range(rules, scope, state, index, name, listed).builder.functions;
    let old = state.builder.functions;
    let range = AddressRange { start: listed.begin, end: listed.end };
    if holds_code(rules.executable, listed) {
        let r = choose|r: int|
            0 <= r < rules.executable.len() && (#[trigger] rules.executable[r]).start
                <= listed.begin && listed.end <= rules.executable[r].end;
        assert(rules.executable[r].spec_contains_range(range));
        assert(rules.executable[r].spec_contains(listed.begin));
        assert(new.drop_last() =~= old);
    }
}

proof fn lemma_ranges_add(
    rules: Rules,
    scope: ScopeView,
    state: ImportView,
    index: int,
    name: Seq<u8>,
    listed: Seq<ListedRange>,
    count: nat,
)
    requires
        count <= listed.len(),
        import::with_ranges(rules, scope, state, index, name, listed, count).error is None,
    ensures
        adds(
            state.builder.functions,
            import::with_ranges(
                rules,
                scope,
                state,
                index,
                name,
                listed,
                count,
            ).builder.functions,
            |range: AddressRange, given: Seq<u8>|
                given == name && is_listed(rules.executable, listed, count, range),
        ),
    decreases count,
{
    let wanted = |range: AddressRange, given: Seq<u8>|
        given == name && is_listed(rules.executable, listed, count, range);
    if count == 0 {
        lemma_adds_nothing(state.builder.functions, wanted);
    } else {
        let m = (count - 1) as nat;
        let before = import::with_ranges(rules, scope, state, index, name, listed, m);
        let after = import::with_ranges(rules, scope, state, index, name, listed, count);
        lemma_ranges_add(rules, scope, state, index, name, listed, m);
        lemma_range_adds(rules, scope, before, index, name, listed[m as int]);
        let first = |range: AddressRange, given: Seq<u8>|
            given == name && is_listed(rules.executable, listed, m, range);
        let own = AddressRange { start: listed[m as int].begin, end: listed[m as int].end };
        let second = |range: AddressRange, given: Seq<u8>|
            given == name && holds_code(rules.executable, listed[m as int]) && range == own;
        let (old, new) = (before.builder.functions, after.builder.functions);
        assert(adds(old, new, second)) by {
            if holds_code(rules.executable, listed[m as int]) {
                assert forall|k: int| 0 <= k < old.len() implies #[trigger] new[k] == old[k] by {
                    assert(new.drop_last()[k] == new[k]);
                }
                assert(new[old.len() as int] == new.last());
            }
        }
        assert forall|range: AddressRange, given: Seq<u8>| #[trigger]
            wanted(range, given) <==> (first(range, given) || second(range, given)) by {
            if second(range, given) {
                assert(holds_code(rules.executable, listed[m as int]));
            }
            if first(range, given) {
                let r = choose|r: int|
                    0 <= r < m && r < listed.len() && holds_code(
                        rules.executable,
                        #[trigger] listed[r],
                    ) && range.start == listed[r].begin && range.end == listed[r].end;
                assert(holds_code(rules.executable, listed[r]));
            }
            if wanted(range, given) {
                let r = choose|r: int|
                    0 <= r < count && r < listed.len() && holds_code(
                        rules.executable,
                        #[trigger] listed[r],
                    ) && range.start == listed[r].begin && range.end == listed[r].end;
                if r < m {
                    assert(is_listed(rules.executable, listed, m, range));
                } else {
                    assert(range == own);
                }
            }
        }
        lemma_adds_chain(state.builder.functions, old, new, first, second, wanted);
    }
}

proof fn lemma_entry_adds(rules: Rules, scope: ScopeView, state: ImportView, index: int)
    requires
        import::with_entry(rules, scope, state, index).error is None,
    ensures
        adds(
            state.builder.functions,
            import::with_entry(rules, scope, state, index).builder.functions,
            |range: AddressRange, name: Seq<u8>|
                is_described(
                    rules.executable,
                    scope.units,
                    scope.supplementary,
                    scope.unit,
                    index,
                    range,
                    name,
                ),
        ),
{
    let wanted = |range: AddressRange, name: Seq<u8>|
        is_described(
            rules.executable,
            scope.units,
            scope.supplementary,
            scope.unit,
            index,
            range,
            name,
        );
    let entry = scope.unit.entries@[index];
    let found = references::resolved_name(
        scope.units,
        scope.supplementary,
        scope.unit,
        entry,
    );
    match (found, entry.ranges) {
        (Ok(Some(name)), Ranges::Listed { ranges: listed, failure }) => {
            if entry.tag == DW_TAG_SUBPROGRAM {
                lemma_ranges_add(rules, scope, state, index, name, listed@, listed@.len());
                let inner = |range: AddressRange, given: Seq<u8>|
                    given == name && is_listed(rules.executable, listed@, listed@.len(), range);
                let new = import::with_ranges(
                    rules,
                    scope,
                    state,
                    index,
                    name,
                    listed@,
                    listed@.len(),
                ).builder.functions;
                assert(adds(state.builder.functions, new, inner));
                assert forall|range: AddressRange, given: Seq<u8>|
                    #[trigger] wanted(range, given) <==> inner(range, given) by {}
                let none = |range: AddressRange, given: Seq<u8>| false;
                lemma_adds_nothing(new, none);
                lemma_adds_chain(state.builder.functions, new, new, inner, none, wanted);
            } else {
                lemma_adds_nothing(state.builder.functions, wanted);
            }
        },
        _ => {
            lemma_adds_nothing(state.builder.functions, wanted);
        },
    }
}

proof fn lemma_entries_add(rules: Rules, scope: ScopeView, state: ImportView, count: nat)
    requires
        import::with_entries(rules, scope, state, count).error is None,
    ensures
        adds(
            state.builder.functions,
            import::with_entries(rules, scope, state, count).builder.functions,
            |range: AddressRange, name: Seq<u8>|
                unit_describes(
                    rules.executable,
                    scope.units,
                    scope.supplementary,
                    scope.unit,
                    count,
                    range,
                    name,
                ),
        ),
    decreases count,
{
    let wanted = |range: AddressRange, name: Seq<u8>|
        unit_describes(
            rules.executable,
            scope.units,
            scope.supplementary,
            scope.unit,
            count,
            range,
            name,
        );
    if count == 0 {
        lemma_adds_nothing(state.builder.functions, wanted);
    } else {
        let m = (count - 1) as nat;
        let before = import::with_entries(rules, scope, state, m);
        let after = import::with_entries(rules, scope, state, count);
        lemma_entries_add(rules, scope, state, m);
        lemma_entry_adds(rules, scope, before, m as int);
        let first = |range: AddressRange, name: Seq<u8>|
            unit_describes(
                rules.executable,
                scope.units,
                scope.supplementary,
                scope.unit,
                m,
                range,
                name,
            );
        let second = |range: AddressRange, name: Seq<u8>|
            is_described(
                rules.executable,
                scope.units,
                scope.supplementary,
                scope.unit,
                m as int,
                range,
                name,
            );
        assert forall|range: AddressRange, name: Seq<u8>| #[trigger]
            wanted(range, name) <==> (first(range, name) || second(range, name)) by {
            if wanted(range, name) {
                let i = choose|i: int|
                    0 <= i < count && #[trigger] is_described(
                        rules.executable,
                        scope.units,
                        scope.supplementary,
                        scope.unit,
                        i,
                        range,
                        name,
                    );
                if i < m {
                    assert(first(range, name));
                } else {
                    assert(second(range, name));
                }
            }
            if first(range, name) {
                let i = choose|i: int|
                    0 <= i < m && #[trigger] is_described(
                        rules.executable,
                        scope.units,
                        scope.supplementary,
                        scope.unit,
                        i,
                        range,
                        name,
                    );
                assert(0 <= i < count);
            }
        }
        lemma_adds_chain(
            state.builder.functions,
            before.builder.functions,
            after.builder.functions,
            first,
            second,
            wanted,
        );
    }
}

/// Whether an entry of a unit describes a function.
pub open spec fn describes(
    executable: Seq<AddressRange>,
    all: Units,
    supplementary: Option<Units>,
    unit: Unit,
    range: AddressRange,
    name: Seq<u8>,
) -> bool {
    unit_describes(executable, all, supplementary, unit, unit.entries@.len(), range, name)
}

/// The functions that are imported of a unit are exactly those that its
/// subprograms describe: each with the name of the subprogram and one of its
/// ranges that hold code.
pub proof fn law_subprograms_become_functions(rules: Rules, scope: ScopeView, state: ImportView)
    ensures
        import::with_details(rules, scope, state).error is None ==> adds(
            state.builder.functions,
            import::with_details(rules, scope, state).builder.functions,
            |range: AddressRange, name: Seq<u8>|
                describes(
                    rules.executable,
                    scope.units,
                    scope.supplementary,
                    scope.unit,
                    range,
                    name,
                ),
        ),
{
    reveal(import::with_details);
    if import::with_details(rules, scope, state).error is None {
        let n = scope.unit.entries@.len();
        lemma_entries_add(rules, scope, state, n);
        let inner = |range: AddressRange, name: Seq<u8>|
            unit_describes(
                rules.executable,
                scope.units,
                scope.supplementary,
                scope.unit,
                n,
                range,
                name,
            );
        let wanted = |range: AddressRange, name: Seq<u8>|
            describes(
                rules.executable,
                scope.units,
                scope.supplementary,
                scope.unit,
                range,
                name,
            );
        assert(inner =~= wanted);
    }
}

/// Whether one of the first `count` units of split data describes a function.
pub open spec fn split_describes(
    executable: Seq<AddressRange>,
    split: Units,
    supplementary: Option<Units>,
    count: nat,
    range: AddressRange,
    name: Seq<u8>,
) -> bool {
    exists|u: int|
        0 <= u < count && #[trigger] describes(
            executable,
            split,
            supplementary,
            split.units@[u],
            range,
            name,
        )
}

proof fn lemma_lines_add(unit: Unit, supplementary: bool, state: ImportView)
    ensures
        units::lines_of(unit, supplementary, state).state.builder.functions
            == state.builder.functions,
{
    reveal(units::lines_of);
}

proof fn lemma_split_units_add(
    rules: Rules,
    split: Units,
    supplementary: Option<Units>,
    skeleton: LinesView,
    state: ImportView,
    count: nat,
)
    requires
        units::with_split_units(rules, split, supplementary, skeleton, state, count).error is None,
    ensures
        adds(
            state.builder.functions,
            units::with_split_units(
                rules,
                split,
                supplementary,
                skeleton,
                state,
                count,
            ).builder.functions,
            |range: AddressRange, name: Seq<u8>|
                split_describes(rules.executable, split, supplementary, count, range, name),
        ),
    decreases count,
{
    let wanted = |range: AddressRange, name: Seq<u8>|
        split_describes(rules.executable, split, supplementary, count, range, name);
    if count == 0 {
        lemma_adds_nothing(state.builder.functions, wanted);
    } else {
        let m = (count - 1) as nat;
        let before = units::with_split_units(rules, split, supplementary, skeleton, state, m);
        let after = units::with_split_units(rules, split, supplementary, skeleton, state, count);
        lemma_split_units_add(rules, split, supplementary, skeleton, state, m);
        let unit = split.units@[m as int];
        let lined = units::lines_of(unit, supplementary is Some, before);
        lemma_lines_add(unit, supplementary is Some, before);
        let scope = units::scope_of(
            split,
            supplementary,
            unit,
            units::executable_lines(skeleton, lined.lines),
            units::split_files(skeleton, lined.lines),
        );
        law_subprograms_become_functions(rules, scope, lined.state);
        let first = |range: AddressRange, name: Seq<u8>|
            split_describes(rules.executable, split, supplementary, m, range, name);
        let second = |range: AddressRange, name: Seq<u8>|
            describes(
                rules.executable,
                scope.units,
                scope.supplementary,
                scope.unit,
                range,
                name,
            );
        assert forall|range: AddressRange, name: Seq<u8>| #[trigger]
            wanted(range, name) <==> (first(range, name) || second(range, name)) by {
            if wanted(range, name) {
                let u = choose|u: int|
                    0 <= u < count && #[trigger] describes(
                        rules.executable,
                        split,
                        supplementary,
                        split.units@[u],
                        range,
                        name,
                    );
                if u < m {
                    assert(first(range, name));
                } else {
                    assert(second(range, name));
                }
            }
            if first(range, name) {
                let u = choose|u: int|
                    0 <= u < m && #[trigger] describes(
                        rules.executable,
                        split,
                        supplementary,
                        split.units@[u],
                        range,
                        name,
                    );
                assert(0 <= u < count);
            }
            if second(range, name) {
                assert(describes(
                    rules.executable,
                    split,
                    supplementary,
                    split.units@[m as int],
                    range,
                    name,
                ));
            }
        }
        lemma_adds_chain(
            state.builder.functions,
            before.builder.functions,
            after.builder.functions,
            first,
            second,
            wanted,
        );
    }
}

/// The split data that is read in place of a skeleton unit: that of its own file,
/// or else that of the package.
pub open spec fn split_of(sources: SplitSources) -> Option<Units> {
    match sources.object {
        SplitData::Found(split) => Some(split),
        _ => match sources.package {
            SplitData::Found(split) => Some(split),
            _ => None,
        },
    }
}

/// Whether the unit at `index` describes a function: where it stands for split data
/// that was found, one of the units there, and else the unit itself.
pub open spec fn place_describes(
    executable: Seq<AddressRange>,
    info: DebugInfo,
    index: int,
    range: AddressRange,
    name: Seq<u8>,
) -> bool {
    let unit = info.units.units@[index];
    let split = if unit.dwo_id is Some && index < info.splits@.len() {
        split_of(info.splits@[index])
    } else {
        None
    };
    match split {
        Some(split) => split_describes(
            executable,
            split,
            info.supplementary,
            split.units@.len(),
            range,
            name,
        ),
        None => describes(executable, info.units, info.supplementary, unit, range, name),
    }
}

/// Whether one of the first `count` units of DWARF data describes a function.
pub open spec fn info_describes(
    executable: Seq<AddressRange>,
    info: DebugInfo,
    count: nat,
    range: AddressRange,
    name: Seq<u8>,
) -> bool {
    exists|index: int|
        0 <= index < count && #[trigger] place_describes(executable, info, index, range, name)
}

proof fn lemma_place_adds(rules: Rules, info: DebugInfo, index: int, state: ImportView)
    requires
        0 <= index,
        units::with_unit_at(rules, info, index, state).error is None,
    ensures
        adds(
            state.builder.functions,
            units::with_unit_at(rules, info, index, state).builder.functions,
            |range: AddressRange, name: Seq<u8>|
                place_describes(rules.executable, info, index, range, name),
        ),
{
    let wanted = |range: AddressRange, name: Seq<u8>|
        place_describes(rules.executable, info, index, range, name);
    let unit = info.units.units@[index];
    let lined = units::lines_of(unit, info.supplementary is Some, state);
    lemma_lines_add(unit, info.supplementary is Some, state);
    let sources = units::sources_of(info, index);
    let split = if unit.dwo_id is Some && index < info.splits@.len() {
        split_of(info.splits@[index])
    } else {
        None
    };
    let after = units::with_unit_at(rules, info, index, state);
    match split {
        Some(split) => {
            let n = split.units@.len();
            lemma_split_units_add(rules, split, info.supplementary, lined.lines, lined.state, n);
            let inner = |range: AddressRange, name: Seq<u8>|
                split_describes(rules.executable, split, info.supplementary, n, range, name);
            assert(inner =~= wanted);
        },
        None => {
            let scope = units::scope_of(
                info.units,
                info.supplementary,
                unit,
                lined.lines,
                lined.lines.files,
            );
            let start = match unit.dwo_id {
                Some(dwo_id) => import::warned(
                    lined.state,
                    WarningView::SplitDwarfUnavailable {
                        dwo_id,
                        reasons: units::object_failures(sources.object) + units::package_failures(
                            sources.package,
                        ),
                    },
                ),
                None => lined.state,
            };
            law_subprograms_become_functions(rules, scope, start);
            let inner = |range: AddressRange, name: Seq<u8>|
                describes(
                    rules.executable,
                    scope.units,
                    scope.supplementary,
                    scope.unit,
                    range,
                    name,
                );
            assert(inner =~= wanted);
            assert(after == import::with_details(rules, scope, start));
        },
    }
}

proof fn lemma_units_add(rules: Rules, info: DebugInfo, state: ImportView, count: nat)
    requires
        units::with_units(rules, info, state, count).error is None,
    ensures
        adds(
            state.builder.functions,
            units::with_units(rules, info, state, count).builder.functions,
            |range: AddressRange, name: Seq<u8>|
                info_describes(rules.executable, info, count, range, name),
        ),
    decreases count,
{
    let wanted = |range: AddressRange, name: Seq<u8>|
        info_describes(rules.executable, info, count, range, name);
    if count == 0 {
        lemma_adds_nothing(state.builder.functions, wanted);
    } else {
        let m = (count - 1) as nat;
        let before = units::with_units(rules, info, state, m);
        let after = units::with_units(rules, info, state, count);
        lemma_units_add(rules, info, state, m);
        lemma_place_adds(rules, info, m as int, before);
        let first = |range: AddressRange, name: Seq<u8>|
            info_describes(rules.executable, info, m, range, name);
        let second = |range: AddressRange, name: Seq<u8>|
            place_describes(rules.executable, info, m as int, range, name);
        assert forall|range: AddressRange, name: Seq<u8>| #[trigger]
            wanted(range, name) <==> (first(range, name) || second(range, name)) by {
            if wanted(range, name) {
                let index = choose|index: int|
                    0 <= index < count && #[trigger] place_describes(
                        rules.executable,
                        info,
                        index,
                        range,
                        name,
                    );
                if index < m {
                    assert(first(range, name));
                } else {
                    assert(second(range, name));
                }
            }
            if first(range, name) {
                let index = choose|index: int|
                    0 <= index < m && #[trigger] place_describes(
                        rules.executable,
                        info,
                        index,
                        range,
                        name,
                    );
                assert(0 <= index < count);
            }
        }
        lemma_adds_chain(
            state.builder.functions,
            before.builder.functions,
            after.builder.functions,
            first,
            second,
            wanted,
        );
    }
}

/// Importing DWARF data adds exactly the functions that its units describe, and
/// keeps those that were there. A unit that stands for split data is read from its
/// own file, or else from the package, or else as it is.
pub proof fn law_described_functions_are_imported(
    rules: Rules,
    info: DebugInfo,
    state: ImportView,
)
    ensures
        units::imported(rules, info, state).error is None ==> adds(
            state.builder.functions,
            units::imported(rules, info, state).builder.functions,
            |range: AddressRange, name: Seq<u8>|
                info_describes(
                    rules.executable,
                    info,
                    info.units.units@.len(),
                    range,
                    name,
                ),
        ),
{
    if units::imported(rules, info, state).error is None {
        lemma_units_add(rules, info, state, info.units.units@.len());
    }
}

/// Whether a function tells what is below the subprogram at `index`: its call sites and
/// its inline calls, as far as they are wanted.
pub open spec fn tells_below(
    search: Search,
    index: int,
    warnings: Seq<WarningView>,
    function: FunctionView,
) -> bool {
    if !search.inlines && !search.call_sites {
        function.inline is None && function.call_sites.len() == 0
    } else {
        &&& details::descendants_of(search, index, warnings).result matches Ok(found)
        &&& function.call_sites == found.call_sites
        &&& function.inline is Some <==> found.inlines.len() > 0
        &&& function.inline matches Some(root) ==> {
            &&& root.ranges == seq![function.range]
            &&& root.name == function.name
            &&& root.call_file == FileIndex(0)
            &&& root.call_line == 0
            &&& root.children == found.inlines
        }
    }
}

/// A function that is imported has the rows that the unit gives for its range and
/// sequence; where there are none, at most one at its start. Its call sites are those
/// of the entries below. Its inline tree has the inline trees of those entries below a
/// root that stands for the function, and there is none where there are no such trees.
pub proof fn law_imported_function_tells_its_entry(
    rules: Rules,
    scope: ScopeView,
    state: ImportView,
    index: int,
    name: Seq<u8>,
    range: AddressRange,
)
    ensures
        ({
            let after = import::with_function(rules, scope, state, index, name, range);
            let entry = scope.unit.entries@[index];
            let requested = model::requested_sequence(
                entry.statement_sequence,
                scope.unit.dwarf64,
            );
            let rows = lines::function_rows(scope.rows, scope.sequences, range, requested);
            let search = Search {
                units: scope.units,
                supplementary: scope.supplementary,
                unit: scope.unit,
                range,
                files: scope.files,
                inlines: rules.inlines,
                call_sites: rules.call_sites,
            };
            after.error is None ==> {
                let function = after.builder.functions.last();
                &&& after.builder.functions.drop_last() == state.builder.functions
                &&& function.range == range
                &&& function.name == name
                &&& function.merged.len() == 0
                &&& rows.len() > 0 ==> function.lines == rows
                &&& rows.len() == 0 ==> function.lines.len() <= 1 && (function.lines.len() == 1
                    ==> function.lines[0].address == range.start)
                &&& exists|warnings: Seq<WarningView>| #[trigger]
                    tells_below(search, index, warnings, function)
            }
        }),
{
    let after = import::with_function(rules, scope, state, index, name, range);
    if after.error is None {
        let old = state.builder.functions;
        assert(after.builder.functions.drop_last() =~= old);
        let rowed = import::rows_of(scope, state, index, range);
        let search = Search {
            units: scope.units,
            supplementary: scope.supplementary,
            unit: scope.unit,
            range,
            files: scope.files,
            inlines: rules.inlines,
            call_sites: rules.call_sites,
        };
        assert(tells_below(
            search,
            index,
            rowed.state.warnings,
            after.builder.functions.last(),
        ));
    }
}

/// Where rows are found for a function whose statement sequence does not exist, there is a
/// warning that says so of the entry. No other function with rows brings one.
pub proof fn law_missing_sequences_are_warned_of(
    scope: ScopeView,
    state: ImportView,
    index: int,
    range: AddressRange,
)
    ensures
        ({
            let entry = scope.unit.entries@[index];
            let requested = model::requested_sequence(
                entry.statement_sequence,
                scope.unit.dwarf64,
            );
            let rows = lines::function_rows(scope.rows, scope.sequences, range, requested);
            let rowed = import::rows_of(scope, state, index, range);
            let missing = requested is Some && forall|s: int|
                0 <= s < scope.sequences.len() ==> (
                #[trigger] scope.sequences[s]).statement_sequence != requested;
            rows.len() > 0 && state.error is None && rowed.state.error is None ==> {
                &&& missing ==> scope.unit.offset is Some && rowed.state.warnings
                    == state.warnings.push(
                    WarningView::Plain(
                        ConversionWarning::InvalidStatementSequence {
                            die_offset: (scope.unit.offset->0 + entry.offset) as u64,
                            sequence_offset: requested->0,
                        },
                    ),
                )
                &&& !missing ==> rowed.state.warnings == state.warnings
            }
        }),
{
}

} // verus!
