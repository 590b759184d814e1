//! What every import of DWARF data keeps.
use vstd::prelude::*;
use crate::convert::dwarf::import;
use crate::convert::dwarf::import::{ImportView, Rules, ScopeView};
use crate::convert::dwarf::model::{ListedRange, Ranges, Unit, Units, DW_TAG_SUBPROGRAM};
use crate::convert::dwarf::ranges;
use crate::convert::dwarf::references;
use crate::convert::dwarf::units;
use crate::convert::dwarf::units::{DebugInfo, LinesView, SplitData, SplitSources};
use crate::convert::stats;
use crate::model::{AddressRange, FunctionView};
use crate::validation;

verus! {

/// Whether an import has only added to what there was: functions that lie in
/// executable code and are valid, warnings, and counts.
pub open spec fn grown(executable: Seq<AddressRange>, before: ImportView, after: ImportView) -> bool {
    let old = before.builder.functions;
    let new = after.builder.functions;
    &&& old.len() <= new.len()
    &&& new.subrange(0, old.len() as int) == old
    &&& forall|i: int|
        old.len() <= i < new.len() ==> is_sound_import(executable, #[trigger] new[i])
    &&& after.stats.dwarf_functions == stats::more(
        before.stats.dwarf_functions,
        (new.len() - old.len()) as nat,
    )
    &&& before.stats.symbol_functions == after.stats.symbol_functions
    &&& before.stats.rejected_ranges <= after.stats.rejected_ranges
    &&& after.builder.options == before.builder.options
    &&& after.builder.policy == before.builder.policy
}

/// Whether a function lies in one executable range, is not empty, and is valid.
pub open spec fn is_sound_import(executable: Seq<AddressRange>, function: FunctionView) -> bool {
    &&& ranges::is_live(function.range, executable)
    &&& validation::function_error(function, None, None, 0) is None
}

proof fn lemma_grown_chain(
    executable: Seq<AddressRange>,
    a: ImportView,
    b: ImportView,
    c: ImportView,
)
    requires
        grown(executable, a, b),
        grown(executable, b, c),
    ensures
        grown(executable, a, c),
{
    let first = a.builder.functions;
    let middle = b.builder.functions;
    let last = c.builder.functions;
    assert(last.subrange(0, first.len() as int) =~= first) by {
        assert forall|i: int| 0 <= i < first.len() implies last[i] == first[i] by {
            assert(middle.subrange(0, first.len() as int)[i] == middle[i]);
            assert(last.subrange(0, middle.len() as int)[i] == last[i]);
        }
    }
    assert forall|i: int| first.len() <= i < last.len() implies is_sound_import(
        executable,
        #[trigger] last[i],
    ) by {
        if i < middle.len() {
            assert(last.subrange(0, middle.len() as int)[i] == last[i]);
            assert(is_sound_import(executable, middle[i]));
        }
    }
}

proof fn lemma_same_is_grown(executable: Seq<AddressRange>, before: ImportView, after: ImportView)
    requires
        after.builder.functions == before.builder.functions,
        after.builder.options == before.builder.options,
        after.builder.policy == before.builder.policy,
        after.stats.dwarf_functions == before.stats.dwarf_functions,
        after.stats.symbol_functions == before.stats.symbol_functions,
        before.stats.rejected_ranges <= after.stats.rejected_ranges,
    ensures
        grown(executable, before, after),
{
    let functions = before.builder.functions;
    assert(functions.subrange(0, functions.len() as int) =~= functions);
}

proof fn lemma_range_grows(
    rules: Rules,
    scope: ScopeView,
    state: ImportView,
    index: int,
    name: Seq<u8>,
    listed: ListedRange,
)
    ensures
        grown(
            rules.executable,
            state,
            import::with_range(rules, scope, state, index, name, listed),
        ),
{
    let after = import::with_range(rules, scope, state, index, name, listed);
    let range = AddressRange { start: listed.begin, end: listed.end };
    let old = state.builder.functions;
    let new = after.builder.functions;
    if new == old {
        lemma_same_is_grown(rules.executable, state, after);
    } else {
        assert(ranges::is_live(range, rules.executable));
        assert(new == old.push(new.last()));
        assert(new.subrange(0, old.len() as int) =~= old);
    }
}

proof fn lemma_ranges_grow(
    rules: Rules,
    scope: ScopeView,
    state: ImportView,
    index: int,
    name: Seq<u8>,
    listed: Seq<ListedRange>,
    count: nat,
)
    ensures
        grown(
            rules.executable,
            state,
            import::with_ranges(rules, scope, state, index, name, listed, count),
        ),
    decreases count,
{
    if count == 0 {
        lemma_same_is_grown(rules.executable, state, state);
    } else {
        let before = import::with_ranges(
            rules,
            scope,
            state,
            index,
            name,
            listed,
            (count - 1) as nat,
        );
        lemma_ranges_grow(rules, scope, state, index, name, listed, (count - 1) as nat);
        if before.error is None {
            lemma_range_grows(rules, scope, before, index, name, listed[count - 1]);
            lemma_grown_chain(
                rules.executable,
                state,
                before,
                import::with_range(rules, scope, before, index, name, listed[count - 1]),
            );
        }
    }
}

proof fn lemma_entry_grows(rules: Rules, scope: ScopeView, state: ImportView, index: int)
    ensures
        grown(rules.executable, state, import::with_entry(rules, scope, state, index)),
{
    let entry = scope.unit.entries@[index];
    let after = import::with_entry(rules, scope, state, index);
    if let Ok(Some(name)) = references::resolved_name(
        scope.units,
        scope.supplementary,
        scope.unit,
        entry,
    ) {
        if entry.tag == DW_TAG_SUBPROGRAM {
            if let Ranges::Listed { ranges: listed, failure } = entry.ranges {
                let read = import::with_ranges(
                    rules,
                    scope,
                    state,
                    index,
                    name,
                    listed@,
                    listed@.len(),
                );
                lemma_ranges_grow(rules, scope, state, index, name, listed@, listed@.len());
                lemma_same_is_grown(rules.executable, read, after);
                lemma_grown_chain(rules.executable, state, read, after);
            } else {
                lemma_same_is_grown(rules.executable, state, after);
            }
        } else {
            lemma_same_is_grown(rules.executable, state, after);
        }
    } else {
        lemma_same_is_grown(rules.executable, state, after);
    }
}

proof fn lemma_entries_grow(rules: Rules, scope: ScopeView, state: ImportView, count: nat)
    ensures
        grown(rules.executable, state, import::with_entries(rules, scope, state, count)),
    decreases count,
{
    if count == 0 {
        lemma_same_is_grown(rules.executable, state, state);
    } else {
        let before = import::with_entries(rules, scope, state, (count - 1) as nat);
        lemma_entries_grow(rules, scope, state, (count - 1) as nat);
        if before.error is None {
            lemma_entry_grows(rules, scope, before, count - 1);
            lemma_grown_chain(
                rules.executable,
                state,
                before,
                import::with_entry(rules, scope, before, count - 1),
            );
        }
    }
}

proof fn lemma_details_grow(rules: Rules, scope: ScopeView, state: ImportView)
    ensures
        grown(rules.executable, state, import::with_details(rules, scope, state)),
{
    reveal(import::with_details);
    let read = import::with_entries(rules, scope, state, scope.unit.entries@.len());
    let after = import::with_details(rules, scope, state);
    lemma_entries_grow(rules, scope, state, scope.unit.entries@.len());
    lemma_same_is_grown(rules.executable, read, after);
    lemma_grown_chain(rules.executable, state, read, after);
}

proof fn lemma_lines_grow(
    executable: Seq<AddressRange>,
    unit: Unit,
    supplementary: bool,
    state: ImportView,
)
    ensures
        grown(executable, state, units::lines_of(unit, supplementary, state).state),
{
    reveal(units::lines_of);
    lemma_same_is_grown(executable, state, units::lines_of(unit, supplementary, state).state);
}

proof fn lemma_split_unit_grows(
    rules: Rules,
    all: Units,
    supplementary: Option<Units>,
    unit: Unit,
    skeleton: LinesView,
    state: ImportView,
)
    ensures
        grown(
            rules.executable,
            state,
            units::with_split_unit(rules, all, supplementary, unit, skeleton, state),
        ),
{
    let after = units::with_split_unit(rules, all, supplementary, unit, skeleton, state);
    if unit.failure is Some {
        lemma_same_is_grown(rules.executable, state, after);
    } else {
        let lined = units::lines_of(unit, supplementary is Some, state);
        lemma_lines_grow(rules.executable, unit, supplementary is Some, state);
        if lined.state.error is None {
            let scope = units::scope_of(
                all,
                supplementary,
                unit,
                units::executable_lines(skeleton, lined.lines),
                units::split_files(skeleton, lined.lines),
            );
            lemma_details_grow(rules, scope, lined.state);
            lemma_grown_chain(rules.executable, state, lined.state, after);
        }
    }
}

proof fn lemma_split_units_grow(
    rules: Rules,
    all: Units,
    supplementary: Option<Units>,
    skeleton: LinesView,
    state: ImportView,
    count: nat,
)
    ensures
        grown(
            rules.executable,
            state,
            units::with_split_units(rules, all, supplementary, skeleton, state, count),
        ),
    decreases count,
{
    if count == 0 {
        lemma_same_is_grown(rules.executable, state, state);
    } else {
        let before = units::with_split_units(
            rules,
            all,
            supplementary,
            skeleton,
            state,
            (count - 1) as nat,
        );
        lemma_split_units_grow(rules, all, supplementary, skeleton, state, (count - 1) as nat);
        if before.error is None {
            let unit = all.units@[count - 1];
            lemma_split_unit_grows(rules, all, supplementary, unit, skeleton, before);
            lemma_grown_chain(
                rules.executable,
                state,
                before,
                units::with_split_unit(rules, all, supplementary, unit, skeleton, before),
            );
        }
    }
}

proof fn lemma_split_grows(
    rules: Rules,
    all: Units,
    supplementary: Option<Units>,
    skeleton: LinesView,
    state: ImportView,
)
    ensures
        grown(
            rules.executable,
            state,
            units::with_split(rules, all, supplementary, skeleton, state),
        ),
{
    let read = units::with_split_units(
        rules,
        all,
        supplementary,
        skeleton,
        state,
        all.units@.len(),
    );
    let after = units::with_split(rules, all, supplementary, skeleton, state);
    lemma_split_units_grow(rules, all, supplementary, skeleton, state, all.units@.len());
    lemma_same_is_grown(rules.executable, read, after);
    lemma_grown_chain(rules.executable, state, read, after);
}

proof fn lemma_skeleton_grows(
    rules: Rules,
    all: Units,
    supplementary: Option<Units>,
    unit: Unit,
    dwo_id: u64,
    sources: SplitSources,
    state: ImportView,
)
    ensures
        grown(
            rules.executable,
            state,
            units::with_skeleton(rules, all, supplementary, unit, dwo_id, sources, state),
        ),
{
    let after = units::with_skeleton(rules, all, supplementary, unit, dwo_id, sources, state);
    let lined = units::lines_of(unit, supplementary is Some, state);
    lemma_lines_grow(rules.executable, unit, supplementary is Some, state);
    if lined.state.error is None {
        match (sources.object, sources.package) {
            (SplitData::Found(split), _) => {
                lemma_split_grows(rules, split, supplementary, lined.lines, lined.state);
            },
            (_, SplitData::Found(split)) => {
                lemma_split_grows(rules, split, supplementary, lined.lines, lined.state);
            },
            (object, package) => {
                let warned = import::warned(
                    lined.state,
                    crate::convert::diagnostic::WarningView::SplitDwarfUnavailable {
                        dwo_id,
                        reasons: units::object_failures(object) + units::package_failures(
                            package,
                        ),
                    },
                );
                lemma_same_is_grown(rules.executable, lined.state, warned);
                let scope = units::scope_of(
                    all,
                    supplementary,
                    unit,
                    lined.lines,
                    lined.lines.files,
                );
                lemma_details_grow(rules, scope, warned);
                lemma_grown_chain(rules.executable, lined.state, warned, after);
            },
        }
        lemma_grown_chain(rules.executable, state, lined.state, after);
    }
}

proof fn lemma_unit_grows(rules: Rules, info: DebugInfo, index: int, state: ImportView)
    ensures
        grown(
            rules.executable,
            state,
            units::with_unit_at(rules, info, index, state),
        ),
{
    let unit = info.units.units@[index];
    let after = units::with_unit_at(rules, info, index, state);
    if unit.failure is Some {
        lemma_same_is_grown(rules.executable, state, after);
    } else {
        match unit.dwo_id {
            Some(dwo_id) => {
                lemma_skeleton_grows(
                    rules,
                    info.units,
                    info.supplementary,
                    unit,
                    dwo_id,
                    units::sources_of(info, index),
                    state,
                );
            },
            None => {
                let lined = units::lines_of(unit, info.supplementary is Some, state);
                lemma_lines_grow(rules.executable, unit, info.supplementary is Some, state);
                if lined.state.error is None {
                    let scope = units::scope_of(
                        info.units,
                        info.supplementary,
                        unit,
                        lined.lines,
                        lined.lines.files,
                    );
                    lemma_details_grow(rules, scope, lined.state);
                    lemma_grown_chain(rules.executable, state, lined.state, after);
                }
            },
        }
    }
}

proof fn lemma_units_grow(rules: Rules, info: DebugInfo, state: ImportView, count: nat)
    ensures
        grown(rules.executable, state, units::with_units(rules, info, state, count)),
    decreases count,
{
    if count == 0 {
        lemma_same_is_grown(rules.executable, state, state);
    } else {
        let before = units::with_units(rules, info, state, (count - 1) as nat);
        lemma_units_grow(rules, info, state, (count - 1) as nat);
        if before.error is None {
            lemma_unit_grows(rules, info, count - 1, before);
            lemma_grown_chain(
                rules.executable,
                state,
                before,
                units::with_unit_at(rules, info, count - 1, before),
            );
        }
    }
}

/// Importing DWARF data keeps the functions that were there, and adds only
/// valid functions that lie in one executable range each. Each is counted once,
/// and no setting changes.
pub proof fn law_imported_functions_are_executable(
    rules: Rules,
    info: DebugInfo,
    state: ImportView,
)
    ensures
        grown(rules.executable, state, units::imported(rules, info, state)),
{
    let read = units::with_units(rules, info, state, info.units.units@.len());
    let after = units::imported(rules, info, state);
    lemma_units_grow(rules, info, state, info.units.units@.len());
    lemma_same_is_grown(rules.executable, read, after);
    lemma_grown_chain(rules.executable, state, read, after);
}

} // verus!
