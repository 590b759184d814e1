//! Laws on what an import counts.
use vstd::prelude::*;

use crate::convert::diagnostic::{ConversionWarning, WarningView};
use crate::convert::dwarf::details::Search;
use crate::convert::dwarf::import;
use crate::convert::dwarf::import::{ImportView, Rules, ScopeView};
use crate::convert::dwarf::imported;
use crate::convert::dwarf::model::{ListedRange, Ranges, Unit, Units};
use crate::convert::dwarf::nesting;
use crate::convert::dwarf::ranges;
use crate::convert::dwarf::references;
use crate::convert::dwarf::units;
use crate::convert::dwarf::units::{DebugInfo, LinesView};
use crate::model::{AddressRange, FunctionView, InlineView};

verus! {

/// Number of line rows of functions.
pub open spec fn rows_in(functions: Seq<FunctionView>) -> nat
    decreases functions.len(),
{
    if functions.len() == 0 {
        0
    } else {
        rows_in(functions.drop_last()) + functions.last().lines.len()
    }
}

/// Number of inline calls below the root of an inline tree.
pub open spec fn calls_below(inline: Option<InlineView>) -> nat {
    match inline {
        Some(root) => nesting::outline(root.children, root.children.len(), 0).len(),
        None => 0,
    }
}

/// Number of inline calls of functions.
pub open spec fn calls_in(functions: Seq<FunctionView>) -> nat
    decreases functions.len(),
{
    if functions.len() == 0 {
        0
    } else {
        calls_in(functions.drop_last()) + calls_below(functions.last().inline)
    }
}

/// Whether an import counted the line rows and the inline calls of the functions that
/// it added, and some units with split data.
pub open spec fn counted(before: ImportView, after: ImportView, splits: nat) -> bool {
    let old = before.builder.functions;
    let new = after.builder.functions;
    after.error is None ==> {
        &&& rows_in(old) <= rows_in(new)
        &&& after.stats.line_rows == nesting::capped(
            (before.stats.line_rows + rows_in(new) - rows_in(old)) as nat,
        )
        &&& calls_in(old) <= calls_in(new)
        &&& after.stats.inline_nodes == nesting::capped(
            (before.stats.inline_nodes + calls_in(new) - calls_in(old)) as nat,
        )
        &&& after.stats.split_dwarf_units == nesting::capped(
            before.stats.split_dwarf_units as nat + splits,
        )
    }
}

proof fn lemma_function_counted(
    rules: Rules,
    scope: ScopeView,
    state: ImportView,
    index: int,
    name: Seq<u8>,
    range: AddressRange,
)
    ensures
        counted(state, import::with_function(rules, scope, state, index, name, range), 0),
{
    let after = import::with_function(rules, scope, state, index, name, range);
    if after.error is None {
        let rowed = import::rows_of(scope, state, index, range);
        let search = Search {
            units: scope.units,
            supplementary: scope.supplementary,
            unit: scope.unit,
            range,
            files: scope.files,
            inlines: rules.inlines,
            call_sites: rules.call_sites,
        };
        nesting::law_inline_calls_are_counted(search, index, rowed.state.warnings);
        let none = Seq::<InlineView>::empty();
        assert(nesting::outline(none, 0, 0) =~= Seq::empty());
        let new = after.builder.functions;
        assert(new.drop_last() =~= state.builder.functions);
        let trees = crate::convert::dwarf::details::descendants_of(
            search,
            index,
            rowed.state.warnings,
        ).result;
        if let Ok(found) = trees {
            if found.inlines.len() == 0 {
                assert(found.inlines =~= none);
            }
        }
    }
}

proof fn lemma_ranges_counted(
    rules: Rules,
    scope: ScopeView,
    state: ImportView,
    index: int,
    name: Seq<u8>,
    listed: Seq<ListedRange>,
    count: nat,
)
    ensures
        counted(
            state,
            import::with_ranges(rules, scope, state, index, name, listed, count),
            0,
        ),
    decreases count,
{
    if count > 0 {
        let m = (count - 1) as nat;
        let before = import::with_ranges(rules, scope, state, index, name, listed, m);
        lemma_ranges_counted(rules, scope, state, index, name, listed, m);
        let range = AddressRange { start: listed[m as int].begin, end: listed[m as int].end };
        lemma_function_counted(rules, scope, before, index, name, range);
    }
}

proof fn lemma_entries_counted(rules: Rules, scope: ScopeView, state: ImportView, count: nat)
    ensures
        counted(state, import::with_entries(rules, scope, state, count), 0),
    decreases count,
{
    if count > 0 {
        let m = (count - 1) as nat;
        let before = import::with_entries(rules, scope, state, m);
        lemma_entries_counted(rules, scope, state, m);
        let entry = scope.unit.entries@[m as int];
        if let Ok(Some(name)) = references::resolved_name(
            scope.units,
            scope.supplementary,
            scope.unit,
            entry,
        ) {
            if let Ranges::Listed { ranges: listed, failure } = entry.ranges {
                lemma_ranges_counted(
                    rules,
                    scope,
                    before,
                    m as int,
                    name,
                    listed@,
                    listed@.len(),
                );
            }
        }
    }
}

proof fn lemma_details_counted(rules: Rules, scope: ScopeView, state: ImportView)
    ensures
        counted(state, import::with_details(rules, scope, state), 0),
{
    reveal(import::with_details);
    lemma_entries_counted(rules, scope, state, scope.unit.entries@.len());
}

proof fn lemma_lines_counted(unit: Unit, supplementary: bool, state: ImportView)
    ensures
        counted(state, units::lines_of(unit, supplementary, state).state, 0),
{
    reveal(units::lines_of);
}

proof fn lemma_split_units_counted(
    rules: Rules,
    all: Units,
    supplementary: Option<Units>,
    skeleton: LinesView,
    state: ImportView,
    count: nat,
)
    ensures
        counted(
            state,
            units::with_split_units(rules, all, supplementary, skeleton, state, count),
            0,
        ),
    decreases count,
{
    if count > 0 {
        let m = (count - 1) as nat;
        let before = units::with_split_units(rules, all, supplementary, skeleton, state, m);
        lemma_split_units_counted(rules, all, supplementary, skeleton, state, m);
        let unit = all.units@[m as int];
        let lined = units::lines_of(unit, supplementary is Some, before);
        lemma_lines_counted(unit, supplementary is Some, before);
        let scope = units::scope_of(
            all,
            supplementary,
            unit,
            units::executable_lines(skeleton, lined.lines),
            units::split_files(skeleton, lined.lines),
        );
        lemma_details_counted(rules, scope, lined.state);
    }
}

/// Whether split data is read in place of the unit at `index`.
pub open spec fn is_split(info: DebugInfo, index: int) -> bool {
    &&& info.units.units@[index].dwo_id is Some
    &&& 0 <= index < info.splits@.len()
    &&& imported::split_of(info.splits@[index]) is Some
}

/// Number of the first `count` units in whose place split data is read.
pub open spec fn splits_in(info: DebugInfo, count: nat) -> nat
    decreases count,
{
    if count == 0 {
        0
    } else {
        splits_in(info, (count - 1) as nat) + if is_split(info, count - 1) {
            1nat
        } else {
            0nat
        }
    }
}

proof fn lemma_unit_counted(rules: Rules, info: DebugInfo, index: int, state: ImportView)
    requires
        0 <= index,
    ensures
        counted(
            state,
            units::with_unit_at(rules, info, index, state),
            if is_split(info, index) {
                1
            } else {
                0
            },
        ),
{
    let unit = info.units.units@[index];
    let lined = units::lines_of(unit, info.supplementary is Some, state);
    lemma_lines_counted(unit, info.supplementary is Some, state);
    let sources = units::sources_of(info, index);
    if is_split(info, index) {
        let split = imported::split_of(info.splits@[index])->0;
        lemma_split_units_counted(
            rules,
            split,
            info.supplementary,
            lined.lines,
            lined.state,
            split.units@.len(),
        );
    } else {
        let scope = units::scope_of(
            info.units,
            info.supplementary,
            unit,
            lined.lines,
            lined.lines.files,
        );
        let start = match unit.dwo_id {
            Some(dwo_id) => import::warned(
                lined.state,
                WarningView::SplitDwarfUnavailable {
                    dwo_id,
                    reasons: units::object_failures(sources.object) + units::package_failures(
                        sources.package,
                    ),
                },
            ),
            None => lined.state,
        };
        lemma_details_counted(rules, scope, start);
    }
}

proof fn lemma_units_counted(rules: Rules, info: DebugInfo, state: ImportView, count: nat)
    ensures
        counted(
            state,
            units::with_units(rules, info, state, count),
            splits_in(info, count),
        ),
    decreases count,
{
    if count > 0 {
        let m = (count - 1) as nat;
        lemma_units_counted(rules, info, state, m);
        lemma_unit_counted(rules, info, m as int, units::with_units(rules, info, state, m));
    }
}

/// An import counts the line rows and the inline calls of the functions that it adds,
/// and the units in whose place split data is read. Where inline calls are wanted and
/// there are none, the last warning says so.
pub proof fn law_imports_are_counted(rules: Rules, info: DebugInfo, state: ImportView)
    ensures
        ({
            let after = units::imported(rules, info, state);
            let read = units::with_units(rules, info, state, info.units.units@.len());
            &&& counted(state, after, splits_in(info, info.units.units@.len()))
            &&& after.error is None ==> {
                if rules.inlines && after.stats.inline_nodes == 0 {
                    after.warnings == read.warnings.push(
                        WarningView::Plain(ConversionWarning::NoInlineRecords),
                    )
                } else {
                    after.warnings == read.warnings
                }
            }
        }),
{
    lemma_units_counted(rules, info, state, info.units.units@.len());
}

/// Whether a range lies in one of the executable ranges, holds an address, and is no
/// longer than a function can be.
pub open spec fn is_code(range: AddressRange, executable: Seq<AddressRange>) -> bool {
    &&& 0 < range.end - range.start <= u32::MAX
    &&& exists|r: int|
        0 <= r < executable.len() && (#[trigger] executable[r]).start <= range.start && range.end
            <= executable[r].end
}

/// Whether one of the executable ranges holds an address.
pub open spec fn is_in_code(address: u64, executable: Seq<AddressRange>) -> bool {
    exists|r: int|
        0 <= r < executable.len() && (#[trigger] executable[r]).start <= address
            < executable[r].end
}

/// A range of a subprogram that is no code is rejected and counted. It is warned of
/// unless the linker left it behind: it starts at zero or at a tombstone, and no code
/// is there. No other range is counted as rejected.
pub proof fn law_rejected_ranges_are_counted(
    rules: Rules,
    scope: ScopeView,
    state: ImportView,
    index: int,
    name: Seq<u8>,
    listed: ListedRange,
)
    ensures
        ({
            let after = import::with_range(rules, scope, state, index, name, listed);
            let range = AddressRange { start: listed.begin, end: listed.end };
            let left_behind = (listed.begin == 0 || listed.tombstone) && !is_in_code(
                listed.begin,
                rules.executable,
            );
            let old = state.stats.rejected_ranges;
            &&& !is_code(range, rules.executable) ==> {
                &&& after.builder == state.builder
                &&& after.stats.rejected_ranges == nesting::capped(old as nat + 1)
                &&& left_behind ==> after.warnings == state.warnings
                &&& !left_behind ==> after.warnings == state.warnings.push(
                    WarningView::Plain(ConversionWarning::RejectedRange { range }),
                )
            }
            &&& is_code(range, rules.executable) ==> {
                &&& after.stats.rejected_ranges == old
                &&& after.error is None ==> after.builder.functions.len()
                    == state.builder.functions.len() + 1
            }
        }),
{
    let range = AddressRange { start: listed.begin, end: listed.end };
    let executable = rules.executable;
    if is_code(range, executable) {
        let r = choose|r: int|
            0 <= r < executable.len() && (#[trigger] executable[r]).start <= range.start
                && range.end <= executable[r].end;
        assert(executable[r].start <= listed.begin < executable[r].end);
    }
    assert(ranges::is_held(executable, listed.begin) <==> is_in_code(listed.begin, executable));
    assert(ranges::is_live(range, executable) <==> is_code(range, executable));
}

} // verus!
