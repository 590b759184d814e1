//! Import of units.
use std::collections::HashMap;

use vstd::prelude::*;
use vstd::std_specs::hash::*;
use vstd::string::*;

use crate::builder::{BuilderView, GsymBuilder};
use crate::convert::diagnostic;
use crate::convert::diagnostic::{ConversionWarning, WarningView};
use crate::convert::dwarf::collect::push_warning;
use crate::convert::dwarf::details;
use crate::convert::dwarf::details::{extract_subprogram_details, DetailOptions, Search};
use crate::convert::dwarf::lines;
use crate::convert::dwarf::lines::{LineSequenceRange, SequencedLine, UnitLines};
use crate::convert::dwarf::model;
use crate::convert::dwarf::model::{
    absolute_entry_offset, dwarf_error, statement_sequence_offset, Entry, ListedRange, Ranges, Unit,
    Units, DW_TAG_SUBPROGRAM,
};
use crate::convert::dwarf::ranges;
use crate::convert::dwarf::ranges::{holds_address, is_live_range};
use crate::convert::dwarf::references;
use crate::convert::dwarf::references::{resolve_declaration_line, resolve_name, DebugSource};
use crate::convert::stats;
use crate::convert::stats::ConversionStats;
use crate::error::{Error, ErrorView};
use crate::model::{
    copy_bytes, lemma_function_view, AddressRange, FileIndex, Function, FunctionView, LineEntry,
};
use crate::validation;

verus! {

broadcast use vstd::std_specs::hash::group_hash_axioms;

/// What an import has come to.
pub struct ImportView {
    /// The builder.
    pub builder: BuilderView,
    /// The counts.
    pub stats: ConversionStats,
    /// The warnings.
    pub warnings: Seq<WarningView>,
    /// The error that ended the import.
    pub error: Option<ErrorView>,
}

/// What is imported.
pub struct Rules {
    /// Executable address ranges.
    pub executable: Seq<AddressRange>,
    /// Whether inline calls are imported.
    pub inlines: bool,
    /// Whether call sites are imported.
    pub call_sites: bool,
}

/// A unit with the lines and files that its functions use.
pub struct ScopeView {
    /// Units of the object.
    pub units: Units,
    /// Units of the supplementary object.
    pub supplementary: Option<Units>,
    /// The unit.
    pub unit: Unit,
    /// Line rows.
    pub rows: Seq<SequencedLine>,
    /// What the line sequences cover.
    pub sequences: Seq<LineSequenceRange>,
    /// Files by the index that the unit gives them.
    pub files: Map<u64, FileIndex>,
}

/// An import with a warning.
pub open spec fn warned(state: ImportView, warning: WarningView) -> ImportView {
    ImportView { warnings: state.warnings.push(warning), ..state }
}

/// An import that an error ended.
pub open spec fn failed(state: ImportView, error: ErrorView) -> ImportView {
    ImportView { error: Some(error), ..state }
}

/// An import with a rejected range.
pub open spec fn rejected(state: ImportView) -> ImportView {
    ImportView {
        stats: ConversionStats {
            rejected_ranges: stats::more(state.stats.rejected_ranges, 1),
            ..state.stats
        },
        ..state
    }
}

/// Whether a range marks code that the linker removed.
pub open spec fn is_dead(listed: ListedRange, executable: Seq<AddressRange>) -> bool {
    (listed.begin == 0 || listed.tombstone) && !ranges::is_held(executable, listed.begin)
}

/// The rows of a function, and the import by then.
pub struct Rowed {
    /// The rows.
    pub rows: Seq<LineEntry>,
    /// The import.
    pub state: ImportView,
}

/// The rows of the subprogram at `index` in a range: those of the line
/// sequences, or else the line of its declaration.
pub open spec fn rows_of(scope: ScopeView, state: ImportView, index: int, range: AddressRange) -> Rowed {
    let entry = scope.unit.entries@[index];
    let requested = model::requested_sequence(entry.statement_sequence, scope.unit.dwarf64);
    let rows = lines::function_rows(scope.rows, scope.sequences, range, requested);
    let invalid = lines::is_invalid_request(scope.sequences, requested, rows);
    if rows.len() > 0 {
        if !invalid {
            Rowed { rows, state }
        } else {
            match model::absolute_offset(scope.unit, entry.offset) {
                Err(error) => Rowed { rows, state: failed(state, error) },
                Ok(offset) => Rowed {
                    rows,
                    state: warned(
                        state,
                        WarningView::Plain(
                            ConversionWarning::InvalidStatementSequence {
                                die_offset: offset as u64,
                                sequence_offset: requested->0,
                            },
                        ),
                    ),
                },
            }
        }
    } else {
        let search = references::declaration_of(
            scope.units,
            scope.supplementary,
            scope.unit,
            entry,
            scope.files,
            DebugSource::Main,
            0,
            references::searching(
                references::nothing_visited(),
                state.builder.files,
                state.warnings,
            ),
        );
        let looked = ImportView {
            builder: BuilderView { files: search.table, ..state.builder },
            warnings: search.warnings,
            ..state
        };
        match search.line {
            Err(error) => Rowed { rows, state: failed(looked, error) },
            Ok(None) => Rowed { rows, state: looked },
            Ok(Some(line)) => Rowed {
                rows: seq![LineEntry { address: range.start, ..line }],
                state: looked,
            },
        }
    }
}

/// An import with the subprogram at `index` in a range as a function.
pub open spec fn with_function(
    rules: Rules,
    scope: ScopeView,
    state: ImportView,
    index: int,
    name: Seq<u8>,
    range: AddressRange,
) -> ImportView {
    let rowed = rows_of(scope, state, index, range);
    if rowed.state.error is Some {
        rowed.state
    } else {
        let lined = ImportView {
            stats: ConversionStats {
                line_rows: stats::more(rowed.state.stats.line_rows, rowed.rows.len()),
                ..rowed.state.stats
            },
            ..rowed.state
        };
        let found = details::extracted(
            Search {
                units: scope.units,
                supplementary: scope.supplementary,
                unit: scope.unit,
                range,
                files: scope.files,
                inlines: rules.inlines,
                call_sites: rules.call_sites,
            },
            index,
            name,
            lined.warnings,
        );
        let looked = ImportView { warnings: found.warnings, ..lined };
        match found.result {
            Err(error) => failed(looked, error),
            Ok(below) => {
                let counted = ImportView {
                    stats: ConversionStats {
                        inline_nodes: stats::more(looked.stats.inline_nodes, below.count as nat),
                        ..looked.stats
                    },
                    ..looked
                };
                let function = FunctionView {
                    range,
                    name,
                    lines: rowed.rows,
                    inline: below.inline,
                    merged: Seq::empty(),
                    call_sites: below.call_sites,
                };
                match validation::function_error(function, None, None, 0) {
                    Some(error) => failed(counted, error@),
                    None => ImportView {
                        builder: BuilderView {
                            functions: counted.builder.functions.push(function),
                            ..counted.builder
                        },
                        stats: ConversionStats {
                            dwarf_functions: stats::more(counted.stats.dwarf_functions, 1),
                            ..counted.stats
                        },
                        ..counted
                    },
                }
            },
        }
    }
}

/// An import with a range of the subprogram at `index`.
pub open spec fn with_range(
    rules: Rules,
    scope: ScopeView,
    state: ImportView,
    index: int,
    name: Seq<u8>,
    listed: ListedRange,
) -> ImportView {
    let range = AddressRange { start: listed.begin, end: listed.end };
    if is_dead(listed, rules.executable) {
        rejected(state)
    } else if !ranges::is_live(range, rules.executable) {
        warned(
            rejected(state),
            WarningView::Plain(ConversionWarning::RejectedRange { range }),
        )
    } else {
        with_function(rules, scope, state, index, name, range)
    }
}

/// An import with the first `count` ranges of the subprogram at `index`.
pub open spec fn with_ranges(
    rules: Rules,
    scope: ScopeView,
    state: ImportView,
    index: int,
    name: Seq<u8>,
    listed: Seq<ListedRange>,
    count: nat,
) -> ImportView
    decreases count,
{
    if count == 0 {
        state
    } else {
        let before = with_ranges(rules, scope, state, index, name, listed, (count - 1) as nat);
        if before.error is Some {
            before
        } else {
            with_range(rules, scope, before, index, name, listed[count - 1])
        }
    }
}

/// An import with the entry at `index`.
pub open spec fn with_entry(
    rules: Rules,
    scope: ScopeView,
    state: ImportView,
    index: int,
) -> ImportView {
    let entry = scope.unit.entries@[index];
    if entry.tag != DW_TAG_SUBPROGRAM {
        state
    } else {
        match references::resolved_name(scope.units, scope.supplementary, scope.unit, entry) {
            Err(error) => failed(state, error),
            Ok(None) => state,
            Ok(Some(name)) => match entry.ranges {
                Ranges::Failed(source) => warned(
                    rejected(state),
                    WarningView::MalformedRanges { stopped: false, reason: source@ },
                ),
                Ranges::Listed { ranges: listed, failure } => {
                    let read = with_ranges(
                        rules,
                        scope,
                        state,
                        index,
                        name,
                        listed@,
                        listed@.len(),
                    );
                    match failure {
                        Some(source) if read.error is None => warned(
                            rejected(read),
                            WarningView::MalformedRanges { stopped: true, reason: source@ },
                        ),
                        _ => read,
                    }
                },
            },
        }
    }
}

/// An import with the first `count` entries of a unit.
pub open spec fn with_entries(
    rules: Rules,
    scope: ScopeView,
    state: ImportView,
    count: nat,
) -> ImportView
    decreases count,
{
    if count == 0 {
        state
    } else {
        let before = with_entries(rules, scope, state, (count - 1) as nat);
        if before.error is Some {
            before
        } else {
            with_entry(rules, scope, before, count - 1)
        }
    }
}

/// An import with the functions of a unit.
#[verifier::opaque]
pub open spec fn with_details(rules: Rules, scope: ScopeView, state: ImportView) -> ImportView {
    let read = with_entries(rules, scope, state, scope.unit.entries@.len());
    match scope.unit.entries_failure {
        Some(source) if read.error is None => failed(read, model::rejected(source)),
        _ => read,
    }
}

proof fn lemma_ranges_stop(
    rules: Rules,
    scope: ScopeView,
    state: ImportView,
    index: int,
    name: Seq<u8>,
    listed: Seq<ListedRange>,
    count: nat,
    whole: nat,
)
    requires
        count <= whole,
        with_ranges(rules, scope, state, index, name, listed, count).error is Some,
    ensures
        with_ranges(rules, scope, state, index, name, listed, whole) == with_ranges(
            rules,
            scope,
            state,
            index,
            name,
            listed,
            count,
        ),
    decreases whole,
{
    if count < whole {
        lemma_ranges_stop(
            rules,
            scope,
            state,
            index,
            name,
            listed,
            count,
            (whole - 1) as nat,
        );
    }
}

proof fn lemma_entries_stop(
    rules: Rules,
    scope: ScopeView,
    state: ImportView,
    count: nat,
    whole: nat,
)
    requires
        count <= whole,
        with_entries(rules, scope, state, count).error is Some,
    ensures
        with_entries(rules, scope, state, whole) == with_entries(rules, scope, state, count),
    decreases whole,
{
    if count < whole {
        lemma_entries_stop(rules, scope, state, count, (whole - 1) as nat);
    }
}

/// What an import fills, and what it imports.
pub struct ImportContext {
    /// Executable address ranges.
    pub executable_ranges: Vec<AddressRange>,
    /// Whether inline calls are imported.
    pub include_inlines: bool,
    /// Whether call sites are imported.
    pub include_call_sites: bool,
    /// The builder.
    pub builder: GsymBuilder,
    /// The counts.
    pub stats: ConversionStats,
    /// The warnings.
    pub warnings: Vec<ConversionWarning>,
}

impl ImportContext {
    /// What is imported.
    pub open spec fn rules(&self) -> Rules {
        Rules {
            executable: self.executable_ranges@,
            inlines: self.include_inlines,
            call_sites: self.include_call_sites,
        }
    }
}

impl View for ImportContext {
    type V = ImportView;

    open spec fn view(&self) -> ImportView {
        ImportView {
            builder: self.builder@,
            stats: self.stats,
            warnings: diagnostic::warning_views(self.warnings@),
            error: None,
        }
    }
}

/// Whether an import has come to `state`.
pub open spec fn reaches(
    before: ImportContext,
    after: ImportContext,
    result: Result<(), Error>,
    state: ImportView,
) -> bool {
    &&& after.builder.wf()
    &&& after.rules() == before.rules()
    &&& after@ == (ImportView { error: None, ..state })
    &&& match state.error {
        Some(view) => result matches Err(error) && error@ == view,
        None => result == Ok::<(), Error>(()),
    }
}

/// A unit with the lines and files that its functions use.
pub struct UnitScope<'import> {
    /// Units of the object.
    pub units: &'import Units,
    /// Units of the supplementary object.
    pub supplementary: Option<&'import Units>,
    /// The unit.
    pub unit: &'import Unit,
    /// Lines of the functions.
    pub lines: &'import UnitLines,
    /// Files by the index that the unit gives them.
    pub files: &'import HashMap<u64, FileIndex>,
}

impl<'import> View for UnitScope<'import> {
    type V = ScopeView;

    open spec fn view(&self) -> ScopeView {
        ScopeView {
            units: *self.units,
            supplementary: references::units_of(self.supplementary),
            unit: *self.unit,
            rows: self.lines.entries@,
            sequences: self.lines.sequences@,
            files: self.files@,
        }
    }
}

/// Counts a rejected range.
fn reject(context: &mut ImportContext)
    requires
        old(context).builder.wf(),
    ensures
        reaches(*old(context), *final(context), Ok(()), rejected(old(context)@)),
{
    context.stats.rejected_ranges = context.stats.rejected_ranges.saturating_add(1);
}

/// Finds the rows of the subprogram at `index` in a range.
fn find_rows(
    context: &mut ImportContext,
    scope: &UnitScope<'_>,
    index: usize,
    range: AddressRange,
) -> (result: Result<Vec<LineEntry>, Error>)
    requires
        old(context).builder.wf(),
        scope.lines.wf(),
        index < scope.unit.entries@.len(),
    ensures
        final(context).builder.wf(),
        final(context).rules() == old(context).rules(),
        ({
            let rowed = rows_of(scope@, old(context)@, index as int, range);
            &&& final(context)@ == (ImportView { error: None, ..rowed.state })
            &&& match rowed.state.error {
                Some(view) => result matches Err(error) && error@ == view,
                None => result matches Ok(rows) && rows@ == rowed.rows,
            }
        }),
{
    let entry: &Entry = &scope.unit.entries[index];
    let requested: Option<u64> = statement_sequence_offset(scope.unit, entry);
    let (mut rows, invalid) = scope.lines.for_range(range, requested);
    if rows.len() > 0 {
        if invalid {
            if let Some(sequence_offset) = requested {
                let offset: usize = absolute_entry_offset(scope.unit, entry.offset)?;
                push_warning(
                    &mut context.warnings,
                    ConversionWarning::InvalidStatementSequence {
                        die_offset: offset as u64,
                        sequence_offset,
                    },
                );
            }
        }
        return Ok(rows);
    }
    if let Some(line) = resolve_declaration_line(
        scope.units,
        scope.supplementary,
        scope.unit,
        entry,
        scope.files,
        &mut context.builder,
        &mut context.warnings,
    )? {
        let row = LineEntry { address: range.start, file: line.file, line: line.line };
        rows.push(row);
        assert(rows@ =~= seq![row]);
    }
    Ok(rows)
}

/// Imports the subprogram at `index` in a range as a function.
fn import_function(
    context: &mut ImportContext,
    scope: &UnitScope<'_>,
    index: usize,
    name: &Vec<u8>,
    range: AddressRange,
) -> (result: Result<(), Error>)
    requires
        old(context).builder.wf(),
        scope.lines.wf(),
        index < scope.unit.entries@.len(),
    ensures
        reaches(
            *old(context),
            *final(context),
            result,
            with_function(
                old(context).rules(),
                scope@,
                old(context)@,
                index as int,
                name@,
                range,
            ),
        ),
{
    let rows = find_rows(context, scope, index, range)?;
    context.stats.line_rows = context.stats.line_rows.saturating_add(rows.len());
    let options = DetailOptions {
        units: scope.units,
        supplementary: scope.supplementary,
        unit: scope.unit,
        file_indices: scope.files,
        function_range: range,
        include_inlines: context.include_inlines,
        include_call_sites: context.include_call_sites,
    };
    let (inline, call_sites, count) = extract_subprogram_details(
        &options,
        index,
        name.as_slice(),
        &mut context.warnings,
    )?;
    context.stats.inline_nodes = context.stats.inline_nodes.saturating_add(count);
    let function = Function {
        range,
        name: copy_bytes(name.as_slice()),
        lines: rows,
        inline,
        merged: Vec::new(),
        call_sites,
    };
    proof {
        lemma_function_view(function);
        assert(crate::model::function_views(function.merged@) =~= Seq::<FunctionView>::empty());
    }
    context.builder.add_function(function)?;
    context.stats.dwarf_functions = context.stats.dwarf_functions.saturating_add(1);
    Ok(())
}

/// Imports a range of the subprogram at `index`.
fn import_range(
    context: &mut ImportContext,
    scope: &UnitScope<'_>,
    index: usize,
    name: &Vec<u8>,
    listed: ListedRange,
) -> (result: Result<(), Error>)
    requires
        old(context).builder.wf(),
        scope.lines.wf(),
        index < scope.unit.entries@.len(),
    ensures
        reaches(
            *old(context),
            *final(context),
            result,
            with_range(
                old(context).rules(),
                scope@,
                old(context)@,
                index as int,
                name@,
                listed,
            ),
        ),
{
    let range = AddressRange::new(listed.begin, listed.end);
    if (range.start == 0 || listed.tombstone) && !holds_address(
        context.executable_ranges.as_slice(),
        range.start,
    ) {
        reject(context);
        return Ok(());
    }
    if !is_live_range(range, context.executable_ranges.as_slice()) {
        reject(context);
        push_warning(&mut context.warnings, ConversionWarning::RejectedRange { range });
        return Ok(());
    }
    import_function(context, scope, index, name, range)
}

/// Imports the ranges of the subprogram at `index`.
fn import_ranges(
    context: &mut ImportContext,
    scope: &UnitScope<'_>,
    index: usize,
    name: &Vec<u8>,
    listed: &Vec<ListedRange>,
) -> (result: Result<(), Error>)
    requires
        old(context).builder.wf(),
        scope.lines.wf(),
        index < scope.unit.entries@.len(),
    ensures
        reaches(
            *old(context),
            *final(context),
            result,
            with_ranges(
                old(context).rules(),
                scope@,
                old(context)@,
                index as int,
                name@,
                listed@,
                listed@.len(),
            ),
        ),
{
    let ghost rules = context.rules();
    let ghost start = context@;
    let mut i: usize = 0;
    while i < listed.len()
        invariant
            context.builder.wf(),
            scope.lines.wf(),
            index < scope.unit.entries@.len(),
            rules == old(context).rules(),
            context.rules() == rules,
            start == old(context)@,
            i <= listed@.len(),
            context@ == with_ranges(
                rules,
                scope@,
                start,
                index as int,
                name@,
                listed@,
                i as nat,
            ),
        decreases listed@.len() - i,
    {
        proof {
            if with_ranges(
                rules,
                scope@,
                start,
                index as int,
                name@,
                listed@,
                (i + 1) as nat,
            ).error is Some {
                lemma_ranges_stop(
                    rules,
                    scope@,
                    start,
                    index as int,
                    name@,
                    listed@,
                    (i + 1) as nat,
                    listed@.len(),
                );
            }
        }
        import_range(context, scope, index, name, listed[i])?;
        i = i + 1;
    }
    Ok(())
}

/// Imports the entry at `index`.
fn import_entry(context: &mut ImportContext, scope: &UnitScope<'_>, index: usize) -> (result:
    Result<(), Error>)
    requires
        old(context).builder.wf(),
        scope.lines.wf(),
        index < scope.unit.entries@.len(),
    ensures
        reaches(
            *old(context),
            *final(context),
            result,
            with_entry(old(context).rules(), scope@, old(context)@, index as int),
        ),
{
    let entry: &Entry = &scope.unit.entries[index];
    if entry.tag != DW_TAG_SUBPROGRAM {
        return Ok(());
    }
    let name: Vec<u8> = match resolve_name(scope.units, scope.supplementary, scope.unit, entry)? {
        Some(name) => name,
        None => return Ok(()),
    };
    match &entry.ranges {
        Ranges::Failed(source) => {
            reject(context);
            push_warning(
                &mut context.warnings,
                ConversionWarning::MalformedRanges { stopped: false, reason: source.clone() },
            );
        },
        Ranges::Listed { ranges: listed, failure } => {
            import_ranges(context, scope, index, &name, listed)?;
            if let Some(source) = failure {
                reject(context);
                push_warning(
                    &mut context.warnings,
                    ConversionWarning::MalformedRanges { stopped: true, reason: source.clone() },
                );
            }
        },
    }
    Ok(())
}

/// Imports the functions of a unit.
///
/// Each range of a subprogram that lies in executable code becomes a function.
/// Other ranges are counted, and those that no linker removed are warned of.
pub fn import_unit_details(context: &mut ImportContext, scope: &UnitScope<'_>) -> (result: Result<
    (),
    Error,
>)
    requires
        old(context).builder.wf(),
        scope.lines.wf(),
    ensures
        reaches(
            *old(context),
            *final(context),
            result,
            with_details(old(context).rules(), scope@, old(context)@),
        ),
{
    proof {
        reveal(with_details);
    }
    let ghost rules = context.rules();
    let ghost start = context@;
    let entries: &Vec<Entry> = &scope.unit.entries;
    let mut i: usize = 0;
    while i < entries.len()
        invariant
            context.builder.wf(),
            scope.lines.wf(),
            entries@ == scope.unit.entries@,
            rules == old(context).rules(),
            context.rules() == rules,
            start == old(context)@,
            i <= entries@.len(),
            context@ == with_entries(rules, scope@, start, i as nat),
            with_details(rules, scope@, start) == (match scope.unit.entries_failure {
                Some(source) if with_entries(rules, scope@, start, entries@.len()).error is None =>
                    failed(
                        with_entries(rules, scope@, start, entries@.len()),
                        model::rejected(source),
                    ),
                _ => with_entries(rules, scope@, start, entries@.len()),
            }),
        decreases entries@.len() - i,
    {
        proof {
            if with_entries(rules, scope@, start, (i + 1) as nat).error is Some {
                lemma_entries_stop(rules, scope@, start, (i + 1) as nat, entries@.len());
            }
        }
        import_entry(context, scope, i)?;
        i = i + 1;
    }
    match &scope.unit.entries_failure {
        Some(source) => Err(dwarf_error(source)),
        None => Ok(()),
    }
}

} // verus!
