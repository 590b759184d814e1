//! Import of all units, split ones among them.
use vstd::prelude::*;
use vstd::std_specs::hash::*;
use vstd::string::*;

use crate::builder::BuilderView;
use crate::convert::diagnostic;
use crate::convert::diagnostic::{ConversionWarning, WarningView};
use crate::convert::dwarf::collect;
use crate::convert::dwarf::collect::{collect_lines, push_warning};
use crate::convert::dwarf::import;
use crate::convert::dwarf::import::{
    import_unit_details, ImportContext, ImportView, Rules, ScopeView, UnitScope,
};
use crate::convert::dwarf::lines::{LineSequenceRange, SequencedLine, UnitLines};
use crate::convert::dwarf::model;
use crate::convert::dwarf::model::{dwarf_error, Unit, Units};
use crate::convert::dwarf::references;
use crate::convert::stats;
use crate::convert::stats::ConversionStats;
use crate::error::{Error, ErrorView};
use crate::model::FileIndex;

verus! {

broadcast use vstd::std_specs::hash::group_hash_axioms;

/// Split data that was looked for.
#[derive(Debug)]
pub enum SplitData {
    /// There was nowhere to look.
    NotSearched,
    /// It was not there.
    Absent,
    /// Why it could not be used.
    Failed(String),
    /// The units.
    Found(Units),
}

/// The split data of a skeleton unit.
#[derive(Debug)]
pub struct SplitSources {
    /// From an individual file.
    pub object: SplitData,
    /// From a package.
    pub package: SplitData,
}

/// The DWARF data of an image.
#[derive(Debug)]
pub struct DebugInfo {
    /// Units of the debug file.
    pub units: Units,
    /// Split data of the units, in the same order.
    pub splits: Vec<SplitSources>,
    /// Units of the supplementary file.
    pub supplementary: Option<Units>,
}

/// The lines of a unit as they are stated.
pub struct LinesView {
    /// Rows by address.
    pub rows: Seq<SequencedLine>,
    /// What the sequences cover.
    pub sequences: Seq<LineSequenceRange>,
    /// Files by the index that the unit gives them.
    pub files: Map<u64, FileIndex>,
}

/// The lines of a unit, and the import by then.
pub struct Lined {
    /// The lines.
    pub lines: LinesView,
    /// The import.
    pub state: ImportView,
}

/// The lines of a unit, and the import once they are collected.
#[verifier::opaque]
pub open spec fn lines_of(unit: Unit, supplementary: bool, state: ImportView) -> Lined {
    let gathered = collect::gathered_lines(
        unit.line_program,
        supplementary,
        state.builder.files,
        state.warnings,
    );
    Lined {
        lines: LinesView {
            rows: collect::distinct_rows(collect::sorted_rows(gathered.rows)),
            sequences: collect::program_ranges(unit.line_program),
            files: gathered.files,
        },
        state: ImportView {
            builder: BuilderView { files: gathered.table, ..state.builder },
            warnings: gathered.warnings,
            error: gathered.error,
            ..state
        },
    }
}

/// A unit with lines and files.
pub open spec fn scope_of(
    units: Units,
    supplementary: Option<Units>,
    unit: Unit,
    lines: LinesView,
    files: Map<u64, FileIndex>,
) -> ScopeView {
    ScopeView { units, supplementary, unit, rows: lines.rows, sequences: lines.sequences, files }
}

/// An import with a unit that stands for itself.
pub open spec fn with_unit(
    rules: Rules,
    units: Units,
    supplementary: Option<Units>,
    unit: Unit,
    state: ImportView,
) -> ImportView {
    let lined = lines_of(unit, supplementary is Some, state);
    if lined.state.error is Some {
        lined.state
    } else {
        import::with_details(
            rules,
            scope_of(units, supplementary, unit, lined.lines, lined.lines.files),
            lined.state,
        )
    }
}

/// The lines that a split unit's functions use: those of its skeleton, unless
/// it has none.
pub open spec fn executable_lines(skeleton: LinesView, own: LinesView) -> LinesView {
    if skeleton.rows.len() == 0 && skeleton.sequences.len() == 0 {
        own
    } else {
        skeleton
    }
}

/// The files that a split unit's functions use: its own, unless it has none.
pub open spec fn split_files(skeleton: LinesView, own: LinesView) -> Map<u64, FileIndex> {
    if own.files.dom().len() == 0 {
        executable_lines(skeleton, own).files
    } else {
        own.files
    }
}

/// An import with a split unit.
pub open spec fn with_split_unit(
    rules: Rules,
    units: Units,
    supplementary: Option<Units>,
    unit: Unit,
    skeleton: LinesView,
    state: ImportView,
) -> ImportView {
    if let Some(source) = unit.failure {
        import::failed(state, model::rejected(source))
    } else {
        let lined = lines_of(unit, supplementary is Some, state);
        if lined.state.error is Some {
            lined.state
        } else {
            import::with_details(
                rules,
                scope_of(
                    units,
                    supplementary,
                    unit,
                    executable_lines(skeleton, lined.lines),
                    split_files(skeleton, lined.lines),
                ),
                lined.state,
            )
        }
    }
}

/// An import with the first `count` split units.
pub open spec fn with_split_units(
    rules: Rules,
    units: Units,
    supplementary: Option<Units>,
    skeleton: LinesView,
    state: ImportView,
    count: nat,
) -> ImportView
    decreases count,
{
    if count == 0 {
        state
    } else {
        let before = with_split_units(
            rules,
            units,
            supplementary,
            skeleton,
            state,
            (count - 1) as nat,
        );
        if before.error is Some {
            before
        } else {
            with_split_unit(
                rules,
                units,
                supplementary,
                units.units@[count - 1],
                skeleton,
                before,
            )
        }
    }
}

/// An import with the split data of a skeleton unit.
pub open spec fn with_split(
    rules: Rules,
    units: Units,
    supplementary: Option<Units>,
    skeleton: LinesView,
    state: ImportView,
) -> ImportView {
    let read = with_split_units(
        rules,
        units,
        supplementary,
        skeleton,
        state,
        units.units@.len(),
    );
    if read.error is Some {
        read
    } else {
        match units.failure {
            Some(source) => import::failed(read, model::rejected(source)),
            None => ImportView {
                stats: ConversionStats {
                    split_dwarf_units: stats::more(read.stats.split_dwarf_units, 1),
                    ..read.stats
                },
                ..read
            },
        }
    }
}

/// Why the individual file of a skeleton unit was of no use.
pub open spec fn object_failures(object: SplitData) -> Seq<Seq<char>> {
    match object {
        SplitData::Failed(reason) => seq!["DWO: "@ + reason@],
        _ => Seq::empty(),
    }
}

/// Why the package of a skeleton unit was of no use.
pub open spec fn package_failures(package: SplitData) -> Seq<Seq<char>> {
    match package {
        SplitData::Absent => seq!["unit is absent from the DWP index"@],
        SplitData::Failed(reason) => seq!["DWP: "@ + reason@],
        _ => Seq::empty(),
    }
}

/// An import with a skeleton unit: with its individual file, or else its
/// package, or else the unit itself and a warning.
pub open spec fn with_skeleton(
    rules: Rules,
    units: Units,
    supplementary: Option<Units>,
    unit: Unit,
    dwo_id: u64,
    sources: SplitSources,
    state: ImportView,
) -> ImportView {
    let lined = lines_of(unit, supplementary is Some, state);
    if lined.state.error is Some {
        lined.state
    } else {
        match (sources.object, sources.package) {
            (SplitData::Found(split), _) => with_split(
                rules,
                split,
                supplementary,
                lined.lines,
                lined.state,
            ),
            (_, SplitData::Found(split)) => with_split(
                rules,
                split,
                supplementary,
                lined.lines,
                lined.state,
            ),
            (object, package) => import::with_details(
                rules,
                scope_of(units, supplementary, unit, lined.lines, lined.lines.files),
                import::warned(
                    lined.state,
                    WarningView::SplitDwarfUnavailable {
                        dwo_id,
                        reasons: object_failures(object) + package_failures(package),
                    },
                ),
            ),
        }
    }
}

/// The split data of the unit at `index`.
pub open spec fn sources_of(info: DebugInfo, index: int) -> SplitSources {
    if 0 <= index < info.splits@.len() {
        info.splits@[index]
    } else {
        SplitSources { object: SplitData::NotSearched, package: SplitData::NotSearched }
    }
}

/// An import with the unit at `index`.
pub open spec fn with_unit_at(
    rules: Rules,
    info: DebugInfo,
    index: int,
    state: ImportView,
) -> ImportView {
    let unit = info.units.units@[index];
    if let Some(source) = unit.failure {
        import::failed(state, model::rejected(source))
    } else {
        match unit.dwo_id {
            Some(dwo_id) => with_skeleton(
                rules,
                info.units,
                info.supplementary,
                unit,
                dwo_id,
                sources_of(info, index),
                state,
            ),
            None => with_unit(rules, info.units, info.supplementary, unit, state),
        }
    }
}

/// An import with the first `count` units.
pub open spec fn with_units(rules: Rules, info: DebugInfo, state: ImportView, count: nat) -> ImportView
    decreases count,
{
    if count == 0 {
        state
    } else {
        let before = with_units(rules, info, state, (count - 1) as nat);
        if before.error is Some {
            before
        } else {
            with_unit_at(rules, info, count - 1, before)
        }
    }
}

/// An import with all units.
pub open spec fn imported(rules: Rules, info: DebugInfo, state: ImportView) -> ImportView {
    let read = with_units(rules, info, state, info.units.units@.len());
    if read.error is Some {
        read
    } else {
        match info.units.failure {
            Some(source) => import::failed(read, model::rejected(source)),
            None => if rules.inlines && read.stats.inline_nodes == 0 {
                import::warned(read, WarningView::Plain(ConversionWarning::NoInlineRecords))
            } else {
                read
            },
        }
    }
}

proof fn lemma_split_units_stop(
    rules: Rules,
    units: Units,
    supplementary: Option<Units>,
    skeleton: LinesView,
    state: ImportView,
    count: nat,
    whole: nat,
)
    requires
        count <= whole,
        with_split_units(rules, units, supplementary, skeleton, state, count).error is Some,
    ensures
        with_split_units(rules, units, supplementary, skeleton, state, whole)
            == with_split_units(rules, units, supplementary, skeleton, state, count),
    decreases whole,
{
    if count < whole {
        lemma_split_units_stop(
            rules,
            units,
            supplementary,
            skeleton,
            state,
            count,
            (whole - 1) as nat,
        );
    }
}

proof fn lemma_units_stop(rules: Rules, info: DebugInfo, state: ImportView, count: nat, whole: nat)
    requires
        count <= whole,
        with_units(rules, info, state, count).error is Some,
    ensures
        with_units(rules, info, state, whole) == with_units(rules, info, state, count),
    decreases whole,
{
    if count < whole {
        lemma_units_stop(rules, info, state, count, (whole - 1) as nat);
    }
}

/// The lines of a unit as they are stated.
pub open spec fn stated_lines(lines: UnitLines) -> LinesView {
    LinesView { rows: lines.entries@, sequences: lines.sequences@, files: lines.files@ }
}

/// Collects the lines of a unit.
fn collect_unit_lines(context: &mut ImportContext, unit: &Unit, supplementary: bool) -> (result:
    Result<UnitLines, Error>)
    requires
        old(context).builder.wf(),
    ensures
        final(context).builder.wf(),
        final(context).rules() == old(context).rules(),
        ({
            let lined = lines_of(*unit, supplementary, old(context)@);
            &&& final(context)@ == (ImportView { error: None, ..lined.state })
            &&& match lined.state.error {
                Some(view) => result matches Err(error) && error@ == view,
                None => result matches Ok(lines) && lines.wf() && stated_lines(lines)
                    == lined.lines,
            }
        }),
{
    proof {
        reveal(lines_of);
    }
    collect_lines(
        &unit.line_program,
        supplementary,
        &mut context.builder,
        &mut context.warnings,
    )
}

/// Imports a unit that stands for itself.
fn import_unit(
    context: &mut ImportContext,
    units: &Units,
    supplementary: Option<&Units>,
    unit: &Unit,
) -> (result: Result<(), Error>)
    requires
        old(context).builder.wf(),
    ensures
        import::reaches(
            *old(context),
            *final(context),
            result,
            with_unit(
                old(context).rules(),
                *units,
                references::units_of(supplementary),
                *unit,
                old(context)@,
            ),
        ),
{
    let lines = collect_unit_lines(context, unit, supplementary.is_some())?;
    let scope = UnitScope { units, supplementary, unit, lines: &lines, files: &lines.files };
    import_unit_details(context, &scope)
}

/// Imports a split unit whose skeleton has the given lines.
fn import_split_unit(
    context: &mut ImportContext,
    units: &Units,
    supplementary: Option<&Units>,
    unit: &Unit,
    skeleton: &UnitLines,
) -> (result: Result<(), Error>)
    requires
        old(context).builder.wf(),
        skeleton.wf(),
    ensures
        import::reaches(
            *old(context),
            *final(context),
            result,
            with_split_unit(
                old(context).rules(),
                *units,
                references::units_of(supplementary),
                *unit,
                stated_lines(*skeleton),
                old(context)@,
            ),
        ),
{
    if let Some(source) = &unit.failure {
        return Err(dwarf_error(source));
    }
    let own = collect_unit_lines(context, unit, supplementary.is_some())?;
    let lines: &UnitLines = if skeleton.entries.len() == 0 && skeleton.sequences.len() == 0 {
        &own
    } else {
        skeleton
    };
    let files = if own.files.len() == 0 {
        &lines.files
    } else {
        &own.files
    };
    let scope = UnitScope { units, supplementary, unit, lines, files };
    import_unit_details(context, &scope)
}

/// Imports the split data of a skeleton unit with the given lines.
fn import_split_units(
    context: &mut ImportContext,
    units: &Units,
    supplementary: Option<&Units>,
    skeleton: &UnitLines,
) -> (result: Result<(), Error>)
    requires
        old(context).builder.wf(),
        skeleton.wf(),
    ensures
        import::reaches(
            *old(context),
            *final(context),
            result,
            with_split(
                old(context).rules(),
                *units,
                references::units_of(supplementary),
                stated_lines(*skeleton),
                old(context)@,
            ),
        ),
{
    let ghost rules = context.rules();
    let ghost start = context@;
    let ghost others = references::units_of(supplementary);
    let ghost stated = stated_lines(*skeleton);
    let mut i: usize = 0;
    while i < units.units.len()
        invariant
            context.builder.wf(),
            skeleton.wf(),
            rules == old(context).rules(),
            context.rules() == rules,
            start == old(context)@,
            others == references::units_of(supplementary),
            stated == stated_lines(*skeleton),
            i <= units.units@.len(),
            context@ == with_split_units(rules, *units, others, stated, start, i as nat),
        decreases units.units@.len() - i,
    {
        proof {
            if with_split_units(
                rules,
                *units,
                others,
                stated,
                start,
                (i + 1) as nat,
            ).error is Some {
                lemma_split_units_stop(
                    rules,
                    *units,
                    others,
                    stated,
                    start,
                    (i + 1) as nat,
                    units.units@.len(),
                );
            }
        }
        import_split_unit(context, units, supplementary, &units.units[i], skeleton)?;
        i = i + 1;
    }
    if let Some(source) = &units.failure {
        return Err(dwarf_error(source));
    }
    context.stats.split_dwarf_units = context.stats.split_dwarf_units.saturating_add(1);
    Ok(())
}

fn describe(prefix: &str, reason: &String) -> (text: String)
    ensures
        text@ == prefix@ + reason@,
{
    let mut text = String::new();
    text.append(prefix);
    assert(text@ =~= prefix@);
    text.append(reason.as_str());
    text
}

fn split_failures(sources: &SplitSources) -> (reasons: Vec<String>)
    ensures
        diagnostic::texts(reasons@) == object_failures(sources.object) + package_failures(
            sources.package,
        ),
{
    let mut reasons: Vec<String> = Vec::new();
    if let SplitData::Failed(reason) = &sources.object {
        reasons.push(describe("DWO: ", reason));
    }
    assert(diagnostic::texts(reasons@) =~= object_failures(sources.object));
    match &sources.package {
        SplitData::Absent => {
            let mut text = String::new();
            text.append("unit is absent from the DWP index");
            assert(text@ =~= "unit is absent from the DWP index"@);
            reasons.push(text);
        },
        SplitData::Failed(reason) => {
            reasons.push(describe("DWP: ", reason));
        },
        _ => {},
    }
    assert(diagnostic::texts(reasons@) =~= object_failures(sources.object) + package_failures(
        sources.package,
    ));
    reasons
}

/// Imports a skeleton unit.
fn import_skeleton(
    context: &mut ImportContext,
    units: &Units,
    supplementary: Option<&Units>,
    unit: &Unit,
    dwo_id: u64,
    sources: &SplitSources,
) -> (result: Result<(), Error>)
    requires
        old(context).builder.wf(),
    ensures
        import::reaches(
            *old(context),
            *final(context),
            result,
            with_skeleton(
                old(context).rules(),
                *units,
                references::units_of(supplementary),
                *unit,
                dwo_id,
                *sources,
                old(context)@,
            ),
        ),
{
    let lines = collect_unit_lines(context, unit, supplementary.is_some())?;
    if let SplitData::Found(split) = &sources.object {
        return import_split_units(context, split, supplementary, &lines);
    }
    if let SplitData::Found(split) = &sources.package {
        return import_split_units(context, split, supplementary, &lines);
    }
    let reasons = split_failures(sources);
    push_warning(
        &mut context.warnings,
        ConversionWarning::SplitDwarfUnavailable { dwo_id, reasons },
    );
    let scope = UnitScope { units, supplementary, unit, lines: &lines, files: &lines.files };
    import_unit_details(context, &scope)
}

/// Imports the unit at `index`.
fn import_unit_at(context: &mut ImportContext, info: &DebugInfo, index: usize) -> (result: Result<
    (),
    Error,
>)
    requires
        old(context).builder.wf(),
        index < info.units.units@.len(),
    ensures
        import::reaches(
            *old(context),
            *final(context),
            result,
            with_unit_at(old(context).rules(), *info, index as int, old(context)@),
        ),
{
    let unit: &Unit = &info.units.units[index];
    if let Some(source) = &unit.failure {
        return Err(dwarf_error(source));
    }
    let supplementary: Option<&Units> = info.supplementary.as_ref();
    let dwo_id: u64 = match unit.dwo_id {
        Some(dwo_id) => dwo_id,
        None => return import_unit(context, &info.units, supplementary, unit),
    };
    if index < info.splits.len() {
        import_skeleton(
            context,
            &info.units,
            supplementary,
            unit,
            dwo_id,
            &info.splits[index],
        )
    } else {
        let sources = SplitSources {
            object: SplitData::NotSearched,
            package: SplitData::NotSearched,
        };
        import_skeleton(context, &info.units, supplementary, unit, dwo_id, &sources)
    }
}

/// Imports the DWARF data of an image.
///
/// A unit that stands for split data is imported from its individual file, or
/// else from its package, or else, with a warning, as it is.
pub fn import_dwarf(context: &mut ImportContext, info: &DebugInfo) -> (result: Result<(), Error>)
    requires
        old(context).builder.wf(),
    ensures
        import::reaches(
            *old(context),
            *final(context),
            result,
            imported(old(context).rules(), *info, old(context)@),
        ),
{
    let ghost rules = context.rules();
    let ghost start = context@;
    let mut i: usize = 0;
    while i < info.units.units.len()
        invariant
            context.builder.wf(),
            rules == old(context).rules(),
            context.rules() == rules,
            start == old(context)@,
            i <= info.units.units@.len(),
            context@ == with_units(rules, *info, start, i as nat),
        decreases info.units.units@.len() - i,
    {
        proof {
            if with_units(rules, *info, start, (i + 1) as nat).error is Some {
                lemma_units_stop(rules, *info, start, (i + 1) as nat, info.units.units@.len());
            }
        }
        import_unit_at(context, info, i)?;
        i = i + 1;
    }
    if let Some(source) = &info.units.failure {
        return Err(dwarf_error(source));
    }
    if context.include_inlines && context.stats.inline_nodes == 0 {
        push_warning(&mut context.warnings, ConversionWarning::NoInlineRecords);
    }
    Ok(())
}

/// The error of a file that is not the split file with an identifier. `first`
/// is the identifier of its first unit, if it has a unit.
pub open spec fn dwo_error(
    first: Option<Option<u64>>,
    expected: u64,
    path: Seq<char>,
) -> Option<ErrorView> {
    match first {
        None => Some(
            ErrorView::Malformed {
                context: "DWO file",
                detail: "no compilation unit in "@ + path,
            },
        ),
        Some(id) => if id == Some(expected) {
            None
        } else {
            Some(ErrorView::Malformed { context: "DWO file", detail: "ID mismatch for "@ + path })
        },
    }
}

fn dwo_problem(before: &str, path: &str) -> (error: Error)
    ensures
        error@ == (ErrorView::Malformed { context: "DWO file", detail: before@ + path@ }),
{
    let mut detail = String::from_str(before);
    detail.append(path);
    Error::Malformed { context: "DWO file", detail: crate::error::Detail::Described(detail) }
}

/// Checks that a file is the split file with an identifier.
pub fn check_dwo(first: Option<Option<u64>>, expected: u64, path: &str) -> (result: Result<
    (),
    Error,
>)
    ensures
        match dwo_error(first, expected, path@) {
            Some(view) => result matches Err(error) && error@ == view,
            None => result == Ok::<(), Error>(()),
        },
{
    match first {
        None => Err(dwo_problem("no compilation unit in ", path)),
        Some(Some(id)) => if id == expected {
            Ok(())
        } else {
            Err(dwo_problem("ID mismatch for ", path))
        },
        Some(None) => Err(dwo_problem("ID mismatch for ", path)),
    }
}

} // verus!
