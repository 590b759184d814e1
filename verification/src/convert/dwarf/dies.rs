//! Inline calls and call sites of a function.
use std::collections::HashMap;

use vstd::prelude::*;
use vstd::std_specs::hash::*;

use crate::convert::diagnostic;
use crate::convert::diagnostic::{ConversionWarning, WarningView};
use crate::convert::dwarf::collect::push_warning;
use crate::convert::dwarf::model;
use crate::convert::dwarf::model::{
    absolute_entry_offset, dwarf_error, file_index_attribute, unsigned_attribute, Address, Entry,
    ListedRange, Ranges, Unit, Units,
};
use crate::convert::dwarf::ranges;
use crate::convert::dwarf::ranges::{coalesce_ranges, lies_within};
use crate::convert::dwarf::references;
use crate::convert::dwarf::references::{resolve_name, resolve_reference_name, DebugSource, Visited};
use crate::error::{Error, ErrorView};
use crate::model::{
    AddressRange, CallSite, CallSiteFlags, CallSiteView, FileIndex, InlineNode, InlineView,
};

verus! {

broadcast use vstd::std_specs::hash::group_hash_axioms;

/// An inline call whose entry may still get children.
pub struct InlineFrame {
    /// Nesting depth of the entry.
    pub die_depth: isize,
    /// The call.
    pub node: InlineNode,
}

/// A call site whose entry may still get children.
pub struct CallSiteFrame {
    /// Nesting depth of the entry.
    pub die_depth: isize,
    /// The call site.
    pub call_site: CallSite,
}

/// The inline calls of a stack with their depths.
pub open spec fn inline_frames(stack: Seq<InlineFrame>) -> Seq<(isize, InlineView)> {
    Seq::new(stack.len(), |i: int| (stack[i].die_depth, stack[i].node@))
}

/// The call sites of a stack with their depths.
pub open spec fn call_site_frames(stack: Seq<CallSiteFrame>) -> Seq<(isize, CallSiteView)> {
    Seq::new(stack.len(), |i: int| (stack[i].die_depth, stack[i].call_site@))
}

/// Inline calls that are open, and those that are done.
pub struct InlineWork {
    /// Open calls, each in the one before it.
    pub stack: Seq<(isize, InlineView)>,
    /// Outermost calls that are done.
    pub roots: Seq<InlineView>,
}

/// The innermost open call done.
pub open spec fn inline_finished(work: InlineWork) -> InlineWork {
    if work.stack.len() == 0 {
        work
    } else {
        let node = work.stack.last().1;
        let rest = work.stack.drop_last();
        if rest.len() == 0 {
            InlineWork { stack: rest, roots: work.roots.push(node) }
        } else {
            let (depth, parent) = rest.last();
            InlineWork {
                stack: rest.drop_last().push(
                    (depth, InlineView { children: parent.children.push(node), ..parent }),
                ),
                roots: work.roots,
            }
        }
    }
}

/// The open calls from `depth` on done.
pub open spec fn inlines_finished(work: InlineWork, depth: isize) -> InlineWork
    decreases work.stack.len(),
{
    if work.stack.len() == 0 || depth > work.stack.last().0 {
        work
    } else {
        inlines_finished(inline_finished(work), depth)
    }
}

/// All open calls done.
pub open spec fn all_inlines_finished(work: InlineWork) -> Seq<InlineView>
    decreases work.stack.len(),
{
    if work.stack.len() == 0 {
        work.roots
    } else {
        all_inlines_finished(inline_finished(work))
    }
}

/// Call sites that are open, and those that are done.
pub struct CallSiteWork {
    /// Open call sites.
    pub stack: Seq<(isize, CallSiteView)>,
    /// Call sites that are done.
    pub done: Seq<CallSiteView>,
}

/// The open call sites from `depth` on done, the innermost first.
pub open spec fn call_sites_finished(work: CallSiteWork, depth: isize) -> CallSiteWork
    decreases work.stack.len(),
{
    if work.stack.len() == 0 || work.stack.last().0 < depth {
        work
    } else {
        call_sites_finished(
            CallSiteWork {
                stack: work.stack.drop_last(),
                done: work.done.push(work.stack.last().1),
            },
            depth,
        )
    }
}

/// Finishes the innermost open inline call.
pub fn finish_inline(stack: &mut Vec<InlineFrame>, roots: &mut Vec<InlineNode>)
    ensures
        ({
            let work = inline_finished(
                InlineWork {
                    stack: inline_frames(old(stack)@),
                    roots: crate::model::inline_views(old(roots)@),
                },
            );
            &&& inline_frames(final(stack)@) == work.stack
            &&& crate::model::inline_views(final(roots)@) == work.roots
        }),
{
    let ghost start = inline_frames(stack@);
    let ghost done = crate::model::inline_views(roots@);
    let frame = match stack.pop() {
        Some(frame) => frame,
        None => {
            assert(inline_frames(stack@) =~= start);
            return;
        },
    };
    let ghost node = frame.node@;
    proof {
        assert(start.last() == (frame.die_depth, node));
        assert(inline_frames(stack@) =~= start.drop_last());
    }
    match stack.pop() {
        None => {
            roots.push(frame.node);
            proof {
                assert(inline_frames(stack@) =~= start.drop_last());
                assert(crate::model::inline_views(roots@) =~= done.push(node));
            }
        },
        Some(parent) => {
            let ghost above = parent.node@;
            let InlineFrame { die_depth, node: mut outer } = parent;
            proof {
                crate::model::lemma_inline_view(outer);
                assert(start.drop_last().last() == (die_depth, above));
            }
            let ghost children = crate::model::inline_views(outer.children@);
            outer.children.push(frame.node);
            proof {
                crate::model::lemma_inline_view(outer);
                assert(crate::model::inline_views(outer.children@) =~= children.push(node));
            }
            let ghost rest = stack@;
            stack.push(InlineFrame { die_depth, node: outer });
            proof {
                assert(inline_frames(rest) =~= start.drop_last().drop_last());
                assert(inline_frames(stack@) =~= inline_frames(rest).push((die_depth, outer@)));
            }
        },
    }
}

/// Finishes the open call sites at `next_depth` or deeper, the innermost
/// first.
pub fn finish_call_sites(
    stack: &mut Vec<CallSiteFrame>,
    next_depth: isize,
    output: &mut Vec<CallSite>,
)
    ensures
        ({
            let work = call_sites_finished(
                CallSiteWork {
                    stack: call_site_frames(old(stack)@),
                    done: crate::model::call_site_views(old(output)@),
                },
                next_depth,
            );
            &&& call_site_frames(final(stack)@) == work.stack
            &&& crate::model::call_site_views(final(output)@) == work.done
        }),
{
    let ghost whole = call_sites_finished(
        CallSiteWork {
            stack: call_site_frames(stack@),
            done: crate::model::call_site_views(output@),
        },
        next_depth,
    );
    while stack.len() > 0 && stack[stack.len() - 1].die_depth >= next_depth
        invariant
            whole == call_sites_finished(
                CallSiteWork {
                    stack: call_site_frames(stack@),
                    done: crate::model::call_site_views(output@),
                },
                next_depth,
            ),
        decreases stack@.len(),
    {
        let ghost before = call_site_frames(stack@);
        let ghost done = crate::model::call_site_views(output@);
        assert(before.last() == (stack@.last().die_depth, stack@.last().call_site@));
        if let Some(frame) = stack.pop() {
            let ghost site = frame.call_site@;
            output.push(frame.call_site);
            proof {
                assert(call_site_frames(stack@) =~= before.drop_last());
                assert(crate::model::call_site_views(output@) =~= done.push(site));
            }
        }
    }
    proof {
        let frames = call_site_frames(stack@);
        if frames.len() > 0 {
            assert(frames.last() == (stack@.last().die_depth, stack@.last().call_site@));
        }
    }
}

/// The ranges of an inline call that lie in those of its parent.
pub open spec fn kept_ranges(listed: Seq<ListedRange>, parents: Seq<AddressRange>) -> Seq<
    AddressRange,
>
    decreases listed.len(),
{
    if listed.len() == 0 {
        Seq::empty()
    } else {
        let rest = kept_ranges(listed.drop_last(), parents);
        let last = listed.last();
        let range = AddressRange { start: last.begin, end: last.end };
        if last.begin < last.end && ranges::is_within(parents, range) {
            rest.push(range)
        } else {
            rest
        }
    }
}

/// The ranges of an inline call.
pub open spec fn inline_ranges(entry: Entry, parents: Seq<AddressRange>) -> Result<
    Seq<AddressRange>,
    ErrorView,
> {
    match entry.ranges {
        Ranges::Failed(source) => Err(model::rejected(source)),
        Ranges::Listed { ranges: listed, failure } => match failure {
            Some(source) => Err(model::rejected(source)),
            None => Ok(ranges::coalesced(kept_ranges(listed@, parents))),
        },
    }
}

/// A result together with the warnings by then.
pub struct Warned<T> {
    /// The result.
    pub result: Result<T, ErrorView>,
    /// The warnings.
    pub warnings: Seq<WarningView>,
}

/// The file of an inline call.
pub open spec fn call_file_of(
    unit: Unit,
    entry: Entry,
    files: Map<u64, FileIndex>,
    warnings: Seq<WarningView>,
) -> Warned<FileIndex> {
    match model::file_index_of(entry.call_file) {
        None => Warned { result: Ok(FileIndex(0)), warnings },
        Some(index) => if files.dom().contains(index) {
            Warned { result: Ok(files[index]), warnings }
        } else {
            match model::absolute_offset(unit, entry.offset) {
                Err(error) => Warned { result: Err(error), warnings },
                Ok(offset) => Warned {
                    result: Ok(FileIndex(0)),
                    warnings: warnings.push(
                        WarningView::Plain(
                            ConversionWarning::MissingInlineCallFile {
                                die_offset: offset as u64,
                                index,
                            },
                        ),
                    ),
                },
            }
        },
    }
}

/// The line of an inline call.
pub open spec fn call_line_of(unit: Unit, entry: Entry, warnings: Seq<WarningView>) -> Warned<u32> {
    let line = match model::unsigned_of(entry.call_line) {
        Some(line) => line,
        None => 0,
    };
    if line <= u32::MAX {
        Warned { result: Ok(line as u32), warnings }
    } else {
        match model::absolute_offset(unit, entry.offset) {
            Err(error) => Warned { result: Err(error), warnings },
            Ok(offset) => Warned {
                result: Ok(0),
                warnings: warnings.push(
                    WarningView::Plain(
                        ConversionWarning::InvalidInlineCallLine {
                            die_offset: offset as u64,
                            line,
                        },
                    ),
                ),
            },
        }
    }
}

/// The inline call of an entry, unless it has no name or no range in those of
/// its parent.
pub open spec fn inline_node_of(
    units: Units,
    supplementary: Option<Units>,
    unit: Unit,
    entry: Entry,
    parents: Seq<AddressRange>,
    files: Map<u64, FileIndex>,
    warnings: Seq<WarningView>,
) -> Warned<Option<InlineView>> {
    match references::resolved_name(units, supplementary, unit, entry) {
        Err(error) => Warned { result: Err(error), warnings },
        Ok(None) => Warned { result: Ok(None), warnings },
        Ok(Some(name)) => match inline_ranges(entry, parents) {
            Err(error) => Warned { result: Err(error), warnings },
            Ok(kept) => if kept.len() == 0 {
                Warned { result: Ok(None), warnings }
            } else {
                let file = call_file_of(unit, entry, files, warnings);
                match file.result {
                    Err(error) => Warned { result: Err(error), warnings: file.warnings },
                    Ok(call_file) => {
                        let line = call_line_of(unit, entry, file.warnings);
                        match line.result {
                            Err(error) => Warned { result: Err(error), warnings: line.warnings },
                            Ok(call_line) => Warned {
                                result: Ok(
                                    Some(
                                        InlineView {
                                            ranges: kept,
                                            name,
                                            call_file,
                                            call_line,
                                            children: Seq::empty(),
                                        },
                                    ),
                                ),
                                warnings: line.warnings,
                            },
                        }
                    },
                }
            },
        },
    }
}

/// The names that a call site can lead to.
pub open spec fn call_site_patterns(
    units: Units,
    supplementary: Option<Units>,
    unit: Unit,
    entry: Entry,
) -> Result<Seq<Seq<u8>>, ErrorView> {
    match entry.call_origin {
        None => Ok(Seq::empty()),
        Some(reference) => match references::reference_name(
            units,
            supplementary,
            unit,
            reference,
            DebugSource::Main,
            1,
            references::nothing_visited(),
        ).name {
            Err(error) => Err(error),
            Ok(None) => Ok(Seq::empty()),
            Ok(Some(name)) => Ok(seq![name]),
        },
    }
}

/// The call site of an entry, unless it does not return into the function.
pub open spec fn call_site_of(
    units: Units,
    supplementary: Option<Units>,
    unit: Unit,
    entry: Entry,
    range: AddressRange,
) -> Result<Option<CallSiteView>, ErrorView> {
    match entry.call_return_pc {
        Some(Address::Failed(source)) => Err(model::rejected(source)),
        Some(Address::Known(address)) => if !range.spec_contains(address) {
            Ok(None)
        } else {
            match call_site_patterns(units, supplementary, unit, entry) {
                Err(error) => Err(error),
                Ok(match_regex) => Ok(
                    Some(
                        CallSiteView {
                            return_offset: (address - range.start) as u64,
                            flags: CallSiteFlags(0),
                            match_regex,
                        },
                    ),
                ),
            }
        },
        _ => Ok(None),
    }
}

fn keep_ranges(listed: &Vec<ListedRange>, parents: &[AddressRange]) -> (kept: Vec<AddressRange>)
    ensures
        kept@ == kept_ranges(listed@, parents@),
{
    let mut kept: Vec<AddressRange> = Vec::new();
    let mut i: usize = 0;
    assert(kept@ =~= kept_ranges(listed@.subrange(0, 0), parents@));
    while i < listed.len()
        invariant
            i <= listed@.len(),
            kept@ == kept_ranges(listed@.subrange(0, i as int), parents@),
        decreases listed@.len() - i,
    {
        assert(listed@.subrange(0, i + 1).drop_last() =~= listed@.subrange(0, i as int));
        let range: ListedRange = listed[i];
        let candidate = AddressRange::new(range.begin, range.end);
        if range.begin < range.end && lies_within(parents, candidate) {
            kept.push(candidate);
        }
        i = i + 1;
    }
    assert(listed@.subrange(0, listed@.len() as int) =~= listed@);
    kept
}

fn read_inline_ranges(entry: &Entry, parents: &[AddressRange]) -> (result: Result<
    Vec<AddressRange>,
    Error,
>)
    ensures
        match inline_ranges(*entry, parents@) {
            Ok(kept) => result matches Ok(found) && found@ == kept,
            Err(view) => result matches Err(error) && error@ == view,
        },
{
    match &entry.ranges {
        Ranges::Failed(source) => Err(dwarf_error(source)),
        Ranges::Listed { ranges: listed, failure } => {
            if let Some(source) = failure {
                return Err(dwarf_error(source));
            }
            let mut kept = keep_ranges(listed, parents);
            coalesce_ranges(&mut kept);
            Ok(kept)
        },
    }
}

fn read_call_file(
    unit: &Unit,
    entry: &Entry,
    files: &HashMap<u64, FileIndex>,
    warnings: &mut Vec<ConversionWarning>,
) -> (result: Result<FileIndex, Error>)
    ensures
        ({
            let file = call_file_of(
                *unit,
                *entry,
                files@,
                diagnostic::warning_views(old(warnings)@),
            );
            &&& diagnostic::warning_views(final(warnings)@) == file.warnings
            &&& match file.result {
                Ok(index) => result == Ok::<FileIndex, Error>(index),
                Err(view) => result matches Err(error) && error@ == view,
            }
        }),
{
    let index: u64 = match file_index_attribute(entry.call_file) {
        Some(index) => index,
        None => return Ok(FileIndex(0)),
    };
    if let Some(file) = files.get(&index) {
        return Ok(*file);
    }
    let offset: usize = absolute_entry_offset(unit, entry.offset)?;
    push_warning(
        warnings,
        ConversionWarning::MissingInlineCallFile { die_offset: offset as u64, index },
    );
    Ok(FileIndex(0))
}

fn read_call_line(unit: &Unit, entry: &Entry, warnings: &mut Vec<ConversionWarning>) -> (result:
    Result<u32, Error>)
    ensures
        ({
            let line = call_line_of(
                *unit,
                *entry,
                diagnostic::warning_views(old(warnings)@),
            );
            &&& diagnostic::warning_views(final(warnings)@) == line.warnings
            &&& match line.result {
                Ok(number) => result == Ok::<u32, Error>(number),
                Err(view) => result matches Err(error) && error@ == view,
            }
        }),
{
    let line: u64 = match unsigned_attribute(entry.call_line) {
        Some(line) => line,
        None => 0,
    };
    if line <= u32::MAX as u64 {
        return Ok(line as u32);
    }
    let offset: usize = absolute_entry_offset(unit, entry.offset)?;
    push_warning(
        warnings,
        ConversionWarning::InvalidInlineCallLine { die_offset: offset as u64, line },
    );
    Ok(0)
}

/// Reads the inline call of an entry.
pub fn make_inline_node(
    units: &Units,
    supplementary: Option<&Units>,
    unit: &Unit,
    entry: &Entry,
    parent_ranges: &[AddressRange],
    file_indices: &HashMap<u64, FileIndex>,
    warnings: &mut Vec<ConversionWarning>,
) -> (result: Result<Option<InlineNode>, Error>)
    ensures
        ({
            let made = inline_node_of(
                *units,
                references::units_of(supplementary),
                *unit,
                *entry,
                parent_ranges@,
                file_indices@,
                diagnostic::warning_views(old(warnings)@),
            );
            &&& diagnostic::warning_views(final(warnings)@) == made.warnings
            &&& match made.result {
                Ok(Some(view)) => result matches Ok(Some(node)) && node@ == view,
                Ok(None) => result == Ok::<Option<InlineNode>, Error>(None),
                Err(view) => result matches Err(error) && error@ == view,
            }
        }),
{
    let name: Vec<u8> = match resolve_name(units, supplementary, unit, entry)? {
        Some(name) => name,
        None => return Ok(None),
    };
    let kept = read_inline_ranges(entry, parent_ranges)?;
    if kept.len() == 0 {
        return Ok(None);
    }
    let call_file: FileIndex = read_call_file(unit, entry, file_indices, warnings)?;
    let call_line: u32 = read_call_line(unit, entry, warnings)?;
    let node = InlineNode { ranges: kept, name, call_file, call_line, children: Vec::new() };
    proof {
        crate::model::lemma_inline_view(node);
        assert(crate::model::inline_views(node.children@) =~= Seq::<InlineView>::empty());
    }
    Ok(Some(node))
}

fn read_patterns(
    units: &Units,
    supplementary: Option<&Units>,
    unit: &Unit,
    entry: &Entry,
) -> (result: Result<Vec<Vec<u8>>, Error>)
    ensures
        match call_site_patterns(*units, references::units_of(supplementary), *unit, *entry) {
            Ok(patterns) => result matches Ok(found) && crate::model::byte_views(found@)
                == patterns,
            Err(view) => result matches Err(error) && error@ == view,
        },
{
    let mut patterns: Vec<Vec<u8>> = Vec::new();
    assert(crate::model::byte_views(patterns@) =~= Seq::<Seq<u8>>::empty());
    if let Some(reference) = entry.call_origin {
        let mut visited = Visited::new();
        if let Some(name) = resolve_reference_name(
            units,
            supplementary,
            unit,
            reference,
            DebugSource::Main,
            1,
            &mut visited,
        )? {
            let ghost bytes = name@;
            patterns.push(name);
            assert(crate::model::byte_views(patterns@) =~= seq![bytes]);
        }
    }
    Ok(patterns)
}

/// Reads the call site of an entry.
pub fn make_call_site(
    units: &Units,
    supplementary: Option<&Units>,
    unit: &Unit,
    entry: &Entry,
    function_range: AddressRange,
) -> (result: Result<Option<CallSite>, Error>)
    ensures
        match call_site_of(
            *units,
            references::units_of(supplementary),
            *unit,
            *entry,
            function_range,
        ) {
            Ok(Some(view)) => result matches Ok(Some(site)) && site@ == view,
            Ok(None) => result == Ok::<Option<CallSite>, Error>(None),
            Err(view) => result matches Err(error) && error@ == view,
        },
{
    let address: u64 = match &entry.call_return_pc {
        Some(Address::Known(address)) => *address,
        Some(Address::Failed(source)) => return Err(dwarf_error(source)),
        Some(Address::Unknown) => return Ok(None),
        None => return Ok(None),
    };
    if !function_range.contains(address) {
        return Ok(None);
    }
    let match_regex = read_patterns(units, supplementary, unit, entry)?;
    Ok(
        Some(
            CallSite {
                return_offset: address - function_range.start,
                flags: CallSiteFlags(0),
                match_regex,
            },
        ),
    )
}

} // verus!
