//! What the entries below a subprogram say of it.
use std::collections::HashMap;

use vstd::prelude::*;
use vstd::std_specs::hash::*;

use crate::convert::diagnostic;
use crate::convert::diagnostic::{ConversionWarning, WarningView};
use crate::convert::dwarf::dies;
use crate::convert::dwarf::dies::{
    finish_call_sites, finish_inline, make_call_site, make_inline_node, CallSiteFrame,
    CallSiteWork, InlineFrame, InlineWork,
};
use crate::convert::dwarf::model;
use crate::convert::dwarf::model::{
    dwarf_error, Entry, Unit, Units, DW_TAG_CALL_SITE, DW_TAG_INLINED_SUBROUTINE,
};
use crate::convert::dwarf::references;
use crate::error::{Error, ErrorView};
use crate::format::function;
use crate::format::function::check_inline_depth;
use crate::model::{
    call_site_views, copy_bytes, copy_ranges, inline_views, lemma_inline_view, AddressRange,
    CallSite, CallSiteView, FileIndex, InlineNode, InlineView,
};

verus! {

broadcast use vstd::std_specs::hash::group_hash_axioms;

/// Where details are looked for, and which.
pub struct Search {
    /// Units of the object.
    pub units: Units,
    /// Units of the supplementary object.
    pub supplementary: Option<Units>,
    /// Unit of the subprogram.
    pub unit: Unit,
    /// Range of the subprogram.
    pub range: AddressRange,
    /// Files by the index that the unit gives them.
    pub files: Map<u64, FileIndex>,
    /// Whether inline calls are wanted.
    pub inlines: bool,
    /// Whether call sites are wanted.
    pub call_sites: bool,
}

/// What was found by some entry.
pub struct Details {
    /// Inline calls.
    pub inline: InlineWork,
    /// Call sites.
    pub calls: CallSiteWork,
    /// Number of inline calls.
    pub count: usize,
    /// Warnings.
    pub warnings: Seq<WarningView>,
    /// The error that ended the search.
    pub error: Option<ErrorView>,
}

/// One more, as far as numbers go.
pub open spec fn one_more(count: usize) -> usize {
    if count < usize::MAX {
        (count + 1) as usize
    } else {
        count
    }
}

/// What was found once the call site of an entry is added.
pub open spec fn with_call_site(search: Search, found: Details, entry: Entry) -> Details {
    if search.call_sites && entry.tag == DW_TAG_CALL_SITE {
        match dies::call_site_of(
            search.units,
            search.supplementary,
            search.unit,
            entry,
            search.range,
        ) {
            Err(error) => Details { error: Some(error), ..found },
            Ok(None) => found,
            Ok(Some(site)) => Details {
                calls: CallSiteWork {
                    stack: found.calls.stack.push((entry.depth, site)),
                    ..found.calls
                },
                ..found
            },
        }
    } else {
        found
    }
}

/// The ranges that an inline call must lie in.
pub open spec fn enclosing_ranges(search: Search, work: InlineWork) -> Seq<AddressRange> {
    if work.stack.len() == 0 {
        seq![search.range]
    } else {
        work.stack.last().1.ranges
    }
}

/// What was found once the inline call of an entry is added.
pub open spec fn with_inline(search: Search, found: Details, entry: Entry) -> Details {
    if search.inlines && entry.tag == DW_TAG_INLINED_SUBROUTINE {
        let made = dies::inline_node_of(
            search.units,
            search.supplementary,
            search.unit,
            entry,
            enclosing_ranges(search, found.inline),
            search.files,
            found.warnings,
        );
        let warned = Details { warnings: made.warnings, ..found };
        match made.result {
            Err(error) => Details { error: Some(error), ..warned },
            Ok(None) => warned,
            Ok(Some(node)) => match function::inline_depth_error(
                one_more(found.inline.stack.len() as usize) as nat,
            ) {
                Some(error) => Details { error: Some(error@), ..warned },
                None => Details {
                    inline: InlineWork {
                        stack: found.inline.stack.push((entry.depth, node)),
                        ..found.inline
                    },
                    count: one_more(found.count),
                    ..warned
                },
            },
        }
    } else {
        found
    }
}

/// What was found once an entry is added.
pub open spec fn with_entry(search: Search, found: Details, entry: Entry) -> Details {
    let above = Details {
        calls: dies::call_sites_finished(found.calls, entry.depth),
        inline: dies::inlines_finished(found.inline, entry.depth),
        ..found
    };
    let called = with_call_site(search, above, entry);
    if called.error is Some {
        called
    } else {
        with_inline(search, called, entry)
    }
}

/// What was found once the entries from `from` on that lie deeper than `root`
/// are added.
pub open spec fn descended(search: Search, found: Details, root: isize, from: int) -> Details
    decreases search.unit.entries@.len() - from,
{
    if from < 0 || from >= search.unit.entries@.len() {
        match search.unit.entries_failure {
            Some(source) => Details { error: Some(model::rejected(source)), ..found },
            None => found,
        }
    } else {
        let entry = search.unit.entries@[from];
        if entry.depth <= root {
            found
        } else {
            let next = with_entry(search, found, entry);
            if next.error is Some {
                next
            } else {
                descended(search, next, root, from + 1)
            }
        }
    }
}

/// Nothing found yet.
pub open spec fn nothing_found(warnings: Seq<WarningView>) -> Details {
    Details {
        inline: InlineWork { stack: Seq::empty(), roots: Seq::empty() },
        calls: CallSiteWork { stack: Seq::empty(), done: Seq::empty() },
        count: 0,
        warnings,
        error: None,
    }
}

/// What the entries below a subprogram say.
pub struct Descendants {
    /// Outermost inline calls.
    pub inlines: Seq<InlineView>,
    /// Call sites.
    pub call_sites: Seq<CallSiteView>,
    /// Number of inline calls.
    pub count: usize,
}

/// What the entries below the subprogram at `index` say, and the warnings by
/// then.
pub open spec fn descendants_of(
    search: Search,
    index: int,
    warnings: Seq<WarningView>,
) -> dies::Warned<Descendants> {
    let root = search.unit.entries@[index].depth;
    let found = descended(search, nothing_found(warnings), root, index + 1);
    dies::Warned {
        result: match found.error {
            Some(error) => Err(error),
            None => Ok(
                Descendants {
                    inlines: dies::all_inlines_finished(found.inline),
                    call_sites: dies::call_sites_finished(found.calls, root).done,
                    count: found.count,
                },
            ),
        },
        warnings: found.warnings,
    }
}

/// What is imported of the entries below a subprogram.
pub struct ExtractedView {
    /// Inline tree.
    pub inline: Option<InlineView>,
    /// Call sites.
    pub call_sites: Seq<CallSiteView>,
    /// Number of inline calls.
    pub count: usize,
}

/// What is imported of the entries below the subprogram at `index`, which has
/// the given name, and the warnings by then.
pub open spec fn extracted(
    search: Search,
    index: int,
    name: Seq<u8>,
    warnings: Seq<WarningView>,
) -> dies::Warned<ExtractedView> {
    if !search.inlines && !search.call_sites {
        dies::Warned {
            result: Ok(ExtractedView { inline: None, call_sites: Seq::empty(), count: 0 }),
            warnings,
        }
    } else {
        let below = descendants_of(search, index, warnings);
        dies::Warned {
            result: match below.result {
                Err(error) => Err(error),
                Ok(found) => Ok(
                    ExtractedView {
                        inline: if found.inlines.len() == 0 {
                            None
                        } else {
                            Some(
                                InlineView {
                                    ranges: seq![search.range],
                                    name,
                                    call_file: FileIndex(0),
                                    call_line: 0,
                                    children: found.inlines,
                                },
                            )
                        },
                        call_sites: found.call_sites,
                        count: found.count,
                    },
                ),
            },
            warnings: below.warnings,
        }
    }
}

/// Details that are being gathered.
struct Gathering {
    inline_stack: Vec<InlineFrame>,
    roots: Vec<InlineNode>,
    call_site_stack: Vec<CallSiteFrame>,
    call_sites: Vec<CallSite>,
    count: usize,
}

spec fn inline_work(gathering: Gathering) -> InlineWork {
    InlineWork {
        stack: dies::inline_frames(gathering.inline_stack@),
        roots: inline_views(gathering.roots@),
    }
}

spec fn call_site_work(gathering: Gathering) -> CallSiteWork {
    CallSiteWork {
        stack: dies::call_site_frames(gathering.call_site_stack@),
        done: call_site_views(gathering.call_sites@),
    }
}

/// What the details and warnings gathered so far say.
spec fn gathered(gathering: Gathering, warnings: Seq<ConversionWarning>) -> Details {
    Details {
        inline: inline_work(gathering),
        calls: call_site_work(gathering),
        count: gathering.count,
        warnings: diagnostic::warning_views(warnings),
        error: None,
    }
}

/// Where details are looked for, and which.
pub struct DetailOptions<'import> {
    /// Units of the object.
    pub units: &'import Units,
    /// Units of the supplementary object.
    pub supplementary: Option<&'import Units>,
    /// Unit of the subprogram.
    pub unit: &'import Unit,
    /// Files by the index that the unit gives them.
    pub file_indices: &'import HashMap<u64, FileIndex>,
    /// Range of the subprogram.
    pub function_range: AddressRange,
    /// Whether inline calls are imported.
    pub include_inlines: bool,
    /// Whether call sites are imported.
    pub include_call_sites: bool,
}

impl<'import> View for DetailOptions<'import> {
    type V = Search;

    open spec fn view(&self) -> Search {
        Search {
            units: *self.units,
            supplementary: references::units_of(self.supplementary),
            unit: *self.unit,
            range: self.function_range,
            files: self.file_indices@,
            inlines: self.include_inlines,
            call_sites: self.include_call_sites,
        }
    }
}

fn finish_inlines(gathering: &mut Gathering, depth: isize)
    ensures
        inline_work(*final(gathering)) == dies::inlines_finished(
            inline_work(*old(gathering)),
            depth,
        ),
        call_site_work(*final(gathering)) == call_site_work(*old(gathering)),
        final(gathering).count == old(gathering).count,
{
    let ghost whole = dies::inlines_finished(inline_work(*gathering), depth);
    while gathering.inline_stack.len() > 0 && depth <= gathering.inline_stack[
        gathering.inline_stack.len() - 1
    ].die_depth
        invariant
            whole == dies::inlines_finished(inline_work(*gathering), depth),
            whole == dies::inlines_finished(inline_work(*old(gathering)), depth),
            call_site_work(*gathering) == call_site_work(*old(gathering)),
            gathering.count == old(gathering).count,
        decreases gathering.inline_stack@.len(),
    {
        let ghost before = inline_work(*gathering);
        let ghost frames = gathering.inline_stack@;
        assert(before.stack.last() == (frames.last().die_depth, frames.last().node@));
        finish_inline(&mut gathering.inline_stack, &mut gathering.roots);
        assert(inline_work(*gathering) == dies::inline_finished(before));
        assert(gathering.inline_stack@.len() == inline_work(*gathering).stack.len());
    }
    proof {
        let frames = gathering.inline_stack@;
        let work = inline_work(*gathering);
        if frames.len() > 0 {
            assert(work.stack.last() == (frames.last().die_depth, frames.last().node@));
        }
    }
}

fn finish_all_inlines(gathering: &mut Gathering)
    ensures
        inline_views(final(gathering).roots@) == dies::all_inlines_finished(
            inline_work(*old(gathering)),
        ),
        call_site_work(*final(gathering)) == call_site_work(*old(gathering)),
        final(gathering).count == old(gathering).count,
{
    let ghost whole = dies::all_inlines_finished(inline_work(*gathering));
    while gathering.inline_stack.len() > 0
        invariant
            whole == dies::all_inlines_finished(inline_work(*gathering)),
            whole == dies::all_inlines_finished(inline_work(*old(gathering))),
            call_site_work(*gathering) == call_site_work(*old(gathering)),
            gathering.count == old(gathering).count,
        decreases gathering.inline_stack@.len(),
    {
        let ghost before = inline_work(*gathering);
        finish_inline(&mut gathering.inline_stack, &mut gathering.roots);
        assert(inline_work(*gathering) == dies::inline_finished(before));
        assert(gathering.inline_stack@.len() == inline_work(*gathering).stack.len());
    }
}

fn add_call_site(gathering: &mut Gathering, options: &DetailOptions<'_>, entry: &Entry) -> (result:
    Result<(), Error>)
    ensures
        forall|warnings: Seq<ConversionWarning>|
            ({
                let next = with_call_site(
                    options@,
                    #[trigger] gathered(*old(gathering), warnings),
                    *entry,
                );
                &&& gathered(*final(gathering), warnings) == (Details { error: None, ..next })
                &&& match next.error {
                    Some(view) => result matches Err(error) && error@ == view,
                    None => result == Ok::<(), Error>(()),
                }
            }),
{
    if !(options.include_call_sites && entry.tag == DW_TAG_CALL_SITE) {
        return Ok(());
    }
    if let Some(call_site) = make_call_site(
        options.units,
        options.supplementary,
        options.unit,
        entry,
        options.function_range,
    )? {
        let ghost before = dies::call_site_frames(gathering.call_site_stack@);
        let ghost site = call_site@;
        gathering.call_site_stack.push(CallSiteFrame { die_depth: entry.depth, call_site });
        assert(dies::call_site_frames(gathering.call_site_stack@) =~= before.push(
            (entry.depth, site),
        ));
    }
    Ok(())
}

fn add_inline(
    gathering: &mut Gathering,
    options: &DetailOptions<'_>,
    entry: &Entry,
    warnings: &mut Vec<ConversionWarning>,
) -> (result: Result<(), Error>)
    ensures
        ({
            let next = with_inline(
                options@,
                gathered(*old(gathering), old(warnings)@),
                *entry,
            );
            &&& gathered(*final(gathering), final(warnings)@) == (Details { error: None, ..next })
            &&& match next.error {
                Some(view) => result matches Err(error) && error@ == view,
                None => result == Ok::<(), Error>(()),
            }
        }),
{
    if !(options.include_inlines && entry.tag == DW_TAG_INLINED_SUBROUTINE) {
        return Ok(());
    }
    let open: usize = gathering.inline_stack.len();
    let parents: Vec<AddressRange> = if open == 0 {
        let mut parents: Vec<AddressRange> = Vec::new();
        parents.push(options.function_range);
        assert(parents@ =~= seq![options.function_range]);
        parents
    } else {
        copy_ranges(&gathering.inline_stack[open - 1].node.ranges)
    };
    proof {
        let frames = gathering.inline_stack@;
        if open > 0 {
            lemma_inline_view(frames.last().node);
            assert(inline_work(*gathering).stack.last() == (
                frames.last().die_depth,
                frames.last().node@,
            ));
        }
        assert(parents@ == enclosing_ranges(options@, inline_work(*gathering)));
    }
    if let Some(node) = make_inline_node(
        options.units,
        options.supplementary,
        options.unit,
        entry,
        parents.as_slice(),
        options.file_indices,
        warnings,
    )? {
        check_inline_depth(open.saturating_add(1))?;
        let ghost before = dies::inline_frames(gathering.inline_stack@);
        let ghost view = node@;
        gathering.count = gathering.count.saturating_add(1);
        gathering.inline_stack.push(InlineFrame { die_depth: entry.depth, node });
        assert(dies::inline_frames(gathering.inline_stack@) =~= before.push((entry.depth, view)));
    }
    Ok(())
}

fn add_entry(
    gathering: &mut Gathering,
    options: &DetailOptions<'_>,
    entry: &Entry,
    warnings: &mut Vec<ConversionWarning>,
) -> (result: Result<(), Error>)
    ensures
        ({
            let next = with_entry(
                options@,
                gathered(*old(gathering), old(warnings)@),
                *entry,
            );
            &&& gathered(*final(gathering), final(warnings)@) == (Details { error: None, ..next })
            &&& match next.error {
                Some(view) => result matches Err(error) && error@ == view,
                None => result == Ok::<(), Error>(()),
            }
        }),
{
    let ghost start = gathered(*gathering, warnings@);
    finish_call_sites(
        &mut gathering.call_site_stack,
        entry.depth,
        &mut gathering.call_sites,
    );
    finish_inlines(gathering, entry.depth);
    assert(gathered(*gathering, warnings@) == (Details {
        calls: dies::call_sites_finished(start.calls, entry.depth),
        inline: dies::inlines_finished(start.inline, entry.depth),
        ..start
    }));
    add_call_site(gathering, options, entry)?;
    add_inline(gathering, options, entry, warnings)
}

/// Collects the inline calls and call sites below the subprogram at `index`.
fn collect_descendants(
    options: &DetailOptions<'_>,
    index: usize,
    warnings: &mut Vec<ConversionWarning>,
) -> (result: Result<(Vec<InlineNode>, Vec<CallSite>, usize), Error>)
    requires
        index < options.unit.entries@.len(),
    ensures
        ({
            let below = descendants_of(
                options@,
                index as int,
                diagnostic::warning_views(old(warnings)@),
            );
            &&& diagnostic::warning_views(final(warnings)@) == below.warnings
            &&& match below.result {
                Err(view) => result matches Err(error) && error@ == view,
                Ok(found) => result matches Ok((inlines, sites, count)) && inline_views(inlines@)
                    == found.inlines && call_site_views(sites@) == found.call_sites && count
                    == found.count,
            }
        }),
{
    let entries: &Vec<Entry> = &options.unit.entries;
    let entry_count: usize = entries.len();
    let root: isize = entries[index].depth;
    let ghost search = options@;
    let ghost start = nothing_found(diagnostic::warning_views(warnings@));
    let mut gathering = Gathering {
        inline_stack: Vec::new(),
        roots: Vec::new(),
        call_site_stack: Vec::new(),
        call_sites: Vec::new(),
        count: 0,
    };
    proof {
        assert(inline_work(gathering).stack =~= start.inline.stack);
        assert(inline_work(gathering).roots =~= start.inline.roots);
        assert(call_site_work(gathering).stack =~= start.calls.stack);
        assert(call_site_work(gathering).done =~= start.calls.done);
    }
    let ghost whole = descended(search, start, root, index + 1);
    let mut i: usize = index + 1;
    let mut ended: bool = false;
    while !ended && i < entry_count
        invariant
            search == options@,
            entries@ == search.unit.entries@,
            entry_count == entries@.len(),
            index < i <= entries@.len(),
            whole == descended(
                search,
                nothing_found(diagnostic::warning_views(old(warnings)@)),
                root,
                index + 1,
            ),
            root == entries@[index as int].depth,
            ended ==> whole == gathered(gathering, warnings@),
            !ended ==> whole == descended(
                search,
                gathered(gathering, warnings@),
                root,
                i as int,
            ),
        decreases entries@.len() - i + (if ended {
            0int
        } else {
            1
        }),
    {
        let entry: &Entry = &entries[i];
        if entry.depth <= root {
            ended = true;
        } else {
            add_entry(&mut gathering, options, entry, warnings)?;
            i = i + 1;
        }
    }
    if !ended {
        if let Some(source) = &options.unit.entries_failure {
            return Err(dwarf_error(source));
        }
    }
    finish_all_inlines(&mut gathering);
    finish_call_sites(&mut gathering.call_site_stack, root, &mut gathering.call_sites);
    Ok((gathering.roots, gathering.call_sites, gathering.count))
}

/// Returns the inline tree and the call sites of the subprogram at `index`,
/// and the number of its inline calls.
pub fn extract_subprogram_details(
    options: &DetailOptions<'_>,
    index: usize,
    function_name: &[u8],
    warnings: &mut Vec<ConversionWarning>,
) -> (result: Result<(Option<InlineNode>, Vec<CallSite>, usize), Error>)
    requires
        index < options.unit.entries@.len(),
    ensures
        ({
            let found = extracted(
                options@,
                index as int,
                function_name@,
                diagnostic::warning_views(old(warnings)@),
            );
            &&& diagnostic::warning_views(final(warnings)@) == found.warnings
            &&& match found.result {
                Err(view) => result matches Err(error) && error@ == view,
                Ok(view) => result matches Ok((inline, sites, count))
                    && crate::model::inline_option_view(inline) == view.inline && call_site_views(
                    sites@,
                ) == view.call_sites && count == view.count,
            }
        }),
{
    if !options.include_inlines && !options.include_call_sites {
        let sites: Vec<CallSite> = Vec::new();
        assert(call_site_views(sites@) =~= Seq::<CallSiteView>::empty());
        return Ok((None, sites, 0));
    }
    let (inlines, call_sites, count) = collect_descendants(options, index, warnings)?;
    if inlines.len() == 0 {
        return Ok((None, call_sites, count));
    }
    let ghost children = inline_views(inlines@);
    let mut ranges: Vec<AddressRange> = Vec::new();
    ranges.push(options.function_range);
    let node = InlineNode {
        ranges,
        name: copy_bytes(function_name),
        call_file: FileIndex(0),
        call_line: 0,
        children: inlines,
    };
    proof {
        lemma_inline_view(node);
        assert(node.ranges@ =~= seq![options.function_range]);
    }
    Ok((Some(node), call_sites, count))
}

} // verus!
