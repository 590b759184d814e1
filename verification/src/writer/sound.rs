//! Functions that meet the rules of the format, whatever their nesting.
use vstd::prelude::*;
use crate::format::function;
use crate::model::{AddressRange, CallSiteView, FileView, FunctionView, InlineView, LineEntry};
use crate::normalize;
use crate::validation;
use crate::writer::finalize;
use crate::writer::finalize::FunctionSetPolicy;
use crate::writer::ordering;

verus! {

/// Whether a line row lies in its function and is of a known file.
pub open spec fn sound_row(row: LineEntry, range: AddressRange, file_count: nat) -> bool {
    &&& row.address >= range.start
    &&& range.spec_size() != 0 ==> row.address < range.end
    &&& row.file.0 < file_count
}

/// Whether an inline tree meets the rules below ranges of its parent.
pub open spec fn sound_inline(
    node: InlineView,
    parents: Seq<AddressRange>,
    file_count: nat,
) -> bool
    decreases node,
{
    &&& node.ranges.len() > 0
    &&& forall|i: int|
        0 <= i < node.ranges.len() ==> validation::range_fits(#[trigger] node.ranges[i], parents)
    &&& node.call_file.0 < file_count
    &&& forall|i: int|
        0 <= i < node.children.len() ==> sound_inline(
            #[trigger] node.children[i],
            node.ranges,
            file_count,
        )
}

/// Whether a function meets the rules, where it is merged into a function of
/// the range `parent`.
pub open spec fn sound(
    function: FunctionView,
    file_count: nat,
    parent: Option<AddressRange>,
) -> bool
    decreases function,
{
    &&& function.name.len() > 0
    &&& function.range.start <= function.range.end
    &&& function.range.end - function.range.start <= u32::MAX
    &&& parent is Some ==> function.range == parent->0
    &&& forall|i: int|
        0 <= i < function.lines.len() ==> sound_row(
            #[trigger] function.lines[i],
            function.range,
            file_count,
        )
    &&& function.inline is Some ==> sound_inline(
        function.inline->0,
        seq![function.range],
        file_count,
    )
    &&& !validation::site_outside(function)
    &&& forall|i: int|
        0 <= i < function.merged.len() ==> sound(
            #[trigger] function.merged[i],
            file_count,
            Some(function.range),
        )
}

/// Whether every function of a list meets the rules.
pub open spec fn all_sound(functions: Seq<FunctionView>, file_count: nat) -> bool {
    forall|i: int| 0 <= i < functions.len() ==> sound(#[trigger] functions[i], file_count, None)
}

/// Whether a string can be read back: it holds no NUL.
pub open spec fn is_clean(string: Seq<u8>) -> bool {
    !string.contains(0u8)
}

/// Whether every name of an inline tree can be read back.
pub open spec fn clean_inline(node: InlineView) -> bool
    decreases node,
{
    &&& is_clean(node.name)
    &&& forall|i: int| 0 <= i < node.children.len() ==> clean_inline(#[trigger] node.children[i])
}

/// Whether every pattern of a call site can be read back.
pub open spec fn clean_site(site: CallSiteView) -> bool {
    forall|i: int| 0 <= i < site.match_regex.len() ==> is_clean(#[trigger] site.match_regex[i])
}

/// Whether every string of a function can be read back.
pub open spec fn clean(function: FunctionView) -> bool
    decreases function,
{
    &&& is_clean(function.name)
    &&& function.inline is Some ==> clean_inline(function.inline->0)
    &&& forall|i: int|
        0 <= i < function.call_sites.len() ==> clean_site(#[trigger] function.call_sites[i])
    &&& forall|i: int| 0 <= i < function.merged.len() ==> clean(#[trigger] function.merged[i])
}

/// Whether every string of the functions can be read back.
pub open spec fn all_clean(functions: Seq<FunctionView>) -> bool {
    forall|i: int| 0 <= i < functions.len() ==> clean(#[trigger] functions[i])
}

/// Whether the names of the files can be read back.
pub open spec fn files_clean(files: Seq<FileView>) -> bool {
    forall|i: int|
        0 <= i < files.len() ==> is_clean((#[trigger] files[i]).directory) && is_clean(
            files[i].basename,
        )
}

/// Length of a string up to its first zero byte, where none stands before `i`.
pub open spec fn length_from(string: Seq<u8>, i: int) -> int
    decreases string.len() - i,
{
    if i >= string.len() || string[i] == 0 {
        i
    } else {
        length_from(string, i + 1)
    }
}

/// What is read of a string: it ends at its first zero byte.
pub open spec fn cut(string: Seq<u8>) -> Seq<u8> {
    string.subrange(0, length_from(string, 0))
}

/// What is read of strings.
pub open spec fn cut_strings(strings: Seq<Seq<u8>>) -> Seq<Seq<u8>> {
    Seq::new(strings.len(), |i: int| cut(strings[i]))
}

/// What is read of a call site.
pub open spec fn cut_site(site: CallSiteView) -> CallSiteView {
    CallSiteView { match_regex: cut_strings(site.match_regex), ..site }
}

/// What is read of call sites.
pub open spec fn cut_sites(sites: Seq<CallSiteView>) -> Seq<CallSiteView> {
    Seq::new(sites.len(), |i: int| cut_site(sites[i]))
}

/// What is read of an inline tree.
pub open spec fn cut_inline(node: InlineView) -> InlineView
    decreases node,
{
    InlineView {
        name: cut(node.name),
        children: Seq::new(
            node.children.len(),
            |i: int|
                if 0 <= i < node.children.len() {
                    cut_inline(node.children[i])
                } else {
                    arbitrary()
                },
        ),
        ..node
    }
}

/// What is read of inline trees.
pub open spec fn cut_inlines(nodes: Seq<InlineView>) -> Seq<InlineView> {
    Seq::new(nodes.len(), |i: int| cut_inline(nodes[i]))
}

/// What is read of a function.
pub open spec fn cut_function(function: FunctionView) -> FunctionView
    decreases function,
{
    FunctionView {
        name: cut(function.name),
        inline: match function.inline {
            None => None,
            Some(node) => Some(cut_inline(node)),
        },
        call_sites: cut_sites(function.call_sites),
        merged: Seq::new(
            function.merged.len(),
            |i: int|
                if 0 <= i < function.merged.len() {
                    cut_function(function.merged[i])
                } else {
                    arbitrary()
                },
        ),
        ..function
    }
}

/// What is read of functions.
pub open spec fn cut_functions(functions: Seq<FunctionView>) -> Seq<FunctionView> {
    Seq::new(functions.len(), |i: int| cut_function(functions[i]))
}

/// What is read of a file.
pub open spec fn cut_file(file: FileView) -> FileView {
    FileView { directory: cut(file.directory), basename: cut(file.basename) }
}

/// What is read of files.
pub open spec fn cut_files(files: Seq<FileView>) -> Seq<FileView> {
    Seq::new(files.len(), |i: int| cut_file(files[i]))
}

/// What is read of an inline tree, one level at a time.
pub proof fn lemma_cut_inline(node: InlineView)
    ensures
        cut_inline(node) == (InlineView {
            name: cut(node.name),
            children: cut_inlines(node.children),
            ..node
        }),
{
    assert(cut_inline(node).children =~= cut_inlines(node.children));
}

/// What is read of a function, one level at a time.
pub proof fn lemma_cut_function(function: FunctionView)
    ensures
        cut_function(function) == (FunctionView {
            name: cut(function.name),
            inline: match function.inline {
                None => None,
                Some(node) => Some(cut_inline(node)),
            },
            call_sites: cut_sites(function.call_sites),
            merged: cut_functions(function.merged),
            ..function
        }),
{
    assert(cut_function(function).merged =~= cut_functions(function.merged));
}

/// Where a string is cut, it ends or holds a zero byte, and none stands before.
pub proof fn lemma_length_from(string: Seq<u8>, i: int)
    requires
        0 <= i <= string.len(),
    ensures
        i <= length_from(string, i) <= string.len(),
        length_from(string, i) < string.len() ==> string[length_from(string, i)] == 0,
        forall|k: int| i <= k < length_from(string, i) ==> string[k] != 0,
    decreases string.len() - i,
{
    if i < string.len() && string[i] != 0 {
        lemma_length_from(string, i + 1);
    }
}

/// A string without a zero byte is read as it stands.
pub proof fn lemma_clean_stays(string: Seq<u8>)
    requires
        is_clean(string),
    ensures
        cut(string) == string,
{
    lemma_length_from(string, 0);
    let end = length_from(string, 0);
    if end < string.len() {
        assert(string.contains(string[end]));
    }
    assert(cut(string) =~= string);
}

proof fn lemma_clean_inline_stays(node: InlineView)
    requires
        clean_inline(node),
    ensures
        cut_inline(node) == node,
    decreases node,
{
    lemma_cut_inline(node);
    lemma_clean_stays(node.name);
    assert forall|i: int| 0 <= i < node.children.len() implies cut_inlines(node.children)[i]
        == node.children[i] by {
        lemma_clean_inline_stays(node.children[i]);
    }
    assert(cut_inlines(node.children) =~= node.children);
}

/// A function whose strings hold no zero byte is read as it stands.
pub proof fn lemma_clean_function_stays(function: FunctionView)
    requires
        clean(function),
    ensures
        cut_function(function) == function,
    decreases function,
{
    lemma_cut_function(function);
    lemma_clean_stays(function.name);
    if let Some(node) = function.inline {
        lemma_clean_inline_stays(node);
    }
    assert forall|i: int| 0 <= i < function.call_sites.len() implies cut_sites(
        function.call_sites,
    )[i] == function.call_sites[i] by {
        let site = function.call_sites[i];
        assert(clean_site(site));
        assert forall|k: int| 0 <= k < site.match_regex.len() implies cut_strings(
            site.match_regex,
        )[k] == site.match_regex[k] by {
            lemma_clean_stays(site.match_regex[k]);
        }
        assert(cut_strings(site.match_regex) =~= site.match_regex);
    }
    assert(cut_sites(function.call_sites) =~= function.call_sites);
    assert forall|i: int| 0 <= i < function.merged.len() implies cut_functions(function.merged)[i]
        == function.merged[i] by {
        lemma_clean_function_stays(function.merged[i]);
    }
    assert(cut_functions(function.merged) =~= function.merged);
}

/// Functions whose strings hold no zero byte are read as they stand.
pub proof fn lemma_clean_functions_stay(functions: Seq<FunctionView>)
    requires
        all_clean(functions),
    ensures
        cut_functions(functions) == functions,
{
    assert forall|i: int| 0 <= i < functions.len() implies cut_functions(functions)[i]
        == functions[i] by {
        lemma_clean_function_stays(functions[i]);
    }
    assert(cut_functions(functions) =~= functions);
}

/// Files whose names hold no zero byte are read as they stand.
pub proof fn lemma_clean_files_stay(files: Seq<FileView>)
    requires
        files_clean(files),
    ensures
        cut_files(files) == files,
{
    assert forall|i: int| 0 <= i < files.len() implies cut_files(files)[i] == files[i] by {
        assert(is_clean(files[i].directory) && is_clean(files[i].basename));
        lemma_clean_stays(files[i].directory);
        lemma_clean_stays(files[i].basename);
    }
    assert(cut_files(files) =~= files);
}

proof fn lemma_lines_sound(
    lines: Seq<LineEntry>,
    i: int,
    range: AddressRange,
    file_count: nat,
)
    requires
        0 <= i,
        validation::lines_error(lines, i, range, Some(file_count)) is None,
    ensures
        forall|k: int| i <= k < lines.len() ==> sound_row(#[trigger] lines[k], range, file_count),
    decreases lines.len() - i,
{
    if i < lines.len() {
        lemma_lines_sound(lines, i + 1, range, file_count);
    }
}

proof fn lemma_ranges_fit(
    ranges: Seq<AddressRange>,
    i: int,
    parents: Seq<AddressRange>,
    previous: Option<u64>,
)
    requires
        0 <= i,
        validation::ranges_error(ranges, i, parents, previous) is None,
    ensures
        forall|k: int|
            i <= k < ranges.len() ==> validation::range_fits(#[trigger] ranges[k], parents),
    decreases ranges.len() - i,
{
    if i < ranges.len() {
        lemma_ranges_fit(ranges, i + 1, parents, Some(ranges[i].end));
    }
}

proof fn lemma_inline_sound(
    node: InlineView,
    parents: Seq<AddressRange>,
    file_count: nat,
    depth: nat,
)
    requires
        validation::inline_error(node, parents, Some(file_count), depth) is None,
    ensures
        sound_inline(node, parents, file_count),
    decreases node, 0int,
{
    lemma_ranges_fit(node.ranges, 0, parents, None);
    lemma_inlines_sound(node.children, 0, node.ranges, file_count, depth + 1);
}

proof fn lemma_inlines_sound(
    nodes: Seq<InlineView>,
    i: int,
    parents: Seq<AddressRange>,
    file_count: nat,
    depth: nat,
)
    requires
        0 <= i,
        validation::inline_list_error(nodes, i, parents, Some(file_count), depth) is None,
    ensures
        forall|k: int|
            i <= k < nodes.len() ==> sound_inline(#[trigger] nodes[k], parents, file_count),
    decreases nodes, nodes.len() - i,
{
    if i < nodes.len() {
        lemma_inline_sound(nodes[i], parents, file_count, depth);
        lemma_inlines_sound(nodes, i + 1, parents, file_count, depth);
    }
}

/// A function that validation accepts meets the rules.
pub proof fn lemma_valid_is_sound(
    function: FunctionView,
    file_count: nat,
    parent: Option<AddressRange>,
    depth: nat,
)
    requires
        validation::function_error(function, Some(file_count), parent, depth) is None,
    ensures
        sound(function, file_count, parent),
    decreases function, 0int,
{
    lemma_lines_sound(function.lines, 0, function.range, file_count);
    if let Some(node) = function.inline {
        lemma_inline_sound(node, seq![function.range], file_count, 0);
    }
    lemma_valid_are_sound(function.merged, 0, file_count, Some(function.range), depth + 1);
}

/// Functions that validation accepts meet the rules.
pub proof fn lemma_valid_are_sound(
    functions: Seq<FunctionView>,
    i: int,
    file_count: nat,
    parent: Option<AddressRange>,
    depth: nat,
)
    requires
        0 <= i,
        validation::functions_error(functions, i, Some(file_count), parent, depth) is None,
    ensures
        forall|k: int|
            i <= k < functions.len() ==> sound(#[trigger] functions[k], file_count, parent),
    decreases functions, functions.len() - i,
{
    if i < functions.len() {
        lemma_valid_is_sound(functions[i], file_count, parent, depth);
        lemma_valid_are_sound(functions, i + 1, file_count, parent, depth);
    }
}

/// Compacting rows keeps the rules.
proof fn lemma_compacted_sound(function: FunctionView, file_count: nat, parent: Option<AddressRange>)
    requires
        sound(function, file_count, parent),
    ensures
        sound(normalize::function_compacted(function), file_count, parent),
    decreases function,
{
    let result = normalize::function_compacted(function);
    normalize::lemma_function_compacted(function);
    normalize::law_compaction(function.lines);
    assert forall|i: int| 0 <= i < result.lines.len() implies sound_row(
        #[trigger] result.lines[i],
        function.range,
        file_count,
    ) by {
        assert(function.lines.contains(result.lines[i]));
        let k = choose|k: int|
            0 <= k < function.lines.len() && function.lines[k] == result.lines[i];
        assert(sound_row(function.lines[k], function.range, file_count));
    }
    assert forall|i: int| 0 <= i < result.merged.len() implies sound(
        #[trigger] result.merged[i],
        file_count,
        Some(function.range),
    ) by {
        lemma_compacted_sound(function.merged[i], file_count, Some(function.range));
    }
    assert(!validation::site_outside(result)) by {
        if validation::site_outside(result) {
            let i = choose|i: int|
                0 <= i < result.call_sites.len() && (#[trigger] result.call_sites[i]).return_offset
                    >= result.range.spec_size();
            assert(function.call_sites[i].return_offset >= function.range.spec_size());
        }
    }
}

/// Merging a function into one that shares its range keeps the rules.
proof fn lemma_merge_sound(functions: Seq<FunctionView>, file_count: nat)
    requires
        all_sound(functions, file_count),
    ensures
        all_sound(finalize::merged_functions(functions), file_count),
    decreases functions.len(),
{
    if functions.len() > 0 {
        let rest = functions.drop_last();
        let function = functions.last();
        assert(all_sound(rest, file_count)) by {
            assert forall|i: int| 0 <= i < rest.len() implies sound(
                #[trigger] rest[i],
                file_count,
                None,
            ) by {
                assert(sound(functions[i], file_count, None));
            }
        }
        lemma_merge_sound(rest, file_count);
        let done = finalize::merged_functions(rest);
        assert(sound(functions[functions.len() - 1], file_count, None));
        if done.len() > 0 && done.last().range == function.range {
            let parent = done.last();
            assert(sound(done[done.len() - 1], file_count, None));
            let grown = FunctionView { merged: parent.merged.push(function), ..parent };
            assert(sound(function, file_count, Some(parent.range)));
            assert forall|i: int| 0 <= i < grown.merged.len() implies sound(
                #[trigger] grown.merged[i],
                file_count,
                Some(grown.range),
            ) by {
                if i < parent.merged.len() {
                    assert(sound(parent.merged[i], file_count, Some(parent.range)));
                }
            }
            lemma_same_sites(parent, grown);
            assert(sound(grown, file_count, None));
        }
        let result = finalize::merged_functions(functions);
        assert forall|i: int| 0 <= i < result.len() implies sound(
            #[trigger] result[i],
            file_count,
            None,
        ) by {
            if i < done.len() {
                assert(sound(done[i], file_count, None));
            }
        }
    }
}

proof fn lemma_same_sites(a: FunctionView, b: FunctionView)
    requires
        a.range == b.range,
        a.call_sites == b.call_sites,
        !validation::site_outside(a),
    ensures
        !validation::site_outside(b),
{
    if validation::site_outside(b) {
        let i = choose|i: int|
            0 <= i < b.call_sites.len() && (#[trigger] b.call_sites[i]).return_offset
                >= b.range.spec_size();
        assert(a.call_sites[i].return_offset >= a.range.spec_size());
    }
}

/// Keeping one of the functions that share a range keeps the rules.
proof fn lemma_deduplicated_sound(functions: Seq<FunctionView>, file_count: nat)
    requires
        all_sound(functions, file_count),
    ensures
        all_sound(finalize::deduplicated(functions), file_count),
    decreases functions.len(),
{
    if functions.len() > 0 {
        let rest = functions.drop_last();
        let function = functions.last();
        assert(all_sound(rest, file_count)) by {
            assert forall|i: int| 0 <= i < rest.len() implies sound(
                #[trigger] rest[i],
                file_count,
                None,
            ) by {
                assert(sound(functions[i], file_count, None));
            }
        }
        lemma_deduplicated_sound(rest, file_count);
        let done = finalize::deduplicated(rest);
        assert(sound(functions[functions.len() - 1], file_count, None));
        if done.len() > 0 {
            let previous = done.last();
            assert(sound(done[done.len() - 1], file_count, None));
            let renamed = FunctionView { name: previous.name, ..function };
            lemma_same_sites(function, renamed);
            assert(sound(renamed, file_count, None));
        }
        let result = finalize::deduplicated(functions);
        assert forall|i: int| 0 <= i < result.len() implies sound(
            #[trigger] result[i],
            file_count,
            None,
        ) by {
            if i < done.len() {
                assert(sound(done[i], file_count, None));
            }
        }
    }
}

/// A function under a range that keeps its records meets the rules.
proof fn lemma_with_range_sound(
    function: FunctionView,
    file_count: nat,
    range: AddressRange,
    parent: Option<AddressRange>,
)
    requires
        sound(function, file_count, parent),
        range.start <= range.end,
        range.end - range.start <= u32::MAX,
        finalize::keeps_records(function, range),
    ensures
        sound(finalize::with_range(function, range), file_count, Some(range)),
        sound(finalize::with_range(function, range), file_count, None),
    decreases function,
{
    let result = finalize::with_range(function, range);
    finalize::lemma_with_range(function, range);
    assert forall|i: int| 0 <= i < result.lines.len() implies sound_row(
        #[trigger] result.lines[i],
        range,
        file_count,
    ) by {
        assert(sound_row(function.lines[i], function.range, file_count));
    }
    if function.inline is Some {
        let node = function.inline->0;
        assert forall|i: int| 0 <= i < node.ranges.len() implies validation::range_fits(
            #[trigger] node.ranges[i],
            seq![range],
        ) by {
            assert(validation::range_fits(node.ranges[i], seq![function.range]));
            assert(seq![range][0].spec_contains_range(node.ranges[i]));
        }
        assert(sound_inline(node, seq![range], file_count));
    }
    assert(!validation::site_outside(result)) by {
        if validation::site_outside(result) {
            let i = choose|i: int|
                0 <= i < result.call_sites.len() && (#[trigger] result.call_sites[i]).return_offset
                    >= result.range.spec_size();
            assert(function.call_sites[i].return_offset < range.spec_size());
        }
    }
    assert forall|i: int| 0 <= i < result.merged.len() implies sound(
        #[trigger] result.merged[i],
        file_count,
        Some(range),
    ) by {
        lemma_with_range_sound(function.merged[i], file_count, range, Some(function.range));
    }
}

/// The functions that are written meet the rules where the given ones do.
pub proof fn lemma_finalized_sound(
    functions: Seq<FunctionView>,
    file_count: nat,
    ranges: Seq<AddressRange>,
    repair: bool,
    policy: FunctionSetPolicy,
)
    requires
        all_sound(functions, file_count),
    ensures
        all_sound(finalize::finalized(functions, ranges, repair, policy), file_count),
{
    let compacted = normalize::functions_compacted(functions);
    assert forall|i: int| 0 <= i < compacted.len() implies sound(
        #[trigger] compacted[i],
        file_count,
        None,
    ) by {
        lemma_compacted_sound(functions[i], file_count, None);
    }
    let given = finalize::prepared(functions, policy);
    assert forall|i: int| 0 <= i < given.len() implies sound(
        #[trigger] given[i],
        file_count,
        None,
    ) by {
        assert(sound(functions[i], file_count, None));
        assert(sound(compacted[i], file_count, None));
    }
    let ordered = ordering::sorted(given);
    ordering::law_sorted_functions(given);
    assert forall|i: int| 0 <= i < ordered.len() implies sound(
        #[trigger] ordered[i],
        file_count,
        None,
    ) by {
        assert(given.contains(ordered[i]));
        let k = choose|k: int| 0 <= k < given.len() && given[k] == ordered[i];
        assert(sound(given[k], file_count, None));
    }
    lemma_merge_sound(ordered, file_count);
    lemma_deduplicated_sound(ordered, file_count);
    let chosen = match policy {
        FunctionSetPolicy::MergeEqualRanges => finalize::merged_functions(ordered),
        FunctionSetPolicy::Deduplicate => finalize::deduplicated(ordered),
        FunctionSetPolicy::Preserve => ordered,
    };
    if repair && chosen.len() > 0 && chosen.last().range.spec_size() == 0 {
        let last = chosen.last();
        let range = finalize::repaired_range(ranges, last.range.start);
        finalize::lemma_enclosing_end(ranges, 0, last.range.start);
        assert(sound(chosen[chosen.len() - 1], file_count, None));
        if finalize::keeps_records(last, range) {
            lemma_with_range_sound(last, file_count, range, None);
        }
        let result = finalize::repaired(chosen, ranges);
        assert forall|i: int| 0 <= i < result.len() implies sound(
            #[trigger] result[i],
            file_count,
            None,
        ) by {
            if i < chosen.len() - 1 {
                assert(sound(chosen[i], file_count, None));
            }
        }
    }
}

proof fn lemma_compacted_clean(function: FunctionView)
    requires
        clean(function),
    ensures
        clean(normalize::function_compacted(function)),
    decreases function,
{
    let result = normalize::function_compacted(function);
    normalize::lemma_function_compacted(function);
    assert forall|i: int| 0 <= i < result.merged.len() implies clean(
        #[trigger] result.merged[i],
    ) by {
        lemma_compacted_clean(function.merged[i]);
    }
}

proof fn lemma_merge_clean(functions: Seq<FunctionView>)
    requires
        all_clean(functions),
    ensures
        all_clean(finalize::merged_functions(functions)),
    decreases functions.len(),
{
    if functions.len() > 0 {
        let rest = functions.drop_last();
        let function = functions.last();
        assert(all_clean(rest)) by {
            assert forall|i: int| 0 <= i < rest.len() implies clean(#[trigger] rest[i]) by {
                assert(clean(functions[i]));
            }
        }
        lemma_merge_clean(rest);
        let done = finalize::merged_functions(rest);
        assert(clean(functions[functions.len() - 1]));
        if done.len() > 0 {
            let parent = done.last();
            assert(clean(done[done.len() - 1]));
            let grown = FunctionView { merged: parent.merged.push(function), ..parent };
            assert(clean(grown));
        }
        let result = finalize::merged_functions(functions);
        assert forall|i: int| 0 <= i < result.len() implies clean(#[trigger] result[i]) by {
            if i < done.len() {
                assert(clean(done[i]));
            }
        }
    }
}

proof fn lemma_deduplicated_clean(functions: Seq<FunctionView>)
    requires
        all_clean(functions),
    ensures
        all_clean(finalize::deduplicated(functions)),
    decreases functions.len(),
{
    if functions.len() > 0 {
        let rest = functions.drop_last();
        let function = functions.last();
        assert(all_clean(rest)) by {
            assert forall|i: int| 0 <= i < rest.len() implies clean(#[trigger] rest[i]) by {
                assert(clean(functions[i]));
            }
        }
        lemma_deduplicated_clean(rest);
        let done = finalize::deduplicated(rest);
        assert(clean(functions[functions.len() - 1]));
        if done.len() > 0 {
            assert(clean(done[done.len() - 1]));
            assert(clean(FunctionView { name: done.last().name, ..function }));
        }
        let result = finalize::deduplicated(functions);
        assert forall|i: int| 0 <= i < result.len() implies clean(#[trigger] result[i]) by {
            if i < done.len() {
                assert(clean(done[i]));
            }
        }
    }
}

proof fn lemma_with_range_clean(function: FunctionView, range: AddressRange)
    requires
        clean(function),
    ensures
        clean(finalize::with_range(function, range)),
    decreases function,
{
    let result = finalize::with_range(function, range);
    finalize::lemma_with_range(function, range);
    assert forall|i: int| 0 <= i < result.merged.len() implies clean(
        #[trigger] result.merged[i],
    ) by {
        lemma_with_range_clean(function.merged[i], range);
    }
}

/// The strings of the functions that are written can be read back where those
/// of the given ones can.
pub proof fn lemma_finalized_clean(
    functions: Seq<FunctionView>,
    ranges: Seq<AddressRange>,
    repair: bool,
    policy: FunctionSetPolicy,
)
    requires
        all_clean(functions),
    ensures
        all_clean(finalize::finalized(functions, ranges, repair, policy)),
{
    let compacted = normalize::functions_compacted(functions);
    assert forall|i: int| 0 <= i < compacted.len() implies clean(#[trigger] compacted[i]) by {
        lemma_compacted_clean(functions[i]);
    }
    let given = finalize::prepared(functions, policy);
    assert forall|i: int| 0 <= i < given.len() implies clean(#[trigger] given[i]) by {
        assert(clean(functions[i]));
        assert(clean(compacted[i]));
    }
    let ordered = ordering::sorted(given);
    ordering::law_sorted_functions(given);
    assert forall|i: int| 0 <= i < ordered.len() implies clean(#[trigger] ordered[i]) by {
        assert(given.contains(ordered[i]));
        let k = choose|k: int| 0 <= k < given.len() && given[k] == ordered[i];
        assert(clean(given[k]));
    }
    lemma_merge_clean(ordered);
    lemma_deduplicated_clean(ordered);
    let chosen = match policy {
        FunctionSetPolicy::MergeEqualRanges => finalize::merged_functions(ordered),
        FunctionSetPolicy::Deduplicate => finalize::deduplicated(ordered),
        FunctionSetPolicy::Preserve => ordered,
    };
    if repair && chosen.len() > 0 {
        assert(clean(chosen[chosen.len() - 1]));
        lemma_with_range_clean(
            chosen.last(),
            finalize::repaired_range(ranges, chosen.last().range.start),
        );
        let result = finalize::repaired(chosen, ranges);
        assert forall|i: int| 0 <= i < result.len() implies clean(#[trigger] result[i]) by {
            if i < chosen.len() - 1 {
                assert(clean(chosen[i]));
            }
        }
    }
}

} // verus!
