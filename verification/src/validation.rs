//! Rules that a function has to meet before it is written.
use vstd::prelude::*;
use crate::error::Error;
use crate::format::function;
use crate::format::function::{check_inline_depth, check_merged_depth, is_covered};
use crate::model;
use crate::model::{
    AddressRange, FileEntry, FileIndex, FileView, Function, FunctionView, InlineNode, InlineView,
    LineEntry,
};

verus! {

/// Whether a file index lies behind the last file, where the files are known.
pub open spec fn missing_file(index: FileIndex, file_count: Option<nat>) -> bool {
    match file_count {
        Some(count) => index.0 >= count,
        None => false,
    }
}

/// The error of the first line row from index `i` on that breaks a rule.
pub open spec fn lines_error(
    lines: Seq<LineEntry>,
    i: int,
    range: AddressRange,
    file_count: Option<nat>,
) -> Option<Error>
    decreases lines.len() - i,
{
    if i >= lines.len() {
        None
    } else if lines[i].address < range.start || (range.spec_size() != 0 && lines[i].address
        >= range.end) {
        Some(Error::InvalidModel("line address is outside its function"))
    } else if missing_file(lines[i].file, file_count) {
        Some(Error::InvalidModel("line references a missing file"))
    } else {
        lines_error(lines, i + 1, range, file_count)
    }
}

/// Whether a range can stand below one of the parents.
pub open spec fn range_fits(range: AddressRange, parents: Seq<AddressRange>) -> bool {
    range.start < range.end && function::covered(range, parents)
}

/// The error of the first inline range from index `i` on that breaks a rule,
/// behind a range that ends at `previous`.
pub open spec fn ranges_error(
    ranges: Seq<AddressRange>,
    i: int,
    parents: Seq<AddressRange>,
    previous: Option<u64>,
) -> Option<Error>
    decreases ranges.len() - i,
{
    if i >= ranges.len() {
        None
    } else if !range_fits(ranges[i], parents) {
        Some(Error::InvalidModel("inline range is empty, reversed, or outside its parent"))
    } else if previous is Some && ranges[i].start < previous->0 {
        Some(Error::InvalidModel("inline ranges overlap or are not sorted"))
    } else {
        ranges_error(ranges, i + 1, parents, Some(ranges[i].end))
    }
}

/// The first rule that an inline tree breaks, if it breaks one.
pub open spec fn inline_error(
    node: InlineView,
    parents: Seq<AddressRange>,
    file_count: Option<nat>,
    depth: nat,
) -> Option<Error>
    decreases node, 0int,
{
    match function::inline_depth_error(depth) {
        Some(error) => Some(error),
        None => if node.ranges.len() == 0 {
            Some(Error::InvalidModel("inline node must contain a range"))
        } else {
            match ranges_error(node.ranges, 0, parents, None) {
                Some(error) => Some(error),
                None => if missing_file(node.call_file, file_count) {
                    Some(Error::InvalidModel("inline call site references a missing file"))
                } else {
                    inline_list_error(node.children, 0, node.ranges, file_count, depth + 1)
                },
            }
        },
    }
}

/// The first rule that the inline trees from index `i` on break, if they break
/// one.
pub open spec fn inline_list_error(
    nodes: Seq<InlineView>,
    i: int,
    parents: Seq<AddressRange>,
    file_count: Option<nat>,
    depth: nat,
) -> Option<Error>
    decreases nodes, nodes.len() - i,
    when 0 <= i
{
    if i >= nodes.len() {
        None
    } else {
        match inline_error(nodes[i], parents, file_count, depth) {
            Some(error) => Some(error),
            None => inline_list_error(nodes, i + 1, parents, file_count, depth),
        }
    }
}

/// Whether a call site returns outside its function.
pub open spec fn site_outside(function: FunctionView) -> bool {
    function.range.spec_size() != 0 && exists|i: int|
        0 <= i < function.call_sites.len() && (#[trigger] function.call_sites[i]).return_offset
            >= function.range.spec_size()
}

/// The first rule that a function breaks, if it breaks one. `parent` is the
/// range of the function that it is merged into.
pub open spec fn function_error(
    function: FunctionView,
    file_count: Option<nat>,
    parent: Option<AddressRange>,
    depth: nat,
) -> Option<Error>
    decreases function, 0int,
{
    match function::merged_depth_error(depth) {
        Some(error) => Some(error),
        None => if function.name.len() == 0 {
            Some(Error::InvalidModel("function name must not be empty"))
        } else if function.range.end < function.range.start {
            Some(Error::InvalidModel("function range end precedes its start"))
        } else if function.range.end - function.range.start > u32::MAX {
            Some(
                Error::Limit {
                    context: "function size",
                    value: (function.range.end - function.range.start) as u64,
                    limit: u32::MAX as u64,
                },
            )
        } else if parent is Some && function.range != parent->0 {
            Some(Error::InvalidModel("merged function range differs from its parent"))
        } else {
            match lines_error(function.lines, 0, function.range, file_count) {
                Some(error) => Some(error),
                None => {
                    let inline = match function.inline {
                        Some(node) => inline_error(node, seq![function.range], file_count, 0),
                        None => None,
                    };
                    match inline {
                        Some(error) => Some(error),
                        None => if site_outside(function) {
                            Some(
                                Error::InvalidModel(
                                    "call-site return offset is outside its function",
                                ),
                            )
                        } else {
                            functions_error(
                                function.merged,
                                0,
                                file_count,
                                Some(function.range),
                                depth + 1,
                            )
                        },
                    }
                },
            }
        },
    }
}

/// The first rule that the functions from index `i` on break, if they break
/// one.
pub open spec fn functions_error(
    functions: Seq<FunctionView>,
    i: int,
    file_count: Option<nat>,
    parent: Option<AddressRange>,
    depth: nat,
) -> Option<Error>
    decreases functions, functions.len() - i,
    when 0 <= i
{
    if i >= functions.len() {
        None
    } else {
        match function_error(functions[i], file_count, parent, depth) {
            Some(error) => Some(error),
            None => functions_error(functions, i + 1, file_count, parent, depth),
        }
    }
}

/// The error of a file table, if it breaks a rule.
pub open spec fn file_table_error(files: Seq<FileView>) -> Option<Error> {
    if files.len() == 0 || files[0].directory.len() != 0 || files[0].basename.len() != 0 {
        Some(Error::InvalidModel("file-table index zero must be empty"))
    } else {
        None
    }
}

/// What a check returns.
pub open spec fn outcome(error: Option<Error>) -> Result<(), Error> {
    match error {
        Some(error) => Err(error),
        None => Ok(()),
    }
}

/// The number of files, where it is known.
pub open spec fn count_view(file_count: Option<usize>) -> Option<nat> {
    match file_count {
        Some(count) => Some(count as nat),
        None => None,
    }
}

/// Checks that the reserved entry of a file table is empty.
pub fn validate_file_table(files: &Vec<FileEntry>) -> (result: Result<(), Error>)
    ensures
        result == outcome(file_table_error(model::file_views(files@))),
{
    if files.len() == 0 || files[0].directory.len() != 0 || files[0].basename.len() != 0 {
        return Err(Error::InvalidModel("file-table index zero must be empty"));
    }
    Ok(())
}

fn file_missing(index: FileIndex, file_count: Option<usize>) -> (missing: bool)
    ensures
        missing == missing_file(index, count_view(file_count)),
{
    match file_count {
        Some(count) => index.get() as usize >= count,
        None => false,
    }
}

fn validate_lines(lines: &Vec<LineEntry>, range: AddressRange, file_count: Option<usize>) -> (result:
    Result<(), Error>)
    ensures
        result == outcome(lines_error(lines@, 0, range, count_view(file_count))),
{
    let mut i: usize = 0;
    while i < lines.len()
        invariant
            i <= lines@.len(),
            lines_error(lines@, 0, range, count_view(file_count)) == lines_error(
                lines@,
                i as int,
                range,
                count_view(file_count),
            ),
        decreases lines@.len() - i,
    {
        let line: LineEntry = lines[i];
        if line.address < range.start || (!range.is_empty() && line.address >= range.end) {
            return Err(Error::InvalidModel("line address is outside its function"));
        }
        if file_missing(line.file, file_count) {
            return Err(Error::InvalidModel("line references a missing file"));
        }
        i = i + 1;
    }
    Ok(())
}

fn validate_ranges(ranges: &Vec<AddressRange>, parents: &Vec<AddressRange>) -> (result: Result<
    (),
    Error,
>)
    ensures
        result == outcome(ranges_error(ranges@, 0, parents@, None)),
{
    let mut previous: Option<u64> = None;
    let mut i: usize = 0;
    while i < ranges.len()
        invariant
            i <= ranges@.len(),
            ranges_error(ranges@, 0, parents@, None) == ranges_error(
                ranges@,
                i as int,
                parents@,
                previous,
            ),
        decreases ranges@.len() - i,
    {
        let range: AddressRange = ranges[i];
        if !range.is_valid() || range.is_empty() || !is_covered(range, parents) {
            return Err(
                Error::InvalidModel("inline range is empty, reversed, or outside its parent"),
            );
        }
        if let Some(end) = previous {
            if range.start < end {
                return Err(Error::InvalidModel("inline ranges overlap or are not sorted"));
            }
        }
        previous = Some(range.end);
        i = i + 1;
    }
    Ok(())
}

fn validate_inline(
    node: &InlineNode,
    parents: &Vec<AddressRange>,
    file_count: Option<usize>,
    depth: usize,
) -> (result: Result<(), Error>)
    ensures
        result == outcome(inline_error(node@, parents@, count_view(file_count), depth as nat)),
    decreases node,
{
    proof {
        model::lemma_inline_view(*node);
    }
    check_inline_depth(depth)?;
    if node.ranges.len() == 0 {
        return Err(Error::InvalidModel("inline node must contain a range"));
    }
    validate_ranges(&node.ranges, parents)?;
    if file_missing(node.call_file, file_count) {
        return Err(Error::InvalidModel("inline call site references a missing file"));
    }
    let ghost views = model::inline_views(node.children@);
    let mut i: usize = 0;
    while i < node.children.len()
        invariant
            i <= node.children@.len(),
            depth <= function::MAX_INLINE_DEPTH,
            views == model::inline_views(node.children@),
            inline_error(node@, parents@, count_view(file_count), depth as nat)
                == inline_list_error(
                views,
                i as int,
                node.ranges@,
                count_view(file_count),
                (depth + 1) as nat,
            ),
        decreases node.children@.len() - i,
    {
        assert(decreases_to!(node => node.children@[i as int]));
        assert(views[i as int] == node.children@[i as int]@);
        validate_inline(&node.children[i], &node.ranges, file_count, depth + 1)?;
        i = i + 1;
    }
    Ok(())
}

fn has_site_outside(function: &Function) -> (outside: bool)
    requires
        function.range.start <= function.range.end,
    ensures
        outside == site_outside(function@),
{
    proof {
        model::lemma_function_view(*function);
    }
    let size: u64 = function.range.size();
    let mut i: usize = 0;
    while i < function.call_sites.len()
        invariant
            i <= function.call_sites@.len(),
            function.range.start <= function.range.end,
            size == function.range.spec_size(),
            function@.range == function.range,
            function@.call_sites == model::call_site_views(function.call_sites@),
            forall|k: int|
                0 <= k < i ==> !(size != 0 && (#[trigger] function@.call_sites[k]).return_offset
                    >= size),
        decreases function.call_sites@.len() - i,
    {
        assert(function@.call_sites[i as int] == function.call_sites@[i as int]@);
        if size != 0 && function.call_sites[i].return_offset >= size {
            return true;
        }
        i = i + 1;
    }
    false
}

/// Checks a function and everything below it.
pub fn validate_function_tree(
    function: &Function,
    file_count: Option<usize>,
    merged_parent: Option<AddressRange>,
    merged_depth: usize,
) -> (result: Result<(), Error>)
    ensures
        result == outcome(
            function_error(
                function@,
                count_view(file_count),
                merged_parent,
                merged_depth as nat,
            ),
        ),
    decreases function,
{
    proof {
        model::lemma_function_view(*function);
    }
    check_merged_depth(merged_depth)?;
    if function.name.len() == 0 {
        return Err(Error::InvalidModel("function name must not be empty"));
    }
    if !function.range.is_valid() {
        return Err(Error::InvalidModel("function range end precedes its start"));
    }
    if function.range.size() > u32::MAX as u64 {
        return Err(
            Error::Limit {
                context: "function size",
                value: function.range.size(),
                limit: u32::MAX as u64,
            },
        );
    }
    if let Some(parent) = merged_parent {
        if function.range != parent {
            return Err(Error::InvalidModel("merged function range differs from its parent"));
        }
    }
    validate_lines(&function.lines, function.range, file_count)?;
    if let Some(inline) = &function.inline {
        let mut parents: Vec<AddressRange> = Vec::new();
        parents.push(function.range);
        assert(parents@ =~= seq![function.range]);
        validate_inline(inline, &parents, file_count, 0)?;
    }
    if has_site_outside(function) {
        return Err(Error::InvalidModel("call-site return offset is outside its function"));
    }
    let ghost views = model::function_views(function.merged@);
    let mut i: usize = 0;
    while i < function.merged.len()
        invariant
            i <= function.merged@.len(),
            merged_depth <= function::MAX_MERGED_DEPTH,
            views == model::function_views(function.merged@),
            function_error(
                function@,
                count_view(file_count),
                merged_parent,
                merged_depth as nat,
            ) == functions_error(
                views,
                i as int,
                count_view(file_count),
                Some(function.range),
                (merged_depth + 1) as nat,
            ),
        decreases function.merged@.len() - i,
    {
        assert(decreases_to!(function => function.merged@[i as int]));
        assert(views[i as int] == function.merged@[i as int]@);
        validate_function_tree(
            &function.merged[i],
            file_count,
            Some(function.range),
            merged_depth + 1,
        )?;
        i = i + 1;
    }
    Ok(())
}

/// Checks a function before the files are known.
pub fn validate_for_builder(function: &Function) -> (result: Result<(), Error>)
    ensures
        result == outcome(function_error(function@, None, None, 0)),
{
    validate_function_tree(function, None, None, 0)
}

/// Checks a function against the number of files.
pub fn validate_for_writer(function: &Function, file_count: usize) -> (result: Result<(), Error>)
    ensures
        result == outcome(function_error(function@, Some(file_count as nat), None, 0)),
{
    validate_function_tree(function, Some(file_count), None, 0)
}

} // verus!
