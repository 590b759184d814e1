//! Semantic checks of decoded functions and their conversion to owned models.
use vstd::prelude::*;
use crate::error::Error;
use crate::format::function;
use crate::format::function::{
    check_merged_depth, is_covered, EncodedCallSite, EncodedCallSiteView, EncodedFunction,
    EncodedFunctionView, EncodedInlineNode, EncodedInlineView,
};
use crate::model;
use crate::model::{
    copy_bytes, copy_lines, copy_ranges, AddressRange, CallSite, CallSiteFlags, CallSiteView,
    FileIndex, Function, FunctionView, InlineNode, InlineView, LineEntry,
};
use crate::reader::layout::ParsedLayout;
use crate::reader::table;
use crate::reader::table::{file_at, string_at};

verus! {

/// Whether a line row lies outside its function. Rows of a function of unknown
/// size need only not precede it.
pub open spec fn row_outside(row: LineEntry, range: AddressRange) -> bool {
    row.address < range.start || (range.spec_size() != 0 && row.address >= range.end)
}

/// Whether a range is valid, not empty, and lies in one of `parents`.
pub open spec fn inline_range_ok(range: AddressRange, parents: Seq<AddressRange>) -> bool {
    range.start < range.end && function::covered(range, parents)
}

/// Whether every node of an inline tree has ranges, and each of them is valid,
/// not empty, and lies in a range of the node above.
pub open spec fn inline_ranges_ok(node: EncodedInlineView, parents: Seq<AddressRange>) -> bool
    decreases node,
{
    &&& node.ranges.len() > 0
    &&& forall|i: int|
        0 <= i < node.ranges.len() ==> inline_range_ok(#[trigger] node.ranges[i], parents)
    &&& forall|i: int|
        0 <= i < node.children.len() ==> inline_ranges_ok(#[trigger] node.children[i], node.ranges)
}

/// Whether a line row of the function lies outside it.
pub open spec fn has_row_outside(function: EncodedFunctionView) -> bool {
    function.lines matches Some(rows) && exists|i: int|
        0 <= i < rows.len() && row_outside(#[trigger] rows[i], function.range)
}

/// Whether a call site of the function lies outside it.
pub open spec fn has_site_outside(function: EncodedFunctionView) -> bool {
    function.range.spec_size() != 0 && exists|i: int|
        0 <= i < function.call_sites.len() && (#[trigger] function.call_sites[i]).return_offset
            >= function.range.spec_size()
}

/// The error of a function whose records contradict its range, if they do.
pub open spec fn semantics_error(
    function: EncodedFunctionView,
    parent: Option<AddressRange>,
) -> Option<Error> {
    if !function.range.spec_is_valid() {
        Some(Error::InvalidFormat("reversed function range"))
    } else if parent is Some && function.range != parent->0 {
        Some(Error::InvalidFormat("merged function range differs from its parent"))
    } else if has_row_outside(function) {
        Some(Error::InvalidFormat("line address is outside its function"))
    } else if function.inline is Some && !inline_ranges_ok(
        function.inline->0,
        seq![function.range],
    ) {
        Some(Error::InvalidFormat("inline range is empty, reversed, or outside its parent"))
    } else if has_site_outside(function) {
        Some(Error::InvalidFormat("call-site return offset is outside its function"))
    } else {
        None
    }
}

/// The error of the first of the rows from index `i` on whose file does not
/// resolve.
pub open spec fn files_error(
    s: Seq<u8>,
    layout: ParsedLayout,
    rows: Seq<LineEntry>,
    i: int,
) -> Option<Error>
    decreases rows.len() - i,
{
    if i >= rows.len() {
        None
    } else {
        match table::file_of(s, layout, rows[i].file) {
            Err(error) => Some(error),
            Ok(_) => files_error(s, layout, rows, i + 1),
        }
    }
}

/// The line rows of a function, whether it has a line table or not.
pub open spec fn rows_of(lines: Option<Seq<LineEntry>>) -> Seq<LineEntry> {
    match lines {
        Some(rows) => rows,
        None => Seq::empty(),
    }
}

/// The strings at the offsets from index `i` on, behind the strings `done`.
pub open spec fn strings_of(
    s: Seq<u8>,
    layout: ParsedLayout,
    offsets: Seq<u64>,
    i: int,
    done: Seq<Seq<u8>>,
) -> Result<Seq<Seq<u8>>, Error>
    decreases offsets.len() - i,
{
    if i >= offsets.len() {
        Ok(done)
    } else {
        match table::string_of(s, layout.string_table, offsets[i]) {
            Err(error) => Err(error),
            Ok(string) => strings_of(s, layout, offsets, i + 1, done.push(string)),
        }
    }
}

/// The call sites from index `i` on with their patterns, behind the call sites
/// `done`.
pub open spec fn sites_of(
    s: Seq<u8>,
    layout: ParsedLayout,
    sites: Seq<EncodedCallSiteView>,
    i: int,
    done: Seq<CallSiteView>,
) -> Result<Seq<CallSiteView>, Error>
    decreases sites.len() - i,
{
    if i >= sites.len() {
        Ok(done)
    } else {
        match strings_of(s, layout, sites[i].match_regex, 0, Seq::empty()) {
            Err(error) => Err(error),
            Ok(match_regex) => sites_of(
                s,
                layout,
                sites,
                i + 1,
                done.push(
                    CallSiteView {
                        return_offset: sites[i].return_offset,
                        flags: CallSiteFlags(sites[i].flags),
                        match_regex,
                    },
                ),
            ),
        }
    }
}

/// The name of an inline node; a node without a name has an empty one.
pub open spec fn inline_name_of(s: Seq<u8>, layout: ParsedLayout, name: u64) -> Result<
    Seq<u8>,
    Error,
> {
    if name == 0 {
        Ok(Seq::empty())
    } else {
        table::string_of(s, layout.string_table, name)
    }
}

/// An inline tree with its names.
pub open spec fn inline_of(s: Seq<u8>, layout: ParsedLayout, node: EncodedInlineView) -> Result<
    InlineView,
    Error,
>
    decreases node, 0int,
{
    match table::file_of(s, layout, FileIndex(node.call_file)) {
        Err(error) => Err(error),
        Ok(_) => match inline_name_of(s, layout, node.name) {
            Err(error) => Err(error),
            Ok(name) => match inline_list_of(s, layout, node.children, 0, Seq::empty()) {
                Err(error) => Err(error),
                Ok(children) => Ok(
                    InlineView {
                        ranges: node.ranges,
                        name,
                        call_file: FileIndex(node.call_file),
                        call_line: node.call_line,
                        children,
                    },
                ),
            },
        },
    }
}

/// The inline trees from index `i` on with their names, behind the trees
/// `done`.
pub open spec fn inline_list_of(
    s: Seq<u8>,
    layout: ParsedLayout,
    nodes: Seq<EncodedInlineView>,
    i: int,
    done: Seq<InlineView>,
) -> Result<Seq<InlineView>, Error>
    decreases nodes, nodes.len() - i,
    when 0 <= i
{
    if i >= nodes.len() {
        Ok(done)
    } else {
        match inline_of(s, layout, nodes[i]) {
            Err(error) => Err(error),
            Ok(node) => inline_list_of(s, layout, nodes, i + 1, done.push(node)),
        }
    }
}

/// The inline tree of a function with its names, where there is one.
pub open spec fn inline_option_of(
    s: Seq<u8>,
    layout: ParsedLayout,
    node: Option<EncodedInlineView>,
) -> Result<Option<InlineView>, Error> {
    match node {
        None => Ok(None),
        Some(node) => match inline_of(s, layout, node) {
            Err(error) => Err(error),
            Ok(view) => Ok(Some(view)),
        },
    }
}

/// A decoded function with its names, or the first rule that it breaks.
pub open spec fn owned_of(
    s: Seq<u8>,
    layout: ParsedLayout,
    function: EncodedFunctionView,
    parent: Option<AddressRange>,
    depth: nat,
) -> Result<FunctionView, Error>
    decreases function, 0int,
{
    match function::merged_depth_error(depth) {
        Some(error) => Err(error),
        None => match semantics_error(function, parent) {
            Some(error) => Err(error),
            None => match files_error(s, layout, rows_of(function.lines), 0) {
                Some(error) => Err(error),
                None => match owned_list_of(
                    s,
                    layout,
                    function.merged,
                    0,
                    function.range,
                    depth + 1,
                    Seq::empty(),
                ) {
                    Err(error) => Err(error),
                    Ok(merged) => match sites_of(
                        s,
                        layout,
                        function.call_sites,
                        0,
                        Seq::empty(),
                    ) {
                        Err(error) => Err(error),
                        Ok(call_sites) => match table::string_of(
                            s,
                            layout.string_table,
                            function.name,
                        ) {
                            Err(error) => Err(error),
                            Ok(name) => match inline_option_of(s, layout, function.inline) {
                                Err(error) => Err(error),
                                Ok(inline) => Ok(
                                    FunctionView {
                                        range: function.range,
                                        name,
                                        lines: rows_of(function.lines),
                                        inline,
                                        merged,
                                        call_sites,
                                    },
                                ),
                            },
                        },
                    },
                },
            },
        },
    }
}

/// The merged functions from index `i` on with their names, behind the
/// functions `done`.
pub open spec fn owned_list_of(
    s: Seq<u8>,
    layout: ParsedLayout,
    functions: Seq<EncodedFunctionView>,
    i: int,
    parent: AddressRange,
    depth: nat,
    done: Seq<FunctionView>,
) -> Result<Seq<FunctionView>, Error>
    decreases functions, functions.len() - i,
    when 0 <= i
{
    if i >= functions.len() {
        Ok(done)
    } else {
        match owned_of(s, layout, functions[i], Some(parent), depth) {
            Err(error) => Err(error),
            Ok(function) => owned_list_of(
                s,
                layout,
                functions,
                i + 1,
                parent,
                depth,
                done.push(function),
            ),
        }
    }
}

fn inline_ranges_valid(node: &EncodedInlineNode, parents: &Vec<AddressRange>) -> (valid: bool)
    ensures
        valid == inline_ranges_ok(node@, parents@),
    decreases node,
{
    proof {
        function::lemma_encoded_inline_view(*node);
    }
    if node.ranges.len() == 0 {
        return false;
    }
    let mut i: usize = 0;
    while i < node.ranges.len()
        invariant
            i <= node.ranges@.len(),
            node@.ranges == node.ranges@,
            forall|k: int| 0 <= k < i ==> inline_range_ok(#[trigger] node.ranges@[k], parents@),
        decreases node.ranges@.len() - i,
    {
        let range: AddressRange = node.ranges[i];
        if range.start >= range.end || !is_covered(range, parents) {
            assert(!inline_range_ok(node@.ranges[i as int], parents@));
            return false;
        }
        i = i + 1;
    }
    let mut k: usize = 0;
    while k < node.children.len()
        invariant
            k <= node.children@.len(),
            node@.ranges == node.ranges@,
            node@.children == function::encoded_inline_views(node.children@),
            forall|j: int|
                0 <= j < k ==> inline_ranges_ok(#[trigger] node@.children[j], node.ranges@),
        decreases node.children@.len() - k,
    {
        assert(decreases_to!(node => node.children@[k as int]));
        assert(node@.children[k as int] == node.children@[k as int]@);
        if !inline_ranges_valid(&node.children[k], &node.ranges) {
            assert(!inline_ranges_ok(node@.children[k as int], node@.ranges));
            return false;
        }
        k = k + 1;
    }
    true
}

fn validate_semantics(function: &EncodedFunction, parent: Option<AddressRange>) -> (result: Result<
    (),
    Error,
>)
    ensures
        result == (match semantics_error(function@, parent) {
            Some(error) => Err::<(), Error>(error),
            None => Ok(()),
        }),
{
    proof {
        function::lemma_encoded_function_view(*function);
    }
    let range: AddressRange = function.range;
    if !range.is_valid() {
        return Err(Error::InvalidFormat("reversed function range"));
    }
    if let Some(outer) = parent {
        if range != outer {
            return Err(Error::InvalidFormat("merged function range differs from its parent"));
        }
    }
    let size: u64 = range.size();
    if let Some(rows) = &function.lines {
        let mut i: usize = 0;
        while i < rows.len()
            invariant
                i <= rows@.len(),
                range == function@.range,
                size == range.spec_size(),
                function@.lines == Some(rows@),
                range.spec_is_valid(),
                parent is Some ==> range == parent->0,
                forall|k: int| 0 <= k < i ==> !row_outside(#[trigger] rows@[k], range),
            decreases rows@.len() - i,
        {
            let address: u64 = rows[i].address;
            if address < range.start || (size != 0 && address >= range.end) {
                assert(row_outside(function@.lines->0[i as int], function@.range));
                assert(has_row_outside(function@));
                return Err(Error::InvalidFormat("line address is outside its function"));
            }
            i = i + 1;
        }
    }
    assert(!has_row_outside(function@));
    if let Some(node) = &function.inline {
        let mut parents: Vec<AddressRange> = Vec::new();
        parents.push(range);
        assert(parents@ =~= seq![function@.range]);
        if !inline_ranges_valid(node, &parents) {
            return Err(
                Error::InvalidFormat("inline range is empty, reversed, or outside its parent"),
            );
        }
    }
    let mut i: usize = 0;
    while i < function.call_sites.len()
        invariant
            i <= function.call_sites@.len(),
            range == function@.range,
            size == range.spec_size(),
            function@.call_sites == function::encoded_call_site_views(function.call_sites@),
            semantics_error(function@, parent) == (if has_site_outside(function@) {
                Some(Error::InvalidFormat("call-site return offset is outside its function"))
            } else {
                None
            }),
            size != 0 ==> forall|k: int|
                0 <= k < i ==> (#[trigger] function@.call_sites[k]).return_offset < size,
        decreases function.call_sites@.len() - i,
    {
        assert(function@.call_sites[i as int].return_offset
            == function.call_sites@[i as int].return_offset);
        if size != 0 && function.call_sites[i].return_offset >= size {
            return Err(Error::InvalidFormat("call-site return offset is outside its function"));
        }
        i = i + 1;
    }
    Ok(())
}

fn check_files(data: &[u8], layout: &ParsedLayout, rows: &Vec<LineEntry>) -> (result: Result<
    (),
    Error,
>)
    requires
        layout.wf(data@.len()),
    ensures
        result == (match files_error(data@, *layout, rows@, 0) {
            Some(error) => Err::<(), Error>(error),
            None => Ok(()),
        }),
{
    let mut i: usize = 0;
    while i < rows.len()
        invariant
            i <= rows@.len(),
            layout.wf(data@.len()),
            files_error(data@, *layout, rows@, 0) == files_error(data@, *layout, rows@, i as int),
        decreases rows@.len() - i,
    {
        file_at(data, layout, rows[i].file)?;
        i = i + 1;
    }
    Ok(())
}

fn decode_strings(data: &[u8], layout: &ParsedLayout, offsets: &Vec<u64>) -> (result: Result<
    Vec<Vec<u8>>,
    Error,
>)
    ensures
        match strings_of(data@, *layout, offsets@, 0, Seq::empty()) {
            Ok(views) => result matches Ok(strings) && model::byte_views(strings@) == views,
            Err(error) => result == Err::<Vec<Vec<u8>>, Error>(error),
        },
{
    let mut strings: Vec<Vec<u8>> = Vec::with_capacity(offsets.len());
    let mut i: usize = 0;
    assert(model::byte_views(strings@) =~= Seq::<Seq<u8>>::empty());
    while i < offsets.len()
        invariant
            i <= offsets@.len(),
            strings_of(data@, *layout, offsets@, 0, Seq::empty()) == strings_of(
                data@,
                *layout,
                offsets@,
                i as int,
                model::byte_views(strings@),
            ),
        decreases offsets@.len() - i,
    {
        let ghost before = model::byte_views(strings@);
        let string = string_at(data, &layout.string_table, offsets[i])?;
        let copy = copy_bytes(string);
        strings.push(copy);
        assert(model::byte_views(strings@) =~= before.push(string@));
        i = i + 1;
    }
    Ok(strings)
}

fn decode_sites(data: &[u8], layout: &ParsedLayout, sites: &Vec<EncodedCallSite>) -> (result: Result<
    Vec<CallSite>,
    Error,
>)
    ensures
        match sites_of(
            data@,
            *layout,
            function::encoded_call_site_views(sites@),
            0,
            Seq::empty(),
        ) {
            Ok(views) => result matches Ok(list) && model::call_site_views(list@) == views,
            Err(error) => result == Err::<Vec<CallSite>, Error>(error),
        },
{
    let ghost encoded = function::encoded_call_site_views(sites@);
    let mut list: Vec<CallSite> = Vec::with_capacity(sites.len());
    let mut i: usize = 0;
    assert(model::call_site_views(list@) =~= Seq::<CallSiteView>::empty());
    while i < sites.len()
        invariant
            i <= sites@.len(),
            encoded == function::encoded_call_site_views(sites@),
            sites_of(data@, *layout, encoded, 0, Seq::empty()) == sites_of(
                data@,
                *layout,
                encoded,
                i as int,
                model::call_site_views(list@),
            ),
        decreases sites@.len() - i,
    {
        let ghost before = model::call_site_views(list@);
        assert(encoded[i as int] == sites@[i as int]@);
        let match_regex = decode_strings(data, layout, &sites[i].match_regex)?;
        let site = CallSite {
            return_offset: sites[i].return_offset,
            flags: CallSiteFlags(sites[i].flags),
            match_regex,
        };
        list.push(site);
        assert(model::call_site_views(list@) =~= before.push(site@));
        i = i + 1;
    }
    Ok(list)
}

fn decode_inline(data: &[u8], layout: &ParsedLayout, node: &EncodedInlineNode) -> (result: Result<
    InlineNode,
    Error,
>)
    requires
        layout.wf(data@.len()),
    ensures
        match inline_of(data@, *layout, node@) {
            Ok(view) => result matches Ok(owned) && owned@ == view,
            Err(error) => result == Err::<InlineNode, Error>(error),
        },
    decreases node,
{
    proof {
        function::lemma_encoded_inline_view(*node);
    }
    file_at(data, layout, FileIndex(node.call_file))?;
    let name: Vec<u8> = if node.name == 0 {
        Vec::new()
    } else {
        copy_bytes(string_at(data, &layout.string_table, node.name)?)
    };
    let ghost encoded = function::encoded_inline_views(node.children@);
    let mut children: Vec<InlineNode> = Vec::with_capacity(node.children.len());
    let mut i: usize = 0;
    assert(model::inline_views(children@) =~= Seq::<InlineView>::empty());
    while i < node.children.len()
        invariant
            i <= node.children@.len(),
            layout.wf(data@.len()),
            encoded == function::encoded_inline_views(node.children@),
            encoded == node@.children,
            inline_of(data@, *layout, node@) == (match inline_list_of(
                data@,
                *layout,
                encoded,
                i as int,
                model::inline_views(children@),
            ) {
                Ok(nested) => Ok::<InlineView, Error>(
                    InlineView {
                        ranges: node.ranges@,
                        name: name@,
                        call_file: FileIndex(node.call_file),
                        call_line: node.call_line,
                        children: nested,
                    },
                ),
                Err(error) => Err(error),
            }),
        decreases node.children@.len() - i,
    {
        assert(decreases_to!(node => node.children@[i as int]));
        let ghost before = model::inline_views(children@);
        assert(encoded[i as int] == node.children@[i as int]@);
        let child = decode_inline(data, layout, &node.children[i])?;
        children.push(child);
        assert(model::inline_views(children@) =~= before.push(child@));
        i = i + 1;
    }
    let owned = InlineNode {
        ranges: copy_ranges(&node.ranges),
        name,
        call_file: FileIndex(node.call_file),
        call_line: node.call_line,
        children,
    };
    proof {
        model::lemma_inline_view(owned);
    }
    Ok(owned)
}

/// Checks a decoded function and resolves its names.
pub fn decode_at(
    data: &[u8],
    layout: &ParsedLayout,
    encoded: &EncodedFunction,
    parent: Option<AddressRange>,
    depth: usize,
) -> (result: Result<Function, Error>)
    requires
        layout.wf(data@.len()),
    ensures
        match owned_of(data@, *layout, encoded@, parent, depth as nat) {
            Ok(view) => result matches Ok(function) && function@ == view,
            Err(error) => result == Err::<Function, Error>(error),
        },
    decreases encoded,
{
    proof {
        function::lemma_encoded_function_view(*encoded);
    }
    check_merged_depth(depth)?;
    validate_semantics(encoded, parent)?;
    let lines: Vec<LineEntry> = match &encoded.lines {
        Some(rows) => copy_lines(rows),
        None => Vec::new(),
    };
    assert(lines@ =~= rows_of(encoded@.lines));
    check_files(data, layout, &lines)?;
    let ghost views = function::encoded_function_views(encoded.merged@);
    let ghost expected = owned_list_of(
        data@,
        *layout,
        views,
        0,
        encoded.range,
        (depth + 1) as nat,
        Seq::empty(),
    );
    let mut merged: Vec<Function> = Vec::with_capacity(encoded.merged.len());
    let mut i: usize = 0;
    assert(model::function_views(merged@) =~= Seq::<FunctionView>::empty());
    while i < encoded.merged.len()
        invariant
            i <= encoded.merged@.len(),
            layout.wf(data@.len()),
            depth <= function::MAX_MERGED_DEPTH,
            views == function::encoded_function_views(encoded.merged@),
            views == encoded@.merged,
            encoded.range == encoded@.range,
            expected is Err ==> owned_of(data@, *layout, encoded@, parent, depth as nat) == Err::<
                FunctionView,
                Error,
            >(expected->Err_0),
            expected == owned_list_of(
                data@,
                *layout,
                views,
                i as int,
                encoded.range,
                (depth + 1) as nat,
                model::function_views(merged@),
            ),
        decreases encoded.merged@.len() - i,
    {
        assert(decreases_to!(encoded => encoded.merged@[i as int]));
        let ghost before = model::function_views(merged@);
        assert(views[i as int] == encoded.merged@[i as int]@);
        let function = decode_at(
            data,
            layout,
            &encoded.merged[i],
            Some(encoded.range),
            depth + 1,
        )?;
        merged.push(function);
        assert(model::function_views(merged@) =~= before.push(function@));
        i = i + 1;
    }
    let call_sites = decode_sites(data, layout, &encoded.call_sites)?;
    let name: Vec<u8> = copy_bytes(string_at(data, &layout.string_table, encoded.name)?);
    let inline: Option<InlineNode> = match &encoded.inline {
        Some(node) => Some(decode_inline(data, layout, node)?),
        None => None,
    };
    let function = Function { range: encoded.range, name, lines, inline, merged, call_sites };
    proof {
        model::lemma_function_view(function);
    }
    Ok(function)
}

/// The error of the first of the offsets from index `i` on that no string
/// stands at.
pub open spec fn strings_error(
    s: Seq<u8>,
    layout: ParsedLayout,
    offsets: Seq<u64>,
    i: int,
) -> Option<Error>
    decreases offsets.len() - i,
{
    if i >= offsets.len() {
        None
    } else {
        match table::string_of(s, layout.string_table, offsets[i]) {
            Err(error) => Some(error),
            Ok(_) => strings_error(s, layout, offsets, i + 1),
        }
    }
}

/// The error of the first of the call sites from index `i` on whose patterns do
/// not resolve.
pub open spec fn sites_error(
    s: Seq<u8>,
    layout: ParsedLayout,
    sites: Seq<EncodedCallSiteView>,
    i: int,
) -> Option<Error>
    decreases sites.len() - i,
{
    if i >= sites.len() {
        None
    } else {
        match strings_error(s, layout, sites[i].match_regex, 0) {
            Some(error) => Some(error),
            None => sites_error(s, layout, sites, i + 1),
        }
    }
}

/// The error of an inline tree whose names or files do not resolve, if they do
/// not.
pub open spec fn inline_error(s: Seq<u8>, layout: ParsedLayout, node: EncodedInlineView) -> Option<
    Error,
>
    decreases node, 0int,
{
    match inline_name_of(s, layout, node.name) {
        Err(error) => Some(error),
        Ok(_) => match table::file_of(s, layout, FileIndex(node.call_file)) {
            Err(error) => Some(error),
            Ok(_) => inline_list_error(s, layout, node.children, 0),
        },
    }
}

/// The error of the first of the inline trees from index `i` on that has one.
pub open spec fn inline_list_error(
    s: Seq<u8>,
    layout: ParsedLayout,
    nodes: Seq<EncodedInlineView>,
    i: int,
) -> Option<Error>
    decreases nodes, nodes.len() - i,
    when 0 <= i
{
    if i >= nodes.len() {
        None
    } else {
        match inline_error(s, layout, nodes[i]) {
            Some(error) => Some(error),
            None => inline_list_error(s, layout, nodes, i + 1),
        }
    }
}

/// The first rule that a decoded function breaks, if it breaks one.
pub open spec fn checked_of(
    s: Seq<u8>,
    layout: ParsedLayout,
    function: EncodedFunctionView,
    parent: Option<AddressRange>,
    depth: nat,
) -> Option<Error>
    decreases function, 0int,
{
    match function::merged_depth_error(depth) {
        Some(error) => Some(error),
        None => match semantics_error(function, parent) {
            Some(error) => Some(error),
            None => match table::string_of(s, layout.string_table, function.name) {
                Err(error) => Some(error),
                Ok(_) => match files_error(s, layout, rows_of(function.lines), 0) {
                    Some(error) => Some(error),
                    None => {
                        let inline = match function.inline {
                            Some(node) => inline_error(s, layout, node),
                            None => None,
                        };
                        match inline {
                            Some(error) => Some(error),
                            None => match sites_error(s, layout, function.call_sites, 0) {
                                Some(error) => Some(error),
                                None => checked_list_of(
                                    s,
                                    layout,
                                    function.merged,
                                    0,
                                    function.range,
                                    depth + 1,
                                ),
                            },
                        }
                    },
                },
            },
        },
    }
}

/// The first rule that one of the merged functions from index `i` on breaks.
pub open spec fn checked_list_of(
    s: Seq<u8>,
    layout: ParsedLayout,
    functions: Seq<EncodedFunctionView>,
    i: int,
    parent: AddressRange,
    depth: nat,
) -> Option<Error>
    decreases functions, functions.len() - i,
    when 0 <= i
{
    if i >= functions.len() {
        None
    } else {
        match checked_of(s, layout, functions[i], Some(parent), depth) {
            Some(error) => Some(error),
            None => checked_list_of(s, layout, functions, i + 1, parent, depth),
        }
    }
}

proof fn lemma_strings_agree(
    s: Seq<u8>,
    layout: ParsedLayout,
    offsets: Seq<u64>,
    i: int,
    done: Seq<Seq<u8>>,
)
    requires
        0 <= i <= offsets.len(),
    ensures
        strings_of(s, layout, offsets, i, done) is Ok <==> strings_error(s, layout, offsets, i)
            is None,
    decreases offsets.len() - i,
{
    if i < offsets.len() {
        if let Ok(string) = table::string_of(s, layout.string_table, offsets[i]) {
            lemma_strings_agree(s, layout, offsets, i + 1, done.push(string));
        }
    }
}

proof fn lemma_sites_agree(
    s: Seq<u8>,
    layout: ParsedLayout,
    sites: Seq<EncodedCallSiteView>,
    i: int,
    done: Seq<CallSiteView>,
)
    requires
        0 <= i <= sites.len(),
    ensures
        sites_of(s, layout, sites, i, done) is Ok <==> sites_error(s, layout, sites, i) is None,
    decreases sites.len() - i,
{
    if i < sites.len() {
        lemma_strings_agree(s, layout, sites[i].match_regex, 0, Seq::empty());
        if let Ok(match_regex) = strings_of(s, layout, sites[i].match_regex, 0, Seq::empty()) {
            lemma_sites_agree(
                s,
                layout,
                sites,
                i + 1,
                done.push(
                    CallSiteView {
                        return_offset: sites[i].return_offset,
                        flags: CallSiteFlags(sites[i].flags),
                        match_regex,
                    },
                ),
            );
        }
    }
}

proof fn lemma_inline_agrees(s: Seq<u8>, layout: ParsedLayout, node: EncodedInlineView)
    ensures
        inline_of(s, layout, node) is Ok <==> inline_error(s, layout, node) is None,
    decreases node, 0int,
{
    lemma_inline_list_agrees(s, layout, node.children, 0, Seq::empty());
}

proof fn lemma_inline_list_agrees(
    s: Seq<u8>,
    layout: ParsedLayout,
    nodes: Seq<EncodedInlineView>,
    i: int,
    done: Seq<InlineView>,
)
    requires
        0 <= i <= nodes.len(),
    ensures
        inline_list_of(s, layout, nodes, i, done) is Ok <==> inline_list_error(s, layout, nodes, i)
            is None,
    decreases nodes, nodes.len() - i,
{
    if i < nodes.len() {
        lemma_inline_agrees(s, layout, nodes[i]);
        if let Ok(node) = inline_of(s, layout, nodes[i]) {
            lemma_inline_list_agrees(s, layout, nodes, i + 1, done.push(node));
        }
    }
}

/// A function is decoded to its owned form exactly when verification accepts
/// it.
pub proof fn law_decode_agrees_with_verification(
    s: Seq<u8>,
    layout: ParsedLayout,
    function: EncodedFunctionView,
    parent: Option<AddressRange>,
    depth: nat,
)
    ensures
        owned_of(s, layout, function, parent, depth) is Ok <==> checked_of(
            s,
            layout,
            function,
            parent,
            depth,
        ) is None,
    decreases function, 0int,
{
    if let Some(node) = function.inline {
        lemma_inline_agrees(s, layout, node);
    }
    lemma_sites_agree(s, layout, function.call_sites, 0, Seq::empty());
    lemma_list_agrees(
        s,
        layout,
        function.merged,
        0,
        function.range,
        depth + 1,
        Seq::empty(),
    );
}

proof fn lemma_list_agrees(
    s: Seq<u8>,
    layout: ParsedLayout,
    functions: Seq<EncodedFunctionView>,
    i: int,
    parent: AddressRange,
    depth: nat,
    done: Seq<FunctionView>,
)
    requires
        0 <= i <= functions.len(),
    ensures
        owned_list_of(s, layout, functions, i, parent, depth, done) is Ok <==> checked_list_of(
            s,
            layout,
            functions,
            i,
            parent,
            depth,
        ) is None,
    decreases functions, functions.len() - i,
{
    if i < functions.len() {
        law_decode_agrees_with_verification(s, layout, functions[i], Some(parent), depth);
        if let Ok(function) = owned_of(s, layout, functions[i], Some(parent), depth) {
            lemma_list_agrees(s, layout, functions, i + 1, parent, depth, done.push(function));
        }
    }
}

fn check_sites(data: &[u8], layout: &ParsedLayout, sites: &Vec<EncodedCallSite>) -> (result: Result<
    (),
    Error,
>)
    ensures
        result == (match sites_error(
            data@,
            *layout,
            function::encoded_call_site_views(sites@),
            0,
        ) {
            Some(error) => Err::<(), Error>(error),
            None => Ok(()),
        }),
{
    let ghost views = function::encoded_call_site_views(sites@);
    let mut i: usize = 0;
    while i < sites.len()
        invariant
            i <= sites@.len(),
            views == function::encoded_call_site_views(sites@),
            sites_error(data@, *layout, views, 0) == sites_error(data@, *layout, views, i as int),
        decreases sites@.len() - i,
    {
        assert(views[i as int] == sites@[i as int]@);
        let offsets = &sites[i].match_regex;
        let mut k: usize = 0;
        while k < offsets.len()
            invariant
                k <= offsets@.len(),
                i < sites@.len(),
                views == function::encoded_call_site_views(sites@),
                offsets@ == views[i as int].match_regex,
                sites_error(data@, *layout, views, 0) == sites_error(
                    data@,
                    *layout,
                    views,
                    i as int,
                ),
                strings_error(data@, *layout, offsets@, 0) == strings_error(
                    data@,
                    *layout,
                    offsets@,
                    k as int,
                ),
            decreases offsets@.len() - k,
        {
            string_at(data, &layout.string_table, offsets[k])?;
            k = k + 1;
        }
        i = i + 1;
    }
    Ok(())
}

fn check_inline(data: &[u8], layout: &ParsedLayout, node: &EncodedInlineNode) -> (result: Result<
    (),
    Error,
>)
    requires
        layout.wf(data@.len()),
    ensures
        result == (match inline_error(data@, *layout, node@) {
            Some(error) => Err::<(), Error>(error),
            None => Ok(()),
        }),
    decreases node,
{
    proof {
        function::lemma_encoded_inline_view(*node);
    }
    if node.name != 0 {
        string_at(data, &layout.string_table, node.name)?;
    }
    file_at(data, layout, FileIndex(node.call_file))?;
    let ghost views = function::encoded_inline_views(node.children@);
    let mut i: usize = 0;
    while i < node.children.len()
        invariant
            i <= node.children@.len(),
            layout.wf(data@.len()),
            views == function::encoded_inline_views(node.children@),
            inline_error(data@, *layout, node@) == inline_list_error(
                data@,
                *layout,
                views,
                i as int,
            ),
        decreases node.children@.len() - i,
    {
        assert(decreases_to!(node => node.children@[i as int]));
        assert(views[i as int] == node.children@[i as int]@);
        check_inline(data, layout, &node.children[i])?;
        i = i + 1;
    }
    Ok(())
}

/// Checks a decoded function and everything that it refers to.
pub fn validate_at(
    data: &[u8],
    layout: &ParsedLayout,
    function: &EncodedFunction,
    parent: Option<AddressRange>,
    depth: usize,
) -> (result: Result<(), Error>)
    requires
        layout.wf(data@.len()),
    ensures
        result == (match checked_of(data@, *layout, function@, parent, depth as nat) {
            Some(error) => Err::<(), Error>(error),
            None => Ok(()),
        }),
    decreases function,
{
    proof {
        function::lemma_encoded_function_view(*function);
    }
    check_merged_depth(depth)?;
    validate_semantics(function, parent)?;
    string_at(data, &layout.string_table, function.name)?;
    if let Some(rows) = &function.lines {
        check_files(data, layout, rows)?;
    }
    if let Some(node) = &function.inline {
        check_inline(data, layout, node)?;
    }
    check_sites(data, layout, &function.call_sites)?;
    let ghost views = function::encoded_function_views(function.merged@);
    let mut i: usize = 0;
    while i < function.merged.len()
        invariant
            i <= function.merged@.len(),
            layout.wf(data@.len()),
            depth <= function::MAX_MERGED_DEPTH,
            views == function::encoded_function_views(function.merged@),
            checked_of(data@, *layout, function@, parent, depth as nat) == checked_list_of(
                data@,
                *layout,
                views,
                i as int,
                function.range,
                (depth + 1) as nat,
            ),
        decreases function.merged@.len() - i,
    {
        assert(decreases_to!(function => function.merged@[i as int]));
        assert(views[i as int] == function.merged@[i as int]@);
        validate_at(data, layout, &function.merged[i], Some(function.range), depth + 1)?;
        i = i + 1;
    }
    Ok(())
}

/// Whether an inline tree has ranges in its nodes that are not empty, each in one of the
/// ranges around it.
pub open spec fn is_sound_tree(node: EncodedInlineView, around: Seq<AddressRange>) -> bool
    decreases node,
{
    &&& node.ranges.len() > 0
    &&& forall|i: int|
        0 <= i < node.ranges.len() ==> (#[trigger] node.ranges[i]).start < node.ranges[i].end
            && exists|p: int|
            0 <= p < around.len() && (#[trigger] around[p]).start <= node.ranges[i].start
                && node.ranges[i].end <= around[p].end
    &&& forall|i: int|
        0 <= i < node.children.len() ==> is_sound_tree(#[trigger] node.children[i], node.ranges)
}

/// Whether what a function says lies in its range: its rows and the returns of its calls,
/// as far as its size is known, and its inline tree. The functions that are merged into
/// it have its range.
pub open spec fn is_sound(function: EncodedFunctionView) -> bool
    decreases function,
{
    let range = function.range;
    &&& range.start <= range.end
    &&& function.lines matches Some(rows) ==> forall|i: int|
        0 <= i < rows.len() ==> range.start <= (#[trigger] rows[i]).address && (range.start
            < range.end ==> rows[i].address < range.end)
    &&& range.start < range.end ==> forall|i: int|
        0 <= i < function.call_sites.len() ==> range.start + (
        #[trigger] function.call_sites[i]).return_offset < range.end
    &&& function.inline matches Some(root) ==> is_sound_tree(root, seq![range])
    &&& forall|m: int|
        0 <= m < function.merged.len() ==> (#[trigger] function.merged[m]).range == range
            && is_sound(function.merged[m])
}

proof fn lemma_sound_tree(node: EncodedInlineView, around: Seq<AddressRange>)
    requires
        inline_ranges_ok(node, around),
    ensures
        is_sound_tree(node, around),
    decreases node,
{
    assert forall|i: int| 0 <= i < node.ranges.len() implies (#[trigger] node.ranges[i]).start
        < node.ranges[i].end && exists|p: int|
        0 <= p < around.len() && (#[trigger] around[p]).start <= node.ranges[i].start
            && node.ranges[i].end <= around[p].end by {
        assert(inline_range_ok(node.ranges[i], around));
    }
    assert forall|i: int| 0 <= i < node.children.len() implies is_sound_tree(
        #[trigger] node.children[i],
        node.ranges,
    ) by {
        lemma_sound_tree(node.children[i], node.ranges);
    }
}

/// A function that breaks no rule is sound, and so are those that are merged into it.
pub proof fn law_checked_functions_are_sound(
    s: Seq<u8>,
    layout: ParsedLayout,
    function: EncodedFunctionView,
    parent: Option<AddressRange>,
    depth: nat,
)
    requires
        checked_of(s, layout, function, parent, depth) is None,
    ensures
        is_sound(function),
        parent matches Some(range) ==> function.range == range,
    decreases function, 0int,
{
    if let Some(root) = function.inline {
        lemma_sound_tree(root, seq![function.range]);
    }
    if let Some(rows) = function.lines {
        assert forall|i: int| 0 <= i < rows.len() implies !row_outside(
            #[trigger] rows[i],
            function.range,
        ) by {
            assert(!has_row_outside(function));
        }
    }
    lemma_checked_list_is_sound(s, layout, function.merged, 0, function.range, depth + 1);
}

proof fn lemma_checked_list_is_sound(
    s: Seq<u8>,
    layout: ParsedLayout,
    functions: Seq<EncodedFunctionView>,
    i: int,
    parent: AddressRange,
    depth: nat,
)
    requires
        0 <= i,
        checked_list_of(s, layout, functions, i, parent, depth) is None,
    ensures
        forall|m: int|
            i <= m < functions.len() ==> (#[trigger] functions[m]).range == parent && is_sound(
                functions[m],
            ),
    decreases functions, functions.len() - i,
{
    if i < functions.len() {
        law_checked_functions_are_sound(s, layout, functions[i], Some(parent), depth);
        lemma_checked_list_is_sound(s, layout, functions, i + 1, parent, depth);
    }
}

} // verus!
