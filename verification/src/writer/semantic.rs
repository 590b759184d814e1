//! Functions with their names replaced by string offsets.
use vstd::prelude::*;
use crate::error::Error;
use crate::format::function;
use crate::format::function::{
    check_merged_depth, EncodedCallSite, EncodedCallSiteView, EncodedFunction, EncodedFunctionView,
    EncodedInlineNode, EncodedInlineView,
};
use crate::model;
use crate::model::{
    copy_lines, copy_ranges, CallSite, CallSiteView, FileEntry, FileView, Function, FunctionView,
    InlineNode, InlineView, LineEntry,
};
use crate::writer::strings;
use crate::writer::strings::StringTable;

verus! {

/// The offsets of the patterns from index `i` on, behind the offsets `done`,
/// and the strings with those patterns.
pub open spec fn patterns_encoded(
    patterns: Seq<Seq<u8>>,
    i: int,
    strings: Seq<Seq<u8>>,
    done: Seq<u64>,
) -> (Seq<u64>, Seq<Seq<u8>>)
    decreases patterns.len() - i,
{
    if i >= patterns.len() {
        (done, strings)
    } else {
        patterns_encoded(
            patterns,
            i + 1,
            strings::interned(strings, patterns[i]),
            done.push(strings::interned_offset(strings, patterns[i])),
        )
    }
}

/// The call sites from index `i` on with their patterns as offsets, behind the
/// call sites `done`, and the strings with those patterns.
pub open spec fn sites_encoded(
    sites: Seq<CallSiteView>,
    i: int,
    strings: Seq<Seq<u8>>,
    done: Seq<EncodedCallSiteView>,
) -> (Seq<EncodedCallSiteView>, Seq<Seq<u8>>)
    decreases sites.len() - i,
{
    if i >= sites.len() {
        (done, strings)
    } else {
        let (match_regex, grown) = patterns_encoded(
            sites[i].match_regex,
            0,
            strings,
            Seq::empty(),
        );
        sites_encoded(
            sites,
            i + 1,
            grown,
            done.push(
                EncodedCallSiteView {
                    return_offset: sites[i].return_offset,
                    flags: sites[i].flags.0,
                    match_regex,
                },
            ),
        )
    }
}

/// An inline tree with its names as offsets, and the strings with those names.
pub open spec fn inline_encoded(node: InlineView, strings: Seq<Seq<u8>>) -> (
    EncodedInlineView,
    Seq<Seq<u8>>,
)
    decreases node, 0int,
{
    let (children, grown) = inline_list_encoded(
        node.children,
        0,
        strings::interned(strings, node.name),
        Seq::empty(),
    );
    (
        EncodedInlineView {
            ranges: node.ranges,
            name: strings::interned_offset(strings, node.name),
            call_file: node.call_file.0,
            call_line: node.call_line,
            children,
        },
        grown,
    )
}

/// The inline trees from index `i` on with their names as offsets, behind the
/// trees `done`, and the strings with those names.
pub open spec fn inline_list_encoded(
    nodes: Seq<InlineView>,
    i: int,
    strings: Seq<Seq<u8>>,
    done: Seq<EncodedInlineView>,
) -> (Seq<EncodedInlineView>, Seq<Seq<u8>>)
    decreases nodes, nodes.len() - i,
    when 0 <= i
{
    if i >= nodes.len() {
        (done, strings)
    } else {
        let (node, grown) = inline_encoded(nodes[i], strings);
        inline_list_encoded(nodes, i + 1, grown, done.push(node))
    }
}

/// The inline tree of a function with its names as offsets, where there is one,
/// and the strings with those names.
pub open spec fn inline_option_encoded(node: Option<InlineView>, strings: Seq<Seq<u8>>) -> (
    Option<EncodedInlineView>,
    Seq<Seq<u8>>,
) {
    match node {
        None => (None, strings),
        Some(node) => {
            let (encoded, grown) = inline_encoded(node, strings);
            (Some(encoded), grown)
        },
    }
}

/// The line rows of a function as a table; none where there is no row.
pub open spec fn lines_encoded(lines: Seq<LineEntry>) -> Option<Seq<LineEntry>> {
    if lines.len() == 0 {
        None
    } else {
        Some(lines)
    }
}

/// A function with its names as offsets, and the strings with those names.
pub open spec fn function_encoded(
    function: FunctionView,
    strings: Seq<Seq<u8>>,
    depth: nat,
) -> Result<(EncodedFunctionView, Seq<Seq<u8>>), Error>
    decreases function, 0int,
{
    match function::merged_depth_error(depth) {
        Some(error) => Err(error),
        None => {
            let named = strings::interned(strings, function.name);
            let (inline, inlined) = inline_option_encoded(function.inline, named);
            match functions_encoded(function.merged, 0, inlined, depth + 1, Seq::empty()) {
                Err(error) => Err(error),
                Ok((merged, grown)) => {
                    let (call_sites, whole) = sites_encoded(
                        function.call_sites,
                        0,
                        grown,
                        Seq::empty(),
                    );
                    Ok(
                        (
                            EncodedFunctionView {
                                range: function.range,
                                name: strings::interned_offset(strings, function.name),
                                lines: lines_encoded(function.lines),
                                inline,
                                merged,
                                call_sites,
                            },
                            whole,
                        ),
                    )
                },
            }
        },
    }
}

/// The functions from index `i` on with their names as offsets, behind the
/// functions `done`, and the strings with those names.
pub open spec fn functions_encoded(
    functions: Seq<FunctionView>,
    i: int,
    strings: Seq<Seq<u8>>,
    depth: nat,
    done: Seq<EncodedFunctionView>,
) -> Result<(Seq<EncodedFunctionView>, Seq<Seq<u8>>), Error>
    decreases functions, functions.len() - i,
    when 0 <= i
{
    if i >= functions.len() {
        Ok((done, strings))
    } else {
        match function_encoded(functions[i], strings, depth) {
            Err(error) => Err(error),
            Ok((function, grown)) => functions_encoded(
                functions,
                i + 1,
                grown,
                depth,
                done.push(function),
            ),
        }
    }
}

/// The file entries from index `i` on with their names as offsets, behind the
/// entries `done`, and the strings with those names.
pub open spec fn files_encoded(
    files: Seq<FileView>,
    i: int,
    strings: Seq<Seq<u8>>,
    done: Seq<(u64, u64)>,
) -> (Seq<(u64, u64)>, Seq<Seq<u8>>)
    decreases files.len() - i,
{
    if i >= files.len() {
        (done, strings)
    } else {
        let with_directory = strings::interned(strings, files[i].directory);
        files_encoded(
            files,
            i + 1,
            strings::interned(with_directory, files[i].basename),
            done.push(
                (
                    strings::interned_offset(strings, files[i].directory),
                    strings::interned_offset(with_directory, files[i].basename),
                ),
            ),
        )
    }
}

/// Adds the names of the files to the string table and returns where they
/// start.
pub fn intern_files(files: &Vec<FileEntry>, strings: &mut StringTable) -> (entries: Vec<(u64, u64)>)
    requires
        old(strings).wf(),
    ensures
        final(strings).wf(),
        (entries@, final(strings).strings()) == files_encoded(
            model::file_views(files@),
            0,
            old(strings).strings(),
            Seq::empty(),
        ),
{
    let ghost views = model::file_views(files@);
    let ghost expected = files_encoded(views, 0, strings.strings(), Seq::empty());
    let mut entries: Vec<(u64, u64)> = Vec::new();
    let mut i: usize = 0;
    while i < files.len()
        invariant
            i <= files@.len(),
            views == model::file_views(files@),
            strings.wf(),
            expected == files_encoded(views, i as int, strings.strings(), entries@),
        decreases files@.len() - i,
    {
        let directory: u64 = strings.intern(files[i].directory.as_slice());
        let basename: u64 = strings.intern(files[i].basename.as_slice());
        entries.push((directory, basename));
        i = i + 1;
    }
    entries
}

fn encode_patterns(patterns: &Vec<Vec<u8>>, strings: &mut StringTable) -> (offsets: Vec<u64>)
    requires
        old(strings).wf(),
    ensures
        final(strings).wf(),
        (offsets@, final(strings).strings()) == patterns_encoded(
            model::byte_views(patterns@),
            0,
            old(strings).strings(),
            Seq::empty(),
        ),
{
    let ghost views = model::byte_views(patterns@);
    let ghost expected = patterns_encoded(views, 0, strings.strings(), Seq::empty());
    let mut offsets: Vec<u64> = Vec::new();
    let mut i: usize = 0;
    while i < patterns.len()
        invariant
            i <= patterns@.len(),
            views == model::byte_views(patterns@),
            strings.wf(),
            expected == patterns_encoded(views, i as int, strings.strings(), offsets@),
        decreases patterns@.len() - i,
    {
        let offset: u64 = strings.intern(patterns[i].as_slice());
        offsets.push(offset);
        i = i + 1;
    }
    offsets
}

fn encode_sites(sites: &Vec<CallSite>, strings: &mut StringTable) -> (encoded: Vec<EncodedCallSite>)
    requires
        old(strings).wf(),
    ensures
        final(strings).wf(),
        (function::encoded_call_site_views(encoded@), final(strings).strings()) == sites_encoded(
            model::call_site_views(sites@),
            0,
            old(strings).strings(),
            Seq::empty(),
        ),
{
    let ghost views = model::call_site_views(sites@);
    let ghost expected = sites_encoded(views, 0, strings.strings(), Seq::empty());
    let mut encoded: Vec<EncodedCallSite> = Vec::new();
    assert(function::encoded_call_site_views(encoded@) =~= Seq::<EncodedCallSiteView>::empty());
    let mut i: usize = 0;
    while i < sites.len()
        invariant
            i <= sites@.len(),
            views == model::call_site_views(sites@),
            strings.wf(),
            expected == sites_encoded(
                views,
                i as int,
                strings.strings(),
                function::encoded_call_site_views(encoded@),
            ),
        decreases sites@.len() - i,
    {
        let site = &sites[i];
        assert(views[i as int] == site@);
        let match_regex = encode_patterns(&site.match_regex, strings);
        let ghost before = function::encoded_call_site_views(encoded@);
        let item = EncodedCallSite {
            return_offset: site.return_offset,
            flags: site.flags.bits(),
            match_regex,
        };
        encoded.push(item);
        assert(function::encoded_call_site_views(encoded@) =~= before.push(item@));
        i = i + 1;
    }
    encoded
}

fn encode_inline(node: &InlineNode, strings: &mut StringTable) -> (encoded: EncodedInlineNode)
    requires
        old(strings).wf(),
    ensures
        final(strings).wf(),
        (encoded@, final(strings).strings()) == inline_encoded(node@, old(strings).strings()),
    decreases node,
{
    proof {
        model::lemma_inline_view(*node);
    }
    let name: u64 = strings.intern(node.name.as_slice());
    let ghost views = model::inline_views(node.children@);
    let ghost expected = inline_list_encoded(views, 0, strings.strings(), Seq::empty());
    let mut children: Vec<EncodedInlineNode> = Vec::new();
    assert(function::encoded_inline_views(children@) =~= Seq::<EncodedInlineView>::empty());
    let mut i: usize = 0;
    while i < node.children.len()
        invariant
            i <= node.children@.len(),
            views == model::inline_views(node.children@),
            strings.wf(),
            expected == inline_list_encoded(
                views,
                i as int,
                strings.strings(),
                function::encoded_inline_views(children@),
            ),
        decreases node.children@.len() - i,
    {
        assert(decreases_to!(node => node.children@[i as int]));
        assert(views[i as int] == node.children@[i as int]@);
        let child = encode_inline(&node.children[i], strings);
        let ghost before = function::encoded_inline_views(children@);
        children.push(child);
        assert(function::encoded_inline_views(children@) =~= before.push(child@));
        i = i + 1;
    }
    let encoded = EncodedInlineNode {
        ranges: copy_ranges(&node.ranges),
        name,
        call_file: node.call_file.get(),
        call_line: node.call_line,
        children,
    };
    proof {
        function::lemma_encoded_inline_view(encoded);
    }
    encoded
}

/// Replaces the names of a function by string offsets.
pub fn encode_function(function: &Function, strings: &mut StringTable, depth: usize) -> (result:
    Result<EncodedFunction, Error>)
    requires
        old(strings).wf(),
    ensures
        final(strings).wf(),
        match function_encoded(function@, old(strings).strings(), depth as nat) {
            Ok((view, grown)) => {
                &&& result matches Ok(encoded)
                &&& encoded@ == view
                &&& final(strings).strings() == grown
            },
            Err(error) => result == Err::<EncodedFunction, Error>(error),
        },
    decreases function, 1int,
{
    proof {
        model::lemma_function_view(*function);
    }
    check_merged_depth(depth)?;
    let name: u64 = strings.intern(function.name.as_slice());
    let lines: Option<Vec<LineEntry>> = if function.lines.len() == 0 {
        None
    } else {
        Some(copy_lines(&function.lines))
    };
    let inline: Option<EncodedInlineNode> = match &function.inline {
        Some(node) => Some(encode_inline(node, strings)),
        None => None,
    };
    let ghost views = model::function_views(function.merged@);
    let ghost expected = functions_encoded(
        views,
        0,
        strings.strings(),
        (depth + 1) as nat,
        Seq::empty(),
    );
    let mut merged: Vec<EncodedFunction> = Vec::new();
    assert(function::encoded_function_views(merged@) =~= Seq::<EncodedFunctionView>::empty());
    let mut i: usize = 0;
    while i < function.merged.len()
        invariant
            i <= function.merged@.len(),
            depth <= function::MAX_MERGED_DEPTH,
            views == model::function_views(function.merged@),
            strings.wf(),
            expected == functions_encoded(
                views,
                i as int,
                strings.strings(),
                (depth + 1) as nat,
                function::encoded_function_views(merged@),
            ),
            expected matches Err(error) ==> function_encoded(
                function@,
                old(strings).strings(),
                depth as nat,
            ) == Err::<(EncodedFunctionView, Seq<Seq<u8>>), Error>(error),
        decreases function.merged@.len() - i,
    {
        assert(decreases_to!(function => function.merged@[i as int]));
        assert(views[i as int] == function.merged@[i as int]@);
        let item = encode_function(&function.merged[i], strings, depth + 1)?;
        let ghost before = function::encoded_function_views(merged@);
        merged.push(item);
        assert(function::encoded_function_views(merged@) =~= before.push(item@));
        i = i + 1;
    }
    let call_sites = encode_sites(&function.call_sites, strings);
    let encoded = EncodedFunction {
        range: function.range,
        name,
        lines,
        inline,
        merged,
        call_sites,
    };
    proof {
        function::lemma_encoded_function_view(encoded);
    }
    Ok(encoded)
}

} // verus!
