//! Functions that were written resolve to what is read of them.
use vstd::prelude::*;
use crate::bytes;
use crate::error::Error;
use crate::format::function;
use crate::format::function::{EncodedCallSiteView, EncodedFunctionView, EncodedInlineView};
use crate::model::{
    AddressRange, CallSiteFlags, CallSiteView, FileIndex, FileView, FunctionView, InlineView,
    LineEntry,
};
use crate::reader::layout::ParsedLayout;
use crate::reader::owned;
use crate::reader::table;
use crate::validation;
use crate::writer::semantic;
use crate::writer::sound;
use crate::writer::strings;

verus! {

/// Whether the string table of a file is the given one.
pub open spec fn strings_held(s: Seq<u8>, layout: ParsedLayout, whole: Seq<Seq<u8>>) -> bool {
    &&& s.len() <= usize::MAX
    &&& layout.string_table.start <= layout.string_table.end <= s.len()
    &&& layout.string_table.end == layout.string_table.start + strings::table_bytes(whole).len()
    &&& bytes::holds_at(s, layout.string_table.start as int, strings::table_bytes(whole))
}

/// A string that was added resolves to what is read of it.
proof fn lemma_string_resolves(
    s: Seq<u8>,
    layout: ParsedLayout,
    before: Seq<Seq<u8>>,
    string: Seq<u8>,
    whole: Seq<Seq<u8>>,
)
    requires
        strings::is_table(before),
        strings::grows(strings::interned(before, string), whole),
        strings_held(s, layout, whole),
    ensures
        table::string_of(
            s,
            layout.string_table,
            strings::interned_offset(before, string),
        ) == Ok::<Seq<u8>, Error>(sound::cut(string)),
        strings::interned_offset(before, string) == 0 <==> string.len() == 0,
{
    let held = strings::table_bytes(whole);
    let offset = strings::interned_offset(before, string);
    strings::law_interned_string_is_held(before, string, whole);
    bytes::lemma_holds_at_chain(
        s,
        layout.string_table.start as int,
        held,
        offset as int,
        string + seq![0u8],
    );
    sound::lemma_length_from(string, 0);
    let read = sound::cut(string);
    let whole_string = string + seq![0u8];
    let rest = whole_string.subrange(read.len() as int + 1, whole_string.len() as int);
    assert(whole_string =~= (read + seq![0u8]) + rest);
    bytes::lemma_holds_at_split(
        s,
        layout.string_table.start + offset,
        read + seq![0u8],
        rest,
    );
    table::law_string_reads_back(s, layout.string_table, offset, read);
}

proof fn lemma_patterns_grow(patterns: Seq<Seq<u8>>, i: int, before: Seq<Seq<u8>>, done: Seq<u64>)
    requires
        strings::is_table(before),
        0 <= i,
    ensures
        strings::is_table(semantic::patterns_encoded(patterns, i, before, done).1),
        strings::grows(before, semantic::patterns_encoded(patterns, i, before, done).1),
    decreases patterns.len() - i,
{
    if i < patterns.len() {
        let next = strings::interned(before, patterns[i]);
        let longer = done.push(strings::interned_offset(before, patterns[i]));
        strings::lemma_interned(before, patterns[i]);
        lemma_patterns_grow(patterns, i + 1, next, longer);
        strings::lemma_grows_trans(
            before,
            next,
            semantic::patterns_encoded(patterns, i + 1, next, longer).1,
        );
    } else {
        assert(before.subrange(0, before.len() as int) =~= before);
    }
}

/// The patterns of a call site resolve to what is read of them.
proof fn lemma_patterns_resolve(
    s: Seq<u8>,
    layout: ParsedLayout,
    patterns: Seq<Seq<u8>>,
    i: int,
    before: Seq<Seq<u8>>,
    done: Seq<u64>,
    whole: Seq<Seq<u8>>,
)
    requires
        strings::is_table(before),
        0 <= i <= patterns.len(),
        done.len() == i,
        strings::grows(semantic::patterns_encoded(patterns, i, before, done).1, whole),
        strings_held(s, layout, whole),
        forall|k: int|
            0 <= k < i ==> table::string_of(s, layout.string_table, #[trigger] done[k]) == Ok::<
                Seq<u8>,
                Error,
            >(sound::cut(patterns[k])),
    ensures
        ({
            let offsets = semantic::patterns_encoded(patterns, i, before, done).0;
            &&& offsets.len() == patterns.len()
            &&& forall|k: int|
                0 <= k < patterns.len() ==> table::string_of(
                    s,
                    layout.string_table,
                    #[trigger] offsets[k],
                ) == Ok::<Seq<u8>, Error>(sound::cut(patterns[k]))
        }),
    decreases patterns.len() - i,
{
    if i < patterns.len() {
        let next = strings::interned(before, patterns[i]);
        let longer = done.push(strings::interned_offset(before, patterns[i]));
        strings::lemma_interned(before, patterns[i]);
        lemma_patterns_grow(patterns, i + 1, next, longer);
        strings::lemma_grows_trans(
            next,
            semantic::patterns_encoded(patterns, i + 1, next, longer).1,
            whole,
        );
        lemma_string_resolves(s, layout, before, patterns[i], whole);
        lemma_patterns_resolve(s, layout, patterns, i + 1, next, longer, whole);
    }
}

/// Offsets that resolve to strings are resolved one after the other.
proof fn lemma_strings_of(
    s: Seq<u8>,
    layout: ParsedLayout,
    offsets: Seq<u64>,
    i: int,
    given: Seq<Seq<u8>>,
)
    requires
        0 <= i <= offsets.len(),
        offsets.len() == given.len(),
        forall|k: int|
            0 <= k < given.len() ==> table::string_of(
                s,
                layout.string_table,
                #[trigger] offsets[k],
            ) == Ok::<Seq<u8>, Error>(given[k]),
    ensures
        owned::strings_of(s, layout, offsets, i, given.subrange(0, i)) == Ok::<
            Seq<Seq<u8>>,
            Error,
        >(given),
    decreases offsets.len() - i,
{
    if i < offsets.len() {
        assert(table::string_of(s, layout.string_table, offsets[i]) == Ok::<Seq<u8>, Error>(
            given[i],
        ));
        assert(given.subrange(0, i).push(given[i]) =~= given.subrange(0, i + 1));
        lemma_strings_of(s, layout, offsets, i + 1, given);
    } else {
        assert(given.subrange(0, i) =~= given);
    }
}

proof fn lemma_sites_grow(
    sites: Seq<CallSiteView>,
    i: int,
    before: Seq<Seq<u8>>,
    done: Seq<EncodedCallSiteView>,
)
    requires
        strings::is_table(before),
        0 <= i,
    ensures
        strings::is_table(semantic::sites_encoded(sites, i, before, done).1),
        strings::grows(before, semantic::sites_encoded(sites, i, before, done).1),
    decreases sites.len() - i,
{
    if i < sites.len() {
        let (offsets, next) = semantic::patterns_encoded(
            sites[i].match_regex,
            0,
            before,
            Seq::empty(),
        );
        let longer = done.push(
            EncodedCallSiteView {
                return_offset: sites[i].return_offset,
                flags: sites[i].flags.0,
                match_regex: offsets,
            },
        );
        lemma_patterns_grow(sites[i].match_regex, 0, before, Seq::empty());
        lemma_sites_grow(sites, i + 1, next, longer);
        strings::lemma_grows_trans(
            before,
            next,
            semantic::sites_encoded(sites, i + 1, next, longer).1,
        );
    } else {
        assert(before.subrange(0, before.len() as int) =~= before);
    }
}

/// Whether an encoded call site stands for a call site.
spec fn site_resolves(
    s: Seq<u8>,
    layout: ParsedLayout,
    encoded: EncodedCallSiteView,
    site: CallSiteView,
) -> bool {
    &&& encoded.return_offset == site.return_offset
    &&& encoded.flags == site.flags.0
    &&& owned::strings_of(s, layout, encoded.match_regex, 0, Seq::empty()) == Ok::<
        Seq<Seq<u8>>,
        Error,
    >(site.match_regex)
}

proof fn lemma_sites_resolve(
    s: Seq<u8>,
    layout: ParsedLayout,
    sites: Seq<CallSiteView>,
    i: int,
    before: Seq<Seq<u8>>,
    done: Seq<EncodedCallSiteView>,
    whole: Seq<Seq<u8>>,
)
    requires
        strings::is_table(before),
        0 <= i <= sites.len(),
        done.len() == i,
        strings::grows(semantic::sites_encoded(sites, i, before, done).1, whole),
        strings_held(s, layout, whole),
        forall|k: int|
            0 <= k < i ==> site_resolves(
                s,
                layout,
                #[trigger] done[k],
                sound::cut_site(sites[k]),
            ),
    ensures
        ({
            let encoded = semantic::sites_encoded(sites, i, before, done).0;
            &&& encoded.len() == sites.len()
            &&& forall|k: int|
                0 <= k < sites.len() ==> site_resolves(
                    s,
                    layout,
                    #[trigger] encoded[k],
                    sound::cut_site(sites[k]),
                )
        }),
    decreases sites.len() - i,
{
    if i < sites.len() {
        let patterns = sites[i].match_regex;
        let (offsets, next) = semantic::patterns_encoded(patterns, 0, before, Seq::empty());
        let one = EncodedCallSiteView {
            return_offset: sites[i].return_offset,
            flags: sites[i].flags.0,
            match_regex: offsets,
        };
        let longer = done.push(one);
        lemma_patterns_grow(patterns, 0, before, Seq::empty());
        lemma_sites_grow(sites, i + 1, next, longer);
        strings::lemma_grows_trans(
            next,
            semantic::sites_encoded(sites, i + 1, next, longer).1,
            whole,
        );
        lemma_patterns_resolve(s, layout, patterns, 0, before, Seq::empty(), whole);
        let read = sound::cut_strings(patterns);
        assert(read.subrange(0, 0) =~= Seq::<Seq<u8>>::empty());
        lemma_strings_of(s, layout, offsets, 0, read);
        assert(site_resolves(s, layout, one, sound::cut_site(sites[i])));
        lemma_sites_resolve(s, layout, sites, i + 1, next, longer, whole);
    }
}

proof fn lemma_sites_of(
    s: Seq<u8>,
    layout: ParsedLayout,
    encoded: Seq<EncodedCallSiteView>,
    i: int,
    sites: Seq<CallSiteView>,
)
    requires
        0 <= i <= encoded.len(),
        encoded.len() == sites.len(),
        forall|k: int|
            0 <= k < sites.len() ==> site_resolves(s, layout, #[trigger] encoded[k], sites[k]),
    ensures
        owned::sites_of(s, layout, encoded, i, sites.subrange(0, i)) == Ok::<
            Seq<CallSiteView>,
            Error,
        >(sites),
    decreases encoded.len() - i,
{
    if i < encoded.len() {
        assert(site_resolves(s, layout, encoded[i], sites[i]));
        let view = CallSiteView {
            return_offset: encoded[i].return_offset,
            flags: CallSiteFlags(encoded[i].flags),
            match_regex: sites[i].match_regex,
        };
        assert(view == sites[i]);
        assert(sites.subrange(0, i).push(view) =~= sites.subrange(0, i + 1));
        lemma_sites_of(s, layout, encoded, i + 1, sites);
    } else {
        assert(sites.subrange(0, i) =~= sites);
    }
}

/// Encoding an inline tree adds strings to a table.
pub proof fn lemma_inline_grows(node: InlineView, before: Seq<Seq<u8>>)
    requires
        strings::is_table(before),
    ensures
        strings::is_table(semantic::inline_encoded(node, before).1),
        strings::grows(before, semantic::inline_encoded(node, before).1),
    decreases node, 0int,
{
    let named = strings::interned(before, node.name);
    strings::lemma_interned(before, node.name);
    lemma_inlines_grow(node.children, 0, named, Seq::empty());
    strings::lemma_grows_trans(before, named, semantic::inline_encoded(node, before).1);
}

proof fn lemma_inlines_grow(
    nodes: Seq<InlineView>,
    i: int,
    before: Seq<Seq<u8>>,
    done: Seq<EncodedInlineView>,
)
    requires
        strings::is_table(before),
        0 <= i,
    ensures
        strings::is_table(semantic::inline_list_encoded(nodes, i, before, done).1),
        strings::grows(before, semantic::inline_list_encoded(nodes, i, before, done).1),
    decreases nodes, nodes.len() - i,
{
    if i < nodes.len() {
        let (node, next) = semantic::inline_encoded(nodes[i], before);
        lemma_inline_grows(nodes[i], before);
        lemma_inlines_grow(nodes, i + 1, next, done.push(node));
        strings::lemma_grows_trans(
            before,
            next,
            semantic::inline_list_encoded(nodes, i + 1, next, done.push(node)).1,
        );
    } else {
        assert(before.subrange(0, before.len() as int) =~= before);
    }
}

/// Whether every file below `count` resolves.
pub open spec fn files_resolve(s: Seq<u8>, layout: ParsedLayout, count: nat) -> bool {
    forall|index: u32| index < count ==> (#[trigger] table::file_of(s, layout, FileIndex(index))) is Ok
}

/// Whether an encoded inline tree stands for an inline tree.
spec fn inline_resolves(
    s: Seq<u8>,
    layout: ParsedLayout,
    encoded: EncodedInlineView,
    node: InlineView,
    parents: Seq<AddressRange>,
) -> bool {
    &&& owned::inline_of(s, layout, encoded) == Ok::<InlineView, Error>(node)
    &&& owned::inline_ranges_ok(encoded, parents)
}

proof fn lemma_inline_resolves(
    s: Seq<u8>,
    layout: ParsedLayout,
    node: InlineView,
    parents: Seq<AddressRange>,
    count: nat,
    before: Seq<Seq<u8>>,
    whole: Seq<Seq<u8>>,
)
    requires
        strings::is_table(before),
        strings::grows(semantic::inline_encoded(node, before).1, whole),
        strings_held(s, layout, whole),
        files_resolve(s, layout, count),
        sound::sound_inline(node, parents, count),
    ensures
        inline_resolves(
            s,
            layout,
            semantic::inline_encoded(node, before).0,
            sound::cut_inline(node),
            parents,
        ),
    decreases node, 0int,
{
    let named = strings::interned(before, node.name);
    let encoded = semantic::inline_encoded(node, before).0;
    let (children, grown) = semantic::inline_list_encoded(node.children, 0, named, Seq::empty());
    strings::lemma_interned(before, node.name);
    lemma_inlines_grow(node.children, 0, named, Seq::empty());
    strings::lemma_grows_trans(named, grown, whole);
    lemma_string_resolves(s, layout, before, node.name, whole);
    assert(table::file_of(s, layout, FileIndex(node.call_file.0)) is Ok);
    lemma_inlines_resolve(
        s,
        layout,
        node.children,
        0,
        node.ranges,
        count,
        named,
        Seq::empty(),
        whole,
    );
    let read = sound::cut_inlines(node.children);
    assert(read.subrange(0, 0) =~= Seq::<InlineView>::empty());
    lemma_inline_list_of(s, layout, children, 0, read, node.ranges);
    sound::lemma_cut_inline(node);
    if node.name.len() == 0 {
        assert(sound::cut(node.name) =~= Seq::<u8>::empty());
    }
    assert forall|i: int| 0 <= i < encoded.children.len() implies owned::inline_ranges_ok(
        #[trigger] encoded.children[i],
        encoded.ranges,
    ) by {
        assert(inline_resolves(s, layout, children[i], read[i], node.ranges));
    }
    assert forall|i: int| 0 <= i < encoded.ranges.len() implies owned::inline_range_ok(
        #[trigger] encoded.ranges[i],
        parents,
    ) by {
        assert(validation::range_fits(node.ranges[i], parents));
    }
}

proof fn lemma_inlines_resolve(
    s: Seq<u8>,
    layout: ParsedLayout,
    nodes: Seq<InlineView>,
    i: int,
    parents: Seq<AddressRange>,
    count: nat,
    before: Seq<Seq<u8>>,
    done: Seq<EncodedInlineView>,
    whole: Seq<Seq<u8>>,
)
    requires
        strings::is_table(before),
        0 <= i <= nodes.len(),
        done.len() == i,
        strings::grows(semantic::inline_list_encoded(nodes, i, before, done).1, whole),
        strings_held(s, layout, whole),
        files_resolve(s, layout, count),
        forall|k: int|
            0 <= k < nodes.len() ==> sound::sound_inline(#[trigger] nodes[k], parents, count),
        forall|k: int|
            0 <= k < i ==> inline_resolves(
                s,
                layout,
                #[trigger] done[k],
                sound::cut_inline(nodes[k]),
                parents,
            ),
    ensures
        ({
            let encoded = semantic::inline_list_encoded(nodes, i, before, done).0;
            &&& encoded.len() == nodes.len()
            &&& forall|k: int|
                0 <= k < nodes.len() ==> inline_resolves(
                    s,
                    layout,
                    #[trigger] encoded[k],
                    sound::cut_inline(nodes[k]),
                    parents,
                )
        }),
    decreases nodes, nodes.len() - i,
{
    if i < nodes.len() {
        let (one, next) = semantic::inline_encoded(nodes[i], before);
        let longer = done.push(one);
        lemma_inline_grows(nodes[i], before);
        lemma_inlines_grow(nodes, i + 1, next, longer);
        strings::lemma_grows_trans(
            next,
            semantic::inline_list_encoded(nodes, i + 1, next, longer).1,
            whole,
        );
        assert(sound::sound_inline(nodes[i], parents, count));
        lemma_inline_resolves(s, layout, nodes[i], parents, count, before, whole);
        lemma_inlines_resolve(s, layout, nodes, i + 1, parents, count, next, longer, whole);
    }
}

proof fn lemma_inline_list_of(
    s: Seq<u8>,
    layout: ParsedLayout,
    encoded: Seq<EncodedInlineView>,
    i: int,
    nodes: Seq<InlineView>,
    parents: Seq<AddressRange>,
)
    requires
        0 <= i <= encoded.len(),
        encoded.len() == nodes.len(),
        forall|k: int|
            0 <= k < nodes.len() ==> inline_resolves(
                s,
                layout,
                #[trigger] encoded[k],
                nodes[k],
                parents,
            ),
    ensures
        owned::inline_list_of(s, layout, encoded, i, nodes.subrange(0, i)) == Ok::<
            Seq<InlineView>,
            Error,
        >(nodes),
    decreases encoded.len() - i,
{
    if i < encoded.len() {
        assert(inline_resolves(s, layout, encoded[i], nodes[i], parents));
        assert(nodes.subrange(0, i).push(nodes[i]) =~= nodes.subrange(0, i + 1));
        lemma_inline_list_of(s, layout, encoded, i + 1, nodes, parents);
    } else {
        assert(nodes.subrange(0, i) =~= nodes);
    }
}

/// Encoding a function adds strings to a table.
pub proof fn lemma_function_grows(function: FunctionView, before: Seq<Seq<u8>>, depth: nat)
    requires
        strings::is_table(before),
    ensures
        semantic::function_encoded(function, before, depth) matches Ok((_, grown))
            ==> strings::is_table(grown) && strings::grows(before, grown),
    decreases function, 0int,
{
    if function::merged_depth_error(depth) is None {
        let named = strings::interned(before, function.name);
        strings::lemma_interned(before, function.name);
        let (_, inlined) = semantic::inline_option_encoded(function.inline, named);
        if let Some(node) = function.inline {
            lemma_inline_grows(node, named);
        } else {
            assert(named.subrange(0, named.len() as int) =~= named);
        }
        strings::lemma_grows_trans(before, named, inlined);
        lemma_functions_grow(function.merged, 0, inlined, depth + 1, Seq::empty());
        if let Ok((_, merged)) = semantic::functions_encoded(
            function.merged,
            0,
            inlined,
            depth + 1,
            Seq::empty(),
        ) {
            strings::lemma_grows_trans(before, inlined, merged);
            lemma_sites_grow(function.call_sites, 0, merged, Seq::empty());
            strings::lemma_grows_trans(
                before,
                merged,
                semantic::sites_encoded(function.call_sites, 0, merged, Seq::empty()).1,
            );
        }
    }
}

/// Adding the names of functions only adds strings.
pub proof fn lemma_functions_grow(
    functions: Seq<FunctionView>,
    i: int,
    before: Seq<Seq<u8>>,
    depth: nat,
    done: Seq<EncodedFunctionView>,
)
    requires
        strings::is_table(before),
        0 <= i,
    ensures
        semantic::functions_encoded(functions, i, before, depth, done) matches Ok((_, grown))
            ==> strings::is_table(grown) && strings::grows(before, grown),
    decreases functions, functions.len() - i,
{
    if i < functions.len() {
        lemma_function_grows(functions[i], before, depth);
        if let Ok((one, next)) = semantic::function_encoded(functions[i], before, depth) {
            lemma_functions_grow(functions, i + 1, next, depth, done.push(one));
            if let Ok((_, grown)) = semantic::functions_encoded(
                functions,
                i + 1,
                next,
                depth,
                done.push(one),
            ) {
                strings::lemma_grows_trans(before, next, grown);
            }
        }
    } else {
        assert(before.subrange(0, before.len() as int) =~= before);
    }
}

/// Whether an encoded function stands for a function.
pub open spec fn function_resolves(
    s: Seq<u8>,
    layout: ParsedLayout,
    encoded: EncodedFunctionView,
    function: FunctionView,
    parent: Option<AddressRange>,
    depth: nat,
) -> bool {
    &&& encoded.range == function.range
    &&& owned::owned_of(s, layout, encoded, parent, depth) == Ok::<FunctionView, Error>(function)
}

proof fn lemma_rows_resolve(
    s: Seq<u8>,
    layout: ParsedLayout,
    rows: Seq<LineEntry>,
    i: int,
    count: nat,
)
    requires
        0 <= i,
        files_resolve(s, layout, count),
        forall|k: int| 0 <= k < rows.len() ==> (#[trigger] rows[k]).file.0 < count,
    ensures
        owned::files_error(s, layout, rows, i) is None,
    decreases rows.len() - i,
{
    if i < rows.len() {
        assert(rows[i].file.0 < count);
        assert(table::file_of(s, layout, FileIndex(rows[i].file.0)) is Ok);
        lemma_rows_resolve(s, layout, rows, i + 1, count);
    }
}

/// The records of a function that meets the rules do not contradict its range.
proof fn lemma_semantics_hold(
    s: Seq<u8>,
    layout: ParsedLayout,
    encoded: EncodedFunctionView,
    function: FunctionView,
    count: nat,
    parent: Option<AddressRange>,
)
    requires
        sound::sound(function, count, parent),
        files_resolve(s, layout, count),
        encoded.range == function.range,
        encoded.lines == semantic::lines_encoded(function.lines),
        encoded.inline is Some <==> function.inline is Some,
        encoded.inline is Some ==> owned::inline_ranges_ok(
            encoded.inline->0,
            seq![function.range],
        ),
        encoded.call_sites.len() == function.call_sites.len(),
        forall|k: int|
            0 <= k < encoded.call_sites.len() ==> (#[trigger] encoded.call_sites[k]).return_offset
                == function.call_sites[k].return_offset,
    ensures
        owned::semantics_error(encoded, parent) is None,
        owned::files_error(s, layout, owned::rows_of(encoded.lines), 0) is None,
        owned::rows_of(encoded.lines) == function.lines,
{
    let rows = owned::rows_of(encoded.lines);
    if function.lines.len() == 0 {
        assert(rows =~= function.lines);
    }
    assert forall|k: int| 0 <= k < rows.len() implies (#[trigger] rows[k]).file.0 < count by {
        assert(sound::sound_row(function.lines[k], function.range, count));
    }
    lemma_rows_resolve(s, layout, rows, 0, count);
    assert(!owned::has_row_outside(encoded)) by {
        if owned::has_row_outside(encoded) {
            let i = choose|i: int|
                0 <= i < rows.len() && owned::row_outside(#[trigger] rows[i], encoded.range);
            assert(sound::sound_row(function.lines[i], function.range, count));
        }
    }
    assert(!owned::has_site_outside(encoded)) by {
        if owned::has_site_outside(encoded) {
            let i = choose|i: int|
                0 <= i < encoded.call_sites.len() && (#[trigger] encoded.call_sites[i]).return_offset
                    >= encoded.range.spec_size();
            assert(function.call_sites[i].return_offset >= function.range.spec_size());
            assert(validation::site_outside(function));
        }
    }
}

/// A function that was written resolves to what is read of it.
proof fn lemma_function_resolves(
    s: Seq<u8>,
    layout: ParsedLayout,
    function: FunctionView,
    count: nat,
    parent: Option<AddressRange>,
    depth: nat,
    before: Seq<Seq<u8>>,
    whole: Seq<Seq<u8>>,
)
    requires
        strings::is_table(before),
        semantic::function_encoded(function, before, depth) is Ok,
        strings::grows(semantic::function_encoded(function, before, depth)->Ok_0.1, whole),
        strings_held(s, layout, whole),
        files_resolve(s, layout, count),
        sound::sound(function, count, parent),
    ensures
        function_resolves(
            s,
            layout,
            semantic::function_encoded(function, before, depth)->Ok_0.0,
            sound::cut_function(function),
            parent,
            depth,
        ),
    decreases function, 0int,
{
    let encoded = semantic::function_encoded(function, before, depth)->Ok_0.0;
    let named = strings::interned(before, function.name);
    strings::lemma_interned(before, function.name);
    let (inline, inlined) = semantic::inline_option_encoded(function.inline, named);
    if let Some(node) = function.inline {
        lemma_inline_grows(node, named);
    } else {
        assert(named.subrange(0, named.len() as int) =~= named);
    }
    let (merged, with_merged) = semantic::functions_encoded(
        function.merged,
        0,
        inlined,
        depth + 1,
        Seq::empty(),
    )->Ok_0;
    lemma_functions_grow(function.merged, 0, inlined, depth + 1, Seq::empty());
    let (sites, last) = semantic::sites_encoded(
        function.call_sites,
        0,
        with_merged,
        Seq::empty(),
    );
    lemma_sites_grow(function.call_sites, 0, with_merged, Seq::empty());
    strings::lemma_grows_trans(with_merged, last, whole);
    strings::lemma_grows_trans(inlined, with_merged, whole);
    strings::lemma_grows_trans(named, inlined, whole);
    lemma_string_resolves(s, layout, before, function.name, whole);
    if let Some(node) = function.inline {
        lemma_inline_resolves(s, layout, node, seq![function.range], count, named, whole);
    }
    lemma_functions_resolve(
        s,
        layout,
        function.merged,
        0,
        count,
        Some(function.range),
        depth + 1,
        inlined,
        Seq::empty(),
        whole,
    );
    sound::lemma_cut_function(function);
    let read_merged = sound::cut_functions(function.merged);
    assert(read_merged.subrange(0, 0) =~= Seq::<FunctionView>::empty());
    lemma_owned_list_of(s, layout, merged, 0, read_merged, function.range, depth + 1);
    lemma_sites_resolve(
        s,
        layout,
        function.call_sites,
        0,
        with_merged,
        Seq::empty(),
        whole,
    );
    let read_sites = sound::cut_sites(function.call_sites);
    assert(read_sites.subrange(0, 0) =~= Seq::<CallSiteView>::empty());
    assert forall|k: int| 0 <= k < sites.len() implies {
        &&& site_resolves(s, layout, #[trigger] sites[k], read_sites[k])
        &&& sites[k].return_offset == function.call_sites[k].return_offset
    } by {
        assert(site_resolves(s, layout, sites[k], sound::cut_site(function.call_sites[k])));
    }
    lemma_sites_of(s, layout, sites, 0, read_sites);
    lemma_semantics_hold(s, layout, encoded, function, count, parent);
}

/// Functions that were written resolve to what is read of them.
pub proof fn lemma_functions_resolve(
    s: Seq<u8>,
    layout: ParsedLayout,
    functions: Seq<FunctionView>,
    i: int,
    count: nat,
    parent: Option<AddressRange>,
    depth: nat,
    before: Seq<Seq<u8>>,
    done: Seq<EncodedFunctionView>,
    whole: Seq<Seq<u8>>,
)
    requires
        strings::is_table(before),
        0 <= i <= functions.len(),
        done.len() == i,
        semantic::functions_encoded(functions, i, before, depth, done) is Ok,
        strings::grows(
            semantic::functions_encoded(functions, i, before, depth, done)->Ok_0.1,
            whole,
        ),
        strings_held(s, layout, whole),
        files_resolve(s, layout, count),
        forall|k: int|
            0 <= k < functions.len() ==> sound::sound(#[trigger] functions[k], count, parent),
        forall|k: int|
            0 <= k < i ==> function_resolves(
                s,
                layout,
                #[trigger] done[k],
                sound::cut_function(functions[k]),
                parent,
                depth,
            ),
    ensures
        ({
            let encoded = semantic::functions_encoded(functions, i, before, depth, done)->Ok_0.0;
            &&& encoded.len() == functions.len()
            &&& forall|k: int|
                0 <= k < functions.len() ==> function_resolves(
                    s,
                    layout,
                    #[trigger] encoded[k],
                    sound::cut_function(functions[k]),
                    parent,
                    depth,
                )
        }),
    decreases functions, functions.len() - i,
{
    if i < functions.len() {
        let (one, next) = semantic::function_encoded(functions[i], before, depth)->Ok_0;
        let longer = done.push(one);
        lemma_function_grows(functions[i], before, depth);
        lemma_functions_grow(functions, i + 1, next, depth, longer);
        strings::lemma_grows_trans(
            next,
            semantic::functions_encoded(functions, i + 1, next, depth, longer)->Ok_0.1,
            whole,
        );
        assert(sound::sound(functions[i], count, parent));
        lemma_function_resolves(
            s,
            layout,
            functions[i],
            count,
            parent,
            depth,
            before,
            whole,
        );
        lemma_functions_resolve(
            s,
            layout,
            functions,
            i + 1,
            count,
            parent,
            depth,
            next,
            longer,
            whole,
        );
    }
}

proof fn lemma_owned_list_of(
    s: Seq<u8>,
    layout: ParsedLayout,
    encoded: Seq<EncodedFunctionView>,
    i: int,
    functions: Seq<FunctionView>,
    parent: AddressRange,
    depth: nat,
)
    requires
        0 <= i <= encoded.len(),
        encoded.len() == functions.len(),
        forall|k: int|
            0 <= k < functions.len() ==> function_resolves(
                s,
                layout,
                #[trigger] encoded[k],
                functions[k],
                Some(parent),
                depth,
            ),
    ensures
        owned::owned_list_of(
            s,
            layout,
            encoded,
            i,
            parent,
            depth,
            functions.subrange(0, i),
        ) == Ok::<Seq<FunctionView>, Error>(functions),
    decreases encoded.len() - i,
{
    if i < encoded.len() {
        assert(function_resolves(s, layout, encoded[i], functions[i], Some(parent), depth));
        assert(functions.subrange(0, i).push(functions[i]) =~= functions.subrange(0, i + 1));
        lemma_owned_list_of(s, layout, encoded, i + 1, functions, parent, depth);
    } else {
        assert(functions.subrange(0, i) =~= functions);
    }
}

/// Adding the names of files only adds strings.
pub proof fn lemma_files_grow(
    files: Seq<FileView>,
    i: int,
    before: Seq<Seq<u8>>,
    done: Seq<(u64, u64)>,
)
    requires
        strings::is_table(before),
        0 <= i,
    ensures
        strings::is_table(semantic::files_encoded(files, i, before, done).1),
        strings::grows(before, semantic::files_encoded(files, i, before, done).1),
    decreases files.len() - i,
{
    if i < files.len() {
        let one = strings::interned(before, files[i].directory);
        let two = strings::interned(one, files[i].basename);
        let longer = done.push(
            (
                strings::interned_offset(before, files[i].directory),
                strings::interned_offset(one, files[i].basename),
            ),
        );
        strings::lemma_interned(before, files[i].directory);
        strings::lemma_interned(one, files[i].basename);
        lemma_files_grow(files, i + 1, two, longer);
        strings::lemma_grows_trans(before, one, two);
        strings::lemma_grows_trans(
            before,
            two,
            semantic::files_encoded(files, i + 1, two, longer).1,
        );
    } else {
        assert(before.subrange(0, before.len() as int) =~= before);
    }
}

/// Whether the offsets of a file entry stand for a file.
pub open spec fn file_resolves(
    s: Seq<u8>,
    layout: ParsedLayout,
    entry: (u64, u64),
    file: FileView,
) -> bool {
    &&& table::string_of(s, layout.string_table, entry.0) == Ok::<Seq<u8>, Error>(file.directory)
    &&& table::string_of(s, layout.string_table, entry.1) == Ok::<Seq<u8>, Error>(file.basename)
}

/// Files that were written resolve to what is read of them.
pub proof fn lemma_files_resolve(
    s: Seq<u8>,
    layout: ParsedLayout,
    files: Seq<FileView>,
    i: int,
    before: Seq<Seq<u8>>,
    done: Seq<(u64, u64)>,
    whole: Seq<Seq<u8>>,
)
    requires
        strings::is_table(before),
        0 <= i <= files.len(),
        done.len() == i,
        strings::grows(semantic::files_encoded(files, i, before, done).1, whole),
        strings_held(s, layout, whole),
        forall|k: int|
            0 <= k < i ==> file_resolves(
                s,
                layout,
                #[trigger] done[k],
                sound::cut_file(files[k]),
            ),
    ensures
        ({
            let entries = semantic::files_encoded(files, i, before, done).0;
            &&& entries.len() == files.len()
            &&& forall|k: int|
                0 <= k < files.len() ==> file_resolves(
                    s,
                    layout,
                    #[trigger] entries[k],
                    sound::cut_file(files[k]),
                )
        }),
    decreases files.len() - i,
{
    if i < files.len() {
        let one = strings::interned(before, files[i].directory);
        let two = strings::interned(one, files[i].basename);
        let entry = (
            strings::interned_offset(before, files[i].directory),
            strings::interned_offset(one, files[i].basename),
        );
        let longer = done.push(entry);
        strings::lemma_interned(before, files[i].directory);
        strings::lemma_interned(one, files[i].basename);
        lemma_files_grow(files, i + 1, two, longer);
        strings::lemma_grows_trans(
            two,
            semantic::files_encoded(files, i + 1, two, longer).1,
            whole,
        );
        strings::lemma_grows_trans(one, two, whole);
        lemma_string_resolves(s, layout, before, files[i].directory, whole);
        lemma_string_resolves(s, layout, one, files[i].basename, whole);
        assert(file_resolves(s, layout, entry, sound::cut_file(files[i])));
        lemma_files_resolve(s, layout, files, i + 1, two, longer, whole);
    }
}

} // verus!
