//! What a lookup answers, told from the decoded functions and files.
use vstd::prelude::*;
use crate::endian;
use crate::endian::Endian;
use crate::error::Error;
use crate::format::callsite;
use crate::format::function;
use crate::format::function::{
    EncodedCallSiteView, EncodedFunctionView, EncodedInlineView, RecordSet,
};
use crate::format::line;
use crate::model;
use crate::model::{
    AddressRange, CallSiteFlags, CallSiteView, FileIndex, FileView, FrameView, FunctionView,
    InlineView, LineEntry, LookupView,
};
use crate::reader::layout::ParsedLayout;
use crate::reader::lookup;
use crate::reader::lookup::{LookupOptions, PreparedView, Scanned};
use crate::reader::owned;
use crate::reader::scan;
use crate::reader::scratch::RawInlineFrame;
use crate::reader::search;
use crate::reader::table;
use crate::reader::table::RawView;
use crate::reader::verify;
use crate::transform;

verus! {

/// Whether the function with index `k` answers for an address: it contains it,
/// or its size is unknown and no function starts between it and the address.
pub open spec fn answers(ranges: Seq<AddressRange>, address: u64, k: int) -> bool {
    &&& 0 <= k < ranges.len()
    &&& ranges[k].start <= address
    &&& ranges[k].spec_contains(address) || (ranges[k].spec_size() == 0 && forall|j: int|
        0 <= j < ranges.len() && (#[trigger] ranges[j]).start <= address ==> ranges[j].start
            <= ranges[k].start)
}

/// Whether the range with index `k` is the one that a lookup of `address` finds:
/// of those that answer, it starts last, and is the first with its start.
pub open spec fn is_found(ranges: Seq<AddressRange>, address: u64, k: int) -> bool {
    &&& answers(ranges, address, k)
    &&& forall|j: int| #[trigger]
        answers(ranges, address, j) ==> ranges[j].start < ranges[k].start || (ranges[j].start
            == ranges[k].start && k <= j)
}

/// The ranges of functions.
pub open spec fn ranges_of(functions: Seq<FunctionView>) -> Seq<AddressRange> {
    Seq::new(functions.len(), |i: int| functions[i].range)
}

/// Whether the function with index `k` is the one that a lookup of `address`
/// finds.
pub open spec fn is_answer(functions: Seq<FunctionView>, address: u64, k: int) -> bool {
    is_found(ranges_of(functions), address, k)
}

/// A named inline call.
pub struct CallView {
    /// Name of the function that was inlined.
    pub name: Seq<u8>,
    /// File of the call.
    pub call_file: FileIndex,
    /// Line of the call.
    pub call_line: u32,
    /// Where the inlined code starts.
    pub start: u64,
}

/// The named calls of an inline tree that cover an address, the outermost
/// first: of the children of a node, the first that covers it is followed.
pub open spec fn calls_of(node: InlineView, address: u64) -> Seq<CallView>
    decreases node, 0int,
{
    if !scan::covers(node.ranges, address) {
        Seq::empty()
    } else {
        let own = if node.name.len() == 0 {
            Seq::empty()
        } else {
            seq![
                CallView {
                    name: node.name,
                    call_file: node.call_file,
                    call_line: node.call_line,
                    start: node.ranges[0].start,
                },
            ]
        };
        own + calls_through(node.children, 0, address)
    }
}

/// The calls through the first of the children from index `i` on that covers
/// the address.
pub open spec fn calls_through(children: Seq<InlineView>, i: int, address: u64) -> Seq<CallView>
    decreases children, children.len() - i,
    when 0 <= i
{
    if i >= children.len() {
        Seq::empty()
    } else if scan::covers(children[i].ranges, address) {
        calls_of(children[i], address)
    } else {
        calls_through(children, i + 1, address)
    }
}

/// The calls of a function that cover an address. Where the root of the inline
/// tree covers it and has no name, it stands for the function.
pub open spec fn calls_in(function: FunctionView, address: u64) -> Seq<CallView> {
    match function.inline {
        None => Seq::empty(),
        Some(node) => if scan::covers(node.ranges, address) && node.name.len() == 0 {
            seq![
                CallView {
                    name: function.name,
                    call_file: FileIndex(0),
                    call_line: 0,
                    start: function.range.start,
                },
            ] + calls_through(node.children, 0, address)
        } else {
            calls_of(node, address)
        },
    }
}

/// File and line of a row; none where there is no row.
pub open spec fn position_in(files: Seq<FileView>, row: Option<LineEntry>) -> (FileView, u32) {
    match row {
        None => (model::empty_file(), 0),
        Some(row) => (files[row.file.0 as int], row.line),
    }
}

/// How far an address lies behind a start; one before it does not.
pub open spec fn behind(address: u64, start: u64) -> u64 {
    if start <= address {
        (address - start) as u64
    } else {
        0
    }
}

/// The frame of the call with the given index. The innermost stands at
/// `position`; each other stands where it calls the next.
pub open spec fn call_frame(
    files: Seq<FileView>,
    calls: Seq<CallView>,
    position: (FileView, u32),
    address: u64,
    index: int,
) -> FrameView {
    let (file, line) = if index + 1 < calls.len() {
        (files[calls[index + 1].call_file.0 as int], calls[index + 1].call_line)
    } else {
        position
    };
    FrameView {
        name: calls[index].name,
        directory: file.directory,
        basename: file.basename,
        line,
        offset: behind(address, calls[index].start),
        inlined: index != 0,
    }
}

/// The frames of the calls, the innermost first; of a function without such
/// calls, its own.
pub open spec fn frames_in(
    function: FunctionView,
    files: Seq<FileView>,
    calls: Seq<CallView>,
    position: (FileView, u32),
    address: u64,
) -> Seq<FrameView> {
    if calls.len() == 0 {
        seq![
            FrameView {
                name: function.name,
                directory: position.0.directory,
                basename: position.0.basename,
                line: position.1,
                offset: behind(address, function.range.start),
                inlined: false,
            },
        ]
    } else {
        Seq::new(
            calls.len(),
            |i: int| call_frame(files, calls, position, address, calls.len() - 1 - i),
        )
    }
}

/// The patterns of the first `count` call sites that return to `return_offset`.
pub open spec fn patterns_in(sites: Seq<CallSiteView>, count: int, return_offset: u64) -> Seq<
    Seq<u8>,
>
    decreases count,
{
    if count <= 0 {
        Seq::empty()
    } else {
        let before = patterns_in(sites, count - 1, return_offset);
        if sites[count - 1].return_offset == return_offset {
            before + sites[count - 1].match_regex
        } else {
            before
        }
    }
}

/// What a lookup of an address in a function answers.
pub open spec fn answer_of(
    function: FunctionView,
    files: Seq<FileView>,
    address: u64,
    options: LookupOptions,
) -> LookupView {
    let row = if options.line_information {
        line::row_in_effect(function.lines, address)
    } else {
        None
    };
    let calls = if options.inline_frames {
        calls_in(function, address)
    } else {
        Seq::empty()
    };
    LookupView {
        address,
        function: function.range,
        frames: frames_in(function, files, calls, position_in(files, row), address),
        call_site_patterns: if options.call_sites {
            patterns_in(
                function.call_sites,
                function.call_sites.len() as int,
                behind(address, function.range.start),
            )
        } else {
            Seq::empty()
        },
    }
}

/// Whether no node of an encoded inline tree has a name that is empty: a node
/// without a name refers to none.
pub open spec fn names_shown(s: Seq<u8>, layout: ParsedLayout, node: EncodedInlineView) -> bool
    decreases node,
{
    &&& node.name != 0 ==> !(table::string_of(s, layout.string_table, node.name) matches Ok(name)
        && name.len() == 0)
    &&& forall|i: int|
        0 <= i < node.children.len() ==> names_shown(s, layout, #[trigger] node.children[i])
}

/// Whether no inline call of the function with index `k` has an empty name.
pub open spec fn shows_names(s: Seq<u8>, layout: ParsedLayout, k: int) -> bool {
    verify::found_of(s, layout, k) matches Ok(Some(found)) ==> {
        verify::encoded_of(layout, found.raw) matches Ok(encoded) ==> {
            encoded.inline matches Some(node) ==> names_shown(s, layout, node)
        }
    }
}

/// What verification and decoding see of the function with index `k`.
pub proof fn lemma_function(s: Seq<u8>, layout: ParsedLayout, k: int)
    requires
        verify::verify_error(s, layout) is None,
        0 <= k < layout.address_count,
    ensures
        table::address_of(s, layout, k) is Ok,
        verify::found_of(s, layout, k) is Ok,
        verify::found_of(s, layout, k)->Ok_0 is Some,
        ({
            let start = table::address_of(s, layout, k)->Ok_0;
            let found = verify::found_of(s, layout, k)->Ok_0->0;
            let function = verify::functions_of(s, layout)[k];
            &&& start == layout.base_address + table::entry_of(s, layout, k)
            &&& table::raw_of(s, layout, k, start) == Ok::<RawView, Error>(found.raw)
            &&& found.raw.range.start == start
            &&& verify::decoded_of(s, layout, found.raw) == Ok::<FunctionView, Error>(function)
            &&& verify::encoded_of(layout, found.raw) is Ok
            &&& function.range == found.raw.range
            &&& function.name == found.name
            &&& table::string_of(s, layout.string_table, found.raw.name) == Ok::<Seq<u8>, Error>(
                function.name,
            )
        }),
{
    verify::law_verified_functions(s, layout);
    let found = verify::found_of(s, layout, k)->Ok_0->0;
    assert(verify::decoded_of(s, layout, found.raw) is Ok);
    let raw = found.raw;
    let (encoded, end) = function::function_at(
        raw.data,
        0,
        layout.string_offset_size,
        layout.endian,
        raw.range.start,
    )->Ok_0;
    let (size, p1) = endian::uint_at(raw.data, 0, 4, layout.endian)->Ok_0;
    let (name, p2) = endian::uint_at(
        raw.data,
        p1,
        layout.string_offset_size as int,
        layout.endian,
    )->Ok_0;
    let bare = function::bare_function(
        AddressRange { start: raw.range.start, end: (raw.range.start + size) as u64 },
        name,
    );
    lemma_records_keep_head(
        raw.data,
        p2,
        layout.string_offset_size,
        layout.endian,
        bare,
        RecordSet::empty(),
    );
}

proof fn lemma_record_advances(data: Seq<u8>, pos: int, endian: Endian)
    requires
        0 <= pos <= data.len(),
    ensures
        function::record_at(data, pos, endian) matches Ok((record, end)) ==> pos < end
            <= data.len(),
{
}

/// Reading records changes neither the range nor the name of a function.
proof fn lemma_records_keep_head(
    data: Seq<u8>,
    pos: int,
    width: u8,
    endian: Endian,
    function: EncodedFunctionView,
    seen: RecordSet,
)
    requires
        0 <= pos <= data.len(),
        function::records_at(data, pos, width, endian, function, seen) is Ok,
    ensures
        ({
            let last = function::records_at(data, pos, width, endian, function, seen)->Ok_0.0;
            last.range == function.range && last.name == function.name
        }),
    decreases data.len() - pos,
{
    lemma_record_advances(data, pos, endian);
    if let Ok((Some(record), end)) = function::record_at(data, pos, endian) {
        let set = seen.with(record.kind)->Ok_0;
        let next = function::with_record(
            function,
            record,
            width,
            endian,
            function.range.start,
        )->Ok_0;
        lemma_records_keep_head(data, end, width, endian, next, set);
    }
}

/// A record reads the same from where the records start.
proof fn lemma_record_shifts(data: Seq<u8>, from: int, pos: int, endian: Endian)
    requires
        0 <= from <= pos <= data.len(),
        function::record_at(data, pos, endian) is Ok,
    ensures
        ({
            let (record, end) = function::record_at(data, pos, endian)->Ok_0;
            function::record_at(data.subrange(from, data.len() as int), pos - from, endian) == Ok::<
                (Option<function::RecordView>, int),
                Error,
            >((record, end - from))
        }),
{
    let rest = data.subrange(from, data.len() as int);
    let at = pos - from;
    assert(rest.subrange(at, at + 4) =~= data.subrange(pos, pos + 4));
    assert(rest.subrange(at + 4, at + 8) =~= data.subrange(pos + 4, pos + 8));
    let (record, end) = function::record_at(data, pos, endian)->Ok_0;
    if record is Some {
        assert(rest.subrange(at + 8, end - from) =~= data.subrange(pos + 8, end));
    }
}

/// Whether what a lookup found in the records is what decoding made of them.
spec fn agrees(
    function: EncodedFunctionView,
    found: Scanned,
    width: u8,
    endian: Endian,
    address: u64,
    options: LookupOptions,
) -> bool {
    &&& found.line == if options.line_information {
        line::row_in_effect(owned::rows_of(function.lines), address)
    } else {
        None
    }
    &&& match found.inline {
        None => options.inline_frames ==> function.inline is None,
        Some(payload) => {
            &&& options.inline_frames
            &&& function.inline is Some
            &&& function::inline_decoded(payload, width, endian, function.range.start) == Ok::<
                EncodedInlineView,
                Error,
            >(function.inline->0)
        },
    }
    &&& match found.call_sites {
        None => options.call_sites ==> function.call_sites.len() == 0,
        Some(payload) => {
            &&& options.call_sites
            &&& callsite::call_sites_decoded(payload, width, endian) == Ok::<
                Seq<EncodedCallSiteView>,
                Error,
            >(function.call_sites)
        },
    }
}

proof fn lemma_scan_agrees(
    data: Seq<u8>,
    from: int,
    pos: int,
    width: u8,
    endian: Endian,
    function: EncodedFunctionView,
    seen: RecordSet,
    address: u64,
    options: LookupOptions,
    found: Scanned,
)
    requires
        0 <= from <= pos <= data.len(),
        function::records_at(data, pos, width, endian, function, seen) is Ok,
        agrees(function, found, width, endian, address, options),
    ensures
        ({
            let last = function::records_at(data, pos, width, endian, function, seen)->Ok_0.0;
            &&& lookup::scan_records_at(
                data.subrange(from, data.len() as int),
                pos - from,
                endian,
                function.range.start,
                address,
                options,
                found,
            ) matches Ok(scanned)
            &&& agrees(last, scanned, width, endian, address, options)
        }),
    decreases data.len() - pos,
{
    lemma_record_advances(data, pos, endian);
    lemma_record_shifts(data, from, pos, endian);
    if let Ok((Some(record), end)) = function::record_at(data, pos, endian) {
        let base = function.range.start;
        let set = seen.with(record.kind)->Ok_0;
        let next = function::with_record(function, record, width, endian, base)->Ok_0;
        if record.kind is LineTable && options.line_information {
            line::law_lookup_is_last_row(record.payload, base, address);
        }
        let grown = lookup::with_scanned(found, record, base, address, options)->Ok_0;
        lemma_scan_agrees(
            data,
            from,
            end,
            width,
            endian,
            next,
            set,
            address,
            options,
            grown,
        );
    }
}

/// Each tree of a list that decodes decodes by itself.
pub proof fn lemma_inline_list(
    s: Seq<u8>,
    layout: ParsedLayout,
    nodes: Seq<EncodedInlineView>,
    i: int,
    done: Seq<InlineView>,
)
    requires
        0 <= i <= nodes.len(),
        done.len() == i,
        owned::inline_list_of(s, layout, nodes, i, done) is Ok,
    ensures
        ({
            let views = owned::inline_list_of(s, layout, nodes, i, done)->Ok_0;
            &&& views.len() == nodes.len()
            &&& forall|k: int| 0 <= k < i ==> views[k] == done[k]
            &&& forall|k: int|
                i <= k < nodes.len() ==> owned::inline_of(s, layout, #[trigger] nodes[k]) == Ok::<
                    InlineView,
                    Error,
                >(views[k])
        }),
    decreases nodes.len() - i,
{
    if i < nodes.len() {
        let view = owned::inline_of(s, layout, nodes[i])->Ok_0;
        lemma_inline_list(s, layout, nodes, i + 1, done.push(view));
        let views = owned::inline_list_of(s, layout, nodes, i, done)->Ok_0;
        assert(views[i] == done.push(view)[i]);
        assert forall|k: int| 0 <= k < i implies views[k] == done[k] by {
            assert(views[k] == done.push(view)[k]);
        }
    }
}

/// Whether a frame that a walk found is a named call, with its name and file
/// in the tables.
spec fn call_matches(s: Seq<u8>, layout: ParsedLayout, frame: RawInlineFrame, call: CallView) -> bool {
    &&& frame.name != 0
    &&& table::string_of(s, layout.string_table, frame.name) == Ok::<Seq<u8>, Error>(call.name)
    &&& frame.call_file == call.call_file
    &&& frame.call_line == call.call_line
    &&& frame.start == call.start
    &&& table::file_of(s, layout, frame.call_file) is Ok
}

spec fn calls_match(
    s: Seq<u8>,
    layout: ParsedLayout,
    frames: Seq<RawInlineFrame>,
    calls: Seq<CallView>,
) -> bool {
    &&& frames.len() == calls.len()
    &&& forall|i: int|
        0 <= i < frames.len() ==> call_matches(s, layout, #[trigger] frames[i], calls[i])
}

/// Whether the frames that a walk found are calls, the first of them perhaps that
/// of the function with the given name.
spec fn rooted_match(
    s: Seq<u8>,
    layout: ParsedLayout,
    name: Seq<u8>,
    frames: Seq<RawInlineFrame>,
    calls: Seq<CallView>,
) -> bool {
    &&& frames.len() == calls.len()
    &&& frames.len() > 0 && frames[0].name == 0 ==> calls[0].name == name && calls[0].start
        == frames[0].start
    &&& frames.len() > 0 && frames[0].name != 0 ==> call_matches(s, layout, frames[0], calls[0])
    &&& forall|i: int|
        0 < i < frames.len() ==> call_matches(s, layout, #[trigger] frames[i], calls[i])
}

proof fn lemma_rooted_calls(
    s: Seq<u8>,
    layout: ParsedLayout,
    node: EncodedInlineView,
    function: FunctionView,
    address: u64,
)
    requires
        owned::inline_of(s, layout, node) is Ok,
        function.inline == Some(owned::inline_of(s, layout, node)->Ok_0),
        names_shown(s, layout, node),
    ensures
        rooted_match(
            s,
            layout,
            function.name,
            scan::rooted_path(node, function.range.start, address),
            calls_in(function, address),
        ),
{
    let view = owned::inline_of(s, layout, node)->Ok_0;
    lemma_calls(s, layout, node, address);
    lemma_inline_list(s, layout, node.children, 0, Seq::empty());
    if scan::covers(node.ranges, address) && node.name == 0 {
        lemma_calls_through(s, layout, node.children, view.children, 0, address);
        let inner = scan::path_through(node.children, 0, address);
        let calls = calls_through(view.children, 0, address);
        let whole = scan::rooted_path(node, function.range.start, address);
        let all = calls_in(function, address);
        assert forall|i: int| 0 < i < whole.len() implies call_matches(
            s,
            layout,
            #[trigger] whole[i],
            all[i],
        ) by {
            assert(whole[i] == inner[i - 1]);
            assert(all[i] == calls[i - 1]);
        }
    } else {
        let whole = scan::path_of(node, address);
        if whole.len() > 0 {
            assert(call_matches(s, layout, whole[0], calls_of(view, address)[0]));
        }
    }
}

proof fn lemma_calls(s: Seq<u8>, layout: ParsedLayout, node: EncodedInlineView, address: u64)
    requires
        owned::inline_of(s, layout, node) is Ok,
        names_shown(s, layout, node),
    ensures
        calls_match(
            s,
            layout,
            scan::path_of(node, address),
            calls_of(owned::inline_of(s, layout, node)->Ok_0, address),
        ),
    decreases node, 0int,
{
    let view = owned::inline_of(s, layout, node)->Ok_0;
    lemma_inline_list(s, layout, node.children, 0, Seq::empty());
    if scan::covers(node.ranges, address) {
        lemma_calls_through(s, layout, node.children, view.children, 0, address);
        let inner = scan::path_through(node.children, 0, address);
        let calls = calls_through(view.children, 0, address);
        let whole = scan::path_of(node, address);
        let all = calls_of(view, address);
        if node.name == 0 {
            assert(whole =~= inner);
            assert(all =~= calls);
        } else {
            assert(whole.len() == inner.len() + 1);
            assert forall|i: int| 0 <= i < whole.len() implies call_matches(
                s,
                layout,
                #[trigger] whole[i],
                all[i],
            ) by {
                if i > 0 {
                    assert(whole[i] == inner[i - 1]);
                    assert(all[i] == calls[i - 1]);
                }
            }
        }
    }
}

proof fn lemma_calls_through(
    s: Seq<u8>,
    layout: ParsedLayout,
    nodes: Seq<EncodedInlineView>,
    views: Seq<InlineView>,
    i: int,
    address: u64,
)
    requires
        0 <= i <= nodes.len(),
        nodes.len() == views.len(),
        forall|k: int|
            0 <= k < nodes.len() ==> owned::inline_of(s, layout, #[trigger] nodes[k]) == Ok::<
                InlineView,
                Error,
            >(views[k]),
        forall|k: int| 0 <= k < nodes.len() ==> names_shown(s, layout, #[trigger] nodes[k]),
    ensures
        calls_match(
            s,
            layout,
            scan::path_through(nodes, i, address),
            calls_through(views, i, address),
        ),
    decreases nodes, nodes.len() - i,
{
    if i < nodes.len() {
        assert(owned::inline_of(s, layout, nodes[i]) == Ok::<InlineView, Error>(views[i]));
        assert(names_shown(s, layout, nodes[i]));
        if scan::covers(nodes[i].ranges, address) {
            lemma_calls(s, layout, nodes[i], address);
        } else {
            lemma_calls_through(s, layout, nodes, views, i + 1, address);
        }
    }
}

proof fn lemma_file(s: Seq<u8>, layout: ParsedLayout, index: FileIndex)
    requires
        table::file_of(s, layout, index) is Ok,
    ensures
        table::file_of(s, layout, index) == Ok::<FileView, Error>(
            transform::files_of(s, layout)[index.0 as int],
        ),
{
    assert(FileIndex((index.0 as int) as u32) == index);
}

proof fn lemma_frames(
    s: Seq<u8>,
    layout: ParsedLayout,
    address: u64,
    prepared: PreparedView,
    calls: Seq<CallView>,
    index: int,
    done: Seq<FrameView>,
)
    requires
        0 <= index <= calls.len(),
        rooted_match(s, layout, prepared.function_name, prepared.frames, calls),
    ensures
        ({
            let files = transform::files_of(s, layout);
            let position = (prepared.file, prepared.line);
            lookup::frames_from(s, layout, address, prepared, index, done) == Ok::<
                Seq<FrameView>,
                Error,
            >(
                done + Seq::new(
                    index as nat,
                    |i: int| call_frame(files, calls, position, address, index - 1 - i),
                ),
            )
        }),
    decreases index,
{
    let files = transform::files_of(s, layout);
    let position = (prepared.file, prepared.line);
    let rest = Seq::new(
        index as nat,
        |i: int| call_frame(files, calls, position, address, index - 1 - i),
    );
    if index > 0 {
        if index > 1 || prepared.frames[0].name != 0 {
            assert(call_matches(s, layout, prepared.frames[index - 1], calls[index - 1]));
        }
        if index < calls.len() {
            assert(call_matches(s, layout, prepared.frames[index], calls[index]));
            lemma_file(s, layout, prepared.frames[index].call_file);
        }
        let frame = call_frame(files, calls, position, address, index - 1);
        assert(lookup::frame_of(s, layout, address, prepared, index - 1) == Ok::<FrameView, Error>(
            frame,
        ));
        lemma_frames(s, layout, address, prepared, calls, index - 1, done.push(frame));
        let fewer = Seq::new(
            (index - 1) as nat,
            |i: int| call_frame(files, calls, position, address, index - 2 - i),
        );
        assert(done.push(frame) + fewer =~= done + rest);
    } else {
        assert(done + rest =~= done);
    }
}

proof fn lemma_strings(
    s: Seq<u8>,
    layout: ParsedLayout,
    offsets: Seq<u64>,
    i: int,
    done: Seq<Seq<u8>>,
)
    requires
        0 <= i <= offsets.len(),
        done.len() == i,
        owned::strings_of(s, layout, offsets, i, done) is Ok,
    ensures
        ({
            let strings = owned::strings_of(s, layout, offsets, i, done)->Ok_0;
            &&& strings.len() == offsets.len()
            &&& forall|k: int| 0 <= k < i ==> strings[k] == done[k]
            &&& forall|k: int|
                i <= k < offsets.len() ==> table::string_of(
                    s,
                    layout.string_table,
                    #[trigger] offsets[k],
                ) == Ok::<Seq<u8>, Error>(strings[k])
        }),
    decreases offsets.len() - i,
{
    if i < offsets.len() {
        let string = table::string_of(s, layout.string_table, offsets[i])->Ok_0;
        lemma_strings(s, layout, offsets, i + 1, done.push(string));
        let strings = owned::strings_of(s, layout, offsets, i, done)->Ok_0;
        assert(strings[i] == done.push(string)[i]);
        assert forall|k: int| 0 <= k < i implies strings[k] == done[k] by {
            assert(strings[k] == done.push(string)[k]);
        }
    }
}

/// The offsets of a call site lead to the patterns that decoding found.
proof fn lemma_pattern_offsets(
    s: Seq<u8>,
    layout: ParsedLayout,
    payload: Seq<u8>,
    pos: int,
    count: nat,
    read: Seq<u64>,
    strings: Seq<Seq<u8>>,
    wanted: bool,
    done: Seq<Seq<u8>>,
)
    requires
        callsite::offsets_at(
            payload,
            pos,
            layout.string_offset_size,
            layout.endian,
            count,
            read,
        ) is Ok,
        ({
            let all = callsite::offsets_at(
                payload,
                pos,
                layout.string_offset_size,
                layout.endian,
                count,
                read,
            )->Ok_0.0;
            &&& strings.len() == all.len()
            &&& forall|k: int|
                0 <= k < all.len() ==> table::string_of(
                    s,
                    layout.string_table,
                    #[trigger] all[k],
                ) == Ok::<Seq<u8>, Error>(strings[k])
        }),
    ensures
        ({
            let (all, end) = callsite::offsets_at(
                payload,
                pos,
                layout.string_offset_size,
                layout.endian,
                count,
                read,
            )->Ok_0;
            &&& all.len() == read.len() + count
            &&& forall|k: int| 0 <= k < read.len() ==> all[k] == read[k]
            &&& lookup::pattern_offsets_at(s, layout, payload, pos, count, wanted, done) == Ok::<
                (Seq<Seq<u8>>, int),
                Error,
            >(
                (
                    if wanted {
                        done + strings.subrange(read.len() as int, strings.len() as int)
                    } else {
                        done
                    },
                    end,
                ),
            )
        }),
    decreases count,
{
    if count > 0 {
        let (offset, next) = endian::uint_at(
            payload,
            pos,
            layout.string_offset_size as int,
            layout.endian,
        )->Ok_0;
        let longer = read.push(offset);
        let at = read.len() as int;
        let (all, end) = callsite::offsets_at(
            payload,
            pos,
            layout.string_offset_size,
            layout.endian,
            count,
            read,
        )->Ok_0;
        lemma_pattern_offsets(
            s,
            layout,
            payload,
            next,
            (count - 1) as nat,
            longer,
            strings,
            wanted,
            done,
        );
        assert(all[at] == longer[at]);
        assert forall|k: int| 0 <= k < read.len() implies all[k] == read[k] by {
            assert(all[k] == longer[k]);
        }
        if wanted {
            let string = strings[at];
            lemma_pattern_offsets(
                s,
                layout,
                payload,
                next,
                (count - 1) as nat,
                longer,
                strings,
                wanted,
                done.push(string),
            );
            assert(done.push(string) + strings.subrange(at + 1, strings.len() as int) =~= done
                + strings.subrange(at, strings.len() as int));
        }
    } else if wanted {
        assert(done + strings.subrange(read.len() as int, strings.len() as int) =~= done);
    }
}

/// Whether an encoded call site decodes to a call site.
spec fn site_decodes(
    s: Seq<u8>,
    layout: ParsedLayout,
    site: EncodedCallSiteView,
    view: CallSiteView,
) -> bool {
    &&& site.return_offset == view.return_offset
    &&& owned::strings_of(s, layout, site.match_regex, 0, Seq::empty()) == Ok::<
        Seq<Seq<u8>>,
        Error,
    >(view.match_regex)
}

proof fn lemma_sites_decode(
    s: Seq<u8>,
    layout: ParsedLayout,
    sites: Seq<EncodedCallSiteView>,
    i: int,
    done: Seq<CallSiteView>,
)
    requires
        0 <= i <= sites.len(),
        done.len() == i,
        owned::sites_of(s, layout, sites, i, done) is Ok,
    ensures
        ({
            let views = owned::sites_of(s, layout, sites, i, done)->Ok_0;
            &&& views.len() == sites.len()
            &&& forall|k: int| 0 <= k < i ==> views[k] == done[k]
            &&& forall|k: int|
                i <= k < sites.len() ==> site_decodes(s, layout, #[trigger] sites[k], views[k])
        }),
    decreases sites.len() - i,
{
    if i < sites.len() {
        let match_regex = owned::strings_of(
            s,
            layout,
            sites[i].match_regex,
            0,
            Seq::empty(),
        )->Ok_0;
        let view = CallSiteView {
            return_offset: sites[i].return_offset,
            flags: CallSiteFlags(sites[i].flags),
            match_regex,
        };
        lemma_sites_decode(s, layout, sites, i + 1, done.push(view));
        let views = owned::sites_of(s, layout, sites, i, done)->Ok_0;
        assert(views[i] == done.push(view)[i]);
        assert forall|k: int| 0 <= k < i implies views[k] == done[k] by {
            assert(views[k] == done.push(view)[k]);
        }
    }
}

/// Reading call sites goes on behind those that were read before.
proof fn lemma_sites_read(
    payload: Seq<u8>,
    pos: int,
    width: u8,
    endian: Endian,
    count: nat,
    read: Seq<EncodedCallSiteView>,
)
    requires
        callsite::call_sites_from(payload, pos, width, endian, count, read) is Ok,
    ensures
        ({
            let all = callsite::call_sites_from(payload, pos, width, endian, count, read)->Ok_0.0;
            &&& all.len() == read.len() + count
            &&& forall|k: int| 0 <= k < read.len() ==> all[k] == read[k]
        }),
    decreases count,
{
    if count > 0 {
        let (site, end) = callsite::call_site_at(payload, pos, width, endian)->Ok_0;
        lemma_sites_read(payload, end, width, endian, (count - 1) as nat, read.push(site));
        let all = callsite::call_sites_from(payload, pos, width, endian, count, read)->Ok_0.0;
        assert forall|k: int| 0 <= k < read.len() implies all[k] == read[k] by {
            assert(all[k] == read.push(site)[k]);
        }
    }
}

/// The call sites of a record lead to the patterns that decoding found.
proof fn lemma_pattern_sites(
    s: Seq<u8>,
    layout: ParsedLayout,
    payload: Seq<u8>,
    pos: int,
    count: nat,
    read: Seq<EncodedCallSiteView>,
    views: Seq<CallSiteView>,
    return_offset: u64,
)
    requires
        callsite::call_sites_from(
            payload,
            pos,
            layout.string_offset_size,
            layout.endian,
            count,
            read,
        ) is Ok,
        ({
            let all = callsite::call_sites_from(
                payload,
                pos,
                layout.string_offset_size,
                layout.endian,
                count,
                read,
            )->Ok_0.0;
            &&& views.len() == all.len()
            &&& forall|k: int|
                0 <= k < all.len() ==> site_decodes(s, layout, #[trigger] all[k], views[k])
        }),
    ensures
        ({
            let (all, end) = callsite::call_sites_from(
                payload,
                pos,
                layout.string_offset_size,
                layout.endian,
                count,
                read,
            )->Ok_0;
            lookup::pattern_sites_at(
                s,
                layout,
                payload,
                pos,
                count,
                return_offset,
                patterns_in(views, read.len() as int, return_offset),
            ) == Ok::<(Seq<Seq<u8>>, int), Error>(
                (patterns_in(views, views.len() as int, return_offset), end),
            )
        }),
    decreases count,
{
    let width = layout.string_offset_size;
    let endian = layout.endian;
    lemma_sites_read(payload, pos, width, endian, count, read);
    if count > 0 {
        let (site, next) = callsite::call_site_at(payload, pos, width, endian)->Ok_0;
        let (all, end) = callsite::call_sites_from(payload, pos, width, endian, count, read)->Ok_0;
        let longer = read.push(site);
        let at = read.len() as int;
        lemma_sites_read(payload, next, width, endian, (count - 1) as nat, longer);
        assert(all[at] == longer[at]);
        assert(site_decodes(s, layout, all[at], views[at]));
        let (candidate, p1) = endian::uint_at(payload, pos, 8, endian)->Ok_0;
        let (patterns, p2) = endian::uint_at(payload, p1 + 1, 4, endian)->Ok_0;
        let strings = views[at].match_regex;
        lemma_strings(s, layout, site.match_regex, 0, Seq::empty());
        lemma_pattern_offsets(
            s,
            layout,
            payload,
            p2,
            patterns as nat,
            Seq::empty(),
            strings,
            candidate == return_offset,
            patterns_in(views, at, return_offset),
        );
        assert(strings.subrange(0, strings.len() as int) =~= strings);
        lemma_pattern_sites(
            s,
            layout,
            payload,
            next,
            (count - 1) as nat,
            longer,
            views,
            return_offset,
        );
    }
}

proof fn lemma_patterns(
    s: Seq<u8>,
    layout: ParsedLayout,
    payload: Seq<u8>,
    sites: Seq<EncodedCallSiteView>,
    return_offset: u64,
)
    requires
        callsite::call_sites_decoded(payload, layout.string_offset_size, layout.endian) == Ok::<
            Seq<EncodedCallSiteView>,
            Error,
        >(sites),
        owned::sites_of(s, layout, sites, 0, Seq::empty()) is Ok,
    ensures
        ({
            let views = owned::sites_of(s, layout, sites, 0, Seq::empty())->Ok_0;
            lookup::patterns_of(s, layout, Some(payload), return_offset) == Ok::<
                Seq<Seq<u8>>,
                Error,
            >(patterns_in(views, views.len() as int, return_offset))
        }),
{
    reveal(callsite::call_sites_decoded);
    let (count, p1) = endian::uint_at(payload, 0, 4, layout.endian)->Ok_0;
    let views = owned::sites_of(s, layout, sites, 0, Seq::empty())->Ok_0;
    lemma_sites_decode(s, layout, sites, 0, Seq::empty());
    lemma_pattern_sites(
        s,
        layout,
        payload,
        p1,
        count as nat,
        Seq::empty(),
        views,
        return_offset,
    );
}

proof fn lemma_rows_have_files(
    s: Seq<u8>,
    layout: ParsedLayout,
    rows: Seq<LineEntry>,
    i: int,
    k: int,
)
    requires
        0 <= i <= k < rows.len(),
        owned::files_error(s, layout, rows, i) is None,
    ensures
        table::file_of(s, layout, rows[k].file) is Ok,
    decreases k - i,
{
    if i < k {
        lemma_rows_have_files(s, layout, rows, i + 1, k);
    }
}

proof fn lemma_row_is_one_of_them(rows: Seq<LineEntry>, address: u64)
    ensures
        line::row_in_effect(rows, address) matches Some(row) ==> exists|k: int|
            0 <= k < rows.len() && rows[k] == row,
    decreases rows.len(),
{
    if rows.len() > 0 {
        if rows.last().address <= address {
            assert(rows[rows.len() - 1] == rows.last());
        } else {
            let rest = rows.drop_last();
            lemma_row_is_one_of_them(rest, address);
            if let Some(row) = line::row_in_effect(rest, address) {
                let k = choose|k: int| 0 <= k < rest.len() && rest[k] == row;
                assert(rows[k] == row);
            }
        }
    }
}

/// A lookup in a function that decodes answers what the decoded function says.
proof fn lemma_lookup_in(
    s: Seq<u8>,
    layout: ParsedLayout,
    k: int,
    address: u64,
    options: LookupOptions,
)
    requires
        verify::verify_error(s, layout) is None,
        0 <= k < layout.address_count,
        shows_names(s, layout, k),
    ensures
        ({
            let raw = (verify::found_of(s, layout, k)->Ok_0->0).raw;
            lookup::lookup_in(s, layout, raw, address, options) == Ok::<LookupView, Error>(
                answer_of(
                    verify::functions_of(s, layout)[k],
                    transform::files_of(s, layout),
                    address,
                    options,
                ),
            )
        }),
{
    lemma_function(s, layout, k);
    let function = verify::functions_of(s, layout)[k];
    let files = transform::files_of(s, layout);
    let raw = (verify::found_of(s, layout, k)->Ok_0->0).raw;
    let encoded = verify::encoded_of(layout, raw)->Ok_0;
    let width = layout.string_offset_size;
    let endian = layout.endian;
    let (size, p1) = endian::uint_at(raw.data, 0, 4, endian)->Ok_0;
    let (name, p2) = endian::uint_at(raw.data, p1, width as int, endian)->Ok_0;
    let bare = function::bare_function(raw.range, name);
    if options.line_information || options.inline_frames || options.call_sites {
        lemma_scan_agrees(
            raw.data,
            p2,
            p2,
            width,
            endian,
            bare,
            RecordSet::empty(),
            address,
            options,
            lookup::nothing_scanned(),
        );
    }
    let found = lookup::scanned_of(endian, raw, address, options)->Ok_0;
    lemma_records_keep_head(raw.data, p2, width, endian, bare, RecordSet::empty());
    assert(encoded.range == raw.range);
    assert(agrees(encoded, found, width, endian, address, options));
    let rows = owned::rows_of(encoded.lines);
    assert(function.lines == rows);
    lemma_row_is_one_of_them(rows, address);
    if let Some(row) = found.line {
        let at = choose|at: int| 0 <= at < rows.len() && rows[at] == row;
        lemma_rows_have_files(s, layout, rows, 0, at);
        lemma_file(s, layout, row.file);
    }
    let position = position_in(files, found.line);
    assert(lookup::position_of(s, layout, found.line) == Ok::<(FileView, u32), Error>(position));
    let calls = if options.inline_frames {
        calls_in(function, address)
    } else {
        Seq::empty()
    };
    let frames = match found.inline {
        None => Seq::empty(),
        Some(_) => scan::rooted_path(encoded.inline->0, raw.range.start, address),
    };
    if let Some(payload) = found.inline {
        reveal(function::inline_decoded);
        let node = encoded.inline->0;
        scan::law_scan_follows_tree(payload, 0, width, endian, raw.range.start, address, true, 0);
        lemma_rooted_calls(s, layout, node, function, address);
    }
    assert(lookup::inline_frames_of(layout, found.inline, raw.range.start, address) == Ok::<
        Seq<RawInlineFrame>,
        Error,
    >(frames));
    assert(rooted_match(s, layout, function.name, frames, calls));
    let prepared = lookup::prepared_of(s, layout, raw, address, options)->Ok_0;
    assert(prepared.frames == frames);
    lemma_frames(s, layout, address, prepared, calls, calls.len() as int, Seq::empty());
    assert(lookup::frames_of(s, layout, raw, address, prepared) == Ok::<Seq<FrameView>, Error>(
        frames_in(function, files, calls, position, address),
    )) by {
        if calls.len() > 0 {
            let told = frames_in(function, files, calls, position, address);
            assert(Seq::<FrameView>::empty() + told =~= told);
        }
    }
    let offset = lookup::distance(address, raw.range.start);
    lemma_sites_decode(s, layout, encoded.call_sites, 0, Seq::empty());
    if let Some(payload) = found.call_sites {
        lemma_patterns(s, layout, payload, encoded.call_sites, offset);
    }
}

/// Whether the address table holds the functions with the given heads, in
/// ascending order of their starts.
spec fn heads_held(s: Seq<u8>, layout: ParsedLayout, heads: Seq<RawView>) -> bool {
    &&& heads.len() == layout.address_count
    &&& forall|k: int|
        0 <= k < heads.len() ==> table::address_of(s, layout, k) == Ok::<u64, Error>(
            (#[trigger] heads[k]).range.start,
        ) && table::raw_of(s, layout, k, heads[k].range.start) == Ok::<RawView, Error>(heads[k])
    &&& forall|i: int, j: int|
        0 <= i <= j < heads.len() ==> (#[trigger] heads[i]).range.start
            <= (#[trigger] heads[j]).range.start
}

proof fn lemma_run_start(
    s: Seq<u8>,
    layout: ParsedLayout,
    heads: Seq<RawView>,
    index: int,
    start: u64,
)
    requires
        heads_held(s, layout, heads),
        0 <= index < heads.len(),
        heads[index].range.start == start,
    ensures
        search::run_start(s, layout, index, start) matches Ok(first) && {
            &&& 0 <= first <= index
            &&& heads[first].range.start == start
            &&& forall|k: int| 0 <= k < first ==> (#[trigger] heads[k]).range.start != start
        },
    decreases index,
{
    if index > 0 {
        let before = heads[index - 1].range.start;
        assert(table::address_of(s, layout, index - 1) == Ok::<u64, Error>(before));
        assert(before <= heads[index].range.start);
        if before == start {
            lemma_run_start(s, layout, heads, index - 1, start);
        } else {
            assert forall|k: int| 0 <= k < index implies (#[trigger] heads[k]).range.start
                != start by {
                assert(heads[k].range.start <= heads[index - 1].range.start);
            }
        }
    }
}

/// The ranges of heads.
spec fn head_ranges(heads: Seq<RawView>) -> Seq<AddressRange> {
    Seq::new(heads.len(), |i: int| heads[i].range)
}

/// Whether the range of a head counts in a search of its run.
spec fn counts(range: AddressRange, address: u64, unbounded: bool) -> bool {
    (unbounded && range.spec_size() == 0) || range.spec_contains(address)
}

/// Whether the function with index `k` is the first from `index` on that starts
/// at `start` and counts.
spec fn first_in_run(
    heads: Seq<RawView>,
    address: u64,
    index: int,
    start: u64,
    unbounded: bool,
    k: int,
) -> bool {
    &&& index <= k < heads.len()
    &&& heads[k].range.start == start
    &&& counts(heads[k].range, address, unbounded)
    &&& none_in_run(heads, address, index, k, start, unbounded)
}

/// Whether no function from `index` up to `end` that starts at `start` counts.
spec fn none_in_run(
    heads: Seq<RawView>,
    address: u64,
    index: int,
    end: int,
    start: u64,
    unbounded: bool,
) -> bool {
    forall|j: int|
        index <= j < end && (#[trigger] heads[j]).range.start == start ==> !counts(
            heads[j].range,
            address,
            unbounded,
        )
}

/// Of a run of functions with one start, the search takes the first that
/// counts.
proof fn lemma_match_in_run(
    s: Seq<u8>,
    layout: ParsedLayout,
    heads: Seq<RawView>,
    address: u64,
    index: int,
    start: u64,
)
    requires
        heads_held(s, layout, heads),
        0 <= index < heads.len(),
        heads[index].range.start == start,
    ensures
        search::match_in_run(s, layout, address, index, start) matches Ok(found)
            && match found {
            None => none_in_run(heads, address, index, heads.len() as int, start, true),
            Some(raw) => exists|k: int| #[trigger]
                first_in_run(heads, address, index, start, true, k) && raw == heads[k],
        },
    decreases heads.len() - index,
{
    if counts(heads[index].range, address, true) {
        assert(first_in_run(heads, address, index, start, true, index));
    } else if index + 1 < heads.len() {
        let next = heads[index + 1].range.start;
        assert(table::address_of(s, layout, index + 1) == Ok::<u64, Error>(next));
        if next == start {
            lemma_match_in_run(s, layout, heads, address, index + 1, start);
            if let Ok(Some(raw)) = search::match_in_run(
                s,
                layout,
                address,
                index + 1,
                start,
            ) {
                let k = choose|k: int| #[trigger]
                    first_in_run(heads, address, index + 1, start, true, k) && raw
                        == heads[k];
                assert(first_in_run(heads, address, index, start, true, k));
            }
        } else {
            assert(heads[index].range.start <= heads[index + 1].range.start);
            assert forall|k: int|
                index <= k < heads.len() && (#[trigger] heads[k]).range.start
                    == start implies !counts(heads[k].range, address, true) by {
                if k > index {
                    assert(heads[index + 1].range.start <= heads[k].range.start);
                }
            }
        }
    }
}

/// Where a run of earlier functions starts.
proof fn lemma_earlier_start(
    s: Seq<u8>,
    layout: ParsedLayout,
    heads: Seq<RawView>,
    index: int,
    start: u64,
)
    requires
        heads_held(s, layout, heads),
        0 <= index < heads.len(),
        heads[index].range.start == start,
    ensures
        ({
            let first = search::earlier_start(s, layout, index, start);
            &&& 0 <= first <= index
            &&& heads[first].range.start == start
            &&& forall|k: int| 0 <= k < first ==> (#[trigger] heads[k]).range.start != start
        }),
    decreases index,
{
    if index > 0 {
        let before = heads[index - 1].range.start;
        assert(table::address_of(s, layout, index - 1) == Ok::<u64, Error>(before));
        assert(before <= heads[index].range.start);
        if before == start {
            lemma_earlier_start(s, layout, heads, index - 1, start);
        } else {
            assert forall|k: int| 0 <= k < index implies (#[trigger] heads[k]).range.start
                != start by {
                assert(heads[k].range.start <= heads[index - 1].range.start);
            }
        }
    }
}

/// Of a run of earlier functions, the search takes the first that contains the
/// address.
proof fn lemma_containing(
    s: Seq<u8>,
    layout: ParsedLayout,
    heads: Seq<RawView>,
    address: u64,
    index: int,
    end: int,
    start: u64,
)
    requires
        heads_held(s, layout, heads),
        0 <= index <= end <= heads.len(),
        forall|k: int| index <= k < end ==> (#[trigger] heads[k]).range.start == start,
    ensures
        match search::containing(s, layout, address, index, end, start) {
            None => none_in_run(heads, address, index, end, start, false),
            Some(raw) => exists|k: int| #[trigger]
                first_in_run(heads, address, index, start, false, k) && k < end && raw == heads[k],
        },
    decreases end - index,
{
    if index < end {
        assert(heads[index].range.start == start);
        assert(table::raw_of(s, layout, index, start) == Ok::<RawView, Error>(heads[index]));
        if heads[index].range.spec_contains(address) {
            assert(first_in_run(heads, address, index, start, false, index));
        } else {
            lemma_containing(s, layout, heads, address, index + 1, end, start);
            if let Some(raw) = search::containing(s, layout, address, index + 1, end, start) {
                let k = choose|k: int| #[trigger]
                    first_in_run(heads, address, index + 1, start, false, k) && k < end && raw
                        == heads[k];
                assert(first_in_run(heads, address, index, start, false, k));
            }
        }
    }
}

/// Whether the function with index `k` contains the address and is found among
/// those before `end`.
spec fn contains_last(heads: Seq<RawView>, address: u64, end: int, k: int) -> bool {
    &&& 0 <= k < end
    &&& heads[k].range.spec_contains(address)
    &&& forall|j: int|
        0 <= j < end && (#[trigger] heads[j]).range.spec_contains(address)
            ==> heads[j].range.start < heads[k].range.start || (heads[j].range.start
            == heads[k].range.start && k <= j)
}

/// Of the functions before a run, the search finds the one that contains the
/// address and starts last.
proof fn lemma_matching_before(
    s: Seq<u8>,
    layout: ParsedLayout,
    heads: Seq<RawView>,
    address: u64,
    end: int,
)
    requires
        heads_held(s, layout, heads),
        0 <= end <= heads.len(),
        forall|i: int, j: int|
            0 <= i < end <= j < heads.len() ==> (#[trigger] heads[i]).range.start
                < (#[trigger] heads[j]).range.start,
    ensures
        match search::matching_before(s, layout, address, end) {
            None => forall|k: int|
                0 <= k < end ==> !(#[trigger] heads[k]).range.spec_contains(address),
            Some(raw) => exists|k: int| #[trigger]
                contains_last(heads, address, end, k) && raw == heads[k],
        },
    decreases end,
{
    if end > 0 {
        let start = heads[end - 1].range.start;
        assert(table::address_of(s, layout, end - 1) == Ok::<u64, Error>(start));
        lemma_earlier_start(s, layout, heads, end - 1, start);
        let first = search::earlier_start(s, layout, end - 1, start);
        assert forall|j: int| first <= j < end implies (#[trigger] heads[j]).range.start
            == start by {
            assert(heads[first].range.start <= heads[j].range.start);
            assert(heads[j].range.start <= heads[end - 1].range.start);
        }
        assert forall|i: int, j: int| 0 <= i < first <= j < heads.len() implies (
        #[trigger] heads[i]).range.start < (#[trigger] heads[j]).range.start by {
            assert(heads[i].range.start <= heads[first].range.start);
            assert(heads[i].range.start != start);
            assert(heads[first].range.start <= heads[j].range.start);
        }
        lemma_containing(s, layout, heads, address, first, end, start);
        match search::containing(s, layout, address, first, end, start) {
            None => {
                lemma_matching_before(s, layout, heads, address, first);
                assert forall|j: int| first <= j < end implies !(
                #[trigger] heads[j]).range.spec_contains(address) by {
                    assert(!counts(heads[j].range, address, false));
                }
                if let Some(raw) = search::matching_before(s, layout, address, first) {
                    let k = choose|k: int| #[trigger]
                        contains_last(heads, address, first, k) && raw == heads[k];
                    assert(contains_last(heads, address, end, k));
                }
            },
            Some(raw) => {
                let k = choose|k: int| #[trigger]
                    first_in_run(heads, address, first, start, false, k) && k < end && raw
                        == heads[k];
                assert forall|j: int|
                    0 <= j < end && (#[trigger] heads[j]).range.spec_contains(
                        address,
                    ) implies heads[j].range.start < heads[k].range.start || (
                heads[j].range.start == heads[k].range.start && k <= j) by {
                    if j < first {
                        assert(heads[j].range.start < heads[first].range.start);
                    } else if j < k {
                        assert(!counts(heads[j].range, address, false));
                    }
                }
                assert(contains_last(heads, address, end, k));
            },
        }
    }
}

/// The search finds the function that answers, where there is one.
proof fn lemma_matching(s: Seq<u8>, layout: ParsedLayout, heads: Seq<RawView>, address: u64)
    requires
        heads_held(s, layout, heads),
        search::table_sorted(s, layout),
        search::addresses_fit(s, layout),
    ensures
        search::matching(s, layout, address) matches Ok(found) && match found {
            None => forall|k: int| !is_found(head_ranges(heads), address, k),
            Some(raw) => exists|k: int| #[trigger]
                is_found(head_ranges(heads), address, k) && raw == heads[k],
        },
{
    search::law_search_finds_last(s, layout, address);
    let ranges = head_ranges(heads);
    assert forall|k: int| 0 <= k < heads.len() implies (#[trigger] heads[k]).range.start
        == layout.base_address + table::entry_of(s, layout, k) by {
        assert(table::address_of(s, layout, k) == Ok::<u64, Error>(heads[k].range.start));
    }
    match search::last_index(s, layout, address)->Ok_0 {
        None => {
            assert forall|k: int| !is_found(ranges, address, k) by {
                if 0 <= k < heads.len() {
                    assert(layout.base_address + table::entry_of(s, layout, k) > address);
                    assert(heads[k].range.start > address);
                    assert(ranges[k] == heads[k].range);
                }
            }
        },
        Some(index) => {
            lemma_matching_at(s, layout, heads, address, index);
        },
    }
}

/// The search finds the function that answers, where `index` is the last that
/// starts at or before the address.
proof fn lemma_matching_at(
    s: Seq<u8>,
    layout: ParsedLayout,
    heads: Seq<RawView>,
    address: u64,
    index: int,
)
    requires
        heads_held(s, layout, heads),
        search::last_index(s, layout, address) == Ok::<Option<int>, Error>(Some(index)),
        0 <= index < heads.len(),
        heads[index].range.start <= address,
        forall|k: int|
            index < k < heads.len() ==> layout.base_address + #[trigger] table::entry_of(
                s,
                layout,
                k,
            ) > address,
        forall|k: int|
            0 <= k < heads.len() ==> (#[trigger] heads[k]).range.start == layout.base_address
                + table::entry_of(s, layout, k),
    ensures
        search::matching(s, layout, address) matches Ok(found) && match found {
            None => forall|k: int| !is_found(head_ranges(heads), address, k),
            Some(raw) => exists|k: int| #[trigger]
                is_found(head_ranges(heads), address, k) && raw == heads[k],
        },
{
    let ranges = head_ranges(heads);
    let start = heads[index].range.start;
    assert(table::address_of(s, layout, index) == Ok::<u64, Error>(start));
    lemma_run_start(s, layout, heads, index, start);
    let first = search::run_start(s, layout, index, start)->Ok_0;
    lemma_match_in_run(s, layout, heads, address, first, start);
    assert forall|j: int|
        0 <= j < ranges.len() && (#[trigger] ranges[j]).start <= address implies ranges[j].start
        <= start && j <= index by {
        assert(ranges[j] == heads[j].range);
        if j > index {
            assert(layout.base_address + table::entry_of(s, layout, j) > address);
        } else {
            assert(heads[j].range.start <= heads[index].range.start);
        }
    }
    assert forall|i: int, j: int| 0 <= i < first <= j < heads.len() implies (
    #[trigger] heads[i]).range.start < (#[trigger] heads[j]).range.start by {
        assert(heads[i].range.start <= heads[first].range.start);
        assert(heads[i].range.start != start);
        assert(heads[first].range.start <= heads[j].range.start);
    }
    assert forall|j: int| #[trigger] answers(ranges, address, j) implies (if j < first {
        heads[j].range.spec_contains(address)
    } else {
        heads[j].range.start == start && counts(heads[j].range, address, true)
    }) by {
        assert(ranges[j] == heads[j].range);
        if j >= first {
            assert(heads[first].range.start <= heads[j].range.start);
        } else {
            assert(heads[j].range.start < heads[first].range.start);
            assert(ranges[index] == heads[index].range);
        }
    }
    match search::match_in_run(s, layout, address, first, start)->Ok_0 {
        None => {
            lemma_matching_before(s, layout, heads, address, first);
            match search::matching_before(s, layout, address, first) {
                None => {
                    assert forall|k: int| !is_found(ranges, address, k) by {
                        if answers(ranges, address, k) {
                            assert(ranges[k] == heads[k].range);
                        }
                    }
                },
                Some(raw) => {
                    let k = choose|k: int| #[trigger]
                        contains_last(heads, address, first, k) && raw == heads[k];
                    assert(ranges[k] == heads[k].range);
                    assert(heads[k].range.start < heads[first].range.start);
                    assert(answers(ranges, address, k));
                    assert forall|j: int| #[trigger]
                        answers(ranges, address, j) implies ranges[j].start < ranges[k].start || (
                    ranges[j].start == ranges[k].start && k <= j) by {
                        assert(ranges[j] == heads[j].range);
                    }
                    assert(is_found(ranges, address, k));
                },
            }
        },
        Some(raw) => {
            let k = choose|k: int| #[trigger]
                first_in_run(heads, address, first, start, true, k) && raw == heads[k];
            assert(ranges[k] == heads[k].range);
            assert(answers(ranges, address, k));
            assert forall|j: int| #[trigger] answers(ranges, address, j) implies ranges[j].start
                < ranges[k].start || (ranges[j].start == ranges[k].start && k <= j) by {
                assert(ranges[j] == heads[j].range);
                if j < first {
                    assert(heads[j].range.start < heads[first].range.start);
                }
            }
            assert(is_found(ranges, address, k));
        },
    }
}

/// The heads of the functions of a file.
spec fn heads_of(s: Seq<u8>, layout: ParsedLayout) -> Seq<RawView> {
    Seq::new(
        layout.address_count as nat,
        |k: int| (verify::found_of(s, layout, k)->Ok_0->0).raw,
    )
}

proof fn lemma_heads(s: Seq<u8>, layout: ParsedLayout)
    requires
        verify::verify_error(s, layout) is None,
    ensures
        heads_held(s, layout, heads_of(s, layout)),
        forall|k: int|
            0 <= k < layout.address_count ==> (#[trigger] heads_of(s, layout)[k]).range
                == verify::functions_of(s, layout)[k].range,
{
    let heads = heads_of(s, layout);
    assert forall|k: int| 0 <= k < heads.len() implies {
        &&& table::address_of(s, layout, k) == Ok::<u64, Error>(
            (#[trigger] heads[k]).range.start,
        )
        &&& table::raw_of(s, layout, k, heads[k].range.start) == Ok::<RawView, Error>(heads[k])
        &&& heads[k].range == verify::functions_of(s, layout)[k].range
        &&& heads[k].range.start == layout.base_address + table::entry_of(s, layout, k)
    } by {
        lemma_function(s, layout, k);
    }
    verify::law_verified_functions(s, layout);
    assert forall|i: int, j: int| 0 <= i <= j < heads.len() implies (#[trigger] heads[i]).range.start
        <= (#[trigger] heads[j]).range.start by {
        assert(table::entry_of(s, layout, i) <= table::entry_of(s, layout, j));
    }
}

/// Only one function answers for an address.
proof fn lemma_one_answer(functions: Seq<FunctionView>, address: u64, i: int, j: int)
    requires
        is_answer(functions, address, i),
        is_answer(functions, address, j),
    ensures
        i == j,
{
    assert(answers(ranges_of(functions), address, i));
    assert(answers(ranges_of(functions), address, j));
}

/// A lookup in a file that verification accepts does not fail. It finds a
/// function where one answers for the address, and tells what the decoded
/// function and the decoded files say of it: the range, the line row in effect
/// at the address, the named inline calls that cover it, and the patterns of the
/// call sites that return to it. Inline calls with an empty name in the string
/// table are left out: decoding does not tell them from calls without a name.
pub proof fn law_lookup_tells_the_model(
    s: Seq<u8>,
    layout: ParsedLayout,
    address: u64,
    options: LookupOptions,
)
    requires
        verify::verify_error(s, layout) is None,
        forall|k: int| 0 <= k < layout.address_count ==> #[trigger] shows_names(s, layout, k),
    ensures
        ({
            let functions = verify::functions_of(s, layout);
            let files = transform::files_of(s, layout);
            &&& forall|k: int| #[trigger]
                is_answer(functions, address, k) ==> lookup::looked_up(s, layout, address, options)
                    == Ok::<Option<LookupView>, Error>(
                    Some(answer_of(functions[k], files, address, options)),
                )
            &&& (forall|k: int| !is_answer(functions, address, k)) ==> lookup::looked_up(
                s,
                layout,
                address,
                options,
            ) == Ok::<Option<LookupView>, Error>(None)
        }),
{
    let functions = verify::functions_of(s, layout);
    let heads = heads_of(s, layout);
    lemma_heads(s, layout);
    verify::law_verified_functions(s, layout);
    lemma_matching(s, layout, heads, address);
    assert(head_ranges(heads) =~= ranges_of(functions));
    if let Some(raw) = search::matching(s, layout, address)->Ok_0 {
        let found = choose|found: int| #[trigger]
            is_found(head_ranges(heads), address, found) && raw == heads[found];
        assert(is_answer(functions, address, found));
        assert(shows_names(s, layout, found));
        lemma_lookup_in(s, layout, found, address, options);
        assert forall|k: int| #[trigger] is_answer(functions, address, k) implies k == found by {
            lemma_one_answer(functions, address, k, found);
        }
    } else {
        assert forall|k: int| !is_answer(functions, address, k) by {
            assert(!is_found(head_ranges(heads), address, k));
        }
    }
}

} // verus!
