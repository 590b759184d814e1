//! Laws on what transcoding keeps.
use vstd::prelude::*;
use crate::builder;
use crate::endian;
use crate::endian::Endian;
use crate::error::Error;
use crate::format::function::{EncodedCallSiteView, EncodedFunctionView, EncodedInlineView};
use crate::model;
use crate::model::{
    AddressRange, CallSiteFlags, CallSiteView, FileIndex, FileView, FunctionView, InlineView,
};
use crate::reader::answers;
use crate::reader::layout;
use crate::reader::layout::ParsedLayout;
use crate::reader::owned;
use crate::reader::table;
use crate::reader::verify;
use crate::transform;
use crate::transform::{Cut, DecodedView, Renumbering, TranscodeOptions};
use crate::writer::finalize::FunctionSetPolicy;
use crate::writer::ordering;
use crate::writer::round_trip;
use crate::writer::sound;

verus! {

/// Whether the new number of an old file leads to the same file.
pub open spec fn keeps_file(files: Seq<FileView>, renumbering: Renumbering, index: u32) -> bool {
    &&& index < files.len()
    &&& renumbering.remap[index as int].0 < renumbering.files.len()
    &&& renumbering.files[renumbering.remap[index as int].0 as int] == files[index as int]
}

/// Whether a file is one of those that functions use.
pub open spec fn is_used(
    files: Seq<FileView>,
    functions: Seq<FunctionView>,
    file: FileView,
) -> bool {
    exists|k: u32|
        k < files.len() && #[trigger] transform::any_uses(functions, k) && files[k as int] == file
}

/// Whether the files below `i` that are used were renumbered, and no others.
spec fn renumbered_to(
    files: Seq<FileView>,
    functions: Seq<FunctionView>,
    i: int,
    done: Renumbering,
) -> bool {
    &&& builder::is_file_table(done.files)
    &&& done.remap.len() == files.len()
    &&& forall|k: u32|
        0 < k < i && k < files.len() && transform::any_uses(functions, k)
            ==> #[trigger] keeps_file(files, done, k)
    &&& files.len() > 0 && files[0] == model::empty_file() ==> keeps_file(files, done, 0)
    &&& forall|k: int|
        0 < k < done.files.len() ==> is_used(files, functions, #[trigger] done.files[k])
}

proof fn lemma_renumbered(
    files: Seq<FileView>,
    functions: Seq<FunctionView>,
    i: int,
    done: Renumbering,
)
    requires
        1 <= i,
        renumbered_to(files, functions, i, done),
    ensures
        transform::renumbered_from(files, functions, i, done) matches Ok(renumbering)
            ==> renumbered_to(files, functions, files.len() as int, renumbering),
    decreases files.len() - i,
{
    if i >= files.len() {
        assert(renumbered_to(files, functions, files.len() as int, done)) by {
            assert forall|k: u32|
                0 < k < files.len() && transform::any_uses(
                    functions,
                    k,
                ) implies #[trigger] keeps_file(files, done, k) by {}
        }
    } else if i > u32::MAX || !transform::any_uses(functions, i as u32) {
        assert(renumbered_to(files, functions, i + 1, done)) by {
            assert forall|k: u32|
                0 < k < i + 1 && k < files.len() && transform::any_uses(
                    functions,
                    k,
                ) implies #[trigger] keeps_file(files, done, k) by {
                if k == i {
                    assert(k == i as u32);
                }
            }
        }
        lemma_renumbered(files, functions, i + 1, done);
    } else if builder::add_file_error(done.files, files[i]) is None {
        let grown = Renumbering {
            files: builder::files_with(done.files, files[i]),
            remap: done.remap.update(i, builder::file_index_of(done.files, files[i])),
        };
        builder::law_files_are_interned(done.files, files[i], files[i]);
        assert(renumbered_to(files, functions, i + 1, grown)) by {
            assert forall|k: u32|
                0 < k < i + 1 && k < files.len() && transform::any_uses(
                    functions,
                    k,
                ) implies #[trigger] keeps_file(files, grown, k) by {
                if k < i {
                    assert(keeps_file(files, done, k));
                    let at = done.remap[k as int].0 as int;
                    assert(grown.files[at] == done.files[at]);
                }
            }
            assert(grown.remap[0] == done.remap[0]);
            assert(grown.files[done.remap[0].0 as int] == done.files[done.remap[0].0 as int]
                || done.remap[0].0 >= done.files.len());
            assert forall|k: int| 0 < k < grown.files.len() implies is_used(
                files,
                functions,
                #[trigger] grown.files[k],
            ) by {
                if k < done.files.len() {
                    assert(grown.files[k] == done.files[k]);
                } else {
                    let used = i as u32;
                    assert(transform::any_uses(functions, used));
                    assert(files[used as int] == grown.files[k]);
                }
            }
        }
        lemma_renumbered(files, functions, i + 1, grown);
    }
}

/// Renumbering gives a file table of which every file but the reserved one is
/// one that the functions use. The new number of a file that they use leads to
/// that file.
pub proof fn law_renumbered_files_are_kept(files: Seq<FileView>, functions: Seq<FunctionView>)
    ensures
        transform::renumbered(files, functions) matches Ok(renumbering) ==> {
            &&& builder::is_file_table(renumbering.files)
            &&& forall|k: u32|
                0 < k < files.len() && transform::any_uses(functions, k) ==> #[trigger] keeps_file(
                    files,
                    renumbering,
                    k,
                )
            &&& files.len() > 0 && files[0] == model::empty_file() ==> keeps_file(
                files,
                renumbering,
                0,
            )
            &&& forall|k: int|
                0 < k < renumbering.files.len() ==> is_used(
                    files,
                    functions,
                    #[trigger] renumbering.files[k],
                )
        },
{
    let start = Renumbering {
        files: seq![model::empty_file()],
        remap: Seq::new(files.len(), |i: int| FileIndex(0)),
    };
    assert(renumbered_to(files, functions, 1, start));
    lemma_renumbered(files, functions, 1, start);
}

/// What a file that holds some functions of a decoded file says: it has the
/// version and byte order that were asked for, or those of the source, and the
/// base address and build identifier of the source. Its files are those that the
/// functions use, and its functions are the given ones with their files
/// renumbered, as they stand but in order of their starts.
pub open spec fn transcoded(
    source: DecodedView,
    functions: Seq<FunctionView>,
    options: TranscodeOptions,
) -> DecodedView {
    let renumbering = transform::renumbered(source.files, functions)->Ok_0;
    let writer = transform::builder_options(source, options).writer;
    DecodedView {
        source_version: writer.version,
        source_endian: writer.endian,
        base_address: source.base_address,
        build_id: source.build_id,
        files: renumbering.files,
        functions: ordering::by_start(
            transform::functions_remapped(functions, renumbering.remap),
        ),
    }
}

/// A file that was encoded from functions of a decoded file is read back. A
/// string that holds a NUL is read up to the first one.
pub proof fn law_transcoded_file_reads_back(
    source: DecodedView,
    functions: Seq<FunctionView>,
    options: TranscodeOptions,
    native: Endian,
)
    requires
        transform::encoded_with(source, functions, options) is Ok,
        transform::encoded_with(source, functions, options)->Ok_0.len() <= usize::MAX,
    ensures
        ({
            let s = transform::encoded_with(source, functions, options)->Ok_0;
            let told = transcoded(source, functions, options);
            &&& layout::parsed(s, native) matches Ok(layout)
            &&& layout.address_count == functions.len()
            &&& transform::decoded(s, layout) == Ok::<DecodedView, Error>(
                DecodedView {
                    files: sound::cut_files(told.files),
                    functions: sound::cut_functions(told.functions),
                    ..told
                },
            )
        }),
{
    reveal(transform::encoded_with);
    let builder = transform::builder_for(source, functions, options)->Ok_0;
    let written = ordering::by_start(builder.functions);
    sound::lemma_valid_are_sound(builder.functions, 0, builder.files.len(), None, 0);
    ordering::lemma_by_start(builder.functions);
    assert forall|i: int| 0 <= i < written.len() implies sound::sound(
        #[trigger] written[i],
        builder.files.len(),
        None,
    ) by {
        assert(builder.functions.contains(written[i]));
        let k = choose|k: int| 0 <= k < builder.functions.len() && builder.functions[k]
            == written[i];
        assert(sound::sound(builder.functions[k], builder.files.len(), None));
    }
    round_trip::lemma_final_file(builder.options.writer, builder.files, written, native);
}

/// A string that is read from a file holds no zero byte.
proof fn lemma_string_clean(s: Seq<u8>, layout: ParsedLayout, offset: u64)
    ensures
        table::string_of(s, layout.string_table, offset) matches Ok(string) ==> sound::is_clean(
            string,
        ),
{
    let start = layout.string_table.start + offset;
    table::lemma_nul_at(s, start, layout.string_table.end as int);
    if let Ok(string) = table::string_of(s, layout.string_table, offset) {
        assert forall|i: int| 0 <= i < string.len() implies string[i] != 0 by {
            assert(string[i] == s[start + i]);
        }
    }
}

proof fn lemma_strings_clean(
    s: Seq<u8>,
    layout: ParsedLayout,
    offsets: Seq<u64>,
    i: int,
    done: Seq<Seq<u8>>,
)
    requires
        forall|k: int| 0 <= k < done.len() ==> sound::is_clean(#[trigger] done[k]),
    ensures
        owned::strings_of(s, layout, offsets, i, done) matches Ok(strings) ==> forall|k: int|
            0 <= k < strings.len() ==> sound::is_clean(#[trigger] strings[k]),
    decreases offsets.len() - i,
{
    if i < offsets.len() {
        lemma_string_clean(s, layout, offsets[i]);
        if let Ok(string) = table::string_of(s, layout.string_table, offsets[i]) {
            lemma_strings_clean(s, layout, offsets, i + 1, done.push(string));
        }
    }
}

proof fn lemma_sites_clean(
    s: Seq<u8>,
    layout: ParsedLayout,
    sites: Seq<EncodedCallSiteView>,
    i: int,
    done: Seq<CallSiteView>,
)
    requires
        forall|k: int| 0 <= k < done.len() ==> sound::clean_site(#[trigger] done[k]),
    ensures
        owned::sites_of(s, layout, sites, i, done) matches Ok(views) ==> forall|k: int|
            0 <= k < views.len() ==> sound::clean_site(#[trigger] views[k]),
    decreases sites.len() - i,
{
    if i < sites.len() {
        lemma_strings_clean(s, layout, sites[i].match_regex, 0, Seq::empty());
        if let Ok(match_regex) = owned::strings_of(
            s,
            layout,
            sites[i].match_regex,
            0,
            Seq::empty(),
        ) {
            let view = CallSiteView {
                return_offset: sites[i].return_offset,
                flags: CallSiteFlags(sites[i].flags),
                match_regex,
            };
            assert(sound::clean_site(view));
            lemma_sites_clean(s, layout, sites, i + 1, done.push(view));
        }
    }
}

proof fn lemma_inline_clean(s: Seq<u8>, layout: ParsedLayout, node: EncodedInlineView)
    ensures
        owned::inline_of(s, layout, node) matches Ok(view) ==> sound::clean_inline(view),
    decreases node, 0int,
{
    lemma_string_clean(s, layout, node.name);
    lemma_inlines_clean(s, layout, node.children, 0, Seq::empty());
}

proof fn lemma_inlines_clean(
    s: Seq<u8>,
    layout: ParsedLayout,
    nodes: Seq<EncodedInlineView>,
    i: int,
    done: Seq<InlineView>,
)
    requires
        0 <= i,
        forall|k: int| 0 <= k < done.len() ==> sound::clean_inline(#[trigger] done[k]),
    ensures
        owned::inline_list_of(s, layout, nodes, i, done) matches Ok(views) ==> forall|k: int|
            0 <= k < views.len() ==> sound::clean_inline(#[trigger] views[k]),
    decreases nodes, nodes.len() - i,
{
    if i < nodes.len() {
        lemma_inline_clean(s, layout, nodes[i]);
        if let Ok(node) = owned::inline_of(s, layout, nodes[i]) {
            lemma_inlines_clean(s, layout, nodes, i + 1, done.push(node));
        }
    }
}

proof fn lemma_function_clean(
    s: Seq<u8>,
    layout: ParsedLayout,
    function: EncodedFunctionView,
    parent: Option<AddressRange>,
    depth: nat,
)
    ensures
        owned::owned_of(s, layout, function, parent, depth) matches Ok(view) ==> sound::clean(
            view,
        ),
    decreases function, 0int,
{
    lemma_string_clean(s, layout, function.name);
    lemma_sites_clean(s, layout, function.call_sites, 0, Seq::empty());
    if let Some(node) = function.inline {
        lemma_inline_clean(s, layout, node);
    }
    lemma_functions_clean(
        s,
        layout,
        function.merged,
        0,
        function.range,
        depth + 1,
        Seq::empty(),
    );
}

proof fn lemma_functions_clean(
    s: Seq<u8>,
    layout: ParsedLayout,
    functions: Seq<EncodedFunctionView>,
    i: int,
    parent: AddressRange,
    depth: nat,
    done: Seq<FunctionView>,
)
    requires
        0 <= i,
        sound::all_clean(done),
    ensures
        owned::owned_list_of(s, layout, functions, i, parent, depth, done) matches Ok(views)
            ==> sound::all_clean(views),
    decreases functions, functions.len() - i,
{
    if i < functions.len() {
        lemma_function_clean(s, layout, functions[i], Some(parent), depth);
        if let Ok(view) = owned::owned_of(s, layout, functions[i], Some(parent), depth) {
            lemma_functions_clean(s, layout, functions, i + 1, parent, depth, done.push(view));
        }
    }
}

/// The strings of a file that is decoded hold no zero byte, and its functions
/// stand in ascending order of their starts.
proof fn lemma_decoded(s: Seq<u8>, layout: ParsedLayout)
    requires
        verify::verify_error(s, layout) is None,
    ensures
        sound::all_clean(verify::functions_of(s, layout)),
        sound::files_clean(transform::files_of(s, layout)),
        ordering::starts_ascend(verify::functions_of(s, layout)),
{
    let functions = verify::functions_of(s, layout);
    let files = transform::files_of(s, layout);
    verify::law_verified_functions(s, layout);
    assert forall|k: int| 0 <= k < functions.len() implies {
        &&& sound::clean(#[trigger] functions[k])
        &&& functions[k].range.start == layout.base_address + table::entry_of(s, layout, k)
    } by {
        answers::lemma_function(s, layout, k);
        let raw = (verify::found_of(s, layout, k)->Ok_0->0).raw;
        lemma_function_clean(s, layout, verify::encoded_of(layout, raw)->Ok_0, None, 0);
    }
    assert forall|i: int, j: int| 0 <= i <= j < functions.len() implies (
    #[trigger] functions[i]).range.start <= (#[trigger] functions[j]).range.start by {
        assert(table::entry_of(s, layout, i) <= table::entry_of(s, layout, j));
    }
    assert forall|k: int| 0 <= k < files.len() implies sound::is_clean(
        (#[trigger] files[k]).directory,
    ) && sound::is_clean(files[k].basename) by {
        if layout.file_count > 0 {
            verify::law_verified_files(s, layout, k as u32);
            let at = table::file_entry_at(layout, k as u32);
            let width = layout.string_offset_size as int;
            let (directory, next) = endian::uint_at(s, at, width, layout.endian)->Ok_0;
            let (basename, _) = endian::uint_at(s, next, width, layout.endian)->Ok_0;
            lemma_string_clean(s, layout, directory);
            lemma_string_clean(s, layout, basename);
        }
    }
}

proof fn lemma_inline_stays_clean(node: InlineView, remap: Seq<FileIndex>)
    requires
        sound::clean_inline(node),
    ensures
        sound::clean_inline(transform::inline_remapped(node, remap)),
    decreases node,
{
    transform::lemma_inline_remapped(node, remap);
    let moved = transform::inline_remapped(node, remap);
    assert forall|i: int| 0 <= i < moved.children.len() implies sound::clean_inline(
        #[trigger] moved.children[i],
    ) by {
        assert(sound::clean_inline(node.children[i]));
        lemma_inline_stays_clean(node.children[i], remap);
    }
}

proof fn lemma_function_stays_clean(function: FunctionView, remap: Seq<FileIndex>)
    requires
        sound::clean(function),
    ensures
        sound::clean(transform::function_remapped(function, remap)),
    decreases function,
{
    transform::lemma_function_remapped(function, remap);
    let moved = transform::function_remapped(function, remap);
    if let Some(node) = function.inline {
        lemma_inline_stays_clean(node, remap);
    }
    assert forall|i: int| 0 <= i < moved.call_sites.len() implies sound::clean_site(
        #[trigger] moved.call_sites[i],
    ) by {
        assert(sound::clean_site(function.call_sites[i]));
    }
    assert forall|i: int| 0 <= i < moved.merged.len() implies sound::clean(
        #[trigger] moved.merged[i],
    ) by {
        assert(sound::clean(function.merged[i]));
        lemma_function_stays_clean(function.merged[i], remap);
    }
}

/// Transcoding a file is a pure re-encode: the new file has the version and byte
/// order that were asked for, or those of the source, the base address and build
/// identifier of the source, and every function of the source with every row, in
/// the same order. Only the numbers of the files differ: each that a function
/// uses leads to the same file as before.
pub proof fn law_transcoding_is_a_pure_re_encode(
    s: Seq<u8>,
    layout: ParsedLayout,
    options: TranscodeOptions,
    native: Endian,
)
    requires
        verify::verify_error(s, layout) is None,
        transform::encoded_with(
            transform::decoded(s, layout)->Ok_0,
            verify::functions_of(s, layout),
            options,
        ) is Ok,
        transform::encoded_with(
            transform::decoded(s, layout)->Ok_0,
            verify::functions_of(s, layout),
            options,
        )->Ok_0.len() <= usize::MAX,
    ensures
        ({
            let source = transform::decoded(s, layout)->Ok_0;
            let out = transform::encoded_with(source, source.functions, options)->Ok_0;
            let renumbering = transform::renumbered(source.files, source.functions)->Ok_0;
            let writer = transform::builder_options(source, options).writer;
            &&& layout::parsed(out, native) matches Ok(tables)
            &&& transform::decoded(out, tables) == Ok::<DecodedView, Error>(
                DecodedView {
                    source_version: writer.version,
                    source_endian: writer.endian,
                    base_address: source.base_address,
                    build_id: source.build_id,
                    files: renumbering.files,
                    functions: transform::functions_remapped(
                        source.functions,
                        renumbering.remap,
                    ),
                },
            )
            &&& forall|k: u32|
                transform::any_uses(source.functions, k) ==> #[trigger] keeps_file(
                    source.files,
                    renumbering,
                    k,
                )
        }),
{
    let source = transform::decoded(s, layout)->Ok_0;
    let files = source.files;
    let functions = source.functions;
    let renumbering = transform::renumbered(files, functions)->Ok_0;
    let moved = transform::functions_remapped(functions, renumbering.remap);
    law_transcoded_file_reads_back(source, functions, options, native);
    reveal(transform::encoded_with);
    lemma_decoded(s, layout);
    law_renumbered_files_are_kept(files, functions);
    assert forall|i: int| 0 <= i < moved.len() implies {
        &&& sound::clean(#[trigger] moved[i])
        &&& moved[i].range == functions[i].range
    } by {
        assert(sound::clean(functions[i]));
        lemma_function_stays_clean(functions[i], renumbering.remap);
        transform::lemma_function_remapped(functions[i], renumbering.remap);
    }
    assert(ordering::starts_ascend(moved)) by {
        assert forall|i: int, j: int| 0 <= i <= j < moved.len() implies (
        #[trigger] moved[i]).range.start <= (#[trigger] moved[j]).range.start by {
            assert(functions[i].range.start <= functions[j].range.start);
        }
    }
    ordering::lemma_by_start(moved);
    sound::lemma_clean_functions_stay(moved);
    assert(sound::files_clean(renumbering.files)) by {
        assert forall|i: int| 0 <= i < renumbering.files.len() implies sound::is_clean(
            (#[trigger] renumbering.files[i]).directory,
        ) && sound::is_clean(renumbering.files[i].basename) by {
            if i == 0 {
                assert(files[0] == renumbering.files[0]);
                assert(sound::is_clean(files[0].directory));
            } else {
                assert(is_used(files, functions, renumbering.files[i]));
                let k = choose|k: u32|
                    k < files.len() && #[trigger] transform::any_uses(functions, k)
                        && files[k as int] == renumbering.files[i];
                assert(sound::is_clean(files[k as int].directory));
            }
        }
    }
    sound::lemma_clean_files_stay(renumbering.files);
    assert forall|k: u32| transform::any_uses(functions, k) implies #[trigger] keeps_file(
        files,
        renumbering,
        k,
    ) by {
        if k >= files.len() {
            assert(transform::refers_beyond(functions, files.len()));
        }
    }
}

proof fn lemma_highest_end(functions: Seq<FunctionView>, start: int, end: int, highest: u64)
    requires
        0 <= start,
        end <= functions.len(),
    ensures
        ({
            let top = transform::highest_end(functions, start, end, highest);
            &&& highest <= top
            &&& forall|i: int|
                start <= i < end ==> (#[trigger] functions[i]).range.end <= top
            &&& top == highest || exists|i: int|
                start <= i < end && (#[trigger] functions[i]).range.end == top
        }),
    decreases end - start,
{
    if start < end {
        let higher = if functions[start].range.end > highest {
            functions[start].range.end
        } else {
            highest
        };
        lemma_highest_end(functions, start + 1, end, higher);
        let top = transform::highest_end(functions, start, end, highest);
        assert(top == transform::highest_end(functions, start + 1, end, higher));
        if top == higher && higher != highest {
            assert(functions[start].range.end == top);
        }
    }
}

/// Whether addresses are the lowest start and the highest end of functions.
pub open spec fn spans(functions: Seq<FunctionView>, first: u64, last: u64) -> bool {
    &&& forall|i: int|
        0 <= i < functions.len() ==> first <= (#[trigger] functions[i]).range.start
            && functions[i].range.end <= last
    &&& exists|i: int| 0 <= i < functions.len() && (#[trigger] functions[i]).range.start == first
    &&& exists|i: int| 0 <= i < functions.len() && (#[trigger] functions[i]).range.end == last
}

/// A shard is a complete file that verification accepts. It holds as many
/// functions as the shard tells, between the addresses that the shard tells, and
/// has the base address and build identifier of the source. Its functions are
/// those of the run that was cut, in the same order, with their files renumbered.
/// Its files are the reserved one and those that the run uses: the new number of
/// each leads to the same file. A string that holds a NUL is read up to the first
/// one.
pub proof fn law_segment_is_a_file(cut: Cut, start: int, end: int, native: Endian)
    requires
        cut.functions == transform::by_range(cut.source.functions),
        0 <= start < end <= cut.functions.len(),
        cut.functions.len() <= usize::MAX,
        transform::shard(cut, start, end) is Ok,
        transform::shard(cut, start, end)->Ok_0.len() <= usize::MAX,
    ensures
        ({
            let segment = transform::segment_of(cut, start, end);
            let run = cut.functions.subrange(start, end);
            let files = cut.source.files;
            let renumbering = transform::renumbered(files, run)->Ok_0;
            &&& layout::parsed(segment.bytes, native) matches Ok(layout)
            &&& verify::verify_error(segment.bytes, layout) is None
            &&& layout.address_count == segment.function_count
            &&& spans(run, segment.first_address, segment.end_address)
            &&& transform::decoded(segment.bytes, layout) matches Ok(told)
            &&& told.base_address == cut.source.base_address
            &&& told.build_id == cut.source.build_id
            &&& told.functions == sound::cut_functions(
                transform::functions_remapped(run, renumbering.remap),
            )
            &&& told.files == sound::cut_files(renumbering.files)
            &&& renumbering.files[0] == model::empty_file()
            &&& forall|k: int|
                0 < k < renumbering.files.len() ==> is_used(
                    files,
                    run,
                    #[trigger] renumbering.files[k],
                )
            &&& forall|k: u32|
                k > 0 && transform::any_uses(run, k) ==> #[trigger] keeps_file(
                    files,
                    renumbering,
                    k,
                )
        }),
{
    let run = cut.functions.subrange(start, end);
    let files = cut.source.files;
    law_transcoded_file_reads_back(cut.source, run, cut.options, native);
    reveal(transform::encoded_with);
    let renumbering = transform::renumbered(files, run)->Ok_0;
    law_renumbered_files_are_kept(files, run);
    assert forall|k: u32| k > 0 && transform::any_uses(run, k) implies #[trigger] keeps_file(
        files,
        renumbering,
        k,
    ) by {
        if k >= files.len() {
            assert(transform::refers_beyond(run, files.len()));
        }
    }
    transform::lemma_by_range(cut.source.functions);
    let moved = transform::functions_remapped(run, renumbering.remap);
    assert forall|i: int| 0 <= i < moved.len() implies (#[trigger] moved[i]).range
        == run[i].range by {
        transform::lemma_function_remapped(run[i], renumbering.remap);
    }
    assert(ordering::starts_ascend(moved)) by {
        assert forall|i: int, j: int| 0 <= i <= j < moved.len() implies (
        #[trigger] moved[i]).range.start <= (#[trigger] moved[j]).range.start by {
            assert(model::range_at_most(
                cut.functions[start + i].range,
                cut.functions[start + j].range,
            ));
        }
    }
    ordering::lemma_by_start(moved);
    let segment = transform::segment_of(cut, start, end);
    lemma_highest_end(cut.functions, start, end, cut.functions[start].range.end);
    assert(spans(run, segment.first_address, segment.end_address)) by {
        assert(run[0] == cut.functions[start]);
        assert forall|i: int| 0 <= i < run.len() implies segment.first_address <= (
        #[trigger] run[i]).range.start && run[i].range.end <= segment.end_address by {
            assert(run[i] == cut.functions[start + i]);
            assert(model::range_at_most(
                cut.functions[start].range,
                cut.functions[start + i].range,
            ));
        }
        let top = segment.end_address;
        if cut.functions[start].range.end != top {
            let i = choose|i: int|
                start <= i < end && (#[trigger] cut.functions[i]).range.end == top;
            assert(run[i - start].range.end == top);
        }
    }
}

/// A decoded file is written with the version and the byte order that are asked for, or
/// else with its own. It keeps its base address and its build identifier, its last
/// function is not repaired, and functions that share a range are not merged.
pub proof fn law_transcoding_keeps_the_settings(
    source: DecodedView,
    functions: Seq<FunctionView>,
    options: TranscodeOptions,
)
    ensures
        transform::builder_for(source, functions, options) matches Ok(builder) ==> {
            let writer = builder.options.writer;
            &&& options.version matches Some(version) ==> writer.version == version
            &&& options.version is None ==> writer.version == source.source_version
            &&& options.endian matches Some(endian) ==> writer.endian == endian
            &&& options.endian is None ==> writer.endian == source.source_endian
            &&& writer.base_address == Some(source.base_address)
            &&& writer.build_id == source.build_id
            &&& builder.options.executable_ranges.len() == 0
            &&& !builder.options.repair_zero_sized_functions
            &&& !builder.options.merge_equal_address_functions
            &&& builder.policy == FunctionSetPolicy::Deduplicate
        },
{
}

} // verus!
