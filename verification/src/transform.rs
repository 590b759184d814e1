//! Decoding and re-encoding of whole files.
use vstd::prelude::*;
use crate::builder;
use crate::builder::{BuilderView, GsymBuilder, OptionsView};
use crate::endian::Endian;
use crate::error::Error;
use crate::model;
use crate::model::{
    copy_bytes, range_at_most, AddressRange, FileEntry, FileIndex, FileView, Function,
    FunctionView, InlineNode, InlineView, LineEntry,
};
use crate::reader::gsym;
use crate::reader::gsym::{Gsym, Storage};
use crate::reader::layout::ParsedLayout;
use crate::reader::table;
use crate::reader::verify;
use crate::sort;
use crate::sort::{sorted_order, Ranked};
use crate::validation;
use crate::version::GsymVersion;
use crate::writer::finalize::FunctionSetPolicy;
use crate::writer::options::WriterView;
use crate::writer::ordering::into_slots;

verus! {

/// An owned, version-independent representation of a complete GSYM file.
///
/// File indices in the model refer to `files`, including the reserved empty
/// entry at index zero. Re-encoding renumbers the table and keeps only the
/// files that the retained functions reference.
#[derive(Debug, PartialEq, Eq)]
pub struct DecodedGsym {
    /// Version from which this model was decoded.
    pub source_version: GsymVersion,
    /// Byte order from which this model was decoded.
    pub source_endian: Endian,
    /// Image base address.
    pub base_address: u64,
    /// Opaque build identifier.
    pub build_id: Vec<u8>,
    /// Complete file table, including reserved index zero.
    pub files: Vec<FileEntry>,
    /// Fully decoded semantic functions.
    pub functions: Vec<Function>,
}

/// What a decoded file says.
pub struct DecodedView {
    /// Version of the file.
    pub source_version: GsymVersion,
    /// Byte order of the file.
    pub source_endian: Endian,
    /// Image base address.
    pub base_address: u64,
    /// Build identifier.
    pub build_id: Seq<u8>,
    /// Files, with the reserved one in front.
    pub files: Seq<FileView>,
    /// Functions.
    pub functions: Seq<FunctionView>,
}

impl View for DecodedGsym {
    type V = DecodedView;

    open spec fn view(&self) -> DecodedView {
        DecodedView {
            source_version: self.source_version,
            source_endian: self.source_endian,
            base_address: self.base_address,
            build_id: self.build_id@,
            files: model::file_views(self.files@),
            functions: model::function_views(self.functions@),
        }
    }
}

/// Output choices for semantic GSYM transcoding.
///
/// `Default` keeps both the version and the byte order of the input, which
/// makes a transcode a pure re-encode. Setting a field converts that property.
#[derive(Clone, Copy, Debug, PartialEq, Eq, Structural)]
pub struct TranscodeOptions {
    /// Preserve the input version when absent.
    pub version: Option<GsymVersion>,
    /// Preserve the input byte order when absent.
    pub endian: Option<Endian>,
}

impl Default for TranscodeOptions {
    fn default() -> (options: Self)
        ensures
            options == (TranscodeOptions { version: None, endian: None }),
    {
        TranscodeOptions { version: None, endian: None }
    }
}

/// The files of a file that verification accepts. A file without a file table
/// has the reserved entry.
pub open spec fn files_of(s: Seq<u8>, layout: ParsedLayout) -> Seq<FileView> {
    if layout.file_count == 0 {
        seq![model::empty_file()]
    } else {
        Seq::new(
            layout.file_count as nat,
            |i: int| table::file_of(s, layout, FileIndex(i as u32))->Ok_0,
        )
    }
}

/// What a file says, where verification accepts it.
pub open spec fn decoded(s: Seq<u8>, layout: ParsedLayout) -> Result<DecodedView, Error> {
    match verify::verify_error(s, layout) {
        Some(error) => Err(error),
        None => Ok(
            DecodedView {
                source_version: layout.version,
                source_endian: layout.endian,
                base_address: layout.base_address,
                build_id: gsym::build_id_of(s, layout),
                files: files_of(s, layout),
                functions: verify::functions_of(s, layout),
            },
        ),
    }
}

/// Whether one of the rows is of the file with the given index.
pub open spec fn lines_use(lines: Seq<LineEntry>, index: u32) -> bool {
    exists|i: int| 0 <= i < lines.len() && (#[trigger] lines[i]).file.0 == index
}

/// Whether an inline tree refers to the file with the given index.
pub open spec fn inline_uses(node: InlineView, index: u32) -> bool
    decreases node,
{
    node.call_file.0 == index || exists|i: int|
        0 <= i < node.children.len() && inline_uses(#[trigger] node.children[i], index)
}

/// Whether a function refers to the file with the given index.
pub open spec fn function_uses(function: FunctionView, index: u32) -> bool
    decreases function,
{
    ||| lines_use(function.lines, index)
    ||| function.inline is Some && inline_uses(function.inline->0, index)
    ||| exists|i: int|
        0 <= i < function.merged.len() && function_uses(#[trigger] function.merged[i], index)
}

/// Whether one of the functions refers to the file with the given index.
pub open spec fn any_uses(functions: Seq<FunctionView>, index: u32) -> bool {
    exists|i: int| 0 <= i < functions.len() && function_uses(#[trigger] functions[i], index)
}

/// Whether one of the functions refers to a file that there is not.
pub open spec fn refers_beyond(functions: Seq<FunctionView>, count: nat) -> bool {
    exists|index: u32| index >= count && #[trigger] any_uses(functions, index)
}

/// The rows with their files renumbered.
pub open spec fn lines_remapped(lines: Seq<LineEntry>, remap: Seq<FileIndex>) -> Seq<LineEntry> {
    Seq::new(
        lines.len(),
        |i: int| LineEntry { file: remap[lines[i].file.0 as int], ..lines[i] },
    )
}

/// An inline tree with its files renumbered.
pub open spec fn inline_remapped(node: InlineView, remap: Seq<FileIndex>) -> InlineView
    decreases node,
{
    InlineView {
        call_file: remap[node.call_file.0 as int],
        children: Seq::new(
            node.children.len(),
            |i: int|
                if 0 <= i < node.children.len() {
                    inline_remapped(node.children[i], remap)
                } else {
                    arbitrary()
                },
        ),
        ..node
    }
}

/// The inline trees of a list with their files renumbered.
pub open spec fn inlines_remapped(nodes: Seq<InlineView>, remap: Seq<FileIndex>) -> Seq<
    InlineView,
> {
    Seq::new(nodes.len(), |i: int| inline_remapped(nodes[i], remap))
}

/// A renumbered inline tree, one level at a time.
pub proof fn lemma_inline_remapped(node: InlineView, remap: Seq<FileIndex>)
    ensures
        inline_remapped(node, remap) == (InlineView {
            call_file: remap[node.call_file.0 as int],
            children: inlines_remapped(node.children, remap),
            ..node
        }),
{
    assert(inline_remapped(node, remap).children =~= inlines_remapped(node.children, remap));
}

/// A function with its files renumbered.
pub open spec fn function_remapped(function: FunctionView, remap: Seq<FileIndex>) -> FunctionView
    decreases function,
{
    FunctionView {
        lines: lines_remapped(function.lines, remap),
        inline: match function.inline {
            Some(node) => Some(inline_remapped(node, remap)),
            None => None,
        },
        merged: Seq::new(
            function.merged.len(),
            |i: int|
                if 0 <= i < function.merged.len() {
                    function_remapped(function.merged[i], remap)
                } else {
                    arbitrary()
                },
        ),
        ..function
    }
}

/// The functions of a list with their files renumbered.
pub open spec fn functions_remapped(functions: Seq<FunctionView>, remap: Seq<FileIndex>) -> Seq<
    FunctionView,
> {
    Seq::new(functions.len(), |i: int| function_remapped(functions[i], remap))
}

/// A renumbered function, one level at a time.
pub proof fn lemma_function_remapped(function: FunctionView, remap: Seq<FileIndex>)
    ensures
        function_remapped(function, remap) == (FunctionView {
            lines: lines_remapped(function.lines, remap),
            inline: match function.inline {
                Some(node) => Some(inline_remapped(node, remap)),
                None => None,
            },
            merged: functions_remapped(function.merged, remap),
            ..function
        }),
{
    assert(function_remapped(function, remap).merged =~= functions_remapped(
        function.merged,
        remap,
    ));
}

/// The files of a builder and the new number of each old one.
pub struct Renumbering {
    /// Files of the builder.
    pub files: Seq<FileView>,
    /// New number of each old file; zero where the file is not used.
    pub remap: Seq<FileIndex>,
}

/// The files of a builder that holds what was renumbered so far and the files
/// from index `i` on that the functions use.
pub open spec fn renumbered_from(
    files: Seq<FileView>,
    functions: Seq<FunctionView>,
    i: int,
    done: Renumbering,
) -> Result<Renumbering, Error>
    decreases files.len() - i,
{
    if i >= files.len() {
        Ok(done)
    } else if i > u32::MAX || !any_uses(functions, i as u32) {
        renumbered_from(files, functions, i + 1, done)
    } else {
        match builder::add_file_error(done.files, files[i]) {
            Some(error) => Err(error),
            None => renumbered_from(
                files,
                functions,
                i + 1,
                Renumbering {
                    files: builder::files_with(done.files, files[i]),
                    remap: done.remap.update(i, builder::file_index_of(done.files, files[i])),
                },
            ),
        }
    }
}

/// The files of a builder of the functions, and the new number of each old
/// file.
pub open spec fn renumbered(files: Seq<FileView>, functions: Seq<FunctionView>) -> Result<
    Renumbering,
    Error,
> {
    renumbered_from(
        files,
        functions,
        1,
        Renumbering {
            files: seq![model::empty_file()],
            remap: Seq::new(files.len(), |i: int| FileIndex(0)),
        },
    )
}

/// The settings of a builder of a decoded file.
pub open spec fn builder_options(source: DecodedView, options: TranscodeOptions) -> OptionsView {
    OptionsView {
        writer: WriterView {
            version: match options.version {
                Some(version) => version,
                None => source.source_version,
            },
            endian: match options.endian {
                Some(endian) => endian,
                None => source.source_endian,
            },
            base_address: Some(source.base_address),
            build_id: source.build_id,
        },
        executable_ranges: Seq::empty(),
        repair_zero_sized_functions: false,
        merge_equal_address_functions: false,
    }
}

/// The builder of some functions of a decoded file.
pub open spec fn builder_for(
    source: DecodedView,
    functions: Seq<FunctionView>,
    options: TranscodeOptions,
) -> Result<BuilderView, Error> {
    if source.files.len() == 0 || source.files[0] != model::empty_file() {
        Err(Error::InvalidModel("file-table index zero must be empty"))
    } else if refers_beyond(functions, source.files.len()) {
        Err(Error::InvalidModel("function references a missing file"))
    } else {
        match renumbered(source.files, functions) {
            Err(error) => Err(error),
            Ok(renumbering) => {
                let remapped = functions_remapped(functions, renumbering.remap);
                match validation::functions_error(remapped, 0, None, None, 0) {
                    Some(error) => Err(error),
                    None => Ok(
                        BuilderView {
                            options: builder_options(source, options),
                            policy: FunctionSetPolicy::Deduplicate,
                            files: renumbering.files,
                            functions: remapped,
                        },
                    ),
                }
            },
        }
    }
}

/// The bytes of a file with some functions of a decoded file, as they stand.
#[verifier::opaque]
pub open spec fn encoded_with(
    source: DecodedView,
    functions: Seq<FunctionView>,
    options: TranscodeOptions,
) -> Result<Seq<u8>, Error> {
    match builder_for(source, functions, options) {
        Err(error) => Err(error),
        Ok(model) => match builder::copied(model) {
            Err(error) => Err(error),
            Ok(image) => Ok(image.prefix + image.function_info),
        },
    }
}

/// What marking does: it sets the marks of the files that are used, and fails
/// where one of them does not exist.
spec fn marked(
    before: Seq<bool>,
    after: Seq<bool>,
    result: Result<(), Error>,
    uses: spec_fn(u32) -> bool,
) -> bool {
    &&& after.len() == before.len()
    &&& match result {
        Ok(_) => {
            &&& forall|k: u32|
                k < before.len() ==> #[trigger] after[k as int] == (before[k as int] || uses(k))
            &&& forall|k: u32| #[trigger] uses(k) ==> k < before.len()
        },
        Err(error) => {
            &&& error == Error::InvalidModel("function references a missing file")
            &&& exists|k: u32| k >= before.len() && #[trigger] uses(k)
        },
    }
}

fn mark_file(index: FileIndex, used: &mut Vec<bool>) -> (result: Result<(), Error>)
    ensures
        match result {
            Ok(_) => index.0 < old(used)@.len() && final(used)@ == old(used)@.update(
                index.0 as int,
                true,
            ),
            Err(error) => {
                &&& index.0 >= old(used)@.len()
                &&& final(used)@ == old(used)@
                &&& error == Error::InvalidModel("function references a missing file")
            },
        },
{
    let at: usize = index.get() as usize;
    if at >= used.len() {
        return Err(Error::InvalidModel("function references a missing file"));
    }
    used.set(at, true);
    Ok(())
}

proof fn lemma_lines_use_next(lines: Seq<LineEntry>, i: int)
    requires
        0 <= i < lines.len(),
    ensures
        forall|k: u32| #[trigger]
            lines_use(lines.subrange(0, i + 1), k) == (lines_use(lines.subrange(0, i), k)
                || lines[i].file.0 == k),
{
    let longer = lines.subrange(0, i + 1);
    let shorter = lines.subrange(0, i);
    assert forall|k: u32| #[trigger] lines_use(longer, k) == (lines_use(shorter, k)
        || lines[i].file.0 == k) by {
        if lines_use(longer, k) {
            let j = choose|j: int| 0 <= j < longer.len() && (#[trigger] longer[j]).file.0 == k;
            if j < i {
                assert(shorter[j].file.0 == k);
            }
        }
        if lines_use(shorter, k) {
            let j = choose|j: int| 0 <= j < shorter.len() && (#[trigger] shorter[j]).file.0 == k;
            assert(longer[j].file.0 == k);
        }
        if lines[i].file.0 == k {
            assert(longer[i].file.0 == k);
        }
    }
}

fn mark_line_files(lines: &Vec<LineEntry>, used: &mut Vec<bool>) -> (result: Result<(), Error>)
    ensures
        marked(old(used)@, final(used)@, result, |k: u32| lines_use(lines@, k)),
{
    let ghost before = used@;
    let ghost uses = |k: u32| lines_use(lines@, k);
    let mut i: usize = 0;
    while i < lines.len()
        invariant
            i <= lines@.len(),
            before == old(used)@,
            uses == (|k: u32| lines_use(lines@, k)),
            used@.len() == before.len(),
            forall|k: u32|
                k < before.len() ==> #[trigger] used@[k as int] == (before[k as int] || lines_use(
                    lines@.subrange(0, i as int),
                    k,
                )),
            forall|k: u32| #[trigger]
                lines_use(lines@.subrange(0, i as int), k) ==> k < before.len(),
        decreases lines@.len() - i,
    {
        let ghost current = used@;
        let index: FileIndex = lines[i].file;
        proof {
            lemma_lines_use_next(lines@, i as int);
        }
        match mark_file(index, used) {
            Ok(()) => {
                assert forall|k: u32| k < before.len() implies #[trigger] used@[k as int] == (
                before[k as int] || lines_use(lines@.subrange(0, i + 1), k)) by {
                    assert(current[k as int] == (before[k as int] || lines_use(
                        lines@.subrange(0, i as int),
                        k,
                    )));
                }
            },
            Err(error) => {
                proof {
                    assert(lines@[i as int].file.0 == index.0);
                    assert(uses(index.0));
                }
                return Err(error);
            },
        }
        i = i + 1;
    }
    assert(lines@.subrange(0, lines@.len() as int) =~= lines@);
    assert forall|k: u32| k < before.len() implies #[trigger] used@[k as int] == (before[k as int]
        || uses(k)) by {}
    Ok(())
}

/// Whether one of the inline trees refers to the file with the given index.
spec fn any_inline_uses(nodes: Seq<InlineView>, index: u32) -> bool {
    exists|i: int| 0 <= i < nodes.len() && inline_uses(#[trigger] nodes[i], index)
}

proof fn lemma_inline_use_next(nodes: Seq<InlineView>, i: int)
    requires
        0 <= i < nodes.len(),
    ensures
        forall|k: u32| #[trigger]
            any_inline_uses(nodes.subrange(0, i + 1), k) == (any_inline_uses(
                nodes.subrange(0, i),
                k,
            ) || inline_uses(nodes[i], k)),
{
    let longer = nodes.subrange(0, i + 1);
    let shorter = nodes.subrange(0, i);
    assert forall|k: u32| #[trigger] any_inline_uses(longer, k) == (any_inline_uses(shorter, k)
        || inline_uses(nodes[i], k)) by {
        if any_inline_uses(longer, k) {
            let j = choose|j: int| 0 <= j < longer.len() && inline_uses(#[trigger] longer[j], k);
            if j < i {
                assert(inline_uses(shorter[j], k));
            }
        }
        if any_inline_uses(shorter, k) {
            let j = choose|j: int| 0 <= j < shorter.len() && inline_uses(#[trigger] shorter[j], k);
            assert(inline_uses(longer[j], k));
        }
        if inline_uses(nodes[i], k) {
            assert(inline_uses(longer[i], k));
        }
    }
}

fn mark_inline_files(node: &InlineNode, used: &mut Vec<bool>) -> (result: Result<(), Error>)
    ensures
        marked(old(used)@, final(used)@, result, |k: u32| inline_uses(node@, k)),
    decreases node,
{
    let ghost before = used@;
    let ghost uses = |k: u32| inline_uses(node@, k);
    let ghost views = model::inline_views(node.children@);
    proof {
        model::lemma_inline_view(*node);
        assert(node@.children == views);
    }
    match mark_file(node.call_file, used) {
        Ok(()) => {},
        Err(error) => {
            assert(uses(node.call_file.0));
            return Err(error);
        },
    }
    assert(views.subrange(0, 0) =~= Seq::<InlineView>::empty());
    let mut i: usize = 0;
    while i < node.children.len()
        invariant
            i <= node.children@.len(),
            before == old(used)@,
            uses == (|k: u32| inline_uses(node@, k)),
            views == model::inline_views(node.children@),
            node@.children == views,
            node@.call_file == node.call_file,
            used@.len() == before.len(),
            node.call_file.0 < before.len(),
            forall|k: u32|
                k < before.len() ==> #[trigger] used@[k as int] == (before[k as int]
                    || node.call_file.0 == k || any_inline_uses(
                    views.subrange(0, i as int),
                    k,
                )),
            forall|k: u32| #[trigger]
                any_inline_uses(views.subrange(0, i as int), k) ==> k < before.len(),
        decreases node.children@.len() - i,
    {
        assert(decreases_to!(node => node.children@[i as int]));
        let ghost current = used@;
        proof {
            assert(views[i as int] == node.children@[i as int]@);
            lemma_inline_use_next(views, i as int);
        }
        match mark_inline_files(&node.children[i], used) {
            Ok(()) => {
                let ghost child = |k: u32| inline_uses(views[i as int], k);
                assert forall|k: u32| k < before.len() implies #[trigger] used@[k as int] == (
                before[k as int] || node.call_file.0 == k || any_inline_uses(
                    views.subrange(0, i + 1),
                    k,
                )) by {
                    assert(current[k as int] == (before[k as int] || node.call_file.0 == k
                        || any_inline_uses(views.subrange(0, i as int), k)));
                    assert(used@[k as int] == (current[k as int] || child(k)));
                }
                assert forall|k: u32| #[trigger]
                    any_inline_uses(views.subrange(0, i + 1), k) implies k < before.len() by {
                    if inline_uses(views[i as int], k) {
                        assert(child(k));
                    }
                }
            },
            Err(error) => {
                proof {
                    let child = |k: u32| inline_uses(views[i as int], k);
                    let k = choose|k: u32| k >= before.len() && #[trigger] child(k);
                    assert(inline_uses(node@.children[i as int], k));
                    assert(uses(k));
                }
                return Err(error);
            },
        }
        i = i + 1;
    }
    proof {
        assert(views.subrange(0, views.len() as int) =~= views);
        assert forall|k: u32| #[trigger] uses(k) == (node.call_file.0 == k || any_inline_uses(
            views,
            k,
        )) by {}
    }
    Ok(())
}

proof fn lemma_use_next(functions: Seq<FunctionView>, i: int)
    requires
        0 <= i < functions.len(),
    ensures
        forall|k: u32| #[trigger]
            any_uses(functions.subrange(0, i + 1), k) == (any_uses(functions.subrange(0, i), k)
                || function_uses(functions[i], k)),
{
    let longer = functions.subrange(0, i + 1);
    let shorter = functions.subrange(0, i);
    assert forall|k: u32| #[trigger] any_uses(longer, k) == (any_uses(shorter, k)
        || function_uses(functions[i], k)) by {
        if any_uses(longer, k) {
            let j = choose|j: int| 0 <= j < longer.len() && function_uses(#[trigger] longer[j], k);
            if j < i {
                assert(function_uses(shorter[j], k));
            }
        }
        if any_uses(shorter, k) {
            let j = choose|j: int|
                0 <= j < shorter.len() && function_uses(#[trigger] shorter[j], k);
            assert(function_uses(longer[j], k));
        }
        if function_uses(functions[i], k) {
            assert(function_uses(longer[i], k));
        }
    }
}

/// Whether the rows or the inline tree of a function refer to the file with the
/// given index.
spec fn own_uses(function: FunctionView, index: u32) -> bool {
    lines_use(function.lines, index) || (function.inline is Some && inline_uses(
        function.inline->0,
        index,
    ))
}

fn mark_own_files(function: &Function, used: &mut Vec<bool>) -> (result: Result<(), Error>)
    ensures
        marked(old(used)@, final(used)@, result, |k: u32| own_uses(function@, k)),
{
    let ghost before = used@;
    let ghost uses = |k: u32| own_uses(function@, k);
    let ghost lines = |k: u32| lines_use(function.lines@, k);
    proof {
        model::lemma_function_view(*function);
    }
    match mark_line_files(&function.lines, used) {
        Ok(()) => {
            assert forall|k: u32| k < before.len() implies #[trigger] used@[k as int] == (
            before[k as int] || lines(k)) by {}
        },
        Err(error) => {
            proof {
                let k = choose|k: u32| k >= before.len() && #[trigger] lines(k);
                assert(uses(k));
            }
            return Err(error);
        },
    }
    let ghost current = used@;
    if let Some(node) = &function.inline {
        let ghost inline = |k: u32| inline_uses(node@, k);
        match mark_inline_files(node, used) {
            Ok(()) => {
                assert forall|k: u32| k < before.len() implies #[trigger] used@[k as int] == (
                current[k as int] || inline(k)) by {}
                assert forall|k: u32| #[trigger] uses(k) == (lines(k) || inline(k)) by {}
            },
            Err(error) => {
                proof {
                    let k = choose|k: u32| k >= before.len() && #[trigger] inline(k);
                    assert(uses(k));
                }
                return Err(error);
            },
        }
    }
    assert forall|k: u32| k < before.len() implies #[trigger] used@[k as int] == (before[k as int]
        || uses(k)) by {
        assert(current[k as int] == (before[k as int] || lines(k)));
    }
    assert forall|k: u32| #[trigger] uses(k) implies k < before.len() by {
        assert(lines(k) ==> k < before.len());
    }
    Ok(())
}

fn mark_function_files(function: &Function, used: &mut Vec<bool>) -> (result: Result<(), Error>)
    ensures
        marked(old(used)@, final(used)@, result, |k: u32| function_uses(function@, k)),
    decreases function,
{
    let ghost before = used@;
    let ghost uses = |k: u32| function_uses(function@, k);
    let ghost own = |k: u32| own_uses(function@, k);
    let ghost views = model::function_views(function.merged@);
    proof {
        model::lemma_function_view(*function);
        assert(function@.merged == views);
    }
    match mark_own_files(function, used) {
        Ok(()) => {},
        Err(error) => {
            proof {
                let k = choose|k: u32| k >= before.len() && #[trigger] own(k);
                assert(uses(k));
            }
            return Err(error);
        },
    }
    assert(views.subrange(0, 0) =~= Seq::<FunctionView>::empty());
    assert forall|k: u32| #[trigger] own_uses(function@, k) implies k < before.len() by {
        assert(own(k));
    }
    assert forall|k: u32| k < before.len() implies #[trigger] used@[k as int] == (before[k as int]
        || own_uses(function@, k) || any_uses(views.subrange(0, 0), k)) by {
        assert(used@[k as int] == (before[k as int] || own(k)));
    }
    let mut i: usize = 0;
    while i < function.merged.len()
        invariant
            i <= function.merged@.len(),
            before == old(used)@,
            uses == (|k: u32| function_uses(function@, k)),
            views == model::function_views(function.merged@),
            function@.merged == views,
            used@.len() == before.len(),
            forall|k: u32| #[trigger] own_uses(function@, k) ==> k < before.len(),
            forall|k: u32|
                k < before.len() ==> #[trigger] used@[k as int] == (before[k as int] || own_uses(
                    function@,
                    k,
                ) || any_uses(views.subrange(0, i as int), k)),
            forall|k: u32| #[trigger]
                any_uses(views.subrange(0, i as int), k) ==> k < before.len(),
        decreases function.merged@.len() - i,
    {
        assert(decreases_to!(function => function.merged@[i as int]));
        let ghost current = used@;
        let ghost child = |k: u32| function_uses(views[i as int], k);
        proof {
            assert(views[i as int] == function.merged@[i as int]@);
            lemma_use_next(views, i as int);
        }
        match mark_function_files(&function.merged[i], used) {
            Ok(()) => {
                assert forall|k: u32| k < before.len() implies #[trigger] used@[k as int] == (
                before[k as int] || own_uses(function@, k) || any_uses(
                    views.subrange(0, i + 1),
                    k,
                )) by {
                    assert(current[k as int] == (before[k as int] || own_uses(function@, k)
                        || any_uses(views.subrange(0, i as int), k)));
                    assert(used@[k as int] == (current[k as int] || child(k)));
                }
                assert forall|k: u32| #[trigger] any_uses(views.subrange(0, i + 1), k) implies k
                    < before.len() by {
                    if function_uses(views[i as int], k) {
                        assert(child(k));
                    }
                }
            },
            Err(error) => {
                proof {
                    let k = choose|k: u32| k >= before.len() && #[trigger] child(k);
                    assert(function_uses(function@.merged[i as int], k));
                    assert(uses(k));
                }
                return Err(error);
            },
        }
        i = i + 1;
    }
    proof {
        assert(views.subrange(0, views.len() as int) =~= views);
        assert forall|k: u32| #[trigger] uses(k) == (own_uses(function@, k) || any_uses(
            views,
            k,
        )) by {}
    }
    Ok(())
}

fn remap_line_files(lines: &mut Vec<LineEntry>, remap: &Vec<FileIndex>)
    requires
        forall|k: u32| #[trigger] lines_use(old(lines)@, k) ==> k < remap@.len(),
    ensures
        final(lines)@ == lines_remapped(old(lines)@, remap@),
{
    let ghost before = lines@;
    let count: usize = lines.len();
    let mut i: usize = 0;
    while i < count
        invariant
            i <= count,
            count == before.len(),
            lines@.len() == count,
            forall|k: u32| #[trigger] lines_use(before, k) ==> k < remap@.len(),
            forall|j: int| i <= j < count ==> lines@[j] == before[j],
            forall|j: int|
                0 <= j < i ==> #[trigger] lines@[j] == lines_remapped(before, remap@)[j],
        decreases count - i,
    {
        let row: LineEntry = lines[i];
        assert(lines_use(before, row.file.0)) by {
            assert(before[i as int].file.0 == row.file.0);
        }
        let file: FileIndex = remap[row.file.get() as usize];
        lines.set(i, LineEntry { address: row.address, file, line: row.line });
        i = i + 1;
    }
    assert(lines@ =~= lines_remapped(before, remap@));
}

fn remap_inline_files(node: &mut InlineNode, remap: &Vec<FileIndex>)
    requires
        forall|k: u32| #[trigger] inline_uses(old(node)@, k) ==> k < remap@.len(),
    ensures
        final(node)@ == inline_remapped(old(node)@, remap@),
    decreases *old(node),
{
    let ghost before = *node;
    proof {
        model::lemma_inline_view(before);
        lemma_inline_remapped(before@, remap@);
        assert(inline_uses(before@, before.call_file.0));
    }
    node.call_file = remap[node.call_file.get() as usize];
    let mut children: Vec<InlineNode> = Vec::new();
    std::mem::swap(&mut children, &mut node.children);
    let ghost views = model::inline_views(children@);
    let count: usize = children.len();
    let mut i: usize = 0;
    while i < count
        invariant
            i <= count,
            count == children@.len(),
            before == *old(node),
            views == model::inline_views(before.children@),
            before@.children == views,
            forall|k: u32| #[trigger] inline_uses(before@, k) ==> k < remap@.len(),
            children@.len() == before.children@.len(),
            forall|k: int| i <= k < count ==> children@[k] == before.children@[k],
            forall|k: int|
                0 <= k < i ==> (#[trigger] children@[k])@ == inline_remapped(views[k], remap@),
        decreases count - i,
    {
        assert(decreases_to!(before => before.children@[i as int]));
        assert forall|k: u32| #[trigger] inline_uses(children@[i as int]@, k) implies k
            < remap@.len() by {
            assert(inline_uses(before@.children[i as int], k));
            assert(inline_uses(before@, k));
        }
        remap_inline_files(&mut children[i], remap);
        i = i + 1;
    }
    assert(model::inline_views(children@) =~= inlines_remapped(views, remap@));
    node.children = children;
    proof {
        model::lemma_inline_view(*node);
    }
}

fn remap_function_files(function: &mut Function, remap: &Vec<FileIndex>)
    requires
        forall|k: u32| #[trigger] function_uses(old(function)@, k) ==> k < remap@.len(),
    ensures
        final(function)@ == function_remapped(old(function)@, remap@),
    decreases *old(function),
{
    let ghost before = *function;
    proof {
        model::lemma_function_view(before);
        lemma_function_remapped(before@, remap@);
        assert forall|k: u32| #[trigger] lines_use(before.lines@, k) implies k < remap@.len() by {
            assert(function_uses(before@, k));
        }
        if before.inline is Some {
            assert forall|k: u32| #[trigger] inline_uses(before.inline->0@, k) implies k
                < remap@.len() by {
                assert(function_uses(before@, k));
            }
        }
    }
    remap_line_files(&mut function.lines, remap);
    let mut inline: Option<InlineNode> = None;
    std::mem::swap(&mut inline, &mut function.inline);
    function.inline = match inline {
        Some(node) => {
            let mut node = node;
            remap_inline_files(&mut node, remap);
            Some(node)
        },
        None => None,
    };
    let mut merged: Vec<Function> = Vec::new();
    std::mem::swap(&mut merged, &mut function.merged);
    let ghost views = model::function_views(merged@);
    let count: usize = merged.len();
    let mut i: usize = 0;
    while i < count
        invariant
            i <= count,
            count == merged@.len(),
            before == *old(function),
            views == model::function_views(before.merged@),
            before@.merged == views,
            forall|k: u32| #[trigger] function_uses(before@, k) ==> k < remap@.len(),
            merged@.len() == before.merged@.len(),
            forall|k: int| i <= k < count ==> merged@[k] == before.merged@[k],
            forall|k: int|
                0 <= k < i ==> (#[trigger] merged@[k])@ == function_remapped(views[k], remap@),
        decreases count - i,
    {
        assert(decreases_to!(before => before.merged@[i as int]));
        assert forall|k: u32| #[trigger] function_uses(merged@[i as int]@, k) implies k
            < remap@.len() by {
            assert(function_uses(before@.merged[i as int], k));
            assert(function_uses(before@, k));
        }
        remap_function_files(&mut merged[i], remap);
        i = i + 1;
    }
    assert(model::function_views(merged@) =~= functions_remapped(views, remap@));
    function.merged = merged;
    proof {
        model::lemma_function_view(*function);
    }
}

/// The marks of the files that the functions use, with the reserved one.
spec fn used_by(used: Seq<bool>, functions: Seq<FunctionView>) -> bool {
    forall|k: u32|
        k < used.len() ==> #[trigger] used[k as int] == (k == 0 || any_uses(functions, k))
}

/// The functions at the given places of a list.
pub open spec fn selected(functions: Seq<FunctionView>, order: Seq<int>) -> Seq<FunctionView> {
    Seq::new(order.len(), |i: int| functions[order[i]])
}

/// Marks the files that the functions at the given places use.
fn mark_used(functions: &Vec<Function>, order: &Vec<usize>, start: usize, end: usize, count: usize)
    -> (result: Result<Vec<bool>, Error>)
    requires
        start <= end <= order@.len(),
        forall|i: int| 0 <= i < order@.len() ==> order@[i] < functions@.len(),
    ensures
        ({
            let chosen = selected(
                model::function_views(functions@),
                sort::indices(order@).subrange(start as int, end as int),
            );
            match result {
                Ok(used) => used@.len() == count && used_by(used@, chosen) && !refers_beyond(
                    chosen,
                    count as nat,
                ),
                Err(error) => {
                    &&& refers_beyond(chosen, count as nat)
                    &&& error == Error::InvalidModel("function references a missing file")
                },
            }
        }),
{
    let ghost views = model::function_views(functions@);
    let ghost chosen = selected(
        views,
        sort::indices(order@).subrange(start as int, end as int),
    );
    let mut used: Vec<bool> = Vec::new();
    while used.len() < count
        invariant
            used@.len() <= count,
            forall|k: int| 0 <= k < used@.len() ==> used@[k] == (k == 0),
        decreases count - used@.len(),
    {
        let first: bool = used.len() == 0;
        used.push(first);
    }
    assert(chosen.subrange(0, 0) =~= Seq::<FunctionView>::empty());
    let mut i: usize = start;
    while i < end
        invariant
            start <= i <= end <= order@.len(),
            views == model::function_views(functions@),
            chosen == selected(
                views,
                sort::indices(order@).subrange(start as int, end as int),
            ),
            forall|i: int| 0 <= i < order@.len() ==> order@[i] < functions@.len(),
            used@.len() == count,
            used_by(used@, chosen.subrange(0, i - start)),
            forall|k: u32| #[trigger] any_uses(chosen.subrange(0, i - start), k) ==> k < count,
        decreases end - i,
    {
        let ghost at = i - start;
        let ghost current = used@;
        let ghost one = |k: u32| function_uses(chosen[at], k);
        proof {
            assert(chosen[at] == functions@[order@[i as int] as int]@);
            lemma_use_next(chosen, at);
        }
        match mark_function_files(&functions[order[i]], &mut used) {
            Ok(()) => {
                assert forall|k: u32| k < used@.len() implies #[trigger] used@[k as int] == (k == 0
                    || any_uses(chosen.subrange(0, at + 1), k)) by {
                    assert(current[k as int] == (k == 0 || any_uses(chosen.subrange(0, at), k)));
                    assert(used@[k as int] == (current[k as int] || one(k)));
                }
                assert forall|k: u32| #[trigger] any_uses(chosen.subrange(0, at + 1), k) implies k
                    < count by {
                    if function_uses(chosen[at], k) {
                        assert(one(k));
                    }
                }
            },
            Err(error) => {
                proof {
                    let k = choose|k: u32| k >= count && #[trigger] one(k);
                    assert(function_uses(chosen[at], k));
                    assert(any_uses(chosen, k));
                }
                return Err(error);
            },
        }
        i = i + 1;
    }
    assert(chosen.subrange(0, end - start) =~= chosen);
    Ok(used)
}

/// Adds the files that are used to a builder and returns their new numbers.
fn add_used_files(builder: &mut GsymBuilder, files: &Vec<FileEntry>, used: &Vec<bool>, Ghost(
    functions,
): Ghost<Seq<FunctionView>>) -> (result: Result<Vec<FileIndex>, Error>)
    requires
        old(builder).wf(),
        used@.len() == files@.len(),
        files@.len() > 0,
        used_by(used@, functions),
        old(builder)@.files == seq![model::empty_file()],
    ensures
        final(builder).wf(),
        match renumbered(model::file_views(files@), functions) {
            Ok(renumbering) => {
                &&& result matches Ok(remap)
                &&& remap@ == renumbering.remap
                &&& remap@.len() == files@.len()
                &&& final(builder)@ == (BuilderView {
                    files: renumbering.files,
                    ..old(builder)@
                })
            },
            Err(error) => result == Err::<Vec<FileIndex>, Error>(error),
        },
{
    let ghost views = model::file_views(files@);
    let ghost expected = renumbered(views, functions);
    let ghost given = builder@;
    let count: usize = files.len();
    let mut remap: Vec<FileIndex> = Vec::new();
    while remap.len() < count
        invariant
            remap@.len() <= count,
            forall|k: int| 0 <= k < remap@.len() ==> remap@[k] == FileIndex(0),
        decreases count - remap@.len(),
    {
        remap.push(FileIndex(0));
    }
    assert(remap@ =~= Seq::new(views.len(), |i: int| FileIndex(0)));
    let mut i: usize = 1;
    while i < count
        invariant
            1 <= i <= count,
            count == files@.len(),
            count == used@.len(),
            views == model::file_views(files@),
            used_by(used@, functions),
            builder.wf(),
            builder@ == (BuilderView { files: builder@.files, ..given }),
            given == old(builder)@,
            remap@.len() == count,
            expected == renumbered(views, functions),
            expected == renumbered_from(
                views,
                functions,
                i as int,
                Renumbering { files: builder@.files, remap: remap@ },
            ),
        decreases count - i,
    {
        proof {
            if i <= u32::MAX {
                assert(used@[(i as u32) as int] == any_uses(functions, i as u32));
            }
        }
        if i as u64 <= u32::MAX as u64 && used[i] {
            let index: FileIndex = builder.add_file(files[i].clone())?;
            remap.set(i, index);
        }
        i = i + 1;
    }
    Ok(remap)
}

/// Renumbers the files of a function and adds it to a builder.
fn add_remapped(builder: &mut GsymBuilder, function: Function, remap: &Vec<FileIndex>) -> (result:
    Result<(), Error>)
    requires
        old(builder).wf(),
        forall|k: u32| #[trigger] function_uses(function@, k) ==> k < remap@.len(),
    ensures
        final(builder).wf(),
        match validation::function_error(function_remapped(function@, remap@), None, None, 0) {
            Some(error) => result == Err::<(), Error>(error),
            None => {
                &&& result == Ok::<(), Error>(())
                &&& final(builder)@ == (BuilderView {
                    functions: old(builder)@.functions.push(
                        function_remapped(function@, remap@),
                    ),
                    ..old(builder)@
                })
            },
        },
{
    let mut function = function;
    remap_function_files(&mut function, remap);
    builder.add_function(function)
}

/// A builder of a decoded file without files and functions.
spec fn bare_builder(source: DecodedView, options: TranscodeOptions) -> BuilderView {
    BuilderView {
        options: builder_options(source, options),
        ..builder::empty_builder()
    }
}

impl DecodedGsym {
    fn new_builder(&self, options: TranscodeOptions) -> (builder: GsymBuilder)
        ensures
            builder.wf(),
            builder@ == bare_builder(self@, options),
    {
        let version: GsymVersion = match options.version {
            Some(version) => version,
            None => self.source_version,
        };
        let endian: Endian = match options.endian {
            Some(endian) => endian,
            None => self.source_endian,
        };
        GsymBuilder::new().version(version).endian(endian).base_address(
            self.base_address,
        ).build_id(copy_bytes(self.build_id.as_slice())).repair_zero_sized_functions(
            false,
        )
    }

    fn reserved_file_is_empty(&self) -> (empty: bool)
        ensures
            empty == (self@.files.len() > 0 && self@.files[0] == model::empty_file()),
    {
        if self.files.len() == 0 {
            return false;
        }
        let ghost first = self.files@[0]@;
        let empty: bool = self.files[0].directory.len() == 0 && self.files[0].basename.len() == 0;
        proof {
            if empty {
                assert(first.directory =~= model::empty_file().directory);
                assert(first.basename =~= model::empty_file().basename);
            }
        }
        empty
    }

    /// Builds a writer model of the functions at the given places.
    fn builder_for_functions(
        &self,
        order: &Vec<usize>,
        start: usize,
        end: usize,
        options: TranscodeOptions,
    ) -> (result: Result<GsymBuilder, Error>)
        requires
            start <= end <= order@.len(),
            forall|i: int| 0 <= i < order@.len() ==> order@[i] < self.functions@.len(),
        ensures
            match builder_for(
                self@,
                selected(
                    self@.functions,
                    sort::indices(order@).subrange(start as int, end as int),
                ),
                options,
            ) {
                Ok(view) => result matches Ok(builder) && builder.wf() && builder@ == view,
                Err(error) => result matches Err(found) && found == error,
            },
    {
        let ghost chosen = selected(
            self@.functions,
            sort::indices(order@).subrange(start as int, end as int),
        );
        if !self.reserved_file_is_empty() {
            return Err(Error::InvalidModel("file-table index zero must be empty"));
        }
        let used = mark_used(&self.functions, order, start, end, self.files.len())?;
        let mut builder = self.new_builder(options);
        let remap = add_used_files(&mut builder, &self.files, &used, Ghost(chosen))?;
        let ghost bare = builder@;
        let ghost remapped = functions_remapped(chosen, remap@);
        assert(remapped.subrange(0, 0) =~= Seq::<FunctionView>::empty());
        let mut i: usize = start;
        while i < end
            invariant
                start <= i <= end <= order@.len(),
                forall|i: int| 0 <= i < order@.len() ==> order@[i] < self.functions@.len(),
                chosen == selected(
                    self@.functions,
                    sort::indices(order@).subrange(start as int, end as int),
                ),
                remap@.len() == self.files@.len(),
                !refers_beyond(chosen, self.files@.len()),
                remapped == functions_remapped(chosen, remap@),
                builder.wf(),
                builder@ == (BuilderView { functions: remapped.subrange(0, i - start), ..bare }),
                builder_for(self@, chosen, options) == (match validation::functions_error(
                    remapped,
                    i - start,
                    None,
                    None,
                    0,
                ) {
                    Some(error) => Err(error),
                    None => Ok(BuilderView { functions: remapped, ..bare }),
                }),
            decreases end - i,
        {
            let ghost at = i - start;
            proof {
                assert(chosen[at] == self.functions@[order@[i as int] as int]@);
                assert forall|k: u32| #[trigger] function_uses(chosen[at], k) implies k
                    < remap@.len() by {
                    assert(any_uses(chosen, k));
                }
                assert(remapped[at] == function_remapped(chosen[at], remap@));
                assert(remapped.subrange(0, at + 1) =~= remapped.subrange(0, at).push(
                    remapped[at],
                ));
            }
            add_remapped(&mut builder, self.functions[order[i]].clone(), &remap)?;
            i = i + 1;
        }
        assert(remapped.subrange(0, end - start) =~= remapped);
        Ok(builder)
    }

    fn all_places(&self) -> (order: Vec<usize>)
        ensures
            order@.len() == self.functions@.len(),
            forall|i: int| 0 <= i < order@.len() ==> #[trigger] order@[i] == i,
    {
        let count: usize = self.functions.len();
        let mut order: Vec<usize> = Vec::new();
        while order.len() < count
            invariant
                order@.len() <= count,
                forall|i: int| 0 <= i < order@.len() ==> #[trigger] order@[i] == i,
            decreases count - order@.len(),
        {
            let next: usize = order.len();
            order.push(next);
        }
        order
    }

    /// Builds a deterministic writer model by cloning this decoded model.
    ///
    /// Use `into_builder` when this model is no longer needed.
    pub fn to_builder(&self, options: TranscodeOptions) -> (result: Result<GsymBuilder, Error>)
        ensures
            match builder_for(self@, self@.functions, options) {
                Ok(view) => result matches Ok(builder) && builder.wf() && builder@ == view,
                Err(error) => result matches Err(found) && found == error,
            },
    {
        let order = self.all_places();
        let count: usize = order.len();
        proof {
            assert(selected(
                self@.functions,
                sort::indices(order@).subrange(0, count as int),
            ) =~= self@.functions);
        }
        self.builder_for_functions(&order, 0, count, options)
    }

    /// Converts this decoded model into a deterministic writer without cloning
    /// its function trees.
    pub fn into_builder(self, options: TranscodeOptions) -> (result: Result<GsymBuilder, Error>)
        ensures
            match builder_for(self@, self@.functions, options) {
                Ok(view) => result matches Ok(builder) && builder.wf() && builder@ == view,
                Err(error) => result matches Err(found) && found == error,
            },
    {
        let ghost source = self@;
        let ghost chosen = self@.functions;
        if !self.reserved_file_is_empty() {
            return Err(Error::InvalidModel("file-table index zero must be empty"));
        }
        let order = self.all_places();
        let count: usize = order.len();
        proof {
            assert(selected(
                self@.functions,
                sort::indices(order@).subrange(0, count as int),
            ) =~= self@.functions);
        }
        let used = mark_used(&self.functions, &order, 0, count, self.files.len())?;
        let mut builder = self.new_builder(options);
        let remap = add_used_files(&mut builder, &self.files, &used, Ghost(chosen))?;
        let ghost bare = builder@;
        let ghost remapped = functions_remapped(chosen, remap@);
        assert(remapped.subrange(0, 0) =~= Seq::<FunctionView>::empty());
        let ghost given = self.functions@;
        let ghost file_count = self.files@.len();
        let mut slots = into_slots(self.functions);
        let mut i: usize = 0;
        while i < count
            invariant
                i <= count,
                count == given.len(),
                slots@.len() == count,
                source == self@,
                chosen == source.functions,
                chosen == model::function_views(given),
                forall|k: int| i <= k < count ==> #[trigger] slots@[k] == Some(given[k]),
                remap@.len() == file_count,
                !refers_beyond(chosen, file_count),
                remapped == functions_remapped(chosen, remap@),
                builder.wf(),
                builder@ == (BuilderView { functions: remapped.subrange(0, i as int), ..bare }),
                builder_for(source, chosen, options) == (match validation::functions_error(
                    remapped,
                    i as int,
                    None,
                    None,
                    0,
                ) {
                    Some(error) => Err(error),
                    None => Ok(BuilderView { functions: remapped, ..bare }),
                }),
            decreases count - i,
        {
            let mut taken: Option<Function> = None;
            std::mem::swap(&mut taken, &mut slots[i]);
            proof {
                assert(chosen[i as int] == given[i as int]@);
                assert forall|k: u32| #[trigger] function_uses(chosen[i as int], k) implies k
                    < remap@.len() by {
                    assert(any_uses(chosen, k));
                }
                assert(remapped[i as int] == function_remapped(chosen[i as int], remap@));
                assert(remapped.subrange(0, i + 1) =~= remapped.subrange(0, i as int).push(
                    remapped[i as int],
                ));
            }
            if let Some(function) = taken {
                add_remapped(&mut builder, function, &remap)?;
            }
            i = i + 1;
        }
        assert(remapped.subrange(0, count as int) =~= remapped);
        Ok(builder)
    }

    /// Encodes the complete model using the requested output settings.
    pub fn transcode(self, options: TranscodeOptions) -> (result: Result<Vec<u8>, Error>)
        ensures
            match encoded_with(self@, self@.functions, options) {
                Ok(bytes) => result matches Ok(found) && found@ == bytes,
                Err(error) => result == Err::<Vec<u8>, Error>(error),
            },
    {
        proof {
            reveal(encoded_with);
        }
        let builder = self.into_builder(options)?;
        builder.to_copy()
    }
}

impl<D: Storage> Gsym<D> {
    /// Decodes every file and function into an owned semantic model.
    ///
    /// This decodes and validates the whole file, so it costs about as much as
    /// `verify`.
    pub fn decode_all(&self) -> (result: Result<DecodedGsym, Error>)
        ensures
            match decoded(self.contents(), self.tables()) {
                Ok(view) => result matches Ok(found) && found@ == view,
                Err(error) => result matches Err(found) && found == error,
            },
    {
        let (_report, functions) = self.decode_all_verified()?;
        let header = self.header();
        let count: u32 = self.layout().file_count;
        let mut files: Vec<FileEntry> = Vec::new();
        if count == 0 {
            files.push(FileEntry::default());
        }
        let ghost expected = files_of(self.contents(), self.tables());
        assert(count > 0 ==> model::file_views(files@) =~= expected.subrange(0, 0));
        let mut index: u32 = 0;
        while index < count
            invariant
                index <= count,
                count == self.tables().file_count,
                verify::verify_error(self.contents(), self.tables()) is None,
                expected == files_of(self.contents(), self.tables()),
                count > 0 ==> model::file_views(files@) == expected.subrange(0, index as int),
                count == 0 ==> files@.len() == 1 && files@[0]@ == model::empty_file(),
            decreases count - index,
        {
            proof {
                verify::law_verified_files(self.contents(), self.tables(), index);
            }
            let (directory, basename) = self.file(FileIndex(index))?;
            let entry = FileEntry::new(directory, basename);
            let ghost before = model::file_views(files@);
            files.push(entry);
            proof {
                assert(model::file_views(files@) =~= before.push(entry@));
                assert(expected[index as int] == entry@);
                assert(expected.subrange(0, index + 1) =~= before.push(entry@));
            }
            index = index + 1;
        }
        proof {
            if count == 0 {
                assert(model::file_views(files@) =~= expected);
            } else {
                assert(expected.subrange(0, count as int) =~= expected);
            }
        }
        Ok(
            DecodedGsym {
                source_version: header.version,
                source_endian: header.endian,
                base_address: header.base_address,
                build_id: copy_bytes(header.build_id),
                files,
                functions,
            },
        )
    }

    /// Re-encodes this file with a selected version or byte order.
    pub fn transcode(&self, options: TranscodeOptions) -> (result: Result<Vec<u8>, Error>)
        ensures
            match decoded(self.contents(), self.tables()) {
                Ok(view) => match encoded_with(view, view.functions, options) {
                    Ok(bytes) => result matches Ok(found) && found@ == bytes,
                    Err(error) => result matches Err(found) && found == error,
                },
                Err(error) => result matches Err(found) && found == error,
            },
    {
        let model = self.decode_all()?;
        model.transcode(options)
    }
}

/// Functions ranked by where they start and end.
struct ByRange<'functions> {
    functions: &'functions Vec<Function>,
}

/// The ranking of functions by range.
pub open spec fn range_ranking(functions: Seq<FunctionView>) -> spec_fn(int, int) -> bool {
    |i: int, j: int| range_at_most(functions[i].range, functions[j].range)
}

impl<'functions> Ranked for ByRange<'functions> {
    closed spec fn count(&self) -> nat {
        self.functions@.len()
    }

    closed spec fn ranks(&self) -> spec_fn(int, int) -> bool {
        range_ranking(model::function_views(self.functions@))
    }

    proof fn ranking(&self) {
    }

    fn at_most(&self, i: usize, j: usize) -> (result: bool) {
        proof {
            model::lemma_function_view(self.functions@[i as int]);
            model::lemma_function_view(self.functions@[j as int]);
        }
        let a: AddressRange = self.functions[i].range;
        let b: AddressRange = self.functions[j].range;
        a.start < b.start || (a.start == b.start && a.end <= b.end)
    }
}

/// The functions by where they start and end.
pub open spec fn by_range(functions: Seq<FunctionView>) -> Seq<FunctionView> {
    selected(functions, sort::order_of(range_ranking(functions), functions.len()))
}

/// Putting functions in order of their ranges keeps each of them.
pub proof fn lemma_by_range(functions: Seq<FunctionView>)
    ensures
        by_range(functions).len() == functions.len(),
        forall|i: int, j: int|
            0 <= i <= j < functions.len() ==> range_at_most(
                (#[trigger] by_range(functions)[i]).range,
                (#[trigger] by_range(functions)[j]).range,
            ),
        by_range(functions).to_multiset() == functions.to_multiset(),
{
    let le = range_ranking(functions);
    let n = functions.len();
    assert(sort::total_preorder(le, n));
    sort::lemma_order_exists(le, n);
    let order = sort::order_of(le, n);
    assert forall|i: int, j: int| 0 <= i <= j < n implies range_at_most(
        (#[trigger] by_range(functions)[i]).range,
        (#[trigger] by_range(functions)[j]).range,
    ) by {
        if i < j {
            assert(sort::before(le, order[i], order[j]));
        }
    }
    sort::lemma_arranged(functions, order, le);
    assert(by_range(functions) =~= sort::rearranged(functions, order));
}

/// One independently readable shard of a segmented GSYM image.
///
/// Each segment is a complete GSYM file on its own, holding a contiguous span of
/// the source file's functions and only the source files that those functions
/// reference. The address fields let a consumer pick the right shard for an
/// address without opening it.
#[derive(Debug, PartialEq, Eq)]
pub struct GsymSegment {
    /// Lowest function start address in this segment.
    pub first_address: u64,
    /// Exclusive maximum function end address in this segment.
    pub end_address: u64,
    /// Number of top-level functions in this segment.
    pub function_count: usize,
    /// Complete independently readable GSYM image.
    pub bytes: Vec<u8>,
}

/// What a segment says.
pub struct SegmentView {
    /// Lowest function start address.
    pub first_address: u64,
    /// Maximum function end address.
    pub end_address: u64,
    /// Number of functions.
    pub function_count: usize,
    /// The file.
    pub bytes: Seq<u8>,
}

impl View for GsymSegment {
    type V = SegmentView;

    open spec fn view(&self) -> SegmentView {
        SegmentView {
            first_address: self.first_address,
            end_address: self.end_address,
            function_count: self.function_count,
            bytes: self.bytes@,
        }
    }
}

/// What the segments of a list say.
pub open spec fn segment_views(segments: Seq<GsymSegment>) -> Seq<SegmentView> {
    Seq::new(segments.len(), |i: int| segments[i]@)
}

/// What a file is cut by: its functions in order, the size to come near to,
/// and the output choices.
pub struct Cut {
    /// The decoded file.
    pub source: DecodedView,
    /// The functions in order.
    pub functions: Seq<FunctionView>,
    /// The size that no shard of more than one function exceeds.
    pub target_size: usize,
    /// The output choices.
    pub options: TranscodeOptions,
}

/// The bytes of a shard with the functions from `start` to `end`.
pub open spec fn shard(cut: Cut, start: int, end: int) -> Result<Seq<u8>, Error> {
    encoded_with(cut.source, cut.functions.subrange(start, end), cut.options)
}

/// Where the shard that starts at `start` ends, by bisection between `low` and
/// `high`, where `best` is the best end that was found.
pub open spec fn shard_end(cut: Cut, start: int, low: int, high: int, best: int) -> Result<int, Error>
    decreases high - low + 1,
{
    if low > high {
        Ok(best)
    } else {
        let middle = low + (high - low) / 2;
        match shard(cut, start, middle) {
            Err(error) => Err(error),
            Ok(bytes) => if bytes.len() <= cut.target_size || middle == start + 1 {
                shard_end(cut, start, middle + 1, high, middle)
            } else {
                shard_end(cut, start, low, middle - 1, best)
            },
        }
    }
}

/// The highest end of the functions from `start` to `end`, or `highest` where
/// none is higher.
pub open spec fn highest_end(
    functions: Seq<FunctionView>,
    start: int,
    end: int,
    highest: u64,
) -> u64
    decreases end - start,
{
    if start >= end {
        highest
    } else {
        highest_end(
            functions,
            start + 1,
            end,
            if functions[start].range.end > highest {
                functions[start].range.end
            } else {
                highest
            },
        )
    }
}

/// The shard with the functions from `start` to `end`.
pub open spec fn segment_of(cut: Cut, start: int, end: int) -> SegmentView {
    SegmentView {
        first_address: cut.functions[start].range.start,
        end_address: highest_end(cut.functions, start, end, cut.functions[start].range.end),
        function_count: (end - start) as usize,
        bytes: shard(cut, start, end)->Ok_0,
    }
}

/// The shards of the functions from `start` on, behind the shards `done`.
pub open spec fn segments_from(cut: Cut, start: int, done: Seq<SegmentView>) -> Result<
    Seq<SegmentView>,
    Error,
>
    decreases cut.functions.len() - start,
{
    if start >= cut.functions.len() {
        Ok(done)
    } else {
        match shard(cut, start, start + 1) {
            Err(error) => Err(error),
            Ok(_) => match shard_end(
                cut,
                start,
                start + 1,
                cut.functions.len() as int,
                start + 1,
            ) {
                Err(error) => Err(error),
                Ok(end) => if start < end <= cut.functions.len() {
                    segments_from(cut, end, done.push(segment_of(cut, start, end)))
                } else {
                    Ok(done)
                },
            },
        }
    }
}

/// The shards of a decoded file.
pub open spec fn segments_of(source: DecodedView, target_size: usize, options: TranscodeOptions) -> Result<
    Seq<SegmentView>,
    Error,
> {
    if target_size == 0 {
        Err(Error::InvalidModel("segment target size must not be zero"))
    } else if source.functions.len() == 0 {
        Err(Error::InvalidModel("at least one function is required"))
    } else {
        segments_from(
            Cut { source, functions: by_range(source.functions), target_size, options },
            0,
            Seq::empty(),
        )
    }
}

proof fn lemma_shard_end(cut: Cut, start: int, low: int, high: int, best: int)
    requires
        0 <= start < low,
        start < best <= cut.functions.len(),
        high <= cut.functions.len(),
        shard(cut, start, best) is Ok,
        best == start + 1 || shard(cut, start, best)->Ok_0.len() <= cut.target_size,
    ensures
        shard_end(cut, start, low, high, best) matches Ok(end) ==> {
            &&& start < end <= cut.functions.len()
            &&& shard(cut, start, end) is Ok
            &&& end == start + 1 || shard(cut, start, end)->Ok_0.len() <= cut.target_size
        },
    decreases high - low + 1,
{
    if low <= high {
        let middle = low + (high - low) / 2;
        if let Ok(bytes) = shard(cut, start, middle) {
            if bytes.len() <= cut.target_size || middle == start + 1 {
                lemma_shard_end(cut, start, middle + 1, high, middle);
            } else {
                lemma_shard_end(cut, start, low, middle - 1, best);
            }
        }
    }
}

/// Whether a shard holds the functions between two boundaries.
pub open spec fn covers_at(cut: Cut, segments: Seq<SegmentView>, bounds: Seq<int>, i: int) -> bool {
    &&& bounds[i] < bounds[i + 1] <= cut.functions.len()
    &&& shard(cut, bounds[i], bounds[i + 1]) is Ok
    &&& segments[i] == segment_of(cut, bounds[i], bounds[i + 1])
    &&& bounds[i + 1] == bounds[i] + 1 || segments[i].bytes.len() <= cut.target_size
    &&& is_filled(cut, bounds[i], bounds[i + 1])
}

/// Whether a shard with the functions from `start` to `end` could hold no further
/// one: there is none, or with it the shard would be larger than asked for.
pub open spec fn is_filled(cut: Cut, start: int, end: int) -> bool {
    end == cut.functions.len() || (shard(cut, start, end + 1) matches Ok(bytes) && bytes.len()
        > cut.target_size)
}

proof fn lemma_shard_filled(cut: Cut, start: int, low: int, high: int, best: int)
    requires
        0 <= start < low <= high + 1,
        start < high <= cut.functions.len(),
        best == low - 1 || (best == low && low == start + 1),
        is_filled(cut, start, high),
    ensures
        shard_end(cut, start, low, high, best) matches Ok(end) ==> is_filled(cut, start, end),
    decreases high - low + 1,
{
    if low <= high {
        let middle = low + (high - low) / 2;
        if let Ok(bytes) = shard(cut, start, middle) {
            if bytes.len() <= cut.target_size || middle == start + 1 {
                lemma_shard_filled(cut, start, middle + 1, high, middle);
            } else {
                lemma_shard_filled(cut, start, low, middle - 1, best);
            }
        }
    }
}

/// Whether shards hold the functions before `end`, one after the other: the
/// boundaries between them are `bounds`.
pub open spec fn covers(cut: Cut, segments: Seq<SegmentView>, bounds: Seq<int>, end: int) -> bool {
    &&& bounds.len() == segments.len() + 1
    &&& bounds[0] == 0
    &&& bounds.last() == end
    &&& forall|i: int| 0 <= i < segments.len() ==> #[trigger] covers_at(cut, segments, bounds, i)
}

proof fn lemma_segments(cut: Cut, start: int, done: Seq<SegmentView>, bounds: Seq<int>) -> (all: Seq<
    int,
>)
    requires
        0 <= start <= cut.functions.len(),
        covers(cut, done, bounds, start),
    ensures
        segments_from(cut, start, done) matches Ok(segments) ==> covers(
            cut,
            segments,
            all,
            cut.functions.len() as int,
        ),
    decreases cut.functions.len() - start,
{
    if start < cut.functions.len() {
        if let Ok(_) = shard(cut, start, start + 1) {
            let high = cut.functions.len() as int;
            lemma_shard_end(cut, start, start + 1, high, start + 1);
            lemma_shard_filled(cut, start, start + 1, high, start + 1);
            if let Ok(end) = shard_end(cut, start, start + 1, high, start + 1) {
                let grown = done.push(segment_of(cut, start, end));
                let longer = bounds.push(end);
                assert forall|i: int| 0 <= i < grown.len() implies #[trigger] covers_at(
                    cut,
                    grown,
                    longer,
                    i,
                ) by {
                    if i < done.len() {
                        assert(covers_at(cut, done, bounds, i));
                    }
                }
                return lemma_segments(cut, end, grown, longer);
            }
        }
    }
    bounds
}

/// The shards of a file hold all its functions, each function in one shard and
/// the functions in order of their ranges. Each shard is the encoding of its
/// functions. One of more than one function is no larger than asked for, and with
/// one function more each but the last would be.
pub proof fn law_segments_cover_the_file(
    source: DecodedView,
    target_size: usize,
    options: TranscodeOptions,
)
    ensures
        segments_of(source, target_size, options) matches Ok(segments) ==> ({
            let cut = Cut { source, functions: by_range(source.functions), target_size, options };
            &&& cut.functions.to_multiset() == source.functions.to_multiset()
            &&& forall|i: int, j: int|
                0 <= i <= j < cut.functions.len() ==> range_at_most(
                    (#[trigger] cut.functions[i]).range,
                    (#[trigger] cut.functions[j]).range,
                )
            &&& exists|bounds: Seq<int>|
                covers(cut, segments, bounds, source.functions.len() as int)
        }),
{
    if target_size != 0 && source.functions.len() != 0 {
        let cut = Cut { source, functions: by_range(source.functions), target_size, options };
        lemma_by_range(source.functions);
        let all = lemma_segments(cut, 0, Seq::empty(), seq![0int]);
        if let Ok(segments) = segments_of(source, target_size, options) {
            assert(covers(cut, segments, all, source.functions.len() as int));
        }
    }
}

impl DecodedGsym {
    fn encode_window(
        &self,
        order: &Vec<usize>,
        start: usize,
        end: usize,
        target_size: usize,
        options: TranscodeOptions,
    ) -> (result: Result<Vec<u8>, Error>)
        requires
            start <= end <= order@.len(),
            forall|i: int| 0 <= i < order@.len() ==> order@[i] < self.functions@.len(),
        ensures
            match shard(
                (Cut {
                    source: self@,
                    functions: selected(self@.functions, sort::indices(order@)),
                    target_size,
                    options,
                }),
                start as int,
                end as int,
            ) {
                Ok(bytes) => result matches Ok(found) && found@ == bytes,
                Err(error) => result == Err::<Vec<u8>, Error>(error),
            },
    {
        proof {
            reveal(encoded_with);
            assert(selected(
                self@.functions,
                sort::indices(order@).subrange(start as int, end as int),
            ) =~= selected(self@.functions, sort::indices(order@)).subrange(
                start as int,
                end as int,
            ));
        }
        let builder = self.builder_for_functions(order, start, end, options)?;
        builder.to_copy()
    }

    fn window_end(&self, order: &Vec<usize>, start: usize, end: usize) -> (highest: u64)
        requires
            start < end <= order@.len(),
            forall|i: int| 0 <= i < order@.len() ==> order@[i] < self.functions@.len(),
        ensures
            ({
                let functions = selected(self@.functions, sort::indices(order@));
                highest == highest_end(
                    functions,
                    start as int,
                    end as int,
                    functions[start as int].range.end,
                )
            }),
    {
        let ghost functions = selected(self@.functions, sort::indices(order@));
        proof {
            model::lemma_function_view(self.functions@[order@[start as int] as int]);
        }
        let mut highest: u64 = self.functions[order[start]].range.end;
        let ghost first = highest;
        let mut i: usize = start;
        while i < end
            invariant
                start <= i <= end <= order@.len(),
                forall|i: int| 0 <= i < order@.len() ==> order@[i] < self.functions@.len(),
                functions == selected(self@.functions, sort::indices(order@)),
                highest_end(functions, start as int, end as int, first) == highest_end(
                    functions,
                    i as int,
                    end as int,
                    highest,
                ),
            decreases end - i,
        {
            proof {
                model::lemma_function_view(self.functions@[order@[i as int] as int]);
                assert(functions[i as int] == self.functions@[order@[i as int] as int]@);
            }
            let candidate: u64 = self.functions[order[i]].range.end;
            if candidate > highest {
                highest = candidate;
            }
            i = i + 1;
        }
        highest
    }

    /// Finds where the shard that starts at `start` ends, and encodes it.
    fn choose_shard(
        &self,
        order: &Vec<usize>,
        start: usize,
        target_size: usize,
        options: TranscodeOptions,
    ) -> (result: Result<(usize, Vec<u8>), Error>)
        requires
            start < order@.len(),
            forall|i: int| 0 <= i < order@.len() ==> order@[i] < self.functions@.len(),
        ensures
            ({
                let cut = Cut {
                    source: self@,
                    functions: selected(self@.functions, sort::indices(order@)),
                    target_size,
                    options,
                };
                match shard(cut, start as int, start + 1) {
                    Err(error) => result == Err::<(usize, Vec<u8>), Error>(error),
                    Ok(_) => match shard_end(
                        cut,
                        start as int,
                        start + 1,
                        order@.len() as int,
                        start + 1,
                    ) {
                        Err(error) => result == Err::<(usize, Vec<u8>), Error>(error),
                        Ok(end) => {
                            &&& result matches Ok((best, bytes))
                            &&& best == end
                            &&& start < best <= order@.len()
                            &&& shard(cut, start as int, end) == Ok::<Seq<u8>, Error>(bytes@)
                        },
                    },
                }
            }),
    {
        let ghost cut = Cut {
            source: self@,
            functions: selected(self@.functions, sort::indices(order@)),
            target_size,
            options,
        };
        let count: usize = order.len();
        let minimum: usize = start + 1;
        let mut low: usize = minimum;
        let mut high: usize = count;
        let mut best: usize = minimum;
        let mut best_bytes = self.encode_window(order, start, best, target_size, options)?;
        let ghost expected = shard_end(
            cut,
            start as int,
            start + 1,
            count as int,
            start + 1,
        );
        while low <= high
            invariant
                start < count,
                count == order@.len(),
                minimum == start + 1,
                minimum <= low,
                high <= count,
                start < best <= count,
                forall|i: int| 0 <= i < order@.len() ==> order@[i] < self.functions@.len(),
                cut == (Cut {
                    source: self@,
                    functions: selected(self@.functions, sort::indices(order@)),
                    target_size,
                    options,
                }),
                shard(cut, start as int, start + 1) is Ok,
                expected == shard_end(
                    cut,
                    start as int,
                    start + 1,
                    count as int,
                    start + 1,
                ),
                expected == shard_end(
                    cut,
                    start as int,
                    low as int,
                    high as int,
                    best as int,
                ),
                shard(cut, start as int, best as int) == Ok::<Seq<u8>, Error>(best_bytes@),
                low <= count + 1,
            decreases high + 1 - low,
        {
            let middle: usize = low + (high - low) / 2;
            let bytes = self.encode_window(order, start, middle, target_size, options)?;
            if bytes.len() <= target_size || middle == minimum {
                best = middle;
                best_bytes = bytes;
                if middle == high {
                    assert(shard_end(
                        cut,
                        start as int,
                        middle + 1,
                        high as int,
                        middle as int,
                    ) == Ok::<int, Error>(middle as int));
                    return Ok((best, best_bytes));
                }
                low = middle + 1;
            } else {
                high = middle - 1;
            }
        }
        Ok((best, best_bytes))
    }

    /// Splits the model into independently valid GSYM files near `target_size`.
    ///
    /// A single record larger than the target is emitted alone. Each shard
    /// contains only source files referenced by its functions. Boundaries are
    /// selected from exact encoded sizes, so all shards of more than one
    /// function are at most the requested target.
    pub fn segments(&self, target_size: usize, options: TranscodeOptions) -> (result: Result<
        Vec<GsymSegment>,
        Error,
    >)
        ensures
            match segments_of(self@, target_size, options) {
                Ok(views) => result matches Ok(segments) && segment_views(segments@) == views,
                Err(error) => result == Err::<Vec<GsymSegment>, Error>(error),
            },
    {
        if target_size == 0 {
            return Err(Error::InvalidModel("segment target size must not be zero"));
        }
        let count: usize = self.functions.len();
        if count == 0 {
            return Err(Error::InvalidModel("at least one function is required"));
        }
        let ranked = ByRange { functions: &self.functions };
        let order = sorted_order(&ranked, count);
        let ghost functions = selected(self@.functions, sort::indices(order@));
        let ghost cut = Cut { source: self@, functions, target_size, options };
        proof {
            assert(sort::indices(order@).len() == count);
            assert forall|i: int| 0 <= i < order@.len() implies order@[i] < self.functions@.len() by {
                assert(sort::indices(order@)[i] < count);
            }
            assert(functions == by_range(self@.functions));
        }
        let mut segments: Vec<GsymSegment> = Vec::new();
        assert(segment_views(segments@) =~= Seq::<SegmentView>::empty());
        let mut start: usize = 0;
        while start < count
            invariant
                start <= count,
                count == order@.len(),
                functions.len() == count,
                functions == selected(self@.functions, sort::indices(order@)),
                forall|i: int| 0 <= i < order@.len() ==> order@[i] < self.functions@.len(),
                cut == (Cut { source: self@, functions, target_size, options }),
                segments_of(self@, target_size, options) == segments_from(
                    cut,
                    start as int,
                    segment_views(segments@),
                ),
            decreases count - start,
        {
            let (best, bytes) = self.choose_shard(&order, start, target_size, options)?;
            proof {
                model::lemma_function_view(self.functions@[order@[start as int] as int]);
                assert(functions[start as int] == self.functions@[order@[start as int] as int]@);
            }
            let segment = GsymSegment {
                first_address: self.functions[order[start]].range.start,
                end_address: self.window_end(&order, start, best),
                function_count: best - start,
                bytes,
            };
            let ghost before = segment_views(segments@);
            let ghost view = segment@;
            segments.push(segment);
            proof {
                assert(segment_views(segments@) =~= before.push(view));
                assert(view == segment_of(cut, start as int, best as int));
            }
            start = best;
        }
        Ok(segments)
    }
}

} // verus!
