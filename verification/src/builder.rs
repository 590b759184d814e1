//! Construction of GSYM files.
use vstd::prelude::*;
use crate::endian::Endian;
use crate::error::Error;
use crate::hash_index;
use crate::hash_index::{hash_bytes, mix, NumberIndex};
use crate::model;
use crate::model::{copy_ranges, AddressRange, FileEntry, FileIndex, FileView, Function, FunctionView};
use crate::validation;
use crate::validation::validate_for_builder;
use crate::version::GsymVersion;
use crate::writer::encode::{EncodedImage, ImageView};
use crate::writer::finalize::FunctionSetPolicy;
use crate::writer::image;
use crate::writer::image::{encode_image, encode_verbatim};
use crate::writer::options;
use crate::writer::options::{WriterOptions, WriterView};

verus! {

/// Finalization policy used by a builder.
///
/// `Default` enables `repair_zero_sized_functions` and disables
/// `merge_equal_address_functions`.
#[derive(Debug, PartialEq, Eq)]
pub struct BuilderOptions {
    /// Wire-format settings used by the writer.
    pub writer: WriterOptions,
    /// Executable virtual-address ranges, used to reject stale debug data and to
    /// repair zero-sized symbol-table functions.
    pub executable_ranges: Vec<AddressRange>,
    /// Extend the final zero-sized function to its containing executable range.
    pub repair_zero_sized_functions: bool,
    /// Preserve equal-range aliases as merged records.
    pub merge_equal_address_functions: bool,
}

/// What the settings of a builder say.
pub struct OptionsView {
    /// Settings of the writer.
    pub writer: WriterView,
    /// Executable address ranges.
    pub executable_ranges: Seq<AddressRange>,
    /// Whether the final zero-sized function is extended.
    pub repair_zero_sized_functions: bool,
    /// Whether equal-range aliases are preserved.
    pub merge_equal_address_functions: bool,
}

impl View for BuilderOptions {
    type V = OptionsView;

    open spec fn view(&self) -> OptionsView {
        OptionsView {
            writer: self.writer@,
            executable_ranges: self.executable_ranges@,
            repair_zero_sized_functions: self.repair_zero_sized_functions,
            merge_equal_address_functions: self.merge_equal_address_functions,
        }
    }
}

/// The settings that are used where none are given.
pub open spec fn default_options() -> OptionsView {
    OptionsView {
        writer: options::default_writer(),
        executable_ranges: Seq::empty(),
        repair_zero_sized_functions: true,
        merge_equal_address_functions: false,
    }
}

impl Default for BuilderOptions {
    fn default() -> (options: Self)
        ensures
            options@ == default_options(),
    {
        BuilderOptions {
            writer: WriterOptions::default(),
            executable_ranges: Vec::new(),
            repair_zero_sized_functions: true,
            merge_equal_address_functions: false,
        }
    }
}

impl Clone for BuilderOptions {
    fn clone(&self) -> (copy: Self)
        ensures
            copy@ == self@,
    {
        BuilderOptions {
            writer: self.writer.clone(),
            executable_ranges: copy_ranges(&self.executable_ranges),
            repair_zero_sized_functions: self.repair_zero_sized_functions,
            merge_equal_address_functions: self.merge_equal_address_functions,
        }
    }
}

/// What a builder holds.
pub struct BuilderView {
    /// Settings.
    pub options: OptionsView,
    /// How functions that share a range are finalized.
    pub policy: FunctionSetPolicy,
    /// Files, with the reserved one in front.
    pub files: Seq<FileView>,
    /// Functions in the order in which they were added.
    pub functions: Seq<FunctionView>,
}

/// The policy that the settings ask for.
pub open spec fn policy_of(merge: bool) -> FunctionSetPolicy {
    if merge {
        FunctionSetPolicy::MergeEqualRanges
    } else {
        FunctionSetPolicy::Deduplicate
    }
}

/// Whether files can come from adding them to an empty builder: the first is
/// the reserved one, none occurs twice, and each has an index.
pub open spec fn is_file_table(files: Seq<FileView>) -> bool {
    &&& 1 <= files.len() <= u32::MAX + 1
    &&& files[0] == model::empty_file()
    &&& files.no_duplicates()
}

/// The error of adding a file, if it cannot be added.
pub open spec fn add_file_error(files: Seq<FileView>, file: FileView) -> Option<Error> {
    if !files.contains(file) && files.len() > u32::MAX {
        Some(
            Error::Limit {
                context: "file table",
                value: files.len() as u64,
                limit: u32::MAX as u64,
            },
        )
    } else {
        None
    }
}

/// The files with `file` among them.
pub open spec fn files_with(files: Seq<FileView>, file: FileView) -> Seq<FileView> {
    if files.contains(file) {
        files
    } else {
        files.push(file)
    }
}

/// The index of a file among files with it.
pub open spec fn file_index_of(files: Seq<FileView>, file: FileView) -> FileIndex {
    FileIndex(files_with(files, file).index_of(file) as u32)
}

/// Adding a file a second time adds nothing and gives the same index. A file
/// stands at the index that it was given, and files that are added later leave
/// it there. The reserved entry is the empty file.
pub proof fn law_files_are_interned(files: Seq<FileView>, file: FileView, later: FileView)
    requires
        is_file_table(files),
        add_file_error(files, file) is None,
    ensures
        is_file_table(files_with(files, file)),
        files_with(files_with(files, file), file) == files_with(files, file),
        file_index_of(files_with(files, file), file) == file_index_of(files, file),
        ({
            let grown = files_with(files, file);
            let index = file_index_of(files, file).0 as int;
            &&& index < grown.len()
            &&& grown[index] == file
            &&& files_with(grown, later)[index] == file
        }),
        file_index_of(files, model::empty_file()) == FileIndex(0),
{
    lemma_files_with(files, file);
    assert(files[0] == model::empty_file());
    assert(files.contains(model::empty_file()));
    assert(files.index_of(model::empty_file()) == 0);
}

proof fn lemma_files_with(files: Seq<FileView>, file: FileView)
    requires
        is_file_table(files),
        add_file_error(files, file) is None,
    ensures
        is_file_table(files_with(files, file)),
        files_with(files, file).contains(file),
        0 <= files_with(files, file).index_of(file) < files_with(files, file).len(),
        files_with(files, file)[files_with(files, file).index_of(file)] == file,
{
    let grown = files_with(files, file);
    if !files.contains(file) {
        assert(grown[files.len() as int] == file);
        assert forall|i: int, j: int| 0 <= i < grown.len() && 0 <= j < grown.len() && i != j implies
            grown[i] != grown[j] by {
            if i == files.len() {
                assert(grown[j] == files[j]);
                assert(files.contains(files[j]));
            } else if j == files.len() {
                assert(grown[i] == files[i]);
                assert(files.contains(files[i]));
            }
        }
    }
    assert(grown.contains(file));
}

/// The hash of a file entry.
pub open spec fn file_hash(file: FileView) -> u64 {
    hash_index::mixed(hash_index::hash_of(file.directory), hash_index::hash_of(file.basename))
}

fn hash_file(file: &FileEntry) -> (hash: u64)
    ensures
        hash == file_hash(file@),
{
    mix(hash_bytes(file.directory.as_slice()), hash_bytes(file.basename.as_slice()))
}

/// Version-independent, deterministic GSYM construction API.
///
/// Add file entries and functions, then encode with `to_bytes`. The same inputs
/// and options always produce the same bytes.
///
/// `add_file` interns entries: adding the same directory and basename twice
/// returns the same index, and index zero is permanently the empty entry.
/// `add_function` validates as it goes. Checks that need the whole model, such
/// as file references, run when the builder is encoded.
pub struct GsymBuilder {
    options: BuilderOptions,
    function_set: FunctionSetPolicy,
    files: Vec<FileEntry>,
    file_index: NumberIndex,
    functions: Vec<Function>,
}

impl View for GsymBuilder {
    type V = BuilderView;

    closed spec fn view(&self) -> BuilderView {
        BuilderView {
            options: self.options@,
            policy: self.function_set,
            files: model::file_views(self.files@),
            functions: model::function_views(self.functions@),
        }
    }
}

/// A builder without files and functions.
pub open spec fn empty_builder() -> BuilderView {
    BuilderView {
        options: default_options(),
        policy: FunctionSetPolicy::Deduplicate,
        files: seq![model::empty_file()],
        functions: Seq::empty(),
    }
}

/// The bytes of the file that a builder describes.
pub open spec fn built(builder: BuilderView) -> Result<ImageView, Error> {
    image::image_of(builder.options, builder.policy, builder.files, builder.functions)
}

/// The bytes of the file with the files and functions of a builder as they stand,
/// the functions in order of their starts.
pub open spec fn copied(builder: BuilderView) -> Result<ImageView, Error> {
    image::verbatim_of(builder.options, builder.files, builder.functions)
}

impl Default for GsymBuilder {
    fn default() -> (builder: Self)
        ensures
            builder.wf(),
            builder@ == empty_builder(),
    {
        GsymBuilder::new()
    }
}

impl GsymBuilder {
    /// The files are interned, and the index finds them.
    pub closed spec fn wf(&self) -> bool {
        let files = model::file_views(self.files@);
        &&& is_file_table(files)
        &&& self.file_index.wf()
        &&& self.file_index.spec_hashes().len() == files.len()
        &&& forall|i: int|
            0 <= i < files.len() ==> #[trigger] self.file_index.spec_hashes()[i] == file_hash(
                files[i],
            )
    }

    /// No file occurs twice among the files of a builder, and the first is the
    /// empty one.
    pub proof fn law_files_form_a_table(&self)
        requires
            self.wf(),
        ensures
            is_file_table(self@.files),
    {
    }

    /// Creates an empty builder using default options.
    pub fn new() -> (builder: Self)
        ensures
            builder.wf(),
            builder@ == empty_builder(),
    {
        let mut files: Vec<FileEntry> = Vec::new();
        let empty = FileEntry::default();
        let mut file_index = NumberIndex::new();
        file_index.push(hash_file(&empty));
        files.push(empty);
        let functions: Vec<Function> = Vec::new();
        proof {
            assert(model::file_views(files@) =~= seq![model::empty_file()]);
            assert(model::function_views(functions@) =~= Seq::<FunctionView>::empty());
        }
        GsymBuilder {
            options: BuilderOptions::default(),
            function_set: FunctionSetPolicy::Deduplicate,
            files,
            file_index,
            functions,
        }
    }

    /// Creates an empty builder using `options`.
    pub fn with_options(options: BuilderOptions) -> (builder: Self)
        ensures
            builder.wf(),
            builder@ == (BuilderView {
                options: options@,
                policy: policy_of(options@.merge_equal_address_functions),
                ..empty_builder()
            }),
    {
        let mut builder = GsymBuilder::new();
        builder.function_set = if options.merge_equal_address_functions {
            FunctionSetPolicy::MergeEqualRanges
        } else {
            FunctionSetPolicy::Deduplicate
        };
        builder.options = options;
        builder
    }

    /// Returns the active builder options.
    pub fn options(&self) -> (options: &BuilderOptions)
        ensures
            options@ == self@.options,
    {
        &self.options
    }

    /// Selects the output GSYM version.
    pub fn version(self, version: GsymVersion) -> (builder: Self)
        requires
            self.wf(),
        ensures
            builder.wf(),
            builder@ == (BuilderView {
                options: OptionsView {
                    writer: WriterView { version, ..self@.options.writer },
                    ..self@.options
                },
                ..self@
            }),
    {
        let mut builder = self;
        builder.options.writer.version = version;
        builder
    }

    /// Selects the output byte order.
    pub fn endian(self, endian: Endian) -> (builder: Self)
        requires
            self.wf(),
        ensures
            builder.wf(),
            builder@ == (BuilderView {
                options: OptionsView {
                    writer: WriterView { endian, ..self@.options.writer },
                    ..self@.options
                },
                ..self@
            }),
    {
        let mut builder = self;
        builder.options.writer.endian = endian;
        builder
    }

    /// Sets the image base address.
    pub fn base_address(self, address: u64) -> (builder: Self)
        requires
            self.wf(),
        ensures
            builder.wf(),
            builder@ == (BuilderView {
                options: OptionsView {
                    writer: WriterView { base_address: Some(address), ..self@.options.writer },
                    ..self@.options
                },
                ..self@
            }),
    {
        let mut builder = self;
        builder.options.writer.base_address = Some(address);
        builder
    }

    /// Sets the opaque build identifier stored in the header.
    pub fn build_id(self, build_id: Vec<u8>) -> (builder: Self)
        requires
            self.wf(),
        ensures
            builder.wf(),
            builder@ == (BuilderView {
                options: OptionsView {
                    writer: WriterView { build_id: build_id@, ..self@.options.writer },
                    ..self@.options
                },
                ..self@
            }),
    {
        let mut builder = self;
        builder.options.writer.build_id = build_id;
        builder
    }

    /// Enables or disables final zero-sized-function repair.
    pub fn repair_zero_sized_functions(self, enabled: bool) -> (builder: Self)
        requires
            self.wf(),
        ensures
            builder.wf(),
            builder@ == (BuilderView {
                options: OptionsView { repair_zero_sized_functions: enabled, ..self@.options },
                ..self@
            }),
    {
        let mut builder = self;
        builder.options.repair_zero_sized_functions = enabled;
        builder
    }

    /// Selects how functions sharing an address range are finalized.
    pub fn function_set(self, policy: FunctionSetPolicy) -> (builder: Self)
        requires
            self.wf(),
        ensures
            builder.wf(),
            builder@ == (BuilderView {
                options: OptionsView {
                    merge_equal_address_functions: policy == FunctionSetPolicy::MergeEqualRanges,
                    ..self@.options
                },
                policy,
                ..self@
            }),
    {
        let mut builder = self;
        builder.options.merge_equal_address_functions = match policy {
            FunctionSetPolicy::MergeEqualRanges => true,
            _ => false,
        };
        builder.function_set = policy;
        builder
    }

    /// Enables or disables merged records for equal-address functions.
    pub fn merge_equal_address_functions(self, enabled: bool) -> (builder: Self)
        requires
            self.wf(),
        ensures
            builder.wf(),
            builder@ == (BuilderView {
                options: OptionsView { merge_equal_address_functions: enabled, ..self@.options },
                policy: policy_of(enabled),
                ..self@
            }),
    {
        let mut builder = self;
        builder.options.merge_equal_address_functions = enabled;
        builder.function_set = if enabled {
            FunctionSetPolicy::MergeEqualRanges
        } else {
            FunctionSetPolicy::Deduplicate
        };
        builder
    }

    /// Returns how equal-range functions will be finalized.
    pub fn function_set_policy(&self) -> (policy: FunctionSetPolicy)
        ensures
            policy == self@.policy,
    {
        self.function_set
    }

    /// Replaces the executable ranges used for liveness and size repair.
    pub fn executable_ranges(self, ranges: Vec<AddressRange>) -> (builder: Self)
        requires
            self.wf(),
        ensures
            builder.wf(),
            builder@ == (BuilderView {
                options: OptionsView { executable_ranges: ranges@, ..self@.options },
                ..self@
            }),
    {
        let mut builder = self;
        builder.options.executable_ranges = ranges;
        builder
    }

    /// Interns a source file and returns its index. Index zero is permanently
    /// reserved for the empty file.
    ///
    /// Repeated calls with an equal entry return the same index without adding
    /// a row.
    pub fn add_file(&mut self, file: FileEntry) -> (result: Result<FileIndex, Error>)
        requires
            old(self).wf(),
        ensures
            final(self).wf(),
            match add_file_error(old(self)@.files, file@) {
                Some(error) => result == Err::<FileIndex, Error>(error) && final(self)@ == old(
                    self,
                )@,
                None => {
                    &&& result == Ok::<FileIndex, Error>(file_index_of(old(self)@.files, file@))
                    &&& final(self)@ == (BuilderView {
                        files: files_with(old(self)@.files, file@),
                        ..old(self)@
                    })
                },
            },
    {
        let hash: u64 = hash_file(&file);
        let count: usize = self.files.len();
        let ghost views = model::file_views(self.files@);
        let files: &Vec<FileEntry> = &self.files;
        let entry: &FileEntry = &file;
        let matches = |id: usize| -> (same: bool)
            requires
                id < files@.len(),
            ensures
                same == (files@[id as int]@ == entry@),
            { files[id].same(entry) };
        let found: Option<usize> = self.file_index.find(hash, count, &matches);
        if let Some(id) = found {
            proof {
                assert(views[id as int] == file@);
                assert(views.contains(file@));
                assert(views.index_of(file@) == id);
            }
            return Ok(FileIndex::new(id as u32));
        }
        proof {
            if views.contains(file@) {
                let i = views.index_of(file@);
                assert(views[i] == file@);
                assert(self.file_index.spec_hashes()[i] == file_hash(views[i]));
                assert(self.file_index.spec_hashes()[(i as usize) as int] == hash);
                assert(false);
            }
        }
        if count as u64 > u32::MAX as u64 {
            return Err(
                Error::Limit {
                    context: "file table",
                    value: count as u64,
                    limit: u32::MAX as u64,
                },
            );
        }
        let ghost view = file@;
        self.files.push(file);
        let _count: usize = self.files.len();
        self.file_index.push(hash);
        proof {
            let grown = views.push(view);
            assert(model::file_views(self.files@) =~= grown);
            lemma_files_with(views, view);
            assert(grown[count as int] == view);
            assert(grown.index_of(view) == count);
            assert forall|i: int| 0 <= i < grown.len() implies #[trigger] self.file_index.spec_hashes()[i]
                == file_hash(grown[i]) by {
                if i < count {
                    assert(old(self).file_index.spec_hashes()[i] == file_hash(views[i]));
                }
            }
        }
        Ok(FileIndex::new(count as u32))
    }

    /// Adds a validated function record.
    ///
    /// Insertion order does not matter. Line rows must already be sorted within
    /// the function, and inline ranges must nest inside their parent.
    pub fn add_function(&mut self, function: Function) -> (result: Result<(), Error>)
        requires
            old(self).wf(),
        ensures
            final(self).wf(),
            match validation::function_error(function@, None, None, 0) {
                Some(error) => result == Err::<(), Error>(error) && final(self)@ == old(self)@,
                None => {
                    &&& result == Ok::<(), Error>(())
                    &&& final(self)@ == (BuilderView {
                        functions: old(self)@.functions.push(function@),
                        ..old(self)@
                    })
                },
            },
    {
        validate_for_builder(&function)?;
        let ghost view = function@;
        let ghost before = model::function_views(self.functions@);
        self.functions.push(function);
        assert(model::function_views(self.functions@) =~= before.push(view));
        Ok(())
    }

    /// Returns the interned file table, including reserved index zero.
    pub fn files(&self) -> (files: &Vec<FileEntry>)
        ensures
            model::file_views(files@) == self@.files,
    {
        &self.files
    }

    /// Returns functions in insertion order before writer finalization.
    pub fn functions(&self) -> (functions: &Vec<Function>)
        ensures
            model::function_views(functions@) == self@.functions,
    {
        &self.functions
    }

    /// Encodes this builder into the two parts of a file.
    pub fn to_image(self) -> (result: Result<EncodedImage, Error>)
        ensures
            match built(self@) {
                Ok(view) => result matches Ok(image) && image@ == view,
                Err(error) => result == Err::<EncodedImage, Error>(error),
            },
    {
        encode_image(&self.options, self.function_set, &self.files, self.functions)
    }

    /// Encodes this builder into a byte vector.
    pub fn to_bytes(self) -> (result: Result<Vec<u8>, Error>)
        ensures
            match built(self@) {
                Ok(view) => result matches Ok(bytes) && bytes@ == view.prefix
                    + view.function_info,
                Err(error) => result == Err::<Vec<u8>, Error>(error),
            },
    {
        let image = self.to_image()?;
        Ok(image.into_bytes())
    }

    /// Encodes the files and functions of this builder as they stand.
    pub(crate) fn to_copy(self) -> (result: Result<Vec<u8>, Error>)
        ensures
            match copied(self@) {
                Ok(view) => result matches Ok(bytes) && bytes@ == view.prefix
                    + view.function_info,
                Err(error) => result == Err::<Vec<u8>, Error>(error),
            },
    {
        let image = encode_verbatim(&self.options, &self.files, self.functions)?;
        Ok(image.into_bytes())
    }
}

/// Functions that share a range are merged exactly where the settings ask for it, and
/// otherwise one of them is kept.
pub proof fn law_settings_choose_the_policy(merge: bool)
    ensures
        policy_of(merge) == FunctionSetPolicy::MergeEqualRanges <==> merge,
        policy_of(merge) == FunctionSetPolicy::Deduplicate <==> !merge,
{
}

} // verus!
