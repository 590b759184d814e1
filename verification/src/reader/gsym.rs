//! The reader of a GSYM file.
use vstd::prelude::*;
use crate::endian::Endian;
use crate::error::Error;
use crate::format::function::EncodedFunction;
use crate::model;
use crate::model::{AddressRange, FileIndex, Function, Lookup, LookupFrame};
use crate::reader::layout;
use crate::reader::layout::ParsedLayout;
use crate::reader::lookup;
use crate::reader::lookup::{FrameLookupOptions, LookupOptions};
use crate::reader::owned;
use crate::reader::scratch::LookupScratch;
use crate::reader::table;
use crate::reader::table::{RawFunction, RawView};
use crate::reader::verify;
use crate::reader::verify::VerifyReport;
use crate::version::GsymVersion;

verus! {

/// Something that holds the bytes of a file.
pub trait Storage {
    /// The bytes.
    spec fn contents(&self) -> Seq<u8>;

    /// Borrows the bytes.
    fn bytes(&self) -> (bytes: &[u8])
        ensures
            bytes@ == self.contents(),
    ;
}

impl Storage for Vec<u8> {
    open spec fn contents(&self) -> Seq<u8> {
        self@
    }

    fn bytes(&self) -> (bytes: &[u8]) {
        self.as_slice()
    }
}

impl<'data> Storage for &'data [u8] {
    open spec fn contents(&self) -> Seq<u8> {
        (*self)@
    }

    fn bytes(&self) -> (bytes: &[u8]) {
        *self
    }
}

impl<'data> Storage for &'data Vec<u8> {
    open spec fn contents(&self) -> Seq<u8> {
        (*self)@
    }

    fn bytes(&self) -> (bytes: &[u8]) {
        self.as_slice()
    }
}

/// Properties of a parsed GSYM file, independent of its version.
#[derive(Clone, Copy, Debug, PartialEq, Eq)]
#[non_exhaustive]
pub struct Header<'data> {
    /// Format version.
    pub version: GsymVersion,
    /// Byte order of the input.
    pub endian: Endian,
    /// Width in bytes of each encoded address offset.
    pub address_offset_size: u8,
    /// Base added to each encoded address offset.
    pub base_address: u64,
    /// Number of indexed top-level functions.
    pub address_count: u32,
    /// Build ID or UUID bytes.
    pub build_id: &'data [u8],
}

/// Zero-copy GSYM reader over borrowed, owned or mapped bytes.
///
/// Parsing reads the header and section layout only. Function records are
/// decoded when asked for, so opening a large file is cheap and an untouched
/// record is never read. Use `verify` to check a whole file up front.
pub struct Gsym<D: Storage> {
    pub(crate) data: D,
    pub(crate) layout: ParsedLayout,
}

/// The build identifier of a file.
pub open spec fn build_id_of(s: Seq<u8>, layout: ParsedLayout) -> Seq<u8> {
    s.subrange(layout.build_id.start as int, layout.build_id.end as int)
}

impl<D: Storage> Gsym<D> {
    /// The storage of the file.
    pub closed spec fn storage(&self) -> D {
        self.data
    }

    /// The bytes of the file.
    pub closed spec fn contents(&self) -> Seq<u8> {
        self.data.contents()
    }

    /// Where the tables of the file stand.
    pub closed spec fn tables(&self) -> ParsedLayout {
        self.layout
    }

    #[verifier::type_invariant]
    spec fn tables_in_contents(self) -> bool {
        self.layout.wf(self.data.contents().len())
    }

    /// Parses a GSYM file on a machine with the given byte order.
    pub fn parse_on(data: D, native: Endian) -> (result: Result<Self, Error>)
        ensures
            match layout::parsed(data.contents(), native) {
                Ok(tables) => {
                    &&& result matches Ok(gsym)
                    &&& gsym.storage() == data
                    &&& gsym.contents() == data.contents()
                    &&& gsym.tables() == tables
                },
                Err(error) => result matches Err(found) && found == error,
            },
    {
        let layout = layout::parse_on(data.bytes(), native)?;
        Ok(Gsym { data, layout })
    }

    /// Parses a GSYM file's header and section layout.
    ///
    /// The tables do not depend on the byte order of the machine; of the
    /// errors, only the value of a wrong magic number does.
    pub fn parse(data: D) -> (result: Result<Self, Error>)
        ensures
            match result {
                Ok(gsym) => {
                    &&& gsym.storage() == data
                    &&& gsym.contents() == data.contents()
                    &&& forall|native: Endian| #[trigger]
                        layout::parsed(data.contents(), native) == Ok::<ParsedLayout, Error>(
                            gsym.tables(),
                        )
                },
                Err(error) => exists|native: Endian| #[trigger]
                    layout::parsed(data.contents(), native) == Err::<ParsedLayout, Error>(error),
            },
    {
        let native = Endian::native();
        let ghost contents = data.contents();
        let result = Gsym::parse_on(data, native);
        proof {
            assert forall|other: Endian| layout::parsed(contents, native) is Ok implies
                #[trigger] layout::parsed(contents, other) == layout::parsed(contents, native) by {
                layout::law_tables_are_the_files_own(contents, native, other);
            }
        }
        result
    }

    /// Returns the bytes that were parsed.
    pub fn into_inner(self) -> (data: D)
        ensures
            data == self.storage(),
    {
        self.data
    }

    /// Borrows the bytes that were parsed.
    pub fn as_bytes(&self) -> (bytes: &[u8])
        ensures
            bytes@ == self.contents(),
    {
        self.data.bytes()
    }

    /// Where the tables of the file stand.
    pub fn layout(&self) -> (layout: &ParsedLayout)
        ensures
            *layout == self.tables(),
            layout.wf(self.contents().len()),
    {
        proof {
            use_type_invariant(self);
        }
        &self.layout
    }

    /// Returns the header.
    pub fn header(&self) -> (header: Header<'_>)
        ensures
            header.version == self.tables().version,
            header.endian == self.tables().endian,
            header.address_offset_size == self.tables().address_offset_size,
            header.base_address == self.tables().base_address,
            header.address_count == self.tables().address_count,
            header.build_id@ == build_id_of(self.contents(), self.tables()),
    {
        Header {
            version: self.layout.version,
            endian: self.layout.endian,
            address_offset_size: self.layout.address_offset_size,
            base_address: self.layout.base_address,
            address_count: self.layout.address_count,
            build_id: self.build_id(),
        }
    }

    /// Returns the build ID, or nothing where the file has none.
    pub fn build_id(&self) -> (build_id: &[u8])
        ensures
            build_id@ == build_id_of(self.contents(), self.tables()),
    {
        proof {
            use_type_invariant(self);
        }
        vstd::slice::slice_subrange(
            self.data.bytes(),
            self.layout.build_id.start,
            self.layout.build_id.end,
        )
    }

    /// Walks the indexed functions in address order.
    pub fn functions(&self) -> (functions: Functions<'_, D>)
        ensures
            functions.file() == *self,
            functions.position() == 0,
    {
        Functions { gsym: self, next: 0 }
    }

    /// Returns the function with the given index, or an error behind the last
    /// one.
    pub fn function(&self, index: usize) -> (result: Result<FunctionRef<'_>, Error>)
        ensures
            match verify::found_of(self.contents(), self.tables(), index as int) {
                Ok(Some(found)) => {
                    &&& result matches Ok(function)
                    &&& function.describes(*self, index, found)
                },
                Ok(None) => result matches Err(error) && error == (Error::FunctionIndexOutOfBounds {
                    index,
                    count: self.tables().address_count as usize,
                }),
                Err(error) => result matches Err(found) && found == error,
            },
    {
        match self.get_function(index)? {
            Some(function) => Ok(function),
            None => Err(
                Error::FunctionIndexOutOfBounds {
                    index,
                    count: self.layout.address_count as usize,
                },
            ),
        }
    }

    /// Returns the function with the given index, or nothing behind the last
    /// one.
    pub fn get_function(&self, index: usize) -> (result: Result<Option<FunctionRef<'_>>, Error>)
        ensures
            match verify::found_of(self.contents(), self.tables(), index as int) {
                Ok(Some(found)) => {
                    &&& result matches Ok(Some(function))
                    &&& function.describes(*self, index, found)
                },
                Ok(None) => result matches Ok(None),
                Err(error) => result matches Err(found) && found == error,
            },
    {
        proof {
            use_type_invariant(self);
        }
        match verify::find_at(self.data.bytes(), &self.layout, index)? {
            Some((raw, name)) => Ok(
                Some(
                    FunctionRef {
                        index,
                        name,
                        all_data: self.data.bytes(),
                        raw,
                        layout: &self.layout,
                    },
                ),
            ),
            None => Ok(None),
        }
    }

    /// Returns where the records of the function with the given index start. An
    /// index beyond the table is looked up in what stands behind it.
    pub fn function_offset(&self, index: usize) -> (result: Result<usize, Error>)
        ensures
            result == table::unchecked_offset_of(self.contents(), self.tables(), index as int),
            index < self.tables().address_count ==> result == table::function_offset_of(
                self.contents(),
                self.tables(),
                index as int,
            ),
    {
        proof {
            use_type_invariant(self);
        }
        table::function_offset_at(self.data.bytes(), &self.layout, index)
    }

    /// Reads a string of the string table, without its NUL terminator.
    pub fn string(&self, offset: u64) -> (result: Result<&[u8], Error>)
        ensures
            match table::string_of(self.contents(), self.tables().string_table, offset) {
                Ok(string) => result matches Ok(bytes) && bytes@ == string,
                Err(error) => result matches Err(found) && found == error,
            },
    {
        table::string_at(self.data.bytes(), &self.layout.string_table, offset)
    }

    /// Resolves a file-table index to its directory and basename.
    pub fn file(&self, index: FileIndex) -> (result: Result<(&[u8], &[u8]), Error>)
        ensures
            match table::file_of(self.contents(), self.tables(), index) {
                Ok(file) => result matches Ok((directory, basename)) && directory@
                    == file.directory && basename@ == file.basename,
                Err(error) => result matches Err(found) && found == error,
            },
    {
        proof {
            use_type_invariant(self);
        }
        table::file_at(self.data.bytes(), &self.layout, index)
    }

    /// Decodes and checks every record and every reference of the file.
    pub fn verify(&self) -> (result: Result<VerifyReport, Error>)
        ensures
            result == (match verify::verify_error(self.contents(), self.tables()) {
                Some(error) => Err::<VerifyReport, Error>(error),
                None => Ok(verify::report_of(self.contents(), self.tables())),
            }),
    {
        proof {
            use_type_invariant(self);
        }
        let (report, _functions) = verify::verify_at(self.data.bytes(), &self.layout, false)?;
        Ok(report)
    }

    /// Verifies the file and decodes every function.
    pub fn decode_all_verified(&self) -> (result: Result<(VerifyReport, Vec<Function>), Error>)
        ensures
            match verify::verify_error(self.contents(), self.tables()) {
                Some(error) => result == Err::<(VerifyReport, Vec<Function>), Error>(error),
                None => {
                    &&& result matches Ok((report, functions))
                    &&& report == verify::report_of(self.contents(), self.tables())
                    &&& model::function_views(functions@) == verify::functions_of(
                        self.contents(),
                        self.tables(),
                    )
                },
            },
    {
        proof {
            use_type_invariant(self);
        }
        verify::verify_at(self.data.bytes(), &self.layout, true)
    }

    /// Finds the last function that starts at or before the address.
    pub fn find_address_index(&self, address: u64) -> (result: Result<Option<usize>, Error>)
        ensures
            match crate::reader::search::last_index(self.contents(), self.tables(), address) {
                Ok(Some(index)) => result matches Ok(Some(found)) && found == index,
                Ok(None) => result matches Ok(None),
                Err(error) => result matches Err(found) && found == error,
            },
    {
        proof {
            use_type_invariant(self);
        }
        crate::reader::search::find_address_index(self.data.bytes(), &self.layout, address)
    }

    /// Resolves an unslid virtual address with the default lookup options.
    ///
    /// Returns `Ok(None)` when no function covers the address. Frames come back
    /// innermost first.
    pub fn lookup(&self, address: u64) -> (result: Result<Option<Lookup<'_>>, Error>)
        ensures
            match lookup::looked_up(
                self.contents(),
                self.tables(),
                address,
                LookupOptions { line_information: true, inline_frames: true, call_sites: true },
            ) {
                Ok(Some(view)) => result matches Ok(Some(lookup)) && lookup@ == view,
                Ok(None) => result matches Ok(None),
                Err(error) => result matches Err(found) && found == error,
            },
    {
        let mut scratch = LookupScratch::default();
        self.lookup_with_options(address, LookupOptions::default(), &mut scratch)
    }

    /// Resolves an address with explicit options and reusable scratch storage.
    pub fn lookup_with_options(
        &self,
        address: u64,
        options: LookupOptions,
        scratch: &mut LookupScratch,
    ) -> (result: Result<Option<Lookup<'_>>, Error>)
        ensures
            match lookup::looked_up(self.contents(), self.tables(), address, options) {
                Ok(Some(view)) => result matches Ok(Some(lookup)) && lookup@ == view,
                Ok(None) => result matches Ok(None),
                Err(error) => result matches Err(found) && found == error,
            },
    {
        proof {
            use_type_invariant(self);
        }
        lookup::lookup_at(self.data.bytes(), &self.layout, address, options, scratch)
    }

    /// Visits the frames of an address, the innermost first, by adding each to
    /// `frames`. Returns whether a function covers the address.
    pub fn for_each_frame<'data>(
        &'data self,
        address: u64,
        options: FrameLookupOptions,
        scratch: &mut LookupScratch,
        frames: &mut Vec<LookupFrame<'data>>,
    ) -> (result: Result<bool, Error>)
        ensures
            model::frame_views(final(frames)@) == model::frame_views(old(frames)@)
                + lookup::yielded(self.contents(), self.tables(), address, options),
            result == (match lookup::visited(self.contents(), self.tables(), address, options) {
                Ok(Some(_)) => Ok::<bool, Error>(true),
                Ok(None) => Ok(false),
                Err(error) => Err(error),
            }),
    {
        proof {
            use_type_invariant(self);
        }
        lookup::visit_at(self.data.bytes(), &self.layout, address, options, scratch, frames)
    }
}

/// Lazily decoded reference to a top-level function record.
///
/// The range and the name are available at once; everything else is read by
/// `decode`.
pub struct FunctionRef<'data> {
    pub(crate) index: usize,
    pub(crate) name: &'data [u8],
    pub(crate) all_data: &'data [u8],
    pub(crate) raw: RawFunction<'data>,
    pub(crate) layout: &'data ParsedLayout,
}

impl<'data> FunctionRef<'data> {
    /// The bytes of the file.
    pub closed spec fn contents(&self) -> Seq<u8> {
        self.all_data@
    }

    /// Where the tables of the file stand.
    pub closed spec fn tables(&self) -> ParsedLayout {
        *self.layout
    }

    /// The head of the function.
    pub closed spec fn head(&self) -> RawView {
        self.raw@
    }

    /// The name of the function.
    pub closed spec fn spec_name(&self) -> Seq<u8> {
        self.name@
    }

    /// The index of the function.
    pub closed spec fn spec_index(&self) -> usize {
        self.index
    }

    /// Whether this is the function of a file that was found at the index.
    pub open spec fn describes<D: Storage>(
        &self,
        gsym: Gsym<D>,
        index: usize,
        found: verify::FoundView,
    ) -> bool {
        &&& self.contents() == gsym.contents()
        &&& self.tables() == gsym.tables()
        &&& self.head() == found.raw
        &&& self.spec_name() == found.name
        &&& self.spec_index() == index
    }

    #[verifier::type_invariant]
    spec fn tables_in_contents(self) -> bool {
        self.layout.wf(self.all_data@.len())
    }

    /// Returns the index of the function.
    pub fn index(&self) -> (index: usize)
        ensures
            index == self.spec_index(),
    {
        self.index
    }

    /// Returns the address range of the function.
    pub fn range(&self) -> (range: AddressRange)
        ensures
            range == self.head().range,
    {
        self.raw.range
    }

    /// Returns the name of the function.
    pub fn name(&self) -> (name: &'data [u8])
        ensures
            name@ == self.spec_name(),
    {
        self.name
    }

    /// Returns the start address of the function.
    pub fn start(&self) -> (start: u64)
        ensures
            start == self.head().range.start,
    {
        self.raw.range.start
    }

    /// Decodes the records of the function without resolving what they refer
    /// to.
    pub fn decode_encoded(&self) -> (result: Result<EncodedFunction, Error>)
        ensures
            match verify::encoded_of(self.tables(), self.head()) {
                Ok(view) => result matches Ok(encoded) && encoded@ == view,
                Err(error) => result matches Err(found) && found == error,
            },
    {
        verify::encoded_at(self.layout, self.raw)
    }

    /// Decodes the function with everything that it refers to.
    pub fn decode(&self) -> (result: Result<Function, Error>)
        ensures
            match verify::decoded_of(self.contents(), self.tables(), self.head()) {
                Ok(view) => result matches Ok(function) && function@ == view,
                Err(error) => result matches Err(found) && found == error,
            },
    {
        proof {
            use_type_invariant(self);
        }
        let encoded = self.decode_encoded()?;
        owned::decode_at(self.all_data, self.layout, &encoded, None, 0)
    }
}

/// Walk over the indexed functions in address order.
pub struct Functions<'gsym, D: Storage> {
    pub(crate) gsym: &'gsym Gsym<D>,
    pub(crate) next: usize,
}

impl<'gsym, D: Storage> Functions<'gsym, D> {
    /// The file that is walked.
    pub closed spec fn file(&self) -> Gsym<D> {
        *self.gsym
    }

    /// Index of the function that comes next.
    pub closed spec fn position(&self) -> usize {
        self.next
    }

    /// Returns the next function, or nothing behind the last one.
    pub fn next(&mut self) -> (item: Option<Result<FunctionRef<'gsym>, Error>>)
        ensures
            final(self).file() == old(self).file(),
            final(self).position() == (if old(self).position() < old(
                self,
            ).file().tables().address_count {
                old(self).position() + 1
            } else {
                old(self).position() as int
            }),
            match verify::found_of(
                old(self).file().contents(),
                old(self).file().tables(),
                old(self).position() as int,
            ) {
                Ok(Some(found)) => {
                    &&& item matches Some(Ok(function))
                    &&& function.describes(old(self).file(), old(self).position(), found)
                },
                Ok(None) => item is None,
                Err(error) => item matches Some(Err(found)) && found == error,
            },
    {
        if self.next >= self.gsym.layout.address_count as usize {
            return None;
        }
        let index: usize = self.next;
        self.next = index + 1;
        Some(self.gsym.function(index))
    }

    /// Returns the number of functions that are still to come.
    pub fn len(&self) -> (len: usize)
        ensures
            len == (if self.position() < self.file().tables().address_count {
                self.file().tables().address_count - self.position()
            } else {
                0
            }),
    {
        let count: usize = self.gsym.layout.address_count as usize;
        if self.next < count {
            count - self.next
        } else {
            0
        }
    }
}

} // verus!
