//! Semantic model of the symbolication data.
use vstd::prelude::*;

verus! {

/// A half-open virtual-address range, `[start, end)`.
///
/// Addresses are the unslid virtual addresses of the image the data describes.
///
/// An empty range is legal and means a function whose size the producer did not
/// know. It contains no address, but address lookup still resolves such a
/// function, for addresses from its start up to the next function.
#[derive(Clone, Copy, Debug, PartialEq, Eq, Structural, PartialOrd, Ord, Hash)]
pub struct AddressRange {
    /// Inclusive start address.
    pub start: u64,
    /// Exclusive end address.
    pub end: u64,
}

impl Default for AddressRange {
    fn default() -> (range: Self)
        ensures
            range == (AddressRange { start: 0, end: 0 }),
    {
        AddressRange { start: 0, end: 0 }
    }
}

impl AddressRange {
    /// Width of the range, or zero for reversed endpoints.
    pub open spec fn spec_size(self) -> u64 {
        if self.start <= self.end {
            (self.end - self.start) as u64
        } else {
            0
        }
    }

    /// Whether the start is less than or equal to the end.
    pub open spec fn spec_is_valid(self) -> bool {
        self.start <= self.end
    }

    /// Whether `address` lies in the range.
    pub open spec fn spec_contains(self, address: u64) -> bool {
        self.start <= address < self.end
    }

    /// Whether both ranges are valid and this one covers `other`.
    pub open spec fn spec_contains_range(self, other: Self) -> bool {
        self.start <= other.start <= other.end <= self.end
    }

    /// Creates a range without validating endpoint order.
    pub fn new(start: u64, end: u64) -> (range: Self)
        ensures
            range == (AddressRange { start, end }),
    {
        AddressRange { start, end }
    }

    /// Returns the range width, or zero for reversed endpoints.
    pub fn size(self) -> (size: u64)
        ensures
            size == self.spec_size(),
    {
        if self.start <= self.end {
            self.end - self.start
        } else {
            0
        }
    }

    /// Returns whether the start is less than or equal to the end.
    pub fn is_valid(self) -> (valid: bool)
        ensures
            valid == self.spec_is_valid(),
    {
        self.start <= self.end
    }

    /// Returns whether the range covers no addresses, including reversed ones.
    pub fn is_empty(self) -> (empty: bool)
        ensures
            empty == (self.spec_size() == 0),
            empty == (forall|address: u64| !self.spec_contains(address)),
    {
        proof {
            if self.start < self.end {
                assert(self.spec_contains(self.start));
            }
        }
        self.size() == 0
    }

    /// Returns whether `address` lies in this valid half-open range.
    pub fn contains(self, address: u64) -> (contains: bool)
        ensures
            contains == self.spec_contains(address),
    {
        self.start <= address && address < self.end
    }

    /// Returns whether this valid range fully contains `other`.
    pub fn contains_range(self, other: Self) -> (contains: bool)
        ensures
            contains == self.spec_contains_range(other),
    {
        self.is_valid() && other.is_valid() && self.start <= other.start && other.end <= self.end
    }
}

/// Whether a range comes no later than another.
pub open spec fn range_at_most(a: AddressRange, b: AddressRange) -> bool {
    a.start < b.start || (a.start == b.start && a.end <= b.end)
}

/// A range contains a non-empty valid range exactly when it contains each of
/// its addresses.
pub proof fn law_contains_range(outer: AddressRange, inner: AddressRange)
    requires
        inner.start < inner.end,
    ensures
        outer.spec_contains_range(inner) <==> (forall|address: u64|
            inner.spec_contains(address) ==> outer.spec_contains(address)),
{
    if forall|address: u64| inner.spec_contains(address) ==> outer.spec_contains(address) {
        assert(inner.spec_contains(inner.start));
        assert(inner.spec_contains((inner.end - 1) as u64));
    }
}

/// What a source-file entry says.
pub struct FileView {
    /// Directory component.
    pub directory: Seq<u8>,
    /// Basename component.
    pub basename: Seq<u8>,
}

/// A source file split into directory and basename, as GSYM stores it.
///
/// Neither half is required to be valid UTF-8, and neither is normalized: what
/// the producer wrote is what a reader gets back.
#[derive(Debug, PartialEq, Eq, Hash)]
pub struct FileEntry {
    /// Directory component as raw string-table bytes.
    pub directory: Vec<u8>,
    /// Basename component as raw string-table bytes.
    pub basename: Vec<u8>,
}

impl View for FileEntry {
    type V = FileView;

    open spec fn view(&self) -> FileView {
        FileView { directory: self.directory@, basename: self.basename@ }
    }
}

/// The entry that index zero is reserved for.
pub open spec fn empty_file() -> FileView {
    FileView { directory: Seq::empty(), basename: Seq::empty() }
}

/// A copy of raw bytes.
pub fn copy_bytes(bytes: &[u8]) -> (copy: Vec<u8>)
    ensures
        copy@ == bytes@,
{
    let mut copy: Vec<u8> = Vec::with_capacity(bytes.len());
    copy.extend_from_slice(bytes);
    assert(copy@ =~= bytes@);
    copy
}

/// Whether two byte strings are the same.
pub fn same_bytes(a: &[u8], b: &[u8]) -> (same: bool)
    ensures
        same <==> a@ == b@,
{
    if a.len() != b.len() {
        return false;
    }
    let mut i: usize = 0;
    while i < a.len()
        invariant
            i <= a@.len() == b@.len(),
            forall|k: int| 0 <= k < i ==> a@[k] == b@[k],
        decreases a@.len() - i,
    {
        if a[i] != b[i] {
            return false;
        }
        i = i + 1;
    }
    assert(a@ =~= b@);
    true
}

impl FileEntry {
    /// Creates a source-file entry from raw directory and basename bytes.
    pub fn new(directory: &[u8], basename: &[u8]) -> (entry: Self)
        ensures
            entry@ == (FileView { directory: directory@, basename: basename@ }),
    {
        FileEntry { directory: copy_bytes(directory), basename: copy_bytes(basename) }
    }

    /// Whether two entries say the same.
    pub fn same(&self, other: &Self) -> (same: bool)
        ensures
            same <==> self@ == other@,
    {
        same_bytes(self.directory.as_slice(), other.directory.as_slice()) && same_bytes(
            self.basename.as_slice(),
            other.basename.as_slice(),
        )
    }
}

impl Default for FileEntry {
    fn default() -> (entry: Self)
        ensures
            entry@ == empty_file(),
    {
        FileEntry { directory: Vec::new(), basename: Vec::new() }
    }
}

impl Clone for FileEntry {
    fn clone(&self) -> (copy: Self)
        ensures
            copy@ == self@,
    {
        FileEntry {
            directory: copy_bytes(self.directory.as_slice()),
            basename: copy_bytes(self.basename.as_slice()),
        }
    }
}

/// What the entries of a file table say.
pub open spec fn file_views(files: Seq<FileEntry>) -> Seq<FileView> {
    Seq::new(files.len(), |i: int| files[i]@)
}

/// An index into a GSYM file table.
///
/// Index zero is reserved for the empty file entry, so real files are
/// numbered from 1. A line row that carries index zero has no known source file
/// rather than a file named `""`.
#[derive(Clone, Copy, Debug, PartialEq, Eq, Structural, PartialOrd, Ord, Hash)]
pub struct FileIndex(pub u32);

impl Default for FileIndex {
    fn default() -> (index: Self)
        ensures
            index == FileIndex(0),
    {
        FileIndex(0)
    }
}

impl FileIndex {
    /// Reserved index representing the empty file entry.
    pub fn zero() -> (index: Self)
        ensures
            index == FileIndex(0),
    {
        FileIndex(0)
    }

    /// Wraps a raw file-table index.
    pub fn new(index: u32) -> (wrapped: Self)
        ensures
            wrapped == FileIndex(index),
    {
        FileIndex(index)
    }

    /// Returns the raw file-table index.
    pub fn get(self) -> (index: u32)
        ensures
            index == self.0,
    {
        self.0
    }
}

impl From<u32> for FileIndex {
    fn from(index: u32) -> (wrapped: Self) {
        FileIndex(index)
    }
}

impl vstd::std_specs::convert::FromSpecImpl<u32> for FileIndex {
    open spec fn obeys_from_spec() -> bool {
        true
    }

    open spec fn from_spec(index: u32) -> Self {
        FileIndex(index)
    }
}

impl From<FileIndex> for u32 {
    fn from(index: FileIndex) -> (raw: Self) {
        index.0
    }
}

impl vstd::std_specs::convert::FromSpecImpl<FileIndex> for u32 {
    open spec fn obeys_from_spec() -> bool {
        true
    }

    open spec fn from_spec(index: FileIndex) -> Self {
        index.0
    }
}

impl From<FileIndex> for u64 {
    fn from(index: FileIndex) -> (raw: Self) {
        index.0 as u64
    }
}

impl vstd::std_specs::convert::FromSpecImpl<FileIndex> for u64 {
    open spec fn obeys_from_spec() -> bool {
        true
    }

    open spec fn from_spec(index: FileIndex) -> Self {
        index.0 as u64
    }
}

/// One address-to-source-row mapping.
///
/// A row stays in effect from its address until the next row's address, so a
/// function's rows must be sorted and must start at or after the function's
/// start address. The writer rejects rows that violate either rule.
#[derive(Clone, Copy, Debug, PartialEq, Eq, Structural, PartialOrd, Ord)]
pub struct LineEntry {
    /// Unslid virtual address at which this row becomes active.
    pub address: u64,
    /// Source file-table index.
    pub file: FileIndex,
    /// One-based source line number, or zero when unknown.
    pub line: u32,
}

impl Default for LineEntry {
    fn default() -> (entry: Self)
        ensures
            entry == (LineEntry { address: 0, file: FileIndex(0), line: 0 }),
    {
        LineEntry { address: 0, file: FileIndex(0), line: 0 }
    }
}

impl LineEntry {
    /// Creates a source-line row.
    pub fn new(address: u64, file: FileIndex, line: u32) -> (entry: Self)
        ensures
            entry == (LineEntry { address, file, line }),
    {
        LineEntry { address, file, line }
    }
}

/// What an inline tree says.
pub struct InlineView {
    /// Address ranges covered by this inline invocation.
    pub ranges: Seq<AddressRange>,
    /// Function name.
    pub name: Seq<u8>,
    /// File containing the call site in the parent frame.
    pub call_file: FileIndex,
    /// Source line containing the call site in the parent frame.
    pub call_line: u32,
    /// Nested inline invocations.
    pub children: Seq<InlineView>,
}

/// Recursive inline-call information for a function.
///
/// The root node covers the function itself, and each child covers the address
/// ranges occupied by one inlined call inside its parent. A child's ranges must
/// be contained by its parent's, and sibling ranges must not overlap.
///
/// `call_file` and `call_line` describe where the call appears in the *parent*,
/// not where the inlined body was defined.
#[derive(Debug, PartialEq, Eq, PartialOrd, Ord)]
pub struct InlineNode {
    /// Sorted, disjoint address ranges covered by this inline invocation.
    pub ranges: Vec<AddressRange>,
    /// Function name as raw string-table bytes.
    pub name: Vec<u8>,
    /// File containing the call site in the parent frame.
    pub call_file: FileIndex,
    /// Source line containing the call site in the parent frame.
    pub call_line: u32,
    /// Nested inline invocations.
    pub children: Vec<InlineNode>,
}

/// What an inline tree says.
pub open spec fn inline_view(node: InlineNode) -> InlineView
    decreases node,
{
    InlineView {
        ranges: node.ranges@,
        name: node.name@,
        call_file: node.call_file,
        call_line: node.call_line,
        children: Seq::new(
            node.children@.len(),
            |i: int|
                if 0 <= i < node.children@.len() {
                    inline_view(node.children@[i])
                } else {
                    arbitrary()
                },
        ),
    }
}

/// What the nodes of a list say.
pub open spec fn inline_views(nodes: Seq<InlineNode>) -> Seq<InlineView> {
    Seq::new(nodes.len(), |i: int| inline_view(nodes[i]))
}

/// What an optional inline tree says.
pub open spec fn inline_option_view(node: Option<InlineNode>) -> Option<InlineView> {
    match node {
        Some(node) => Some(inline_view(node)),
        None => None,
    }
}

/// A node's view, one level at a time.
pub proof fn lemma_inline_view(node: InlineNode)
    ensures
        inline_view(node) == (InlineView {
            ranges: node.ranges@,
            name: node.name@,
            call_file: node.call_file,
            call_line: node.call_line,
            children: inline_views(node.children@),
        }),
{
    assert(inline_view(node).children =~= inline_views(node.children@));
}

impl View for InlineNode {
    type V = InlineView;

    open spec fn view(&self) -> InlineView {
        inline_view(*self)
    }
}

/// A copy of address ranges.
pub fn copy_ranges(ranges: &Vec<AddressRange>) -> (copy: Vec<AddressRange>)
    ensures
        copy@ == ranges@,
{
    let mut copy: Vec<AddressRange> = Vec::with_capacity(ranges.len());
    let mut i: usize = 0;
    while i < ranges.len()
        invariant
            i <= ranges@.len(),
            copy@ == ranges@.subrange(0, i as int),
        decreases ranges@.len() - i,
    {
        copy.push(ranges[i]);
        i = i + 1;
        assert(copy@ =~= ranges@.subrange(0, i as int));
    }
    assert(copy@ =~= ranges@);
    copy
}

impl Clone for InlineNode {
    fn clone(&self) -> (copy: Self)
        ensures
            copy@ == self@,
        decreases self,
    {
        let mut children: Vec<InlineNode> = Vec::with_capacity(self.children.len());
        let mut i: usize = 0;
        while i < self.children.len()
            invariant
                i <= self.children@.len(),
                inline_views(children@) == inline_views(self.children@).subrange(0, i as int),
            decreases self.children@.len() - i,
        {
            assert(decreases_to!(self => self.children@[i as int]));
            let ghost before = inline_views(children@);
            let child = self.children[i].clone();
            children.push(child);
            i = i + 1;
            assert(inline_views(children@) =~= before.push(child@));
            assert(inline_views(children@) =~= inline_views(self.children@).subrange(0, i as int));
        }
        let copy = InlineNode {
            ranges: copy_ranges(&self.ranges),
            name: copy_bytes(self.name.as_slice()),
            call_file: self.call_file,
            call_line: self.call_line,
            children,
        };
        proof {
            lemma_inline_view(copy);
            lemma_inline_view(*self);
            assert(inline_views(copy.children@) =~= inline_views(self.children@));
        }
        copy
    }
}

impl Default for InlineNode {
    fn default() -> (node: Self)
        ensures
            node@ == (InlineView {
                ranges: Seq::empty(),
                name: Seq::empty(),
                call_file: FileIndex(0),
                call_line: 0,
                children: Seq::empty(),
            }),
    {
        let node = InlineNode {
            ranges: Vec::new(),
            name: Vec::new(),
            call_file: FileIndex(0),
            call_line: 0,
            children: Vec::new(),
        };
        proof {
            lemma_inline_view(node);
            assert(inline_views(node.children@) =~= Seq::<InlineView>::empty());
        }
        node
    }
}

/// What a call site says.
pub struct CallSiteView {
    /// Return-address offset relative to the containing function start.
    pub return_offset: u64,
    /// Classification bits.
    pub flags: CallSiteFlags,
    /// Regular-expression strings describing possible callees.
    pub match_regex: Seq<Seq<u8>>,
}

/// Metadata for a call instruction's return address.
///
/// `match_regex` names the callees that may return to this address. The
/// patterns are stored and returned without being interpreted.
#[derive(Debug, PartialEq, Eq, PartialOrd, Ord)]
pub struct CallSite {
    /// Return-address offset relative to the containing function start.
    pub return_offset: u64,
    /// Classification bits retained from the input.
    pub flags: CallSiteFlags,
    /// Regular-expression strings describing possible callees.
    pub match_regex: Vec<Vec<u8>>,
}

/// The byte strings of a list.
pub open spec fn byte_views(strings: Seq<Vec<u8>>) -> Seq<Seq<u8>> {
    Seq::new(strings.len(), |i: int| strings[i]@)
}

impl View for CallSite {
    type V = CallSiteView;

    open spec fn view(&self) -> CallSiteView {
        CallSiteView {
            return_offset: self.return_offset,
            flags: self.flags,
            match_regex: byte_views(self.match_regex@),
        }
    }
}

/// What the call sites of a list say.
pub open spec fn call_site_views(sites: Seq<CallSite>) -> Seq<CallSiteView> {
    Seq::new(sites.len(), |i: int| sites[i]@)
}

impl Clone for CallSite {
    fn clone(&self) -> (copy: Self)
        ensures
            copy@ == self@,
    {
        let mut match_regex: Vec<Vec<u8>> = Vec::with_capacity(self.match_regex.len());
        let mut i: usize = 0;
        while i < self.match_regex.len()
            invariant
                i <= self.match_regex@.len(),
                byte_views(match_regex@) == byte_views(self.match_regex@).subrange(0, i as int),
            decreases self.match_regex@.len() - i,
        {
            let ghost before = byte_views(match_regex@);
            let pattern = copy_bytes(self.match_regex[i].as_slice());
            match_regex.push(pattern);
            i = i + 1;
            assert(byte_views(match_regex@) =~= before.push(pattern@));
            assert(byte_views(match_regex@) =~= byte_views(self.match_regex@).subrange(
                0,
                i as int,
            ));
        }
        assert(byte_views(match_regex@) =~= byte_views(self.match_regex@));
        CallSite { return_offset: self.return_offset, flags: self.flags, match_regex }
    }
}

impl Default for CallSite {
    fn default() -> (site: Self)
        ensures
            site@ == (CallSiteView {
                return_offset: 0,
                flags: CallSiteFlags(0),
                match_regex: Seq::empty(),
            }),
    {
        let site = CallSite {
            return_offset: 0,
            flags: CallSiteFlags(0),
            match_regex: Vec::new(),
        };
        assert(site@.match_regex =~= Seq::<Seq<u8>>::empty());
        site
    }
}

/// Forward-compatible GSYM call-site flag bits.
///
/// Bits without a name here are kept rather than cleared, so they survive a
/// decode and re-encode.
#[derive(Clone, Copy, Debug, PartialEq, Eq, Structural, PartialOrd, Ord, Hash)]
pub struct CallSiteFlags(pub u8);

impl Default for CallSiteFlags {
    fn default() -> (flags: Self)
        ensures
            flags == CallSiteFlags(0),
    {
        CallSiteFlags(0)
    }
}

impl CallSiteFlags {
    /// Call target is internal to the image.
    pub fn internal() -> (flags: Self)
        ensures
            flags == CallSiteFlags(1),
    {
        CallSiteFlags(1)
    }

    /// Call target may be external to the image.
    pub fn external() -> (flags: Self)
        ensures
            flags == CallSiteFlags(2),
    {
        CallSiteFlags(2)
    }

    /// Wraps all bits, including values without a name.
    pub fn from_bits_retain(bits: u8) -> (flags: Self)
        ensures
            flags == CallSiteFlags(bits),
    {
        CallSiteFlags(bits)
    }

    /// Returns the raw flag byte.
    pub fn bits(self) -> (bits: u8)
        ensures
            bits == self.0,
    {
        self.0
    }

    /// Returns whether no bits are set.
    pub fn is_empty(self) -> (empty: bool)
        ensures
            empty == (self.0 == 0),
    {
        self.0 == 0
    }

    /// Returns whether every bit in `flag` is present.
    pub fn contains(self, flag: Self) -> (contains: bool)
        ensures
            contains == (self.0 & flag.0 == flag.0),
    {
        self.0 & flag.0 == flag.0
    }
}

impl std::ops::BitOr<CallSiteFlags> for CallSiteFlags {
    type Output = CallSiteFlags;

    fn bitor(self, rhs: Self) -> (flags: Self) {
        CallSiteFlags(self.0 | rhs.0)
    }
}

impl vstd::std_specs::ops::BitOrSpecImpl<CallSiteFlags> for CallSiteFlags {
    open spec fn obeys_bitor_spec() -> bool {
        true
    }

    open spec fn bitor_req(self, rhs: CallSiteFlags) -> bool {
        true
    }

    open spec fn bitor_spec(self, rhs: CallSiteFlags) -> CallSiteFlags {
        CallSiteFlags(self.0 | rhs.0)
    }
}

impl std::ops::BitOrAssign for CallSiteFlags {
    fn bitor_assign(&mut self, rhs: Self)
        ensures
            *final(self) == CallSiteFlags(old(self).0 | rhs.0),
    {
        self.0 = self.0 | rhs.0;
    }
}

/// A union holds the bits of both operands.
pub proof fn law_union_contains(a: CallSiteFlags, b: CallSiteFlags)
    ensures
        (a.0 | b.0) & a.0 == a.0,
        (a.0 | b.0) & b.0 == b.0,
{
    let (x, y) = (a.0, b.0);
    assert((x | y) & x == x && (x | y) & y == y) by (bit_vector);
}

impl From<u8> for CallSiteFlags {
    fn from(value: u8) -> (flags: Self) {
        CallSiteFlags(value)
    }
}

impl vstd::std_specs::convert::FromSpecImpl<u8> for CallSiteFlags {
    open spec fn obeys_from_spec() -> bool {
        true
    }

    open spec fn from_spec(value: u8) -> Self {
        CallSiteFlags(value)
    }
}

impl From<CallSiteFlags> for u8 {
    fn from(value: CallSiteFlags) -> (bits: Self) {
        value.0
    }
}

impl vstd::std_specs::convert::FromSpecImpl<CallSiteFlags> for u8 {
    open spec fn obeys_from_spec() -> bool {
        true
    }

    open spec fn from_spec(value: CallSiteFlags) -> Self {
        value.0
    }
}

/// What a function says.
pub struct FunctionView {
    /// Function address range.
    pub range: AddressRange,
    /// Function name.
    pub name: Seq<u8>,
    /// Source-line rows.
    pub lines: Seq<LineEntry>,
    /// Root of the inline-call tree, when present.
    pub inline: Option<InlineView>,
    /// Equal-range aliases.
    pub merged: Seq<FunctionView>,
    /// Call-site metadata.
    pub call_sites: Seq<CallSiteView>,
}

/// Owned semantic function data accepted by a GSYM builder.
///
/// Only the range and the name are required. A function with no line rows and
/// no inline tree still resolves an address to a name and an offset.
///
/// `merged` holds aliases that share this function's address range, which
/// identical-code folding produces. They are dropped where functions are
/// deduplicated, and written where
/// [`FunctionSetPolicy::MergeEqualRanges`](crate::FunctionSetPolicy) is enabled
/// or every function is encoded as supplied.
#[derive(Debug, PartialEq, Eq, PartialOrd, Ord)]
pub struct Function {
    /// Function address range.
    pub range: AddressRange,
    /// Function name as raw string-table bytes.
    pub name: Vec<u8>,
    /// Sorted source-line rows belonging to this function.
    pub lines: Vec<LineEntry>,
    /// Root of the inline-call tree, when present.
    pub inline: Option<InlineNode>,
    /// Equal-range aliases stored as merged `FunctionInfo` records.
    pub merged: Vec<Function>,
    /// Call-site metadata for this function.
    pub call_sites: Vec<CallSite>,
}

/// What a function says.
pub open spec fn function_view(function: Function) -> FunctionView
    decreases function,
{
    FunctionView {
        range: function.range,
        name: function.name@,
        lines: function.lines@,
        inline: inline_option_view(function.inline),
        merged: Seq::new(
            function.merged@.len(),
            |i: int|
                if 0 <= i < function.merged@.len() {
                    function_view(function.merged@[i])
                } else {
                    arbitrary()
                },
        ),
        call_sites: call_site_views(function.call_sites@),
    }
}

/// What the functions of a list say.
pub open spec fn function_views(functions: Seq<Function>) -> Seq<FunctionView> {
    Seq::new(functions.len(), |i: int| function_view(functions[i]))
}

/// A function's view, one level at a time.
pub proof fn lemma_function_view(function: Function)
    ensures
        function_view(function) == (FunctionView {
            range: function.range,
            name: function.name@,
            lines: function.lines@,
            inline: inline_option_view(function.inline),
            merged: function_views(function.merged@),
            call_sites: call_site_views(function.call_sites@),
        }),
{
    assert(function_view(function).merged =~= function_views(function.merged@));
}

impl View for Function {
    type V = FunctionView;

    open spec fn view(&self) -> FunctionView {
        function_view(*self)
    }
}

/// A function with a range and a name and nothing else.
pub open spec fn plain_function(range: AddressRange, name: Seq<u8>) -> FunctionView {
    FunctionView {
        range,
        name,
        lines: Seq::empty(),
        inline: None,
        merged: Seq::empty(),
        call_sites: Seq::empty(),
    }
}

impl Function {
    /// Creates a function with no optional line, inline, merged, or call-site data.
    pub fn new(range: AddressRange, name: &[u8]) -> (function: Self)
        ensures
            function@ == plain_function(range, name@),
    {
        Function::named(range, copy_bytes(name))
    }

    /// Creates a function with no optional data under a name that is handed over.
    pub fn named(range: AddressRange, name: Vec<u8>) -> (function: Self)
        ensures
            function@ == plain_function(range, name@),
    {
        let function = Function {
            range,
            name,
            lines: Vec::new(),
            inline: None,
            merged: Vec::new(),
            call_sites: Vec::new(),
        };
        proof {
            lemma_function_view(function);
            assert(function_views(function.merged@) =~= Seq::<FunctionView>::empty());
            assert(call_site_views(function.call_sites@) =~= Seq::<CallSiteView>::empty());
        }
        function
    }
}

impl Default for Function {
    fn default() -> (function: Self)
        ensures
            function@ == plain_function(AddressRange { start: 0, end: 0 }, Seq::empty()),
    {
        Function::named(AddressRange { start: 0, end: 0 }, Vec::new())
    }
}

/// A copy of line rows.
pub fn copy_lines(lines: &Vec<LineEntry>) -> (copy: Vec<LineEntry>)
    ensures
        copy@ == lines@,
{
    let mut copy: Vec<LineEntry> = Vec::with_capacity(lines.len());
    let mut i: usize = 0;
    while i < lines.len()
        invariant
            i <= lines@.len(),
            copy@ == lines@.subrange(0, i as int),
        decreases lines@.len() - i,
    {
        copy.push(lines[i]);
        i = i + 1;
        assert(copy@ =~= lines@.subrange(0, i as int));
    }
    assert(copy@ =~= lines@);
    copy
}

/// A copy of call sites.
pub fn copy_call_sites(sites: &Vec<CallSite>) -> (copy: Vec<CallSite>)
    ensures
        call_site_views(copy@) == call_site_views(sites@),
{
    let mut copy: Vec<CallSite> = Vec::with_capacity(sites.len());
    let mut i: usize = 0;
    while i < sites.len()
        invariant
            i <= sites@.len(),
            call_site_views(copy@) == call_site_views(sites@).subrange(0, i as int),
        decreases sites@.len() - i,
    {
        let ghost before = call_site_views(copy@);
        let site = sites[i].clone();
        copy.push(site);
        i = i + 1;
        assert(call_site_views(copy@) =~= before.push(site@));
        assert(call_site_views(copy@) =~= call_site_views(sites@).subrange(0, i as int));
    }
    assert(call_site_views(copy@) =~= call_site_views(sites@));
    copy
}

impl Clone for Function {
    fn clone(&self) -> (copy: Self)
        ensures
            copy@ == self@,
        decreases self,
    {
        let mut merged: Vec<Function> = Vec::with_capacity(self.merged.len());
        let mut i: usize = 0;
        while i < self.merged.len()
            invariant
                i <= self.merged@.len(),
                function_views(merged@) == function_views(self.merged@).subrange(0, i as int),
            decreases self.merged@.len() - i,
        {
            assert(decreases_to!(self => self.merged@[i as int]));
            let ghost before = function_views(merged@);
            let alias = self.merged[i].clone();
            merged.push(alias);
            i = i + 1;
            assert(function_views(merged@) =~= before.push(alias@));
            assert(function_views(merged@) =~= function_views(self.merged@).subrange(0, i as int));
        }
        let inline: Option<InlineNode> = match &self.inline {
            Some(node) => Some(node.clone()),
            None => None,
        };
        let copy = Function {
            range: self.range,
            name: copy_bytes(self.name.as_slice()),
            lines: copy_lines(&self.lines),
            inline,
            merged,
            call_sites: copy_call_sites(&self.call_sites),
        };
        proof {
            lemma_function_view(copy);
            lemma_function_view(*self);
            assert(function_views(copy.merged@) =~= function_views(self.merged@));
        }
        copy
    }
}

/// What a lookup frame says.
pub struct FrameView {
    /// Function name.
    pub name: Seq<u8>,
    /// Source directory.
    pub directory: Seq<u8>,
    /// Source basename.
    pub basename: Seq<u8>,
    /// Source line, or zero when unavailable.
    pub line: u32,
    /// Address offset from the beginning of the frame's function or inline range.
    pub offset: u64,
    /// Whether the frame represents an inline invocation.
    pub inlined: bool,
}

/// One source frame returned by address lookup.
///
/// Every field borrows from the GSYM input. For the innermost frame the
/// position is the line row covering the looked-up address; for an outer frame
/// it is the call site recorded by the frame nested inside it. A zero line and
/// empty paths mean that there is no line information for the address, or that
/// the caller disabled it.
#[derive(Clone, Copy, Debug, PartialEq, Eq)]
pub struct LookupFrame<'data> {
    /// Function name borrowed from the string table.
    pub name: &'data [u8],
    /// Source directory borrowed from the string table.
    pub directory: &'data [u8],
    /// Source basename borrowed from the string table.
    pub basename: &'data [u8],
    /// Source line, or zero when unavailable.
    pub line: u32,
    /// Address offset from the beginning of this frame's function or inline range.
    pub offset: u64,
    /// Whether this frame represents an inline invocation.
    pub inlined: bool,
}

impl<'data> View for LookupFrame<'data> {
    type V = FrameView;

    open spec fn view(&self) -> FrameView {
        FrameView {
            name: self.name@,
            directory: self.directory@,
            basename: self.basename@,
            line: self.line,
            offset: self.offset,
            inlined: self.inlined,
        }
    }
}

/// What the frames of a list say.
pub open spec fn frame_views(frames: Seq<LookupFrame<'_>>) -> Seq<FrameView> {
    Seq::new(frames.len(), |i: int| frames[i]@)
}

/// The byte strings of a list of slices.
pub open spec fn slice_views(strings: Seq<&[u8]>) -> Seq<Seq<u8>> {
    Seq::new(strings.len(), |i: int| strings[i]@)
}

/// What a lookup says.
pub struct LookupView {
    /// Address supplied by the caller.
    pub address: u64,
    /// Address range of the selected top-level function.
    pub function: AddressRange,
    /// Frames, innermost first.
    pub frames: Seq<FrameView>,
    /// Callee patterns of an exactly matching return address.
    pub call_site_patterns: Seq<Seq<u8>>,
}

/// Borrowed symbolication result for one address.
///
/// The frames are ordered innermost first and there is always at least one.
/// With inlining, frame 0 is the deepest inlined body containing the address,
/// the last frame is the function the linker emitted, and the frames between
/// them are the inlined calls.
///
/// The call-site patterns are non-empty only when the looked-up address is
/// exactly a recorded return address and call-site records were requested.
#[derive(Debug, PartialEq, Eq)]
pub struct Lookup<'data> {
    /// Address supplied by the caller.
    pub address: u64,
    /// Address range of the selected top-level function.
    pub function: AddressRange,
    /// Resolved frames, innermost first.
    pub resolved: Vec<LookupFrame<'data>>,
    /// Callee patterns of an exactly matching return address.
    pub patterns: Vec<&'data [u8]>,
}

impl<'data> View for Lookup<'data> {
    type V = LookupView;

    open spec fn view(&self) -> LookupView {
        LookupView {
            address: self.address,
            function: self.function,
            frames: frame_views(self.resolved@),
            call_site_patterns: slice_views(self.patterns@),
        }
    }
}

impl<'data> Lookup<'data> {
    /// Returns resolved frames ordered from innermost to outermost.
    pub fn frames(&self) -> (frames: &[LookupFrame<'data>])
        ensures
            frame_views(frames@) == self@.frames,
    {
        self.resolved.as_slice()
    }

    /// Returns call-site callee patterns for an exactly matching return address.
    pub fn call_site_patterns(&self) -> (patterns: &[&'data [u8]])
        ensures
            slice_views(patterns@) == self@.call_site_patterns,
    {
        self.patterns.as_slice()
    }
}

} // verus!
