//! Function records: the line table, inline tree, merged functions and call
//! sites of one function.
use vstd::prelude::*;
use crate::endian;
use crate::endian::{Cursor, Encoder, Endian};
use crate::error::Error;
use crate::bytes;
use crate::format::callsite;
use crate::format::inline_tree;
use crate::format::line;
use crate::format::{ INFO_CALL_SITE, INFO_END, INFO_INLINE, INFO_LINE_TABLE, INFO_MERGED};
use crate::model::{AddressRange, LineEntry};

verus! {

/// Deepest nesting of inline calls that is read or written.
pub const MAX_INLINE_DEPTH: usize = 256;

/// Deepest nesting of merged functions that is read or written.
pub const MAX_MERGED_DEPTH: usize = 256;

/// The error of an inline tree that nests too deeply, if it does.
pub open spec fn inline_depth_error(depth: nat) -> Option<Error> {
    if depth > MAX_INLINE_DEPTH {
        Some(
            Error::Limit {
                context: "inline tree depth",
                value: depth as u64,
                limit: MAX_INLINE_DEPTH as u64,
            },
        )
    } else {
        None
    }
}

/// The error of merged functions that nest too deeply, if they do.
pub open spec fn merged_depth_error(depth: nat) -> Option<Error> {
    if depth > MAX_MERGED_DEPTH {
        Some(
            Error::Limit {
                context: "merged function depth",
                value: depth as u64,
                limit: MAX_MERGED_DEPTH as u64,
            },
        )
    } else {
        None
    }
}

/// Checks the nesting depth of an inline node.
pub fn check_inline_depth(depth: usize) -> (result: Result<(), Error>)
    ensures
        result == (match inline_depth_error(depth as nat) {
            Some(error) => Err::<(), Error>(error),
            None => Ok(()),
        }),
{
    if depth > MAX_INLINE_DEPTH {
        Err(
            Error::Limit {
                context: "inline tree depth",
                value: depth as u64,
                limit: MAX_INLINE_DEPTH as u64,
            },
        )
    } else {
        Ok(())
    }
}

/// Checks the nesting depth of a merged function.
pub fn check_merged_depth(depth: usize) -> (result: Result<(), Error>)
    ensures
        result == (match merged_depth_error(depth as nat) {
            Some(error) => Err::<(), Error>(error),
            None => Ok(()),
        }),
{
    if depth > MAX_MERGED_DEPTH {
        Err(
            Error::Limit {
                context: "merged function depth",
                value: depth as u64,
                limit: MAX_MERGED_DEPTH as u64,
            },
        )
    } else {
        Ok(())
    }
}

/// Type of a record behind a function's name.
#[derive(Clone, Copy, Debug, PartialEq, Eq, Structural)]
pub enum InfoType {
    /// Line table.
    LineTable,
    /// Inline tree.
    Inline,
    /// Merged functions.
    Merged,
    /// Call sites.
    CallSite,
    /// A type without a meaning here.
    Unknown(u32),
}

impl InfoType {
    /// The record type with the number `value`.
    pub open spec fn spec_from_raw(value: u32) -> Self {
        if value == INFO_LINE_TABLE {
            InfoType::LineTable
        } else if value == INFO_INLINE {
            InfoType::Inline
        } else if value == INFO_MERGED {
            InfoType::Merged
        } else if value == INFO_CALL_SITE {
            InfoType::CallSite
        } else {
            InfoType::Unknown(value)
        }
    }

    fn from_raw(value: u32) -> (kind: Self)
        ensures
            kind == Self::spec_from_raw(value),
    {
        if value == INFO_LINE_TABLE {
            InfoType::LineTable
        } else if value == INFO_INLINE {
            InfoType::Inline
        } else if value == INFO_MERGED {
            InfoType::Merged
        } else if value == INFO_CALL_SITE {
            InfoType::CallSite
        } else {
            InfoType::Unknown(value)
        }
    }
}

/// One record of a function.
#[derive(Clone, Copy, Debug)]
pub struct InfoRecord<'data> {
    /// What the record holds.
    pub kind: InfoType,
    /// The bytes of the record.
    pub payload: &'data [u8],
}

/// The record types that a function was seen to hold.
#[derive(Clone, Copy, Debug, PartialEq, Eq, Structural)]
pub struct RecordSet {
    /// A line table was seen.
    pub line_table: bool,
    /// An inline tree was seen.
    pub inline: bool,
    /// Merged functions were seen.
    pub merged: bool,
    /// Call sites were seen.
    pub call_site: bool,
}

impl RecordSet {
    /// No record was seen.
    pub open spec fn empty() -> Self {
        RecordSet { line_table: false, inline: false, merged: false, call_site: false }
    }

    /// The set with `kind` added, or the error of a type that is in it already.
    pub open spec fn with(self, kind: InfoType) -> Result<Self, Error> {
        match kind {
            InfoType::LineTable => if self.line_table {
                Err(Error::InvalidFormat("duplicate line-table record"))
            } else {
                Ok(RecordSet { line_table: true, ..self })
            },
            InfoType::Inline => if self.inline {
                Err(Error::InvalidFormat("duplicate inline-info record"))
            } else {
                Ok(RecordSet { inline: true, ..self })
            },
            InfoType::Merged => if self.merged {
                Err(Error::InvalidFormat("duplicate merged-functions record"))
            } else {
                Ok(RecordSet { merged: true, ..self })
            },
            InfoType::CallSite => if self.call_site {
                Err(Error::InvalidFormat("duplicate call-site record"))
            } else {
                Ok(RecordSet { call_site: true, ..self })
            },
            InfoType::Unknown(_) => Ok(self),
        }
    }

    /// An empty set.
    pub fn new() -> (set: Self)
        ensures
            set == Self::empty(),
    {
        RecordSet { line_table: false, inline: false, merged: false, call_site: false }
    }

    /// Adds a record type that must not be in the set yet.
    pub fn observe(&mut self, kind: InfoType) -> (result: Result<(), Error>)
        ensures
            match old(self).with(kind) {
                Ok(set) => result == Ok::<(), Error>(()) && *final(self) == set,
                Err(error) => result == Err::<(), Error>(error) && *final(self) == *old(self),
            },
    {
        match kind {
            InfoType::LineTable => {
                if self.line_table {
                    return Err(Error::InvalidFormat("duplicate line-table record"));
                }
                self.line_table = true;
            },
            InfoType::Inline => {
                if self.inline {
                    return Err(Error::InvalidFormat("duplicate inline-info record"));
                }
                self.inline = true;
            },
            InfoType::Merged => {
                if self.merged {
                    return Err(Error::InvalidFormat("duplicate merged-functions record"));
                }
                self.merged = true;
            },
            InfoType::CallSite => {
                if self.call_site {
                    return Err(Error::InvalidFormat("duplicate call-site record"));
                }
                self.call_site = true;
            },
            InfoType::Unknown(_) => {},
        }
        Ok(())
    }
}

/// The error of taking `count` bytes at `pos` where fewer are left.
pub open spec fn take_error(s: Seq<u8>, pos: int, count: int) -> Error {
    if pos + count > usize::MAX {
        Error::Overflow("cursor end offset")
    } else {
        endian::eof_at(s, pos, count)
    }
}

/// Outcome of taking `count` bytes at `pos`.
pub open spec fn take_at(s: Seq<u8>, pos: int, count: int) -> Result<(Seq<u8>, int), Error> {
    if pos + count > s.len() {
        Err(take_error(s, pos, count))
    } else {
        Ok((s.subrange(pos, pos + count), pos + count))
    }
}

/// A record as read: its number and its bytes.
pub struct RecordView {
    /// What the record holds.
    pub kind: InfoType,
    /// The bytes of the record.
    pub payload: Seq<u8>,
}

/// Outcome of reading the record at `pos`; none at the end marker.
pub open spec fn record_at(s: Seq<u8>, pos: int, endian: Endian) -> Result<
    (Option<RecordView>, int),
    Error,
> {
    match endian::uint_at(s, pos, 4, endian) {
        Err(error) => Err(error),
        Ok((kind, p1)) => match endian::uint_at(s, p1, 4, endian) {
            Err(error) => Err(error),
            Ok((length, p2)) => if kind == INFO_END {
                if length != 0 {
                    Err(Error::InvalidFormat("FunctionInfo end marker has a nonzero length"))
                } else {
                    Ok((None, p2))
                }
            } else {
                match take_at(s, p2, length as int) {
                    Err(error) => Err(error),
                    Ok((payload, p3)) => Ok(
                        (
                            Some(
                                RecordView { kind: InfoType::spec_from_raw(kind as u32), payload },
                            ),
                            p3,
                        ),
                    ),
                }
            },
        },
    }
}

/// Reads the next record, or nothing at the end marker.
pub fn next_record<'data>(cursor: &mut Cursor<'data>) -> (result: Result<
    Option<InfoRecord<'data>>,
    Error,
>)
    requires
        old(cursor).wf(),
    ensures
        final(cursor).wf(),
        final(cursor).same_input(*old(cursor)),
        match record_at(old(cursor).bytes@, old(cursor).position as int, old(cursor).endian) {
            Ok((Some(view), end)) => {
                &&& result matches Ok(Some(record))
                &&& record.kind == view.kind
                &&& record.payload@ == view.payload
                &&& final(cursor).position == end
            },
            Ok((None, end)) => {
                &&& result matches Ok(None)
                &&& final(cursor).position == end
            },
            Err(error) => result == Err::<Option<InfoRecord<'data>>, Error>(error),
        },
{
    let raw_kind: u32 = cursor.read_u32()?;
    let raw_length: u32 = cursor.read_u32()?;
    let length: usize = raw_length as usize;
    if raw_kind == INFO_END {
        if length != 0 {
            return Err(Error::InvalidFormat("FunctionInfo end marker has a nonzero length"));
        }
        return Ok(None);
    }
    let payload = cursor.take(length)?;
    Ok(Some(InfoRecord { kind: InfoType::from_raw(raw_kind), payload }))
}

/// What an encoded inline tree says.
pub struct EncodedInlineView {
    /// Address ranges.
    pub ranges: Seq<AddressRange>,
    /// String offset of the name.
    pub name: u64,
    /// File of the call.
    pub call_file: u32,
    /// Line of the call.
    pub call_line: u32,
    /// Nested calls.
    pub children: Seq<EncodedInlineView>,
}

/// An inline tree whose names are string offsets.
#[derive(Debug, PartialEq, Eq)]
pub struct EncodedInlineNode {
    /// Sorted, disjoint address ranges.
    pub ranges: Vec<AddressRange>,
    /// String offset of the name.
    pub name: u64,
    /// File of the call in the parent.
    pub call_file: u32,
    /// Line of the call in the parent.
    pub call_line: u32,
    /// Nested calls.
    pub children: Vec<EncodedInlineNode>,
}

/// What an encoded inline tree says.
pub open spec fn encoded_inline_view(node: EncodedInlineNode) -> EncodedInlineView
    decreases node,
{
    EncodedInlineView {
        ranges: node.ranges@,
        name: node.name,
        call_file: node.call_file,
        call_line: node.call_line,
        children: Seq::new(
            node.children@.len(),
            |i: int|
                if 0 <= i < node.children@.len() {
                    encoded_inline_view(node.children@[i])
                } else {
                    arbitrary()
                },
        ),
    }
}

/// What the nodes of a list say.
pub open spec fn encoded_inline_views(nodes: Seq<EncodedInlineNode>) -> Seq<EncodedInlineView> {
    Seq::new(nodes.len(), |i: int| encoded_inline_view(nodes[i]))
}

/// A node's view, one level at a time.
pub proof fn lemma_encoded_inline_view(node: EncodedInlineNode)
    ensures
        encoded_inline_view(node) == (EncodedInlineView {
            ranges: node.ranges@,
            name: node.name,
            call_file: node.call_file,
            call_line: node.call_line,
            children: encoded_inline_views(node.children@),
        }),
{
    assert(encoded_inline_view(node).children =~= encoded_inline_views(node.children@));
}

impl View for EncodedInlineNode {
    type V = EncodedInlineView;

    open spec fn view(&self) -> EncodedInlineView {
        encoded_inline_view(*self)
    }
}

/// A node without a range: it ends a list of siblings.
pub open spec fn terminator() -> EncodedInlineView {
    EncodedInlineView {
        ranges: Seq::empty(),
        name: 0,
        call_file: 0,
        call_line: 0,
        children: Seq::empty(),
    }
}

impl Default for EncodedInlineNode {
    fn default() -> (node: Self)
        ensures
            node@ == terminator(),
    {
        let node = EncodedInlineNode {
            ranges: Vec::new(),
            name: 0,
            call_file: 0,
            call_line: 0,
            children: Vec::new(),
        };
        proof {
            lemma_encoded_inline_view(node);
            assert(encoded_inline_views(node.children@) =~= Seq::<EncodedInlineView>::empty());
        }
        node
    }
}

/// What an encoded call site says.
pub struct EncodedCallSiteView {
    /// Return-address offset.
    pub return_offset: u64,
    /// Flag bits.
    pub flags: u8,
    /// String offsets of the callee patterns.
    pub match_regex: Seq<u64>,
}

/// A call site whose patterns are string offsets.
#[derive(Debug, PartialEq, Eq)]
pub struct EncodedCallSite {
    /// Return-address offset relative to the function start.
    pub return_offset: u64,
    /// Flag bits.
    pub flags: u8,
    /// String offsets of the callee patterns.
    pub match_regex: Vec<u64>,
}

impl View for EncodedCallSite {
    type V = EncodedCallSiteView;

    open spec fn view(&self) -> EncodedCallSiteView {
        EncodedCallSiteView {
            return_offset: self.return_offset,
            flags: self.flags,
            match_regex: self.match_regex@,
        }
    }
}

impl Default for EncodedCallSite {
    fn default() -> (site: Self)
        ensures
            site@ == (EncodedCallSiteView { return_offset: 0, flags: 0, match_regex: Seq::empty() }),
    {
        EncodedCallSite { return_offset: 0, flags: 0, match_regex: Vec::new() }
    }
}

/// What the call sites of a list say.
pub open spec fn encoded_call_site_views(sites: Seq<EncodedCallSite>) -> Seq<EncodedCallSiteView> {
    Seq::new(sites.len(), |i: int| sites[i]@)
}

/// What an encoded function says.
pub struct EncodedFunctionView {
    /// Address range.
    pub range: AddressRange,
    /// String offset of the name.
    pub name: u64,
    /// Line rows, when there is a line table.
    pub lines: Option<Seq<LineEntry>>,
    /// Inline tree, when there is one.
    pub inline: Option<EncodedInlineView>,
    /// Merged functions.
    pub merged: Seq<EncodedFunctionView>,
    /// Call sites.
    pub call_sites: Seq<EncodedCallSiteView>,
}

/// A function whose names are string offsets.
#[derive(Debug, PartialEq, Eq)]
pub struct EncodedFunction {
    /// Address range.
    pub range: AddressRange,
    /// String offset of the name.
    pub name: u64,
    /// Line rows, when there is a line table.
    pub lines: Option<Vec<LineEntry>>,
    /// Inline tree, when there is one.
    pub inline: Option<EncodedInlineNode>,
    /// Merged functions.
    pub merged: Vec<EncodedFunction>,
    /// Call sites.
    pub call_sites: Vec<EncodedCallSite>,
}

/// What an optional line table says.
pub open spec fn lines_option_view(lines: Option<Vec<LineEntry>>) -> Option<Seq<LineEntry>> {
    match lines {
        Some(lines) => Some(lines@),
        None => None,
    }
}

/// What an optional inline tree says.
pub open spec fn encoded_inline_option_view(node: Option<EncodedInlineNode>) -> Option<
    EncodedInlineView,
> {
    match node {
        Some(node) => Some(encoded_inline_view(node)),
        None => None,
    }
}

/// What an encoded function says.
pub open spec fn encoded_function_view(function: EncodedFunction) -> EncodedFunctionView
    decreases function,
{
    EncodedFunctionView {
        range: function.range,
        name: function.name,
        lines: lines_option_view(function.lines),
        inline: encoded_inline_option_view(function.inline),
        merged: Seq::new(
            function.merged@.len(),
            |i: int|
                if 0 <= i < function.merged@.len() {
                    encoded_function_view(function.merged@[i])
                } else {
                    arbitrary()
                },
        ),
        call_sites: encoded_call_site_views(function.call_sites@),
    }
}

/// What the functions of a list say.
pub open spec fn encoded_function_views(functions: Seq<EncodedFunction>) -> Seq<
    EncodedFunctionView,
> {
    Seq::new(functions.len(), |i: int| encoded_function_view(functions[i]))
}

/// A function's view, one level at a time.
pub proof fn lemma_encoded_function_view(function: EncodedFunction)
    ensures
        encoded_function_view(function) == (EncodedFunctionView {
            range: function.range,
            name: function.name,
            lines: lines_option_view(function.lines),
            inline: encoded_inline_option_view(function.inline),
            merged: encoded_function_views(function.merged@),
            call_sites: encoded_call_site_views(function.call_sites@),
        }),
{
    assert(encoded_function_view(function).merged =~= encoded_function_views(function.merged@));
}

impl View for EncodedFunction {
    type V = EncodedFunctionView;

    open spec fn view(&self) -> EncodedFunctionView {
        encoded_function_view(*self)
    }
}

/// A function with a range and a name and no records.
pub open spec fn bare_function(range: AddressRange, name: u64) -> EncodedFunctionView {
    EncodedFunctionView {
        range,
        name,
        lines: None,
        inline: None,
        merged: Seq::empty(),
        call_sites: Seq::empty(),
    }
}

impl EncodedFunction {
    /// A function with a range and a name and no records.
    pub fn bare(range: AddressRange, name: u64) -> (function: Self)
        ensures
            function@ == bare_function(range, name),
    {
        let function = EncodedFunction {
            range,
            name,
            lines: None,
            inline: None,
            merged: Vec::new(),
            call_sites: Vec::new(),
        };
        proof {
            lemma_encoded_function_view(function);
            assert(encoded_function_views(function.merged@) =~= Seq::<EncodedFunctionView>::empty());
            assert(encoded_call_site_views(function.call_sites@) =~= Seq::<
                EncodedCallSiteView,
            >::empty());
        }
        function
    }
}

impl Default for EncodedFunction {
    fn default() -> (function: Self)
        ensures
            function@ == bare_function(AddressRange { start: 0, end: 0 }, 0),
    {
        EncodedFunction::bare(AddressRange { start: 0, end: 0 }, 0)
    }
}

/// The error of a string-offset width that is not 1, 2, 4 or 8, if it is not.
pub open spec fn string_offset_size_error(size: u8) -> Option<Error> {
    if size == 1 || size == 2 || size == 4 || size == 8 {
        None
    } else {
        Some(Error::OutOfRange { field: "string offset size", value: size as u64, max: 8 })
    }
}

fn validate_string_offset_size(size: u8) -> (result: Result<(), Error>)
    ensures
        result == (match string_offset_size_error(size) {
            Some(error) => Err::<(), Error>(error),
            None => Ok(()),
        }),
{
    if size == 1 || size == 2 || size == 4 || size == 8 {
        Ok(())
    } else {
        Err(Error::OutOfRange { field: "string offset size", value: size as u64, max: 8 })
    }
}

/// Whether each of `ranges` lies in one of `parents`.
pub open spec fn contained(ranges: Seq<AddressRange>, parents: Seq<AddressRange>) -> bool {
    forall|i: int| 0 <= i < ranges.len() ==> covered(#[trigger] ranges[i], parents)
}

/// Whether `range` lies in one of `parents`.
pub open spec fn covered(range: AddressRange, parents: Seq<AddressRange>) -> bool {
    exists|j: int| 0 <= j < parents.len() && (#[trigger] parents[j]).spec_contains_range(range)
}

/// Whether `range` lies in one of `parents`.
pub fn is_covered(range: AddressRange, parents: &Vec<AddressRange>) -> (result: bool)
    ensures
        result == covered(range, parents@),
{
    let mut j: usize = 0;
    while j < parents.len()
        invariant
            j <= parents@.len(),
            forall|k: int|
                0 <= k < j ==> !(#[trigger] parents@[k]).spec_contains_range(range),
        decreases parents@.len() - j,
    {
        if parents[j].contains_range(range) {
            return true;
        }
        j = j + 1;
    }
    false
}

/// Whether each of `ranges` lies in one of `parents`.
pub fn is_contained(ranges: &Vec<AddressRange>, parents: &Vec<AddressRange>) -> (result: bool)
    ensures
        result == contained(ranges@, parents@),
{
    let mut i: usize = 0;
    while i < ranges.len()
        invariant
            i <= ranges@.len(),
            forall|k: int| 0 <= k < i ==> covered(#[trigger] ranges@[k], parents@),
        decreases ranges@.len() - i,
    {
        if !is_covered(ranges[i], parents) {
            assert(!covered(ranges@[i as int], parents@));
            return false;
        }
        i = i + 1;
    }
    true
}

/// The inline tree of the record `s` of a function that starts at `base`.
#[verifier::opaque]
pub open spec fn inline_decoded(s: Seq<u8>, width: u8, endian: Endian, base: u64) -> Result<
    EncodedInlineView,
    Error,
> {
    match inline_tree::inline_at(s, 0, width, endian, base, 0) {
        Err(error) => Err(error),
        Ok((node, end)) => if node.ranges.len() == 0 {
            Err(Error::InvalidFormat("top-level inline info has no address ranges"))
        } else if end < s.len() {
            Err(Error::InvalidFormat("trailing inline-info bytes"))
        } else {
            Ok(node)
        },
    }
}

/// The function so far with the content of one record added.
pub open spec fn with_record(
    function: EncodedFunctionView,
    record: RecordView,
    width: u8,
    endian: Endian,
    base: u64,
) -> Result<EncodedFunctionView, Error>
    decreases record.payload.len(), 5int, 0int,
{
    match record.kind {
        InfoType::LineTable => match line::decoded(record.payload, base) {
            Err(error) => Err(error),
            Ok(rows) => Ok(EncodedFunctionView { lines: Some(rows), ..function }),
        },
        InfoType::Inline => match inline_decoded(record.payload, width, endian, base) {
            Err(error) => Err(error),
            Ok(node) => Ok(EncodedFunctionView { inline: Some(node), ..function }),
        },
        InfoType::Merged => match merged_decoded(record.payload, width, endian, base) {
            Err(error) => Err(error),
            Ok(merged) => Ok(EncodedFunctionView { merged, ..function }),
        },
        InfoType::CallSite => match callsite::call_sites_decoded(record.payload, width, endian) {
            Err(error) => Err(error),
            Ok(call_sites) => Ok(EncodedFunctionView { call_sites, ..function }),
        },
        InfoType::Unknown(other) => Err(Error::UnsupportedInfoType(other)),
    }
}

/// Outcome of reading the records at `pos` of a function, behind the records
/// `seen` that made up `function`.
pub open spec fn records_at(
    s: Seq<u8>,
    pos: int,
    width: u8,
    endian: Endian,
    function: EncodedFunctionView,
    seen: RecordSet,
) -> Result<(EncodedFunctionView, int), Error>
    decreases s.len(), 2int, s.len() - pos,
    when 0 <= pos <= s.len()
{
    match record_at(s, pos, endian) {
        Err(error) => Err(error),
        Ok((None, end)) => Ok((function, end)),
        Ok((Some(record), end)) => match seen.with(record.kind) {
            Err(error) => Err(error),
            Ok(set) => match with_record(function, record, width, endian, function.range.start) {
                Err(error) => Err(error),
                Ok(next) => records_at(s, end, width, endian, next, set),
            },
        },
    }
}

/// Outcome of reading the function at `pos` whose address is `base`.
pub open spec fn function_at(s: Seq<u8>, pos: int, width: u8, endian: Endian, base: u64) -> Result<
    (EncodedFunctionView, int),
    Error,
>
    decreases s.len(), 3int, 0int,
    when 0 <= pos <= s.len()
{
    match string_offset_size_error(width) {
        Some(error) => Err(error),
        None => match endian::uint_at(s, pos, 4, endian) {
            Err(error) => Err(error),
            Ok((size, p1)) => match endian::uint_at(s, p1, width as int, endian) {
                Err(error) => Err(error),
                Ok((name, p2)) => if name == 0 {
                    Err(Error::ZeroNameOffset)
                } else if base + size > u64::MAX {
                    Err(Error::Overflow("FunctionInfo range end"))
                } else {
                    records_at(
                        s,
                        p2,
                        width,
                        endian,
                        bare_function(AddressRange { start: base, end: (base + size) as u64 }, name),
                        RecordSet::empty(),
                    )
                },
            },
        },
    }
}

/// The function that `s` holds and nothing else.
pub open spec fn function_exact(s: Seq<u8>, width: u8, endian: Endian, base: u64) -> Result<
    EncodedFunctionView,
    Error,
>
    decreases s.len(), 4int, 0int,
{
    match function_at(s, 0, width, endian, base) {
        Err(error) => Err(error),
        Ok((function, end)) => if end < s.len() {
            Err(Error::InvalidFormat("bytes remain after the FunctionInfo end marker"))
        } else {
            Ok(function)
        },
    }
}

/// Outcome of reading `count` more merged functions at `pos`, each behind its
/// length.
pub open spec fn merged_from(
    s: Seq<u8>,
    pos: int,
    width: u8,
    endian: Endian,
    base: u64,
    count: nat,
    done: Seq<EncodedFunctionView>,
) -> Result<(Seq<EncodedFunctionView>, int), Error>
    decreases s.len(), 0int, count,
    when 0 <= pos <= s.len()
{
    if count == 0 {
        Ok((done, pos))
    } else {
        match endian::uint_at(s, pos, 4, endian) {
            Err(error) => Err(error),
            Ok((length, p1)) => match take_at(s, p1, length as int) {
                Err(error) => Err(error),
                Ok((data, p2)) => match function_exact(data, width, endian, base) {
                    Err(error) => Err(error),
                    Ok(function) => merged_from(
                        s,
                        p2,
                        width,
                        endian,
                        base,
                        (count - 1) as nat,
                        done.push(function),
                    ),
                },
            },
        }
    }
}

/// The merged functions of the record `s`.
pub open spec fn merged_decoded(s: Seq<u8>, width: u8, endian: Endian, base: u64) -> Result<
    Seq<EncodedFunctionView>,
    Error,
>
    decreases s.len(), 1int, 0int,
{
    match endian::uint_at(s, 0, 4, endian) {
        Err(error) => Err(error),
        Ok((count, p1)) => if count > (s.len() - p1) / 4 {
            Err(Error::InvalidFormat("merged-function count exceeds remaining input"))
        } else {
            match merged_from(s, p1, width, endian, base, count as nat, Seq::empty()) {
                Err(error) => Err(error),
                Ok((functions, end)) => if end < s.len() {
                    Err(Error::InvalidFormat("trailing merged-function bytes"))
                } else {
                    Ok(functions)
                },
            }
        },
    }
}

/// A record that was read ends behind its eight bytes of type and length.
pub proof fn lemma_record_advances(s: Seq<u8>, pos: int, endian: Endian)
    requires
        0 <= pos <= s.len(),
    ensures
        record_at(s, pos, endian) matches Ok((record, end)) ==> {
            &&& pos + 8 <= end <= s.len()
            &&& record matches Some(view) ==> view.payload.len() <= end - pos - 8
        },
{
}

/// Reads the function that a cursor stands at.
pub fn decode_from(cursor: &mut Cursor<'_>, string_offset_size: u8, base: u64) -> (result: Result<
    EncodedFunction,
    Error,
>)
    requires
        old(cursor).wf(),
    ensures
        final(cursor).wf(),
        final(cursor).same_input(*old(cursor)),
        match function_at(
            old(cursor).bytes@,
            old(cursor).position as int,
            string_offset_size,
            old(cursor).endian,
            base,
        ) {
            Ok((view, end)) => {
                &&& result matches Ok(function)
                &&& function@ == view
                &&& final(cursor).position == end
            },
            Err(error) => result == Err::<EncodedFunction, Error>(error),
        },
    decreases old(cursor).bytes@.len(), 3int,
{
    validate_string_offset_size(string_offset_size)?;
    let size: u64 = cursor.read_u32()? as u64;
    let name: u64 = cursor.read_uint(string_offset_size)?;
    if name == 0 {
        return Err(Error::ZeroNameOffset);
    }
    let end: u64 = match base.checked_add(size) {
        Some(end) => end,
        None => return Err(Error::Overflow("FunctionInfo range end")),
    };
    let mut function = EncodedFunction::bare(AddressRange { start: base, end }, name);
    let mut seen = RecordSet::new();
    let ghost s = cursor.bytes@;
    let ghost endian = cursor.endian;
    loop
        invariant
            cursor.wf(),
            cursor.bytes@ == s,
            cursor.endian == endian,
            s == old(cursor).bytes@,
            endian == old(cursor).endian,
            string_offset_size_error(string_offset_size) is None,
            function@.range.start == base,
            function_at(s, old(cursor).position as int, string_offset_size, endian, base)
                == records_at(
                s,
                cursor.position as int,
                string_offset_size,
                endian,
                function@,
                seen,
            ),
        decreases s.len() - cursor.position,
    {
        proof {
            lemma_record_advances(s, cursor.position as int, endian);
        }
        let record = match next_record(cursor)? {
            Some(record) => record,
            None => return Ok(function),
        };
        seen.observe(record.kind)?;
        function = add_record(function, record, string_offset_size, cursor.endian(), base)?;
    }
}

/// Adds the content of one record to a function.
fn add_record(
    function: EncodedFunction,
    record: InfoRecord<'_>,
    string_offset_size: u8,
    endian: Endian,
    base: u64,
) -> (result: Result<EncodedFunction, Error>)
    requires
        string_offset_size_error(string_offset_size) is None,
    ensures
        match with_record(
            function@,
            RecordView { kind: record.kind, payload: record.payload@ },
            string_offset_size,
            endian,
            base,
        ) {
            Ok(view) => result matches Ok(next) && next@ == view && view.range == function@.range,
            Err(error) => result == Err::<EncodedFunction, Error>(error),
        },
    decreases record.payload@.len(), 2int,
{
    let mut function = function;
    let payload = record.payload;
    proof {
        lemma_encoded_function_view(function);
    }
    match record.kind {
        InfoType::LineTable => {
            let rows = line::decode(payload, endian, base)?;
            function.lines = Some(rows);
        },
        InfoType::Inline => {
            proof {
                reveal(inline_decoded);
            }
            let mut data = Cursor::new(payload, endian);
            let node = inline_tree::decode_inline(&mut data, string_offset_size, base, 0)?;
            proof {
                lemma_encoded_inline_view(node);
            }
            if node.ranges.len() == 0 {
                return Err(Error::InvalidFormat("top-level inline info has no address ranges"));
            }
            if !data.is_empty() {
                return Err(Error::InvalidFormat("trailing inline-info bytes"));
            }
            function.inline = Some(node);
        },
        InfoType::Merged => {
            let merged = decode_merged(payload, endian, string_offset_size, base)?;
            function.merged = merged;
        },
        InfoType::CallSite => {
            let call_sites = callsite::decode_call_sites(payload, endian, string_offset_size)?;
            function.call_sites = call_sites;
        },
        InfoType::Unknown(other) => return Err(Error::UnsupportedInfoType(other)),
    }
    proof {
        lemma_encoded_function_view(function);
    }
    Ok(function)
}

/// Decodes the function at the start of `bytes`.
pub fn decode(bytes: &[u8], endian: Endian, string_offset_size: u8, base: u64) -> (result: Result<
    EncodedFunction,
    Error,
>)
    ensures
        match function_at(bytes@, 0, string_offset_size, endian, base) {
            Ok((view, _)) => result matches Ok(function) && function@ == view,
            Err(error) => result == Err::<EncodedFunction, Error>(error),
        },
{
    let mut cursor = Cursor::new(bytes, endian);
    decode_from(&mut cursor, string_offset_size, base)
}

/// Decodes the function that makes up the whole of `bytes`.
pub fn decode_exact(bytes: &[u8], endian: Endian, string_offset_size: u8, base: u64) -> (result:
    Result<EncodedFunction, Error>)
    ensures
        match function_exact(bytes@, string_offset_size, endian, base) {
            Ok(view) => result matches Ok(function) && function@ == view,
            Err(error) => result == Err::<EncodedFunction, Error>(error),
        },
    decreases bytes@.len(), 4int,
{
    let mut cursor = Cursor::new(bytes, endian);
    let function = decode_from(&mut cursor, string_offset_size, base)?;
    if !cursor.is_empty() {
        return Err(Error::InvalidFormat("bytes remain after the FunctionInfo end marker"));
    }
    Ok(function)
}

fn decode_merged(bytes: &[u8], endian: Endian, string_offset_size: u8, base: u64) -> (result:
    Result<Vec<EncodedFunction>, Error>)
    ensures
        match merged_decoded(bytes@, string_offset_size, endian, base) {
            Ok(views) => result matches Ok(functions) && encoded_function_views(functions@)
                == views,
            Err(error) => result == Err::<Vec<EncodedFunction>, Error>(error),
        },
    decreases bytes@.len(), 1int,
{
    let mut cursor = Cursor::new(bytes, endian);
    let count: usize = cursor.read_u32()? as usize;
    if count > cursor.remaining() / 4 {
        return Err(Error::InvalidFormat("merged-function count exceeds remaining input"));
    }
    let ghost expected = merged_from(
        bytes@,
        4,
        string_offset_size,
        endian,
        base,
        count as nat,
        Seq::empty(),
    );
    let mut functions: Vec<EncodedFunction> = Vec::with_capacity(count);
    let mut i: usize = 0;
    assert(encoded_function_views(functions@) =~= Seq::<EncodedFunctionView>::empty());
    while i < count
        invariant
            i <= count,
            cursor.wf(),
            cursor.bytes@ == bytes@,
            cursor.endian == endian,
            merged_decoded(bytes@, string_offset_size, endian, base) == (match expected {
                Ok((views, end)) => if end < bytes@.len() {
                    Err::<Seq<EncodedFunctionView>, Error>(
                        Error::InvalidFormat("trailing merged-function bytes"),
                    )
                } else {
                    Ok(views)
                },
                Err(error) => Err(error),
            }),
            expected == merged_from(
                bytes@,
                cursor.position as int,
                string_offset_size,
                endian,
                base,
                (count - i) as nat,
                encoded_function_views(functions@),
            ),
        decreases count - i,
    {
        let ghost before = encoded_function_views(functions@);
        let length: usize = cursor.read_u32()? as usize;
        let data = cursor.take(length)?;
        let function = decode_exact(data, endian, string_offset_size, base)?;
        functions.push(function);
        assert(encoded_function_views(functions@) =~= before.push(function@));
        i = i + 1;
    }
    if !cursor.is_empty() {
        return Err(Error::InvalidFormat("trailing merged-function bytes"));
    }
    Ok(functions)
}

/// The bytes of a record with the given payload.
pub open spec fn record_bytes(kind: u32, payload: Result<Seq<u8>, Error>, endian: Endian) -> Result<
    Seq<u8>,
    Error,
> {
    match payload {
        Err(error) => Err(error),
        Ok(part) => if part.len() > u32::MAX {
            Err(
                Error::Limit {
                    context: "FunctionInfo record",
                    value: part.len() as u64,
                    limit: u32::MAX as u64,
                },
            )
        } else {
            Ok(
                bytes::uint_bytes(kind as nat, 4, endian) + bytes::uint_bytes(part.len(), 4, endian)
                    + part,
            )
        },
    }
}

/// The bytes of the line-table record, where there is one.
#[verifier::opaque]
pub open spec fn lines_record(function: EncodedFunctionView, endian: Endian) -> Result<
    Seq<u8>,
    Error,
> {
    match function.lines {
        None => Ok(Seq::empty()),
        Some(lines) => record_bytes(
            INFO_LINE_TABLE,
            line::encoded(lines, function.range.start),
            endian,
        ),
    }
}

/// The payload of the inline record of a function that starts at `base`.
#[verifier::opaque]
pub open spec fn inline_encoded(
    node: EncodedInlineView,
    width: u8,
    endian: Endian,
    base: u64,
) -> Result<Seq<u8>, Error> {
    inline_tree::inline_bytes(node, width, endian, base, 0)
}

/// Decoding the payload of an inline record gives back the inline tree.
pub proof fn law_inline_record_round_trip(
    node: EncodedInlineView,
    width: u8,
    endian: Endian,
    base: u64,
)
    requires
        inline_encoded(node, width, endian, base) is Ok,
        inline_encoded(node, width, endian, base)->Ok_0.len() <= usize::MAX,
    ensures
        inline_decoded(inline_encoded(node, width, endian, base)->Ok_0, width, endian, base)
            == Ok::<EncodedInlineView, Error>(node),
{
    reveal(inline_encoded);
    reveal(inline_decoded);
    let payload = inline_tree::inline_bytes(node, width, endian, base, 0)->Ok_0;
    assert(payload.subrange(0, payload.len() as int) =~= payload);
    inline_tree::law_inline_round_trip(payload, 0, node, width, endian, base, 0);
}

/// The bytes of the inline record, where there is one.
#[verifier::opaque]
pub open spec fn inline_record(function: EncodedFunctionView, width: u8, endian: Endian) -> Result<
    Seq<u8>,
    Error,
> {
    match function.inline {
        None => Ok(Seq::empty()),
        Some(node) => record_bytes(
            INFO_INLINE,
            inline_encoded(node, width, endian, function.range.start),
            endian,
        ),
    }
}

/// The bytes of the call-site record, where there is one.
#[verifier::opaque]
pub open spec fn call_sites_record(
    function: EncodedFunctionView,
    width: u8,
    endian: Endian,
) -> Result<Seq<u8>, Error> {
    if function.call_sites.len() == 0 {
        Ok(Seq::empty())
    } else {
        record_bytes(
            INFO_CALL_SITE,
            callsite::call_sites_bytes(function.call_sites, width, endian),
            endian,
        )
    }
}

/// The bytes of the marker behind the last record.
pub open spec fn end_bytes(endian: Endian) -> Seq<u8> {
    bytes::uint_bytes(INFO_END as nat, 4, endian) + bytes::uint_bytes(0, 4, endian)
}

/// The error of a function whose size and name cannot be written, if they
/// cannot.
pub open spec fn function_head_error(function: EncodedFunctionView) -> Option<Error> {
    if function.name == 0 {
        Some(Error::ZeroNameOffset)
    } else if function.range.end < function.range.start {
        Some(Error::InvalidModel("function range end precedes its start"))
    } else if function.range.end - function.range.start > u32::MAX {
        Some(
            Error::Limit {
                context: "FunctionInfo size",
                value: (function.range.end - function.range.start) as u64,
                limit: u32::MAX as u64,
            },
        )
    } else {
        None
    }
}

/// The bytes of a function's size and name.
#[verifier::opaque]
pub open spec fn function_head(function: EncodedFunctionView, width: u8, endian: Endian) -> Result<
    Seq<u8>,
    Error,
> {
    match function_head_error(function) {
        Some(error) => Err(error),
        None => endian::joined(
            Ok(
                bytes::uint_bytes(
                    (function.range.end - function.range.start) as nat,
                    4,
                    endian,
                ),
            ),
            endian::uint_encoded(function.name, width, endian),
        ),
    }
}

/// The bytes of a function with all its records.
pub open spec fn function_bytes(function: EncodedFunctionView, width: u8, endian: Endian) -> Result<
    Seq<u8>,
    Error,
>
    decreases function, 0int,
{
    match string_offset_size_error(width) {
        Some(error) => Err(error),
        None => {
            let merged = if function.merged.len() == 0 {
                Ok(Seq::empty())
            } else {
                record_bytes(
                    INFO_MERGED,
                    endian::joined(
                        callsite::count_bytes(
                            function.merged.len(),
                            "merged-function count",
                            endian,
                        ),
                        merged_list_bytes(
                            function.merged,
                            0,
                            width,
                            endian,
                            function.range.start,
                        ),
                    ),
                    endian,
                )
            };
            endian::joined(
                endian::joined(
                    endian::joined(
                        endian::joined(
                            endian::joined(
                                function_head(function, width, endian),
                                lines_record(function, endian),
                            ),
                            inline_record(function, width, endian),
                        ),
                        merged,
                    ),
                    call_sites_record(function, width, endian),
                ),
                Ok(end_bytes(endian)),
            )
        },
    }
}

/// The bytes of a merged function behind its length.
pub open spec fn sized_bytes(part: Result<Seq<u8>, Error>, endian: Endian) -> Result<
    Seq<u8>,
    Error,
> {
    match part {
        Err(error) => Err(error),
        Ok(data) => if data.len() > u32::MAX {
            Err(
                Error::Limit {
                    context: "merged FunctionInfo length",
                    value: data.len() as u64,
                    limit: u32::MAX as u64,
                },
            )
        } else {
            Ok(bytes::uint_bytes(data.len(), 4, endian) + data)
        },
    }
}

/// The bytes of the merged functions from index `i` on, each behind its length.
pub open spec fn merged_list_bytes(
    functions: Seq<EncodedFunctionView>,
    i: int,
    width: u8,
    endian: Endian,
    base: u64,
) -> Result<Seq<u8>, Error>
    decreases functions, functions.len() - i,
    when 0 <= i
{
    if i >= functions.len() {
        Ok(Seq::empty())
    } else if functions[i].range.start != base {
        Err(Error::InvalidModel("merged function start differs from its parent"))
    } else {
        endian::joined(
            sized_bytes(function_bytes(functions[i], width, endian), endian),
            merged_list_bytes(functions, i + 1, width, endian, base),
        )
    }
}

/// The payload of the merged-functions record.
pub open spec fn merged_bytes(
    functions: Seq<EncodedFunctionView>,
    width: u8,
    endian: Endian,
    base: u64,
) -> Result<Seq<u8>, Error> {
    endian::joined(
        callsite::count_bytes(functions.len(), "merged-function count", endian),
        merged_list_bytes(functions, 0, width, endian, base),
    )
}

/// The bytes of the merged-functions record, where there is one.
#[verifier::opaque]
pub open spec fn merged_record(function: EncodedFunctionView, width: u8, endian: Endian) -> Result<
    Seq<u8>,
    Error,
> {
    if function.merged.len() == 0 {
        Ok(Seq::empty())
    } else {
        record_bytes(
            INFO_MERGED,
            merged_bytes(function.merged, width, endian, function.range.start),
            endian,
        )
    }
}

/// A record that was written is read back with its payload.
proof fn lemma_record_round_trip(
    s: Seq<u8>,
    pos: int,
    kind: u32,
    payload: Seq<u8>,
    endian: Endian,
)
    requires
        kind != INFO_END,
        record_bytes(kind, Ok(payload), endian) is Ok,
        bytes::holds_at(s, pos, record_bytes(kind, Ok(payload), endian)->Ok_0),
    ensures
        record_at(s, pos, endian) == Ok::<(Option<RecordView>, int), Error>(
            (
                Some(RecordView { kind: InfoType::spec_from_raw(kind), payload }),
                pos + record_bytes(kind, Ok(payload), endian)->Ok_0.len(),
            ),
        ),
{
    let b1 = bytes::uint_bytes(kind as nat, 4, endian);
    let b2 = bytes::uint_bytes(payload.len(), 4, endian);
    bytes::lemma_holds_at_split(s, pos, b1 + b2, payload);
    bytes::lemma_holds_at_split(s, pos, b1, b2);
    bytes::lemma_uint_bytes_len(kind as nat, 4, endian);
    bytes::lemma_uint_bytes_len(payload.len(), 4, endian);
    bytes::lemma_pow256_values();
    endian::law_uint_reads_back(s, pos, kind as u64, 4, endian);
    endian::law_uint_reads_back(s, pos + 4, payload.len() as u64, 4, endian);
}

/// Reading a record that was written continues behind it with its content.
proof fn lemma_record_step(
    s: Seq<u8>,
    pos: int,
    kind: u32,
    payload: Seq<u8>,
    width: u8,
    endian: Endian,
    function: EncodedFunctionView,
    seen: RecordSet,
    next: EncodedFunctionView,
    set: RecordSet,
)
    requires
        kind != INFO_END,
        record_bytes(kind, Ok(payload), endian) is Ok,
        bytes::holds_at(s, pos, record_bytes(kind, Ok(payload), endian)->Ok_0),
        seen.with(InfoType::spec_from_raw(kind)) == Ok::<RecordSet, Error>(set),
        with_record(
            function,
            RecordView { kind: InfoType::spec_from_raw(kind), payload },
            width,
            endian,
            function.range.start,
        ) == Ok::<EncodedFunctionView, Error>(next),
    ensures
        records_at(s, pos, width, endian, function, seen) == records_at(
            s,
            pos + record_bytes(kind, Ok(payload), endian)->Ok_0.len(),
            width,
            endian,
            next,
            set,
        ),
{
    lemma_record_round_trip(s, pos, kind, payload, endian);
}

/// Reading ends behind the end marker with what was read before it.
proof fn lemma_end_step(
    s: Seq<u8>,
    pos: int,
    width: u8,
    endian: Endian,
    function: EncodedFunctionView,
    seen: RecordSet,
)
    requires
        bytes::holds_at(s, pos, end_bytes(endian)),
    ensures
        records_at(s, pos, width, endian, function, seen) == Ok::<
            (EncodedFunctionView, int),
            Error,
        >((function, pos + end_bytes(endian).len())),
{
    let e1 = bytes::uint_bytes(INFO_END as nat, 4, endian);
    let e2 = bytes::uint_bytes(0, 4, endian);
    bytes::lemma_holds_at_split(s, pos, e1, e2);
    bytes::lemma_uint_bytes_len(0, 4, endian);
    bytes::lemma_pow256_values();
    endian::law_uint_reads_back(s, pos, 0, 4, endian);
    endian::law_uint_reads_back(s, pos + 4, 0, 4, endian);
}

/// Whether reading records at `pos` behind `function` and `seen` comes to the
/// same as reading them at `next` behind `grown` and `set`.
#[verifier::opaque]
spec fn continues(
    s: Seq<u8>,
    width: u8,
    endian: Endian,
    pos: int,
    function: EncodedFunctionView,
    seen: RecordSet,
    next: int,
    grown: EncodedFunctionView,
    set: RecordSet,
) -> bool {
    records_at(s, pos, width, endian, function, seen) == records_at(
        s,
        next,
        width,
        endian,
        grown,
        set,
    )
}

proof fn lemma_continues_on(
    s: Seq<u8>,
    width: u8,
    endian: Endian,
    p1: int,
    f1: EncodedFunctionView,
    s1: RecordSet,
    p2: int,
    f2: EncodedFunctionView,
    s2: RecordSet,
    p3: int,
    f3: EncodedFunctionView,
    s3: RecordSet,
)
    requires
        continues(s, width, endian, p1, f1, s1, p2, f2, s2),
        continues(s, width, endian, p2, f2, s2, p3, f3, s3),
    ensures
        continues(s, width, endian, p1, f1, s1, p3, f3, s3),
{
    reveal(continues);
}

/// Reading the line-table record continues behind it with the rows.
proof fn lemma_lines_step(
    s: Seq<u8>,
    pos: int,
    function: EncodedFunctionView,
    width: u8,
    endian: Endian,
    before: EncodedFunctionView,
    seen: RecordSet,
)
    requires
        lines_record(function, endian) is Ok,
        bytes::holds_at(s, pos, lines_record(function, endian)->Ok_0),
        before.range == function.range,
        before.lines is None,
        !seen.line_table,
    ensures
        continues(
            s,
            width,
            endian,
            pos,
            before,
            seen,
            pos + lines_record(function, endian)->Ok_0.len(),
            EncodedFunctionView { lines: function.lines, ..before },
            RecordSet { line_table: function.lines is Some, ..seen },
        ),
{
    reveal(lines_record);
    reveal(continues);
    if let Some(lines) = function.lines {
        let payload = line::encoded(lines, function.range.start)->Ok_0;
        line::law_line_table_round_trip(lines, function.range.start);
        lemma_record_step(
            s,
            pos,
            INFO_LINE_TABLE,
            payload,
            width,
            endian,
            before,
            seen,
            EncodedFunctionView { lines: function.lines, ..before },
            RecordSet { line_table: true, ..seen },
        );
    }
}

/// Reading the inline record continues behind it with the inline tree.
proof fn lemma_inline_step(
    s: Seq<u8>,
    pos: int,
    function: EncodedFunctionView,
    width: u8,
    endian: Endian,
    before: EncodedFunctionView,
    seen: RecordSet,
)
    requires
        s.len() <= usize::MAX,
        inline_record(function, width, endian) is Ok,
        bytes::holds_at(s, pos, inline_record(function, width, endian)->Ok_0),
        before.range == function.range,
        before.inline is None,
        !seen.inline,
    ensures
        continues(
            s,
            width,
            endian,
            pos,
            before,
            seen,
            pos + inline_record(function, width, endian)->Ok_0.len(),
            EncodedFunctionView { inline: function.inline, ..before },
            RecordSet { inline: function.inline is Some, ..seen },
        ),
{
    reveal(inline_record);
    reveal(continues);
    if let Some(node) = function.inline {
        let payload = inline_encoded(node, width, endian, function.range.start)->Ok_0;
        law_inline_record_round_trip(node, width, endian, function.range.start);
        lemma_record_step(
            s,
            pos,
            INFO_INLINE,
            payload,
            width,
            endian,
            before,
            seen,
            EncodedFunctionView { inline: function.inline, ..before },
            RecordSet { inline: true, ..seen },
        );
    }
}

/// Whether the payload of a function's merged-functions record decodes to its
/// merged functions.
#[verifier::opaque]
spec fn merged_reads_back(function: EncodedFunctionView, width: u8, endian: Endian) -> bool {
    function.merged.len() > 0 ==> merged_decoded(
        merged_bytes(function.merged, width, endian, function.range.start)->Ok_0,
        width,
        endian,
        function.range.start,
    ) == Ok::<Seq<EncodedFunctionView>, Error>(function.merged)
}

/// Reading the merged-functions record continues behind it with the functions,
/// if its payload decodes to them.
proof fn lemma_merged_step(
    s: Seq<u8>,
    pos: int,
    function: EncodedFunctionView,
    width: u8,
    endian: Endian,
    before: EncodedFunctionView,
    seen: RecordSet,
)
    requires
        merged_record(function, width, endian) is Ok,
        bytes::holds_at(s, pos, merged_record(function, width, endian)->Ok_0),
        before.range == function.range,
        before.merged == Seq::<EncodedFunctionView>::empty(),
        !seen.merged,
        merged_reads_back(function, width, endian),
    ensures
        continues(
            s,
            width,
            endian,
            pos,
            before,
            seen,
            pos + merged_record(function, width, endian)->Ok_0.len(),
            EncodedFunctionView { merged: function.merged, ..before },
            RecordSet { merged: function.merged.len() > 0, ..seen },
        ),
{
    reveal(merged_record);
    reveal(merged_reads_back);
    reveal(continues);
    if function.merged.len() > 0 {
        let payload = merged_bytes(function.merged, width, endian, function.range.start)->Ok_0;
        lemma_record_step(
            s,
            pos,
            INFO_MERGED,
            payload,
            width,
            endian,
            before,
            seen,
            EncodedFunctionView { merged: function.merged, ..before },
            RecordSet { merged: true, ..seen },
        );
    } else {
        assert(function.merged =~= Seq::<EncodedFunctionView>::empty());
    }
}

/// Reading the call-site record continues behind it with the call sites.
proof fn lemma_call_sites_step(
    s: Seq<u8>,
    pos: int,
    function: EncodedFunctionView,
    width: u8,
    endian: Endian,
    before: EncodedFunctionView,
    seen: RecordSet,
)
    requires
        1 <= width <= 8,
        call_sites_record(function, width, endian) is Ok,
        bytes::holds_at(s, pos, call_sites_record(function, width, endian)->Ok_0),
        before.range == function.range,
        before.call_sites == Seq::<EncodedCallSiteView>::empty(),
        !seen.call_site,
    ensures
        continues(
            s,
            width,
            endian,
            pos,
            before,
            seen,
            pos + call_sites_record(function, width, endian)->Ok_0.len(),
            EncodedFunctionView { call_sites: function.call_sites, ..before },
            RecordSet { call_site: function.call_sites.len() > 0, ..seen },
        ),
{
    reveal(call_sites_record);
    reveal(continues);
    if function.call_sites.len() > 0 {
        let payload = callsite::call_sites_bytes(function.call_sites, width, endian)->Ok_0;
        callsite::law_call_sites_round_trip(function.call_sites, width, endian);
        lemma_record_step(
            s,
            pos,
            INFO_CALL_SITE,
            payload,
            width,
            endian,
            before,
            seen,
            EncodedFunctionView { call_sites: function.call_sites, ..before },
            RecordSet { call_site: true, ..seen },
        );
    } else {
        assert(function.call_sites =~= Seq::<EncodedCallSiteView>::empty());
    }
}

/// The payload of the merged-functions record holds its count and its list.
proof fn lemma_merged_payload(
    functions: Seq<EncodedFunctionView>,
    width: u8,
    endian: Endian,
    base: u64,
)
    requires
        merged_bytes(functions, width, endian, base) is Ok,
    ensures
        ({
            let payload = merged_bytes(functions, width, endian, base)->Ok_0;
            let rest = merged_list_bytes(functions, 0, width, endian, base)->Ok_0;
            &&& merged_list_bytes(functions, 0, width, endian, base) is Ok
            &&& payload.len() == 4 + rest.len()
            &&& bytes::holds_at(payload, 4, rest)
            &&& endian::uint_at(payload, 0, 4, endian) == Ok::<(u64, int), Error>(
                (functions.len() as u64, 4),
            )
            &&& functions.len() <= u32::MAX
        }),
{
    let payload = merged_bytes(functions, width, endian, base)->Ok_0;
    let count = bytes::uint_bytes(functions.len(), 4, endian);
    let rest = merged_list_bytes(functions, 0, width, endian, base)->Ok_0;
    assert(payload.subrange(0, payload.len() as int) =~= payload);
    bytes::lemma_holds_at_split(payload, 0, count, rest);
    bytes::lemma_uint_bytes_len(functions.len(), 4, endian);
    bytes::lemma_pow256_values();
    endian::law_uint_reads_back(payload, 0, functions.len() as u64, 4, endian);
}

/// The payload decodes when the list behind its count is read back.
proof fn lemma_merged_complete(
    functions: Seq<EncodedFunctionView>,
    width: u8,
    endian: Endian,
    base: u64,
)
    requires
        merged_bytes(functions, width, endian, base) is Ok,
        ({
            let payload = merged_bytes(functions, width, endian, base)->Ok_0;
            &&& merged_from(payload, 4, width, endian, base, functions.len(), Seq::empty()) == Ok::<
                (Seq<EncodedFunctionView>, int),
                Error,
            >((functions, payload.len() as int))
            &&& payload.len() >= 4 + 4 * functions.len()
        }),
    ensures
        merged_decoded(
            merged_bytes(functions, width, endian, base)->Ok_0,
            width,
            endian,
            base,
        ) == Ok::<Seq<EncodedFunctionView>, Error>(functions),
{
    lemma_merged_payload(functions, width, endian, base);
}

/// Reading one sized function continues behind it, if its bytes decode.
proof fn lemma_merged_one(
    s: Seq<u8>,
    pos: int,
    data: Seq<u8>,
    function: EncodedFunctionView,
    width: u8,
    endian: Endian,
    base: u64,
    count: nat,
    done: Seq<EncodedFunctionView>,
)
    requires
        count > 0,
        data.len() <= u32::MAX,
        bytes::holds_at(s, pos, bytes::uint_bytes(data.len(), 4, endian) + data),
        function_exact(data, width, endian, base) == Ok::<EncodedFunctionView, Error>(function),
    ensures
        merged_from(s, pos, width, endian, base, count, done) == merged_from(
            s,
            pos + 4 + data.len(),
            width,
            endian,
            base,
            (count - 1) as nat,
            done.push(function),
        ),
{
    let size = bytes::uint_bytes(data.len(), 4, endian);
    bytes::lemma_holds_at_split(s, pos, size, data);
    bytes::lemma_uint_bytes_len(data.len(), 4, endian);
    bytes::lemma_pow256_values();
    endian::law_uint_reads_back(s, pos, data.len() as u64, 4, endian);
}

/// Whether `data` is what a function is written as.
#[verifier::opaque]
spec fn encodes(function: EncodedFunctionView, width: u8, endian: Endian, data: Seq<u8>) -> bool {
    function_bytes(function, width, endian) == Ok::<Seq<u8>, Error>(data)
}

/// Whether the function stands in `s` from `pos` to `end`.
#[verifier::opaque]
spec fn decodes(
    s: Seq<u8>,
    pos: int,
    function: EncodedFunctionView,
    width: u8,
    endian: Endian,
    end: int,
) -> bool {
    function_at(s, pos, width, endian, function.range.start) == Ok::<
        (EncodedFunctionView, int),
        Error,
    >((function, end))
}

/// Whether `data` is what the functions from index `i` on are written as.
#[verifier::opaque]
spec fn encodes_list(
    functions: Seq<EncodedFunctionView>,
    i: int,
    width: u8,
    endian: Endian,
    base: u64,
    data: Seq<u8>,
) -> bool {
    merged_list_bytes(functions, i, width, endian, base) == Ok::<Seq<u8>, Error>(data)
}

/// Whether the functions from index `i` on stand in `s` from `pos` to its end.
#[verifier::opaque]
spec fn decodes_list(
    s: Seq<u8>,
    pos: int,
    functions: Seq<EncodedFunctionView>,
    i: int,
    width: u8,
    endian: Endian,
    base: u64,
) -> bool {
    merged_from(
        s,
        pos,
        width,
        endian,
        base,
        (functions.len() - i) as nat,
        functions.subrange(0, i),
    ) == Ok::<(Seq<EncodedFunctionView>, int), Error>((functions, s.len() as int))
}

/// The bytes of a list are those of its first function and of the rest.
proof fn lemma_encodes_list_split(
    functions: Seq<EncodedFunctionView>,
    i: int,
    width: u8,
    endian: Endian,
    base: u64,
    data: Seq<u8>,
) -> (parts: (Seq<u8>, Seq<u8>))
    requires
        0 <= i < functions.len(),
        encodes_list(functions, i, width, endian, base, data),
    ensures
        encodes(functions[i], width, endian, parts.0),
        functions[i].range.start == base,
        parts.0.len() <= u32::MAX,
        encodes_list(functions, i + 1, width, endian, base, parts.1),
        data == bytes::uint_bytes(parts.0.len(), 4, endian) + parts.0 + parts.1,
{
    reveal(encodes_list);
    reveal(encodes);
    (
        function_bytes(functions[i], width, endian)->Ok_0,
        merged_list_bytes(functions, i + 1, width, endian, base)->Ok_0,
    )
}

proof fn lemma_encodes_list_end(
    functions: Seq<EncodedFunctionView>,
    width: u8,
    endian: Endian,
    base: u64,
    data: Seq<u8>,
)
    requires
        encodes_list(functions, functions.len() as int, width, endian, base, data),
    ensures
        data == Seq::<u8>::empty(),
{
    reveal(encodes_list);
}

proof fn lemma_decodes_list_end(
    s: Seq<u8>,
    functions: Seq<EncodedFunctionView>,
    width: u8,
    endian: Endian,
    base: u64,
)
    ensures
        decodes_list(s, s.len() as int, functions, functions.len() as int, width, endian, base),
{
    reveal(decodes_list);
    assert(functions.subrange(0, functions.len() as int) =~= functions);
}

proof fn lemma_decodes_list_cons(
    s: Seq<u8>,
    pos: int,
    functions: Seq<EncodedFunctionView>,
    i: int,
    width: u8,
    endian: Endian,
    base: u64,
    data: Seq<u8>,
)
    requires
        0 <= i < functions.len(),
        functions[i].range.start == base,
        data.len() <= u32::MAX,
        bytes::holds_at(s, pos, bytes::uint_bytes(data.len(), 4, endian) + data),
        decodes(data, 0, functions[i], width, endian, data.len() as int),
        decodes_list(s, pos + 4 + data.len(), functions, i + 1, width, endian, base),
    ensures
        decodes_list(s, pos, functions, i, width, endian, base),
{
    reveal(decodes_list);
    reveal(decodes);
    assert(functions.subrange(0, i).push(functions[i]) =~= functions.subrange(0, i + 1));
    lemma_merged_one(
        s,
        pos,
        data,
        functions[i],
        width,
        endian,
        base,
        (functions.len() - i) as nat,
        functions.subrange(0, i),
    );
}

/// The payload of the merged-functions record of a function that is written.
proof fn lemma_encodes_merged(
    function: EncodedFunctionView,
    width: u8,
    endian: Endian,
    data: Seq<u8>,
) -> (rest: Seq<u8>)
    requires
        encodes(function, width, endian, data),
        function.merged.len() > 0,
    ensures
        encodes_list(function.merged, 0, width, endian, function.range.start, rest),
        ({
            let payload = bytes::uint_bytes(function.merged.len(), 4, endian) + rest;
            &&& merged_bytes(function.merged, width, endian, function.range.start) == Ok::<
                Seq<u8>,
                Error,
            >(payload)
            &&& payload.len() == 4 + rest.len()
            &&& payload.len() <= u32::MAX
            &&& bytes::holds_at(payload, 4, rest)
        }),
{
    reveal(encodes);
    reveal(encodes_list);
    let rest = merged_list_bytes(
        function.merged,
        0,
        width,
        endian,
        function.range.start,
    )->Ok_0;
    lemma_merged_payload(function.merged, width, endian, function.range.start);
    rest
}

/// The pieces that a function is written as, in order.
proof fn lemma_encodes_parts(
    function: EncodedFunctionView,
    width: u8,
    endian: Endian,
    data: Seq<u8>,
)
    requires
        encodes(function, width, endian, data),
    ensures
        string_offset_size_error(width) is None,
        function_head(function, width, endian) is Ok,
        lines_record(function, endian) is Ok,
        inline_record(function, width, endian) is Ok,
        merged_record(function, width, endian) is Ok,
        call_sites_record(function, width, endian) is Ok,
        data == function_head(function, width, endian)->Ok_0 + lines_record(function, endian)->Ok_0
            + inline_record(function, width, endian)->Ok_0 + merged_record(
            function,
            width,
            endian,
        )->Ok_0 + call_sites_record(function, width, endian)->Ok_0 + end_bytes(endian),
{
    reveal(merged_record);
    reveal(encodes);
}

/// A function is read back once its merged functions are.
proof fn lemma_decodes_function(
    s: Seq<u8>,
    pos: int,
    function: EncodedFunctionView,
    width: u8,
    endian: Endian,
    data: Seq<u8>,
)
    requires
        encodes(function, width, endian, data),
        bytes::holds_at(s, pos, data),
        s.len() <= usize::MAX,
        merged_reads_back(function, width, endian),
    ensures
        decodes(s, pos, function, width, endian, pos + data.len()),
{
    lemma_encodes_parts(function, width, endian, data);
    let head = function_head(function, width, endian)->Ok_0;
    let b1 = lines_record(function, endian)->Ok_0;
    let b2 = inline_record(function, width, endian)->Ok_0;
    let b3 = merged_record(function, width, endian)->Ok_0;
    let b4 = call_sites_record(function, width, endian)->Ok_0;
    let end = end_bytes(endian);
    bytes::lemma_holds_at_split(s, pos, head + b1 + b2 + b3 + b4, end);
    bytes::lemma_holds_at_split(s, pos, head + b1 + b2 + b3, b4);
    bytes::lemma_holds_at_split(s, pos, head + b1 + b2, b3);
    bytes::lemma_holds_at_split(s, pos, head + b1, b2);
    bytes::lemma_holds_at_split(s, pos, head, b1);
    let p1 = pos + head.len();
    let p2 = p1 + b1.len();
    let p3 = p2 + b2.len();
    let p4 = p3 + b3.len();
    let p5 = p4 + b4.len();
    let f0 = bare_function(function.range, function.name);
    let f1 = EncodedFunctionView { lines: function.lines, ..f0 };
    let f2 = EncodedFunctionView { inline: function.inline, ..f1 };
    let f3 = EncodedFunctionView { merged: function.merged, ..f2 };
    let f4 = EncodedFunctionView { call_sites: function.call_sites, ..f3 };
    let s0 = RecordSet::empty();
    let s1 = RecordSet { line_table: function.lines is Some, ..s0 };
    let s2 = RecordSet { inline: function.inline is Some, ..s1 };
    let s3 = RecordSet { merged: function.merged.len() > 0, ..s2 };
    let s4 = RecordSet { call_site: function.call_sites.len() > 0, ..s3 };
    lemma_lines_step(s, p1, function, width, endian, f0, s0);
    lemma_inline_step(s, p2, function, width, endian, f1, s1);
    lemma_merged_step(s, p3, function, width, endian, f2, s2);
    lemma_call_sites_step(s, p4, function, width, endian, f3, s3);
    lemma_continues_on(s, width, endian, p1, f0, s0, p2, f1, s1, p3, f2, s2);
    lemma_continues_on(s, width, endian, p1, f0, s0, p3, f2, s2, p4, f3, s3);
    lemma_continues_on(s, width, endian, p1, f0, s0, p4, f3, s3, p5, f4, s4);
    assert(f4 == function);
    lemma_decodes_ends(s, pos, p1, p5, function, width, endian, s4);
}

/// A function is read once its head is, and the end marker behind its records.
proof fn lemma_decodes_ends(
    s: Seq<u8>,
    pos: int,
    first: int,
    last: int,
    function: EncodedFunctionView,
    width: u8,
    endian: Endian,
    seen: RecordSet,
)
    requires
        string_offset_size_error(width) is None,
        function_head(function, width, endian) is Ok,
        bytes::holds_at(s, pos, function_head(function, width, endian)->Ok_0),
        first == pos + function_head(function, width, endian)->Ok_0.len(),
        continues(
            s,
            width,
            endian,
            first,
            bare_function(function.range, function.name),
            RecordSet::empty(),
            last,
            function,
            seen,
        ),
        bytes::holds_at(s, last, end_bytes(endian)),
    ensures
        decodes(s, pos, function, width, endian, last + end_bytes(endian).len()),
{
    reveal(continues);
    reveal(decodes);
    lemma_head_round_trip(s, pos, function, width, endian);
    lemma_end_step(s, last, width, endian, function, seen);
}

/// The payload of a merged-functions record decodes once its list does.
proof fn lemma_decodes_merged(
    function: EncodedFunctionView,
    width: u8,
    endian: Endian,
    payload: Seq<u8>,
)
    requires
        merged_bytes(function.merged, width, endian, function.range.start) == Ok::<Seq<u8>, Error>(
            payload,
        ),
        payload.len() >= 4 + 4 * function.merged.len(),
        decodes_list(payload, 4, function.merged, 0, width, endian, function.range.start),
    ensures
        merged_reads_back(function, width, endian),
{
    reveal(merged_reads_back);
    reveal(decodes_list);
    assert(function.merged.subrange(0, 0) =~= Seq::<EncodedFunctionView>::empty());
    lemma_merged_complete(function.merged, width, endian, function.range.start);
}

proof fn lemma_function_round_trip(
    s: Seq<u8>,
    pos: int,
    function: EncodedFunctionView,
    width: u8,
    endian: Endian,
    data: Seq<u8>,
)
    requires
        encodes(function, width, endian, data),
        bytes::holds_at(s, pos, data),
        s.len() <= usize::MAX,
    ensures
        decodes(s, pos, function, width, endian, pos + data.len()),
    decreases function, 0int,
{
    if function.merged.len() > 0 {
        let rest = lemma_encodes_merged(function, width, endian, data);
        let payload = bytes::uint_bytes(function.merged.len(), 4, endian) + rest;
        lemma_merged_list_round_trip(
            payload,
            4,
            function.merged,
            0,
            width,
            endian,
            function.range.start,
            rest,
        );
        lemma_decodes_merged(function, width, endian, payload);
    } else {
        reveal(merged_reads_back);
    }
    lemma_decodes_function(s, pos, function, width, endian, data);
}

proof fn lemma_merged_list_round_trip(
    s: Seq<u8>,
    pos: int,
    functions: Seq<EncodedFunctionView>,
    i: int,
    width: u8,
    endian: Endian,
    base: u64,
    data: Seq<u8>,
)
    requires
        0 <= i <= functions.len(),
        encodes_list(functions, i, width, endian, base, data),
        bytes::holds_at(s, pos, data),
        pos + data.len() == s.len(),
        s.len() <= usize::MAX,
    ensures
        decodes_list(s, pos, functions, i, width, endian, base),
        data.len() >= 4 * (functions.len() - i),
    decreases functions, functions.len() - i,
{
    if i == functions.len() {
        lemma_encodes_list_end(functions, width, endian, base, data);
        lemma_decodes_list_end(s, functions, width, endian, base);
    } else {
        let (part, rest) = lemma_encodes_list_split(functions, i, width, endian, base, data);
        let size = bytes::uint_bytes(part.len(), 4, endian);
        bytes::lemma_uint_bytes_len(part.len(), 4, endian);
        bytes::lemma_holds_at_split(s, pos, size + part, rest);
        assert(part.subrange(0, part.len() as int) =~= part);
        lemma_function_round_trip(part, 0, functions[i], width, endian, part);
        lemma_merged_list_round_trip(
            s,
            pos + 4 + part.len(),
            functions,
            i + 1,
            width,
            endian,
            base,
            rest,
        );
        lemma_decodes_list_cons(s, pos, functions, i, width, endian, base, part);
    }
}

/// Reading gives back the function that was written, wherever it stands.
pub proof fn law_function_round_trip(
    s: Seq<u8>,
    pos: int,
    function: EncodedFunctionView,
    width: u8,
    endian: Endian,
)
    requires
        function_bytes(function, width, endian) is Ok,
        bytes::holds_at(s, pos, function_bytes(function, width, endian)->Ok_0),
        s.len() <= usize::MAX,
    ensures
        function_at(s, pos, width, endian, function.range.start) == Ok::<
            (EncodedFunctionView, int),
            Error,
        >((function, pos + function_bytes(function, width, endian)->Ok_0.len())),
{
    let data = function_bytes(function, width, endian)->Ok_0;
    assert(encodes(function, width, endian, data)) by {
        reveal(encodes);
    }
    lemma_function_round_trip(s, pos, function, width, endian, data);
    reveal(decodes);
}

proof fn lemma_head_round_trip(
    s: Seq<u8>,
    pos: int,
    function: EncodedFunctionView,
    width: u8,
    endian: Endian,
)
    requires
        string_offset_size_error(width) is None,
        function_head(function, width, endian) is Ok,
        bytes::holds_at(s, pos, function_head(function, width, endian)->Ok_0),
    ensures
        function_at(s, pos, width, endian, function.range.start) == records_at(
            s,
            pos + function_head(function, width, endian)->Ok_0.len(),
            width,
            endian,
            bare_function(function.range, function.name),
            RecordSet::empty(),
        ),
        function_head(function, width, endian)->Ok_0.len() == 4 + width,
{
    reveal(function_head);
    let size = (function.range.end - function.range.start) as nat;
    let b1 = bytes::uint_bytes(size, 4, endian);
    let b2 = bytes::uint_bytes(function.name as nat, width as nat, endian);
    bytes::lemma_holds_at_split(s, pos, b1, b2);
    bytes::lemma_uint_bytes_len(size, 4, endian);
    bytes::lemma_uint_bytes_len(function.name as nat, width as nat, endian);
    bytes::lemma_pow256_values();
    endian::law_uint_reads_back(s, pos, size as u64, 4, endian);
    endian::law_uint_reads_back(s, pos + 4, function.name, width, endian);
}

/// Decoding the bytes of a function, and nothing else, gives back the function.
pub proof fn law_function_exact_round_trip(
    function: EncodedFunctionView,
    width: u8,
    endian: Endian,
)
    requires
        function_bytes(function, width, endian) is Ok,
        function_bytes(function, width, endian)->Ok_0.len() <= usize::MAX,
    ensures
        function_exact(
            function_bytes(function, width, endian)->Ok_0,
            width,
            endian,
            function.range.start,
        ) == Ok::<EncodedFunctionView, Error>(function),
{
    let data = function_bytes(function, width, endian)->Ok_0;
    assert(data.subrange(0, data.len() as int) =~= data);
    law_function_round_trip(data, 0, function, width, endian);
}

/// An integer that is read from the start of an input is read from the whole.
proof fn lemma_uint_of_start(s: Seq<u8>, cut: int, pos: int, width: int, endian: Endian)
    requires
        0 <= cut <= s.len(),
        0 <= pos,
        0 <= width,
    ensures
        endian::uint_at(s.take(cut), pos, width, endian) is Ok ==> endian::uint_at(
            s,
            pos,
            width,
            endian,
        ) == endian::uint_at(s.take(cut), pos, width, endian),
{
    if pos + width <= cut {
        assert(s.take(cut).subrange(pos, pos + width) =~= s.subrange(pos, pos + width));
    }
}

/// A record that is read from the start of an input is read from the whole.
proof fn lemma_record_of_start(s: Seq<u8>, cut: int, pos: int, endian: Endian)
    requires
        0 <= pos <= cut <= s.len(),
    ensures
        record_at(s.take(cut), pos, endian) is Ok ==> record_at(s, pos, endian) == record_at(
            s.take(cut),
            pos,
            endian,
        ),
{
    lemma_uint_of_start(s, cut, pos, 4, endian);
    lemma_uint_of_start(s, cut, pos + 4, 4, endian);
    if let Ok((Some(_), end)) = record_at(s.take(cut), pos, endian) {
        assert(s.take(cut).subrange(pos + 8, end) =~= s.subrange(pos + 8, end));
    }
}

/// Records that are read from the start of an input are read from the whole.
proof fn lemma_records_of_start(
    s: Seq<u8>,
    cut: int,
    pos: int,
    width: u8,
    endian: Endian,
    function: EncodedFunctionView,
    seen: RecordSet,
)
    requires
        0 <= pos <= cut <= s.len(),
    ensures
        records_at(s.take(cut), pos, width, endian, function, seen) matches Ok((_, end)) ==> {
            &&& end <= cut
            &&& records_at(s, pos, width, endian, function, seen) == records_at(
                s.take(cut),
                pos,
                width,
                endian,
                function,
                seen,
            )
        },
    decreases cut - pos,
{
    lemma_record_of_start(s, cut, pos, endian);
    lemma_record_advances(s.take(cut), pos, endian);
    if let Ok((Some(record), end)) = record_at(s.take(cut), pos, endian) {
        if let Ok(set) = seen.with(record.kind) {
            if let Ok(next) = with_record(function, record, width, endian, function.range.start) {
                lemma_records_of_start(s, cut, end, width, endian, next, set);
            }
        }
    }
}

/// A function that is read from the start of an input is read from the whole.
proof fn lemma_function_of_start(
    s: Seq<u8>,
    cut: int,
    pos: int,
    width: u8,
    endian: Endian,
    base: u64,
)
    requires
        0 <= pos <= cut <= s.len(),
    ensures
        function_at(s.take(cut), pos, width, endian, base) matches Ok((_, end)) ==> {
            &&& end <= cut
            &&& function_at(s, pos, width, endian, base) == function_at(
                s.take(cut),
                pos,
                width,
                endian,
                base,
            )
        },
{
    lemma_uint_of_start(s, cut, pos, 4, endian);
    lemma_uint_of_start(s, cut, pos + 4, width as int, endian);
    if string_offset_size_error(width) is None {
        if let Ok((size, p1)) = endian::uint_at(s.take(cut), pos, 4, endian) {
            if let Ok((name, p2)) = endian::uint_at(s.take(cut), p1, width as int, endian) {
                if base + size <= u64::MAX {
                    lemma_records_of_start(
                        s,
                        cut,
                        p2,
                        width,
                        endian,
                        bare_function(AddressRange { start: base, end: (base + size) as u64 }, name),
                        RecordSet::empty(),
                    );
                }
            }
        }
    }
}

/// The bytes of a function decode in their full length only: every shorter start
/// of them is refused.
pub proof fn law_function_prefix_is_refused(
    function: EncodedFunctionView,
    width: u8,
    endian: Endian,
    cut: int,
)
    requires
        function_bytes(function, width, endian) is Ok,
        function_bytes(function, width, endian)->Ok_0.len() <= usize::MAX,
        0 <= cut < function_bytes(function, width, endian)->Ok_0.len(),
    ensures
        function_exact(
            function_bytes(function, width, endian)->Ok_0.take(cut),
            width,
            endian,
            function.range.start,
        ) is Err,
{
    let data = function_bytes(function, width, endian)->Ok_0;
    assert(data.subrange(0, data.len() as int) =~= data);
    law_function_round_trip(data, 0, function, width, endian);
    lemma_function_of_start(data, cut, 0, width, endian, function.range.start);
}

/// The bytes of a function are refused where further bytes follow them.
pub proof fn law_function_suffix_is_refused(
    function: EncodedFunctionView,
    width: u8,
    endian: Endian,
    suffix: Seq<u8>,
)
    requires
        function_bytes(function, width, endian) is Ok,
        function_bytes(function, width, endian)->Ok_0.len() + suffix.len() <= usize::MAX,
        suffix.len() > 0,
    ensures
        function_exact(
            function_bytes(function, width, endian)->Ok_0 + suffix,
            width,
            endian,
            function.range.start,
        ) == Err::<EncodedFunctionView, Error>(
            Error::InvalidFormat("bytes remain after the FunctionInfo end marker"),
        ),
{
    let data = function_bytes(function, width, endian)->Ok_0;
    let s = data + suffix;
    assert(s.subrange(0, data.len() as int) =~= data);
    law_function_round_trip(s, 0, function, width, endian);
}

/// Starts a record of the given type and returns where its length stands.
fn begin_record(output: &mut Encoder, kind: u32) -> (length_offset: usize)
    ensures
        Encoder::appends(
            *old(output),
            *final(output),
            bytes::uint_bytes(kind as nat, 4, old(output).endian) + bytes::uint_bytes(
                0,
                4,
                old(output).endian,
            ),
        ),
        length_offset == old(output).bytes@.len() + 4,
        final(output).bytes@.len() == length_offset + 4,
{
    proof {
        bytes::lemma_uint_bytes_len(kind as nat, 4, output.endian);
        bytes::lemma_uint_bytes_len(0, 4, output.endian);
    }
    output.write_u32(kind);
    let length_offset: usize = output.len();
    output.write_u32(0);
    assert(output.bytes@ =~= old(output).bytes@ + (bytes::uint_bytes(kind as nat, 4, output.endian)
        + bytes::uint_bytes(0, 4, output.endian)));
    length_offset
}

/// Replacing the four bytes before `tail` leaves the rest as it is.
proof fn lemma_patched(head: Seq<u8>, hole: Seq<u8>, tail: Seq<u8>, part: Seq<u8>)
    requires
        hole.len() == part.len(),
    ensures
        bytes::overwrite(head + hole + tail, head.len() as int, part) == head + part + tail,
{
    assert(bytes::overwrite(head + hole + tail, head.len() as int, part) =~= head + part + tail);
}

/// Fills in the length of what stands behind `length_offset + 4`.
fn finish_length(output: &mut Encoder, length_offset: usize, context: &'static str) -> (result:
    Result<(), Error>)
    requires
        length_offset + 4 <= old(output).bytes@.len(),
    ensures
        final(output).endian == old(output).endian,
        ({
            let len = old(output).bytes@.len() - length_offset - 4;
            if len > u32::MAX {
                &&& result == Err::<(), Error>(
                    Error::Limit { context, value: len as u64, limit: u32::MAX as u64 },
                )
                &&& final(output).bytes@ == old(output).bytes@
            } else {
                &&& result == Ok::<(), Error>(())
                &&& final(output).bytes@ == bytes::overwrite(
                    old(output).bytes@,
                    length_offset as int,
                    bytes::uint_bytes(len as nat, 4, old(output).endian),
                )
            }
        }),
{
    let len: usize = output.len() - (length_offset + 4);
    if len > u32::MAX as usize {
        return Err(Error::Limit { context, value: len as u64, limit: u32::MAX as u64 });
    }
    match output.patch_u32(length_offset, len as u32) {
        Ok(()) => Ok(()),
        Err(error) => Err(error),
    }
}

/// Whether `after` is `before` with a record of `kind` begun and `payload`
/// behind it.
spec fn record_open(before: Encoder, after: Encoder, kind: u32, payload: Seq<u8>) -> bool {
    &&& after.endian == before.endian
    &&& after.bytes@ == before.bytes@ + (bytes::uint_bytes(kind as nat, 4, before.endian)
        + bytes::uint_bytes(0, 4, before.endian)) + payload
}

/// Fills in the length of a record whose payload was written.
fn end_record(
    output: &mut Encoder,
    length_offset: usize,
    Ghost(before): Ghost<Encoder>,
    Ghost(kind): Ghost<u32>,
    Ghost(payload): Ghost<Seq<u8>>,
) -> (result: Result<(), Error>)
    requires
        record_open(before, *old(output), kind, payload),
        length_offset == before.bytes@.len() + 4,
    ensures
        Encoder::writes(
            before,
            *final(output),
            result,
            record_bytes(kind, Ok(payload), before.endian),
        ),
{
    proof {
        let endian = before.endian;
        let k = bytes::uint_bytes(kind as nat, 4, endian);
        let hole = bytes::uint_bytes(0, 4, endian);
        let part = bytes::uint_bytes(payload.len(), 4, endian);
        bytes::lemma_uint_bytes_len(kind as nat, 4, endian);
        bytes::lemma_uint_bytes_len(0, 4, endian);
        bytes::lemma_uint_bytes_len(payload.len(), 4, endian);
        let head = before.bytes@ + k;
        assert(output.bytes@ =~= head + hole + payload);
        lemma_patched(head, hole, payload, part);
        assert(head + part + payload =~= before.bytes@ + (k + part + payload));
    }
    finish_length(output, length_offset, "FunctionInfo record")
}

/// Writes the line-table record, where there is one.
fn write_lines(function: &EncodedFunction, output: &mut Encoder) -> (result: Result<(), Error>)
    ensures
        Encoder::writes(
            *old(output),
            *final(output),
            result,
            lines_record(function@, old(output).endian),
        ),
{
    proof {
        reveal(lines_record);
    }
    proof {
        lemma_encoded_function_view(*function);
    }
    let ghost before = *output;
    match &function.lines {
        None => {
            assert(output.bytes@ + Seq::<u8>::empty() =~= output.bytes@);
            Ok(())
        },
        Some(lines) => {
            let length_offset: usize = begin_record(output, INFO_LINE_TABLE);
            line::encode_into(lines.as_slice(), output, function.range.start)?;
            let ghost payload = line::encoded(lines@, function.range.start)->Ok_0;
            end_record(
                output,
                length_offset,
                Ghost(before),
                Ghost(INFO_LINE_TABLE),
                Ghost(payload),
            )
        },
    }
}

/// Writes the inline record, where there is one.
fn write_inline(function: &EncodedFunction, output: &mut Encoder, width: u8) -> (result: Result<
    (),
    Error,
>)
    ensures
        Encoder::writes(
            *old(output),
            *final(output),
            result,
            inline_record(function@, width, old(output).endian),
        ),
{
    proof {
        reveal(inline_record);
    }
    proof {
        lemma_encoded_function_view(*function);
        reveal(inline_encoded);
    }
    let ghost before = *output;
    match &function.inline {
        None => {
            assert(output.bytes@ + Seq::<u8>::empty() =~= output.bytes@);
            Ok(())
        },
        Some(node) => {
            let length_offset: usize = begin_record(output, INFO_INLINE);
            inline_tree::encode_inline(node, output, width, function.range.start, 0)?;
            let ghost payload = inline_encoded(
                node@,
                width,
                before.endian,
                function.range.start,
            )->Ok_0;
            end_record(output, length_offset, Ghost(before), Ghost(INFO_INLINE), Ghost(payload))
        },
    }
}

/// Writes the call-site record, where there is one.
fn write_call_sites(function: &EncodedFunction, output: &mut Encoder, width: u8) -> (result: Result<
    (),
    Error,
>)
    ensures
        Encoder::writes(
            *old(output),
            *final(output),
            result,
            call_sites_record(function@, width, old(output).endian),
        ),
{
    proof {
        reveal(call_sites_record);
    }
    proof {
        lemma_encoded_function_view(*function);
    }
    let ghost before = *output;
    if function.call_sites.len() == 0 {
        assert(output.bytes@ + Seq::<u8>::empty() =~= output.bytes@);
        return Ok(());
    }
    let length_offset: usize = begin_record(output, INFO_CALL_SITE);
    callsite::encode_call_sites_into(&function.call_sites, output, width)?;
    let ghost payload = callsite::call_sites_bytes(
        function@.call_sites,
        width,
        before.endian,
    )->Ok_0;
    end_record(output, length_offset, Ghost(before), Ghost(INFO_CALL_SITE), Ghost(payload))
}

/// Writes a function's size and name.
fn write_head(function: &EncodedFunction, output: &mut Encoder, width: u8) -> (result: Result<
    (),
    Error,
>)
    ensures
        Encoder::writes(
            *old(output),
            *final(output),
            result,
            function_head(function@, width, old(output).endian),
        ),
{
    proof {
        reveal(function_head);
    }
    proof {
        lemma_encoded_function_view(*function);
    }
    if function.name == 0 {
        return Err(Error::ZeroNameOffset);
    }
    if function.range.end < function.range.start {
        return Err(Error::InvalidModel("function range end precedes its start"));
    }
    let size: u64 = function.range.end - function.range.start;
    if size > u32::MAX as u64 {
        return Err(
            Error::Limit { context: "FunctionInfo size", value: size, limit: u32::MAX as u64 },
        );
    }
    output.write_u32(size as u32);
    output.write_uint(function.name, width)?;
    assert(output.bytes@ =~= old(output).bytes@ + function_head(
        function@,
        width,
        output.endian,
    )->Ok_0);
    Ok(())
}

/// The bytes of a function, and the error of padding in front of it.
pub open spec fn placed_bytes(
    len: nat,
    function: EncodedFunctionView,
    width: u8,
    endian: Endian,
    align: bool,
) -> Result<Seq<u8>, Error> {
    match string_offset_size_error(width) {
        Some(error) => Err(error),
        None => if !align {
            function_bytes(function, width, endian)
        } else if crate::format::aligned(len, 4) > usize::MAX {
            Err(Error::Overflow("aligned output length"))
        } else {
            endian::joined(
                Ok(bytes::zeros(bytes::padding(len, 4))),
                function_bytes(function, width, endian),
            )
        },
    }
}

/// Appends a function, at a multiple of four where `align` is set, and returns
/// where it starts.
pub fn encode_into(
    function: &EncodedFunction,
    output: &mut Encoder,
    string_offset_size: u8,
    align: bool,
) -> (result: Result<usize, Error>)
    ensures
        match placed_bytes(
            old(output).bytes@.len(),
            function@,
            string_offset_size,
            old(output).endian,
            align,
        ) {
            Ok(part) => {
                &&& Encoder::appends(*old(output), *final(output), part)
                &&& result == Ok::<usize, Error>(
                    if align {
                        crate::format::aligned(old(output).bytes@.len(), 4) as usize
                    } else {
                        old(output).bytes@.len() as usize
                    },
                )
            },
            Err(error) => {
                &&& Encoder::extends(*old(output), *final(output))
                &&& result == Err::<usize, Error>(error)
            },
        },
    decreases function, 3int,
{
    validate_string_offset_size(string_offset_size)?;
    if align {
        output.align_to(4)?;
    }
    let start: usize = output.len();
    let ghost before = *output;
    match encode_function(function, output, string_offset_size) {
        Ok(()) => {},
        Err(error) => return Err(error),
    }
    proof {
        let part = function_bytes(function@, string_offset_size, before.endian)->Ok_0;
        if align {
            let zeros = bytes::zeros(bytes::padding(old(output).bytes@.len(), 4));
            assert(old(output).bytes@ + zeros + part =~= old(output).bytes@ + (zeros + part));
        }
    }
    Ok(start)
}

/// Appends a function where the output stands.
fn encode_function(function: &EncodedFunction, output: &mut Encoder, width: u8) -> (result: Result<
    (),
    Error,
>)
    requires
        string_offset_size_error(width) is None,
    ensures
        Encoder::writes(
            *old(output),
            *final(output),
            result,
            function_bytes(function@, width, old(output).endian),
        ),
    decreases function, 2int,
{
    let ghost start = output.bytes@;
    let ghost endian = output.endian;
    proof {
        lemma_encoded_function_view(*function);
        lemma_function_bytes_parts(function@, width, endian);
    }
    write_head(function, output, width)?;
    write_lines(function, output)?;
    write_inline(function, output, width)?;
    write_merged(function, output, width)?;
    write_call_sites(function, output, width)?;
    output.write_u32(INFO_END);
    output.write_u32(0);
    proof {
        let head = function_head(function@, width, endian)->Ok_0;
        let b1 = lines_record(function@, endian)->Ok_0;
        let b2 = inline_record(function@, width, endian)->Ok_0;
        let b3 = merged_record(function@, width, endian)->Ok_0;
        let b4 = call_sites_record(function@, width, endian)->Ok_0;
        assert(output.bytes@ =~= start + (head + b1 + b2 + b3 + b4 + end_bytes(endian)));
    }
    Ok(())
}

/// Writes the merged-functions record, where there is one.
fn write_merged(function: &EncodedFunction, output: &mut Encoder, width: u8) -> (result: Result<
    (),
    Error,
>)
    requires
        string_offset_size_error(width) is None,
    ensures
        Encoder::writes(
            *old(output),
            *final(output),
            result,
            merged_record(function@, width, old(output).endian),
        ),
    decreases function, 1int,
{
    proof {
        reveal(merged_record);
        lemma_encoded_function_view(*function);
    }
    let ghost before = *output;
    if function.merged.len() == 0 {
        assert(output.bytes@ + Seq::<u8>::empty() =~= output.bytes@);
        return Ok(());
    }
    let length_offset: usize = begin_record(output, INFO_MERGED);
    encode_merged_into(function, output, width)?;
    let ghost payload = merged_bytes(
        function@.merged,
        width,
        before.endian,
        function.range.start,
    )->Ok_0;
    end_record(output, length_offset, Ghost(before), Ghost(INFO_MERGED), Ghost(payload))
}

/// What a function is written as, in terms of its parts.
proof fn lemma_function_bytes_parts(function: EncodedFunctionView, width: u8, endian: Endian)
    requires
        string_offset_size_error(width) is None,
    ensures
        function_bytes(function, width, endian) == endian::joined(
            endian::joined(
                endian::joined(
                    endian::joined(
                        endian::joined(
                            function_head(function, width, endian),
                            lines_record(function, endian),
                        ),
                        inline_record(function, width, endian),
                    ),
                    merged_record(function, width, endian),
                ),
                call_sites_record(function, width, endian),
            ),
            Ok(end_bytes(endian)),
        ),
{
    reveal(merged_record);
}

/// Writes the payload of the merged-functions record.
fn encode_merged_into(function: &EncodedFunction, output: &mut Encoder, width: u8) -> (result:
    Result<(), Error>)
    requires
        string_offset_size_error(width) is None,
    ensures
        Encoder::writes(
            *old(output),
            *final(output),
            result,
            merged_bytes(function@.merged, width, old(output).endian, function.range.start),
        ),
    decreases function, 0int,
{
    let ghost start = output.bytes@;
    let ghost endian = output.endian;
    let ghost views = encoded_function_views(function.merged@);
    let ghost base = function.range.start;
    proof {
        lemma_encoded_function_view(*function);
    }
    callsite::encode_count(function.merged.len(), "merged-function count", output)?;
    let ghost mut written: Seq<u8> = bytes::uint_bytes(views.len(), 4, endian);
    let mut i: usize = 0;
    while i < function.merged.len()
        invariant
            i <= function.merged@.len(),
            start == old(output).bytes@,
            endian == old(output).endian,
            output.endian == endian,
            output.bytes@ == start + written,
            base == function.range.start,
            string_offset_size_error(width) is None,
            views == encoded_function_views(function.merged@),
            views == function@.merged,
            merged_bytes(views, width, endian, base) == endian::joined(
                Ok(written),
                merged_list_bytes(views, i as int, width, endian, base),
            ),
        decreases function.merged@.len() - i,
    {
        assert(decreases_to!(function => function.merged@[i as int]));
        let merged = &function.merged[i];
        proof {
            lemma_encoded_function_view(*merged);
            assert(views[i as int] == merged@);
            lemma_merged_list_unfold(views, i as int, width, endian, base);
        }
        if merged.range.start != function.range.start {
            return Err(Error::InvalidModel("merged function start differs from its parent"));
        }
        write_sized(merged, output, width)?;
        proof {
            let part = sized_bytes(function_bytes(merged@, width, endian), endian)->Ok_0;
            let before = written;
            written = written + part;
            assert(output.bytes@ =~= start + written);
            if let Ok(rest) = merged_list_bytes(views, i + 1, width, endian, base) {
                assert(before + (part + rest) =~= written + rest);
            }
        }
        i = i + 1;
    }
    assert(output.bytes@ =~= start + (written + Seq::<u8>::empty()));
    Ok(())
}

proof fn lemma_merged_list_unfold(
    functions: Seq<EncodedFunctionView>,
    i: int,
    width: u8,
    endian: Endian,
    base: u64,
)
    requires
        0 <= i < functions.len(),
    ensures
        merged_list_bytes(functions, i, width, endian, base) == (if functions[i].range.start != base {
            Err::<Seq<u8>, Error>(
                Error::InvalidModel("merged function start differs from its parent"),
            )
        } else {
            endian::joined(
                sized_bytes(function_bytes(functions[i], width, endian), endian),
                merged_list_bytes(functions, i + 1, width, endian, base),
            )
        }),
{
}

/// Writes a merged function behind its length.
fn write_sized(function: &EncodedFunction, output: &mut Encoder, width: u8) -> (result: Result<
    (),
    Error,
>)
    requires
        string_offset_size_error(width) is None,
    ensures
        Encoder::writes(
            *old(output),
            *final(output),
            result,
            sized_bytes(
                function_bytes(function@, width, old(output).endian),
                old(output).endian,
            ),
        ),
    decreases function, 3int,
{
    let ghost start = output.bytes@;
    let ghost endian = output.endian;
    let length_offset: usize = output.len();
    output.write_u32(0);
    encode_function(function, output, width)?;
    proof {
        let data = function_bytes(function@, width, endian)->Ok_0;
        let hole = bytes::uint_bytes(0, 4, endian);
        let part = bytes::uint_bytes(data.len(), 4, endian);
        bytes::lemma_uint_bytes_len(0, 4, endian);
        bytes::lemma_uint_bytes_len(data.len(), 4, endian);
        lemma_patched(start, hole, data, part);
        assert(start + part + data =~= start + (part + data));
        assert(output.bytes@ =~= start + hole + data);
    }
    finish_length(output, length_offset, "merged FunctionInfo length")
}

/// The bytes of a function.
pub fn encode(function: &EncodedFunction, endian: Endian, string_offset_size: u8) -> (result:
    Result<Vec<u8>, Error>)
    ensures
        match function_bytes(function@, string_offset_size, endian) {
            Ok(data) => result matches Ok(bytes) && bytes@ == data,
            Err(error) => result == Err::<Vec<u8>, Error>(error),
        },
{
    let mut output = Encoder::new(endian);
    encode_into(function, &mut output, string_offset_size, false)?;
    proof {
        if let Ok(data) = function_bytes(function@, string_offset_size, endian) {
            assert(output.bytes@ =~= data);
        }
    }
    Ok(output.into_inner())
}

/// The size and the name of a function that was written are read back.
pub proof fn lemma_head_reads_back(
    s: Seq<u8>,
    pos: int,
    function: EncodedFunctionView,
    width: u8,
    endian: Endian,
)
    requires
        function_bytes(function, width, endian) is Ok,
        bytes::holds_at(s, pos, function_bytes(function, width, endian)->Ok_0),
    ensures
        function.name != 0,
        function.range.start <= function.range.end,
        function.range.end - function.range.start <= u32::MAX,
        endian::uint_at(s, pos, 4, endian) == Ok::<(u64, int), Error>(
            ((function.range.end - function.range.start) as u64, pos + 4),
        ),
        endian::uint_at(s, pos + 4, width as int, endian) == Ok::<(u64, int), Error>(
            (function.name, pos + 4 + width),
        ),
        function_bytes(function, width, endian)->Ok_0.len() >= 4 + width,
{
    let whole = function_bytes(function, width, endian)->Ok_0;
    let head = function_head(function, width, endian)->Ok_0;
    assert(function_head(function, width, endian) is Ok);
    let rest = whole.subrange(head.len() as int, whole.len() as int);
    assert(whole =~= head + rest);
    bytes::lemma_holds_at_split(s, pos, head, rest);
    reveal(function_head);
    let size = (function.range.end - function.range.start) as nat;
    let one = bytes::uint_bytes(size, 4, endian);
    let two = bytes::uint_bytes(function.name as nat, width as nat, endian);
    bytes::lemma_uint_bytes_len(size, 4, endian);
    bytes::lemma_uint_bytes_len(function.name as nat, width as nat, endian);
    bytes::lemma_pow256_values();
    bytes::lemma_holds_at_split(s, pos, one, two);
    endian::law_uint_reads_back(s, pos, size as u64, 4, endian);
    endian::law_uint_reads_back(s, pos + 4, function.name, width, endian);
}

} // verus!
