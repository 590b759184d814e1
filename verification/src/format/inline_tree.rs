//! Inline trees and the address ranges of their nodes.
use vstd::prelude::*;
use crate::format::leb;
use crate::format::function;
use crate::endian;
use crate::endian::{Cursor, Encoder, Endian};
use crate::error::Error;
use crate::bytes;
use crate::format::function::{
    is_contained, EncodedInlineNode, EncodedInlineView, MAX_INLINE_DEPTH,
};
use crate::format::leb::{read_uleb, write_uleb};
use crate::model::AddressRange;

verus! {

/// Outcome of reading one address range at `pos`, relative to `base`, behind
/// the ranges `done`.
pub open spec fn range_at(s: Seq<u8>, pos: int, base: u64, done: Seq<AddressRange>) -> Result<
    (AddressRange, int),
    Error,
> {
    match leb::uleb_at(s, pos) {
        Err(error) => Err(error),
        Ok((offset, p1)) => if base + offset > u64::MAX {
            Err(Error::Overflow("relative address range start"))
        } else {
            match leb::uleb_at(s, p1) {
                Err(error) => Err(error),
                Ok((size, p2)) => if base + offset + size > u64::MAX {
                    Err(Error::Overflow("address range end"))
                } else if done.len() > 0 && base + offset < done.last().end {
                    Err(Error::InvalidFormat("address ranges overlap or are not sorted"))
                } else {
                    Ok(
                        (
                            AddressRange {
                                start: (base + offset) as u64,
                                end: (base + offset + size) as u64,
                            },
                            p2,
                        ),
                    )
                },
            }
        },
    }
}

/// Outcome of reading `count` more address ranges at `pos`.
pub open spec fn ranges_from(
    s: Seq<u8>,
    pos: int,
    base: u64,
    count: nat,
    done: Seq<AddressRange>,
) -> Result<(Seq<AddressRange>, int), Error>
    decreases count,
{
    if count == 0 {
        Ok((done, pos))
    } else {
        match range_at(s, pos, base, done) {
            Err(error) => Err(error),
            Ok((range, end)) => ranges_from(s, end, base, (count - 1) as nat, done.push(range)),
        }
    }
}

/// Outcome of reading a list of address ranges at `pos`.
pub open spec fn ranges_at(s: Seq<u8>, pos: int, base: u64) -> Result<
    (Seq<AddressRange>, int),
    Error,
> {
    match leb::uleb_at(s, pos) {
        Err(error) => Err(error),
        Ok((count, p1)) => if count > usize::MAX {
            Err(Error::Overflow("address-range count"))
        } else if count > (s.len() - p1) / 2 {
            Err(Error::InvalidFormat("address-range count exceeds remaining input"))
        } else {
            ranges_from(s, p1, base, count as nat, Seq::empty())
        },
    }
}

/// A list of ranges that was read is followed by a later position.
pub proof fn lemma_ranges_advance(
    s: Seq<u8>,
    pos: int,
    base: u64,
    count: nat,
    done: Seq<AddressRange>,
)
    requires
        0 <= pos <= s.len(),
    ensures
        ranges_from(s, pos, base, count, done) matches Ok((ranges, end)) ==> pos <= end <= s.len()
            && ranges.len() == done.len() + count,
    decreases count,
{
    if count > 0 {
        lemma_range_advances(s, pos, base, done);
        if let Ok((range, end)) = range_at(s, pos, base, done) {
            lemma_ranges_advance(s, end, base, (count - 1) as nat, done.push(range));
        }
    }
}

proof fn lemma_range_advances(s: Seq<u8>, pos: int, base: u64, done: Seq<AddressRange>)
    requires
        0 <= pos <= s.len(),
    ensures
        range_at(s, pos, base, done) matches Ok((range, end)) ==> pos < end <= s.len(),
{
    leb::lemma_uleb_advances(s, pos, pos, 0, 0, 64);
    if let Ok((offset, p1)) = leb::uleb_at(s, pos) {
        leb::lemma_uleb_advances(s, p1, p1, 0, 0, 64);
    }
}

pub proof fn lemma_ranges_at_advances(s: Seq<u8>, pos: int, base: u64)
    requires
        0 <= pos <= s.len(),
    ensures
        ranges_at(s, pos, base) matches Ok((ranges, end)) ==> pos < end <= s.len(),
{
    leb::lemma_uleb_advances(s, pos, pos, 0, 0, 64);
    if let Ok((count, p1)) = leb::uleb_at(s, pos) {
        lemma_ranges_advance(s, p1, base, count as nat, Seq::empty());
    }
}

/// Reads a list of address ranges relative to `base`.
pub fn decode_ranges(cursor: &mut Cursor<'_>, base: u64) -> (result: Result<
    Vec<AddressRange>,
    Error,
>)
    requires
        old(cursor).wf(),
    ensures
        final(cursor).wf(),
        final(cursor).same_input(*old(cursor)),
        match ranges_at(old(cursor).bytes@, old(cursor).position as int, base) {
            Ok((ranges, end)) => {
                &&& result matches Ok(list)
                &&& list@ == ranges
                &&& final(cursor).position == end
            },
            Err(error) => result == Err::<Vec<AddressRange>, Error>(error),
        },
{
    let raw_count: u64 = read_uleb(cursor)?;
    if raw_count > usize::MAX as u64 {
        return Err(Error::Overflow("address-range count"));
    }
    let count: usize = raw_count as usize;
    if count > cursor.remaining() / 2 {
        return Err(Error::InvalidFormat("address-range count exceeds remaining input"));
    }
    let ghost s = cursor.bytes@;
    let ghost expected = ranges_from(s, cursor.position as int, base, count as nat, Seq::empty());
    let mut ranges: Vec<AddressRange> = Vec::with_capacity(count);
    let mut i: usize = 0;
    while i < count
        invariant
            i <= count,
            cursor.wf(),
            cursor.bytes@ == s,
            cursor.same_input(*old(cursor)),
            ranges_at(old(cursor).bytes@, old(cursor).position as int, base) == expected,
            expected == ranges_from(
                s,
                cursor.position as int,
                base,
                (count - i) as nat,
                ranges@,
            ),
        decreases count - i,
    {
        let offset: u64 = read_uleb(cursor)?;
        let start: u64 = match base.checked_add(offset) {
            Some(start) => start,
            None => return Err(Error::Overflow("relative address range start")),
        };
        let size: u64 = read_uleb(cursor)?;
        let end: u64 = match start.checked_add(size) {
            Some(end) => end,
            None => return Err(Error::Overflow("address range end")),
        };
        if ranges.len() > 0 && start < ranges[ranges.len() - 1].end {
            return Err(Error::InvalidFormat("address ranges overlap or are not sorted"));
        }
        ranges.push(AddressRange { start, end });
        i = i + 1;
    }
    Ok(ranges)
}

/// What a node holds between its ranges and its children.
pub struct InlineHead {
    /// Whether children follow.
    pub has_children: bool,
    /// String offset of the name.
    pub name: u64,
    /// File of the call.
    pub call_file: u32,
    /// Line of the call.
    pub call_line: u32,
}

/// Outcome of reading what stands between a node's ranges and its children.
pub open spec fn inline_head_at(s: Seq<u8>, pos: int, width: u8, endian: Endian) -> Result<
    (InlineHead, int),
    Error,
> {
    if pos >= s.len() {
        Err(endian::eof_at(s, pos, 1))
    } else {
        match endian::sized_uint_at(s, pos + 1, width, endian) {
            Err(error) => Err(error),
            Ok((name, p2)) => match leb::uleb_at(s, p2) {
                Err(error) => Err(error),
                Ok((file, p3)) => match leb::uleb_at(s, p3) {
                    Err(error) => Err(error),
                    Ok((line, p4)) => if file > u32::MAX {
                        Err(
                            Error::OutOfRange {
                                field: "inline call-file index",
                                value: file,
                                max: u32::MAX as u64,
                            },
                        )
                    } else if line > u32::MAX {
                        Err(
                            Error::OutOfRange {
                                field: "inline call-line",
                                value: line,
                                max: u32::MAX as u64,
                            },
                        )
                    } else {
                        Ok(
                            (
                                InlineHead {
                                    has_children: s[pos] != 0,
                                    name,
                                    call_file: file as u32,
                                    call_line: line as u32,
                                },
                                p4,
                            ),
                        )
                    },
                },
            },
        }
    }
}

pub proof fn lemma_inline_head_advances(s: Seq<u8>, pos: int, width: u8, endian: Endian)
    requires
        0 <= pos,
    ensures
        inline_head_at(s, pos, width, endian) matches Ok((head, end)) ==> pos < end <= s.len(),
{
    if pos < s.len() {
        if let Ok((name, p2)) = endian::uint_at(s, pos + 1, width as int, endian) {
            leb::lemma_uleb_advances(s, p2, p2, 0, 0, 64);
            if let Ok((file, p3)) = leb::uleb_at(s, p2) {
                leb::lemma_uleb_advances(s, p3, p3, 0, 0, 64);
            }
        }
    }
}

/// Outcome of reading the inline node at `pos`, with ranges relative to `base`.
/// A node without a range is a terminator and holds nothing else.
pub open spec fn inline_at(
    s: Seq<u8>,
    pos: int,
    width: u8,
    endian: Endian,
    base: u64,
    depth: nat,
) -> Result<(EncodedInlineView, int), Error>
    decreases s.len() - pos, 0int,
    when 0 <= pos <= s.len()
    via inline_at_decreases
{
    if depth > MAX_INLINE_DEPTH {
        Err(Error::InvalidFormat("inline tree exceeds maximum depth"))
    } else {
        match ranges_at(s, pos, base) {
            Err(error) => Err(error),
            Ok((ranges, p1)) => if ranges.len() == 0 {
                Ok((function::terminator(), p1))
            } else {
                match inline_head_at(s, p1, width, endian) {
                    Err(error) => Err(error),
                    Ok((head, p2)) => {
                        let children = if head.has_children {
                            children_at(
                                s,
                                p2,
                                width,
                                endian,
                                ranges,
                                depth + 1,
                                Seq::empty(),
                            )
                        } else {
                            Ok((Seq::empty(), p2))
                        };
                        match children {
                            Err(error) => Err(error),
                            Ok((children, end)) => Ok(
                                (
                                    EncodedInlineView {
                                        ranges,
                                        name: head.name,
                                        call_file: head.call_file,
                                        call_line: head.call_line,
                                        children,
                                    },
                                    end,
                                ),
                            ),
                        }
                    },
                }
            },
        }
    }
}

/// Outcome of reading the children at `pos` of a node with the ranges
/// `parents`, behind the children `done`. Every node takes at least one byte.
pub open spec fn children_at(
    s: Seq<u8>,
    pos: int,
    width: u8,
    endian: Endian,
    parents: Seq<AddressRange>,
    depth: nat,
    done: Seq<EncodedInlineView>,
) -> Result<(Seq<EncodedInlineView>, int), Error>
    decreases s.len() - pos, 1int,
    when 0 <= pos <= s.len()
{
    match inline_at(s, pos, width, endian, parents[0].start, depth) {
        Err(error) => Err(error),
        Ok((child, end)) => if child.ranges.len() == 0 {
            Ok((done, end))
        } else if !function::contained(child.ranges, parents) {
            Err(Error::InvalidFormat("inline child range is outside its parent"))
        } else if pos < end <= s.len() {
            children_at(s, end, width, endian, parents, depth, done.push(child))
        } else {
            arbitrary()
        },
    }
}

#[via_fn]
proof fn inline_at_decreases(
    s: Seq<u8>,
    pos: int,
    width: u8,
    endian: Endian,
    base: u64,
    depth: nat,
) {
    lemma_ranges_at_advances(s, pos, base);
    if let Ok((ranges, p1)) = ranges_at(s, pos, base) {
        lemma_inline_head_advances(s, p1, width, endian);
    }
}

/// A node that was read ends behind at least one byte of the input.
pub proof fn lemma_inline_advances(
    s: Seq<u8>,
    pos: int,
    width: u8,
    endian: Endian,
    base: u64,
    depth: nat,
)
    requires
        0 <= pos <= s.len(),
    ensures
        inline_at(s, pos, width, endian, base, depth) matches Ok((node, end)) ==> pos < end
            <= s.len(),
    decreases s.len() - pos, 0int,
{
    lemma_ranges_at_advances(s, pos, base);
    if depth <= MAX_INLINE_DEPTH {
        if let Ok((ranges, p1)) = ranges_at(s, pos, base) {
            lemma_inline_head_advances(s, p1, width, endian);
            if let Ok((head, p2)) = inline_head_at(s, p1, width, endian) {
                if ranges.len() > 0 && head.has_children {
                    lemma_children_advance(
                        s,
                        p2,
                        width,
                        endian,
                        ranges,
                        depth + 1,
                        Seq::empty(),
                    );
                }
            }
        }
    }
}

proof fn lemma_children_advance(
    s: Seq<u8>,
    pos: int,
    width: u8,
    endian: Endian,
    parents: Seq<AddressRange>,
    depth: nat,
    done: Seq<EncodedInlineView>,
)
    requires
        0 <= pos <= s.len(),
    ensures
        children_at(s, pos, width, endian, parents, depth, done) matches Ok((children, end)) ==> pos
            < end <= s.len(),
    decreases s.len() - pos, 1int,
{
    lemma_inline_advances(s, pos, width, endian, parents[0].start, depth);
    if let Ok((child, end)) = inline_at(s, pos, width, endian, parents[0].start, depth) {
        if child.ranges.len() > 0 && function::contained(child.ranges, parents) {
            lemma_children_advance(s, end, width, endian, parents, depth, done.push(child));
        }
    }
}

fn decode_inline_head(cursor: &mut Cursor<'_>, width: u8) -> (result: Result<InlineHead, Error>)
    requires
        old(cursor).wf(),
    ensures
        Cursor::reads(
            *old(cursor),
            *final(cursor),
            result,
            inline_head_at(
                old(cursor).bytes@,
                old(cursor).position as int,
                width,
                old(cursor).endian,
            ),
        ),
{
    let flag: u8 = cursor.read_u8()?;
    let name: u64 = cursor.read_uint(width)?;
    let call_file: u64 = read_uleb(cursor)?;
    let call_line: u64 = read_uleb(cursor)?;
    if call_file > u32::MAX as u64 {
        return Err(
            Error::OutOfRange {
                field: "inline call-file index",
                value: call_file,
                max: u32::MAX as u64,
            },
        );
    }
    if call_line > u32::MAX as u64 {
        return Err(
            Error::OutOfRange {
                field: "inline call-line",
                value: call_line,
                max: u32::MAX as u64,
            },
        );
    }
    Ok(
        InlineHead {
            has_children: flag != 0,
            name,
            call_file: call_file as u32,
            call_line: call_line as u32,
        },
    )
}

/// Reads an inline node and what is nested in it.
pub fn decode_inline(cursor: &mut Cursor<'_>, width: u8, base: u64, depth: usize) -> (result: Result<
    EncodedInlineNode,
    Error,
>)
    requires
        old(cursor).wf(),
    ensures
        final(cursor).wf(),
        final(cursor).same_input(*old(cursor)),
        match inline_at(
            old(cursor).bytes@,
            old(cursor).position as int,
            width,
            old(cursor).endian,
            base,
            depth as nat,
        ) {
            Ok((view, end)) => {
                &&& result matches Ok(node)
                &&& node@ == view
                &&& final(cursor).position == end
            },
            Err(error) => result == Err::<EncodedInlineNode, Error>(error),
        },
    decreases old(cursor).bytes@.len() - old(cursor).position,
{
    if depth > MAX_INLINE_DEPTH {
        return Err(Error::InvalidFormat("inline tree exceeds maximum depth"));
    }
    let ghost s = cursor.bytes@;
    let ghost endian = cursor.endian;
    let ghost start = cursor.position as int;
    proof {
        lemma_ranges_at_advances(s, start, base);
    }
    let ranges = decode_ranges(cursor, base)?;
    if ranges.len() == 0 {
        return Ok(EncodedInlineNode::default());
    }
    proof {
        lemma_inline_head_advances(s, cursor.position as int, width, endian);
    }
    let head = decode_inline_head(cursor, width)?;
    let mut children: Vec<EncodedInlineNode> = Vec::new();
    if head.has_children {
        let child_base: u64 = ranges[0].start;
        let ghost first = cursor.position as int;
        let ghost expected = children_at(
            s,
            first,
            width,
            endian,
            ranges@,
            (depth + 1) as nat,
            Seq::empty(),
        );
        proof {
            assert(function::encoded_inline_views(children@) =~= Seq::<
                EncodedInlineView,
            >::empty());
        }
        loop
            invariant
                cursor.wf(),
                cursor.bytes@ == s,
                cursor.endian == endian,
                s == old(cursor).bytes@,
                endian == old(cursor).endian,
                start == old(cursor).position,
                start < cursor.position,
                depth <= MAX_INLINE_DEPTH,
                ranges@.len() > 0,
                child_base == ranges@[0].start,
                inline_at(s, start, width, endian, base, depth as nat) == (match expected {
                    Ok((nested, end)) => Ok::<
                        (EncodedInlineView, int),
                        Error,
                    >(
                        (
                            EncodedInlineView {
                                ranges: ranges@,
                                name: head.name,
                                call_file: head.call_file,
                                call_line: head.call_line,
                                children: nested,
                            },
                            end,
                        ),
                    ),
                    Err(error) => Err(error),
                }),
                expected == children_at(
                    s,
                    cursor.position as int,
                    width,
                    endian,
                    ranges@,
                    (depth + 1) as nat,
                    function::encoded_inline_views(children@),
                ),
            decreases s.len() - cursor.position,
        {
            let ghost before = cursor.position as int;
            let ghost done = function::encoded_inline_views(children@);
            proof {
                lemma_inline_advances(s, before, width, endian, child_base, (depth + 1) as nat);
            }
            let child = decode_inline(cursor, width, child_base, depth + 1)?;
            proof {
                function::lemma_encoded_inline_view(child);
            }
            if child.ranges.len() == 0 {
                let node = EncodedInlineNode {
                    ranges,
                    name: head.name,
                    call_file: head.call_file,
                    call_line: head.call_line,
                    children,
                };
                proof {
                    function::lemma_encoded_inline_view(node);
                }
                return Ok(node);
            }
            if !is_contained(&child.ranges, &ranges) {
                return Err(Error::InvalidFormat("inline child range is outside its parent"));
            }
            children.push(child);
            proof {
                assert(function::encoded_inline_views(children@) =~= done.push(
                    child@,
                ));
            }
        }
    }
    let node = EncodedInlineNode {
        ranges,
        name: head.name,
        call_file: head.call_file,
        call_line: head.call_line,
        children,
    };
    proof {
        function::lemma_encoded_inline_view(node);
        assert(function::encoded_inline_views(node.children@) =~= Seq::<
            EncodedInlineView,
        >::empty());
    }
    Ok(node)
}

/// The bytes of the address ranges from index `i` on, relative to `base`.
pub open spec fn range_list_bytes(ranges: Seq<AddressRange>, i: int, base: u64) -> Result<
    Seq<u8>,
    Error,
>
    decreases ranges.len() - i,
{
    if i >= ranges.len() {
        Ok(Seq::empty())
    } else if ranges[i].start < base || ranges[i].end < ranges[i].start {
        Err(Error::InvalidModel("invalid relative address range"))
    } else if i > 0 && ranges[i].start < ranges[i - 1].end {
        Err(Error::InvalidModel("address ranges overlap or are not sorted"))
    } else {
        endian::joined(
            Ok(
                leb::uleb_bytes((ranges[i].start - base) as nat) + leb::uleb_bytes(
                    (ranges[i].end - ranges[i].start) as nat,
                ),
            ),
            range_list_bytes(ranges, i + 1, base),
        )
    }
}

/// The bytes of a list of address ranges, relative to `base`.
pub open spec fn ranges_bytes(ranges: Seq<AddressRange>, base: u64) -> Result<Seq<u8>, Error> {
    endian::joined(Ok(leb::uleb_bytes(ranges.len())), range_list_bytes(ranges, 0, base))
}

/// The bytes between a node's ranges and its children.
pub open spec fn inline_head_bytes(node: EncodedInlineView, width: u8, endian: Endian) -> Result<
    Seq<u8>,
    Error,
> {
    endian::joined(
        endian::joined(
            Ok(
                seq![
                    if node.children.len() > 0 {
                        1u8
                    } else {
                        0u8
                    },
                ],
            ),
            endian::uint_encoded(node.name, width, endian),
        ),
        Ok(leb::uleb_bytes(node.call_file as nat) + leb::uleb_bytes(node.call_line as nat)),
    )
}

/// The bytes of an inline node and what is nested in it.
pub open spec fn inline_bytes(
    node: EncodedInlineView,
    width: u8,
    endian: Endian,
    base: u64,
    depth: nat,
) -> Result<Seq<u8>, Error>
    decreases node, 0int,
{
    if depth > MAX_INLINE_DEPTH {
        Err(Error::InvalidModel("inline tree exceeds maximum depth"))
    } else if node.ranges.len() == 0 {
        Err(Error::InvalidModel("inline node must contain a range"))
    } else {
        endian::joined(
            endian::joined(
                ranges_bytes(node.ranges, base),
                inline_head_bytes(node, width, endian),
            ),
            if node.children.len() == 0 {
                Ok(Seq::empty())
            } else {
                children_bytes(node.children, 0, width, endian, node.ranges, depth + 1)
            },
        )
    }
}

/// The bytes of the children from index `i` on of a node with the ranges
/// `parents`, and of the terminator behind them.
pub open spec fn children_bytes(
    children: Seq<EncodedInlineView>,
    i: int,
    width: u8,
    endian: Endian,
    parents: Seq<AddressRange>,
    depth: nat,
) -> Result<Seq<u8>, Error>
    decreases children, children.len() - i,
    when 0 <= i
{
    if i >= children.len() {
        Ok(leb::uleb_bytes(0))
    } else if !function::contained(children[i].ranges, parents) {
        Err(Error::InvalidModel("inline child range is outside its parent"))
    } else {
        endian::joined(
            inline_bytes(children[i], width, endian, parents[0].start, depth),
            children_bytes(children, i + 1, width, endian, parents, depth),
        )
    }
}

/// Encoded ranges take at least two bytes each.
proof fn lemma_range_list_len(ranges: Seq<AddressRange>, i: int, base: u64)
    requires
        0 <= i <= ranges.len(),
    ensures
        range_list_bytes(ranges, i, base) matches Ok(b) ==> b.len() >= 2 * (ranges.len() - i),
    decreases ranges.len() - i,
{
    if i < ranges.len() {
        lemma_range_list_len(ranges, i + 1, base);
        leb::lemma_leb_nonempty((ranges[i].start - base) as nat, 0);
        leb::lemma_leb_nonempty((ranges[i].end - ranges[i].start) as nat, 0);
    }
}

proof fn lemma_range_list_round_trip(
    s: Seq<u8>,
    pos: int,
    ranges: Seq<AddressRange>,
    i: int,
    base: u64,
)
    requires
        0 <= i <= ranges.len(),
        range_list_bytes(ranges, i, base) is Ok,
        bytes::holds_at(s, pos, range_list_bytes(ranges, i, base)->Ok_0),
    ensures
        ranges_from(s, pos, base, (ranges.len() - i) as nat, ranges.subrange(0, i)) == Ok::<
            (Seq<AddressRange>, int),
            Error,
        >((ranges, pos + range_list_bytes(ranges, i, base)->Ok_0.len())),
    decreases ranges.len() - i,
{
    if i == ranges.len() {
        assert(ranges.subrange(0, i) =~= ranges);
    } else {
        let range = ranges[i];
        let b1 = leb::uleb_bytes((range.start - base) as nat);
        let b2 = leb::uleb_bytes((range.end - range.start) as nat);
        let rest = range_list_bytes(ranges, i + 1, base)->Ok_0;
        bytes::lemma_holds_at_split(s, pos, b1 + b2, rest);
        bytes::lemma_holds_at_split(s, pos, b1, b2);
        leb::law_uleb_round_trip(s, pos, (range.start - base) as u64);
        leb::law_uleb_round_trip(s, pos + b1.len(), (range.end - range.start) as u64);
        let done = ranges.subrange(0, i);
        if i > 0 {
            assert(done.last() == ranges[i - 1]);
        }
        assert(range_at(s, pos, base, done) == Ok::<(AddressRange, int), Error>(
            (range, pos + (b1 + b2).len()),
        ));
        assert(done.push(range) =~= ranges.subrange(0, i + 1));
        lemma_range_list_round_trip(s, pos + (b1 + b2).len(), ranges, i + 1, base);
    }
}

/// Reading gives back the address ranges that were written.
pub proof fn law_ranges_round_trip(s: Seq<u8>, pos: int, ranges: Seq<AddressRange>, base: u64)
    requires
        ranges_bytes(ranges, base) is Ok,
        bytes::holds_at(s, pos, ranges_bytes(ranges, base)->Ok_0),
        s.len() <= usize::MAX,
    ensures
        ranges_at(s, pos, base) == Ok::<(Seq<AddressRange>, int), Error>(
            (ranges, pos + ranges_bytes(ranges, base)->Ok_0.len()),
        ),
{
    let b1 = leb::uleb_bytes(ranges.len());
    let rest = range_list_bytes(ranges, 0, base)->Ok_0;
    bytes::lemma_holds_at_split(s, pos, b1, rest);
    lemma_range_list_len(ranges, 0, base);
    assert(ranges.len() <= u64::MAX);
    leb::law_uleb_round_trip(s, pos, ranges.len() as u64);
    assert(ranges.subrange(0, 0) =~= Seq::<AddressRange>::empty());
    lemma_range_list_round_trip(s, pos + b1.len(), ranges, 0, base);
}

proof fn lemma_inline_head_round_trip(
    s: Seq<u8>,
    pos: int,
    node: EncodedInlineView,
    width: u8,
    endian: Endian,
)
    requires
        inline_head_bytes(node, width, endian) is Ok,
        bytes::holds_at(s, pos, inline_head_bytes(node, width, endian)->Ok_0),
    ensures
        inline_head_at(s, pos, width, endian) == Ok::<(InlineHead, int), Error>(
            (
                InlineHead {
                    has_children: node.children.len() > 0,
                    name: node.name,
                    call_file: node.call_file,
                    call_line: node.call_line,
                },
                pos + inline_head_bytes(node, width, endian)->Ok_0.len(),
            ),
        ),
{
    let flag = seq![
        if node.children.len() > 0 {
            1u8
        } else {
            0u8
        },
    ];
    let name = bytes::uint_bytes(node.name as nat, width as nat, endian);
    let file = leb::uleb_bytes(node.call_file as nat);
    let line = leb::uleb_bytes(node.call_line as nat);
    bytes::lemma_uint_bytes_len(node.name as nat, width as nat, endian);
    bytes::lemma_holds_at_split(s, pos, flag + name, file + line);
    bytes::lemma_holds_at_split(s, pos, flag, name);
    bytes::lemma_holds_at_split(s, pos + (flag + name).len(), file, line);
    bytes::lemma_holds_at_index(s, pos, flag, 0);
    endian::law_uint_reads_back(s, pos + 1, node.name, width, endian);
    leb::law_uleb_round_trip(s, pos + (flag + name).len(), node.call_file as u64);
    leb::law_uleb_round_trip(s, pos + (flag + name).len() + file.len(), node.call_line as u64);
}

/// Reading gives back the inline tree that was written.
pub proof fn law_inline_round_trip(
    s: Seq<u8>,
    pos: int,
    node: EncodedInlineView,
    width: u8,
    endian: Endian,
    base: u64,
    depth: nat,
)
    requires
        inline_bytes(node, width, endian, base, depth) is Ok,
        bytes::holds_at(s, pos, inline_bytes(node, width, endian, base, depth)->Ok_0),
        s.len() <= usize::MAX,
    ensures
        inline_at(s, pos, width, endian, base, depth) == Ok::<(EncodedInlineView, int), Error>(
            (node, pos + inline_bytes(node, width, endian, base, depth)->Ok_0.len()),
        ),
    decreases node, 0int,
{
    let b1 = ranges_bytes(node.ranges, base)->Ok_0;
    let b2 = inline_head_bytes(node, width, endian)->Ok_0;
    if node.children.len() == 0 {
        assert(b1 + b2 + Seq::<u8>::empty() =~= b1 + b2);
        bytes::lemma_holds_at_split(s, pos, b1, b2);
        law_ranges_round_trip(s, pos, node.ranges, base);
        lemma_inline_head_round_trip(s, pos + b1.len(), node, width, endian);
        assert(node.children =~= Seq::<EncodedInlineView>::empty());
    } else {
        let b3 = children_bytes(node.children, 0, width, endian, node.ranges, depth + 1)->Ok_0;
        bytes::lemma_holds_at_split(s, pos, b1 + b2, b3);
        bytes::lemma_holds_at_split(s, pos, b1, b2);
        law_ranges_round_trip(s, pos, node.ranges, base);
        lemma_inline_head_round_trip(s, pos + b1.len(), node, width, endian);
        assert(node.children.subrange(0, 0) =~= Seq::<EncodedInlineView>::empty());
        lemma_children_round_trip(
            s,
            pos + (b1 + b2).len(),
            node.children,
            0,
            width,
            endian,
            node.ranges,
            depth + 1,
        );
    }
}

proof fn lemma_children_round_trip(
    s: Seq<u8>,
    pos: int,
    children: Seq<EncodedInlineView>,
    i: int,
    width: u8,
    endian: Endian,
    parents: Seq<AddressRange>,
    depth: nat,
)
    requires
        0 <= i <= children.len(),
        children_bytes(children, i, width, endian, parents, depth) is Ok,
        bytes::holds_at(s, pos, children_bytes(children, i, width, endian, parents, depth)->Ok_0),
        s.len() <= usize::MAX,
        depth <= MAX_INLINE_DEPTH + 1,
        i == children.len() ==> depth <= MAX_INLINE_DEPTH,
    ensures
        children_at(s, pos, width, endian, parents, depth, children.subrange(0, i)) == Ok::<
            (Seq<EncodedInlineView>, int),
            Error,
        >(
            (
                children,
                pos + children_bytes(children, i, width, endian, parents, depth)->Ok_0.len(),
            ),
        ),
    decreases children, children.len() - i,
{
    let base = parents[0].start;
    if i == children.len() {
        let none = leb::uleb_bytes(0);
        leb::law_uleb_round_trip(s, pos, 0);
        assert(children.subrange(0, i) =~= children);
        assert(ranges_at(s, pos, base) == Ok::<(Seq<AddressRange>, int), Error>(
            (Seq::empty(), pos + none.len()),
        ));
    } else {
        let child = children[i];
        let part = inline_bytes(child, width, endian, base, depth)->Ok_0;
        let rest = children_bytes(children, i + 1, width, endian, parents, depth)->Ok_0;
        bytes::lemma_holds_at_split(s, pos, part, rest);
        law_inline_round_trip(s, pos, child, width, endian, base, depth);
        lemma_inline_advances(s, pos, width, endian, base, depth);
        assert(children.subrange(0, i).push(child) =~= children.subrange(0, i + 1));
        lemma_children_round_trip(
            s,
            pos + part.len(),
            children,
            i + 1,
            width,
            endian,
            parents,
            depth,
        );
    }
}

/// Writes a list of address ranges relative to `base`.
fn encode_ranges(ranges: &Vec<AddressRange>, output: &mut Encoder, base: u64) -> (result: Result<
    (),
    Error,
>)
    ensures
        Encoder::writes(*old(output), *final(output), result, ranges_bytes(ranges@, base)),
{
    write_uleb(output, ranges.len() as u64);
    let ghost start = old(output).bytes@;
    let ghost mut written: Seq<u8> = leb::uleb_bytes(ranges@.len());
    let mut i: usize = 0;
    proof {
        if let Ok(rest) = range_list_bytes(ranges@, 0, base) {
            assert(output.bytes@ =~= start + written);
        }
    }
    while i < ranges.len()
        invariant
            i <= ranges@.len(),
            start == old(output).bytes@,
            output.endian == old(output).endian,
            output.bytes@ == start + written,
            ranges_bytes(ranges@, base) == endian::joined(
                Ok(written),
                range_list_bytes(ranges@, i as int, base),
            ),
        decreases ranges@.len() - i,
    {
        let range: AddressRange = ranges[i];
        if range.start < base || range.end < range.start {
            return Err(Error::InvalidModel("invalid relative address range"));
        }
        if i > 0 && range.start < ranges[i - 1].end {
            return Err(Error::InvalidModel("address ranges overlap or are not sorted"));
        }
        write_uleb(output, range.start - base);
        write_uleb(output, range.end - range.start);
        proof {
            let part = leb::uleb_bytes((range.start - base) as nat) + leb::uleb_bytes(
                (range.end - range.start) as nat,
            );
            let before = written;
            written = written + part;
            assert(output.bytes@ =~= start + written);
            if let Ok(rest) = range_list_bytes(ranges@, i + 1, base) {
                assert(before + (part + rest) =~= written + rest);
            }
        }
        i = i + 1;
    }
    assert(output.bytes@ =~= start + (written + Seq::<u8>::empty()));
    Ok(())
}

fn encode_inline_head(node: &EncodedInlineNode, output: &mut Encoder, width: u8) -> (result: Result<
    (),
    Error,
>)
    ensures
        Encoder::writes(
            *old(output),
            *final(output),
            result,
            inline_head_bytes(node@, width, old(output).endian),
        ),
{
    proof {
        function::lemma_encoded_inline_view(*node);
    }
    let ghost start = output.bytes@;
    let flag: u8 = if node.children.len() > 0 {
        1
    } else {
        0
    };
    output.write_u8(flag);
    output.write_uint(node.name, width)?;
    write_uleb(output, node.call_file as u64);
    write_uleb(output, node.call_line as u64);
    assert(output.bytes@ =~= start + inline_head_bytes(node@, width, output.endian)->Ok_0);
    Ok(())
}

/// Writes an inline node and what is nested in it.
pub fn encode_inline(
    node: &EncodedInlineNode,
    output: &mut Encoder,
    width: u8,
    base: u64,
    depth: usize,
) -> (result: Result<(), Error>)
    ensures
        Encoder::writes(
            *old(output),
            *final(output),
            result,
            inline_bytes(node@, width, old(output).endian, base, depth as nat),
        ),
    decreases node,
{
    proof {
        function::lemma_encoded_inline_view(*node);
    }
    let ghost start = output.bytes@;
    let ghost endian = output.endian;
    if depth > MAX_INLINE_DEPTH {
        return Err(Error::InvalidModel("inline tree exceeds maximum depth"));
    }
    if node.ranges.len() == 0 {
        return Err(Error::InvalidModel("inline node must contain a range"));
    }
    encode_ranges(&node.ranges, output, base)?;
    let ghost b1 = ranges_bytes(node.ranges@, base)->Ok_0;
    encode_inline_head(node, output, width)?;
    let ghost b2 = inline_head_bytes(node@, width, endian)->Ok_0;
    let ghost mut written: Seq<u8> = b1 + b2;
    assert(output.bytes@ =~= start + written);
    if node.children.len() > 0 {
        let child_base: u64 = node.ranges[0].start;
        let ghost views = function::encoded_inline_views(node.children@);
        let ghost expected = inline_bytes(node@, width, endian, base, depth as nat);
        let mut i: usize = 0;
        while i < node.children.len()
            invariant
                i <= node.children@.len(),
                start == old(output).bytes@,
                endian == old(output).endian,
                output.endian == endian,
                output.bytes@ == start + written,
                depth <= MAX_INLINE_DEPTH,
                node.ranges@.len() > 0,
                child_base == node.ranges@[0].start,
                views == function::encoded_inline_views(node.children@),
                inline_bytes(node@, width, endian, base, depth as nat) == expected,
                expected == endian::joined(
                    Ok(written),
                    children_bytes(
                        views,
                        i as int,
                        width,
                        endian,
                        node.ranges@,
                        (depth + 1) as nat,
                    ),
                ),
            decreases node.children@.len() - i,
        {
            assert(decreases_to!(node => node.children@[i as int]));
            proof {
                function::lemma_encoded_inline_view(node.children@[i as int]);
                assert(views[i as int] == node.children@[i as int]@);
            }
            let child = &node.children[i];
            if !is_contained(&child.ranges, &node.ranges) {
                return Err(Error::InvalidModel("inline child range is outside its parent"));
            }
            encode_inline(child, output, width, child_base, depth + 1)?;
            proof {
                let part = inline_bytes(
                    child@,
                    width,
                    endian,
                    child_base,
                    (depth + 1) as nat,
                )->Ok_0;
                let before = written;
                written = written + part;
                assert(output.bytes@ =~= start + written);
                if let Ok(rest) = children_bytes(
                    views,
                    i + 1,
                    width,
                    endian,
                    node.ranges@,
                    (depth + 1) as nat,
                ) {
                    assert(before + (part + rest) =~= written + rest);
                }
            }
            i = i + 1;
        }
        write_uleb(output, 0);
        assert(output.bytes@ =~= start + (written + leb::uleb_bytes(0)));
    } else {
        assert(output.bytes@ =~= start + (written + Seq::<u8>::empty()));
    }
    Ok(())
}

} // verus!
