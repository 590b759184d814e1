//! Walk through an inline record to the calls that cover an address.
use vstd::prelude::*;
use crate::endian;
use crate::endian::{Cursor, Endian};
use crate::error::Error;
use crate::format::function;
use crate::format::function::{check_inline_depth, EncodedInlineView, MAX_INLINE_DEPTH};
use crate::format::inline_tree;
use crate::format::leb;
use crate::format::leb::read_uleb;
use crate::model::{AddressRange, FileIndex};
use crate::reader::scratch;
use crate::reader::scratch::{LookupScratch, RawInlineFrame};

verus! {

/// What the ranges of a node say of an address.
pub struct RangeScan {
    /// Start of the first range.
    pub first: u64,
    /// Whether one of the ranges contains the address.
    pub contains: bool,
}

/// Outcome of reading one range at `pos`, relative to `base`.
pub open spec fn scan_range_at(s: Seq<u8>, pos: int, base: u64) -> Result<(AddressRange, int), Error> {
    match leb::uleb_at(s, pos) {
        Err(error) => Err(error),
        Ok((offset, p1)) => if base + offset > u64::MAX {
            Err(Error::Overflow("inline range start"))
        } else {
            match leb::uleb_at(s, p1) {
                Err(error) => Err(error),
                Ok((size, p2)) => if base + offset + size > u64::MAX {
                    Err(Error::Overflow("inline range end"))
                } else {
                    Ok(
                        (
                            AddressRange {
                                start: (base + offset) as u64,
                                end: (base + offset + size) as u64,
                            },
                            p2,
                        ),
                    )
                },
            }
        },
    }
}

/// Outcome of reading `count` more ranges at `pos`: whether `address` lies in
/// one of them, or did in one before.
pub open spec fn scan_ranges_from(
    s: Seq<u8>,
    pos: int,
    base: u64,
    count: nat,
    address: u64,
    contains: bool,
) -> Result<(bool, int), Error>
    decreases count,
{
    if count == 0 {
        Ok((contains, pos))
    } else {
        match scan_range_at(s, pos, base) {
            Err(error) => Err(error),
            Ok((range, end)) => scan_ranges_from(
                s,
                end,
                base,
                (count - 1) as nat,
                address,
                contains || range.spec_contains(address),
            ),
        }
    }
}

/// Outcome of reading the ranges of the node at `pos`; none for a terminator.
pub open spec fn scan_ranges_at(s: Seq<u8>, pos: int, base: u64, address: u64) -> Result<
    (Option<RangeScan>, int),
    Error,
> {
    match leb::uleb_at(s, pos) {
        Err(error) => Err(error),
        Ok((count, p1)) => if count == 0 {
            Ok((None, p1))
        } else if count > (s.len() - p1) / 2 {
            Err(Error::InvalidFormat("inline range count exceeds remaining payload"))
        } else {
            match scan_range_at(s, p1, base) {
                Err(error) => Err(error),
                Ok((first, p2)) => match scan_ranges_from(
                    s,
                    p2,
                    base,
                    (count - 1) as nat,
                    address,
                    first.spec_contains(address),
                ) {
                    Err(error) => Err(error),
                    Ok((contains, end)) => Ok(
                        (Some(RangeScan { first: first.start, contains }), end),
                    ),
                },
            }
        },
    }
}

/// What a node holds between its ranges and its children, before the call site
/// is narrowed.
pub struct ScanHead {
    /// Whether children follow.
    pub has_children: bool,
    /// String offset of the name.
    pub name: u64,
    /// File of the call.
    pub call_file: u64,
    /// Line of the call.
    pub call_line: u64,
}

/// Outcome of reading what stands between a node's ranges and its children.
pub open spec fn scan_head_at(s: Seq<u8>, pos: int, width: u8, endian: Endian) -> Result<
    (ScanHead, int),
    Error,
> {
    if pos >= s.len() {
        Err(endian::eof_at(s, pos, 1))
    } else {
        match endian::sized_uint_at(s, pos + 1, width, endian) {
            Err(error) => Err(error),
            Ok((name, p2)) => match leb::uleb_at(s, p2) {
                Err(error) => Err(error),
                Ok((call_file, p3)) => match leb::uleb_at(s, p3) {
                    Err(error) => Err(error),
                    Ok((call_line, p4)) => Ok(
                        (ScanHead { has_children: s[pos] != 0, name, call_file, call_line }, p4),
                    ),
                },
            },
        }
    }
}

/// The frame of the function that was emitted, where the root of its inline tree
/// has no name. It has the name of the function.
pub open spec fn emitted_frame(start: u64) -> RawInlineFrame {
    RawInlineFrame { name: 0, call_file: FileIndex(0), call_line: 0, start }
}

/// The frame of a node that covers the address, where it has a name. The root,
/// which stands for the function that starts at `base`, has a frame in any case.
pub open spec fn own_frame(
    head: ScanHead,
    base: u64,
    start: u64,
    matched: bool,
    root: bool,
) -> Result<Seq<RawInlineFrame>, Error> {
    if !matched {
        Ok(Seq::empty())
    } else if head.name == 0 {
        Ok(
            if root {
                seq![emitted_frame(base)]
            } else {
                Seq::empty()
            },
        )
    } else if head.call_file > u32::MAX {
        Err(
            Error::OutOfRange {
                field: "inline call-file index",
                value: head.call_file,
                max: u32::MAX as u64,
            },
        )
    } else if head.call_line > u32::MAX {
        Err(
            Error::OutOfRange {
                field: "inline call-line",
                value: head.call_line,
                max: u32::MAX as u64,
            },
        )
    } else {
        Ok(
            seq![
                RawInlineFrame {
                    name: head.name,
                    call_file: FileIndex(head.call_file as u32),
                    call_line: head.call_line as u32,
                    start,
                },
            ],
        )
    }
}

/// What a walk through a node found.
pub struct Scan {
    /// Whether there is a node and no terminator.
    pub present: bool,
    /// Whether the node covers the address.
    pub matched: bool,
    /// The named calls that cover the address, the outermost first.
    pub frames: Seq<RawInlineFrame>,
}

/// Outcome of walking through the node at `pos`. Frames are collected only
/// where `collect` is set; the rest is read all the same.
pub open spec fn scan_at(
    s: Seq<u8>,
    pos: int,
    width: u8,
    endian: Endian,
    base: u64,
    address: u64,
    collect: bool,
    depth: nat,
) -> Result<(Scan, int), Error>
    decreases s.len() - pos, 0int,
    when 0 <= pos <= s.len()
    via scan_at_decreases
{
    match function::inline_depth_error(depth) {
        Some(error) => Err(error),
        None => match scan_ranges_at(s, pos, base, address) {
            Err(error) => Err(error),
            Ok((None, end)) => Ok(
                (Scan { present: false, matched: false, frames: Seq::empty() }, end),
            ),
            Ok((Some(ranges), p1)) => match scan_head_at(s, p1, width, endian) {
                Err(error) => Err(error),
                Ok((head, p2)) => {
                    let matched = collect && ranges.contains;
                    match own_frame(head, base, ranges.first, matched, depth == 0) {
                        Err(error) => Err(error),
                        Ok(own) => {
                            let rest = if head.has_children {
                                scan_children_at(
                                    s,
                                    p2,
                                    width,
                                    endian,
                                    ranges.first,
                                    address,
                                    matched,
                                    depth + 1,
                                    own,
                                )
                            } else {
                                Ok((own, p2))
                            };
                            match rest {
                                Err(error) => Err(error),
                                Ok((frames, end)) => Ok(
                                    (Scan { present: true, matched, frames }, end),
                                ),
                            }
                        },
                    }
                },
            },
        },
    }
}

/// Outcome of walking through the children at `pos`, behind the frames `done`.
/// Only the first child that covers the address adds frames. Every node takes
/// at least one byte.
pub open spec fn scan_children_at(
    s: Seq<u8>,
    pos: int,
    width: u8,
    endian: Endian,
    base: u64,
    address: u64,
    collect: bool,
    depth: nat,
    done: Seq<RawInlineFrame>,
) -> Result<(Seq<RawInlineFrame>, int), Error>
    decreases s.len() - pos, 1int,
    when 0 <= pos <= s.len()
{
    match scan_at(s, pos, width, endian, base, address, collect, depth) {
        Err(error) => Err(error),
        Ok((child, end)) => if !child.present {
            Ok((done, end))
        } else if pos < end <= s.len() {
            scan_children_at(
                s,
                end,
                width,
                endian,
                base,
                address,
                collect && !child.matched,
                depth,
                done + child.frames,
            )
        } else {
            arbitrary()
        },
    }
}

#[via_fn]
proof fn scan_at_decreases(
    s: Seq<u8>,
    pos: int,
    width: u8,
    endian: Endian,
    base: u64,
    address: u64,
    collect: bool,
    depth: nat,
) {
    lemma_scan_ranges_advance(s, pos, base, address);
    if let Ok((ranges, p1)) = scan_ranges_at(s, pos, base, address) {
        lemma_scan_head_advances(s, p1, width, endian);
    }
}

proof fn lemma_scan_range_advances(s: Seq<u8>, pos: int, base: u64)
    requires
        0 <= pos <= s.len(),
    ensures
        scan_range_at(s, pos, base) matches Ok((range, end)) ==> pos < end <= s.len(),
{
    leb::lemma_uleb_advances(s, pos, pos, 0, 0, 64);
    if let Ok((offset, p1)) = leb::uleb_at(s, pos) {
        leb::lemma_uleb_advances(s, p1, p1, 0, 0, 64);
    }
}

proof fn lemma_scan_ranges_from_advance(
    s: Seq<u8>,
    pos: int,
    base: u64,
    count: nat,
    address: u64,
    contains: bool,
)
    requires
        0 <= pos <= s.len(),
    ensures
        scan_ranges_from(s, pos, base, count, address, contains) matches Ok((found, end)) ==> pos
            <= end <= s.len(),
    decreases count,
{
    if count > 0 {
        lemma_scan_range_advances(s, pos, base);
        if let Ok((range, end)) = scan_range_at(s, pos, base) {
            lemma_scan_ranges_from_advance(
                s,
                end,
                base,
                (count - 1) as nat,
                address,
                contains || range.spec_contains(address),
            );
        }
    }
}

proof fn lemma_scan_ranges_advance(s: Seq<u8>, pos: int, base: u64, address: u64)
    requires
        0 <= pos <= s.len(),
    ensures
        scan_ranges_at(s, pos, base, address) matches Ok((ranges, end)) ==> pos < end <= s.len(),
{
    leb::lemma_uleb_advances(s, pos, pos, 0, 0, 64);
    if let Ok((count, p1)) = leb::uleb_at(s, pos) {
        lemma_scan_range_advances(s, p1, base);
        if let Ok((first, p2)) = scan_range_at(s, p1, base) {
            if count > 0 {
                lemma_scan_ranges_from_advance(
                    s,
                    p2,
                    base,
                    (count - 1) as nat,
                    address,
                    first.spec_contains(address),
                );
            }
        }
    }
}

proof fn lemma_scan_head_advances(s: Seq<u8>, pos: int, width: u8, endian: Endian)
    requires
        0 <= pos,
    ensures
        scan_head_at(s, pos, width, endian) matches Ok((head, end)) ==> pos < end <= s.len(),
{
    if pos < s.len() {
        if let Ok((name, p2)) = endian::uint_at(s, pos + 1, width as int, endian) {
            leb::lemma_uleb_advances(s, p2, p2, 0, 0, 64);
            if let Ok((file, p3)) = leb::uleb_at(s, p2) {
                leb::lemma_uleb_advances(s, p3, p3, 0, 0, 64);
            }
        }
    }
}

/// A walk ends behind at least one byte, and finds nothing where nothing is
/// collected.
proof fn lemma_scan(
    s: Seq<u8>,
    pos: int,
    width: u8,
    endian: Endian,
    base: u64,
    address: u64,
    collect: bool,
    depth: nat,
)
    requires
        0 <= pos <= s.len(),
    ensures
        scan_at(s, pos, width, endian, base, address, collect, depth) matches Ok((scan, end)) ==> {
            &&& pos < end <= s.len()
            &&& !collect ==> !scan.matched
            &&& !scan.matched ==> scan.frames.len() == 0
        },
    decreases s.len() - pos, 0int,
{
    lemma_scan_ranges_advance(s, pos, base, address);
    if function::inline_depth_error(depth) is None {
        if let Ok((Some(ranges), p1)) = scan_ranges_at(s, pos, base, address) {
            lemma_scan_head_advances(s, p1, width, endian);
            if let Ok((head, p2)) = scan_head_at(s, p1, width, endian) {
                let matched = collect && ranges.contains;
                if let Ok(own) = own_frame(head, base, ranges.first, matched, depth == 0) {
                    if head.has_children {
                        lemma_scan_children(
                            s,
                            p2,
                            width,
                            endian,
                            ranges.first,
                            address,
                            matched,
                            depth + 1,
                            own,
                        );
                    }
                }
            }
        }
    }
}

proof fn lemma_scan_children(
    s: Seq<u8>,
    pos: int,
    width: u8,
    endian: Endian,
    base: u64,
    address: u64,
    collect: bool,
    depth: nat,
    done: Seq<RawInlineFrame>,
)
    requires
        0 <= pos <= s.len(),
    ensures
        scan_children_at(
            s,
            pos,
            width,
            endian,
            base,
            address,
            collect,
            depth,
            done,
        ) matches Ok((frames, end)) ==> {
            &&& pos < end <= s.len()
            &&& !collect ==> frames == done
        },
    decreases s.len() - pos, 1int,
{
    lemma_scan(s, pos, width, endian, base, address, collect, depth);
    if let Ok((child, end)) = scan_at(s, pos, width, endian, base, address, collect, depth) {
        if child.present {
            lemma_scan_children(
                s,
                end,
                width,
                endian,
                base,
                address,
                collect && !child.matched,
                depth,
                done + child.frames,
            );
            assert(!collect ==> done + child.frames =~= done);
        }
    }
}

/// The named calls of an inline tree that cover an address, the outermost
/// first: of the children of a node, the first that covers it is followed.
pub open spec fn path_of(node: EncodedInlineView, address: u64) -> Seq<RawInlineFrame>
    decreases node, 0int,
{
    if !covers(node.ranges, address) {
        Seq::empty()
    } else {
        let own = if node.name == 0 {
            Seq::empty()
        } else {
            seq![
                RawInlineFrame {
                    name: node.name,
                    call_file: FileIndex(node.call_file),
                    call_line: node.call_line,
                    start: node.ranges[0].start,
                },
            ]
        };
        own + path_through(node.children, 0, address)
    }
}

/// The calls of an inline tree that cover an address, the outermost first: the
/// function that was emitted, which starts at `start`, and the named calls in it.
pub open spec fn rooted_path(node: EncodedInlineView, start: u64, address: u64) -> Seq<
    RawInlineFrame,
> {
    if covers(node.ranges, address) && node.name == 0 {
        seq![emitted_frame(start)] + path_through(node.children, 0, address)
    } else {
        path_of(node, address)
    }
}

/// The path through the first of the children from index `i` on that covers
/// the address.
pub open spec fn path_through(children: Seq<EncodedInlineView>, i: int, address: u64) -> Seq<
    RawInlineFrame,
>
    decreases children, children.len() - i,
    when 0 <= i
{
    if i >= children.len() {
        Seq::empty()
    } else if covers(children[i].ranges, address) {
        path_of(children[i], address)
    } else {
        path_through(children, i + 1, address)
    }
}

/// Whether one of the ranges contains the address.
pub open spec fn covers(ranges: Seq<AddressRange>, address: u64) -> bool {
    exists|i: int| 0 <= i < ranges.len() && (#[trigger] ranges[i]).spec_contains(address)
}

proof fn lemma_covers_push(ranges: Seq<AddressRange>, range: AddressRange, address: u64)
    ensures
        covers(ranges.push(range), address) == (covers(ranges, address) || range.spec_contains(
            address,
        )),
{
    let grown = ranges.push(range);
    if covers(ranges, address) {
        let i = choose|i: int|
            0 <= i < ranges.len() && (#[trigger] ranges[i]).spec_contains(address);
        assert(grown[i].spec_contains(address));
    }
    if range.spec_contains(address) {
        assert(grown[ranges.len() as int].spec_contains(address));
    }
    if covers(grown, address) {
        let i = choose|i: int|
            0 <= i < grown.len() && (#[trigger] grown[i]).spec_contains(address);
        if i < ranges.len() {
            assert(ranges[i].spec_contains(address));
        }
    }
}

proof fn lemma_ranges_agree(
    s: Seq<u8>,
    pos: int,
    base: u64,
    count: nat,
    done: Seq<AddressRange>,
    address: u64,
)
    requires
        inline_tree::ranges_from(s, pos, base, count, done) is Ok,
    ensures
        ({
            let (ranges, end) = inline_tree::ranges_from(s, pos, base, count, done)->Ok_0;
            &&& scan_ranges_from(s, pos, base, count, address, covers(done, address)) == Ok::<
                (bool, int),
                Error,
            >((covers(ranges, address), end))
            &&& done.len() <= ranges.len()
            &&& forall|i: int| 0 <= i < done.len() ==> ranges[i] == done[i]
        }),
    decreases count,
{
    if count > 0 {
        let (range, end) = inline_tree::range_at(s, pos, base, done)->Ok_0;
        lemma_covers_push(done, range, address);
        lemma_ranges_agree(s, end, base, (count - 1) as nat, done.push(range), address);
        assert forall|i: int| 0 <= i < done.len() implies inline_tree::ranges_from(
            s,
            pos,
            base,
            count,
            done,
        )->Ok_0.0[i] == done[i] by {
            assert(done.push(range)[i] == done[i]);
        }
    }
}

/// Where the ranges of a node decode, the walk sees the same ranges.
proof fn lemma_range_lists_agree(s: Seq<u8>, pos: int, base: u64, address: u64)
    requires
        inline_tree::ranges_at(s, pos, base) is Ok,
    ensures
        ({
            let (ranges, end) = inline_tree::ranges_at(s, pos, base)->Ok_0;
            scan_ranges_at(s, pos, base, address) == Ok::<(Option<RangeScan>, int), Error>(
                (
                    if ranges.len() == 0 {
                        None
                    } else {
                        Some(
                            RangeScan {
                                first: ranges[0].start,
                                contains: covers(ranges, address),
                            },
                        )
                    },
                    end,
                ),
            )
        }),
{
    let (count, p1) = leb::uleb_at(s, pos)->Ok_0;
    let none = Seq::<AddressRange>::empty();
    if count > 0 {
        let (first, p2) = inline_tree::range_at(s, p1, base, none)->Ok_0;
        lemma_covers_push(none, first, address);
        assert(!covers(none, address));
        lemma_ranges_agree(s, p2, base, (count - 1) as nat, none.push(first), address);
        assert(inline_tree::ranges_from(s, p1, base, count as nat, none)
            == inline_tree::ranges_from(s, p2, base, (count - 1) as nat, none.push(first)));
        assert(none.push(first)[0] == first);
    }
}

/// Walking to an address through an inline record that decodes finds the named
/// calls of the decoded tree that cover the address, behind the function that
/// was emitted.
pub proof fn law_scan_follows_tree(
    s: Seq<u8>,
    pos: int,
    width: u8,
    endian: Endian,
    base: u64,
    address: u64,
    collect: bool,
    depth: nat,
)
    requires
        0 <= pos <= s.len(),
        inline_tree::inline_at(s, pos, width, endian, base, depth) is Ok,
    ensures
        ({
            let (node, end) = inline_tree::inline_at(s, pos, width, endian, base, depth)->Ok_0;
            scan_at(s, pos, width, endian, base, address, collect, depth) == Ok::<
                (Scan, int),
                Error,
            >(
                (
                    Scan {
                        present: node.ranges.len() > 0,
                        matched: collect && covers(node.ranges, address),
                        frames: if !collect {
                            Seq::empty()
                        } else if depth == 0 {
                            rooted_path(node, base, address)
                        } else {
                            path_of(node, address)
                        },
                    },
                    end,
                ),
            )
        }),
    decreases s.len() - pos, 0int,
{
    lemma_range_lists_agree(s, pos, base, address);
    inline_tree::lemma_ranges_at_advances(s, pos, base);
    let (ranges, p1) = inline_tree::ranges_at(s, pos, base)->Ok_0;
    let (node, end) = inline_tree::inline_at(s, pos, width, endian, base, depth)->Ok_0;
    if ranges.len() > 0 {
        inline_tree::lemma_inline_head_advances(s, p1, width, endian);
        let (head, p2) = inline_tree::inline_head_at(s, p1, width, endian)->Ok_0;
        let (scanned, q2) = scan_head_at(s, p1, width, endian)->Ok_0;
        let matched = collect && covers(ranges, address);
        let own = own_frame(scanned, base, ranges[0].start, matched, depth == 0)->Ok_0;
        if head.has_children {
            let none = Seq::<EncodedInlineView>::empty();
            lemma_children_follow(
                s,
                p2,
                width,
                endian,
                ranges,
                address,
                matched,
                depth + 1,
                none,
                own,
            );
            assert(node.children.subrange(0, node.children.len() as int) =~= node.children);
            if !matched {
                assert(own =~= Seq::<RawInlineFrame>::empty());
            }
        } else {
            if matched {
                assert(own + path_through(node.children, 0, address) =~= own);
            }
        }
    }
}

proof fn lemma_children_follow(
    s: Seq<u8>,
    pos: int,
    width: u8,
    endian: Endian,
    parents: Seq<AddressRange>,
    address: u64,
    collect: bool,
    depth: nat,
    seen: Seq<EncodedInlineView>,
    done: Seq<RawInlineFrame>,
)
    requires
        0 <= pos <= s.len(),
        depth > 0,
        inline_tree::children_at(s, pos, width, endian, parents, depth, seen) is Ok,
    ensures
        ({
            let (children, end) = inline_tree::children_at(
                s,
                pos,
                width,
                endian,
                parents,
                depth,
                seen,
            )->Ok_0;
            &&& seen.len() <= children.len()
            &&& children.subrange(0, seen.len() as int) == seen
            &&& scan_children_at(
                s,
                pos,
                width,
                endian,
                parents[0].start,
                address,
                collect,
                depth,
                done,
            ) == Ok::<(Seq<RawInlineFrame>, int), Error>(
                (
                    if collect {
                        done + path_through(children, seen.len() as int, address)
                    } else {
                        done
                    },
                    end,
                ),
            )
        }),
    decreases s.len() - pos, 1int,
{
    let base = parents[0].start;
    law_scan_follows_tree(s, pos, width, endian, base, address, collect, depth);
    let (child, end) = inline_tree::inline_at(s, pos, width, endian, base, depth)->Ok_0;
    if child.ranges.len() == 0 {
        assert(seen.subrange(0, seen.len() as int) =~= seen);
        assert(done + path_through(seen, seen.len() as int, address) =~= done);
    } else {
        inline_tree::lemma_inline_advances(s, pos, width, endian, base, depth);
        let hit = covers(child.ranges, address);
        let frames = if collect {
            path_of(child, address)
        } else {
            Seq::empty()
        };
        lemma_children_follow(
            s,
            end,
            width,
            endian,
            parents,
            address,
            collect && !hit,
            depth,
            seen.push(child),
            done + frames,
        );
        let (children, last) = inline_tree::children_at(
            s,
            end,
            width,
            endian,
            parents,
            depth,
            seen.push(child),
        )->Ok_0;
        let k = seen.len() as int;
        assert(children.subrange(0, k + 1)[k] == child);
        assert(children[k] == child);
        assert(children.subrange(0, k) =~= seen) by {
            assert forall|i: int| 0 <= i < k implies children[i] == seen[i] by {
                assert(children.subrange(0, k + 1)[i] == seen.push(child)[i]);
            }
        }
        if !collect {
            assert(done + frames =~= done);
        } else if !hit {
            assert(done + frames =~= done);
        }
    }
}

/// Reads the ranges of a node and tells whether one contains the address.
fn scan_ranges(cursor: &mut Cursor<'_>, base: u64, address: u64) -> (result: Result<
    Option<RangeScan>,
    Error,
>)
    requires
        old(cursor).wf(),
    ensures
        Cursor::reads(
            *old(cursor),
            *final(cursor),
            result,
            scan_ranges_at(old(cursor).bytes@, old(cursor).position as int, base, address),
        ),
{
    let ghost s = cursor.bytes@;
    let ghost start = cursor.position as int;
    let count: u64 = read_uleb(cursor)?;
    if count == 0 {
        return Ok(None);
    }
    if count > cursor.remaining() as u64 / 2 {
        return Err(Error::InvalidFormat("inline range count exceeds remaining payload"));
    }
    let first = scan_range(cursor, base)?;
    let mut contains: bool = first.contains(address);
    let mut i: u64 = 1;
    while i < count
        invariant
            1 <= i <= count,
            cursor.wf(),
            cursor.bytes@ == s,
            cursor.same_input(*old(cursor)),
            start == old(cursor).position,
            scan_ranges_at(s, start, base, address) == (match scan_ranges_from(
                s,
                cursor.position as int,
                base,
                (count - i) as nat,
                address,
                contains,
            ) {
                Ok((found, end)) => Ok::<(Option<RangeScan>, int), Error>(
                    (Some(RangeScan { first: first.start, contains: found }), end),
                ),
                Err(error) => Err(error),
            }),
        decreases count - i,
    {
        let range = scan_range(cursor, base)?;
        contains = contains || range.contains(address);
        i = i + 1;
    }
    Ok(Some(RangeScan { first: first.start, contains }))
}

fn scan_range(cursor: &mut Cursor<'_>, base: u64) -> (result: Result<AddressRange, Error>)
    requires
        old(cursor).wf(),
    ensures
        Cursor::reads(
            *old(cursor),
            *final(cursor),
            result,
            scan_range_at(old(cursor).bytes@, old(cursor).position as int, base),
        ),
{
    let offset: u64 = read_uleb(cursor)?;
    let start: u64 = match base.checked_add(offset) {
        Some(start) => start,
        None => return Err(Error::Overflow("inline range start")),
    };
    let size: u64 = read_uleb(cursor)?;
    let end: u64 = match start.checked_add(size) {
        Some(end) => end,
        None => return Err(Error::Overflow("inline range end")),
    };
    Ok(AddressRange { start, end })
}

fn scan_head(cursor: &mut Cursor<'_>, width: u8) -> (result: Result<ScanHead, Error>)
    requires
        old(cursor).wf(),
    ensures
        Cursor::reads(
            *old(cursor),
            *final(cursor),
            result,
            scan_head_at(
                old(cursor).bytes@,
                old(cursor).position as int,
                width,
                old(cursor).endian,
            ),
        ),
{
    let flag: u8 = cursor.read_u8()?;
    let name: u64 = cursor.read_uint(width)?;
    let call_file: u64 = read_uleb(cursor)?;
    let call_line: u64 = read_uleb(cursor)?;
    Ok(ScanHead { has_children: flag != 0, name, call_file, call_line })
}

/// Adds the frame of a node that covers the address, where it has one.
fn push_own_frame(
    head: &ScanHead,
    base: u64,
    start: u64,
    matched: bool,
    root: bool,
    scratch: &mut LookupScratch,
) -> (result: Result<(), Error>)
    requires
        matched ==> scratch::frames_held(*old(scratch)).len() < 0x1_0000,
    ensures
        match own_frame(*head, base, start, matched, root) {
            Ok(own) => result == Ok::<(), Error>(()) && scratch::frames_held(*final(scratch))
                == scratch::frames_held(*old(scratch)) + own,
            Err(error) => result == Err::<(), Error>(error),
        },
{
    if matched && head.name != 0 {
        if head.call_file > u32::MAX as u64 {
            return Err(
                Error::OutOfRange {
                    field: "inline call-file index",
                    value: head.call_file,
                    max: u32::MAX as u64,
                },
            );
        }
        if head.call_line > u32::MAX as u64 {
            return Err(
                Error::OutOfRange {
                    field: "inline call-line",
                    value: head.call_line,
                    max: u32::MAX as u64,
                },
            );
        }
        let frame = RawInlineFrame {
            name: head.name,
            call_file: FileIndex(head.call_file as u32),
            call_line: head.call_line as u32,
            start,
        };
        scratch.push(frame);
        assert(scratch::frames_held(*scratch) =~= scratch::frames_held(*old(scratch)) + seq![frame]);
    } else if matched && root {
        let frame = RawInlineFrame { name: 0, call_file: FileIndex(0), call_line: 0, start: base };
        scratch.push(frame);
        assert(scratch::frames_held(*scratch) =~= scratch::frames_held(*old(scratch)) + seq![frame]);
    } else {
        assert(scratch::frames_held(*scratch) =~= scratch::frames_held(*old(scratch)) + Seq::<
            RawInlineFrame,
        >::empty());
    }
    Ok(())
}

/// Walks through an inline node and adds the calls that cover the address to
/// the frames that `scratch` holds. Returns whether there is a node, and
/// whether it covers the address.
pub fn scan_inline_node(
    cursor: &mut Cursor<'_>,
    width: u8,
    base: u64,
    address: u64,
    collect: bool,
    depth: usize,
    scratch: &mut LookupScratch,
) -> (result: Result<(bool, bool), Error>)
    requires
        old(cursor).wf(),
        collect ==> scratch::frames_held(*old(scratch)).len() <= depth,
    ensures
        final(cursor).wf(),
        final(cursor).same_input(*old(cursor)),
        match scan_at(
            old(cursor).bytes@,
            old(cursor).position as int,
            width,
            old(cursor).endian,
            base,
            address,
            collect,
            depth as nat,
        ) {
            Ok((scan, end)) => {
                &&& result == Ok::<(bool, bool), Error>((scan.present, scan.matched))
                &&& scratch::frames_held(*final(scratch)) == scratch::frames_held(*old(scratch))
                    + scan.frames
                &&& final(cursor).position == end
            },
            Err(error) => result == Err::<(bool, bool), Error>(error),
        },
    decreases old(cursor).bytes@.len() - old(cursor).position,
{
    let ghost s = cursor.bytes@;
    let ghost endian = cursor.endian;
    let ghost start = cursor.position as int;
    let ghost held = scratch::frames_held(*scratch);
    check_inline_depth(depth)?;
    proof {
        lemma_scan_ranges_advance(s, start, base, address);
    }
    let ranges = match scan_ranges(cursor, base, address)? {
        Some(ranges) => ranges,
        None => {
            assert(held + Seq::<RawInlineFrame>::empty() =~= held);
            return Ok((false, false));
        },
    };
    proof {
        lemma_scan_head_advances(s, cursor.position as int, width, endian);
    }
    let head = scan_head(cursor, width)?;
    let matched: bool = collect && ranges.contains;
    let original_len: usize = scratch.len();
    push_own_frame(&head, base, ranges.first, matched, depth == 0, scratch)?;
    let ghost own = own_frame(head, base, ranges.first, matched, depth == 0)->Ok_0;
    if head.has_children {
        let child_base: u64 = ranges.first;
        let mut found_child: bool = false;
        let ghost mut done = own;
        let ghost expected = scan_children_at(
            s,
            cursor.position as int,
            width,
            endian,
            child_base,
            address,
            matched,
            (depth + 1) as nat,
            own,
        );
        let mut present: bool = true;
        while present
            invariant
                cursor.wf(),
                cursor.bytes@ == s,
                cursor.endian == endian,
                s == old(cursor).bytes@,
                endian == old(cursor).endian,
                start == old(cursor).position,
                start < cursor.position,
                depth <= MAX_INLINE_DEPTH,
                held.len() <= depth || !matched,
                own.len() <= 1,
                !found_child ==> done == own,
                scratch::frames_held(*scratch) == held + done,
                !matched ==> done.len() == 0,
                scan_at(s, start, width, endian, base, address, collect, depth as nat) == (
                match expected {
                    Ok((frames, end)) => Ok::<(Scan, int), Error>(
                        (Scan { present: true, matched, frames }, end),
                    ),
                    Err(error) => Err(error),
                }),
                present ==> expected == scan_children_at(
                    s,
                    cursor.position as int,
                    width,
                    endian,
                    child_base,
                    address,
                    matched && !found_child,
                    (depth + 1) as nat,
                    done,
                ),
                !present ==> expected == Ok::<(Seq<RawInlineFrame>, int), Error>(
                    (done, cursor.position as int),
                ),
            decreases s.len() - cursor.position,
        {
            proof {
                lemma_scan(
                    s,
                    cursor.position as int,
                    width,
                    endian,
                    child_base,
                    address,
                    matched && !found_child,
                    (depth + 1) as nat,
                );
            }
            let ghost before = cursor.position as int;
            let (child_present, child_matched) = scan_inline_node(
                cursor,
                width,
                child_base,
                address,
                matched && !found_child,
                depth + 1,
                scratch,
            )?;
            proof {
                let (child, end) = scan_at(
                    s,
                    before,
                    width,
                    endian,
                    child_base,
                    address,
                    matched && !found_child,
                    (depth + 1) as nat,
                )->Ok_0;
                if child_present {
                    assert(held + done + child.frames =~= held + (done + child.frames));
                    if !child.matched {
                        assert(done + child.frames =~= done);
                    }
                    done = done + child.frames;
                } else {
                    assert(held + done + child.frames =~= held + done);
                }
            }
            present = child_present;
            found_child = found_child || child_matched;
        }
    }
    if !matched {
        scratch.truncate(original_len);
    }
    Ok((true, matched))
}

} // verus!
