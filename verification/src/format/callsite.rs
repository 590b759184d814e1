//! Call-site records.
use vstd::prelude::*;
use crate::bytes;
use crate::endian;
use crate::endian::{Cursor, Encoder, Endian};
use crate::error::Error;
use crate::format::function;
use crate::format::function::{EncodedCallSite, EncodedCallSiteView};

verus! {

/// Least number of bytes that a call site takes.
pub const MINIMUM_CALL_SITE_SIZE: usize = 13;

/// Outcome of reading `count` more string offsets at `pos`.
pub open spec fn offsets_at(
    s: Seq<u8>,
    pos: int,
    width: u8,
    endian: Endian,
    count: nat,
    done: Seq<u64>,
) -> Result<(Seq<u64>, int), Error>
    decreases count,
{
    if count == 0 {
        Ok((done, pos))
    } else {
        match endian::sized_uint_at(s, pos, width, endian) {
            Err(error) => Err(error),
            Ok((offset, end)) => offsets_at(
                s,
                end,
                width,
                endian,
                (count - 1) as nat,
                done.push(offset),
            ),
        }
    }
}

/// Most string offsets of `width` bytes that fit in `remaining` bytes.
pub open spec fn most_offsets(remaining: int, width: u8) -> int {
    if width == 0 {
        0
    } else {
        remaining / (width as int)
    }
}

/// Outcome of reading the call site at `pos`.
pub open spec fn call_site_at(s: Seq<u8>, pos: int, width: u8, endian: Endian) -> Result<
    (EncodedCallSiteView, int),
    Error,
> {
    match endian::uint_at(s, pos, 8, endian) {
        Err(error) => Err(error),
        Ok((return_offset, p1)) => if p1 >= s.len() {
            Err(endian::eof_at(s, p1, 1))
        } else {
            match endian::uint_at(s, p1 + 1, 4, endian) {
                Err(error) => Err(error),
                Ok((count, p2)) => if count > most_offsets(s.len() - p2, width) {
                    Err(Error::InvalidFormat("call-site regex count exceeds remaining input"))
                } else {
                    match offsets_at(s, p2, width, endian, count as nat, Seq::empty()) {
                        Err(error) => Err(error),
                        Ok((match_regex, end)) => Ok(
                            (EncodedCallSiteView { return_offset, flags: s[p1], match_regex }, end),
                        ),
                    }
                },
            }
        },
    }
}

/// Outcome of reading `count` more call sites at `pos`.
pub open spec fn call_sites_from(
    s: Seq<u8>,
    pos: int,
    width: u8,
    endian: Endian,
    count: nat,
    done: Seq<EncodedCallSiteView>,
) -> Result<(Seq<EncodedCallSiteView>, int), Error>
    decreases count,
{
    if count == 0 {
        Ok((done, pos))
    } else {
        match call_site_at(s, pos, width, endian) {
            Err(error) => Err(error),
            Ok((site, end)) => call_sites_from(
                s,
                end,
                width,
                endian,
                (count - 1) as nat,
                done.push(site),
            ),
        }
    }
}

/// The call sites of the record `s`.
#[verifier::opaque]
pub open spec fn call_sites_decoded(s: Seq<u8>, width: u8, endian: Endian) -> Result<
    Seq<EncodedCallSiteView>,
    Error,
> {
    match endian::uint_at(s, 0, 4, endian) {
        Err(error) => Err(error),
        Ok((count, p1)) => if count > (s.len() - p1) / (MINIMUM_CALL_SITE_SIZE as int) {
            Err(Error::InvalidFormat("call-site count exceeds remaining input"))
        } else {
            match call_sites_from(s, p1, width, endian, count as nat, Seq::empty()) {
                Err(error) => Err(error),
                Ok((sites, end)) => if end < s.len() {
                    Err(Error::InvalidFormat("trailing call-site bytes"))
                } else {
                    Ok(sites)
                },
            }
        },
    }
}

/// The bytes of the string offsets from index `i` on.
pub open spec fn offsets_bytes(offsets: Seq<u64>, i: int, width: u8, endian: Endian) -> Result<
    Seq<u8>,
    Error,
>
    decreases offsets.len() - i,
{
    if i >= offsets.len() {
        Ok(Seq::empty())
    } else {
        endian::joined(
            endian::uint_encoded(offsets[i], width, endian),
            offsets_bytes(offsets, i + 1, width, endian),
        )
    }
}

/// The four bytes of a count, or the error of one that does not fit them.
pub open spec fn count_bytes(count: nat, context: &'static str, endian: Endian) -> Result<
    Seq<u8>,
    Error,
> {
    if count > u32::MAX {
        Err(Error::Limit { context, value: count as u64, limit: u32::MAX as u64 })
    } else {
        Ok(bytes::uint_bytes(count, 4, endian))
    }
}

/// The bytes of a call site.
pub open spec fn call_site_bytes(site: EncodedCallSiteView, width: u8, endian: Endian) -> Result<
    Seq<u8>,
    Error,
> {
    endian::joined(
        endian::joined(
            Ok(bytes::uint_bytes(site.return_offset as nat, 8, endian) + seq![site.flags]),
            count_bytes(site.match_regex.len(), "call-site regex count", endian),
        ),
        offsets_bytes(site.match_regex, 0, width, endian),
    )
}

/// The bytes of the call sites from index `i` on.
pub open spec fn call_site_list_bytes(
    sites: Seq<EncodedCallSiteView>,
    i: int,
    width: u8,
    endian: Endian,
) -> Result<Seq<u8>, Error>
    decreases sites.len() - i,
{
    if i >= sites.len() {
        Ok(Seq::empty())
    } else {
        endian::joined(
            call_site_bytes(sites[i], width, endian),
            call_site_list_bytes(sites, i + 1, width, endian),
        )
    }
}

/// The bytes of a call-site record.
#[verifier::opaque]
pub open spec fn call_sites_bytes(
    sites: Seq<EncodedCallSiteView>,
    width: u8,
    endian: Endian,
) -> Result<Seq<u8>, Error> {
    endian::joined(
        count_bytes(sites.len(), "call-site count", endian),
        call_site_list_bytes(sites, 0, width, endian),
    )
}

proof fn lemma_offsets_len(offsets: Seq<u64>, i: int, width: u8, endian: Endian)
    requires
        0 <= i <= offsets.len(),
    ensures
        offsets_bytes(offsets, i, width, endian) matches Ok(b) ==> b.len() == width * (offsets.len()
            - i),
    decreases offsets.len() - i,
{
    if i < offsets.len() {
        lemma_offsets_len(offsets, i + 1, width, endian);
        bytes::lemma_uint_bytes_len(offsets[i] as nat, width as nat, endian);
        assert(width * (offsets.len() - i) == width * (offsets.len() - (i + 1)) + width)
            by (nonlinear_arith);
    } else {
        assert(width * (offsets.len() - i) == 0) by (nonlinear_arith)
            requires
                i == offsets.len(),
        ;
    }
}

proof fn lemma_offsets_round_trip(
    s: Seq<u8>,
    pos: int,
    offsets: Seq<u64>,
    i: int,
    width: u8,
    endian: Endian,
)
    requires
        0 <= i <= offsets.len(),
        offsets_bytes(offsets, i, width, endian) is Ok,
        bytes::holds_at(s, pos, offsets_bytes(offsets, i, width, endian)->Ok_0),
    ensures
        offsets_at(s, pos, width, endian, (offsets.len() - i) as nat, offsets.subrange(0, i))
            == Ok::<(Seq<u64>, int), Error>(
            (offsets, pos + offsets_bytes(offsets, i, width, endian)->Ok_0.len()),
        ),
    decreases offsets.len() - i,
{
    if i == offsets.len() {
        assert(offsets.subrange(0, i) =~= offsets);
    } else {
        let part = bytes::uint_bytes(offsets[i] as nat, width as nat, endian);
        let rest = offsets_bytes(offsets, i + 1, width, endian)->Ok_0;
        bytes::lemma_holds_at_split(s, pos, part, rest);
        bytes::lemma_uint_bytes_len(offsets[i] as nat, width as nat, endian);
        endian::law_uint_reads_back(s, pos, offsets[i], width, endian);
        assert(offsets.subrange(0, i).push(offsets[i]) =~= offsets.subrange(0, i + 1));
        lemma_offsets_round_trip(s, pos + part.len(), offsets, i + 1, width, endian);
    }
}

proof fn lemma_call_site_round_trip(
    s: Seq<u8>,
    pos: int,
    site: EncodedCallSiteView,
    width: u8,
    endian: Endian,
)
    requires
        1 <= width <= 8,
        call_site_bytes(site, width, endian) is Ok,
        bytes::holds_at(s, pos, call_site_bytes(site, width, endian)->Ok_0),
    ensures
        call_site_at(s, pos, width, endian) == Ok::<(EncodedCallSiteView, int), Error>(
            (site, pos + call_site_bytes(site, width, endian)->Ok_0.len()),
        ),
        call_site_bytes(site, width, endian)->Ok_0.len() >= MINIMUM_CALL_SITE_SIZE,
{
    let b1 = bytes::uint_bytes(site.return_offset as nat, 8, endian);
    let b2 = seq![site.flags];
    let b3 = bytes::uint_bytes(site.match_regex.len(), 4, endian);
    let b4 = offsets_bytes(site.match_regex, 0, width, endian)->Ok_0;
    bytes::lemma_holds_at_split(s, pos, b1 + b2 + b3, b4);
    bytes::lemma_holds_at_split(s, pos, b1 + b2, b3);
    bytes::lemma_holds_at_split(s, pos, b1, b2);
    bytes::lemma_uint_bytes_len(site.return_offset as nat, 8, endian);
    bytes::lemma_uint_bytes_len(site.match_regex.len(), 4, endian);
    bytes::lemma_pow256_values();
    bytes::lemma_holds_at_index(s, pos + 8, b2, 0);
    endian::law_uint_reads_back(s, pos, site.return_offset, 8, endian);
    endian::law_uint_reads_back(s, pos + 9, site.match_regex.len() as u64, 4, endian);
    lemma_offsets_len(site.match_regex, 0, width, endian);
    let count = site.match_regex.len() as int;
    let left = s.len() - (pos + 13);
    let w = width as int;
    assert(count <= left / w) by (nonlinear_arith)
        requires
            w * count <= left,
            w >= 1,
    ;
    assert(site.match_regex.subrange(0, 0) =~= Seq::<u64>::empty());
    lemma_offsets_round_trip(s, pos + 13, site.match_regex, 0, width, endian);
}

proof fn lemma_call_site_list_round_trip(
    s: Seq<u8>,
    pos: int,
    sites: Seq<EncodedCallSiteView>,
    i: int,
    width: u8,
    endian: Endian,
)
    requires
        1 <= width <= 8,
        0 <= i <= sites.len(),
        call_site_list_bytes(sites, i, width, endian) is Ok,
        bytes::holds_at(s, pos, call_site_list_bytes(sites, i, width, endian)->Ok_0),
    ensures
        call_sites_from(s, pos, width, endian, (sites.len() - i) as nat, sites.subrange(0, i))
            == Ok::<(Seq<EncodedCallSiteView>, int), Error>(
            (sites, pos + call_site_list_bytes(sites, i, width, endian)->Ok_0.len()),
        ),
        call_site_list_bytes(sites, i, width, endian)->Ok_0.len() >= MINIMUM_CALL_SITE_SIZE * (
        sites.len() - i),
    decreases sites.len() - i,
{
    if i == sites.len() {
        assert(sites.subrange(0, i) =~= sites);
    } else {
        let part = call_site_bytes(sites[i], width, endian)->Ok_0;
        let rest = call_site_list_bytes(sites, i + 1, width, endian)->Ok_0;
        bytes::lemma_holds_at_split(s, pos, part, rest);
        lemma_call_site_round_trip(s, pos, sites[i], width, endian);
        assert(sites.subrange(0, i).push(sites[i]) =~= sites.subrange(0, i + 1));
        lemma_call_site_list_round_trip(s, pos + part.len(), sites, i + 1, width, endian);
    }
}

/// Decoding an encoded call-site record gives back its call sites.
pub proof fn law_call_sites_round_trip(
    sites: Seq<EncodedCallSiteView>,
    width: u8,
    endian: Endian,
)
    requires
        1 <= width <= 8,
        call_sites_bytes(sites, width, endian) is Ok,
    ensures
        call_sites_decoded(call_sites_bytes(sites, width, endian)->Ok_0, width, endian) == Ok::<
            Seq<EncodedCallSiteView>,
            Error,
        >(sites),
{
    reveal(call_sites_bytes);
    reveal(call_sites_decoded);
    let s = call_sites_bytes(sites, width, endian)->Ok_0;
    let b1 = bytes::uint_bytes(sites.len(), 4, endian);
    let rest = call_site_list_bytes(sites, 0, width, endian)->Ok_0;
    assert(s.subrange(0, s.len() as int) =~= s);
    bytes::lemma_holds_at_split(s, 0, b1, rest);
    bytes::lemma_uint_bytes_len(sites.len(), 4, endian);
    bytes::lemma_pow256_values();
    endian::law_uint_reads_back(s, 0, sites.len() as u64, 4, endian);
    assert(sites.subrange(0, 0) =~= Seq::<EncodedCallSiteView>::empty());
    lemma_call_site_list_round_trip(s, 4, sites, 0, width, endian);
}

/// Writes a count in four bytes.
pub fn encode_count(count: usize, context: &'static str, output: &mut Encoder) -> (result: Result<
    (),
    Error,
>)
    ensures
        Encoder::writes(
            *old(output),
            *final(output),
            result,
            count_bytes(count as nat, context, old(output).endian),
        ),
{
    if count > u32::MAX as usize {
        return Err(Error::Limit { context, value: count as u64, limit: u32::MAX as u64 });
    }
    output.write_u32(count as u32);
    Ok(())
}

fn decode_call_site(cursor: &mut Cursor<'_>, width: u8) -> (result: Result<EncodedCallSite, Error>)
    requires
        old(cursor).wf(),
    ensures
        final(cursor).wf(),
        final(cursor).same_input(*old(cursor)),
        match call_site_at(
            old(cursor).bytes@,
            old(cursor).position as int,
            width,
            old(cursor).endian,
        ) {
            Ok((view, end)) => {
                &&& result matches Ok(site)
                &&& site@ == view
                &&& final(cursor).position == end
            },
            Err(error) => result == Err::<EncodedCallSite, Error>(error),
        },
{
    let return_offset: u64 = cursor.read_u64()?;
    let flags: u8 = cursor.read_u8()?;
    let count: usize = cursor.read_u32()? as usize;
    let most: usize = if width == 0 {
        0
    } else {
        cursor.remaining() / (width as usize)
    };
    if count > most {
        return Err(Error::InvalidFormat("call-site regex count exceeds remaining input"));
    }
    let ghost s = cursor.bytes@;
    let ghost endian = cursor.endian;
    let ghost expected = offsets_at(
        s,
        cursor.position as int,
        width,
        endian,
        count as nat,
        Seq::empty(),
    );
    let mut match_regex: Vec<u64> = Vec::with_capacity(count);
    let mut i: usize = 0;
    while i < count
        invariant
            i <= count,
            cursor.wf(),
            cursor.bytes@ == s,
            cursor.endian == endian,
            s == old(cursor).bytes@,
            endian == old(cursor).endian,
            call_site_at(s, old(cursor).position as int, width, endian) == (match expected {
                Ok((offsets, end)) => Ok::<(EncodedCallSiteView, int), Error>(
                    (EncodedCallSiteView { return_offset, flags, match_regex: offsets }, end),
                ),
                Err(error) => Err(error),
            }),
            expected == offsets_at(
                s,
                cursor.position as int,
                width,
                endian,
                (count - i) as nat,
                match_regex@,
            ),
        decreases count - i,
    {
        let offset: u64 = cursor.read_uint(width)?;
        match_regex.push(offset);
        i = i + 1;
    }
    Ok(EncodedCallSite { return_offset, flags, match_regex })
}

/// Decodes a call-site record.
pub fn decode_call_sites(bytes: &[u8], endian: Endian, width: u8) -> (result: Result<
    Vec<EncodedCallSite>,
    Error,
>)
    ensures
        match call_sites_decoded(bytes@, width, endian) {
            Ok(views) => result matches Ok(sites) && function::encoded_call_site_views(sites@)
                == views,
            Err(error) => result == Err::<Vec<EncodedCallSite>, Error>(error),
        },
{
    proof {
        reveal(call_sites_decoded);
    }
    let mut cursor = Cursor::new(bytes, endian);
    let count: usize = cursor.read_u32()? as usize;
    if count > cursor.remaining() / MINIMUM_CALL_SITE_SIZE {
        return Err(Error::InvalidFormat("call-site count exceeds remaining input"));
    }
    let ghost expected = call_sites_from(bytes@, 4, width, endian, count as nat, Seq::empty());
    let mut sites: Vec<EncodedCallSite> = Vec::with_capacity(count);
    let mut i: usize = 0;
    assert(function::encoded_call_site_views(sites@) =~= Seq::<EncodedCallSiteView>::empty());
    while i < count
        invariant
            i <= count,
            cursor.wf(),
            cursor.bytes@ == bytes@,
            cursor.endian == endian,
            call_sites_decoded(bytes@, width, endian) == (match expected {
                Ok((views, end)) => if end < bytes@.len() {
                    Err::<Seq<EncodedCallSiteView>, Error>(
                        Error::InvalidFormat("trailing call-site bytes"),
                    )
                } else {
                    Ok(views)
                },
                Err(error) => Err(error),
            }),
            expected == call_sites_from(
                bytes@,
                cursor.position as int,
                width,
                endian,
                (count - i) as nat,
                function::encoded_call_site_views(sites@),
            ),
        decreases count - i,
    {
        let ghost before = function::encoded_call_site_views(sites@);
        let site = decode_call_site(&mut cursor, width)?;
        sites.push(site);
        assert(function::encoded_call_site_views(sites@) =~= before.push(site@));
        i = i + 1;
    }
    if !cursor.is_empty() {
        return Err(Error::InvalidFormat("trailing call-site bytes"));
    }
    Ok(sites)
}

fn encode_call_site(site: &EncodedCallSite, output: &mut Encoder, width: u8) -> (result: Result<
    (),
    Error,
>)
    ensures
        Encoder::writes(
            *old(output),
            *final(output),
            result,
            call_site_bytes(site@, width, old(output).endian),
        ),
{
    let ghost start = output.bytes@;
    let ghost endian = output.endian;
    output.write_u64(site.return_offset);
    output.write_u8(site.flags);
    encode_count(site.match_regex.len(), "call-site regex count", output)?;
    let ghost mut written: Seq<u8> = bytes::uint_bytes(site.return_offset as nat, 8, endian)
        + seq![site.flags] + bytes::uint_bytes(site.match_regex@.len(), 4, endian);
    assert(output.bytes@ =~= start + written);
    let mut i: usize = 0;
    while i < site.match_regex.len()
        invariant
            i <= site.match_regex@.len(),
            start == old(output).bytes@,
            endian == old(output).endian,
            output.endian == endian,
            output.bytes@ == start + written,
            call_site_bytes(site@, width, endian) == endian::joined(
                Ok(written),
                offsets_bytes(site.match_regex@, i as int, width, endian),
            ),
        decreases site.match_regex@.len() - i,
    {
        let offset: u64 = site.match_regex[i];
        output.write_uint(offset, width)?;
        proof {
            let part = bytes::uint_bytes(offset as nat, width as nat, endian);
            let before = written;
            written = written + part;
            assert(output.bytes@ =~= start + written);
            if let Ok(rest) = offsets_bytes(site.match_regex@, i + 1, width, endian) {
                assert(before + (part + rest) =~= written + rest);
            }
        }
        i = i + 1;
    }
    assert(output.bytes@ =~= start + (written + Seq::<u8>::empty()));
    Ok(())
}

/// Writes the payload of a call-site record.
pub fn encode_call_sites_into(
    call_sites: &Vec<EncodedCallSite>,
    output: &mut Encoder,
    width: u8,
) -> (result: Result<(), Error>)
    ensures
        Encoder::writes(
            *old(output),
            *final(output),
            result,
            call_sites_bytes(
                function::encoded_call_site_views(call_sites@),
                width,
                old(output).endian,
            ),
        ),
{
    let ghost start = output.bytes@;
    let ghost endian = output.endian;
    let ghost views = function::encoded_call_site_views(call_sites@);
    proof {
        reveal(call_sites_bytes);
    }
    encode_count(call_sites.len(), "call-site count", output)?;
    let ghost mut written: Seq<u8> = bytes::uint_bytes(call_sites@.len(), 4, endian);
    let mut i: usize = 0;
    while i < call_sites.len()
        invariant
            i <= call_sites@.len(),
            start == old(output).bytes@,
            endian == old(output).endian,
            output.endian == endian,
            output.bytes@ == start + written,
            views == function::encoded_call_site_views(call_sites@),
            call_sites_bytes(views, width, endian) == endian::joined(
                Ok(written),
                call_site_list_bytes(views, i as int, width, endian),
            ),
        decreases call_sites@.len() - i,
    {
        assert(views[i as int] == call_sites@[i as int]@);
        encode_call_site(&call_sites[i], output, width)?;
        proof {
            let part = call_site_bytes(views[i as int], width, endian)->Ok_0;
            let before = written;
            written = written + part;
            assert(output.bytes@ =~= start + written);
            if let Ok(rest) = call_site_list_bytes(views, i + 1, width, endian) {
                assert(before + (part + rest) =~= written + rest);
            }
        }
        i = i + 1;
    }
    assert(output.bytes@ =~= start + (written + Seq::<u8>::empty()));
    Ok(())
}

} // verus!
