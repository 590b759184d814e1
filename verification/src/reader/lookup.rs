//! Symbolication of single addresses.
use vstd::prelude::*;
use crate::endian;
use crate::endian::{Cursor, Endian};
use crate::error::Error;
use crate::format::function;
use crate::format::function::{next_record, InfoType};
use crate::format::line;
use crate::model;
use crate::model::{FileView, FrameView, LineEntry, Lookup, LookupFrame, LookupView};
use crate::reader::layout::ParsedLayout;
use crate::reader::scan;
use crate::reader::scan::scan_inline_node;
use crate::reader::scratch;
use crate::reader::scratch::{LookupScratch, RawInlineFrame};
use crate::reader::search;
use crate::reader::search::matching_function;
use crate::reader::table;
use crate::reader::table::{file_at, string_at, RawFunction, RawView};

verus! {

/// Controls which optional records a lookup inspects.
///
/// Turning a field off skips that work entirely, so a name-only lookup costs
/// less than a full one.
#[derive(Clone, Copy, Debug, PartialEq, Eq, Structural)]
pub struct LookupOptions {
    /// Resolve source files and lines.
    pub line_information: bool,
    /// Resolve inline-call frames.
    pub inline_frames: bool,
    /// Resolve matching call-site patterns.
    pub call_sites: bool,
}

impl Default for LookupOptions {
    fn default() -> (options: Self)
        ensures
            options == (LookupOptions {
                line_information: true,
                inline_frames: true,
                call_sites: true,
            }),
    {
        LookupOptions { line_information: true, inline_frames: true, call_sites: true }
    }
}

/// Controls which optional records frame visitation inspects.
///
/// The same as `LookupOptions` without call sites. Converting to
/// `LookupOptions` leaves call sites disabled.
#[derive(Clone, Copy, Debug, PartialEq, Eq, Structural)]
pub struct FrameLookupOptions {
    /// Resolve source files and lines.
    pub line_information: bool,
    /// Resolve inline-call frames.
    pub inline_frames: bool,
}

impl Default for FrameLookupOptions {
    fn default() -> (options: Self)
        ensures
            options == (FrameLookupOptions { line_information: true, inline_frames: true }),
    {
        FrameLookupOptions { line_information: true, inline_frames: true }
    }
}

impl From<FrameLookupOptions> for LookupOptions {
    fn from(options: FrameLookupOptions) -> (lookup: Self) {
        LookupOptions {
            line_information: options.line_information,
            inline_frames: options.inline_frames,
            call_sites: false,
        }
    }
}

impl vstd::std_specs::convert::FromSpecImpl<FrameLookupOptions> for LookupOptions {
    open spec fn obeys_from_spec() -> bool {
        true
    }

    open spec fn from_spec(options: FrameLookupOptions) -> Self {
        without_call_sites(options)
    }
}

/// The lookup options of a frame visitation.
pub open spec fn without_call_sites(options: FrameLookupOptions) -> LookupOptions {
    LookupOptions {
        line_information: options.line_information,
        inline_frames: options.inline_frames,
        call_sites: false,
    }
}

/// What the records of a function hold for an address.
pub struct Scanned {
    /// Line row in effect.
    pub line: Option<LineEntry>,
    /// Payload of the inline record.
    pub inline: Option<Seq<u8>>,
    /// Payload of the call-site record.
    pub call_sites: Option<Seq<u8>>,
}

/// Nothing found.
pub open spec fn nothing_scanned() -> Scanned {
    Scanned { line: None, inline: None, call_sites: None }
}

/// What was found with one more record.
pub open spec fn with_scanned(
    found: Scanned,
    record: function::RecordView,
    base: u64,
    address: u64,
    options: LookupOptions,
) -> Result<Scanned, Error> {
    match record.kind {
        InfoType::LineTable => if options.line_information {
            match line::looked_up(record.payload, base, address) {
                Err(error) => Err(error),
                Ok(row) => Ok(Scanned { line: row, ..found }),
            }
        } else {
            Ok(found)
        },
        InfoType::Inline => if options.inline_frames {
            Ok(Scanned { inline: Some(record.payload), ..found })
        } else {
            Ok(found)
        },
        InfoType::CallSite => if options.call_sites {
            Ok(Scanned { call_sites: Some(record.payload), ..found })
        } else {
            Ok(found)
        },
        InfoType::Merged => Ok(found),
        InfoType::Unknown(_) => Ok(found),
    }
}

/// What the records from `pos` on hold, behind what was found before.
pub open spec fn scan_records_at(
    records: Seq<u8>,
    pos: int,
    endian: Endian,
    base: u64,
    address: u64,
    options: LookupOptions,
    found: Scanned,
) -> Result<Scanned, Error>
    decreases records.len() - pos,
    when 0 <= pos <= records.len()
{
    match function::record_at(records, pos, endian) {
        Err(error) => Err(error),
        Ok((None, _)) => Ok(found),
        Ok((Some(record), end)) => match with_scanned(found, record, base, address, options) {
            Err(error) => Err(error),
            Ok(next) => scan_records_at(records, end, endian, base, address, options, next),
        },
    }
}

/// What the records of a function hold for an address. Where nothing is asked
/// for, nothing is read.
pub open spec fn scanned_of(
    endian: Endian,
    raw: RawView,
    address: u64,
    options: LookupOptions,
) -> Result<Scanned, Error> {
    if !options.line_information && !options.inline_frames && !options.call_sites {
        Ok(nothing_scanned())
    } else {
        scan_records_at(
            raw.records,
            0,
            endian,
            raw.range.start,
            address,
            options,
            nothing_scanned(),
        )
    }
}

/// What the frames of a lookup are made from.
pub struct PreparedView {
    /// Name of the function.
    pub function_name: Seq<u8>,
    /// File of the line row.
    pub file: FileView,
    /// Line of the line row.
    pub line: u32,
    /// Named inline calls, the outermost first.
    pub frames: Seq<RawInlineFrame>,
    /// Payload of the call-site record.
    pub call_sites: Option<Seq<u8>>,
}

/// File and line of a row; none where there is no row.
pub open spec fn position_of(s: Seq<u8>, layout: ParsedLayout, row: Option<LineEntry>) -> Result<
    (FileView, u32),
    Error,
> {
    match row {
        None => Ok((model::empty_file(), 0)),
        Some(row) => match table::file_of(s, layout, row.file) {
            Err(error) => Err(error),
            Ok(file) => Ok((file, row.line)),
        },
    }
}

/// The named inline calls of a record that cover the address.
pub open spec fn inline_frames_of(
    layout: ParsedLayout,
    payload: Option<Seq<u8>>,
    base: u64,
    address: u64,
) -> Result<Seq<RawInlineFrame>, Error> {
    match payload {
        None => Ok(Seq::empty()),
        Some(payload) => match scan::scan_at(
            payload,
            0,
            layout.string_offset_size,
            layout.endian,
            base,
            address,
            true,
            0,
        ) {
            Err(error) => Err(error),
            Ok((found, end)) => if !found.present || end < payload.len() {
                Err(Error::InvalidFormat("malformed inline-info payload"))
            } else {
                Ok(found.frames)
            },
        },
    }
}

/// What the frames of a lookup in a function are made from.
pub open spec fn prepared_of(
    s: Seq<u8>,
    layout: ParsedLayout,
    raw: RawView,
    address: u64,
    options: LookupOptions,
) -> Result<PreparedView, Error> {
    match scanned_of(layout.endian, raw, address, options) {
        Err(error) => Err(error),
        Ok(found) => match table::string_of(s, layout.string_table, raw.name) {
            Err(error) => Err(error),
            Ok(function_name) => match position_of(s, layout, found.line) {
                Err(error) => Err(error),
                Ok((file, line)) => match inline_frames_of(
                    layout,
                    found.inline,
                    raw.range.start,
                    address,
                ) {
                    Err(error) => Err(error),
                    Ok(frames) => Ok(
                        PreparedView {
                            function_name,
                            file,
                            line,
                            frames,
                            call_sites: found.call_sites,
                        },
                    ),
                },
            },
        },
    }
}

/// Distance of `address` from `start`, or zero before it.
pub open spec fn distance(address: u64, start: u64) -> u64 {
    if address >= start {
        (address - start) as u64
    } else {
        0
    }
}

/// The frame of the inline call with the given index. The innermost stands at
/// the line row; each other stands where it calls the next.
pub open spec fn frame_of(
    s: Seq<u8>,
    layout: ParsedLayout,
    address: u64,
    prepared: PreparedView,
    index: int,
) -> Result<FrameView, Error> {
    let node = prepared.frames[index];
    let position = if index + 1 < prepared.frames.len() {
        let callee = prepared.frames[index + 1];
        match table::file_of(s, layout, callee.call_file) {
            Err(error) => Err(error),
            Ok(file) => Ok((file, callee.call_line)),
        }
    } else {
        Ok((prepared.file, prepared.line))
    };
    match position {
        Err(error) => Err(error),
        Ok((file, line)) => {
            let name = if node.name == 0 {
                Ok(prepared.function_name)
            } else {
                table::string_of(s, layout.string_table, node.name)
            };
            match name {
                Err(error) => Err(error),
                Ok(name) => Ok(
                    FrameView {
                        name,
                        directory: file.directory,
                        basename: file.basename,
                        line,
                        offset: distance(address, node.start),
                        inlined: index != 0,
                    },
                ),
            }
        },
    }
}

/// The frames of the inline calls below `index`, the innermost first, behind
/// the frames `done`.
pub open spec fn frames_from(
    s: Seq<u8>,
    layout: ParsedLayout,
    address: u64,
    prepared: PreparedView,
    index: int,
    done: Seq<FrameView>,
) -> Result<Seq<FrameView>, Error>
    decreases index,
{
    if index <= 0 {
        Ok(done)
    } else {
        match frame_of(s, layout, address, prepared, index - 1) {
            Err(error) => Err(error),
            Ok(frame) => frames_from(s, layout, address, prepared, index - 1, done.push(frame)),
        }
    }
}

/// The frame of a function without inline calls.
pub open spec fn plain_frame(raw: RawView, address: u64, prepared: PreparedView) -> FrameView {
    FrameView {
        name: prepared.function_name,
        directory: prepared.file.directory,
        basename: prepared.file.basename,
        line: prepared.line,
        offset: distance(address, raw.range.start),
        inlined: false,
    }
}

/// The frames of a lookup, the innermost first.
pub open spec fn frames_of(
    s: Seq<u8>,
    layout: ParsedLayout,
    raw: RawView,
    address: u64,
    prepared: PreparedView,
) -> Result<Seq<FrameView>, Error> {
    if prepared.frames.len() == 0 {
        Ok(seq![plain_frame(raw, address, prepared)])
    } else {
        frames_from(
            s,
            layout,
            address,
            prepared,
            prepared.frames.len() as int,
            Seq::empty(),
        )
    }
}

/// The strings at the next `count` offsets of a call site, where its return
/// offset is the one that is looked for.
pub open spec fn pattern_offsets_at(
    s: Seq<u8>,
    layout: ParsedLayout,
    payload: Seq<u8>,
    pos: int,
    count: nat,
    wanted: bool,
    done: Seq<Seq<u8>>,
) -> Result<(Seq<Seq<u8>>, int), Error>
    decreases count,
{
    if count == 0 {
        Ok((done, pos))
    } else {
        match endian::uint_at(payload, pos, layout.string_offset_size as int, layout.endian) {
            Err(error) => Err(error),
            Ok((offset, end)) => if !wanted {
                pattern_offsets_at(s, layout, payload, end, (count - 1) as nat, wanted, done)
            } else {
                match table::string_of(s, layout.string_table, offset) {
                    Err(error) => Err(error),
                    Ok(string) => pattern_offsets_at(
                        s,
                        layout,
                        payload,
                        end,
                        (count - 1) as nat,
                        wanted,
                        done.push(string),
                    ),
                }
            },
        }
    }
}

/// The patterns of the next `count` call sites that return to `return_offset`.
pub open spec fn pattern_sites_at(
    s: Seq<u8>,
    layout: ParsedLayout,
    payload: Seq<u8>,
    pos: int,
    count: nat,
    return_offset: u64,
    done: Seq<Seq<u8>>,
) -> Result<(Seq<Seq<u8>>, int), Error>
    decreases count,
{
    if count == 0 {
        Ok((done, pos))
    } else {
        match endian::uint_at(payload, pos, 8, layout.endian) {
            Err(error) => Err(error),
            Ok((candidate, p1)) => if p1 >= payload.len() {
                Err(endian::eof_at(payload, p1, 1))
            } else {
                match endian::uint_at(payload, p1 + 1, 4, layout.endian) {
                    Err(error) => Err(error),
                    Ok((patterns, p2)) => match pattern_offsets_at(
                        s,
                        layout,
                        payload,
                        p2,
                        patterns as nat,
                        candidate == return_offset,
                        done,
                    ) {
                        Err(error) => Err(error),
                        Ok((found, end)) => pattern_sites_at(
                            s,
                            layout,
                            payload,
                            end,
                            (count - 1) as nat,
                            return_offset,
                            found,
                        ),
                    },
                }
            },
        }
    }
}

/// The callee patterns of the call sites that return to `return_offset`.
pub open spec fn patterns_of(
    s: Seq<u8>,
    layout: ParsedLayout,
    payload: Option<Seq<u8>>,
    return_offset: u64,
) -> Result<Seq<Seq<u8>>, Error> {
    match payload {
        None => Ok(Seq::empty()),
        Some(payload) => match endian::uint_at(payload, 0, 4, layout.endian) {
            Err(error) => Err(error),
            Ok((count, p1)) => match pattern_sites_at(
                s,
                layout,
                payload,
                p1,
                count as nat,
                return_offset,
                Seq::empty(),
            ) {
                Err(error) => Err(error),
                Ok((patterns, end)) => if end < payload.len() {
                    Err(Error::InvalidFormat("trailing call-site bytes"))
                } else {
                    Ok(patterns)
                },
            },
        },
    }
}

/// The result of looking `address` up in a function.
pub open spec fn lookup_in(
    s: Seq<u8>,
    layout: ParsedLayout,
    raw: RawView,
    address: u64,
    options: LookupOptions,
) -> Result<LookupView, Error> {
    match prepared_of(s, layout, raw, address, options) {
        Err(error) => Err(error),
        Ok(prepared) => match frames_of(s, layout, raw, address, prepared) {
            Err(error) => Err(error),
            Ok(frames) => match patterns_of(
                s,
                layout,
                prepared.call_sites,
                distance(address, raw.range.start),
            ) {
                Err(error) => Err(error),
                Ok(call_site_patterns) => Ok(
                    LookupView { address, function: raw.range, frames, call_site_patterns },
                ),
            },
        },
    }
}

/// The result of looking `address` up.
pub open spec fn looked_up(
    s: Seq<u8>,
    layout: ParsedLayout,
    address: u64,
    options: LookupOptions,
) -> Result<Option<LookupView>, Error> {
    match search::matching(s, layout, address) {
        Err(error) => Err(error),
        Ok(None) => Ok(None),
        Ok(Some(raw)) => match lookup_in(s, layout, raw, address, options) {
            Err(error) => Err(error),
            Ok(view) => Ok(Some(view)),
        },
    }
}

/// The frames that a visitation of `address` yields; none where no function
/// covers it.
pub open spec fn visited(
    s: Seq<u8>,
    layout: ParsedLayout,
    address: u64,
    options: FrameLookupOptions,
) -> Result<Option<Seq<FrameView>>, Error> {
    match search::matching(s, layout, address) {
        Err(error) => Err(error),
        Ok(None) => Ok(None),
        Ok(Some(raw)) => match prepared_of(s, layout, raw, address, without_call_sites(options)) {
            Err(error) => Err(error),
            Ok(prepared) => match frames_of(s, layout, raw, address, prepared) {
                Err(error) => Err(error),
                Ok(frames) => Ok(Some(frames)),
            },
        },
    }
}

proof fn lemma_frames_from(
    s: Seq<u8>,
    layout: ParsedLayout,
    address: u64,
    prepared: PreparedView,
    index: int,
    done: Seq<FrameView>,
)
    requires
        0 <= index <= prepared.frames.len(),
        done.len() == prepared.frames.len() - index,
        forall|i: int|
            0 <= i < done.len() ==> (#[trigger] done[i]).inlined == (i + 1
                < prepared.frames.len()),
    ensures
        frames_from(s, layout, address, prepared, index, done) matches Ok(frames) ==> {
            &&& frames.len() == prepared.frames.len()
            &&& forall|i: int|
                0 <= i < frames.len() ==> (#[trigger] frames[i]).inlined == (i + 1 < frames.len())
            &&& index > 0 ==> frame_of(s, layout, address, prepared, 0) == Ok::<FrameView, Error>(
                frames.last(),
            )
            &&& index == 0 ==> frames == done
        },
    decreases index,
{
    if index > 0 {
        if let Ok(frame) = frame_of(s, layout, address, prepared, index - 1) {
            lemma_frames_from(s, layout, address, prepared, index - 1, done.push(frame));
        }
    }
}

/// Name of the function that was emitted: that of the root of its inline tree,
/// or its own where the tree gives none.
pub open spec fn emitted_name(s: Seq<u8>, layout: ParsedLayout, prepared: PreparedView) -> Result<
    Seq<u8>,
    Error,
> {
    if prepared.frames.len() == 0 || prepared.frames[0].name == 0 {
        Ok(prepared.function_name)
    } else {
        table::string_of(s, layout.string_table, prepared.frames[0].name)
    }
}

/// Where the function that was emitted starts.
pub open spec fn emitted_start(raw: RawView, prepared: PreparedView) -> u64 {
    if prepared.frames.len() == 0 {
        raw.range.start
    } else {
        prepared.frames[0].start
    }
}

/// A lookup that finds a function tells the address that was asked for and at
/// least one frame. The last frame is the function that was emitted, with its
/// name and its distance, and the frames before it are inlined calls.
pub proof fn law_lookup_frames(
    s: Seq<u8>,
    layout: ParsedLayout,
    address: u64,
    options: LookupOptions,
)
    ensures
        looked_up(s, layout, address, options) matches Ok(Some(view)) ==> {
            &&& view.address == address
            &&& view.frames.len() >= 1
            &&& forall|i: int|
                0 <= i < view.frames.len() ==> (#[trigger] view.frames[i]).inlined == (i + 1
                    < view.frames.len())
            &&& search::matching(s, layout, address) matches Ok(Some(raw)) && prepared_of(
                s,
                layout,
                raw,
                address,
                options,
            ) matches Ok(prepared) && {
                &&& emitted_name(s, layout, prepared) == Ok::<Seq<u8>, Error>(
                    view.frames.last().name,
                )
                &&& view.frames.last().offset == distance(address, emitted_start(raw, prepared))
            }
        },
{
    if let Ok(Some(raw)) = search::matching(s, layout, address) {
        if let Ok(prepared) = prepared_of(s, layout, raw, address, options) {
            lemma_frames_from(
                s,
                layout,
                address,
                prepared,
                prepared.frames.len() as int,
                Seq::empty(),
            );
        }
    }
}

proof fn lemma_no_call_sites(
    records: Seq<u8>,
    pos: int,
    endian: Endian,
    base: u64,
    address: u64,
    options: LookupOptions,
    found: Scanned,
)
    requires
        0 <= pos <= records.len(),
        !options.call_sites,
        found.call_sites is None,
    ensures
        scan_records_at(
            records,
            pos,
            endian,
            base,
            address,
            options,
            found,
        ) matches Ok(scanned) ==> scanned.call_sites is None,
    decreases records.len() - pos,
{
    if let Ok((Some(record), end)) = function::record_at(records, pos, endian) {
        if let Ok(next) = with_scanned(found, record, base, address, options) {
            lemma_no_call_sites(records, end, endian, base, address, options, next);
        }
    }
}

/// A lookup reports call-site patterns only where they were asked for, and a
/// visitation yields the frames of the lookup without call sites.
pub proof fn law_visited_frames_are_lookup_frames(
    s: Seq<u8>,
    layout: ParsedLayout,
    address: u64,
    options: FrameLookupOptions,
)
    ensures
        match looked_up(s, layout, address, without_call_sites(options)) {
            Err(error) => visited(s, layout, address, options) == Err::<
                Option<Seq<FrameView>>,
                Error,
            >(error),
            Ok(None) => visited(s, layout, address, options) == Ok::<
                Option<Seq<FrameView>>,
                Error,
            >(None),
            Ok(Some(view)) => {
                &&& visited(s, layout, address, options) == Ok::<Option<Seq<FrameView>>, Error>(
                    Some(view.frames),
                )
                &&& view.call_site_patterns.len() == 0
            },
        },
{
    let wide = without_call_sites(options);
    if let Ok(Some(raw)) = search::matching(s, layout, address) {
        lemma_no_call_sites(
            raw.records,
            0,
            layout.endian,
            raw.range.start,
            address,
            wide,
            nothing_scanned(),
        );
    }
}

/// The frames of the inline calls below `index` up to the first that cannot be
/// resolved, behind the frames `done`.
pub open spec fn frames_until(
    s: Seq<u8>,
    layout: ParsedLayout,
    address: u64,
    prepared: PreparedView,
    index: int,
    done: Seq<FrameView>,
) -> Seq<FrameView>
    decreases index,
{
    if index <= 0 {
        done
    } else {
        match frame_of(s, layout, address, prepared, index - 1) {
            Err(error) => done,
            Ok(frame) => frames_until(s, layout, address, prepared, index - 1, done.push(frame)),
        }
    }
}

/// The frames that a visitation has yielded when it returns, whatever it
/// returns.
pub open spec fn yielded(
    s: Seq<u8>,
    layout: ParsedLayout,
    address: u64,
    options: FrameLookupOptions,
) -> Seq<FrameView> {
    match search::matching(s, layout, address) {
        Ok(Some(raw)) => match prepared_of(s, layout, raw, address, without_call_sites(options)) {
            Err(_) => Seq::empty(),
            Ok(prepared) => emitted(s, layout, raw, address, prepared),
        },
        _ => Seq::empty(),
    }
}

/// The frames of a lookup up to the first that cannot be resolved.
pub open spec fn emitted(
    s: Seq<u8>,
    layout: ParsedLayout,
    raw: RawView,
    address: u64,
    prepared: PreparedView,
) -> Seq<FrameView> {
    if prepared.frames.len() == 0 {
        seq![plain_frame(raw, address, prepared)]
    } else {
        frames_until(
            s,
            layout,
            address,
            prepared,
            prepared.frames.len() as int,
            Seq::empty(),
        )
    }
}

proof fn lemma_frames_until(
    s: Seq<u8>,
    layout: ParsedLayout,
    address: u64,
    prepared: PreparedView,
    index: int,
    done: Seq<FrameView>,
)
    ensures
        frames_from(s, layout, address, prepared, index, done) matches Ok(frames) ==> frames
            == frames_until(s, layout, address, prepared, index, done),
    decreases index,
{
    if index > 0 {
        if let Ok(frame) = frame_of(s, layout, address, prepared, index - 1) {
            lemma_frames_until(s, layout, address, prepared, index - 1, done.push(frame));
        }
    }
}

/// A visitation that succeeds has yielded exactly the frames of the address.
pub proof fn law_visitation_yields_frames(
    s: Seq<u8>,
    layout: ParsedLayout,
    address: u64,
    options: FrameLookupOptions,
)
    ensures
        visited(s, layout, address, options) matches Ok(frames) ==> yielded(
            s,
            layout,
            address,
            options,
        ) == (match frames {
            Some(frames) => frames,
            None => Seq::empty(),
        }),
{
    if let Ok(Some(raw)) = search::matching(s, layout, address) {
        if let Ok(prepared) = prepared_of(s, layout, raw, address, without_call_sites(options)) {
            lemma_frames_until(
                s,
                layout,
                address,
                prepared,
                prepared.frames.len() as int,
                Seq::empty(),
            );
        }
    }
}

/// What the records of a function hold for an address, as read.
#[derive(Clone, Copy, Debug)]
pub struct ScannedRecords<'data> {
    /// Line row in effect.
    pub line: Option<LineEntry>,
    /// Payload of the inline record.
    pub inline: Option<&'data [u8]>,
    /// Payload of the call-site record.
    pub call_sites: Option<&'data [u8]>,
}

/// The bytes of a payload.
pub open spec fn payload_view(payload: Option<&[u8]>) -> Option<Seq<u8>> {
    match payload {
        Some(payload) => Some(payload@),
        None => None,
    }
}

impl<'data> View for ScannedRecords<'data> {
    type V = Scanned;

    open spec fn view(&self) -> Scanned {
        Scanned {
            line: self.line,
            inline: payload_view(self.inline),
            call_sites: payload_view(self.call_sites),
        }
    }
}

/// Reads what a lookup needs from the records of a function.
pub fn scan_records<'data>(
    endian: Endian,
    raw: RawFunction<'data>,
    address: u64,
    options: LookupOptions,
) -> (result: Result<ScannedRecords<'data>, Error>)
    ensures
        match scanned_of(endian, raw@, address, options) {
            Ok(view) => result matches Ok(scanned) && scanned@ == view,
            Err(error) => result == Err::<ScannedRecords<'data>, Error>(error),
        },
{
    let mut scanned = ScannedRecords { line: None, inline: None, call_sites: None };
    if !options.line_information && !options.inline_frames && !options.call_sites {
        return Ok(scanned);
    }
    let base: u64 = raw.range.start;
    let mut cursor = Cursor::new(raw.records, endian);
    loop
        invariant
            cursor.wf(),
            cursor.bytes@ == raw.records@,
            cursor.endian == endian,
            base == raw.range.start,
            scanned_of(endian, raw@, address, options) == scan_records_at(
                raw.records@,
                cursor.position as int,
                endian,
                base,
                address,
                options,
                scanned@,
            ),
        decreases raw.records@.len() - cursor.position,
    {
        let record = match next_record(&mut cursor)? {
            Some(record) => record,
            None => return Ok(scanned),
        };
        match record.kind {
            InfoType::LineTable => {
                if options.line_information {
                    scanned.line = line::lookup(record.payload, endian, base, address)?;
                }
            },
            InfoType::Inline => {
                if options.inline_frames {
                    scanned.inline = Some(record.payload);
                }
            },
            InfoType::Merged => {},
            InfoType::Unknown(_) => {},
            InfoType::CallSite => {
                if options.call_sites {
                    scanned.call_sites = Some(record.payload);
                }
            },
        }
    }
}

/// What the frames of a lookup are made from, but for the inline calls, which
/// stand in the scratch.
#[derive(Clone, Copy, Debug)]
pub struct PreparedFrames<'data> {
    /// Name of the function.
    pub function_name: &'data [u8],
    /// Directory of the line row.
    pub directory: &'data [u8],
    /// Basename of the line row.
    pub basename: &'data [u8],
    /// Line of the line row.
    pub line: u32,
    /// Payload of the call-site record.
    pub call_sites: Option<&'data [u8]>,
}

impl<'data> PreparedFrames<'data> {
    /// What was prepared, together with the inline calls `frames`.
    pub open spec fn with(self, frames: Seq<RawInlineFrame>) -> PreparedView {
        PreparedView {
            function_name: self.function_name@,
            file: FileView { directory: self.directory@, basename: self.basename@ },
            line: self.line,
            frames,
            call_sites: payload_view(self.call_sites),
        }
    }
}

/// Reads what the frames of a lookup are made from.
pub fn prepare_frames<'data>(
    data: &'data [u8],
    layout: &ParsedLayout,
    raw: RawFunction<'data>,
    address: u64,
    options: LookupOptions,
    scratch: &mut LookupScratch,
) -> (result: Result<PreparedFrames<'data>, Error>)
    requires
        layout.wf(data@.len()),
        scratch::frames_held(*old(scratch)).len() == 0,
    ensures
        match prepared_of(data@, *layout, raw@, address, options) {
            Ok(view) => result matches Ok(prepared) && prepared.with(
                scratch::frames_held(*final(scratch)),
            ) == view,
            Err(error) => result == Err::<PreparedFrames<'data>, Error>(error),
        },
{
    let records = scan_records(layout.endian, raw, address, options)?;
    let function_name = string_at(data, &layout.string_table, raw.name)?;
    let mut directory: &'data [u8] = &[];
    let mut basename: &'data [u8] = &[];
    let mut line: u32 = 0;
    if let Some(row) = records.line {
        let file = file_at(data, layout, row.file)?;
        directory = file.0;
        basename = file.1;
        line = row.line;
    }
    proof {
        assert(model::empty_file().directory =~= Seq::<u8>::empty());
        assert(position_of(data@, *layout, records.line) == Ok::<(FileView, u32), Error>(
            (FileView { directory: directory@, basename: basename@ }, line),
        )) by {
            if records.line is None {
                assert(directory@ =~= Seq::<u8>::empty());
                assert(basename@ =~= Seq::<u8>::empty());
            }
        }
    }
    if let Some(payload) = records.inline {
        let mut cursor = Cursor::new(payload, layout.endian);
        let (present, _) = scan_inline_node(
            &mut cursor,
            layout.string_offset_size,
            raw.range.start,
            address,
            true,
            0,
            scratch,
        )?;
        if !present || !cursor.is_empty() {
            return Err(Error::InvalidFormat("malformed inline-info payload"));
        }
    }
    proof {
        assert(Seq::<RawInlineFrame>::empty() + scratch::frames_held(*scratch)
            =~= scratch::frames_held(*scratch));
        assert(scratch::frames_held(*old(scratch)) =~= Seq::<RawInlineFrame>::empty());
    }
    Ok(
        PreparedFrames {
            function_name,
            directory,
            basename,
            line,
            call_sites: records.call_sites,
        },
    )
}

/// Resolves the frames of a lookup, the innermost first, and adds them to
/// `frames`.
pub fn emit_frames<'data>(
    data: &'data [u8],
    layout: &ParsedLayout,
    raw: RawFunction<'data>,
    address: u64,
    prepared: PreparedFrames<'data>,
    scratch: &LookupScratch,
    frames: &mut Vec<LookupFrame<'data>>,
) -> (result: Result<(), Error>)
    requires
        layout.wf(data@.len()),
    ensures
        model::frame_views(final(frames)@) == model::frame_views(old(frames)@) + emitted(
            data@,
            *layout,
            raw@,
            address,
            prepared.with(scratch::frames_held(*scratch)),
        ),
        result == (match frames_of(
            data@,
            *layout,
            raw@,
            address,
            prepared.with(scratch::frames_held(*scratch)),
        ) {
            Ok(_) => Ok::<(), Error>(()),
            Err(error) => Err(error),
        }),
{
    let ghost view = prepared.with(scratch::frames_held(*scratch));
    let ghost before = model::frame_views(frames@);
    let count: usize = scratch.len();
    if count == 0 {
        let frame = LookupFrame {
            name: prepared.function_name,
            directory: prepared.directory,
            basename: prepared.basename,
            line: prepared.line,
            offset: address.saturating_sub(raw.range.start),
            inlined: false,
        };
        frames.push(frame);
        proof {
            assert(frame@ == plain_frame(raw@, address, view));
            assert(model::frame_views(frames@) =~= before + seq![
                plain_frame(raw@, address, view),
            ]);
        }
        return Ok(());
    }
    let mut index: usize = count;
    let ghost mut done = Seq::<FrameView>::empty();
    assert(model::frame_views(frames@) =~= before + done);
    while index > 0
        invariant
            layout.wf(data@.len()),
            view == prepared.with(scratch::frames_held(*scratch)),
            count == view.frames.len(),
            index <= count,
            count > 0,
            before == model::frame_views(old(frames)@),
            model::frame_views(frames@) == before + done,
            emitted(data@, *layout, raw@, address, view) == frames_until(
                data@,
                *layout,
                address,
                view,
                index as int,
                done,
            ),
            frames_of(data@, *layout, raw@, address, view) == frames_from(
                data@,
                *layout,
                address,
                view,
                index as int,
                done,
            ),
        decreases index,
    {
        index = index - 1;
        let node = scratch.frame(index);
        let mut directory: &'data [u8] = prepared.directory;
        let mut basename: &'data [u8] = prepared.basename;
        let mut line: u32 = prepared.line;
        if index + 1 < count {
            let callee = scratch.frame(index + 1);
            let file = file_at(data, layout, callee.call_file)?;
            directory = file.0;
            basename = file.1;
            line = callee.call_line;
        }
        let name: &'data [u8] = if node.name == 0 {
            prepared.function_name
        } else {
            string_at(data, &layout.string_table, node.name)?
        };
        let frame = LookupFrame {
            name,
            directory,
            basename,
            line,
            offset: address.saturating_sub(node.start),
            inlined: index != 0,
        };
        let ghost current = model::frame_views(frames@);
        frames.push(frame);
        proof {
            assert(model::frame_views(frames@) =~= current.push(frame@));
            assert(frame_of(data@, *layout, address, view, index as int) == Ok::<FrameView, Error>(
                frame@,
            ));
            assert(model::frame_views(frames@) =~= before + done.push(frame@));
            done = done.push(frame@);
        }
    }
    Ok(())
}

fn read_pattern_offsets<'data>(
    data: &'data [u8],
    layout: &ParsedLayout,
    cursor: &mut Cursor<'_>,
    count: u32,
    wanted: bool,
    patterns: &mut Vec<&'data [u8]>,
) -> (result: Result<(), Error>)
    requires
        layout.wf(data@.len()),
        old(cursor).wf(),
        old(cursor).endian == layout.endian,
    ensures
        final(cursor).wf(),
        final(cursor).same_input(*old(cursor)),
        match pattern_offsets_at(
            data@,
            *layout,
            old(cursor).bytes@,
            old(cursor).position as int,
            count as nat,
            wanted,
            model::slice_views(old(patterns)@),
        ) {
            Ok((found, end)) => {
                &&& result == Ok::<(), Error>(())
                &&& model::slice_views(final(patterns)@) == found
                &&& final(cursor).position == end
            },
            Err(error) => result == Err::<(), Error>(error),
        },
{
    let ghost expected = pattern_offsets_at(
        data@,
        *layout,
        cursor.bytes@,
        cursor.position as int,
        count as nat,
        wanted,
        model::slice_views(patterns@),
    );
    let mut left: u32 = count;
    while left > 0
        invariant
            layout.wf(data@.len()),
            cursor.wf(),
            cursor.same_input(*old(cursor)),
            cursor.endian == layout.endian,
            expected == pattern_offsets_at(
                data@,
                *layout,
                old(cursor).bytes@,
                old(cursor).position as int,
                count as nat,
                wanted,
                model::slice_views(old(patterns)@),
            ),
            expected == pattern_offsets_at(
                data@,
                *layout,
                cursor.bytes@,
                cursor.position as int,
                left as nat,
                wanted,
                model::slice_views(patterns@),
            ),
        decreases left,
    {
        let offset: u64 = cursor.read_uint(layout.string_offset_size)?;
        if wanted {
            let string = string_at(data, &layout.string_table, offset)?;
            let ghost before = model::slice_views(patterns@);
            patterns.push(string);
            assert(model::slice_views(patterns@) =~= before.push(string@));
        }
        left = left - 1;
    }
    Ok(())
}

/// Reads the callee patterns of the call sites that return to `return_offset`.
pub fn read_call_site_patterns<'data>(
    data: &'data [u8],
    layout: &ParsedLayout,
    payload: &[u8],
    return_offset: u64,
) -> (result: Result<Vec<&'data [u8]>, Error>)
    requires
        layout.wf(data@.len()),
    ensures
        match patterns_of(data@, *layout, Some(payload@), return_offset) {
            Ok(view) => result matches Ok(patterns) && model::slice_views(patterns@) == view,
            Err(error) => result == Err::<Vec<&'data [u8]>, Error>(error),
        },
{
    let mut cursor = Cursor::new(payload, layout.endian);
    let mut patterns: Vec<&'data [u8]> = Vec::new();
    let count: u32 = cursor.read_u32()?;
    let ghost expected = pattern_sites_at(
        data@,
        *layout,
        payload@,
        cursor.position as int,
        count as nat,
        return_offset,
        Seq::empty(),
    );
    assert(model::slice_views(patterns@) =~= Seq::<Seq<u8>>::empty());
    let mut left: u32 = count;
    while left > 0
        invariant
            layout.wf(data@.len()),
            cursor.wf(),
            cursor.bytes@ == payload@,
            cursor.endian == layout.endian,
            expected == pattern_sites_at(
                data@,
                *layout,
                payload@,
                cursor.position as int,
                left as nat,
                return_offset,
                model::slice_views(patterns@),
            ),
            patterns_of(data@, *layout, Some(payload@), return_offset) == (match expected {
                Err(error) => Err(error),
                Ok((patterns, end)) => if end < payload@.len() {
                    Err(Error::InvalidFormat("trailing call-site bytes"))
                } else {
                    Ok(patterns)
                },
            }),
        decreases left,
    {
        let candidate: u64 = cursor.read_u64()?;
        let _flags: u8 = cursor.read_u8()?;
        let pattern_count: u32 = cursor.read_u32()?;
        read_pattern_offsets(
            data,
            layout,
            &mut cursor,
            pattern_count,
            candidate == return_offset,
            &mut patterns,
        )?;
        left = left - 1;
    }
    if !cursor.is_empty() {
        return Err(Error::InvalidFormat("trailing call-site bytes"));
    }
    Ok(patterns)
}

/// Looks an address up.
pub fn lookup_at<'data>(
    data: &'data [u8],
    layout: &ParsedLayout,
    address: u64,
    options: LookupOptions,
    scratch: &mut LookupScratch,
) -> (result: Result<Option<Lookup<'data>>, Error>)
    requires
        layout.wf(data@.len()),
    ensures
        match looked_up(data@, *layout, address, options) {
            Ok(Some(view)) => result matches Ok(Some(lookup)) && lookup@ == view,
            Ok(None) => result matches Ok(None),
            Err(error) => result == Err::<Option<Lookup<'data>>, Error>(error),
        },
{
    scratch.clear();
    let raw = match matching_function(data, layout, address)? {
        Some(raw) => raw,
        None => return Ok(None),
    };
    let prepared = prepare_frames(data, layout, raw, address, options, scratch)?;
    let mut resolved: Vec<LookupFrame<'data>> = Vec::new();
    assert(model::frame_views(resolved@) =~= Seq::<FrameView>::empty());
    emit_frames(data, layout, raw, address, prepared, scratch, &mut resolved)?;
    proof {
        let view = prepared.with(scratch::frames_held(*scratch));
        lemma_frames_until(
            data@,
            *layout,
            address,
            view,
            view.frames.len() as int,
            Seq::empty(),
        );
        assert(model::frame_views(resolved@) =~= emitted(data@, *layout, raw@, address, view));
    }
    let patterns: Vec<&'data [u8]> = match prepared.call_sites {
        Some(payload) => read_call_site_patterns(
            data,
            layout,
            payload,
            address.saturating_sub(raw.range.start),
        )?,
        None => Vec::new(),
    };
    proof {
        if prepared.call_sites is None {
            assert(model::slice_views(patterns@) =~= Seq::<Seq<u8>>::empty());
        }
    }
    Ok(Some(Lookup { address, function: raw.range, resolved, patterns }))
}

/// Visits the frames of an address: each is added to `frames`, the innermost
/// first.
pub fn visit_at<'data>(
    data: &'data [u8],
    layout: &ParsedLayout,
    address: u64,
    options: FrameLookupOptions,
    scratch: &mut LookupScratch,
    frames: &mut Vec<LookupFrame<'data>>,
) -> (result: Result<bool, Error>)
    requires
        layout.wf(data@.len()),
    ensures
        model::frame_views(final(frames)@) == model::frame_views(old(frames)@) + yielded(
            data@,
            *layout,
            address,
            options,
        ),
        result == (match visited(data@, *layout, address, options) {
            Ok(Some(_)) => Ok::<bool, Error>(true),
            Ok(None) => Ok(false),
            Err(error) => Err(error),
        }),
{
    assert(model::frame_views(frames@) + Seq::<FrameView>::empty() =~= model::frame_views(frames@));
    scratch.clear();
    let raw = match matching_function(data, layout, address)? {
        Some(raw) => raw,
        None => return Ok(false),
    };
    let wide = LookupOptions::from(options);
    let prepared = prepare_frames(data, layout, raw, address, wide, scratch)?;
    emit_frames(data, layout, raw, address, prepared, scratch, frames)?;
    Ok(true)
}

} // verus!
