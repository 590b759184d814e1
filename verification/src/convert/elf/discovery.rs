//! Search for companion files.
//!
//! Files are read and requests are sent elsewhere. This module says where to
//! look, and judges what was found.
use vstd::prelude::*;
use vstd::string::*;

use crate::convert::diagnostic;
use crate::convert::diagnostic::{ConversionWarning, WarningView};
use crate::convert::dwarf::collect::push_warning;
use crate::convert::elf::image;
use crate::convert::elf::image::cross_check_elf_identity;
use crate::convert::elf::object_file;
use crate::convert::elf::object_file::{malformed, parse_elf, ObjectFile};
use crate::convert::elf::stream::{io_error, StreamInput};
use crate::error;
use crate::error::{Detail, ElfInputKind, Error, ErrorView};
use crate::model::same_bytes;
use crate::text;
use crate::text::push_decimal;

verus! {

/// A checksum under way once `count` more bits are divided by the polynomial
/// 0x04c11db7, whose bits stand in reverse order.
pub open spec fn divided(sum: u32, count: nat) -> u32
    decreases count,
{
    if count == 0 {
        sum
    } else {
        let shifted = sum >> 1u32;
        divided(
            if sum & 1u32 == 1u32 {
                shifted ^ 0xedb8_8320u32
            } else {
                shifted
            },
            (count - 1) as nat,
        )
    }
}

/// A checksum under way after bytes.
pub open spec fn summed(bytes: Seq<u8>) -> u32
    decreases bytes.len(),
{
    if bytes.len() == 0 {
        0xffff_ffff
    } else {
        divided(summed(bytes.drop_last()) ^ (bytes.last() as u32), 8)
    }
}

/// The CRC-32 checksum of bytes, as IEEE 802.3 defines it.
pub open spec fn crc32(bytes: Seq<u8>) -> u32 {
    summed(bytes) ^ 0xffff_ffff
}

/// Calls `crc32fast::hash`, which returns the IEEE CRC-32 checksum.
#[verifier::external_body]
fn checksum(bytes: &[u8]) -> (sum: u32)
    ensures
        sum == crc32(bytes@),
{
    crc32fast::hash(bytes)
}

/// Two lower-case hexadecimal digits for each byte, the high one first.
pub open spec fn hex_digits(bytes: Seq<u8>) -> Seq<char> {
    Seq::new(
        2 * bytes.len(),
        |i: int|
            text::digit(
                if i % 2 == 0 {
                    bytes[i / 2] as nat / 16
                } else {
                    bytes[i / 2] as nat % 16
                },
            ),
    )
}

/// Calls `hex::encode`, which writes two lower-case digits for each byte.
#[verifier::external_body]
fn hex_text(bytes: &[u8]) -> (text: String)
    ensures
        text@ == hex_digits(bytes@),
{
    hex::encode(bytes)
}

/// Returns the hexadecimal digits of a build identifier.
pub fn build_id_text(build_id: &[u8]) -> (text: String)
    ensures
        text@ == hex_digits(build_id@),
{
    hex_text(build_id)
}

/// The directory and file name of a build identifier below `.build-id`.
pub open spec fn build_id_place(build_id: Seq<u8>) -> Option<(Seq<char>, Seq<char>)> {
    if build_id.len() < 2 {
        None
    } else {
        Some(
            (
                hex_digits(build_id.subrange(0, 1)),
                hex_digits(build_id.subrange(1, build_id.len() as int)) + ".debug"@,
            ),
        )
    }
}

/// Returns the directory and file name of a build identifier below
/// `.build-id`. An identifier of fewer than two bytes has none.
pub fn build_id_path(build_id: &[u8]) -> (place: Option<(String, String)>)
    ensures
        match build_id_place(build_id@) {
            Some((directory, file)) => place matches Some((d, f)) && d@ == directory && f@ == file,
            None => place is None,
        },
{
    let count: usize = build_id.len();
    if count < 2 {
        return None;
    }
    let directory = hex_text(vstd::slice::slice_subrange(build_id, 0, 1));
    let mut file = hex_text(vstd::slice::slice_subrange(build_id, 1, count));
    file.append(".debug");
    Some((directory, file))
}

/// A place where a separate debug file may lie.
#[derive(Clone, Copy, Debug, PartialEq, Eq, Structural)]
pub enum Candidate {
    /// In the directory of the image.
    Sibling,
    /// In `.debug` below the directory of the image.
    DebugDirectory,
    /// In the image's directory below the debug root with this index.
    Mirrored(usize),
}

/// The places of the first `roots` debug roots.
pub open spec fn mirrored(roots: nat) -> Seq<Candidate> {
    Seq::new(roots, |i: int| Candidate::Mirrored(i as usize))
}

/// Where a linked debug file is looked for, in order.
pub open spec fn linked_places(parent: bool, mirrors: bool, roots: nat) -> Seq<Candidate> {
    (if parent {
        seq![Candidate::Sibling, Candidate::DebugDirectory]
    } else {
        Seq::empty()
    }) + (if mirrors {
        mirrored(roots)
    } else {
        Seq::empty()
    })
}

/// Returns where the debug file that an image links to is looked for, in
/// order. The image may have a parent directory, and one to look for below the
/// debug roots.
pub fn linked_candidates(parent: bool, mirrors: bool, roots: usize) -> (candidates: Vec<Candidate>)
    ensures
        candidates@ == linked_places(parent, mirrors, roots as nat),
{
    let mut candidates: Vec<Candidate> = Vec::new();
    if parent {
        candidates.push(Candidate::Sibling);
        candidates.push(Candidate::DebugDirectory);
    }
    let ghost first = candidates@;
    assert(first =~= linked_places(parent, false, roots as nat));
    if mirrors {
        let mut i: usize = 0;
        assert(first + mirrored(0) =~= first);
        while i < roots
            invariant
                i <= roots,
                candidates@ == first + mirrored(i as nat),
            decreases roots - i,
        {
            candidates.push(Candidate::Mirrored(i));
            i = i + 1;
            assert(candidates@ =~= first + mirrored(i as nat));
        }
        assert(candidates@ =~= linked_places(parent, mirrors, roots as nat));
    }
    candidates
}

/// The debug file that an image links to.
pub open spec fn link_of(link: Result<Option<(Seq<u8>, u32)>, Seq<char>>) -> Result<
    Option<(Seq<u8>, u32)>,
    ErrorView,
> {
    match link {
        Err(text) => Err(object_file::parser_error(".gnu_debuglink", text)),
        Ok(None) => Ok(None),
        Ok(Some((name, sum))) => if name.len() == 0 {
            Err(
                ErrorView::Plain(
                    Error::Malformed {
                        context: ".gnu_debuglink",
                        detail: Detail::Text("filename is empty"),
                    },
                ),
            )
        } else {
            Ok(Some((name, sum)))
        },
    }
}

/// What a link result says.
pub open spec fn link_result(link: Result<Option<(Vec<u8>, u32)>, String>) -> Result<
    Option<(Seq<u8>, u32)>,
    Seq<char>,
> {
    match link {
        Ok(link) => Ok(object_file::link_view(link)),
        Err(source) => Err(source@),
    }
}

/// Accepts the debug file that an image links to, unless its name is empty.
pub fn accept_debug_link(link: Result<Option<(Vec<u8>, u32)>, String>) -> (result: Result<
    Option<(Vec<u8>, u32)>,
    Error,
>)
    ensures
        match link_of(link_result(link)) {
            Ok(view) => result matches Ok(found) && object_file::link_view(found) == view,
            Err(view) => result matches Err(error) && error@ == view,
        },
{
    match link {
        Err(source) => Err(malformed(".gnu_debuglink", source)),
        Ok(None) => Ok(None),
        Ok(Some((name, sum))) => if name.len() == 0 {
            Err(
                Error::Malformed {
                    context: ".gnu_debuglink",
                    detail: Detail::Text("filename is empty"),
                },
            )
        } else {
            Ok(Some((name, sum)))
        },
    }
}

/// Reads the debug file that an image links to, and the file's checksum.
pub fn debug_link(file: &ObjectFile<'_>) -> (result: Result<Option<(Vec<u8>, u32)>, Error>)
    ensures
        match link_of(object_file::object_debuglink(file@)) {
            Ok(view) => result matches Ok(found) && object_file::link_view(found) == view,
            Err(view) => result matches Err(error) && error@ == view,
        },
{
    accept_debug_link(file.debuglink())
}

/// The supplementary file that a debug file links to.
pub open spec fn altlink_of(link: Result<Option<(Seq<u8>, Seq<u8>)>, Seq<char>>) -> Result<
    Option<(Seq<u8>, Seq<u8>)>,
    ErrorView,
> {
    match link {
        Err(text) => Err(object_file::parser_error(".gnu_debugaltlink", text)),
        Ok(link) => Ok(link),
    }
}

/// Reads the supplementary file that a debug file links to, and the file's
/// build identifier.
pub fn supplementary_link(file: &ObjectFile<'_>) -> (result: Result<
    Option<(Vec<u8>, Vec<u8>)>,
    Error,
>)
    ensures
        match altlink_of(object_file::object_debugaltlink(file@)) {
            Ok(view) => result matches Ok(found) && object_file::altlink_view(found) == view,
            Err(view) => result matches Err(error) && error@ == view,
        },
{
    match file.debugaltlink() {
        Ok(link) => Ok(link),
        Err(source) => Err(malformed(".gnu_debugaltlink", source)),
    }
}

/// The build identifier that separate debug files of an image are filed under.
pub open spec fn image_id(id: Result<Option<Seq<u8>>, Seq<char>>) -> Result<
    Option<Seq<u8>>,
    ErrorView,
> {
    match id {
        Err(text) => Err(object_file::parser_error("ELF build ID", text)),
        Ok(Some(id)) if id.len() >= 2 => Ok(Some(id)),
        Ok(_) => Ok(None),
    }
}

/// Reads the build identifier that separate debug files of an image are filed
/// under. One of fewer than two bytes is not used.
pub fn search_build_id(image: &ObjectFile<'_>) -> (result: Result<Option<Vec<u8>>, Error>)
    ensures
        match image_id(object_file::object_build_id(image@)) {
            Ok(view) => result matches Ok(id) && object_file::optional_bytes(id) == view,
            Err(view) => result matches Err(error) && error@ == view,
        },
{
    match image.build_id() {
        Err(source) => Err(malformed("ELF build ID", source)),
        Ok(Some(id)) => if id.len() >= 2 {
            Ok(Some(id))
        } else {
            Ok(None)
        },
        Ok(None) => Ok(None),
    }
}

/// Whether bytes are an ELF file that belongs to an image.
pub open spec fn is_companion(image: Seq<u8>, bytes: Seq<u8>) -> bool {
    object_file::parse_error(object_file::object_header(bytes), ElfInputKind::Debug, true) is None
        && image::companion_error(image, bytes, ElfInputKind::Debug) is None
}

/// Returns whether bytes are an ELF file that belongs to an image.
pub fn valid_debug_companion(image: &ObjectFile<'_>, bytes: &[u8]) -> (valid: bool)
    ensures
        valid == is_companion(image@, bytes@),
{
    match parse_elf(bytes, ElfInputKind::Debug) {
        Err(_) => false,
        Ok(debug) => cross_check_elf_identity(image, &debug, ElfInputKind::Debug).is_ok(),
    }
}

/// Returns whether bytes are the debug file that an image links to: they have
/// the checksum that the image gives, and belong to it.
pub fn valid_linked_debug(image: &ObjectFile<'_>, bytes: &[u8], expected_sum: u32) -> (valid: bool)
    ensures
        valid == (crc32(bytes@) == expected_sum && is_companion(image@, bytes@)),
{
    checksum(bytes) == expected_sum && valid_debug_companion(image, bytes)
}

/// Returns whether bytes have a checksum.
pub fn has_checksum(bytes: &[u8], expected_sum: u32) -> (same: bool)
    ensures
        same == (crc32(bytes@) == expected_sum),
{
    checksum(bytes) == expected_sum
}

/// Whether a supplementary file has the build identifier that is expected. One
/// that cannot be parsed has not.
pub open spec fn supplementary_matches(
    header: Result<object_file::HeaderView, Seq<char>>,
    id: Result<Option<Seq<u8>>, Seq<char>>,
    expected: Seq<u8>,
) -> Result<bool, ErrorView> {
    if object_file::parse_error(header, ElfInputKind::Supplementary, true) is Some {
        Ok(false)
    } else {
        match id {
            Err(text) => Err(object_file::parser_error("supplementary build ID", text)),
            Ok(id) => Ok(id == Some(expected)),
        }
    }
}

/// Returns whether an optional identifier is the given one.
fn is_id(id: &Option<Vec<u8>>, expected: &[u8]) -> (same: bool)
    ensures
        same == (object_file::optional_bytes(*id) == Some(expected@)),
{
    match id {
        Some(id) => same_bytes(id.as_slice(), expected),
        None => false,
    }
}

/// Returns whether bytes are a supplementary file with the build identifier
/// that is expected.
pub fn valid_supplementary(bytes: &[u8], expected_id: &[u8]) -> (result: Result<bool, Error>)
    ensures
        match supplementary_matches(
            object_file::object_header(bytes@),
            object_file::object_build_id(bytes@),
            expected_id@,
        ) {
            Ok(matched) => result == Ok::<bool, Error>(matched),
            Err(view) => result matches Err(error) && error@ == view,
        },
{
    let file = match parse_elf(bytes, ElfInputKind::Supplementary) {
        Ok(file) => file,
        Err(_) => return Ok(false),
    };
    match file.build_id() {
        Err(source) => Err(malformed("supplementary build ID", source)),
        Ok(id) => Ok(is_id(&id, expected_id)),
    }
}

/// Whether bytes are an ELF file with a build identifier, and belong to an
/// image where there is one.
pub open spec fn is_response(image: Option<Seq<u8>>, expected: Seq<u8>, bytes: Seq<u8>) -> bool {
    &&& object_file::parse_error(
        object_file::object_header(bytes),
        ElfInputKind::Debug,
        true,
    ) is None
    &&& object_file::object_build_id(bytes) == Ok::<Option<Seq<u8>>, Seq<char>>(Some(expected))
    &&& image matches Some(image) ==> image::companion_error(
        image,
        bytes,
        ElfInputKind::Debug,
    ) is None
}

/// The bytes of an optional file.
pub open spec fn file_bytes(file: Option<&ObjectFile<'_>>) -> Option<Seq<u8>> {
    match file {
        Some(file) => Some(file@),
        None => None,
    }
}

/// Returns whether bytes answer a debuginfod request for a build identifier.
pub fn valid_debuginfod_response(
    image: Option<&ObjectFile<'_>>,
    expected_build_id: &[u8],
    bytes: &[u8],
) -> (valid: bool)
    ensures
        valid == is_response(file_bytes(image), expected_build_id@, bytes@),
{
    let debug = match parse_elf(bytes, ElfInputKind::Debug) {
        Ok(debug) => debug,
        Err(_) => return false,
    };
    let id: Option<Vec<u8>> = match debug.build_id() {
        Ok(id) => id,
        Err(_) => return false,
    };
    if !is_id(&id, expected_build_id) {
        return false;
    }
    match image {
        Some(image) => cross_check_elf_identity(image, &debug, ElfInputKind::Debug).is_ok(),
        None => true,
    }
}

/// What came of asking a debuginfod server.
pub enum FetchOutcome {
    /// The server's address is not valid.
    InvalidServer(String),
    /// There is no server to ask, or it does not have the file.
    Nothing,
    /// The request failed.
    RequestFailed(String),
    /// The response could not be read.
    ReadFailed {
        /// Address of the server that responded.
        url: String,
        /// Failure description.
        reason: String,
    },
    /// The response, or its first bytes if it is longer than the limit.
    Received {
        /// Address of the server that responded.
        url: String,
        /// The bytes.
        bytes: Vec<u8>,
    },
}

/// What to do after asking a debuginfod server.
pub enum FetchStep {
    /// Ask the next server.
    Continue,
    /// Warn, and ask the next server.
    Warn(ConversionWarning),
    /// Put the response into the cache and use it.
    Store(Vec<u8>),
}

/// What to do after asking a debuginfod server.
pub enum FetchStepView {
    /// Ask the next server.
    Continue,
    /// Warn, and ask the next server.
    Warn(WarningView),
    /// Put the response into the cache and use it.
    Store(Seq<u8>),
}

impl View for FetchStep {
    type V = FetchStepView;

    open spec fn view(&self) -> FetchStepView {
        match *self {
            FetchStep::Continue => FetchStepView::Continue,
            FetchStep::Warn(warning) => FetchStepView::Warn(warning@),
            FetchStep::Store(bytes) => FetchStepView::Store(bytes@),
        }
    }
}

/// A warning of an endpoint.
pub open spec fn endpoint_warning(endpoint: Seq<char>, reason: Seq<char>) -> FetchStepView {
    FetchStepView::Warn(WarningView::Debuginfod { endpoint: Some(endpoint), reason })
}

/// What to do after asking a server for the file with a build identifier.
pub open spec fn fetch_step(
    outcome: FetchOutcome,
    server: Seq<char>,
    build_id: Seq<u8>,
    artifact: Seq<char>,
    limit: u64,
    valid: spec_fn(Seq<u8>) -> bool,
) -> FetchStepView {
    match outcome {
        FetchOutcome::Nothing => FetchStepView::Continue,
        FetchOutcome::InvalidServer(reason) => endpoint_warning(
            server,
            "invalid server: "@ + reason@,
        ),
        FetchOutcome::RequestFailed(reason) => endpoint_warning(
            server,
            "request for "@ + hex_digits(build_id) + " failed: "@ + reason@,
        ),
        FetchOutcome::ReadFailed { url, reason } => endpoint_warning(
            url@,
            "response was rejected: "@ + reason@,
        ),
        FetchOutcome::Received { url, bytes } => if bytes@.len() > limit {
            endpoint_warning(
                url@,
                "response was rejected: response exceeds the "@ + text::decimal(limit as nat)
                    + "-byte limit"@,
            )
        } else if !valid(bytes@) {
            endpoint_warning(
                url@,
                "response does not match the requested "@ + artifact
                    + " build ID or architecture"@,
            )
        } else {
            FetchStepView::Store(bytes@)
        },
    }
}

fn joined(first: &str, second: &str, third: &str) -> (whole: String)
    ensures
        whole@ == first@ + second@ + third@,
{
    let mut whole = String::from_str(first);
    whole.append(second);
    whole.append(third);
    whole
}

fn paired(first: &str, second: &str) -> (whole: String)
    ensures
        whole@ == first@ + second@,
{
    let mut whole = String::from_str(first);
    whole.append(second);
    whole
}

fn warn(endpoint: String, reason: String) -> (step: FetchStep)
    ensures
        step@ == endpoint_warning(endpoint@, reason@),
{
    FetchStep::Warn(ConversionWarning::Debuginfod { endpoint: Some(endpoint), reason })
}

/// Judges what came of asking a debuginfod server for the file with a build
/// identifier.
///
/// A response is used if it is not longer than the limit, has the identifier,
/// and belongs to the image where there is one.
pub fn judge_fetch(
    outcome: FetchOutcome,
    server: &String,
    image: Option<&ObjectFile<'_>>,
    build_id: &[u8],
    artifact: &str,
    limit: u64,
) -> (step: FetchStep)
    ensures
        step@ == fetch_step(
            outcome,
            server@,
            build_id@,
            artifact@,
            limit,
            |bytes: Seq<u8>| is_response(file_bytes(image), build_id@, bytes),
        ),
{
    match outcome {
        FetchOutcome::Nothing => FetchStep::Continue,
        FetchOutcome::InvalidServer(reason) => warn(
            server.clone(),
            paired("invalid server: ", reason.as_str()),
        ),
        FetchOutcome::RequestFailed(reason) => {
            let id = hex_text(build_id);
            let mut text = joined("request for ", id.as_str(), " failed: ");
            text.append(reason.as_str());
            warn(server.clone(), text)
        },
        FetchOutcome::ReadFailed { url, reason } => warn(
            url,
            paired("response was rejected: ", reason.as_str()),
        ),
        FetchOutcome::Received { url, bytes } => {
            if bytes.len() as u64 > limit {
                let mut text = String::from_str("response was rejected: response exceeds the ");
                push_decimal(&mut text, limit);
                text.append("-byte limit");
                return warn(url, text);
            }
            if !valid_debuginfod_response(image, build_id, bytes.as_slice()) {
                return warn(
                    url,
                    joined(
                        "response does not match the requested ",
                        artifact,
                        " build ID or architecture",
                    ),
                );
            }
            FetchStep::Store(bytes)
        },
    }
}

/// Warns that no debuginfod client could be created.
pub fn client_warning(reason: &str) -> (warning: ConversionWarning)
    ensures
        warning@ == (WarningView::Debuginfod {
            endpoint: None,
            reason: "failed to create HTTP client: "@ + reason@,
        }),
{
    ConversionWarning::Debuginfod {
        endpoint: None,
        reason: paired("failed to create HTTP client: ", reason),
    }
}

/// Warns that a response could not be put into the cache.
pub fn cache_warning(path: String, reason: &str) -> (warning: ConversionWarning)
    ensures
        warning@ == (WarningView::Debuginfod {
            endpoint: Some(path@),
            reason: "failed to cache response: "@ + reason@,
        }),
{
    ConversionWarning::Debuginfod {
        endpoint: Some(path),
        reason: paired("failed to cache response: ", reason),
    }
}

/// Output that takes no more than a number of bytes.
pub struct LimitedOutput {
    bytes: Vec<u8>,
    limit: u64,
}

impl View for LimitedOutput {
    type V = Seq<u8>;

    closed spec fn view(&self) -> Seq<u8> {
        self.bytes@
    }
}

impl LimitedOutput {
    /// Most bytes that the output takes.
    pub closed spec fn spec_limit(&self) -> u64 {
        self.limit
    }

    #[verifier::type_invariant]
    spec fn within_limit(&self) -> bool {
        self.bytes@.len() <= self.limit
    }

    /// Starts without bytes.
    pub fn new(limit: u64) -> (output: Self)
        ensures
            output@ == Seq::<u8>::empty(),
            output.spec_limit() == limit,
    {
        let output = LimitedOutput { bytes: Vec::new(), limit };
        assert(output@ =~= Seq::<u8>::empty());
        output
    }

    /// Returns the bytes.
    pub fn into_inner(self) -> (bytes: Vec<u8>)
        ensures
            bytes@ == self@,
            bytes@.len() <= self.spec_limit(),
    {
        proof {
            use_type_invariant(&self);
        }
        self.bytes
    }

    /// Takes bytes, or says that they are too many.
    pub fn take(&mut self, bytes: &[u8]) -> (result: Result<usize, String>)
        ensures
            final(self).spec_limit() == old(self).spec_limit(),
            if old(self)@.len() + bytes@.len() > old(self).spec_limit() {
                &&& result matches Err(text) && text@ == "decompressed data exceeds the "@
                    + text::decimal(old(self).spec_limit() as nat) + "-byte limit"@
                &&& final(self)@ == old(self)@
            } else {
                &&& result == Ok::<usize, String>(bytes@.len() as usize)
                &&& final(self)@ == old(self)@ + bytes@
            },
    {
        proof {
            use_type_invariant(&*self);
        }
        let count: usize = bytes.len();
        let held: usize = self.bytes.len();
        if count as u64 > self.limit - held as u64 {
            let mut text = String::from_str("decompressed data exceeds the ");
            push_decimal(&mut text, self.limit);
            text.append("-byte limit");
            return Err(text);
        }
        let mut taken: Vec<u8> = Vec::new();
        std::mem::swap(&mut taken, &mut self.bytes);
        taken.extend_from_slice(bytes);
        self.bytes = taken;
        Ok(count)
    }
}

impl std::io::Write for LimitedOutput {
    fn write(&mut self, bytes: &[u8]) -> (result: std::io::Result<usize>) {
        match self.take(bytes) {
            Ok(count) => Ok(count),
            Err(text) => Err(io_error(text)),
        }
    }

    fn flush(&mut self) -> (result: std::io::Result<()>) {
        Ok(())
    }
}

/// What `lzma_rs::xz_decompress` makes of a stream that a `StreamInput` holds and
/// an output that takes no more than `limit` bytes: the bytes it writes, or the
/// text of its error.
pub uninterp spec fn xz_output(packed: Seq<u8>, limit: u64) -> Result<Seq<u8>, Seq<char>>;

/// Calls `lzma_rs::xz_decompress`. What it writes and what it returns depend on
/// the stream and on the limit of the output alone. It adds one to the word that
/// it reads behind two others, which does not overflow, since the input gives no
/// full word there.
#[verifier::external_body]
fn xz_decompress(input: &mut StreamInput<'_>, output: &mut LimitedOutput) -> (result: Result<
    (),
    String,
>)
    requires
        old(input)@.words == 0,
        old(output)@ == Seq::<u8>::empty(),
    ensures
        final(output).spec_limit() == old(output).spec_limit(),
        match result {
            Ok(()) => xz_output(old(input)@.left, old(output).spec_limit()) == Ok::<
                Seq<u8>,
                Seq<char>,
            >(final(output)@),
            Err(text) => xz_output(old(input)@.left, old(output).spec_limit()) == Err::<
                Seq<u8>,
                Seq<char>,
            >(text@),
        },
{
    lzma_rs::xz_decompress(input, output).map_err(|error| error.to_string())
}

/// The compressed debug file that an image holds.
pub open spec fn embedded_data(data: Seq<u8>) -> Result<Option<Seq<u8>>, ErrorView> {
    match object_file::object_section_named(data, ".gnu_debugdata"@) {
        None => Ok(None),
        Some(section) => match object_file::object_section_data(data, section.index) {
            Ok(bytes) => Ok(Some(bytes)),
            Err(text) => Err(object_file::parser_error(".gnu_debugdata", text)),
        },
    }
}

/// Reads the compressed debug file that an image holds.
pub fn gnu_debugdata(image: &ObjectFile<'_>) -> (result: Result<Option<Vec<u8>>, Error>)
    ensures
        match embedded_data(image@) {
            Ok(view) => result matches Ok(bytes) && object_file::optional_bytes(bytes) == view,
            Err(view) => result matches Err(error) && error@ == view,
        },
{
    let section = match image.section_named(".gnu_debugdata") {
        Some(section) => section,
        None => return Ok(None),
    };
    match image.section_data(section.index) {
        Ok(bytes) => Ok(Some(bytes)),
        Err(source) => Err(malformed(".gnu_debugdata", source)),
    }
}

/// Turns what the decompressor said into an error.
pub fn decompression_error(source: String) -> (error: Error)
    ensures
        error@ == object_file::parser_error(".gnu_debugdata XZ stream", source@),
{
    malformed(".gnu_debugdata XZ stream", source)
}

/// What a compressed debug file becomes, given what the decompressor makes of it.
pub open spec fn unpacked_stream(output: Result<Seq<u8>, Seq<char>>) -> Result<Seq<u8>, ErrorView> {
    match output {
        Ok(bytes) => Ok(bytes),
        Err(text) => Err(object_file::parser_error(".gnu_debugdata XZ stream", text)),
    }
}

/// The debug file that an image holds, unpacked up to a limit.
pub open spec fn unpacked_data(data: Seq<u8>, maximum_size: u64) -> Result<
    Option<Seq<u8>>,
    ErrorView,
> {
    match embedded_data(data) {
        Err(error) => Err(error),
        Ok(None) => Ok(None),
        Ok(Some(packed)) => match unpacked_stream(xz_output(packed, maximum_size)) {
            Ok(bytes) => Ok(Some(bytes)),
            Err(error) => Err(error),
        },
    }
}

/// Reads the debug file that an image holds and unpacks it. The file holds no
/// more than `maximum_size` bytes.
pub fn unpack_gnu_debugdata(image: &ObjectFile<'_>, maximum_size: u64) -> (result: Result<
    Option<Vec<u8>>,
    Error,
>)
    ensures
        unpacked_view(result) == unpacked_data(image@, maximum_size),
        result matches Ok(Some(bytes)) ==> bytes@.len() <= maximum_size,
{
    let packed: Vec<u8> = match gnu_debugdata(image) {
        Ok(Some(packed)) => packed,
        Ok(None) => return Ok(None),
        Err(error) => return Err(error),
    };
    let mut input = StreamInput::new(packed.as_slice());
    let mut output = LimitedOutput::new(maximum_size);
    match xz_decompress(&mut input, &mut output) {
        Ok(()) => Ok(Some(output.into_inner())),
        Err(source) => Err(decompression_error(source)),
    }
}

/// The debug file that an image holds, and the warnings by then.
pub struct Embedded {
    /// The file, if it can be used.
    pub bytes: Option<Seq<u8>>,
    /// The warnings.
    pub warnings: Seq<WarningView>,
}

/// The error of a decompressed debug file.
pub open spec fn embedded_error(image: Seq<u8>, bytes: Seq<u8>) -> Option<ErrorView> {
    match object_file::parse_error(
        object_file::object_header(bytes),
        ElfInputKind::EmbeddedDebugData,
        true,
    ) {
        Some(error) => Some(error),
        None => image::companion_error(image, bytes, ElfInputKind::EmbeddedDebugData),
    }
}

/// What becomes of the debug file that an image holds once it is unpacked. One
/// that cannot be used is warned of.
pub open spec fn embedded(
    image: Seq<u8>,
    unpacked: Result<Option<Seq<u8>>, ErrorView>,
    warnings: Seq<WarningView>,
) -> Embedded {
    let problem = match unpacked {
        Err(error) => Some(error),
        Ok(None) => None,
        Ok(Some(bytes)) => embedded_error(image, bytes),
    };
    match problem {
        Some(error) => Embedded {
            bytes: None,
            warnings: warnings.push(
                WarningView::EmbeddedDebugData { reason: error::message_of(error) },
            ),
        },
        None => Embedded { bytes: unpacked->Ok_0, warnings },
    }
}

/// What an unpacked debug file says.
pub open spec fn unpacked_view(unpacked: Result<Option<Vec<u8>>, Error>) -> Result<
    Option<Seq<u8>>,
    ErrorView,
> {
    match unpacked {
        Ok(bytes) => Ok(object_file::optional_bytes(bytes)),
        Err(error) => Err(error@),
    }
}

fn check_embedded(image: &ObjectFile<'_>, bytes: &Vec<u8>) -> (result: Result<(), Error>)
    ensures
        match embedded_error(image@, bytes@) {
            Some(view) => result matches Err(error) && error@ == view,
            None => result == Ok::<(), Error>(()),
        },
{
    let debug = parse_elf(bytes.as_slice(), ElfInputKind::EmbeddedDebugData)?;
    cross_check_elf_identity(image, &debug, ElfInputKind::EmbeddedDebugData)
}

/// Returns the debug file that an image holds once it is unpacked, and warns of
/// one that cannot be used.
pub fn validated_gnu_debugdata(
    image: &ObjectFile<'_>,
    unpacked: Result<Option<Vec<u8>>, Error>,
    warnings: &mut Vec<ConversionWarning>,
) -> (bytes: Option<Vec<u8>>)
    ensures
        ({
            let found = embedded(
                image@,
                unpacked_view(unpacked),
                diagnostic::warning_views(old(warnings)@),
            );
            &&& object_file::optional_bytes(bytes) == found.bytes
            &&& diagnostic::warning_views(final(warnings)@) == found.warnings
        }),
{
    let bytes: Vec<u8> = match unpacked {
        Ok(None) => return None,
        Ok(Some(bytes)) => bytes,
        Err(error) => {
            push_warning(
                warnings,
                ConversionWarning::EmbeddedDebugData { reason: error.message() },
            );
            return None;
        },
    };
    match check_embedded(image, &bytes) {
        Ok(()) => Some(bytes),
        Err(error) => {
            push_warning(
                warnings,
                ConversionWarning::EmbeddedDebugData { reason: error.message() },
            );
            None
        },
    }
}

/// Returns whether bytes are a split-DWARF package: an ELF file with an index
/// of units.
pub fn valid_dwp(bytes: &[u8]) -> (valid: bool)
    ensures
        valid == (object_file::parse_error(
            object_file::object_header(bytes@),
            ElfInputKind::Dwp,
            true,
        ) is None && object_file::object_section_named(bytes@, ".debug_cu_index"@) is Some),
{
    match parse_elf(bytes, ElfInputKind::Dwp) {
        Ok(file) => file.section_named(".debug_cu_index").is_some(),
        Err(_) => false,
    }
}

} // verus!
