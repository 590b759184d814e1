//! Bounds-checked binary input and output in either byte order.
use vstd::prelude::*;
use crate::bytes;
use vstd::slice::slice_subrange;
use crate::bytes::{be_uint, le_uint, uint_to_bytes};
use crate::error::Error;

verus! {

/// Byte order used for fixed-width integers in a GSYM file.
///
/// A file records its own byte order, and both orders can be read on any host.
#[derive(Clone, Copy, Debug, PartialEq, Eq, Structural)]
pub enum Endian {
    /// Least-significant byte first.
    Little,
    /// Most-significant byte first.
    Big,
}

/// `u16::to_ne_bytes`: the first byte of the number one as the compilation
/// target stores it. It is one on a little-endian target and zero on a
/// big-endian one; which of the two is left open.
#[verifier::external_body]
fn first_native_byte_of_one() -> (byte: u8)
    ensures
        byte == 0 || byte == 1,
{
    1u16.to_ne_bytes()[0]
}

/// The byte order of a target that stores the number one with the given byte
/// first.
pub open spec fn order_of(first_byte: u8) -> Endian {
    if first_byte == 1 {
        Endian::Little
    } else {
        Endian::Big
    }
}

/// Returns the byte order of a target that stores the number one with the given
/// byte first.
pub fn order_from(first_byte: u8) -> (endian: Endian)
    ensures
        endian == order_of(first_byte),
{
    if first_byte == 1 {
        Endian::Little
    } else {
        Endian::Big
    }
}

impl Endian {
    /// Returns the byte order of the compilation target: that of the first byte of
    /// the number one as the target stores it.
    pub fn native() -> (endian: Self)
        ensures
            exists|byte: u8| (byte == 0 || byte == 1) && endian == #[trigger] order_of(byte),
    {
        order_from(first_native_byte_of_one())
    }
}

/// The error for a read of `needed` bytes at `pos` that runs past the input.
pub open spec fn eof_at(s: Seq<u8>, pos: int, needed: int) -> Error {
    Error::UnexpectedEof {
        offset: pos as usize,
        needed: needed as usize,
        remaining: (s.len() - pos) as usize,
    }
}

/// Outcome of reading an integer of `width` bytes at `pos`: its value and the
/// position behind it.
pub open spec fn uint_at(s: Seq<u8>, pos: int, width: int, endian: Endian) -> Result<
    (u64, int),
    Error,
> {
    if pos + width > s.len() {
        Err(eof_at(s, pos, width))
    } else {
        Ok((bytes::uint_value(s.subrange(pos, pos + width), endian) as u64, pos + width))
    }
}

/// Outcome of reading an integer at `pos` whose width was not checked.
pub open spec fn sized_uint_at(s: Seq<u8>, pos: int, width: u8, endian: Endian) -> Result<
    (u64, int),
    Error,
> {
    if 1 <= width <= 8 {
        uint_at(s, pos, width as int, endian)
    } else {
        Err(width_error(width))
    }
}

/// The error for an integer width outside one to eight bytes.
pub open spec fn width_error(width: u8) -> Error {
    Error::OutOfRange { field: "integer width", value: width as u64, max: 8 }
}

/// Largest value that an integer of `width` bytes can hold.
pub open spec fn max_of_width(width: u8) -> u64 {
    (bytes::pow256(width as nat) - 1) as u64
}

/// The error of writing `value` in `width` bytes, if it cannot be written.
pub open spec fn uint_error(value: u64, width: u8) -> Option<Error> {
    if width == 0 || width > 8 {
        Some(width_error(width))
    } else if value > max_of_width(width) {
        Some(Error::OutOfRange { field: "fixed-width integer", value, max: max_of_width(width) })
    } else {
        None
    }
}

/// An integer that was written is read back, in either byte order.
pub proof fn law_uint_reads_back(s: Seq<u8>, pos: int, value: u64, width: u8, endian: Endian)
    requires
        uint_error(value, width) is None,
        bytes::holds_at(
            s,
            pos,
            bytes::uint_bytes(value as nat, width as nat, endian),
        ),
    ensures
        uint_at(s, pos, width as int, endian) == Ok::<(u64, int), Error>((value, pos + width)),
{
    bytes::lemma_pow256_values();
    assert(width == 1 || width == 2 || width == 3 || width == 4 || width == 5 || width == 6 || width
        == 7 || width == 8);
    bytes::lemma_uint_round_trip(value as nat, width as nat, endian);
}

/// The bytes of two parts in a row, or the first of their errors.
pub open spec fn joined(first: Result<Seq<u8>, Error>, second: Result<Seq<u8>, Error>) -> Result<
    Seq<u8>,
    Error,
> {
    match first {
        Err(error) => Err(error),
        Ok(a) => match second {
            Err(error) => Err(error),
            Ok(b) => Ok(a + b),
        },
    }
}

/// The bytes of an integer, or the error of one that does not fit its width.
pub open spec fn uint_encoded(value: u64, width: u8, endian: Endian) -> Result<Seq<u8>, Error> {
    match uint_error(value, width) {
        Some(error) => Err(error),
        None => Ok(bytes::uint_bytes(value as nat, width as nat, endian)),
    }
}

/// Bounds-checked cursor over untrusted binary input.
#[derive(Clone, Copy, Debug)]
pub struct Cursor<'data> {
    /// The whole input.
    pub bytes: &'data [u8],
    /// Offset of the next byte.
    pub position: usize,
    /// Byte order of fixed-width integers.
    pub endian: Endian,
}

impl<'data> Cursor<'data> {
    /// The position never leaves the input.
    pub open spec fn wf(self) -> bool {
        self.position <= self.bytes@.len()
    }

    /// Whether a reader moved this cursor within one input.
    pub open spec fn same_input(self, other: Self) -> bool {
        self.bytes@ == other.bytes@ && self.endian == other.endian
    }

    /// What a reader does to a cursor: on success it returns the expected value
    /// and stands behind what it read, on failure it returns the expected error.
    pub open spec fn reads<T>(
        before: Self,
        after: Self,
        result: Result<T, Error>,
        expected: Result<(T, int), Error>,
    ) -> bool {
        &&& after.wf()
        &&& after.same_input(before)
        &&& match expected {
            Ok((value, end)) => result == Ok::<T, Error>(value) && after.position == end,
            Err(error) => result == Err::<T, Error>(error),
        }
    }

    /// A cursor at the start of `bytes`.
    pub fn new(bytes: &'data [u8], endian: Endian) -> (cursor: Self)
        ensures
            cursor.wf(),
            cursor.bytes@ == bytes@,
            cursor.position == 0,
            cursor.endian == endian,
    {
        Cursor { bytes, position: 0, endian }
    }

    /// A cursor at `position`, which may be the end of the input but not beyond.
    pub fn at(bytes: &'data [u8], endian: Endian, position: usize) -> (result: Result<Self, Error>)
        ensures
            match result {
                Ok(cursor) => {
                    &&& position <= bytes@.len()
                    &&& cursor.wf()
                    &&& cursor.bytes@ == bytes@
                    &&& cursor.position == position
                    &&& cursor.endian == endian
                },
                Err(error) => {
                    &&& position > bytes@.len()
                    &&& error == (Error::InvalidOffset {
                        offset: position as u64,
                        input_len: bytes@.len() as usize,
                    })
                },
            },
    {
        if position > bytes.len() {
            return Err(Error::InvalidOffset { offset: position as u64, input_len: bytes.len() });
        }
        Ok(Cursor { bytes, position, endian })
    }

    /// Byte order of the input.
    pub fn endian(&self) -> (endian: Endian)
        ensures
            endian == self.endian,
    {
        self.endian
    }

    /// Offset of the next byte.
    pub fn position(&self) -> (position: usize)
        ensures
            position == self.position,
    {
        self.position
    }

    /// Number of bytes left.
    pub fn remaining(&self) -> (remaining: usize)
        ensures
            self.wf() ==> remaining == self.bytes@.len() - self.position,
            !self.wf() ==> remaining == 0,
    {
        if self.position <= self.bytes.len() {
            self.bytes.len() - self.position
        } else {
            0
        }
    }

    /// Whether no byte is left.
    pub fn is_empty(&self) -> (empty: bool)
        ensures
            empty <==> self.position >= self.bytes@.len(),
    {
        self.remaining() == 0
    }

    /// Takes the next `count` bytes.
    pub fn take(&mut self, count: usize) -> (result: Result<&'data [u8], Error>)
        requires
            old(self).wf(),
        ensures
            final(self).wf(),
            final(self).same_input(*old(self)),
            match result {
                Ok(bytes) => {
                    &&& old(self).position + count <= old(self).bytes@.len()
                    &&& bytes@ == old(self).bytes@.subrange(
                        old(self).position as int,
                        old(self).position + count,
                    )
                    &&& final(self).position == old(self).position + count
                },
                Err(error) => {
                    &&& old(self).position + count > old(self).bytes@.len()
                    &&& error == (if old(self).position + count > usize::MAX {
                        Error::Overflow("cursor end offset")
                    } else {
                        eof_at(old(self).bytes@, old(self).position as int, count as int)
                    })
                    &&& final(self).position == old(self).position
                },
            },
    {
        let len: usize = self.bytes.len();
        let end: usize = match self.position.checked_add(count) {
            Some(end) => end,
            None => return Err(Error::Overflow("cursor end offset")),
        };
        if end > len {
            return Err(
                Error::UnexpectedEof {
                    offset: self.position,
                    needed: count,
                    remaining: self.remaining(),
                },
            );
        }
        let bytes = slice_subrange(self.bytes, self.position, end);
        self.position = end;
        Ok(bytes)
    }

    fn fixed(&mut self, width: usize) -> (result: Result<u64, Error>)
        requires
            old(self).wf(),
            1 <= width <= 8,
        ensures
            Self::reads(
                *old(self),
                *final(self),
                result,
                uint_at(
                    old(self).bytes@,
                    old(self).position as int,
                    width as int,
                    old(self).endian,
                ),
            ),
            result is Err ==> final(self).position == old(self).position,
            result matches Ok(value) ==> value < bytes::pow256(width as nat),
    {
        let remaining: usize = self.bytes.len() - self.position;
        if remaining < width {
            return Err(Error::UnexpectedEof { offset: self.position, needed: width, remaining });
        }
        let end: usize = self.position + width;
        let bytes = slice_subrange(self.bytes, self.position, end);
        let value: u64 = match self.endian {
            Endian::Little => le_uint(bytes),
            Endian::Big => be_uint(bytes),
        };
        proof {
            bytes::lemma_uint_value_bound(bytes@, self.endian);
        }
        self.position = end;
        Ok(value)
    }

    /// Reads one byte.
    pub fn read_u8(&mut self) -> (result: Result<u8, Error>)
        requires
            old(self).wf(),
        ensures
            final(self).wf(),
            final(self).same_input(*old(self)),
            match result {
                Ok(byte) => {
                    &&& old(self).position < old(self).bytes@.len()
                    &&& byte == old(self).bytes@[old(self).position as int]
                    &&& final(self).position == old(self).position + 1
                },
                Err(error) => {
                    &&& old(self).position == old(self).bytes@.len()
                    &&& error == eof_at(old(self).bytes@, old(self).position as int, 1)
                    &&& final(self).position == old(self).position
                },
            },
    {
        if self.position >= self.bytes.len() {
            return Err(Error::UnexpectedEof { offset: self.position, needed: 1, remaining: 0 });
        }
        let byte: u8 = self.bytes[self.position];
        self.position = self.position + 1;
        Ok(byte)
    }

    /// Reads a two-byte integer.
    pub fn read_u16(&mut self) -> (result: Result<u16, Error>)
        requires
            old(self).wf(),
        ensures
            final(self).wf(),
            final(self).same_input(*old(self)),
            match uint_at(old(self).bytes@, old(self).position as int, 2, old(self).endian) {
                Ok((value, end)) => result == Ok::<u16, Error>(value as u16) && value <= u16::MAX
                    && final(self).position == end,
                Err(error) => result == Err::<u16, Error>(error) && final(self).position == old(
                    self,
                ).position,
            },
    {
        proof {
            bytes::lemma_pow256_values();
        }
        match self.fixed(2) {
            Ok(value) => Ok(value as u16),
            Err(error) => Err(error),
        }
    }

    /// Reads a four-byte integer.
    pub fn read_u32(&mut self) -> (result: Result<u32, Error>)
        requires
            old(self).wf(),
        ensures
            final(self).wf(),
            final(self).same_input(*old(self)),
            match uint_at(old(self).bytes@, old(self).position as int, 4, old(self).endian) {
                Ok((value, end)) => result == Ok::<u32, Error>(value as u32) && value <= u32::MAX
                    && final(self).position == end,
                Err(error) => result == Err::<u32, Error>(error) && final(self).position == old(
                    self,
                ).position,
            },
    {
        proof {
            bytes::lemma_pow256_values();
        }
        match self.fixed(4) {
            Ok(value) => Ok(value as u32),
            Err(error) => Err(error),
        }
    }

    /// Reads an eight-byte integer.
    pub fn read_u64(&mut self) -> (result: Result<u64, Error>)
        requires
            old(self).wf(),
        ensures
            Self::reads(
                *old(self),
                *final(self),
                result,
                uint_at(old(self).bytes@, old(self).position as int, 8, old(self).endian),
            ),
            result is Err ==> final(self).position == old(self).position,
    {
        self.fixed(8)
    }

    /// Reads an integer of one to eight bytes.
    pub fn read_uint(&mut self, width: u8) -> (result: Result<u64, Error>)
        requires
            old(self).wf(),
        ensures
            Self::reads(
                *old(self),
                *final(self),
                result,
                sized_uint_at(
                    old(self).bytes@,
                    old(self).position as int,
                    width,
                    old(self).endian,
                ),
            ),
            result is Err ==> final(self).position == old(self).position,
            result matches Ok(value) ==> value <= max_of_width(width),
    {
        if width == 0 || width > 8 {
            return Err(Error::OutOfRange { field: "integer width", value: width as u64, max: 8 });
        }
        proof {
            bytes::lemma_pow256_values();
            assert(width == 1 || width == 2 || width == 3 || width == 4 || width == 5 || width == 6
                || width == 7 || width == 8);
        }
        self.fixed(width as usize)
    }
}

/// Largest value of an integer of `width` bytes.
fn width_maximum(width: u8) -> (max: u64)
    requires
        1 <= width <= 8,
    ensures
        max == max_of_width(width),
{
    proof {
        bytes::lemma_pow256_values();
    }
    if width == 1 {
        0xff
    } else if width == 2 {
        0xffff
    } else if width == 3 {
        0xff_ffff
    } else if width == 4 {
        0xffff_ffff
    } else if width == 5 {
        0xff_ffff_ffff
    } else if width == 6 {
        0xffff_ffff_ffff
    } else if width == 7 {
        0xff_ffff_ffff_ffff
    } else {
        0xffff_ffff_ffff_ffff
    }
}

/// Checked binary output buffer with endian-aware fixed-width writes.
#[derive(Debug)]
pub struct Encoder {
    /// What was written so far.
    pub bytes: Vec<u8>,
    /// Byte order of fixed-width integers.
    pub endian: Endian,
}

impl Encoder {
    /// Whether `self` is `before` with the bytes `part` appended.
    pub open spec fn appends(before: Self, after: Self, part: Seq<u8>) -> bool {
        after.bytes@ == before.bytes@ + part && after.endian == before.endian
    }

    /// Whether `after` holds everything that `before` held, and perhaps more.
    pub open spec fn extends(before: Self, after: Self) -> bool {
        before.bytes@.is_prefix_of(after.bytes@) && after.endian == before.endian
    }

    /// What a writer does to an output: on success it appends the expected
    /// bytes, on failure it returns the expected error and may have appended
    /// some bytes.
    pub open spec fn writes(
        before: Self,
        after: Self,
        result: Result<(), Error>,
        expected: Result<Seq<u8>, Error>,
    ) -> bool {
        match expected {
            Ok(part) => result == Ok::<(), Error>(()) && Self::appends(before, after, part),
            Err(error) => result == Err::<(), Error>(error) && Self::extends(before, after),
        }
    }

    /// An empty output.
    pub fn new(endian: Endian) -> (encoder: Self)
        ensures
            encoder.bytes@ == Seq::<u8>::empty(),
            encoder.endian == endian,
    {
        Encoder { bytes: Vec::new(), endian }
    }

    /// An empty output with room for `capacity` bytes.
    pub fn with_capacity(endian: Endian, capacity: usize) -> (encoder: Self)
        ensures
            encoder.bytes@ == Seq::<u8>::empty(),
            encoder.endian == endian,
    {
        Encoder { bytes: Vec::with_capacity(capacity), endian }
    }

    /// Number of bytes written.
    pub fn len(&self) -> (len: usize)
        ensures
            len == self.bytes@.len(),
    {
        self.bytes.len()
    }

    /// The bytes written.
    pub fn as_slice(&self) -> (bytes: &[u8])
        ensures
            bytes@ == self.bytes@,
    {
        self.bytes.as_slice()
    }

    /// The bytes written, without the encoder.
    pub fn into_inner(self) -> (bytes: Vec<u8>)
        ensures
            bytes@ == self.bytes@,
    {
        self.bytes
    }

    fn append(&mut self, part: Vec<u8>)
        ensures
            Self::appends(*old(self), *final(self), part@),
    {
        let mut part = part;
        self.bytes.append(&mut part);
    }

    /// Writes one byte.
    pub fn write_u8(&mut self, value: u8)
        ensures
            Self::appends(*old(self), *final(self), seq![value]),
    {
        self.bytes.push(value);
        assert(self.bytes@ =~= old(self).bytes@ + seq![value]);
    }

    /// Writes a two-byte integer.
    pub fn write_u16(&mut self, value: u16)
        ensures
            Self::appends(
                *old(self),
                *final(self),
                bytes::uint_bytes(value as nat, 2, old(self).endian),
            ),
    {
        let part = uint_to_bytes(value as u64, 2, self.endian);
        self.append(part);
    }

    /// Writes a four-byte integer.
    pub fn write_u32(&mut self, value: u32)
        ensures
            Self::appends(
                *old(self),
                *final(self),
                bytes::uint_bytes(value as nat, 4, old(self).endian),
            ),
    {
        let part = uint_to_bytes(value as u64, 4, self.endian);
        self.append(part);
    }

    /// Writes an eight-byte integer.
    pub fn write_u64(&mut self, value: u64)
        ensures
            Self::appends(
                *old(self),
                *final(self),
                bytes::uint_bytes(value as nat, 8, old(self).endian),
            ),
    {
        let part = uint_to_bytes(value, 8, self.endian);
        self.append(part);
    }

    /// Writes an integer of one to eight bytes that the value fits.
    pub fn write_uint(&mut self, value: u64, width: u8) -> (result: Result<(), Error>)
        ensures
            match uint_error(value, width) {
                Some(error) => result == Err::<(), Error>(error) && *final(self) == *old(self),
                None => result == Ok::<(), Error>(()) && Self::appends(
                    *old(self),
                    *final(self),
                    bytes::uint_bytes(value as nat, width as nat, old(self).endian),
                ),
            },
    {
        if width == 0 || width > 8 {
            return Err(Error::OutOfRange { field: "integer width", value: width as u64, max: 8 });
        }
        let max: u64 = width_maximum(width);
        if value > max {
            return Err(Error::OutOfRange { field: "fixed-width integer", value, max });
        }
        let part = uint_to_bytes(value, width as usize, self.endian);
        self.append(part);
        Ok(())
    }

    /// Writes raw bytes.
    pub fn write_bytes(&mut self, bytes: &[u8])
        ensures
            Self::appends(*old(self), *final(self), bytes@),
    {
        self.bytes.extend_from_slice(bytes);
        assert(self.bytes@ =~= old(self).bytes@ + bytes@);
    }

    /// Pads with zero bytes up to a multiple of `alignment`.
    pub fn align_to(&mut self, alignment: usize) -> (result: Result<(), Error>)
        ensures
            match result {
                Ok(()) => {
                    &&& alignment != 0
                    &&& Self::appends(
                        *old(self),
                        *final(self),
                        bytes::zeros(
                            bytes::padding(old(self).bytes@.len(), alignment as nat),
                        ),
                    )
                    &&& final(self).bytes@.len() % (alignment as nat) == 0
                },
                Err(error) => {
                    &&& *final(self) == *old(self)
                    &&& error == (if alignment == 0 {
                        Error::InvalidAlignment(0)
                    } else {
                        Error::Overflow("aligned output length")
                    })
                    &&& alignment != 0 ==> old(self).bytes@.len() + bytes::padding(
                        old(self).bytes@.len(),
                        alignment as nat,
                    ) > usize::MAX
                },
            },
    {
        if alignment == 0 {
            return Err(Error::InvalidAlignment(alignment));
        }
        let remainder: usize = self.bytes.len() % alignment;
        if remainder != 0 {
            let padding: usize = alignment - remainder;
            let new_len: usize = match self.bytes.len().checked_add(padding) {
                Some(new_len) => new_len,
                None => return Err(Error::Overflow("aligned output length")),
            };
            proof {
                crate::format::lemma_aligned(self.bytes@.len(), alignment as nat);
            }
            self.bytes.resize(new_len, 0);
        }
        assert(self.bytes@ =~= old(self).bytes@ + bytes::zeros(
            bytes::padding(old(self).bytes@.len(), alignment as nat),
        ));
        Ok(())
    }

    fn patch(&mut self, offset: usize, part: &Vec<u8>)
        requires
            offset + part@.len() <= old(self).bytes@.len(),
        ensures
            final(self).bytes@ == bytes::overwrite(old(self).bytes@, offset as int, part@),
            final(self).endian == old(self).endian,
    {
        let len: usize = self.bytes.len();
        let mut i: usize = 0;
        while i < part.len()
            invariant
                i <= part@.len(),
                self.bytes@.len() == len,
                offset + part@.len() <= self.bytes@.len(),
                self.endian == old(self).endian,
                self.bytes@.len() == old(self).bytes@.len(),
                forall|k: int|
                    0 <= k < self.bytes@.len() ==> #[trigger] self.bytes@[k] == (if offset <= k
                        < offset + i {
                        part@[k - offset]
                    } else {
                        old(self).bytes@[k]
                    }),
            decreases part@.len() - i,
        {
            self.bytes.set(offset + i, part[i]);
            i = i + 1;
        }
        assert(self.bytes@ =~= bytes::overwrite(old(self).bytes@, offset as int, part@));
    }

    /// Overwrites four bytes at `offset` by an integer.
    pub fn patch_u32(&mut self, offset: usize, value: u32) -> (result: Result<(), Error>)
        ensures
            final(self).endian == old(self).endian,
            match result {
                Ok(()) => {
                    &&& offset + 4 <= old(self).bytes@.len()
                    &&& final(self).bytes@ == bytes::overwrite(
                        old(self).bytes@,
                        offset as int,
                        bytes::uint_bytes(value as nat, 4, old(self).endian),
                    )
                },
                Err(error) => {
                    &&& offset + 4 > old(self).bytes@.len()
                    &&& *final(self) == *old(self)
                    &&& error == patch_error(old(self).bytes@.len(), offset, 4)
                },
            },
    {
        proof {
            bytes::lemma_uint_bytes_len(value as nat, 4, self.endian);
        }
        let part = uint_to_bytes(value as u64, 4, self.endian);
        match self.check_patch(offset, 4) {
            Ok(()) => {},
            Err(error) => return Err(error),
        }
        self.patch(offset, &part);
        Ok(())
    }

    /// Overwrites `width` bytes at `offset` by an integer that fits them.
    pub fn patch_uint(&mut self, offset: usize, value: u64, width: u8) -> (result: Result<
        (),
        Error,
    >)
        ensures
            final(self).endian == old(self).endian,
            match result {
                Ok(()) => {
                    &&& uint_error(value, width) is None
                    &&& offset + width <= old(self).bytes@.len()
                    &&& final(self).bytes@ == bytes::overwrite(
                        old(self).bytes@,
                        offset as int,
                        bytes::uint_bytes(value as nat, width as nat, old(self).endian),
                    )
                },
                Err(error) => {
                    &&& *final(self) == *old(self)
                    &&& match uint_error(value, width) {
                        Some(expected) => error == expected,
                        None => offset + width > old(self).bytes@.len() && error == patch_error(
                            old(self).bytes@.len(),
                            offset,
                            width as usize,
                        ),
                    }
                },
            },
    {
        if width == 0 || width > 8 {
            return Err(Error::OutOfRange { field: "integer width", value: width as u64, max: 8 });
        }
        let max: u64 = width_maximum(width);
        if value > max {
            return Err(Error::OutOfRange { field: "fixed-width integer", value, max });
        }
        proof {
            bytes::lemma_uint_bytes_len(value as nat, width as nat, self.endian);
        }
        let part = uint_to_bytes(value, width as usize, self.endian);
        match self.check_patch(offset, width as usize) {
            Ok(()) => {},
            Err(error) => return Err(error),
        }
        self.patch(offset, &part);
        Ok(())
    }

    fn check_patch(&self, offset: usize, needed: usize) -> (result: Result<(), Error>)
        ensures
            match result {
                Ok(()) => offset + needed <= self.bytes@.len(),
                Err(error) => offset + needed > self.bytes@.len() && error == patch_error(
                    self.bytes@.len(),
                    offset,
                    needed,
                ),
            },
    {
        let len: usize = self.bytes.len();
        let end: usize = match offset.checked_add(needed) {
            Some(end) => end,
            None => return Err(Error::Overflow("patch end offset")),
        };
        let remaining: usize = if offset <= len {
            len - offset
        } else {
            0
        };
        if end > len {
            return Err(Error::UnexpectedEof { offset, needed, remaining });
        }
        Ok(())
    }
}

/// The error of overwriting `needed` bytes at `offset` of an output of `len`
/// bytes that does not reach that far.
pub open spec fn patch_error(len: nat, offset: usize, needed: usize) -> Error {
    if offset + needed > usize::MAX {
        Error::Overflow("patch end offset")
    } else {
        Error::UnexpectedEof {
            offset,
            needed,
            remaining: if offset <= len {
                (len - offset) as usize
            } else {
                0
            },
        }
    }
}

} // verus!
