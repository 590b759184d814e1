//! Input of XZ streams.
//!
//! The decompressor adds one to the size that a stream's footer gives, which
//! overflows where the size is a full word. It reads the checksum of the index,
//! the checksum of the footer and that size one after the other, each with one
//! read of four bytes, and nowhere else makes three such reads in a row.
use vstd::prelude::*;

verus! {

/// What is said of a stream whose footer gives a size that overflows.
pub const OVERFLOWING_FOOTER: &'static str = "index size in the footer overflows";

/// Input that refuses a full word in the third of three reads of four bytes.
pub struct StreamInput<'a> {
    bytes: &'a [u8],
    position: usize,
    words: u8,
}

/// An input as it is stated.
pub struct InputView {
    /// The bytes that were not read yet.
    pub left: Seq<u8>,
    /// How many of the last reads, up to two, were of four bytes.
    pub words: nat,
}

impl View for StreamInput<'_> {
    type V = InputView;

    closed spec fn view(&self) -> InputView {
        InputView { left: self.bytes@.skip(self.position as int), words: self.words as nat }
    }
}

/// Whether bytes start with a full word.
pub open spec fn starts_full(left: Seq<u8>) -> bool {
    left.len() >= 4 && left[0] == 0xff && left[1] == 0xff && left[2] == 0xff && left[3] == 0xff
}

impl InputView {
    /// Whether a read of `size` bytes is refused.
    pub open spec fn refuses(self, size: nat) -> bool {
        size == 4 && self.words == 2 && starts_full(self.left)
    }

    /// How many bytes a read of `size` bytes gives.
    pub open spec fn count(self, size: nat) -> nat {
        if size <= self.left.len() {
            size
        } else {
            self.left.len()
        }
    }

    /// The input behind a read of `size` bytes.
    pub open spec fn behind(self, size: nat) -> InputView {
        InputView {
            left: self.left.skip(self.count(size) as int),
            words: if size != 4 || self.left.len() < 4 {
                0
            } else if self.words == 0 {
                1
            } else {
                2
            },
        }
    }
}

impl<'a> StreamInput<'a> {
    #[verifier::type_invariant]
    spec fn in_range(&self) -> bool {
        self.position <= self.bytes@.len() && self.words <= 2
    }

    /// Starts at the first byte.
    pub fn new(bytes: &'a [u8]) -> (input: Self)
        ensures
            input@ == (InputView { left: bytes@, words: 0 }),
    {
        let input = StreamInput { bytes, position: 0, words: 0 };
        assert(input@.left =~= bytes@);
        input
    }

    /// Reads into the start of a buffer, or says that the read is refused.
    pub fn read_into(&mut self, buffer: &mut [u8]) -> (result: Result<usize, String>)
        ensures
            final(buffer)@.len() == old(buffer)@.len(),
            if old(self)@.refuses(old(buffer)@.len()) {
                &&& result matches Err(text) && text@ == OVERFLOWING_FOOTER@
                &&& final(self)@ == old(self)@
                &&& final(buffer)@ == old(buffer)@
            } else {
                let count = old(self)@.count(old(buffer)@.len());
                &&& result == Ok::<usize, String>(count as usize)
                &&& final(self)@ == old(self)@.behind(old(buffer)@.len())
                &&& final(buffer)@ == old(self)@.left.take(count as int) + old(buffer)@.skip(
                    count as int,
                )
            },
    {
        proof {
            use_type_invariant(&*self);
        }
        let ghost left = self@.left;
        let ghost given = buffer@;
        let bytes: &'a [u8] = self.bytes;
        let start: usize = self.position;
        let size: usize = buffer.len();
        let total: usize = bytes.len();
        let rest: usize = total - start;
        if size == 4 && self.words == 2 && rest >= 4 && bytes[start] == 0xff && bytes[start + 1]
            == 0xff && bytes[start + 2] == 0xff && bytes[start + 3] == 0xff {
            return Err(String::from_str(OVERFLOWING_FOOTER));
        }
        let count: usize = if size <= rest {
            size
        } else {
            rest
        };
        let mut i: usize = 0;
        while i < count
            invariant
                i <= count <= size,
                size == given.len(),
                start + count <= total,
                total == bytes@.len(),
                left == bytes@.skip(start as int),
                buffer@ == left.take(i as int) + given.skip(i as int),
            decreases count - i,
        {
            buffer[i] = bytes[start + i];
            i = i + 1;
            assert(buffer@ =~= left.take(i as int) + given.skip(i as int));
        }
        self.words = if size != 4 || rest < 4 {
            0
        } else if self.words == 0 {
            1
        } else {
            2
        };
        self.position = start + count;
        assert(self@.left =~= left.skip(count as int));
        Ok(count)
    }

    /// Goes past some of the bytes that were not read yet, and all of them where
    /// there are fewer.
    pub fn pass(&mut self, count: usize)
        ensures
            final(self)@ == (if count == 0 {
                old(self)@
            } else {
                InputView {
                    left: old(self)@.left.skip(old(self)@.count(count as nat) as int),
                    words: 0,
                }
            }),
    {
        proof {
            use_type_invariant(&*self);
        }
        let ghost left = self@.left;
        if count == 0 {
            return;
        }
        let start: usize = self.position;
        let rest: usize = self.bytes.len() - start;
        self.words = 0;
        self.position = if count <= rest {
            start + count
        } else {
            start + rest
        };
        assert(self@.left =~= left.skip(old(self)@.count(count as nat) as int));
    }

    /// Returns the bytes that were not read yet.
    pub fn rest(&self) -> (bytes: &[u8])
        ensures
            bytes@ == self@.left,
    {
        proof {
            use_type_invariant(self);
        }
        let rest = vstd::slice::slice_subrange(self.bytes, self.position, self.bytes.len());
        assert(rest@ =~= self@.left);
        rest
    }
}

/// `std::io::Error`, which the methods of `std::io::Read` and `std::io::Write`
/// return.
#[verifier::external_type_specification]
#[verifier::external_body]
pub struct ExIoError(std::io::Error);

/// Calls `std::io::Error::other`, which makes an error of a text.
#[verifier::external_body]
pub(crate) fn io_error(text: String) -> (error: std::io::Error) {
    std::io::Error::other(text)
}

impl std::io::Read for StreamInput<'_> {
    fn read(&mut self, buffer: &mut [u8]) -> (result: std::io::Result<usize>) {
        match self.read_into(buffer) {
            Ok(count) => Ok(count),
            Err(text) => Err(io_error(text)),
        }
    }
}

impl std::io::BufRead for StreamInput<'_> {
    fn fill_buf(&mut self) -> (result: std::io::Result<&[u8]>) {
        Ok(self.rest())
    }

    fn consume(&mut self, count: usize) {
        self.pass(count)
    }
}

} // verus!
