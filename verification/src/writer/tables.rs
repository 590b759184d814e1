//! The tables of a file that is written.
use vstd::prelude::*;
use crate::bytes;
use crate::endian;
use crate::endian::{Encoder, Endian};
use crate::error::Error;
use crate::format::align_up;
use crate::format::callsite;
use crate::format::function;
use crate::format::function::{EncodedFunction, EncodedFunctionView};

verus! {

/// What a writer does to an output that is to become `expected`.
pub open spec fn becomes(
    after: Encoder,
    result: Result<(), Error>,
    expected: Result<Seq<u8>, Error>,
) -> bool {
    match expected {
        Ok(whole) => result == Ok::<(), Error>(()) && after.bytes@ == whole,
        Err(error) => result == Err::<(), Error>(error),
    }
}

/// An output with zero bytes up to a multiple of `alignment`.
pub open spec fn aligned_output(output: Result<Seq<u8>, Error>, alignment: nat) -> Result<
    Seq<u8>,
    Error,
> {
    match output {
        Err(error) => Err(error),
        Ok(whole) => if alignment == 0 {
            Err(Error::InvalidAlignment(0))
        } else if crate::format::aligned(whole.len(), alignment) > usize::MAX {
            Err(Error::Overflow("aligned output length"))
        } else {
            Ok(whole + bytes::zeros(bytes::padding(whole.len(), alignment)))
        },
    }
}

/// Pads an output to a multiple of `alignment`.
pub fn align_output(output: &mut Encoder, alignment: usize) -> (result: Result<(), Error>)
    ensures
        final(output).endian == old(output).endian,
        becomes(
            *final(output),
            result,
            aligned_output(Ok(old(output).bytes@), alignment as nat),
        ),
{
    output.align_to(alignment)?;
    let after: usize = output.len();
    proof {
        let padding = bytes::padding(old(output).bytes@.len(), alignment as nat);
        assert(bytes::zeros(padding).len() == padding);
        assert(after == old(output).bytes@.len() + padding);
    }
    Ok(())
}

/// Bytes per address offset for offsets of up to `maximum`.
pub open spec fn width_of(maximum: u64) -> u8 {
    if maximum <= u8::MAX {
        1
    } else if maximum <= u16::MAX {
        2
    } else if maximum <= u32::MAX {
        4
    } else {
        8
    }
}

/// Bytes per address offset for offsets of up to `maximum`.
pub fn address_offset_width(maximum: u64) -> (width: u8)
    ensures
        width == width_of(maximum),
{
    if maximum <= u8::MAX as u64 {
        1
    } else if maximum <= u16::MAX as u64 {
        2
    } else if maximum <= u32::MAX as u64 {
        4
    } else {
        8
    }
}

/// The start of a function relative to the image base.
pub open spec fn offset_bytes(function: EncodedFunctionView, base: u64, width: u8, endian: Endian) -> Result<
    Seq<u8>,
    Error,
> {
    if function.range.start < base {
        Err(Error::InvalidModel("function address precedes the image base"))
    } else {
        endian::uint_encoded((function.range.start - base) as u64, width, endian)
    }
}

/// The address offsets of the functions from index `i` on.
pub open spec fn addresses_bytes(
    functions: Seq<EncodedFunctionView>,
    i: int,
    base: u64,
    width: u8,
    endian: Endian,
) -> Result<Seq<u8>, Error>
    decreases functions.len() - i,
{
    if i >= functions.len() {
        Ok(Seq::empty())
    } else {
        endian::joined(
            offset_bytes(functions[i], base, width, endian),
            addresses_bytes(functions, i + 1, base, width, endian),
        )
    }
}

/// Writes the address offsets of functions at a multiple of their width.
pub fn write_address_offsets(
    output: &mut Encoder,
    functions: &Vec<EncodedFunction>,
    base: u64,
    width: u8,
) -> (result: Result<(), Error>)
    ensures
        final(output).endian == old(output).endian,
        becomes(
            *final(output),
            result,
            endian::joined(
                aligned_output(Ok(old(output).bytes@), width as nat),
                addresses_bytes(
                    function::encoded_function_views(functions@),
                    0,
                    base,
                    width,
                    old(output).endian,
                ),
            ),
        ),
{
    let ghost views = function::encoded_function_views(functions@);
    let ghost endian = output.endian;
    align_output(output, width as usize)?;
    let ghost start = output.bytes@;
    let ghost expected = addresses_bytes(views, 0, base, width, endian);
    let mut i: usize = 0;
    proof {
        if expected is Ok {
            assert(start + expected->Ok_0 =~= output.bytes@ + expected->Ok_0);
        }
    }
    while i < functions.len()
        invariant
            i <= functions@.len(),
            views == function::encoded_function_views(functions@),
            output.endian == endian,
            endian == old(output).endian,
            aligned_output(Ok(old(output).bytes@), width as nat) == Ok::<Seq<u8>, Error>(start),
            expected == addresses_bytes(views, 0, base, width, endian),
            match addresses_bytes(views, i as int, base, width, endian) {
                Ok(rest) => expected is Ok && start + expected->Ok_0 == output.bytes@ + rest,
                Err(error) => expected == Err::<Seq<u8>, Error>(error),
            },
        decreases functions@.len() - i,
    {
        let function = &functions[i];
        proof {
            function::lemma_encoded_function_view(functions@[i as int]);
            assert(views[i as int] == function@);
        }
        if function.range.start < base {
            return Err(Error::InvalidModel("function address precedes the image base"));
        }
        let ghost before = output.bytes@;
        let ghost rest = addresses_bytes(views, i + 1, base, width, endian);
        output.write_uint(function.range.start - base, width)?;
        proof {
            if rest is Ok {
                let part = offset_bytes(views[i as int], base, width, endian)->Ok_0;
                assert(before + (part + rest->Ok_0) =~= before + part + rest->Ok_0);
            }
        }
        i = i + 1;
    }
    proof {
        assert(output.bytes@ + Seq::<u8>::empty() =~= output.bytes@);
    }
    Ok(())
}

/// The bytes of the string offsets of a file entry.
pub open spec fn file_bytes(file: (u64, u64), width: u8, endian: Endian) -> Result<Seq<u8>, Error> {
    endian::joined(
        endian::uint_encoded(file.0, width, endian),
        endian::uint_encoded(file.1, width, endian),
    )
}

/// The bytes of the file entries from index `i` on.
pub open spec fn files_bytes(files: Seq<(u64, u64)>, i: int, width: u8, endian: Endian) -> Result<
    Seq<u8>,
    Error,
>
    decreases files.len() - i,
{
    if i >= files.len() {
        Ok(Seq::empty())
    } else {
        endian::joined(
            file_bytes(files[i], width, endian),
            files_bytes(files, i + 1, width, endian),
        )
    }
}

/// The bytes of a file table.
pub open spec fn file_table_bytes(files: Seq<(u64, u64)>, width: u8, endian: Endian) -> Result<
    Seq<u8>,
    Error,
> {
    endian::joined(
        callsite::count_bytes(files.len(), "file count", endian),
        files_bytes(files, 0, width, endian),
    )
}

/// Writes a file table.
pub fn write_file_table(output: &mut Encoder, files: &Vec<(u64, u64)>, string_width: u8) -> (result:
    Result<(), Error>)
    ensures
        final(output).endian == old(output).endian,
        becomes(
            *final(output),
            result,
            endian::joined(
                Ok(old(output).bytes@),
                file_table_bytes(files@, string_width, old(output).endian),
            ),
        ),
{
    let ghost endian = output.endian;
    let ghost given = output.bytes@;
    if files.len() as u64 > u32::MAX as u64 {
        return Err(
            Error::Limit {
                context: "file count",
                value: files.len() as u64,
                limit: u32::MAX as u64,
            },
        );
    }
    output.write_u32(files.len() as u32);
    let ghost start = output.bytes@;
    let ghost expected = files_bytes(files@, 0, string_width, endian);
    let mut i: usize = 0;
    while i < files.len()
        invariant
            i <= files@.len(),
            files@.len() <= u32::MAX,
            output.endian == endian,
            endian == old(output).endian,
            given == old(output).bytes@,
            start == given + bytes::uint_bytes(files@.len(), 4, endian),
            expected == files_bytes(files@, 0, string_width, endian),
            match files_bytes(files@, i as int, string_width, endian) {
                Ok(rest) => expected is Ok && start + expected->Ok_0 == output.bytes@ + rest,
                Err(error) => expected == Err::<Seq<u8>, Error>(error),
            },
        decreases files@.len() - i,
    {
        let (directory, basename) = files[i];
        let ghost before = output.bytes@;
        let ghost rest = files_bytes(files@, i + 1, string_width, endian);
        output.write_uint(directory, string_width)?;
        output.write_uint(basename, string_width)?;
        proof {
            if rest is Ok {
                let one = endian::uint_encoded(directory, string_width, endian)->Ok_0;
                let two = endian::uint_encoded(basename, string_width, endian)->Ok_0;
                assert(before + ((one + two) + rest->Ok_0) =~= before + one + two + rest->Ok_0);
            }
        }
        i = i + 1;
    }
    proof {
        let count = bytes::uint_bytes(files@.len(), 4, endian);
        assert(output.bytes@ + Seq::<u8>::empty() =~= output.bytes@);
        assert(given + (count + expected->Ok_0) =~= start + expected->Ok_0);
    }
    Ok(())
}

/// The records of functions one after the other.
pub struct SectionView {
    /// Where each function starts.
    pub offsets: Seq<usize>,
    /// The bytes of the section.
    pub bytes: Seq<u8>,
}

/// A section with the functions from index `i` on, each at a multiple of four
/// in a file in which the section starts at `base`.
pub open spec fn section_from(
    functions: Seq<EncodedFunctionView>,
    i: int,
    width: u8,
    endian: Endian,
    base: nat,
    section: SectionView,
) -> Result<SectionView, Error>
    decreases functions.len() - i,
{
    if i >= functions.len() {
        Ok(section)
    } else {
        let absolute = base + section.bytes.len();
        if absolute > usize::MAX {
            Err(Error::Overflow("FunctionInfo offset"))
        } else if crate::format::aligned(absolute, 4) > usize::MAX {
            Err(Error::Overflow("FunctionInfo alignment"))
        } else {
            match function::function_bytes(functions[i], width, endian) {
                Err(error) => Err(error),
                Ok(part) => section_from(
                    functions,
                    i + 1,
                    width,
                    endian,
                    base,
                    SectionView {
                        offsets: section.offsets.push(crate::format::aligned(absolute, 4) as usize),
                        bytes: section.bytes + bytes::zeros(bytes::padding(absolute, 4)) + part,
                    },
                ),
            }
        }
    }
}

/// A section without functions.
pub open spec fn empty_section() -> SectionView {
    SectionView { offsets: Seq::empty(), bytes: Seq::empty() }
}

/// Encodes functions one after the other, each at a multiple of four in a file
/// in which they start at `absolute_base`.
pub fn encode_function_section(
    functions: &Vec<EncodedFunction>,
    endian: Endian,
    string_width: u8,
    absolute_base: usize,
) -> (result: Result<(Vec<usize>, Vec<u8>), Error>)
    ensures
        match section_from(
            function::encoded_function_views(functions@),
            0,
            string_width,
            endian,
            absolute_base as nat,
            empty_section(),
        ) {
            Ok(section) => {
                &&& result matches Ok((offsets, bytes))
                &&& offsets@ == section.offsets
                &&& bytes@ == section.bytes
            },
            Err(error) => result == Err::<(Vec<usize>, Vec<u8>), Error>(error),
        },
{
    let ghost views = function::encoded_function_views(functions@);
    let ghost expected = section_from(
        views,
        0,
        string_width,
        endian,
        absolute_base as nat,
        empty_section(),
    );
    let mut output = Encoder::new(endian);
    let mut offsets: Vec<usize> = Vec::new();
    let mut i: usize = 0;
    while i < functions.len()
        invariant
            i <= functions@.len(),
            views == function::encoded_function_views(functions@),
            output.endian == endian,
            expected == section_from(
                views,
                0,
                string_width,
                endian,
                absolute_base as nat,
                empty_section(),
            ),
            expected == section_from(
                views,
                i as int,
                string_width,
                endian,
                absolute_base as nat,
                SectionView { offsets: offsets@, bytes: output.bytes@ },
            ),
        decreases functions@.len() - i,
    {
        let len: usize = output.len();
        let ghost before = output.bytes@;
        assert(views[i as int] == functions@[i as int]@);
        let absolute: usize = match absolute_base.checked_add(len) {
            Some(absolute) => absolute,
            None => return Err(Error::Overflow("FunctionInfo offset")),
        };
        let aligned: usize = match align_up(absolute, 4) {
            Some(aligned) => aligned,
            None => return Err(Error::Overflow("FunctionInfo alignment")),
        };
        let padding: usize = aligned - absolute;
        let mut k: usize = 0;
        assert(before + bytes::zeros(0) =~= before);
        while k < padding
            invariant
                k <= padding,
                output.endian == endian,
                output.bytes@ == before + bytes::zeros(k as nat),
            decreases padding - k,
        {
            output.write_u8(0);
            k = k + 1;
            assert(output.bytes@ =~= before + bytes::zeros(k as nat));
        }
        offsets.push(aligned);
        function::encode_into(&functions[i], &mut output, string_width, false)?;
        i = i + 1;
    }
    Ok((offsets, output.into_inner()))
}

} // verus!
