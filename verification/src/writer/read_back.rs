//! What was written is read back.
use vstd::prelude::*;
use std::ops::Range;
use crate::bytes;
use crate::endian;
use crate::endian::Endian;
use crate::error::Error;
use crate::format::function;
use crate::format::function::EncodedFunctionView;
use crate::format::v1;
use crate::format::v2;
use crate::reader::gsym;
use crate::reader::layout;
use crate::reader::layout::ParsedLayout;
use crate::reader::table;
use crate::version::GsymVersion;
use crate::writer::encode;
use crate::writer::tables;

verus! {

/// Items of one width in a row: where the next one starts.
proof fn lemma_next(i: int, width: int)
    ensures
        (i + 1) * width == i * width + width,
{
    assert((i + 1) * width == i * width + width) by (nonlinear_arith);
}

/// The address offset of each function stands in the table of address offsets.
pub proof fn lemma_addresses_hold(
    s: Seq<u8>,
    pos: int,
    functions: Seq<EncodedFunctionView>,
    i: int,
    base: u64,
    width: u8,
    endian: Endian,
)
    requires
        0 <= i <= functions.len(),
        1 <= width <= 8,
        tables::addresses_bytes(functions, i, base, width, endian) is Ok,
        bytes::holds_at(
            s,
            pos + i * width,
            tables::addresses_bytes(functions, i, base, width, endian)->Ok_0,
        ),
    ensures
        tables::addresses_bytes(functions, i, base, width, endian)->Ok_0.len() == (functions.len()
            - i) * width,
        forall|k: int|
            i <= k < functions.len() ==> {
                &&& (#[trigger] functions[k]).range.start >= base
                &&& endian::uint_error((functions[k].range.start - base) as u64, width) is None
                &&& bytes::holds_at(
                    s,
                    pos + k * width,
                    bytes::uint_bytes(
                        (functions[k].range.start - base) as nat,
                        width as nat,
                        endian,
                    ),
                )
            },
    decreases functions.len() - i,
{
    if i < functions.len() {
        let part = tables::offset_bytes(functions[i], base, width, endian)->Ok_0;
        let rest = tables::addresses_bytes(functions, i + 1, base, width, endian)->Ok_0;
        bytes::lemma_uint_bytes_len(
            (functions[i].range.start - base) as nat,
            width as nat,
            endian,
        );
        bytes::lemma_holds_at_split(s, pos + i * width, part, rest);
        lemma_next(i, width as int);
        lemma_addresses_hold(s, pos, functions, i + 1, base, width, endian);
        assert((functions.len() - i) * width == width + (functions.len() - (i + 1)) * width)
            by (nonlinear_arith);
    } else {
        assert((functions.len() - i) * width == 0) by (nonlinear_arith)
            requires
                i == functions.len(),
        ;
    }
}

/// The offset of each function record stands in the version 1 table of them.
pub proof fn lemma_v1_offsets_hold(s: Seq<u8>, pos: int, offsets: Seq<usize>, i: int, endian: Endian)
    requires
        0 <= i <= offsets.len(),
        encode::v1_offsets_bytes(offsets, i, endian) is Ok,
        bytes::holds_at(s, pos + i * 4, encode::v1_offsets_bytes(offsets, i, endian)->Ok_0),
    ensures
        encode::v1_offsets_bytes(offsets, i, endian)->Ok_0.len() == (offsets.len() - i) * 4,
        forall|k: int|
            i <= k < offsets.len() ==> {
                &&& #[trigger] offsets[k] <= u32::MAX
                &&& bytes::holds_at(
                    s,
                    pos + k * 4,
                    bytes::uint_bytes(offsets[k] as nat, 4, endian),
                )
            },
    decreases offsets.len() - i,
{
    if i < offsets.len() {
        let part = bytes::uint_bytes(offsets[i] as nat, 4, endian);
        let rest = encode::v1_offsets_bytes(offsets, i + 1, endian)->Ok_0;
        bytes::lemma_uint_bytes_len(offsets[i] as nat, 4, endian);
        bytes::lemma_holds_at_split(s, pos + i * 4, part, rest);
        lemma_v1_offsets_hold(s, pos, offsets, i + 1, endian);
    }
}

/// The offset of each function record stands in the version 2 table of them.
pub proof fn lemma_v2_offsets_hold(s: Seq<u8>, pos: int, offsets: Seq<usize>, i: int, endian: Endian)
    requires
        0 <= i <= offsets.len(),
        bytes::holds_at(s, pos + i * 8, encode::v2_offsets_bytes(offsets, i, endian)),
    ensures
        encode::v2_offsets_bytes(offsets, i, endian).len() == (offsets.len() - i) * 8,
        forall|k: int|
            i <= k < offsets.len() ==> bytes::holds_at(
                s,
                pos + k * 8,
                bytes::uint_bytes((#[trigger] offsets[k]) as nat, 8, endian),
            ),
    decreases offsets.len() - i,
{
    if i < offsets.len() {
        let part = bytes::uint_bytes(offsets[i] as nat, 8, endian);
        let rest = encode::v2_offsets_bytes(offsets, i + 1, endian);
        bytes::lemma_uint_bytes_len(offsets[i] as nat, 8, endian);
        bytes::lemma_holds_at_split(s, pos + i * 8, part, rest);
        lemma_v2_offsets_hold(s, pos, offsets, i + 1, endian);
    }
}

/// Both string offsets of a file entry stand in it.
pub open spec fn file_held(s: Seq<u8>, at: int, file: (u64, u64), width: u8, endian: Endian) -> bool {
    &&& endian::uint_at(s, at, width as int, endian) == Ok::<(u64, int), Error>(
        (file.0, at + width),
    )
    &&& endian::uint_at(s, at + width, width as int, endian) == Ok::<(u64, int), Error>(
        (file.1, at + 2 * width),
    )
}

/// Each entry of a file table stands in it.
pub proof fn lemma_files_hold(
    s: Seq<u8>,
    pos: int,
    files: Seq<(u64, u64)>,
    i: int,
    width: u8,
    endian: Endian,
)
    requires
        0 <= i <= files.len(),
        1 <= width <= 8,
        tables::files_bytes(files, i, width, endian) is Ok,
        bytes::holds_at(
            s,
            pos + i * (2 * width),
            tables::files_bytes(files, i, width, endian)->Ok_0,
        ),
    ensures
        tables::files_bytes(files, i, width, endian)->Ok_0.len() == (files.len() - i) * (2 * width),
        forall|k: int|
            i <= k < files.len() ==> file_held(
                s,
                pos + k * (2 * width),
                #[trigger] files[k],
                width,
                endian,
            ),
    decreases files.len() - i,
{
    if i < files.len() {
        let at = pos + i * (2 * width);
        let one = bytes::uint_bytes(files[i].0 as nat, width as nat, endian);
        let two = bytes::uint_bytes(files[i].1 as nat, width as nat, endian);
        let rest = tables::files_bytes(files, i + 1, width, endian)->Ok_0;
        bytes::lemma_uint_bytes_len(files[i].0 as nat, width as nat, endian);
        bytes::lemma_uint_bytes_len(files[i].1 as nat, width as nat, endian);
        bytes::lemma_holds_at_split(s, at, one + two, rest);
        bytes::lemma_holds_at_split(s, at, one, two);
        endian::law_uint_reads_back(s, at, files[i].0, width, endian);
        endian::law_uint_reads_back(s, at + width, files[i].1, width, endian);
        lemma_next(i, 2 * width as int);
        lemma_files_hold(s, pos, files, i + 1, width, endian);
        assert((files.len() - i) * (2 * width) == 2 * width + (files.len() - (i + 1)) * (2 * width))
            by (nonlinear_arith);
    } else {
        assert((files.len() - i) * (2 * width) == 0) by (nonlinear_arith)
            requires
                i == files.len(),
        ;
    }
}

/// A file table holds its count and its entries.
pub proof fn lemma_file_table_holds(
    s: Seq<u8>,
    pos: int,
    files: Seq<(u64, u64)>,
    width: u8,
    endian: Endian,
)
    requires
        1 <= width <= 8,
        tables::file_table_bytes(files, width, endian) is Ok,
        bytes::holds_at(s, pos, tables::file_table_bytes(files, width, endian)->Ok_0),
    ensures
        files.len() <= u32::MAX,
        tables::file_table_bytes(files, width, endian)->Ok_0.len() == 4 + files.len() * (2
            * width),
        endian::uint_at(s, pos, 4, endian) == Ok::<(u64, int), Error>(
            (files.len() as u64, pos + 4),
        ),
        forall|k: int|
            0 <= k < files.len() ==> file_held(
                s,
                pos + 4 + k * (2 * width),
                #[trigger] files[k],
                width,
                endian,
            ),
{
    let count = bytes::uint_bytes(files.len(), 4, endian);
    let rest = tables::files_bytes(files, 0, width, endian)->Ok_0;
    bytes::lemma_uint_bytes_len(files.len(), 4, endian);
    bytes::lemma_pow256_values();
    bytes::lemma_holds_at_split(s, pos, count, rest);
    endian::law_uint_reads_back(s, pos, files.len() as u64, 4, endian);
    assert(0 * (2 * width) == 0) by (nonlinear_arith);
    lemma_files_hold(s, pos + 4, files, 0, width, endian);
}

/// Whether the bytes of a function stand in a section where it says.
pub open spec fn function_held(
    functions: Seq<EncodedFunctionView>,
    k: int,
    width: u8,
    endian: Endian,
    base: nat,
    section: tables::SectionView,
) -> bool {
    let part = function::function_bytes(functions[k], width, endian);
    &&& base <= section.offsets[k]
    &&& part is Ok
    &&& bytes::holds_at(section.bytes, section.offsets[k] - base, part->Ok_0)
}

/// Whether the bytes of the first functions stand in a section where it says.
pub open spec fn section_holds(
    functions: Seq<EncodedFunctionView>,
    count: int,
    width: u8,
    endian: Endian,
    base: nat,
    section: tables::SectionView,
) -> bool {
    &&& section.offsets.len() == count
    &&& forall|k: int|
        0 <= k < count ==> #[trigger] function_held(functions, k, width, endian, base, section)
}

/// The bytes of each function stand in the section where it says.
pub proof fn lemma_section_holds(
    functions: Seq<EncodedFunctionView>,
    i: int,
    width: u8,
    endian: Endian,
    base: nat,
    section: tables::SectionView,
)
    requires
        0 <= i <= functions.len(),
        section_holds(functions, i, width, endian, base, section),
    ensures
        tables::section_from(functions, i, width, endian, base, section) matches Ok(whole)
            ==> section_holds(functions, functions.len() as int, width, endian, base, whole),
    decreases functions.len() - i,
{
    if i < functions.len() {
        let absolute = base + section.bytes.len();
        if absolute <= usize::MAX && crate::format::aligned(absolute, 4) <= usize::MAX {
            if let Ok(part) = function::function_bytes(functions[i], width, endian) {
                let zeros = bytes::zeros(bytes::padding(absolute, 4));
                let next = tables::SectionView {
                    offsets: section.offsets.push(crate::format::aligned(absolute, 4) as usize),
                    bytes: section.bytes + zeros + part,
                };
                assert forall|k: int| 0 <= k < i + 1 implies #[trigger] function_held(
                    functions,
                    k,
                    width,
                    endian,
                    base,
                    next,
                ) by {
                    let whole = next.bytes;
                    assert(bytes::holds_at(whole, 0, whole)) by {
                        assert(whole.subrange(0, whole.len() as int) =~= whole);
                    }
                    if k < i {
                        let held = function::function_bytes(functions[k], width, endian)->Ok_0;
                        let at = section.offsets[k] - base;
                        assert(function_held(functions, k, width, endian, base, section));
                        assert(bytes::holds_at(section.bytes, at, held));
                        assert(whole.subrange(at, at + held.len()) =~= section.bytes.subrange(
                            at,
                            at + held.len(),
                        ));
                    } else {
                        bytes::lemma_holds_at_split(whole, 0, section.bytes + zeros, part);
                        assert(zeros.len() == bytes::padding(absolute, 4));
                    }
                }
                lemma_section_holds(functions, i + 1, width, endian, base, next);
            }
        }
    }
}

/// Whether a function can be read where the tables of a file say.
pub open spec fn function_placed(
    s: Seq<u8>,
    layout: ParsedLayout,
    functions: Seq<EncodedFunctionView>,
    k: int,
) -> bool {
    let part = function::function_bytes(functions[k], layout.string_offset_size, layout.endian);
    &&& functions[k].range.start >= layout.base_address
    &&& table::entry_of(s, layout, k) == functions[k].range.start - layout.base_address
    &&& part is Ok
    &&& table::function_offset_of(s, layout, k) matches Ok(offset)
    &&& layout.function_info.start <= offset
    &&& offset + part->Ok_0.len() <= layout.function_info.end
    &&& bytes::holds_at(s, offset as int, part->Ok_0)
}

/// Whether a file can be read where the tables of a file say.
pub open spec fn file_placed(
    s: Seq<u8>,
    layout: ParsedLayout,
    files: Seq<(u64, u64)>,
    k: int,
) -> bool {
    file_held(
        s,
        table::file_entry_at(layout, k as u32),
        files[k],
        layout.string_offset_size,
        layout.endian,
    )
}

/// Whether the tables of a file hold the given entries.
pub open spec fn tables_hold(
    s: Seq<u8>,
    layout: ParsedLayout,
    files: Seq<(u64, u64)>,
    strings: Seq<u8>,
    functions: Seq<EncodedFunctionView>,
) -> bool {
    &&& s.len() <= usize::MAX
    &&& layout.wf(s.len())
    &&& layout.address_count == functions.len()
    &&& layout.file_count == files.len()
    &&& layout.string_table.end == layout.string_table.start + strings.len()
    &&& bytes::holds_at(s, layout.string_table.start as int, strings)
    &&& forall|k: int|
        0 <= k < functions.len() ==> #[trigger] function_placed(s, layout, functions, k)
    &&& forall|k: int| 0 <= k < files.len() ==> #[trigger] file_placed(s, layout, files, k)
}

/// What reading a file says that was written with the given header values and
/// tables.
pub open spec fn reads_back(
    s: Seq<u8>,
    native: Endian,
    version: GsymVersion,
    endian: Endian,
    build_id: Seq<u8>,
    base: u64,
    width: u8,
    files: Seq<(u64, u64)>,
    strings: Seq<u8>,
    functions: Seq<EncodedFunctionView>,
) -> bool {
    &&& layout::parsed(s, native) matches Ok(layout)
    &&& layout.version == version
    &&& layout.endian == endian
    &&& layout.base_address == base
    &&& layout.address_offset_size == width
    &&& gsym::build_id_of(s, layout) == build_id
    &&& tables_hold(s, layout, files, strings, functions)
}

/// A value that stands in a table is read from it.
proof fn lemma_value_held(s: Seq<u8>, pos: int, value: u64, width: u8, endian: Endian)
    requires
        endian::uint_error(value, width) is None,
        bytes::holds_at(s, pos, bytes::uint_bytes(value as nat, width as nat, endian)),
    ensures
        bytes::uint_value(s.subrange(pos, pos + width), endian) == value,
{
    bytes::lemma_pow256_values();
    assert(width == 1 || width == 2 || width == 3 || width == 4 || width == 5 || width == 6 || width
        == 7 || width == 8);
    bytes::lemma_uint_round_trip(value as nat, width as nat, endian);
}

/// A function record is not empty.
proof fn lemma_record_is_not_empty(function: EncodedFunctionView, width: u8, endian: Endian)
    requires
        function::function_bytes(function, width, endian) is Ok,
    ensures
        function::function_bytes(function, width, endian)->Ok_0.len() > 0,
{
    bytes::lemma_uint_bytes_len(0, 4, endian);
    assert(function::end_bytes(endian).len() > 0) by {
        reveal(function::end_bytes);
    }
}

/// The parts of a version 1 file before the function records stand where its
/// places say.
#[verifier::spinoff_prover]
#[verifier::rlimit(40)]
proof fn lemma_v1_prefix(
    s: Seq<u8>,
    header: Seq<u8>,
    base: u64,
    width: u8,
    files: Seq<(u64, u64)>,
    strings: Seq<u8>,
    functions: Seq<EncodedFunctionView>,
    offsets: Seq<usize>,
    endian: Endian,
)
    requires
        width == 1 || width == 2 || width == 4 || width == 8,
        header.len() == v1::HEADER_SIZE,
        offsets.len() == functions.len(),
        encode::v1_prefix(
            Ok(header),
            base,
            width,
            files,
            strings,
            functions,
            offsets,
            endian,
        ) is Ok,
        bytes::holds_at(
            s,
            0,
            encode::v1_prefix(
                Ok(header),
                base,
                width,
                files,
                strings,
                functions,
                offsets,
                endian,
            )->Ok_0,
        ),
    ensures
        ({
            let places = encode::v1_places(
                functions.len(),
                width as nat,
                files.len(),
                strings.len(),
            );
            let addresses = tables::addresses_bytes(functions, 0, base, width, endian);
            let infos = encode::v1_offsets_bytes(offsets, 0, endian);
            let table = tables::file_table_bytes(files, 4, endian);
            &&& encode::v1_prefix(
                Ok(header),
                base,
                width,
                files,
                strings,
                functions,
                offsets,
                endian,
            )->Ok_0.len() == places.function_base
            &&& bytes::holds_at(s, 0, header)
            &&& addresses is Ok
            &&& infos is Ok
            &&& table is Ok
            &&& bytes::holds_at(s, v1::HEADER_SIZE as int, addresses->Ok_0)
            &&& bytes::holds_at(s, places.info_start as int, infos->Ok_0)
            &&& bytes::holds_at(s, places.file_start as int, table->Ok_0)
            &&& bytes::holds_at(s, places.string_start as int, strings)
        }),
{
    reveal(encode::v1_prefix);
    let addresses = tables::addresses_bytes(functions, 0, base, width, endian)->Ok_0;
    let infos = encode::v1_offsets_bytes(offsets, 0, endian)->Ok_0;
    let table = tables::file_table_bytes(files, 4, endian)->Ok_0;
    let zeros_1 = bytes::zeros(bytes::padding(header.len(), width as nat));
    let out_1 = header + zeros_1 + addresses;
    let zeros_2 = bytes::zeros(bytes::padding(out_1.len(), 4));
    let out_2 = out_1 + zeros_2 + infos;
    let zeros_3 = bytes::zeros(bytes::padding(out_2.len(), 4));
    let out_3 = out_2 + zeros_3 + table;
    assert(48nat % 1nat == 0 && 48nat % 2nat == 0 && 48nat % 4nat == 0 && 48nat % 8nat == 0);
    assert(zeros_1.len() == 0);
    bytes::lemma_holds_at_split(s, 0, out_3, strings);
    bytes::lemma_holds_at_split(s, 0, out_2 + zeros_3, table);
    bytes::lemma_holds_at_split(s, 0, out_2, zeros_3);
    bytes::lemma_holds_at_split(s, 0, out_1 + zeros_2, infos);
    bytes::lemma_holds_at_split(s, 0, out_1, zeros_2);
    bytes::lemma_holds_at_split(s, 0, header + zeros_1, addresses);
    bytes::lemma_holds_at_split(s, 0, header, zeros_1);
    lemma_addresses_hold(s, v1::HEADER_SIZE as int, functions, 0, base, width, endian);
    assert(out_1.len() == v1::HEADER_SIZE + functions.len() * width);
    lemma_v1_offsets_hold(s, (out_1 + zeros_2).len() as int, offsets, 0, endian);
    lemma_file_table_holds(s, (out_2 + zeros_3).len() as int, files, 4, endian);
    assert(files.len() * (2 * 4) == files.len() * 8);
}

/// Functions whose section and tables stand in a file can be read from it.
proof fn lemma_functions_placed(
    s: Seq<u8>,
    layout: ParsedLayout,
    base: nat,
    section: tables::SectionView,
    functions: Seq<EncodedFunctionView>,
)
    requires
        s.len() <= usize::MAX,
        layout.wf(s.len()),
        layout.version == GsymVersion::V1 && base == layout.function_info.start || layout.version
            == GsymVersion::V2 && base == 0,
        section_holds(
            functions,
            functions.len() as int,
            layout.string_offset_size,
            layout.endian,
            base,
            section,
        ),
        bytes::holds_at(s, layout.function_info.start as int, section.bytes),
        layout.function_info.end == layout.function_info.start + section.bytes.len(),
        tables::addresses_bytes(
            functions,
            0,
            layout.base_address,
            layout.address_offset_size,
            layout.endian,
        ) is Ok,
        bytes::holds_at(
            s,
            layout.address_offsets.start as int,
            tables::addresses_bytes(
                functions,
                0,
                layout.base_address,
                layout.address_offset_size,
                layout.endian,
            )->Ok_0,
        ),
        match layout.version {
            GsymVersion::V1 => {
                let infos = encode::v1_offsets_bytes(section.offsets, 0, layout.endian);
                infos is Ok && bytes::holds_at(
                    s,
                    layout.address_info_offsets.start as int,
                    infos->Ok_0,
                )
            },
            GsymVersion::V2 => bytes::holds_at(
                s,
                layout.address_info_offsets.start as int,
                encode::v2_offsets_bytes(section.offsets, 0, layout.endian),
            ),
        },
    ensures
        forall|k: int|
            0 <= k < functions.len() ==> #[trigger] function_placed(s, layout, functions, k),
{
    let endian = layout.endian;
    let width = layout.address_offset_size;
    let start = layout.address_info_offsets.start as int;
    assert(0 * width == 0) by (nonlinear_arith);
    lemma_addresses_hold(
        s,
        layout.address_offsets.start as int,
        functions,
        0,
        layout.base_address,
        width,
        endian,
    );
    match layout.version {
        GsymVersion::V1 => lemma_v1_offsets_hold(s, start, section.offsets, 0, endian),
        GsymVersion::V2 => lemma_v2_offsets_hold(s, start, section.offsets, 0, endian),
    }
    assert forall|k: int| 0 <= k < functions.len() implies #[trigger] function_placed(
        s,
        layout,
        functions,
        k,
    ) by {
        assert(functions[k].range.start >= layout.base_address);
        let offset = section.offsets[k];
        assert(function_held(functions, k, layout.string_offset_size, endian, base, section));
        lemma_value_held(
            s,
            layout.address_offsets.start + k * width,
            (functions[k].range.start - layout.base_address) as u64,
            width,
            endian,
        );
        bytes::lemma_pow256_values();
        lemma_value_held(
            s,
            start + k * layout.string_offset_size,
            offset as u64,
            layout.string_offset_size,
            endian,
        );
        let part = function::function_bytes(
            functions[k],
            layout.string_offset_size,
            endian,
        )->Ok_0;
        let at = offset - base;
        let absolute = layout.function_info.start + at;
        assert(bytes::holds_at(section.bytes, at, part));
        bytes::lemma_holds_at_chain(
            s,
            layout.function_info.start as int,
            section.bytes,
            at,
            part,
        );
        assert(absolute == table::function_offset_of(s, layout, k)->Ok_0);
    }
}

/// Files whose table stands in a file can be read from it.
proof fn lemma_files_placed(s: Seq<u8>, layout: ParsedLayout, files: Seq<(u64, u64)>)
    requires
        layout.wf(s.len()),
        tables::file_table_bytes(files, layout.string_offset_size, layout.endian) is Ok,
        bytes::holds_at(
            s,
            layout.file_table.start as int,
            tables::file_table_bytes(files, layout.string_offset_size, layout.endian)->Ok_0,
        ),
    ensures
        forall|k: int| 0 <= k < files.len() ==> #[trigger] file_placed(s, layout, files, k),
{
    let start = layout.file_table.start as int;
    let width = layout.string_offset_size;
    lemma_file_table_holds(s, start, files, width, layout.endian);
    assert forall|k: int| 0 <= k < files.len() implies #[trigger] file_placed(
        s,
        layout,
        files,
        k,
    ) by {
        assert(file_held(s, start + 4 + k * (2 * width), files[k], width, layout.endian));
    }
}

/// A version 1 file is read back as it was written.
pub proof fn lemma_v1_reads_back(
    endian: Endian,
    build_id: Seq<u8>,
    base: u64,
    width: u8,
    files: Seq<(u64, u64)>,
    strings: Seq<u8>,
    functions: Seq<EncodedFunctionView>,
    native: Endian,
)
    requires
        width == 1 || width == 2 || width == 4 || width == 8,
        encode::v1_image(endian, build_id, base, width, files, strings, functions) is Ok,
        ({
            let image = encode::v1_image(endian, build_id, base, width, files, strings, functions)->Ok_0;
            image.prefix.len() + image.function_info.len() <= usize::MAX
        }),
    ensures
        ({
            let image = encode::v1_image(endian, build_id, base, width, files, strings, functions)->Ok_0;
            reads_back(
                image.prefix + image.function_info,
                native,
                GsymVersion::V1,
                endian,
                build_id,
                base,
                width,
                files,
                strings,
                functions,
            )
        }),
{
    let image = encode::v1_image(endian, build_id, base, width, files, strings, functions)->Ok_0;
    let s = image.prefix + image.function_info;
    let count = functions.len();
    let places = encode::v1_places(count, width as nat, files.len(), strings.len());
    let header = encode::v1_header(base, width, count, places, strings.len(), build_id);
    let section = tables::section_from(
        functions,
        0,
        4,
        endian,
        places.function_base,
        tables::empty_section(),
    )->Ok_0;
    lemma_section_holds(functions, 0, 4, endian, places.function_base, tables::empty_section());
    let encoded = v1::header_encoded(header, endian);
    assert(encoded is Ok) by {
        reveal(encode::v1_prefix);
    }
    assert(bytes::holds_at(s, 0, s)) by {
        assert(s.subrange(0, s.len() as int) =~= s);
    }
    bytes::lemma_holds_at_split(s, 0, image.prefix, image.function_info);
    assert(encoded->Ok_0.len() == v1::HEADER_SIZE) by {
        let h = encoded->Ok_0;
        assert(h.subrange(0, h.len() as int) =~= h);
        v1::law_header_round_trip(h, header, endian, native);
    }
    assert(encoded == Ok::<Seq<u8>, Error>(encoded->Ok_0));
    lemma_v1_prefix(
        s,
        encoded->Ok_0,
        base,
        width,
        files,
        strings,
        functions,
        section.offsets,
        endian,
    );
    v1::law_header_round_trip(s, header, endian, native);
    lemma_v1_layout(s, header, places, files, strings, functions, endian, native);
    let layout = layout::parsed(s, native)->Ok_0;
    lemma_functions_placed(s, layout, places.function_base, section, functions);
    lemma_files_placed(s, layout, files);
}

/// The build identifier that a header says stands behind its fixed fields.
proof fn lemma_v1_uuid(s: Seq<u8>, header: v1::HeaderView, endian: Endian)
    requires
        v1::fields_at(s, endian) == Ok::<v1::HeaderView, Error>(header),
    ensures
        s.len() >= v1::HEADER_SIZE,
        s.subrange(28, 28 + header.uuid.len() as int) == header.uuid,
{
    reveal(v1::fields_at);
}

/// Where the tables of a version 1 file stand is read from its header.
proof fn lemma_v1_layout(
    s: Seq<u8>,
    header: v1::HeaderView,
    places: encode::V1Places,
    files: Seq<(u64, u64)>,
    strings: Seq<u8>,
    functions: Seq<EncodedFunctionView>,
    endian: Endian,
    native: Endian,
)
    requires
        header.address_offset_size == 1 || header.address_offset_size == 2
            || header.address_offset_size == 4 || header.address_offset_size == 8,
        header.address_count == functions.len(),
        header.string_table_offset == places.string_start,
        header.string_table_size == strings.len(),
        header.uuid.len() <= v1::MAX_UUID_SIZE,
        places == encode::v1_places(
            functions.len(),
            header.address_offset_size as nat,
            files.len(),
            strings.len(),
        ),
        encode::v1_places_error(
            functions.len(),
            header.address_offset_size as nat,
            files.len(),
            strings.len(),
        ) is None,
        v1::header_decoded(s, native) == Ok::<(v1::HeaderView, Endian), Error>((header, endian)),
        tables::file_table_bytes(files, 4, endian) is Ok,
        bytes::holds_at(
            s,
            places.file_start as int,
            tables::file_table_bytes(files, 4, endian)->Ok_0,
        ),
        bytes::holds_at(s, places.string_start as int, strings),
        s.len() <= usize::MAX,
    ensures
        layout::parsed(s, native) matches Ok(layout) && {
            &&& layout.version == GsymVersion::V1
            &&& layout.endian == endian
            &&& layout.base_address == header.base_address
            &&& layout.address_offset_size == header.address_offset_size
            &&& layout.string_offset_size == 4
            &&& layout.address_count == functions.len()
            &&& layout.file_count == files.len()
            &&& layout.address_offsets.start == v1::HEADER_SIZE
            &&& layout.address_info_offsets.start == places.info_start
            &&& layout.file_table.start == places.file_start
            &&& layout.string_table.start == places.string_start
            &&& layout.string_table.end == places.function_base
            &&& layout.function_info.start == places.function_base
            &&& layout.function_info.end == s.len()
            &&& gsym::build_id_of(s, layout) == header.uuid
            &&& layout.wf(s.len())
        },
{
    reveal(layout::parsed);
    lemma_file_table_holds(s, places.file_start as int, files, 4, endian);
    let width = header.address_offset_size;
    assert(48nat % 1nat == 0 && 48nat % 2nat == 0 && 48nat % 4nat == 0 && 48nat % 8nat == 0);
    assert(v1::address_offsets_start(header) == v1::HEADER_SIZE);
    assert(v1::address_offsets_end(header) == places.address_end);
    assert(v1::address_info_start(header) == places.info_start);
    assert(v1::address_info_end(header) == places.info_end);
    assert(v1::file_table_start(header) == places.file_start);
    assert(header.address_count * header.address_offset_size == functions.len() * width as nat)
        by (nonlinear_arith)
        requires
            header.address_count == functions.len(),
            width == header.address_offset_size,
    ;
    let found = v1::layout_of(header, s.len() as usize);
    assert(found is Ok);
    let size = crate::format::spec_file_table_size(files.len() as u32, v1::FILE_ENTRY_SIZE);
    assert(size == 4 + files.len() * 8) by (nonlinear_arith)
        requires
            size == (files.len() as u32) * v1::FILE_ENTRY_SIZE + 4,
            v1::FILE_ENTRY_SIZE == 8,
            files.len() <= u32::MAX,
    ;
    assert(layout::parsed_v1(s, native) is Ok);
    assert(layout::parsed(s, native) == layout::parsed_v1(s, native));
    let layout = layout::parsed(s, native)->Ok_0;
    layout::lemma_v1_layout(header, s.len() as usize);
    lemma_v1_uuid(s, header, endian);
}

/// The parts of a version 2 file before the function records stand where its
/// places say.
#[verifier::spinoff_prover]
#[verifier::rlimit(40)]
proof fn lemma_v2_prefix(
    s: Seq<u8>,
    header: Seq<u8>,
    directory: Seq<v2::GlobalData>,
    places: v2::Places,
    build_id: Seq<u8>,
    base: u64,
    width: u8,
    files: Seq<(u64, u64)>,
    strings: Seq<u8>,
    functions: Seq<EncodedFunctionView>,
    offsets: Seq<usize>,
    section_len: nat,
    endian: Endian,
)
    requires
        width == 1 || width == 2 || width == 4 || width == 8,
        header.len() == v2::HEADER_SIZE,
        functions.len() <= u32::MAX,
        files.len() <= u32::MAX,
        places == v2::places_of(
            encode::v2_header(base, width, functions.len()),
            build_id.len(),
            files.len() as u32,
            strings.len(),
            section_len,
        ),
        directory == v2::directory_of(places),
        offsets.len() == functions.len(),
        encode::v2_prefix(
            Ok(header),
            directory,
            build_id,
            base,
            width,
            files,
            strings,
            functions,
            offsets,
            endian,
        ) is Ok,
        bytes::holds_at(
            s,
            0,
            encode::v2_prefix(
                Ok(header),
                directory,
                build_id,
                base,
                width,
                files,
                strings,
                functions,
                offsets,
                endian,
            )->Ok_0,
        ),
    ensures
        ({
            let addresses = tables::addresses_bytes(functions, 0, base, width, endian);
            let table = tables::file_table_bytes(files, 8, endian);
            &&& encode::v2_prefix(
                Ok(header),
                directory,
                build_id,
                base,
                width,
                files,
                strings,
                functions,
                offsets,
                endian,
            )->Ok_0.len() == places.function_start
            &&& bytes::holds_at(s, 0, header)
            &&& bytes::holds_at(
                s,
                v2::HEADER_SIZE as int,
                encode::directory_bytes(directory, 0, endian) + v2::entry_bytes(
                    encode::directory_end(),
                    endian,
                ),
            )
            &&& bytes::holds_at(s, places.directory_end as int, build_id)
            &&& addresses is Ok
            &&& table is Ok
            &&& bytes::holds_at(s, places.address_start as int, addresses->Ok_0)
            &&& bytes::holds_at(
                s,
                places.info_start as int,
                encode::v2_offsets_bytes(offsets, 0, endian),
            )
            &&& bytes::holds_at(s, places.file_start as int, table->Ok_0)
            &&& bytes::holds_at(s, places.file_end as int, strings)
        }),
{
    reveal(encode::v2_prefix);
    let addresses = tables::addresses_bytes(functions, 0, base, width, endian)->Ok_0;
    let infos = encode::v2_offsets_bytes(offsets, 0, endian);
    let table = tables::file_table_bytes(files, 8, endian)->Ok_0;
    let entries = encode::directory_bytes(directory, 0, endian) + v2::entry_bytes(
        encode::directory_end(),
        endian,
    );
    lemma_directory_len(directory, 0, endian);
    let w = width as nat;
    let out_1 = header + entries;
    let out_2 = out_1 + build_id;
    let zeros_2 = bytes::zeros(bytes::padding(out_2.len(), w));
    let out_3 = out_2 + zeros_2;
    let zeros_3 = bytes::zeros(bytes::padding(out_3.len(), w));
    let out_4 = out_3 + zeros_3 + addresses;
    let zeros_4 = bytes::zeros(bytes::padding(out_4.len(), 8));
    let out_5 = out_4 + zeros_4 + infos;
    let zeros_5 = bytes::zeros(bytes::padding(out_5.len(), 4));
    let out_6 = out_5 + zeros_5 + table;
    let out_7 = out_6 + strings;
    let zeros_7 = bytes::zeros(bytes::padding(out_7.len(), 4));
    crate::format::lemma_aligned(out_2.len(), w);
    assert(out_3.len() == crate::format::aligned(out_2.len(), w));
    assert(zeros_3.len() == 0);
    bytes::lemma_holds_at_split(s, 0, out_7, zeros_7);
    bytes::lemma_holds_at_split(s, 0, out_6, strings);
    bytes::lemma_holds_at_split(s, 0, out_5 + zeros_5, table);
    bytes::lemma_holds_at_split(s, 0, out_5, zeros_5);
    bytes::lemma_holds_at_split(s, 0, out_4 + zeros_4, infos);
    bytes::lemma_holds_at_split(s, 0, out_4, zeros_4);
    bytes::lemma_holds_at_split(s, 0, out_3 + zeros_3, addresses);
    bytes::lemma_holds_at_split(s, 0, out_3, zeros_3);
    bytes::lemma_holds_at_split(s, 0, out_2, zeros_2);
    bytes::lemma_holds_at_split(s, 0, out_1, build_id);
    bytes::lemma_holds_at_split(s, 0, header, entries);
    assert(0 * width == 0) by (nonlinear_arith);
    lemma_addresses_hold(s, out_3.len() as int, functions, 0, base, width, endian);
    lemma_v2_offsets_hold(s, (out_4 + zeros_4).len() as int, offsets, 0, endian);
    lemma_file_table_holds(s, (out_5 + zeros_5).len() as int, files, 8, endian);
    assert(out_1.len() == places.directory_end);
    assert(out_3.len() == places.address_start);
    assert(out_4.len() == places.address_end);
    assert((out_4 + zeros_4).len() == places.info_start);
    assert(out_5.len() == places.info_end);
    assert((out_5 + zeros_5).len() == places.file_start);
    assert(crate::format::spec_file_table_size(files.len() as u32, v2::FILE_ENTRY_SIZE) == 4
        + files.len() * 16) by (nonlinear_arith)
        requires
            crate::format::spec_file_table_size(files.len() as u32, v2::FILE_ENTRY_SIZE) == (
            files.len() as u32) * v2::FILE_ENTRY_SIZE + 4,
            v2::FILE_ENTRY_SIZE == 16,
            files.len() <= u32::MAX,
    ;
    assert(out_6.len() == places.file_end);
}

/// The size of a directory.
proof fn lemma_directory_len(directory: Seq<v2::GlobalData>, i: int, endian: Endian)
    requires
        0 <= i <= directory.len(),
    ensures
        encode::directory_bytes(directory, i, endian).len() == (directory.len() - i) * 20,
        v2::entry_bytes(encode::directory_end(), endian).len() == 20,
    decreases directory.len() - i,
{
    lemma_entry_len(encode::directory_end(), endian);
    if i < directory.len() {
        lemma_entry_len(directory[i], endian);
        lemma_directory_len(directory, i + 1, endian);
    }
}

proof fn lemma_entry_len(entry: v2::GlobalData, endian: Endian)
    ensures
        v2::entry_bytes(entry, endian).len() == 20,
{
    bytes::lemma_uint_bytes_len(entry.section_type as nat, 4, endian);
    bytes::lemma_uint_bytes_len(entry.file_offset as nat, 8, endian);
    bytes::lemma_uint_bytes_len(entry.file_size as nat, 8, endian);
}

/// A directory is read back entry by entry.
proof fn lemma_directory_reads(
    s: Seq<u8>,
    pos: int,
    directory: Seq<v2::GlobalData>,
    i: int,
    endian: Endian,
)
    requires
        0 <= i <= directory.len(),
        0 <= pos,
        bytes::holds_at(
            s,
            pos + i * 20,
            encode::directory_bytes(directory, i, endian) + v2::entry_bytes(
                encode::directory_end(),
                endian,
            ),
        ),
        forall|k: int|
            0 <= k < directory.len() ==> {
                &&& (#[trigger] directory[k]).section_type != v2::GLOBAL_END
                &&& v2::entry_error(directory[k], directory.subrange(0, k), s.len()) is None
            },
    ensures
        v2::entries_at(s, pos + i * 20, endian, directory.subrange(0, i)) == Ok::<
            (Seq<v2::GlobalData>, int),
            Error,
        >((directory, pos + directory.len() * 20 + 20)),
    decreases directory.len() - i,
{
    let at = pos + i * 20;
    let last = v2::entry_bytes(encode::directory_end(), endian);
    lemma_directory_len(directory, i, endian);
    if i < directory.len() {
        let part = v2::entry_bytes(directory[i], endian);
        let rest = encode::directory_bytes(directory, i + 1, endian);
        lemma_entry_len(directory[i], endian);
        assert(part + rest + last =~= part + (rest + last));
        bytes::lemma_holds_at_split(s, at, part, rest + last);
        v2::law_entry_round_trip(s, at, directory[i], endian);
        assert(directory.subrange(0, i + 1) =~= directory.subrange(0, i).push(directory[i]));
        lemma_directory_reads(s, pos, directory, i + 1, endian);
    } else {
        assert(Seq::<u8>::empty() + last =~= last);
        v2::law_entry_round_trip(s, at, encode::directory_end(), endian);
        assert(directory.subrange(0, i) =~= directory);
    }
}

/// Sections that break no rule are all accepted.
proof fn lemma_no_section_error(
    s: Seq<u8>,
    header: v2::Header,
    entries: Seq<v2::GlobalData>,
    i: int,
)
    requires
        0 <= i,
        forall|k: int|
            0 <= k < entries.len() ==> v2::section_error(s, header, #[trigger] entries[k]) is None,
    ensures
        v2::sections_error(s, header, entries, i) is None,
    decreases entries.len() - i,
{
    if i < entries.len() {
        lemma_no_section_error(s, header, entries, i + 1);
    }
}

/// The places of a file whose sections are none of them empty.
pub open spec fn places_filled(
    s: Seq<u8>,
    header: v2::Header,
    places: v2::Places,
    file_count: u32,
) -> bool {
    &&& 1 <= header.address_offset_size <= 8
    &&& places.directory_end == 140 && places.uuid_end == 140 || places.directory_end == 160
        && places.uuid_end > 160
    &&& places.uuid_end <= places.address_start
    &&& places.address_start + header.address_count * header.address_offset_size
        == places.address_end
    &&& places.address_start < places.address_end <= places.info_start
    &&& places.info_start + header.address_count * 8 == places.info_end
    &&& places.info_start < places.info_end <= places.file_start
    &&& places.file_end == places.file_start + 4 + file_count * 16
    &&& places.file_end < places.string_end <= places.function_start < places.function_end
    &&& places.function_end == s.len()
    &&& s.len() <= usize::MAX
    &&& places.address_start % (header.address_offset_size as nat) == 0
    &&& places.info_start % 8 == 0
    &&& places.file_start % 4 == 0
    &&& places.function_start % 4 == 0
    &&& s[places.file_end as int] == 0
}

/// The directory of a file whose sections are none of them empty is accepted.
proof fn lemma_v2_directory(
    s: Seq<u8>,
    header: v2::Header,
    places: v2::Places,
    file_count: u32,
    endian: Endian,
)
    requires
        places_filled(s, header, places, file_count),
        bytes::holds_at(
            s,
            v2::HEADER_SIZE as int,
            encode::directory_bytes(v2::directory_of(places), 0, endian) + v2::entry_bytes(
                encode::directory_end(),
                endian,
            ),
        ),
    ensures
        v2::directory_at(s, endian, header) == Ok::<(Seq<v2::GlobalData>, int), Error>(
            (v2::directory_of(places), places.directory_end as int),
        ),
        v2::distinct_types(v2::directory_of(places)),
{
    let directory = v2::directory_of(places);
    let n = directory.len() as int;
    let u = n - 5;
    assert(u == 0 || u == 1);
    assert(directory[u] == v2::entry_of(
        v2::GLOBAL_ADDRESS_OFFSETS,
        places.address_start,
        places.address_end,
    ));
    assert(directory[u + 1] == v2::entry_of(
        v2::GLOBAL_ADDRESS_INFO_OFFSETS,
        places.info_start,
        places.info_end,
    ));
    assert(directory[u + 2] == v2::entry_of(
        v2::GLOBAL_FILE_TABLE,
        places.file_start,
        places.file_end,
    ));
    assert(directory[u + 3] == v2::entry_of(
        v2::GLOBAL_STRING_TABLE,
        places.file_end,
        places.string_end,
    ));
    assert(directory[u + 4] == v2::entry_of(
        v2::GLOBAL_FUNCTION_INFO,
        places.function_start,
        places.function_end,
    ));
    assert(u == 1 ==> directory[0] == v2::entry_of(
        v2::GLOBAL_UUID,
        places.directory_end,
        places.uuid_end,
    ));
    assert(v2::distinct_types(directory));
    assert forall|k: int| 0 <= k < n implies {
        &&& (#[trigger] directory[k]).section_type != v2::GLOBAL_END
        &&& v2::entry_error(directory[k], directory.subrange(0, k), s.len()) is None
    } by {
        let done = directory.subrange(0, k);
        assert(!v2::has_section(done, directory[k].section_type)) by {
            assert forall|j: int| 0 <= j < done.len() implies (#[trigger] done[j]).section_type
                != directory[k].section_type by {
                assert(done[j] == directory[j]);
            }
        }
        assert(k == u || k == u + 1 || k == u + 2 || k == u + 3 || k == u + 4 || (u == 1 && k
            == 0));
    }
    assert(directory.subrange(0, 0) =~= Seq::<v2::GlobalData>::empty());
    lemma_directory_reads(s, v2::HEADER_SIZE as int, directory, 0, endian);
    assert(v2::missing_section(directory) is None);
    assert forall|k: int| 0 <= k < n implies v2::section_error(
        s,
        header,
        #[trigger] directory[k],
    ) is None by {
        assert(k == u || k == u + 1 || k == u + 2 || k == u + 3 || k == u + 4 || (u == 1 && k
            == 0));
    }
    lemma_no_section_error(s, header, directory, 0);
    assert(v2::sections_disjoint(directory, places.directory_end as int)) by {
        assert forall|i: int| 0 <= i < n implies (#[trigger] directory[i]).file_offset
            >= places.directory_end by {
            assert(i == u || i == u + 1 || i == u + 2 || i == u + 3 || i == u + 4 || (u == 1 && i
                == 0));
        }
        assert forall|i: int, j: int| 0 <= i < j < n implies v2::section_end(
            #[trigger] directory[i],
        ) <= (#[trigger] directory[j]).file_offset by {
            assert(i == u || i == u + 1 || i == u + 2 || i == u + 3 || (u == 1 && i == 0));
            assert(j == u || j == u + 1 || j == u + 2 || j == u + 3 || j == u + 4);
        }
    }
}

/// Reading a directory from less input goes no further.
proof fn lemma_entries_of_prefix(
    s: Seq<u8>,
    n: int,
    pos: int,
    endian: Endian,
    done: Seq<v2::GlobalData>,
)
    requires
        0 <= pos,
        0 <= n <= s.len(),
    ensures
        v2::entries_at(s.subrange(0, n), pos, endian, done) matches Ok((entries, end)) ==> {
            &&& end <= n
            &&& v2::entries_at(s, pos, endian, done) == Ok::<(Seq<v2::GlobalData>, int), Error>(
                (entries, end),
            )
        },
    decreases s.len() - pos,
{
    let part = s.subrange(0, n);
    if let Ok((entry, end)) = v2::entry_at(part, pos, endian) {
        assert(part.subrange(pos, pos + 4) =~= s.subrange(pos, pos + 4));
        assert(part.subrange(pos + 4, pos + 12) =~= s.subrange(pos + 4, pos + 12));
        assert(part.subrange(pos + 12, pos + 20) =~= s.subrange(pos + 12, pos + 20));
        assert(v2::entry_at(s, pos, endian) == Ok::<(v2::GlobalData, int), Error>((entry, end)));
        if entry.section_type != v2::GLOBAL_END && v2::entry_error(
            entry,
            done,
            part.len(),
        ) is None {
            lemma_entries_of_prefix(s, n, end, endian, done.push(entry));
        }
    }
}

/// The directory of a file that is laid out for tables of the given sizes is
/// read back: its entries are those of the layout, and it ends where the layout
/// says. Input that ends before it is refused.
pub proof fn law_directory_round_trip(
    s: Seq<u8>,
    header: v2::Header,
    uuid_size: nat,
    file_count: u32,
    string_size: nat,
    function_size: nat,
    endian: Endian,
)
    requires
        1 <= header.address_offset_size <= 8,
        header.address_count > 0,
        string_size > 0,
        function_size > 0,
        ({
            let places = v2::places_of(header, uuid_size, file_count, string_size, function_size);
            &&& v2::places_error(header, file_count, places) is None
            &&& s.len() == places.function_end
            &&& s[places.file_end as int] == 0
            &&& bytes::holds_at(
                s,
                v2::HEADER_SIZE as int,
                encode::directory_bytes(v2::directory_of(places), 0, endian) + v2::entry_bytes(
                    encode::directory_end(),
                    endian,
                ),
            )
        }),
    ensures
        ({
            let places = v2::places_of(header, uuid_size, file_count, string_size, function_size);
            &&& v2::directory_at(s, endian, header) == Ok::<(Seq<v2::GlobalData>, int), Error>(
                (v2::directory_of(places), places.directory_end as int),
            )
            &&& forall|n: int|
                0 <= n < places.directory_end ==> (#[trigger] v2::directory_at(
                    s.subrange(0, n),
                    endian,
                    header,
                )) is Err
        }),
{
    let places = v2::places_of(header, uuid_size, file_count, string_size, function_size);
    v2::law_places_are_ordered(header, uuid_size, file_count, string_size, function_size);
    let (count, width) = (header.address_count as int, header.address_offset_size as int);
    assert(count * width > 0) by (nonlinear_arith)
        requires
            count > 0,
            width > 0,
    ;
    assert(places_filled(s, header, places, file_count));
    lemma_v2_directory(s, header, places, file_count, endian);
    assert forall|n: int| 0 <= n < places.directory_end implies (#[trigger] v2::directory_at(
        s.subrange(0, n),
        endian,
        header,
    )) is Err by {
        lemma_entries_of_prefix(s, n, v2::HEADER_SIZE as int, endian, Seq::empty());
    }
}

/// Where the tables of a version 2 file stand is read from its directory.
proof fn lemma_v2_layout(
    s: Seq<u8>,
    header: v2::Header,
    places: v2::Places,
    file_count: u32,
    endian: Endian,
    native: Endian,
)
    requires
        places_filled(s, header, places, file_count),
        v2::header_decoded(s, native) == Ok::<(v2::Header, Endian), Error>((header, endian)),
        v2::directory_at(s, endian, header) == Ok::<(Seq<v2::GlobalData>, int), Error>(
            (v2::directory_of(places), places.directory_end as int),
        ),
        v2::distinct_types(v2::directory_of(places)),
        endian::uint_at(s, places.file_start as int, 4, endian) == Ok::<(u64, int), Error>(
            (file_count as u64, places.file_start as int + 4),
        ),
    ensures
        layout::parsed(s, native) matches Ok(layout) && {
            &&& layout.version == GsymVersion::V2
            &&& layout.endian == endian
            &&& layout.base_address == header.base_address
            &&& layout.address_offset_size == header.address_offset_size
            &&& layout.string_offset_size == 8
            &&& layout.address_count == header.address_count
            &&& layout.file_count == file_count
            &&& layout.address_offsets.start == places.address_start
            &&& layout.address_info_offsets.start == places.info_start
            &&& layout.file_table.start == places.file_start
            &&& layout.string_table.start == places.file_end
            &&& layout.string_table.end == places.string_end
            &&& layout.function_info.start == places.function_start
            &&& layout.function_info.end == places.function_end
            &&& gsym::build_id_of(s, layout) == s.subrange(
                places.directory_end as int,
                places.uuid_end as int,
            )
            &&& layout.wf(s.len())
        },
{
    lemma_v2_sections(s, header, places, file_count);
    let size = crate::format::spec_file_table_size(file_count, v2::FILE_ENTRY_SIZE);
    assert(size == 4 + file_count * 16);
    lemma_v2_version(s, header, endian, native);
    assert(layout::parsed_v2(s, native) is Ok);
    if places.directory_end == places.uuid_end {
        assert(s.subrange(0, 0) =~= s.subrange(
            places.directory_end as int,
            places.uuid_end as int,
        ));
    }
}

/// A file with a version 2 header is read as one.
proof fn lemma_v2_version(s: Seq<u8>, header: v2::Header, endian: Endian, native: Endian)
    requires
        v2::header_decoded(s, native) == Ok::<(v2::Header, Endian), Error>((header, endian)),
    ensures
        layout::parsed(s, native) == layout::parsed_v2(s, native),
{
    reveal(layout::parsed);
}

/// The section of a range.
spec fn range_of(start: nat, end: nat) -> Range<usize> {
    Range { start: start as usize, end: end as usize }
}

/// The sections that a directory says.
proof fn lemma_v2_sections(
    s: Seq<u8>,
    header: v2::Header,
    places: v2::Places,
    file_count: u32,
)
    requires
        places_filled(s, header, places, file_count),
        v2::distinct_types(v2::directory_of(places)),
    ensures
        ({
            let directory = v2::directory_of(places);
            &&& layout::section_range(directory, v2::GLOBAL_ADDRESS_OFFSETS) == range_of(
                places.address_start,
                places.address_end,
            )
            &&& layout::section_range(directory, v2::GLOBAL_ADDRESS_INFO_OFFSETS) == range_of(
                places.info_start,
                places.info_end,
            )
            &&& layout::section_range(directory, v2::GLOBAL_FILE_TABLE) == range_of(
                places.file_start,
                places.file_end,
            )
            &&& layout::section_range(directory, v2::GLOBAL_STRING_TABLE) == range_of(
                places.file_end,
                places.string_end,
            )
            &&& layout::section_range(directory, v2::GLOBAL_FUNCTION_INFO) == range_of(
                places.function_start,
                places.function_end,
            )
            &&& layout::section_range(directory, v2::GLOBAL_UUID) == (if places.directory_end
                == places.uuid_end {
                range_of(0, 0)
            } else {
                range_of(places.directory_end, places.uuid_end)
            })
        }),
{
    let directory = v2::directory_of(places);
    let u = directory.len() - 5;
    assert(u == 0 || u == 1);
    v2::lemma_find_section(directory, u);
    v2::lemma_find_section(directory, u + 1);
    v2::lemma_find_section(directory, u + 2);
    v2::lemma_find_section(directory, u + 3);
    v2::lemma_find_section(directory, u + 4);
    if u == 1 {
        v2::lemma_find_section(directory, 0);
    } else {
        assert(!v2::has_section(directory, v2::GLOBAL_UUID));
        v2::lemma_no_section(directory, v2::GLOBAL_UUID);
    }
}

/// A version 2 file is read back as it was written.
pub proof fn lemma_v2_reads_back(
    endian: Endian,
    build_id: Seq<u8>,
    base: u64,
    width: u8,
    files: Seq<(u64, u64)>,
    strings: Seq<u8>,
    functions: Seq<EncodedFunctionView>,
    native: Endian,
)
    requires
        width == 1 || width == 2 || width == 4 || width == 8,
        functions.len() > 0,
        strings.len() > 0,
        strings[0] == 0,
        encode::v2_image(endian, build_id, base, width, files, strings, functions) is Ok,
        ({
            let image = encode::v2_image(endian, build_id, base, width, files, strings, functions)->Ok_0;
            image.prefix.len() + image.function_info.len() <= usize::MAX
        }),
    ensures
        ({
            let image = encode::v2_image(endian, build_id, base, width, files, strings, functions)->Ok_0;
            reads_back(
                image.prefix + image.function_info,
                native,
                GsymVersion::V2,
                endian,
                build_id,
                base,
                width,
                files,
                strings,
                functions,
            )
        }),
{
    reveal(encode::v2_directory);
    let image = encode::v2_image(endian, build_id, base, width, files, strings, functions)->Ok_0;
    let s = image.prefix + image.function_info;
    let count = functions.len();
    let header = encode::v2_header(base, width, count);
    let section = tables::section_from(functions, 0, 8, endian, 0, tables::empty_section())->Ok_0;
    lemma_section_holds(functions, 0, 8, endian, 0, tables::empty_section());
    let places = v2::places_of(
        header,
        build_id.len(),
        files.len() as u32,
        strings.len(),
        section.bytes.len(),
    );
    let directory = v2::directory_of(places);
    let encoded = v2::header_encoded(header, endian);
    assert(encoded is Ok) by {
        reveal(encode::v2_prefix);
    }
    assert(bytes::holds_at(s, 0, s)) by {
        assert(s.subrange(0, s.len() as int) =~= s);
    }
    bytes::lemma_holds_at_split(s, 0, image.prefix, image.function_info);
    assert(encoded->Ok_0.len() == v2::HEADER_SIZE) by {
        let h = encoded->Ok_0;
        assert(h.subrange(0, h.len() as int) =~= h);
        v2::law_header_round_trip(h, header, endian, native);
    }
    assert(encoded == Ok::<Seq<u8>, Error>(encoded->Ok_0));
    lemma_v2_prefix(
        s,
        encoded->Ok_0,
        directory,
        places,
        build_id,
        base,
        width,
        files,
        strings,
        functions,
        section.offsets,
        section.bytes.len(),
        endian,
    );
    v2::law_header_round_trip(s, header, endian, native);
    lemma_file_table_holds(s, places.file_start as int, files, 8, endian);
    assert(places_filled(s, header, places, files.len() as u32)) by {
        v2::law_places_are_ordered(
            header,
            build_id.len(),
            files.len() as u32,
            strings.len(),
            section.bytes.len(),
        );
        bytes::lemma_holds_at_index(s, places.file_end as int, strings, 0);
        assert(function_held(functions, 0, 8, endian, 0, section));
        lemma_record_is_not_empty(functions[0], 8, endian);
        assert(header.address_count * header.address_offset_size > 0) by (nonlinear_arith)
            requires
                header.address_count > 0,
                header.address_offset_size > 0,
        ;
    }
    lemma_v2_directory(s, header, places, files.len() as u32, endian);
    lemma_v2_layout(s, header, places, files.len() as u32, endian, native);
    let layout = layout::parsed(s, native)->Ok_0;
    lemma_functions_placed(s, layout, 0, section, functions);
    lemma_files_placed(s, layout, files);
}

} // verus!
