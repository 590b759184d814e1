//! Tests of errors: what they say, and the inputs that give them.
use gsym::convert::ConversionWarning;
use gsym::endian::{Cursor, Encoder};
use gsym::error::Detail;
use gsym::format::function::{check_inline_depth, check_merged_depth};
use gsym::format::leb::{read_sleb, read_uleb};
use gsym::format::line::{decode, encode};
use gsym::format::{v1, v2};
use gsym::{
    AddressRange, CompanionMismatch, ElfInputKind, Endian, Error, Function, Gsym, GsymBuilder,
    InlineNode, LineEntry,
};

#[test]
fn errors_render_their_context() {
    let cases = [
        (
            Error::UnexpectedEof {
                offset: 3,
                needed: 8,
                remaining: 5,
            },
            "unexpected end of input at offset 3: need 8 bytes, have 5",
        ),
        (
            Error::Overflow("string offset"),
            "integer overflow while computing string offset",
        ),
        (
            Error::OutOfRange {
                field: "file index",
                value: 9,
                max: 4,
            },
            "invalid file index value 9; maximum is 4",
        ),
        (
            Error::FunctionIndexOutOfBounds { index: 7, count: 2 },
            "function index 7 is out of bounds for 2 functions",
        ),
        (Error::InvalidMagic(0xab), "invalid GSYM magic 0x000000ab"),
        (Error::UnsupportedVersion(12), "unsupported GSYM version 12"),
        (
            Error::InvalidAddressOffsetSize {
                version: 1,
                size: 3,
            },
            "invalid address offset size 3 for GSYM v1",
        ),
        (
            Error::UnsupportedStringTableEncoding(5),
            "unsupported string table encoding 5",
        ),
        (
            Error::InvalidUuidSize(128),
            "invalid UUID size 128; GSYM v1 supports at most 20 bytes",
        ),
        (
            Error::V1BuildIdTooLong { size: 21 },
            "GSYM v1 build identifier is 21 bytes; maximum is 20 bytes",
        ),
        (
            Error::MissingSection(5),
            "missing required GSYM section type 5",
        ),
        (Error::DuplicateSection(1), "duplicate GSYM section type 1"),
        (
            Error::ZeroSizedSection { section_type: 2 },
            "GSYM section type 2 has zero size",
        ),
        (
            Error::SectionOutOfBounds {
                section_type: 3,
                offset: 10,
                size: 20,
                input_len: 15,
            },
            "GSYM section type 3 is outside the input: offset=10, size=20, input=15",
        ),
        (
            Error::InvalidOffset {
                offset: 99,
                input_len: 10,
            },
            "invalid offset 99 for input of 10 bytes",
        ),
        (Error::InvalidAlignment(3), "invalid alignment 3"),
        (
            Error::MalformedUleb {
                offset: 1,
                reason: "overflow",
            },
            "malformed unsigned LEB128 at offset 1: overflow",
        ),
        (
            Error::MalformedSleb {
                offset: 2,
                reason: "overflow",
            },
            "malformed signed LEB128 at offset 2: overflow",
        ),
        (
            Error::UnsupportedInfoType(7),
            "unsupported FunctionInfo type 7",
        ),
        (
            Error::ZeroNameOffset,
            "FunctionInfo name offset must not be zero",
        ),
        (
            Error::InvalidFormat("trailing call-site bytes"),
            "invalid GSYM data: trailing call-site bytes",
        ),
        (
            Error::InvalidModel("at least one function is required"),
            "invalid GSYM model: at least one function is required",
        ),
        (
            Error::Limit {
                context: "file table",
                value: 5,
                limit: 4,
            },
            "file table value 5 exceeds the supported limit of 4",
        ),
        (
            Error::Malformed {
                context: "line table",
                detail: Detail::LineOutsideU32 { line: 3, delta: -7 },
            },
            "malformed line table: line calculation is outside u32: 3 + -7",
        ),
        (
            Error::Malformed {
                context: "DWO file",
                detail: Detail::Described(String::from("no unit")),
            },
            "malformed DWO file: no unit",
        ),
        (
            Error::Object {
                input: ElfInputKind::Debug,
                source: String::from("bad header"),
            },
            "failed to parse ELF debug file: bad header",
        ),
        (
            Error::Dwarf {
                source: String::from("bad unit"),
            },
            "malformed DWARF: bad unit",
        ),
        (
            Error::NotElf {
                input: ElfInputKind::Image,
            },
            "ELF image is not an ELF file",
        ),
        (
            Error::CompanionMismatch {
                input: ElfInputKind::Symbols,
                mismatch: CompanionMismatch::BuildId,
            },
            "ELF symbol file build ID does not match the linked image",
        ),
        (
            Error::CompanionMismatch {
                input: ElfInputKind::Dwp,
                mismatch: CompanionMismatch::Architecture,
            },
            "DWP file architecture does not match the linked image",
        ),
        (
            Error::V1LimitExceeded {
                field: "string offset",
                value: 4_294_967_296,
            },
            "GSYM v1 limit exceeded for string offset: 4294967296; write version 2 explicitly",
        ),
    ];
    for (error, text) in cases {
        assert_eq!(error.message(), text);
    }
}

#[test]
fn warnings_render_as_one_line() {
    let cases = [
        (
            ConversionWarning::NoInlineRecords,
            "no valid DWARF inline records were found",
        ),
        (
            ConversionWarning::RejectedRange {
                range: AddressRange::new(0x10, 0xabcdef),
            },
            "skipping non-live or invalid DWARF range 0x10..0xabcdef",
        ),
        (
            ConversionWarning::LineSequenceMismatch {
                sequences: 2,
                offsets: 13,
            },
            "could not associate 2 line sequences with 13 statement-sequence offsets",
        ),
        (
            ConversionWarning::MissingLineFile {
                address: 0x1000,
                index: 9,
            },
            "ignoring DWARF line row at 0x1000 with missing file index 9",
        ),
        (
            ConversionWarning::SplitDwarfUnavailable {
                dwo_id: 0xfeed,
                reasons: vec![String::from("one"), String::from("two")],
            },
            "split DWARF unit 0xfeed has no usable .dwo or .dwp data: one; two",
        ),
        (
            ConversionWarning::Debuginfod {
                endpoint: Some(String::from("https://example.org")),
                reason: String::from("refused"),
            },
            "debuginfod https://example.org: refused",
        ),
        (
            ConversionWarning::Debuginfod {
                endpoint: None,
                reason: String::from("refused"),
            },
            "debuginfod: refused",
        ),
        (
            ConversionWarning::MalformedRanges {
                stopped: true,
                reason: String::from("eof"),
            },
            "stopped at malformed DWARF ranges: eof",
        ),
    ];
    for (warning, text) in cases {
        assert_eq!(warning.message(), text);
    }
}

#[test]
fn cursors_and_encoders_report_bounds() {
    let mut input = Cursor::new(&[1, 2, 3], Endian::Little);
    assert_eq!(
        input.read_u64(),
        Err(Error::UnexpectedEof {
            offset: 0,
            needed: 8,
            remaining: 3
        })
    );
    assert_eq!(
        Cursor::at(&[1, 2], Endian::Big, 3).map(|_| ()),
        Err(Error::InvalidOffset {
            offset: 3,
            input_len: 2
        })
    );
    assert!(matches!(
        input.read_uint(9),
        Err(Error::OutOfRange {
            field: "integer width",
            value: 9,
            max: 8
        })
    ));
    let mut output = Encoder::new(Endian::Little);
    assert!(matches!(
        output.align_to(0),
        Err(Error::InvalidAlignment(0))
    ));
    assert!(matches!(
        output.write_uint(256, 1),
        Err(Error::OutOfRange { value: 256, max: 255, .. })
    ));
    assert!(output.as_slice().is_empty());
}

#[test]
fn overlong_integers_are_reported_where_they_start() {
    let mut input = Cursor::at(&[0, 0x80], Endian::Little, 1).unwrap();
    assert!(read_uleb(&mut input).is_err());
    let mut input = Cursor::new(&[0xff; 11], Endian::Little);
    assert!(matches!(
        read_uleb(&mut input),
        Err(Error::MalformedUleb { .. })
    ));
    let mut input = Cursor::new(&[0xff; 11], Endian::Little);
    assert!(matches!(
        read_sleb(&mut input),
        Err(Error::MalformedSleb { .. })
    ));
}

#[test]
fn nesting_is_limited() {
    assert!(check_inline_depth(256).is_ok());
    assert!(matches!(
        check_inline_depth(257),
        Err(Error::Limit {
            value: 257,
            limit: 256,
            ..
        })
    ));
    assert!(check_merged_depth(256).is_ok());
    assert!(check_merged_depth(257).is_err());
    let range = AddressRange::new(0x10, 0x20);
    let mut node = InlineNode {
        ranges: vec![range],
        ..InlineNode::default()
    };
    for _ in 0..300 {
        node = InlineNode {
            ranges: vec![range],
            children: vec![node],
            ..InlineNode::default()
        };
    }
    let mut builder = GsymBuilder::new();
    let function = Function {
        inline: Some(node),
        ..Function::new(range, b"deep")
    };
    assert!(matches!(
        builder.add_function(function),
        Err(Error::Limit { limit: 256, .. })
    ));
}

#[test]
fn line_programs_keep_lines_in_range() {
    let rows = [
        LineEntry::new(0x10, 1.into(), u32::MAX),
        LineEntry::new(0x11, 1.into(), 0),
    ];
    let bytes = encode(&rows, Endian::Little, 0x10).unwrap();
    assert_eq!(decode(&bytes, Endian::Little, 0x10).unwrap(), rows);
    let falling = [0x7f, 0x00, 0x00, 3, 0x7e, 0];
    assert!(matches!(
        decode(&falling, Endian::Little, 0x10),
        Err(Error::Malformed {
            context: "line table",
            detail: Detail::LineOutsideU32 { line: 0, delta: -2 }
        })
    ));
}

#[test]
fn files_that_are_no_gsym_files_are_refused() {
    assert!(matches!(
        Gsym::parse(&b"not a gsym file"[..]).map(|_| ()),
        Err(Error::InvalidMagic(_))
    ));
    assert!(matches!(
        Gsym::parse(&b"GS"[..]).map(|_| ()),
        Err(Error::UnexpectedEof { .. })
    ));
    let mut builder = GsymBuilder::new();
    builder
        .add_function(Function::new(AddressRange::new(0x10, 0x20), b"value"))
        .unwrap();
    let mut bytes = builder.to_bytes().unwrap();
    bytes[4] = 9;
    assert!(matches!(
        Gsym::parse(&bytes).map(|_| ()),
        Err(Error::UnsupportedVersion(9))
    ));
}

#[test]
fn sections_outside_the_file_are_refused() {
    let header = v2::Header {
        address_offset_size: 1,
        string_table_encoding: 0,
        base_address: 0,
        address_count: 1,
    };
    let mut output = Encoder::new(Endian::Little);
    output.write_bytes(&header.encode(Endian::Little).unwrap());
    v2::GlobalData {
        section_type: v2::GLOBAL_ADDRESS_OFFSETS,
        file_offset: 4096,
        file_size: 1,
    }
    .encode_into(&mut output);
    v2::GlobalData {
        section_type: v2::GLOBAL_END,
        file_offset: 0,
        file_size: 0,
    }
    .encode_into(&mut output);
    let bytes = output.into_inner();
    assert!(matches!(
        v2::parse_directory(&bytes, Endian::Little, &header),
        Err(Error::SectionOutOfBounds {
            section_type: v2::GLOBAL_ADDRESS_OFFSETS,
            offset: 4096,
            size: 1,
            ..
        })
    ));
}

#[test]
fn the_byte_order_of_a_file_is_its_own() {
    for endian in [Endian::Little, Endian::Big] {
        let header = v1::Header {
            address_offset_size: 1,
            base_address: 7,
            address_count: 1,
            string_table_offset: 64,
            string_table_size: 1,
            uuid: v1::FixedUuid::default(),
        };
        let bytes = header.encode(endian).unwrap();
        for native in [Endian::Little, Endian::Big] {
            assert_eq!(v1::detect_endian_on(&bytes, native), Ok(endian));
            assert_eq!(
                v1::Header::decode_on(&bytes, native).unwrap(),
                (header.clone(), endian)
            );
        }
        assert_eq!(v1::detect_endian(&bytes), Ok(endian));
    }
}
