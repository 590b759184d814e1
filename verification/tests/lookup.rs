//! Tests of address lookup in files that were written.
use gsym::{
    AddressRange, CallSite, CallSiteFlags, Endian, Error, FileEntry, FrameLookupOptions, Function,
    FunctionSetPolicy, Gsym, GsymBuilder, GsymVersion, InlineNode, LineEntry, LookupOptions,
    LookupScratch,
};

const SETTINGS: [(GsymVersion, Endian); 4] = [
    (GsymVersion::V1, Endian::Little),
    (GsymVersion::V1, Endian::Big),
    (GsymVersion::V2, Endian::Little),
    (GsymVersion::V2, Endian::Big),
];

/// A function with rows, nested inline calls and call sites.
fn sample(version: GsymVersion, endian: Endian) -> Vec<u8> {
    let mut builder = GsymBuilder::new()
        .version(version)
        .endian(endian)
        .base_address(0x1000)
        .build_id(vec![1, 2, 3, 4]);
    let main = builder.add_file(FileEntry::new(b"/src", b"main.c")).unwrap();
    let util = builder.add_file(FileEntry::new(b"/src", b"util.c")).unwrap();
    builder
        .add_function(Function {
            lines: vec![
                LineEntry::new(0x1000, main, 10),
                LineEntry::new(0x1010, util, 20),
                LineEntry::new(0x1030, main, 12),
            ],
            inline: Some(InlineNode {
                ranges: vec![AddressRange::new(0x1000, 0x1100)],
                name: b"outer".to_vec(),
                children: vec![
                    InlineNode {
                        ranges: vec![AddressRange::new(0x1010, 0x1020)],
                        name: b"middle".to_vec(),
                        call_file: main,
                        call_line: 11,
                        children: vec![InlineNode {
                            ranges: vec![AddressRange::new(0x1014, 0x1018)],
                            name: b"inner".to_vec(),
                            call_file: util,
                            call_line: 21,
                            children: Vec::new(),
                        }],
                    },
                    InlineNode {
                        ranges: vec![AddressRange::new(0x1040, 0x1050)],
                        name: Vec::new(),
                        call_file: main,
                        call_line: 13,
                        children: Vec::new(),
                    },
                ],
                ..InlineNode::default()
            }),
            call_sites: vec![
                CallSite {
                    return_offset: 0x20,
                    flags: CallSiteFlags::internal(),
                    match_regex: vec![b"first".to_vec(), b"second".to_vec()],
                },
                CallSite {
                    return_offset: 0x24,
                    flags: CallSiteFlags::external(),
                    match_regex: vec![b"third".to_vec()],
                },
            ],
            ..Function::new(AddressRange::new(0x1000, 0x1100), b"outer")
        })
        .unwrap();
    builder
        .add_function(Function::new(AddressRange::new(0x2000, 0x2010), b"plain"))
        .unwrap();
    builder.to_bytes().unwrap()
}

#[test]
fn a_built_file_resolves_an_address() {
    let mut builder = GsymBuilder::new().base_address(0x4000);
    let source = builder.add_file(FileEntry::new(b"src", b"main.rs")).unwrap();
    builder
        .add_function(Function {
            lines: vec![LineEntry::new(0x4010, source, 12)],
            ..Function::new(AddressRange::new(0x4010, 0x4020), b"example")
        })
        .unwrap();
    let bytes = builder.to_bytes().unwrap();

    let gsym = Gsym::parse(&bytes).unwrap();
    let hit = gsym.lookup(0x4014).unwrap().unwrap();
    assert_eq!(hit.address, 0x4014);
    assert_eq!(hit.function, AddressRange::new(0x4010, 0x4020));
    assert_eq!(hit.frames()[0].name, b"example");
    assert_eq!(hit.frames()[0].directory, b"src");
    assert_eq!(hit.frames()[0].basename, b"main.rs");
    assert_eq!(hit.frames()[0].line, 12);
    assert_eq!(hit.frames()[0].offset, 4);
    assert!(!hit.frames()[0].inlined);
}

#[test]
fn frames_run_from_the_innermost_call_to_the_function() {
    for (version, endian) in SETTINGS {
        let bytes = sample(version, endian);
        let gsym = Gsym::parse(&bytes).unwrap();
        let hit = gsym.lookup(0x1015).unwrap().unwrap();
        let frames: Vec<(&[u8], &[u8], u32, u64, bool)> = hit
            .frames()
            .iter()
            .map(|frame| {
                (
                    frame.name,
                    frame.basename,
                    frame.line,
                    frame.offset,
                    frame.inlined,
                )
            })
            .collect();
        assert_eq!(
            frames,
            [
                (&b"inner"[..], &b"util.c"[..], 20, 1, true),
                (&b"middle"[..], &b"util.c"[..], 21, 5, true),
                (&b"outer"[..], &b"main.c"[..], 11, 0x15, false),
            ]
        );
    }
}

#[test]
fn unnamed_inline_calls_yield_no_frame() {
    let bytes = sample(GsymVersion::V1, Endian::Little);
    let gsym = Gsym::parse(&bytes).unwrap();
    let hit = gsym.lookup(0x1044).unwrap().unwrap();
    assert_eq!(hit.frames().len(), 1);
    assert_eq!(hit.frames()[0].name, b"outer");
    assert_eq!(hit.frames()[0].line, 12);
}

#[test]
fn call_site_patterns_need_the_exact_return_address() {
    for (version, endian) in SETTINGS {
        let bytes = sample(version, endian);
        let gsym = Gsym::parse(&bytes).unwrap();
        let hit = gsym.lookup(0x1020).unwrap().unwrap();
        assert_eq!(hit.call_site_patterns(), [&b"first"[..], &b"second"[..]]);
        let hit = gsym.lookup(0x1024).unwrap().unwrap();
        assert_eq!(hit.call_site_patterns(), [&b"third"[..]]);
        let hit = gsym.lookup(0x1021).unwrap().unwrap();
        assert!(hit.call_site_patterns().is_empty());
    }
}

#[test]
fn lookup_options_leave_records_out() {
    let bytes = sample(GsymVersion::V2, Endian::Big);
    let gsym = Gsym::parse(&bytes).unwrap();
    let mut scratch = LookupScratch::default();
    let names = LookupOptions {
        line_information: false,
        inline_frames: false,
        call_sites: false,
    };
    let hit = gsym
        .lookup_with_options(0x1020, names, &mut scratch)
        .unwrap()
        .unwrap();
    assert_eq!(hit.frames().len(), 1);
    assert_eq!(hit.frames()[0].name, b"outer");
    assert_eq!(hit.frames()[0].line, 0);
    assert_eq!(hit.frames()[0].basename, b"");
    assert!(hit.call_site_patterns().is_empty());
    let lines = LookupOptions {
        line_information: true,
        ..names
    };
    let hit = gsym
        .lookup_with_options(0x1015, lines, &mut scratch)
        .unwrap()
        .unwrap();
    assert_eq!(hit.frames().len(), 1);
    assert_eq!(hit.frames()[0].line, 20);
}

#[test]
fn visitation_yields_the_frames_of_a_lookup() {
    let bytes = sample(GsymVersion::V1, Endian::Big);
    let gsym = Gsym::parse(&bytes).unwrap();
    let mut scratch = LookupScratch::with_capacity(4);
    for address in [0x1000, 0x1015, 0x101c, 0x1044, 0x2008] {
        let mut frames = Vec::new();
        let found = gsym
            .for_each_frame(
                address,
                FrameLookupOptions::default(),
                &mut scratch,
                &mut frames,
            )
            .unwrap();
        assert!(found);
        let hit = gsym.lookup(address).unwrap().unwrap();
        assert_eq!(frames, hit.frames());
    }
    let mut frames = Vec::new();
    assert!(!gsym
        .for_each_frame(
            0x3000,
            FrameLookupOptions::default(),
            &mut scratch,
            &mut frames
        )
        .unwrap());
    assert!(frames.is_empty());
    let options: LookupOptions = FrameLookupOptions::default().into();
    assert!(!options.call_sites);
}

#[test]
fn addresses_outside_every_function_find_nothing() {
    for (version, endian) in SETTINGS {
        let bytes = sample(version, endian);
        let gsym = Gsym::parse(&bytes).unwrap();
        assert!(gsym.lookup(0xfff).unwrap().is_none());
        assert!(gsym.lookup(0x1100).unwrap().is_none());
        assert!(gsym.lookup(0x1fff).unwrap().is_none());
        assert!(gsym.lookup(0x2010).unwrap().is_none());
        assert!(gsym.lookup(u64::MAX).unwrap().is_none());
        assert!(gsym.lookup(0x10ff).unwrap().is_some());
    }
}

#[test]
fn the_search_finds_the_last_function_at_or_before_an_address() {
    let bytes = sample(GsymVersion::V1, Endian::Little);
    let gsym = Gsym::parse(&bytes).unwrap();
    assert_eq!(gsym.find_address_index(0xfff).unwrap(), None);
    assert_eq!(gsym.find_address_index(0x1000).unwrap(), Some(0));
    assert_eq!(gsym.find_address_index(0x1fff).unwrap(), Some(0));
    assert_eq!(gsym.find_address_index(0x2000).unwrap(), Some(1));
    assert_eq!(gsym.find_address_index(u64::MAX).unwrap(), Some(1));
}

#[test]
fn of_functions_with_one_start_the_first_that_answers_is_found() {
    let mut builder = GsymBuilder::new().function_set(FunctionSetPolicy::Preserve);
    for (end, name) in [(0x1004, &b"short"[..]), (0x1010, &b"long"[..])] {
        builder
            .add_function(Function::new(AddressRange::new(0x1000, end), name))
            .unwrap();
    }
    let bytes = builder.to_bytes().unwrap();
    let gsym = Gsym::parse(&bytes).unwrap();
    let name_at = |address| gsym.lookup(address).unwrap().unwrap().frames()[0].name.to_vec();
    assert_eq!(name_at(0x1002), b"short");
    assert_eq!(name_at(0x1008), b"long");
    assert!(gsym.lookup(0x1010).unwrap().is_none());
}

#[test]
fn earlier_records_that_cannot_be_read_are_passed_over() {
    let mut builder = GsymBuilder::new()
        .base_address(0x1000)
        .function_set(FunctionSetPolicy::Preserve);
    for (start, end, name) in [
        (0x1000, 0x1280, &b"outer"[..]),
        (0x1100, 0x1110, &b"damaged"[..]),
        (0x1200, 0x1210, &b"last"[..]),
    ] {
        builder
            .add_function(Function::new(AddressRange::new(start, end), name))
            .unwrap();
    }
    let mut bytes = builder.to_bytes().unwrap();
    // Three address offsets of two bytes follow the header, and then the offsets
    // of the records.
    let offsets = 48 + 8;
    bytes[offsets + 4..offsets + 8].fill(0xff);
    let gsym = Gsym::parse(&bytes).unwrap();
    let found = gsym.lookup(0x1240).unwrap().unwrap();
    assert_eq!(found.frames()[0].name, b"outer");
    assert!(gsym.lookup(0x1280).unwrap().is_none());
    assert!(gsym.lookup(0x1104).is_err());
}

#[test]
fn a_function_of_unknown_size_answers_up_to_the_next() {
    let mut builder = GsymBuilder::new().repair_zero_sized_functions(false);
    for (start, end, name) in [(0x1000, 0x1000, &b"open"[..]), (0x2000, 0x2010, &b"next"[..])] {
        builder
            .add_function(Function::new(AddressRange::new(start, end), name))
            .unwrap();
    }
    let bytes = builder.to_bytes().unwrap();
    let gsym = Gsym::parse(&bytes).unwrap();
    assert_eq!(gsym.lookup(0x1abc).unwrap().unwrap().frames()[0].name, b"open");
    assert_eq!(gsym.lookup(0x2000).unwrap().unwrap().frames()[0].name, b"next");
}

#[test]
fn headers_tell_what_was_written() {
    for (version, endian) in SETTINGS {
        let bytes = sample(version, endian);
        let gsym = Gsym::parse(bytes.clone()).unwrap();
        let header = gsym.header();
        assert_eq!(header.version, version);
        assert_eq!(header.endian, endian);
        assert_eq!(header.base_address, 0x1000);
        assert_eq!(header.address_count, 2);
        assert_eq!(header.address_offset_size, 2);
        assert_eq!(header.build_id, [1, 2, 3, 4]);
        assert_eq!(gsym.build_id(), [1, 2, 3, 4]);
        assert_eq!(gsym.as_bytes(), bytes.as_slice());
        assert_eq!(gsym.into_inner(), bytes);
    }
}

#[test]
fn functions_are_walked_in_address_order() {
    let bytes = sample(GsymVersion::V2, Endian::Little);
    let gsym = Gsym::parse(&bytes).unwrap();
    let mut functions = gsym.functions();
    assert_eq!(functions.len(), 2);
    let first = functions.next().unwrap().unwrap();
    assert_eq!(first.index(), 0);
    assert_eq!(first.name(), b"outer");
    assert_eq!(first.start(), 0x1000);
    assert_eq!(first.range(), AddressRange::new(0x1000, 0x1100));
    assert_eq!(functions.len(), 1);
    let second = functions.next().unwrap().unwrap();
    assert_eq!(second.name(), b"plain");
    assert!(functions.next().is_none());
    assert!(functions.next().is_none());
    assert!(gsym.get_function(2).unwrap().is_none());
    assert!(matches!(
        gsym.function(2).map(|_| ()),
        Err(Error::FunctionIndexOutOfBounds { index: 2, count: 2 })
    ));
}

#[test]
fn tables_are_read_by_index_and_offset() {
    let bytes = sample(GsymVersion::V1, Endian::Little);
    let gsym = Gsym::parse(&bytes).unwrap();
    assert_eq!(gsym.file(0.into()).unwrap(), (&b""[..], &b""[..]));
    assert_eq!(gsym.file(1.into()).unwrap(), (&b"/src"[..], &b"main.c"[..]));
    assert_eq!(gsym.file(2.into()).unwrap(), (&b"/src"[..], &b"util.c"[..]));
    assert!(matches!(
        gsym.file(3.into()),
        Err(Error::OutOfRange {
            field: "file index",
            value: 3,
            max: 2
        })
    ));
    assert_eq!(gsym.string(0).unwrap(), b"");
    assert_eq!(gsym.string(1).unwrap(), b"/src");
    assert!(matches!(
        gsym.string(u64::from(u32::MAX)),
        Err(Error::InvalidOffset { .. })
    ));
}

#[test]
fn decoded_functions_are_those_that_were_added() {
    for (version, endian) in SETTINGS {
        let bytes = sample(version, endian);
        let gsym = Gsym::parse(&bytes).unwrap();
        let (report, functions) = gsym.decode_all_verified().unwrap();
        assert_eq!(report.functions, 2);
        assert_eq!(report.files, 3);
        assert_eq!(functions.len(), 2);
        assert_eq!(functions[0], gsym.function(0).unwrap().decode().unwrap());
        let outer = &functions[0];
        assert_eq!(outer.name, b"outer");
        assert_eq!(outer.lines.len(), 3);
        assert_eq!(outer.call_sites[0].flags.bits(), CallSiteFlags::internal().bits());
        assert_eq!(outer.inline.as_ref().unwrap().children[0].name, b"middle");
        assert_eq!(functions[1].name, b"plain");
    }
}

#[test]
fn record_offsets_are_looked_up_by_any_index() {
    let bytes = sample(GsymVersion::V1, Endian::Little);
    let gsym = Gsym::parse(&bytes).unwrap();
    // Two address offsets of two bytes follow the header, and then two offsets of
    // records.
    let table = 48 + 4;
    let word = |at: usize| {
        u32::from_le_bytes([bytes[at], bytes[at + 1], bytes[at + 2], bytes[at + 3]]) as usize
    };
    for index in 0..3 {
        assert_eq!(gsym.function_offset(index), Ok(word(table + 4 * index)));
    }
    let end = (bytes.len() - table) / 4;
    let left = bytes.len() - (table + 4 * end);
    assert_eq!(
        gsym.function_offset(end),
        Err(Error::UnexpectedEof {
            offset: table + 4 * end,
            needed: 4,
            remaining: left
        })
    );
    assert_eq!(
        gsym.function_offset(end + 1),
        Err(Error::InvalidOffset {
            offset: (table + 4 * end + 4) as u64,
            input_len: bytes.len()
        })
    );
    assert_eq!(
        gsym.function_offset(usize::MAX / 4),
        Err(Error::Overflow("address-info table offset"))
    );
    assert_eq!(
        gsym.function_offset(usize::MAX),
        Err(Error::Overflow("address-info table index"))
    );
}
