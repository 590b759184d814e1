//! Tests of DWARF data that is read from files.
use gsym::convert::dwarf::debug_info::{
    parse_dwo, DebugSections, DwoName, DwoPlace, SplitObject,
};
use gsym::convert::dwarf::program::is_safely_run;
use gsym::convert::dwarf::sections::load_named_section;
use gsym::convert::dwarf::units::SplitData;
use gsym::convert::elf::conversion::shared_inputs;
use gsym::convert::elf::image::AddressLayout;
use gsym::convert::elf::object_file::parse_elf;
use gsym::convert::{
    ConversionOptions, ConversionReport, ConversionWarning, DwarfImportOptions, ElfConverter,
    ElfInputs,
};
use gsym::{DecodedGsym, ElfInputKind, Error, Gsym, WriterOptions};

const PROGBITS: u32 = 1;
const CODE: u64 = 6;
const ADLER: [u8; 4] = [0x06, 0x2d, 0x01, 0xc6];
const ID: u64 = 0x0102_0304_0506_0701;

type Part = (&'static str, u64, u64, Vec<u8>);

/// A little-endian 64-bit ELF executable.
fn elf(parts: Vec<Part>) -> Vec<u8> {
    let mut names = vec![0];
    let mut body = Vec::new();
    let mut headers = vec![0; 64];
    let count = parts.len() as u16 + 2;
    for (name, flags, address, mut data) in parts
        .into_iter()
        .chain([(".shstrtab", 0, 0, Vec::new())])
    {
        let at = names.len() as u32;
        names.extend_from_slice(name.as_bytes());
        names.push(0);
        if name == ".shstrtab" {
            data = names.clone();
        }
        let offset = 64 + body.len() as u64;
        headers.extend_from_slice(&at.to_le_bytes());
        headers.extend_from_slice(&PROGBITS.to_le_bytes());
        headers.extend_from_slice(&flags.to_le_bytes());
        headers.extend_from_slice(&address.to_le_bytes());
        headers.extend_from_slice(&offset.to_le_bytes());
        headers.extend_from_slice(&(data.len() as u64).to_le_bytes());
        headers.extend_from_slice(&[0; 8]);
        headers.extend_from_slice(&1_u64.to_le_bytes());
        headers.extend_from_slice(&[0; 8]);
        body.extend_from_slice(&data);
    }
    let mut file = vec![0x7f, b'E', b'L', b'F', 2, 1, 1, 0];
    file.extend_from_slice(&[0; 8]);
    file.extend_from_slice(&2_u16.to_le_bytes());
    file.extend_from_slice(&62_u16.to_le_bytes());
    file.extend_from_slice(&1_u32.to_le_bytes());
    file.extend_from_slice(&[0; 16]);
    file.extend_from_slice(&(64 + body.len() as u64).to_le_bytes());
    file.extend_from_slice(&[0; 4]);
    for word in [64_u16, 0, 0, 64, count, count - 1] {
        file.extend_from_slice(&word.to_le_bytes());
    }
    file.extend_from_slice(&body);
    file.extend_from_slice(&headers);
    file
}

fn text() -> Part {
    (".text", CODE, 0x1000, vec![0x90; 0x100])
}

/// A version-four unit over the given entries.
fn unit(entries: &[u8]) -> Vec<u8> {
    let mut info = (7 + entries.len() as u32).to_le_bytes().to_vec();
    info.extend_from_slice(&4_u16.to_le_bytes());
    info.extend_from_slice(&0_u32.to_le_bytes());
    info.push(8);
    info.extend_from_slice(entries);
    info
}

/// A version-four line program with two rows, and the given instructions before
/// the first.
fn lines(first: &[u8]) -> Vec<u8> {
    let mut header = vec![1, 1, 1, 0xfb, 14, 13];
    header.extend_from_slice(&[0, 1, 1, 1, 1, 0, 0, 0, 1, 0, 0, 1]);
    header.extend_from_slice(b"/src\0\0main.c\0");
    header.extend_from_slice(&[1, 0, 0, 0]);
    let mut program = vec![0, 9, 2];
    program.extend_from_slice(&0x1000_u64.to_le_bytes());
    program.extend_from_slice(first);
    program.extend_from_slice(&[3, 9, 1, 2, 0x10, 3, 1, 1, 2, 0x10, 0, 1, 1]);
    let mut line = (6 + header.len() as u32 + program.len() as u32)
        .to_le_bytes()
        .to_vec();
    line.extend_from_slice(&4_u16.to_le_bytes());
    line.extend_from_slice(&(header.len() as u32).to_le_bytes());
    line.extend_from_slice(&header);
    line.extend_from_slice(&program);
    line
}

const ABBREVIATIONS: &[u8] = &[
    1, 0x11, 1, 0x03, 0x08, 0x10, 0x17, 0, 0, // Unit with a name and lines.
    2, 0x2e, 0, 0x03, 0x08, 0, 0, // Subprogram with a name only.
    3, 0x2e, 1, 0x03, 0x08, 0x11, 0x01, 0x12, 0x06, 0x3a, 0x0b, 0x3b, 0x0b, 0, 0, // Subprogram.
    4, 0x1d, 0, 0x31, 0x13, 0x11, 0x01, 0x12, 0x06, 0x58, 0x0b, 0x59, 0x0b, 0, 0, // Inlined.
    5, 0x48, 0, 0x7d, 0x01, 0x7f, 0x13, 0, 0, // Call site.
    0,
];

fn whole_parts() -> Vec<Part> {
    let mut entries = vec![1];
    entries.extend_from_slice(b"main.c\0");
    entries.extend_from_slice(&0_u32.to_le_bytes());
    let callee = 11 + entries.len() as u32;
    entries.push(2);
    entries.extend_from_slice(b"helper\0");
    entries.push(3);
    entries.extend_from_slice(b"main\0");
    entries.extend_from_slice(&0x1000_u64.to_le_bytes());
    entries.extend_from_slice(&0x20_u32.to_le_bytes());
    entries.extend_from_slice(&[1, 9]);
    entries.push(4);
    entries.extend_from_slice(&callee.to_le_bytes());
    entries.extend_from_slice(&0x1008_u64.to_le_bytes());
    entries.extend_from_slice(&4_u32.to_le_bytes());
    entries.extend_from_slice(&[1, 12]);
    entries.push(5);
    entries.extend_from_slice(&0x1010_u64.to_le_bytes());
    entries.extend_from_slice(&callee.to_le_bytes());
    entries.extend_from_slice(&[0, 0]);
    vec![
        text(),
        (".debug_abbrev", 0, 0, ABBREVIATIONS.to_vec()),
        (".debug_info", 0, 0, unit(&entries)),
        (".debug_line", 0, 0, lines(&[])),
    ]
}

fn converter() -> ElfConverter<String> {
    let mut options = ConversionOptions::new(Vec::new(), Vec::new(), String::new());
    options.dwarf = Some(DwarfImportOptions {
        inline_info: true,
        call_sites: true,
    });
    ElfConverter::new(options)
}

fn model(report: ConversionReport<String>) -> DecodedGsym {
    let bytes = report.builder.to_bytes().unwrap();
    Gsym::parse(&bytes).unwrap().decode_all().unwrap()
}

#[test]
fn debug_information_is_converted_from_bytes() {
    let image = elf(whole_parts());
    let report = converter().convert(&ElfInputs::new(&image)).unwrap();
    assert_eq!(report.stats.dwarf_functions, 1);
    assert_eq!(report.stats.inline_nodes, 1);
    assert!(report.warnings.is_empty());
    let model = model(report);
    let [main] = model.functions.as_slice() else {
        panic!("expected one function");
    };
    assert_eq!(main.name, b"main");
    assert_eq!((main.range.start, main.range.end), (0x1000, 0x1020));
    let rows: Vec<(u64, u32)> = main.lines.iter().map(|row| (row.address, row.line)).collect();
    assert_eq!(rows, [(0x1000, 10), (0x1010, 11)]);
    let file = &model.files[main.lines[0].file.get() as usize];
    assert_eq!(file.directory, b"/src");
    assert_eq!(file.basename, b"main.c");
    let [helper] = main.inline.as_ref().unwrap().children.as_slice() else {
        panic!("expected one inlined call");
    };
    assert_eq!(helper.name, b"helper");
    assert_eq!(helper.call_line, 12);
    assert_eq!((helper.ranges[0].start, helper.ranges[0].end), (0x1008, 0x100c));
    assert_eq!(main.call_sites[0].return_offset, 0x10);
    assert_eq!(main.call_sites[0].match_regex, [b"helper".to_vec()]);
}

#[test]
fn separate_debug_files_are_read_in_place_of_the_image() {
    let image = elf(vec![text()]);
    let debug = elf(whole_parts());
    let inputs = ElfInputs::new(&image).with_debug(&debug);
    let report = converter().convert(&inputs).unwrap();
    assert_eq!(model(report).functions[0].name, b"main");
    let shared = shared_inputs(&inputs);
    assert!(!shared.debug_image);
    let own = shared_inputs(&ElfInputs::new(&image).with_debug(&image));
    assert!(own.debug_image);
}

#[test]
fn damaged_debug_information_is_refused() {
    let mut parts = whole_parts();
    parts[2].3.truncate(20);
    let image = elf(parts);
    assert!(matches!(
        converter().convert(&ElfInputs::new(&image)).map(|_| ()),
        Err(Error::Dwarf { .. })
    ));
    let mut parts = whole_parts();
    parts[1].3 = vec![9, 9];
    let image = elf(parts);
    assert!(matches!(
        converter().convert(&ElfInputs::new(&image)).map(|_| ()),
        Err(Error::Dwarf { .. })
    ));
}

#[test]
fn the_build_identifier_of_the_image_replaces_the_given_one() {
    let image = elf(whole_parts());
    let mut options = ConversionOptions::new(Vec::new(), Vec::new(), String::new());
    options.writer = WriterOptions {
        build_id: vec![1, 2],
        ..WriterOptions::default()
    };
    let converter: ElfConverter<String> = ElfConverter::new(options);
    let report = converter.convert(&ElfInputs::new(&image)).unwrap();
    assert!(model(report).build_id.is_empty());
}

#[test]
fn names_and_origins_of_a_supplementary_file_are_read() {
    let abbreviations = vec![
        1, 0x11, 1, 0, 0, // Unit.
        2, 0x2e, 0, 0x03, 0xa1, 0x3e, 0x11, 0x01, 0x12, 0x06, 0, 0, // Name in the other file.
        3, 0x2e, 0, 0x31, 0xa0, 0x3e, 0x11, 0x01, 0x12, 0x06, 0, 0, // Origin in the other file.
        0,
    ];
    let mut entries = vec![1, 2];
    entries.extend_from_slice(&1_u32.to_le_bytes());
    entries.extend_from_slice(&0x1000_u64.to_le_bytes());
    entries.extend_from_slice(&0x10_u32.to_le_bytes());
    entries.push(3);
    entries.extend_from_slice(&12_u32.to_le_bytes());
    entries.extend_from_slice(&0x1040_u64.to_le_bytes());
    entries.extend_from_slice(&0x10_u32.to_le_bytes());
    entries.push(0);
    let image = elf(vec![
        text(),
        (".debug_abbrev", 0, 0, abbreviations),
        (".debug_info", 0, 0, unit(&entries)),
    ]);
    let mut other = vec![1, 2];
    other.extend_from_slice(b"origin\0\0");
    let supplementary = elf(vec![
        text(),
        (".debug_abbrev", 0, 0, vec![1, 0x11, 1, 0, 0, 2, 0x2e, 0, 0x03, 0x08, 0, 0, 0]),
        (".debug_info", 0, 0, unit(&other)),
        (".debug_str", 0, 0, b"\0shared\0".to_vec()),
    ]);
    let inputs = ElfInputs::new(&image).with_supplementary(&supplementary);
    let report = converter().convert(&inputs).unwrap();
    let names: Vec<Vec<u8>> = model(report)
        .functions
        .into_iter()
        .map(|function| function.name)
        .collect();
    assert_eq!(names, [b"shared".to_vec(), b"origin".to_vec()]);
}

fn skeleton() -> Vec<u8> {
    let abbreviations = vec![
        1, 0x11, 0, 0xb1, 0x42, 0x07, 0xb0, 0x42, 0x08, 0x1b, 0x08, 0, 0, 0,
    ];
    let mut entries = vec![1];
    entries.extend_from_slice(&ID.to_le_bytes());
    entries.extend_from_slice(b"main.dwo\0/build\0");
    elf(vec![
        text(),
        (".debug_abbrev", 0, 0, abbreviations),
        (".debug_info", 0, 0, unit(&entries)),
    ])
}

const SPLIT_ABBREVIATIONS: &[u8] = &[
    1, 0x11, 1, 0xb1, 0x42, 0x07, 0, 0, // Unit with an identifier.
    2, 0x2e, 0, 0x03, 0x08, 0x11, 0x01, 0x12, 0x06, 0, 0, // Subprogram.
    0,
];

fn split_info() -> Vec<u8> {
    let mut entries = vec![1];
    entries.extend_from_slice(&ID.to_le_bytes());
    entries.push(2);
    entries.extend_from_slice(b"split\0");
    entries.extend_from_slice(&0x1000_u64.to_le_bytes());
    entries.extend_from_slice(&0x10_u32.to_le_bytes());
    entries.push(0);
    unit(&entries)
}

fn split_parts() -> Vec<Part> {
    vec![
        (".debug_abbrev.dwo", 0, 0, SPLIT_ABBREVIATIONS.to_vec()),
        (".debug_info.dwo", 0, 0, split_info()),
    ]
}

/// A package with one unit.
fn package(id: u64) -> Vec<u8> {
    let mut index = Vec::new();
    for word in [2_u32, 2, 1, 2] {
        index.extend_from_slice(&word.to_le_bytes());
    }
    for slot in [0, id] {
        index.extend_from_slice(&slot.to_le_bytes());
    }
    let sizes = [split_info().len() as u32, SPLIT_ABBREVIATIONS.len() as u32];
    for word in [0_u32, 1, 1, 3, 0, 0, sizes[0], sizes[1]] {
        index.extend_from_slice(&word.to_le_bytes());
    }
    let mut parts = split_parts();
    parts.push((".debug_cu_index", 0, 0, index));
    parts.push(text());
    elf(parts)
}

#[test]
fn skeletons_name_their_split_files() {
    let image = skeleton();
    let file = parse_elf(&image, ElfInputKind::Image).unwrap();
    let layout = AddressLayout::new(&file).unwrap();
    let sections = DebugSections::load(&file, None, None, &layout).unwrap();
    let skeletons = sections.skeletons();
    assert_eq!(skeletons.len(), 1);
    let found = skeletons[0].as_ref().unwrap();
    assert_eq!(found.dwo_id, ID);
    let name = found.file.as_ref().unwrap().as_ref().unwrap();
    assert_eq!(name.name, b"main.dwo");
    assert_eq!(name.directory.as_deref(), Some(&b"/build"[..]));
    assert_eq!(name.places(false), [DwoPlace::Directory]);
    assert_eq!(name.places(true), [DwoPlace::BelowBase, DwoPlace::Directory]);
    let bare = DwoName {
        name: b"main.dwo".to_vec(),
        directory: None,
    };
    assert_eq!(bare.places(true), [DwoPlace::Base]);
}

#[test]
fn split_files_are_checked_and_imported() {
    let image = skeleton();
    let inputs = ElfInputs::new(&image);
    let converter = converter();
    let prepare = || {
        converter
            .prepare(&inputs, Ok(None), shared_inputs(&inputs))
            .unwrap()
    };
    let prepared = prepare();
    let sections = prepared.debug_sections(&inputs).unwrap();
    let bytes = elf(split_parts());
    let set = parse_dwo(&bytes, "main.dwo", ID, prepared.layout()).unwrap();
    let objects = vec![SplitObject::Found(set)];
    let info = sections.read(&objects);
    assert!(matches!(&info.splits[0].object, SplitData::Found(units) if units.units.len() == 1));
    assert!(matches!(info.splits[0].package, SplitData::NotSearched));
    let report: ConversionReport<String> = prepared.import_sections(&sections, &objects).unwrap();
    assert_eq!(report.stats.split_dwarf_units, 1);
    assert_eq!(model(report).functions[0].name, b"split");

    let layout = prepare();
    let refused = |bytes: &[u8], id| {
        parse_dwo(bytes, "main.dwo", id, layout.layout())
            .map(|_| ())
            .unwrap_err()
            .message()
    };
    assert_eq!(
        refused(&bytes, 5),
        "malformed DWO file: ID mismatch for main.dwo"
    );
    assert_eq!(
        refused(&elf(vec![text()]), ID),
        "malformed DWO file: no compilation unit in main.dwo"
    );
}

#[test]
fn packages_are_searched_by_identifier() {
    let image = skeleton();
    let packed = package(ID);
    let report = converter()
        .convert(&ElfInputs::new(&image).with_dwp(&packed))
        .unwrap();
    assert_eq!(report.stats.split_dwarf_units, 1);
    assert_eq!(model(report).functions[0].name, b"split");

    let other = package(ID + 2);
    let report = converter()
        .convert(&ElfInputs::new(&image).with_dwp(&other))
        .unwrap();
    assert_eq!(report.stats.split_dwarf_units, 0);
    assert!(report.warnings.iter().any(|warning| matches!(
        warning,
        ConversionWarning::SplitDwarfUnavailable { dwo_id, reasons }
            if *dwo_id == ID && reasons == &["unit is absent from the DWP index"]
    )));

    let mut damaged = split_parts();
    damaged.push((".debug_cu_index", 0, 0, vec![2, 0, 0, 0, 1]));
    damaged.push(text());
    let damaged = elf(damaged);
    assert!(matches!(
        converter()
            .convert(&ElfInputs::new(&image).with_dwp(&damaged))
            .map(|_| ()),
        Err(Error::Dwarf { .. })
    ));
}

/// A compressed section that says how many bytes it unpacks to.
fn compressed(size: u64) -> Vec<u8> {
    let mut data = 1_u32.to_le_bytes().to_vec();
    data.extend_from_slice(&[0; 4]);
    data.extend_from_slice(&size.to_le_bytes());
    data.extend_from_slice(&1_u64.to_le_bytes());
    data.extend_from_slice(&[0x78, 0x01, 0x01, 5, 0, 0xfa, 0xff]);
    data.extend_from_slice(b"text\0");
    data.extend_from_slice(&ADLER);
    data
}

#[test]
fn compressed_sections_are_unpacked() {
    let packed = elf(vec![text(), (".debug_str", 0x800, 0, compressed(5))]);
    let file = parse_elf(&packed, ElfInputKind::Image).unwrap();
    let layout = AddressLayout::new(&file).unwrap();
    let section = load_named_section(&file, ".debug_str", &layout).unwrap();
    assert_eq!(section.data, b"text\0");

    let wrong = elf(vec![text(), (".debug_str", 0x800, 0, compressed(9))]);
    let file = parse_elf(&wrong, ElfInputKind::Image).unwrap();
    assert!(load_named_section(&file, ".debug_str", &layout)
        .map(|_| ())
        .unwrap_err()
        .message()
        .starts_with("malformed DWARF section: failed to read .debug_str: "));
}

#[test]
fn references_lead_to_entries_of_their_unit() {
    let image = elf(whole_parts());
    let file = parse_elf(&image, ElfInputKind::Image).unwrap();
    let layout = AddressLayout::new(&file).unwrap();
    let sections = DebugSections::load(&file, None, None, &layout).unwrap();
    let info = sections.read(&Vec::new());
    let unit = &info.units.units[0];
    assert_eq!(unit.entries.len(), 5);
    assert_eq!(unit.entries[3].tag, 0x1d);
    let [target] = unit.targets.as_slice() else {
        panic!("expected one target");
    };
    assert_eq!(target.offset, unit.entries[1].offset);
    let entry = target.entry.as_ref().unwrap();
    assert_eq!(entry.name.as_ref().unwrap().value.as_ref().unwrap(), b"helper");
}

#[test]
fn index_zero_stands_for_the_file_of_the_unit() {
    let mut first = vec![0, 12, 3];
    first.extend_from_slice(b"extra.h\0");
    first.extend_from_slice(&[1, 0, 0, 4, 0]);
    let mut parts = whole_parts();
    parts[3].3 = lines(&first);
    let image = elf(parts);
    let report = converter().convert(&ElfInputs::new(&image)).unwrap();
    assert!(report.warnings.is_empty());
    let model = model(report);
    let file = &model.files[model.functions[0].lines[0].file.get() as usize];
    assert_eq!(file.directory, b"");
    assert_eq!(file.basename, b"main.c");
    assert!(model.files.iter().any(|file| file.basename == b"extra.h"));
}

/// A unit with one entry of the given tag, a name and a range.
fn ranged(tag: u8, low: u64, size: u32) -> Vec<u8> {
    let abbreviations = vec![
        1, 0x11, 1, 0, 0, // Unit.
        2, tag, 0, 0x03, 0x08, 0x11, 0x01, 0x12, 0x06, 0, 0, // Entry with a range.
        0,
    ];
    let mut entries = vec![1, 2];
    entries.extend_from_slice(b"ranged\0");
    entries.extend_from_slice(&low.to_le_bytes());
    entries.extend_from_slice(&size.to_le_bytes());
    entries.push(0);
    elf(vec![
        text(),
        (".debug_abbrev", 0, 0, abbreviations),
        (".debug_info", 0, 0, unit(&entries)),
    ])
}

fn refusal(image: &[u8]) -> String {
    match converter().convert(&ElfInputs::new(image)) {
        Err(Error::Dwarf { source }) => source,
        other => panic!("{:?}", other.map(|report| report.stats)),
    }
}

/// What a conversion that gives no function warns of first.
fn first_warning(image: &[u8]) -> ConversionWarning {
    let mut report = converter().convert(&ElfInputs::new(image)).unwrap();
    assert_eq!(report.stats.dwarf_functions, 0);
    assert_eq!(report.stats.rejected_ranges, 1);
    report.warnings.remove(0)
}

fn overflowing() -> ConversionWarning {
    ConversionWarning::MalformedRanges {
        stopped: false,
        reason: "address range overflows".to_string(),
    }
}

#[test]
fn ranges_that_overflow_are_refused() {
    let image = ranged(0x2e, 0x1000, 0x20);
    let report = converter().convert(&ElfInputs::new(&image)).unwrap();
    assert_eq!(model(report).functions[0].range.end, 0x1020);
    let image = ranged(0x2e, u64::MAX - 0x1f, 0x20);
    assert_eq!(first_warning(&image), overflowing());
    let image = ranged(0x2e, u64::MAX - 0x20, 0x20);
    assert_ne!(first_warning(&image), overflowing());
}

#[test]
fn ranges_of_other_entries_are_not_read() {
    let image = ranged(0x0b, u64::MAX, 0x20);
    let report = converter().convert(&ElfInputs::new(&image)).unwrap();
    assert_eq!(report.stats.rejected_ranges, 0);
    assert!(!report.warnings.contains(&overflowing()));
}

/// A 64-bit version-five unit with a function whose range list has index zero
/// and the given offset.
fn listed(offset: u64) -> Vec<u8> {
    let abbreviations = vec![
        1, 0x11, 1, 0x74, 0x17, 0, 0, // Unit with a base of range lists.
        2, 0x2e, 0, 0x03, 0x08, 0x55, 0x23, 0, 0, // Function with an indexed list.
        0,
    ];
    let mut body = 5_u16.to_le_bytes().to_vec();
    body.extend_from_slice(&[1, 8]);
    body.extend_from_slice(&0_u64.to_le_bytes());
    body.push(1);
    body.extend_from_slice(&20_u64.to_le_bytes());
    body.push(2);
    body.extend_from_slice(b"listed\0");
    body.extend_from_slice(&[0, 0]);
    let mut info = u32::MAX.to_le_bytes().to_vec();
    info.extend_from_slice(&(body.len() as u64).to_le_bytes());
    info.extend_from_slice(&body);
    let mut list = 5_u16.to_le_bytes().to_vec();
    list.extend_from_slice(&[8, 0]);
    list.extend_from_slice(&1_u32.to_le_bytes());
    list.extend_from_slice(&offset.to_le_bytes());
    list.push(7);
    list.extend_from_slice(&0x1000_u64.to_le_bytes());
    list.extend_from_slice(&[0x30, 0]);
    let mut lists = u32::MAX.to_le_bytes().to_vec();
    lists.extend_from_slice(&(list.len() as u64).to_le_bytes());
    lists.extend_from_slice(&list);
    elf(vec![
        text(),
        (".debug_abbrev", 0, 0, abbreviations),
        (".debug_info", 0, 0, info),
        (".debug_rnglists", 0, 0, lists),
    ])
}

#[test]
fn indexed_lists_that_overflow_are_refused() {
    let image = listed(8);
    let report = converter().convert(&ElfInputs::new(&image)).unwrap();
    let range = model(report).functions[0].range;
    assert_eq!((range.start, range.end), (0x1000, 0x1030));
    assert_eq!(first_warning(&listed(u64::MAX - 19)), overflowing());
    assert_ne!(first_warning(&listed(u64::MAX - 20)), overflowing());
}

/// The standard opcode lengths of `lines`.
const LENGTHS: [u8; 12] = [0, 1, 1, 1, 1, 0, 0, 0, 1, 0, 0, 1];

#[test]
fn lines_that_are_taken_back_too_far_are_refused() {
    let most = [3, 0x80, 0x80, 0x80, 0x80, 0x80, 0x80, 0x80, 0x80, 0x80, 0x7f];
    let mut less = most;
    less[1] = 0x81;
    assert!(!is_safely_run(&most, &LENGTHS, 13));
    assert!(is_safely_run(&less, &LENGTHS, 13));
    assert!(is_safely_run(&most[1..], &LENGTHS, 13));
    let mut parts = whole_parts();
    parts[3].3 = lines(&most);
    assert_eq!(refusal(&elf(parts)), "line advance overflows");
    let mut parts = whole_parts();
    parts[3].3 = lines(&less);
    assert!(matches!(
        converter().convert(&ElfInputs::new(&elf(parts))).map(|_| ()),
        Err(Error::Malformed { .. })
    ));
}

#[test]
fn files_that_instructions_define_have_directories() {
    let mut parts = whole_parts();
    let mut first = vec![0, 8, 3];
    first.extend_from_slice(b"x.c\0");
    first.extend_from_slice(&[1, 0, 0, 4, 2]);
    parts[3].3 = lines(&first);
    let image = elf(parts);
    let report = converter().convert(&ElfInputs::new(&image)).unwrap();
    let model = model(report);
    let file = &model.files[model.functions[0].lines[0].file.get() as usize];
    assert_eq!(file.directory, b"/src");
    assert_eq!(file.basename, b"x.c");
}
