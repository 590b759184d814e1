//! Tests of ELF inputs, companion checks and conversion.
use gsym::convert::dwarf::sections::load_named_section;
use gsym::convert::dwarf::source::{SectionSet, SetKind};
use gsym::convert::elf::converter::SharedInputs;
use gsym::convert::elf::discovery::{
    build_id_path, build_id_text, cache_warning, client_warning, debug_link, gnu_debugdata,
    has_checksum, judge_fetch, linked_candidates, search_build_id,
    supplementary_link, unpack_gnu_debugdata, valid_debug_companion, valid_debuginfod_response,
    valid_dwp, valid_linked_debug, valid_supplementary, Candidate,
    FetchOutcome, FetchStep, LimitedOutput,
};
use gsym::convert::elf::image::{
    align_section, cross_check_elf_identity, is_debug_section, require_supported_kind,
    AddressLayout,
};
use gsym::convert::elf::object_file::{parse_elf, ObjectFile, ObjectKind, RelocationTarget};
use gsym::convert::elf::stream::{StreamInput, OVERFLOWING_FOOTER};
use gsym::convert::elf::symbols::{visit_symbols, SymbolDisposition};
use gsym::convert::{
    ConversionOptions, ConversionWarning, DiscoveryPolicy, DwarfImportOptions, ElfConverter,
    ElfInputs,
};
use gsym::{AddressRange, CompanionMismatch, ElfInputKind, Endian, Error, Gsym};

const EXECUTABLE: u16 = 2;
const RELOCATABLE: u16 = 1;
const CORE: u16 = 4;
const X86_64: u16 = 62;
const AARCH64: u16 = 183;
const PROGBITS: u32 = 1;
const SYMTAB: u32 = 2;
const STRTAB: u32 = 3;
const RELA: u32 = 4;
const NOTE: u32 = 7;
const DYNSYM: u32 = 11;
const ALLOC: u64 = 2;
const EXECUTE: u64 = 4;

struct Part {
    name: &'static str,
    kind: u32,
    flags: u64,
    address: u64,
    data: Vec<u8>,
    link: u32,
    info: u32,
    entry_size: u64,
}

fn part(name: &'static str, kind: u32, flags: u64, address: u64, data: Vec<u8>) -> Part {
    Part {
        name,
        kind,
        flags,
        address,
        data,
        link: 0,
        info: 0,
        entry_size: 0,
    }
}

fn text_part(address: u64, size: usize) -> Part {
    part(".text", PROGBITS, ALLOC | EXECUTE, address, vec![0x90; size])
}

fn note_part(id: &[u8]) -> Part {
    let mut data = Vec::new();
    data.extend_from_slice(&4_u32.to_le_bytes());
    data.extend_from_slice(&(id.len() as u32).to_le_bytes());
    data.extend_from_slice(&3_u32.to_le_bytes());
    data.extend_from_slice(b"GNU\0");
    data.extend_from_slice(id);
    while data.len() % 4 != 0 {
        data.push(0);
    }
    part(".note.gnu.build-id", NOTE, 0, 0, data)
}

/// A symbol table and its string table; `strings` is the index of the latter.
fn symbol_parts(
    names: [&'static str; 2],
    kind: u32,
    strings: u32,
    symbols: &[(&str, u8, u16, u64, u64)],
) -> [Part; 2] {
    let mut text = vec![0];
    let mut data = vec![0; 24];
    for (name, info, section, value, size) in symbols {
        data.extend_from_slice(&(text.len() as u32).to_le_bytes());
        data.push(*info);
        data.push(0);
        data.extend_from_slice(&section.to_le_bytes());
        data.extend_from_slice(&value.to_le_bytes());
        data.extend_from_slice(&size.to_le_bytes());
        text.extend_from_slice(name.as_bytes());
        text.push(0);
    }
    let mut table = part(names[0], kind, 0, 0, data);
    table.link = strings;
    table.info = 1;
    table.entry_size = 24;
    [table, part(names[1], STRTAB, 0, 0, text)]
}

/// A little-endian 64-bit ELF file; the first part gets section index one.
fn elf(kind: u16, machine: u16, parts: Vec<Part>) -> Vec<u8> {
    let mut names = vec![0];
    let mut body = Vec::new();
    let mut headers = vec![0; 64];
    let count = parts.len() as u16 + 2;
    let shstrtab = part(".shstrtab", STRTAB, 0, 0, Vec::new());
    for mut part in parts.into_iter().chain([shstrtab]) {
        let name = names.len() as u32;
        names.extend_from_slice(part.name.as_bytes());
        names.push(0);
        if part.name == ".shstrtab" {
            part.data = names.clone();
        }
        while body.len() % 8 != 0 {
            body.push(0);
        }
        let offset = 64 + body.len() as u64;
        headers.extend_from_slice(&name.to_le_bytes());
        headers.extend_from_slice(&part.kind.to_le_bytes());
        headers.extend_from_slice(&part.flags.to_le_bytes());
        headers.extend_from_slice(&part.address.to_le_bytes());
        headers.extend_from_slice(&offset.to_le_bytes());
        headers.extend_from_slice(&(part.data.len() as u64).to_le_bytes());
        headers.extend_from_slice(&part.link.to_le_bytes());
        headers.extend_from_slice(&part.info.to_le_bytes());
        headers.extend_from_slice(&4_u64.to_le_bytes());
        headers.extend_from_slice(&part.entry_size.to_le_bytes());
        body.extend_from_slice(&part.data);
    }
    while body.len() % 8 != 0 {
        body.push(0);
    }
    let mut file = vec![0x7f, b'E', b'L', b'F', 2, 1, 1, 0];
    file.extend_from_slice(&[0; 8]);
    file.extend_from_slice(&kind.to_le_bytes());
    file.extend_from_slice(&machine.to_le_bytes());
    file.extend_from_slice(&1_u32.to_le_bytes());
    file.extend_from_slice(&0_u64.to_le_bytes());
    file.extend_from_slice(&0_u64.to_le_bytes());
    file.extend_from_slice(&(64 + body.len() as u64).to_le_bytes());
    file.extend_from_slice(&0_u32.to_le_bytes());
    file.extend_from_slice(&64_u16.to_le_bytes());
    file.extend_from_slice(&56_u16.to_le_bytes());
    file.extend_from_slice(&0_u16.to_le_bytes());
    file.extend_from_slice(&64_u16.to_le_bytes());
    file.extend_from_slice(&count.to_le_bytes());
    file.extend_from_slice(&(count - 1).to_le_bytes());
    file.extend_from_slice(&body);
    file.extend_from_slice(&headers);
    file
}

/// An executable with two functions, a variable and a build identifier.
fn image() -> Vec<u8> {
    let [table, strings] = symbol_parts(
        [".symtab", ".strtab"],
        SYMTAB,
        3,
        &[
            ("main", 0x12, 1, 0x1000, 0x20),
            ("helper", 0x12, 1, 0x1020, 0x10),
            ("variable", 0x11, 1, 0x1030, 4),
            ("missing", 0x12, 0, 0, 0),
            ("outside", 0x12, 1, 0x9000, 8),
        ],
    );
    elf(
        EXECUTABLE,
        X86_64,
        vec![
            text_part(0x1000, 0x100),
            table,
            strings,
            note_part(&[0xab, 0x01, 0x02, 0x03]),
        ],
    )
}

fn options() -> ConversionOptions<String> {
    ConversionOptions::new(Vec::new(), Vec::new(), String::from("cache"))
}

fn symbols_only() -> ElfConverter<String> {
    let mut options = options();
    options.dwarf = None;
    ElfConverter::new(options)
}

fn nothing_shared() -> SharedInputs {
    SharedInputs {
        symbols_debug: false,
        symbols_image: false,
        debug_image: false,
    }
}

#[test]
fn object_files_tell_their_header() {
    let bytes = image();
    let file = parse_elf(&bytes, ElfInputKind::Image).unwrap();
    assert!(file.header().elf);
    assert_eq!(file.header().kind, ObjectKind::Executable);
    assert!(file.header().little_endian);
    assert!(file.header().is_64);
    assert_eq!(file.header().architecture, "X86_64");
    assert_eq!(file.bytes(), bytes.as_slice());
    assert!(require_supported_kind(file.header().kind).is_ok());
    let core = elf(CORE, X86_64, vec![text_part(0x1000, 16)]);
    let core = parse_elf(&core, ElfInputKind::Image).unwrap();
    assert!(require_supported_kind(core.header().kind).is_err());
    assert!(matches!(
        parse_elf(b"no object file at all", ElfInputKind::Symbols).map(|_| ()),
        Err(Error::Object {
            input: ElfInputKind::Symbols,
            ..
        })
    ));
}

#[test]
fn sections_are_read_by_name_and_index() {
    let bytes = image();
    let file = parse_elf(&bytes, ElfInputKind::Image).unwrap();
    let names: Vec<Vec<u8>> = file
        .sections()
        .into_iter()
        .filter_map(|section| section.name)
        .collect();
    assert!(names.contains(&b".text".to_vec()));
    assert!(names.contains(&b".note.gnu.build-id".to_vec()));
    let text = file.section_named(".text").unwrap();
    assert_eq!(text.address, 0x1000);
    assert_eq!(text.size, 0x100);
    assert!(!is_debug_section(&text));
    assert_eq!(file.section_data(text.index).unwrap(), vec![0x90; 0x100]);
    assert_eq!(
        file.uncompressed_data(text.index).unwrap(),
        vec![0x90; 0x100]
    );
    assert_eq!(file.section(text.index).unwrap().address, 0x1000);
    assert!(file.section(500).is_err());
    assert!(file.section_data(500).is_err());
    assert!(file.section_named(".data").is_none());
    assert!(file.relocations(text.index).is_empty());
}

#[test]
fn symbols_of_both_tables_are_visited() {
    let [table, strings] = symbol_parts(
        [".symtab", ".strtab"],
        SYMTAB,
        3,
        &[("plain", 0x12, 1, 0x1000, 0x10)],
    );
    let [dynamic, dynamic_strings] = symbol_parts(
        [".dynsym", ".dynstr"],
        DYNSYM,
        5,
        &[("exported", 0x12, 1, 0x1010, 0x10)],
    );
    let bytes = elf(
        EXECUTABLE,
        X86_64,
        vec![
            text_part(0x1000, 0x100),
            table,
            strings,
            dynamic,
            dynamic_strings,
        ],
    );
    let file = parse_elf(&bytes, ElfInputKind::Image).unwrap();
    assert_eq!(file.symbols().len(), 1);
    assert_eq!(file.dynamic_symbols().len(), 1);
    assert_eq!(file.symbol(1).unwrap().name, Some(b"plain".to_vec()));
    assert!(file.symbol(9).is_err());
    let layout = AddressLayout::new(&file).unwrap();
    assert_eq!(layout.ranges(), &vec![AddressRange::new(0x1000, 0x1100)]);
    assert!(!layout.is_relocatable());
    let functions = visit_symbols(&file, &layout).unwrap();
    let names: Vec<&[u8]> = functions
        .iter()
        .map(|function| function.name.as_slice())
        .collect();
    assert_eq!(names, [&b"plain"[..], b"exported"]);
    assert_eq!(functions[1].range, AddressRange::new(0x1010, 0x1020));
    assert!(matches!(
        functions[0].disposition,
        SymbolDisposition::Import
    ));
}

#[test]
fn identifiers_and_links_are_read() {
    let mut link = b"app.debug\0\0\0".to_vec();
    link.extend_from_slice(&0xdead_beef_u32.to_le_bytes());
    let mut altlink = b"common.dwz\0".to_vec();
    altlink.extend_from_slice(&[5, 6, 7]);
    let bytes = elf(
        EXECUTABLE,
        X86_64,
        vec![
            text_part(0x1000, 16),
            note_part(&[1, 2, 3, 4]),
            part(".gnu_debuglink", PROGBITS, 0, 0, link),
            part(".gnu_debugaltlink", PROGBITS, 0, 0, altlink),
        ],
    );
    let file = parse_elf(&bytes, ElfInputKind::Image).unwrap();
    assert_eq!(file.build_id().unwrap(), Some(vec![1, 2, 3, 4]));
    assert_eq!(search_build_id(&file).unwrap(), Some(vec![1, 2, 3, 4]));
    assert_eq!(
        debug_link(&file).unwrap(),
        Some((b"app.debug".to_vec(), 0xdead_beef))
    );
    assert_eq!(
        supplementary_link(&file).unwrap(),
        Some((b"common.dwz".to_vec(), vec![5, 6, 7]))
    );
    let mut empty = vec![0, 0, 0, 0];
    empty.extend_from_slice(&1_u32.to_le_bytes());
    let bytes = elf(
        EXECUTABLE,
        X86_64,
        vec![
            text_part(0x1000, 16),
            note_part(&[1]),
            part(".gnu_debuglink", PROGBITS, 0, 0, empty),
        ],
    );
    let file = parse_elf(&bytes, ElfInputKind::Image).unwrap();
    assert!(matches!(
        debug_link(&file),
        Err(Error::Malformed {
            context: ".gnu_debuglink",
            ..
        })
    ));
    assert_eq!(search_build_id(&file).unwrap(), None);
    assert_eq!(supplementary_link(&file).unwrap(), None);
}

#[test]
fn relocations_of_debug_sections_are_loaded() {
    let [table, strings] = symbol_parts(
        [".symtab", ".strtab"],
        SYMTAB,
        3,
        &[("function", 0x12, 1, 8, 4)],
    );
    let mut entries = Vec::new();
    for (offset, kind, addend) in [(0_u64, 1_u64, 4_i64), (8, 10, -1), (16, 0, 0)] {
        entries.extend_from_slice(&offset.to_le_bytes());
        entries.extend_from_slice(&((1_u64 << 32) | kind).to_le_bytes());
        entries.extend_from_slice(&addend.to_le_bytes());
    }
    let mut rela = part(".rela.debug_info", RELA, 0, 0, entries);
    rela.link = 2;
    rela.info = 4;
    rela.entry_size = 24;
    let bytes = elf(
        RELOCATABLE,
        X86_64,
        vec![
            text_part(0, 0x20),
            table,
            strings,
            part(".debug_info", PROGBITS, 0, 0, vec![7; 24]),
            rela,
            part(".debug_str.dwo", PROGBITS, 0, 0, b"text\0".to_vec()),
        ],
    );
    let file = parse_elf(&bytes, ElfInputKind::Image).unwrap();
    let debug = file.section_named(".debug_info").unwrap();
    assert!(is_debug_section(&debug));
    let relocations = file.relocations(debug.index);
    assert_eq!(relocations.len(), 3);
    assert_eq!(relocations[0].kind, "Absolute");
    assert_eq!(relocations[0].encoding, "Generic");
    assert_eq!(relocations[0].target, RelocationTarget::Symbol(1));
    assert_eq!(relocations[1].addend, -1);
    assert!(!relocations[0].implicit_addend);
    let layout = AddressLayout::new(&file).unwrap();
    assert!(layout.is_relocatable());
    let base = layout.ranges()[0].start;
    assert_eq!(layout.ranges()[0].end, base + 0x20);
    let section = load_named_section(&file, ".debug_info", &layout).unwrap();
    assert_eq!(section.data, vec![7; 24]);
    assert_eq!(section.relocations.apply(0, 99), base + 8 + 4);
    assert_eq!(section.relocations.apply(8, 99), base + 8 - 1);
    assert_eq!(section.relocations.apply(16, 99), 99);
    let missing = load_named_section(&file, ".debug_line", &layout).unwrap();
    assert!(missing.data.is_empty());
    let split = SectionSet::load(&file, &layout, SetKind::Split, true).unwrap();
    assert_eq!(split.section(".debug_str").data, b"text\0");
    assert!(split.section(".debug_str.dwo").data.is_empty());
    assert!(split.section(".debug_addr").data.is_empty());
    let whole = SectionSet::load(&file, &layout, SetKind::Whole, true).unwrap();
    assert_eq!(whole.section(".debug_info").data, vec![7; 24]);
    assert!(whole.section(".debug_str").data.is_empty());
    let functions = visit_symbols(&file, &layout).unwrap();
    assert_eq!(
        functions[0].range,
        AddressRange::new(base + 8, base + 12)
    );
}

#[test]
fn relocatable_sections_are_aligned() {
    assert_eq!(align_section(0).unwrap(), 0);
    assert_eq!(align_section(1).unwrap(), 16);
    assert_eq!(align_section(16).unwrap(), 16);
    assert_eq!(
        align_section(u64::MAX),
        Err(Error::Overflow("relocatable section alignment"))
    );
}

#[test]
fn companions_must_match_the_image() {
    let image_bytes = image();
    let file = parse_elf(&image_bytes, ElfInputKind::Image).unwrap();
    let same = elf(EXECUTABLE, X86_64, vec![note_part(&[0xab, 1, 2, 3])]);
    let other_id = elf(EXECUTABLE, X86_64, vec![note_part(&[9, 9, 9, 9])]);
    let no_id = elf(EXECUTABLE, X86_64, vec![text_part(0x1000, 4)]);
    let other_machine = elf(EXECUTABLE, AARCH64, vec![text_part(0x1000, 4)]);
    let check = |bytes: &[u8]| {
        let companion = parse_elf(bytes, ElfInputKind::Debug).unwrap();
        cross_check_elf_identity(&file, &companion, ElfInputKind::Debug)
    };
    assert!(check(&same).is_ok());
    assert!(check(&no_id).is_ok());
    assert_eq!(
        check(&other_id),
        Err(Error::CompanionMismatch {
            input: ElfInputKind::Debug,
            mismatch: CompanionMismatch::BuildId
        })
    );
    assert_eq!(
        check(&other_machine),
        Err(Error::CompanionMismatch {
            input: ElfInputKind::Debug,
            mismatch: CompanionMismatch::Architecture
        })
    );
    assert!(valid_debug_companion(&file, &same));
    assert!(!valid_debug_companion(&file, &other_id));
    assert!(!valid_debug_companion(&file, b"junk"));
    assert!(valid_supplementary(&same, &[0xab, 1, 2, 3]).unwrap());
    assert!(!valid_supplementary(&same, &[0xab]).unwrap());
    assert!(!valid_supplementary(b"junk", &[0xab]).unwrap());
    assert!(valid_debuginfod_response(
        Some(&file),
        &[0xab, 1, 2, 3],
        &same
    ));
    assert!(valid_debuginfod_response(None, &[9, 9, 9, 9], &other_id));
    assert!(!valid_debuginfod_response(
        Some(&file),
        &[9, 9, 9, 9],
        &other_id
    ));
    assert!(!valid_debuginfod_response(None, &[1], &no_id));
}

#[test]
fn linked_debug_files_need_their_checksum() {
    assert!(has_checksum(b"123456789", 0xcbf4_3926));
    assert!(!has_checksum(b"123456789", 0xcbf4_3927));
    assert!(has_checksum(b"", 0));
    let bytes = image();
    let file = parse_elf(&bytes, ElfInputKind::Image).unwrap();
    let sum = crc32fast::hash(&bytes);
    assert!(valid_linked_debug(&file, &bytes, sum));
    assert!(!valid_linked_debug(&file, &bytes, sum ^ 1));
}

#[test]
fn packages_have_a_unit_index() {
    assert!(!valid_dwp(&image()));
    let package = elf(
        EXECUTABLE,
        X86_64,
        vec![part(".debug_cu_index", PROGBITS, 0, 0, vec![0; 16])],
    );
    assert!(valid_dwp(&package));
    assert!(!valid_dwp(b"junk"));
}

#[test]
fn build_identifiers_name_files() {
    assert_eq!(build_id_text(&[0xab, 0x01, 0xff]), "ab01ff");
    assert_eq!(build_id_text(&[]), "");
    assert_eq!(
        build_id_path(&[0xab, 0x01, 0xff]),
        Some((String::from("ab"), String::from("01ff.debug")))
    );
    assert_eq!(build_id_path(&[0xab]), None);
}

#[test]
fn linked_files_are_searched_in_order() {
    assert_eq!(
        linked_candidates(true, true, 2),
        vec![
            Candidate::Sibling,
            Candidate::DebugDirectory,
            Candidate::Mirrored(0),
            Candidate::Mirrored(1),
        ]
    );
    assert_eq!(
        linked_candidates(true, false, 2),
        vec![Candidate::Sibling, Candidate::DebugDirectory]
    );
    assert!(linked_candidates(false, false, 2).is_empty());
}

#[test]
fn server_responses_are_judged() {
    let bytes = image();
    let file = parse_elf(&bytes, ElfInputKind::Image).unwrap();
    let server = String::from("https://server");
    let id = [0xab, 1, 2, 3];
    let judge = |outcome: FetchOutcome, limit: u64| {
        judge_fetch(outcome, &server, Some(&file), &id, "debug file", limit)
    };
    let text = |step: FetchStep| match step {
        FetchStep::Warn(warning) => {
            let warning: ConversionWarning = warning;
            warning.message()
        }
        FetchStep::Continue => String::from("continue"),
        FetchStep::Store(bytes) => format!("store {}", bytes.len()),
    };
    assert_eq!(text(judge(FetchOutcome::Nothing, 10)), "continue");
    assert_eq!(
        text(judge(FetchOutcome::InvalidServer(String::from("bad")), 10)),
        "debuginfod https://server: invalid server: bad"
    );
    assert_eq!(
        text(judge(FetchOutcome::RequestFailed(String::from("down")), 10)),
        "debuginfod https://server: request for ab010203 failed: down"
    );
    let received = |bytes: &[u8]| FetchOutcome::Received {
        url: String::from("https://mirror"),
        bytes: bytes.to_vec(),
    };
    assert_eq!(
        text(judge(received(&bytes), 10)),
        "debuginfod https://mirror: response was rejected: response exceeds the 10-byte limit"
    );
    assert_eq!(
        text(judge(received(b"junk"), 10)),
        "debuginfod https://mirror: response does not match the requested debug file build ID or architecture"
    );
    assert_eq!(
        text(judge(received(&bytes), 1 << 20)),
        format!("store {}", bytes.len())
    );
    assert_eq!(
        text(judge(
            FetchOutcome::ReadFailed {
                url: String::from("https://mirror"),
                reason: String::from("reset"),
            },
            10
        )),
        "debuginfod https://mirror: response was rejected: reset"
    );
    assert_eq!(
        client_warning("no tls").message(),
        "debuginfod: failed to create HTTP client: no tls"
    );
    assert_eq!(
        cache_warning(String::from("/cache"), "full").message(),
        "debuginfod /cache: failed to cache response: full"
    );
}

#[test]
fn decompressed_output_is_limited() {
    let mut output = LimitedOutput::new(5);
    assert_eq!(output.take(b"abc"), Ok(3));
    assert_eq!(
        output.take(b"def"),
        Err(String::from("decompressed data exceeds the 5-byte limit"))
    );
    assert_eq!(output.take(b"de"), Ok(2));
    assert_eq!(output.into_inner(), b"abcde");
}

#[test]
fn symbols_become_functions() {
    let bytes = image();
    let inputs = ElfInputs::new(&bytes);
    let prepared = symbols_only()
        .prepare(&inputs, Ok(None), nothing_shared())
        .unwrap();
    let report = prepared.finish::<String>();
    assert_eq!(report.stats.symbol_functions, 2);
    assert_eq!(report.stats.rejected_ranges, 1);
    assert!(report.warnings.is_empty());
    assert!(report.discovered_debug.is_none());
    let report = report.with_discovery(
        Vec::new(),
        Vec::new(),
        Some(String::from("app.debug")),
        None,
        None,
    );
    assert_eq!(report.discovered_debug.as_deref(), Some("app.debug"));
    let output = report.builder.to_bytes().unwrap();
    let gsym = Gsym::parse(&output).unwrap();
    assert_eq!(gsym.header().endian, Endian::Little);
    assert_eq!(gsym.header().base_address, 0x1000);
    assert_eq!(gsym.build_id(), [0xab, 1, 2, 3]);
    assert_eq!(
        gsym.lookup(0x1024).unwrap().unwrap().frames()[0].name,
        b"helper"
    );
}

#[test]
fn symbols_of_several_files_are_distinct() {
    let image_bytes = image();
    let [table, strings] = symbol_parts(
        [".symtab", ".strtab"],
        SYMTAB,
        3,
        &[
            ("main", 0x12, 1, 0x1000, 0x20),
            ("extra", 0x12, 1, 0x1040, 0x10),
        ],
    );
    let symbols = elf(
        EXECUTABLE,
        X86_64,
        vec![text_part(0x1000, 0x100), table, strings],
    );
    let inputs = ElfInputs::new(&image_bytes).with_symbols(&symbols);
    let report = symbols_only()
        .prepare(&inputs, Ok(None), nothing_shared())
        .unwrap()
        .finish::<String>();
    assert_eq!(report.stats.symbol_functions, 3);
    let names: Vec<&[u8]> = report
        .builder
        .functions()
        .iter()
        .map(|function| function.name.as_slice())
        .collect();
    assert_eq!(names, [&b"main"[..], b"helper", b"extra"]);
    let inputs = ElfInputs::new(&image_bytes).with_symbols(&image_bytes);
    let shared = SharedInputs {
        symbols_image: true,
        ..nothing_shared()
    };
    let report = symbols_only()
        .prepare(&inputs, Ok(None), shared)
        .unwrap()
        .finish::<String>();
    assert_eq!(report.stats.symbol_functions, 2);
}

#[test]
fn embedded_debug_files_are_used() {
    let [table, strings] = symbol_parts(
        [".symtab", ".strtab"],
        SYMTAB,
        3,
        &[("hidden", 0x12, 1, 0x1050, 0x10)],
    );
    let embedded = elf(
        EXECUTABLE,
        X86_64,
        vec![text_part(0x1000, 0x100), table, strings],
    );
    let mut packed = Vec::new();
    lzma_rs::xz_compress(&mut embedded.as_slice(), &mut packed).unwrap();
    let bytes = elf(
        EXECUTABLE,
        X86_64,
        vec![
            text_part(0x1000, 0x100),
            part(".gnu_debugdata", PROGBITS, 0, 0, packed.clone()),
        ],
    );
    let file = parse_elf(&bytes, ElfInputKind::Image).unwrap();
    assert_eq!(gnu_debugdata(&file).unwrap(), Some(packed.clone()));
    let converter = symbols_only();
    let inputs = ElfInputs::new(&bytes);
    let unpacked = match converter.embedded_debug_data(&inputs).unwrap() {
        Some(unpacked) => unpacked,
        other => panic!("{other:?}"),
    };
    assert_eq!(unpacked, embedded);
    let prepared = converter
        .prepare(&inputs, Ok(Some(unpacked)), nothing_shared())
        .unwrap();
    assert_eq!(prepared.embedded(), &Some(embedded));
    let report = prepared.finish::<String>();
    assert_eq!(report.builder.functions()[0].name, b"hidden");
    let prepared = converter
        .prepare(&inputs, Ok(Some(b"junk".to_vec())), nothing_shared())
        .unwrap();
    assert_eq!(prepared.embedded(), &None);
    let report = prepared.finish::<String>();
    assert_eq!(report.warnings.len(), 1);
    assert!(matches!(
        report.warnings[0],
        ConversionWarning::EmbeddedDebugData { .. }
    ));
    let with_debug = ElfInputs::new(&bytes).with_debug(&bytes);
    assert!(matches!(
        converter.embedded_debug_data(&with_debug),
        Ok(None)
    ));
}

fn with_debugdata(stream: Vec<u8>) -> Vec<u8> {
    elf(
        EXECUTABLE,
        X86_64,
        vec![
            text_part(0x1000, 0x100),
            part(".gnu_debugdata", PROGBITS, 0, 0, stream),
        ],
    )
}

fn unpack(image: &[u8], maximum_size: u64) -> Result<Option<Vec<u8>>, Error> {
    let file = parse_elf(image, ElfInputKind::Image).unwrap();
    unpack_gnu_debugdata(&file, maximum_size)
}

#[test]
fn embedded_debug_files_are_unpacked_up_to_a_limit() {
    let mut packed = Vec::new();
    lzma_rs::xz_compress(&mut &b"debug file"[..], &mut packed).unwrap();
    let bytes = with_debugdata(packed.clone());
    for limit in [10, 11, u64::MAX] {
        match unpack(&bytes, limit) {
            Ok(Some(unpacked)) => assert_eq!(unpacked, b"debug file"),
            other => panic!("{other:?}"),
        }
    }
    let message = unpack(&bytes, 9).unwrap_err().message();
    assert!(message.contains("decompressed data exceeds the 9-byte limit"));
    assert!(message.contains(".gnu_debugdata XZ stream"));
    packed.truncate(20);
    assert!(unpack(&with_debugdata(packed), 100).is_err());
    assert!(matches!(
        unpack(&image(), 100),
        Ok(None)
    ));
}

#[test]
fn full_words_matter_in_footers_only() {
    for size in [0, 1, 3, 4, 5, 8, 12, 100] {
        let full = vec![0xff; size];
        let mut packed = Vec::new();
        lzma_rs::xz_compress(&mut full.as_slice(), &mut packed).unwrap();
        assert_eq!(unpack(&with_debugdata(packed.clone()), 100), Ok(Some(full)));
        let footer = packed.len() - 8;
        packed[footer..footer + 4].fill(0xff);
        let message = unpack(&with_debugdata(packed), 100).unwrap_err().message();
        assert!(message.contains("index size in the footer overflows"));
    }
}

#[test]
fn data_that_looks_like_an_index_is_unpacked() {
    let mut index = vec![0; 4];
    index.extend_from_slice(&crc32fast::hash(&[0; 4]).to_le_bytes());
    index.extend_from_slice(&[1, 2, 3, 4, 0xff, 0xff, 0xff, 0xff]);
    for shift in 0..4 {
        let mut data = vec![7; shift];
        data.extend_from_slice(&index);
        let mut packed = Vec::new();
        lzma_rs::xz_compress(&mut data.as_slice(), &mut packed).unwrap();
        assert!(packed.windows(index.len()).any(|window| window == index));
        assert_eq!(unpack(&with_debugdata(packed), 100), Ok(Some(data)));
    }
}

#[test]
fn the_third_full_word_in_a_row_is_refused() {
    let bytes = [0xff; 20];
    let mut word = [0; 4];
    let refused = Err(OVERFLOWING_FOOTER.to_string());
    let mut input = StreamInput::new(&bytes);
    assert_eq!(input.read_into(&mut word), Ok(4));
    assert_eq!(word, [0xff; 4]);
    assert_eq!(input.read_into(&mut word), Ok(4));
    assert_eq!(input.read_into(&mut word), refused);
    assert_eq!(input.rest().len(), 12);
    assert_eq!(input.read_into(&mut word[..1]), Ok(1));
    assert_eq!(input.read_into(&mut word), Ok(4));
    assert_eq!(input.read_into(&mut word), Ok(4));
    assert_eq!(input.read_into(&mut word), Ok(3));
    assert_eq!(input.read_into(&mut word), Ok(0));
    let mut input = StreamInput::new(&bytes);
    assert_eq!(input.read_into(&mut word), Ok(4));
    assert_eq!(input.read_into(&mut word), Ok(4));
    input.pass(1);
    assert_eq!(input.read_into(&mut word), Ok(4));
    input.pass(100);
    assert!(input.rest().is_empty());
    let mut input = StreamInput::new(&[1, 2, 3, 4, 5, 6, 7, 8, 9, 10, 11, 12]);
    for first in [1, 5, 9] {
        assert_eq!(input.read_into(&mut word), Ok(4));
        assert_eq!(word[0], first);
    }
}

#[test]
fn images_without_code_are_refused() {
    let bytes = elf(EXECUTABLE, X86_64, vec![note_part(&[1, 2])]);
    let inputs = ElfInputs::new(&bytes);
    assert_eq!(
        symbols_only()
            .prepare(&inputs, Ok(None), nothing_shared())
            .map(|_| ()),
        Err(Error::InvalidModel("ELF image has no executable sections"))
    );
}

#[test]
fn mismatched_companions_stop_a_conversion() {
    let bytes = image();
    let other = elf(EXECUTABLE, X86_64, vec![note_part(&[9, 9, 9, 9])]);
    let machine = elf(EXECUTABLE, AARCH64, vec![text_part(0x1000, 4)]);
    let converter = symbols_only();
    let prepare = |inputs: ElfInputs<'_>| {
        converter
            .prepare(&inputs, Ok(None), nothing_shared())
            .map(|_| ())
    };
    assert!(matches!(
        prepare(ElfInputs::new(&bytes).with_debug(&other)),
        Err(Error::CompanionMismatch {
            input: ElfInputKind::Debug,
            mismatch: CompanionMismatch::BuildId
        })
    ));
    assert!(matches!(
        prepare(ElfInputs::new(&bytes).with_symbols(&other)),
        Err(Error::CompanionMismatch {
            input: ElfInputKind::Symbols,
            ..
        })
    ));
    assert!(matches!(
        prepare(ElfInputs::new(&bytes).with_dwp(&machine)),
        Err(Error::CompanionMismatch {
            input: ElfInputKind::Dwp,
            mismatch: CompanionMismatch::Architecture
        })
    ));
    assert!(matches!(
        prepare(ElfInputs::new(&bytes).with_supplementary(b"junk")),
        Err(Error::Object {
            input: ElfInputKind::Supplementary,
            ..
        })
    ));
}

#[test]
fn options_decide_what_is_searched() {
    let mut options = options();
    assert!(options.include_symbols);
    assert_eq!(
        options.dwarf,
        Some(DwarfImportOptions {
            inline_info: true,
            call_sites: false
        })
    );
    assert_eq!(options.debuginfod_max_download_size, 1 << 30);
    assert_eq!(options.gnu_debugdata_max_decompressed_size, 1 << 30);
    assert!(options.searches_debug_file());
    assert!(options.searches_dwarf_files());
    options.dwarf = None;
    assert!(options.searches_debug_file());
    assert!(!options.searches_dwarf_files());
    options.include_symbols = false;
    assert!(!options.wants_companions());
    assert!(!options.searches_debug_file());
    options.dwarf = Some(DwarfImportOptions::default());
    options.discovery = DiscoveryPolicy::Disabled;
    assert!(!options.searches_dwarf_files());
    let converter = ElfConverter::new(options);
    assert_eq!(converter.options().discovery, DiscoveryPolicy::Disabled);
}

#[test]
fn files_of_other_formats_are_no_elf_files() {
    let mut object = vec![0x64, 0x86, 0, 0];
    object.extend_from_slice(&[0; 60]);
    assert!(matches!(
        parse_elf(&object, ElfInputKind::Image).map(|_| ()),
        Err(Error::NotElf {
            input: ElfInputKind::Image
        })
    ));
    assert!(ObjectFile::parse(&object, ElfInputKind::Dwo).is_ok());
}
