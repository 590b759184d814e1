//! Tests of the import of DWARF data.
use std::collections::HashMap;

use gimli::{DwarfSections, EndianSlice, LittleEndian, SectionId};
use gsym::convert::dwarf::details::{extract_subprogram_details, DetailOptions};
use gsym::convert::dwarf::dies::{finish_call_sites, CallSiteFrame};
use gsym::convert::dwarf::lines::{LineSequenceRange, SequencedLine, UnitLines};
use gsym::convert::dwarf::import::ImportContext;
use gsym::convert::dwarf::model::{
    attribute_bytes, Address, Entry, FileName, LineProgram, LineRow, LineSequence, ListedRange,
    Number, Ranges, Reference, Target, Text, Unit, Units, DW_TAG_CALL_SITE,
    DW_TAG_INLINED_SUBROUTINE, DW_TAG_SUBPROGRAM,
};
use gsym::convert::dwarf::program::scan_line_sequence_offsets;
use gsym::convert::dwarf::ranges::{coalesce_ranges, is_live_range};
use gsym::convert::dwarf::sections::{
    calculate_relocation_value, debug_relocation_encoding_supported, DwarfRelocations,
    RelocationEncoding, RelocationEntry, RelocationKind,
};
use gsym::convert::dwarf::debug_info::SplitObject;
use gsym::convert::dwarf::units::{
    check_dwo, import_dwarf, DebugInfo, SplitData, SplitSources,
};
use gsym::convert::{ConversionStats, ConversionWarning};
use gsym::{AddressRange, CallSite, Error, GsymBuilder, LineEntry};

#[test]
fn dead_and_invalid_ranges_are_rejected_without_losing_live_ranges() {
    let live = [
        AddressRange::new(0x1000, 0x1100),
        AddressRange::new(0x2000, 0x2100),
    ];
    assert!(is_live_range(AddressRange::new(0x1010, 0x1020), &live));
    assert!(!is_live_range(AddressRange::new(0x1010, 0x1010), &live));
    assert!(!is_live_range(AddressRange::new(0x10f0, 0x2010), &live));
    assert!(!is_live_range(AddressRange::new(0x3000, 0x3010), &live));
    assert!(!is_live_range(
        AddressRange::new(0, u64::from(u32::MAX) + 1),
        &[AddressRange::new(0, u64::MAX)]
    ));
}

#[test]
fn debug_relocation_formulas_cover_absolute_relative_and_section_offsets() {
    assert!(debug_relocation_encoding_supported(
        RelocationKind::Absolute,
        RelocationEncoding::X86Signed
    ));
    assert!(debug_relocation_encoding_supported(
        RelocationKind::Relative,
        RelocationEncoding::Generic
    ));
    assert!(!debug_relocation_encoding_supported(
        RelocationKind::Relative,
        RelocationEncoding::X86Branch
    ));
    assert_eq!(
        calculate_relocation_value(RelocationKind::Absolute, 0x1200, 0, 0x40, -4).unwrap(),
        0x11fc
    );
    assert_eq!(
        calculate_relocation_value(RelocationKind::Relative, 0x1200, 0, 0x40, -4).unwrap(),
        0x11bc
    );
    assert_eq!(
        calculate_relocation_value(RelocationKind::SectionOffset, 0x1234, 0x1200, 0x40, 8,)
            .unwrap(),
        0x3c
    );

    let relocations = DwarfRelocations::new(vec![
        RelocationEntry {
            offset: 12,
            implicit_addend: false,
            value: 0x2000,
        },
        RelocationEntry {
            offset: 4,
            implicit_addend: true,
            value: 0x1000,
        },
    ])
    .unwrap();
    assert_eq!(relocations.apply(4, 0x24), 0x1024);
    assert_eq!(relocations.apply(12, 0x24), 0x2000);
    assert_eq!(relocations.apply(8, 0x24), 0x24);
    assert!(
        DwarfRelocations::new(vec![
            RelocationEntry {
                offset: 4,
                implicit_addend: false,
                value: 1,
            },
            RelocationEntry {
                offset: 4,
                implicit_addend: false,
                value: 2,
            },
        ])
        .is_err()
    );
}

#[test]
fn line_rows_clamp_only_inside_their_statement_sequence() {
    let lines = UnitLines {
        entries: vec![
            SequencedLine {
                entry: LineEntry {
                    address: 0x1000,
                    file: 1.into(),
                    line: 10,
                },
                statement_sequence: Some(0x29),
            },
            SequencedLine {
                entry: LineEntry {
                    address: 0x1018,
                    file: 1.into(),
                    line: 10,
                },
                statement_sequence: Some(0x29),
            },
            SequencedLine {
                entry: LineEntry {
                    address: 0x1020,
                    file: 1.into(),
                    line: 11,
                },
                statement_sequence: Some(0x29),
            },
            SequencedLine {
                entry: LineEntry {
                    address: 0x2000,
                    file: 2.into(),
                    line: 20,
                },
                statement_sequence: Some(0x40),
            },
        ],
        files: HashMap::new(),
        sequences: vec![
            LineSequenceRange {
                range: AddressRange::new(0x1000, 0x1100),
                statement_sequence: Some(0x29),
            },
            LineSequenceRange {
                range: AddressRange::new(0x2000, 0x2100),
                statement_sequence: Some(0x40),
            },
        ],
    };
    let (clamped, invalid) = lines.for_range(AddressRange::new(0x1010, 0x1030), Some(0x29));
    assert!(!invalid);
    let [first, second, ..] = clamped.as_slice() else {
        panic!("clamped range keeps at least two rows");
    };
    assert_eq!(first.address, 0x1010);
    assert_eq!(first.line, 10);
    assert_eq!(second.address, 0x1020);
    assert!(
        lines
            .for_range(AddressRange::new(0x1800, 0x1810), None)
            .0
            .is_empty()
    );
}

#[test]
fn statement_sequence_filtering_falls_back_only_for_invalid_offsets() {
    let lines = UnitLines {
        entries: vec![
            SequencedLine {
                entry: LineEntry {
                    address: 0x1000,
                    file: 1.into(),
                    line: 10,
                },
                statement_sequence: Some(0x29),
            },
            SequencedLine {
                entry: LineEntry {
                    address: 0x1000,
                    file: 2.into(),
                    line: 20,
                },
                statement_sequence: Some(0x40),
            },
        ],
        files: HashMap::new(),
        sequences: vec![
            LineSequenceRange {
                range: AddressRange::new(0x1000, 0x1100),
                statement_sequence: Some(0x29),
            },
            LineSequenceRange {
                range: AddressRange::new(0x1000, 0x1100),
                statement_sequence: Some(0x40),
            },
        ],
    };

    let (selected, invalid) = lines.for_range(AddressRange::new(0x1000, 0x1010), Some(0x40));
    assert!(!invalid);
    assert_eq!(selected.len(), 1);
    assert_eq!(selected.first().unwrap().line, 20);

    let (fallback, invalid) = lines.for_range(AddressRange::new(0x1000, 0x1010), Some(0x41));
    assert!(invalid);
    assert_eq!(fallback.len(), 2);
}

#[test]
fn line_rows_compact_repeated_locations_without_losing_equal_address_order() {
    let row = |address, file: u32, line| SequencedLine {
        entry: LineEntry {
            address,
            file: file.into(),
            line,
        },
        statement_sequence: Some(0x29),
    };
    let lines = UnitLines {
        entries: vec![
            row(0x1000, 1, 10),
            row(0x1004, 1, 10),
            row(0x1004, 1, 11),
            row(0x1004, 1, 10),
            row(0x1008, 1, 10),
            row(0x1008, 2, 10),
            row(0x100c, 2, 10),
        ],
        files: HashMap::new(),
        sequences: vec![LineSequenceRange {
            range: AddressRange::new(0x1000, 0x1010),
            statement_sequence: Some(0x29),
        }],
    };

    let (selected, invalid) = lines.for_range(AddressRange::new(0x1000, 0x1010), Some(0x29));

    assert!(!invalid);
    assert_eq!(
        selected
            .iter()
            .map(|row| (row.address, row.file.get(), row.line))
            .collect::<Vec<_>>(),
        [
            (0x1000, 1, 10),
            (0x1004, 1, 11),
            (0x1004, 1, 10),
            (0x1008, 2, 10),
        ]
    );
}

#[test]
fn line_instruction_scanner_records_exact_sequence_offsets() {
    let program = [
        0,
        2,
        gimli::constants::DW_LNE_set_address.0,
        0,
        1,
        0,
        1,
        gimli::constants::DW_LNE_end_sequence.0,
        1,
        0,
        1,
        gimli::constants::DW_LNE_end_sequence.0,
    ];
    let offsets = scan_line_sequence_offsets(&program, &[0; 12], 13, 0x29).unwrap();
    assert_eq!(offsets, [0x29, 0x31]);

    let error = scan_line_sequence_offsets(&[0, 2, 1], &[0; 12], 13, 0)
        .expect_err("truncated extended opcode must fail");
    assert!(matches!(
        error,
        Error::Malformed { ref detail, .. } if detail.text().contains("truncated")
    ));
}

#[test]
fn inline_range_unions_are_sorted_and_coalesced() {
    let mut ranges = vec![
        AddressRange::new(0x20, 0x30),
        AddressRange::new(0x10, 0x18),
        AddressRange::new(0x14, 0x24),
        AddressRange::new(0x10, 0x18),
        AddressRange::new(0x40, 0x48),
        AddressRange::new(0x48, 0x50),
    ];
    coalesce_ranges(&mut ranges);
    assert_eq!(
        ranges,
        [AddressRange::new(0x10, 0x30), AddressRange::new(0x40, 0x50),]
    );
}

#[test]
fn call_sites_are_finished_in_depth_first_postorder() {
    let call_site = |return_offset| CallSite {
        return_offset,
        ..CallSite::default()
    };
    let mut stack = vec![CallSiteFrame {
        die_depth: 1,
        call_site: call_site(1),
    }];
    stack.push(CallSiteFrame {
        die_depth: 2,
        call_site: call_site(2),
    });
    let mut output = Vec::new();
    finish_call_sites(&mut stack, 2, &mut output);
    stack.push(CallSiteFrame {
        die_depth: 2,
        call_site: call_site(3),
    });
    finish_call_sites(&mut stack, 0, &mut output);

    assert_eq!(
        output
            .iter()
            .map(|call_site| call_site.return_offset)
            .collect::<Vec<_>>(),
        [2, 3, 1]
    );
}

#[test]
fn non_inline_die_nesting_does_not_consume_the_inline_depth_limit() {
    let abbreviations = vec![
        1, 0x11, 1, 0, 0, // Compile unit with children.
        2, 0x2e, 1, 0, 0, // Subprogram with children.
        3, 0x0b, 1, 0, 0, // Lexical block with children.
        4, 0x1d, 0, // Inlined subroutine without children.
        0x03, 0x08, // DW_AT_name, DW_FORM_string.
        0x55, 0x17, // DW_AT_ranges, DW_FORM_sec_offset.
        0, 0, 0,
    ];
    let mut entries = vec![1, 2];
    entries.extend(std::iter::repeat_n(3, 300));
    entries.push(4);
    entries.extend_from_slice(b"deep_inline\0");
    entries.extend_from_slice(&0_u32.to_le_bytes());
    entries.extend(std::iter::repeat_n(0, 302));

    let mut debug_ranges = Vec::new();
    for (begin, end) in [
        (0x1018_u64, 0x1030_u64),
        (0x1010, 0x1020),
        (0x1010, 0x1020),
        (0x1040, 0x1050),
        (0, 0),
    ] {
        debug_ranges.extend_from_slice(&begin.to_le_bytes());
        debug_ranges.extend_from_slice(&end.to_le_bytes());
    }

    let unit_length = u32::try_from(7 + entries.len()).unwrap();
    let mut debug_info = Vec::new();
    debug_info.extend_from_slice(&unit_length.to_le_bytes());
    debug_info.extend_from_slice(&4_u16.to_le_bytes());
    debug_info.extend_from_slice(&0_u32.to_le_bytes());
    debug_info.push(8);
    debug_info.extend(entries);
    let sections = DwarfSections::load(|id| -> gimli::Result<Vec<u8>> {
        Ok(if id == SectionId::DebugAbbrev {
            abbreviations.clone()
        } else if id == SectionId::DebugInfo {
            debug_info.clone()
        } else if id == SectionId::DebugRanges {
            debug_ranges.clone()
        } else {
            Vec::new()
        })
    })
    .unwrap();
    let dwarf = sections.borrow(|section| EndianSlice::new(section, LittleEndian));
    let header = dwarf.units().next().unwrap().unwrap();
    let parsed = dwarf.unit(header).unwrap();
    let mut unit = Unit {
        offset: parsed.header.debug_info_offset().map(|offset| offset.0),
        length: parsed.header.length_including_self(),
        ..empty_unit()
    };
    let mut cursor = parsed.entries();
    while let Some(entry) = cursor.next_dfs().unwrap() {
        let mut ranges = Vec::new();
        let mut list = dwarf.die_ranges(&parsed, entry).unwrap();
        while let Some(range) = list.next().unwrap() {
            ranges.push(ListedRange {
                begin: range.begin,
                end: range.end,
                tombstone: parsed.is_tombstone_address(range.begin),
            });
        }
        unit.entries.push(Entry {
            offset: entry.offset().0,
            depth: entry.depth(),
            tag: entry.tag().0,
            name: entry
                .attr_value(gimli::constants::DW_AT_name)
                .map(|value| Text {
                    supplementary: false,
                    value: Ok(dwarf.attr_string(&parsed, value).unwrap().to_vec()),
                }),
            ranges: Ranges::Listed {
                ranges,
                failure: None,
            },
            ..bare_entry(0, 0, 0)
        });
    }
    let units = Units {
        units: Vec::new(),
        failure: None,
    };
    let mut warnings = Vec::new();
    let (inline, call_sites, count) = extract_subprogram_details(
        &DetailOptions {
            units: &units,
            supplementary: None,
            unit: &unit,
            file_indices: &HashMap::new(),
            function_range: AddressRange::new(0x1000, 0x1100),
            include_inlines: true,
            include_call_sites: false,
        },
        1,
        b"root",
        &mut warnings,
    )
    .unwrap();

    assert!(call_sites.is_empty());
    assert_eq!(count, 1);
    let root = inline.unwrap();
    let [child] = root.children.as_slice() else {
        panic!("expected exactly one inline child");
    };
    assert_eq!(child.name, b"deep_inline");
    assert_eq!(
        child.ranges,
        [
            AddressRange::new(0x1010, 0x1030),
            AddressRange::new(0x1040, 0x1050),
        ]
    );
}

fn empty_unit() -> Unit {
    Unit {
        offset: Some(0),
        length: 0x100,
        failure: None,
        dwo_id: None,
        dwarf64: false,
        line_program: None,
        entries: Vec::new(),
        entries_failure: None,
        targets: Vec::new(),
    }
}

fn bare_entry(offset: usize, depth: isize, tag: u16) -> Entry {
    Entry {
        offset,
        depth,
        tag,
        linkage_name: None,
        mips_linkage_name: None,
        name: None,
        abstract_origin: None,
        specification: None,
        decl_file: None,
        decl_line: None,
        call_file: None,
        call_line: None,
        call_return_pc: None,
        call_origin: None,
        statement_sequence: None,
        ranges: Ranges::Listed {
            ranges: Vec::new(),
            failure: None,
        },
    }
}

fn text(bytes: &[u8]) -> Option<Text> {
    Some(Text {
        supplementary: false,
        value: Ok(bytes.to_vec()),
    })
}

fn listed(ranges: &[(u64, u64)]) -> Ranges {
    Ranges::Listed {
        ranges: ranges
            .iter()
            .map(|(begin, end)| ListedRange {
                begin: *begin,
                end: *end,
                tombstone: *begin >= u64::MAX - 1,
            })
            .collect(),
        failure: None,
    }
}

/// A program with one file, whose only sequence covers the rows.
fn line_program(rows: &[(u64, u64)], end: u64) -> LineProgram {
    let mut records: Vec<LineRow> = rows
        .iter()
        .map(|(address, line)| LineRow {
            address: *address,
            end_sequence: false,
            file_index: 1,
            file: Some(0),
            line: Some(*line),
        })
        .collect();
    records.push(LineRow {
        address: end,
        end_sequence: true,
        file_index: 1,
        file: Some(0),
        line: None,
    });
    LineProgram {
        version: 4,
        dwarf64: false,
        offset: 0,
        header_length: 31,
        opcode_base: 13,
        standard_opcode_lengths: vec![0, 1, 1, 1, 1, 0, 0, 0, 1, 0, 0, 1],
        program: vec![0, 1, 1],
        header_files: 1,
        listed_files: 1,
        files: vec![FileName {
            path: Text {
                supplementary: false,
                value: Ok(b"main.c".to_vec()),
            },
            directory: text(b"/src"),
        }],
        sequences: Ok(vec![LineSequence {
            start: rows[0].0,
            end,
            rows: records,
            failure: None,
        }]),
    }
}

fn context() -> ImportContext {
    ImportContext {
        executable_ranges: vec![AddressRange::new(0x1000, 0x2000)],
        include_inlines: true,
        include_call_sites: true,
        builder: GsymBuilder::new(),
        stats: ConversionStats::default(),
        warnings: Vec::new(),
    }
}

fn not_split() -> SplitSources {
    SplitSources {
        object: SplitData::NotSearched,
        package: SplitData::NotSearched,
    }
}

fn info(units: Vec<Unit>) -> DebugInfo {
    let splits = units.iter().map(|_| not_split()).collect();
    DebugInfo {
        units: Units {
            units,
            failure: None,
        },
        splits,
        supplementary: None,
    }
}

#[test]
fn subprograms_become_functions_with_lines_inlines_and_call_sites() {
    let unit = Unit {
        line_program: Some(line_program(&[(0x1000, 5), (0x1010, 6)], 0x1100)),
        entries: vec![
            bare_entry(0xb, 0, 0x11),
            Entry {
                linkage_name: text(b"_Z4mainv"),
                name: text(b"main"),
                ranges: listed(&[(0x1000, 0x1040), (0, 0x10), (0x3000, 0x3010)]),
                ..bare_entry(0x20, 1, DW_TAG_SUBPROGRAM)
            },
            Entry {
                abstract_origin: Some(Reference::Unit(0x60)),
                call_file: Some(Number::FileIndex(1)),
                call_line: Some(Number::Unsigned(7)),
                ranges: listed(&[(0x1008, 0x1010), (0x1010, 0x1018), (0x1800, 0x1810)]),
                ..bare_entry(0x30, 2, DW_TAG_INLINED_SUBROUTINE)
            },
            Entry {
                call_return_pc: Some(Address::Known(0x1024)),
                call_origin: Some(Reference::DebugInfo(0x60)),
                ..bare_entry(0x40, 2, DW_TAG_CALL_SITE)
            },
            Entry {
                call_return_pc: Some(Address::Known(0x5000)),
                ..bare_entry(0x48, 2, DW_TAG_CALL_SITE)
            },
        ],
        targets: vec![Target {
            offset: 0x60,
            entry: Ok(Entry {
                name: text(b"callee"),
                ..bare_entry(0x60, 1, DW_TAG_SUBPROGRAM)
            }),
        }],
        ..empty_unit()
    };
    let mut context = context();
    import_dwarf(&mut context, &info(vec![unit])).unwrap();
    assert_eq!(context.stats.dwarf_functions, 1);
    assert_eq!(context.stats.inline_nodes, 1);
    assert_eq!(context.stats.line_rows, 2);
    assert_eq!(context.stats.rejected_ranges, 2);
    assert_eq!(
        context.warnings,
        [ConversionWarning::RejectedRange {
            range: AddressRange::new(0x3000, 0x3010)
        }]
    );
    let function = &context.builder.functions()[0];
    assert_eq!(function.name, b"_Z4mainv");
    assert_eq!(function.range, AddressRange::new(0x1000, 0x1040));
    assert_eq!(
        function.lines,
        [
            LineEntry::new(0x1000, 1.into(), 5),
            LineEntry::new(0x1010, 1.into(), 6),
        ]
    );
    let root = function.inline.as_ref().unwrap();
    assert_eq!(root.name, b"_Z4mainv");
    assert_eq!(root.children[0].name, b"callee");
    assert_eq!(
        root.children[0].ranges,
        [AddressRange::new(0x1008, 0x1018)]
    );
    assert_eq!(root.children[0].call_file.get(), 1);
    assert_eq!(root.children[0].call_line, 7);
    assert_eq!(function.call_sites.len(), 1);
    assert_eq!(function.call_sites[0].return_offset, 0x24);
    assert_eq!(function.call_sites[0].match_regex, [b"callee".to_vec()]);
    let bytes = context.builder.to_bytes().unwrap();
    let gsym = gsym::Gsym::parse(&bytes).unwrap();
    let hit = gsym.lookup(0x1009).unwrap().unwrap();
    assert_eq!(hit.frames()[0].name, b"callee");
    assert_eq!(hit.frames()[1].line, 7);
}

#[test]
fn declarations_stand_in_for_missing_rows() {
    let unit = Unit {
        line_program: Some(line_program(&[(0x1000, 5)], 0x1008)),
        entries: vec![
            Entry {
                name: text(b"later"),
                specification: Some(Reference::Unit(0x60)),
                ranges: listed(&[(0x1100, 0x1110)]),
                ..bare_entry(0x20, 1, DW_TAG_SUBPROGRAM)
            },
            Entry {
                name: text(b"wrong"),
                decl_file: Some(Number::Unsigned(9)),
                decl_line: Some(Number::Unsigned(1)),
                ranges: listed(&[(0x1200, 0x1210)]),
                ..bare_entry(0x30, 1, DW_TAG_SUBPROGRAM)
            },
        ],
        targets: vec![Target {
            offset: 0x60,
            entry: Ok(Entry {
                decl_file: Some(Number::FileIndex(1)),
                decl_line: Some(Number::Unsigned(44)),
                ..bare_entry(0x60, 1, DW_TAG_SUBPROGRAM)
            }),
        }],
        ..empty_unit()
    };
    let mut context = context();
    context.include_inlines = false;
    import_dwarf(&mut context, &info(vec![unit])).unwrap();
    let functions = context.builder.functions();
    assert_eq!(
        functions[0].lines,
        [LineEntry::new(0x1100, 1.into(), 44)]
    );
    assert!(functions[1].lines.is_empty());
    assert_eq!(
        context.warnings,
        [ConversionWarning::InvalidDeclarationFile {
            die_offset: 0x30,
            index: 9
        }]
    );
}

#[test]
fn references_that_go_in_circles_end() {
    let unit = Unit {
        entries: vec![Entry {
            abstract_origin: Some(Reference::Unit(0x60)),
            ranges: listed(&[(0x1000, 0x1010)]),
            ..bare_entry(0x20, 1, DW_TAG_SUBPROGRAM)
        }],
        targets: vec![Target {
            offset: 0x60,
            entry: Ok(Entry {
                specification: Some(Reference::Unit(0x60)),
                ..bare_entry(0x60, 1, DW_TAG_SUBPROGRAM)
            }),
        }],
        ..empty_unit()
    };
    let mut context = context();
    import_dwarf(&mut context, &info(vec![unit])).unwrap();
    assert!(context.builder.functions().is_empty());
    assert_eq!(context.warnings, [ConversionWarning::NoInlineRecords]);
}

#[test]
fn failures_of_the_parser_take_effect_where_they_are_reached() {
    let unit = Unit {
        entries: vec![Entry {
            name: text(b"first"),
            ranges: listed(&[(0x1000, 0x1010)]),
            ..bare_entry(0x20, 1, DW_TAG_SUBPROGRAM)
        }],
        entries_failure: Some(String::from("bad abbreviation")),
        ..empty_unit()
    };
    let mut broken = context();
    broken.include_inlines = false;
    broken.include_call_sites = false;
    assert_eq!(
        import_dwarf(&mut broken, &info(vec![unit])),
        Err(Error::Dwarf {
            source: String::from("bad abbreviation")
        })
    );
    assert_eq!(broken.builder.functions().len(), 1);
    let unit = Unit {
        failure: Some(String::from("bad unit")),
        ..empty_unit()
    };
    assert_eq!(
        import_dwarf(&mut context(), &info(vec![unit])),
        Err(Error::Dwarf {
            source: String::from("bad unit")
        })
    );
    let unit = Unit {
        entries: vec![Entry {
            name: text(b"ranged"),
            ranges: Ranges::Failed(String::from("bad list")),
            ..bare_entry(0x20, 1, DW_TAG_SUBPROGRAM)
        }],
        ..empty_unit()
    };
    let mut skipped = context();
    import_dwarf(&mut skipped, &info(vec![unit])).unwrap();
    assert_eq!(skipped.stats.rejected_ranges, 1);
    assert_eq!(
        skipped.warnings[0],
        ConversionWarning::MalformedRanges {
            stopped: false,
            reason: String::from("bad list")
        }
    );
}

#[test]
fn skeleton_units_use_split_data() {
    let skeleton = |dwo_id| Unit {
        dwo_id: Some(dwo_id),
        line_program: Some(line_program(&[(0x1000, 5)], 0x1100)),
        ..empty_unit()
    };
    let split = || Units {
        units: vec![Unit {
            entries: vec![Entry {
                name: text(b"split"),
                ranges: listed(&[(0x1000, 0x1010)]),
                ..bare_entry(0x20, 1, DW_TAG_SUBPROGRAM)
            }],
            ..empty_unit()
        }],
        failure: None,
    };
    let mut found = info(vec![skeleton(7)]);
    found.splits[0].object = SplitData::Found(split());
    let mut first = context();
    import_dwarf(&mut first, &found).unwrap();
    assert_eq!(first.stats.split_dwarf_units, 1);
    assert_eq!(first.builder.functions()[0].name, b"split");
    assert_eq!(first.builder.functions()[0].lines.len(), 1);
    let mut packaged = info(vec![skeleton(7)]);
    packaged.splits[0] = SplitSources {
        object: SplitData::Failed(String::from("denied")),
        package: SplitData::Found(split()),
    };
    let mut second = context();
    import_dwarf(&mut second, &packaged).unwrap();
    assert_eq!(second.stats.split_dwarf_units, 1);
    let mut missing = info(vec![skeleton(0x1f)]);
    missing.splits[0] = SplitSources {
        object: SplitData::Failed(String::from("denied")),
        package: SplitData::Absent,
    };
    let mut third = context();
    third.include_inlines = false;
    import_dwarf(&mut third, &missing).unwrap();
    assert_eq!(third.stats.split_dwarf_units, 0);
    assert_eq!(
        third.warnings[0].message(),
        "split DWARF unit 0x1f has no usable .dwo or .dwp data: DWO: denied; unit is absent from the DWP index"
    );
}

#[test]
fn split_files_are_checked_and_tried_in_order() {
    assert!(check_dwo(Some(Some(7)), 7, "a.dwo").is_ok());
    assert_eq!(
        check_dwo(Some(Some(8)), 7, "a.dwo").map_err(|error| error.message()),
        Err(String::from("malformed DWO file: ID mismatch for a.dwo"))
    );
    assert_eq!(
        check_dwo(None, 7, "a.dwo").map_err(|error| error.message()),
        Err(String::from(
            "malformed DWO file: no compilation unit in a.dwo"
        ))
    );
    assert!(check_dwo(Some(None), 7, "a.dwo").is_err());
    let outcome = SplitObject::Absent.after(SplitObject::Failed(String::from("one")));
    assert!(matches!(&outcome, SplitObject::Failed(reason) if reason == "one"));
    let outcome = outcome.after(SplitObject::Absent);
    assert!(matches!(outcome, SplitObject::Failed(_)));
}

#[test]
fn strings_of_a_missing_supplementary_file_are_empty() {
    let lost = Text {
        supplementary: true,
        value: Ok(b"name".to_vec()),
    };
    assert_eq!(attribute_bytes(&lost, false), Ok(Vec::new()));
    assert_eq!(attribute_bytes(&lost, true), Ok(b"name".to_vec()));
    let failed = Text {
        supplementary: false,
        value: Err(String::from("bad offset")),
    };
    assert_eq!(
        attribute_bytes(&failed, true),
        Err(Error::Dwarf {
            source: String::from("bad offset")
        })
    );
}

#[test]
fn relocation_kinds_that_are_not_supported_are_refused() {
    assert!(calculate_relocation_value(RelocationKind::Got, 1, 2, 3, 4).is_err());
    assert_eq!(
        calculate_relocation_value(RelocationKind::Absolute, u64::MAX, 0, 0, 2).unwrap(),
        1
    );
    let none = DwarfRelocations::empty();
    assert_eq!(none.apply(0, 5), 5);
}
