//! Tests of what the documentation promises of whole files.
use gsym::format::v2::{parse_directory, Header};
use gsym::{
    AddressRange, Endian, FileEntry, FileIndex, FrameLookupOptions, Function, FunctionSetPolicy,
    Gsym, GsymBuilder, GsymVersion, InlineNode, LineEntry, LookupScratch, TranscodeOptions,
};

fn range(start: u64, end: u64) -> AddressRange {
    AddressRange::new(start, end)
}

fn names(bytes: &[u8], address: u64) -> Vec<Vec<u8>> {
    Gsym::parse(bytes)
        .unwrap()
        .lookup(address)
        .unwrap()
        .unwrap()
        .frames()
        .iter()
        .map(|frame| frame.name.to_vec())
        .collect()
}

#[test]
fn the_last_frame_is_the_function_though_its_root_has_no_name() {
    let mut builder = GsymBuilder::new();
    builder
        .add_function(Function {
            inline: Some(InlineNode {
                ranges: vec![range(0x1000, 0x1100)],
                children: vec![InlineNode {
                    ranges: vec![range(0x1010, 0x1020)],
                    name: b"c".to_vec(),
                    ..InlineNode::default()
                }],
                ..InlineNode::default()
            }),
            ..Function::new(range(0x1000, 0x1100), b"f")
        })
        .unwrap();
    let bytes = builder.to_bytes().unwrap();
    assert_eq!(names(&bytes, 0x1014), [b"c".to_vec(), b"f".to_vec()]);
    assert_eq!(names(&bytes, 0x1080), [b"f".to_vec()]);
    let gsym = Gsym::parse(&bytes).unwrap();
    let hit = gsym.lookup(0x1014).unwrap().unwrap();
    assert_eq!(hit.frames()[1].offset, 0x14);
    assert!(!hit.frames()[1].inlined);
}

#[test]
fn addresses_behind_a_nested_function_belong_to_the_outer_one() {
    let mut builder = GsymBuilder::new();
    builder
        .add_function(Function::new(range(0x1000, 0x1100), b"outer"))
        .unwrap();
    builder
        .add_function(Function::new(range(0x1010, 0x1020), b"inner"))
        .unwrap();
    let bytes = builder.to_bytes().unwrap();
    assert_eq!(names(&bytes, 0x1018), [b"inner".to_vec()]);
    assert_eq!(names(&bytes, 0x1050), [b"outer".to_vec()]);
    let gsym = Gsym::parse(&bytes).unwrap();
    let mut scratch = LookupScratch::default();
    let mut frames = Vec::new();
    gsym.for_each_frame(0x1050, FrameLookupOptions::default(), &mut scratch, &mut frames)
        .unwrap();
    assert_eq!(frames.len(), 1);
    assert_eq!(frames[0].name, b"outer");
    assert!(gsym.lookup(0x1100).unwrap().is_none());
}

#[test]
fn files_do_not_depend_on_the_order_of_insertion() {
    let first = || Function {
        lines: vec![LineEntry::new(0x1000, FileIndex::new(1), 1)],
        ..Function::new(range(0x1000, 0x1010), b"f")
    };
    let second = || Function {
        lines: vec![LineEntry::new(0x1000, FileIndex::new(1), 2)],
        ..Function::new(range(0x1000, 0x1010), b"f")
    };
    let write = |functions: Vec<Function>, policy| {
        let mut builder = GsymBuilder::new().function_set(policy);
        builder.add_file(FileEntry::new(b"/src", b"main.c")).unwrap();
        for function in functions {
            builder.add_function(function).unwrap();
        }
        builder.to_bytes().unwrap()
    };
    for policy in [
        FunctionSetPolicy::Deduplicate,
        FunctionSetPolicy::MergeEqualRanges,
        FunctionSetPolicy::Preserve,
    ] {
        assert_eq!(
            write(vec![first(), second()], policy),
            write(vec![second(), first()], policy)
        );
    }
}

fn with_alias(policy: FunctionSetPolicy) -> Vec<u8> {
    let mut builder = GsymBuilder::new().function_set(policy);
    builder
        .add_function(Function {
            merged: vec![Function::new(range(0x1000, 0x1010), b"alias")],
            ..Function::new(range(0x1000, 0x1010), b"f")
        })
        .unwrap();
    builder.to_bytes().unwrap()
}

#[test]
fn aliases_are_written_only_where_they_are_wanted() {
    let merged = |bytes: &[u8]| {
        let model = Gsym::parse(bytes).unwrap().decode_all().unwrap();
        model.functions[0].merged.len()
    };
    assert_eq!(merged(&with_alias(FunctionSetPolicy::Deduplicate)), 0);
    assert_eq!(merged(&with_alias(FunctionSetPolicy::MergeEqualRanges)), 1);
    assert_eq!(merged(&with_alias(FunctionSetPolicy::Preserve)), 1);
}

/// A file with functions of one range, a repeated row and an alias.
fn verbatim() -> Vec<u8> {
    let mut builder = GsymBuilder::new().function_set(FunctionSetPolicy::Preserve);
    let main = builder.add_file(FileEntry::new(b"/src", b"main.c")).unwrap();
    for name in [&b"a"[..], &b"b"[..]] {
        builder
            .add_function(Function {
                lines: vec![
                    LineEntry::new(0x1000, main, 7),
                    LineEntry::new(0x1004, main, 7),
                ],
                merged: vec![Function::new(range(0x1000, 0x1010), b"alias")],
                ..Function::new(range(0x1000, 0x1010), name)
            })
            .unwrap();
    }
    builder
        .add_function(Function::new(range(0x2000, 0x2010), b"c"))
        .unwrap();
    builder.to_bytes().unwrap()
}

#[test]
fn a_default_transcode_is_a_pure_re_encode() {
    let bytes = verbatim();
    let before = Gsym::parse(&bytes).unwrap().decode_all().unwrap();
    let output = Gsym::parse(&bytes)
        .unwrap()
        .transcode(TranscodeOptions::default())
        .unwrap();
    let after = Gsym::parse(&output).unwrap().decode_all().unwrap();
    assert_eq!(after.functions, before.functions);
    assert_eq!(after.functions.len(), 3);
    assert_eq!(after.functions[0].lines.len(), 2);
    assert_eq!(after.functions[0].merged.len(), 1);
    assert_eq!(after.files, before.files);
}

#[test]
fn segments_count_the_functions_that_their_files_hold() {
    let bytes = verbatim();
    let model = Gsym::parse(&bytes).unwrap().decode_all().unwrap();
    for target in [1, bytes.len()] {
        let segments = model.segments(target, TranscodeOptions::default()).unwrap();
        let total: usize = segments.iter().map(|segment| segment.function_count).sum();
        assert_eq!(total, 3);
        for segment in &segments {
            let file = Gsym::parse(&segment.bytes).unwrap();
            assert_eq!(segment.function_count, file.header().address_count as usize);
        }
    }
}

#[test]
fn every_written_file_verifies() {
    for version in [GsymVersion::V1, GsymVersion::V2] {
        for endian in [Endian::Little, Endian::Big] {
            let mut builder = GsymBuilder::new().version(version).endian(endian);
            builder
                .add_file(FileEntry::new(b"/a\0b", b"c\0d"))
                .unwrap();
            builder
                .add_function(Function::new(range(0x1000, 0x1010), b"before\0after"))
                .unwrap();
            let bytes = builder.to_bytes().unwrap();
            let gsym = Gsym::parse(&bytes).unwrap();
            assert!(gsym.verify().is_ok());
            assert_eq!(names(&bytes, 0x1000), [b"before".to_vec()]);
            let (directory, basename) = gsym.file(FileIndex::new(1)).unwrap();
            assert_eq!(directory, b"/a");
            assert_eq!(basename, b"c");
        }
    }
}

#[test]
fn directories_are_read_back_and_no_prefix_of_them_is() {
    for endian in [Endian::Little, Endian::Big] {
        let mut builder = GsymBuilder::new().version(GsymVersion::V2).endian(endian);
        builder
            .add_function(Function::new(range(0x1000, 0x1010), b"f"))
            .unwrap();
        let bytes = builder.to_bytes().unwrap();
        let (header, found) = Header::decode(&bytes).unwrap();
        assert_eq!(found, endian);
        let directory = parse_directory(&bytes, endian, &header).unwrap();
        assert!(directory.entries.len() >= 4);
        for end in 0..directory.end_offset {
            assert!(parse_directory(&bytes[..end], endian, &header).is_err());
        }
    }
}
