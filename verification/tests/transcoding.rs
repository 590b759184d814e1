//! Tests of decoding, transcoding and segmentation.
use gsym::{
    AddressRange, CallSite, DecodedGsym, Endian, Error, FileEntry, Function, FunctionSetPolicy,
    Gsym, GsymBuilder, GsymVersion, InlineNode, LineEntry, TranscodeOptions,
};

fn sample() -> Vec<u8> {
    let mut builder = GsymBuilder::new()
        .base_address(0x1000)
        .build_id(vec![9, 8, 7]);
    let unused = builder.add_file(FileEntry::new(b"/src", b"unused.c")).unwrap();
    let main = builder.add_file(FileEntry::new(b"/src", b"main.c")).unwrap();
    let call = builder.add_file(FileEntry::new(b"/src", b"call.c")).unwrap();
    assert_eq!(unused.get(), 1);
    for index in 0..6_u64 {
        let start = 0x1000 + index * 0x100;
        let range = AddressRange::new(start, start + 0x80);
        let name = [b'f', b'0' + index as u8];
        builder
            .add_function(Function {
                lines: vec![
                    LineEntry::new(start, main, 1 + index as u32),
                    LineEntry::new(start + 4, main, 40),
                ],
                inline: Some(InlineNode {
                    ranges: vec![range],
                    name: name.to_vec(),
                    children: vec![InlineNode {
                        ranges: vec![AddressRange::new(start + 4, start + 8)],
                        name: b"inlined".to_vec(),
                        call_file: call,
                        call_line: 3,
                        children: Vec::new(),
                    }],
                    ..InlineNode::default()
                }),
                call_sites: vec![CallSite {
                    return_offset: 8,
                    match_regex: vec![b"callee".to_vec()],
                    ..CallSite::default()
                }],
                ..Function::new(range, &name)
            })
            .unwrap();
    }
    builder.to_bytes().unwrap()
}

fn decoded(bytes: &[u8]) -> DecodedGsym {
    Gsym::parse(bytes).unwrap().decode_all().unwrap()
}

#[test]
fn decoding_tells_the_whole_model() {
    let model = decoded(&sample());
    assert_eq!(model.source_version, GsymVersion::V1);
    assert_eq!(model.source_endian, Endian::Little);
    assert_eq!(model.base_address, 0x1000);
    assert_eq!(model.build_id, [9, 8, 7]);
    assert_eq!(model.files.len(), 4);
    assert_eq!(model.files[0], FileEntry::default());
    assert_eq!(model.files[2], FileEntry::new(b"/src", b"main.c"));
    assert_eq!(model.functions.len(), 6);
    assert_eq!(model.functions[5].name, b"f5");
}

#[test]
fn transcoding_keeps_functions_and_drops_unused_files() {
    let bytes = sample();
    for version in [None, Some(GsymVersion::V1), Some(GsymVersion::V2)] {
        for endian in [None, Some(Endian::Little), Some(Endian::Big)] {
            let output = Gsym::parse(&bytes)
                .unwrap()
                .transcode(TranscodeOptions { version, endian })
                .unwrap();
            let before = decoded(&bytes);
            let after = decoded(&output);
            assert_eq!(after.source_version, version.unwrap_or(GsymVersion::V1));
            assert_eq!(after.source_endian, endian.unwrap_or(Endian::Little));
            assert_eq!(after.base_address, before.base_address);
            assert_eq!(after.build_id, before.build_id);
            assert_eq!(
                after.files,
                [
                    FileEntry::default(),
                    FileEntry::new(b"/src", b"main.c"),
                    FileEntry::new(b"/src", b"call.c"),
                ]
            );
            assert_eq!(after.functions.len(), before.functions.len());
            for (new, old) in after.functions.iter().zip(&before.functions) {
                assert_eq!(new.range, old.range);
                assert_eq!(new.name, old.name);
                assert_eq!(new.call_sites, old.call_sites);
                assert_eq!(new.lines.len(), old.lines.len());
                for (row, other) in new.lines.iter().zip(&old.lines) {
                    assert_eq!(row.address, other.address);
                    assert_eq!(row.line, other.line);
                    assert_eq!(row.file.get(), 1);
                    assert_eq!(other.file.get(), 2);
                }
                let child = &new.inline.as_ref().unwrap().children[0];
                assert_eq!(child.call_file.get(), 2);
            }
        }
    }
}

#[test]
fn transcoding_again_gives_the_same_bytes() {
    let bytes = sample();
    let options = TranscodeOptions::default();
    let once = Gsym::parse(&bytes).unwrap().transcode(options).unwrap();
    let twice = Gsym::parse(&once).unwrap().transcode(options).unwrap();
    assert_eq!(once, twice);
}

#[test]
fn a_decoded_file_becomes_a_builder() {
    let model = decoded(&sample());
    let options = TranscodeOptions {
        version: Some(GsymVersion::V2),
        endian: Some(Endian::Big),
    };
    let builder = model.to_builder(options).unwrap();
    assert_eq!(builder.function_set_policy(), FunctionSetPolicy::Deduplicate);
    assert_eq!(builder.files().len(), 3);
    assert_eq!(builder.functions().len(), 6);
    let direct = builder.to_bytes().unwrap();
    let moved = decoded(&sample()).into_builder(options).unwrap();
    assert_eq!(moved.to_bytes().unwrap(), direct);
    assert_eq!(model.transcode(options).unwrap(), direct);
}

#[test]
fn transcoding_keeps_what_a_builder_leaves_out() {
    let mut builder = GsymBuilder::new().function_set(FunctionSetPolicy::Preserve);
    for name in [&b"first"[..], &b"second"[..]] {
        builder
            .add_function(Function::new(AddressRange::new(0x1000, 0x1010), name))
            .unwrap();
    }
    let model = decoded(&builder.to_bytes().unwrap());
    assert_eq!(model.functions.len(), 2);
    let options = TranscodeOptions::default();
    let moved = model.to_builder(options).unwrap().to_bytes().unwrap();
    assert_eq!(decoded(&moved).functions.len(), 1);
    let copied = model.transcode(options).unwrap();
    assert_eq!(decoded(&copied).functions.len(), 2);
}

#[test]
fn a_model_without_the_reserved_file_is_refused() {
    let mut model = decoded(&sample());
    model.files.clear();
    assert!(matches!(
        model.to_builder(TranscodeOptions::default()).map(|_| ()),
        Err(Error::InvalidModel("file-table index zero must be empty"))
    ));
    let mut model = decoded(&sample());
    model.functions[0].lines[0].file = 9.into();
    assert!(matches!(
        model.to_builder(TranscodeOptions::default()).map(|_| ()),
        Err(Error::InvalidModel("function references a missing file"))
    ));
}

#[test]
fn segments_cover_the_file_within_the_target_size() {
    let bytes = sample();
    let model = decoded(&bytes);
    let whole = model
        .segments(bytes.len(), TranscodeOptions::default())
        .unwrap();
    assert_eq!(whole.len(), 1);
    let target = bytes.len() / 2;
    let segments = model.segments(target, TranscodeOptions::default()).unwrap();
    assert!(segments.len() >= 2);
    let total: usize = segments.iter().map(|segment| segment.function_count).sum();
    assert_eq!(total, model.functions.len());
    let mut next = 0;
    for segment in &segments {
        assert!(segment.function_count == 1 || segment.bytes.len() <= target);
        let part = decoded(&segment.bytes);
        assert_eq!(part.functions.len(), segment.function_count);
        assert_eq!(part.functions[0].range.start, segment.first_address);
        assert_eq!(
            part.functions.last().unwrap().range.end,
            segment.end_address
        );
        for value in &part.functions {
            assert_eq!(value.name, model.functions[next].name);
            next += 1;
        }
    }
    assert_eq!(next, model.functions.len());
}

#[test]
fn a_record_larger_than_the_target_stands_alone() {
    let mut model = decoded(&sample());
    let segments = model.segments(16, TranscodeOptions::default()).unwrap();
    assert_eq!(segments.len(), 6);
    assert!(segments.iter().all(|segment| segment.function_count == 1));
    assert!(matches!(
        model.segments(0, TranscodeOptions::default()),
        Err(Error::InvalidModel("segment target size must not be zero"))
    ));
    model.functions.clear();
    assert!(matches!(
        model.segments(16, TranscodeOptions::default()),
        Err(Error::InvalidModel("at least one function is required"))
    ));
}

#[test]
fn segments_hold_the_files_of_their_functions() {
    let mut builder = GsymBuilder::new().base_address(0x1000);
    let first = builder.add_file(FileEntry::new(b"/src", b"first.c")).unwrap();
    let second = builder.add_file(FileEntry::new(b"/src", b"second.c")).unwrap();
    for (start, end, file, name) in [
        (0x1000, 0x1500, first, &b"long"[..]),
        (0x1600, 0x1610, second, &b"short"[..]),
    ] {
        builder
            .add_function(Function {
                lines: vec![LineEntry::new(start, file, 7)],
                ..Function::new(AddressRange::new(start, end), name)
            })
            .unwrap();
    }
    let model = decoded(&builder.to_bytes().unwrap());
    let segments = model.segments(1, TranscodeOptions::default()).unwrap();
    let [long, short] = segments.as_slice() else {
        panic!("expected two segments");
    };
    assert_eq!((long.first_address, long.end_address), (0x1000, 0x1500));
    assert_eq!((short.first_address, short.end_address), (0x1600, 0x1610));
    for (segment, basename) in [(long, &b"first.c"[..]), (short, &b"second.c"[..])] {
        let part = decoded(&segment.bytes);
        assert_eq!(part.base_address, 0x1000);
        assert_eq!(part.files.len(), 2);
        assert_eq!(part.files[0], FileEntry::new(b"", b""));
        let file = part.functions[0].lines[0].file.get() as usize;
        assert_eq!(file, 1);
        assert_eq!(part.files[file].basename, basename);
    }
}
