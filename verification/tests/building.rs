//! Tests of the builder and of finalization.
use gsym::writer::finalize::{
    deduplicate, finalize, merge_equal_ranges, should_replace_with_mangled_name,
};
use gsym::writer::ordering::{order_names, NameOrder};
use gsym::{
    AddressRange, BuilderOptions, CallSite, CallSiteFlags, Endian, Error, FileEntry, Function,
    FunctionSetPolicy, Gsym, GsymBuilder, GsymVersion, InlineNode, LineEntry, WriterOptions,
};

fn function(start: u64, end: u64, name: &[u8]) -> Function {
    Function::new(AddressRange::new(start, end), name)
}

#[test]
fn files_are_interned() {
    let mut builder = GsymBuilder::new();
    assert_eq!(builder.add_file(FileEntry::default()).unwrap().get(), 0);
    let first = builder.add_file(FileEntry::new(b"a", b"b")).unwrap();
    let second = builder.add_file(FileEntry::new(b"ab", b"")).unwrap();
    assert_eq!(first.get(), 1);
    assert_eq!(second.get(), 2);
    assert_eq!(builder.add_file(FileEntry::new(b"a", b"b")).unwrap(), first);
    for number in 0..200_u32 {
        let name = number.to_le_bytes();
        let index = builder.add_file(FileEntry::new(b"many", &name)).unwrap();
        assert_eq!(index.get(), number + 3);
    }
    assert_eq!(builder.files().len(), 203);
    assert_eq!(builder.add_file(FileEntry::new(b"ab", b"")).unwrap(), second);
    assert_eq!(builder.files()[2], FileEntry::new(b"ab", b""));
}

#[test]
fn invalid_functions_are_refused() {
    let mut builder = GsymBuilder::new();
    assert!(matches!(
        builder.add_function(function(0x20, 0x10, b"reversed")),
        Err(Error::InvalidModel(_))
    ));
    assert!(builder.add_function(function(0x10, 0x20, b"")).is_err());
    let mut outside = function(0x10, 0x20, b"outside");
    outside.lines = vec![LineEntry::new(0x20, 1.into(), 1)];
    assert!(builder.add_function(outside).is_err());
    let mut inline = function(0x10, 0x20, b"inline");
    inline.inline = Some(InlineNode {
        ranges: vec![AddressRange::new(0x10, 0x24)],
        ..InlineNode::default()
    });
    assert!(builder.add_function(inline).is_err());
    let mut site = function(0x10, 0x20, b"site");
    site.call_sites = vec![CallSite {
        return_offset: 0x11,
        ..CallSite::default()
    }];
    assert!(builder.add_function(site).is_err());
    assert!(builder.functions().is_empty());
    builder.add_function(function(0x10, 0x20, b"fine")).unwrap();
    assert_eq!(builder.functions().len(), 1);
}

#[test]
fn missing_files_are_refused_when_a_file_is_written() {
    let mut builder = GsymBuilder::new();
    let mut value = function(0x10, 0x20, b"value");
    value.lines = vec![LineEntry::new(0x10, 7.into(), 1)];
    builder.add_function(value).unwrap();
    assert!(matches!(builder.to_bytes(), Err(Error::InvalidModel(_))));
}

#[test]
fn the_reserved_file_and_no_functions_are_checked() {
    assert!(matches!(
        GsymBuilder::new().to_bytes(),
        Err(Error::InvalidModel(_))
    ));
}

#[test]
fn a_function_before_the_base_address_is_refused() {
    let mut builder = GsymBuilder::new().base_address(0x100);
    builder.add_function(function(0x10, 0x20, b"early")).unwrap();
    assert!(builder.to_bytes().is_err());
}

#[test]
fn version_one_limits_the_build_identifier() {
    let mut builder = GsymBuilder::new().build_id(vec![7; 21]);
    builder.add_function(function(0x10, 0x20, b"value")).unwrap();
    assert!(matches!(
        builder.to_bytes(),
        Err(Error::V1BuildIdTooLong { size: 21 })
    ));
    let mut builder = GsymBuilder::new()
        .version(GsymVersion::V2)
        .build_id(vec![7; 21]);
    builder.add_function(function(0x10, 0x20, b"value")).unwrap();
    let bytes = builder.to_bytes().unwrap();
    assert_eq!(Gsym::parse(&bytes).unwrap().build_id(), [7; 21]);
}

#[test]
fn the_same_inputs_give_the_same_bytes() {
    let build = |reversed: bool| {
        let mut builder = GsymBuilder::new();
        let mut functions = vec![
            function(0x30, 0x40, b"third"),
            function(0x10, 0x20, b"first"),
            function(0x20, 0x30, b"second"),
        ];
        if reversed {
            functions.reverse();
        }
        for value in functions {
            builder.add_function(value).unwrap();
        }
        builder.to_bytes().unwrap()
    };
    assert_eq!(build(false), build(false));
    assert_eq!(build(false), build(true));
}

#[test]
fn the_width_of_address_offsets_fits_the_last_function() {
    for (last, width) in [(0xff, 1), (0x100, 2), (0x1_0000, 4), (0x1_0000_0000_u64, 8)] {
        let mut builder = GsymBuilder::new().base_address(0);
        builder.add_function(function(0, 1, b"first")).unwrap();
        builder
            .add_function(function(last, last + 1, b"last"))
            .unwrap();
        let bytes = builder.to_bytes().unwrap();
        let gsym = Gsym::parse(&bytes).unwrap();
        assert_eq!(gsym.header().address_offset_size, width);
        assert_eq!(gsym.function(1).unwrap().start(), last);
    }
}

#[test]
fn equal_ranges_are_deduplicated_in_favour_of_records() {
    let mut rich = function(0x10, 0x20, b"name");
    rich.lines = vec![LineEntry::new(0x10, 1.into(), 5)];
    let kept = deduplicate(vec![
        function(0x10, 0x20, b"_Z4namev"),
        rich.clone(),
        function(0x30, 0x30, b"unsized"),
        function(0x30, 0x38, b"sized"),
        function(0x40, 0x48, b"one"),
        function(0x40, 0x48, b"two"),
    ]);
    let names: Vec<&[u8]> = kept.iter().map(|value| value.name.as_slice()).collect();
    assert_eq!(names, [&b"_Z4namev"[..], b"sized", b"two"]);
    assert_eq!(kept[0].lines, rich.lines);
}

#[test]
fn mangled_names_hold_the_length_and_the_name() {
    assert!(should_replace_with_mangled_name(b"_Z4namev", b"name"));
    assert!(should_replace_with_mangled_name(b"$s4mod4nameF", b"name"));
    assert!(!should_replace_with_mangled_name(b"_Z5otherv", b"name"));
    assert!(!should_replace_with_mangled_name(b"name", b"name"));
    assert!(!should_replace_with_mangled_name(b"_Z4namev", b"_Z4name"));
    assert!(should_replace_with_mangled_name(b"anything", b""));
    assert!(!should_replace_with_mangled_name(b"", b""));
    assert!(should_replace_with_mangled_name(b"_Z12abcdefghijklv", b"abcdefghijkl"));
}

#[test]
fn equal_ranges_are_merged_into_the_first() {
    let merged = merge_equal_ranges(vec![
        function(0x10, 0x20, b"a"),
        function(0x10, 0x20, b"b"),
        function(0x10, 0x20, b"b"),
        function(0x10, 0x20, b"c"),
        function(0x20, 0x30, b"d"),
    ]);
    assert_eq!(merged.len(), 2);
    assert_eq!(merged[0].name, b"a");
    let names: Vec<&[u8]> = merged[0]
        .merged
        .iter()
        .map(|value| value.name.as_slice())
        .collect();
    assert_eq!(names, [&b"b"[..], b"c"]);
    assert!(merged[1].merged.is_empty());
}

#[test]
fn merged_functions_are_written_and_read_back() {
    let mut builder = GsymBuilder::new().merge_equal_address_functions(true);
    assert_eq!(
        builder.function_set_policy(),
        FunctionSetPolicy::MergeEqualRanges
    );
    builder.add_function(function(0x10, 0x20, b"b")).unwrap();
    builder.add_function(function(0x10, 0x20, b"a")).unwrap();
    let bytes = builder.to_bytes().unwrap();
    let gsym = Gsym::parse(&bytes).unwrap();
    let value = gsym.function(0).unwrap().decode().unwrap();
    assert_eq!(value.name, b"a");
    assert_eq!(value.merged.len(), 1);
    assert_eq!(value.merged[0].name, b"b");
    assert_eq!(value.merged[0].range, AddressRange::new(0x10, 0x20));
}

#[test]
fn the_last_function_of_unknown_size_is_repaired() {
    let options = BuilderOptions {
        writer: WriterOptions {
            endian: Endian::Big,
            ..WriterOptions::default()
        },
        executable_ranges: vec![AddressRange::new(0x1000, 0x1800)],
        ..BuilderOptions::default()
    };
    assert!(options.repair_zero_sized_functions);
    let mut builder = GsymBuilder::with_options(options.clone());
    assert_eq!(builder.options(), &options);
    builder.add_function(function(0x1000, 0x1000, b"first")).unwrap();
    builder.add_function(function(0x1700, 0x1700, b"last")).unwrap();
    let bytes = builder.to_bytes().unwrap();
    let gsym = Gsym::parse(&bytes).unwrap();
    assert_eq!(gsym.function(0).unwrap().range(), AddressRange::new(0x1000, 0x1000));
    assert_eq!(gsym.function(1).unwrap().range(), AddressRange::new(0x1700, 0x1800));
}

#[test]
fn finalizing_twice_changes_nothing() {
    let mut rows = function(0x10, 0x20, b"rows");
    rows.lines = vec![
        LineEntry::new(0x10, 1.into(), 5),
        LineEntry::new(0x14, 1.into(), 5),
        LineEntry::new(0x18, 1.into(), 6),
    ];
    let functions = vec![
        function(0x40, 0x40, b"unsized"),
        function(0x10, 0x20, b"bare"),
        function(0x30, 0x50, b"cover"),
        rows,
    ];
    let ranges = Vec::new();
    let once = finalize(functions, &ranges, false, FunctionSetPolicy::Deduplicate);
    assert_eq!(once.len(), 3);
    assert_eq!(once[0].name, b"rows");
    assert_eq!(once[0].lines.len(), 2);
    let copy = once.clone();
    let twice = finalize(once, &ranges, false, FunctionSetPolicy::Deduplicate);
    assert_eq!(twice, copy);
}

#[test]
fn names_are_ordered_as_bytes() {
    assert!(matches!(order_names(b"a", b"b"), NameOrder::Before));
    assert!(matches!(order_names(b"ab", b"a"), NameOrder::Behind));
    assert!(matches!(order_names(b"ab", b"ab"), NameOrder::Same));
}

#[test]
fn call_site_flags_keep_every_bit() {
    let unknown = CallSiteFlags::from_bits_retain(0xf4);
    assert_eq!(unknown.bits(), 0xf4);
    assert!(!unknown.contains(CallSiteFlags::internal()));
    let mut flags = unknown | CallSiteFlags::internal();
    assert_eq!(flags.bits(), 0xf5);
    flags |= CallSiteFlags::external();
    assert_eq!(flags.bits(), 0xf7);
    assert!(flags.contains(CallSiteFlags::internal()));
    assert!(flags.contains(unknown));
    assert!(CallSiteFlags::default().is_empty());
    assert!(!flags.is_empty());
}
