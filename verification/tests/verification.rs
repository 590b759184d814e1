//! Tests of verification and decoding of whole files.
use gsym::{
    AddressRange, Error, FileEntry, Function, Gsym, GsymBuilder, InlineNode, LineEntry,
};

#[test]
fn verification_rejects_a_non_empty_reserved_file_entry() {
    let mut builder = GsymBuilder::new();
    let _ = builder.add_file(FileEntry::new(b"/src", b"main.c")).unwrap();
    builder
        .add_function(Function::new(AddressRange::new(0x1000, 0x1010), b"main"))
        .unwrap();
    let mut bytes = builder.to_bytes().unwrap();

    let table = Gsym::parse(bytes.as_slice()).unwrap().layout().file_table.clone();
    let reserved = table.start.saturating_add(4);
    let first = reserved.saturating_add(8);
    bytes.copy_within(first..first.saturating_add(8), reserved);

    assert!(matches!(
        Gsym::parse(bytes.as_slice()).unwrap().verify(),
        Err(Error::InvalidFormat("file-table index zero must be empty"))
    ));
}

#[test]
fn verification_counts_stored_strings() {
    let mut builder = GsymBuilder::new();
    let _ = builder.add_file(FileEntry::new(b"/src", b"main.c")).unwrap();
    builder
        .add_function(Function::new(AddressRange::new(0x1000, 0x1010), b"main"))
        .unwrap();
    builder
        .add_function(Function::new(AddressRange::new(0x2000, 0x2010), b"helper"))
        .unwrap();
    let bytes = builder.to_bytes().unwrap();

    let report = Gsym::parse(bytes.as_slice()).unwrap().verify().unwrap();
    assert_eq!(report.functions, 2);
    assert_eq!(report.files, 2);
    assert_eq!(report.strings, 5);
}

#[test]
fn verification_and_owned_decode_reject_a_missing_inline_file() {
    let range = AddressRange::new(0x1000, 0x1010);
    let mut builder = GsymBuilder::new();
    builder
        .add_function(Function {
            inline: Some(InlineNode {
                ranges: vec![range],
                name: b"inlined".to_vec(),
                call_file: 0_u32.into(),
                ..InlineNode::default()
            }),
            ..Function::new(range, b"outer")
        })
        .unwrap();
    let mut bytes = builder.to_bytes().unwrap();
    let function_offset = Gsym::parse(bytes.as_slice())
        .unwrap()
        .function_offset(0)
        .unwrap();
    let inline_payload = function_offset.saturating_add(16);
    let call_file = inline_payload.saturating_add(8);
    let Some(slot) = bytes.get_mut(call_file) else {
        panic!("writer omitted the inline call-file field");
    };
    *slot = 2;

    let gsym = Gsym::parse(bytes.as_slice()).unwrap();
    assert!(gsym.verify().is_err());
    assert!(gsym.function(0).unwrap().decode().is_err());
}

/// Builds an image whose only fault is semantic rather than structural.
///
/// Every record decodes, but the encoded function size is shrunk after the
/// fact so the second line row sits past the end of the function it
/// belongs to. Structural decoding cannot notice, because line rows are
/// encoded relative to the start address and never consult the size.
fn image_with_a_line_outside_its_function() -> Vec<u8> {
    let mut builder = GsymBuilder::new();
    let file = builder.add_file(FileEntry::new(b"/src", b"main.c")).unwrap();
    let mut function = Function::new(AddressRange::new(0x1000, 0x1020), b"main");
    function.lines = vec![
        LineEntry {
            address: 0x1000,
            file,
            line: 1,
        },
        LineEntry {
            address: 0x1010,
            file,
            line: 2,
        },
    ];
    builder.add_function(function).unwrap();
    let mut bytes = builder.to_bytes().unwrap();

    let offset = Gsym::parse(bytes.as_slice())
        .unwrap()
        .function_offset(0)
        .unwrap();
    bytes
        .split_at_mut(offset)
        .1
        .split_at_mut(4)
        .0
        .copy_from_slice(&8_u32.to_le_bytes());
    bytes
}

#[test]
fn decode_rejects_every_record_verification_rejects() {
    let bytes = image_with_a_line_outside_its_function();
    let gsym = Gsym::parse(bytes.as_slice()).unwrap();

    assert!(gsym.verify().is_err());
    assert!(gsym.function(0).unwrap().decode_encoded().is_ok());
    assert!(gsym.function(0).unwrap().decode().is_err());
}
