//! Tests of the writer.
use gsym::format::align_up;
use gsym::format::function::EncodedFunction;
use gsym::writer::encode::{encode_v1, encode_v2};
use gsym::writer::tables::encode_function_section;
use gsym::{AddressRange, Endian, Error};

#[test]
fn function_records_align_in_absolute_file_space() {
    let functions = vec![
        EncodedFunction {
            range: AddressRange::new(0x1000, 0x1010),
            name: 1,
            ..EncodedFunction::default()
        },
        EncodedFunction {
            range: AddressRange::new(0x1020, 0x1030),
            name: 1,
            ..EncodedFunction::default()
        },
    ];

    for absolute_base in 0..8 {
        let (offsets, _) =
            encode_function_section(&functions, Endian::Little, 4, absolute_base).unwrap();
        assert_eq!(offsets.len(), functions.len());
        assert!(offsets.iter().all(|offset| offset % 4 == 0));
        assert_eq!(offsets.first().copied(), align_up(absolute_base, 4));
    }
}

#[test]
fn files_with_another_address_width_are_refused() {
    let functions = vec![EncodedFunction {
        range: AddressRange::new(0x1000, 0x1010),
        name: 1,
        ..EncodedFunction::default()
    }];
    let files = vec![(0, 0)];
    let strings = b"\0main\0";
    let id = Vec::new();
    for width in [0, 3, 9, 255] {
        let one = encode_v1(Endian::Little, &id, 0, width, &files, strings, &functions);
        assert_eq!(
            one.map(|_| ()),
            Err(Error::InvalidAddressOffsetSize { version: 1, size: width })
        );
    }
    assert!(encode_v1(Endian::Little, &id, 0, 2, &files, strings, &functions).is_ok());
    assert!(encode_v2(Endian::Little, &id, 0, 0, &files, strings, &functions).is_err());
    assert!(encode_v2(Endian::Little, &id, 0, 9, &files, strings, &functions).is_err());
    assert!(encode_v2(Endian::Little, &id, 0, 2, &files, strings, &functions).is_ok());
}
