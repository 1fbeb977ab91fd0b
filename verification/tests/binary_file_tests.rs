use rosy::binary::{BinaryError, RosyFromBinary, RosyToBinary};
use rosy::da::{ComplexBits, DA};
use rosy::file_io::{
    backf_position, rosy_backf, rosy_openf, rosy_openfb, rosy_read_from_unit, rosy_readb_from_unit, rosy_reads_string_from_unit,
    rosy_write_to_unit, rosy_writeb_to_unit, FileError, OpenMode, UnitTable,
};

#[test]
fn real_image_is_little_endian_bits() {
    let x = 1.5f64;
    let bytes = x.to_bits().to_binary();
    assert_eq!(bytes, x.to_le_bytes().to_vec());
    assert_eq!(u64::from_binary(&bytes), Ok(x.to_bits()));
    assert_eq!(u64::from_binary(&bytes[..3]), Err(BinaryError::RealTooShort { got: 3 }));
}

#[test]
fn string_roundtrip_and_errors() {
    let s = "héllo".to_string();
    let bytes = s.to_binary();
    assert_eq!(&bytes[..8], &(s.len() as u64).to_le_bytes());
    assert_eq!(String::from_binary(&bytes).unwrap(), s);
    assert_eq!(String::from_binary(&bytes[..4]).unwrap_err(), BinaryError::StringPrefixMissing);
    assert_eq!(String::from_binary(&bytes[..9]).unwrap_err(), BinaryError::StringBodyTooShort);
    let mut bad = 2u64.to_le_bytes().to_vec();
    bad.extend([0xff, 0xfe]);
    assert_eq!(String::from_binary(&bad).unwrap_err(), BinaryError::InvalidUtf8);
}

#[test]
fn vector_roundtrip_and_errors() {
    let v: Vec<u64> = vec![1.0f64.to_bits(), (-2.5f64).to_bits(), 0];
    let bytes = v.to_binary();
    assert_eq!(bytes.len(), 8 + 24);
    assert_eq!(Vec::<u64>::from_binary(&bytes).unwrap(), v);
    assert_eq!(Vec::<u64>::from_binary(&bytes[..7]).unwrap_err(), BinaryError::VectorPrefixMissing);
    assert_eq!(Vec::<u64>::from_binary(&bytes[..20]).unwrap_err(), BinaryError::VectorElementMissing);
}

#[test]
fn logical_complex_and_da_images() {
    assert_eq!(true.to_binary(), vec![1]);
    assert_eq!(bool::from_binary(&[0]), Ok(false));
    assert_eq!(bool::from_binary(&[7]), Ok(true));
    assert_eq!(bool::from_binary(&[]), Err(BinaryError::LogicalMissing));
    let c = ComplexBits { re: 3.0f64.to_bits(), im: (-1.0f64).to_bits() };
    let bytes = c.to_binary();
    assert_eq!(bytes.len(), 16);
    let back = ComplexBits::from_binary(&bytes).unwrap();
    assert_eq!((back.re, back.im), (c.re, c.im));
    assert!(matches!(ComplexBits::from_binary(&bytes[..15]), Err(BinaryError::ComplexTooShort { got: 15 })));
    assert!(matches!(DA::from_binary(&bytes), Err(BinaryError::DaUnsupported)));
}

#[test]
fn units_open_write_and_read() {
    let mut t = UnitTable::new();
    assert_eq!(rosy_openf(&mut t, 7, "out.txt", "REPLACE"), Ok(OpenMode::Replace));
    assert_eq!(rosy_write_to_unit(&t, 7, "abc").unwrap(), "abc\n");
    assert_eq!(rosy_read_from_unit(&t, 7, "x\n"), Err(FileError::NotReadable { unit: 7 }));
    assert_eq!(rosy_openf(&mut t, 7, "in.txt", "old"), Ok(OpenMode::ReadOld));
    assert_eq!(rosy_write_to_unit(&t, 7, "abc"), Err(FileError::NotWritable { unit: 7 }));
    assert_eq!(rosy_read_from_unit(&t, 7, "line\r\n").unwrap(), "line");
    assert_eq!(rosy_read_from_unit(&t, 7, ""), Err(FileError::EndOfFile { unit: 7 }));
    assert_eq!(rosy_reads_string_from_unit(&t, 7, "").unwrap(), "");
    assert_eq!(rosy_read_from_unit(&t, 8, "x"), Err(FileError::NoFileOpen { unit: 8 }));
    assert_eq!(rosy_openf(&mut t, 7, "in.txt", "sideways"), Err(FileError::UnknownStatus));
    assert_eq!(rosy_read_from_unit(&t, 7, "x"), Err(FileError::NoFileOpen { unit: 7 }));
    assert_eq!(rosy_openf(&mut t, 9, "a", "Unknown"), Ok(OpenMode::ReadWrite));
    assert_eq!(rosy_openf(&mut t, 10, "b", "NEW"), Ok(OpenMode::WriteNew));
    assert_eq!(rosy_read_from_unit(&t, 9, "a b\n").unwrap(), "a b");
}

#[test]
fn binary_records_frame_and_unframe() {
    let mut t = UnitTable::new();
    assert_eq!(rosy_openfb(&mut t, 3, "data.bin", "unknown"), Ok(OpenMode::ReadWrite));
    let record = rosy_writeb_to_unit(&t, 3, &[9, 8, 7]).unwrap();
    assert_eq!(record, vec![3, 0, 0, 0, 0, 0, 0, 0, 9, 8, 7]);
    let mut stream = record.clone();
    stream.extend([1, 2, 3]);
    assert_eq!(rosy_readb_from_unit(&t, 3, &stream).unwrap(), vec![9, 8, 7]);
    assert_eq!(rosy_readb_from_unit(&t, 3, &stream[..5]), Err(FileError::LengthPrefixMissing { unit: 3 }));
    assert_eq!(rosy_readb_from_unit(&t, 3, &record[..9]), Err(FileError::DataMissing { unit: 3 }));
    assert_eq!(rosy_writeb_to_unit(&t, 4, &[1]), Err(FileError::NoFileOpen { unit: 4 }));
}

#[test]
fn backf_moves_to_the_previous_record() {
    assert_eq!(backf_position(b""), 0);
    assert_eq!(backf_position(b"abc\n"), 0);
    assert_eq!(backf_position(b"a\nb\n"), 2);
    assert_eq!(backf_position(b"one\ntwo\nthree\n"), 8);
    assert_eq!(backf_position(b"a\nb\npartial"), 2);
    let mut t = UnitTable::new();
    assert_eq!(rosy_backf(&t, 3, b"a\nb\n"), None);
    rosy_openf(&mut t, 3, "in.txt", "old").unwrap();
    assert_eq!(rosy_backf(&t, 3, b"a\nb\n"), Some(2));
    rosy_openf(&mut t, 4, "out.txt", "replace").unwrap();
    assert_eq!(rosy_backf(&t, 4, b"a\nb\n"), None);
}

#[test]
fn writeb_then_readb_through_reopened_unit() {
    let mut t = UnitTable::new();
    assert_eq!(rosy_openfb(&mut t, 5, "data.bin", "replace"), Ok(OpenMode::Replace));
    let data = vec![1u8, 2, 3, 250];
    let file = rosy_writeb_to_unit(&t, 5, &data).unwrap();
    t.close(5);
    assert_eq!(rosy_openfb(&mut t, 5, "data.bin", "old"), Ok(OpenMode::ReadOld));
    assert_eq!(rosy_readb_from_unit(&t, 5, &file).unwrap(), data);
    assert_eq!(rosy_readb_from_unit(&t, 5, &file[8 + data.len()..]), Err(FileError::LengthPrefixMissing { unit: 5 }));
}
