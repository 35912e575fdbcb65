use colfile::error::Error;
use colfile::ints::{read_ints, write_ints};
use colfile::reader::FileReader;
use colfile::schema::{build_schema, define_column, PhysicalType, Schema};

fn one_column() -> Schema {
    build_schema(vec![define_column("b", PhysicalType::Int32, true)]).unwrap()
}

// The 80 bytes of the file that holds [1, 2, 3] in the column "b":
// 0 marker, 4 data, 16 column count, 24 name length, 32 name, 33 type tag,
// 34 nullability flag, 35 row group count, 43 chunk tag, 44 value count,
// 52 chunk offset, 60 chunk length, 68 footer length, 76 marker.
fn sample() -> Vec<u8> {
    let bytes = write_ints(&one_column(), &[1, 2, 3]);
    assert_eq!(bytes.len(), 80);
    bytes
}

fn rejected(bytes: Vec<u8>) -> bool {
    let direct = FileReader::open(bytes.clone()).err() == Some(Error::Format);
    direct && read_ints(bytes) == Err(Error::Format)
}

fn with_byte(at: usize, value: u8) -> Vec<u8> {
    let mut bytes = sample();
    bytes[at] = value;
    bytes
}

#[test]
fn sample_is_accepted() {
    assert!(FileReader::open(sample()).is_ok());
}

#[test]
fn short_input_is_a_format_error() {
    assert!(rejected(vec![]));
    assert!(rejected(b"PAR1".to_vec()));
    assert!(rejected(b"PAR1PAR1".to_vec()));
    assert!(rejected(b"PAR1\0\0\0\0\0\0\0PAR1".to_vec()));
    // sixteen bytes frame an empty footer, which has no column count
    assert!(rejected(b"PAR1\0\0\0\0\0\0\0\0PAR1".to_vec()));
}

#[test]
fn wrong_leading_magic_is_a_format_error() {
    assert!(rejected(with_byte(0, b'p')));
    assert!(rejected(with_byte(3, b'2')));
}

#[test]
fn wrong_trailing_magic_is_a_format_error() {
    assert!(rejected(with_byte(76, b'X')));
    assert!(rejected(with_byte(79, 0)));
}

#[test]
fn truncated_file_is_a_format_error() {
    let bytes = sample();
    for keep in 0..bytes.len() {
        assert!(rejected(bytes[..keep].to_vec()), "kept {} bytes", keep);
    }
}

#[test]
fn footer_length_beyond_the_file_is_a_format_error() {
    assert!(rejected(with_byte(68, 65)));
    assert!(rejected(with_byte(75, 1)));
    assert!(rejected(with_byte(68, 51)));
    assert!(rejected(with_byte(68, 53)));
}

#[test]
fn name_that_is_not_utf8_is_a_format_error() {
    assert!(rejected(with_byte(32, 0xFF)));
    assert!(rejected(with_byte(32, 0x80)));
    assert!(FileReader::open(with_byte(32, b'c')).is_ok());
}

#[test]
fn unknown_type_tag_is_a_format_error() {
    assert!(rejected(with_byte(33, 0)));
    assert!(rejected(with_byte(33, 2)));
    assert!(rejected(with_byte(43, 0)));
    assert!(rejected(with_byte(43, 7)));
}

#[test]
fn column_that_is_not_required_is_a_format_error() {
    assert!(rejected(with_byte(34, 0)));
    assert!(rejected(with_byte(34, 2)));
}

#[test]
fn wrong_counts_are_a_format_error() {
    // no column, two columns
    assert!(rejected(with_byte(16, 0)));
    assert!(rejected(with_byte(16, 2)));
    // name longer or shorter than it is
    assert!(rejected(with_byte(24, 0)));
    assert!(rejected(with_byte(24, 2)));
    // no row group or two, with one chunk record
    assert!(rejected(with_byte(35, 0)));
    assert!(rejected(with_byte(35, 2)));
}

#[test]
fn chunk_record_that_misses_the_data_is_a_format_error() {
    // count
    assert!(rejected(with_byte(44, 2)));
    assert!(rejected(with_byte(44, 4)));
    // offset
    assert!(rejected(with_byte(52, 0)));
    assert!(rejected(with_byte(52, 8)));
    assert!(rejected(with_byte(59, 0x80)));
    // length
    assert!(rejected(with_byte(60, 8)));
    assert!(rejected(with_byte(60, 16)));
    assert!(rejected(with_byte(60, 11)));
    assert!(rejected(with_byte(67, 0xFF)));
}

#[test]
fn data_that_the_footer_does_not_cover_are_a_format_error() {
    let bytes = sample();
    let mut longer = bytes[..16].to_vec();
    longer.extend_from_slice(&[9, 9, 9, 9]);
    longer.extend_from_slice(&bytes[16..]);
    assert!(rejected(longer));
    let mut shorter = bytes[..12].to_vec();
    shorter.extend_from_slice(&bytes[16..]);
    assert!(rejected(shorter));
}

#[test]
fn footer_with_bytes_left_over_is_a_format_error() {
    let bytes = sample();
    let mut padded = bytes[..68].to_vec();
    padded.push(0);
    padded.extend_from_slice(&[53, 0, 0, 0, 0, 0, 0, 0]);
    padded.extend_from_slice(b"PAR1");
    assert!(rejected(padded));
}

#[test]
fn duplicate_names_in_a_footer_are_a_format_error() {
    let two = build_schema(vec![
        define_column("a", PhysicalType::Int32, true),
        define_column("b", PhysicalType::Int32, true),
    ])
    .unwrap();
    let mut bytes = write_ints(&two, &[1]);
    assert!(FileReader::open(bytes.clone()).is_ok());
    // 4 marker, 8 data, 8 column count, then "a": 8 length, name at 28
    assert_eq!(bytes[28], b'a');
    assert_eq!(bytes[39], b'b');
    bytes[39] = b'a';
    assert!(rejected(bytes));
}

#[test]
fn unequal_counts_in_a_row_group_are_a_format_error() {
    let two = build_schema(vec![
        define_column("a", PhysicalType::Int32, true),
        define_column("b", PhysicalType::Int32, true),
    ])
    .unwrap();
    let bytes = write_ints(&two, &[1, 2]);
    assert!(FileReader::open(bytes.clone()).is_ok());
    // data 4..20, footer at 20: 8 count, 11 + 11 columns, 8 row groups,
    // records at 58 and 83: tag, count, offset, length
    let mut moved = bytes.clone();
    assert_eq!(moved[59], 2);
    assert_eq!(moved[84], 2);
    moved[59] = 3;
    moved[75] = 12;
    moved[84] = 1;
    moved[92] = 16;
    moved[100] = 4;
    assert!(rejected(moved));
}

#[test]
fn sixteen_bytes_are_not_enough() {
    let mut bytes = b"PAR1".to_vec();
    bytes.extend_from_slice(&[0; 8]);
    bytes.extend_from_slice(b"PAR1");
    assert_eq!(FileReader::open(bytes).err(), Some(Error::Format));
}
