use colfile::error::Error;
use colfile::ints::{read_ints, write_ints};
use colfile::reader::{ColumnReader, FileReader};
use colfile::schema::{build_schema, define_column, PhysicalType, Schema};
use colfile::writer::WriteSession;

fn schema_of(names: &[&str]) -> Schema {
    let columns = names.iter().map(|name| define_column(name, PhysicalType::Int32, true)).collect();
    build_schema(columns).unwrap()
}

fn read_all(bytes: Vec<u8>) -> Vec<Vec<Vec<i32>>> {
    let reader = FileReader::open(bytes).unwrap();
    let mut groups = Vec::new();
    for g in 0..reader.row_group_count() {
        let row_group = reader.get_row_group_reader(g).unwrap();
        let mut columns = Vec::new();
        for c in 0..row_group.column_count() {
            let mut column = row_group.get_column_reader(c).unwrap();
            match &mut column {
                ColumnReader::Int32ColumnReader(typed) => {
                    let mut values = vec![0; typed.remaining()];
                    let wanted = values.len();
                    assert_eq!(typed.read_batch(wanted, &mut values), (wanted, wanted));
                    columns.push(values);
                }
            }
        }
        groups.push(columns);
    }
    groups
}

#[test]
fn one_two_three_in_one_column() {
    let bytes = write_ints(&schema_of(&["b"]), &[1, 2, 3]);
    assert_eq!(&bytes[0..4], &[b'P', b'A', b'R', b'1']);
    assert_eq!(read_ints(bytes.clone()), Ok(vec![1, 2, 3]));
    let reader = FileReader::open(bytes).unwrap();
    assert_eq!(reader.row_group_count(), 1);
    assert_eq!(reader.column_count(0), Ok(1));
}

#[test]
fn one_two_three_exact_bytes() {
    let bytes = write_ints(&schema_of(&["b"]), &[1, 2, 3]);
    let mut expected: Vec<u8> = Vec::new();
    expected.extend_from_slice(b"PAR1");
    expected.extend_from_slice(&[1, 0, 0, 0, 2, 0, 0, 0, 3, 0, 0, 0]);
    // footer: one column
    expected.extend_from_slice(&[1, 0, 0, 0, 0, 0, 0, 0]);
    expected.extend_from_slice(&[1, 0, 0, 0, 0, 0, 0, 0, b'b', 1, 1]);
    // one row group, one chunk: tag, count 3, offset 4, length 12
    expected.extend_from_slice(&[1, 0, 0, 0, 0, 0, 0, 0]);
    expected.push(1);
    expected.extend_from_slice(&[3, 0, 0, 0, 0, 0, 0, 0]);
    expected.extend_from_slice(&[4, 0, 0, 0, 0, 0, 0, 0]);
    expected.extend_from_slice(&[12, 0, 0, 0, 0, 0, 0, 0]);
    // trailer: footer length 52, marker
    expected.extend_from_slice(&[52, 0, 0, 0, 0, 0, 0, 0]);
    expected.extend_from_slice(b"PAR1");
    assert_eq!(bytes.len(), 80);
    assert_eq!(bytes, expected);
}

#[test]
fn round_trip_of_more_values_than_one_batch() {
    let values: Vec<i32> = (0..100).map(|i| i * 7 - 300).collect();
    let bytes = write_ints(&schema_of(&["b"]), &values);
    assert_eq!(read_ints(bytes), Ok(values));
}

#[test]
fn round_trip_of_extreme_values() {
    let values = vec![i32::MIN, -1, 0, 1, i32::MAX, -2147483647, 255, 256, -256, 65536, 16777216];
    let bytes = write_ints(&schema_of(&["b"]), &values);
    assert_eq!(read_ints(bytes), Ok(values));
}

#[test]
fn round_trip_of_a_single_value() {
    let bytes = write_ints(&schema_of(&["only"]), &[-42]);
    assert_eq!(read_ints(bytes), Ok(vec![-42]));
}

#[test]
fn negative_value_is_twos_complement_little_endian() {
    let bytes = write_ints(&schema_of(&["b"]), &[-2, 0x01020304]);
    assert_eq!(&bytes[4..12], &[0xFE, 0xFF, 0xFF, 0xFF, 0x04, 0x03, 0x02, 0x01]);
}

#[test]
fn magic_opens_and_closes_every_file() {
    for values in [vec![], vec![5], vec![1, 2, 3, 4, 5, 6, 7, 8, 9]] {
        let bytes = write_ints(&schema_of(&["x", "y"]), &values);
        assert_eq!(&bytes[0..4], b"PAR1");
        assert_eq!(&bytes[bytes.len() - 4..], b"PAR1");
    }
    let mut session = WriteSession::open(schema_of(&["x"]));
    let bytes = session.close().unwrap();
    assert_eq!(&bytes[0..4], b"PAR1");
    assert_eq!(&bytes[bytes.len() - 4..], b"PAR1");
}

#[test]
fn metadata_read_twice_is_the_same() {
    let bytes = write_ints(&schema_of(&["x", "y", "z"]), &[10, 20]);
    let first = FileReader::open(bytes.clone()).unwrap();
    let second = FileReader::open(bytes).unwrap();
    assert_eq!(first.row_group_count(), second.row_group_count());
    assert_eq!(first.row_group_count(), 1);
    assert_eq!(first.column_count(0), second.column_count(0));
    assert_eq!(first.column_count(0), Ok(3));
    for c in 0..3 {
        assert_eq!(first.chunk_meta(0, c), second.chunk_meta(0, c));
    }
    assert_eq!(first.row_group_count(), first.row_group_count());
}

#[test]
fn empty_values_make_a_valid_file() {
    let bytes = write_ints(&schema_of(&["b"]), &[]);
    let reader = FileReader::open(bytes.clone()).unwrap();
    assert_eq!(reader.row_group_count(), 1);
    assert_eq!(reader.column_count(0), Ok(1));
    let record = reader.chunk_meta(0, 0).unwrap();
    assert_eq!(record.count, 0);
    assert_eq!(record.byte_len, 0);
    assert_eq!(record.offset, 4);
    let row_group = reader.get_row_group_reader(0).unwrap();
    let mut column = row_group.get_column_reader(0).unwrap();
    let mut out = vec![7; 8];
    match &mut column {
        ColumnReader::Int32ColumnReader(typed) => {
            assert_eq!(typed.read_batch(8, &mut out), (0, 0));
        }
    }
    assert_eq!(out, vec![7; 8]);
    assert_eq!(read_ints(bytes), Ok(vec![]));
}

#[test]
fn file_without_row_groups_reads_as_nothing() {
    let mut session = WriteSession::open(schema_of(&["b"]));
    let bytes = session.close().unwrap();
    let reader = FileReader::open(bytes.clone()).unwrap();
    assert_eq!(reader.row_group_count(), 0);
    assert_eq!(reader.column_count(0), Err(Error::Range));
    assert_eq!(read_ints(bytes), Ok(vec![]));
}

#[test]
fn order_of_row_groups_and_columns_is_kept() {
    let mut session = WriteSession::open(schema_of(&["a", "b", "c"]));
    let written = vec![
        vec![vec![1, 2], vec![3, 4], vec![5, 6]],
        vec![vec![], vec![], vec![]],
        vec![vec![7], vec![8], vec![9]],
    ];
    for group in &written {
        let row_group = session.begin_row_group().unwrap();
        let mut c = 0;
        while let Some(column) = session.next_column_writer(&row_group).unwrap() {
            assert_eq!(column.column(), c);
            session.write_batch(&column, &group[c], None).unwrap();
            session.close_column(&column).unwrap();
            c += 1;
        }
        assert_eq!(c, 3);
        session.close_row_group(&row_group).unwrap();
    }
    let bytes = session.close().unwrap();
    assert_eq!(read_all(bytes.clone()), written);
    let reader = FileReader::open(bytes.clone()).unwrap();
    let names: Vec<String> = (0..3)
        .map(|c| reader.schema().column(c).unwrap().name().to_string())
        .collect();
    assert_eq!(names, vec!["a", "b", "c"]);
    assert_eq!(reader.chunk_meta(0, 0).unwrap().offset, 4);
    assert_eq!(reader.chunk_meta(0, 1).unwrap().offset, 12);
    assert_eq!(reader.chunk_meta(0, 2).unwrap().offset, 20);
    assert_eq!(reader.chunk_meta(2, 0).unwrap().offset, 28);
    assert_eq!(reader.chunk_meta(2, 2).unwrap().offset, 36);
    assert_eq!(reader.chunk_meta(2, 2).unwrap().count, 1);
    assert_eq!(reader.chunk_meta(2, 2).unwrap().byte_len, 4);
    assert_eq!(reader.chunk_meta(2, 2).unwrap().physical, PhysicalType::Int32);
    assert_eq!(read_ints(bytes), Ok(vec![9]));
}

#[test]
fn batches_written_in_pieces_are_one_column() {
    let mut session = WriteSession::open(schema_of(&["b"]));
    let row_group = session.begin_row_group().unwrap();
    let column = session.next_column_writer(&row_group).unwrap().unwrap();
    session.write_batch(&column, &[1, 2], None).unwrap();
    session.write_batch(&column, &[], Some(&[])).unwrap();
    session.write_batch(&column, &[3], None).unwrap();
    session.close_column(&column).unwrap();
    assert_eq!(session.next_column_writer(&row_group), Ok(None));
    session.close_row_group(&row_group).unwrap();
    let bytes = session.close().unwrap();
    assert_eq!(bytes, write_ints(&schema_of(&["b"]), &[1, 2, 3]));
}

#[test]
fn names_beyond_ascii_come_back() {
    let bytes = write_ints(&schema_of(&["größe", "数"]), &[1]);
    let reader = FileReader::open(bytes).unwrap();
    assert_eq!(reader.schema().num_columns(), 2);
    assert_eq!(reader.schema().column(0).unwrap().name(), "größe");
    assert_eq!(reader.schema().column(1).unwrap().name(), "数");
    assert!(reader.schema().column(1).unwrap().is_required());
    assert_eq!(reader.schema().column(1).unwrap().physical_type(), PhysicalType::Int32);
    assert!(reader.schema().column(2).is_none());
}
