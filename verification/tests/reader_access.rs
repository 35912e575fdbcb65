use colfile::error::Error;
use colfile::ints::{read_column, write_ints};
use colfile::reader::{ColumnReader, FileReader};
use colfile::schema::{build_schema, define_column, PhysicalType, Schema};

fn one_column() -> Schema {
    build_schema(vec![define_column("b", PhysicalType::Int32, true)]).unwrap()
}

#[test]
fn row_group_out_of_range_is_a_range_error() {
    let reader = FileReader::open(write_ints(&one_column(), &[1, 2, 3])).unwrap();
    assert!(reader.get_row_group_reader(0).is_ok());
    assert_eq!(reader.get_row_group_reader(1).err(), Some(Error::Range));
    assert_eq!(reader.get_row_group_reader(usize::MAX).err(), Some(Error::Range));
    assert_eq!(reader.column_count(1), Err(Error::Range));
    assert_eq!(reader.chunk_meta(1, 0), Err(Error::Range));
    assert_eq!(reader.chunk_meta(0, 1), Err(Error::Range));
}

#[test]
fn column_out_of_range_is_a_range_error() {
    let reader = FileReader::open(write_ints(&one_column(), &[1, 2, 3])).unwrap();
    let row_group = reader.get_row_group_reader(0).unwrap();
    assert_eq!(row_group.index(), 0);
    assert_eq!(row_group.column_count(), 1);
    assert!(row_group.get_column_reader(0).is_ok());
    assert_eq!(row_group.get_column_reader(1).err(), Some(Error::Range));
}

#[test]
fn column_reader_is_tagged_with_its_type() {
    let reader = FileReader::open(write_ints(&one_column(), &[1])).unwrap();
    let row_group = reader.get_row_group_reader(0).unwrap();
    let column = row_group.get_column_reader(0).unwrap();
    assert_eq!(column.physical_type(), PhysicalType::Int32);
    assert!(matches!(column, ColumnReader::Int32ColumnReader(_)));
}

#[test]
fn read_batch_stops_at_max_count_buffer_and_chunk_end() {
    let reader = FileReader::open(write_ints(&one_column(), &[10, 20, 30, 40, 50])).unwrap();
    let row_group = reader.get_row_group_reader(0).unwrap();
    let mut column = row_group.get_column_reader(0).unwrap();
    match &mut column {
        ColumnReader::Int32ColumnReader(typed) => {
            assert_eq!(typed.remaining(), 5);
            let mut out = vec![-1; 4];
            // asked for two
            assert_eq!(typed.read_batch(2, &mut out), (2, 2));
            assert_eq!(out, vec![10, 20, -1, -1]);
            assert_eq!(typed.remaining(), 3);
            // asked for none
            assert_eq!(typed.read_batch(0, &mut out), (0, 0));
            assert_eq!(out, vec![10, 20, -1, -1]);
            // room for one
            let mut small = vec![-1; 1];
            assert_eq!(typed.read_batch(8, &mut small), (1, 1));
            assert_eq!(small, vec![30]);
            // two are left
            assert_eq!(typed.read_batch(8, &mut out), (2, 2));
            assert_eq!(out, vec![40, 50, -1, -1]);
            assert_eq!(typed.remaining(), 0);
            assert_eq!(typed.read_batch(8, &mut out), (0, 0));
            assert_eq!(out, vec![40, 50, -1, -1]);
            let mut none: Vec<i32> = Vec::new();
            assert_eq!(typed.read_batch(8, &mut none), (0, 0));
        }
    }
}

#[test]
fn read_column_gives_what_is_left() {
    let values: Vec<i32> = (1..=20).collect();
    let reader = FileReader::open(write_ints(&one_column(), &values)).unwrap();
    let row_group = reader.get_row_group_reader(0).unwrap();
    let mut column = row_group.get_column_reader(0).unwrap();
    match &mut column {
        ColumnReader::Int32ColumnReader(typed) => {
            let mut out = vec![0; 3];
            assert_eq!(typed.read_batch(3, &mut out), (3, 3));
            assert_eq!(read_column(typed), (4..=20).collect::<Vec<i32>>());
            assert_eq!(typed.remaining(), 0);
            assert_eq!(read_column(typed), Vec::<i32>::new());
        }
    }
}

#[test]
fn readers_of_one_file_do_not_disturb_each_other() {
    let reader = FileReader::open(write_ints(&one_column(), &[1, 2, 3])).unwrap();
    let first_group = reader.get_row_group_reader(0).unwrap();
    let second_group = reader.get_row_group_reader(0).unwrap();
    let mut first = first_group.get_column_reader(0).unwrap();
    let mut second = second_group.get_column_reader(0).unwrap();
    let mut again = first_group.get_column_reader(0).unwrap();
    let mut out = vec![0; 2];
    match (&mut first, &mut second, &mut again) {
        (
            ColumnReader::Int32ColumnReader(a),
            ColumnReader::Int32ColumnReader(b),
            ColumnReader::Int32ColumnReader(c),
        ) => {
            assert_eq!(a.read_batch(2, &mut out), (2, 2));
            assert_eq!(out, vec![1, 2]);
            assert_eq!(b.read_batch(1, &mut out), (1, 1));
            assert_eq!(out, vec![1, 2]);
            assert_eq!(a.read_batch(2, &mut out), (1, 1));
            assert_eq!(out, vec![3, 2]);
            assert_eq!(b.read_batch(2, &mut out), (2, 2));
            assert_eq!(out, vec![2, 3]);
            assert_eq!(c.remaining(), 3);
        }
    }
}

#[test]
fn reader_keeps_the_bytes() {
    let bytes = write_ints(&one_column(), &[1, 2, 3]);
    let reader = FileReader::open(bytes.clone()).unwrap();
    assert_eq!(reader.bytes(), &bytes);
}
