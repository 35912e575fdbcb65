use colfile::codec::{get_i32, get_u32, get_u64, put_i32, put_u32, put_u64};
use colfile::footer::{read_chunk_meta, read_column_def, read_footer};
use colfile::metadata::{put_bytes, put_chunk_meta, put_column_def, put_footer, ChunkMeta};
use colfile::reader::{check_chunks, has_magic};
use colfile::schema::{build_schema, define_column, PhysicalType};
use colfile::writer::{put_magic, put_values};

#[test]
fn unsigned_numbers_are_little_endian() {
    let mut buf = vec![9];
    put_u32(&mut buf, 0x0A0B0C0D);
    assert_eq!(buf, vec![9, 0x0D, 0x0C, 0x0B, 0x0A]);
    put_u64(&mut buf, 0x0102030405060708);
    assert_eq!(&buf[5..], &[8, 7, 6, 5, 4, 3, 2, 1]);
    assert_eq!(get_u32(&buf, 1), 0x0A0B0C0D);
    assert_eq!(get_u64(&buf, 5), 0x0102030405060708);
    let mut edge = Vec::new();
    put_u32(&mut edge, u32::MAX);
    put_u64(&mut edge, u64::MAX);
    put_u64(&mut edge, 0);
    assert_eq!(get_u32(&edge, 0), u32::MAX);
    assert_eq!(get_u64(&edge, 4), u64::MAX);
    assert_eq!(get_u64(&edge, 12), 0);
}

#[test]
fn values_are_twos_complement() {
    let mut buf = Vec::new();
    for v in [0, 1, -1, i32::MIN, i32::MAX, -2] {
        put_i32(&mut buf, v);
    }
    assert_eq!(&buf[0..4], &[0, 0, 0, 0]);
    assert_eq!(&buf[4..8], &[1, 0, 0, 0]);
    assert_eq!(&buf[8..12], &[0xFF, 0xFF, 0xFF, 0xFF]);
    assert_eq!(&buf[12..16], &[0, 0, 0, 0x80]);
    assert_eq!(&buf[16..20], &[0xFF, 0xFF, 0xFF, 0x7F]);
    assert_eq!(&buf[20..24], &[0xFE, 0xFF, 0xFF, 0xFF]);
    assert_eq!(get_i32(&buf, 0), 0);
    assert_eq!(get_i32(&buf, 4), 1);
    assert_eq!(get_i32(&buf, 8), -1);
    assert_eq!(get_i32(&buf, 12), i32::MIN);
    assert_eq!(get_i32(&buf, 16), i32::MAX);
    assert_eq!(get_i32(&buf, 20), -2);
}

#[test]
fn values_and_markers_are_appended() {
    let mut buf = vec![7];
    put_magic(&mut buf);
    put_values(&mut buf, &[1, -1]);
    put_bytes(&mut buf, &[5, 6]);
    assert_eq!(buf, vec![7, b'P', b'A', b'R', b'1', 1, 0, 0, 0, 255, 255, 255, 255, 5, 6]);
    assert!(has_magic(&buf, 1));
    assert!(!has_magic(&buf, 0));
    assert!(!has_magic(&buf, 2));
}

#[test]
fn column_definition_bytes() {
    let mut buf = Vec::new();
    put_column_def(&mut buf, &define_column("id", PhysicalType::Int32, true));
    assert_eq!(buf, vec![2, 0, 0, 0, 0, 0, 0, 0, b'i', b'd', 1, 1]);
    put_column_def(&mut buf, &define_column("", PhysicalType::Int32, false));
    assert_eq!(&buf[12..], &[0, 0, 0, 0, 0, 0, 0, 0, 1, 0]);
    let (first, next) = read_column_def(&buf, 0).unwrap();
    assert_eq!(first.name(), "id");
    assert!(first.is_required());
    assert_eq!(next, 12);
    let (second, end) = read_column_def(&buf, 12).unwrap();
    assert_eq!(second.name(), "");
    assert!(!second.is_required());
    assert_eq!(end, 22);
    assert!(read_column_def(&buf, 22).is_none());
    assert!(read_column_def(&buf, 13).is_none());
}

#[test]
fn chunk_record_bytes() {
    let record =
        ChunkMeta { physical: PhysicalType::Int32, count: 3, offset: 4, byte_len: 12 };
    let mut buf = Vec::new();
    put_chunk_meta(&mut buf, &record);
    assert_eq!(buf.len(), 25);
    assert_eq!(buf[0], 1);
    assert_eq!(&buf[1..9], &[3, 0, 0, 0, 0, 0, 0, 0]);
    assert_eq!(&buf[9..17], &[4, 0, 0, 0, 0, 0, 0, 0]);
    assert_eq!(&buf[17..25], &[12, 0, 0, 0, 0, 0, 0, 0]);
    assert_eq!(read_chunk_meta(&buf, 0), Some((record, 25)));
    assert_eq!(read_chunk_meta(&buf, 1), None);
    buf[0] = 9;
    assert_eq!(read_chunk_meta(&buf, 0), None);
}

#[test]
fn footer_comes_back_as_it_was_written() {
    let schema = build_schema(vec![
        define_column("a", PhysicalType::Int32, true),
        define_column("bc", PhysicalType::Int32, true),
    ])
    .unwrap();
    let chunks = vec![
        ChunkMeta { physical: PhysicalType::Int32, count: 2, offset: 4, byte_len: 8 },
        ChunkMeta { physical: PhysicalType::Int32, count: 2, offset: 12, byte_len: 8 },
    ];
    let mut buf = Vec::new();
    put_footer(&mut buf, &schema, 1, &chunks);
    assert_eq!(buf.len(), 8 + 11 + 12 + 8 + 50);
    let meta = read_footer(&buf).unwrap();
    assert_eq!(meta.num_row_groups, 1);
    assert_eq!(meta.chunks, chunks);
    assert_eq!(meta.columns.len(), 2);
    assert_eq!(meta.columns[0].name(), "a");
    assert_eq!(meta.columns[1].name(), "bc");
    assert!(read_footer(&buf[..buf.len() - 1]).is_none());
    assert!(read_footer(&buf[1..]).is_none());
    assert!(read_footer(&[]).is_none());
    // a footer says what it says, whether or not data fit it
    let mut loose = Vec::new();
    put_footer(&mut loose, &schema, 5, &chunks[..1].to_vec());
    let meta = read_footer(&loose).unwrap();
    assert_eq!(meta.num_row_groups, 5);
    assert_eq!(meta.chunks.len(), 1);
}

#[test]
fn chunk_records_are_checked_against_the_data() {
    let record = |count: u64, offset: u64, byte_len: u64| ChunkMeta {
        physical: PhysicalType::Int32,
        count,
        offset,
        byte_len,
    };
    let good = vec![record(2, 4, 8), record(2, 12, 8), record(0, 20, 0), record(0, 20, 0)];
    assert!(check_chunks(&good, 2, 2, 20));
    assert!(!check_chunks(&good, 2, 2, 24));
    assert!(!check_chunks(&good, 2, 1, 20));
    assert!(!check_chunks(&good, 3, 1, 20));
    assert!(!check_chunks(&good, 4, 1, 20));
    assert!(check_chunks(&vec![], 3, 0, 4));
    assert!(!check_chunks(&vec![], 3, 0, 5));
    assert!(!check_chunks(&vec![], 3, 1, 4));
    assert!(check_chunks(&vec![record(1, 4, 4), record(2, 8, 8)], 1, 2, 16));
    assert!(!check_chunks(&vec![record(1, 4, 4), record(2, 8, 8)], 2, 1, 16));
    assert!(!check_chunks(&vec![record(1, 4, 4), record(1, 9, 4)], 2, 1, 13));
    assert!(!check_chunks(&vec![record(1, 4, 5)], 1, 1, 9));
    assert!(!check_chunks(&vec![record(2, 4, 4)], 1, 1, 8));
    assert!(!check_chunks(&vec![record(u64::MAX, 4, u64::MAX)], 1, 1, 8));
    assert!(!check_chunks(&vec![record(1 << 62, 4, 0)], 1, 1, 4));
}
