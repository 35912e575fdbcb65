//! Whole files at once: one call that writes a sequence of integers as a
//! file, and one that reads the integers of a file back.

use crate::decode::{lemma_parse_file_complete, parse_file};
use crate::error::Error;
use crate::layout::{file_bytes, FileModel};
use crate::reader::{ColumnReader, FileReader, Int32Reader, RowGroupReader};
use crate::schema::{ColumnView, Schema};
use crate::writer::{
    holds_row_group, session_file, ColumnWriter, Phase, RowGroupWriter, WriteSession,
};
use vstd::prelude::*;

verus! {

/// The file of one row group in which every column of the schema holds the
/// same `values`.
pub open spec fn ints_file(schema: Seq<ColumnView>, values: Seq<i32>) -> FileModel {
    FileModel { schema, groups: seq![Seq::new(schema.len(), |c: int| values)] }
}

/// The values of the column that stands last in a file: the last column of
/// the last row group, and nothing where the file has no row group.
pub open spec fn last_column(m: FileModel) -> Seq<i32> {
    if m.groups.len() == 0 || m.groups.last().len() == 0 {
        Seq::empty()
    } else {
        m.groups.last().last()
    }
}

/// What [`read_ints`] makes of a byte string.
pub open spec fn read_ints_result(bytes: Seq<u8>) -> Result<Seq<i32>, Error> {
    match parse_file(bytes) {
        None => Err(Error::Format),
        Some(m) => Ok(last_column(m)),
    }
}

/// Writes a file of one row group, with `values` in every column of the
/// schema, and returns its bytes.
pub fn write_ints(schema: &Schema, values: &[i32]) -> (bytes: Vec<u8>)
    ensures
        ints_file(schema@, values@).valid(),
        bytes@ == file_bytes(ints_file(schema@, values@)),
        read_ints_result(bytes@) == Ok::<Seq<i32>, Error>(values@),
{
    let ghost cols = schema@;
    let ncols: usize = schema.num_columns();
    let mut session = WriteSession::open(schema.clone());
    let row_group: RowGroupWriter = session.begin_row_group().unwrap();
    loop
        invariant
            session.wf(),
            session@.schema == cols,
            session@.groups == Seq::<Seq<Seq<i32>>>::empty(),
            session@.values == Seq::<i32>::empty(),
            session@.phase == Phase::RowGroupOpen,
            holds_row_group(session@, row_group),
            session@.columns.len() <= cols.len(),
            forall|c: int| 0 <= c < session@.columns.len() ==> session@.columns[c] == values@,
        ensures
            session@.columns.len() == cols.len(),
        decreases cols.len() - session@.columns.len(),
    {
        let next: Option<ColumnWriter> = session.next_column_writer(&row_group).unwrap();
        match next {
            None => {
                break ;
            },
            Some(column) => {
                session.write_batch(&column, values, None).unwrap();
                assert(session@.values =~= values@);
                session.close_column(&column).unwrap();
            },
        }
    }
    let ghost columns = session@.columns;
    session.close_row_group(&row_group).unwrap();
    let ghost written = session@;
    let bytes: Vec<u8> = session.close().unwrap();
    proof {
        assert(columns =~= Seq::new(cols.len(), |c: int| values@));
        assert(written.groups =~= seq![columns]);
        assert(session_file(written) == ints_file(cols, values@));
        lemma_ints_round_trip(cols, values@);
    }
    bytes
}

/// Reads what is left of a column chunk, batch by batch.
pub fn read_column(reader: &mut Int32Reader<'_>) -> (values: Vec<i32>)
    ensures
        final(reader).values_of() == old(reader).values_of(),
        final(reader).position_of() == old(reader).values_of().len(),
        old(reader).position_of() <= old(reader).values_of().len(),
        values@ == old(reader).values_of().skip(old(reader).position_of() as int),
{
    let mut values: Vec<i32> = Vec::new();
    let mut batch: Vec<i32> = vec![0; 8];
    let ghost all = reader.values_of();
    let ghost start = reader.position_of() as int;
    let mut left: usize = reader.remaining();
    while left > 0
        invariant
            batch@.len() == 8,
            reader.values_of() == all,
            0 <= start <= reader.position_of() <= all.len(),
            left == all.len() - reader.position_of(),
            values@ == all.subrange(start, reader.position_of() as int),
        decreases left,
    {
        let ghost before = reader.position_of() as int;
        let (n, _levels) = reader.read_batch(8, &mut batch);
        let mut i: usize = 0;
        while i < n
            invariant
                i <= n <= 8,
                batch@.len() == 8,
                before + n <= all.len(),
                0 <= start <= before,
                forall|j: int| 0 <= j < n ==> batch@[j] == all[before + j],
                values@ == all.subrange(start, before + i),
            decreases n - i,
        {
            values.push(batch[i]);
            assert(values@ =~= all.subrange(start, before + i + 1));
            i += 1;
        }
        left = left - n;
    }
    assert(all.subrange(start, all.len() as int) =~= all.skip(start));
    values
}

/// Reads the integers of a file: every column of every row group in file
/// order, each in full, and hands out the last one.
///
/// Fails with [`Error::Format`] exactly when the bytes are not a file.
pub fn read_ints(bytes: Vec<u8>) -> (r: Result<Vec<i32>, Error>)
    ensures
        match r {
            Ok(values) => read_ints_result(bytes@) == Ok::<Seq<i32>, Error>(values@),
            Err(e) => read_ints_result(bytes@) == Err::<Seq<i32>, Error>(e),
        },
{
    let reader: FileReader = match FileReader::open(bytes) {
        Err(e) => {
            return Err(e);
        },
        Ok(reader) => reader,
    };
    let ghost m = reader@;
    let mut values: Vec<i32> = Vec::new();
    let ngroups: usize = reader.row_group_count();
    let mut i: usize = 0;
    while i < ngroups
        invariant
            i <= ngroups,
            ngroups == m.groups.len(),
            reader@ == m,
            m.valid(),
            values@ == (if i == 0 {
                Seq::<i32>::empty()
            } else {
                m.groups[i - 1].last()
            }),
        decreases ngroups - i,
    {
        let row_group: RowGroupReader = reader.get_row_group_reader(i).unwrap();
        let ncols: usize = row_group.column_count();
        let ghost outer = values@;
        let mut j: usize = 0;
        assert(m.groups[i as int].len() == m.schema.len());
        while j < ncols
            invariant
                j <= ncols,
                i < ngroups,
                ngroups == m.groups.len(),
                ncols == m.groups[i as int].len(),
                row_group.file_of() == m,
                row_group.index_of() == i,
                values@ == (if j == 0 {
                    outer
                } else {
                    m.groups[i as int][j - 1]
                }),
            decreases ncols - j,
        {
            let mut column: ColumnReader = row_group.get_column_reader(j).unwrap();
            match &mut column {
                ColumnReader::Int32ColumnReader(typed) => {
                    values = read_column(typed);
                    assert(values@ =~= m.groups[i as int][j as int]);
                },
            }
            j += 1;
        }
        i += 1;
    }
    Ok(values)
}

/// Reading what [`write_ints`] wrote gives the values back: for every valid
/// schema and every sequence of values, empty or not, whose file is short
/// enough for its offsets to fit in eight bytes.
pub proof fn lemma_ints_round_trip(schema: Seq<ColumnView>, values: Seq<i32>)
    requires
        ints_file(schema, values).valid(),
    ensures
        read_ints_result(file_bytes(ints_file(schema, values))) == Ok::<Seq<i32>, Error>(values),
{
    let m = ints_file(schema, values);
    lemma_parse_file_complete(m);
    assert(m.groups.last() == m.groups[0]);
    assert(m.groups[0].last() == values);
}

} // verus!
