//! The writer: a write session that builds the bytes of a file, one row group
//! at a time and one column at a time.
//!
//! A session is idle, has a row group open, has a column of that row group
//! open, or is closed. Handles name the row group and the column that are
//! open; an operation with a handle of something that is no longer open is
//! out of turn and fails with [`Error::State`], leaving the session as it was.

use crate::codec::{le_u64, lemma_le_u64_decode, put_i32, put_u64};
use crate::error::Error;
use crate::layout::{
    chunk_record, chunk_records, column_bytes, equal_counts, file_bytes, groups_shaped,
    lemma_column_bytes_concat, lemma_column_bytes_push, magic, metadata_of, trailer_bytes,
    values_before, FileModel,
};
use crate::metadata::{chunks_view, footer_bytes, put_footer, ChunkMeta, MetadataView};
use crate::schema::{valid_columns, ColumnView, PhysicalType, Schema};
use vstd::prelude::*;

verus! {

/// Where a write session stands.
#[derive(Clone, Copy, Debug, PartialEq, Eq, Structural)]
pub enum Phase {
    /// No row group is open.
    Idle,
    /// A row group is open and none of its columns is.
    RowGroupOpen,
    /// A column of the open row group is open.
    ColumnOpen,
    /// The file is finished.
    Closed,
}

/// What a write session holds, as mathematics.
pub struct SessionView {
    /// The schema that the session was opened with.
    pub schema: Seq<ColumnView>,
    /// The values of the closed row groups, by row group and column.
    pub groups: Seq<Seq<Seq<i32>>>,
    /// The values of the closed columns of the open row group.
    pub columns: Seq<Seq<i32>>,
    /// The values written so far to the open column.
    pub values: Seq<i32>,
    /// Where the session stands.
    pub phase: Phase,
    /// The bytes of the file as far as they are written. Bytes are only ever
    /// appended to them.
    pub written: Seq<u8>,
}

/// The handle of an open row group.
#[derive(Clone, Copy, Debug, PartialEq, Eq, Structural)]
pub struct RowGroupWriter {
    index: usize,
}

impl RowGroupWriter {
    /// The position of the row group in the file.
    pub closed spec fn index_of(self) -> nat {
        self.index as nat
    }

    /// The position of the row group in the file.
    pub fn index(&self) -> (i: usize)
        ensures
            i == self.index_of(),
    {
        self.index
    }
}

/// The handle of an open column.
#[derive(Clone, Copy, Debug, PartialEq, Eq, Structural)]
pub struct ColumnWriter {
    row_group: usize,
    column: usize,
}

impl ColumnWriter {
    /// The position of the column's row group in the file.
    pub closed spec fn row_group_of(self) -> nat {
        self.row_group as nat
    }

    /// The position of the column in the schema.
    pub closed spec fn column_of(self) -> nat {
        self.column as nat
    }

    /// The position of the column's row group in the file.
    pub fn row_group(&self) -> (i: usize)
        ensures
            i == self.row_group_of(),
    {
        self.row_group
    }

    /// The position of the column in the schema.
    pub fn column(&self) -> (i: usize)
        ensures
            i == self.column_of(),
    {
        self.column
    }
}

/// The handle names the row group that is open in the session.
pub open spec fn holds_row_group(v: SessionView, w: RowGroupWriter) -> bool {
    (v.phase == Phase::RowGroupOpen || v.phase == Phase::ColumnOpen) && w.index_of()
        == v.groups.len()
}

/// The handle names the column that is open in the session.
pub open spec fn holds_column(v: SessionView, w: ColumnWriter) -> bool {
    v.phase == Phase::ColumnOpen && w.row_group_of() == v.groups.len() && w.column_of()
        == v.columns.len()
}

/// A null bitmap that marks nothing: none was given, or an empty one.
pub open spec fn no_nulls(nulls: Option<&[bool]>) -> bool {
    match nulls {
        None => true,
        Some(bitmap) => bitmap@.len() == 0,
    }
}

/// The open column may be closed: it has as many rows as the columns of its
/// row group that were closed before it.
pub open spec fn rows_agree(v: SessionView) -> bool {
    v.columns.len() > 0 ==> v.values.len() == v.columns[0].len()
}

/// The file that a session has written once all its row groups are closed.
pub open spec fn session_file(v: SessionView) -> FileModel {
    FileModel { schema: v.schema, groups: v.groups }
}

/// One state of a session comes no earlier than another: it has more closed
/// row groups, or as many and no fewer closed columns in the open one.
pub open spec fn not_before(later: SessionView, earlier: SessionView) -> bool {
    later.groups.len() > earlier.groups.len() || (later.groups.len() == earlier.groups.len()
        && later.columns.len() >= earlier.columns.len())
}

/// A session that writes one file.
pub struct WriteSession {
    schema: Schema,
    buf: Vec<u8>,
    chunks: Vec<ChunkMeta>,
    groups_done: usize,
    columns_done: usize,
    chunk_start: usize,
    group_rows: usize,
    phase: Phase,
    model: Ghost<SessionView>,
}

impl View for WriteSession {
    type V = SessionView;

    closed spec fn view(&self) -> SessionView {
        self.model@
    }
}

/// Appends the plain encoding of `values` to `buf`.
pub fn put_values(buf: &mut Vec<u8>, values: &[i32])
    ensures
        final(buf)@ == old(buf)@ + column_bytes(values@),
{
    let mut i: usize = 0;
    assert(column_bytes(values@.take(0)) =~= Seq::empty());
    while i < values.len()
        invariant
            i <= values@.len(),
            buf@ == old(buf)@ + column_bytes(values@.take(i as int)),
        decreases values@.len() - i,
    {
        put_i32(buf, values[i]);
        proof {
            lemma_column_bytes_push(values@.take(i as int), values@[i as int]);
            assert(values@.take(i + 1) =~= values@.take(i as int).push(values@[i as int]));
        }
        i += 1;
    }
    assert(values@.take(i as int) =~= values@);
}

/// Appends the magic marker to `buf`.
pub fn put_magic(buf: &mut Vec<u8>)
    ensures
        final(buf)@ == old(buf)@ + magic(),
{
    buf.push(0x50);
    buf.push(0x41);
    buf.push(0x52);
    buf.push(0x31);
    assert(buf@ =~= old(buf)@ + magic());
}

/// The record of a chunk does not change when chunks are written after it.
pub proof fn lemma_chunk_record_stable(chunks: Seq<Seq<i32>>, next: Seq<i32>, k: int)
    requires
        0 <= k < chunks.len(),
    ensures
        chunk_record(chunks.push(next), k) == chunk_record(chunks, k),
{
    assert(chunks.push(next).take(k) =~= chunks.take(k));
}

/// A chunk that is written next starts where the values before it end.
pub proof fn lemma_chunk_record_last(chunks: Seq<Seq<i32>>, next: Seq<i32>)
    ensures
        values_before(chunks.push(next), chunks.len() as int) == chunks.flatten().len(),
        chunk_records(chunks.push(next)) == chunk_records(chunks).push(
            chunk_record(chunks.push(next), chunks.len() as int),
        ),
{
    assert(chunks.push(next).take(chunks.len() as int) =~= chunks);
    assert forall|k: int| 0 <= k < chunks.len() implies chunk_record(chunks.push(next), k)
        == chunk_record(chunks, k) by {
        lemma_chunk_record_stable(chunks, next, k);
    }
    assert(chunk_records(chunks.push(next)) =~= chunk_records(chunks).push(
        chunk_record(chunks.push(next), chunks.len() as int),
    ));
}

impl WriteSession {
    /// What must hold of a session between calls: the bytes written so far
    /// are the marker and the plain encoding of the values of the model, and
    /// the chunk records say where the closed chunks lie.
    pub closed spec fn wf(&self) -> bool {
        let v = self.model@;
        let ncols = self.schema@.len();
        let written = v.groups.flatten() + v.columns;
        &&& v.schema == self.schema@
        &&& v.phase == self.phase
        &&& valid_columns(self.schema@)
        &&& groups_shaped(v.groups, ncols)
        &&& equal_counts(v.columns)
        &&& v.groups.len() == self.groups_done
        &&& v.columns.len() == self.columns_done
        &&& self.columns_done <= ncols
        &&& self.groups_done + self.columns_done <= self.chunks@.len()
        &&& chunks_view(self.chunks@) == chunk_records(written)
        &&& (self.phase != Phase::Closed ==> self.buf@ == v.written && v.written == magic()
            + column_bytes(written.flatten() + v.values))
        &&& (self.phase == Phase::Closed ==> v.written == file_bytes(session_file(v)))
        &&& (self.phase == Phase::Idle || self.phase == Phase::Closed ==> v.columns.len() == 0)
        &&& (self.phase != Phase::ColumnOpen ==> v.values.len() == 0)
        &&& (self.phase == Phase::ColumnOpen ==> self.columns_done < ncols && self.chunk_start == 4
            + 4 * written.flatten().len())
        &&& (self.columns_done > 0 ==> self.group_rows == v.columns[0].len())
    }

    /// What follows from [`WriteSession::wf`] for the model: the schema is
    /// valid, the closed row groups have its shape, the closed columns of the
    /// open row group have equally many rows, and only an open column holds
    /// values that are in no closed one.
    pub proof fn lemma_wf_model(&self)
        requires
            self.wf(),
        ensures
            valid_columns(self@.schema),
            groups_shaped(self@.groups, self@.schema.len()),
            equal_counts(self@.columns),
            self@.columns.len() <= self@.schema.len(),
            self@.phase == Phase::ColumnOpen ==> self@.columns.len() < self@.schema.len(),
            self@.phase == Phase::Idle || self@.phase == Phase::Closed ==> self@.columns.len() == 0,
            self@.phase != Phase::ColumnOpen ==> self@.values.len() == 0,
    {
    }

    /// Starts a session for a file with the given schema. The magic marker is
    /// written at once; nothing else is yet.
    pub fn open(schema: Schema) -> (s: WriteSession)
        ensures
            s.wf(),
            valid_columns(schema@),
            s@ == (SessionView {
                schema: schema@,
                groups: Seq::empty(),
                columns: Seq::empty(),
                values: Seq::empty(),
                phase: Phase::Idle,
                written: magic(),
            }),
    {
        let mut buf: Vec<u8> = Vec::new();
        put_magic(&mut buf);
        let _ncols: usize = schema.num_columns();
        let ghost view = SessionView {
            schema: schema@,
            groups: Seq::empty(),
            columns: Seq::empty(),
            values: Seq::empty(),
            phase: Phase::Idle,
            written: magic(),
        };
        let s = WriteSession {
            schema,
            buf,
            chunks: Vec::new(),
            groups_done: 0,
            columns_done: 0,
            chunk_start: 0,
            group_rows: 0,
            phase: Phase::Idle,
            model: Ghost(view),
        };
        proof {
            let written = view.groups.flatten() + view.columns;
            assert(written =~= Seq::empty());
            assert(written.flatten() + view.values =~= Seq::empty());
            assert(column_bytes(Seq::empty()) =~= Seq::empty());
            assert(s.buf@ =~= magic());
            assert(magic() =~= magic() + column_bytes(written.flatten() + view.values));
            assert(chunks_view(s.chunks@) =~= chunk_records(written));
        }
        s
    }

    /// The schema of the file.
    pub fn schema(&self) -> (r: &Schema)
        requires
            self.wf(),
        ensures
            r@ == self@.schema,
    {
        &self.schema
    }

    /// Where the session stands.
    pub fn phase(&self) -> (p: Phase)
        requires
            self.wf(),
        ensures
            p == self@.phase,
    {
        self.phase
    }

    /// Opens the next row group.
    ///
    /// Fails with [`Error::State`] unless the session is idle: while a row
    /// group is open no second one can be, and after the close none.
    pub fn begin_row_group(&mut self) -> (r: Result<RowGroupWriter, Error>)
        requires
            old(self).wf(),
        ensures
            final(self).wf(),
            not_before(final(self)@, old(self)@),
            match r {
                Ok(w) => {
                    &&& old(self)@.phase == Phase::Idle
                    &&& final(self)@ == (SessionView { phase: Phase::RowGroupOpen, ..old(self)@ })
                    &&& holds_row_group(final(self)@, w)
                },
                Err(e) => {
                    &&& e == Error::State
                    &&& old(self)@.phase != Phase::Idle
                    &&& final(self)@ == old(self)@
                },
            },
    {
        if self.phase != Phase::Idle {
            return Err(Error::State);
        }
        self.phase = Phase::RowGroupOpen;
        self.model = Ghost(SessionView { phase: Phase::RowGroupOpen, ..self.model@ });
        Ok(RowGroupWriter { index: self.groups_done })
    }

    /// Opens the next column of the open row group, in schema order, or says
    /// that there is none left.
    ///
    /// Fails with [`Error::State`] when the handle is not that of the open
    /// row group, or a column of it is still open.
    pub fn next_column_writer(&mut self, row_group: &RowGroupWriter) -> (r: Result<
        Option<ColumnWriter>,
        Error,
    >)
        requires
            old(self).wf(),
        ensures
            final(self).wf(),
            not_before(final(self)@, old(self)@),
            match r {
                Ok(Some(w)) => {
                    &&& old(self)@.phase == Phase::RowGroupOpen
                    &&& holds_row_group(old(self)@, *row_group)
                    &&& old(self)@.columns.len() < old(self)@.schema.len()
                    &&& final(self)@ == (SessionView { phase: Phase::ColumnOpen, ..old(self)@ })
                    &&& holds_column(final(self)@, w)
                },
                Ok(None) => {
                    &&& old(self)@.phase == Phase::RowGroupOpen
                    &&& holds_row_group(old(self)@, *row_group)
                    &&& old(self)@.columns.len() == old(self)@.schema.len()
                    &&& final(self)@ == old(self)@
                },
                Err(e) => {
                    &&& e == Error::State
                    &&& !(old(self)@.phase == Phase::RowGroupOpen && holds_row_group(
                        old(self)@,
                        *row_group,
                    ))
                    &&& final(self)@ == old(self)@
                },
            },
    {
        if self.phase != Phase::RowGroupOpen || row_group.index != self.groups_done {
            return Err(Error::State);
        }
        if self.columns_done == self.schema.num_columns() {
            return Ok(None);
        }
        self.phase = Phase::ColumnOpen;
        self.chunk_start = self.buf.len();
        self.model = Ghost(SessionView { phase: Phase::ColumnOpen, ..self.model@ });
        proof {
            let v = self.model@;
            let written = v.groups.flatten() + v.columns;
            assert(written.flatten() + v.values =~= written.flatten());
        }
        Ok(Some(ColumnWriter { row_group: self.groups_done, column: self.columns_done }))
    }

    /// Appends `values` to the open column, in order, each in plain encoding.
    ///
    /// Fails with [`Error::State`] when the handle is not that of the open
    /// column: the column was closed, or never opened in this session. Fails
    /// with [`Error::Type`] when a null bitmap with entries comes with the
    /// values: every column is required, and a null is no value of its type.
    /// A failed call writes nothing.
    pub fn write_batch(&mut self, column: &ColumnWriter, values: &[i32], nulls: Option<&[bool]>) -> (r:
        Result<(), Error>)
        requires
            old(self).wf(),
        ensures
            final(self).wf(),
            not_before(final(self)@, old(self)@),
            match r {
                Ok(()) => {
                    &&& holds_column(old(self)@, *column)
                    &&& no_nulls(nulls)
                    &&& final(self)@ == (SessionView {
                        values: old(self)@.values + values@,
                        written: old(self)@.written + column_bytes(values@),
                        ..old(self)@
                    })
                },
                Err(e) => {
                    &&& final(self)@ == old(self)@
                    &&& if holds_column(old(self)@, *column) {
                        e == Error::Type && !no_nulls(nulls)
                    } else {
                        e == Error::State
                    }
                },
            },
    {
        if self.phase != Phase::ColumnOpen || column.row_group != self.groups_done || column.column
            != self.columns_done {
            return Err(Error::State);
        }
        match nulls {
            None => {},
            Some(bitmap) => {
                if bitmap.len() != 0 {
                    return Err(Error::Type);
                }
            },
        }
        let ghost before = self.model@;
        let ghost written = before.groups.flatten() + before.columns;
        put_values(&mut self.buf, values);
        self.model = Ghost(
            SessionView {
                values: before.values + values@,
                written: before.written + column_bytes(values@),
                ..before
            },
        );
        proof {
            lemma_column_bytes_concat(written.flatten() + before.values, values@);
            assert(written.flatten() + (before.values + values@) =~= (written.flatten()
                + before.values) + values@);
            assert(self.buf@ =~= magic() + column_bytes(
                written.flatten() + (before.values + values@),
            ));
        }
        Ok(())
    }

    /// Closes the open column: its chunk is finished, and its record is kept
    /// for the footer.
    ///
    /// Fails with [`Error::State`] when the handle is not that of the open
    /// column, or the column has not as many rows as the columns of its row
    /// group that were closed before it.
    pub fn close_column(&mut self, column: &ColumnWriter) -> (r: Result<(), Error>)
        requires
            old(self).wf(),
        ensures
            final(self).wf(),
            not_before(final(self)@, old(self)@),
            match r {
                Ok(()) => {
                    &&& holds_column(old(self)@, *column)
                    &&& rows_agree(old(self)@)
                    &&& final(self)@ == (SessionView {
                        columns: old(self)@.columns.push(old(self)@.values),
                        values: Seq::empty(),
                        phase: Phase::RowGroupOpen,
                        ..old(self)@
                    })
                },
                Err(e) => {
                    &&& e == Error::State
                    &&& !(holds_column(old(self)@, *column) && rows_agree(old(self)@))
                    &&& final(self)@ == old(self)@
                },
            },
    {
        if self.phase != Phase::ColumnOpen || column.row_group != self.groups_done || column.column
            != self.columns_done {
            return Err(Error::State);
        }
        let ghost before = self.model@;
        let ghost written = before.groups.flatten() + before.columns;
        proof {
            lemma_column_bytes_concat(written.flatten(), before.values);
            assert(column_bytes(written.flatten()).len() == 4 * written.flatten().len());
            assert(column_bytes(before.values).len() == 4 * before.values.len());
            assert(self.buf@.len() == 4 + 4 * written.flatten().len() + 4 * before.values.len());
        }
        let ncols: usize = self.schema.num_columns();
        let byte_len: usize = self.buf.len() - self.chunk_start;
        let count: usize = byte_len / 4;
        if self.columns_done > 0 && count != self.group_rows {
            return Err(Error::State);
        }
        let record = ChunkMeta {
            physical: PhysicalType::Int32,
            count: count as u64,
            offset: self.chunk_start as u64,
            byte_len: byte_len as u64,
        };
        let ghost after = SessionView {
            columns: before.columns.push(before.values),
            values: Seq::empty(),
            phase: Phase::RowGroupOpen,
            ..before
        };
        proof {
            let written2 = after.groups.flatten() + after.columns;
            assert(written2 =~= written.push(before.values));
            lemma_chunk_record_last(written, before.values);
            written.lemma_flatten_push(before.values);
            assert(written2.flatten() + after.values =~= written.flatten() + before.values);
            assert(record@ == chunk_record(written2, written.len() as int));
            assert(chunks_view(self.chunks@.push(record)) =~= chunks_view(self.chunks@).push(
                record@,
            ));
            assert(equal_counts(after.columns)) by {
                assert forall|c: int| 0 <= c < after.columns.len() implies (
                #[trigger] after.columns[c]).len() == after.columns[0].len() by {
                    if c < before.columns.len() {
                        assert(after.columns[c] == before.columns[c]);
                    }
                }
            }
        }
        if self.columns_done == 0 {
            self.group_rows = count;
        }
        self.chunks.push(record);
        self.columns_done = self.columns_done + 1;
        self.phase = Phase::RowGroupOpen;
        self.model = Ghost(after);
        Ok(())
    }

    /// Closes the open row group, once every column of the schema has been
    /// written and closed.
    ///
    /// Fails with [`Error::State`] when the handle is not that of the open
    /// row group, a column is still open, or columns are still missing.
    pub fn close_row_group(&mut self, row_group: &RowGroupWriter) -> (r: Result<(), Error>)
        requires
            old(self).wf(),
        ensures
            final(self).wf(),
            not_before(final(self)@, old(self)@),
            match r {
                Ok(()) => {
                    &&& old(self)@.phase == Phase::RowGroupOpen
                    &&& holds_row_group(old(self)@, *row_group)
                    &&& old(self)@.columns.len() == old(self)@.schema.len()
                    &&& final(self)@ == (SessionView {
                        groups: old(self)@.groups.push(old(self)@.columns),
                        columns: Seq::empty(),
                        phase: Phase::Idle,
                        ..old(self)@
                    })
                },
                Err(e) => {
                    &&& e == Error::State
                    &&& !(old(self)@.phase == Phase::RowGroupOpen && holds_row_group(
                        old(self)@,
                        *row_group,
                    ) && old(self)@.columns.len() == old(self)@.schema.len())
                    &&& final(self)@ == old(self)@
                },
            },
    {
        if self.phase != Phase::RowGroupOpen || row_group.index != self.groups_done
            || self.columns_done != self.schema.num_columns() {
            return Err(Error::State);
        }
        let ghost before = self.model@;
        let ghost after = SessionView {
            groups: before.groups.push(before.columns),
            columns: Seq::empty(),
            phase: Phase::Idle,
            ..before
        };
        proof {
            before.groups.lemma_flatten_push(before.columns);
            assert(after.groups.flatten() + after.columns =~= before.groups.flatten()
                + before.columns);
        }
        let nchunks: usize = self.chunks.len();
        assert(self.groups_done < nchunks);
        self.groups_done = self.groups_done + 1;
        self.columns_done = 0;
        self.phase = Phase::Idle;
        self.model = Ghost(after);
        Ok(())
    }

    /// Finishes the file and hands out its bytes: the footer is appended to
    /// the data, then its length and the magic marker.
    ///
    /// Fails with [`Error::State`] unless the session is idle: a row group is
    /// still open, or the session was closed before.
    pub fn close(&mut self) -> (r: Result<Vec<u8>, Error>)
        requires
            old(self).wf(),
        ensures
            final(self).wf(),
            not_before(final(self)@, old(self)@),
            match r {
                Ok(bytes) => {
                    &&& old(self)@.phase == Phase::Idle
                    &&& final(self)@ == (SessionView {
                        phase: Phase::Closed,
                        written: bytes@,
                        ..old(self)@
                    })
                    &&& session_file(old(self)@).valid()
                    &&& bytes@ == file_bytes(session_file(old(self)@))
                    &&& bytes@ == old(self)@.written + footer_bytes(
                        metadata_of(session_file(old(self)@)),
                    ) + trailer_bytes(footer_bytes(metadata_of(session_file(old(self)@))).len())
                    &&& bytes@.len() >= 16
                    &&& bytes@.subrange(0, 4) == magic()
                    &&& bytes@.subrange(bytes@.len() - 4, bytes@.len() as int) == magic()
                },
                Err(e) => {
                    &&& e == Error::State
                    &&& old(self)@.phase != Phase::Idle
                    &&& final(self)@ == old(self)@
                },
            },
    {
        if self.phase != Phase::Idle {
            return Err(Error::State);
        }
        let ghost before = self.model@;
        let ghost file = session_file(before);
        let ghost meta = MetadataView {
            schema: self.schema@,
            num_row_groups: self.groups_done as u64,
            chunks: chunks_view(self.chunks@),
        };
        let mut bytes: Vec<u8> = Vec::new();
        std::mem::swap(&mut self.buf, &mut bytes);
        let ghost data = bytes@;
        let footer_start: usize = bytes.len();
        put_footer(&mut bytes, &self.schema, self.groups_done as u64, &self.chunks);
        let footer_len: usize = bytes.len() - footer_start;
        put_u64(&mut bytes, footer_len as u64);
        put_magic(&mut bytes);
        let total: usize = bytes.len();
        self.phase = Phase::Closed;
        self.model = Ghost(SessionView { phase: Phase::Closed, written: bytes@, ..before });
        proof {
            let written = before.groups.flatten() + before.columns;
            assert(written =~= file.chunks());
            assert(written.flatten() + before.values =~= file.values());
            assert(meta == metadata_of(file));
            assert(data == magic() + column_bytes(file.values()));
            assert(footer_len == footer_bytes(meta).len());
            assert(bytes@ == data + footer_bytes(meta) + le_u64(footer_len as u64) + magic());
            assert(bytes@ =~= file_bytes(file));
            assert(file_bytes(file).len() == total);
            lemma_le_u64_decode(footer_len as u64);
            assert(bytes@.subrange(0, 4) =~= magic());
            assert(bytes@.subrange(bytes@.len() - 4, bytes@.len() as int) =~= magic());
        }
        Ok(bytes)
    }
}

} // verus!
