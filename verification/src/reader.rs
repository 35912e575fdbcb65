//! The reader: opens a file from its bytes, and hands out readers for its row
//! groups and columns.
//!
//! A file reader owns the bytes and never changes them, so any number of row
//! group and column readers may read from it side by side.

use crate::codec::{get_i32, get_u64, lemma_le_i32_decode};
use crate::decode::{
    chunks_fit, expected_offset, file_footer, footer_start, framed, is_file,
    lemma_expected_offset_monotone, lemma_parse_file_is_file, lemma_parse_file_sound, parse_file,
    record_fits, same_rows,
};
use crate::error::Error;
use crate::footer::read_footer;
use crate::layout::{
    chunk_record, chunk_records, file_bytes, lemma_chunk_in_values, lemma_uniform_index,
    lemma_value_bytes, magic, uniform, values_before, FileModel,
};
use crate::metadata::{chunks_view, ChunkMeta, FileMetadata};
use crate::schema::{build_schema, PhysicalType, Schema};
use vstd::arithmetic::div_mod::{lemma_fundamental_div_mod, lemma_fundamental_div_mod_converse};
use vstd::prelude::*;
use vstd::slice::slice_subrange;

verus! {

/// Whether the magic marker stands at `pos`.
pub fn has_magic(bytes: &[u8], pos: usize) -> (r: bool)
    requires
        pos + 4 <= bytes@.len(),
    ensures
        r == (bytes@.subrange(pos as int, pos + 4) == magic()),
{
    let len: usize = bytes.len();
    let r = bytes[pos] == 0x50 && bytes[pos + 1] == 0x41 && bytes[pos + 2] == 0x52 && bytes[pos
        + 3] == 0x31;
    proof {
        let s = bytes@.subrange(pos as int, pos + 4);
        assert(s[0] == bytes@[pos as int]);
        assert(s[1] == bytes@[pos + 1]);
        assert(s[2] == bytes@[pos + 2]);
        assert(s[3] == bytes@[pos + 3]);
        if r {
            assert(s =~= magic());
        }
    }
    r
}

/// Whether the chunk records describe data that end at `data_end`, in row
/// groups of `ncols` columns.
pub fn check_chunks(chunks: &Vec<ChunkMeta>, ncols: usize, num_row_groups: u64, data_end: usize) -> (ok:
    bool)
    requires
        ncols > 0,
        data_end >= 4,
    ensures
        ok == chunks_fit(chunks_view(chunks@), ncols as nat, num_row_groups, data_end as int),
{
    let nchunks: usize = chunks.len();
    let ghost records = chunks_view(chunks@);
    if nchunks % ncols != 0 || (nchunks / ncols) as u64 != num_row_groups {
        proof {
            if records.len() == num_row_groups * ncols {
                lemma_fundamental_div_mod_converse(
                    nchunks as int,
                    ncols as int,
                    num_row_groups as int,
                    0,
                );
            }
        }
        return false;
    }
    proof {
        lemma_fundamental_div_mod(nchunks as int, ncols as int);
        assert(ncols * (nchunks / ncols) == (nchunks / ncols) * ncols) by (nonlinear_arith);
    }
    let end: u64 = data_end as u64;
    let mut next: u64 = 4;
    let mut k: usize = 0;
    let mut c: usize = 0;
    let mut rows: u64 = 0;
    let ghost mut g: int = 0;
    while k < nchunks
        invariant
            nchunks == chunks@.len(),
            records == chunks_view(chunks@),
            ncols > 0,
            end == data_end,
            k <= nchunks,
            c < ncols,
            0 <= g,
            k == g * ncols + c,
            next == expected_offset(records, k as int),
            4 <= next <= end,
            forall|j: int| 0 <= j < k ==> #[trigger] record_fits(records, j),
            forall|j: int| 0 <= j < k ==> #[trigger] same_rows(records, ncols as int, j),
            c > 0 ==> rows == records[k - c].count,
        decreases nchunks - k,
    {
        let record: ChunkMeta = chunks[k];
        proof {
            lemma_fundamental_div_mod_converse(k as int, ncols as int, g, c as int);
            assert(records[k as int] == record@);
        }
        if record.offset != next || record.byte_len > end - next || record.byte_len % 4 != 0
            || record.byte_len / 4 != record.count {
            proof {
                if chunks_fit(records, ncols as nat, num_row_groups, data_end as int) {
                    assert(record_fits(records, k as int));
                    lemma_expected_offset_monotone(records, k + 1, nchunks as int);
                }
            }
            return false;
        }
        if c == 0 {
            rows = record.count;
        } else if record.count != rows {
            assert(!same_rows(records, ncols as int, k as int));
            return false;
        }
        assert(record_fits(records, k as int));
        assert(same_rows(records, ncols as int, k as int));
        next = next + record.byte_len;
        k += 1;
        c += 1;
        if c == ncols {
            c = 0;
            proof {
                assert((g + 1) * ncols == g * ncols + ncols) by (nonlinear_arith);
                g = g + 1;
            }
        }
    }
    next == end
}

/// An open file: its bytes, and what its footer says of them.
pub struct FileReader {
    bytes: Vec<u8>,
    schema: Schema,
    num_row_groups: usize,
    chunks: Vec<ChunkMeta>,
    model: Ghost<FileModel>,
}

impl View for FileReader {
    type V = FileModel;

    closed spec fn view(&self) -> FileModel {
        self.model@
    }
}

impl FileReader {
    #[verifier::type_invariant]
    spec fn inv(self) -> bool {
        &&& self.model@.valid()
        &&& self.bytes@ == file_bytes(self.model@)
        &&& self.schema@ == self.model@.schema
        &&& self.num_row_groups == self.model@.groups.len()
        &&& chunks_view(self.chunks@) == chunk_records(self.model@.chunks())
    }

    /// Opens a file from its bytes.
    ///
    /// Succeeds exactly when the bytes are a file, that is the encoding of a
    /// valid model, and then holds that model. Otherwise fails with
    /// [`Error::Format`]: a magic marker is missing, the footer is truncated
    /// or does not parse, or it does not describe the data.
    pub fn open(bytes: Vec<u8>) -> (r: Result<FileReader, Error>)
        ensures
            match r {
                Ok(reader) => {
                    &&& parse_file(bytes@) == Some(reader@)
                    &&& reader@.valid()
                    &&& file_bytes(reader@) == bytes@
                },
                Err(e) => e == Error::Format && parse_file(bytes@).is_none() && !is_file(bytes@),
            },
    {
        let n: usize = bytes.len();
        proof {
            lemma_parse_file_is_file(bytes@);
        }
        if n < 16 {
            return Err(Error::Format);
        }
        if !has_magic(bytes.as_slice(), 0) || !has_magic(bytes.as_slice(), n - 4) {
            return Err(Error::Format);
        }
        let footer_len: u64 = get_u64(bytes.as_slice(), n - 12);
        if footer_len > (n - 16) as u64 {
            return Err(Error::Format);
        }
        let data_end: usize = n - 12 - footer_len as usize;
        assert(framed(bytes@));
        assert(data_end == footer_start(bytes@));
        let meta: FileMetadata = match read_footer(
            slice_subrange(bytes.as_slice(), data_end, n - 12),
        ) {
            None => {
                return Err(Error::Format);
            },
            Some(meta) => meta,
        };
        assert(file_footer(bytes@) == Some(meta@));
        let FileMetadata { columns, num_row_groups, chunks } = meta;
        let schema: Schema = match build_schema(columns) {
            Err(_) => {
                return Err(Error::Format);
            },
            Ok(schema) => schema,
        };
        let ncols: usize = schema.num_columns();
        if !check_chunks(&chunks, ncols, num_row_groups, data_end) {
            return Err(Error::Format);
        }
        let nchunks: usize = chunks.len();
        proof {
            lemma_parse_file_sound(bytes@);
            assert(num_row_groups <= nchunks) by (nonlinear_arith)
                requires
                    nchunks == num_row_groups * ncols,
                    ncols > 0,
            ;
        }
        let ghost model = parse_file(bytes@).unwrap();
        Ok(
            FileReader {
                bytes,
                schema,
                num_row_groups: num_row_groups as usize,
                chunks,
                model: Ghost(model),
            },
        )
    }

    /// The bytes of the file.
    pub fn bytes(&self) -> (r: &Vec<u8>)
        ensures
            r@ == file_bytes(self@),
            self@.valid(),
    {
        proof {
            use_type_invariant(self);
        }
        &self.bytes
    }

    /// The schema of the file.
    pub fn schema(&self) -> (r: &Schema)
        ensures
            r@ == self@.schema,
    {
        proof {
            use_type_invariant(self);
        }
        &self.schema
    }

    /// How many row groups the file has.
    pub fn row_group_count(&self) -> (n: usize)
        ensures
            n == self@.groups.len(),
    {
        proof {
            use_type_invariant(self);
        }
        self.num_row_groups
    }

    /// How many columns the row group at `row_group` has: as many as the
    /// schema. Fails with [`Error::Range`] when there is no such row group.
    pub fn column_count(&self, row_group: usize) -> (r: Result<usize, Error>)
        ensures
            match r {
                Ok(n) => row_group < self@.groups.len() && n == self@.groups[row_group as int].len()
                    && n == self@.schema.len(),
                Err(e) => e == Error::Range && row_group >= self@.groups.len(),
            },
    {
        proof {
            use_type_invariant(self);
        }
        if row_group >= self.num_row_groups {
            return Err(Error::Range);
        }
        Ok(self.schema.num_columns())
    }

    /// The record of the chunk of column `column` in row group `row_group`.
    /// Fails with [`Error::Range`] when there is no such chunk.
    pub fn chunk_meta(&self, row_group: usize, column: usize) -> (r: Result<ChunkMeta, Error>)
        ensures
            match r {
                Ok(record) => {
                    &&& row_group < self@.groups.len()
                    &&& column < self@.schema.len()
                    &&& record@ == chunk_record(
                        self@.chunks(),
                        row_group * self@.schema.len() + column,
                    )
                    &&& self@.chunks()[row_group * self@.schema.len() + column]
                        == self@.groups[row_group as int][column as int]
                },
                Err(e) => e == Error::Range && (row_group >= self@.groups.len() || column
                    >= self@.schema.len()),
            },
    {
        proof {
            use_type_invariant(self);
        }
        let ncols: usize = self.schema.num_columns();
        if row_group >= self.num_row_groups || column >= ncols {
            return Err(Error::Range);
        }
        let nchunks: usize = self.chunks.len();
        proof {
            assert(uniform(self@.groups, ncols as nat));
            lemma_uniform_index(self@.groups, ncols as nat, row_group as int, column as int);
            assert(0 <= row_group * ncols <= row_group * ncols + column) by (nonlinear_arith)
                requires
                    0 <= row_group,
                    0 <= ncols,
                    0 <= column,
            ;
            assert(chunks_view(self.chunks@)[row_group * ncols + column] == self.chunks@[row_group
                * ncols + column]@);
        }
        Ok(self.chunks[row_group * ncols + column])
    }

    /// A reader for the row group at `index`. Fails with [`Error::Range`]
    /// when there is no such row group.
    pub fn get_row_group_reader(&self, index: usize) -> (r: Result<RowGroupReader<'_>, Error>)
        ensures
            match r {
                Ok(reader) => index < self@.groups.len() && reader.file_of() == self@
                    && reader.index_of() == index,
                Err(e) => e == Error::Range && index >= self@.groups.len(),
            },
    {
        proof {
            use_type_invariant(self);
        }
        if index >= self.num_row_groups {
            return Err(Error::Range);
        }
        Ok(RowGroupReader { file: self, index })
    }
}

/// A reader for one row group of an open file.
pub struct RowGroupReader<'a> {
    file: &'a FileReader,
    index: usize,
}

impl<'a> RowGroupReader<'a> {
    #[verifier::type_invariant]
    spec fn inv(self) -> bool {
        self.index < self.file.num_row_groups
    }

    /// What the file of this row group holds.
    pub closed spec fn file_of(self) -> FileModel {
        self.file@
    }

    /// The position of the row group in the file.
    pub closed spec fn index_of(self) -> nat {
        self.index as nat
    }

    /// The values of the row group, by column.
    pub open spec fn columns_of(self) -> Seq<Seq<i32>> {
        self.file_of().groups[self.index_of() as int]
    }

    /// The position of the row group in the file.
    pub fn index(&self) -> (i: usize)
        ensures
            i == self.index_of(),
            i < self.file_of().groups.len(),
    {
        proof {
            use_type_invariant(self);
            use_type_invariant(self.file);
        }
        self.index
    }

    /// How many columns the row group has.
    pub fn column_count(&self) -> (n: usize)
        ensures
            n == self.columns_of().len(),
            n == self.file_of().schema.len(),
    {
        proof {
            use_type_invariant(self);
            use_type_invariant(self.file);
        }
        self.file.schema.num_columns()
    }

    /// A reader for the column at `index`, in schema order, tagged with the
    /// type of the column and standing before its first value. Fails with
    /// [`Error::Range`] when the row group has no such column.
    pub fn get_column_reader(&self, index: usize) -> (r: Result<ColumnReader<'a>, Error>)
        ensures
            match r {
                Ok(reader) => {
                    &&& index < self.columns_of().len()
                    &&& reader.values_of() == self.columns_of()[index as int]
                    &&& reader.position_of() == 0
                    &&& reader.physical_type_of() == self.file_of().schema[index as int].physical
                },
                Err(e) => e == Error::Range && index >= self.columns_of().len(),
            },
    {
        proof {
            use_type_invariant(self);
            use_type_invariant(self.file);
        }
        let ncols: usize = self.file.schema.num_columns();
        if index >= ncols {
            return Err(Error::Range);
        }
        let nchunks: usize = self.file.chunks.len();
        proof {
            let m = self.file@;
            assert(uniform(m.groups, ncols as nat));
            lemma_uniform_index(m.groups, ncols as nat, self.index as int, index as int);
            assert(0 <= self.index * ncols <= self.index * ncols + index) by (nonlinear_arith)
                requires
                    0 <= self.index,
                    0 <= ncols,
                    0 <= index,
            ;
            assert(chunks_view(self.file.chunks@).len() == nchunks);
        }
        let chunk: usize = self.index * ncols + index;
        Ok(ColumnReader::Int32ColumnReader(Int32Reader { file: self.file, chunk, position: 0 }))
    }
}

/// A reader for one column chunk, tagged with the type of its values: one
/// variant for each type that a column can have.
pub enum ColumnReader<'a> {
    /// A reader for a column of 32-bit signed integers.
    Int32ColumnReader(Int32Reader<'a>),
}

impl<'a> ColumnReader<'a> {
    /// The type of the column.
    pub open spec fn physical_type_of(self) -> PhysicalType {
        match self {
            ColumnReader::Int32ColumnReader(_) => PhysicalType::Int32,
        }
    }

    /// All values of the column chunk.
    pub open spec fn values_of(self) -> Seq<i32> {
        match self {
            ColumnReader::Int32ColumnReader(reader) => reader.values_of(),
        }
    }

    /// How many values have been read.
    pub open spec fn position_of(self) -> nat {
        match self {
            ColumnReader::Int32ColumnReader(reader) => reader.position_of(),
        }
    }

    /// The type of the column.
    pub fn physical_type(&self) -> (t: PhysicalType)
        ensures
            t == self.physical_type_of(),
    {
        match self {
            ColumnReader::Int32ColumnReader(_) => PhysicalType::Int32,
        }
    }
}

/// A reader for a column chunk of 32-bit signed integers. It stands behind
/// the values that were read and only moves forward.
pub struct Int32Reader<'a> {
    file: &'a FileReader,
    chunk: usize,
    position: usize,
}

/// How many values a call of `read_batch` reads: as many as were asked for,
/// as the buffer has room for, and as are left in the chunk.
pub open spec fn batch_len(max_count: nat, room: nat, left: nat) -> nat {
    if max_count <= room && max_count <= left {
        max_count
    } else if room <= left {
        room
    } else {
        left
    }
}

impl<'a> Int32Reader<'a> {
    #[verifier::type_invariant]
    spec fn inv(self) -> bool {
        &&& self.chunk < self.file.chunks@.len()
        &&& self.chunk < self.file.model@.chunks().len()
        &&& self.position <= self.file.model@.chunks()[self.chunk as int].len()
    }

    /// All values of the column chunk.
    pub closed spec fn values_of(self) -> Seq<i32> {
        self.file.model@.chunks()[self.chunk as int]
    }

    /// How many values have been read.
    pub closed spec fn position_of(self) -> nat {
        self.position as nat
    }

    /// How many values are left to read.
    pub fn remaining(&self) -> (n: usize)
        ensures
            self.position_of() <= self.values_of().len(),
            n == self.values_of().len() - self.position_of(),
    {
        let total: usize = self.file.bytes.len();
        proof {
            use_type_invariant(self);
            use_type_invariant(self.file);
            let k = self.chunk as int;
            lemma_count_fits(self.file@, k, total as nat);
            assert(chunks_view(self.file.chunks@)[k] == self.file.chunks@[k]@);
            assert(chunk_records(self.file@.chunks())[k] == chunk_record(self.file@.chunks(), k));
        }
        let count: usize = self.file.chunks[self.chunk].count as usize;
        count - self.position
    }

    /// Reads the next values of the chunk into the head of `out`: as many as
    /// `max_count`, the length of `out` and what is left in the chunk allow.
    /// The rest of `out` stays as it was. Returns how many values and how
    /// many levels were read; every column is required, so the two are equal.
    pub fn read_batch(&mut self, max_count: usize, out: &mut Vec<i32>) -> (r: (usize, usize))
        ensures
            final(self).values_of() == old(self).values_of(),
            old(self).position_of() <= old(self).values_of().len(),
            r.0 == batch_len(
                max_count as nat,
                old(out)@.len(),
                (old(self).values_of().len() - old(self).position_of()) as nat,
            ),
            r.1 == r.0,
            final(self).position_of() == old(self).position_of() + r.0,
            final(out)@ == old(self).values_of().subrange(
                old(self).position_of() as int,
                old(self).position_of() + r.0,
            ) + old(out)@.skip(r.0 as int),
    {
        let total: usize = self.file.bytes.len();
        proof {
            use_type_invariant(&*self);
            use_type_invariant(self.file);
            let k = self.chunk as int;
            lemma_count_fits(self.file@, k, total as nat);
            assert(chunks_view(self.file.chunks@)[k] == self.file.chunks@[k]@);
            assert(chunk_records(self.file@.chunks())[k] == chunk_record(self.file@.chunks(), k));
        }
        let file: &FileReader = self.file;
        let record: ChunkMeta = file.chunks[self.chunk];
        let start: usize = record.offset as usize;
        let count: usize = record.count as usize;
        let base: usize = self.position;
        let left: usize = count - base;
        let mut n: usize = max_count;
        if left < n {
            n = left;
        }
        if out.len() < n {
            n = out.len();
        }
        let ghost values = self.values_of();
        let ghost k = self.chunk as int;
        let ghost model = file@;
        let mut i: usize = 0;
        while i < n
            invariant
                i <= n,
                base + n <= count,
                n <= out@.len(),
                out@.len() == old(out)@.len(),
                model.valid(),
                file.bytes@ == file_bytes(model),
                0 <= k < model.chunks().len(),
                values == model.chunks()[k],
                count == values.len(),
                start == 4 + 4 * values_before(model.chunks(), k),
                out@ == values.subrange(base as int, base + i) + old(out)@.skip(i as int),
            decreases n - i,
        {
            proof {
                lemma_value_bytes(model, k, base + i);
                lemma_le_i32_decode(values[base + i]);
            }
            let bytes_len: usize = file.bytes.len();
            let v: i32 = get_i32(file.bytes.as_slice(), start + 4 * (base + i));
            out[i] = v;
            assert(out@ =~= values.subrange(base as int, base + i + 1) + old(out)@.skip(i + 1));
            i += 1;
        }
        assert(values.subrange(base as int, base as int) + old(out)@.skip(0) =~= old(out)@);
        self.position = base + n;
        (n, n)
    }
}

/// The record of a chunk holds numbers that stand for themselves: the count,
/// the offset and the length in bytes all fit in the file.
pub proof fn lemma_count_fits(m: FileModel, k: int, len: nat)
    requires
        m.valid(),
        0 <= k < m.chunks().len(),
        len == file_bytes(m).len(),
    ensures
        chunk_record(m.chunks(), k).count == m.chunks()[k].len(),
        chunk_record(m.chunks(), k).offset == 4 + 4 * values_before(m.chunks(), k),
        chunk_record(m.chunks(), k).byte_len == 4 * m.chunks()[k].len(),
        4 + 4 * values_before(m.chunks(), k) + 4 * m.chunks()[k].len() <= len,
{
    lemma_chunk_in_values(m.chunks(), k);
}

} // verus!
