//! The layout of a file: the mathematical model of its contents and the bytes
//! that encode it.
//!
//! A file is the magic marker, the data, the footer, the length of the footer
//! in eight bytes, and the magic marker again. The data are the column chunks
//! of all row groups in order, each chunk the plain encoding of its values.
//! The footer records where every chunk lies.

use crate::codec::{
    from_le_i32, le_i32, le_u64, lemma_le_i32_decode, lemma_le_i32_encode,
};
use crate::metadata::{footer_bytes, ChunkView, MetadataView};
use crate::schema::{valid_columns, ColumnView, PhysicalType};
use vstd::prelude::*;
use vstd::seq_lib::lemma_flatten_concat;

verus! {

/// The four bytes `PAR1` that open and close every file.
pub open spec fn magic() -> Seq<u8> {
    seq![0x50u8, 0x41u8, 0x52u8, 0x31u8]
}

/// The plain encoding of a sequence of values: four bytes each, in order,
/// with nothing in between.
pub open spec fn column_bytes(values: Seq<i32>) -> Seq<u8> {
    Seq::new(4 * values.len(), |i: int| le_i32(values[i / 4])[i % 4])
}

/// The values that a byte string encodes plainly: one for every four bytes.
pub open spec fn decode_values(bytes: Seq<u8>) -> Seq<i32> {
    Seq::new((bytes.len() / 4) as nat, |i: int| from_le_i32(bytes.subrange(4 * i, 4 * i + 4)))
}

/// What a file holds: its schema, and for every row group the values of every
/// column.
pub struct FileModel {
    pub schema: Seq<ColumnView>,
    pub groups: Seq<Seq<Seq<i32>>>,
}

/// All columns of a row group have the same number of rows.
pub open spec fn equal_counts(columns: Seq<Seq<i32>>) -> bool {
    forall|c: int| 0 <= c < columns.len() ==> (#[trigger] columns[c]).len() == columns[0].len()
}

/// Every row group has `ncols` columns, all with the same number of rows.
pub open spec fn groups_shaped(groups: Seq<Seq<Seq<i32>>>, ncols: nat) -> bool {
    forall|g: int|
        0 <= g < groups.len() ==> (#[trigger] groups[g]).len() == ncols && equal_counts(groups[g])
}

impl FileModel {
    /// The column chunks in file order: those of the first row group in
    /// schema order, then those of the second, and so on.
    pub open spec fn chunks(self) -> Seq<Seq<i32>> {
        self.groups.flatten()
    }

    /// All values in file order.
    pub open spec fn values(self) -> Seq<i32> {
        self.chunks().flatten()
    }

    /// The model is one that a file can hold: the schema is valid, every row
    /// group has one column per schema column, the columns of a row group have
    /// equally many rows, and the file is short enough for its offsets to fit
    /// in eight bytes.
    pub open spec fn valid(self) -> bool {
        &&& valid_columns(self.schema)
        &&& groups_shaped(self.groups, self.schema.len())
        &&& file_bytes(self).len() <= u64::MAX
    }
}

/// How many values stand before chunk `k`.
pub open spec fn values_before(chunks: Seq<Seq<i32>>, k: int) -> nat {
    chunks.take(k).flatten().len()
}

/// The record of chunk `k`: its values start right after those of the chunks
/// before it, and the first of all starts right after the magic marker.
pub open spec fn chunk_record(chunks: Seq<Seq<i32>>, k: int) -> ChunkView {
    ChunkView {
        physical: PhysicalType::Int32,
        count: chunks[k].len() as u64,
        offset: (4 + 4 * values_before(chunks, k)) as u64,
        byte_len: (4 * chunks[k].len()) as u64,
    }
}

/// The records of all chunks, in file order.
pub open spec fn chunk_records(chunks: Seq<Seq<i32>>) -> Seq<ChunkView> {
    Seq::new(chunks.len(), |k: int| chunk_record(chunks, k))
}

/// What the footer of the file that holds `m` says.
pub open spec fn metadata_of(m: FileModel) -> MetadataView {
    MetadataView {
        schema: m.schema,
        num_row_groups: m.groups.len() as u64,
        chunks: chunk_records(m.chunks()),
    }
}

/// The trailer: the length of the footer, then the magic marker.
pub open spec fn trailer_bytes(footer_len: nat) -> Seq<u8> {
    le_u64(footer_len as u64) + magic()
}

/// The bytes of the file that holds `m`.
pub open spec fn file_bytes(m: FileModel) -> Seq<u8> {
    let footer = footer_bytes(metadata_of(m));
    magic() + column_bytes(m.values()) + footer + trailer_bytes(footer.len())
}

/// Encoding one more value appends its four bytes.
pub proof fn lemma_column_bytes_push(values: Seq<i32>, v: i32)
    ensures
        column_bytes(values.push(v)) == column_bytes(values) + le_i32(v),
{
    lemma_le_i32_decode(v);
    assert(column_bytes(values.push(v)) =~= column_bytes(values) + le_i32(v));
}

/// The encoding of two sequences in a row is the two encodings in a row.
pub proof fn lemma_column_bytes_concat(a: Seq<i32>, b: Seq<i32>)
    ensures
        column_bytes(a + b) == column_bytes(a) + column_bytes(b),
{
    assert(column_bytes(a + b) =~= column_bytes(a) + column_bytes(b));
}

/// The four bytes of value `i` in an encoding.
pub proof fn lemma_column_bytes_value(values: Seq<i32>, i: int)
    requires
        0 <= i < values.len(),
    ensures
        column_bytes(values).subrange(4 * i, 4 * i + 4) == le_i32(values[i]),
{
    lemma_le_i32_decode(values[i]);
    assert(column_bytes(values).subrange(4 * i, 4 * i + 4) =~= le_i32(values[i]));
}

/// Decoding undoes plain encoding.
pub proof fn lemma_decode_column_bytes(values: Seq<i32>)
    ensures
        decode_values(column_bytes(values)) == values,
{
    let bytes = column_bytes(values);
    assert forall|i: int| 0 <= i < values.len() implies decode_values(bytes)[i] == values[i] by {
        lemma_column_bytes_value(values, i);
        lemma_le_i32_decode(values[i]);
    }
    assert(decode_values(bytes) =~= values);
}

/// A byte string whose length is a multiple of four is the plain encoding of
/// what it decodes to.
pub proof fn lemma_column_bytes_decode(bytes: Seq<u8>)
    requires
        bytes.len() % 4 == 0,
    ensures
        column_bytes(decode_values(bytes)) == bytes,
{
    let values = decode_values(bytes);
    assert forall|i: int| 0 <= i < bytes.len() implies column_bytes(values)[i] == bytes[i] by {
        let k = i / 4;
        lemma_le_i32_encode(bytes.subrange(4 * k, 4 * k + 4));
        assert(bytes.subrange(4 * k, 4 * k + 4)[i % 4] == bytes[i]);
    }
    assert(column_bytes(values) =~= bytes);
}

/// The encoding of a stretch of values is that stretch of the encoding.
pub proof fn lemma_column_bytes_subrange(values: Seq<i32>, from: int, to: int)
    requires
        0 <= from <= to <= values.len(),
    ensures
        column_bytes(values).subrange(4 * from, 4 * to) == column_bytes(values.subrange(from, to)),
{
    assert(column_bytes(values).subrange(4 * from, 4 * to) =~= column_bytes(
        values.subrange(from, to),
    ));
}

/// The values before a chunk and its own are the values before the next.
pub proof fn lemma_values_before_step(chunks: Seq<Seq<i32>>, k: int)
    requires
        0 <= k < chunks.len(),
    ensures
        values_before(chunks, k + 1) == values_before(chunks, k) + chunks[k].len(),
{
    assert(chunks.take(k + 1) =~= chunks.take(k).push(chunks[k]));
    chunks.take(k).lemma_flatten_push(chunks[k]);
}

/// Before the end stand all values.
pub proof fn lemma_values_before_all(chunks: Seq<Seq<i32>>)
    ensures
        values_before(chunks, 0) == 0,
        values_before(chunks, chunks.len() as int) == chunks.flatten().len(),
{
    assert(chunks.take(chunks.len() as int) =~= chunks);
    assert(chunks.take(0) =~= Seq::<Seq<i32>>::empty());
}

/// The values of a chunk stand among all values right after the values of
/// the chunks before it.
pub proof fn lemma_chunk_in_values(chunks: Seq<Seq<i32>>, k: int)
    requires
        0 <= k < chunks.len(),
    ensures
        values_before(chunks, k) + chunks[k].len() <= chunks.flatten().len(),
        chunks.flatten().subrange(
            values_before(chunks, k) as int,
            (values_before(chunks, k) + chunks[k].len()) as int,
        ) == chunks[k],
{
    let head = chunks.take(k + 1);
    let tail = chunks.skip(k + 1);
    assert(chunks =~= head + tail);
    lemma_flatten_concat(head, tail);
    assert(head =~= chunks.take(k).push(chunks[k]));
    chunks.take(k).lemma_flatten_push(chunks[k]);
    let before = values_before(chunks, k) as int;
    assert(chunks.flatten().subrange(before, before + chunks[k].len()) =~= chunks[k]);
}

/// Where value `i` of chunk `k` stands in the file, and that its four bytes
/// there are its plain encoding.
pub proof fn lemma_value_bytes(m: FileModel, k: int, i: int)
    requires
        0 <= k < m.chunks().len(),
        0 <= i < m.chunks()[k].len(),
    ensures
        ({
            let at = 4 + 4 * (values_before(m.chunks(), k) + i);
            &&& at + 4 <= 4 + 4 * m.values().len()
            &&& at + 4 <= file_bytes(m).len()
            &&& file_bytes(m).subrange(at, at + 4) == le_i32(m.chunks()[k][i])
        }),
{
    let chunks = m.chunks();
    let all = m.values();
    let j = values_before(chunks, k) + i;
    lemma_chunk_in_values(chunks, k);
    let before = values_before(chunks, k) as int;
    assert(all.subrange(before, before + chunks[k].len())[i] == all[j]);
    lemma_column_bytes_value(all, j);
    assert(file_bytes(m).subrange(4 + 4 * j, 4 + 4 * j + 4) =~= column_bytes(all).subrange(
        4 * j,
        4 * j + 4,
    ));
}

/// Row groups of `ncols` columns each, cut from a list of chunks in file
/// order.
pub open spec fn regroup<T>(chunks: Seq<T>, ngroups: nat, ncols: nat) -> Seq<Seq<T>> {
    Seq::new(ngroups, |g: int| Seq::new(ncols, |c: int| chunks[g * ncols + c]))
}

/// Every row group has `ncols` columns.
pub open spec fn uniform<T>(groups: Seq<Seq<T>>, ncols: nat) -> bool {
    forall|g: int| 0 <= g < groups.len() ==> (#[trigger] groups[g]).len() == ncols
}

/// Row groups with `ncols` columns each hold `ncols` chunks for every row
/// group.
pub proof fn lemma_uniform_len<T>(groups: Seq<Seq<T>>, ncols: nat)
    requires
        uniform(groups, ncols),
    ensures
        groups.flatten().len() == groups.len() * ncols,
    decreases groups.len(),
{
    if groups.len() == 0 {
        assert(groups.len() * ncols == 0) by (nonlinear_arith)
            requires
                groups.len() == 0,
        ;
    } else {
        let init = groups.drop_last();
        let last = groups.last();
        assert(groups =~= init.push(last));
        init.lemma_flatten_push(last);
        assert(uniform(init, ncols)) by {
            assert forall|g: int| 0 <= g < init.len() implies (#[trigger] init[g]).len()
                == ncols by {
                assert(init[g] == groups[g]);
            }
        }
        assert(last.len() == ncols) by {
            assert(last == groups[groups.len() - 1]);
        }
        lemma_uniform_len(init, ncols);
        assert(groups.len() * ncols == init.len() * ncols + ncols) by (nonlinear_arith)
            requires
                groups.len() == init.len() + 1,
        ;
    }
}

/// In the file order of row groups with `ncols` columns each, column `c` of
/// row group `g` is chunk `g * ncols + c`.
pub proof fn lemma_uniform_index<T>(groups: Seq<Seq<T>>, ncols: nat, g: int, c: int)
    requires
        uniform(groups, ncols),
        0 <= g < groups.len(),
        0 <= c < ncols,
    ensures
        groups.flatten().len() == groups.len() * ncols,
        0 <= g * ncols + c < groups.len() * ncols,
        groups.flatten()[g * ncols + c] == groups[g][c],
    decreases groups.len(),
{
    let init = groups.drop_last();
    let last = groups.last();
    assert(groups =~= init.push(last));
    init.lemma_flatten_push(last);
    assert(uniform(init, ncols)) by {
        assert forall|h: int| 0 <= h < init.len() implies (#[trigger] init[h]).len() == ncols by {
            assert(init[h] == groups[h]);
        }
    }
    assert(last.len() == ncols) by {
        assert(last == groups[groups.len() - 1]);
    }
    lemma_uniform_len(init, ncols);
    lemma_uniform_len(groups, ncols);
    assert(groups.len() * ncols == init.len() * ncols + ncols) by (nonlinear_arith)
        requires
            groups.len() == init.len() + 1,
    ;
    assert(groups.flatten() =~= init.flatten() + last);
    if g < init.len() {
        lemma_uniform_index(init, ncols, g, c);
        assert(init[g] == groups[g]);
        assert((init.flatten() + last)[g * ncols + c] == init.flatten()[g * ncols + c]);
    } else {
        assert(g * ncols == init.len() * ncols) by (nonlinear_arith)
            requires
                g == init.len(),
        ;
        assert(0 <= g * ncols) by (nonlinear_arith)
            requires
                0 <= g,
        ;
        assert((init.flatten() + last)[init.len() * ncols + c] == last[c]);
    }
}

/// Cutting the file order of row groups with `ncols` columns each gives the
/// row groups back.
pub proof fn lemma_regroup_flatten<T>(groups: Seq<Seq<T>>, ncols: nat)
    requires
        uniform(groups, ncols),
    ensures
        regroup(groups.flatten(), groups.len(), ncols) == groups,
{
    let cut = regroup(groups.flatten(), groups.len(), ncols);
    assert forall|g: int| 0 <= g < groups.len() implies cut[g] == groups[g] by {
        assert forall|c: int| 0 <= c < ncols implies cut[g][c] == groups[g][c] by {
            lemma_uniform_index(groups, ncols, g, c);
        }
        assert(cut[g] =~= groups[g]);
    }
    assert(cut =~= groups);
}

/// The file order of the row groups cut from a list of chunks is that list.
pub proof fn lemma_flatten_regroup<T>(chunks: Seq<T>, ngroups: nat, ncols: nat)
    requires
        chunks.len() == ngroups * ncols,
        ncols > 0,
    ensures
        regroup(chunks, ngroups, ncols).flatten() == chunks,
{
    let cut = regroup(chunks, ngroups, ncols);
    lemma_uniform_len(cut, ncols);
    assert forall|k: int| 0 <= k < chunks.len() implies cut.flatten()[k] == chunks[k] by {
        let g = k / (ncols as int);
        let c = k % (ncols as int);
        vstd::arithmetic::div_mod::lemma_fundamental_div_mod(k, ncols as int);
        assert(k == ncols * g + c);
        assert(ncols * g == g * ncols) by (nonlinear_arith);
        assert(0 <= g < ngroups) by (nonlinear_arith)
            requires
                0 <= k < ngroups * ncols,
                k == g * ncols + c,
                0 <= c < ncols,
        ;
        lemma_uniform_index(cut, ncols, g, c);
    }
    assert(cut.flatten() =~= chunks);
}

} // verus!
