//! File metadata: what the footer of a file says, and its byte encoding.
//!
//! A footer is, in order: the number of columns, the column definitions, the
//! number of row groups, and one record per column chunk in file order. Every
//! number is eight bytes, little-endian.

use crate::codec::{le_u64, put_u64};
use crate::schema::{columns_view, ColumnDef, ColumnView, PhysicalType, Schema};
use vstd::prelude::*;
use vstd::utf8::encode_utf8;

verus! {

/// Where one column chunk lies and what it holds, as mathematics.
pub struct ChunkView {
    pub physical: PhysicalType,
    pub count: u64,
    pub offset: u64,
    pub byte_len: u64,
}

/// What a footer says, as mathematics.
pub struct MetadataView {
    pub schema: Seq<ColumnView>,
    pub num_row_groups: u64,
    pub chunks: Seq<ChunkView>,
}

/// The record of one column chunk: the type of its values, how many there are,
/// the byte offset of the first one in the file, and the length of the chunk
/// in bytes.
#[derive(Clone, Copy, Debug, PartialEq, Eq, Structural)]
pub struct ChunkMeta {
    pub physical: PhysicalType,
    pub count: u64,
    pub offset: u64,
    pub byte_len: u64,
}

impl View for ChunkMeta {
    type V = ChunkView;

    open spec fn view(&self) -> ChunkView {
        ChunkView {
            physical: self.physical,
            count: self.count,
            offset: self.offset,
            byte_len: self.byte_len,
        }
    }
}

/// What a footer says: the columns, the number of row groups, and the record
/// of every column chunk in file order. This is what a parser reads, before
/// anything is known of how the parts fit together.
#[derive(Debug)]
pub struct FileMetadata {
    pub columns: Vec<ColumnDef>,
    pub num_row_groups: u64,
    pub chunks: Vec<ChunkMeta>,
}

impl View for FileMetadata {
    type V = MetadataView;

    open spec fn view(&self) -> MetadataView {
        MetadataView {
            schema: columns_view(self.columns@),
            num_row_groups: self.num_row_groups,
            chunks: chunks_view(self.chunks@),
        }
    }
}

/// The views of a list of chunk records, in order.
pub open spec fn chunks_view(chunks: Seq<ChunkMeta>) -> Seq<ChunkView> {
    Seq::new(chunks.len(), |i: int| chunks[i]@)
}

/// The byte of a nullability flag.
pub open spec fn required_byte(required: bool) -> u8 {
    if required {
        1
    } else {
        0
    }
}

/// The encoding of one column definition: the length of the name in bytes,
/// the name in UTF-8, the type tag, and the nullability flag.
pub open spec fn column_def_bytes(c: ColumnView) -> Seq<u8> {
    le_u64(encode_utf8(c.name).len() as u64) + encode_utf8(c.name) + seq![
        c.physical.tag_of(),
        required_byte(c.required),
    ]
}

/// The encoding of a list of column definitions, one after the other.
pub open spec fn schema_bytes(cols: Seq<ColumnView>) -> Seq<u8> {
    cols.map_values(|c: ColumnView| column_def_bytes(c)).flatten()
}

/// The encoding of one chunk record: 25 bytes.
pub open spec fn chunk_meta_bytes(ch: ChunkView) -> Seq<u8> {
    seq![ch.physical.tag_of()] + le_u64(ch.count) + le_u64(ch.offset) + le_u64(ch.byte_len)
}

/// The encoding of a list of chunk records, one after the other.
pub open spec fn chunk_list_bytes(chunks: Seq<ChunkView>) -> Seq<u8> {
    chunks.map_values(|ch: ChunkView| chunk_meta_bytes(ch)).flatten()
}

/// The encoding of a footer.
pub open spec fn footer_bytes(meta: MetadataView) -> Seq<u8> {
    le_u64(meta.schema.len() as u64) + schema_bytes(meta.schema) + le_u64(meta.num_row_groups)
        + chunk_list_bytes(meta.chunks)
}

/// Encoding a list with one more column appends that column's encoding.
pub proof fn lemma_schema_bytes_push(cols: Seq<ColumnView>, c: ColumnView)
    ensures
        schema_bytes(cols.push(c)) == schema_bytes(cols) + column_def_bytes(c),
{
    let f = |c: ColumnView| column_def_bytes(c);
    assert(cols.push(c).map_values(f) =~= cols.map_values(f).push(column_def_bytes(c)));
    cols.map_values(f).lemma_flatten_push(column_def_bytes(c));
}

/// Encoding a list with one more chunk record appends that record's encoding.
pub proof fn lemma_chunk_list_bytes_push(chunks: Seq<ChunkView>, ch: ChunkView)
    ensures
        chunk_list_bytes(chunks.push(ch)) == chunk_list_bytes(chunks) + chunk_meta_bytes(ch),
{
    let f = |ch: ChunkView| chunk_meta_bytes(ch);
    assert(chunks.push(ch).map_values(f) =~= chunks.map_values(f).push(chunk_meta_bytes(ch)));
    chunks.map_values(f).lemma_flatten_push(chunk_meta_bytes(ch));
}

/// Appends `src` to `buf`.
pub fn put_bytes(buf: &mut Vec<u8>, src: &[u8])
    ensures
        final(buf)@ == old(buf)@ + src@,
{
    let mut i: usize = 0;
    while i < src.len()
        invariant
            i <= src@.len(),
            buf@ == old(buf)@ + src@.take(i as int),
        decreases src@.len() - i,
    {
        buf.push(src[i]);
        assert(src@.take(i + 1) =~= src@.take(i as int).push(src@[i as int]));
        assert(buf@ =~= old(buf)@ + src@.take(i + 1));
        i += 1;
    }
    assert(src@.take(i as int) =~= src@);
}

/// Appends the encoding of one column definition to `buf`.
pub fn put_column_def(buf: &mut Vec<u8>, col: &ColumnDef)
    ensures
        final(buf)@ == old(buf)@ + column_def_bytes(col@),
{
    let name: &[u8] = col.name().as_bytes();
    put_u64(buf, name.len() as u64);
    put_bytes(buf, name);
    buf.push(col.physical_type().tag());
    buf.push(if col.is_required() { 1 } else { 0 });
    assert(buf@ =~= old(buf)@ + column_def_bytes(col@));
}

/// Appends the encoding of one chunk record to `buf`.
pub fn put_chunk_meta(buf: &mut Vec<u8>, chunk: &ChunkMeta)
    ensures
        final(buf)@ == old(buf)@ + chunk_meta_bytes(chunk@),
{
    buf.push(chunk.physical.tag());
    put_u64(buf, chunk.count);
    put_u64(buf, chunk.offset);
    put_u64(buf, chunk.byte_len);
    assert(buf@ =~= old(buf)@ + chunk_meta_bytes(chunk@));
}

/// Appends the encoding of a footer to `buf`: the schema, the number of row
/// groups and the chunk records.
pub fn put_footer(buf: &mut Vec<u8>, schema: &Schema, num_row_groups: u64, chunks: &Vec<ChunkMeta>)
    ensures
        final(buf)@ == old(buf)@ + footer_bytes(
            MetadataView { schema: schema@, num_row_groups, chunks: chunks_view(chunks@) },
        ),
{
    let ncols: usize = schema.num_columns();
    put_u64(buf, ncols as u64);
    let ghost head = buf@;
    let mut i: usize = 0;
    while i < ncols
        invariant
            ncols == schema@.len(),
            i <= ncols,
            buf@ == head + schema_bytes(schema@.take(i as int)),
        decreases ncols - i,
    {
        let col: &ColumnDef = schema.column(i).unwrap();
        put_column_def(buf, col);
        proof {
            lemma_schema_bytes_push(schema@.take(i as int), schema@[i as int]);
            assert(schema@.take(i + 1) =~= schema@.take(i as int).push(schema@[i as int]));
            assert(buf@ =~= head + schema_bytes(schema@.take(i + 1)));
        }
        i += 1;
    }
    assert(schema@.take(ncols as int) =~= schema@);
    put_u64(buf, num_row_groups);
    let ghost middle = buf@;
    let ghost views = chunks_view(chunks@);
    let mut k: usize = 0;
    while k < chunks.len()
        invariant
            k <= chunks@.len(),
            views == chunks_view(chunks@),
            buf@ == middle + chunk_list_bytes(views.take(k as int)),
        decreases chunks@.len() - k,
    {
        put_chunk_meta(buf, &chunks[k]);
        proof {
            lemma_chunk_list_bytes_push(views.take(k as int), views[k as int]);
            assert(views.take(k + 1) =~= views.take(k as int).push(views[k as int]));
            assert(buf@ =~= middle + chunk_list_bytes(views.take(k + 1)));
        }
        k += 1;
    }
    assert(views.take(k as int) =~= views);
    assert(buf@ =~= old(buf)@ + footer_bytes(
        MetadataView { schema: schema@, num_row_groups, chunks: views },
    ));
}

} // verus!
