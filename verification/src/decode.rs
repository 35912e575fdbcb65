//! What it takes for a byte string to be a file, stated as a parser, and the
//! proofs that this parser and the encoding of [`crate::layout`] are inverse
//! to each other.

use crate::codec::{from_le_u64, le_u64, lemma_le_u64_decode, lemma_le_u64_encode};
use crate::footer::{
    lemma_chunk_list_len, lemma_column_def_len, lemma_parse_footer, lemma_parse_footer_sound,
    lemma_schema_bytes_front, names_fit, parse_footer,
};
use crate::layout::{
    chunk_record, chunk_records, column_bytes, decode_values, equal_counts, file_bytes,
    groups_shaped, lemma_chunk_in_values, lemma_column_bytes_concat, lemma_column_bytes_decode,
    lemma_column_bytes_subrange, lemma_decode_column_bytes, lemma_flatten_regroup,
    lemma_regroup_flatten, lemma_uniform_index, lemma_uniform_len, lemma_values_before_all,
    lemma_values_before_step, magic, metadata_of, regroup, uniform, values_before,
    FileModel,
};
use crate::metadata::{
    footer_bytes, schema_bytes, ChunkView, MetadataView,
};
use crate::schema::{valid_columns, ColumnView};
use vstd::arithmetic::div_mod::{lemma_fundamental_div_mod, lemma_fundamental_div_mod_converse};
use vstd::prelude::*;
use vstd::utf8::encode_utf8;

verus! {

/// Where chunk `k` starts if the chunks lie back to back behind the magic
/// marker: at 4 plus the lengths of the chunks before it.
pub open spec fn expected_offset(records: Seq<ChunkView>, k: int) -> int
    decreases k,
{
    if k <= 0 {
        4
    } else {
        expected_offset(records, k - 1) + records[k - 1].byte_len
    }
}

/// Record `k` fits the layout: the chunk starts where the one before it ends,
/// and is four bytes long for each of its values.
pub open spec fn record_fits(records: Seq<ChunkView>, k: int) -> bool {
    &&& records[k].byte_len == 4 * records[k].count
    &&& records[k].offset == expected_offset(records, k)
}

/// Chunk `k` has as many values as the first chunk of its row group.
pub open spec fn same_rows(records: Seq<ChunkView>, ncols: int, k: int) -> bool {
    records[k].count == records[k - k % ncols].count
}

/// The chunk records describe data that end at `data_end`, in row groups of
/// `ncols` columns: there is one chunk per column and row group, the chunks
/// lie back to back from the magic marker to `data_end`, and the chunks of a
/// row group have equally many values.
pub open spec fn chunks_fit(
    records: Seq<ChunkView>,
    ncols: nat,
    num_row_groups: u64,
    data_end: int,
) -> bool {
    &&& records.len() == num_row_groups * ncols
    &&& forall|k: int| 0 <= k < records.len() ==> #[trigger] record_fits(records, k)
    &&& forall|k: int| 0 <= k < records.len() ==> #[trigger] same_rows(records, ncols as int, k)
    &&& expected_offset(records, records.len() as int) == data_end
}

/// The footer describes data that end at `data_end`: the schema is valid and
/// the chunk records fit.
pub open spec fn layout_fits(meta: MetadataView, data_end: int) -> bool {
    &&& valid_columns(meta.schema)
    &&& chunks_fit(meta.chunks, meta.schema.len(), meta.num_row_groups, data_end)
}

/// The values of every chunk, read from the file at the place that its record
/// names.
pub open spec fn chunk_values(records: Seq<ChunkView>, b: Seq<u8>) -> Seq<Seq<i32>> {
    Seq::new(
        records.len(),
        |k: int|
            decode_values(
                b.subrange(records[k].offset as int, records[k].offset + records[k].byte_len),
            ),
    )
}

/// What a file with the footer `meta` holds.
pub open spec fn model_of(meta: MetadataView, b: Seq<u8>) -> FileModel {
    FileModel {
        schema: meta.schema,
        groups: regroup(
            chunk_values(meta.chunks, b),
            meta.num_row_groups as nat,
            meta.schema.len(),
        ),
    }
}

/// The byte string has the frame of a file: it opens and closes with the
/// magic marker, and the eight bytes before the closing marker give a footer
/// length that leaves room for both markers.
pub open spec fn framed(b: Seq<u8>) -> bool {
    let n = b.len() as int;
    &&& 16 <= n <= u64::MAX
    &&& b.subrange(0, 4) == magic()
    &&& b.subrange(n - 4, n) == magic()
    &&& from_le_u64(b.subrange(n - 12, n - 4)) <= n - 16
}

/// Where the footer of a framed byte string starts, which is where its data
/// end.
pub open spec fn footer_start(b: Seq<u8>) -> int {
    b.len() - 12 - from_le_u64(b.subrange(b.len() - 12, b.len() - 4))
}

/// What the footer of the byte string `b` says, if `b` is framed and its
/// footer parses.
pub open spec fn file_footer(b: Seq<u8>) -> Option<MetadataView> {
    if framed(b) {
        parse_footer(b.subrange(footer_start(b), b.len() - 12))
    } else {
        None
    }
}

/// What the byte string `b` holds, if it is a file: it is framed, its footer
/// parses, and the footer describes the data between the opening marker and
/// itself.
pub open spec fn parse_file(b: Seq<u8>) -> Option<FileModel> {
    match file_footer(b) {
        None => None,
        Some(meta) => if layout_fits(meta, footer_start(b)) {
            Some(model_of(meta, b))
        } else {
            None
        },
    }
}

/// The byte string is a file: the encoding of some valid model.
pub open spec fn is_file(b: Seq<u8>) -> bool {
    exists|m: FileModel| m.valid() && #[trigger] file_bytes(m) == b
}

/// Later chunks start later.
pub proof fn lemma_expected_offset_monotone(records: Seq<ChunkView>, j: int, k: int)
    requires
        0 <= j <= k,
    ensures
        4 <= expected_offset(records, j) <= expected_offset(records, k),
    decreases k,
{
    if k > 0 {
        if j < k {
            lemma_expected_offset_monotone(records, j, k - 1);
        } else {
            lemma_expected_offset_monotone(records, 0, k - 1);
        }
    }
}

/// Where the records give every chunk four bytes per value, chunk `k` starts
/// four bytes behind the marker for every value before it.
pub proof fn lemma_expected_offset_values(records: Seq<ChunkView>, chunks: Seq<Seq<i32>>, k: int)
    requires
        records.len() == chunks.len(),
        0 <= k <= chunks.len(),
        forall|j: int|
            0 <= j < records.len() ==> (#[trigger] records[j]).byte_len == 4 * chunks[j].len(),
    ensures
        expected_offset(records, k) == 4 + 4 * values_before(chunks, k),
    decreases k,
{
    if k == 0 {
        lemma_values_before_all(chunks);
    } else {
        lemma_expected_offset_values(records, chunks, k - 1);
        lemma_values_before_step(chunks, k - 1);
        assert(records[k - 1].byte_len == 4 * chunks[k - 1].len());
    }
}

/// Where the records fit the layout, the bytes from the marker to the start
/// of chunk `k` are the plain encoding of the values of the chunks before it.
pub proof fn lemma_data_prefix(b: Seq<u8>, records: Seq<ChunkView>, k: int)
    requires
        0 <= k <= records.len(),
        forall|j: int| 0 <= j < records.len() ==> #[trigger] record_fits(records, j),
        expected_offset(records, records.len() as int) <= b.len(),
    ensures
        column_bytes(chunk_values(records, b).take(k).flatten()) == b.subrange(
            4,
            expected_offset(records, k),
        ),
    decreases k,
{
    let chunks = chunk_values(records, b);
    if k == 0 {
        lemma_expected_offset_monotone(records, 0, records.len() as int);
        assert(chunks.take(0) =~= Seq::<Seq<i32>>::empty());
        assert(column_bytes(chunks.take(0).flatten()) =~= b.subrange(4, 4));
    } else {
        lemma_data_prefix(b, records, k - 1);
        lemma_expected_offset_monotone(records, k, records.len() as int);
        lemma_expected_offset_monotone(records, k - 1, k);
        assert(record_fits(records, k - 1));
        let from = expected_offset(records, k - 1);
        let to = expected_offset(records, k);
        let piece = b.subrange(from, to);
        assert(chunks[k - 1] == decode_values(piece));
        assert(chunks.take(k) =~= chunks.take(k - 1).push(chunks[k - 1]));
        chunks.take(k - 1).lemma_flatten_push(chunks[k - 1]);
        lemma_column_bytes_concat(chunks.take(k - 1).flatten(), chunks[k - 1]);
        lemma_column_bytes_decode(piece);
        assert(b.subrange(4, from) + piece =~= b.subrange(4, to));
    }
}

/// Whatever the parser accepts is a file: what it reads from the bytes is a
/// valid model, and the bytes are the encoding of that model.
pub proof fn lemma_parse_file_sound(b: Seq<u8>)
    requires
        parse_file(b).is_some(),
    ensures
        parse_file(b).unwrap().valid(),
        file_bytes(parse_file(b).unwrap()) == b,
        metadata_of(parse_file(b).unwrap()) == file_footer(b).unwrap(),
        is_file(b),
{
    let n = b.len() as int;
    let footer_len = from_le_u64(b.subrange(n - 12, n - 4)) as int;
    let data_end = n - 12 - footer_len;
    let fb = b.subrange(data_end, n - 12);
    let meta = parse_footer(fb).unwrap();
    let m = model_of(meta, b);
    let records = meta.chunks;
    let ncols = meta.schema.len();
    let ngroups = meta.num_row_groups as nat;
    let chunks = chunk_values(records, b);
    let len = records.len() as int;
    assert(m == parse_file(b).unwrap());
    lemma_flatten_regroup(chunks, ngroups, ncols);
    assert(m.chunks() == chunks);
    assert forall|k: int| 0 <= k < len implies (#[trigger] chunks[k]).len() == records[k].count
        && records[k].byte_len == 4 * chunks[k].len() by {
        assert(record_fits(records, k));
        lemma_expected_offset_monotone(records, k + 1, len);
        lemma_expected_offset_monotone(records, k, k + 1);
    }
    assert forall|k: int| 0 <= k < len implies chunk_record(chunks, k) == records[k] by {
        assert(record_fits(records, k));
        assert(records[k].byte_len == 4 * chunks[k].len());
        lemma_expected_offset_values(records, chunks, k);
    }
    assert(chunk_records(chunks) =~= records);
    assert(m.groups.len() == ngroups);
    assert(metadata_of(m) == meta);
    lemma_data_prefix(b, records, len);
    assert(chunks.take(len) =~= chunks);
    lemma_parse_footer_sound(fb);
    lemma_le_u64_encode(b.subrange(n - 12, n - 4));
    assert(file_bytes(m) =~= b) by {
        assert(b =~= b.subrange(0, 4) + b.subrange(4, data_end) + fb + (b.subrange(n - 12, n - 4)
            + b.subrange(n - 4, n)));
    }
    assert(groups_shaped(m.groups, ncols)) by {
        assert forall|g: int| 0 <= g < m.groups.len() implies (#[trigger] m.groups[g]).len()
            == ncols && equal_counts(m.groups[g]) by {
            assert forall|c: int| 0 <= c < m.groups[g].len() implies (
            #[trigger] m.groups[g][c]).len() == m.groups[g][0].len() by {
                lemma_row_group_index(g, c, ngroups as int, ncols as int);
                lemma_row_group_index(g, 0, ngroups as int, ncols as int);
                let k = g * ncols + c;
                assert(same_rows(records, ncols as int, k));
                assert(chunks[k].len() == records[k].count);
                assert(chunks[g * ncols + 0].len() == records[g * ncols + 0].count);
            }
        }
    }
    assert(m.valid() && file_bytes(m) == b);
}

/// Column `c` of row group `g` is a chunk of the file, and the first chunk of
/// its row group is column 0 of that row group.
pub proof fn lemma_row_group_index(g: int, c: int, ngroups: int, ncols: int)
    requires
        0 <= g < ngroups,
        0 <= c < ncols,
    ensures
        0 <= g * ncols + c < ngroups * ncols,
        (g * ncols + c) % ncols == c,
        (g * ncols + c) / ncols == g,
        g * ncols + 0 == g * ncols + c - c,
{
    lemma_fundamental_div_mod_converse(g * ncols + c, ncols, g, c);
    assert(0 <= g * ncols + c < ngroups * ncols) by (nonlinear_arith)
        requires
            0 <= g < ngroups,
            0 <= c < ncols,
    ;
}

/// The encoding of a list of columns is at least ten bytes for each column,
/// and at least as long as the name of any of them.
pub proof fn lemma_schema_bytes_bounds(cols: Seq<ColumnView>)
    ensures
        schema_bytes(cols).len() >= 10 * cols.len(),
        forall|i: int|
            0 <= i < cols.len() ==> encode_utf8((#[trigger] cols[i]).name).len() <= schema_bytes(
                cols,
            ).len(),
    decreases cols.len(),
{
    if cols.len() > 0 {
        let rest = cols.drop_first();
        lemma_schema_bytes_front(cols);
        lemma_column_def_len(cols[0]);
        lemma_schema_bytes_bounds(rest);
        assert forall|i: int| 0 <= i < cols.len() implies encode_utf8(
            (#[trigger] cols[i]).name,
        ).len() <= schema_bytes(cols).len() by {
            if i > 0 {
                assert(cols[i] == rest[i - 1]);
            }
        }
    }
}

/// The parser reads every file back: from the encoding of a valid model it
/// reads that model.
pub proof fn lemma_parse_file_complete(m: FileModel)
    requires
        m.valid(),
    ensures
        parse_file(file_bytes(m)) == Some(m),
{
    let b = file_bytes(m);
    let meta = metadata_of(m);
    let footer = footer_bytes(meta);
    let chunks = m.chunks();
    let all = m.values();
    let data = column_bytes(all);
    let records = meta.chunks;
    let n = b.len() as int;
    let ncols = m.schema.len();
    let ngroups = m.groups.len();
    let len = chunks.len() as int;
    let data_end = 4 + data.len() as int;
    lemma_le_u64_decode(footer.len() as u64);
    assert(n == 4 + data.len() + footer.len() + 12);
    assert(b.subrange(0, 4) =~= magic());
    assert(b.subrange(n - 4, n) =~= magic());
    assert(b.subrange(n - 12, n - 4) =~= le_u64(footer.len() as u64));
    assert(b.subrange(data_end, n - 12) =~= footer);
    // The footer parses.
    lemma_schema_bytes_bounds(m.schema);
    lemma_chunk_list_len(records);
    lemma_le_u64_decode(m.schema.len() as u64);
    lemma_le_u64_decode(meta.num_row_groups);
    assert(footer.len() == 16 + schema_bytes(m.schema).len() + 25 * len);
    assert(names_fit(m.schema));
    lemma_parse_footer(meta);
    // The footer describes the data.
    assert(uniform(m.groups, ncols));
    lemma_uniform_len(m.groups, ncols);
    assert(ngroups <= len) by (nonlinear_arith)
        requires
            len == ngroups * ncols,
            ncols > 0,
    ;
    assert(meta.num_row_groups == ngroups);
    assert forall|k: int| 0 <= k < len implies (#[trigger] records[k]).byte_len == 4
        * chunks[k].len() && records[k].count == chunks[k].len() && records[k].offset == 4 + 4
        * values_before(chunks, k) by {
        lemma_chunk_in_values(chunks, k);
    }
    assert forall|k: int| 0 <= k < len implies #[trigger] record_fits(records, k) by {
        assert(records[k].byte_len == 4 * chunks[k].len());
        lemma_expected_offset_values(records, chunks, k);
    }
    assert forall|k: int| 0 <= k < len implies #[trigger] same_rows(records, ncols as int, k) by {
        let g = k / (ncols as int);
        let c = k % (ncols as int);
        lemma_fundamental_div_mod(k, ncols as int);
        assert(ncols * g == g * ncols) by (nonlinear_arith);
        assert(0 <= g < ngroups) by (nonlinear_arith)
            requires
                0 <= k < ngroups * ncols,
                k == g * ncols + c,
                0 <= c < ncols,
        ;
        lemma_uniform_index(m.groups, ncols, g, c);
        lemma_uniform_index(m.groups, ncols, g, 0);
        assert(equal_counts(m.groups[g]));
        assert(m.groups[g][c].len() == m.groups[g][0].len());
        assert(records[k].count == chunks[k].len());
        assert(records[k - c].count == chunks[k - c].len());
    }
    lemma_expected_offset_values(records, chunks, len);
    lemma_values_before_all(chunks);
    assert(layout_fits(meta, data_end));
    // What is read from the data is what was encoded.
    let read = chunk_values(records, b);
    assert forall|k: int| 0 <= k < len implies read[k] == chunks[k] by {
        lemma_chunk_in_values(chunks, k);
        let before = values_before(chunks, k) as int;
        let count = chunks[k].len() as int;
        assert(records[k].offset == 4 + 4 * before);
        assert(records[k].byte_len == 4 * count);
        lemma_column_bytes_subrange(all, before, before + count);
        assert(b.subrange(4 + 4 * before, 4 + 4 * before + 4 * count) =~= data.subrange(
            4 * before,
            4 * (before + count),
        ));
        lemma_decode_column_bytes(chunks[k]);
    }
    assert(read =~= chunks);
    lemma_regroup_flatten(m.groups, ncols);
    assert(model_of(meta, b) == m);
}

/// No two valid models have the same encoding.
pub proof fn lemma_file_bytes_injective(m1: FileModel, m2: FileModel)
    requires
        m1.valid(),
        m2.valid(),
        file_bytes(m1) == file_bytes(m2),
    ensures
        m1 == m2,
{
    lemma_parse_file_complete(m1);
    lemma_parse_file_complete(m2);
}

/// The parser accepts exactly the files.
pub proof fn lemma_parse_file_is_file(b: Seq<u8>)
    ensures
        parse_file(b).is_some() <==> is_file(b),
{
    if parse_file(b).is_some() {
        lemma_parse_file_sound(b);
    }
    if is_file(b) {
        let m = choose|m: FileModel| m.valid() && #[trigger] file_bytes(m) == b;
        lemma_parse_file_complete(m);
    }
}

} // verus!
