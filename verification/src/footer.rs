//! Reading a footer back: the parser, and the proofs that it is the inverse
//! of the encoding in [`crate::metadata`].

use crate::codec::{
    from_le_u64, get_u64, le_u64, lemma_le_u64_decode, lemma_le_u64_encode, string_from_utf8,
};
use crate::metadata::{
    chunk_list_bytes, chunk_meta_bytes, chunks_view, column_def_bytes, footer_bytes,
    schema_bytes, ChunkMeta, ChunkView, FileMetadata, MetadataView,
};
use crate::schema::{
    columns_view, define_column, type_of_tag, ColumnDef, ColumnView, PhysicalType,
};
use vstd::prelude::*;
use vstd::slice::{slice_subrange, slice_to_vec};
use vstd::utf8::{
    decode_utf8, decode_utf8_encode_utf8, encode_utf8, encode_utf8_decode_utf8,
    encode_utf8_valid_utf8, valid_utf8,
};

verus! {

/// The column definition that starts at `pos` in `s`, and where it ends.
pub open spec fn parse_column_def(s: Seq<u8>, pos: int) -> Option<(ColumnView, int)> {
    if pos < 0 || pos + 8 > s.len() {
        None
    } else {
        let n = from_le_u64(s.subrange(pos, pos + 8)) as int;
        if pos + 8 + n + 2 > s.len() {
            None
        } else {
            let name = s.subrange(pos + 8, pos + 8 + n);
            let tag = s[pos + 8 + n];
            let flag = s[pos + 8 + n + 1];
            if !valid_utf8(name) || type_of_tag(tag).is_none() || flag > 1 {
                None
            } else {
                Some(
                    (
                        ColumnView {
                            name: decode_utf8(name),
                            physical: type_of_tag(tag).unwrap(),
                            required: flag == 1,
                        },
                        pos + 8 + n + 2,
                    ),
                )
            }
        }
    }
}

/// The `n` column definitions that start at `pos` in `s`, appended to `acc`,
/// and where the last one ends.
pub open spec fn parse_column_defs(s: Seq<u8>, pos: int, n: nat, acc: Seq<ColumnView>) -> Option<
    (Seq<ColumnView>, int),
>
    decreases n,
{
    if n == 0 {
        Some((acc, pos))
    } else {
        match parse_column_def(s, pos) {
            None => None,
            Some((c, next)) => parse_column_defs(s, next, (n - 1) as nat, acc.push(c)),
        }
    }
}

/// The chunk record that starts at `pos` in `s`, and where it ends.
pub open spec fn parse_chunk_meta(s: Seq<u8>, pos: int) -> Option<(ChunkView, int)> {
    if pos < 0 || pos + 25 > s.len() || type_of_tag(s[pos]).is_none() {
        None
    } else {
        Some(
            (
                ChunkView {
                    physical: type_of_tag(s[pos]).unwrap(),
                    count: from_le_u64(s.subrange(pos + 1, pos + 9)),
                    offset: from_le_u64(s.subrange(pos + 9, pos + 17)),
                    byte_len: from_le_u64(s.subrange(pos + 17, pos + 25)),
                },
                pos + 25,
            ),
        )
    }
}

/// The `n` chunk records that start at `pos` in `s`, appended to `acc`, and
/// where the last one ends.
pub open spec fn parse_chunk_metas(s: Seq<u8>, pos: int, n: nat, acc: Seq<ChunkView>) -> Option<
    (Seq<ChunkView>, int),
>
    decreases n,
{
    if n == 0 {
        Some((acc, pos))
    } else {
        match parse_chunk_meta(s, pos) {
            None => None,
            Some((ch, next)) => parse_chunk_metas(s, next, (n - 1) as nat, acc.push(ch)),
        }
    }
}

/// What the footer `s` says, if it is one: the column count and that many
/// column definitions, the row group count, and chunk records up to the end
/// of `s` with nothing left over.
pub open spec fn parse_footer(s: Seq<u8>) -> Option<MetadataView> {
    if s.len() < 8 {
        None
    } else {
        let ncols = from_le_u64(s.subrange(0, 8));
        match parse_column_defs(s, 8, ncols as nat, Seq::empty()) {
            None => None,
            Some((schema, mid)) => {
                if mid + 8 > s.len() || (s.len() - (mid + 8)) % 25 != 0 {
                    None
                } else {
                    let num_row_groups = from_le_u64(s.subrange(mid, mid + 8));
                    let nchunks = (s.len() - (mid + 8)) / 25;
                    match parse_chunk_metas(s, mid + 8, nchunks as nat, Seq::empty()) {
                        None => None,
                        Some((chunks, end)) => Some(
                            MetadataView { schema, num_row_groups, chunks },
                        ),
                    }
                }
            },
        }
    }
}

/// Every name of `cols` has a UTF-8 encoding whose length fits in eight bytes.
pub open spec fn names_fit(cols: Seq<ColumnView>) -> bool {
    forall|i: int| 0 <= i < cols.len() ==> encode_utf8((#[trigger] cols[i]).name).len() <= u64::MAX
}

/// The encoding of a non-empty list of columns is the encoding of the first
/// one followed by that of the rest.
pub proof fn lemma_schema_bytes_front(cols: Seq<ColumnView>)
    requires
        cols.len() > 0,
    ensures
        schema_bytes(cols) == column_def_bytes(cols[0]) + schema_bytes(cols.drop_first()),
{
    let f = |c: ColumnView| column_def_bytes(c);
    assert(cols.map_values(f).drop_first() =~= cols.drop_first().map_values(f));
}

/// The encoding of a non-empty list of chunk records is the encoding of the
/// first one followed by that of the rest.
pub proof fn lemma_chunk_list_bytes_front(chunks: Seq<ChunkView>)
    requires
        chunks.len() > 0,
    ensures
        chunk_list_bytes(chunks) == chunk_meta_bytes(chunks[0]) + chunk_list_bytes(
            chunks.drop_first(),
        ),
{
    let f = |ch: ChunkView| chunk_meta_bytes(ch);
    assert(chunks.map_values(f).drop_first() =~= chunks.drop_first().map_values(f));
}

/// A column definition takes ten bytes and its name.
pub proof fn lemma_column_def_len(c: ColumnView)
    ensures
        column_def_bytes(c).len() == 10 + encode_utf8(c.name).len(),
{
    lemma_le_u64_decode(encode_utf8(c.name).len() as u64);
}

/// A chunk record takes 25 bytes.
pub proof fn lemma_chunk_meta_len(ch: ChunkView)
    ensures
        chunk_meta_bytes(ch).len() == 25,
{
    lemma_le_u64_decode(ch.count);
    lemma_le_u64_decode(ch.offset);
    lemma_le_u64_decode(ch.byte_len);
}

/// A list of chunk records takes 25 bytes for each.
pub proof fn lemma_chunk_list_len(chunks: Seq<ChunkView>)
    ensures
        chunk_list_bytes(chunks).len() == 25 * chunks.len(),
    decreases chunks.len(),
{
    if chunks.len() > 0 {
        lemma_chunk_list_bytes_front(chunks);
        lemma_chunk_meta_len(chunks[0]);
        lemma_chunk_list_len(chunks.drop_first());
    }
}

/// Where the encoding of a column definition stands, the parser reads that
/// definition.
pub proof fn lemma_parse_column_def(s: Seq<u8>, pos: int, c: ColumnView)
    requires
        0 <= pos,
        pos + column_def_bytes(c).len() <= s.len(),
        s.subrange(pos, pos + column_def_bytes(c).len()) == column_def_bytes(c),
        encode_utf8(c.name).len() <= u64::MAX,
    ensures
        parse_column_def(s, pos) == Some((c, pos + column_def_bytes(c).len())),
{
    let name = encode_utf8(c.name);
    let n = name.len() as int;
    let enc = column_def_bytes(c);
    lemma_column_def_len(c);
    lemma_le_u64_decode(n as u64);
    assert(s.subrange(pos, pos + 8) =~= enc.subrange(0, 8));
    assert(enc.subrange(0, 8) =~= le_u64(n as u64));
    assert(s.subrange(pos + 8, pos + 8 + n) =~= enc.subrange(8, 8 + n));
    assert(enc.subrange(8, 8 + n) =~= name);
    assert(s[pos + 8 + n] == enc[8 + n]);
    assert(s[pos + 8 + n + 1] == enc[8 + n + 1]);
    encode_utf8_valid_utf8(c.name);
    encode_utf8_decode_utf8(c.name);
    let parsed = parse_column_def(s, pos).unwrap().0;
    assert(parsed.name =~= c.name);
}

/// What the parser reads as a column definition is encoded by the bytes that
/// it read.
pub proof fn lemma_parse_column_def_sound(s: Seq<u8>, pos: int)
    requires
        parse_column_def(s, pos).is_some(),
    ensures
        ({
            let (c, next) = parse_column_def(s, pos).unwrap();
            &&& 0 <= pos < next <= s.len()
            &&& s.subrange(pos, next) == column_def_bytes(c)
            &&& encode_utf8(c.name).len() <= u64::MAX
        }),
{
    let (c, next) = parse_column_def(s, pos).unwrap();
    let n = from_le_u64(s.subrange(pos, pos + 8)) as int;
    let name = s.subrange(pos + 8, pos + 8 + n);
    decode_utf8_encode_utf8(name);
    lemma_le_u64_encode(s.subrange(pos, pos + 8));
    assert(encode_utf8(c.name) =~= name);
    assert(s.subrange(pos, next) =~= column_def_bytes(c));
}

/// Where the encoding of a list of columns stands, the parser reads that list.
pub proof fn lemma_parse_column_defs(s: Seq<u8>, pos: int, cols: Seq<ColumnView>, acc: Seq<ColumnView>)
    requires
        0 <= pos,
        pos + schema_bytes(cols).len() <= s.len(),
        s.subrange(pos, pos + schema_bytes(cols).len()) == schema_bytes(cols),
        names_fit(cols),
    ensures
        parse_column_defs(s, pos, cols.len(), acc) == Some(
            (acc + cols, pos + schema_bytes(cols).len()),
        ),
    decreases cols.len(),
{
    if cols.len() == 0 {
        assert(acc + cols =~= acc);
    } else {
        let first = cols[0];
        let rest = cols.drop_first();
        let l1 = column_def_bytes(first).len() as int;
        let all = schema_bytes(cols);
        lemma_schema_bytes_front(cols);
        assert(s.subrange(pos, pos + l1) =~= all.subrange(0, l1));
        assert(all.subrange(0, l1) =~= column_def_bytes(first));
        lemma_parse_column_def(s, pos, first);
        assert(s.subrange(pos + l1, pos + l1 + schema_bytes(rest).len()) =~= all.subrange(
            l1,
            all.len() as int,
        ));
        assert(all.subrange(l1, all.len() as int) =~= schema_bytes(rest));
        assert(names_fit(rest)) by {
            assert forall|i: int| 0 <= i < rest.len() implies encode_utf8(
                (#[trigger] rest[i]).name,
            ).len() <= u64::MAX by {
                assert(rest[i] == cols[i + 1]);
            }
        }
        lemma_parse_column_defs(s, pos + l1, rest, acc.push(first));
        assert(acc.push(first) + rest =~= acc + cols);
    }
}

/// What the parser reads as a list of columns is encoded by the bytes that it
/// read.
pub proof fn lemma_parse_column_defs_sound(s: Seq<u8>, pos: int, n: nat, acc: Seq<ColumnView>)
    requires
        parse_column_defs(s, pos, n, acc).is_some(),
        0 <= pos <= s.len(),
    ensures
        ({
            let (out, end) = parse_column_defs(s, pos, n, acc).unwrap();
            let tail = out.subrange(acc.len() as int, out.len() as int);
            &&& pos <= end <= s.len()
            &&& out.len() == acc.len() + n
            &&& out.subrange(0, acc.len() as int) == acc
            &&& s.subrange(pos, end) == schema_bytes(tail)
            &&& names_fit(tail)
        }),
    decreases n,
{
    let (out, end) = parse_column_defs(s, pos, n, acc).unwrap();
    let tail = out.subrange(acc.len() as int, out.len() as int);
    if n == 0 {
        assert(out.subrange(0, acc.len() as int) =~= acc);
        assert(tail =~= Seq::empty());
        assert(s.subrange(pos, end) =~= schema_bytes(tail));
    } else {
        let (c, next) = parse_column_def(s, pos).unwrap();
        lemma_parse_column_def_sound(s, pos);
        let acc1 = acc.push(c);
        lemma_parse_column_defs_sound(s, next, (n - 1) as nat, acc1);
        let tail1 = out.subrange(acc1.len() as int, out.len() as int);
        assert(out.subrange(0, acc1.len() as int) == acc1);
        assert(out[acc.len() as int] == acc1[acc.len() as int]);
        assert(out.subrange(0, acc.len() as int) =~= acc) by {
            assert forall|i: int| 0 <= i < acc.len() implies out[i] == acc[i] by {
                assert(out.subrange(0, acc1.len() as int)[i] == acc1[i]);
            }
        }
        assert(tail[0] == c);
        assert(tail.drop_first() =~= tail1);
        lemma_schema_bytes_front(tail);
        assert(s.subrange(pos, end) =~= s.subrange(pos, next) + s.subrange(next, end));
        assert(names_fit(tail)) by {
            assert forall|i: int| 0 <= i < tail.len() implies encode_utf8(
                (#[trigger] tail[i]).name,
            ).len() <= u64::MAX by {
                if i > 0 {
                    assert(tail[i] == tail1[i - 1]);
                }
            }
        }
    }
}

/// Where the encoding of a chunk record stands, the parser reads that record.
pub proof fn lemma_parse_chunk_meta(s: Seq<u8>, pos: int, ch: ChunkView)
    requires
        0 <= pos,
        pos + 25 <= s.len(),
        s.subrange(pos, pos + 25) == chunk_meta_bytes(ch),
    ensures
        parse_chunk_meta(s, pos) == Some((ch, pos + 25)),
{
    let enc = chunk_meta_bytes(ch);
    lemma_le_u64_decode(ch.count);
    lemma_le_u64_decode(ch.offset);
    lemma_le_u64_decode(ch.byte_len);
    assert(s[pos] == enc[0]);
    assert(s.subrange(pos + 1, pos + 9) =~= enc.subrange(1, 9));
    assert(enc.subrange(1, 9) =~= le_u64(ch.count));
    assert(s.subrange(pos + 9, pos + 17) =~= enc.subrange(9, 17));
    assert(enc.subrange(9, 17) =~= le_u64(ch.offset));
    assert(s.subrange(pos + 17, pos + 25) =~= enc.subrange(17, 25));
    assert(enc.subrange(17, 25) =~= le_u64(ch.byte_len));
}

/// What the parser reads as a chunk record is encoded by the bytes that it
/// read.
pub proof fn lemma_parse_chunk_meta_sound(s: Seq<u8>, pos: int)
    requires
        parse_chunk_meta(s, pos).is_some(),
    ensures
        ({
            let (ch, next) = parse_chunk_meta(s, pos).unwrap();
            &&& 0 <= pos
            &&& next == pos + 25
            &&& next <= s.len()
            &&& s.subrange(pos, next) == chunk_meta_bytes(ch)
        }),
{
    let (ch, next) = parse_chunk_meta(s, pos).unwrap();
    lemma_le_u64_encode(s.subrange(pos + 1, pos + 9));
    lemma_le_u64_encode(s.subrange(pos + 9, pos + 17));
    lemma_le_u64_encode(s.subrange(pos + 17, pos + 25));
    assert(s.subrange(pos, next) =~= chunk_meta_bytes(ch));
}

/// Where the encoding of a list of chunk records stands, the parser reads that
/// list.
pub proof fn lemma_parse_chunk_metas(s: Seq<u8>, pos: int, chunks: Seq<ChunkView>, acc: Seq<ChunkView>)
    requires
        0 <= pos,
        pos + 25 * chunks.len() <= s.len(),
        s.subrange(pos, pos + 25 * chunks.len()) == chunk_list_bytes(chunks),
    ensures
        parse_chunk_metas(s, pos, chunks.len(), acc) == Some(
            (acc + chunks, pos + 25 * chunks.len()),
        ),
    decreases chunks.len(),
{
    if chunks.len() == 0 {
        assert(acc + chunks =~= acc);
    } else {
        let first = chunks[0];
        let rest = chunks.drop_first();
        let all = chunk_list_bytes(chunks);
        lemma_chunk_list_bytes_front(chunks);
        lemma_chunk_meta_len(first);
        lemma_chunk_list_len(rest);
        assert(s.subrange(pos, pos + 25) =~= all.subrange(0, 25));
        assert(all.subrange(0, 25) =~= chunk_meta_bytes(first));
        lemma_parse_chunk_meta(s, pos, first);
        assert(s.subrange(pos + 25, pos + 25 + 25 * rest.len()) =~= all.subrange(
            25,
            all.len() as int,
        ));
        assert(all.subrange(25, all.len() as int) =~= chunk_list_bytes(rest));
        lemma_parse_chunk_metas(s, pos + 25, rest, acc.push(first));
        assert(acc.push(first) + rest =~= acc + chunks);
    }
}

/// What the parser reads as a list of chunk records is encoded by the bytes
/// that it read.
pub proof fn lemma_parse_chunk_metas_sound(s: Seq<u8>, pos: int, n: nat, acc: Seq<ChunkView>)
    requires
        parse_chunk_metas(s, pos, n, acc).is_some(),
        0 <= pos <= s.len(),
    ensures
        ({
            let (out, end) = parse_chunk_metas(s, pos, n, acc).unwrap();
            let tail = out.subrange(acc.len() as int, out.len() as int);
            &&& end == pos + 25 * n
            &&& end <= s.len()
            &&& out.len() == acc.len() + n
            &&& out.subrange(0, acc.len() as int) == acc
            &&& s.subrange(pos, end) == chunk_list_bytes(tail)
        }),
    decreases n,
{
    let (out, end) = parse_chunk_metas(s, pos, n, acc).unwrap();
    let tail = out.subrange(acc.len() as int, out.len() as int);
    if n == 0 {
        assert(out.subrange(0, acc.len() as int) =~= acc);
        assert(tail =~= Seq::empty());
        assert(s.subrange(pos, end) =~= chunk_list_bytes(tail));
    } else {
        let (ch, next) = parse_chunk_meta(s, pos).unwrap();
        lemma_parse_chunk_meta_sound(s, pos);
        let acc1 = acc.push(ch);
        lemma_parse_chunk_metas_sound(s, next, (n - 1) as nat, acc1);
        let tail1 = out.subrange(acc1.len() as int, out.len() as int);
        assert(out.subrange(0, acc1.len() as int) == acc1);
        assert(out[acc.len() as int] == acc1[acc.len() as int]);
        assert(out.subrange(0, acc.len() as int) =~= acc) by {
            assert forall|i: int| 0 <= i < acc.len() implies out[i] == acc[i] by {
                assert(out.subrange(0, acc1.len() as int)[i] == acc1[i]);
            }
        }
        assert(tail[0] == ch);
        assert(tail.drop_first() =~= tail1);
        lemma_chunk_list_bytes_front(tail);
        assert(s.subrange(pos, end) =~= s.subrange(pos, next) + s.subrange(next, end));
    }
}

/// The parser reads back every footer whose lengths fit in eight bytes.
pub proof fn lemma_parse_footer(meta: MetadataView)
    requires
        meta.schema.len() <= u64::MAX,
        names_fit(meta.schema),
    ensures
        parse_footer(footer_bytes(meta)) == Some(meta),
{
    let s = footer_bytes(meta);
    let ncols = meta.schema.len() as u64;
    let sb = schema_bytes(meta.schema);
    let cb = chunk_list_bytes(meta.chunks);
    let mid = 8 + sb.len() as int;
    lemma_le_u64_decode(ncols);
    lemma_le_u64_decode(meta.num_row_groups);
    lemma_chunk_list_len(meta.chunks);
    assert(s.subrange(0, 8) =~= le_u64(ncols));
    assert(s.subrange(8, mid) =~= sb);
    lemma_parse_column_defs(s, 8, meta.schema, Seq::empty());
    assert(Seq::<ColumnView>::empty() + meta.schema =~= meta.schema);
    assert(s.subrange(mid, mid + 8) =~= le_u64(meta.num_row_groups));
    assert(s.len() - (mid + 8) == 25 * meta.chunks.len());
    assert(s.subrange(mid + 8, mid + 8 + 25 * meta.chunks.len()) =~= cb);
    lemma_parse_chunk_metas(s, mid + 8, meta.chunks, Seq::empty());
    assert(Seq::<ChunkView>::empty() + meta.chunks =~= meta.chunks);
}

/// Whatever the parser accepts is the encoding of what it read.
pub proof fn lemma_parse_footer_sound(s: Seq<u8>)
    requires
        parse_footer(s).is_some(),
    ensures
        footer_bytes(parse_footer(s).unwrap()) == s,
        parse_footer(s).unwrap().schema.len() <= u64::MAX,
        names_fit(parse_footer(s).unwrap().schema),
{
    let meta = parse_footer(s).unwrap();
    let ncols = from_le_u64(s.subrange(0, 8));
    let (schema, mid) = parse_column_defs(s, 8, ncols as nat, Seq::empty()).unwrap();
    let nchunks = ((s.len() - (mid + 8)) / 25) as nat;
    let (chunks, end) = parse_chunk_metas(s, mid + 8, nchunks, Seq::empty()).unwrap();
    lemma_parse_column_defs_sound(s, 8, ncols as nat, Seq::empty());
    lemma_parse_chunk_metas_sound(s, mid + 8, nchunks, Seq::empty());
    lemma_le_u64_encode(s.subrange(0, 8));
    lemma_le_u64_encode(s.subrange(mid, mid + 8));
    assert(schema.subrange(0, schema.len() as int) =~= schema);
    assert(chunks.subrange(0, chunks.len() as int) =~= chunks);
    assert(end == s.len());
    assert(s =~= s.subrange(0, 8) + s.subrange(8, mid) + s.subrange(mid, mid + 8) + s.subrange(
        mid + 8,
        end,
    ));
}

/// Reads the column definition that starts at `pos`.
pub fn read_column_def(footer: &[u8], pos: usize) -> (r: Option<(ColumnDef, usize)>)
    requires
        pos <= footer@.len(),
    ensures
        match r {
            Some((col, next)) => parse_column_def(footer@, pos as int) == Some(
                (col@, next as int),
            ),
            None => parse_column_def(footer@, pos as int).is_none(),
        },
{
    let len: usize = footer.len();
    if len - pos < 8 {
        return None;
    }
    let n: u64 = get_u64(footer, pos);
    let room: usize = len - pos - 8;
    if room < 2 || n > (room - 2) as u64 {
        return None;
    }
    let n: usize = n as usize;
    let name_bytes: Vec<u8> = slice_to_vec(slice_subrange(footer, pos + 8, pos + 8 + n));
    let tag: u8 = footer[pos + 8 + n];
    let flag: u8 = footer[pos + 8 + n + 1];
    let name: String = match string_from_utf8(name_bytes) {
        None => {
            return None;
        },
        Some(name) => name,
    };
    let physical: PhysicalType = match PhysicalType::from_tag(tag) {
        None => {
            return None;
        },
        Some(physical) => physical,
    };
    if flag > 1 {
        return None;
    }
    Some((define_column(name.as_str(), physical, flag == 1), pos + 8 + n + 2))
}

/// Reads the chunk record that starts at `pos`.
pub fn read_chunk_meta(footer: &[u8], pos: usize) -> (r: Option<(ChunkMeta, usize)>)
    requires
        pos <= footer@.len(),
    ensures
        match r {
            Some((chunk, next)) => parse_chunk_meta(footer@, pos as int) == Some(
                (chunk@, next as int),
            ),
            None => parse_chunk_meta(footer@, pos as int).is_none(),
        },
{
    let len: usize = footer.len();
    if len - pos < 25 {
        return None;
    }
    let physical: PhysicalType = match PhysicalType::from_tag(footer[pos]) {
        None => {
            return None;
        },
        Some(physical) => physical,
    };
    let count: u64 = get_u64(footer, pos + 1);
    let offset: u64 = get_u64(footer, pos + 9);
    let byte_len: u64 = get_u64(footer, pos + 17);
    Some((ChunkMeta { physical, count, offset, byte_len }, pos + 25))
}

/// Reads a footer: succeeds exactly on the byte strings that
/// [`parse_footer`] accepts, with what it reads from them.
pub fn read_footer(footer: &[u8]) -> (r: Option<FileMetadata>)
    ensures
        match r {
            Some(meta) => parse_footer(footer@) == Some(meta@),
            None => parse_footer(footer@).is_none(),
        },
{
    let len: usize = footer.len();
    if len < 8 {
        return None;
    }
    let ncols: u64 = get_u64(footer, 0);
    let mut columns: Vec<ColumnDef> = Vec::new();
    let mut pos: usize = 8;
    let mut i: u64 = 0;
    assert(columns_view(columns@) =~= Seq::empty());
    while i < ncols
        invariant
            len == footer@.len(),
            8 <= pos <= len,
            i <= ncols,
            ncols == from_le_u64(footer@.subrange(0, 8)),
            parse_column_defs(footer@, 8, ncols as nat, Seq::empty()) == parse_column_defs(
                footer@,
                pos as int,
                (ncols - i) as nat,
                columns_view(columns@),
            ),
        decreases ncols - i,
    {
        match read_column_def(footer, pos) {
            None => {
                assert(parse_column_defs(
                    footer@,
                    pos as int,
                    (ncols - i) as nat,
                    columns_view(columns@),
                ).is_none());
                return None;
            },
            Some((col, next)) => {
                proof {
                    lemma_parse_column_def_sound(footer@, pos as int);
                    assert(columns_view(columns@.push(col)) =~= columns_view(columns@).push(col@));
                }
                columns.push(col);
                pos = next;
            },
        }
        i += 1;
    }
    let mid: usize = pos;
    if len - mid < 8 {
        return None;
    }
    let rest: usize = len - mid - 8;
    if rest % 25 != 0 {
        return None;
    }
    let num_row_groups: u64 = get_u64(footer, mid);
    let nchunks: usize = rest / 25;
    let mut chunks: Vec<ChunkMeta> = Vec::new();
    let mut k: usize = 0;
    pos = mid + 8;
    assert(chunks_view(chunks@) =~= Seq::empty());
    while k < nchunks
        invariant
            len == footer@.len(),
            mid + 8 <= pos <= len,
            k <= nchunks,
            ncols == from_le_u64(footer@.subrange(0, 8)),
            parse_column_defs(footer@, 8, ncols as nat, Seq::empty()) == Some(
                (columns_view(columns@), mid as int),
            ),
            (len - (mid + 8)) % 25 == 0,
            nchunks == (len - (mid + 8)) / 25,
            num_row_groups == from_le_u64(footer@.subrange(mid as int, mid + 8)),
            parse_chunk_metas(footer@, mid + 8, nchunks as nat, Seq::empty()) == parse_chunk_metas(
                footer@,
                pos as int,
                (nchunks - k) as nat,
                chunks_view(chunks@),
            ),
        decreases nchunks - k,
    {
        match read_chunk_meta(footer, pos) {
            None => {
                assert(parse_chunk_metas(
                    footer@,
                    pos as int,
                    (nchunks - k) as nat,
                    chunks_view(chunks@),
                ).is_none());
                return None;
            },
            Some((chunk, next)) => {
                proof {
                    lemma_parse_chunk_meta_sound(footer@, pos as int);
                    assert(chunks_view(chunks@.push(chunk)) =~= chunks_view(chunks@).push(chunk@));
                }
                chunks.push(chunk);
                pos = next;
            },
        }
        k += 1;
    }
    Some(FileMetadata { columns, num_row_groups, chunks })
}

} // verus!
