//! What holds of the format and of the writer's protocol as a whole, proved
//! from the definitions that the contracts of the library use.

use crate::codec::lemma_le_u64_decode;
use crate::decode::{lemma_file_bytes_injective, lemma_parse_file_complete, parse_file};
use crate::layout::{file_bytes, magic, metadata_of, FileModel};
use crate::metadata::footer_bytes;
use crate::writer::{
    holds_column, holds_row_group, not_before, ColumnWriter, Phase, RowGroupWriter, SessionView,
};
use vstd::prelude::*;

verus! {

/// Every file opens and closes with the magic marker, whatever it holds, and
/// has room for both markers and the length of the footer between them.
pub proof fn lemma_file_magic(m: FileModel)
    ensures
        file_bytes(m).len() >= 16,
        file_bytes(m).subrange(0, 4) == magic(),
        file_bytes(m).subrange(file_bytes(m).len() - 4, file_bytes(m).len() as int) == magic(),
{
    let b = file_bytes(m);
    lemma_le_u64_decode(footer_bytes(metadata_of(m)).len() as u64);
    assert(b.subrange(0, 4) =~= magic());
    assert(b.subrange(b.len() - 4, b.len() as int) =~= magic());
}

/// Reading a file any number of times gives the same metadata: two models
/// that are read from the same bytes are one, so they have the same row
/// groups, the same number of columns in each, and the same footer.
pub proof fn lemma_same_bytes_same_metadata(bytes: Seq<u8>, first: FileModel, second: FileModel)
    requires
        first.valid(),
        second.valid(),
        file_bytes(first) == bytes,
        file_bytes(second) == bytes,
    ensures
        first == second,
        first.groups.len() == second.groups.len(),
        forall|g: int|
            0 <= g < first.groups.len() ==> first.groups[g].len() == second.groups[g].len(),
        metadata_of(first) == metadata_of(second),
{
    lemma_file_bytes_injective(first, second);
}

/// What is read comes in the order in which it was written: the file that
/// encodes a valid model reads as that model, with every row group, every
/// column of it and every column of the schema at the place where it was
/// written.
pub proof fn lemma_order_preserved(m: FileModel, g: int, c: int)
    requires
        m.valid(),
        0 <= g < m.groups.len(),
        0 <= c < m.schema.len(),
    ensures
        parse_file(file_bytes(m)).is_some(),
        parse_file(file_bytes(m)).unwrap().groups.len() == m.groups.len(),
        parse_file(file_bytes(m)).unwrap().groups[g].len() == m.schema.len(),
        parse_file(file_bytes(m)).unwrap().groups[g][c] == m.groups[g][c],
        parse_file(file_bytes(m)).unwrap().schema[c] == m.schema[c],
{
    lemma_parse_file_complete(m);
}

/// The session as the close of its open column leaves it.
pub open spec fn column_closed(v: SessionView) -> SessionView {
    SessionView {
        columns: v.columns.push(v.values),
        values: Seq::empty(),
        phase: Phase::RowGroupOpen,
        ..v
    }
}

/// The session as the close of its open row group leaves it.
pub open spec fn row_group_closed(v: SessionView) -> SessionView {
    SessionView { groups: v.groups.push(v.columns), columns: Seq::empty(), phase: Phase::Idle, ..v }
}

/// A closed column stays closed: once the column of a handle has been
/// closed, the handle is that of the open column in no later state of the
/// session, so every write with it fails with a state error. Every operation
/// of a session leaves it in a state that comes no earlier.
pub proof fn lemma_closed_column_stays_closed(v: SessionView, w: ColumnWriter, later: SessionView)
    requires
        holds_column(v, w),
        not_before(later, column_closed(v)),
    ensures
        !holds_column(column_closed(v), w),
        !holds_column(later, w),
{
}

/// A closed row group stays closed: once the row group of a handle has been
/// closed, the handle is that of the open row group in no later state.
pub proof fn lemma_closed_row_group_stays_closed(
    v: SessionView,
    w: RowGroupWriter,
    later: SessionView,
)
    requires
        holds_row_group(v, w),
        not_before(later, row_group_closed(v)),
    ensures
        !holds_row_group(row_group_closed(v), w),
        !holds_row_group(later, w),
{
}

/// While a row group is open the session is not idle, so no second row group
/// can be opened: a session is idle again only when the row group is closed.
pub proof fn lemma_open_row_group_excludes_another(v: SessionView, w: RowGroupWriter)
    requires
        holds_row_group(v, w),
    ensures
        v.phase != Phase::Idle,
        row_group_closed(v).phase == Phase::Idle,
{
}

/// Coming no earlier is transitive, and every state comes no earlier than
/// itself.
pub proof fn lemma_not_before_transitive(a: SessionView, b: SessionView, c: SessionView)
    requires
        not_before(b, a),
        not_before(c, b),
    ensures
        not_before(c, a),
        not_before(a, a),
{
}

} // verus!
