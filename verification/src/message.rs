//! Schemas written as Parquet message types, such as
//! `message schema { REQUIRED INT32 b; }`.
//!
//! The text is parsed by the `parquet` crate; what the parser reports decides
//! here, in verified code, whether the message type is a schema of this
//! format.

use crate::error::Error;
use crate::schema::{
    build_schema, columns_view, define_column, valid_columns, ColumnDef, ColumnView, PhysicalType,
    Schema,
};
use parquet::schema::types::Type;
use vstd::prelude::*;

verus! {

/// Parquet's number for the repetition `REQUIRED`.
pub const REPETITION_REQUIRED: i32 = 0;

/// Parquet's number for the repetition `OPTIONAL`.
pub const REPETITION_OPTIONAL: i32 = 1;

/// Parquet's number for the physical type `INT32`.
pub const PHYSICAL_INT32: i32 = 1;

/// One field of the root of a message type, as Parquet's parser reports it.
#[derive(Debug)]
pub struct MessageField {
    /// The name of the field.
    pub name: String,
    /// Parquet's number for the repetition of the field: 0 for `REQUIRED`,
    /// 1 for `OPTIONAL`, 2 for `REPEATED`.
    pub repetition: i32,
    /// Parquet's number for the physical type of a primitive field; none for
    /// a group.
    pub physical: Option<i32>,
}

/// A field of a message type, as mathematics.
pub struct MessageFieldView {
    pub name: Seq<char>,
    pub repetition: i32,
    pub physical: Option<i32>,
}

impl View for MessageField {
    type V = MessageFieldView;

    open spec fn view(&self) -> MessageFieldView {
        MessageFieldView { name: self.name@, repetition: self.repetition, physical: self.physical }
    }
}

/// The views of a list of fields, in order.
pub open spec fn fields_view(fields: Seq<MessageField>) -> Seq<MessageFieldView> {
    Seq::new(fields.len(), |i: int| fields[i]@)
}

/// The view of what the parser hands back.
pub open spec fn parsed_view(parsed: Option<Vec<MessageField>>) -> Option<Seq<MessageFieldView>> {
    match parsed {
        None => None,
        Some(fields) => Some(fields_view(fields@)),
    }
}

/// The fields of the root of the message type that `text` spells, as
/// `parse_message_type` of the `parquet` crate reads them, or nothing where
/// it rejects the text.
pub uninterp spec fn message_type_fields(text: Seq<char>) -> Option<Seq<MessageFieldView>>;

/// Parses a message type and reports the fields of its root.
///
/// Calls `parquet::schema::parser::parse_message_type`, which Verus does not
/// read. The contract claims one thing of it: that what it reads depends on
/// the text alone, so that the result has the name
/// [`message_type_fields`]. Each field is reported by its name, the number
/// of its repetition and, for a primitive field, the number of its physical
/// type, as the enums of the `parquet` crate number them.
#[verifier::external_body]
fn parse_message_fields(text: &str) -> (r: Option<Vec<MessageField>>)
    ensures
        parsed_view(r) == message_type_fields(text@),
{
    let root = parquet::schema::parser::parse_message_type(text).ok()?;
    Some(root.get_fields().iter().map(|field| MessageField {
        name: field.name().to_owned(),
        repetition: field.get_basic_info().repetition() as i32,
        physical: match field.as_ref() {
            Type::PrimitiveType { physical_type, .. } => Some(*physical_type as i32),
            Type::GroupType { .. } => None,
        },
    }).collect())
}

/// The column that a field stands for, if this format has one for it: a
/// primitive field of type `INT32` that is required or optional. Groups,
/// repeated fields and fields of other types have none.
pub open spec fn column_of_field(field: MessageFieldView) -> Option<ColumnView> {
    if field.physical == Some(PHYSICAL_INT32) && (field.repetition == REPETITION_REQUIRED
        || field.repetition == REPETITION_OPTIONAL) {
        Some(
            ColumnView {
                name: field.name,
                physical: PhysicalType::Int32,
                required: field.repetition == REPETITION_REQUIRED,
            },
        )
    } else {
        None
    }
}

/// Every field stands for a column.
pub open spec fn fields_supported(fields: Seq<MessageFieldView>) -> bool {
    forall|i: int| 0 <= i < fields.len() ==> (#[trigger] column_of_field(fields[i])).is_some()
}

/// The columns that the fields stand for, in order.
pub open spec fn columns_of_fields(fields: Seq<MessageFieldView>) -> Seq<ColumnView> {
    Seq::new(fields.len(), |i: int| column_of_field(fields[i]).unwrap())
}

/// The schema that a list of fields makes: its columns, where every field
/// stands for one and the columns are a valid schema.
pub open spec fn schema_of_fields(fields: Seq<MessageFieldView>) -> Result<Seq<ColumnView>, Error> {
    if fields_supported(fields) && valid_columns(columns_of_fields(fields)) {
        Ok(columns_of_fields(fields))
    } else {
        Err(Error::Schema)
    }
}

/// The schema that a message type spells.
pub open spec fn schema_of_message(text: Seq<char>) -> Result<Seq<ColumnView>, Error> {
    match message_type_fields(text) {
        None => Err(Error::Schema),
        Some(fields) => schema_of_fields(fields),
    }
}

/// What a schema or a failure is, as mathematics.
pub open spec fn schema_result_view(r: Result<Schema, Error>) -> Result<Seq<ColumnView>, Error> {
    match r {
        Ok(schema) => Ok(schema@),
        Err(e) => Err(e),
    }
}

/// Makes a schema of the fields of a message type.
///
/// Fails with [`Error::Schema`] exactly when a field is a group, is repeated
/// or has another type than `INT32`, or when the columns are no valid schema:
/// there is none, one is optional, or a name occurs twice.
pub fn schema_from_fields(fields: &Vec<MessageField>) -> (r: Result<Schema, Error>)
    ensures
        schema_result_view(r) == schema_of_fields(fields_view(fields@)),
{
    let ghost views = fields_view(fields@);
    let mut columns: Vec<ColumnDef> = Vec::new();
    let mut i: usize = 0;
    while i < fields.len()
        invariant
            i <= fields@.len(),
            views == fields_view(fields@),
            columns@.len() == i,
            forall|k: int| 0 <= k < i ==> (#[trigger] column_of_field(views[k])).is_some(),
            forall|k: int|
                0 <= k < i ==> (#[trigger] columns@[k])@ == column_of_field(views[k]).unwrap(),
        decreases fields@.len() - i,
    {
        let field: &MessageField = &fields[i];
        assert(views[i as int] == field@);
        let required: bool = field.repetition == REPETITION_REQUIRED;
        if !(required || field.repetition == REPETITION_OPTIONAL) {
            assert(column_of_field(views[i as int]).is_none());
            return Err(Error::Schema);
        }
        match field.physical {
            Some(number) => {
                if number != PHYSICAL_INT32 {
                    assert(column_of_field(views[i as int]).is_none());
                    return Err(Error::Schema);
                }
            },
            None => {
                assert(column_of_field(views[i as int]).is_none());
                return Err(Error::Schema);
            },
        }
        columns.push(define_column(field.name.as_str(), PhysicalType::Int32, required));
        i += 1;
    }
    assert(columns_view(columns@) =~= columns_of_fields(views));
    build_schema(columns)
}

/// Makes a schema of a message type.
///
/// Fails with [`Error::Schema`] when the text is no message type, and when
/// its fields make no schema, as [`schema_from_fields`] says.
pub fn parse_schema(text: &str) -> (r: Result<Schema, Error>)
    ensures
        schema_result_view(r) == schema_of_message(text@),
{
    match parse_message_fields(text) {
        None => Err(Error::Schema),
        Some(fields) => schema_from_fields(&fields),
    }
}

} // verus!
