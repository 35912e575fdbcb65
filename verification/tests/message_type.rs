use colfile::error::Error;
use colfile::ints::{read_ints, write_ints};
use colfile::message::{
    parse_schema, schema_from_fields, MessageField, PHYSICAL_INT32, REPETITION_OPTIONAL,
    REPETITION_REQUIRED,
};
use colfile::schema::PhysicalType;
use parquet::basic::{Repetition, Type as PhysicalKind};
use parquet::schema::parser::parse_message_type;

fn field(name: &str, repetition: i32, physical: Option<i32>) -> MessageField {
    MessageField { name: name.to_string(), repetition, physical }
}

#[test]
fn message_type_with_one_required_int32() {
    let schema = parse_schema("message schema { REQUIRED INT32 b; }").unwrap();
    assert_eq!(schema.num_columns(), 1);
    let column = schema.column(0).unwrap();
    assert_eq!(column.name(), "b");
    assert_eq!(column.physical_type(), PhysicalType::Int32);
    assert!(column.is_required());
}

#[test]
fn message_type_over_several_lines() {
    let message_type = "
  message schema {
    REQUIRED INT32 b;
  }
";
    let schema = parse_schema(message_type).unwrap();
    assert_eq!(schema.num_columns(), 1);
    assert_eq!(schema.column(0).unwrap().name(), "b");
    let bytes = write_ints(&schema, &[1, 2, 3]);
    assert_eq!(&bytes[0..4], &[b'P', b'A', b'R', b'1']);
    assert_eq!(read_ints(bytes), Ok(vec![1, 2, 3]));
}

#[test]
fn message_type_with_several_fields_keeps_their_order() {
    let schema =
        parse_schema("message m { required int32 z; REQUIRED INT32 a; Required Int32 k; }")
            .unwrap();
    assert_eq!(schema.num_columns(), 3);
    assert_eq!(schema.column(0).unwrap().name(), "z");
    assert_eq!(schema.column(1).unwrap().name(), "a");
    assert_eq!(schema.column(2).unwrap().name(), "k");
}

#[test]
fn text_that_is_no_message_type_is_a_schema_error() {
    assert_eq!(parse_schema("").err(), Some(Error::Schema));
    assert_eq!(parse_schema("REQUIRED INT32 b;").err(), Some(Error::Schema));
    assert_eq!(parse_schema("message schema { REQUIRED INT32 b }").err(), Some(Error::Schema));
    assert_eq!(parse_schema("message schema { REQUIRED INT31 b; }").err(), Some(Error::Schema));
    assert_eq!(parse_schema("message schema { MAYBE INT32 b; }").err(), Some(Error::Schema));
    assert_eq!(parse_schema("message").err(), Some(Error::Schema));
}

#[test]
fn message_type_without_fields_is_a_schema_error() {
    assert!(parse_message_type("message schema { }").is_ok());
    assert_eq!(parse_schema("message schema { }").err(), Some(Error::Schema));
}

#[test]
fn field_that_is_not_required_is_a_schema_error() {
    assert!(parse_message_type("message schema { OPTIONAL INT32 b; }").is_ok());
    assert_eq!(parse_schema("message schema { OPTIONAL INT32 b; }").err(), Some(Error::Schema));
    assert_eq!(parse_schema("message schema { REPEATED INT32 b; }").err(), Some(Error::Schema));
    assert_eq!(
        parse_schema("message schema { REQUIRED INT32 a; OPTIONAL INT32 b; }").err(),
        Some(Error::Schema)
    );
}

#[test]
fn field_of_another_type_is_a_schema_error() {
    for kind in ["BOOLEAN", "INT64", "INT96", "FLOAT", "DOUBLE", "BYTE_ARRAY"] {
        let text = format!("message schema {{ REQUIRED {} b; }}", kind);
        assert!(parse_message_type(&text).is_ok(), "{}", kind);
        assert_eq!(parse_schema(&text).err(), Some(Error::Schema), "{}", kind);
    }
    let fixed = "message schema { REQUIRED FIXED_LEN_BYTE_ARRAY (4) b; }";
    assert!(parse_message_type(fixed).is_ok());
    assert_eq!(parse_schema(fixed).err(), Some(Error::Schema));
}

#[test]
fn group_is_a_schema_error() {
    let text = "message schema { REQUIRED group g { REQUIRED INT32 b; } }";
    assert!(parse_message_type(text).is_ok());
    assert_eq!(parse_schema(text).err(), Some(Error::Schema));
}

#[test]
fn duplicate_field_name_is_a_schema_error() {
    let text = "message schema { REQUIRED INT32 b; REQUIRED INT32 b; }";
    assert_eq!(parse_schema(text).err(), Some(Error::Schema));
}

#[test]
fn numbers_are_those_of_the_parquet_enums() {
    assert_eq!(Repetition::REQUIRED as i32, REPETITION_REQUIRED);
    assert_eq!(Repetition::OPTIONAL as i32, REPETITION_OPTIONAL);
    assert_eq!(PhysicalKind::INT32 as i32, PHYSICAL_INT32);
}

#[test]
fn fields_make_a_schema() {
    let fields = vec![
        field("a", REPETITION_REQUIRED, Some(PHYSICAL_INT32)),
        field("b", REPETITION_REQUIRED, Some(PHYSICAL_INT32)),
    ];
    let schema = schema_from_fields(&fields).unwrap();
    assert_eq!(schema.num_columns(), 2);
    assert_eq!(schema.column(0).unwrap().name(), "a");
    assert_eq!(schema.column(1).unwrap().name(), "b");
}

#[test]
fn fields_that_make_no_schema() {
    let cases = vec![
        vec![],
        vec![field("g", REPETITION_REQUIRED, None)],
        vec![field("a", REPETITION_OPTIONAL, Some(PHYSICAL_INT32))],
        vec![field("a", 2, Some(PHYSICAL_INT32))],
        vec![field("a", -1, Some(PHYSICAL_INT32))],
        vec![field("a", REPETITION_REQUIRED, Some(0))],
        vec![field("a", REPETITION_REQUIRED, Some(2))],
        vec![
            field("a", REPETITION_REQUIRED, Some(PHYSICAL_INT32)),
            field("a", REPETITION_REQUIRED, Some(PHYSICAL_INT32)),
        ],
        vec![
            field("a", REPETITION_REQUIRED, Some(PHYSICAL_INT32)),
            field("b", REPETITION_REQUIRED, Some(7)),
        ],
    ];
    for fields in &cases {
        assert_eq!(schema_from_fields(fields).err(), Some(Error::Schema), "{:?}", fields);
    }
}
