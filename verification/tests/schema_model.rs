use colfile::error::Error;
use colfile::schema::{build_schema, define_column, PhysicalType};

#[test]
fn column_definition_keeps_its_parts() {
    let column = define_column("b", PhysicalType::Int32, true);
    assert_eq!(column.name(), "b");
    assert_eq!(column.physical_type(), PhysicalType::Int32);
    assert!(column.is_required());
    let optional = define_column("", PhysicalType::Int32, false);
    assert_eq!(optional.name(), "");
    assert!(!optional.is_required());
    let copy = column.clone();
    assert_eq!(copy.name(), "b");
    assert!(copy.is_required());
}

#[test]
fn schema_keeps_columns_in_order() {
    let schema = build_schema(vec![
        define_column("z", PhysicalType::Int32, true),
        define_column("a", PhysicalType::Int32, true),
        define_column("m", PhysicalType::Int32, true),
    ])
    .unwrap();
    assert_eq!(schema.num_columns(), 3);
    assert_eq!(schema.column(0).unwrap().name(), "z");
    assert_eq!(schema.column(1).unwrap().name(), "a");
    assert_eq!(schema.column(2).unwrap().name(), "m");
    assert!(schema.column(3).is_none());
    let copy = schema.clone();
    assert_eq!(copy.num_columns(), 3);
    assert_eq!(copy.column(2).unwrap().name(), "m");
}

#[test]
fn empty_schema_is_a_schema_error() {
    assert_eq!(build_schema(vec![]).err(), Some(Error::Schema));
}

#[test]
fn duplicate_name_is_a_schema_error() {
    let columns = vec![
        define_column("a", PhysicalType::Int32, true),
        define_column("b", PhysicalType::Int32, true),
        define_column("a", PhysicalType::Int32, true),
    ];
    assert_eq!(build_schema(columns).err(), Some(Error::Schema));
    let adjacent = vec![
        define_column("x", PhysicalType::Int32, true),
        define_column("x", PhysicalType::Int32, true),
    ];
    assert_eq!(build_schema(adjacent).err(), Some(Error::Schema));
}

#[test]
fn names_that_differ_in_case_are_different() {
    let columns = vec![
        define_column("a", PhysicalType::Int32, true),
        define_column("A", PhysicalType::Int32, true),
    ];
    assert!(build_schema(columns).is_ok());
}

#[test]
fn optional_column_is_a_schema_error() {
    let columns = vec![
        define_column("a", PhysicalType::Int32, true),
        define_column("b", PhysicalType::Int32, false),
    ];
    assert_eq!(build_schema(columns).err(), Some(Error::Schema));
}

#[test]
fn type_tag_of_int32_is_one() {
    assert_eq!(PhysicalType::Int32.tag(), 1);
    assert_eq!(PhysicalType::Int32.width(), 4);
    assert_eq!(PhysicalType::from_tag(1), Some(PhysicalType::Int32));
    assert_eq!(PhysicalType::from_tag(0), None);
    assert_eq!(PhysicalType::from_tag(2), None);
    assert_eq!(PhysicalType::from_tag(255), None);
}
