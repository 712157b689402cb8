use relational_db::serializer::{BinaryReader, BinaryWriter};
use relational_db::table::{ColumnDef, Table};
use relational_db::tuple::Tuple;
use relational_db::values::{DBType, DBValue};

fn sample_table() -> Table {
    Table::new(
        1,
        "test".to_string(),
        vec![
            ColumnDef::new("id".to_string(), DBType::Int),
            ColumnDef::new("name".to_string(), DBType::String),
            ColumnDef::new("height".to_string(), DBType::Double),
            ColumnDef::new("is_fox".to_string(), DBType::Bool),
        ],
    )
}

#[test]
fn test_tuple() {
    let table = sample_table();
    let data = vec![
        0, 0, 0, 1, // id
        0, 0, 0, 4, // name length
        b't', b'e', b's', b't', // name
        63, 253, 251, 231, 108, 139, 67, 150, // height (1.874)
        1,   // active
    ];
    let mut reader = BinaryReader::new(&data);
    let tuple = Tuple::read(&table, &mut reader).unwrap();
    assert_eq!(tuple.values.len(), 4);
    assert_eq!(tuple.values[0], DBValue::Int(1));
    assert_eq!(tuple.values[1], DBValue::String("test".to_string()));
    assert_eq!(tuple.values[2], DBValue::Double(1.874f64.to_bits()));
    assert_eq!(tuple.values[3], DBValue::Bool(true));

    let mut writer = BinaryWriter::new();
    tuple.write(&table, &mut writer).unwrap();
    let new_data = writer.into_bytes();
    assert_eq!(new_data, data);
}

#[test]
fn tuple_bytes_are_big_endian() {
    let table = sample_table();
    let tuple = Tuple::new(vec![
        DBValue::Int(1),
        DBValue::String("test".to_string()),
        DBValue::Double(1.874f64.to_bits()),
        DBValue::Bool(true),
    ]);
    let mut writer = BinaryWriter::new();
    tuple.write(&table, &mut writer).unwrap();
    assert_eq!(
        writer.into_bytes(),
        vec![
            0x00, 0x00, 0x00, 0x01, 0x00, 0x00, 0x00, 0x04, 0x74, 0x65, 0x73, 0x74, 0x3F, 0xFD, 0xFB,
            0xE7, 0x6C, 0x8B, 0x43, 0x96, 0x01
        ]
    );
    assert_eq!(tuple.size(), 21);
}

#[test]
fn tuple_round_trip_keeps_values() {
    let table = sample_table();
    let tuple = Tuple::new(vec![
        DBValue::Int(-7),
        DBValue::String("héllo 'x'".to_string()),
        DBValue::Double((-0.5f64).to_bits()),
        DBValue::Bool(false),
    ]);
    let mut writer = BinaryWriter::new();
    tuple.write(&table, &mut writer).unwrap();
    let bytes = writer.into_bytes();
    assert_eq!(bytes.len(), tuple.size());
    let mut reader = BinaryReader::new(&bytes);
    let back = Tuple::read(&table, &mut reader).unwrap();
    assert_eq!(back, tuple);
    assert_eq!(reader.remaining(), 0);
}

#[test]
fn tuple_write_refuses_mismatch() {
    let table = sample_table();
    let short = Tuple::new(vec![DBValue::Int(1)]);
    let mut writer = BinaryWriter::new();
    assert!(matches!(
        short.write(&table, &mut writer),
        Err(relational_db::errors::DBError::Execution(_))
    ));
    let wrong = Tuple::new(vec![
        DBValue::Int(1),
        DBValue::Int(2),
        DBValue::Double(0),
        DBValue::Bool(true),
    ]);
    assert!(matches!(
        wrong.write(&table, &mut writer),
        Err(relational_db::errors::DBError::Execution(_))
    ));
    assert_eq!(writer.len(), 0);
}

#[test]
fn tuple_read_rejects_bad_utf8_and_short_data() {
    let table = sample_table();
    let bad = vec![0, 0, 0, 1, 0, 0, 0, 1, 0xff, 0, 0, 0, 0, 0, 0, 0, 0, 1];
    let mut reader = BinaryReader::new(&bad);
    assert!(matches!(
        Tuple::read(&table, &mut reader),
        Err(relational_db::errors::DBError::IO(relational_db::errors::IoErrorKind::InvalidData, _))
    ));
    let short = vec![0, 0, 0, 1, 0, 0];
    let mut reader = BinaryReader::new(&short);
    assert!(matches!(
        Tuple::read(&table, &mut reader),
        Err(relational_db::errors::DBError::IO(relational_db::errors::IoErrorKind::UnexpectedEof, _))
    ));
}

#[test]
fn value_sizes() {
    assert_eq!(DBValue::Bool(true).len(), 1);
    assert_eq!(DBValue::Int(5).len(), 4);
    assert_eq!(DBValue::Double(0).len(), 8);
    assert_eq!(DBValue::String("ab€".to_string()).len(), 4 + 5);
}

#[test]
fn literal_parsing_order() {
    assert_eq!(DBValue::parse_literal("true", None).unwrap(), DBValue::Bool(true));
    assert_eq!(DBValue::parse_literal("42", Some(42f64.to_bits())).unwrap(), DBValue::Int(42));
    assert_eq!(
        DBValue::parse_literal("1.5", Some(1.5f64.to_bits())).unwrap(),
        DBValue::Double(1.5f64.to_bits())
    );
    assert_eq!(
        DBValue::parse_literal("'a b'", None).unwrap(),
        DBValue::String("a b".to_string())
    );
    assert!(matches!(
        DBValue::parse_literal("nope", None),
        Err(relational_db::errors::DBError::Parse(_))
    ));
}

#[test]
fn type_names() {
    assert_eq!(DBType::from_name("INT").unwrap(), DBType::Int);
    assert_eq!(DBType::from_name("Double Precision").unwrap(), DBType::Double);
    assert_eq!(DBType::from_name("string").unwrap(), DBType::String);
    assert!(DBType::from_name("float").is_err());
    assert_eq!(DBType::Double.name(), "double precision");
}

#[test]
fn escape_doubles_quotes() {
    assert_eq!(relational_db::utils::escape("it's"), "it''s");
    assert_eq!(relational_db::utils::escape("plain"), "plain");
}

#[test]
fn lowercase_names_and_literal_parts() {
    assert_eq!(DBType::from_lowercase_name("double precision").unwrap(), DBType::Double);
    assert!(DBType::from_lowercase_name("INT").is_err());
    assert_eq!(DBValue::from_literal("7", Some(7), Some(7f64.to_bits())).unwrap(), DBValue::Int(7));
    assert_eq!(
        DBValue::from_literal("7", None, Some(7f64.to_bits())).unwrap(),
        DBValue::Double(7f64.to_bits())
    );
    assert_eq!(DBValue::from_literal("false", Some(1), None).unwrap(), DBValue::Bool(false));
    assert!(DBValue::from_literal("'unterminated", None, None).is_err());
}

#[test]
fn i32_parsing_matches_std() {
    let cases = [
        "", "+", "-", "0", "-0", "+7", "42", "-42", "007", "2147483647", "2147483648", "-2147483648",
        "-2147483649", "99999999999999999999", "1.0", "1e3", " 1", "1 ", "--1", "+-1", "１", "12a",
    ];
    for c in cases {
        assert_eq!(relational_db::values::parse_i32(c), c.parse::<i32>().ok(), "{:?}", c);
    }
}
