use std::collections::HashMap;

use rand::seq::IteratorRandom;
use rand::Rng;
use relational_db::errors::DBError;
use relational_db::page::{Page, PAGE_SIZE};
use relational_db::serializer::{BinaryReader, BinaryWriter};
use relational_db::table::{ColumnDef, Table};
use relational_db::tuple::Tuple;
use relational_db::values::{DBType, DBValue};

fn sample_table() -> Table {
    Table::new(
        1,
        "test".to_string(),
        vec![
            ColumnDef::new("id".to_string(), DBType::Int),
            ColumnDef::new("name".to_string(), DBType::String),
            ColumnDef::new("height".to_string(), DBType::Double),
            ColumnDef::new("is_fox".to_string(), DBType::Bool),
        ],
    )
}

fn create_tuple(id: i32, name: &str, height: f64, is_fox: bool) -> Tuple {
    Tuple::new(vec![
        DBValue::Int(id),
        DBValue::String(name.to_string()),
        DBValue::Double(height.to_bits()),
        DBValue::Bool(is_fox),
    ])
}

fn random_string() -> String {
    let mut rng = rand::rng();
    let len = rng.random_range(1..100);
    (&mut rng)
        .sample_iter(&rand::distr::Alphanumeric)
        .take(len)
        .map(char::from)
        .collect()
}

fn create_random_tuple(id: i32) -> Tuple {
    let name = random_string();
    let height = rand::random::<f64>();
    let is_fox = rand::random::<bool>();
    create_tuple(id, &name, height, is_fox)
}

fn page_rows(page: &Page) -> Vec<(u16, Tuple)> {
    let mut it = page.iter();
    let mut rows = vec![];
    while let Some(item) = it.next() {
        rows.push(item.unwrap());
    }
    rows
}

fn validate_tuples(page: &Page, tuples_map: &HashMap<i32, (u16, Tuple)>) {
    let mut total_found = 0;
    for (_, tuple) in page_rows(page) {
        let DBValue::Int(id) = tuple.values[0].clone() else {
            panic!("Expected first value to be an Int");
        };
        let expected_tuple = &tuples_map[&id];
        assert_eq!(tuple, expected_tuple.1.clone());
        total_found += 1;
    }
    assert_eq!(
        total_found,
        tuples_map.len(),
        "The number of tuples found does not match the expected count"
    );
}

#[test]
fn test_page() {
    let table = sample_table();

    let mut page = Page::new(&table, 0);
    let mut tuples_map = HashMap::new();

    let tuple = create_tuple(1, "test_test_test", 1.874, true);
    let offset = page.insert_tuple(&tuple).unwrap();
    tuples_map.insert(1, (offset, tuple));
    let tuple = create_tuple(2, "test_test_test2", 2., true);
    let offset = page.insert_tuple(&tuple).unwrap();
    tuples_map.insert(2, (offset, tuple));
    let tuple = create_tuple(3, "test_test3", 3., false);
    let offset = page.insert_tuple(&tuple).unwrap();
    tuples_map.insert(3, (offset, tuple));
    let tuple = create_tuple(4, "test4", 4., true);
    let offset = page.insert_tuple(&tuple).unwrap();
    tuples_map.insert(4, (offset, tuple));

    validate_tuples(&page, &tuples_map);

    // test overwrite
    tuples_map.get_mut(&1).unwrap().1.values[1] = DBValue::String("smol".to_string());
    assert!(page
        .overwrite_tuple(tuples_map[&1].0, &tuples_map[&1].1.clone())
        .unwrap());
    validate_tuples(&page, &tuples_map);
    // can return to same size
    tuples_map.get_mut(&1).unwrap().1.values[1] = DBValue::String("test_test_test".to_string());
    assert!(page
        .overwrite_tuple(tuples_map[&1].0, &tuples_map[&1].1.clone())
        .unwrap());
    validate_tuples(&page, &tuples_map);
    // cannot grow past the slot it was first written to
    tuples_map.get_mut(&1).unwrap().1.values[1] =
        DBValue::String("very_very_very_long".to_string());
    assert!(!page
        .overwrite_tuple(tuples_map[&1].0, &tuples_map[&1].1.clone())
        .unwrap());
    tuples_map.get_mut(&1).unwrap().1.values[1] = DBValue::String("test_test_test".to_string());

    // test mark dead
    page.mark_tuple_dead(tuples_map[&3].0).unwrap();
    tuples_map.remove(&3);
    validate_tuples(&page, &tuples_map);

    // test relocate
    tuples_map.get_mut(&1).unwrap().1.values[1] =
        DBValue::String("very_very_very_long".to_string());
    assert!(!page
        .overwrite_tuple(tuples_map[&1].0, &tuples_map[&1].1.clone())
        .unwrap());
    page.mark_tuple_dead(tuples_map[&1].0).unwrap();
    tuples_map.get_mut(&1).unwrap().0 = page.insert_tuple(&tuples_map[&1].1).unwrap();
    validate_tuples(&page, &tuples_map);

    // test read/write
    let mut writer = BinaryWriter::new();
    page.write(&mut writer);
    let new_data = writer.into_bytes();
    assert!(new_data.len() <= PAGE_SIZE);

    let mut reader = BinaryReader::new(&new_data);
    let read_page = Page::read(&table, &mut reader).unwrap();
    assert_eq!(read_page, page);
}

#[test]
fn page_stress_test() {
    let table = sample_table();
    let mut page = Page::new(&table, 0);
    let mut tuples_map = HashMap::new();
    let mut i = 0;

    loop {
        if rand::random_range(0..5) == 0 {
            // delete a random tuple
            if tuples_map.is_empty() {
                continue;
            }
            let id = *tuples_map.keys().choose(&mut rand::rng()).unwrap();
            for (offset, tuple) in page_rows(&page) {
                if tuple.values[0] == DBValue::Int(id) {
                    page.mark_tuple_dead(offset).unwrap();
                    break;
                }
            }
            tuples_map.remove(&id);
        } else {
            let tuple = create_random_tuple(i);

            if page.free_space() < 3 + tuple.size() {
                // page is full, validate that we can't add more tuples
                let DBError::Integrity(_) = page.insert_tuple(&tuple).unwrap_err() else {
                    panic!("Expected IntegrityError");
                };
                break;
            }

            let offset = page.insert_tuple(&tuple).unwrap();
            tuples_map.insert(i, (offset, tuple));
            i += 1;
        }
        validate_tuples(&page, &tuples_map);
    }
}

#[test]
fn test_write_to_file() {
    let table = sample_table();
    let mut page = Page::new(&table, 0);
    let tuple = create_tuple(1, "vanutp", 1.0, true);
    page.insert_tuple(&tuple).unwrap();
    let mut file = vec![0u8; PAGE_SIZE * page.id() as usize];
    let mut writer = BinaryWriter::new();
    page.write(&mut writer);
    file.extend(writer.into_bytes());

    let mut reader = BinaryReader::new(&file);
    let read_page = Page::read(&table, &mut reader).unwrap();
    assert_eq!(read_page.id(), page.id());
    assert_eq!(read_page.free_space_end(), page.free_space_end());
    assert_eq!(read_page.dead_space(), page.dead_space());
    assert_eq!(read_page.data(), page.data());
}

#[test]
fn serialized_page_is_page_size() {
    let table = sample_table();
    let mut page = Page::new(&table, 7);
    assert_eq!(page.to_bytes().len(), PAGE_SIZE);
    page.insert_tuple(&create_tuple(1, "x", 0.0, false)).unwrap();
    let bytes = page.to_bytes();
    assert_eq!(bytes.len(), PAGE_SIZE);
    assert_eq!(&bytes[0..8], &[0, 0, 0, 7, 0, 21, 0, 0]);
}

#[test]
fn insert_then_mark_dead_restores_rows() {
    let table = sample_table();
    let mut page = Page::new(&table, 0);
    page.insert_tuple(&create_tuple(1, "a", 1.0, true)).unwrap();
    let before = page_rows(&page);
    let fse = page.free_space_end();
    let off = page.insert_tuple(&create_tuple(2, "bb", 2.0, false)).unwrap();
    assert_eq!(off as usize, fse);
    page.mark_tuple_dead(off).unwrap();
    assert_eq!(page_rows(&page), before);
    assert_eq!(page.free_space_end(), fse + 3 + 4 + 4 + 2 + 8 + 1);
    assert_eq!(page.dead_space(), 3 + 4 + 4 + 2 + 8 + 1);
}

#[test]
fn overwrite_reports_fit() {
    let table = sample_table();
    let mut page = Page::new(&table, 0);
    let off = page.insert_tuple(&create_tuple(1, "abcd", 1.0, true)).unwrap();
    assert!(page.overwrite_tuple(off, &create_tuple(1, "wxyz", 2.0, true)).unwrap());
    assert!(page.overwrite_tuple(off, &create_tuple(1, "", 2.0, true)).unwrap());
    assert!(!page.overwrite_tuple(off, &create_tuple(1, "abcde", 2.0, true)).unwrap());
    assert_eq!(page_rows(&page), vec![(off, create_tuple(1, "", 2.0, true))]);
}

#[test]
fn bad_offsets_are_integrity_errors() {
    let table = sample_table();
    let mut page = Page::new(&table, 0);
    let off = page.insert_tuple(&create_tuple(1, "abcd", 1.0, true)).unwrap();
    assert!(matches!(page.mark_tuple_dead(9000), Err(DBError::Integrity(_))));
    assert!(matches!(page.mark_tuple_dead(off + 1), Err(DBError::Integrity(_))));
    page.mark_tuple_dead(off).unwrap();
    assert!(matches!(page.mark_tuple_dead(off), Err(DBError::Integrity(_))));
    assert!(matches!(
        page.overwrite_tuple(off, &create_tuple(1, "a", 1.0, true)),
        Err(DBError::Integrity(_))
    ));
}

#[test]
fn malformed_page_is_invalid_data() {
    let table = sample_table();
    let mut bytes = Page::new(&table, 0).to_bytes();
    bytes[5] = 10; // free-space end 10 over an all-zero slot region
    let mut reader = BinaryReader::new(&bytes);
    assert!(matches!(
        Page::read(&table, &mut reader),
        Err(DBError::IO(relational_db::errors::IoErrorKind::InvalidData, _))
    ));
}
