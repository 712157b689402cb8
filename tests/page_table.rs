use std::collections::HashMap;

use rand::Rng;
use relational_db::db::DB;
use relational_db::errors::DBError;
use relational_db::operations::{
    apply_updates, insert_row, plan_delete, plan_update, resolve_update, select_row, WhereClause,
};
use relational_db::sql::{parse, Statement};
use relational_db::page::{Page, PAGE_SIZE};
use relational_db::page_table::{OverwriteOutcome, PageTable, ScanStep};
use relational_db::table::{ColumnDef, Table};
use relational_db::tuple::Tuple;
use relational_db::values::{DBType, DBValue};

fn sample_columns() -> Vec<ColumnDef> {
    vec![
        ColumnDef::new("id".to_string(), DBType::Int),
        ColumnDef::new("name".to_string(), DBType::String),
        ColumnDef::new("height".to_string(), DBType::Double),
        ColumnDef::new("is_fox".to_string(), DBType::Bool),
    ]
}

fn sample_table() -> Table {
    Table::new(1, "test".to_string(), sample_columns())
}

fn create_tuple(id: i32, name: &str, height: f64, is_fox: bool) -> Tuple {
    Tuple::new(vec![
        DBValue::Int(id),
        DBValue::String(name.to_string()),
        DBValue::Double(height.to_bits()),
        DBValue::Bool(is_fox),
    ])
}

fn create_random_tuple(id: i32) -> Tuple {
    let mut rng = rand::rng();
    let len = rng.random_range(1..100);
    let name: String = (&mut rng)
        .sample_iter(&rand::distr::Alphanumeric)
        .take(len)
        .map(char::from)
        .collect();
    create_tuple(id, &name, rand::random::<f64>(), rand::random::<bool>())
}

/// A table file kept in memory.
struct MemFile {
    bytes: Vec<u8>,
}

impl MemFile {
    fn load_page<'a>(&self, pt: &PageTable<'a>, id: u32) -> Result<Page<'a>, DBError> {
        let off = pt.page_offset(id)? as usize;
        let end = (off + PAGE_SIZE).min(self.bytes.len());
        pt.get_page(id, &self.bytes[off.min(end)..end])
    }

    fn save_page(&mut self, pt: &mut PageTable, page: &Page) {
        let (off, bytes) = pt.save_page(page).unwrap();
        let off = off as usize;
        if self.bytes.len() < off + PAGE_SIZE {
            self.bytes.resize(off + PAGE_SIZE, 0);
        }
        self.bytes[off..off + PAGE_SIZE].copy_from_slice(&bytes);
    }

    fn insert<'a>(&mut self, pt: &mut PageTable<'a>, tuple: &Tuple) -> (u32, u16) {
        let last = self.load_page(pt, pt.page_count() - 1).unwrap();
        let (page, loc) = pt.insert_tuple(last, tuple).unwrap();
        self.save_page(pt, &page);
        loc
    }

    fn overwrite<'a>(&mut self, pt: &mut PageTable<'a>, page_id: u32, offset: u16, tuple: &Tuple) -> (u32, u16) {
        let page = self.load_page(pt, page_id).unwrap();
        match pt.overwrite_tuple(page, offset, tuple).unwrap() {
            OverwriteOutcome::InPlace(p) => {
                self.save_page(pt, &p);
                (page_id, offset)
            }
            OverwriteOutcome::SamePage(p, n) => {
                self.save_page(pt, &p);
                (page_id, n)
            }
            OverwriteOutcome::Relocate(p) => {
                self.save_page(pt, &p);
                self.insert(pt, tuple)
            }
        }
    }

    fn delete<'a>(&mut self, pt: &mut PageTable<'a>, page_id: u32, offset: u16) {
        let page = self.load_page(pt, page_id).unwrap();
        let page = pt.delete_tuple(page, offset).unwrap();
        self.save_page(pt, &page);
    }

    fn scan(&self, pt: &PageTable) -> Vec<(u32, u16, Tuple)> {
        let mut it = pt.iter();
        let mut rows = vec![];
        loop {
            match it.next() {
                ScanStep::Row(p, o, t) => rows.push((p, o, t)),
                ScanStep::Failed(e) => panic!("scan failed: {:?}", e),
                ScanStep::NeedPage(id) => {
                    if let Some(e) = it.supply_page(self.load_page(pt, id)) {
                        panic!("page load failed: {:?}", e);
                    }
                }
                ScanStep::Done => break,
            }
        }
        rows
    }
}

fn new_table_file(table: &Table) -> (PageTable<'_>, MemFile) {
    let (pt, bytes) = PageTable::init(table);
    (pt, MemFile { bytes })
}

fn validate_tuples(file: &MemFile, pt: &PageTable, tuples_map: &HashMap<i32, (u32, u16, Tuple)>) {
    let mut total_found = 0;
    for tup_data in file.scan(pt) {
        let DBValue::Int(id) = tup_data.2.values[0].clone() else {
            panic!("Expected first value to be an Int");
        };
        let expected_tuple = &tuples_map[&id];
        assert_eq!(tup_data, expected_tuple.clone());
        total_found += 1;
    }
    assert_eq!(
        total_found,
        tuples_map.len(),
        "The number of tuples found does not match the expected count"
    );
}

#[test]
fn page_table_stress_test() {
    let table = sample_table();
    let (mut page_table, mut file) = new_table_file(&table);
    let mut tuples_map: HashMap<i32, (u32, u16, Tuple)> = HashMap::new();
    let mut ids: Vec<i32> = vec![];
    let mut id = 0;

    for i in 0..50_000 {
        if i % 10000 == 0 {
            println!("Iteration: {}", i);
        }
        if rand::random_range(0..5) == 0 {
            // delete a random tuple
            if ids.is_empty() {
                continue;
            }
            let k = rand::random_range(0..ids.len());
            let id = ids.swap_remove(k);
            let (page_id, offset, _) = tuples_map[&id].clone();
            file.delete(&mut page_table, page_id, offset);
            tuples_map.remove(&id);
        } else {
            let tuple = create_random_tuple(id);
            let (page_id, offset) = file.insert(&mut page_table, &tuple);
            tuples_map.insert(id, (page_id, offset, tuple));
            ids.push(id);
            id += 1;
        }
        if i % 1000 == 0 {
            validate_tuples(&file, &page_table, &tuples_map);
        }
        assert_eq!(file.bytes.len() % PAGE_SIZE, 0);
        assert_eq!(file.bytes.len(), page_table.page_count() as usize * PAGE_SIZE);
    }
    validate_tuples(&file, &page_table, &tuples_map);

    assert!(page_table.page_count() > 10);
}

#[test]
fn insert_and_select_one_row() {
    let table = sample_table();
    let (mut pt, mut file) = new_table_file(&table);
    let tuple = insert_row(&table, create_tuple(1, "vanutp", 1.0, true).into_values()).unwrap();
    file.insert(&mut pt, &tuple);
    let rows = file.scan(&pt);
    assert_eq!(rows.len(), 1);
    assert_eq!(rows[0].2, create_tuple(1, "vanutp", 1.0, true));
}

#[test]
fn update_in_place_then_relocate() {
    let table = sample_table();
    let (mut pt, mut file) = new_table_file(&table);
    for (id, name) in [(1, "test_test_test"), (2, "test_test_test2"), (3, "test_test3"), (4, "test4")] {
        file.insert(&mut pt, &create_tuple(id, name, id as f64, true));
    }
    let clause = WhereClause::build(&table, "id", "=", DBValue::Int(1)).unwrap();

    let run_update = |file: &mut MemFile, pt: &mut PageTable, name: &str| -> usize {
        let set = vec![resolve_update(&table, "name", DBValue::String(name.to_string())).unwrap()];
        let rows = file.scan(pt);
        let queue = plan_update(&rows, &Some(clause_copy(&clause)), &set);
        let n = queue.len();
        for (p, o, t) in queue {
            file.overwrite(pt, p, o, &t);
        }
        n
    };

    let before = file.scan(&pt);
    assert_eq!(run_update(&mut file, &mut pt, "smol"), 1);
    let rows = file.scan(&pt);
    assert_eq!(rows.len(), 4);
    assert_eq!(rows[0].1, before[0].1);
    assert_eq!(rows[0].2, create_tuple(1, "smol", 1.0, true));
    for k in 1..4 {
        assert_eq!(rows[k], before[k]);
    }

    assert_eq!(run_update(&mut file, &mut pt, "very_very_very_long"), 1);
    let rows = file.scan(&pt);
    assert_eq!(rows.len(), 4);
    let last = rows.last().unwrap();
    assert_eq!(last.2, create_tuple(1, "very_very_very_long", 1.0, true));
    assert!(last.1 > before[3].1);
    assert_eq!(rows[0].2, create_tuple(2, "test_test_test2", 2.0, true));
}

fn clause_copy(c: &WhereClause) -> WhereClause {
    match c {
        WhereClause::Eq(i, v) => WhereClause::Eq(*i, v.clone()),
        WhereClause::Neq(i, v) => WhereClause::Neq(*i, v.clone()),
        WhereClause::Lt(i, v) => WhereClause::Lt(*i, v.clone()),
        WhereClause::Lte(i, v) => WhereClause::Lte(*i, v.clone()),
        WhereClause::Gt(i, v) => WhereClause::Gt(*i, v.clone()),
        WhereClause::Gte(i, v) => WhereClause::Gte(*i, v.clone()),
    }
}

#[test]
fn full_page_allocates_next_page() {
    let table = sample_table();
    let (mut pt, mut file) = new_table_file(&table);
    let mut id = 0;
    loop {
        let tuple = create_random_tuple(id);
        let last = file.load_page(&pt, pt.page_count() - 1).unwrap();
        if !last.can_fit_tuple(&tuple) {
            let count = pt.page_count();
            let (page_id, _) = file.insert(&mut pt, &tuple);
            assert_eq!(pt.page_count(), count + 1);
            assert_eq!(page_id, count);
            let rows = file.scan(&pt);
            assert_eq!(rows.last().unwrap().0, count);
            assert_eq!(rows.last().unwrap().2, tuple);
            break;
        }
        file.insert(&mut pt, &tuple);
        id += 1;
    }
}

#[test]
fn delete_then_insert_does_not_reuse_space() {
    let table = sample_table();
    let (mut pt, mut file) = new_table_file(&table);
    for id in 1..=4 {
        file.insert(&mut pt, &create_tuple(id, "row", 0.5, false));
    }
    let clause = WhereClause::build(&table, "id", "=", DBValue::Int(3)).unwrap();
    let queue = plan_delete(&file.scan(&pt), &Some(clause));
    assert_eq!(queue.len(), 1);
    let max_before = file.scan(&pt).iter().map(|r| r.1).max().unwrap();
    for (p, o) in queue {
        file.delete(&mut pt, p, o);
    }
    assert_eq!(file.scan(&pt).len(), 3);
    let (_, off) = file.insert(&mut pt, &create_tuple(5, "row", 0.5, false));
    assert!(off > max_before);
}

#[test]
fn page_file_size_is_checked() {
    let table = sample_table();
    assert!(PageTable::load(&table, 3 * PAGE_SIZE as u64).is_ok());
    assert_eq!(PageTable::load(&table, 3 * PAGE_SIZE as u64).unwrap().page_count(), 3);
    assert!(matches!(
        PageTable::load(&table, PAGE_SIZE as u64 + 1),
        Err(DBError::IO(relational_db::errors::IoErrorKind::InvalidData, _))
    ));
    let pt = PageTable::load(&table, PAGE_SIZE as u64).unwrap();
    assert!(matches!(pt.page_offset(1), Err(DBError::Integrity(_))));
    assert_eq!(pt.page_offset(0).unwrap(), 0);
}

#[test]
fn saved_page_reads_back_equal() {
    let table = sample_table();
    let (mut pt, mut file) = new_table_file(&table);
    let mut page = Page::new(&table, 1);
    page.insert_tuple(&create_tuple(9, "nine", 9.0, true)).unwrap();
    file.save_page(&mut pt, &page);
    assert_eq!(pt.page_count(), 2);
    let back = file.load_page(&pt, 1).unwrap();
    assert_eq!(back, page);
}

#[test]
fn insert_checks_values() {
    let table = sample_table();
    assert!(matches!(insert_row(&table, vec![DBValue::Int(1)]), Err(DBError::Execution(_))));
    assert!(matches!(
        insert_row(&table, vec![DBValue::Int(1), DBValue::Int(1), DBValue::Int(1), DBValue::Int(1)]),
        Err(DBError::Execution(_))
    ));
}

#[test]
fn filters_compare_like_values_only() {
    let table = sample_table();
    let t = create_tuple(5, "fox", 1.5, true);
    let lt = WhereClause::build(&table, "height", "<", DBValue::Double(2.0f64.to_bits())).unwrap();
    assert!(relational_db::operations::tuple_matches(&t, &lt));
    let gt = WhereClause::build(&table, "height", ">", DBValue::Double((-3.0f64).to_bits())).unwrap();
    assert!(relational_db::operations::tuple_matches(&t, &gt));
    let ne = WhereClause::build(&table, "name", "!=", DBValue::String("dog".to_string())).unwrap();
    assert!(relational_db::operations::tuple_matches(&t, &ne));
    let lts = WhereClause::build(&table, "name", "<", DBValue::String("zzz".to_string())).unwrap();
    assert!(!relational_db::operations::tuple_matches(&t, &lts));
    let zero = create_tuple(0, "z", -0.0, true);
    let eqz = WhereClause::build(&table, "height", "=", DBValue::Double(0.0f64.to_bits())).unwrap();
    assert!(relational_db::operations::tuple_matches(&zero, &eqz));
    let nan = create_tuple(0, "n", f64::NAN, true);
    let ge = WhereClause::build(&table, "height", ">=", DBValue::Double(0.0f64.to_bits())).unwrap();
    assert!(!relational_db::operations::tuple_matches(&nan, &ge));
    assert!(matches!(
        WhereClause::build(&table, "weight", "=", DBValue::Int(1)),
        Err(DBError::Execution(_))
    ));
    assert!(matches!(
        WhereClause::build(&table, "id", "=", DBValue::Bool(true)),
        Err(DBError::Execution(_))
    ));
    assert!(matches!(
        WhereClause::build(&table, "id", "<>", DBValue::Int(1)),
        Err(DBError::Parse(_))
    ));
}

#[test]
fn assignments_apply_in_order() {
    let t = create_tuple(1, "a", 1.0, true);
    let ups = vec![(1, DBValue::String("b".to_string())), (1, DBValue::String("c".to_string()))];
    assert_eq!(apply_updates(&t, &ups), create_tuple(1, "c", 1.0, true));
}

#[test]
fn catalog_create_drop() {
    let mut db = DB::new("data".to_string());
    let table = db.new_table("test".to_string(), sample_columns()).unwrap();
    assert_eq!(table.id(), 0);
    assert_eq!(table.get_table_file_path(db.storage_dir()), "data/0.tbl");
    db.add_table(table).unwrap();
    assert!(matches!(
        db.new_table("test".to_string(), sample_columns()),
        Err(DBError::Execution(_))
    ));
    let bytes = db.metadata();
    let back = DB::from_metadata("data".to_string(), &bytes).unwrap();
    assert_eq!(back.next_table_id(), 1);
    assert_eq!(back.get_table("test").unwrap(), db.get_table("test").unwrap());

    db.remove_table("test").unwrap();
    match db.get_table("test") {
        Err(DBError::Execution(m)) => assert_eq!(m, "Table test does not exist"),
        _ => panic!("expected an execution error"),
    }
    assert_eq!(db.next_table_id(), 1);
    assert_eq!(db.metadata(), vec![0, 0, 0, 1, 0, 0, 0, 0]);
}

#[test]
fn catalog_rejects_duplicate_names() {
    let mut db = DB::new("d".to_string());
    let t = db.new_table("a".to_string(), vec![]).unwrap();
    db.add_table(t).unwrap();
    let mut bytes = db.metadata();
    // claim two tables and repeat the entry
    bytes[7] = 2;
    let entry = bytes[8..].to_vec();
    bytes.extend(entry);
    assert!(matches!(
        DB::from_metadata("d".to_string(), &bytes),
        Err(DBError::IO(relational_db::errors::IoErrorKind::InvalidData, _))
    ));
}

fn literal(text: &str) -> DBValue {
    DBValue::parse_literal(text, text.parse::<f64>().ok().map(f64::to_bits)).unwrap()
}

#[test]
fn statements_end_to_end() {
    let mut db = DB::new("data".to_string());
    let Statement::CreateTable { table, columns } =
        parse("create table test (id int, name text, height double, is_fox bool)").unwrap()
    else {
        panic!("expected create table");
    };
    let defs = columns
        .into_iter()
        .map(|(name, dtype)| ColumnDef::new(name, DBType::from_name(&dtype).unwrap()))
        .collect();
    let schema = db.new_table(table, defs).unwrap();
    let (_, bytes) = PageTable::init(&schema);
    db.add_table(schema).unwrap();

    let schema = db.get_table("test").unwrap();
    let mut file = MemFile { bytes };
    let mut pt = PageTable::load(schema, file.bytes.len() as u64).unwrap();

    let Statement::Insert { table, values } =
        parse("insert into test values (1, 'vanutp', 1.0, true)").unwrap()
    else {
        panic!("expected insert");
    };
    assert_eq!(table, "test");
    let tuple = insert_row(schema, values.iter().map(|v| literal(v)).collect()).unwrap();
    file.insert(&mut pt, &tuple);

    let Statement::Select { table, columns, filter } = parse("select * from test").unwrap() else {
        panic!("expected select");
    };
    assert_eq!(table, "test");
    assert!(columns.is_none() && filter.is_none());
    let names: Vec<String> = schema.columns().iter().map(|c| c.name().to_string()).collect();
    let all = relational_db::operations::resolve_columns(schema, &names).unwrap();
    assert_eq!(all, vec![0, 1, 2, 3]);
    assert!(matches!(
        relational_db::operations::resolve_columns(schema, &vec!["weight".to_string()]),
        Err(DBError::Execution(_))
    ));
    let rows: Vec<Tuple> = file
        .scan(&pt)
        .iter()
        .filter_map(|(_, _, t)| select_row(t, &None, &all))
        .collect();
    assert_eq!(rows, vec![create_tuple(1, "vanutp", 1.0, true)]);

    let Statement::DropTable { table } = parse("drop table test").unwrap() else {
        panic!("expected drop");
    };
    db.remove_table(&table).unwrap();
    match db.get_table("test") {
        Err(DBError::Execution(m)) => assert_eq!(m, "Table test does not exist"),
        _ => panic!("expected an execution error"),
    }
}
