use vstd::prelude::*;
use vstd::utf8::encode_utf8;

use crate::errors::{execution_error, fails_execution_with, io_error, DBError, IoErrorKind, Result};
use crate::serializer::{be_u32, u32_of, BinaryReader, BinaryWriter};
use crate::table::{decode_table, lemma_decode_table_len, lemma_decoded_table_names_fit, name_fits, table_bytes, ColumnDef, Table, TableView};
use crate::utils::str_eq;

verus! {

/// The catalog bytes of a list of tables, one after the other.
pub open spec fn tables_bytes(ts: Seq<TableView>) -> Seq<u8>
    decreases ts.len(),
{
    if ts.len() == 0 {
        Seq::empty()
    } else {
        tables_bytes(ts.drop_last()) + table_bytes(ts.last())
    }
}

/// Reads `n` tables from the front of `b`.
pub open spec fn decode_tables(n: nat, b: Seq<u8>) -> Option<(Seq<TableView>, nat)>
    decreases n,
{
    if n == 0 {
        Some((Seq::empty(), 0))
    } else {
        match decode_tables((n - 1) as nat, b) {
            Some((ts, k)) => match decode_table(b.skip(k as int)) {
                Some((t, m)) => Some((ts.push(t), k + m)),
                None => None,
            },
            None => None,
        }
    }
}

/// No two tables share a name.
pub open spec fn names_unique(ts: Seq<TableView>) -> bool {
    forall|i: int, j: int| 0 <= i < j < ts.len() ==> #[trigger] ts[i].name != #[trigger] ts[j].name
}

/// The catalog file: the next table id, the number of tables, the tables.
pub open spec fn catalog_bytes(next_id: u32, ts: Seq<TableView>) -> Seq<u8> {
    be_u32(next_id) + be_u32(ts.len() as u32) + tables_bytes(ts)
}

/// The catalog held by a metadata file: next table id and tables, if the
/// bytes hold one whose table names are distinct.
pub open spec fn decode_catalog(b: Seq<u8>) -> Option<(u32, Seq<TableView>)> {
    if b.len() >= 8 {
        match decode_tables(u32_of(b.skip(4)) as nat, b.skip(8)) {
            Some((ts, _)) => if names_unique(ts) {
                Some((u32_of(b), ts))
            } else {
                None
            },
            None => None,
        }
    } else {
        None
    }
}

pub struct CatalogView {
    pub storage_dir: Seq<char>,
    pub tables: Seq<TableView>,
    pub next_table_id: u32,
}

impl CatalogView {
    pub open spec fn wf(self) -> bool {
        &&& names_unique(self.tables)
        &&& self.tables.len() <= u32::MAX
        &&& forall|i: int| 0 <= i < self.tables.len() ==> (#[trigger] self.tables[i]).names_fit()
    }

    pub open spec fn has_table(self, name: Seq<char>) -> bool {
        exists|i: int| 0 <= i < self.tables.len() && #[trigger] self.tables[i].name == name
    }
}

/// The catalog: the storage directory, the schema of each table, and the id
/// the next table will get.
pub struct DB {
    storage_dir: String,
    tables: Vec<Table>,
    next_table_id: u32,
}

impl View for DB {
    type V = CatalogView;

    closed spec fn view(&self) -> CatalogView {
        CatalogView {
            storage_dir: self.storage_dir@,
            tables: self.tables@.map_values(|t: Table| t@),
            next_table_id: self.next_table_id,
        }
    }
}

pub proof fn lemma_decode_tables_stays_none(n: nat, m: nat, b: Seq<u8>)
    requires
        n <= m,
        decode_tables(n, b) is None,
    ensures
        decode_tables(m, b) is None,
    decreases m - n,
{
    if n < m {
        lemma_decode_tables_stays_none(n, (m - 1) as nat, b);
    }
}

impl DB {
    /// An empty catalog for `storage_dir`.
    pub fn new(storage_dir: String) -> (db: Self)
        ensures
            db@.wf(),
            db@.storage_dir == storage_dir@,
            db@.tables.len() == 0,
            db@.next_table_id == 0,
    {
        let db = DB { storage_dir, tables: Vec::new(), next_table_id: 0 };
        assert(db@.tables =~= Seq::<TableView>::empty());
        db
    }

    pub fn storage_dir(&self) -> (r: &str)
        ensures
            r@ == self@.storage_dir,
    {
        self.storage_dir.as_str()
    }

    pub fn next_table_id(&self) -> (r: u32)
        ensures
            r == self@.next_table_id,
    {
        self.next_table_id
    }

    pub fn tables(&self) -> (r: &Vec<Table>)
        ensures
            r@.map_values(|t: Table| t@) == self@.tables,
    {
        &self.tables
    }

    /// The index of the table named `name`, if there is one.
    fn find(&self, name: &str) -> (r: Option<usize>)
        ensures
            r matches Some(i) ==> i < self@.tables.len() && self@.tables[i as int].name == name@,
            r is None ==> !self@.has_table(name@),
    {
        let mut i: usize = 0;
        while i < self.tables.len()
            invariant
                0 <= i <= self.tables@.len(),
                forall|j: int| 0 <= j < i ==> (#[trigger] self@.tables[j]).name != name@,
            decreases self.tables@.len() - i,
        {
            proof {
                assert(self@.tables[i as int] == self.tables@[i as int]@);
            }
            if str_eq(self.tables[i].name(), name) {
                return Some(i);
            }
            i = i + 1;
        }
        None
    }

    /// The schema of the table named `name`; an unknown name is an execution
    /// error, "Table <name> does not exist".
    pub fn get_table(&self, name: &str) -> (r: Result<&Table>)
        ensures
            r is Ok <==> self@.has_table(name@),
            r matches Ok(t) ==> t@.name == name@ && exists|i: int|
                0 <= i < self@.tables.len() && #[trigger] self@.tables[i] == t@,
            r matches Err(e) ==> e is Execution && e->Execution_0@ == "Table "@ + name@ + " does not exist"@,
    {
        match self.find(name) {
            Some(i) => {
                proof {
                    assert(self@.tables[i as int] == self.tables@[i as int]@);
                }
                Ok(&self.tables[i])
            },
            None => {
                let mut m = String::from_str("Table ");
                m.append(name);
                m.append(" does not exist");
                Err(DBError::Execution(m))
            },
        }
    }

    /// The schema a new table would get: the next id, `name` and `columns`. A
    /// name already taken is an execution error. The catalog is not changed:
    /// once the table's page file is made, `add_table` records it.
    pub fn new_table(&self, name: String, columns: Vec<ColumnDef>) -> (r: Result<Table>)
        ensures
            r is Ok <==> !self@.has_table(name@) && name_fits(name@) && columns@.len() <= u32::MAX
                && forall|i: int| 0 <= i < columns@.len() ==> name_fits(#[trigger] columns@[i]@.name),
            r matches Ok(t) ==> t@.id == self@.next_table_id && t@.name == name@ && t@.columns
                == columns@.map_values(|c: ColumnDef| c@),
            r matches Err(e) ==> e is Execution,
            self@.has_table(name@) ==> fails_execution_with(r, "Table "@ + name@ + " already exists"@),
    {
        if self.find(name.as_str()).is_some() {
            let mut m = String::from_str("Table ");
            m.append(name.as_str());
            m.append(" already exists");
            return Err(DBError::Execution(m));
        }
        if name.as_str().as_bytes().len() > u32::MAX as usize || columns.len() > u32::MAX as usize {
            return Err(execution_error("Name too long"));
        }
        let mut i: usize = 0;
        while i < columns.len()
            invariant
                !self@.has_table(name@),
                0 <= i <= columns@.len(),
                forall|j: int| 0 <= j < i ==> name_fits(#[trigger] columns@[j]@.name),
            decreases columns@.len() - i,
        {
            if columns[i].name().as_bytes().len() > u32::MAX as usize {
                return Err(execution_error("Name too long"));
            }
            i = i + 1;
        }
        Ok(Table::new(self.next_table_id, name, columns))
    }

    /// Records a table whose page file has been made, and moves the id
    /// counter past it.
    pub fn add_table(&mut self, table: Table) -> (r: Result<()>)
        requires
            old(self)@.wf(),
            table@.names_fit(),
        ensures
            final(self)@.wf(),
            r is Ok <==> !old(self)@.has_table(table@.name) && table@.id == old(self)@.next_table_id
                && old(self)@.next_table_id < u32::MAX && old(self)@.tables.len() < u32::MAX,
            r is Ok ==> final(self)@ == (CatalogView {
                tables: old(self)@.tables.push(table@),
                next_table_id: (old(self)@.next_table_id + 1) as u32,
                ..old(self)@
            }),
            r is Err ==> final(self)@ == old(self)@,
            r matches Err(e) ==> e is Execution,
    {
        if self.find(table.name()).is_some() || table.id() != self.next_table_id || self.next_table_id
            == u32::MAX || self.tables.len() >= u32::MAX as usize {
            return Err(execution_error("Table cannot be added"));
        }
        let ghost prev = self@.tables;
        let ghost tv = table@;
        self.tables.push(table);
        self.next_table_id = self.next_table_id + 1;
        assert(self@.tables =~= prev.push(tv));
        Ok(())
    }

    /// Forgets the table named `name` once its page file is gone; an unknown
    /// name is an execution error.
    pub fn remove_table(&mut self, name: &str) -> (r: Result<Table>)
        requires
            old(self)@.wf(),
        ensures
            final(self)@.wf(),
            r is Ok <==> old(self)@.has_table(name@),
            r matches Ok(t) ==> t@.name == name@ && final(self)@.storage_dir == old(self)@.storage_dir
                && final(self)@.next_table_id == old(self)@.next_table_id && !final(self)@.has_table(name@)
                && exists|i: int|
                0 <= i < old(self)@.tables.len() && #[trigger] old(self)@.tables[i] == t@
                    && final(self)@.tables == old(self)@.tables.remove(i),
            r is Err ==> final(self)@ == old(self)@,
            r matches Err(e) ==> e is Execution,
    {
        match self.find(name) {
            Some(i) => {
                let ghost prev = self@.tables;
                let t = self.tables.remove(i);
                proof {
                    assert(self@.tables =~= prev.remove(i as int));
                    assert(prev[i as int] == t@);
                    assert forall|j: int| 0 <= j < self@.tables.len() implies (#[trigger] self@.tables[j]).name
                        != name@ by {
                        if j < i {
                            assert(self@.tables[j] == prev[j]);
                        } else {
                            assert(self@.tables[j] == prev[j + 1]);
                        }
                    }
                }
                Ok(t)
            },
            None => {
                let mut m = String::from_str("Table ");
                m.append(name);
                m.append(" does not exist");
                Err(DBError::Execution(m))
            },
        }
    }

    /// The catalog file's bytes.
    pub fn metadata(&self) -> (b: Vec<u8>)
        requires
            self@.wf(),
        ensures
            b@ == catalog_bytes(self@.next_table_id, self@.tables),
    {
        let ghost ts = self@.tables;
        let mut writer = BinaryWriter::new();
        writer.write_u32(self.next_table_id);
        writer.write_u32(self.tables.len() as u32);
        let ghost head = writer@;
        let mut i: usize = 0;
        while i < self.tables.len()
            invariant
                ts == self@.tables,
                self@.wf(),
                0 <= i <= ts.len(),
                writer@ == head + tables_bytes(ts.take(i as int)),
            decreases ts.len() - i,
        {
            proof {
                assert(self.tables@[i as int]@ == ts[i as int]);
                assert(ts[i as int].names_fit());
            }
            self.tables[i].write_metadata(&mut writer);
            proof {
                assert(ts.take(i + 1).drop_last() =~= ts.take(i as int));
            }
            i = i + 1;
        }
        assert(ts.take(i as int) =~= ts);
        assert(writer@ =~= catalog_bytes(self@.next_table_id, ts));
        writer.into_bytes()
    }

    /// The catalog held by a metadata file of `storage_dir`. Bytes that do
    /// not hold one, or that name a table twice, are invalid data.
    pub fn from_metadata(storage_dir: String, bytes: &[u8]) -> (r: Result<Self>)
        ensures
            r is Ok <==> decode_catalog(bytes@) is Some && (decode_catalog(bytes@)->0).1.len() <= u32::MAX,
            r matches Ok(db) ==> db@.storage_dir == storage_dir@ && Some((db@.next_table_id, db@.tables))
                == decode_catalog(bytes@) && db@.wf(),
            r matches Err(e) ==> e is IO,
    {
        let ghost b = bytes@;
        let mut reader = BinaryReader::new(bytes);
        let next_table_id = reader.read_u32()?;
        let table_count = reader.read_u32()?;
        proof {
            assert(b.skip(4).skip(4) =~= b.skip(8));
        }
        let ghost tb = b.skip(8);
        let mut tables: Vec<Table> = Vec::new();
        let mut i: u32 = 0;
        let ghost mut used: nat = 0;
        while i < table_count
            invariant
                reader.wf(),
                b == bytes@,
                b.len() >= 8,
                tb == b.skip(8),
                table_count == u32_of(b.skip(4)),
                0 <= i <= table_count,
                decode_tables(i as nat, tb) == Some((tables@.map_values(|t: Table| t@), used)),
                names_unique(tables@.map_values(|t: Table| t@)),
                forall|j: int| 0 <= j < tables@.len() ==> (#[trigger] tables@[j])@.names_fit(),
                used <= tb.len(),
                reader.rest() == tb.skip(used as int),
            decreases table_count - i,
        {
            let ghost before = reader.rest();
            let t = match Table::from_reader(&mut reader) {
                Ok(t) => t,
                Err(e) => {
                    proof {
                        assert(decode_tables((i + 1) as nat, tb) is None);
                        lemma_decode_tables_stays_none((i + 1) as nat, table_count as nat, tb);
                    }
                    return Err(e);
                },
            };
            let ghost used0 = used;
            proof {
                lemma_decode_table_len(before);
                lemma_decoded_table_names_fit(before);
                let m = (decode_table(before)->0).1;
                assert(tb.skip(used as int).skip(m as int) =~= tb.skip((used + m) as int));
                used = used + m;
                assert(decode_tables((i + 1) as nat, tb) == Some((
                    tables@.map_values(|t: Table| t@).push(t@),
                    used,
                )));
            }
            let ghost prev = tables@.map_values(|t: Table| t@);
            let ghost tv = t@;
            let mut j: usize = 0;
            while j < tables.len()
                invariant
                    prev == tables@.map_values(|t: Table| t@),
                    tv == t@,
                    decode_tables((i + 1) as nat, tb) == Some((prev.push(tv), used)),
                    i < table_count,
                    table_count == u32_of(b.skip(4)),
                    b == bytes@,
                    b.len() >= 8,
                    tb == b.skip(8),
                    0 <= j <= prev.len(),
                    forall|k: int| 0 <= k < j ==> (#[trigger] prev[k]).name != tv.name,
                decreases prev.len() - j,
            {
                proof {
                    assert(prev[j as int] == tables@[j as int]@);
                }
                if str_eq(tables[j].name(), t.name()) {
                    proof {
                        let all = prev.push(tv);
                        assert(all[j as int] == prev[j as int]);
                        assert(all[prev.len() as int] == tv);
                        assert(all[j as int].name == all[prev.len() as int].name);
                        assert(decode_tables((i + 1) as nat, tb) == Some((all, used)));
                        lemma_decode_tables_unique_prefix(all, table_count as nat, (i + 1) as nat, tb);
                    }
                    return Err(io_error(IoErrorKind::InvalidData, "Table named twice in the catalog"));
                }
                j = j + 1;
            }
            tables.push(t);
            i = i + 1;
            proof {
                assert(tables@.map_values(|t: Table| t@) =~= prev.push(tv));
            }
        }
        proof {
            lemma_decode_tables_len(table_count as nat, tb);
        }
        Ok(DB { storage_dir, tables, next_table_id })
    }
}

pub proof fn lemma_decode_tables_len(n: nat, b: Seq<u8>)
    requires
        decode_tables(n, b) is Some,
    ensures
        (decode_tables(n, b)->0).0.len() == n,
    decreases n,
{
    if n > 0 {
        lemma_decode_tables_len((n - 1) as nat, b);
    }
}

/// Decoding more tables only appends to what fewer tables gave; so names
/// repeated among the first tables are repeated among all of them.
proof fn lemma_decode_tables_unique_prefix(pre: Seq<TableView>, n: nat, k: nat, b: Seq<u8>)
    requires
        k <= n,
        decode_tables(k, b) matches Some((ts, _)) && ts == pre,
        !names_unique(pre),
    ensures
        decode_tables(n, b) matches Some((ts, _)) ==> !names_unique(ts),
    decreases n - k,
{
    if k < n {
        match decode_tables((k + 1) as nat, b) {
            Some((ts1, _)) => {
                assert(ts1.drop_last() =~= pre);
                let (i, j) = choose|i: int, j: int| 0 <= i < j < pre.len() && #[trigger] pre[i].name == #[trigger] pre[j].name;
                assert(ts1[i] == pre[i] && ts1[j] == pre[j]);
                lemma_decode_tables_unique_prefix(ts1, n, (k + 1) as nat, b);
            },
            None => {
                lemma_decode_tables_stays_none((k + 1) as nat, n, b);
            },
        }
    }
}

} // verus!
