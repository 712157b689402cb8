use vstd::prelude::*;
use vstd::utf8::{decode_utf8, encode_utf8, valid_utf8};

use crate::errors::{fails_with, io_error, DBError, IoErrorKind, Result};
use crate::serializer::{be_u32, string_bytes, string_fits, string_payload, u32_of, BinaryReader, BinaryWriter};
use crate::values::DBType;

verus! {

/// A column: its name and its type.
#[derive(PartialEq, Debug, Clone)]
pub struct ColumnDef {
    name: String,
    dtype: DBType,
}

pub struct ColumnView {
    pub name: Seq<char>,
    pub dtype: DBType,
}

impl View for ColumnDef {
    type V = ColumnView;

    closed spec fn view(&self) -> ColumnView {
        ColumnView { name: self.name@, dtype: self.dtype }
    }
}

/// The byte that stands for a column type in the catalog file.
pub open spec fn type_code(t: DBType) -> u8 {
    match t {
        DBType::Bool => 0,
        DBType::Int => 1,
        DBType::Double => 2,
        DBType::String => 3,
    }
}

pub open spec fn type_of_code(b: u8) -> Option<DBType> {
    if b == 0 {
        Some(DBType::Bool)
    } else if b == 1 {
        Some(DBType::Int)
    } else if b == 2 {
        Some(DBType::Double)
    } else if b == 3 {
        Some(DBType::String)
    } else {
        None
    }
}

/// The catalog bytes of a column: its name, then its type code.
pub open spec fn column_bytes(c: ColumnView) -> Seq<u8> {
    string_bytes(c.name).push(type_code(c.dtype))
}

/// Reads a column from the front of `b`.
pub open spec fn decode_column(b: Seq<u8>) -> Option<(ColumnView, nat)> {
    if string_fits(b) && valid_utf8(string_payload(b)) {
        let n = 4 + u32_of(b);
        if b.len() > n {
            match type_of_code(b[n]) {
                Some(t) => Some((ColumnView { name: decode_utf8(string_payload(b)), dtype: t }, (n + 1) as nat)),
                None => None,
            }
        } else {
            None
        }
    } else {
        None
    }
}

/// Why a column cannot be read from the front of `b`: the bytes end too
/// early, or the name is not UTF-8 or the type byte is above 3.
pub open spec fn column_fault(b: Seq<u8>) -> IoErrorKind {
    if !string_fits(b) {
        IoErrorKind::UnexpectedEof
    } else if !valid_utf8(string_payload(b)) {
        IoErrorKind::InvalidData
    } else if b.len() <= 4 + u32_of(b) {
        IoErrorKind::UnexpectedEof
    } else {
        IoErrorKind::InvalidData
    }
}

/// Why `n` columns cannot be read from the front of `b`: the fault of the
/// first column that cannot be.
pub open spec fn columns_fault(n: nat, b: Seq<u8>) -> IoErrorKind
    decreases n,
{
    if n == 0 {
        IoErrorKind::Other
    } else {
        match decode_columns((n - 1) as nat, b) {
            Some((_, k)) => column_fault(b.skip(k as int)),
            None => columns_fault((n - 1) as nat, b),
        }
    }
}

/// Why a table cannot be read from the front of `b`.
pub open spec fn table_fault(b: Seq<u8>) -> IoErrorKind {
    let s = b.skip(4);
    let k = 4 + 4 + u32_of(s);
    if b.len() < 4 || !string_fits(s) {
        IoErrorKind::UnexpectedEof
    } else if !valid_utf8(string_payload(s)) {
        IoErrorKind::InvalidData
    } else if b.len() < k + 4 {
        IoErrorKind::UnexpectedEof
    } else {
        columns_fault(u32_of(b.skip(k)) as nat, b.skip(k + 4))
    }
}

proof fn lemma_columns_fault(i: nat, m: nat, b: Seq<u8>)
    requires
        i < m,
        decode_columns(i, b) is Some,
        decode_columns(i + 1, b) is None,
    ensures
        decode_columns(m, b) is None,
        columns_fault(m, b) == column_fault(b.skip((decode_columns(i, b)->0).1 as int)),
    decreases m - i,
{
    if i + 1 < m {
        lemma_columns_fault(i, (m - 1) as nat, b);
    }
}

/// The catalog bytes of a list of columns, one after the other.
pub open spec fn columns_bytes(cs: Seq<ColumnView>) -> Seq<u8>
    decreases cs.len(),
{
    if cs.len() == 0 {
        Seq::empty()
    } else {
        columns_bytes(cs.drop_last()) + column_bytes(cs.last())
    }
}

/// Reads `n` columns from the front of `b`.
pub open spec fn decode_columns(n: nat, b: Seq<u8>) -> Option<(Seq<ColumnView>, nat)>
    decreases n,
{
    if n == 0 {
        Some((Seq::empty(), 0))
    } else {
        match decode_columns((n - 1) as nat, b) {
            Some((cs, k)) => match decode_column(b.skip(k as int)) {
                Some((c, m)) => Some((cs.push(c), k + m)),
                None => None,
            },
            None => None,
        }
    }
}

proof fn lemma_decode_columns_stays_none(n: nat, m: nat, b: Seq<u8>)
    requires
        n <= m,
        decode_columns(n, b) is None,
    ensures
        decode_columns(m, b) is None,
    decreases m - n,
{
    if n < m {
        lemma_decode_columns_stays_none(n, (m - 1) as nat, b);
    }
}

pub proof fn lemma_decode_columns_len(n: nat, b: Seq<u8>)
    requires
        decode_columns(n, b) is Some,
    ensures
        (decode_columns(n, b)->0).0.len() == n,
        (decode_columns(n, b)->0).1 <= b.len(),
    decreases n,
{
    if n > 0 {
        lemma_decode_columns_len((n - 1) as nat, b);
    }
}

pub proof fn lemma_decode_table_len(b: Seq<u8>)
    requires
        decode_table(b) is Some,
    ensures
        (decode_table(b)->0).1 <= b.len(),
{
    let s = b.skip(4);
    let k = 4 + 4 + u32_of(s);
    lemma_decode_columns_len(u32_of(b.skip(k)) as nat, b.skip(k + 4));
}

/// Names read back from catalog bytes fit their length prefix again.
pub proof fn lemma_decoded_name_fits(b: Seq<u8>)
    requires
        string_fits(b),
        valid_utf8(string_payload(b)),
    ensures
        name_fits(decode_utf8(string_payload(b))),
{
    vstd::utf8::decode_utf8_encode_utf8(string_payload(b));
}

proof fn lemma_decode_columns_names_fit(n: nat, b: Seq<u8>)
    requires
        decode_columns(n, b) is Some,
    ensures
        forall|i: int|
            0 <= i < (decode_columns(n, b)->0).0.len() ==> name_fits(
                #[trigger] (decode_columns(n, b)->0).0[i].name,
            ),
    decreases n,
{
    if n > 0 {
        lemma_decode_columns_names_fit((n - 1) as nat, b);
        let k = (decode_columns((n - 1) as nat, b)->0).1;
        lemma_decoded_name_fits(b.skip(k as int));
    }
}

/// A table read back from catalog bytes can be written again.
pub proof fn lemma_decoded_table_names_fit(b: Seq<u8>)
    requires
        decode_table(b) is Some,
    ensures
        (decode_table(b)->0).0.names_fit(),
{
    let s = b.skip(4);
    let k = 4 + 4 + u32_of(s);
    lemma_decoded_name_fits(s);
    lemma_decode_columns_len(u32_of(b.skip(k)) as nat, b.skip(k + 4));
    lemma_decode_columns_names_fit(u32_of(b.skip(k)) as nat, b.skip(k + 4));
}

/// A name can be written: its UTF-8 length fits the `u32` prefix.
pub open spec fn name_fits(s: Seq<char>) -> bool {
    encode_utf8(s).len() <= u32::MAX
}

impl ColumnDef {
    pub fn new(name: String, dtype: DBType) -> (c: Self)
        ensures
            c@.name == name@,
            c@.dtype == dtype,
    {
        ColumnDef { name, dtype }
    }

    pub fn name(&self) -> (r: &str)
        ensures
            r@ == self@.name,
    {
        self.name.as_str()
    }

    pub fn dtype(&self) -> (t: DBType)
        ensures
            t == self@.dtype,
    {
        self.dtype
    }

    /// A copy with the same name and type.
    pub fn clone_column(&self) -> (c: Self)
        ensures
            c@ == self@,
    {
        ColumnDef { name: self.name.clone(), dtype: self.dtype }
    }

    pub fn from_reader(reader: &mut BinaryReader) -> (r: Result<Self>)
        requires
            old(reader).wf(),
        ensures
            final(reader).wf(),
            r is Ok <==> decode_column(old(reader).rest()) is Some,
            r matches Ok(c) ==> decode_column(old(reader).rest()) == Some((c@, (decode_column(
                old(reader).rest(),
            )->0).1)) && final(reader).rest() == old(reader).rest().skip(
                (decode_column(old(reader).rest())->0).1 as int,
            ),
            r matches Err(e) ==> e is IO,
            r is Err ==> fails_with(r, column_fault(old(reader).rest())),
    {
        let ghost rest = reader.rest();
        let name = reader.read_string()?;
        let ghost n = 4 + u32_of(rest);
        let code = reader.read_u8()?;
        proof {
            assert(rest.skip(n).skip(1) =~= rest.skip(n + 1));
        }
        let dtype = if code == 0 {
            DBType::Bool
        } else if code == 1 {
            DBType::Int
        } else if code == 2 {
            DBType::Double
        } else if code == 3 {
            DBType::String
        } else {
            return Err(io_error(IoErrorKind::InvalidData, "Invalid column type"));
        };
        Ok(ColumnDef { name, dtype })
    }

    pub fn write(&self, writer: &mut BinaryWriter)
        requires
            name_fits(self@.name),
        ensures
            final(writer)@ == old(writer)@ + column_bytes(self@),
    {
        writer.write_string(self.name.as_str());
        let code: u8 = match self.dtype {
            DBType::Bool => 0,
            DBType::Int => 1,
            DBType::Double => 2,
            DBType::String => 3,
        };
        writer.write_u8(code);
        assert(final(writer)@ =~= old(writer)@ + column_bytes(self@));
    }
}

/// The schema of one table: its id, its name and its columns.
#[derive(PartialEq, Debug)]
pub struct Table {
    id: u32,
    name: String,
    columns: Vec<ColumnDef>,
}

pub struct TableView {
    pub id: u32,
    pub name: Seq<char>,
    pub columns: Seq<ColumnView>,
}

impl View for Table {
    type V = TableView;

    closed spec fn view(&self) -> TableView {
        TableView { id: self.id, name: self.name@, columns: self.columns@.map_values(|c: ColumnDef| c@) }
    }
}

impl TableView {
    /// The column types, in order.
    pub open spec fn schema(self) -> Seq<DBType> {
        self.columns.map_values(|c: ColumnView| c.dtype)
    }

    /// Every name of the table can be written to the catalog.
    pub open spec fn names_fit(self) -> bool {
        &&& name_fits(self.name)
        &&& self.columns.len() <= u32::MAX
        &&& forall|i: int| 0 <= i < self.columns.len() ==> name_fits(#[trigger] self.columns[i].name)
    }
}

/// Column `i` is the first one named `name`.
pub open spec fn first_named(t: TableView, name: Seq<char>, i: int) -> bool {
    &&& 0 <= i < t.columns.len()
    &&& t.columns[i].name == name
    &&& forall|j: int| 0 <= j < i ==> (#[trigger] t.columns[j]).name != name
}

/// The position of the first column named `name`.
pub open spec fn column_named(t: TableView, name: Seq<char>) -> Option<int> {
    if exists|i: int| first_named(t, name, i) {
        Some(choose|i: int| first_named(t, name, i))
    } else {
        None
    }
}

/// The catalog bytes of a table.
pub open spec fn table_bytes(t: TableView) -> Seq<u8> {
    be_u32(t.id) + string_bytes(t.name) + be_u32(t.columns.len() as u32) + columns_bytes(t.columns)
}

/// Reads a table from the front of `b`.
pub open spec fn decode_table(b: Seq<u8>) -> Option<(TableView, nat)> {
    if b.len() >= 4 {
        let s = b.skip(4);
        if string_fits(s) && valid_utf8(string_payload(s)) {
            let k = 4 + 4 + u32_of(s);
            if b.len() >= k + 4 {
                let count = u32_of(b.skip(k));
                match decode_columns(count as nat, b.skip(k + 4)) {
                    Some((cs, m)) => Some((
                        TableView { id: u32_of(b), name: decode_utf8(string_payload(s)), columns: cs },
                        (k + 4 + m) as nat,
                    )),
                    None => None,
                }
            } else {
                None
            }
        } else {
            None
        }
    } else {
        None
    }
}

impl Table {
    pub fn new(id: u32, name: String, columns: Vec<ColumnDef>) -> (t: Self)
        ensures
            t@.id == id,
            t@.name == name@,
            t@.columns == columns@.map_values(|c: ColumnDef| c@),
    {
        Table { id, name, columns }
    }

    pub fn id(&self) -> (r: u32)
        ensures
            r == self@.id,
    {
        self.id
    }

    pub fn name(&self) -> (r: &str)
        ensures
            r@ == self@.name,
    {
        self.name.as_str()
    }

    pub fn columns(&self) -> (r: &Vec<ColumnDef>)
        ensures
            r@.map_values(|c: ColumnDef| c@) == self@.columns,
    {
        &self.columns
    }

    /// The position of the column named `name`, if there is one.
    pub fn column_index(&self, name: &str) -> (r: Option<usize>)
        ensures
            r matches Some(i) ==> column_named(self@, name@) == Some(i as int),
            r is None ==> column_named(self@, name@) is None,
    {
        let mut i: usize = 0;
        while i < self.columns.len()
            invariant
                0 <= i <= self.columns@.len(),
                forall|j: int| 0 <= j < i ==> (#[trigger] self@.columns[j]).name != name@,
            decreases self.columns@.len() - i,
        {
            proof {
                assert(self@.columns[i as int] == self.columns@[i as int]@);
            }
            if crate::utils::str_eq(self.columns[i].name(), name) {
                proof {
                    assert(first_named(self@, name@, i as int));
                    let k = choose|k: int| first_named(self@, name@, k);
                    if k < i {
                    } else if k > i {
                        assert(self@.columns[i as int].name != name@);
                    }
                }
                return Some(i);
            }
            i = i + 1;
        }
        None
    }

    pub fn from_reader(reader: &mut BinaryReader) -> (r: Result<Self>)
        requires
            old(reader).wf(),
        ensures
            final(reader).wf(),
            r is Ok <==> decode_table(old(reader).rest()) is Some,
            r matches Ok(t) ==> decode_table(old(reader).rest()) == Some((t@, (decode_table(
                old(reader).rest(),
            )->0).1)) && final(reader).rest() == old(reader).rest().skip(
                (decode_table(old(reader).rest())->0).1 as int,
            ),
            r matches Err(e) ==> e is IO,
            r is Err ==> fails_with(r, table_fault(old(reader).rest())),
    {
        let ghost b = reader.rest();
        let id = reader.read_u32()?;
        let name = reader.read_string()?;
        let ghost k = 4 + 4 + u32_of(b.skip(4));
        proof {
            assert(b.skip(4).skip(4 + u32_of(b.skip(4))) =~= b.skip(k));
        }
        let column_count = reader.read_u32()?;
        proof {
            assert(b.skip(k).skip(4) =~= b.skip(k + 4));
        }
        let ghost cb = b.skip(k + 4);
        let mut columns: Vec<ColumnDef> = Vec::new();
        let mut i: u32 = 0;
        let ghost mut used: nat = 0;
        while i < column_count
            invariant
                reader.wf(),
                0 <= i <= column_count,
                decode_columns(i as nat, cb) == Some((columns@.map_values(|c: ColumnDef| c@), used)),
                used <= cb.len(),
                reader.rest() == cb.skip(used as int),
                decode_columns(column_count as nat, cb) is None ==> decode_table(b) is None,
                table_fault(b) == columns_fault(column_count as nat, cb),
                b == old(reader).rest(),
            decreases column_count - i,
        {
            let ghost before = reader.rest();
            let c = match ColumnDef::from_reader(reader) {
                Ok(c) => c,
                Err(e) => {
                    proof {
                        assert(decode_column(cb.skip(used as int)) is None);
                        assert(decode_columns((i + 1) as nat, cb) is None);
                        lemma_columns_fault(i as nat, column_count as nat, cb);
                    }
                    return Err(e);
                },
            };
            proof {
                let m = (decode_column(before)->0).1;
                assert(cb.skip(used as int).skip(m as int) =~= cb.skip((used + m) as int));
                used = used + m;
            }
            let ghost prev = columns@.map_values(|c: ColumnDef| c@);
            let ghost cv = c@;
            columns.push(c);
            i = i + 1;
            proof {
                assert(columns@.map_values(|c: ColumnDef| c@) =~= prev.push(cv));
            }
        }
        Ok(Table { id, name, columns })
    }

    /// Writes the table's catalog entry.
    pub fn write_metadata(&self, writer: &mut BinaryWriter)
        requires
            self@.names_fit(),
        ensures
            final(writer)@ == old(writer)@ + table_bytes(self@),
    {
        let ghost cs = self@.columns;
        writer.write_u32(self.id);
        writer.write_string(self.name.as_str());
        writer.write_u32(self.columns.len() as u32);
        let ghost head = writer@;
        let mut i: usize = 0;
        while i < self.columns.len()
            invariant
                cs == self@.columns,
                self@.names_fit(),
                0 <= i <= cs.len(),
                writer@ == head + columns_bytes(cs.take(i as int)),
            decreases cs.len() - i,
        {
            proof {
                assert(self.columns@[i as int]@ == cs[i as int]);
                assert(name_fits(cs[i as int].name));
            }
            self.columns[i].write(writer);
            proof {
                assert(cs.take(i + 1).drop_last() =~= cs.take(i as int));
            }
            i = i + 1;
        }
        assert(cs.take(i as int) =~= cs);
        assert(final(writer)@ =~= old(writer)@ + table_bytes(self@));
    }

    /// The table's page table, for a page file of `file_len` bytes.
    pub fn get_page_table(&self, file_len: u64) -> (r: Result<crate::page_table::PageTable<'_>>)
        ensures
            r is Ok <==> file_len % (crate::page::PAGE_SIZE as u64) == 0 && file_len / (
            crate::page::PAGE_SIZE as u64) <= u32::MAX,
            r matches Ok(pt) ==> pt.count() == file_len / (crate::page::PAGE_SIZE as u64) && pt.table()
                == self,
            r matches Err(e) ==> crate::errors::is_io_kind(e, IoErrorKind::InvalidData),
    {
        crate::page_table::PageTable::load(self, file_len)
    }

    /// The name of the table's page file: its id, then `.tbl`.
    pub fn file_name(&self) -> (r: String)
        ensures
            r@ == decimal(self@.id as nat) + ".tbl"@,
    {
        let mut r = decimal_string(self.id);
        r.append(".tbl");
        r
    }

    /// The path of the table's page file inside `storage_dir`.
    pub fn get_table_file_path(&self, storage_dir: &str) -> (r: String)
        ensures
            r@ == join_path(storage_dir@, decimal(self@.id as nat) + ".tbl"@),
    {
        let name = self.file_name();
        join(storage_dir, name.as_str())
    }
}

/// The decimal digits of `n`, most significant first.
pub open spec fn decimal(n: nat) -> Seq<char>
    decreases n,
{
    if n < 10 {
        seq![digit(n)]
    } else {
        decimal(n / 10).push(digit(n % 10))
    }
}

pub open spec fn digit(d: nat) -> char {
    ((d + 48) as u8) as char
}

/// `name` inside the directory `dir`: a separator is put between the two
/// unless `dir` is empty or already ends with one.
pub open spec fn join_path(dir: Seq<char>, name: Seq<char>) -> Seq<char> {
    if dir.len() == 0 {
        name
    } else if dir.last() == '/' {
        dir + name
    } else {
        dir + "/"@ + name
    }
}

fn digit_str(d: u32) -> (r: &'static str)
    requires
        d < 10,
    ensures
        r@ == seq![digit(d as nat)],
{
    proof {
        reveal_strlit("0");
        reveal_strlit("1");
        reveal_strlit("2");
        reveal_strlit("3");
        reveal_strlit("4");
        reveal_strlit("5");
        reveal_strlit("6");
        reveal_strlit("7");
        reveal_strlit("8");
        reveal_strlit("9");
    }
    let r = if d == 0 {
        "0"
    } else if d == 1 {
        "1"
    } else if d == 2 {
        "2"
    } else if d == 3 {
        "3"
    } else if d == 4 {
        "4"
    } else if d == 5 {
        "5"
    } else if d == 6 {
        "6"
    } else if d == 7 {
        "7"
    } else if d == 8 {
        "8"
    } else {
        "9"
    };
    assert(r@ =~= seq![digit(d as nat)]);
    r
}

/// `n` written in decimal.
pub fn decimal_string(n: u32) -> (r: String)
    ensures
        r@ == decimal(n as nat),
    decreases n,
{
    if n < 10 {
        String::from_str(digit_str(n))
    } else {
        let mut r = decimal_string(n / 10);
        r.append(digit_str(n % 10));
        r
    }
}

fn join(dir: &str, name: &str) -> (r: String)
    ensures
        r@ == join_path(dir@, name@),
{
    let n = dir.unicode_len();
    let mut r = String::from_str(dir);
    if n == 0 {
        return String::from_str(name);
    }
    let last = dir.get_char(n - 1);
    if last != '/' {
        proof {
            reveal_strlit("/");
        }
        r.append("/");
    }
    r.append(name);
    r
}

} // verus!
