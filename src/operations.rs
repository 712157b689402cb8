use core::cmp::Ordering;
use vstd::prelude::*;

use crate::errors::{execution_error, DBError, Result};
use crate::table::{column_named, Table};
use crate::tuple::{conforms, Tuple};
use crate::utils::str_eq;
use crate::values::{type_of, DBType, DBValue, ValueView};

verus! {

/// The sign bit of a double.
pub const SIGN_BIT: u64 = 0x8000_0000_0000_0000;

/// One past the largest mantissa of a double.
pub const MANTISSA: u64 = 0x10_0000_0000_0000;

/// The bits of a NaN: all exponent bits set and a nonzero mantissa.
pub open spec fn is_nan_bits(b: u64) -> bool {
    (b / MANTISSA) % 0x800 == 0x7ff && b % MANTISSA != 0
}

/// Orders doubles that are not NaN as IEEE-754 does: by sign, then by
/// magnitude; the two zeros get the same key.
pub open spec fn double_key(b: u64) -> int {
    if b >= SIGN_BIT {
        -((b - SIGN_BIT) as int)
    } else {
        b as int
    }
}

pub open spec fn cmp_int(a: int, b: int) -> Ordering {
    if a < b {
        Ordering::Less
    } else if a == b {
        Ordering::Equal
    } else {
        Ordering::Greater
    }
}

/// How two values compare: integers with integers, doubles with doubles
/// (NaN with nothing); any other pair is incomparable.
pub open spec fn compare_values(a: ValueView, b: ValueView) -> Option<Ordering> {
    match (a, b) {
        (ValueView::Int(x), ValueView::Int(y)) => Some(cmp_int(x as int, y as int)),
        (ValueView::Double(x), ValueView::Double(y)) => if is_nan_bits(x) || is_nan_bits(y) {
            None
        } else {
            Some(cmp_int(double_key(x), double_key(y)))
        },
        _ => None,
    }
}

/// Two values are equal: of one type, and the same (doubles as numbers).
pub open spec fn values_equal(a: ValueView, b: ValueView) -> bool {
    match (a, b) {
        (ValueView::Bool(x), ValueView::Bool(y)) => x == y,
        (ValueView::Int(x), ValueView::Int(y)) => x == y,
        (ValueView::Double(_), ValueView::Double(_)) => compare_values(a, b) == Some(Ordering::Equal),
        (ValueView::Text(x), ValueView::Text(y)) => x == y,
        _ => false,
    }
}

/// A filter on one column: the column's index and the value compared with.
pub enum WhereClause {
    Eq(usize, DBValue),
    Neq(usize, DBValue),
    Lt(usize, DBValue),
    Lte(usize, DBValue),
    Gt(usize, DBValue),
    Gte(usize, DBValue),
}

impl WhereClause {
    pub open spec fn column(&self) -> usize {
        match self {
            WhereClause::Eq(i, _) => *i,
            WhereClause::Neq(i, _) => *i,
            WhereClause::Lt(i, _) => *i,
            WhereClause::Lte(i, _) => *i,
            WhereClause::Gt(i, _) => *i,
            WhereClause::Gte(i, _) => *i,
        }
    }

    /// The row satisfies the filter.
    pub open spec fn holds(&self, t: Seq<ValueView>) -> bool {
        match self {
            WhereClause::Eq(i, v) => values_equal(t[*i as int], v@),
            WhereClause::Neq(i, v) => !values_equal(t[*i as int], v@),
            WhereClause::Lt(i, v) => compare_values(t[*i as int], v@) == Some(Ordering::Less),
            WhereClause::Lte(i, v) => compare_values(t[*i as int], v@) == Some(Ordering::Less)
                || compare_values(t[*i as int], v@) == Some(Ordering::Equal),
            WhereClause::Gt(i, v) => compare_values(t[*i as int], v@) == Some(Ordering::Greater),
            WhereClause::Gte(i, v) => compare_values(t[*i as int], v@) == Some(Ordering::Greater)
                || compare_values(t[*i as int], v@) == Some(Ordering::Equal),
        }
    }

    /// The filter `col_name op value` on `table`: the first column of that
    /// name must exist (else an execution error), `value` must have its type
    /// (else an execution error), and `op` must be one of `=`, `!=`, `<`,
    /// `<=`, `>`, `>=` (else a parse error).
    pub fn build(table: &Table, col_name: &str, op: &str, value: DBValue) -> (r: Result<WhereClause>)
        ensures
            r is Ok <==> (column_named(table@, col_name@) matches Some(i) && table@.columns[i].dtype
                == type_of(value@) && is_op(op@)),
            r matches Ok(c) ==> Some(c.column() as int) == column_named(table@, col_name@) && c.value()
                == value && op_of(c) == op@,
            r matches Err(e) ==> e is Execution || e is Parse,
    {
        let i = match table.column_index(col_name) {
            Some(i) => i,
            None => {
                let mut m = String::from_str("Column ");
                m.append(col_name);
                m.append(" does not exist");
                return Err(DBError::Execution(m));
            },
        };
        let columns = table.columns();
        proof {
            assert(table@.columns[i as int] == columns@[i as int]@);
        }
        if value.dtype() != columns[i].dtype() {
            return Err(execution_error("Type mismatch"));
        }
        proof {
            reveal_strlit("=");
            reveal_strlit("!=");
            reveal_strlit("<");
            reveal_strlit("<=");
            reveal_strlit(">");
            reveal_strlit(">=");
        }
        if str_eq(op, "=") {
            Ok(WhereClause::Eq(i, value))
        } else if str_eq(op, "!=") {
            Ok(WhereClause::Neq(i, value))
        } else if str_eq(op, "<") {
            Ok(WhereClause::Lt(i, value))
        } else if str_eq(op, "<=") {
            Ok(WhereClause::Lte(i, value))
        } else if str_eq(op, ">") {
            Ok(WhereClause::Gt(i, value))
        } else if str_eq(op, ">=") {
            Ok(WhereClause::Gte(i, value))
        } else {
            let mut m = String::from_str("Invalid operator in where clause: ");
            m.append(op);
            Err(DBError::Parse(m))
        }
    }

    pub open spec fn value(&self) -> DBValue {
        match self {
            WhereClause::Eq(_, v) => *v,
            WhereClause::Neq(_, v) => *v,
            WhereClause::Lt(_, v) => *v,
            WhereClause::Lte(_, v) => *v,
            WhereClause::Gt(_, v) => *v,
            WhereClause::Gte(_, v) => *v,
        }
    }
}

/// The comparison operators a filter may use.
pub open spec fn is_op(op: Seq<char>) -> bool {
    op == "="@ || op == "!="@ || op == "<"@ || op == "<="@ || op == ">"@ || op == ">="@
}

/// The operator a filter was built from.
pub open spec fn op_of(c: WhereClause) -> Seq<char> {
    match c {
        WhereClause::Eq(_, _) => "="@,
        WhereClause::Neq(_, _) => "!="@,
        WhereClause::Lt(_, _) => "<"@,
        WhereClause::Lte(_, _) => "<="@,
        WhereClause::Gt(_, _) => ">"@,
        WhereClause::Gte(_, _) => ">="@,
    }
}

fn is_nan(b: u64) -> (r: bool)
    ensures
        r == is_nan_bits(b),
{
    (b / MANTISSA) % 0x800 == 0x7ff && b % MANTISSA != 0
}

fn cmp_keys(a: u64, b: u64) -> (r: Ordering)
    ensures
        r == cmp_int(double_key(a), double_key(b)),
{
    let a_neg = a >= SIGN_BIT;
    let b_neg = b >= SIGN_BIT;
    let am = if a_neg {
        a - SIGN_BIT
    } else {
        a
    };
    let bm = if b_neg {
        b - SIGN_BIT
    } else {
        b
    };
    if a_neg && b_neg {
        if am > bm {
            Ordering::Less
        } else if am == bm {
            Ordering::Equal
        } else {
            Ordering::Greater
        }
    } else if a_neg {
        if am == 0 && bm == 0 {
            Ordering::Equal
        } else {
            Ordering::Less
        }
    } else if b_neg {
        if am == 0 && bm == 0 {
            Ordering::Equal
        } else {
            Ordering::Greater
        }
    } else if am < bm {
        Ordering::Less
    } else if am == bm {
        Ordering::Equal
    } else {
        Ordering::Greater
    }
}

fn cmp_i32(a: i32, b: i32) -> (r: Ordering)
    ensures
        r == cmp_int(a as int, b as int),
{
    if a < b {
        Ordering::Less
    } else if a == b {
        Ordering::Equal
    } else {
        Ordering::Greater
    }
}

impl DBValue {
    /// How the value compares with `other`; see `compare_values`.
    pub fn compare(&self, other: &DBValue) -> (r: Option<Ordering>)
        ensures
            r == compare_values(self@, other@),
    {
        match (self, other) {
            (DBValue::Int(x), DBValue::Int(y)) => Some(cmp_i32(*x, *y)),
            (DBValue::Double(x), DBValue::Double(y)) => if is_nan(*x) || is_nan(*y) {
                None
            } else {
                Some(cmp_keys(*x, *y))
            },
            _ => None,
        }
    }

    /// The value equals `other`; see `values_equal`.
    pub fn equals(&self, other: &DBValue) -> (r: bool)
        ensures
            r == values_equal(self@, other@),
    {
        match (self, other) {
            (DBValue::Bool(x), DBValue::Bool(y)) => *x == *y,
            (DBValue::Int(x), DBValue::Int(y)) => *x == *y,
            (DBValue::Double(_), DBValue::Double(_)) => match self.compare(other) {
                Some(Ordering::Equal) => true,
                _ => false,
            },
            (DBValue::String(x), DBValue::String(y)) => str_eq(x.as_str(), y.as_str()),
            _ => false,
        }
    }
}

/// The row satisfies the filter.
pub fn tuple_matches(tuple: &Tuple, where_clause: &WhereClause) -> (r: bool)
    requires
        where_clause.column() < tuple@.len(),
    ensures
        r == where_clause.holds(tuple@),
{
    let is = |o: Option<Ordering>, want: Ordering| -> (b: bool)
        ensures
            b == (o == Some(want)),
        {
            match (o, want) {
                (Some(Ordering::Less), Ordering::Less) => true,
                (Some(Ordering::Equal), Ordering::Equal) => true,
                (Some(Ordering::Greater), Ordering::Greater) => true,
                _ => false,
            }
        };
    proof {
        assert(tuple@[where_clause.column() as int] == tuple.values@[where_clause.column() as int]@);
    }
    match where_clause {
        WhereClause::Eq(i, v) => tuple.values[*i].equals(v),
        WhereClause::Neq(i, v) => !tuple.values[*i].equals(v),
        WhereClause::Lt(i, v) => is(tuple.values[*i].compare(v), Ordering::Less),
        WhereClause::Lte(i, v) => {
            let c = tuple.values[*i].compare(v);
            is(c, Ordering::Less) || is(c, Ordering::Equal)
        },
        WhereClause::Gt(i, v) => is(tuple.values[*i].compare(v), Ordering::Greater),
        WhereClause::Gte(i, v) => {
            let c = tuple.values[*i].compare(v);
            is(c, Ordering::Greater) || is(c, Ordering::Equal)
        },
    }
}

/// The filter, if any, lets the row through.
pub open spec fn passes(where_clause: Option<WhereClause>, t: Seq<ValueView>) -> bool {
    match where_clause {
        Some(c) => c.holds(t),
        None => true,
    }
}

/// The row after the assignments `ups`, applied in order (a later one to the
/// same column wins).
pub open spec fn updated(t: Seq<ValueView>, ups: Seq<(usize, ValueView)>) -> Seq<ValueView>
    decreases ups.len(),
{
    if ups.len() == 0 {
        t
    } else {
        updated(t, ups.drop_last()).update(ups.last().0 as int, ups.last().1)
    }
}

/// The chosen columns of a row, in the order asked for.
pub open spec fn projected(t: Seq<ValueView>, cols: Seq<usize>) -> Seq<ValueView> {
    Seq::new(cols.len(), |k: int| t[cols[k] as int])
}

pub open spec fn updates_view(ups: Seq<(usize, DBValue)>) -> Seq<(usize, ValueView)> {
    ups.map_values(|u: (usize, DBValue)| (u.0, u.1@))
}

/// The row to insert into `table`: the values must match the columns in
/// number and in type, else it is an execution error.
pub fn insert_row(table: &Table, values: Vec<DBValue>) -> (r: Result<Tuple>)
    ensures
        r is Ok <==> conforms(values@.map_values(|v: DBValue| v@), table@.schema()),
        r matches Ok(t) ==> t.values == values,
        r matches Err(e) ==> e is Execution,
{
    let columns = table.columns();
    if values.len() != columns.len() {
        return Err(execution_error("Insert values count does not match table columns count"));
    }
    let tuple = Tuple::new(values);
    if !tuple.conforms_to(table) {
        return Err(execution_error("Value type mismatch"));
    }
    Ok(tuple)
}

/// The assignment `col_name = value` on `table`: the first column of that
/// name must exist and have the value's type, else it is an execution error.
pub fn resolve_update(table: &Table, col_name: &str, value: DBValue) -> (r: Result<(usize, DBValue)>)
    ensures
        r is Ok <==> (column_named(table@, col_name@) matches Some(i) && table@.columns[i].dtype
            == type_of(value@)),
        r matches Ok((i, v)) ==> Some(i as int) == column_named(table@, col_name@) && v == value,
        r matches Err(e) ==> e is Execution,
{
    let i = match table.column_index(col_name) {
        Some(i) => i,
        None => {
            let mut m = String::from_str("Column ");
            m.append(col_name);
            m.append(" does not exist");
            return Err(DBError::Execution(m));
        },
    };
    let columns = table.columns();
    proof {
        assert(table@.columns[i as int] == columns@[i as int]@);
    }
    if value.dtype() != columns[i].dtype() {
        return Err(execution_error("Type mismatch"));
    }
    Ok((i, value))
}

/// The row after the assignments, applied in order.
pub fn apply_updates(tuple: &Tuple, updates: &Vec<(usize, DBValue)>) -> (r: Tuple)
    requires
        forall|k: int| 0 <= k < updates@.len() ==> (#[trigger] updates@[k]).0 < tuple@.len(),
    ensures
        r@ == updated(tuple@, updates_view(updates@)),
{
    let mut t = tuple.clone_tuple();
    let ghost ups = updates_view(updates@);
    let mut k: usize = 0;
    while k < updates.len()
        invariant
            ups == updates_view(updates@),
            forall|k: int| 0 <= k < updates@.len() ==> (#[trigger] updates@[k]).0 < tuple@.len(),
            0 <= k <= updates@.len(),
            t@ == updated(tuple@, ups.take(k as int)),
            t@.len() == tuple@.len(),
        decreases updates@.len() - k,
    {
        let (i, v) = &updates[k];
        proof {
            assert(ups.take(k + 1).drop_last() =~= ups.take(k as int));
            assert(ups.take(k + 1).last() == (*i, v@));
        }
        let ghost prev = t@;
        t.values.set(*i, v.clone_value());
        proof {
            assert(t@ =~= prev.update(*i as int, v@));
        }
        k = k + 1;
    }
    assert(ups.take(k as int) =~= ups);
    t
}

/// The chosen columns of the row, in the order asked for.
pub fn project(tuple: &Tuple, columns: &Vec<usize>) -> (r: Tuple)
    requires
        forall|k: int| 0 <= k < columns@.len() ==> (#[trigger] columns@[k]) < tuple@.len(),
    ensures
        r@ == projected(tuple@, columns@),
{
    let mut values: Vec<DBValue> = Vec::new();
    let mut k: usize = 0;
    while k < columns.len()
        invariant
            forall|k: int| 0 <= k < columns@.len() ==> (#[trigger] columns@[k]) < tuple@.len(),
            0 <= k <= columns@.len(),
            values@.map_values(|v: DBValue| v@) == projected(tuple@, columns@).take(k as int),
        decreases columns@.len() - k,
    {
        let i = columns[k];
        let ghost prev = values@.map_values(|v: DBValue| v@);
        values.push(tuple.values[i].clone_value());
        proof {
            assert(tuple@[i as int] == tuple.values@[i as int]@);
            assert(values@.map_values(|v: DBValue| v@) =~= prev.push(tuple@[i as int]));
            assert(projected(tuple@, columns@)[k as int] == tuple@[i as int]);
            assert(projected(tuple@, columns@).take(k + 1) =~= projected(tuple@, columns@).take(k as int).push(
                tuple@[i as int],
            ));
        }
        k = k + 1;
    }
    assert(projected(tuple@, columns@).take(k as int) =~= projected(tuple@, columns@));
    Tuple::new(values)
}

/// What a scanned row contributes to a SELECT: its chosen columns when it
/// passes the filter.
pub fn select_row(tuple: &Tuple, where_clause: &Option<WhereClause>, columns: &Vec<usize>) -> (r: Option<Tuple>)
    requires
        forall|k: int| 0 <= k < columns@.len() ==> (#[trigger] columns@[k]) < tuple@.len(),
        where_clause matches Some(c) ==> c.column() < tuple@.len(),
    ensures
        r is Some <==> passes(*where_clause, tuple@),
        r matches Some(t) ==> t@ == projected(tuple@, columns@),
{
    if let Some(c) = where_clause {
        if !tuple_matches(tuple, c) {
            return None;
        }
    }
    Some(project(tuple, columns))
}

/// What a scanned row contributes to an UPDATE: the row after the
/// assignments when it passes the filter.
pub fn update_row(tuple: &Tuple, where_clause: &Option<WhereClause>, updates: &Vec<(usize, DBValue)>) -> (r: Option<Tuple>)
    requires
        forall|k: int| 0 <= k < updates@.len() ==> (#[trigger] updates@[k]).0 < tuple@.len(),
        where_clause matches Some(c) ==> c.column() < tuple@.len(),
    ensures
        r is Some <==> passes(*where_clause, tuple@),
        r matches Some(t) ==> t@ == updated(tuple@, updates_view(updates@)),
{
    if let Some(c) = where_clause {
        if !tuple_matches(tuple, c) {
            return None;
        }
    }
    Some(apply_updates(tuple, updates))
}

/// The filter, if any, reads a column among the first `n`.
pub open spec fn filter_fits(c: Option<WhereClause>, n: nat) -> bool {
    c matches Some(c) ==> c.column() < n
}

/// A scanned row as its page, its slot offset and its values.
pub open spec fn scanned(rows: Seq<(u32, u16, Tuple)>) -> Seq<(u32, u16, Seq<ValueView>)> {
    rows.map_values(|r: (u32, u16, Tuple)| (r.0, r.1, r.2@))
}

/// The UPDATE targets among scanned rows: each row that passes the filter,
/// with its new values, in scan order.
pub open spec fn update_plan(
    rows: Seq<(u32, u16, Seq<ValueView>)>,
    c: Option<WhereClause>,
    ups: Seq<(usize, ValueView)>,
) -> Seq<(u32, u16, Seq<ValueView>)>
    decreases rows.len(),
{
    if rows.len() == 0 {
        Seq::empty()
    } else {
        let r = rows.last();
        update_plan(rows.drop_last(), c, ups) + if passes(c, r.2) {
            seq![(r.0, r.1, updated(r.2, ups))]
        } else {
            Seq::empty()
        }
    }
}

/// The DELETE targets among scanned rows: where each row that passes the
/// filter lies, in scan order.
pub open spec fn delete_plan(rows: Seq<(u32, u16, Seq<ValueView>)>, c: Option<WhereClause>) -> Seq<(u32, u16)>
    decreases rows.len(),
{
    if rows.len() == 0 {
        Seq::empty()
    } else {
        let r = rows.last();
        delete_plan(rows.drop_last(), c) + if passes(c, r.2) {
            seq![(r.0, r.1)]
        } else {
            Seq::empty()
        }
    }
}

/// First phase of an UPDATE: from the rows a scan gave, the rows to rewrite
/// and their new values. Nothing is written while the scan runs, so rows the
/// update moves are never seen twice.
pub fn plan_update(
    rows: &Vec<(u32, u16, Tuple)>,
    where_clause: &Option<WhereClause>,
    updates: &Vec<(usize, DBValue)>,
) -> (r: Vec<(u32, u16, Tuple)>)
    requires
        forall|k: int| 0 <= k < rows@.len() ==> filter_fits(*where_clause, (#[trigger] rows@[k]).2@.len()),
        forall|k: int, j: int|
            0 <= k < rows@.len() && 0 <= j < updates@.len() ==> (#[trigger] updates@[j]).0 < (
            #[trigger] rows@[k]).2@.len(),
    ensures
        scanned(r@) == update_plan(scanned(rows@), *where_clause, updates_view(updates@)),
{
    let ghost ups = updates_view(updates@);
    let mut queue: Vec<(u32, u16, Tuple)> = Vec::new();
    let mut k: usize = 0;
    while k < rows.len()
        invariant
            ups == updates_view(updates@),
            forall|k: int| 0 <= k < rows@.len() ==> filter_fits(*where_clause, (#[trigger] rows@[k]).2@.len()),
            forall|k: int, j: int|
                0 <= k < rows@.len() && 0 <= j < updates@.len() ==> (#[trigger] updates@[j]).0 < (
                #[trigger] rows@[k]).2@.len(),
            0 <= k <= rows@.len(),
            scanned(queue@) == update_plan(scanned(rows@).take(k as int), *where_clause, ups),
        decreases rows@.len() - k,
    {
        let (page_id, offset, tuple) = &rows[k];
        proof {
            assert(scanned(rows@).take(k + 1).drop_last() =~= scanned(rows@).take(k as int));
            assert(scanned(rows@).take(k + 1).last() == (*page_id, *offset, tuple@));
            assert forall|j: int| 0 <= j < updates@.len() implies (#[trigger] updates@[j]).0 < tuple@.len() by {
                assert(rows@[k as int].2 == *tuple);
            }
        }
        let ghost prev = scanned(queue@);
        match update_row(tuple, where_clause, updates) {
            Some(new_tuple) => {
                let ghost nv = new_tuple@;
                queue.push((*page_id, *offset, new_tuple));
                proof {
                    assert(scanned(queue@) =~= prev + seq![(*page_id, *offset, nv)]);
                }
            },
            None => {
                proof {
                    assert(prev + Seq::<(u32, u16, Seq<ValueView>)>::empty() =~= prev);
                }
            },
        }
        k = k + 1;
    }
    assert(scanned(rows@).take(k as int) =~= scanned(rows@));
    queue
}

/// First phase of a DELETE: from the rows a scan gave, where the rows to
/// delete lie.
pub fn plan_delete(rows: &Vec<(u32, u16, Tuple)>, where_clause: &Option<WhereClause>) -> (r: Vec<(u32, u16)>)
    requires
        forall|k: int| 0 <= k < rows@.len() ==> filter_fits(*where_clause, (#[trigger] rows@[k]).2@.len()),
    ensures
        r@ == delete_plan(scanned(rows@), *where_clause),
{
    let mut queue: Vec<(u32, u16)> = Vec::new();
    let mut k: usize = 0;
    while k < rows.len()
        invariant
            forall|k: int| 0 <= k < rows@.len() ==> filter_fits(*where_clause, (#[trigger] rows@[k]).2@.len()),
            0 <= k <= rows@.len(),
            queue@ == delete_plan(scanned(rows@).take(k as int), *where_clause),
        decreases rows@.len() - k,
    {
        let (page_id, offset, tuple) = &rows[k];
        proof {
            assert(scanned(rows@).take(k + 1).drop_last() =~= scanned(rows@).take(k as int));
            assert(scanned(rows@).take(k + 1).last() == (*page_id, *offset, tuple@));
            assert(rows@[k as int].2 == *tuple);
        }
        let ghost prev = queue@;
        let keep = match where_clause {
            Some(c) => tuple_matches(tuple, c),
            None => true,
        };
        if keep {
            queue.push((*page_id, *offset));
            proof {
                assert(queue@ =~= prev + seq![(*page_id, *offset)]);
            }
        } else {
            proof {
                assert(prev + Seq::<(u32, u16)>::empty() =~= prev);
            }
        }
        k = k + 1;
    }
    assert(scanned(rows@).take(k as int) =~= scanned(rows@));
    queue
}

/// The positions of the named columns, in the order named; a name that no
/// column has is an execution error.
pub fn resolve_columns(table: &Table, names: &Vec<String>) -> (r: Result<Vec<usize>>)
    ensures
        r is Ok <==> forall|k: int| 0 <= k < names@.len() ==> column_named(table@, (#[trigger] names@[k])@) is Some,
        r matches Ok(v) ==> v@.len() == names@.len() && forall|k: int|
            0 <= k < names@.len() ==> column_named(table@, names@[k]@) == Some(#[trigger] v@[k] as int),
        r matches Err(e) ==> e is Execution,
{
    let mut out: Vec<usize> = Vec::new();
    let mut k: usize = 0;
    while k < names.len()
        invariant
            0 <= k <= names@.len(),
            out@.len() == k,
            forall|j: int| 0 <= j < k ==> column_named(table@, names@[j]@) == Some(#[trigger] out@[j] as int),
        decreases names@.len() - k,
    {
        match table.column_index(names[k].as_str()) {
            Some(i) => out.push(i),
            None => {
                let mut m = String::from_str("Column ");
                m.append(names[k].as_str());
                m.append(" does not exist");
                return Err(DBError::Execution(m));
            },
        }
        k = k + 1;
    }
    assert forall|j: int| 0 <= j < names@.len() implies column_named(table@, (#[trigger] names@[j])@) is Some by {
        assert(column_named(table@, names@[j]@) == Some(out@[j] as int));
    }
    Ok(out)
}

} // verus!
