use vstd::prelude::*;

use crate::errors::{execution_error, DBError, Result};
use crate::serializer::{BinaryReader, BinaryWriter};
use crate::table::Table;
use crate::values::{
    decode_value, encode_value, lemma_value_round_trip, saturate, type_of, value_fits, value_size,
    DBType, DBValue, ValueView,
};

verus! {

/// One row: values in the order of the table's columns.
#[derive(PartialEq, Debug, Clone)]
pub struct Tuple {
    pub values: Vec<DBValue>,
}

impl View for Tuple {
    type V = Seq<ValueView>;

    open spec fn view(&self) -> Seq<ValueView> {
        self.values@.map_values(|v: DBValue| v@)
    }
}

/// The bytes of a row: its values' bytes, one after the other.
pub open spec fn tuple_bytes(vs: Seq<ValueView>) -> Seq<u8>
    decreases vs.len(),
{
    if vs.len() == 0 {
        Seq::empty()
    } else {
        tuple_bytes(vs.drop_last()) + encode_value(vs.last())
    }
}

/// The serialized size of a row.
pub open spec fn tuple_size(vs: Seq<ValueView>) -> nat
    decreases vs.len(),
{
    if vs.len() == 0 {
        0
    } else {
        tuple_size(vs.drop_last()) + value_size(vs.last())
    }
}

/// The row has one value per column, each of the column's type.
pub open spec fn conforms(vs: Seq<ValueView>, schema: Seq<DBType>) -> bool {
    &&& vs.len() == schema.len()
    &&& forall|i: int| 0 <= i < vs.len() ==> type_of(#[trigger] vs[i]) == schema[i]
}

/// Every string of the row fits its length prefix.
pub open spec fn writable(vs: Seq<ValueView>) -> bool {
    forall|i: int| 0 <= i < vs.len() ==> value_fits(#[trigger] vs[i])
}

/// Reads one value per column of `schema`, in order, from the front of `b`.
pub open spec fn decode_tuple(schema: Seq<DBType>, b: Seq<u8>) -> Option<(Seq<ValueView>, nat)>
    decreases schema.len(),
{
    if schema.len() == 0 {
        Some((Seq::empty(), 0))
    } else {
        match decode_tuple(schema.drop_last(), b) {
            Some((vs, n)) => match decode_value(schema.last(), b.skip(n as int)) {
                Some((v, m)) => Some((vs.push(v), n + m)),
                None => None,
            },
            None => None,
        }
    }
}

pub proof fn lemma_tuple_size(vs: Seq<ValueView>)
    ensures
        tuple_bytes(vs).len() == tuple_size(vs),
    decreases vs.len(),
{
    if vs.len() > 0 {
        lemma_tuple_size(vs.drop_last());
    }
}

/// No value of a row is larger than the row.
pub proof fn lemma_value_within_tuple(vs: Seq<ValueView>, i: int)
    requires
        0 <= i < vs.len(),
    ensures
        value_size(vs[i]) <= tuple_size(vs),
    decreases vs.len(),
{
    if i < vs.len() - 1 {
        lemma_value_within_tuple(vs.drop_last(), i);
    }
}

/// A row no larger than `u32::MAX` bytes can be written.
pub proof fn lemma_small_tuple_writable(vs: Seq<ValueView>)
    requires
        tuple_size(vs) <= u32::MAX,
    ensures
        writable(vs),
{
    assert forall|i: int| 0 <= i < vs.len() implies value_fits(#[trigger] vs[i]) by {
        lemma_value_within_tuple(vs, i);
    }
}

/// Reading a row of schema `schema` from the bytes written for a conforming
/// row gives that row back, whatever bytes follow.
pub proof fn lemma_tuple_round_trip(vs: Seq<ValueView>, schema: Seq<DBType>, rest: Seq<u8>)
    requires
        conforms(vs, schema),
        writable(vs),
    ensures
        decode_tuple(schema, tuple_bytes(vs) + rest) == Some((vs, tuple_bytes(vs).len())),
    decreases vs.len(),
{
    if vs.len() > 0 {
        let init = vs.drop_last();
        let last = vs.last();
        assert(conforms(init, schema.drop_last()));
        assert(writable(init));
        let tail = encode_value(last) + rest;
        assert(tuple_bytes(vs) + rest =~= tuple_bytes(init) + tail);
        lemma_tuple_round_trip(init, schema.drop_last(), tail);
        assert((tuple_bytes(init) + tail).skip(tuple_bytes(init).len() as int) =~= tail);
        assert(value_fits(vs[vs.len() - 1]));
        lemma_value_round_trip(last, rest);
        assert(init.push(last) =~= vs);
    }
}

impl Tuple {
    pub fn new(values: Vec<DBValue>) -> (t: Self)
        ensures
            t.values == values,
    {
        Tuple { values }
    }

    pub fn values(&self) -> (r: &[DBValue])
        ensures
            r@ == self.values@,
    {
        self.values.as_slice()
    }

    pub fn into_values(self) -> (r: Vec<DBValue>)
        ensures
            r == self.values,
    {
        self.values
    }

    /// A copy with the same values.
    pub fn clone_tuple(&self) -> (r: Self)
        ensures
            r@ == self@,
    {
        let mut values: Vec<DBValue> = Vec::new();
        let mut i: usize = 0;
        while i < self.values.len()
            invariant
                0 <= i <= self.values@.len(),
                values@.map_values(|v: DBValue| v@) == self@.take(i as int),
            decreases self.values@.len() - i,
        {
            let ghost prev = values@.map_values(|v: DBValue| v@);
            values.push(self.values[i].clone_value());
            proof {
                assert(values@.map_values(|v: DBValue| v@) =~= prev.push(self@[i as int]));
                assert(self@.take(i + 1) =~= self@.take(i as int).push(self@[i as int]));
            }
            i = i + 1;
        }
        assert(self@.take(i as int) =~= self@);
        Tuple { values }
    }

    /// The serialized size: the sum of the values' sizes (`usize::MAX` if that
    /// does not fit).
    pub fn size(&self) -> (n: usize)
        ensures
            n == saturate(tuple_size(self@)),
    {
        let mut total: usize = 0;
        let mut i: usize = 0;
        while i < self.values.len()
            invariant
                0 <= i <= self.values@.len(),
                total == saturate(tuple_size(self@.take(i as int))),
            decreases self.values@.len() - i,
        {
            let n = self.values[i].len();
            proof {
                assert(self@.take(i + 1).drop_last() =~= self@.take(i as int));
                assert(self@.take(i + 1).last() == self@[i as int]);
            }
            total = total.saturating_add(n);
            i = i + 1;
        }
        assert(self@.take(i as int) =~= self@);
        total
    }

    /// Reads one value per column of `table`, in order.
    pub fn read(table: &Table, reader: &mut BinaryReader) -> (r: Result<Self>)
        requires
            old(reader).wf(),
        ensures
            final(reader).wf(),
            r is Ok <==> decode_tuple(table@.schema(), old(reader).rest()) is Some,
            r matches Ok(t) ==> decode_tuple(table@.schema(), old(reader).rest()) == Some((t@, (
            decode_tuple(table@.schema(), old(reader).rest())->0).1)) && final(reader).rest() == old(
                reader,
            ).rest().skip((decode_tuple(table@.schema(), old(reader).rest())->0).1 as int),
            r matches Err(e) ==> e is IO,
    {
        let ghost b = reader.rest();
        let ghost schema = table@.schema();
        let columns = table.columns();
        let mut values: Vec<DBValue> = Vec::new();
        let mut i: usize = 0;
        let ghost mut used: nat = 0;
        while i < columns.len()
            invariant
                reader.wf(),
                b == old(reader).rest(),
                schema == table@.schema(),
                columns@.map_values(|c: crate::table::ColumnDef| c@) == table@.columns,
                0 <= i <= columns@.len(),
                decode_tuple(schema.take(i as int), b) == Some((values@.map_values(|v: DBValue| v@), used)),
                used <= b.len(),
                reader.rest() == b.skip(used as int),
            decreases columns@.len() - i,
        {
            let ghost before = reader.rest();
            let dtype = columns[i].dtype();
            proof {
                assert(dtype == schema[i as int]);
                assert(schema.take(i + 1).drop_last() =~= schema.take(i as int));
                assert(schema.take(i + 1).last() == schema[i as int]);
            }
            let v = match DBValue::from_reader(reader, dtype) {
                Ok(v) => v,
                Err(e) => {
                    proof {
                        lemma_decode_tuple_stays_none(schema, (i + 1) as nat, b);
                    }
                    return Err(e);
                },
            };
            proof {
                let m = (decode_value(dtype, before)->0).1;
                assert(b.skip(used as int).skip(m as int) =~= b.skip((used + m) as int));
                used = used + m;
            }
            let ghost prev = values@.map_values(|v: DBValue| v@);
            let ghost vv = v@;
            values.push(v);
            i = i + 1;
            proof {
                assert(values@.map_values(|v: DBValue| v@) =~= prev.push(vv));
            }
        }
        assert(schema.take(i as int) =~= schema);
        Ok(Tuple { values })
    }

    /// Writes the row under `table`'s schema; a row whose length or value
    /// types do not match the columns is refused and nothing is written.
    pub fn write(&self, table: &Table, writer: &mut BinaryWriter) -> (r: Result<()>)
        requires
            writable(self@),
        ensures
            r is Ok <==> conforms(self@, table@.schema()),
            r is Ok ==> final(writer)@ == old(writer)@ + tuple_bytes(self@),
            r is Err ==> final(writer)@ == old(writer)@,
            r matches Err(e) ==> e is Execution,
    {
        if !self.conforms_to(table) {
            return Err(execution_error("Tuple write error: tuple does not match the table's columns"));
        }
        let mut i: usize = 0;
        while i < self.values.len()
            invariant
                writable(self@),
                0 <= i <= self.values@.len(),
                writer@ == old(writer)@ + tuple_bytes(self@.take(i as int)),
            decreases self.values@.len() - i,
        {
            proof {
                assert(value_fits(self@[i as int]));
                assert(self@.take(i + 1).drop_last() =~= self@.take(i as int));
                assert(self@.take(i + 1).last() == self@[i as int]);
            }
            self.values[i].write(writer);
            i = i + 1;
        }
        assert(self@.take(i as int) =~= self@);
        Ok(())
    }

    /// True when the row has one value per column of `table`, each of the
    /// column's type.
    pub fn conforms_to(&self, table: &Table) -> (r: bool)
        ensures
            r == conforms(self@, table@.schema()),
    {
        let columns = table.columns();
        if self.values.len() != columns.len() {
            return false;
        }
        let mut i: usize = 0;
        while i < self.values.len()
            invariant
                columns@.map_values(|c: crate::table::ColumnDef| c@) == table@.columns,
                self.values@.len() == columns@.len(),
                0 <= i <= self.values@.len(),
                forall|j: int| 0 <= j < i ==> type_of(#[trigger] self@[j]) == table@.schema()[j],
            decreases self.values@.len() - i,
        {
            proof {
                assert(table@.columns[i as int] == columns@[i as int]@);
                assert(table@.schema()[i as int] == columns@[i as int]@.dtype);
                assert(self@[i as int] == self.values@[i as int]@);
            }
            if self.values[i].dtype() != columns[i].dtype() {
                return false;
            }
            i = i + 1;
        }
        true
    }
}

proof fn lemma_decode_tuple_stays_none(schema: Seq<DBType>, n: nat, b: Seq<u8>)
    requires
        n <= schema.len(),
        decode_tuple(schema.take(n as int), b) is None,
    ensures
        decode_tuple(schema, b) is None,
    decreases schema.len() - n,
{
    if n < schema.len() {
        assert(schema.take((n + 1) as int).drop_last() =~= schema.take(n as int));
        lemma_decode_tuple_stays_none(schema, n + 1, b);
    } else {
        assert(schema.take(n as int) =~= schema);
    }
}

} // verus!
