use vstd::prelude::*;

use crate::errors::{
    fails_execution, fails_integrity, fails_with, integrity_error, io_error, DBError, IoErrorKind,
    Result,
};
use crate::serializer::{
    be_u16, be_u32, bool_byte, lemma_u16_round_trip, lemma_u32_round_trip,
    u16_of, u32_of, BinaryReader, BinaryWriter,
};
use crate::table::Table;
use crate::tuple::{
    conforms, decode_tuple, lemma_small_tuple_writable, lemma_tuple_round_trip, lemma_tuple_size,
    tuple_bytes, tuple_size, Tuple,
};
use crate::values::{saturate, DBType, ValueView};

verus! {

/// Size of a page on disk.
pub const PAGE_SIZE: usize = 8192;

/// Size of the page header: id, free-space end, dead space.
pub const PAGE_HEADER_SIZE: usize = 8;

/// Size of a page's slot region.
pub const PAGE_DATA_SIZE: usize = 8184;

/// Size of a slot header: the alive flag and the payload length.
pub const TUPLE_HEADER_SIZE: usize = 3;

/// One slot of a page: where it starts in the slot region, whether it holds a
/// live row, and its payload capacity.
pub struct Slot {
    pub offset: int,
    pub alive: bool,
    pub len: nat,
}

/// The slot header stored at `off`: alive flag and payload length.
pub open spec fn header_at(data: Seq<u8>, off: int) -> (bool, nat) {
    (data[off] != 0, u16_of(data.skip(off + 1)) as nat)
}

/// The bytes of a slot header.
pub open spec fn header_bytes(alive: bool, len: u16) -> Seq<u8> {
    seq![bool_byte(alive)] + be_u16(len)
}

/// The slots found by walking from `off` to `end`, each header telling how far
/// the next slot is; `None` unless the walk lands exactly on `end`.
pub open spec fn slots_from(data: Seq<u8>, off: int, end: int) -> Option<Seq<Slot>>
    decreases end - off,
{
    if off >= end {
        if off == end {
            Some(Seq::empty())
        } else {
            None
        }
    } else if off + 3 > end {
        None
    } else {
        let h = header_at(data, off);
        let next = off + 3 + h.1;
        if next > end {
            None
        } else {
            match slots_from(data, next, end) {
                Some(rest) => Some(seq![Slot { offset: off, alive: h.0, len: h.1 }] + rest),
                None => None,
            }
        }
    }
}

/// Bytes held by tombstoned slots, headers included.
pub open spec fn dead_bytes(s: Seq<Slot>) -> nat
    decreases s.len(),
{
    if s.len() == 0 {
        0
    } else {
        (if s[0].alive {
            0
        } else {
            3 + s[0].len
        }) + dead_bytes(s.drop_first())
    }
}

/// A live row as iteration yields it: the slot's offset, and the row read
/// from the slot's payload (`None` if the payload cannot be read).
pub struct RowView {
    pub offset: int,
    pub tuple: Option<Seq<ValueView>>,
}

/// The payload bytes of a slot.
pub open spec fn payload(data: Seq<u8>, s: Slot) -> Seq<u8> {
    data.subrange(s.offset + 3, s.offset + 3 + s.len)
}

pub open spec fn row_of(data: Seq<u8>, schema: Seq<DBType>, s: Slot) -> RowView {
    RowView {
        offset: s.offset,
        tuple: match decode_tuple(schema, payload(data, s)) {
            Some((vs, _)) => Some(vs),
            None => None,
        },
    }
}

/// The rows of the live slots among `s`, in slot order.
pub open spec fn rows_of(data: Seq<u8>, schema: Seq<DBType>, s: Seq<Slot>) -> Seq<RowView>
    decreases s.len(),
{
    if s.len() == 0 {
        Seq::empty()
    } else {
        (if s[0].alive {
            seq![row_of(data, schema, s[0])]
        } else {
            Seq::empty()
        }) + rows_of(data, schema, s.drop_first())
    }
}

/// `data` with `bytes` written over it from `at` on.
pub open spec fn splice(data: Seq<u8>, at: int, bytes: Seq<u8>) -> Seq<u8> {
    data.take(at) + bytes + data.skip(at + bytes.len())
}

/// The content of a page.
pub struct PageView {
    pub id: u32,
    pub free_space_end: nat,
    pub dead_space: nat,
    pub data: Seq<u8>,
    pub schema: Seq<DBType>,
}

impl PageView {
    /// The page's slots, in order of offset.
    pub open spec fn slots(self) -> Seq<Slot> {
        match slots_from(self.data, 0, self.free_space_end as int) {
            Some(s) => s,
            None => Seq::empty(),
        }
    }

    /// The slot region is fully allocated up to `free_space_end` as a chain of
    /// slots, and `dead_space` counts the bytes of the tombstoned ones.
    pub open spec fn wf(self) -> bool {
        &&& self.data.len() == PAGE_DATA_SIZE
        &&& self.free_space_end <= PAGE_DATA_SIZE
        &&& slots_from(self.data, 0, self.free_space_end as int) is Some
        &&& self.dead_space == dead_bytes(self.slots())
    }

    /// What iterating the page yields.
    pub open spec fn rows(self) -> Seq<RowView> {
        rows_of(self.data, self.schema, self.slots())
    }

    pub open spec fn free_space(self) -> int {
        PAGE_DATA_SIZE - self.free_space_end
    }

    /// A tuple of this size fits in the free space with its slot header.
    pub open spec fn can_fit(self, size: nat) -> bool {
        3 + size <= self.free_space()
    }

    /// `o` is where one of the page's slots starts.
    pub open spec fn is_slot(self, o: int) -> bool {
        exists|k: int| 0 <= k < self.slots().len() && #[trigger] self.slots()[k].offset == o
    }

    /// `o` is where a live slot starts.
    pub open spec fn is_live_slot(self, o: int) -> bool {
        self.is_slot(o) && header_at(self.data, o).0
    }

    /// The payload capacity of the slot at `o`.
    pub open spec fn slot_len(self, o: int) -> nat {
        header_at(self.data, o).1
    }

    /// The index of the slot that starts at `o`.
    pub open spec fn slot_index(self, o: int) -> int {
        choose|k: int| 0 <= k < self.slots().len() && #[trigger] self.slots()[k].offset == o
    }

    /// The rows of the slots before the one at `o`.
    pub open spec fn rows_before(self, o: int) -> Seq<RowView> {
        rows_of(self.data, self.schema, self.slots().take(self.slot_index(o)))
    }

    /// The rows of the slots after the one at `o`.
    pub open spec fn rows_after(self, o: int) -> Seq<RowView> {
        rows_of(self.data, self.schema, self.slots().skip(self.slot_index(o) + 1))
    }

    /// The page after appending a live slot holding `vs` at the free-space end.
    pub open spec fn insert(self, vs: Seq<ValueView>) -> PageView {
        let n = tuple_size(vs);
        PageView {
            free_space_end: self.free_space_end + 3 + n,
            data: splice(
                self.data,
                self.free_space_end as int,
                header_bytes(true, n as u16) + tuple_bytes(vs),
            ),
            ..self
        }
    }

    /// The page after tombstoning the slot at `o`.
    pub open spec fn mark_dead(self, o: int) -> PageView {
        PageView {
            dead_space: self.dead_space + 3 + self.slot_len(o),
            data: self.data.update(o, 0),
            ..self
        }
    }

    /// The page after writing `vs` over the payload of the slot at `o`.
    pub open spec fn overwrite(self, o: int, vs: Seq<ValueView>) -> PageView {
        PageView { data: splice(self.data, o + 3, tuple_bytes(vs)), ..self }
    }
}

// ----- facts about the slot walk -----

/// What a successful walk says about each slot it found.
pub proof fn lemma_walk_facts(data: Seq<u8>, off: int, end: int)
    requires
        slots_from(data, off, end) is Some,
    ensures
        ({
            let s = slots_from(data, off, end)->0;
            &&& off <= end
            &&& s.len() <= end - off
            &&& s.len() == 0 <==> off == end
            &&& s.len() > 0 ==> s[0].offset == off
            &&& forall|i: int|
                0 <= i < s.len() ==> off <= #[trigger] s[i].offset && s[i].offset + 3 + s[i].len <= end
                    && header_at(data, s[i].offset) == (s[i].alive, s[i].len)
            &&& forall|i: int, j: int|
                0 <= i < j < s.len() ==> #[trigger] s[i].offset + 3 + s[i].len <= #[trigger] s[j].offset
            &&& forall|i: int, j: int|
                0 <= i && j == i + 1 && j < s.len() ==> #[trigger] s[j].offset == #[trigger] s[i].offset + 3
                    + s[i].len
            &&& s.len() > 0 ==> s.last().offset + 3 + s.last().len == end
        }),
    decreases end - off,
{
    if off < end {
        let h = header_at(data, off);
        let next = off + 3 + h.1;
        lemma_walk_facts(data, next, end);
        let rest = slots_from(data, next, end)->0;
        let x = Slot { offset: off, alive: h.0, len: h.1 };
        let s = seq![x] + rest;
        assert(slots_from(data, off, end)->0 == s);
        assert forall|i: int| 0 <= i < s.len() implies off <= #[trigger] s[i].offset && s[i].offset + 3
            + s[i].len <= end && header_at(data, s[i].offset) == (s[i].alive, s[i].len) by {
            if i > 0 {
                assert(s[i] == rest[i - 1]);
            }
        }
        assert forall|i: int, j: int| 0 <= i < j < s.len() implies #[trigger] s[i].offset + 3 + s[i].len
            <= #[trigger] s[j].offset by {
            assert(s[j] == rest[j - 1]);
            if i > 0 {
                assert(s[i] == rest[i - 1]);
            } else {
                assert(next <= rest[j - 1].offset);
            }
        }
        assert forall|i: int, j: int| 0 <= i && j == i + 1 && j < s.len() implies #[trigger] s[j].offset
            == #[trigger] s[i].offset + 3 + s[i].len by {
            assert(s[j] == rest[j - 1]);
            if i > 0 {
                assert(s[i] == rest[i - 1]);
            } else {
                assert(s[0] == x);
                assert(rest.len() > 0);
                assert(rest[0].offset == next);
            }
        }
        if rest.len() > 0 {
            assert(s.last() == rest.last());
        }
    }
}

/// A walk over other bytes finds the same slots, with alive flags that may
/// differ, as long as the headers agree on every slot's length and on the
/// new flags.
pub proof fn lemma_same_walk(data: Seq<u8>, data2: Seq<u8>, off: int, end: int, t: Seq<Slot>)
    requires
        slots_from(data, off, end) is Some,
        t.len() == (slots_from(data, off, end)->0).len(),
        forall|i: int|
            0 <= i < t.len() ==> #[trigger] t[i].offset == (slots_from(data, off, end)->0)[i].offset
                && t[i].len == (slots_from(data, off, end)->0)[i].len,
        forall|i: int| 0 <= i < t.len() ==> header_at(data2, #[trigger] t[i].offset) == (t[i].alive, t[i].len),
    ensures
        slots_from(data2, off, end) == Some(t),
    decreases end - off,
{
    let s = slots_from(data, off, end)->0;
    lemma_walk_facts(data, off, end);
    if off < end {
        let h = header_at(data, off);
        let next = off + 3 + h.1;
        let rest = slots_from(data, next, end)->0;
        assert(s == seq![Slot { offset: off, alive: h.0, len: h.1 }] + rest);
        let t2 = t.drop_first();
        assert forall|i: int| 0 <= i < t2.len() implies #[trigger] t2[i].offset == rest[i].offset
            && t2[i].len == rest[i].len by {
            assert(t2[i] == t[i + 1]);
            assert(rest[i] == s[i + 1]);
        }
        assert forall|i: int| 0 <= i < t2.len() implies header_at(data2, #[trigger] t2[i].offset) == (
        t2[i].alive, t2[i].len) by {
            assert(t2[i] == t[i + 1]);
        }
        lemma_same_walk(data, data2, next, end, t2);
        assert(t[0].offset == off);
        assert(header_at(data2, off) == (t[0].alive, t[0].len));
        assert(t =~= seq![t[0]] + t2);
    } else {
        assert(t =~= Seq::<Slot>::empty());
    }
}

/// A walk that ended at `end` extends by one slot whose header is written there.
pub proof fn lemma_walk_append(data: Seq<u8>, data2: Seq<u8>, off: int, end: int, alive: bool, len: nat)
    requires
        slots_from(data, off, end) is Some,
        0 <= off,
        end <= data.len(),
        end + 3 <= data2.len(),
        forall|i: int| off <= i < end ==> data2[i] == data[i],
        header_at(data2, end) == (alive, len),
    ensures
        slots_from(data2, off, end + 3 + len) == Some(
            (slots_from(data, off, end)->0).push(Slot { offset: end, alive, len }),
        ),
    decreases end - off,
{
    let s = slots_from(data, off, end)->0;
    let e2 = end + 3 + len;
    lemma_walk_facts(data, off, end);
    if off < end {
        let h = header_at(data, off);
        assert(data2[off + 1] == data[off + 1]);
        assert(data2[off + 2] == data[off + 2]);
        assert(data2.skip(off + 1)[0] == data.skip(off + 1)[0]);
        assert(data2.skip(off + 1)[1] == data.skip(off + 1)[1]);
        assert(header_at(data2, off) == h);
        let next = off + 3 + h.1;
        lemma_walk_append(data, data2, next, end, alive, len);
        let rest = slots_from(data, next, end)->0;
        assert(s == seq![Slot { offset: off, alive: h.0, len: h.1 }] + rest);
        assert(s.push(Slot { offset: end, alive, len }) =~= seq![Slot { offset: off, alive: h.0, len: h.1 }]
            + rest.push(Slot { offset: end, alive, len }));
    } else {
        assert(slots_from(data2, e2, e2) == Some(Seq::<Slot>::empty()));
        assert(s.push(Slot { offset: end, alive, len }) =~= seq![Slot { offset: end, alive, len }] + Seq::<
            Slot,
        >::empty());
    }
}

/// Tombstoned slots take no more room than the walk covers.
pub proof fn lemma_dead_bytes_bound(data: Seq<u8>, off: int, end: int)
    requires
        slots_from(data, off, end) is Some,
    ensures
        dead_bytes(slots_from(data, off, end)->0) <= end - off,
    decreases end - off,
{
    if off < end {
        let h = header_at(data, off);
        let next = off + 3 + h.1;
        lemma_dead_bytes_bound(data, next, end);
        let rest = slots_from(data, next, end)->0;
        let s = seq![Slot { offset: off, alive: h.0, len: h.1 }] + rest;
        assert(s.drop_first() =~= rest);
    }
}

pub proof fn lemma_dead_bytes_concat(a: Seq<Slot>, b: Seq<Slot>)
    ensures
        dead_bytes(a + b) == dead_bytes(a) + dead_bytes(b),
    decreases a.len(),
{
    if a.len() > 0 {
        lemma_dead_bytes_concat(a.drop_first(), b);
        assert((a + b).drop_first() =~= a.drop_first() + b);
    } else {
        assert(a + b =~= b);
    }
}

pub proof fn lemma_rows_concat(data: Seq<u8>, schema: Seq<DBType>, a: Seq<Slot>, b: Seq<Slot>)
    ensures
        rows_of(data, schema, a + b) == rows_of(data, schema, a) + rows_of(data, schema, b),
    decreases a.len(),
{
    if a.len() > 0 {
        lemma_rows_concat(data, schema, a.drop_first(), b);
        assert((a + b).drop_first() =~= a.drop_first() + b);
        assert((a + b)[0] == a[0]);
        assert(rows_of(data, schema, a + b) =~= rows_of(data, schema, a) + rows_of(data, schema, b));
    } else {
        assert(a + b =~= b);
        assert(rows_of(data, schema, a) + rows_of(data, schema, b) =~= rows_of(data, schema, b));
    }
}

/// Rows read through other bytes are the same when every slot's payload is.
pub proof fn lemma_rows_frame(data: Seq<u8>, data2: Seq<u8>, schema: Seq<DBType>, s: Seq<Slot>)
    requires
        forall|i: int| 0 <= i < s.len() ==> payload(data2, #[trigger] s[i]) == payload(data, s[i]),
    ensures
        rows_of(data2, schema, s) == rows_of(data, schema, s),
    decreases s.len(),
{
    if s.len() > 0 {
        assert forall|i: int| 0 <= i < s.drop_first().len() implies payload(
            data2,
            #[trigger] s.drop_first()[i],
        ) == payload(data, s.drop_first()[i]) by {
            assert(s.drop_first()[i] == s[i + 1]);
        }
        lemma_rows_frame(data, data2, schema, s.drop_first());
        assert(payload(data2, s[0]) == payload(data, s[0]));
    }
}

pub proof fn lemma_rows_dead_single(data: Seq<u8>, schema: Seq<DBType>, x: Slot)
    requires
        !x.alive,
    ensures
        rows_of(data, schema, seq![x]) == Seq::<RowView>::empty(),
{
    let e = seq![x].drop_first();
    assert(e =~= Seq::<Slot>::empty());
    assert(rows_of(data, schema, e) =~= Seq::<RowView>::empty());
    assert(rows_of(data, schema, seq![x]) =~= Seq::<RowView>::empty());
}

pub proof fn lemma_rows_live_single(data: Seq<u8>, schema: Seq<DBType>, x: Slot)
    requires
        x.alive,
    ensures
        rows_of(data, schema, seq![x]) == seq![row_of(data, schema, x)],
{
    let e = seq![x].drop_first();
    assert(e =~= Seq::<Slot>::empty());
    assert(rows_of(data, schema, e) =~= Seq::<RowView>::empty());
    assert(rows_of(data, schema, seq![x]) =~= seq![row_of(data, schema, x)]);
}

pub proof fn lemma_dead_bytes_single(x: Slot)
    ensures
        dead_bytes(seq![x]) == if x.alive {
            0
        } else {
            3 + x.len
        },
{
    let e = seq![x].drop_first();
    assert(e =~= Seq::<Slot>::empty());
    assert(dead_bytes(e) == 0);
}


/// Inserting a conforming row that fits appends one live slot, whose row is
/// the inserted one, after the rows already there.
#[verifier::rlimit(50)]
pub proof fn lemma_insert_effect(p: PageView, vs: Seq<ValueView>)
    requires
        p.wf(),
        p.can_fit(tuple_size(vs)),
        conforms(vs, p.schema),
    ensures
        p.insert(vs).wf(),
        p.insert(vs).slots() == p.slots().push(
            Slot { offset: p.free_space_end as int, alive: true, len: tuple_size(vs) },
        ),
        p.insert(vs).rows() == p.rows().push(RowView { offset: p.free_space_end as int, tuple: Some(vs) }),
        forall|i: int|
            0 <= i < p.slots().len() ==> payload(p.insert(vs).data, #[trigger] p.slots()[i]) == payload(
                p.data,
                p.slots()[i],
            ),
        row_of(
            p.insert(vs).data,
            p.schema,
            Slot { offset: p.free_space_end as int, alive: true, len: tuple_size(vs) },
        ) == (RowView { offset: p.free_space_end as int, tuple: Some(vs) }),
{
    let n = tuple_size(vs);
    let fse = p.free_space_end as int;
    let q = p.insert(vs);
    let s = p.slots();
    let x = Slot { offset: fse, alive: true, len: n };
    lemma_tuple_size(vs);
    lemma_small_tuple_writable(vs);
    let tb = tuple_bytes(vs);
    let hb = header_bytes(true, n as u16);
    let d2 = q.data;
    assert(d2.len() == PAGE_DATA_SIZE);
    assert forall|i: int| 0 <= i < fse implies d2[i] == p.data[i] by {}
    assert(d2[fse] == 1);
    assert(d2.skip(fse + 1).take(2) =~= be_u16(n as u16));
    lemma_u16_round_trip(n as u16);
    assert(u16_of(d2.skip(fse + 1)) == u16_of(be_u16(n as u16)));
    assert(header_at(d2, fse) == (true, n));
    lemma_walk_facts(p.data, 0, fse);
    lemma_walk_append(p.data, d2, 0, fse, true, n);
    assert(q.slots() == s.push(x));
    lemma_dead_bytes_concat(s, seq![x]);
    lemma_dead_bytes_single(x);
    assert(s.push(x) == s + seq![x]);
    lemma_rows_concat(d2, p.schema, s, seq![x]);
    assert forall|i: int| 0 <= i < s.len() implies payload(d2, #[trigger] s[i]) == payload(p.data, s[i]) by {
        assert(payload(d2, s[i]) =~= payload(p.data, s[i]));
    }
    lemma_rows_frame(p.data, d2, p.schema, s);
    lemma_rows_live_single(d2, p.schema, x);
    assert(payload(d2, x) =~= tb + Seq::<u8>::empty());
    lemma_tuple_round_trip(vs, p.schema, Seq::<u8>::empty());
    assert(row_of(d2, p.schema, x) == RowView { offset: fse, tuple: Some(vs) });
}

/// The slot index of an offset is the one slot that starts there.
pub proof fn lemma_slot_index(p: PageView, k: int)
    requires
        p.wf(),
        0 <= k < p.slots().len(),
    ensures
        p.slot_index(p.slots()[k].offset) == k,
        p.is_slot(p.slots()[k].offset),
{
    let s = p.slots();
    lemma_walk_facts(p.data, 0, p.free_space_end as int);
    let o = s[k].offset;
    assert(0 <= k < s.len() && s[k].offset == o);
    let j = p.slot_index(o);
    if j < k {
        assert(s[j].offset + 3 + s[j].len <= s[k].offset);
    } else if j > k {
        assert(s[k].offset + 3 + s[k].len <= s[j].offset);
    }
}

/// The rows of a page around one live slot.
pub proof fn lemma_rows_split(data: Seq<u8>, schema: Seq<DBType>, s: Seq<Slot>, k: int)
    requires
        0 <= k < s.len(),
    ensures
        rows_of(data, schema, s) == rows_of(data, schema, s.take(k)) + rows_of(data, schema, seq![s[k]])
            + rows_of(data, schema, s.skip(k + 1)),
        dead_bytes(s) == dead_bytes(s.take(k)) + dead_bytes(seq![s[k]]) + dead_bytes(s.skip(k + 1)),
{
    assert(s =~= s.take(k) + (seq![s[k]] + s.skip(k + 1)));
    lemma_rows_concat(data, schema, s.take(k), seq![s[k]] + s.skip(k + 1));
    lemma_rows_concat(data, schema, seq![s[k]], s.skip(k + 1));
    lemma_dead_bytes_concat(s.take(k), seq![s[k]] + s.skip(k + 1));
    lemma_dead_bytes_concat(seq![s[k]], s.skip(k + 1));
}

/// Tombstoning a live slot keeps every slot in place and removes exactly
/// that slot's row, the others keeping their order.
#[verifier::rlimit(50)]
pub proof fn lemma_mark_dead_effect(p: PageView, k: int)
    requires
        p.wf(),
        0 <= k < p.slots().len(),
        p.slots()[k].alive,
    ensures
        ({
            let o = p.slots()[k].offset;
            let q = p.mark_dead(o);
            &&& q.wf()
            &&& q.slots() == p.slots().update(k, Slot { alive: false, ..p.slots()[k] })
            &&& p.rows() == p.rows_before(o) + seq![row_of(p.data, p.schema, p.slots()[k])] + p.rows_after(o)
            &&& q.rows() == p.rows_before(o) + p.rows_after(o)
            &&& forall|i: int|
                0 <= i < p.slots().len() ==> payload(q.data, #[trigger] p.slots()[i]) == payload(
                    p.data,
                    p.slots()[i],
                )
        }),
{
    let s = p.slots();
    let fse = p.free_space_end as int;
    let o = s[k].offset;
    let x = s[k];
    let y = Slot { alive: false, ..x };
    let t = s.update(k, y);
    let q = p.mark_dead(o);
    let d2 = q.data;
    lemma_walk_facts(p.data, 0, fse);
    lemma_slot_index(p, k);
    assert(p.slot_len(o) == x.len);
    assert forall|i: int| 0 <= i < t.len() implies header_at(d2, #[trigger] t[i].offset) == (
    t[i].alive, t[i].len) by {
        let off = s[i].offset;
        if i == k {
            assert(d2.skip(o + 1) =~= p.data.skip(o + 1));
        } else {
            if i < k {
                assert(off + 3 + s[i].len <= o);
            } else {
                assert(o + 3 + x.len <= off);
            }
            assert(d2.skip(off + 1)[0] == p.data.skip(off + 1)[0]);
            assert(d2.skip(off + 1)[1] == p.data.skip(off + 1)[1]);
        }
    }
    lemma_same_walk(p.data, d2, 0, fse, t);
    assert(q.slots() == t);
    lemma_rows_split(p.data, p.schema, s, k);
    lemma_rows_split(d2, p.schema, t, k);
    assert(t.take(k) =~= s.take(k));
    assert(t.skip(k + 1) =~= s.skip(k + 1));
    lemma_dead_bytes_single(x);
    lemma_dead_bytes_single(y);
    lemma_rows_live_single(p.data, p.schema, x);
    lemma_rows_dead_single(d2, p.schema, y);
    assert forall|i: int| 0 <= i < s.len() implies payload(d2, #[trigger] s[i]) == payload(p.data, s[i]) by {
        if i < k {
            assert(s[i].offset + 3 + s[i].len <= o);
        } else if i > k {
            assert(o + 3 + x.len <= s[i].offset);
        }
        assert(payload(d2, s[i]) =~= payload(p.data, s[i]));
    }
    assert forall|i: int| 0 <= i < s.take(k).len() implies payload(d2, #[trigger] s.take(k)[i]) == payload(
        p.data,
        s.take(k)[i],
    ) by {
        assert(s.take(k)[i] == s[i]);
    }
    assert forall|i: int| 0 <= i < s.skip(k + 1).len() implies payload(d2, #[trigger] s.skip(k + 1)[i])
        == payload(p.data, s.skip(k + 1)[i]) by {
        assert(s.skip(k + 1)[i] == s[i + k + 1]);
    }
    lemma_rows_frame(p.data, d2, p.schema, s.take(k));
    lemma_rows_frame(p.data, d2, p.schema, s.skip(k + 1));
    assert(q.rows() =~= p.rows_before(o) + p.rows_after(o));
}

/// Writing a conforming row over the payload of a live slot that can hold it
/// keeps every slot in place and replaces that slot's row by the new one.
#[verifier::rlimit(50)]
pub proof fn lemma_overwrite_effect(p: PageView, k: int, vs: Seq<ValueView>)
    requires
        p.wf(),
        0 <= k < p.slots().len(),
        p.slots()[k].alive,
        conforms(vs, p.schema),
        tuple_size(vs) <= p.slots()[k].len,
    ensures
        ({
            let o = p.slots()[k].offset;
            let q = p.overwrite(o, vs);
            &&& q.wf()
            &&& q.slots() == p.slots()
            &&& q.rows() == p.rows_before(o) + seq![RowView { offset: o, tuple: Some(vs) }] + p.rows_after(o)
            &&& row_of(q.data, q.schema, p.slots()[k]).tuple == Some(vs)
            &&& forall|i: int|
                0 <= i < p.slots().len() && i != k ==> payload(q.data, #[trigger] p.slots()[i]) == payload(
                    p.data,
                    p.slots()[i],
                )
        }),
{
    let s = p.slots();
    let fse = p.free_space_end as int;
    let x = s[k];
    let o = x.offset;
    let q = p.overwrite(o, vs);
    let d2 = q.data;
    lemma_walk_facts(p.data, 0, fse);
    lemma_slot_index(p, k);
    lemma_tuple_size(vs);
    lemma_small_tuple_writable(vs);
    let tb = tuple_bytes(vs);
    let lo = o + 3;
    let hi = o + 3 + tb.len();
    assert(d2.len() == p.data.len());
    assert forall|i: int| 0 <= i < d2.len() && !(lo <= i < hi) implies d2[i] == p.data[i] by {}
    assert forall|i: int| 0 <= i < s.len() implies header_at(d2, #[trigger] s[i].offset) == (
    s[i].alive, s[i].len) by {
        let off = s[i].offset;
        if i < k {
            assert(off + 3 + s[i].len <= o);
        } else if i > k {
            assert(o + 3 + x.len <= off);
        }
        assert(d2[off] == p.data[off]);
        assert(d2.skip(off + 1)[0] == p.data.skip(off + 1)[0]);
        assert(d2.skip(off + 1)[1] == p.data.skip(off + 1)[1]);
    }
    lemma_same_walk(p.data, d2, 0, fse, s);
    lemma_rows_split(p.data, p.schema, s, k);
    lemma_rows_split(d2, p.schema, s, k);
    assert forall|i: int| 0 <= i < s.take(k).len() implies payload(d2, #[trigger] s.take(k)[i]) == payload(
        p.data,
        s.take(k)[i],
    ) by {
        assert(s.take(k)[i] == s[i]);
        assert(s[i].offset + 3 + s[i].len <= o);
        assert(payload(d2, s[i]) =~= payload(p.data, s[i]));
    }
    assert forall|i: int| 0 <= i < s.skip(k + 1).len() implies payload(d2, #[trigger] s.skip(k + 1)[i])
        == payload(p.data, s.skip(k + 1)[i]) by {
        assert(s.skip(k + 1)[i] == s[i + k + 1]);
        assert(o + 3 + x.len <= s[i + k + 1].offset);
        assert(payload(d2, s[i + k + 1]) =~= payload(p.data, s[i + k + 1]));
    }
    lemma_rows_frame(p.data, d2, p.schema, s.take(k));
    lemma_rows_frame(p.data, d2, p.schema, s.skip(k + 1));
    lemma_rows_live_single(p.data, p.schema, x);
    lemma_rows_live_single(d2, p.schema, x);
    let residue = p.data.subrange(hi, o + 3 + x.len);
    assert(payload(d2, x) =~= tb + residue);
    lemma_tuple_round_trip(vs, p.schema, residue);
    assert(q.rows() =~= p.rows_before(o) + seq![RowView { offset: o, tuple: Some(vs) }] + p.rows_after(o));
    assert forall|i: int| 0 <= i < s.len() && i != k implies payload(d2, #[trigger] s[i]) == payload(
        p.data,
        s[i],
    ) by {
        if i < k {
            assert(s[i].offset + 3 + s[i].len <= o);
        } else {
            assert(o + 3 + x.len <= s[i].offset);
        }
        assert(payload(d2, s[i]) =~= payload(p.data, s[i]));
    }
}

/// The 8192 bytes of a page: id, free-space end, dead space, slot region.
pub open spec fn page_bytes(p: PageView) -> Seq<u8> {
    be_u32(p.id) + be_u16(p.free_space_end as u16) + be_u16(p.dead_space as u16) + p.data
}

/// The page held by the first 8192 bytes of `b`, if they hold a well-formed one.
pub open spec fn decode_page(schema: Seq<DBType>, b: Seq<u8>) -> Option<PageView> {
    if b.len() >= PAGE_SIZE {
        let p = PageView {
            id: u32_of(b),
            free_space_end: u16_of(b.skip(4)) as nat,
            dead_space: u16_of(b.skip(6)) as nat,
            data: b.subrange(PAGE_HEADER_SIZE as int, PAGE_SIZE as int),
            schema,
        };
        if p.wf() {
            Some(p)
        } else {
            None
        }
    } else {
        None
    }
}

/// A serialized page is exactly `PAGE_SIZE` bytes long.
pub proof fn lemma_page_bytes_len(p: PageView)
    requires
        p.wf(),
    ensures
        page_bytes(p).len() == PAGE_SIZE,
{
}

/// Reading back the bytes of a page, whatever follows them, gives the same
/// page in all fields.
pub proof fn lemma_page_round_trip(p: PageView, rest: Seq<u8>)
    requires
        p.wf(),
    ensures
        decode_page(p.schema, page_bytes(p) + rest) == Some(p),
{
    let b = page_bytes(p) + rest;
    lemma_dead_bytes_bound(p.data, 0, p.free_space_end as int);
    lemma_u32_round_trip(p.id);
    lemma_u16_round_trip(p.free_space_end as u16);
    lemma_u16_round_trip(p.dead_space as u16);
    assert(u32_of(b) == u32_of(be_u32(p.id)));
    assert(b.skip(4)[0] == be_u16(p.free_space_end as u16)[0]);
    assert(b.skip(4)[1] == be_u16(p.free_space_end as u16)[1]);
    assert(b.skip(6)[0] == be_u16(p.dead_space as u16)[0]);
    assert(b.skip(6)[1] == be_u16(p.dead_space as u16)[1]);
    assert(b.subrange(PAGE_HEADER_SIZE as int, PAGE_SIZE as int) =~= p.data);
}

/// Tombstoning the slot that an insert has just made gives back the rows the
/// page had before the insert.
pub proof fn lemma_insert_then_mark_dead(p: PageView, vs: Seq<ValueView>)
    requires
        p.wf(),
        p.can_fit(tuple_size(vs)),
        conforms(vs, p.schema),
    ensures
        p.insert(vs).is_live_slot(p.free_space_end as int),
        p.insert(vs).mark_dead(p.free_space_end as int).rows() == p.rows(),
{
    let q = p.insert(vs);
    let s = p.slots();
    let o = p.free_space_end as int;
    let x = Slot { offset: o, alive: true, len: tuple_size(vs) };
    lemma_insert_effect(p, vs);
    let k = s.len() as int;
    assert(q.slots()[k] == x);
    lemma_slot_index(q, k);
    lemma_walk_facts(q.data, 0, q.free_space_end as int);
    lemma_mark_dead_effect(q, k);
    assert(q.slots().take(k) =~= s);
    assert(q.slots().skip(k + 1) =~= Seq::<Slot>::empty());
    lemma_rows_concat(q.data, q.schema, s, seq![x]);
    assert(q.slots() =~= s + seq![x]);
    lemma_rows_live_single(q.data, q.schema, x);
    let before = rows_of(q.data, q.schema, s);
    assert(before.push(row_of(q.data, q.schema, x)) =~= before + seq![row_of(q.data, q.schema, x)]);
    assert(p.rows().push(RowView { offset: o, tuple: Some(vs) }).drop_last() =~= p.rows());
    assert(before.push(row_of(q.data, q.schema, x)).drop_last() =~= before);
    assert(q.rows_after(o) =~= Seq::<RowView>::empty());
    assert(q.mark_dead(o).rows() =~= before);
}

/// A row put on a page by an insert: where it went, what it was, and whether
/// it is still alive.
pub struct Entry {
    pub offset: int,
    pub tuple: Seq<ValueView>,
    pub alive: bool,
}

/// The rows of the entries still alive, in the order they were inserted.
pub open spec fn live_rows(log: Seq<Entry>) -> Seq<RowView>
    decreases log.len(),
{
    if log.len() == 0 {
        Seq::empty()
    } else {
        (if log[0].alive {
            seq![RowView { offset: log[0].offset, tuple: Some(log[0].tuple) }]
        } else {
            Seq::empty()
        }) + live_rows(log.drop_first())
    }
}

/// The log after the row at `o` is deleted.
pub open spec fn kill(log: Seq<Entry>, o: int) -> Seq<Entry> {
    log.map_values(|e: Entry| if e.offset == o { Entry { alive: false, ..e } } else { e })
}

/// The page holds, slot for slot, the rows the log records: same offsets,
/// same liveness, and each live slot reads back as its entry's row.
pub open spec fn describes(p: PageView, log: Seq<Entry>) -> bool {
    &&& p.wf()
    &&& p.slots().len() == log.len()
    &&& forall|i: int|
        0 <= i < log.len() ==> (#[trigger] p.slots()[i]).offset == log[i].offset && p.slots()[i].alive
            == log[i].alive && (log[i].alive ==> row_of(p.data, p.schema, p.slots()[i]).tuple == Some(
            log[i].tuple,
        ))
}

proof fn lemma_live_rows_of(data: Seq<u8>, schema: Seq<DBType>, s: Seq<Slot>, log: Seq<Entry>)
    requires
        s.len() == log.len(),
        forall|i: int|
            0 <= i < log.len() ==> (#[trigger] s[i]).offset == log[i].offset && s[i].alive == log[i].alive
                && (log[i].alive ==> row_of(data, schema, s[i]).tuple == Some(log[i].tuple)),
    ensures
        rows_of(data, schema, s) == live_rows(log),
    decreases s.len(),
{
    if s.len() > 0 {
        let s2 = s.drop_first();
        let l2 = log.drop_first();
        assert forall|i: int| 0 <= i < l2.len() implies (#[trigger] s2[i]).offset == l2[i].offset
            && s2[i].alive == l2[i].alive && (l2[i].alive ==> row_of(data, schema, s2[i]).tuple == Some(
            l2[i].tuple,
        )) by {
            assert(s2[i] == s[i + 1] && l2[i] == log[i + 1]);
        }
        lemma_live_rows_of(data, schema, s2, l2);
        assert(s[0].offset == log[0].offset && s[0].alive == log[0].alive);
        if log[0].alive {
            assert(row_of(data, schema, s[0]) == RowView { offset: log[0].offset, tuple: Some(log[0].tuple) });
        }
    }
}

/// Iterating a page yields the live rows of its log, in insertion order.
pub proof fn lemma_history_rows(p: PageView, log: Seq<Entry>)
    requires
        describes(p, log),
    ensures
        p.rows() == live_rows(log),
{
    lemma_live_rows_of(p.data, p.schema, p.slots(), log);
}

/// An empty page has an empty log.
pub proof fn lemma_history_empty(p: PageView)
    requires
        p.wf(),
        p.free_space_end == 0,
    ensures
        describes(p, Seq::empty()),
{
    assert(p.slots() =~= Seq::<Slot>::empty());
}

/// An insert adds a live entry for the inserted row.
pub proof fn lemma_history_insert(p: PageView, log: Seq<Entry>, vs: Seq<ValueView>)
    requires
        describes(p, log),
        p.can_fit(tuple_size(vs)),
        conforms(vs, p.schema),
    ensures
        describes(p.insert(vs), log.push(Entry { offset: p.free_space_end as int, tuple: vs, alive: true })),
{
    let q = p.insert(vs);
    let s = p.slots();
    let e = Entry { offset: p.free_space_end as int, tuple: vs, alive: true };
    let l2 = log.push(e);
    lemma_insert_effect(p, vs);
    assert forall|i: int| 0 <= i < l2.len() implies (#[trigger] q.slots()[i]).offset == l2[i].offset
        && q.slots()[i].alive == l2[i].alive && (l2[i].alive ==> row_of(q.data, q.schema, q.slots()[i]).tuple
        == Some(l2[i].tuple)) by {
        if i < log.len() {
            assert(q.slots()[i] == s[i]);
            assert(payload(q.data, s[i]) == payload(p.data, s[i]));
        }
    }
}

/// Deleting the row at `o` marks its entry dead.
pub proof fn lemma_history_mark_dead(p: PageView, log: Seq<Entry>, o: int)
    requires
        describes(p, log),
        p.is_live_slot(o),
    ensures
        describes(p.mark_dead(o), kill(log, o)),
{
    let s = p.slots();
    let k = choose|k: int| 0 <= k < s.len() && #[trigger] s[k].offset == o;
    lemma_walk_facts(p.data, 0, p.free_space_end as int);
    lemma_mark_dead_effect(p, k);
    let q = p.mark_dead(o);
    let l2 = kill(log, o);
    assert forall|i: int| 0 <= i < l2.len() implies (#[trigger] q.slots()[i]).offset == l2[i].offset
        && q.slots()[i].alive == l2[i].alive && (l2[i].alive ==> row_of(q.data, q.schema, q.slots()[i]).tuple
        == Some(l2[i].tuple)) by {
        if i != k {
            if i < k {
                assert(s[i].offset + 3 + s[i].len <= s[k].offset);
            } else {
                assert(s[k].offset + 3 + s[k].len <= s[i].offset);
            }
            assert(q.slots()[i] == s[i]);
            assert(payload(q.data, s[i]) == payload(p.data, s[i]));
        }
    }
}

/// The log after the row at `o` is rewritten as `vs`.
pub open spec fn rewrite(log: Seq<Entry>, o: int, vs: Seq<ValueView>) -> Seq<Entry> {
    log.map_values(|e: Entry| if e.offset == o { Entry { tuple: vs, ..e } } else { e })
}

/// Rewriting the row at `o` in its slot replaces its entry's row, in place.
pub proof fn lemma_history_overwrite(p: PageView, log: Seq<Entry>, o: int, vs: Seq<ValueView>)
    requires
        describes(p, log),
        p.is_live_slot(o),
        conforms(vs, p.schema),
        tuple_size(vs) <= p.slot_len(o),
    ensures
        describes(p.overwrite(o, vs), rewrite(log, o, vs)),
{
    let s = p.slots();
    let k = choose|k: int| 0 <= k < s.len() && #[trigger] s[k].offset == o;
    lemma_walk_facts(p.data, 0, p.free_space_end as int);
    lemma_overwrite_effect(p, k, vs);
    let q = p.overwrite(o, vs);
    let l2 = rewrite(log, o, vs);
    assert forall|i: int| 0 <= i < l2.len() implies (#[trigger] q.slots()[i]).offset == l2[i].offset
        && q.slots()[i].alive == l2[i].alive && (l2[i].alive ==> row_of(q.data, q.schema, q.slots()[i]).tuple
        == Some(l2[i].tuple)) by {
        if i != k {
            if i < k {
                assert(s[i].offset + 3 + s[i].len <= s[k].offset);
            } else {
                assert(s[k].offset + 3 + s[k].len <= s[i].offset);
            }
            assert(payload(q.data, s[i]) == payload(p.data, s[i]));
        }
    }
}

/// A row too large for its slot, moved within its page: its old row is
/// gone, the other rows keep their order, and the row comes last, at the old
/// free-space end, past every slot the page had.
pub proof fn lemma_relocate_same_page(p: PageView, o: int, vs: Seq<ValueView>)
    requires
        p.wf(),
        p.is_live_slot(o),
        conforms(vs, p.schema),
        tuple_size(vs) > p.slot_len(o),
        p.mark_dead(o).can_fit(tuple_size(vs)),
    ensures
        p.mark_dead(o).insert(vs).rows() == p.rows_before(o) + p.rows_after(o) + seq![
            RowView { offset: p.free_space_end as int, tuple: Some(vs) },
        ],
        forall|i: int| 0 <= i < p.slots().len() ==> (#[trigger] p.slots()[i]).offset < p.free_space_end,
        o < p.free_space_end,
{
    let s = p.slots();
    let k = choose|k: int| 0 <= k < s.len() && #[trigger] s[k].offset == o;
    lemma_walk_facts(p.data, 0, p.free_space_end as int);
    lemma_mark_dead_effect(p, k);
    let d = p.mark_dead(o);
    lemma_insert_effect(d, vs);
    let row = RowView { offset: p.free_space_end as int, tuple: Some(vs) };
    assert((p.rows_before(o) + p.rows_after(o)).push(row) =~= p.rows_before(o) + p.rows_after(o) + seq![row]);
}

/// A slot header as stored in a page.
pub struct TupleHeader {
    pub alive: bool,
    pub len: usize,
}

impl TupleHeader {
    pub fn size() -> (n: usize)
        ensures
            n == TUPLE_HEADER_SIZE,
    {
        TUPLE_HEADER_SIZE
    }

    pub fn from_reader(reader: &mut BinaryReader) -> (r: Result<Self>)
        requires
            old(reader).wf(),
        ensures
            final(reader).wf(),
            r is Ok <==> old(reader).rest().len() >= 3,
            r matches Ok(h) ==> (h.alive, h.len as nat) == header_at(old(reader).rest(), 0),
            r is Ok ==> final(reader).rest() == old(reader).rest().skip(3),
            r matches Err(e) ==> e is IO,
    {
        let ghost rest = reader.rest();
        if reader.remaining() < 3 {
            return Err(io_error(IoErrorKind::UnexpectedEof, "failed to fill whole buffer"));
        }
        let alive = reader.read_bool()?;
        let len = reader.read_u16()?;
        proof {
            assert(rest.skip(1).skip(2) =~= rest.skip(3));
        }
        Ok(TupleHeader { alive, len: len as usize })
    }

    pub fn write(&self, writer: &mut BinaryWriter)
        requires
            self.len <= u16::MAX,
        ensures
            final(writer)@ == old(writer)@ + header_bytes(self.alive, self.len as u16),
    {
        writer.write_bool(self.alive);
        writer.write_u16(self.len as u16);
        assert(final(writer)@ =~= old(writer)@ + header_bytes(self.alive, self.len as u16));
    }
}

/// One 8192-byte slotted page of a table: slots grow from the start of the
/// slot region, each a header and a row's bytes; deleted slots stay as
/// tombstones.
#[derive(PartialEq, Debug)]
pub struct Page<'a> {
    table: &'a Table,
    id: u32,
    free_space_end: usize,
    dead_space: usize,
    data: Vec<u8>,
}

impl<'a> View for Page<'a> {
    type V = PageView;

    closed spec fn view(&self) -> PageView {
        PageView {
            id: self.id,
            free_space_end: self.free_space_end as nat,
            dead_space: self.dead_space as nat,
            data: self.data@,
            schema: self.table@.schema(),
        }
    }
}

impl<'a> Page<'a> {
    /// An empty page: nothing allocated, no dead space, a zeroed slot region.
    pub fn new(table: &'a Table, id: u32) -> (p: Self)
        ensures
            p@.wf(),
            p@.id == id,
            p@.free_space_end == 0,
            p@.dead_space == 0,
            p@.data == Seq::new(PAGE_DATA_SIZE as nat, |i: int| 0u8),
            p@.schema == table@.schema(),
            p.table() == table,
    {
        let mut data: Vec<u8> = Vec::with_capacity(PAGE_DATA_SIZE);
        let mut i: usize = 0;
        while i < PAGE_DATA_SIZE
            invariant
                0 <= i <= PAGE_DATA_SIZE,
                data@ == Seq::new(i as nat, |j: int| 0u8),
            decreases PAGE_DATA_SIZE - i,
        {
            data.push(0);
            i = i + 1;
            assert(data@ =~= Seq::new(i as nat, |j: int| 0u8));
        }
        let p = Page { table, id, free_space_end: 0, dead_space: 0, data };
        assert(p@.slots() =~= Seq::<Slot>::empty());
        p
    }

    pub closed spec fn table(&self) -> &'a Table {
        self.table
    }

    /// A page's rows follow its table's schema.
    pub proof fn lemma_schema(&self)
        ensures
            self@.schema == self.table()@.schema(),
    {
    }

    /// The schema the page's rows follow.
    pub fn table_ref(&self) -> (t: &'a Table)
        ensures
            t == self.table(),
            t@.schema() == self@.schema,
    {
        self.table
    }

    pub fn id(&self) -> (r: u32)
        ensures
            r == self@.id,
    {
        self.id
    }

    pub fn free_space_end(&self) -> (r: usize)
        ensures
            r == self@.free_space_end,
    {
        self.free_space_end
    }

    pub fn dead_space(&self) -> (r: usize)
        ensures
            r == self@.dead_space,
    {
        self.dead_space
    }

    pub fn data(&self) -> (r: &[u8])
        ensures
            r@ == self@.data,
    {
        self.data.as_slice()
    }

    pub fn free_space(&self) -> (r: usize)
        requires
            self@.wf(),
        ensures
            r == self@.free_space(),
    {
        PAGE_DATA_SIZE - self.free_space_end
    }

    /// There is room for the tuple and its slot header.
    pub fn can_fit_tuple(&self, tuple: &Tuple) -> (r: bool)
        requires
            self@.wf(),
        ensures
            r == self@.can_fit(tuple_size(tuple@)),
    {
        let size = tuple.size();
        size <= self.free_space() && TupleHeader::size() <= self.free_space() - size
    }

    /// Writes `bytes` over the slot region from `at` on.
    fn write_at(&mut self, at: usize, bytes: &Vec<u8>)
        requires
            at + bytes@.len() <= old(self).data@.len(),
        ensures
            final(self)@ == (PageView { data: splice(old(self)@.data, at as int, bytes@), ..old(self)@ }),
            final(self).table() == old(self).table(),
    {
        let total = self.data.len();
        let mut i: usize = 0;
        while i < bytes.len()
            invariant
                0 <= i <= bytes@.len(),
                total == self.data@.len(),
                at + bytes@.len() <= self.data@.len(),
                self.data@.len() == old(self).data@.len(),
                self.data@ == old(self).data@.take(at as int) + bytes@.take(i as int) + old(self).data@.skip(
                    at + i,
                ),
                self.table == old(self).table,
                self.id == old(self).id,
                self.free_space_end == old(self).free_space_end,
                self.dead_space == old(self).dead_space,
            decreases bytes@.len() - i,
        {
            self.data.set(at + i, bytes[i]);
            i = i + 1;
            let ghost od = old(self).data@;
            assert(self.data@ =~= od.take(at as int) + bytes@.take(i as int) + od.skip(at + i));
        }
        assert(bytes@.take(i as int) =~= bytes@);
    }

    /// Appends the tuple in a new live slot at the free-space end and returns
    /// the slot's offset. Refused with an integrity error when it does not fit
    /// and with an execution error when it does not match the schema; the page
    /// is then unchanged.
    pub fn insert_tuple(&mut self, tuple: &Tuple) -> (r: Result<u16>)
        requires
            old(self)@.wf(),
        ensures
            final(self)@.wf(),
            final(self).table() == old(self).table(),
            r is Ok <==> old(self)@.can_fit(tuple_size(tuple@)) && conforms(tuple@, old(self)@.schema),
            r matches Ok(off) ==> off == old(self)@.free_space_end && final(self)@ == old(self)@.insert(tuple@),
            r matches Err(e) ==> final(self)@ == old(self)@ && (if old(self)@.can_fit(tuple_size(tuple@)) {
                e is Execution
            } else {
                e is Integrity
            }),
    {
        if !self.can_fit_tuple(tuple) {
            return Err(integrity_error("Not enough space to add tuple"));
        }
        let size = tuple.size();
        proof {
            lemma_small_tuple_writable(tuple@);
        }
        let header = TupleHeader { alive: true, len: size };
        let mut writer = BinaryWriter::new();
        header.write(&mut writer);
        tuple.write(self.table, &mut writer)?;
        let bytes = writer.into_bytes();
        let offset = self.free_space_end;
        proof {
            lemma_tuple_size(tuple@);
            lemma_insert_effect(self@, tuple@);
        }
        self.write_at(offset, &bytes);
        self.free_space_end = offset + TupleHeader::size() + size;
        Ok(offset as u16)
    }

    /// The payload length in the slot header at `off`.
    fn header_len(&self, off: usize) -> (r: usize)
        requires
            self@.wf(),
            off + 3 <= self@.data.len(),
        ensures
            r == header_at(self@.data, off as int).1,
    {
        let hi = self.data[off + 1] as usize;
        let lo = self.data[off + 2] as usize;
        proof {
            assert(self@.data.skip(off + 1)[0] == self@.data[off + 1]);
            assert(self@.data.skip(off + 1)[1] == self@.data[off + 2]);
        }
        hi * 0x100 + lo
    }

    /// The index of the slot that starts at `o`, if one does.
    fn find_slot(&self, o: usize) -> (r: Option<usize>)
        requires
            self@.wf(),
        ensures
            r matches Some(k) ==> k < self@.slots().len() && self@.slots()[k as int].offset == o,
            r is None ==> !self@.is_slot(o as int),
    {
        let ghost s = self@.slots();
        proof {
            lemma_walk_facts(self@.data, 0, self@.free_space_end as int);
        }
        let mut off: usize = 0;
        let mut k: usize = 0;
        while off < self.free_space_end
            invariant
                self@.wf(),
                s == self@.slots(),
                k <= s.len(),
                off == if k < s.len() {
                    s[k as int].offset
                } else {
                    self@.free_space_end as int
                },
                forall|j: int| 0 <= j < k ==> #[trigger] s[j].offset < o,
            decreases self@.free_space_end - off,
        {
            proof {
                lemma_walk_facts(self@.data, 0, self@.free_space_end as int);
            }
            if off == o {
                return Some(k);
            }
            if off > o {
                proof {
                    assert forall|j: int| 0 <= j < s.len() implies #[trigger] s[j].offset != o by {
                        if j > k {
                            assert(s[k as int].offset + 3 + s[k as int].len <= s[j].offset);
                        }
                    }
                }
                return None;
            }
            let len = self.header_len(off);
            proof {
                if k + 1 < s.len() {
                    assert(s[k + 1].offset == s[k as int].offset + 3 + s[k as int].len);
                }
            }
            off = off + 3 + len;
            k = k + 1;
        }
        proof {
            assert forall|j: int| 0 <= j < s.len() implies #[trigger] s[j].offset != o by {}
        }
        None
    }

    /// Tombstones the live slot at `tuple_offset` and counts its bytes as dead.
    /// An offset where no live slot starts is an integrity error, and the page
    /// is then unchanged.
    pub fn mark_tuple_dead(&mut self, tuple_offset: u16) -> (r: Result<()>)
        requires
            old(self)@.wf(),
        ensures
            final(self)@.wf(),
            final(self).table() == old(self).table(),
            r is Ok <==> old(self)@.is_live_slot(tuple_offset as int),
            r is Ok ==> final(self)@ == old(self)@.mark_dead(tuple_offset as int),
            r matches Err(e) ==> e is Integrity && final(self)@ == old(self)@,
    {
        if tuple_offset as usize >= PAGE_DATA_SIZE {
            proof {
                lemma_walk_facts(self@.data, 0, self@.free_space_end as int);
            }
            return Err(integrity_error("Tuple offset out of bounds"));
        }
        let o = tuple_offset as usize;
        let k = match self.find_slot(o) {
            Some(k) => k,
            None => return Err(integrity_error("No tuple starts at this offset")),
        };
        proof {
            lemma_walk_facts(self@.data, 0, self@.free_space_end as int);
            lemma_slot_index(self@, k as int);
        }
        if self.data[o] == 0 {
            return Err(integrity_error("Tuple is dead"));
        }
        let len = self.header_len(o);
        proof {
            lemma_mark_dead_effect(self@, k as int);
            let q = self@.mark_dead(o as int);
            lemma_dead_bytes_bound(q.data, 0, q.free_space_end as int);
            lemma_rows_split(self@.data, self@.schema, self@.slots(), k as int);
            lemma_dead_bytes_single(self@.slots()[k as int]);
        }
        self.data.set(o, 0);
        self.dead_space = self.dead_space + TupleHeader::size() + len;
        Ok(())
    }

    /// Writes the tuple over the payload of the live slot at `tuple_offset`
    /// when it fits the slot's capacity, leaving the header as it was, and
    /// returns whether it did. An offset where no live slot starts is an
    /// integrity error; a tuple that does not match the schema, an execution
    /// error. The page is unchanged unless the result is `Ok(true)`.
    pub fn overwrite_tuple(&mut self, tuple_offset: u16, tuple: &Tuple) -> (r: Result<bool>)
        requires
            old(self)@.wf(),
        ensures
            final(self)@.wf(),
            final(self).table() == old(self).table(),
            !old(self)@.is_live_slot(tuple_offset as int) ==> fails_integrity(r),
            old(self)@.is_live_slot(tuple_offset as int) ==> {
                let fits = tuple_size(tuple@) <= old(self)@.slot_len(tuple_offset as int);
                &&& fits && !conforms(tuple@, old(self)@.schema) ==> fails_execution(r)
                &&& (fits && conforms(tuple@, old(self)@.schema)) || !fits ==> r == Ok::<bool, DBError>(fits)
            },
            r == Ok::<bool, DBError>(true) ==> final(self)@ == old(self)@.overwrite(tuple_offset as int, tuple@),
            r != Ok::<bool, DBError>(true) ==> final(self)@ == old(self)@,
    {
        if tuple_offset as usize >= PAGE_DATA_SIZE {
            proof {
                lemma_walk_facts(self@.data, 0, self@.free_space_end as int);
            }
            return Err(integrity_error("Tuple offset out of bounds"));
        }
        let o = tuple_offset as usize;
        let k = match self.find_slot(o) {
            Some(k) => k,
            None => return Err(integrity_error("No tuple starts at this offset")),
        };
        proof {
            lemma_walk_facts(self@.data, 0, self@.free_space_end as int);
            lemma_slot_index(self@, k as int);
        }
        if self.data[o] == 0 {
            return Err(integrity_error("Tuple is dead"));
        }
        let len = self.header_len(o);
        if tuple.size() > len {
            return Ok(false);
        }
        proof {
            lemma_small_tuple_writable(tuple@);
        }
        let mut writer = BinaryWriter::new();
        tuple.write(self.table, &mut writer)?;
        let bytes = writer.into_bytes();
        proof {
            lemma_tuple_size(tuple@);
            lemma_overwrite_effect(self@, k as int, tuple@);
        }
        self.write_at(o + TupleHeader::size(), &bytes);
        Ok(true)
    }

    /// Checks that the slot region holds a chain of slots ending exactly at
    /// `fse` whose tombstones add up to `dead`.
    fn slots_valid(data: &Vec<u8>, fse: usize, dead: usize) -> (r: bool)
        requires
            data@.len() == PAGE_DATA_SIZE,
            fse <= PAGE_DATA_SIZE,
        ensures
            r == (slots_from(data@, 0, fse as int) is Some && dead == dead_bytes(
                slots_from(data@, 0, fse as int)->0,
            )),
    {
        let ghost d = data@;
        let ghost mut acc: Seq<Slot> = Seq::empty();
        let mut off: usize = 0;
        let mut sum: usize = 0;
        assert(match slots_from(d, 0, fse as int) {
            Some(r) => Some(acc + r),
            None => None,
        } =~= slots_from(d, 0, fse as int));
        while off < fse
            invariant
                d == data@,
                d.len() == PAGE_DATA_SIZE,
                fse <= PAGE_DATA_SIZE,
                off <= fse,
                sum <= off,
                sum == dead_bytes(acc),
                slots_from(d, 0, fse as int) == match slots_from(d, off as int, fse as int) {
                    Some(r) => Some(acc + r),
                    None => None,
                },
            decreases fse - off,
        {
            if fse - off < 3 {
                return false;
            }
            let alive = data[off] != 0;
            let hi = data[off + 1] as usize;
            let lo = data[off + 2] as usize;
            let len = hi * 0x100 + lo;
            proof {
                assert(d.skip(off + 1)[0] == d[off + 1]);
                assert(d.skip(off + 1)[1] == d[off + 2]);
                assert(header_at(d, off as int) == (alive, len as nat));
            }
            if len > fse - off - 3 {
                return false;
            }
            let next = off + 3 + len;
            let ghost x = Slot { offset: off as int, alive, len: len as nat };
            proof {
                match slots_from(d, next as int, fse as int) {
                    Some(r) => {
                        assert(acc + (seq![x] + r) =~= acc.push(x) + r);
                    },
                    None => {},
                }
                lemma_dead_bytes_concat(acc, seq![x]);
                lemma_dead_bytes_single(x);
                assert(acc.push(x) =~= acc + seq![x]);
                acc = acc.push(x);
            }
            if !alive {
                sum = sum + 3 + len;
            }
            off = next;
        }
        proof {
            assert(acc + Seq::<Slot>::empty() =~= acc);
        }
        sum == dead
    }

    /// Reads a page: its id, free-space end and dead space, then its slot
    /// region. Bytes that do not hold a well-formed page are invalid data.
    pub fn read(table: &'a Table, reader: &mut BinaryReader) -> (r: Result<Self>)
        requires
            old(reader).wf(),
        ensures
            final(reader).wf(),
            r is Ok <==> decode_page(table@.schema(), old(reader).rest()) is Some,
            r matches Ok(p) ==> Some(p@) == decode_page(table@.schema(), old(reader).rest()) && p.table()
                == table,
            r is Ok ==> final(reader).rest() == old(reader).rest().skip(PAGE_SIZE as int),
            r matches Err(e) ==> e is IO,
            old(reader).rest().len() < PAGE_SIZE ==> fails_with(r, IoErrorKind::UnexpectedEof),
            old(reader).rest().len() >= PAGE_SIZE && r is Err ==> fails_with(r, IoErrorKind::InvalidData),
    {
        let ghost b = reader.rest();
        if reader.remaining() < PAGE_SIZE {
            return Err(io_error(IoErrorKind::UnexpectedEof, "failed to fill whole buffer"));
        }
        let id = reader.read_u32()?;
        let free_space_end = reader.read_u16()? as usize;
        let dead_space = reader.read_u16()? as usize;
        let data = reader.read_exact(PAGE_DATA_SIZE)?;
        proof {
            assert(b.skip(4).skip(2) =~= b.skip(6));
            assert(b.skip(6).skip(2) =~= b.skip(8));
            assert(b.skip(8).take(PAGE_DATA_SIZE as int) =~= b.subrange(8, PAGE_SIZE as int));
            assert(b.skip(8).skip(PAGE_DATA_SIZE as int) =~= b.skip(PAGE_SIZE as int));
        }
        if free_space_end > PAGE_DATA_SIZE || !Self::slots_valid(&data, free_space_end, dead_space) {
            return Err(io_error(IoErrorKind::InvalidData, "Malformed page"));
        }
        Ok(Page { table, id, free_space_end, dead_space, data })
    }

    /// Writes the page's 8192 bytes.
    pub fn write(&self, writer: &mut BinaryWriter)
        requires
            self@.wf(),
        ensures
            final(writer)@ == old(writer)@ + page_bytes(self@),
    {
        proof {
            lemma_dead_bytes_bound(self@.data, 0, self@.free_space_end as int);
        }
        writer.write_u32(self.id);
        writer.write_u16(self.free_space_end as u16);
        writer.write_u16(self.dead_space as u16);
        writer.write_all(self.data.as_slice());
        assert(final(writer)@ =~= old(writer)@ + page_bytes(self@));
    }

    /// The page's 8192 bytes.
    pub fn to_bytes(&self) -> (b: Vec<u8>)
        requires
            self@.wf(),
        ensures
            b@ == page_bytes(self@),
            b@.len() == PAGE_SIZE,
    {
        let mut writer = BinaryWriter::new();
        self.write(&mut writer);
        assert(writer@ =~= page_bytes(self@));
        writer.into_bytes()
    }

    /// Iterates the live rows in slot order.
    pub fn iter<'p>(&'p self) -> (it: PageIterator<'p, 'a>)
        requires
            self@.wf(),
        ensures
            it.wf(),
            it.page() == self,
            it.remaining() == self@.rows(),
    {
        PageIterator::new(self)
    }
}

/// What the page iterator hands out for one live slot.
pub open spec fn item_matches(item: Result<(u16, Tuple)>, row: RowView) -> bool {
    match item {
        Ok((o, t)) => o == row.offset && row.tuple == Some(t@),
        Err(e) => row.tuple is None && e is IO,
    }
}

/// A position among a page's slots, for walking them in order.
pub struct PageCursor {
    offset: usize,
    index: Ghost<int>,
}

impl PageCursor {
    /// The cursor stands on a slot boundary of `page`.
    pub closed spec fn wf_for(&self, page: PageView) -> bool {
        let s = page.slots();
        &&& page.wf()
        &&& 0 <= self.index@ <= s.len()
        &&& self.offset == if self.index@ < s.len() {
            s[self.index@].offset
        } else {
            page.free_space_end as int
        }
    }

    /// The rows of `page` from the cursor on.
    pub closed spec fn remaining(&self, page: PageView) -> Seq<RowView> {
        rows_of(page.data, page.schema, page.slots().skip(self.index@))
    }

    /// A cursor on the first slot.
    pub fn start(page: &Page) -> (c: Self)
        requires
            page@.wf(),
        ensures
            c.wf_for(page@),
            c.remaining(page@) == page@.rows(),
    {
        proof {
            lemma_walk_facts(page@.data, 0, page@.free_space_end as int);
            assert(page@.slots().skip(0) =~= page@.slots());
        }
        PageCursor { offset: 0, index: Ghost(0) }
    }

    /// The next live row of `page` with its slot offset, or `None` when the
    /// slots are exhausted. A payload that cannot be read gives an I/O error.
    pub fn next_row(&mut self, page: &Page) -> (r: Option<Result<(u16, Tuple)>>)
        requires
            old(self).wf_for(page@),
        ensures
            final(self).wf_for(page@),
            r is None <==> old(self).remaining(page@).len() == 0,
            r matches Some(item) ==> item_matches(item, old(self).remaining(page@)[0]),
            r is Some ==> final(self).remaining(page@) == old(self).remaining(page@).drop_first(),
            r is None ==> final(self).remaining(page@) == old(self).remaining(page@),
    {
        let ghost s = page@.slots();
        let ghost data = page@.data;
        proof {
            lemma_walk_facts(data, 0, page@.free_space_end as int);
        }
        while self.offset < page.free_space_end
            invariant
                self.wf_for(page@),
                s == page@.slots(),
                data == page@.data,
                self.remaining(page@) == old(self).remaining(page@),
            decreases page@.free_space_end - self.offset,
        {
            proof {
                lemma_walk_facts(data, 0, page@.free_space_end as int);
            }
            let ghost i = self.index@;
            let off = self.offset;
            let ghost x = s[i];
            let alive = page.data[off] != 0;
            let len = page.header_len(off);
            proof {
                assert(s.skip(i)[0] == x);
                assert(s.skip(i).drop_first() =~= s.skip(i + 1));
                if i + 1 < s.len() {
                    assert(s[i + 1].offset == x.offset + 3 + x.len);
                }
            }
            self.offset = off + 3 + len;
            self.index = Ghost(i + 1);
            if alive {
                let mut reader = BinaryReader::new_range(page.data.as_slice(), off + 3, off + 3 + len);
                proof {
                    assert(reader.rest() =~= payload(data, x));
                }
                let item = match Tuple::read(page.table, &mut reader) {
                    Ok(t) => Ok((off as u16, t)),
                    Err(e) => Err(e),
                };
                return Some(item);
            }
        }
        None
    }
}

/// Walks a page's live rows in slot order.
pub struct PageIterator<'p, 'a> {
    page: &'p Page<'a>,
    cursor: PageCursor,
}

impl<'p, 'a> PageIterator<'p, 'a> {
    pub closed spec fn page(&self) -> &'p Page<'a> {
        self.page
    }

    pub closed spec fn wf(&self) -> bool {
        self.cursor.wf_for(self.page@)
    }

    /// The rows not handed out yet.
    pub closed spec fn remaining(&self) -> Seq<RowView> {
        self.cursor.remaining(self.page@)
    }

    pub fn new(page: &'p Page<'a>) -> (it: Self)
        requires
            page@.wf(),
        ensures
            it.wf(),
            it.page() == page,
            it.remaining() == page@.rows(),
    {
        PageIterator { page, cursor: PageCursor::start(page) }
    }

    /// The next live row with its slot offset, or `None` when the slots are
    /// exhausted. A payload that cannot be read gives an I/O error.
    pub fn next(&mut self) -> (r: Option<Result<(u16, Tuple)>>)
        requires
            old(self).wf(),
        ensures
            final(self).wf(),
            final(self).page() == old(self).page(),
            r is None <==> old(self).remaining().len() == 0,
            r matches Some(item) ==> item_matches(item, old(self).remaining()[0]) && final(self).remaining()
                == old(self).remaining().drop_first(),
            r is None ==> final(self).remaining() == old(self).remaining(),
    {
        self.cursor.next_row(self.page)
    }
}

} // verus!
