use vstd::prelude::*;
use vstd::utf8::{decode_utf8, encode_utf8, valid_utf8};

use crate::errors::{fails_with, io_error, DBError, IoErrorKind};

verus! {

broadcast use {vstd::utf8::encode_utf8_decode_utf8, vstd::utf8::decode_utf8_encode_utf8};

/// Big-endian encoding of a `u16`.
pub open spec fn be_u16(v: u16) -> Seq<u8> {
    seq![(v / 0x100) as u8, (v % 0x100) as u8]
}

/// Big-endian encoding of a `u32`.
pub open spec fn be_u32(v: u32) -> Seq<u8> {
    seq![
        (v / 0x100_0000) as u8,
        ((v / 0x1_0000) % 0x100) as u8,
        ((v / 0x100) % 0x100) as u8,
        (v % 0x100) as u8,
    ]
}

/// Big-endian encoding of a `u64`: its high half, then its low half.
pub open spec fn be_u64(v: u64) -> Seq<u8> {
    be_u32((v / 0x1_0000_0000) as u32) + be_u32((v % 0x1_0000_0000) as u32)
}

/// Big-endian two's complement encoding of an `i32`.
pub open spec fn be_i32(v: i32) -> Seq<u8> {
    be_u32(v as u32)
}

/// A boolean is one byte, 1 for true and 0 for false.
pub open spec fn bool_byte(b: bool) -> u8 {
    if b {
        1
    } else {
        0
    }
}

/// A string is its UTF-8 byte length as a big-endian `u32`, then those bytes.
pub open spec fn string_bytes(s: Seq<char>) -> Seq<u8> {
    be_u32(encode_utf8(s).len() as u32) + encode_utf8(s)
}

/// The `u16` whose big-endian encoding starts `b`.
pub open spec fn u16_of(b: Seq<u8>) -> u16 {
    (b[0] * 0x100 + b[1]) as u16
}

/// The `u32` whose big-endian encoding starts `b`.
pub open spec fn u32_of(b: Seq<u8>) -> u32 {
    (b[0] * 0x100_0000 + b[1] * 0x1_0000 + b[2] * 0x100 + b[3]) as u32
}

/// The `u64` whose big-endian encoding starts `b`.
pub open spec fn u64_of(b: Seq<u8>) -> u64 {
    (u32_of(b) * 0x1_0000_0000 + u32_of(b.skip(4))) as u64
}

pub proof fn lemma_u16_round_trip(v: u16)
    ensures
        u16_of(be_u16(v)) == v,
{
}

pub proof fn lemma_u32_round_trip(v: u32)
    ensures
        u32_of(be_u32(v)) == v,
{
}

pub proof fn lemma_u64_round_trip(v: u64)
    ensures
        u64_of(be_u64(v)) == v,
{
    let hi = (v / 0x1_0000_0000) as u32;
    let lo = (v % 0x1_0000_0000) as u32;
    lemma_u32_round_trip(hi);
    lemma_u32_round_trip(lo);
    assert(be_u64(v).skip(4) =~= be_u32(lo));
}

pub proof fn lemma_i32_round_trip(v: i32)
    ensures
        #[verifier::truncate] (u32_of(be_i32(v)) as i32) == v,
{
    lemma_u32_round_trip(#[verifier::truncate] (v as u32));
    assert(#[verifier::truncate] ((#[verifier::truncate] (v as u32)) as i32) == v) by (bit_vector);
}

/// Appends big-endian values to a growing byte buffer.
pub struct BinaryWriter {
    buf: Vec<u8>,
}

impl View for BinaryWriter {
    type V = Seq<u8>;

    /// The bytes written so far.
    closed spec fn view(&self) -> Seq<u8> {
        self.buf@
    }
}

impl BinaryWriter {
    pub fn new() -> (w: Self)
        ensures
            w@ == Seq::<u8>::empty(),
    {
        BinaryWriter { buf: Vec::new() }
    }

    /// The bytes written so far.
    pub fn into_bytes(self) -> (b: Vec<u8>)
        ensures
            b@ == self@,
    {
        self.buf
    }

    pub fn len(&self) -> (n: usize)
        ensures
            n == self@.len(),
    {
        self.buf.len()
    }

    pub fn write_u8(&mut self, value: u8)
        ensures
            final(self)@ == old(self)@.push(value),
    {
        self.buf.push(value);
    }

    pub fn write_u16(&mut self, value: u16)
        ensures
            final(self)@ == old(self)@ + be_u16(value),
    {
        self.buf.push((value / 0x100) as u8);
        self.buf.push((value % 0x100) as u8);
        assert(self@ =~= old(self)@ + be_u16(value));
    }

    pub fn write_u32(&mut self, value: u32)
        ensures
            final(self)@ == old(self)@ + be_u32(value),
    {
        self.buf.push((value / 0x100_0000) as u8);
        self.buf.push(((value / 0x1_0000) % 0x100) as u8);
        self.buf.push(((value / 0x100) % 0x100) as u8);
        self.buf.push((value % 0x100) as u8);
        assert(self@ =~= old(self)@ + be_u32(value));
    }

    /// Writes the 64 bits of a value (a double's IEEE-754 pattern) big-endian.
    pub fn write_u64(&mut self, value: u64)
        ensures
            final(self)@ == old(self)@ + be_u64(value),
    {
        self.write_u32((value / 0x1_0000_0000) as u32);
        self.write_u32((value % 0x1_0000_0000) as u32);
        assert(self@ =~= old(self)@ + be_u64(value));
    }

    pub fn write_i32(&mut self, value: i32)
        ensures
            final(self)@ == old(self)@ + be_i32(value),
    {
        self.write_u32(value as u32);
    }

    pub fn write_bool(&mut self, value: bool)
        ensures
            final(self)@ == old(self)@.push(bool_byte(value)),
    {
        let byte: u8 = if value {
            1
        } else {
            0
        };
        self.write_u8(byte);
    }

    /// Writes the bytes as they are, with no length prefix.
    pub fn write_all(&mut self, bytes: &[u8])
        ensures
            final(self)@ == old(self)@ + bytes@,
    {
        let mut i: usize = 0;
        while i < bytes.len()
            invariant
                0 <= i <= bytes@.len(),
                self@ == old(self)@ + bytes@.take(i as int),
            decreases bytes@.len() - i,
        {
            self.buf.push(bytes[i]);
            i = i + 1;
            assert(self@ =~= old(self)@ + bytes@.take(i as int));
        }
        assert(bytes@.take(i as int) =~= bytes@);
    }

    /// Writes a length-prefixed UTF-8 string.
    pub fn write_string(&mut self, value: &str)
        requires
            encode_utf8(value@).len() <= u32::MAX,
        ensures
            final(self)@ == old(self)@ + string_bytes(value@),
    {
        let bytes = value.as_bytes();
        self.write_u32(bytes.len() as u32);
        self.write_all(bytes);
        assert(self@ =~= old(self)@ + string_bytes(value@));
    }
}

/// True when `e` reports data that ended too early.
pub open spec fn is_eof(e: DBError) -> bool {
    e matches DBError::IO(kind, _) && kind == IoErrorKind::UnexpectedEof
}

fn eof_error() -> (e: DBError)
    ensures
        is_eof(e),
{
    io_error(IoErrorKind::UnexpectedEof, "failed to fill whole buffer")
}

/// `b` starts with a length prefix and holds that many bytes after it.
pub open spec fn string_fits(b: Seq<u8>) -> bool {
    b.len() >= 4 && b.len() - 4 >= u32_of(b)
}

/// The bytes of a length-prefixed string at the start of `b`.
pub open spec fn string_payload(b: Seq<u8>) -> Seq<u8> {
    b.subrange(4, 4 + u32_of(b))
}

/// Relies on `String::from_utf8`: it accepts exactly the byte vectors that are
/// valid UTF-8, and the string it returns is made of those bytes.
#[verifier::external_body]
fn utf8_string(bytes: Vec<u8>) -> (r: Option<String>)
    ensures
        r is Some <==> valid_utf8(bytes@),
        r matches Some(s) ==> encode_utf8(s@) == bytes@,
{
    String::from_utf8(bytes).ok()
}

/// Reads big-endian values from a range of a byte slice, front to back.
pub struct BinaryReader<'a> {
    data: &'a [u8],
    pos: usize,
    end: usize,
}

impl<'a> BinaryReader<'a> {
    /// The bytes not read yet.
    pub closed spec fn rest(&self) -> Seq<u8> {
        self.data@.subrange(self.pos as int, self.end as int)
    }

    pub closed spec fn wf(&self) -> bool {
        self.pos <= self.end <= self.data@.len()
    }

    /// A reader over all of `data`.
    pub fn new(data: &'a [u8]) -> (r: Self)
        ensures
            r.wf(),
            r.rest() == data@,
    {
        let r = BinaryReader { data, pos: 0, end: data.len() };
        assert(r.rest() =~= data@);
        r
    }

    /// A reader over `data[start..end]`.
    pub fn new_range(data: &'a [u8], start: usize, end: usize) -> (r: Self)
        requires
            start <= end <= data@.len(),
        ensures
            r.wf(),
            r.rest() == data@.subrange(start as int, end as int),
    {
        BinaryReader { data, pos: start, end }
    }

    /// Takes the next `n` bytes.
    pub fn read_exact(&mut self, n: usize) -> (r: Result<Vec<u8>, DBError>)
        requires
            old(self).wf(),
        ensures
            final(self).wf(),
            r is Ok <==> n <= old(self).rest().len(),
            r matches Ok(b) ==> b@ == old(self).rest().take(n as int) && final(self).rest()
                == old(self).rest().skip(n as int),
            r matches Err(e) ==> is_eof(e),
    {
        if n > self.end - self.pos {
            return Err(eof_error());
        }
        let ghost rest = self.rest();
        let mut out: Vec<u8> = Vec::with_capacity(n);
        let mut i: usize = 0;
        while i < n
            invariant
                self.wf(),
                self.data == old(self).data,
                self.end == old(self).end,
                self.pos == old(self).pos,
                self.pos + n <= self.end,
                rest == self.rest(),
                0 <= i <= n,
                out@ == rest.take(i as int),
            decreases n - i,
        {
            out.push(self.data[self.pos + i]);
            i = i + 1;
            assert(out@ =~= rest.take(i as int));
        }
        self.pos = self.pos + n;
        assert(self.rest() =~= rest.skip(n as int));
        Ok(out)
    }

    pub fn read_u8(&mut self) -> (r: Result<u8, DBError>)
        requires
            old(self).wf(),
        ensures
            final(self).wf(),
            r is Ok <==> 1 <= old(self).rest().len(),
            r matches Ok(v) ==> v == old(self).rest()[0] && final(self).rest() == old(self).rest().skip(1),
            r matches Err(e) ==> is_eof(e),
    {
        if self.pos >= self.end {
            return Err(eof_error());
        }
        let v = self.data[self.pos];
        self.pos = self.pos + 1;
        assert(self.rest() =~= old(self).rest().skip(1));
        Ok(v)
    }

    pub fn read_u16(&mut self) -> (r: Result<u16, DBError>)
        requires
            old(self).wf(),
        ensures
            final(self).wf(),
            r is Ok <==> 2 <= old(self).rest().len(),
            r matches Ok(v) ==> v == u16_of(old(self).rest()) && final(self).rest() == old(self).rest().skip(2),
            r matches Err(e) ==> is_eof(e),
    {
        if self.end - self.pos < 2 {
            return Err(eof_error());
        }
        let b0 = self.data[self.pos] as u16;
        let b1 = self.data[self.pos + 1] as u16;
        self.pos = self.pos + 2;
        assert(self.rest() =~= old(self).rest().skip(2));
        Ok(b0 * 0x100 + b1)
    }

    pub fn read_u32(&mut self) -> (r: Result<u32, DBError>)
        requires
            old(self).wf(),
        ensures
            final(self).wf(),
            r is Ok <==> 4 <= old(self).rest().len(),
            r matches Ok(v) ==> v == u32_of(old(self).rest()) && final(self).rest() == old(self).rest().skip(4),
            r matches Err(e) ==> is_eof(e),
    {
        if self.end - self.pos < 4 {
            return Err(eof_error());
        }
        let b0 = self.data[self.pos] as u32;
        let b1 = self.data[self.pos + 1] as u32;
        let b2 = self.data[self.pos + 2] as u32;
        let b3 = self.data[self.pos + 3] as u32;
        self.pos = self.pos + 4;
        assert(self.rest() =~= old(self).rest().skip(4));
        Ok(b0 * 0x100_0000 + b1 * 0x1_0000 + b2 * 0x100 + b3)
    }

    /// Reads 64 bits big-endian (a double's IEEE-754 pattern).
    pub fn read_u64(&mut self) -> (r: Result<u64, DBError>)
        requires
            old(self).wf(),
        ensures
            final(self).wf(),
            r is Ok <==> 8 <= old(self).rest().len(),
            r matches Ok(v) ==> v == u64_of(old(self).rest()) && final(self).rest() == old(self).rest().skip(8),
            r matches Err(e) ==> is_eof(e),
    {
        if self.end - self.pos < 8 {
            return Err(eof_error());
        }
        let ghost rest = self.rest();
        let hi = self.read_u32();
        let lo = self.read_u32();
        match (hi, lo) {
            (Ok(hi), Ok(lo)) => {
                assert(rest.skip(4).skip(4) =~= rest.skip(8));
                Ok(hi as u64 * 0x1_0000_0000 + lo as u64)
            },
            _ => Err(eof_error()),
        }
    }

    pub fn read_i32(&mut self) -> (r: Result<i32, DBError>)
        requires
            old(self).wf(),
        ensures
            final(self).wf(),
            r is Ok <==> 4 <= old(self).rest().len(),
            r matches Ok(v) ==> v == u32_of(old(self).rest()) as i32 && final(self).rest()
                == old(self).rest().skip(4),
            r matches Err(e) ==> is_eof(e),
    {
        let v = self.read_u32()?;
        Ok(v as i32)
    }

    /// Any byte but zero reads as true.
    pub fn read_bool(&mut self) -> (r: Result<bool, DBError>)
        requires
            old(self).wf(),
        ensures
            final(self).wf(),
            r is Ok <==> 1 <= old(self).rest().len(),
            r matches Ok(v) ==> v == (old(self).rest()[0] != 0) && final(self).rest()
                == old(self).rest().skip(1),
            r matches Err(e) ==> is_eof(e),
    {
        let byte = self.read_u8()?;
        Ok(byte != 0)
    }

    /// Reads a length-prefixed UTF-8 string; bytes that are not UTF-8 are invalid data.
    pub fn read_string(&mut self) -> (r: Result<String, DBError>)
        requires
            old(self).wf(),
        ensures
            final(self).wf(),
            r is Ok <==> string_fits(old(self).rest()) && valid_utf8(string_payload(old(self).rest())),
            r matches Ok(s) ==> s@ == decode_utf8(string_payload(old(self).rest())) && final(self).rest()
                == old(self).rest().skip(4 + u32_of(old(self).rest())),
            r matches Err(e) ==> e is IO,
            !string_fits(old(self).rest()) ==> fails_with(r, IoErrorKind::UnexpectedEof),
            string_fits(old(self).rest()) && !valid_utf8(string_payload(old(self).rest())) ==> fails_with(
                r,
                IoErrorKind::InvalidData,
            ),
    {
        let ghost rest = self.rest();
        let len = self.read_u32()?;
        let bytes = self.read_exact(len as usize)?;
        proof {
            assert(rest.skip(4).take(len as int) =~= string_payload(rest));
            assert(rest.skip(4).skip(len as int) =~= rest.skip(4 + len));
        }
        match utf8_string(bytes) {
            Some(s) => Ok(s),
            None => Err(io_error(IoErrorKind::InvalidData, "Invalid UTF-8")),
        }
    }

    pub fn remaining(&self) -> (n: usize)
        requires
            self.wf(),
        ensures
            n == self.rest().len(),
    {
        self.end - self.pos
    }
}

} // verus!
