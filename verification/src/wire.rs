//! Bytes on the wire: little-endian integers, length-prefixed strings, and a reader that
//! never runs past its input.
//!
//! Every read is specified by a parse function from the bytes left to the value and the
//! bytes left after it.
use vstd::prelude::*;
use crate::text;
use crate::text::{push_decimal, push_text, string_of};

verus! {

/// Why bytes could not be read.
#[derive(Debug, Clone, Copy, PartialEq, Eq, Structural)]
pub enum IoError {
    /// The input ended inside a value.
    UnexpectedEof,
    /// A header byte that is not known.
    BadHeader(u8),
    /// A tag of a type that is not known.
    BadTag(u8),
}

impl IoError {
    /// What the error says.
    pub open spec fn said(&self) -> Seq<char> {
        match self {
            IoError::UnexpectedEof => "unexpected end of data"@,
            IoError::BadHeader(b) => "bad header byte "@ + text::decimal(*b as nat),
            IoError::BadTag(b) => "bad tag type "@ + text::decimal(*b as nat),
        }
    }

    /// The error in words.
    pub fn message(&self) -> (s: String)
        ensures
            s@ == self.said(),
    {
        let mut out: Vec<char> = Vec::new();
        match self {
            IoError::UnexpectedEof => {
                push_text(&mut out, "unexpected end of data");
            },
            IoError::BadHeader(b) => {
                push_text(&mut out, "bad header byte ");
                push_decimal(&mut out, *b as u64);
            },
            IoError::BadTag(b) => {
                push_text(&mut out, "bad tag type ");
                push_decimal(&mut out, *b as u64);
            },
        }
        assert(out@ =~= self.said());
        string_of(&out)
    }
}

/// The little-endian bytes of a 16-bit number.
pub open spec fn le16(x: u16) -> Seq<u8> {
    seq![(x % 256) as u8, (x / 256) as u8]
}

/// The little-endian bytes of a 32-bit number.
pub open spec fn le32(x: u32) -> Seq<u8> {
    seq![
        (x % 256) as u8,
        (x / 0x100 % 256) as u8,
        (x / 0x1_0000 % 256) as u8,
        (x / 0x100_0000) as u8,
    ]
}

/// The little-endian bytes of a 64-bit number.
pub open spec fn le64(x: u64) -> Seq<u8> {
    le32((x % 0x1_0000_0000) as u32) + le32((x / 0x1_0000_0000) as u32)
}

/// The number that the first two bytes spell.
pub open spec fn de16(s: Seq<u8>) -> u16 {
    (s[0] + 256 * s[1]) as u16
}

/// The number that the first four bytes spell.
pub open spec fn de32(s: Seq<u8>) -> u32 {
    (s[0] + 0x100 * s[1] + 0x1_0000 * s[2] + 0x100_0000 * s[3]) as u32
}

/// The number that the first eight bytes spell.
pub open spec fn de64(s: Seq<u8>) -> u64 {
    (de32(s) + 0x1_0000_0000 * de32(s.skip(4))) as u64
}

pub open spec fn parse_u8(s: Seq<u8>) -> Result<(u8, Seq<u8>), IoError> {
    if s.len() < 1 {
        Err(IoError::UnexpectedEof)
    } else {
        Ok((s[0], s.skip(1)))
    }
}

pub open spec fn parse_u16(s: Seq<u8>) -> Result<(u16, Seq<u8>), IoError> {
    if s.len() < 2 {
        Err(IoError::UnexpectedEof)
    } else {
        Ok((de16(s), s.skip(2)))
    }
}

pub open spec fn parse_u32(s: Seq<u8>) -> Result<(u32, Seq<u8>), IoError> {
    if s.len() < 4 {
        Err(IoError::UnexpectedEof)
    } else {
        Ok((de32(s), s.skip(4)))
    }
}

pub open spec fn parse_u64(s: Seq<u8>) -> Result<(u64, Seq<u8>), IoError> {
    if s.len() < 8 {
        Err(IoError::UnexpectedEof)
    } else {
        Ok((de64(s), s.skip(8)))
    }
}

pub open spec fn parse_bytes(s: Seq<u8>, n: nat) -> Result<(Seq<u8>, Seq<u8>), IoError> {
    if s.len() < n {
        Err(IoError::UnexpectedEof)
    } else {
        Ok((s.take(n as int), s.skip(n as int)))
    }
}

/// A 16-bit length, then that many bytes.
pub open spec fn parse_string_u16(s: Seq<u8>) -> Result<(Seq<u8>, Seq<u8>), IoError> {
    match parse_u16(s) {
        Ok((n, rest)) => parse_bytes(rest, n as nat),
        Err(e) => Err(e),
    }
}

/// The bytes of a string behind its 16-bit length.
pub open spec fn string_u16(s: Seq<u8>) -> Seq<u8> {
    le16(s.len() as u16) + s
}

/// A cursor over bytes.
#[derive(Debug)]
pub struct Reader<'a> {
    pub data: &'a [u8],
    pub pos: usize,
}

impl<'a> Reader<'a> {
    /// The cursor is inside its bytes, or just behind them.
    pub open spec fn wf(&self) -> bool {
        self.pos <= self.data@.len()
    }

    /// The bytes not read yet.
    pub open spec fn rest(&self) -> Seq<u8> {
        self.data@.skip(self.pos as int)
    }

    pub fn new(data: &'a [u8]) -> (r: Reader<'a>)
        ensures
            r.wf(),
            r.rest() == data@,
    {
        let r = Reader { data, pos: 0 };
        assert(r.rest() =~= data@);
        r
    }

    /// How many bytes are left.
    pub fn remaining(&self) -> (n: usize)
        requires
            self.wf(),
        ensures
            n == self.rest().len(),
    {
        self.data.len() - self.pos
    }

    pub fn read_u8(&mut self) -> (r: Result<u8, IoError>)
        requires
            old(self).wf(),
        ensures
            final(self).wf(),
            match parse_u8(old(self).rest()) {
                Ok((v, rest)) => r == Ok::<u8, IoError>(v) && final(self).rest() == rest,
                Err(e) => r == Err::<u8, IoError>(e),
            },
    {
        if self.data.len() - self.pos < 1 {
            return Err(IoError::UnexpectedEof);
        }
        let v: u8 = self.data[self.pos];
        self.pos = self.pos + 1;
        assert(self.rest() =~= old(self).rest().skip(1));
        Ok(v)
    }

    pub fn read_u16(&mut self) -> (r: Result<u16, IoError>)
        requires
            old(self).wf(),
        ensures
            final(self).wf(),
            match parse_u16(old(self).rest()) {
                Ok((v, rest)) => r == Ok::<u16, IoError>(v) && final(self).rest() == rest,
                Err(e) => r == Err::<u16, IoError>(e),
            },
    {
        if self.data.len() - self.pos < 2 {
            return Err(IoError::UnexpectedEof);
        }
        let v: u16 = self.data[self.pos] as u16 + 256 * (self.data[self.pos + 1] as u16);
        self.pos = self.pos + 2;
        assert(self.rest() =~= old(self).rest().skip(2));
        Ok(v)
    }

    pub fn read_u32(&mut self) -> (r: Result<u32, IoError>)
        requires
            old(self).wf(),
        ensures
            final(self).wf(),
            match parse_u32(old(self).rest()) {
                Ok((v, rest)) => r == Ok::<u32, IoError>(v) && final(self).rest() == rest,
                Err(e) => r == Err::<u32, IoError>(e),
            },
    {
        if self.data.len() - self.pos < 4 {
            return Err(IoError::UnexpectedEof);
        }
        let v: u32 = self.data[self.pos] as u32 + 0x100 * (self.data[self.pos + 1] as u32) + 0x1_0000
            * (self.data[self.pos + 2] as u32) + 0x100_0000 * (self.data[self.pos + 3] as u32);
        self.pos = self.pos + 4;
        assert(self.rest() =~= old(self).rest().skip(4));
        Ok(v)
    }

    pub fn read_u64(&mut self) -> (r: Result<u64, IoError>)
        requires
            old(self).wf(),
        ensures
            final(self).wf(),
            match parse_u64(old(self).rest()) {
                Ok((v, rest)) => r == Ok::<u64, IoError>(v) && final(self).rest() == rest,
                Err(e) => r == Err::<u64, IoError>(e),
            },
    {
        if self.data.len() - self.pos < 8 {
            return Err(IoError::UnexpectedEof);
        }
        let lo: u32 = self.read_u32()?;
        let hi: u32 = self.read_u32()?;
        assert(self.rest() =~= old(self).rest().skip(8));
        Ok(lo as u64 + 0x1_0000_0000 * (hi as u64))
    }

    /// The next `n` bytes.
    pub fn read_bytes(&mut self, n: usize) -> (r: Result<Vec<u8>, IoError>)
        requires
            old(self).wf(),
        ensures
            final(self).wf(),
            match parse_bytes(old(self).rest(), n as nat) {
                Ok((v, rest)) => r is Ok && r->Ok_0@ == v && final(self).rest() == rest,
                Err(e) => r is Err && r->Err_0 == e,
            },
    {
        if self.data.len() - self.pos < n {
            return Err(IoError::UnexpectedEof);
        }
        let end: usize = self.pos + n;
        let out: Vec<u8> = copy_range(self.data, self.pos, end);
        self.pos = end;
        proof {
            assert(self.rest() =~= old(self).rest().skip(n as int));
            assert(out@ =~= old(self).rest().take(n as int));
        }
        Ok(out)
    }

    /// The next 16 bytes.
    pub fn read_hash16(&mut self) -> (r: Result<[u8; 16], IoError>)
        requires
            old(self).wf(),
        ensures
            final(self).wf(),
            match parse_bytes(old(self).rest(), 16) {
                Ok((v, rest)) => r is Ok && r->Ok_0@ == v && final(self).rest() == rest,
                Err(e) => r is Err && r->Err_0 == e,
            },
    {
        if self.data.len() - self.pos < 16 {
            return Err(IoError::UnexpectedEof);
        }
        let mut h: [u8; 16] = [0u8;16];
        let mut i: usize = 0;
        while i < 16
            invariant
                i <= 16,
                self.pos + 16 <= self.data.len(),
                forall|j: int| 0 <= j < i ==> h@[j] == self.data@[self.pos + j],
            decreases 16 - i,
        {
            h[i] = self.data[self.pos + i];
            i = i + 1;
        }
        self.pos = self.pos + 16;
        proof {
            assert(self.rest() =~= old(self).rest().skip(16));
            assert(h@ =~= old(self).rest().take(16));
        }
        Ok(h)
    }

    /// A 16-bit length, then that many bytes.
    pub fn read_string_u16(&mut self) -> (r: Result<Vec<u8>, IoError>)
        requires
            old(self).wf(),
        ensures
            final(self).wf(),
            match parse_string_u16(old(self).rest()) {
                Ok((v, rest)) => r is Ok && r->Ok_0@ == v && final(self).rest() == rest,
                Err(e) => r is Err && r->Err_0 == e,
            },
    {
        let n: u16 = self.read_u16()?;
        self.read_bytes(n as usize)
    }
}

/// The bytes at `[start, end)`.
pub fn copy_range(data: &[u8], start: usize, end: usize) -> (out: Vec<u8>)
    requires
        start <= end <= data@.len(),
    ensures
        out@ == data@.subrange(start as int, end as int),
{
    let mut out: Vec<u8> = Vec::new();
    let mut i: usize = start;
    while i < end
        invariant
            start <= i <= end <= data@.len(),
            out@ == data@.subrange(start as int, i as int),
        decreases end - i,
    {
        out.push(data[i]);
        assert(out@ =~= data@.subrange(start as int, i + 1));
        i = i + 1;
    }
    out
}

pub fn write_u16(out: &mut Vec<u8>, x: u16)
    ensures
        final(out)@ == old(out)@ + le16(x),
{
    out.push((x % 256) as u8);
    out.push((x / 256) as u8);
    assert(out@ =~= old(out)@ + le16(x));
}

pub fn write_u32(out: &mut Vec<u8>, x: u32)
    ensures
        final(out)@ == old(out)@ + le32(x),
{
    out.push((x % 256) as u8);
    out.push((x / 0x100 % 256) as u8);
    out.push((x / 0x1_0000 % 256) as u8);
    out.push((x / 0x100_0000) as u8);
    assert(out@ =~= old(out)@ + le32(x));
}

pub fn write_u64(out: &mut Vec<u8>, x: u64)
    ensures
        final(out)@ == old(out)@ + le64(x),
{
    write_u32(out, (x % 0x1_0000_0000) as u32);
    write_u32(out, (x / 0x1_0000_0000) as u32);
    assert(out@ =~= old(out)@ + le64(x));
}

pub fn write_bytes(out: &mut Vec<u8>, bytes: &[u8])
    ensures
        final(out)@ == old(out)@ + bytes@,
{
    let mut i: usize = 0;
    assert(out@ =~= old(out)@ + bytes@.take(0));
    while i < bytes.len()
        invariant
            i <= bytes@.len(),
            out@ == old(out)@ + bytes@.take(i as int),
        decreases bytes@.len() - i,
    {
        out.push(bytes[i]);
        assert(out@ =~= old(out)@ + bytes@.take(i + 1));
        i = i + 1;
    }
    assert(bytes@.take(i as int) =~= bytes@);
}

/// A string behind its 16-bit length.
pub fn write_string_u16(out: &mut Vec<u8>, bytes: &[u8])
    requires
        bytes@.len() <= 0xFFFF,
    ensures
        final(out)@ == old(out)@ + string_u16(bytes@),
{
    write_u16(out, bytes.len() as u16);
    write_bytes(out, bytes);
    assert(out@ =~= old(out)@ + string_u16(bytes@));
}

/// What is written in 16 bits is read back, and the bytes behind it are left.
pub broadcast proof fn lemma_u16_round_trip(x: u16, rest: Seq<u8>)
    ensures
        #[trigger] parse_u16(le16(x) + rest) == Ok::<(u16, Seq<u8>), IoError>((x, rest)),
{
    let s = le16(x) + rest;
    assert(s.skip(2) =~= rest);
    assert(s[0] + 256 * s[1] == x);
}

/// What is written in 32 bits is read back, and the bytes behind it are left.
pub broadcast proof fn lemma_u32_round_trip(x: u32, rest: Seq<u8>)
    ensures
        #[trigger] parse_u32(le32(x) + rest) == Ok::<(u32, Seq<u8>), IoError>((x, rest)),
{
    let s = le32(x) + rest;
    assert(s.skip(4) =~= rest);
    assert(s[0] + 0x100 * s[1] + 0x1_0000 * s[2] + 0x100_0000 * s[3] == x);
}

/// The number that four bytes spell is written as those bytes.
pub proof fn lemma_u32_bytes(s: Seq<u8>)
    requires
        s.len() >= 4,
    ensures
        le32(de32(s)) == s.take(4),
{
    let x = s[0] + 0x100 * s[1] + 0x1_0000 * s[2] + 0x100_0000 * s[3];
    assert(x == de32(s));
    assert(x % 0x100 == s[0]);
    assert(x / 0x100 == s[1] + 0x100 * s[2] + 0x1_0000 * s[3]);
    assert(x / 0x1_0000 == s[2] + 0x100 * s[3]);
    assert(x / 0x100_0000 == s[3]);
    assert(le32(de32(s)) =~= s.take(4));
}

/// What is written in 64 bits is read back, and the bytes behind it are left.
pub broadcast proof fn lemma_u64_round_trip(x: u64, rest: Seq<u8>)
    ensures
        #[trigger] parse_u64(le64(x) + rest) == Ok::<(u64, Seq<u8>), IoError>((x, rest)),
{
    let s = le64(x) + rest;
    let (lo, hi) = ((x % 0x1_0000_0000) as u32, (x / 0x1_0000_0000) as u32);
    assert(s =~= le32(lo) + (le32(hi) + rest));
    lemma_u32_round_trip(lo, le32(hi) + rest);
    lemma_u32_round_trip(hi, rest);
    assert(s.skip(4) =~= le32(hi) + rest);
    assert(s.skip(8) =~= rest);
}

/// Bytes whose number is known are read back, and the bytes behind them are left.
pub broadcast proof fn lemma_bytes_round_trip(bytes: Seq<u8>, rest: Seq<u8>, n: nat)
    requires
        n == bytes.len(),
    ensures
        #[trigger] parse_bytes(bytes + rest, n) == Ok::<(Seq<u8>, Seq<u8>), IoError>((bytes, rest)),
{
    assert((bytes + rest).take(bytes.len() as int) =~= bytes);
    assert((bytes + rest).skip(bytes.len() as int) =~= rest);
}

/// A length-prefixed string is read back, and the bytes behind it are left.
pub proof fn lemma_string_round_trip(s: Seq<u8>, rest: Seq<u8>)
    requires
        s.len() <= 0xFFFF,
    ensures
        parse_string_u16(string_u16(s) + rest) == Ok::<(Seq<u8>, Seq<u8>), IoError>((s, rest)),
{
    assert(string_u16(s) + rest =~= le16(s.len() as u16) + (s + rest));
    lemma_u16_round_trip(s.len() as u16, s + rest);
    lemma_bytes_round_trip(s, rest, s.len());
}

/// Numbers stand with the low byte first.
pub proof fn law_the_low_byte_comes_first(a: u16, b: u32)
    ensures
        le16(a).len() == 2,
        le16(a)[0] + 256 * le16(a)[1] == a,
        le32(b).len() == 4,
        le32(b)[0] + 0x100 * le32(b)[1] + 0x1_0000 * le32(b)[2] + 0x100_0000 * le32(b)[3] == b,
        de16(le16(a)) == a,
        de32(le32(b)) == b,
{
}

} // verus!
