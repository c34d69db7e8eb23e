//! Byte-level framing: a growable byte sink (`Writer`) and a cursor over a
//! byte buffer (`Reader`) for the fixed and length-prefixed fields that the
//! message codec is built from. Lengths travel as 4-byte little-endian
//! prefixes.

use vstd::prelude::*;
use vstd::bytes::{spec_u32_from_le_bytes, spec_u32_to_le_bytes, u32_from_le_bytes, u32_to_le_bytes};

verus! {

/// Errors of the framing layer.
#[derive(Debug)]
pub enum TlvError {
    /// A byte string handed to the writer is over the hard size cap.
    BufferTooBig,
    /// A length did not fit the 4-byte length field.
    LengthConversion,
    /// A declared length exceeds the caller's limit.
    DataTooBig,
    /// The buffer ended before a field could be fully read.
    TruncatedInput,
    /// The bytes read differ from the expected literal.
    MagicMismatch,
}

/// Compares two byte strings for equality.
pub fn bytes_eq(a: &[u8], b: &[u8]) -> (r: bool)
    ensures
        r == (a@ == b@),
{
    if a.len() != b.len() {
        return false;
    }
    let n = a.len();
    let mut i: usize = 0;
    while i < n
        invariant
            n == a@.len() == b@.len(),
            i <= n,
            forall|j: int| 0 <= j < i ==> a@[j] == b@[j],
        decreases n - i,
    {
        if a[i] != b[i] {
            return false;
        }
        i = i + 1;
    }
    proof {
        assert(a@ =~= b@);
    }
    true
}

/// A byte sink that encoders append to; the view is the bytes written so far.
pub struct Writer {
    buf: Vec<u8>,
}

impl View for Writer {
    type V = Seq<u8>;

    closed spec fn view(&self) -> Seq<u8> {
        self.buf@
    }
}

impl Writer {
    pub fn new() -> (w: Writer)
        ensures
            w@ == Seq::<u8>::empty(),
    {
        Writer { buf: Vec::new() }
    }

    pub fn write_u8(&mut self, b: u8)
        ensures
            final(self)@ == old(self)@.push(b),
    {
        self.buf.push(b);
    }

    pub fn write_bytes(&mut self, bytes: &[u8])
        ensures
            final(self)@ == old(self)@ + bytes@,
    {
        self.buf.extend_from_slice(bytes);
    }

    /// Writes a 4-byte little-endian length field.
    pub fn length(&mut self, x: u32)
        ensures
            final(self)@ == old(self)@ + spec_u32_to_le_bytes(x),
    {
        let le = u32_to_le_bytes(x);
        self.write_bytes(le.as_slice());
    }

    /// Writes `b` as a 4-byte little-endian length followed by the raw bytes.
    /// Rejects byte strings over the hard cap, leaving the sink unchanged.
    pub fn lv_bytes(&mut self, b: &[u8]) -> (r: Result<(), TlvError>)
        ensures
            match r {
                Ok(_) => b@.len() <= 2_000_000_000 && final(self)@ == old(self)@
                    + spec_u32_to_le_bytes(b@.len() as u32) + b@,
                Err(e) => e == TlvError::BufferTooBig && b@.len() > 2_000_000_000 && *final(self) == *old(self),
            },
    {
        if b.len() > 2_000_000_000 {
            return Err(TlvError::BufferTooBig);
        }
        let l = b.len() as u32;
        self.length(l);
        self.write_bytes(b);
        Ok(())
    }

    pub fn into_inner(self) -> (v: Vec<u8>)
        ensures
            v@ == self@,
    {
        self.buf
    }
}

/// A read cursor over a byte buffer; the view is the bytes not yet consumed.
pub struct Reader<'a> {
    buf: &'a [u8],
    pos: usize,
}

impl<'a> View for Reader<'a> {
    type V = Seq<u8>;

    closed spec fn view(&self) -> Seq<u8> {
        self.buf@.skip(self.pos as int)
    }
}

impl<'a> Reader<'a> {
    pub closed spec fn wf(&self) -> bool {
        self.pos <= self.buf@.len()
    }

    pub fn new(buf: &'a [u8]) -> (r: Reader<'a>)
        ensures
            r.wf(),
            r@ == buf@,
    {
        let r = Reader { buf, pos: 0 };
        proof {
            assert(r@ =~= buf@);
        }
        r
    }

    pub fn remaining(&self) -> (n: usize)
        requires
            self.wf(),
        ensures
            n == self@.len(),
    {
        self.buf.len() - self.pos
    }

    /// Reads one byte.
    pub fn u8(&mut self) -> (r: Result<u8, TlvError>)
        requires
            old(self).wf(),
        ensures
            final(self).wf(),
            match r {
                Ok(b) => old(self)@.len() > 0 && b == old(self)@[0] && final(self)@ == old(
                    self,
                )@.skip(1),
                Err(e) => e == TlvError::TruncatedInput && old(self)@.len() == 0 && *final(self) == *old(self),
            },
    {
        if self.pos < self.buf.len() {
            let b = self.buf[self.pos];
            self.pos = self.pos + 1;
            proof {
                assert(final(self)@ =~= old(self)@.skip(1));
            }
            Ok(b)
        } else {
            Err(TlvError::TruncatedInput)
        }
    }

    /// Reads exactly `n` bytes.
    pub fn read_bytes(&mut self, n: usize) -> (r: Result<Vec<u8>, TlvError>)
        requires
            old(self).wf(),
        ensures
            final(self).wf(),
            match r {
                Ok(v) => old(self)@.len() >= n && v@ == old(self)@.take(n as int) && final(self)@
                    == old(self)@.skip(n as int),
                Err(e) => e == TlvError::TruncatedInput && old(self)@.len() < n && *final(self) == *old(self),
            },
    {
        if n > self.buf.len() - self.pos {
            return Err(TlvError::TruncatedInput);
        }
        let mut v: Vec<u8> = Vec::new();
        let mut i: usize = 0;
        while i < n
            invariant
                i <= n,
                self == old(self),
                self.pos + n <= self.buf@.len(),
                self.buf@.len() <= usize::MAX,
                v@ =~= self.buf@.subrange(self.pos as int, self.pos + i),
            decreases n - i,
        {
            v.push(self.buf[self.pos + i]);
            i = i + 1;
        }
        self.pos = self.pos + n;
        proof {
            assert(v@ =~= old(self)@.take(n as int));
            assert(final(self)@ =~= old(self)@.skip(n as int));
        }
        Ok(v)
    }

    /// Reads `expected.len()` bytes and checks that they equal `expected`.
    pub fn expect(&mut self, expected: &[u8]) -> (r: Result<(), TlvError>)
        requires
            old(self).wf(),
        ensures
            final(self).wf(),
            match r {
                Ok(_) => old(self)@.len() >= expected@.len() && old(self)@.take(
                    expected@.len() as int,
                ) == expected@ && final(self)@ == old(self)@.skip(expected@.len() as int),
                Err(e) => *final(self) == *old(self) && match e {
                    TlvError::TruncatedInput => old(self)@.len() < expected@.len(),
                    TlvError::MagicMismatch => old(self)@.len() >= expected@.len() && old(
                        self,
                    )@.take(expected@.len() as int) != expected@,
                    _ => false,
                },
            },
    {
        let n = expected.len();
        if n > self.buf.len() - self.pos {
            return Err(TlvError::TruncatedInput);
        }
        let mut i: usize = 0;
        while i < n
            invariant
                i <= n,
                self == old(self),
                n == expected@.len(),
                self.pos + n <= self.buf@.len(),
                self.buf@.len() <= usize::MAX,
                forall|j: int| 0 <= j < i ==> self@[j] == expected@[j],
            decreases n - i,
        {
            if self.buf[self.pos + i] != expected[i] {
                proof {
                    assert(old(self)@.take(n as int)[i as int] != expected@[i as int]);
                }
                return Err(TlvError::MagicMismatch);
            }
            i = i + 1;
        }
        self.pos = self.pos + n;
        proof {
            assert(old(self)@.take(n as int) =~= expected@);
            assert(final(self)@ =~= old(self)@.skip(n as int));
        }
        Ok(())
    }

    /// Reads a 4-byte little-endian length field.
    pub fn length(&mut self) -> (r: Result<u32, TlvError>)
        requires
            old(self).wf(),
        ensures
            final(self).wf(),
            match r {
                Ok(x) => old(self)@.len() >= 4 && x == spec_u32_from_le_bytes(
                    old(self)@.take(4),
                ) && final(self)@ == old(self)@.skip(4),
                Err(e) => e == TlvError::TruncatedInput && old(self)@.len() < 4 && *final(self) == *old(self),
            },
    {
        match self.read_bytes(4) {
            Err(e) => Err(e),
            Ok(v) => Ok(u32_from_le_bytes(v.as_slice())),
        }
    }

    /// Reads a 4-byte little-endian length, then exactly that many bytes.
    /// A declared length over `limit` is rejected before anything is
    /// allocated for it.
    pub fn lv_bytes_to_vec(&mut self, limit: usize) -> (r: Result<Vec<u8>, TlvError>)
        requires
            old(self).wf(),
        ensures
            final(self).wf(),
            match r {
                Ok(v) => {
                    let l = spec_u32_from_le_bytes(old(self)@.take(4)) as int;
                    &&& old(self)@.len() >= 4 + l
                    &&& l <= limit
                    &&& v@ == old(self)@.subrange(4, 4 + l)
                    &&& final(self)@ == old(self)@.skip(4 + l)
                },
                Err(e) => {
                    let l = spec_u32_from_le_bytes(old(self)@.take(4)) as int;
                    match e {
                        TlvError::TruncatedInput => old(self)@.len() < 4 || (l <= limit && old(
                            self,
                        )@.len() < 4 + l),
                        TlvError::DataTooBig => old(self)@.len() >= 4 && l > limit,
                        _ => false,
                    }
                },
            },
    {
        let l = match self.length() {
            Err(e) => {
                return Err(e);
            },
            Ok(x) => x,
        };
        let l = l as usize;
        if l > limit {
            return Err(TlvError::DataTooBig);
        }
        match self.read_bytes(l) {
            Err(e) => Err(e),
            Ok(v) => {
                proof {
                    assert(v@ =~= old(self)@.subrange(4, 4 + l));
                    assert(final(self)@ =~= old(self)@.skip(4 + l));
                }
                Ok(v)
            },
        }
    }
}

} // verus!
