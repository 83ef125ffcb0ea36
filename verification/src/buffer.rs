//! Byte-level cursor over a linear buffer.
//!
//! A `Reader` walks over a byte vector and hands out prefixes of what is
//! left; every decoding failure is reported through the single sentinel
//! error `DidntRead`. Writing appends to a growable `Vec<u8>`, so encoding
//! never fails.

use vstd::prelude::*;

verus! {

/// Sentinel decoding error: the bytes at hand do not hold the value asked
/// for (the buffer is exhausted or the content is malformed).
#[derive(Debug, Clone, Copy, PartialEq, Eq, Structural)]
pub struct DidntRead;

/// A read cursor over an owned byte vector.
pub struct Reader {
    pub buf: Vec<u8>,
    pub pos: usize,
}

impl Reader {
    /// The cursor never stands past the end of the buffer.
    pub open spec fn wf(self) -> bool {
        self.pos <= self.buf@.len()
    }

    /// The bytes not yet consumed.
    pub open spec fn remaining(self) -> Seq<u8> {
        self.buf@.skip(self.pos as int)
    }

    /// The whole underlying buffer, consumed or not.
    pub open spec fn all_bytes(self) -> Seq<u8> {
        self.buf@
    }

    pub fn new(buf: Vec<u8>) -> (r: Reader)
        ensures
            r.wf(),
            r.remaining() == buf@,
            r.all_bytes() == buf@,
    {
        let r = Reader { buf, pos: 0 };
        proof {
            assert(r.remaining() =~= r.buf@);
        }
        r
    }

    pub fn can_read(&self) -> (b: bool)
        requires
            self.wf(),
        ensures
            b == (self.remaining().len() > 0),
    {
        self.pos < self.buf.len()
    }

    pub fn remaining_len(&self) -> (n: usize)
        requires
            self.wf(),
        ensures
            n == self.remaining().len(),
    {
        self.buf.len() - self.pos
    }

    pub fn read_u8(&mut self) -> (res: Result<u8, DidntRead>)
        requires
            old(self).wf(),
        ensures
            final(self).wf(),
            final(self).all_bytes() == old(self).all_bytes(),
            match res {
                Ok(x) => old(self).remaining().len() > 0 && x == old(self).remaining()[0]
                    && final(self).remaining() == old(self).remaining().skip(1),
                Err(_) => old(self).remaining().len() == 0 && *final(self) == *old(self),
            },
    {
        if self.pos < self.buf.len() {
            let x = self.buf[self.pos];
            self.pos = self.pos + 1;
            proof {
                assert(self.remaining() =~= old(self).remaining().skip(1));
            }
            Ok(x)
        } else {
            Err(DidntRead)
        }
    }

    /// Reads exactly `n` bytes, or fails leaving the cursor unspecified.
    pub fn read_bytes(&mut self, n: usize) -> (res: Result<Vec<u8>, DidntRead>)
        requires
            old(self).wf(),
        ensures
            final(self).wf(),
            final(self).all_bytes() == old(self).all_bytes(),
            match res {
                Ok(v) => n <= old(self).remaining().len()
                    && v@ == old(self).remaining().take(n as int)
                    && final(self).remaining() == old(self).remaining().skip(n as int),
                Err(_) => old(self).remaining().len() < n && *final(self) == *old(self),
            },
    {
        if self.buf.len() - self.pos < n {
            return Err(DidntRead);
        }
        let mut v: Vec<u8> = Vec::new();
        let mut i: usize = 0;
        while i < n
            invariant
                i <= n,
                self.wf(),
                self == old(self),
                n <= self.remaining().len(),
                self.pos + n <= self.buf@.len(),
                self.buf@.len() <= usize::MAX,
                v@ =~= self.remaining().take(i as int),
            decreases n - i,
        {
            v.push(self.buf[self.pos + i]);
            i = i + 1;
        }
        self.pos = self.pos + n;
        proof {
            assert(v@ =~= old(self).remaining().take(n as int));
            assert(self.remaining() =~= old(self).remaining().skip(n as int));
        }
        Ok(v)
    }
}

/// Appends all of `b` to the writer.
pub fn write_bytes(w: &mut Vec<u8>, b: &Vec<u8>)
    ensures
        final(w)@ == old(w)@ + b@,
{
    let mut i: usize = 0;
    while i < b.len()
        invariant
            i <= b@.len(),
            w@ =~= old(w)@ + b@.take(i as int),
        decreases b@.len() - i,
    {
        let x = b[i];
        w.push(x);
        i = i + 1;
    }
    proof {
        assert(w@ =~= old(w)@ + b@);
    }
}

} // verus!
