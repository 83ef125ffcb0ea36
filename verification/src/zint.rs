//! Variable-length unsigned integers.
//!
//! A `u64` is laid out little-endian in 7-bit groups, one byte per group,
//! with the high bit of each byte flagging that another group follows.
//! A canonical encoding takes at most 10 bytes. The decoder accepts
//! non-canonical zero padding but fails on any encoding whose value would
//! not fit in 64 bits; re-encoding always yields the canonical form.

use crate::buffer::{DidntRead, Reader};
use vstd::prelude::*;

verus! {

/// Canonical encoding of `n`, least-significant group first.
pub open spec fn enc_zint(n: u64) -> Seq<u8>
    decreases n,
{
    if n < 128 {
        seq![n as u8]
    } else {
        seq![(n % 128 + 128) as u8] + enc_zint(n / 128)
    }
}

/// Decodes a varint from the front of `b`: the value and the number of
/// bytes consumed, or `None` when `b` is exhausted mid-number or the value
/// overflows 64 bits.
pub open spec fn dec_zint(b: Seq<u8>) -> Option<(u64, int)>
    decreases b.len(),
{
    if b.len() == 0 {
        None
    } else if b[0] < 128 {
        Some((b[0] as u64, 1))
    } else {
        match dec_zint(b.skip(1)) {
            None => None,
            Some((v, n)) => {
                let t = (b[0] - 128) + 128 * (v as int);
                if t > u64::MAX {
                    None
                } else {
                    Some((t as u64, 1 + n))
                }
            },
        }
    }
}

/// A decoded varint consumed between one byte and the whole input.
pub proof fn lemma_dec_zint_bounds(b: Seq<u8>)
    ensures
        match dec_zint(b) {
            Some((v, n)) => 1 <= n <= b.len(),
            None => true,
        },
    decreases b.len(),
{
    if b.len() > 0 && b[0] >= 128 {
        lemma_dec_zint_bounds(b.skip(1));
    }
}

/// The canonical encoding is minimal: it is never longer than any byte
/// run that decodes to the same value.
pub proof fn lemma_dec_zint_minimal(b: Seq<u8>)
    ensures
        match dec_zint(b) {
            Some((v, n)) => enc_zint(v).len() <= n,
            None => true,
        },
    decreases b.len(),
{
    if b.len() > 0 && b[0] >= 128 {
        lemma_dec_zint_minimal(b.skip(1));
        if dec_zint(b.skip(1)) is Some {
            let (v, n) = dec_zint(b.skip(1))->Some_0;
            let t = (b[0] - 128) + 128 * (v as int);
            if t <= u64::MAX {
                assert((t as u64) / 128 == v) by {
                    vstd::arithmetic::div_mod::lemma_fundamental_div_mod_converse(
                        t,
                        128,
                        v as int,
                        b[0] - 128,
                    );
                };
            }
        }
    }
}

/// Round trip: decoding an encoding recovers the value, whatever follows.
pub proof fn lemma_zint_round_trip(n: u64, rest: Seq<u8>)
    ensures
        dec_zint(enc_zint(n) + rest) == Some((n, enc_zint(n).len() as int)),
    decreases n,
{
    if n < 128 {
        assert((enc_zint(n) + rest)[0] == n as u8);
        assert((enc_zint(n) + rest).skip(1) =~= rest);
    } else {
        lemma_zint_round_trip(n / 128, rest);
        assert((enc_zint(n) + rest).skip(1) =~= enc_zint(n / 128) + rest);
        assert((enc_zint(n) + rest)[0] == (n % 128 + 128) as u8);
        assert((n % 128 + 128) as u8 - 128 + 128 * ((n / 128) as int) == n as int);
    }
}

/// Writes the canonical encoding of `n`.
pub fn write_zint(w: &mut Vec<u8>, n: u64)
    ensures
        final(w)@ == old(w)@ + enc_zint(n),
    decreases n,
{
    if n < 128 {
        w.push(n as u8);
        proof {
            assert(w@ =~= old(w)@ + enc_zint(n));
        }
    } else {
        w.push((n % 128 + 128) as u8);
        write_zint(w, n / 128);
        proof {
            assert(w@ =~= old(w)@ + enc_zint(n));
        }
    }
}

/// Encoding of a byte array: varint length prefix, then the raw bytes.
pub open spec fn enc_zbuf(s: Seq<u8>) -> Seq<u8> {
    enc_zint(s.len() as u64) + s
}

/// Decodes a length-prefixed byte array from the front of `b`.
pub open spec fn dec_zbuf(b: Seq<u8>) -> Option<(Seq<u8>, int)> {
    match dec_zint(b) {
        None => None,
        Some((len, n)) => if n + len <= b.len() {
            Some((b.subrange(n, n + len), n + len))
        } else {
            None
        },
    }
}

/// A decoded byte array consumed between one byte and the whole input,
/// and its contents fit a 64-bit length.
pub proof fn lemma_dec_zbuf_bounds(b: Seq<u8>)
    ensures
        match dec_zbuf(b) {
            Some((s, n)) => 1 <= n <= b.len() && s.len() <= u64::MAX,
            None => true,
        },
{
    lemma_dec_zint_bounds(b);
}

/// Round trip for byte arrays, whatever follows the encoding.
pub proof fn lemma_zbuf_round_trip(s: Seq<u8>, rest: Seq<u8>)
    requires
        s.len() <= u64::MAX,
    ensures
        dec_zbuf(enc_zbuf(s) + rest) == Some((s, enc_zbuf(s).len() as int)),
{
    let all = enc_zbuf(s) + rest;
    assert(all =~= enc_zint(s.len() as u64) + (s + rest));
    lemma_zint_round_trip(s.len() as u64, s + rest);
    let n = enc_zint(s.len() as u64).len() as int;
    assert(all.subrange(n, n + s.len()) =~= s);
}

/// Reads one varint, failing exactly when `dec_zint` has no answer.
pub fn read_zint(r: &mut Reader) -> (res: Result<u64, DidntRead>)
    requires
        old(r).wf(),
    ensures
        final(r).wf(),
        final(r).all_bytes() == old(r).all_bytes(),
        match res {
            Ok(v) => dec_zint(old(r).remaining()) == Some((v, (old(r).remaining().len() - final(r).remaining().len()) as int))
                && final(r).remaining() == old(r).remaining().skip(old(r).remaining().len() - final(r).remaining().len()),
            Err(_) => dec_zint(old(r).remaining()) is None,
        },
    decreases old(r).remaining().len(),
{
    let x = match r.read_u8() {
        Ok(x) => x,
        Err(e) => {
            return Err(e);
        },
    };
    proof {
        assert(old(r).remaining()[0] == x);
    }
    if x < 128 {
        Ok(x as u64)
    } else {
        let ghost rem1 = r.remaining();
        let v = match read_zint(r) {
            Ok(v) => v,
            Err(e) => {
                return Err(e);
            },
        };
        let ghost n_in = rem1.len() - r.remaining().len();
        proof {
            assert(dec_zint(rem1) == Some((v, n_in as int)));
            assert(rem1 =~= old(r).remaining().skip(1));
            lemma_dec_zint_bounds(rem1);
            assert(r.remaining() =~= old(r).remaining().skip(1 + n_in as int));
        }
        let low = (x - 128) as u64;
        if v > (u64::MAX - low) / 128 {
            proof {
                assert((x - 128) + 128 * (v as int) > u64::MAX);
            }
            return Err(DidntRead);
        }
        proof {
            assert((x - 128) + 128 * (v as int) <= u64::MAX);
            assert(dec_zint(old(r).remaining()) == Some(((low + 128 * v) as u64, 1 + n_in as int)));
        }
        Ok(low + 128 * v)
    }
}

/// Writes the length of `b` as a varint, then its bytes.
pub fn write_zbuf(w: &mut Vec<u8>, b: &Vec<u8>)
    ensures
        final(w)@ == old(w)@ + enc_zbuf(b@),
{
    write_zint(w, b.len() as u64);
    crate::buffer::write_bytes(w, b);
    proof {
        assert(w@ =~= old(w)@ + enc_zbuf(b@));
    }
}

/// Reads one length-prefixed byte array, failing exactly when `dec_zbuf`
/// has no answer.
pub fn read_zbuf(r: &mut Reader) -> (res: Result<Vec<u8>, DidntRead>)
    requires
        old(r).wf(),
    ensures
        final(r).wf(),
        final(r).all_bytes() == old(r).all_bytes(),
        match res {
            Ok(v) => dec_zbuf(old(r).remaining()) == Some((v@, (old(r).remaining().len() - final(r).remaining().len()) as int))
                && final(r).remaining() == old(r).remaining().skip(old(r).remaining().len() - final(r).remaining().len()),
            Err(_) => dec_zbuf(old(r).remaining()) is None,
        },
{
    let ghost rem0 = old(r).remaining();
    let len = match read_zint(r) {
        Ok(v) => v,
        Err(e) => {
            return Err(e);
        },
    };
    let ghost n = rem0.len() - r.remaining().len();
    proof {
        lemma_dec_zint_bounds(rem0);
        assert(1 <= n <= rem0.len());
    }
    let avail = r.remaining_len();
    if len > avail as u64 {
        proof {
            assert(dec_zbuf(rem0) is None);
        }
        return Err(DidntRead);
    }
    let v = match r.read_bytes(len as usize) {
        Ok(v) => v,
        Err(e) => {
            return Err(e);
        },
    };
    proof {
        assert(rem0.skip(n as int).take(len as int) =~= rem0.subrange(n as int, n + len));
        assert(r.remaining() =~= rem0.skip(n + len));
    }
    Ok(v)
}

} // verus!
