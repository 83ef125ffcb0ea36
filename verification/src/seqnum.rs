//! Sequence-number tracking under a negotiated resolution.
//!
//! Sequence numbers live modulo `2^r` for a resolution of `r` bits,
//! `r` one of 8, 16, 32 or 64. A number "precedes" from the current one
//! when it lies in the forward window: strictly after the current value
//! and less than half the range ahead of it.

use crate::TransportError;
use vstd::prelude::*;

verus! {

/// True for the resolutions a session may negotiate.
pub open spec fn valid_bits(bits: u8) -> bool {
    bits == 8 || bits == 16 || bits == 32 || bits == 64
}

/// The modulus of a resolution: `2^bits`.
pub open spec fn modulus(bits: u8) -> int {
    if bits == 8 {
        0x100
    } else if bits == 16 {
        0x10000
    } else if bits == 32 {
        0x1_0000_0000
    } else {
        0x1_0000_0000_0000_0000
    }
}

/// Half the range of a resolution: `2^(bits-1)`.
pub open spec fn half_span(bits: u8) -> int {
    modulus(bits) / 2
}

/// The forward-window order: `next` is ahead of `cur` by at least one
/// and by less than half the range, modulo the resolution.
pub open spec fn spec_precedes(cur: u64, next: u64, bits: u8) -> bool {
    let gap = (next - cur) % modulus(bits);
    1 <= gap < half_span(bits)
}

/// Tracker of the last accepted sequence number on one lane.
pub struct SeqNum {
    pub value: u64,
    pub bits: u8,
}

impl SeqNum {
    /// The resolution is one of the negotiable ones and the value lies
    /// inside it.
    pub open spec fn wf(self) -> bool {
        valid_bits(self.bits) && self.value < modulus(self.bits)
    }

    pub fn new(bits: u8, initial: u64) -> (r: SeqNum)
        requires
            valid_bits(bits),
            initial < modulus(bits),
        ensures
            r.wf(),
            r.value == initial,
            r.bits == bits,
    {
        SeqNum { value: initial, bits }
    }

    /// The modulus of this tracker's resolution, capped for 64 bits at
    /// the largest `u64` (the modulus itself does not fit then).
    fn modulus_minus_one(&self) -> (m: u64)
        requires
            self.wf(),
        ensures
            m as int == modulus(self.bits) - 1,
    {
        if self.bits == 8 {
            0xff
        } else if self.bits == 16 {
            0xffff
        } else if self.bits == 32 {
            0xffff_ffff
        } else {
            0xffff_ffff_ffff_ffff
        }
    }

    pub fn get(&self) -> (v: u64)
        ensures
            v == self.value,
    {
        self.value
    }

    /// Whether `next` lies in the forward window from the current value;
    /// fails when `next` does not fit the resolution.
    pub fn precedes(&self, next: u64) -> (res: Result<bool, TransportError>)
        requires
            self.wf(),
        ensures
            match res {
                Ok(p) => next < modulus(self.bits) && p == spec_precedes(
                    self.value,
                    next,
                    self.bits,
                ),
                Err(e) => next >= modulus(self.bits) && e == TransportError::InvalidSn,
            },
    {
        let m1 = self.modulus_minus_one();
        if !(next <= m1) {
            return Err(TransportError::InvalidSn);
        }
        let gap: u64 = if next >= self.value {
            next - self.value
        } else {
            (m1 - self.value) + 1 + next
        };
        proof {
            assert(gap as int == (next - self.value) % modulus(self.bits)) by {
                let m = modulus(self.bits);
                if next >= self.value {
                    assert((next - self.value) % m == next - self.value);
                } else {
                    assert((next - self.value) % m == next - self.value + m);
                }
            };
        }
        let half_minus_one: u64 = if self.bits == 8 {
            0x7f
        } else if self.bits == 16 {
            0x7fff
        } else if self.bits == 32 {
            0x7fff_ffff
        } else {
            0x7fff_ffff_ffff_ffff
        };
        Ok(1 <= gap && gap <= half_minus_one)
    }

    /// Advances the current value; fails when `next` does not fit the
    /// resolution.
    pub fn set(&mut self, next: u64) -> (res: Result<(), TransportError>)
        requires
            old(self).wf(),
        ensures
            final(self).wf(),
            final(self).bits == old(self).bits,
            match res {
                Ok(_) => next < modulus(old(self).bits) && final(self).value == next,
                Err(e) => next >= modulus(old(self).bits) && *final(self) == *old(self) && e
                    == TransportError::InvalidSn,
            },
    {
        let m1 = self.modulus_minus_one();
        if !(next <= m1) {
            return Err(TransportError::InvalidSn);
        }
        self.value = next;
        Ok(())
    }
}

/// The forward window holds exactly the `2^(r-1) - 1` values immediately
/// following the current one (law): the value `k` steps ahead of `cur`,
/// modulo the resolution, precedes `cur` if and only if
/// `1 <= k < 2^(r-1)`.
pub proof fn lemma_precedes_window(cur: u64, k: int, bits: u8)
    requires
        valid_bits(bits),
        cur < modulus(bits),
        0 <= k < modulus(bits),
    ensures
        spec_precedes(cur, ((cur + k) % modulus(bits)) as u64, bits) <==> (1 <= k < half_span(
            bits,
        )),
{
    let m = modulus(bits);
    let next = (cur + k) % m;
    if cur + k < m {
        assert(next == cur + k);
        assert((next - cur) % m == k);
    } else {
        assert(next == cur + k - m);
        assert((next - cur) % m == k - m + m);
    }
}

} // verus!
