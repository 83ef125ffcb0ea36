//! Fragment reassembly for one lane.
//!
//! A defragmenter is either empty or holds the payloads of a contiguous
//! run of fragment sequence numbers starting at its sync point. A
//! fragment with any other sequence number clears the buffer and is an
//! error; finalizing parses the concatenation of the buffered payloads
//! as one message and always leaves the buffer empty.

use crate::buffer::Reader;
use crate::request::{dec_request, read_request, ReqView, Request};
use crate::seqnum::{modulus, valid_bits};
use crate::TransportError;
use vstd::prelude::*;

verus! {

/// The concatenation of a run of fragment payloads, in order.
pub open spec fn concat_frags(s: Seq<Seq<u8>>) -> Seq<u8>
    decreases s.len(),
{
    if s.len() == 0 {
        Seq::empty()
    } else {
        concat_frags(s.drop_last()) + s.last()
    }
}

/// What a successful reassembly yields: the bytes parse as exactly one
/// message, nothing left over.
pub open spec fn reassembles(bytes: Seq<u8>) -> Option<ReqView> {
    match dec_request(bytes) {
        Some((m, n)) => if n == bytes.len() {
            Some(m)
        } else {
            None
        },
        None => None,
    }
}

/// Buffer of the fragment payloads of one in-progress message.
pub struct Defragmenter {
    pub sn: u64,
    pub sync_sn: u64,
    pub frags: Vec<Vec<u8>>,
    pub bits: u8,
}

impl Defragmenter {
    pub open spec fn wf(self) -> bool {
        valid_bits(self.bits) && self.sn < modulus(self.bits) && self.sync_sn < modulus(self.bits)
    }

    /// The buffered payloads, as byte runs.
    pub open spec fn frags_view(self) -> Seq<Seq<u8>> {
        self.frags@.map(|i: int, v: Vec<u8>| v@)
    }

    pub fn new(bits: u8) -> (r: Defragmenter)
        requires
            valid_bits(bits),
        ensures
            r.wf(),
            r.bits == bits,
            r.frags_view() =~= Seq::<Seq<u8>>::empty(),
    {
        Defragmenter { sn: 0, sync_sn: 0, frags: Vec::new(), bits }
    }

    pub fn is_empty(&self) -> (b: bool)
        ensures
            b == (self.frags_view().len() == 0),
    {
        self.frags.len() == 0
    }

    /// Sets the sync point; only legal on an empty buffer.
    pub fn sync(&mut self, sn: u64)
        requires
            old(self).wf(),
            old(self).frags_view().len() == 0,
            sn < modulus(old(self).bits),
        ensures
            final(self).wf(),
            final(self).bits == old(self).bits,
            final(self).sn == sn,
            final(self).sync_sn == sn,
            final(self).frags_view() == old(self).frags_view(),
    {
        self.sn = sn;
        self.sync_sn = sn;
    }

    /// Drops every buffered fragment.
    pub fn clear(&mut self)
        requires
            old(self).wf(),
        ensures
            final(self).wf(),
            final(self).bits == old(self).bits,
            final(self).sn == old(self).sn,
            final(self).sync_sn == old(self).sync_sn,
            final(self).frags_view() =~= Seq::<Seq<u8>>::empty(),
    {
        self.frags.clear();
    }

    /// Buffers one fragment payload (law: non-contiguity): a payload
    /// whose sequence number is the expected next one is appended and
    /// the expectation advances; any other sequence number clears the
    /// buffer and is an error.
    pub fn push(&mut self, sn: u64, buf: Vec<u8>) -> (res: Result<(), TransportError>)
        requires
            old(self).wf(),
        ensures
            final(self).wf(),
            final(self).bits == old(self).bits,
            match res {
                Ok(_) => sn == old(self).sn
                    && final(self).frags_view() =~= old(self).frags_view().push(buf@)
                    && final(self).sn == (old(self).sn + 1) % modulus(old(self).bits)
                    && final(self).sync_sn == old(self).sync_sn,
                Err(e) => sn != old(self).sn && e == TransportError::FragmentGap
                    && final(self).frags_view() =~= Seq::<Seq<u8>>::empty()
                    && final(self).sn == old(self).sn
                    && final(self).sync_sn == old(self).sync_sn,
            },
    {
        if sn != self.sn {
            self.frags.clear();
            return Err(TransportError::FragmentGap);
        }
        self.frags.push(buf);
        let m1: u64 = if self.bits == 8 {
            0xff
        } else if self.bits == 16 {
            0xffff
        } else if self.bits == 32 {
            0xffff_ffff
        } else {
            0xffff_ffff_ffff_ffff
        };
        if self.sn == m1 {
            self.sn = 0;
        } else {
            self.sn = self.sn + 1;
        }
        Ok(())
    }

    /// Parses the concatenation of the buffered payloads as one message;
    /// the buffer is empty afterwards either way.
    pub fn defragment(&mut self) -> (res: Option<Request>)
        requires
            old(self).wf(),
        ensures
            final(self).wf(),
            final(self).bits == old(self).bits,
            final(self).sn == old(self).sn,
            final(self).sync_sn == old(self).sync_sn,
            final(self).frags_view() =~= Seq::<Seq<u8>>::empty(),
            match res {
                Some(msg) => reassembles(concat_frags(old(self).frags_view())) == Some(msg@),
                None => reassembles(concat_frags(old(self).frags_view())) is None,
            },
    {
        let mut bytes: Vec<u8> = Vec::new();
        let mut i: usize = 0;
        let n = self.frags.len();
        while i < n
            invariant
                i <= n,
                n == self.frags@.len(),
                self == old(self),
                bytes@ =~= concat_frags(self.frags_view().take(i as int)),
            decreases n - i,
        {
            crate::buffer::write_bytes(&mut bytes, &self.frags[i]);
            proof {
                assert(self.frags_view().take(i + 1).drop_last() =~= self.frags_view().take(
                    i as int,
                ));
                assert(self.frags_view().take(i + 1).last() == self.frags_view()[i as int]);
            }
            i = i + 1;
        }
        proof {
            assert(self.frags_view().take(n as int) =~= self.frags_view());
        }
        self.frags.clear();
        let ghost all = concat_frags(old(self).frags_view());
        let total = bytes.len();
        let mut rd = Reader::new(bytes);
        match read_request(&mut rd) {
            Ok(msg) => {
                let rest = rd.remaining_len();
                if rest == 0 {
                    proof {
                        assert(reassembles(all) == Some(msg@));
                    }
                    Some(msg)
                } else {
                    None
                }
            },
            Err(_) => None,
        }
    }
}

} // verus!
