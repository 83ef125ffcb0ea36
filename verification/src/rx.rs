//! The unicast receive pipeline.
//!
//! A transport owns one receive conduit per priority (or a single one
//! when QoS is off), each with a reliable and a best-effort lane. A lane
//! orders frames by sequence number under the forward window, reassembles
//! fragment runs, and hands whole messages to the user callback. A frame
//! out of window is dropped silently, clearing any reassembly in
//! progress. A Close message asks for teardown unless it names a peer
//! other than the local one; KeepAlive and unknown bodies are no-ops.

use crate::defrag::{concat_frags, reassembles, Defragmenter};
use crate::request::{ReqView, Request};
use crate::seqnum::{modulus, spec_precedes, valid_bits, SeqNum};
use crate::TransportError;
use vstd::prelude::*;

verus! {

/// Priority class of a conduit.
#[derive(Debug, Clone, Copy, PartialEq, Eq, Structural)]
pub enum Priority {
    Control,
    RealTime,
    InteractiveHigh,
    InteractiveLow,
    DataHigh,
    Data,
    DataLow,
    Background,
}

impl Default for Priority {
    fn default() -> (r: Self)
        ensures
            r == Priority::Data,
    {
        Priority::Data
    }
}

/// The conduit slot of a priority.
pub open spec fn prio_index(p: Priority) -> int {
    match p {
        Priority::Control => 0,
        Priority::RealTime => 1,
        Priority::InteractiveHigh => 2,
        Priority::InteractiveLow => 3,
        Priority::DataHigh => 4,
        Priority::Data => 5,
        Priority::DataLow => 6,
        Priority::Background => 7,
    }
}

impl Priority {
    pub fn index(&self) -> (i: usize)
        ensures
            i == prio_index(*self),
            i < 8,
    {
        match self {
            Priority::Control => 0,
            Priority::RealTime => 1,
            Priority::InteractiveHigh => 2,
            Priority::InteractiveLow => 3,
            Priority::DataHigh => 4,
            Priority::Data => 5,
            Priority::DataLow => 6,
            Priority::Background => 7,
        }
    }
}

/// Reliability lane of a conduit.
#[derive(Debug, Clone, Copy, PartialEq, Eq, Structural)]
pub enum Reliability {
    Reliable,
    BestEffort,
}

/// The (priority, reliability) pair a frame rides on.
#[derive(Debug, Clone, Copy, PartialEq, Eq, Structural)]
pub struct Channel {
    pub priority: Priority,
    pub reliability: Reliability,
}

/// Payload of a frame: one fragment of a larger message, or a batch of
/// whole messages.
#[derive(Debug, Clone, PartialEq, Eq)]
pub enum FramePayload {
    Fragment { buffer: Vec<u8>, is_final: bool },
    Messages { messages: Vec<Request> },
}

/// A transport frame.
#[derive(Debug, Clone, PartialEq, Eq)]
pub struct Frame {
    pub channel: Channel,
    pub sn: u64,
    pub payload: FramePayload,
}

/// The identifier of a peer.
#[derive(Debug, Clone, Copy, PartialEq, Eq, Structural)]
pub struct PeerId {
    pub id: u64,
}

/// A close announcement.
#[derive(Debug, Clone, Copy, PartialEq, Eq, Structural)]
pub struct Close {
    pub pid: Option<PeerId>,
    pub reason: u8,
    pub link_only: bool,
}

/// A liveness probe; empty.
#[derive(Debug, Clone, Copy, PartialEq, Eq, Structural)]
pub struct KeepAlive;

/// Body of a transport message. `Other` stands for the bodies this layer
/// forwards past (handshake and the like).
#[derive(Debug, Clone, PartialEq, Eq)]
pub enum TransportBody {
    Frame(Frame),
    Close(Close),
    KeepAlive(KeepAlive),
    Other,
}

/// A transport message.
#[derive(Debug, Clone, PartialEq, Eq)]
pub struct TransportMessage {
    pub body: TransportBody,
}

/// What the caller must do after a message was handled: nothing, drop
/// the one link, or tear the whole transport down. The teardown itself
/// is the caller's, on a task of its own.
#[derive(Debug, Clone, Copy, PartialEq, Eq, Structural)]
pub enum TeardownAction {
    Continue,
    DelLink,
    DelTransport,
}

/// One reliability lane: its sequence tracker and its defragmenter.
pub struct TransportChannelRx {
    pub sn: SeqNum,
    pub defrag: Defragmenter,
}

/// Mathematical model of a lane.
#[verifier::ext_equal]
pub struct LaneView {
    pub sn: u64,
    pub bits: u8,
    pub frag_sn: u64,
    pub sync_sn: u64,
    pub frags: Seq<Seq<u8>>,
}

impl View for TransportChannelRx {
    type V = LaneView;

    open spec fn view(&self) -> LaneView {
        LaneView {
            sn: self.sn.value,
            bits: self.sn.bits,
            frag_sn: self.defrag.sn,
            sync_sn: self.defrag.sync_sn,
            frags: self.defrag.frags_view(),
        }
    }
}

/// The lane's resolution is negotiable and every number lies inside it.
pub open spec fn lane_wf(l: LaneView) -> bool {
    valid_bits(l.bits) && l.sn < modulus(l.bits) && l.frag_sn < modulus(l.bits) && l.sync_sn
        < modulus(l.bits)
}

impl TransportChannelRx {
    pub open spec fn wf(self) -> bool {
        self.sn.wf() && self.defrag.wf() && self.defrag.bits == self.sn.bits
    }

    pub fn new(bits: u8, initial_sn: u64) -> (r: TransportChannelRx)
        requires
            valid_bits(bits),
            initial_sn < modulus(bits),
        ensures
            r.wf(),
            r@.bits == bits,
            r@.sn == initial_sn,
            r@.frags =~= Seq::<Seq<u8>>::empty(),
    {
        TransportChannelRx { sn: SeqNum::new(bits, initial_sn), defrag: Defragmenter::new(bits) }
    }
}

/// The views of a run of messages.
pub open spec fn views_of(s: Seq<Request>) -> Seq<ReqView> {
    s.map(|i: int, m: Request| m@)
}

/// What one frame does to a lane: the lane afterwards, the views of the
/// messages handed to the callback, and the error if any. A frame out of
/// the forward window is dropped without error, clearing any reassembly
/// in progress.
pub open spec fn lane_frame_spec(l: LaneView, sn: u64, payload: FramePayload) -> (
    LaneView,
    Seq<ReqView>,
    Option<TransportError>,
) {
    if sn >= modulus(l.bits) {
        (l, Seq::empty(), Some(TransportError::InvalidSn))
    } else if !spec_precedes(l.sn, sn, l.bits) {
        (LaneView { frags: Seq::empty(), ..l }, Seq::empty(), None)
    } else {
        let l1 = LaneView { sn, ..l };
        match payload {
            FramePayload::Fragment { buffer, is_final } => {
                let l2 = if l1.frags.len() == 0 {
                    LaneView { frag_sn: sn, sync_sn: sn, ..l1 }
                } else {
                    l1
                };
                if sn != l2.frag_sn {
                    (
                        LaneView { frags: Seq::empty(), ..l2 },
                        Seq::empty(),
                        Some(TransportError::FragmentGap),
                    )
                } else {
                    let l3 = LaneView {
                        frags: l2.frags.push(buffer@),
                        frag_sn: ((sn + 1) % modulus(l2.bits)) as u64,
                        ..l2
                    };
                    if is_final {
                        let l4 = LaneView { frags: Seq::empty(), ..l3 };
                        match reassembles(concat_frags(l3.frags)) {
                            Some(mv) => (l4, seq![mv], None),
                            None => (l4, Seq::empty(), Some(TransportError::Defragmentation)),
                        }
                    } else {
                        (l3, Seq::empty(), None)
                    }
                }
            },
            FramePayload::Messages { messages } => (l1, views_of(messages@), None),
        }
    }
}

/// Applies one frame to a lane, returning the messages to hand to the
/// callback.
fn lane_frame(lane: &mut TransportChannelRx, sn: u64, payload: FramePayload) -> (res: Result<
    Vec<Request>,
    TransportError,
>)
    requires
        old(lane).wf(),
    ensures
        final(lane).wf(),
        final(lane)@ == lane_frame_spec(old(lane)@, sn, payload).0,
        match res {
            Ok(v) => lane_frame_spec(old(lane)@, sn, payload).2 is None && views_of(v@)
                =~= lane_frame_spec(old(lane)@, sn, payload).1,
            Err(e) => lane_frame_spec(old(lane)@, sn, payload).2 == Some(e),
        },
{
    let ghost l0 = lane@;
    let precedes = match lane.sn.precedes(sn) {
        Ok(p) => p,
        Err(e) => {
            proof {
                assert(lane@ =~= lane_frame_spec(l0, sn, payload).0);
            }
            return Err(e);
        },
    };
    if !precedes {
        if !lane.defrag.is_empty() {
            lane.defrag.clear();
        }
        proof {
            assert(lane@ =~= lane_frame_spec(l0, sn, payload).0);
        }
        return Ok(Vec::new());
    }
    let _ = lane.sn.set(sn);
    match payload {
        FramePayload::Fragment { buffer, is_final } => {
            if lane.defrag.is_empty() {
                lane.defrag.sync(sn);
            }
            let ghost buf = buffer@;
            match lane.defrag.push(sn, buffer) {
                Ok(_) => {
                },
                Err(e) => {
                    proof {
                        assert(lane@ =~= lane_frame_spec(l0, sn, payload).0);
                    }
                    return Err(e);
                },
            }
            if is_final {
                match lane.defrag.defragment() {
                    Some(msg) => {
                        let mut out: Vec<Request> = Vec::new();
                        out.push(msg);
                        proof {
                            assert(lane@ =~= lane_frame_spec(l0, sn, payload).0);
                            assert(views_of(out@) =~= lane_frame_spec(l0, sn, payload).1);
                        }
                        Ok(out)
                    },
                    None => {
                        proof {
                            assert(lane@ =~= lane_frame_spec(l0, sn, payload).0);
                        }
                        Err(TransportError::Defragmentation)
                    },
                }
            } else {
                proof {
                    assert(lane@ =~= lane_frame_spec(l0, sn, payload).0);
                    assert(views_of(Seq::<Request>::empty()) =~= Seq::<ReqView>::empty());
                }
                Ok(Vec::new())
            }
        },
        FramePayload::Messages { messages } => {
            proof {
                assert(lane@ =~= lane_frame_spec(l0, sn, payload).0);
            }
            Ok(messages)
        },
    }
}

/// The batch a whole-message frame carries; empty for a fragment.
pub open spec fn payload_msgs(p: FramePayload) -> Seq<ReqView> {
    match p {
        FramePayload::Messages { messages } => views_of(messages@),
        _ => Seq::empty(),
    }
}

/// A lane fed a run of frames in order: the lane at the end and
/// everything delivered along the way.
pub open spec fn lane_run(l: LaneView, fs: Seq<(u64, FramePayload)>) -> (LaneView, Seq<ReqView>)
    decreases fs.len(),
{
    if fs.len() == 0 {
        (l, Seq::empty())
    } else {
        let t = lane_frame_spec(l, fs[0].0, fs[0].1);
        let r = lane_run(t.0, fs.skip(1));
        (r.0, t.1 + r.1)
    }
}

/// The messages a run of whole-message frames carries, in arrival order.
pub open spec fn run_messages(fs: Seq<(u64, FramePayload)>) -> Seq<ReqView>
    decreases fs.len(),
{
    if fs.len() == 0 {
        Seq::empty()
    } else {
        payload_msgs(fs[0].1) + run_messages(fs.skip(1))
    }
}

/// In-order delivery (law): a run of whole-message frames with
/// consecutive sequence numbers delivers exactly its messages, in order,
/// with no duplicates and no omissions.
pub proof fn lemma_ordered_delivery(l: LaneView, fs: Seq<(u64, FramePayload)>)
    requires
        lane_wf(l),
        (forall|i: int|
            0 <= i < fs.len() ==> (#[trigger] fs[i]).0 == (l.sn + 1 + i) % modulus(l.bits)),
        (forall|i: int| 0 <= i < fs.len() ==> ((#[trigger] fs[i]).1 is Messages)),
    ensures
        lane_run(l, fs).1 =~= run_messages(fs),
    decreases fs.len(),
{
    let m = modulus(l.bits);
    if fs.len() > 0 {
        assert(fs[0].0 == (l.sn + 1 + 0) % m);
        let sn0 = fs[0].0;
        assert(spec_precedes(l.sn, sn0, l.bits)) by {
            if l.sn + 1 < m {
                assert((l.sn + 1) % m == l.sn + 1);
                assert((sn0 - l.sn) % m == 1);
            } else {
                assert(l.sn == m - 1);
                assert((l.sn + 1) % m == 0);
                assert((sn0 - l.sn) % m == 1);
            }
        };
        let t = lane_frame_spec(l, fs[0].0, fs[0].1);
        assert(t.0.sn == sn0 && t.0.bits == l.bits && lane_wf(t.0));
        assert forall|i: int|
            0 <= i < fs.skip(1).len() implies (#[trigger] fs.skip(1)[i]).0 == (t.0.sn + 1 + i)
            % m by {
            assert(fs.skip(1)[i] == fs[i + 1]);
            assert(fs[i + 1].0 == (l.sn + 1 + (i + 1)) % m);
            vstd::arithmetic::div_mod::lemma_add_mod_noop_right(1 + i, l.sn + 1, m);
        };
        assert forall|i: int|
            0 <= i < fs.skip(1).len() implies (#[trigger] fs.skip(1)[i]).1 is Messages by {
            assert(fs.skip(1)[i] == fs[i + 1]);
        };
        lemma_ordered_delivery(t.0, fs.skip(1));
    }
}

/// The payload bytes of a fragment frame.
pub open spec fn frag_buf(p: FramePayload) -> Seq<u8> {
    match p {
        FramePayload::Fragment { buffer, is_final } => buffer@,
        _ => Seq::empty(),
    }
}

/// Whether a fragment frame ends its run.
pub open spec fn frag_final(p: FramePayload) -> bool {
    match p {
        FramePayload::Fragment { buffer, is_final } => is_final,
        _ => false,
    }
}

/// The immediate successor of a sequence number lies in the forward
/// window.
proof fn lemma_precedes_succ(cur: u64, bits: u8)
    requires
        valid_bits(bits),
        cur < modulus(bits),
    ensures
        (cur + 1) % modulus(bits) < modulus(bits),
        spec_precedes(cur, (((cur + 1) % modulus(bits)) as u64), bits),
{
    let m = modulus(bits);
    if cur + 1 < m {
        assert((cur + 1) % m == cur + 1);
        assert((cur + 1 - cur) % m == 1);
    } else {
        assert(cur == m - 1);
        assert((cur + 1) % m == 0);
        assert((0 - cur) % m == 1);
    }
}

/// Reassembly of a fragment run, from a buffer already holding the run's
/// first pieces: the delivered message is the parse of everything
/// buffered plus everything arriving, and the buffer ends empty.
proof fn lemma_fragment_run_rec(l: LaneView, fs: Seq<(u64, FramePayload)>)
    requires
        lane_wf(l),
        fs.len() > 0,
        (forall|i: int| 0 <= i < fs.len() ==> ((#[trigger] fs[i]).1 is Fragment)),
        (forall|i: int|
            0 <= i < fs.len() ==> (frag_final((#[trigger] fs[i]).1) <==> i == fs.len() - 1)),
        (forall|i: int|
            0 <= i < fs.len() ==> (#[trigger] fs[i]).0 == (l.sn + 1 + i) % modulus(l.bits)),
        l.frags.len() > 0 ==> l.frag_sn == (l.sn + 1) % modulus(l.bits),
    ensures
        ({
            let bufs = l.frags + fs.map(|i: int, f: (u64, FramePayload)| frag_buf(f.1));
            let r = lane_run(l, fs);
            r.0.frags =~= Seq::<Seq<u8>>::empty() && (match reassembles(concat_frags(bufs)) {
                Some(mv) => r.1 =~= seq![mv],
                None => r.1 =~= Seq::<ReqView>::empty(),
            })
        }),
    decreases fs.len(),
{
    reveal_with_fuel(lane_run, 3);
    let m = modulus(l.bits);
    let bufs = l.frags + fs.map(|i: int, f: (u64, FramePayload)| frag_buf(f.1));
    assert(fs[0].0 == (l.sn + 1 + 0) % m);
    let sn0 = fs[0].0;
    lemma_precedes_succ(l.sn, l.bits);
    let t = lane_frame_spec(l, fs[0].0, fs[0].1);
    assert(fs[0].1 is Fragment);
    let buf0 = frag_buf(fs[0].1);
    let l3 = LaneView {
        sn: sn0,
        frags: l.frags.push(buf0),
        frag_sn: ((sn0 + 1) % m) as u64,
        sync_sn: if l.frags.len() == 0 {
            sn0
        } else {
            l.sync_sn
        },
        ..l
    };
    if fs.len() == 1 {
        assert(frag_final(fs[0].1));
        assert(t.0 == (LaneView { frags: Seq::<Seq<u8>>::empty(), ..l3 }));
        assert(bufs =~= l3.frags);
        assert(lane_run(l, fs).1 =~= t.1);
    } else {
        assert(!frag_final(fs[0].1));
        assert(t.0 == l3 && t.1 =~= Seq::<ReqView>::empty() && t.2 is None);
        assert forall|i: int|
            0 <= i < fs.skip(1).len() implies ((#[trigger] fs.skip(1)[i]).1 is Fragment) && (
        frag_final(fs.skip(1)[i].1) <==> i == fs.skip(1).len() - 1) && fs.skip(1)[i].0 == (l3.sn + 1
            + i) % m by {
            assert(fs.skip(1)[i] == fs[i + 1]);
            assert(fs[i + 1].0 == (l.sn + 1 + (i + 1)) % m);
            vstd::arithmetic::div_mod::lemma_add_mod_noop_right(1 + i, l.sn + 1, m);
        };
        lemma_fragment_run_rec(l3, fs.skip(1));
        assert(l3.frags + fs.skip(1).map(|i: int, f: (u64, FramePayload)| frag_buf(f.1))
            =~= bufs);
        assert(lane_run(l, fs).1 =~= lane_run(l3, fs.skip(1)).1);
    }
}

/// Reassembly (law): a lane with no reassembly in progress, fed a run of
/// fragments with consecutive sequence numbers and the final mark on the
/// last alone, delivers exactly one message — the parse of the
/// concatenated fragment payloads — or nothing but an error when that
/// parse fails; the buffer is empty afterwards either way.
pub proof fn lemma_fragment_reassembly(l: LaneView, fs: Seq<(u64, FramePayload)>)
    requires
        lane_wf(l),
        l.frags.len() == 0,
        fs.len() > 0,
        (forall|i: int| 0 <= i < fs.len() ==> ((#[trigger] fs[i]).1 is Fragment)),
        (forall|i: int|
            0 <= i < fs.len() ==> (frag_final((#[trigger] fs[i]).1) <==> i == fs.len() - 1)),
        (forall|i: int|
            0 <= i < fs.len() ==> (#[trigger] fs[i]).0 == (l.sn + 1 + i) % modulus(l.bits)),
    ensures
        ({
            let bufs = fs.map(|i: int, f: (u64, FramePayload)| frag_buf(f.1));
            let r = lane_run(l, fs);
            r.0.frags =~= Seq::<Seq<u8>>::empty() && (match reassembles(concat_frags(bufs)) {
                Some(mv) => r.1 =~= seq![mv],
                None => r.1 =~= Seq::<ReqView>::empty(),
            })
        }),
{
    lemma_fragment_run_rec(l, fs);
    assert(l.frags + fs.map(|i: int, f: (u64, FramePayload)| frag_buf(f.1)) =~= fs.map(
        |i: int, f: (u64, FramePayload)| frag_buf(f.1),
    ));
}

/// Drop on gap, fragment side (law): a fragment inside the forward
/// window that does not continue the buffered run is not buffered, the
/// reassembly in progress is cleared, nothing is delivered, and the
/// caller sees the gap as an error.
pub proof fn lemma_gap_clears_defrag(l: LaneView, sn: u64, payload: FramePayload)
    requires
        lane_wf(l),
        sn < modulus(l.bits),
        spec_precedes(l.sn, sn, l.bits),
        payload is Fragment,
        l.frags.len() > 0,
        sn != l.frag_sn,
    ensures
        lane_frame_spec(l, sn, payload).0.frags =~= Seq::<Seq<u8>>::empty(),
        lane_frame_spec(l, sn, payload).1 =~= Seq::<ReqView>::empty(),
        lane_frame_spec(l, sn, payload).2 == Some(TransportError::FragmentGap),
{
}

/// Drop out of window (law): a frame whose sequence number is outside
/// the forward window is dropped silently — nothing is delivered, no
/// error is raised — and any reassembly in progress is cleared.
pub proof fn lemma_out_of_window_drop(l: LaneView, sn: u64, payload: FramePayload)
    requires
        lane_wf(l),
        sn < modulus(l.bits),
        !spec_precedes(l.sn, sn, l.bits),
    ensures
        (lane_frame_spec(l, sn, payload).0 == (LaneView { frags: Seq::empty(), ..l })),
        lane_frame_spec(l, sn, payload).1 =~= Seq::<ReqView>::empty(),
        (lane_frame_spec(l, sn, payload).2 is None),
{
}

/// The receive half of one unicast transport session.
pub struct TransportUnicastInner {
    pub pid: PeerId,
    pub is_qos: bool,
    pub callback_set: bool,
    pub conduit_rx: Vec<TransportConduitRx>,
}

/// One priority's pair of lanes.
pub struct TransportConduitRx {
    pub reliable: TransportChannelRx,
    pub best_effort: TransportChannelRx,
}

impl TransportConduitRx {
    pub open spec fn wf(self) -> bool {
        self.reliable.wf() && self.best_effort.wf()
    }

    pub fn new(bits: u8, initial_sn: u64) -> (r: TransportConduitRx)
        requires
            valid_bits(bits),
            initial_sn < modulus(bits),
        ensures
            r.wf(),
            r.reliable@.sn == initial_sn,
            r.best_effort@.sn == initial_sn,
            r.reliable@.bits == bits,
            r.best_effort@.bits == bits,
            r.reliable@.frags =~= Seq::<Seq<u8>>::empty(),
            r.best_effort@.frags =~= Seq::<Seq<u8>>::empty(),
    {
        TransportConduitRx {
            reliable: TransportChannelRx::new(bits, initial_sn),
            best_effort: TransportChannelRx::new(bits, initial_sn),
        }
    }
}

/// What a Close message asks for: nothing when it names some other
/// peer, else teardown of the link alone or of the whole transport.
pub open spec fn close_action(local: PeerId, pid: Option<PeerId>, link_only: bool)
    -> TeardownAction {
    match pid {
        Some(p) => if p != local {
            TeardownAction::Continue
        } else if link_only {
            TeardownAction::DelLink
        } else {
            TeardownAction::DelTransport
        },
        None => if link_only {
            TeardownAction::DelLink
        } else {
            TeardownAction::DelTransport
        },
    }
}

impl TransportUnicastInner {
    /// One conduit per priority with QoS, a single one without.
    pub open spec fn wf(self) -> bool {
        self.conduit_rx@.len() == (if self.is_qos {
            8int
        } else {
            1int
        }) && (forall|i: int|
            0 <= i < self.conduit_rx@.len() ==> (#[trigger] self.conduit_rx@[i]).wf())
    }

    pub fn new(pid: PeerId, is_qos: bool, callback_set: bool, bits: u8, initial_sn: u64) -> (r:
        TransportUnicastInner)
        requires
            valid_bits(bits),
            initial_sn < modulus(bits),
        ensures
            r.wf(),
            r.pid == pid,
            r.is_qos == is_qos,
            r.callback_set == callback_set,
    {
        let n: usize = if is_qos {
            8
        } else {
            1
        };
        let mut conduit_rx: Vec<TransportConduitRx> = Vec::new();
        let mut i: usize = 0;
        while i < n
            invariant
                i <= n,
                conduit_rx@.len() == i,
                valid_bits(bits),
                initial_sn < modulus(bits),
                forall|j: int| 0 <= j < i ==> (#[trigger] conduit_rx@[j]).wf(),
            decreases n - i,
        {
            conduit_rx.push(TransportConduitRx::new(bits, initial_sn));
            i = i + 1;
        }
        TransportUnicastInner { pid, is_qos, callback_set, conduit_rx }
    }

    /// Hands one message to the user callback, or drops it when no
    /// callback is installed.
    fn trigger_callback(&self, msg: Request, out: &mut Vec<Request>)
        ensures
            final(out)@ == if self.callback_set {
                old(out)@.push(msg)
            } else {
                old(out)@
            },
    {
        if self.callback_set {
            out.push(msg);
        }
    }

    /// Decides what a Close asks for. A Close naming a peer other than
    /// the local one is stale and ignored; otherwise the link tasks are
    /// to be stopped and the teardown runs on a task of its own.
    fn handle_close(&self, pid: Option<PeerId>, _reason: u8, link_only: bool) -> (a:
        TeardownAction)
        ensures
            a == close_action(self.pid, pid, link_only),
    {
        match pid {
            Some(p) => {
                if p != self.pid {
                    return TeardownAction::Continue;
                }
            },
            None => {
            },
        }
        if link_only {
            TeardownAction::DelLink
        } else {
            TeardownAction::DelTransport
        }
    }

    /// Routes one frame to its lane and delivers whatever the lane
    /// yields.
    fn handle_frame(
        &mut self,
        cidx: usize,
        reliability: Reliability,
        sn: u64,
        payload: FramePayload,
        out: &mut Vec<Request>,
    ) -> (res: Result<(), TransportError>)
        requires
            old(self).wf(),
            cidx < old(self).conduit_rx@.len(),
        ensures
            final(self).wf(),
            final(self).pid == old(self).pid,
            final(self).is_qos == old(self).is_qos,
            final(self).callback_set == old(self).callback_set,
            final(self).conduit_rx@.len() == old(self).conduit_rx@.len(),
            forall|j: int|
                0 <= j < old(self).conduit_rx@.len() && j != cidx
                    ==> #[trigger] final(self).conduit_rx@[j] == old(self).conduit_rx@[j],
            ({
                let lane0 = if reliability == Reliability::Reliable {
                    old(self).conduit_rx@[cidx as int].reliable@
                } else {
                    old(self).conduit_rx@[cidx as int].best_effort@
                };
                let lane1 = if reliability == Reliability::Reliable {
                    final(self).conduit_rx@[cidx as int].reliable@
                } else {
                    final(self).conduit_rx@[cidx as int].best_effort@
                };
                let other0 = if reliability == Reliability::Reliable {
                    old(self).conduit_rx@[cidx as int].best_effort
                } else {
                    old(self).conduit_rx@[cidx as int].reliable
                };
                let other1 = if reliability == Reliability::Reliable {
                    final(self).conduit_rx@[cidx as int].best_effort
                } else {
                    final(self).conduit_rx@[cidx as int].reliable
                };
                let t = lane_frame_spec(lane0, sn, payload);
                lane1 == t.0 && other1 == other0 && (match res {
                    Ok(_) => t.2 is None && views_of(final(out)@) =~= views_of(old(out)@) + (
                    if old(self).callback_set {
                        t.1
                    } else {
                        Seq::<ReqView>::empty()
                    }),
                    Err(e) => t.2 == Some(e) && final(out)@ == old(out)@,
                })
            }),
    {
        let msgs = match reliability {
            Reliability::Reliable => lane_frame(&mut self.conduit_rx[cidx].reliable, sn, payload),
            Reliability::BestEffort => lane_frame(
                &mut self.conduit_rx[cidx].best_effort,
                sn,
                payload,
            ),
        };
        let mut msgs = match msgs {
            Ok(v) => v,
            Err(e) => {
                return Err(e);
            },
        };
        let ghost msgs0 = msgs@;
        let ghost out0 = out@;
        let ghost selfsnap = *self;
        while msgs.len() > 0
            invariant
                *self == selfsnap,
                msgs@ =~= msgs0.skip(msgs0.len() - msgs@.len()),
                msgs@.len() <= msgs0.len(),
                out@ =~= if self.callback_set {
                    out0 + msgs0.take(msgs0.len() - msgs@.len())
                } else {
                    out0
                },
            decreases msgs@.len(),
        {
            let ghost k = msgs0.len() - msgs@.len();
            let m = msgs.remove(0);
            proof {
                assert(m == msgs0[k as int]);
                assert(msgs@ =~= msgs0.skip(k + 1));
                assert(msgs0.take(k + 1) =~= msgs0.take(k as int).push(m));
            }
            self.trigger_callback(m, out);
        }
        proof {
            assert(msgs0.take(msgs0.len() as int) =~= msgs0);
            assert(views_of(out@) =~= views_of(out0) + (if self.callback_set {
                views_of(msgs0)
            } else {
                Seq::<ReqView>::empty()
            }));
        }
        Ok(())
    }

    /// Handles one incoming transport message: frames go to their lane
    /// and deliver through `out`; a Close decides a teardown action for
    /// the caller; KeepAlive and unknown bodies are accepted and ignored.
    pub fn receive_message(&mut self, msg: TransportMessage, out: &mut Vec<Request>) -> (res:
        Result<TeardownAction, TransportError>)
        requires
            old(self).wf(),
        ensures
            final(self).wf(),
            final(self).pid == old(self).pid,
            final(self).is_qos == old(self).is_qos,
            final(self).callback_set == old(self).callback_set,
            final(self).conduit_rx@.len() == old(self).conduit_rx@.len(),
            match msg.body {
                TransportBody::Frame(f) => {
                    if !old(self).is_qos && f.channel.priority != Priority::Data {
                        res == Err::<TeardownAction, TransportError>(
                            TransportError::UnknownConduit,
                        ) && *final(self) == *old(self) && final(out)@ == old(out)@
                    } else {
                        let ci = if old(self).is_qos {
                            prio_index(f.channel.priority)
                        } else {
                            0
                        };
                        let lane0 = if f.channel.reliability == Reliability::Reliable {
                            old(self).conduit_rx@[ci].reliable@
                        } else {
                            old(self).conduit_rx@[ci].best_effort@
                        };
                        let lane1 = if f.channel.reliability == Reliability::Reliable {
                            final(self).conduit_rx@[ci].reliable@
                        } else {
                            final(self).conduit_rx@[ci].best_effort@
                        };
                        let other0 = if f.channel.reliability == Reliability::Reliable {
                            old(self).conduit_rx@[ci].best_effort
                        } else {
                            old(self).conduit_rx@[ci].reliable
                        };
                        let other1 = if f.channel.reliability == Reliability::Reliable {
                            final(self).conduit_rx@[ci].best_effort
                        } else {
                            final(self).conduit_rx@[ci].reliable
                        };
                        let t = lane_frame_spec(lane0, f.sn, f.payload);
                        lane1 == t.0 && other1 == other0 && (forall|j: int|
                            0 <= j < old(self).conduit_rx@.len() && j != ci
                                ==> #[trigger] final(self).conduit_rx@[j] == old(
                                self,
                            ).conduit_rx@[j]) && (match res {
                            Ok(a) => a == TeardownAction::Continue && t.2 is None && views_of(
                                final(out)@,
                            ) =~= views_of(old(out)@) + (if old(self).callback_set {
                                t.1
                            } else {
                                Seq::<ReqView>::empty()
                            }),
                            Err(e) => t.2 == Some(e) && final(out)@ == old(out)@,
                        })
                    }
                },
                TransportBody::Close(c) => res == Ok::<TeardownAction, TransportError>(
                    close_action(old(self).pid, c.pid, c.link_only),
                ) && *final(self) == *old(self) && final(out)@ == old(out)@,
                TransportBody::KeepAlive(_) => res == Ok::<TeardownAction, TransportError>(
                    TeardownAction::Continue,
                ) && *final(self) == *old(self) && final(out)@ == old(out)@,
                TransportBody::Other => res == Ok::<TeardownAction, TransportError>(
                    TeardownAction::Continue,
                ) && *final(self) == *old(self) && final(out)@ == old(out)@,
            },
    {
        match msg.body {
            TransportBody::Frame(f) => {
                let ci: usize = if self.is_qos {
                    f.channel.priority.index()
                } else if f.channel.priority == Priority::default() {
                    0
                } else {
                    return Err(TransportError::UnknownConduit);
                };
                match self.handle_frame(ci, f.channel.reliability, f.sn, f.payload, out) {
                    Ok(_) => Ok(TeardownAction::Continue),
                    Err(e) => Err(e),
                }
            },
            TransportBody::Close(c) => Ok(self.handle_close(c.pid, c.reason, c.link_only)),
            TransportBody::KeepAlive(_) => Ok(TeardownAction::Continue),
            TransportBody::Other => Ok(TeardownAction::Continue),
        }
    }
}

} // verus!
