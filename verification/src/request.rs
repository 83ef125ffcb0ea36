//! The `Request` network message and its codec.
//!
//! On the wire a request is: one header byte (5-bit message id plus the
//! flags N, M, Z), a varint request id, a wire expression, a chain of
//! extensions (present exactly when Z is set), and a length-prefixed
//! payload. Extensions the decoder does not know are skipped by their
//! declared body encoding; a reserved encoding fails the decode. Known
//! extensions may arrive in any order; on duplicates the last one wins.

use crate::ext::{
    enc_ext_unit, enc_ext_z64, enc_ext_zbuf, enc_tstamp_body, ext_header, qos_default,
    target_of_value, target_value, target_wf, DestinationType, QoSType, TargetType, TimestampType,
    TsView, ZExtBody, ZExtBodyV, EXT_DST, EXT_QOS, EXT_TARGET, EXT_TSTAMP,
};
use crate::zint::{
    dec_zbuf, dec_zint, enc_zbuf, enc_zint, lemma_dec_zint_bounds, lemma_zbuf_round_trip,
    lemma_zint_round_trip, read_zbuf, read_zint, write_zbuf, write_zint,
};
use crate::buffer::{write_bytes, DidntRead, Reader};
use vstd::prelude::*;

verus! {

/// The 5-bit message id of a request.
pub const MID_REQUEST: u8 = 0x1c;

/// Header flag N: the wire expression carries a suffix.
pub const FLAG_N: u8 = 0x20;

/// Header flag M: the wire expression's mapping is `Sender`.
pub const FLAG_M: u8 = 0x40;

/// Header flag Z: at least one extension follows the body.
pub const FLAG_Z: u8 = 0x80;

/// Which side's keyspace a wire expression is mapped in.
#[derive(Debug, Clone, Copy, PartialEq, Eq, Structural)]
pub enum Mapping {
    Receiver,
    Sender,
}

impl Default for Mapping {
    fn default() -> (r: Self)
        ensures
            r == Mapping::Receiver,
    {
        Mapping::Receiver
    }
}

/// A protocol resource name: a numeric key, optionally refined by a
/// suffix. The suffix bytes are carried verbatim; they are not validated
/// as UTF-8 here.
#[derive(Debug, Clone, PartialEq, Eq)]
pub struct WireExpr {
    pub key: u64,
    pub suffix: Vec<u8>,
}

/// Mathematical model of a `WireExpr`.
#[verifier::ext_equal]
pub struct WireExprView {
    pub key: u64,
    pub suffix: Seq<u8>,
}

impl View for WireExpr {
    type V = WireExprView;

    open spec fn view(&self) -> WireExprView {
        WireExprView { key: self.key, suffix: self.suffix@ }
    }
}

impl WireExpr {
    pub fn has_suffix(&self) -> (b: bool)
        ensures
            b == (self@.suffix.len() > 0),
    {
        self.suffix.len() > 0
    }
}

/// The application payload of a request, opaque to this layer.
#[derive(Debug, Clone, PartialEq, Eq)]
pub struct RequestBody {
    pub bytes: Vec<u8>,
}

/// A request message.
#[derive(Debug, Clone, PartialEq, Eq)]
pub struct Request {
    pub id: u64,
    pub wire_expr: WireExpr,
    pub mapping: Mapping,
    pub payload: RequestBody,
    pub ext_qos: QoSType,
    pub ext_tstamp: Option<TimestampType>,
    pub ext_dst: DestinationType,
    pub ext_target: TargetType,
}

/// Mathematical model of a `Request`.
#[verifier::ext_equal]
pub struct ReqView {
    pub id: u64,
    pub wire_expr: WireExprView,
    pub mapping: Mapping,
    pub payload: Seq<u8>,
    pub ext_qos: QoSType,
    pub ext_tstamp: Option<TsView>,
    pub ext_dst: DestinationType,
    pub ext_target: TargetType,
}

impl View for Request {
    type V = ReqView;

    open spec fn view(&self) -> ReqView {
        ReqView {
            id: self.id,
            wire_expr: self.wire_expr@,
            mapping: self.mapping,
            payload: self.payload.bytes@,
            ext_qos: self.ext_qos,
            ext_tstamp: match self.ext_tstamp {
                Some(t) => Some(t@),
                None => None,
            },
            ext_dst: self.ext_dst,
            ext_target: self.ext_target,
        }
    }
}

/// The typed extensions of a request, as one record.
#[derive(Debug, Clone, PartialEq, Eq)]
pub struct RequestExts {
    pub qos: QoSType,
    pub tstamp: Option<TimestampType>,
    pub dst: DestinationType,
    pub target: TargetType,
}

/// Mathematical model of a request's extension record.
#[verifier::ext_equal]
pub struct ExtsView {
    pub qos: QoSType,
    pub tstamp: Option<TsView>,
    pub dst: DestinationType,
    pub target: TargetType,
}

impl View for RequestExts {
    type V = ExtsView;

    open spec fn view(&self) -> ExtsView {
        ExtsView {
            qos: self.qos,
            tstamp: match self.tstamp {
                Some(t) => Some(t@),
                None => None,
            },
            dst: self.dst,
            target: self.target,
        }
    }
}

/// Every extension absent: each field at its default.
pub open spec fn exts_default() -> ExtsView {
    ExtsView {
        qos: qos_default(),
        tstamp: None,
        dst: DestinationType::Queryables,
        target: TargetType::BestMatching,
    }
}

/// The extension record of a request message.
pub open spec fn exts_of(m: ReqView) -> ExtsView {
    ExtsView { qos: m.ext_qos, tstamp: m.ext_tstamp, dst: m.ext_dst, target: m.ext_target }
}

/// True when at least one extension departs from its default, i.e. when
/// the Z flag is set on the wire.
pub open spec fn has_exts(e: ExtsView) -> bool {
    e.qos != qos_default() || e.tstamp is Some || e.dst != DestinationType::Queryables
        || e.target != TargetType::BestMatching
}

/// Canonical encoding of the extension chain: QoS, Timestamp,
/// Destination, Target, in this order, defaults left out, the more bit of
/// each set exactly when a later extension is present.
pub open spec fn enc_exts(e: ExtsView) -> Seq<u8> {
    let hq = e.qos != qos_default();
    let ht = e.tstamp is Some;
    let hd = e.dst != DestinationType::Queryables;
    let hg = e.target != TargetType::BestMatching;
    (if hq {
        enc_ext_z64(EXT_QOS, ht || hd || hg, e.qos.inner)
    } else {
        Seq::<u8>::empty()
    }) + (if ht {
        enc_ext_zbuf(EXT_TSTAMP, hd || hg, enc_tstamp_body(e.tstamp->Some_0))
    } else {
        Seq::<u8>::empty()
    }) + (if hd {
        enc_ext_unit(EXT_DST, hg)
    } else {
        Seq::<u8>::empty()
    }) + (if hg {
        enc_ext_z64(EXT_TARGET, false, target_value(e.target))
    } else {
        Seq::<u8>::empty()
    })
}

/// One extension decoded at the front of `rest` (its header byte, already
/// split off, had id-and-encoding `eid`): the updated record and the
/// bytes consumed including the header. Unknown ids are skipped by their
/// declared encoding; the reserved encoding fails.
pub open spec fn dec_ext_step(eid: u8, rest: Seq<u8>, acc: ExtsView) -> Option<(ExtsView, int)> {
    if eid == EXT_QOS {
        match dec_zint(rest) {
            None => None,
            Some((v, n)) => Some((ExtsView { qos: QoSType { inner: v }, ..acc }, 1 + n)),
        }
    } else if eid == EXT_TSTAMP {
        match dec_zbuf(rest) {
            None => None,
            Some((body, nb)) => match dec_zint(body) {
                None => None,
                Some((time, k)) => Some(
                    (ExtsView { tstamp: Some(TsView { time, id: body.skip(k) }), ..acc }, 1 + nb),
                ),
            },
        }
    } else if eid == EXT_DST {
        Some((ExtsView { dst: DestinationType::Subscribers, ..acc }, 1))
    } else if eid == EXT_TARGET {
        match dec_zint(rest) {
            None => None,
            Some((v, n)) => Some((ExtsView { target: target_of_value(v), ..acc }, 1 + n)),
        }
    } else {
        let encv = eid / 32;
        if encv == 0 {
            Some((acc, 1))
        } else if encv == 1 {
            match dec_zint(rest) {
                None => None,
                Some((v, n)) => Some((acc, 1 + n)),
            }
        } else if encv == 2 {
            match dec_zbuf(rest) {
                None => None,
                Some((body, n)) => Some((acc, 1 + n)),
            }
        } else {
            None
        }
    }
}

/// Decodes an extension chain from the front of `b`, folding each
/// extension into `acc`, until an extension announces no successor.
pub open spec fn dec_exts(b: Seq<u8>, acc: ExtsView) -> Option<(ExtsView, int)>
    decreases b.len(),
{
    if b.len() == 0 {
        None
    } else {
        let h = b[0];
        let more = h >= 128;
        let eid = (h % 128) as u8;
        match dec_ext_step(eid, b.skip(1), acc) {
            None => None,
            Some((acc2, c)) => if !more {
                Some((acc2, c))
            } else if 1 <= c <= b.len() {
                match dec_exts(b.skip(c), acc2) {
                    None => None,
                    Some((r2, m)) => Some((r2, c + m)),
                }
            } else {
                None
            },
        }
    }
}

/// The request's header byte, from its flags.
pub open spec fn req_header(nf: bool, mf: bool, zf: bool) -> u8 {
    (MID_REQUEST + (if nf {
        FLAG_N as int
    } else {
        0
    }) + (if mf {
        FLAG_M as int
    } else {
        0
    }) + (if zf {
        FLAG_Z as int
    } else {
        0
    })) as u8
}

/// Canonical encoding of a request message.
pub open spec fn enc_request(m: ReqView) -> Seq<u8> {
    let nf = m.wire_expr.suffix.len() > 0;
    let mf = m.mapping == Mapping::Sender;
    let e = exts_of(m);
    let zf = has_exts(e);
    seq![req_header(nf, mf, zf)] + enc_zint(m.id) + enc_zint(m.wire_expr.key) + (if nf {
        enc_zbuf(m.wire_expr.suffix)
    } else {
        Seq::<u8>::empty()
    }) + enc_exts(e) + enc_zbuf(m.payload)
}

/// Decodes a request from the front of `b`: the message and the bytes
/// consumed, or `None` on any malformed input.
pub open spec fn dec_request(b: Seq<u8>) -> Option<(ReqView, int)> {
    if b.len() == 0 {
        None
    } else {
        let h = b[0];
        if h % 32 != MID_REQUEST {
            None
        } else {
            let nf = h % 64 >= 32;
            let mf = h % 128 >= 64;
            let zf = h >= 128;
            match dec_zint(b.skip(1)) {
                None => None,
                Some((id, n1)) => match dec_zint(b.skip(1 + n1)) {
                    None => None,
                    Some((key, n2)) => {
                        let sres = if nf {
                            dec_zbuf(b.skip(1 + n1 + n2))
                        } else {
                            Some((Seq::<u8>::empty(), 0int))
                        };
                        match sres {
                            None => None,
                            Some((suffix, n3)) => {
                                let eres = if zf {
                                    dec_exts(b.skip(1 + n1 + n2 + n3), exts_default())
                                } else {
                                    Some((exts_default(), 0int))
                                };
                                match eres {
                                    None => None,
                                    Some((e, n4)) => match dec_zbuf(
                                        b.skip(1 + n1 + n2 + n3 + n4),
                                    ) {
                                        None => None,
                                        Some((pl, n5)) => Some(
                                            (
                                                ReqView {
                                                    id,
                                                    wire_expr: WireExprView { key, suffix },
                                                    mapping: if mf {
                                                        Mapping::Sender
                                                    } else {
                                                        Mapping::Receiver
                                                    },
                                                    payload: pl,
                                                    ext_qos: e.qos,
                                                    ext_tstamp: e.tstamp,
                                                    ext_dst: e.dst,
                                                    ext_target: e.target,
                                                },
                                                1 + n1 + n2 + n3 + n4 + n5,
                                            ),
                                        ),
                                    },
                                }
                            },
                        }
                    },
                },
            }
        }
    }
}

/// One step of the chain: a leading QoS extension decodes to its value
/// and hands the rest of the chain on.
proof fn lemma_step_qos(v: u64, more: bool, rest: Seq<u8>, acc: ExtsView)
    ensures
        ({
            let seg = enc_ext_z64(EXT_QOS, more, v);
            let acc2 = ExtsView { qos: QoSType { inner: v }, ..acc };
            if more {
                dec_exts(seg + rest, acc) == (match dec_exts(rest, acc2) {
                    None => None,
                    Some((r2, m)) => Some((r2, seg.len() + m)),
                })
            } else {
                dec_exts(seg + rest, acc) == Some((acc2, seg.len() as int))
            }
        }),
{
    let seg = enc_ext_z64(EXT_QOS, more, v);
    let b = seg + rest;
    assert(b[0] == ext_header(EXT_QOS, more));
    assert((b[0] >= 128) == more && (b[0] % 128) as u8 == EXT_QOS);
    assert(b.skip(1) =~= enc_zint(v) + rest);
    lemma_zint_round_trip(v, rest);
    assert(b.skip(seg.len() as int) =~= rest);
}

/// One step of the chain: a leading Target extension decodes to the
/// target its value names.
proof fn lemma_step_target(v: u64, more: bool, rest: Seq<u8>, acc: ExtsView)
    ensures
        ({
            let seg = enc_ext_z64(EXT_TARGET, more, v);
            let acc2 = ExtsView { target: target_of_value(v), ..acc };
            if more {
                dec_exts(seg + rest, acc) == (match dec_exts(rest, acc2) {
                    None => None,
                    Some((r2, m)) => Some((r2, seg.len() + m)),
                })
            } else {
                dec_exts(seg + rest, acc) == Some((acc2, seg.len() as int))
            }
        }),
{
    let seg = enc_ext_z64(EXT_TARGET, more, v);
    let b = seg + rest;
    assert(b[0] == ext_header(EXT_TARGET, more));
    assert((b[0] >= 128) == more && (b[0] % 128) as u8 == EXT_TARGET);
    assert(b.skip(1) =~= enc_zint(v) + rest);
    lemma_zint_round_trip(v, rest);
    assert(b.skip(seg.len() as int) =~= rest);
}

/// One step of the chain: a leading Destination extension marks the
/// subscriber destination.
proof fn lemma_step_dst(more: bool, rest: Seq<u8>, acc: ExtsView)
    ensures
        ({
            let seg = enc_ext_unit(EXT_DST, more);
            let acc2 = ExtsView { dst: DestinationType::Subscribers, ..acc };
            if more {
                dec_exts(seg + rest, acc) == (match dec_exts(rest, acc2) {
                    None => None,
                    Some((r2, m)) => Some((r2, seg.len() + m)),
                })
            } else {
                dec_exts(seg + rest, acc) == Some((acc2, seg.len() as int))
            }
        }),
{
    let seg = enc_ext_unit(EXT_DST, more);
    let b = seg + rest;
    assert(b[0] == ext_header(EXT_DST, more));
    assert((b[0] >= 128) == more && (b[0] % 128) as u8 == EXT_DST);
    assert(b.skip(seg.len() as int) =~= rest);
}

/// One step of the chain: a leading Timestamp extension decodes to the
/// time and the trailing id bytes of its body.
proof fn lemma_step_tstamp(t: TsView, more: bool, rest: Seq<u8>, acc: ExtsView)
    requires
        enc_tstamp_body(t).len() <= u64::MAX,
    ensures
        ({
            let seg = enc_ext_zbuf(EXT_TSTAMP, more, enc_tstamp_body(t));
            let acc2 = ExtsView { tstamp: Some(t), ..acc };
            if more {
                dec_exts(seg + rest, acc) == (match dec_exts(rest, acc2) {
                    None => None,
                    Some((r2, m)) => Some((r2, seg.len() + m)),
                })
            } else {
                dec_exts(seg + rest, acc) == Some((acc2, seg.len() as int))
            }
        }),
{
    let body = enc_tstamp_body(t);
    let seg = enc_ext_zbuf(EXT_TSTAMP, more, body);
    let b = seg + rest;
    assert(b[0] == ext_header(EXT_TSTAMP, more));
    assert((b[0] >= 128) == more && (b[0] % 128) as u8 == EXT_TSTAMP);
    assert(b.skip(1) =~= enc_zbuf(body) + rest);
    lemma_zbuf_round_trip(body, rest);
    lemma_zint_round_trip(t.time, t.id);
    let k = enc_zint(t.time).len() as int;
    assert(body.skip(k) =~= t.id);
    assert(TsView { time: t.time, id: body.skip(k) } =~= t);
    assert(b.skip(seg.len() as int) =~= rest);
}

/// The shape of an extension the decoder does not recognize: its id is
/// none of the typed ones, and its body matches its declared encoding.
pub open spec fn unknown_ext_wf(eid: u8, body: ZExtBodyV) -> bool {
    eid < 96 && eid != EXT_QOS && eid != EXT_TSTAMP && eid != EXT_DST && eid != EXT_TARGET
        && (match body {
        ZExtBodyV::Unit => eid / 32 == 0,
        ZExtBodyV::Z64(_) => eid / 32 == 1,
        ZExtBodyV::ZBuf(s) => eid / 32 == 2 && s.len() <= u64::MAX,
    })
}

/// Encoding of an unrecognized extension.
pub open spec fn enc_ext_unknown(eid: u8, more: bool, body: ZExtBodyV) -> Seq<u8> {
    match body {
        ZExtBodyV::Unit => enc_ext_unit(eid, more),
        ZExtBodyV::Z64(v) => enc_ext_z64(eid, more, v),
        ZExtBodyV::ZBuf(s) => enc_ext_zbuf(eid, more, s),
    }
}

/// Forward compatibility: an unknown extension with a valid encoding is
/// consumed whole and changes nothing in the decoded record; the rest of
/// the chain decodes as if the unknown extension were not there.
pub proof fn lemma_skip_unknown(eid: u8, more: bool, body: ZExtBodyV, rest: Seq<u8>, acc: ExtsView)
    requires
        unknown_ext_wf(eid, body),
    ensures
        ({
            let seg = enc_ext_unknown(eid, more, body);
            if more {
                dec_exts(seg + rest, acc) == (match dec_exts(rest, acc) {
                    None => None,
                    Some((r2, m)) => Some((r2, seg.len() + m)),
                })
            } else {
                dec_exts(seg + rest, acc) == Some((acc, seg.len() as int))
            }
        }),
{
    let seg = enc_ext_unknown(eid, more, body);
    let b = seg + rest;
    assert(b[0] == ext_header(eid, more));
    assert((b[0] >= 128) == more && (b[0] % 128) as u8 == eid);
    match body {
        ZExtBodyV::Unit => {
        },
        ZExtBodyV::Z64(v) => {
            assert(b.skip(1) =~= enc_zint(v) + rest);
            lemma_zint_round_trip(v, rest);
        },
        ZExtBodyV::ZBuf(s) => {
            assert(b.skip(1) =~= enc_zbuf(s) + rest);
            lemma_zbuf_round_trip(s, rest);
        },
    }
    assert(b.skip(seg.len() as int) =~= rest);
}

/// An extension header announcing the reserved encoding fails the whole
/// decode, recognized id or not.
pub proof fn lemma_reserved_fails(h: u8, rest: Seq<u8>, acc: ExtsView)
    requires
        (h % 128) / 32 == 3,
    ensures
        dec_exts(seq![h] + rest, acc) is None,
{
    let b = seq![h] + rest;
    assert(b[0] == h);
    assert((b[0] % 128) as u8 != EXT_QOS && (b[0] % 128) as u8 != EXT_TSTAMP && (b[0] % 128) as u8
        != EXT_DST && (b[0] % 128) as u8 != EXT_TARGET);
}

/// A wire target value names the target it was made from.
proof fn lemma_target_value_round(t: TargetType)
    requires
        target_wf(t),
    ensures
        target_of_value(target_value(t)) == t,
{
}

/// Segment of the chain encoding the QoS extension, empty when absent.
pub open spec fn seg_q(e: ExtsView) -> Seq<u8> {
    if e.qos != qos_default() {
        enc_ext_z64(
            EXT_QOS,
            e.tstamp is Some || e.dst != DestinationType::Queryables || e.target
                != TargetType::BestMatching,
            e.qos.inner,
        )
    } else {
        Seq::<u8>::empty()
    }
}

/// Segment of the chain encoding the Timestamp extension.
pub open spec fn seg_t(e: ExtsView) -> Seq<u8> {
    if e.tstamp is Some {
        enc_ext_zbuf(
            EXT_TSTAMP,
            e.dst != DestinationType::Queryables || e.target != TargetType::BestMatching,
            enc_tstamp_body(e.tstamp->Some_0),
        )
    } else {
        Seq::<u8>::empty()
    }
}

/// Segment of the chain encoding the Destination extension.
pub open spec fn seg_d(e: ExtsView) -> Seq<u8> {
    if e.dst != DestinationType::Queryables {
        enc_ext_unit(EXT_DST, e.target != TargetType::BestMatching)
    } else {
        Seq::<u8>::empty()
    }
}

/// Segment of the chain encoding the Target extension.
pub open spec fn seg_g(e: ExtsView) -> Seq<u8> {
    if e.target != TargetType::BestMatching {
        enc_ext_z64(EXT_TARGET, false, target_value(e.target))
    } else {
        Seq::<u8>::empty()
    }
}

/// The record after folding in the QoS extension, if present.
pub open spec fn acc_q(e: ExtsView) -> ExtsView {
    if e.qos != qos_default() {
        ExtsView { qos: e.qos, ..exts_default() }
    } else {
        exts_default()
    }
}

/// The record after folding in the Timestamp extension, if present.
pub open spec fn acc_t(e: ExtsView) -> ExtsView {
    if e.tstamp is Some {
        ExtsView { tstamp: e.tstamp, ..acc_q(e) }
    } else {
        acc_q(e)
    }
}

/// The record after folding in the Destination extension, if present.
pub open spec fn acc_d(e: ExtsView) -> ExtsView {
    if e.dst != DestinationType::Queryables {
        ExtsView { dst: e.dst, ..acc_t(e) }
    } else {
        acc_t(e)
    }
}

/// Decoding the chain from the Target segment on recovers `e`.
proof fn lemma_chain_g(e: ExtsView, rest: Seq<u8>)
    requires
        exts_wf(e),
        e.target != TargetType::BestMatching,
    ensures
        dec_exts(seg_g(e) + rest, acc_d(e)) == Some((e, seg_g(e).len() as int)),
{
    lemma_target_value_round(e.target);
    lemma_step_target(target_value(e.target), false, rest, acc_d(e));
    assert(ExtsView { target: target_of_value(target_value(e.target)), ..acc_d(e) } =~= e);
}

/// Decoding the chain from the Destination segment on recovers `e`.
proof fn lemma_chain_d(e: ExtsView, rest: Seq<u8>)
    requires
        exts_wf(e),
        e.dst != DestinationType::Queryables || e.target != TargetType::BestMatching,
    ensures
        dec_exts((seg_d(e) + seg_g(e)) + rest, acc_t(e)) == Some(
            (e, (seg_d(e) + seg_g(e)).len() as int),
        ),
{
    let hg = e.target != TargetType::BestMatching;
    if e.dst != DestinationType::Queryables {
        lemma_step_dst(hg, seg_g(e) + rest, acc_t(e));
        assert((seg_d(e) + seg_g(e)) + rest =~= seg_d(e) + (seg_g(e) + rest));
        if hg {
            lemma_chain_g(e, rest);
        } else {
            assert(seg_g(e) + rest =~= rest);
            assert(ExtsView { dst: e.dst, ..acc_t(e) } =~= e);
        }
    } else {
        assert((seg_d(e) + seg_g(e)) + rest =~= seg_g(e) + rest);
        lemma_chain_g(e, rest);
    }
}

/// Decoding the chain from the Timestamp segment on recovers `e`.
proof fn lemma_chain_t(e: ExtsView, rest: Seq<u8>)
    requires
        exts_wf(e),
        e.tstamp is Some || e.dst != DestinationType::Queryables || e.target
            != TargetType::BestMatching,
    ensures
        dec_exts((seg_t(e) + (seg_d(e) + seg_g(e))) + rest, acc_q(e)) == Some(
            (e, (seg_t(e) + (seg_d(e) + seg_g(e))).len() as int),
        ),
{
    let later = e.dst != DestinationType::Queryables || e.target != TargetType::BestMatching;
    if e.tstamp is Some {
        lemma_step_tstamp(e.tstamp->Some_0, later, (seg_d(e) + seg_g(e)) + rest, acc_q(e));
        assert(Some(e.tstamp->Some_0) == e.tstamp);
        assert((seg_t(e) + (seg_d(e) + seg_g(e))) + rest =~= seg_t(e) + ((seg_d(e) + seg_g(e))
            + rest));
        if later {
            lemma_chain_d(e, rest);
        } else {
            assert((seg_d(e) + seg_g(e)) + rest =~= rest);
            assert(ExtsView { tstamp: e.tstamp, ..acc_q(e) } =~= e);
        }
    } else {
        assert((seg_t(e) + (seg_d(e) + seg_g(e))) + rest =~= (seg_d(e) + seg_g(e)) + rest);
        lemma_chain_d(e, rest);
    }
}

/// Round trip of a whole extension chain (law): encoding any
/// extension record with at least one non-default entry in canonical
/// order, then decoding from the defaults, recovers the record exactly,
/// whatever bytes follow the chain.
pub proof fn lemma_exts_round_trip(e: ExtsView, rest: Seq<u8>)
    requires
        exts_wf(e),
        has_exts(e),
    ensures
        dec_exts(enc_exts(e) + rest, exts_default()) == Some((e, enc_exts(e).len() as int)),
{
    let later = e.tstamp is Some || e.dst != DestinationType::Queryables || e.target
        != TargetType::BestMatching;
    assert(enc_exts(e) =~= seg_q(e) + (seg_t(e) + (seg_d(e) + seg_g(e))));
    if e.qos != qos_default() {
        lemma_step_qos(e.qos.inner, later, (seg_t(e) + (seg_d(e) + seg_g(e))) + rest,
            exts_default());
        assert(QoSType { inner: e.qos.inner } == e.qos);
        assert((seg_q(e) + (seg_t(e) + (seg_d(e) + seg_g(e)))) + rest =~= seg_q(e) + ((seg_t(e)
            + (seg_d(e) + seg_g(e))) + rest));
        if later {
            lemma_chain_t(e, rest);
        } else {
            assert((seg_t(e) + (seg_d(e) + seg_g(e))) + rest =~= rest);
            assert(ExtsView { qos: e.qos, ..exts_default() } =~= e);
        }
    } else {
        assert((seg_q(e) + (seg_t(e) + (seg_d(e) + seg_g(e)))) + rest =~= (seg_t(e) + (seg_d(e)
            + seg_g(e))) + rest);
        lemma_chain_t(e, rest);
    }
    assert(enc_exts(e) + rest =~= (seg_q(e) + (seg_t(e) + (seg_d(e) + seg_g(e)))) + rest);
}

/// A timestamp whose encoded body fits a length prefix.
pub open spec fn tstamp_wf(t: Option<TsView>) -> bool {
    match t {
        Some(ts) => enc_tstamp_body(ts).len() <= u64::MAX,
        None => true,
    }
}

/// The extension record is encodable.
pub open spec fn exts_wf(e: ExtsView) -> bool {
    target_wf(e.target) && tstamp_wf(e.tstamp)
}

/// The message is encodable: every variable-length part fits its length
/// prefix and the target value fits 64 bits.
pub open spec fn req_wf(m: ReqView) -> bool {
    exts_wf(exts_of(m)) && m.wire_expr.suffix.len() <= u64::MAX && m.payload.len() <= u64::MAX
}

/// Whatever one chain step decodes is still encodable, provided the
/// record it started from was.
proof fn lemma_dec_ext_step_wf(eid: u8, rest: Seq<u8>, acc: ExtsView)
    requires
        exts_wf(acc),
    ensures
        match dec_ext_step(eid, rest, acc) {
            Some((acc2, c)) => exts_wf(acc2),
            None => true,
        },
{
    if eid == EXT_TSTAMP {
        crate::zint::lemma_dec_zbuf_bounds(rest);
        if dec_zbuf(rest) is Some {
            let (body, nb) = dec_zbuf(rest)->Some_0;
            crate::zint::lemma_dec_zint_minimal(body);
            crate::zint::lemma_dec_zint_bounds(body);
            assert(body.len() <= u64::MAX);
            if dec_zint(body) is Some {
                let (time, k) = dec_zint(body)->Some_0;
                assert(enc_zint(time).len() <= k);
                assert(enc_tstamp_body(TsView { time, id: body.skip(k) }).len() <= body.len());
            }
        }
    } else if eid == EXT_TARGET {
        if dec_zint(rest) is Some {
            let (v, n) = dec_zint(rest)->Some_0;
            assert(target_wf(target_of_value(v)));
        }
    }
}

/// Whatever a chain decodes is still encodable, provided the record it
/// started from was.
proof fn lemma_dec_exts_wf(b: Seq<u8>, acc: ExtsView)
    requires
        exts_wf(acc),
    ensures
        match dec_exts(b, acc) {
            Some((e, n)) => exts_wf(e),
            None => true,
        },
    decreases b.len(),
{
    if b.len() > 0 {
        let h = b[0];
        let eid = (h % 128) as u8;
        lemma_dec_ext_step_wf(eid, b.skip(1), acc);
        match dec_ext_step(eid, b.skip(1), acc) {
            None => {
            },
            Some((acc2, c)) => {
                if h >= 128 && 1 <= c <= b.len() {
                    lemma_dec_exts_wf(b.skip(c), acc2);
                }
            },
        }
    }
}

/// Whatever decodes as a request is itself encodable.
pub proof fn lemma_dec_request_wf(b: Seq<u8>)
    ensures
        match dec_request(b) {
            Some((m, n)) => req_wf(m),
            None => true,
        },
{
    if b.len() > 0 {
        let h = b[0];
        if h % 32 == MID_REQUEST {
            if dec_zint(b.skip(1)) is Some {
                let (id, n1) = dec_zint(b.skip(1))->Some_0;
                if dec_zint(b.skip(1 + n1)) is Some {
                    let (key, n2) = dec_zint(b.skip(1 + n1))->Some_0;
                    let nf = h % 64 >= 32;
                    let zf = h >= 128;
                    let sres = if nf {
                        dec_zbuf(b.skip(1 + n1 + n2))
                    } else {
                        Some((Seq::<u8>::empty(), 0int))
                    };
                    crate::zint::lemma_dec_zbuf_bounds(b.skip(1 + n1 + n2));
                    if sres is Some {
                        let (suffix, n3) = sres->Some_0;
                        assert(suffix.len() <= u64::MAX);
                        lemma_dec_exts_wf(b.skip(1 + n1 + n2 + n3), exts_default());
                        let eres = if zf {
                            dec_exts(b.skip(1 + n1 + n2 + n3), exts_default())
                        } else {
                            Some((exts_default(), 0int))
                        };
                        if eres is Some {
                            let (e, n4) = eres->Some_0;
                            assert(exts_wf(e));
                            crate::zint::lemma_dec_zbuf_bounds(b.skip(1 + n1 + n2 + n3 + n4));
                            if dec_zbuf(b.skip(1 + n1 + n2 + n3 + n4)) is Some {
                                let (pl, n5) = dec_zbuf(b.skip(1 + n1 + n2 + n3 + n4))->Some_0;
                                assert(pl.len() <= u64::MAX);
                            }
                        }
                    }
                }
            }
        }
    }
}

/// Dropping a concatenation's first part leaves its second.
proof fn lemma_skip_concat(a: Seq<u8>, b: Seq<u8>)
    ensures
        (a + b).skip(a.len() as int) == b,
{
    assert((a + b).skip(a.len() as int) =~= b);
}

/// Two skips in a row skip the sum.
proof fn lemma_skip_skip(s: Seq<u8>, i: int, j: int)
    requires
        0 <= i,
        0 <= j,
        i + j <= s.len(),
    ensures
        s.skip(i).skip(j) == s.skip(i + j),
{
    assert(s.skip(i).skip(j) =~= s.skip(i + j));
}

/// The header byte built from the three flags gives each of them back.
proof fn lemma_req_header_bits(nf: bool, mf: bool, zf: bool)
    ensures
        ({
            let h = req_header(nf, mf, zf);
            h % 32 == MID_REQUEST && ((h % 64 >= 32) == nf) && ((h % 128 >= 64) == mf) && ((h
                >= 128) == zf)
        }),
{
}

/// Each piece of an encoded request decodes, at its own offset, to the
/// field it was encoded from.
#[verifier::rlimit(100)]
#[verifier::spinoff_prover]
proof fn lemma_req_decode_parts(m: ReqView, rest: Seq<u8>)
    requires
        req_wf(m),
    ensures
        ({
            let b = enc_request(m) + rest;
            let nf = m.wire_expr.suffix.len() > 0;
            let mf = m.mapping == Mapping::Sender;
            let e = exts_of(m);
            let zf = has_exts(e);
            let n1 = enc_zint(m.id).len() as int;
            let n2 = enc_zint(m.wire_expr.key).len() as int;
            let n3 = if nf {
                enc_zbuf(m.wire_expr.suffix).len() as int
            } else {
                0
            };
            let n4 = enc_exts(e).len() as int;
            let n5 = enc_zbuf(m.payload).len() as int;
            enc_request(m).len() == 1 + n1 + n2 + n3 + n4 + n5 && b[0] == req_header(nf, mf, zf)
                && dec_zint(b.skip(1)) == Some((m.id, n1)) && dec_zint(b.skip(1 + n1)) == Some(
                (m.wire_expr.key, n2),
            ) && (nf ==> dec_zbuf(b.skip(1 + n1 + n2)) == Some((m.wire_expr.suffix, n3))) && (zf
                ==> dec_exts(b.skip(1 + n1 + n2 + n3), exts_default()) == Some((e, n4))) && (!zf
                ==> e == exts_default() && n4 == 0) && dec_zbuf(b.skip(1 + n1 + n2 + n3 + n4))
                == Some((m.payload, n5)) && (!nf ==> m.wire_expr.suffix == Seq::<u8>::empty())
        }),
{
    let nf = m.wire_expr.suffix.len() > 0;
    let mf = m.mapping == Mapping::Sender;
    let e = exts_of(m);
    let zf = has_exts(e);
    let s_id = enc_zint(m.id);
    let s_key = enc_zint(m.wire_expr.key);
    let s_sfx = if nf {
        enc_zbuf(m.wire_expr.suffix)
    } else {
        Seq::<u8>::empty()
    };
    let s_ext = enc_exts(e);
    let s_pl = enc_zbuf(m.payload);
    let b = enc_request(m) + rest;
    let h = req_header(nf, mf, zf);
    let n1 = s_id.len() as int;
    let n2 = s_key.len() as int;
    let n3 = s_sfx.len() as int;
    let n4 = s_ext.len() as int;
    let n5 = s_pl.len() as int;
    let t5 = s_pl + rest;
    let t4 = s_ext + t5;
    let t3 = s_sfx + t4;
    let t2 = s_key + t3;
    let t1 = s_id + t2;
    vstd::seq_lib::lemma_concat_associative(seq![h] + s_id + s_key + s_sfx + s_ext, s_pl, rest);
    vstd::seq_lib::lemma_concat_associative(seq![h] + s_id + s_key + s_sfx, s_ext, t5);
    vstd::seq_lib::lemma_concat_associative(seq![h] + s_id + s_key, s_sfx, t4);
    vstd::seq_lib::lemma_concat_associative(seq![h] + s_id, s_key, t3);
    vstd::seq_lib::lemma_concat_associative(seq![h], s_id, t2);
    assert(b == seq![h] + t1);
    assert(b[0] == h);
    assert(enc_request(m).len() == 1 + n1 + n2 + n3 + n4 + n5);
    // Peel the segments off the front one by one.
    lemma_skip_concat(seq![h], t1);
    assert(b.skip(1) == t1);
    lemma_zint_round_trip(m.id, t2);
    lemma_skip_skip(b, 1, n1);
    lemma_skip_concat(s_id, t2);
    assert(b.skip(1 + n1) == t2);
    lemma_zint_round_trip(m.wire_expr.key, t3);
    lemma_skip_skip(b, 1 + n1, n2);
    lemma_skip_concat(s_key, t3);
    assert(b.skip(1 + n1 + n2) == t3);
    if nf {
        lemma_zbuf_round_trip(m.wire_expr.suffix, t4);
    } else {
        assert(m.wire_expr.suffix =~= Seq::<u8>::empty());
    }
    lemma_skip_skip(b, 1 + n1 + n2, n3);
    lemma_skip_concat(s_sfx, t4);
    assert(b.skip(1 + n1 + n2 + n3) == t4);
    if zf {
        lemma_exts_round_trip(e, t5);
    } else {
        assert(e =~= exts_default());
        assert(s_ext =~= Seq::<u8>::empty());
        assert(n4 == 0);
    }
    lemma_skip_skip(b, 1 + n1 + n2 + n3, n4);
    lemma_skip_concat(s_ext, t5);
    assert(b.skip(1 + n1 + n2 + n3 + n4) == t5);
    lemma_zbuf_round_trip(m.payload, rest);
}

/// Round trip (law): any encodable request message decodes back to
/// itself from its own encoding, whatever bytes follow it.
#[verifier::rlimit(100)]
#[verifier::spinoff_prover]
pub proof fn lemma_request_round_trip(m: ReqView, rest: Seq<u8>)
    requires
        req_wf(m),
    ensures
        dec_request(enc_request(m) + rest) == Some((m, enc_request(m).len() as int)),
{
    lemma_req_decode_parts(m, rest);
    let b = enc_request(m) + rest;
    let nf = m.wire_expr.suffix.len() > 0;
    let mf = m.mapping == Mapping::Sender;
    let e = exts_of(m);
    let zf = has_exts(e);
    lemma_req_header_bits(nf, mf, zf);
    match dec_request(b) {
        Some((m2, n)) => {
            assert(m2 =~= m);
            assert(n == enc_request(m).len() as int);
        },
        None => {
            assert(false);
        },
    }
}

/// A decoded extension chain consumed between one byte and the whole
/// input.
pub proof fn lemma_dec_exts_bounds(b: Seq<u8>, acc: ExtsView)
    ensures
        match dec_exts(b, acc) {
            Some((e, n)) => 1 <= n <= b.len(),
            None => true,
        },
    decreases b.len(),
{
    if b.len() > 0 {
        let h = b[0];
        let eid = (h % 128) as u8;
        crate::zint::lemma_dec_zint_bounds(b.skip(1));
        crate::zint::lemma_dec_zbuf_bounds(b.skip(1));
        match dec_ext_step(eid, b.skip(1), acc) {
            None => {
            },
            Some((acc2, c)) => {
                assert(1 <= c <= b.len());
                if h >= 128 {
                    lemma_dec_exts_bounds(b.skip(c), acc2);
                }
            },
        }
    }
}

/// Writes the extension chain of `x` in canonical order.
#[verifier::rlimit(100)]
#[verifier::spinoff_prover]
fn write_exts(w: &mut Vec<u8>, x: &Request)
    requires
        target_wf(x.ext_target),
    ensures
        final(w)@ == old(w)@ + enc_exts(exts_of(x@)),
{
    let ghost e = exts_of(x@);
    let hq = x.ext_qos != QoSType::default();
    let ht = x.ext_tstamp.is_some();
    let hd = x.ext_dst != DestinationType::default();
    let hg = x.ext_target != TargetType::default();
    if hq {
        let more = ht || hd || hg;
        w.push(if more {
            EXT_QOS + 128
        } else {
            EXT_QOS
        });
        write_zint(w, x.ext_qos.inner);
    }
    proof {
        assert(w@ =~= old(w)@ + seg_q(e));
    }
    match &x.ext_tstamp {
        Some(t) => {
            let more = hd || hg;
            let mut body: Vec<u8> = Vec::new();
            write_zint(&mut body, t.time);
            write_bytes(&mut body, &t.id);
            w.push(if more {
                EXT_TSTAMP + 128
            } else {
                EXT_TSTAMP
            });
            write_zbuf(w, &body);
            proof {
                assert(body@ =~= enc_tstamp_body(t@));
            }
        },
        None => {
        },
    }
    proof {
        assert(w@ =~= old(w)@ + (seg_q(e) + seg_t(e)));
    }
    if hd {
        w.push(if hg {
            EXT_DST + 128
        } else {
            EXT_DST
        });
    }
    proof {
        assert(w@ =~= old(w)@ + ((seg_q(e) + seg_t(e)) + seg_d(e)));
    }
    if hg {
        let v: u64 = match &x.ext_target {
            TargetType::BestMatching => 0,
            TargetType::All => 1,
            TargetType::AllComplete => 2,
            TargetType::Complete(n) => 3 + *n,
        };
        w.push(EXT_TARGET);
        write_zint(w, v);
    }
    proof {
        assert(w@ =~= old(w)@ + (((seg_q(e) + seg_t(e)) + seg_d(e)) + seg_g(e)));
        assert(enc_exts(e) == ((seg_q(e) + seg_t(e)) + seg_d(e)) + seg_g(e));
    }
}

/// Writes the canonical encoding of `x`.
#[verifier::rlimit(100)]
#[verifier::spinoff_prover]
pub fn write_request(w: &mut Vec<u8>, x: &Request)
    requires
        target_wf(x.ext_target),
    ensures
        final(w)@ == old(w)@ + enc_request(x@),
{
    let zf = x.ext_qos != QoSType::default() || x.ext_tstamp.is_some() || x.ext_dst
        != DestinationType::default() || x.ext_target != TargetType::default();
    let nf = x.wire_expr.has_suffix();
    let mf = x.mapping != Mapping::default();
    let ghost hh = req_header(nf, mf, zf);
    let ghost s_id = enc_zint(x.id);
    let ghost s_key = enc_zint(x.wire_expr.key);
    let ghost s_sfx = if nf {
        enc_zbuf(x.wire_expr.suffix@)
    } else {
        Seq::<u8>::empty()
    };
    let ghost s_ext = enc_exts(exts_of(x@));
    let mut h: u8 = MID_REQUEST;
    if nf {
        h = h + FLAG_N;
    }
    if mf {
        h = h + FLAG_M;
    }
    if zf {
        h = h + FLAG_Z;
    }
    proof {
        assert(h == hh);
    }
    w.push(h);
    write_zint(w, x.id);
    proof {
        assert(w@ =~= old(w)@ + (seq![hh] + s_id));
    }
    write_zint(w, x.wire_expr.key);
    proof {
        assert(w@ =~= old(w)@ + ((seq![hh] + s_id) + s_key));
    }
    if nf {
        write_zbuf(w, &x.wire_expr.suffix);
    }
    proof {
        assert(w@ =~= old(w)@ + (((seq![hh] + s_id) + s_key) + s_sfx));
    }
    write_exts(w, x);
    proof {
        assert(w@ =~= old(w)@ + ((((seq![hh] + s_id) + s_key) + s_sfx) + s_ext));
    }
    write_zbuf(w, &x.payload.bytes);
    proof {
        assert(w@ =~= old(w)@ + (((((seq![hh] + s_id) + s_key) + s_sfx) + s_ext) + enc_zbuf(
            x.payload.bytes@,
        )));
        assert(enc_request(x@) == ((((seq![hh] + s_id) + s_key) + s_sfx) + s_ext) + enc_zbuf(
            x.payload.bytes@,
        ));
    }
}

/// Reads the extension chain, folding each extension into `acc`.
fn read_exts(r: &mut Reader, acc: RequestExts) -> (res: Result<RequestExts, DidntRead>)
    requires
        old(r).wf(),
    ensures
        final(r).wf(),
        final(r).all_bytes() == old(r).all_bytes(),
        match res {
            Ok(a2) => dec_exts(old(r).remaining(), acc@) == Some(
                (a2@, old(r).remaining().len() - final(r).remaining().len()),
            ) && final(r).remaining() == old(r).remaining().skip(
                old(r).remaining().len() - final(r).remaining().len(),
            ),
            Err(_) => dec_exts(old(r).remaining(), acc@) is None,
        },
    decreases old(r).remaining().len(),
{
    let ghost b = old(r).remaining();
    let h = match r.read_u8() {
        Ok(x) => x,
        Err(e) => {
            return Err(e);
        },
    };
    let more = h >= 128;
    let eid = h % 128;
    proof {
        assert(b[0] == h);
        assert(r.remaining() =~= b.skip(1));
    }
    let mut a = acc;
    if eid == EXT_QOS {
        let v = match read_zint(r) {
            Ok(v) => v,
            Err(e) => {
                return Err(e);
            },
        };
        a.qos = QoSType { inner: v };
        proof {
            crate::zint::lemma_dec_zint_bounds(b.skip(1));
            let n = b.skip(1).len() - r.remaining().len();
            lemma_skip_skip(b, 1, n);
        }
    } else if eid == EXT_TSTAMP {
        let body = match read_zbuf(r) {
            Ok(v) => v,
            Err(e) => {
                return Err(e);
            },
        };
        let ghost bodyv = body@;
        let mut br = Reader::new(body);
        let time = match read_zint(&mut br) {
            Ok(v) => v,
            Err(e) => {
                return Err(e);
            },
        };
        let rest_len = br.remaining_len();
        let id = match br.read_bytes(rest_len) {
            Ok(v) => v,
            Err(e) => {
                return Err(e);
            },
        };
        proof {
            crate::zint::lemma_dec_zint_bounds(bodyv);
            assert(id@ =~= bodyv.skip(bodyv.len() - rest_len));
        }
        a.tstamp = Some(TimestampType { time, id });
        proof {
            crate::zint::lemma_dec_zbuf_bounds(b.skip(1));
            let n = b.skip(1).len() - r.remaining().len();
            lemma_skip_skip(b, 1, n);
        }
    } else if eid == EXT_DST {
        a.dst = DestinationType::Subscribers;
    } else if eid == EXT_TARGET {
        let v = match read_zint(r) {
            Ok(v) => v,
            Err(e) => {
                return Err(e);
            },
        };
        a.target = if v == 0 {
            TargetType::BestMatching
        } else if v == 1 {
            TargetType::All
        } else if v == 2 {
            TargetType::AllComplete
        } else {
            TargetType::Complete(v - 3)
        };
        proof {
            crate::zint::lemma_dec_zint_bounds(b.skip(1));
            let n = b.skip(1).len() - r.remaining().len();
            lemma_skip_skip(b, 1, n);
        }
    } else {
        let encv = eid / 32;
        if encv == 0 {
        } else if encv == 1 {
            match read_zint(r) {
                Ok(_) => {
                },
                Err(e) => {
                    return Err(e);
                },
            }
            proof {
                crate::zint::lemma_dec_zint_bounds(b.skip(1));
                let n = b.skip(1).len() - r.remaining().len();
                lemma_skip_skip(b, 1, n);
            }
        } else if encv == 2 {
            match read_zbuf(r) {
                Ok(_) => {
                },
                Err(e) => {
                    return Err(e);
                },
            }
            proof {
                crate::zint::lemma_dec_zbuf_bounds(b.skip(1));
                let n = b.skip(1).len() - r.remaining().len();
                lemma_skip_skip(b, 1, n);
            }
        } else {
            return Err(DidntRead);
        }
    }
    let ghost c = b.len() - r.remaining().len();
    proof {
        assert(dec_ext_step(eid, b.skip(1), acc@) == Some((a@, c)));
        assert(r.remaining() =~= b.skip(c));
        assert(1 <= c <= b.len());
    }
    if more {
        let ghost mid = r.remaining();
        let res = match read_exts(r, a) {
            Ok(a2) => a2,
            Err(e) => {
                return Err(e);
            },
        };
        proof {
            let m = mid.len() - r.remaining().len();
            assert(dec_exts(mid, a@) == Some((res@, m)));
            lemma_dec_exts_bounds(mid, a@);
            lemma_skip_skip(b, c, m);
            assert(r.remaining() =~= b.skip(c + m));
        }
        Ok(res)
    } else {
        Ok(a)
    }
}

/// Reads one request message, failing exactly when `dec_request` has no
/// answer.
#[verifier::rlimit(100)]
#[verifier::spinoff_prover]
pub fn read_request(r: &mut Reader) -> (res: Result<Request, DidntRead>)
    requires
        old(r).wf(),
    ensures
        final(r).wf(),
        final(r).all_bytes() == old(r).all_bytes(),
        match res {
            Ok(x) => dec_request(old(r).remaining()) == Some(
                (x@, old(r).remaining().len() - final(r).remaining().len()),
            ) && final(r).remaining() == old(r).remaining().skip(
                old(r).remaining().len() - final(r).remaining().len(),
            ),
            Err(_) => dec_request(old(r).remaining()) is None,
        },
{
    let ghost b = old(r).remaining();
    let h = match r.read_u8() {
        Ok(x) => x,
        Err(e) => {
            return Err(e);
        },
    };
    proof {
        assert(b[0] == h);
    }
    if h % 32 != MID_REQUEST {
        return Err(DidntRead);
    }
    let nf = h % 64 >= 32;
    let mf = h % 128 >= 64;
    let zf = h >= 128;
    let id = match read_zint(r) {
        Ok(v) => v,
        Err(e) => {
            return Err(e);
        },
    };
    let ghost n1 = b.len() - 1 - r.remaining().len();
    proof {
        assert(b.skip(1) =~= old(r).remaining().skip(1));
        crate::zint::lemma_dec_zint_bounds(b.skip(1));
        assert(dec_zint(b.skip(1)) == Some((id, n1)));
        assert(r.remaining() =~= b.skip(1 + n1));
    }
    let key = match read_zint(r) {
        Ok(v) => v,
        Err(e) => {
            return Err(e);
        },
    };
    let ghost n2 = b.len() - 1 - n1 - r.remaining().len();
    proof {
        crate::zint::lemma_dec_zint_bounds(b.skip(1 + n1));
        assert(dec_zint(b.skip(1 + n1)) == Some((key, n2)));
        assert(r.remaining() =~= b.skip(1 + n1 + n2));
    }
    let suffix: Vec<u8> = if nf {
        match read_zbuf(r) {
            Ok(v) => v,
            Err(e) => {
                return Err(e);
            },
        }
    } else {
        Vec::new()
    };
    let ghost n3 = b.len() - 1 - n1 - n2 - r.remaining().len();
    proof {
        crate::zint::lemma_dec_zbuf_bounds(b.skip(1 + n1 + n2));
        if nf {
            assert(dec_zbuf(b.skip(1 + n1 + n2)) == Some((suffix@, n3)));
        } else {
            assert(n3 == 0 && suffix@ =~= Seq::<u8>::empty());
        }
        assert(r.remaining() =~= b.skip(1 + n1 + n2 + n3));
    }
    let exts: RequestExts = if zf {
        match read_exts(
            r,
            RequestExts {
                qos: QoSType { inner: 0 },
                tstamp: None,
                dst: DestinationType::Queryables,
                target: TargetType::BestMatching,
            },
        ) {
            Ok(v) => v,
            Err(e) => {
                return Err(e);
            },
        }
    } else {
        RequestExts {
            qos: QoSType { inner: 0 },
            tstamp: None,
            dst: DestinationType::Queryables,
            target: TargetType::BestMatching,
        }
    };
    let ghost n4 = b.len() - 1 - n1 - n2 - n3 - r.remaining().len();
    proof {
        if zf {
            lemma_dec_exts_bounds(b.skip(1 + n1 + n2 + n3), exts_default());
            assert(dec_exts(b.skip(1 + n1 + n2 + n3), exts_default()) == Some((exts@, n4)));
        } else {
            assert(n4 == 0 && exts@ =~= exts_default());
        }
        assert(r.remaining() =~= b.skip(1 + n1 + n2 + n3 + n4));
    }
    let payload = match read_zbuf(r) {
        Ok(v) => v,
        Err(e) => {
            return Err(e);
        },
    };
    let ghost n5 = b.len() - 1 - n1 - n2 - n3 - n4 - r.remaining().len();
    proof {
        crate::zint::lemma_dec_zbuf_bounds(b.skip(1 + n1 + n2 + n3 + n4));
        assert(dec_zbuf(b.skip(1 + n1 + n2 + n3 + n4)) == Some((payload@, n5)));
        assert(r.remaining() =~= b.skip(1 + n1 + n2 + n3 + n4 + n5));
    }
    let x = Request {
        id,
        wire_expr: WireExpr { key, suffix },
        mapping: if mf {
            Mapping::Sender
        } else {
            Mapping::Receiver
        },
        payload: RequestBody { bytes: payload },
        ext_qos: exts.qos,
        ext_tstamp: exts.tstamp,
        ext_dst: exts.dst,
        ext_target: exts.target,
    };
    proof {
        assert(x@ =~= dec_request(b)->Some_0.0);
    }
    Ok(x)
}

/// Canonical re-encoding (law): whatever some byte run decodes to,
/// encoding the decoded message yields bytes that decode to the same
/// message again.
pub proof fn lemma_request_canonical(b: Seq<u8>, m: ReqView, n: int)
    requires
        dec_request(b) == Some((m, n)),
    ensures
        dec_request(enc_request(m)) == Some((m, enc_request(m).len() as int)),
{
    lemma_dec_request_wf(b);
    lemma_request_round_trip(m, Seq::<u8>::empty());
    assert(enc_request(m) + Seq::<u8>::empty() =~= enc_request(m));
}

} // verus!
