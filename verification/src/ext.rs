//! Message extensions.
//!
//! An extension is one header byte — a 5-bit id in the low bits, a 2-bit
//! body encoding (`ENC`) above it, and a "more follows" bit on top — then a
//! body shaped by `ENC`: nothing (`Unit`), a varint (`Z64`) or a
//! length-prefixed byte array (`ZBuf`). The fourth `ENC` value is reserved
//! and never emitted; a decoder fails on it.
//!
//! The typed extensions carried by a `Request` (QoS, Timestamp,
//! Destination, Target) each pick one id and one `ENC`. Every typed
//! extension has a default value; a default is never emitted, and absence
//! decodes as the default.

use crate::zint::{enc_zbuf, enc_zint};
use vstd::prelude::*;

verus! {

/// `ENC` value for a body with no bytes.
pub const ENC_UNIT: u8 = 0x00;

/// `ENC` value for a varint body, placed in bits 5..=6.
pub const ENC_Z64: u8 = 0x20;

/// `ENC` value for a length-prefixed body, placed in bits 5..=6.
pub const ENC_ZBUF: u8 = 0x40;

/// The "more extensions follow" bit of an extension header.
pub const FLAG_MORE: u8 = 0x80;

/// QoS extension: id 0x01, `Z64` body.
pub const EXT_QOS: u8 = 0x21;

/// Timestamp extension: id 0x02, `ZBuf` body.
pub const EXT_TSTAMP: u8 = 0x42;

/// Destination extension: id 0x03, `Unit` body.
pub const EXT_DST: u8 = 0x03;

/// Target extension: id 0x04, `Z64` body.
pub const EXT_TARGET: u8 = 0x24;

/// Body of an extension whose id the decoder does not interpret.
#[derive(Debug, Clone, PartialEq, Eq)]
pub enum ZExtBody {
    Unit,
    Z64(u64),
    ZBuf(Vec<u8>),
}

/// Mathematical model of a `ZExtBody`.
#[verifier::ext_equal]
pub enum ZExtBodyV {
    Unit,
    Z64(u64),
    ZBuf(Seq<u8>),
}

impl View for ZExtBody {
    type V = ZExtBodyV;

    open spec fn view(&self) -> ZExtBodyV {
        match self {
            ZExtBody::Unit => ZExtBodyV::Unit,
            ZExtBody::Z64(v) => ZExtBodyV::Z64(*v),
            ZExtBody::ZBuf(b) => ZExtBodyV::ZBuf(b@),
        }
    }
}

/// QoS marker carried by a message; a packed word whose bits this layer
/// does not interpret.
#[derive(Debug, Clone, Copy, PartialEq, Eq, Structural)]
pub struct QoSType {
    pub inner: u64,
}

/// The default QoS: the zero word.
pub open spec fn qos_default() -> QoSType {
    QoSType { inner: 0 }
}

impl Default for QoSType {
    fn default() -> (r: Self)
        ensures
            r == qos_default(),
    {
        QoSType { inner: 0 }
    }
}

/// A timestamp: a time word plus the originator's identifier bytes.
#[derive(Debug, Clone, PartialEq, Eq)]
pub struct TimestampType {
    pub time: u64,
    pub id: Vec<u8>,
}

/// Mathematical model of a `TimestampType`.
#[verifier::ext_equal]
pub struct TsView {
    pub time: u64,
    pub id: Seq<u8>,
}

impl View for TimestampType {
    type V = TsView;

    open spec fn view(&self) -> TsView {
        TsView { time: self.time, id: self.id@ }
    }
}

/// Where a request is routed.
#[derive(Debug, Clone, Copy, PartialEq, Eq, Structural)]
pub enum DestinationType {
    Queryables,
    Subscribers,
}

impl Default for DestinationType {
    fn default() -> (r: Self)
        ensures
            r == DestinationType::Queryables,
    {
        DestinationType::Queryables
    }
}

/// How many matching endpoints a request asks for.
#[derive(Debug, Clone, Copy, PartialEq, Eq, Structural)]
pub enum TargetType {
    BestMatching,
    All,
    AllComplete,
    Complete(u64),
}

impl Default for TargetType {
    fn default() -> (r: Self)
        ensures
            r == TargetType::BestMatching,
    {
        TargetType::BestMatching
    }
}

/// The wire value of a target; `Complete(n)` rides three above `n`.
pub open spec fn target_value(t: TargetType) -> u64 {
    match t {
        TargetType::BestMatching => 0,
        TargetType::All => 1,
        TargetType::AllComplete => 2,
        TargetType::Complete(n) => (3 + n) as u64,
    }
}

/// `Complete(n)` is only encodable while `3 + n` still fits in 64 bits.
pub open spec fn target_wf(t: TargetType) -> bool {
    match t {
        TargetType::Complete(n) => n <= u64::MAX - 3,
        _ => true,
    }
}

/// The target a wire value names.
pub open spec fn target_of_value(v: u64) -> TargetType {
    if v == 0 {
        TargetType::BestMatching
    } else if v == 1 {
        TargetType::All
    } else if v == 2 {
        TargetType::AllComplete
    } else {
        TargetType::Complete((v - 3) as u64)
    }
}

/// Header byte of an extension: its id-and-encoding byte, plus the more
/// bit when further extensions follow.
pub open spec fn ext_header(eid: u8, more: bool) -> u8 {
    if more {
        (eid + 128) as u8
    } else {
        eid
    }
}

/// Encoding of an extension with a `Unit` body.
pub open spec fn enc_ext_unit(eid: u8, more: bool) -> Seq<u8> {
    seq![ext_header(eid, more)]
}

/// Encoding of an extension with a varint body.
pub open spec fn enc_ext_z64(eid: u8, more: bool, v: u64) -> Seq<u8> {
    seq![ext_header(eid, more)] + enc_zint(v)
}

/// Encoding of an extension with a length-prefixed body.
pub open spec fn enc_ext_zbuf(eid: u8, more: bool, body: Seq<u8>) -> Seq<u8> {
    seq![ext_header(eid, more)] + enc_zbuf(body)
}

/// Body bytes of a timestamp extension: the time, then the id bytes,
/// which run to the end of the body.
pub open spec fn enc_tstamp_body(t: TsView) -> Seq<u8> {
    enc_zint(t.time) + t.id
}

} // verus!
