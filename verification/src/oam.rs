//! The OAM (operation, administration and maintenance) message: an
//! out-of-band admin unit with a 16-bit id, a body shaped like an
//! extension body, and the QoS and Timestamp extensions.

use crate::ext::{QoSType, TimestampType, ZExtBody};
use vstd::prelude::*;

verus! {

pub type OamId = u16;

/// An out-of-band admin message.
#[derive(Debug, Clone, PartialEq, Eq)]
pub struct Oam {
    pub id: OamId,
    pub body: ZExtBody,
    pub ext_qos: QoSType,
    pub ext_tstamp: Option<TimestampType>,
}

/// Relies on rand::random::<u16>: draws one uniformly random value.
#[verifier::external_body]
fn random_u16() -> u16 {
    rand::random()
}

/// Relies on rand::random::<u64>: draws one uniformly random value.
#[verifier::external_body]
fn random_u64() -> u64 {
    rand::random()
}

/// Relies on rand::random::<u8>: draws one uniformly random value.
#[verifier::external_body]
fn random_u8() -> u8 {
    rand::random()
}

/// Relies on rand::random::<bool>: draws a fair coin flip.
#[verifier::external_body]
fn random_bool() -> bool {
    rand::random()
}

impl Oam {
    /// A message with every field drawn at random, for exercising the
    /// codec. Nothing is promised of the values.
    pub fn rand() -> Self {
        let id: OamId = random_u16();
        let body = match random_u8() % 3 {
            0 => ZExtBody::Unit,
            1 => ZExtBody::Z64(random_u64()),
            _ => {
                let mut bytes: Vec<u8> = Vec::new();
                let n = random_u8() % 8;
                let mut i: u8 = 0;
                while i < n
                    decreases n - i,
                {
                    bytes.push(random_u8());
                    i = i + 1;
                }
                ZExtBody::ZBuf(bytes)
            },
        };
        let ext_qos = QoSType { inner: random_u64() };
        let ext_tstamp = if random_bool() {
            let mut idb: Vec<u8> = Vec::new();
            let mut i: u8 = 0;
            while i < 16
                decreases 16 - i,
            {
                idb.push(random_u8());
                i = i + 1;
            }
            Some(TimestampType { time: random_u64(), id: idb })
        } else {
            None
        };
        Oam { id, body, ext_qos, ext_tstamp }
    }
}

} // verus!
