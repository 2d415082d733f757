//! Checked framing of the kernel receive envelope: the kernel-stamped sender
//! principal and incarnation, the copied length and the message itself.
use vstd::prelude::*;
use crate::alpha_wire::{Boot, Error, Message, MessageView, message_framed, message_fields_ok};
use crate::le::{le16, le32, le64, read64};

verus! {

pub const ENVELOPE_BYTES: usize = 152;

#[derive(Clone, Copy, Debug, PartialEq, Eq)]
pub struct Received {
    pub principal: u32,
    pub incarnation: u64,
    pub message: Message,
}

/// Whether raw envelope bytes and the receive call's return value frame a
/// well-formed delivery from a live sender.
pub open spec fn envelope_ok(raw: Seq<u8>, returned: i64) -> bool {
    &&& raw.len() == ENVELOPE_BYTES
    &&& returned == 128
    &&& le64(raw, 0) <= u32::MAX
    &&& le64(raw, 8) != 0
    &&& le64(raw, 16) == 128
}

impl Received {
    /// Decodes bytes copied from the actual receive output. Decoding bytes an
    /// application supplied does not authenticate the claimed sender.
    pub fn decode(raw: &[u8], returned: i64) -> (r: Result<Self, Error>)
        ensures
            ({
                let m = raw@.subrange(24, 152);
                r is Ok <==> (envelope_ok(raw@, returned) && message_framed(m) && message_fields_ok(
                    m[5],
                    m[6],
                    le32(m, 8) as u32,
                    le16(m, 12) as nat,
                ))
            }),
            match r {
                Ok(v) => v.principal == le64(raw@, 0) && v.incarnation == le64(raw@, 8) && v.message@ == (MessageView {
                    operation: raw@[29],
                    status: raw@[30],
                    sequence: le32(raw@.subrange(24, 152), 8) as u32,
                    payload: raw@.subrange(24, 152).subrange(16, 16 + le16(raw@.subrange(24, 152), 12)),
                }),
                Err(e) => e == Error::Invalid,
            },
    {
        if raw.len() != ENVELOPE_BYTES || returned != 128 {
            return Err(Error::Invalid);
        }
        let principal = read64(raw, 0);
        let incarnation = read64(raw, 8);
        let length = read64(raw, 16);
        if principal > u32::MAX as u64 || incarnation == 0 || length != 128 {
            return Err(Error::Invalid);
        }
        let message = match Message::decode(&raw[24..152]) {
            Ok(m) => m,
            Err(e) => return Err(e),
        };
        Ok(Received { principal: principal as u32, incarnation, message })
    }

    /// Whether this delivery came from bootstrap peer `index` in its expected
    /// live incarnation.
    pub fn from_peer(&self, boot: &Boot, index: usize) -> (r: bool)
        ensures
            r == (index < 4 && boot.peer_incarnations[index as int] != 0 && self.principal
                == boot.peer_principals[index as int] && self.incarnation == boot.peer_incarnations[index as int]),
    {
        index < 4 && boot.peer_incarnations[index] != 0 && self.principal == boot.peer_principals[index]
            && self.incarnation == boot.peer_incarnations[index]
    }
}

} // verus!
