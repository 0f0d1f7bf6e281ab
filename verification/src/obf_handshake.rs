//! The handshake of protocol obfuscation: what each side expects in the other's deciphered
//! bytes, and how a plain peer is told from an obfuscated one. The stream ciphers are the
//! caller's.
use vstd::prelude::*;
use crate::proto;
use crate::proto::{PROT_EDONKEY, PROT_EMULE, PROT_PACKED};
use crate::wire;
use crate::wire::{write_u32, IoError};

verus! {

/// What the first four deciphered bytes spell where both sides hold the same key.
pub const MAGICVALUE_SYNC: u32 = 0x835E_6FC4;

/// The one method of obfuscation.
pub const ENM_OBFUSCATION: u8 = 0;

/// What the first byte of an inbound connection says.
#[derive(Debug, Clone, Copy, PartialEq, Eq, Structural)]
pub enum ObfDetect {
    /// A plain peer: the byte is the protocol byte of its first packet.
    Plaintext { first: u8 },
    /// The marker of an obfuscated peer: its key and its deciphered head follow.
    Obfuscated,
}

/// A byte that starts a plain packet.
pub open spec fn plain_marker(b: u8) -> bool {
    b == PROT_EDONKEY || b == PROT_EMULE || b == PROT_PACKED
}

pub fn is_plaintext_marker(b: u8) -> (plain: bool)
    ensures
        plain == plain_marker(b),
{
    b == PROT_EDONKEY || b == PROT_EMULE || b == PROT_PACKED
}

/// Tell a plain peer from an obfuscated one by its first byte.
pub fn obf_detect(first: u8) -> (d: ObfDetect)
    ensures
        d == if plain_marker(first) {
            ObfDetect::Plaintext { first }
        } else {
            ObfDetect::Obfuscated
        },
{
    if is_plaintext_marker(first) {
        ObfDetect::Plaintext { first }
    } else {
        ObfDetect::Obfuscated
    }
}

/// Whether the head begins with the sync value.
fn in_sync(head: &[u8]) -> (b: bool)
    requires
        head@.len() >= 4,
    ensures
        b == (wire::de32(head@) == MAGICVALUE_SYNC),
{
    let v: u32 = head[0] as u32 + 0x100 * head[1] as u32 + 0x1_0000 * head[2] as u32 + 0x100_0000
        * head[3] as u32;
    v == MAGICVALUE_SYNC
}

/// The initiator's test of the responder's deciphered head: the sync value, the method, the
/// length of the padding. How many bytes of padding follow, or an error with the head's first
/// byte where the two sides are not in sync.
pub fn check_reply(head: &[u8; 6]) -> (pad: Result<u8, IoError>)
    ensures
        pad == if wire::de32(head@) == MAGICVALUE_SYNC {
            Ok::<u8, IoError>(head@[5])
        } else {
            Err(IoError::BadHeader(head@[0]))
        },
{
    if !in_sync(head) {
        return Err(IoError::BadHeader(head[0]));
    }
    Ok(head[5])
}

/// The responder's test of the initiator's deciphered head: the sync value, the methods it
/// supports, the method it prefers, the length of the padding.
pub fn check_request(head: &[u8; 7]) -> (pad: Result<u8, IoError>)
    ensures
        pad == if wire::de32(head@) == MAGICVALUE_SYNC {
            Ok::<u8, IoError>(head@[6])
        } else {
            Err(IoError::BadHeader(head@[0]))
        },
{
    if !in_sync(head) {
        return Err(IoError::BadHeader(head[0]));
    }
    Ok(head[6])
}

/// What the responder answers, before it is enciphered: no padding.
pub open spec fn reply_bytes() -> Seq<u8> {
    wire::le32(MAGICVALUE_SYNC) + seq![ENM_OBFUSCATION, 0u8]
}

pub fn build_reply() -> (out: Vec<u8>)
    ensures
        out@ == reply_bytes(),
{
    let mut out: Vec<u8> = Vec::new();
    write_u32(&mut out, MAGICVALUE_SYNC);
    out.push(ENM_OBFUSCATION);
    out.push(0);
    assert(out@ =~= reply_bytes());
    out
}

/// A responder's answer that is deciphered with the same key is in sync, and no padding
/// follows it.
pub proof fn law_reply_is_in_sync()
    ensures
        reply_bytes().len() == 6,
        wire::de32(reply_bytes()) == MAGICVALUE_SYNC,
        reply_bytes()[5] == 0,
{
    wire::lemma_u32_round_trip(MAGICVALUE_SYNC, seq![ENM_OBFUSCATION, 0u8]);
}

/// A plain packet is told for one by its first byte.
pub proof fn law_a_plain_packet_is_told_by_its_first_byte(protocol: u8, opcode: u8, payload: Seq<u8>)
    requires
        protocol == PROT_EDONKEY || protocol == PROT_EMULE || protocol == PROT_PACKED,
    ensures
        plain_marker(proto::frame_bytes(protocol, opcode, payload)[0]),
{
}

} // verus!
