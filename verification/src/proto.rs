//! The constants and plain values of the eD2k protocol that several modules share.
use vstd::prelude::*;
use crate::wire;
use crate::wire::{copy_range, write_bytes, write_u32, IoError, Reader};

verus! {

/// The size of a full part, in bytes.
pub const PARTSIZE: u64 = 9_728_000;

/// The size of a full block, in bytes: the lattice on which blocks are asked for.
pub const EMBLOCKSIZE: u64 = 184_320;

/// Protocol byte of the plain eD2k protocol.
pub const PROT_EDONKEY: u8 = 0xE3;

/// Protocol byte of the eMule extensions.
pub const PROT_EMULE: u8 = 0xC5;

/// Protocol byte of a compressed packet of the eMule extensions.
pub const PROT_PACKED: u8 = 0xD4;

/// A packet: which protocol, which message, and its bytes.
#[derive(Debug, Clone, PartialEq, Eq)]
pub struct Packet {
    pub protocol: u8,
    pub opcode: u8,
    pub payload: Vec<u8>,
}

impl Packet {
    pub fn new(protocol: u8, opcode: u8, payload: Vec<u8>) -> (p: Packet)
        ensures
            p.protocol == protocol,
            p.opcode == opcode,
            p.payload@ == payload@,
    {
        Packet { protocol, opcode, payload }
    }
}

/// The bytes of a packet on a stream: protocol, a 32-bit length that counts the opcode and
/// the payload, the opcode, the payload.
pub open spec fn frame_bytes(protocol: u8, opcode: u8, payload: Seq<u8>) -> Seq<u8> {
    seq![protocol] + wire::le32((payload.len() + 1) as u32) + seq![opcode] + payload
}

/// A packet as the bytes of a stream.
pub fn write_packet(p: &Packet) -> (out: Vec<u8>)
    requires
        p.payload@.len() < 0xFFFF_FFFF,
    ensures
        out@ == frame_bytes(p.protocol, p.opcode, p.payload@),
{
    let mut out: Vec<u8> = Vec::new();
    out.push(p.protocol);
    write_u32(&mut out, p.payload.len() as u32 + 1);
    out.push(p.opcode);
    write_bytes(&mut out, p.payload.as_slice());
    assert(out@ =~= frame_bytes(p.protocol, p.opcode, p.payload@));
    out
}

/// The frame that `s` begins with: the packet and how many bytes it took, or `None` where
/// the frame is not all there yet.
pub open spec fn parse_frame(s: Seq<u8>) -> Result<Option<(u8, u8, Seq<u8>, nat)>, IoError> {
    if s.len() < 1 {
        Ok(None)
    } else if s[0] != PROT_EDONKEY && s[0] != PROT_EMULE && s[0] != PROT_PACKED {
        Err(IoError::BadHeader(s[0]))
    } else if s.len() < 6 {
        Ok(None)
    } else {
        let n = wire::de32(s.skip(1));
        if n == 0 {
            Err(IoError::UnexpectedEof)
        } else if s.len() < 5 + n {
            Ok(None)
        } else {
            Ok(Some((s[0], s[5], s.subrange(6, 5 + n), (5 + n) as nat)))
        }
    }
}

/// Read the packet that the bytes of a stream begin with, and how many bytes it took.
pub fn read_packet(data: &[u8]) -> (r: Result<Option<(Packet, usize)>, IoError>)
    ensures
        match parse_frame(data@) {
            Ok(Some((protocol, opcode, payload, used))) => {
                &&& r matches Ok(Some((p, n)))
                &&& p.protocol == protocol
                &&& p.opcode == opcode
                &&& p.payload@ == payload
                &&& n == used
            },
            Ok(None) => r matches Ok(None),
            Err(e) => r matches Err(x) && x == e,
        },
{
    if data.len() < 1 {
        return Ok(None);
    }
    let protocol: u8 = data[0];
    if protocol != PROT_EDONKEY && protocol != PROT_EMULE && protocol != PROT_PACKED {
        return Err(IoError::BadHeader(protocol));
    }
    if data.len() < 6 {
        return Ok(None);
    }
    let mut r = Reader { data, pos: 1 };
    let n: u32 = r.read_u32()?;
    if n == 0 {
        return Err(IoError::UnexpectedEof);
    }
    if (data.len() - 5) < n as usize {
        return Ok(None);
    }
    let end: usize = 5 + n as usize;
    let payload = copy_range(data, 6, end);
    Ok(Some((Packet { protocol, opcode: data[5], payload }, end)))
}

/// A packet of a known protocol that is written is read back, whatever follows it.
pub proof fn law_frame_round_trip(protocol: u8, opcode: u8, payload: Seq<u8>, rest: Seq<u8>)
    requires
        protocol == PROT_EDONKEY || protocol == PROT_EMULE || protocol == PROT_PACKED,
        payload.len() < 0xFFFF_FFFF,
    ensures
        parse_frame(frame_bytes(protocol, opcode, payload) + rest) == Ok::<
            Option<(u8, u8, Seq<u8>, nat)>,
            IoError,
        >(Some((protocol, opcode, payload, frame_bytes(protocol, opcode, payload).len()))),
{
    let s = frame_bytes(protocol, opcode, payload) + rest;
    let n = (payload.len() + 1) as u32;
    assert(s.skip(1) =~= wire::le32(n) + (seq![opcode] + payload + rest));
    wire::lemma_u32_round_trip(n, seq![opcode] + payload + rest);
    assert(s.subrange(6, 5 + n) =~= payload);
}

/// A frame that is cut short is waited for, at whatever byte it is cut.
pub proof fn law_a_cut_frame_is_waited_for(protocol: u8, opcode: u8, payload: Seq<u8>, n: int)
    requires
        protocol == 0xE3 || protocol == 0xC5 || protocol == 0xD4,
        payload.len() < 0xFFFF_FFFF,
        0 <= n < frame_bytes(protocol, opcode, payload).len(),
    ensures
        parse_frame(frame_bytes(protocol, opcode, payload).take(n)) == Ok::<
            Option<(u8, u8, Seq<u8>, nat)>,
            IoError,
        >(None),
{
    let all = frame_bytes(protocol, opcode, payload);
    let s = all.take(n);
    if n >= 6 {
        let len = (payload.len() + 1) as u32;
        let t = s.skip(1);
        assert(t[0] == wire::le32(len)[0] && t[1] == wire::le32(len)[1] && t[2] == wire::le32(
            len,
        )[2] && t[3] == wire::le32(len)[3]);
        assert(wire::de32(t) == len);
    }
}

/// Bytes that begin with no protocol are no packet.
pub proof fn law_another_protocol_is_refused(s: Seq<u8>)
    requires
        s.len() > 0,
        s[0] != 0xE3,
        s[0] != 0xC5,
        s[0] != 0xD4,
    ensures
        parse_frame(s) == Err::<Option<(u8, u8, Seq<u8>, nat)>, IoError>(IoError::BadHeader(s[0])),
{
}

} // verus!
