//! NAT-PMP port mapping: ask the gateway to open our listening port.
//!
//! Request: version 0, operation, two zero bytes, internal port, requested external port,
//! lifetime. Response: version 0, operation + 128, result, epoch, internal port, mapped
//! external port, lifetime. Numbers are big-endian.
use vstd::prelude::*;
use crate::text;
use crate::text::{push_decimal, push_text, string_of};

verus! {

/// NAT-PMP protocol version.
pub const NATPMP_VERSION: u8 = 0;

/// Gateway UDP port.
pub const NATPMP_PORT: u16 = 5351;

/// Which transport to map.
#[derive(Debug, Clone, Copy, PartialEq, Eq, Structural)]
pub enum Proto {
    Udp,
    Tcp,
}

impl Proto {
    /// The operation that maps this transport.
    pub open spec fn op(self) -> u8 {
        match self {
            Proto::Udp => 1,
            Proto::Tcp => 2,
        }
    }

    /// The operation that maps this transport.
    pub fn opcode(self) -> (op: u8)
        ensures
            op == self.op(),
    {
        match self {
            Proto::Udp => 1,
            Proto::Tcp => 2,
        }
    }
}

/// The big-endian bytes of a 16-bit number.
pub open spec fn be16(x: u16) -> Seq<u8> {
    seq![(x / 256) as u8, (x % 256) as u8]
}

/// The big-endian bytes of a 32-bit number.
pub open spec fn be32(x: u32) -> Seq<u8> {
    seq![
        (x / 0x100_0000) as u8,
        (x / 0x1_0000 % 256) as u8,
        (x / 0x100 % 256) as u8,
        (x % 256) as u8,
    ]
}

/// The 12 bytes of a map request.
pub open spec fn request_bytes(
    proto: Proto,
    internal_port: u16,
    external_port: u16,
    lifetime_secs: u32,
) -> Seq<u8> {
    seq![NATPMP_VERSION, proto.op(), 0u8, 0u8] + be16(internal_port) + be16(external_port) + be32(
        lifetime_secs,
    )
}

/// Build a map request.
pub fn build_map_request(
    proto: Proto,
    internal_port: u16,
    external_port: u16,
    lifetime_secs: u32,
) -> (b: [u8; 12])
    ensures
        b@ == request_bytes(proto, internal_port, external_port, lifetime_secs),
{
    let b: [u8; 12] = [
        NATPMP_VERSION,
        proto.opcode(),
        0,
        0,
        (internal_port / 256) as u8,
        (internal_port % 256) as u8,
        (external_port / 256) as u8,
        (external_port % 256) as u8,
        (lifetime_secs / 0x100_0000) as u8,
        (lifetime_secs / 0x1_0000 % 256) as u8,
        (lifetime_secs / 0x100 % 256) as u8,
        (lifetime_secs % 256) as u8,
    ];
    assert(b@ =~= request_bytes(proto, internal_port, external_port, lifetime_secs));
    b
}

/// A parsed map response.
#[derive(Debug, Clone, Copy, PartialEq, Eq, Structural)]
pub struct MapResponse {
    /// 0 is success.
    pub result: u16,
    pub internal_port: u16,
    /// The external port that the gateway mapped.
    pub mapped_external_port: u16,
    pub lifetime_secs: u32,
}

/// The 16 bytes of a map response.
pub open spec fn response_bytes(proto: Proto, r: MapResponse, epoch: u32) -> Seq<u8> {
    seq![NATPMP_VERSION, (proto.op() + 128) as u8] + be16(r.result) + be32(epoch) + be16(
        r.internal_port,
    ) + be16(r.mapped_external_port) + be32(r.lifetime_secs)
}

/// The number that two bytes spell.
pub open spec fn from_be16(a: u8, b: u8) -> u16 {
    (a * 256 + b) as u16
}

/// The number that four bytes spell.
pub open spec fn from_be32(a: u8, b: u8, c: u8, d: u8) -> u32 {
    (a * 0x100_0000 + b * 0x1_0000 + c * 0x100 + d) as u32
}

/// Bytes that answer a map request.
pub open spec fn is_response(proto: Proto, s: Seq<u8>) -> bool {
    s.len() >= 16 && s[0] == NATPMP_VERSION && s[1] == proto.op() + 128
}

/// What a map response says.
pub open spec fn response_of(s: Seq<u8>) -> MapResponse {
    MapResponse {
        result: from_be16(s[2], s[3]),
        internal_port: from_be16(s[8], s[9]),
        mapped_external_port: from_be16(s[10], s[11]),
        lifetime_secs: from_be32(s[12], s[13], s[14], s[15]),
    }
}

/// Parse a map response. `None` if malformed, or no response to a request for this
/// transport.
pub fn parse_map_response(proto: Proto, buf: &[u8]) -> (r: Option<MapResponse>)
    ensures
        r == (if is_response(proto, buf@) {
            Some(response_of(buf@))
        } else {
            None
        }),
{
    if buf.len() < 16 || buf[0] != NATPMP_VERSION || buf[1] != proto.opcode() + 128 {
        return None;
    }
    Some(
        MapResponse {
            result: buf[2] as u16 * 256 + buf[3] as u16,
            internal_port: buf[8] as u16 * 256 + buf[9] as u16,
            mapped_external_port: buf[10] as u16 * 256 + buf[11] as u16,
            lifetime_secs: buf[12] as u32 * 0x100_0000 + buf[13] as u32 * 0x1_0000 + buf[14] as u32
                * 0x100 + buf[15] as u32,
        },
    )
}

/// Why a port was not mapped.
#[derive(Debug, Clone, PartialEq, Eq)]
pub enum PortMapError {
    /// The exchange itself failed, in the socket's words.
    Io(String),
    /// The gateway did not answer.
    Timeout,
    /// The gateway refused, with this result.
    Failed(u16),
    /// The response was malformed.
    BadResponse,
}

impl PortMapError {
    /// What the error says.
    pub open spec fn said(&self) -> Seq<char> {
        match self {
            PortMapError::Io(e) => "io: "@ + e@,
            PortMapError::Timeout => "gateway did not answer (no NAT-PMP?)"@,
            PortMapError::Failed(c) => "gateway refused the mapping (result "@ + text::decimal(
                *c as nat,
            ) + ")"@,
            PortMapError::BadResponse => "malformed NAT-PMP response"@,
        }
    }

    /// The error in words.
    pub fn message(&self) -> (s: String)
        ensures
            s@ == self.said(),
    {
        let mut out: Vec<char> = Vec::new();
        match self {
            PortMapError::Io(e) => {
                push_text(&mut out, "io: ");
                push_text(&mut out, e.as_str());
            },
            PortMapError::Timeout => {
                push_text(&mut out, "gateway did not answer (no NAT-PMP?)");
            },
            PortMapError::Failed(c) => {
                push_text(&mut out, "gateway refused the mapping (result ");
                push_decimal(&mut out, *c as u64);
                push_text(&mut out, ")");
            },
            PortMapError::BadResponse => {
                push_text(&mut out, "malformed NAT-PMP response");
            },
        }
        assert(out@ =~= self.said());
        string_of(&out)
    }
}

/// What came of the exchange with the gateway.
#[derive(Debug)]
pub enum MapReply<'a> {
    Io(String),
    Timeout,
    Bytes(&'a [u8]),
}

/// The external port that the gateway mapped, or why it did not.
pub fn map_outcome(proto: Proto, reply: MapReply) -> (r: Result<u16, PortMapError>)
    ensures
        r == (match reply {
            MapReply::Io(e) => Err(PortMapError::Io(e)),
            MapReply::Timeout => Err(PortMapError::Timeout),
            MapReply::Bytes(b) => if !is_response(proto, b@) {
                Err(PortMapError::BadResponse)
            } else if response_of(b@).result != 0 {
                Err(PortMapError::Failed(response_of(b@).result))
            } else {
                Ok(response_of(b@).mapped_external_port)
            },
        }),
{
    match reply {
        MapReply::Io(e) => Err(PortMapError::Io(e)),
        MapReply::Timeout => Err(PortMapError::Timeout),
        MapReply::Bytes(b) => match parse_map_response(proto, b) {
            None => Err(PortMapError::BadResponse),
            Some(resp) => if resp.result != 0 {
                Err(PortMapError::Failed(resp.result))
            } else {
                Ok(resp.mapped_external_port)
            },
        },
    }
}

/// What a gateway answers is understood, for the transport that was asked for and no other.
pub proof fn law_response_round_trip(proto: Proto, other: Proto, r: MapResponse, epoch: u32)
    ensures
        is_response(other, response_bytes(proto, r, epoch)) <==> other == proto,
        response_of(response_bytes(proto, r, epoch)) == r,
{
    let s = response_bytes(proto, r, epoch);
    assert(s[1] == proto.op() + 128);
    assert(from_be16(s[2], s[3]) == r.result);
    assert(from_be16(s[8], s[9]) == r.internal_port);
    assert(from_be16(s[10], s[11]) == r.mapped_external_port);
    assert(from_be32(s[12], s[13], s[14], s[15]) == r.lifetime_secs);
}

/// What counts as an answer, and what it says: sixteen bytes or more, of version zero, with the
/// opcode of the request and the high bit set; the result, the two ports and the lifetime stand in
/// their places with the high byte first.
pub proof fn law_what_a_gateway_says(proto: Proto, s: Seq<u8>)
    ensures
        is_response(proto, s) <==> s.len() >= 16 && s[0] == 0 && s[1] == (if proto is Udp {
            129u8
        } else {
            130u8
        }),
        is_response(proto, s) ==> {
            let r = response_of(s);
            &&& r.result == 256 * s[2] + s[3]
            &&& r.internal_port == 256 * s[8] + s[9]
            &&& r.mapped_external_port == 256 * s[10] + s[11]
            &&& r.lifetime_secs == 0x100_0000 * s[12] + 0x1_0000 * s[13] + 0x100 * s[14] + s[15]
        },
{
}

/// What a gateway is asked: version zero, the opcode of the transport, the two ports and the
/// lifetime, with the high byte first.
pub proof fn law_what_a_gateway_is_asked(proto: Proto, internal: u16, external: u16, lifetime: u32)
    ensures
        ({
            let q = request_bytes(proto, internal, external, lifetime);
            &&& q.len() == 12
            &&& q[0] == 0 && q[1] == (if proto is Udp {
                1u8
            } else {
                2u8
            }) && q[2] == 0 && q[3] == 0
            &&& 256 * q[4] + q[5] == internal
            &&& 256 * q[6] + q[7] == external
            &&& 0x100_0000 * q[8] + 0x1_0000 * q[9] + 0x100 * q[10] + q[11] == lifetime
        }),
{
}

} // verus!
