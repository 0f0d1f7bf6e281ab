//! The two sides of a hello between peers: what each accepts as the other's packet.
use vstd::prelude::*;
use vstd::utf8::*;
use crate::peer;
use crate::peer::{parse_hello, HelloInfo, ParsedHello, OP_HELLO, OP_HELLOANSWER};
use crate::proto::{Packet, PROT_PACKED};
use crate::wire::IoError;

verus! {

/// Whether a packet has to be unpacked before it is looked at.
pub fn is_packed(pkt: &Packet) -> (b: bool)
    ensures
        b == (pkt.protocol == PROT_PACKED),
{
    pkt.protocol == PROT_PACKED
}

/// What the answer to our hello says. Anything but an answer to a hello is refused.
pub fn peer_handshake_outbound(answer: &Packet) -> (r: Result<ParsedHello, IoError>)
    ensures
        accepts(answer.opcode, answer.payload@, false, r),
{
    if answer.opcode != OP_HELLOANSWER {
        return Err(IoError::BadTag(answer.opcode));
    }
    parse_hello(&answer.payload, false)
}

/// What a peer's hello says. Anything but a hello is refused; a hello that is accepted is to be
/// answered with ours.
pub fn peer_handshake_inbound(hello: &Packet) -> (r: Result<ParsedHello, IoError>)
    ensures
        accepts(hello.opcode, hello.payload@, true, r),
{
    if hello.opcode != OP_HELLO {
        return Err(IoError::BadTag(hello.opcode));
    }
    parse_hello(&hello.payload, true)
}

/// What one side makes of the first packet that it reads.
pub open spec fn accepts(
    opcode: u8,
    payload: Seq<u8>,
    is_hello: bool,
    r: Result<ParsedHello, IoError>,
) -> bool {
    if opcode != (if is_hello {
        OP_HELLO
    } else {
        OP_HELLOANSWER
    }) {
        r is Err && r->Err_0 == IoError::BadTag(opcode)
    } else {
        match peer::hello_of(payload, is_hello) {
            Ok(h) => r is Ok && r->Ok_0@ == h,
            Err(e) => r is Err && r->Err_0 == e,
        }
    }
}

/// Two peers complete the handshake: each learns what the other's hello holds.
pub proof fn law_two_peers_complete_the_handshake(
    us: &HelloInfo,
    them: &HelloInfo,
    seen_by_them: Result<ParsedHello, IoError>,
    seen_by_us: Result<ParsedHello, IoError>,
)
    requires
        encode_utf8(us.nick@).len() <= 0xFFFF,
        encode_utf8(them.nick@).len() <= 0xFFFF,
        accepts(OP_HELLO, seq![16u8] + peer::hello_bytes(us), true, seen_by_them),
        accepts(OP_HELLOANSWER, peer::hello_bytes(them), false, seen_by_us),
    ensures
        seen_by_them is Ok,
        seen_by_them->Ok_0@ == peer::told(us),
        seen_by_us is Ok,
        seen_by_us->Ok_0@ == peer::told(them),
{
    peer::law_hello_round_trip(us);
    peer::law_hello_round_trip(them);
}

} // verus!
