//! Answering other nodes' Kad requests. What is decided here is pure: the caller brings the
//! datagram, who it came from, and the pools that contacts may be taken from.
use vstd::prelude::*;
use crate::kad_wire;
use crate::kad_wire::{
    build_bootstrap_res, build_hello, build_kad2_res, build_pong, parse_hello, parse_hello_res_ack,
    parse_kad2_req, Kad128, WireContact, KADEMLIA_VERSION, OP_BOOTSTRAP_REQ, OP_BOOTSTRAP_RES,
    OP_HELLO_REQ, OP_HELLO_RES, OP_KAD2_REQ, OP_KAD2_RES, OP_PING, OP_PONG,
    OP_PUBLISH_KEY_REQ, OP_PUBLISH_NOTES_REQ, OP_PUBLISH_SOURCE_REQ, OP_SEARCH_KEY_REQ,
    OP_SEARCH_SOURCE_REQ,
};
use crate::wire;

verus! {

/// The most contacts that an answer to a lookup holds: what a plain lookup asks for. A request
/// can ask for 31; but a node discards an answer longer than it asked for.
pub const KAD_FIND_NODE_ANSWER_CAP: usize = 11;

/// The most contacts that an answer to a bootstrap request holds. The request has no body and
/// its source can be forged, so the answer is kept small.
pub const KAD_BOOTSTRAP_ANSWER_CAP: usize = 20;

/// The option of a hello answer that asks for an acknowledgement.
pub const MISC_REQUEST_ACK: u8 = 0x04;

/// Who we are to other nodes.
#[derive(Debug, Clone, Copy, PartialEq, Eq, Structural)]
pub struct ServeIdentity {
    pub kad_id: Kad128,
    pub tcp_port: u16,
    /// The UDP port to name in a hello: the one that is mapped, where it is known.
    pub advertised_udp_port: u16,
}

/// One answer to send.
#[derive(Debug, Clone, PartialEq, Eq)]
pub struct ServeAnswer {
    pub opcode: u8,
    pub payload: Vec<u8>,
    /// The answer asks for an acknowledgement, so the sender is worth remembering.
    pub request_ack: bool,
}

impl ServeAnswer {
    /// An answer that asks for no acknowledgement.
    fn plain(opcode: u8, payload: Vec<u8>) -> (a: Option<ServeAnswer>)
        ensures
            a == Some(ServeAnswer { opcode, payload, request_ack: false }),
    {
        Some(ServeAnswer { opcode, payload, request_ack: false })
    }

    /// The answer has this opcode and payload.
    pub open spec fn says(&self, opcode: u8, payload: Seq<u8>) -> bool {
        self.opcode == opcode && self.payload@ == payload
    }
}

/// The contacts that are sent: the first of those found.
pub open spec fn capped(found: Seq<WireContact>, cap: int) -> Seq<WireContact> {
    if found.len() <= cap {
        found
    } else {
        found.take(cap)
    }
}

/// How many contacts a request for `req_type` of them gets at most.
pub open spec fn wanted(req_type: u8) -> usize {
    if req_type <= KAD_FIND_NODE_ANSWER_CAP {
        req_type as usize
    } else {
        KAD_FIND_NODE_ANSWER_CAP
    }
}

/// The options of our answer to a hello: a sender that is not known to receive at its address
/// is asked to acknowledge.
pub open spec fn hello_misc(valid_receiver_key: bool) -> Option<u8> {
    if valid_receiver_key {
        None
    } else {
        Some(MISC_REQUEST_ACK)
    }
}

/// What a request is answered: the contacts for a lookup come from `closest_serving` alone, the
/// contacts for a bootstrap request from `bootstrap_pool` alone, and what is not a request for
/// us to answer, or is not well formed, or is meant for another node, gets no answer.
pub open spec fn answered<
    S: FnOnce(&Kad128, usize) -> Vec<WireContact>,
    B: FnOnce(&Kad128, usize) -> Vec<WireContact>,
>(
    op: u8,
    payload: Seq<u8>,
    from_udp_port: u16,
    me: ServeIdentity,
    valid_receiver_key: bool,
    closest_serving: S,
    bootstrap_pool: B,
    answer: Option<ServeAnswer>,
) -> bool {
    if op == OP_PING {
        &&& answer is Some
        &&& answer->0.says(OP_PONG, wire::le16(from_udp_port))
        &&& !answer->0.request_ack
    } else if op == OP_HELLO_REQ {
        match kad_wire::hello_of(payload) {
            Err(_) => answer is None,
            Ok(_) => {
                &&& answer is Some
                &&& answer->0.says(
                    OP_HELLO_RES,
                    kad_wire::hello_bytes(
                        me.kad_id,
                        me.tcp_port,
                        Some(me.advertised_udp_port),
                        hello_misc(valid_receiver_key),
                    ),
                )
                &&& answer->0.request_ack == !valid_receiver_key
            },
        }
    } else if op == OP_KAD2_REQ {
        match kad_wire::kad2_req_of(payload) {
            Err(_) => answer is None,
            Ok(req) => if req.receiver != me.kad_id {
                answer is None
            } else {
                &&& answer is Some
                &&& !answer->0.request_ack
                &&& exists|found: Vec<WireContact>| #[trigger]
                    call_ensures(closest_serving, (&req.target, wanted(req.req_type)), found)
                        && answer->0.says(
                        OP_KAD2_RES,
                        kad_wire::kad2_res_bytes(
                            req.target,
                            capped(found@, wanted(req.req_type) as int),
                        ),
                    )
            },
        }
    } else if op == OP_BOOTSTRAP_REQ {
        &&& answer is Some
        &&& !answer->0.request_ack
        &&& exists|found: Vec<WireContact>| #[trigger]
            call_ensures(bootstrap_pool, (&me.kad_id, KAD_BOOTSTRAP_ANSWER_CAP), found)
                && answer->0.says(
                OP_BOOTSTRAP_RES,
                kad_wire::bootstrap_res_bytes(
                    me.kad_id,
                    me.tcp_port,
                    KADEMLIA_VERSION,
                    capped(found@, KAD_BOOTSTRAP_ANSWER_CAP as int),
                ),
            )
    } else {
        answer is None
    }
}

fn truncated(found: Vec<WireContact>, cap: usize) -> (kept: Vec<WireContact>)
    ensures
        kept@ == capped(found@, cap as int),
{
    let mut found = found;
    found.truncate(cap);
    found
}

/// Decide the answer to one request, or `None` to stay silent.
///
/// `valid_receiver_key` says that the request echoed the key that we issue for its sender's
/// address, which proves that the sender receives there. Contacts for a lookup come from
/// `closest_serving`, those for a bootstrap request from `bootstrap_pool`, a wider pool: a node
/// that starts cannot afford a thin answer. Nothing is stored here, so a search or a publish
/// gets no answer.
pub fn answer_request<
    S: FnOnce(&Kad128, usize) -> Vec<WireContact>,
    B: FnOnce(&Kad128, usize) -> Vec<WireContact>,
>(
    op: u8,
    payload: &[u8],
    from_udp_port: u16,
    me: &ServeIdentity,
    valid_receiver_key: bool,
    closest_serving: S,
    bootstrap_pool: B,
) -> (answer: Option<ServeAnswer>)
    requires
        match kad_wire::kad2_req_of(payload@) {
            Ok(req) => op == OP_KAD2_REQ && req.receiver == me.kad_id ==> call_requires(
                closest_serving,
                (&req.target, wanted(req.req_type)),
            ),
            Err(_) => true,
        },
        op == OP_BOOTSTRAP_REQ ==> call_requires(
            bootstrap_pool,
            (&me.kad_id, KAD_BOOTSTRAP_ANSWER_CAP),
        ),
    ensures
        answered(
            op,
            payload@,
            from_udp_port,
            *me,
            valid_receiver_key,
            closest_serving,
            bootstrap_pool,
            answer,
        ),
{
    if op == OP_PING {
        return ServeAnswer::plain(OP_PONG, build_pong(from_udp_port));
    }
    if op == OP_HELLO_REQ {
        return answer_hello(payload, me, valid_receiver_key);
    }
    if op == OP_KAD2_REQ {
        let req = match parse_kad2_req(payload) {
            Ok(req) => req,
            Err(_) => {
                return None;
            },
        };
        if req.receiver != me.kad_id {
            return None;
        }
        let want: usize = if req.req_type as usize <= KAD_FIND_NODE_ANSWER_CAP {
            req.req_type as usize
        } else {
            KAD_FIND_NODE_ANSWER_CAP
        };
        let found = closest_serving(&req.target, want);
        let ghost all = found;
        let contacts = truncated(found, want);
        assert(call_ensures(closest_serving, (&req.target, want), all));
        return ServeAnswer::plain(OP_KAD2_RES, build_kad2_res(req.target, &contacts));
    }
    if op == OP_BOOTSTRAP_REQ {
        let found = bootstrap_pool(&me.kad_id, KAD_BOOTSTRAP_ANSWER_CAP);
        let ghost all = found;
        let contacts = truncated(found, KAD_BOOTSTRAP_ANSWER_CAP);
        assert(call_ensures(bootstrap_pool, (&me.kad_id, KAD_BOOTSTRAP_ANSWER_CAP), all));
        return ServeAnswer::plain(
            OP_BOOTSTRAP_RES,
            build_bootstrap_res(me.kad_id, me.tcp_port, KADEMLIA_VERSION, &contacts),
        );
    }
    None
}

/// Answer a hello. A hello that cannot be parsed is dropped. An acknowledgement is asked for
/// only where the sender's address is not proven yet.
pub fn answer_hello(payload: &[u8], me: &ServeIdentity, valid_receiver_key: bool) -> (answer:
    Option<ServeAnswer>)
    ensures
        match kad_wire::hello_of(payload@) {
            Err(_) => answer is None,
            Ok(_) => {
                &&& answer is Some
                &&& answer->0.says(
                    OP_HELLO_RES,
                    kad_wire::hello_bytes(
                        me.kad_id,
                        me.tcp_port,
                        Some(me.advertised_udp_port),
                        hello_misc(valid_receiver_key),
                    ),
                )
                &&& answer->0.request_ack == !valid_receiver_key
            },
        },
{
    if parse_hello(payload).is_err() {
        return None;
    }
    let request_ack = !valid_receiver_key;
    let misc: Option<u8> = if request_ack {
        Some(MISC_REQUEST_ACK)
    } else {
        None
    };
    let payload = build_hello(me.kad_id, me.tcp_port, Some(me.advertised_udp_port), misc);
    Some(ServeAnswer { opcode: OP_HELLO_RES, payload, request_ack })
}

/// What an acknowledgement of our hello answer means. Nothing is sent back either way.
#[must_use]
#[derive(Debug, Clone, Copy, PartialEq, Eq, Structural)]
pub enum AckVerdict {
    /// The contact with this id is to be marked verified, if the address that is on record for
    /// it is the one that the datagram came from.
    MarkSenderVerified { sender_id: Kad128 },
    /// No reply and no change.
    Drop,
}

/// Judge an acknowledgement of our hello answer. It counts if it is well formed, if a hello
/// answer went to that address lately, and if it echoes the key that we issue for the address.
pub fn accept_hello_res_ack(
    payload: &[u8],
    hello_res_recently_sent: bool,
    valid_receiver_key: bool,
) -> (verdict: AckVerdict)
    ensures
        verdict == match kad_wire::hello_res_ack_of(payload@) {
            Ok(sender_id) if hello_res_recently_sent && valid_receiver_key =>
                AckVerdict::MarkSenderVerified { sender_id },
            _ => AckVerdict::Drop,
        },
{
    match parse_hello_res_ack(payload) {
        Ok(sender_id) => if !hello_res_recently_sent {
            AckVerdict::Drop
        } else if !valid_receiver_key {
            AckVerdict::Drop
        } else {
            AckVerdict::MarkSenderVerified { sender_id }
        },
        Err(_) => AckVerdict::Drop,
    }
}

/// An answer to a lookup holds no more contacts than were asked for, never more than a plain
/// lookup asks for, and is about the target that was asked for. Its contacts are those that
/// `closest_serving` found for that target.
pub proof fn law_lookup_answer_is_never_longer_than_asked<
    S: FnOnce(&Kad128, usize) -> Vec<WireContact>,
    B: FnOnce(&Kad128, usize) -> Vec<WireContact>,
>(
    payload: Seq<u8>,
    from_udp_port: u16,
    me: ServeIdentity,
    valid_receiver_key: bool,
    closest_serving: S,
    bootstrap_pool: B,
    answer: Option<ServeAnswer>,
)
    requires
        answered(
            OP_KAD2_REQ,
            payload,
            from_udp_port,
            me,
            valid_receiver_key,
            closest_serving,
            bootstrap_pool,
            answer,
        ),
        answer is Some,
    ensures
        match (kad_wire::kad2_req_of(payload), kad_wire::kad2_res_of(answer->0.payload@)) {
            (Ok(req), Ok((target, contacts))) => {
                &&& target == req.target
                &&& contacts.len() <= req.req_type
                &&& contacts.len() <= KAD_FIND_NODE_ANSWER_CAP
                &&& exists|found: Vec<WireContact>| #[trigger]
                    call_ensures(closest_serving, (&req.target, wanted(req.req_type)), found)
                        && contacts == capped(found@, wanted(req.req_type) as int)
            },
            _ => false,
        },
{
    let req = kad_wire::kad2_req_of(payload)->Ok_0;
    let want = wanted(req.req_type);
    let found = choose|found: Vec<WireContact>| #[trigger]
        call_ensures(closest_serving, (&req.target, want), found) && answer->0.says(
            OP_KAD2_RES,
            kad_wire::kad2_res_bytes(req.target, capped(found@, want as int)),
        );
    kad_wire::law_kad2_res_round_trip(req.target, capped(found@, want as int));
}

/// An answer to a bootstrap request names us, and holds no more contacts than the cap allows.
/// Its contacts are those that `bootstrap_pool` found.
pub proof fn law_bootstrap_answer_is_capped<
    S: FnOnce(&Kad128, usize) -> Vec<WireContact>,
    B: FnOnce(&Kad128, usize) -> Vec<WireContact>,
>(
    payload: Seq<u8>,
    from_udp_port: u16,
    me: ServeIdentity,
    valid_receiver_key: bool,
    closest_serving: S,
    bootstrap_pool: B,
    answer: Option<ServeAnswer>,
)
    requires
        answered(
            OP_BOOTSTRAP_REQ,
            payload,
            from_udp_port,
            me,
            valid_receiver_key,
            closest_serving,
            bootstrap_pool,
            answer,
        ),
    ensures
        answer is Some,
        match kad_wire::bootstrap_res_of(answer->0.payload@) {
            Ok((id, tcp_port, version, contacts)) => {
                &&& id == me.kad_id
                &&& tcp_port == me.tcp_port
                &&& contacts.len() <= KAD_BOOTSTRAP_ANSWER_CAP
                &&& exists|found: Vec<WireContact>| #[trigger]
                    call_ensures(bootstrap_pool, (&me.kad_id, KAD_BOOTSTRAP_ANSWER_CAP), found)
                        && contacts == capped(found@, KAD_BOOTSTRAP_ANSWER_CAP as int)
            },
            Err(_) => false,
        },
{
    let cap = KAD_BOOTSTRAP_ANSWER_CAP as int;
    let found = choose|found: Vec<WireContact>| #[trigger]
        call_ensures(bootstrap_pool, (&me.kad_id, KAD_BOOTSTRAP_ANSWER_CAP), found)
            && answer->0.says(
            OP_BOOTSTRAP_RES,
            kad_wire::bootstrap_res_bytes(
                me.kad_id,
                me.tcp_port,
                KADEMLIA_VERSION,
                capped(found@, cap),
            ),
        );
    kad_wire::law_bootstrap_res_round_trip(
        me.kad_id,
        me.tcp_port,
        KADEMLIA_VERSION,
        capped(found@, cap),
    );
}

/// A hello that is answered gets our id and the port to reach us at, and the answer asks for an
/// acknowledgement exactly where the sender's address is not proven.
pub proof fn law_hello_answer_names_us<
    S: FnOnce(&Kad128, usize) -> Vec<WireContact>,
    B: FnOnce(&Kad128, usize) -> Vec<WireContact>,
>(
    payload: Seq<u8>,
    from_udp_port: u16,
    me: ServeIdentity,
    valid_receiver_key: bool,
    closest_serving: S,
    bootstrap_pool: B,
    answer: Option<ServeAnswer>,
)
    requires
        answered(
            OP_HELLO_REQ,
            payload,
            from_udp_port,
            me,
            valid_receiver_key,
            closest_serving,
            bootstrap_pool,
            answer,
        ),
        answer is Some,
    ensures
        match kad_wire::hello_of(answer->0.payload@) {
            Ok(hello) => {
                &&& hello.id == me.kad_id
                &&& hello.tcp_port == me.tcp_port
                &&& hello.source_udp_port == Some(me.advertised_udp_port)
                &&& hello.misc_options == hello_misc(valid_receiver_key)
            },
            Err(_) => false,
        },
        answer->0.request_ack == !valid_receiver_key,
{
    kad_wire::law_hello_round_trip(
        me.kad_id,
        me.tcp_port,
        Some(me.advertised_udp_port),
        hello_misc(valid_receiver_key),
    );
}

/// Nothing is stored here, and nothing is claimed to be: a search or a publish gets no answer,
/// nor does a lookup that is meant for another node.
pub proof fn law_what_is_not_ours_gets_silence<
    S: FnOnce(&Kad128, usize) -> Vec<WireContact>,
    B: FnOnce(&Kad128, usize) -> Vec<WireContact>,
>(
    op: u8,
    payload: Seq<u8>,
    from_udp_port: u16,
    me: ServeIdentity,
    valid_receiver_key: bool,
    closest_serving: S,
    bootstrap_pool: B,
    answer: Option<ServeAnswer>,
)
    requires
        answered(
            op,
            payload,
            from_udp_port,
            me,
            valid_receiver_key,
            closest_serving,
            bootstrap_pool,
            answer,
        ),
    ensures
        op == OP_SEARCH_KEY_REQ || op == OP_SEARCH_SOURCE_REQ || op == OP_PUBLISH_KEY_REQ || op
            == OP_PUBLISH_SOURCE_REQ || op == OP_PUBLISH_NOTES_REQ ==> answer is None,
        op == OP_KAD2_REQ && (kad_wire::kad2_req_of(payload) matches Ok(req) ==> req.receiver
            != me.kad_id) ==> answer is None,
{
}

/// An answer to a lookup is as long as it may be: it holds the contacts that were found, from the
/// first on, as many as were asked for, but eleven at the most. A bootstrap answer holds twenty at
/// the most.
pub proof fn law_an_answer_holds_what_was_found(found: Seq<WireContact>, req_type: u8)
    ensures
        ({
            let sent = capped(found, wanted(req_type) as int);
            &&& sent.len() <= found.len()
            &&& sent.len() <= req_type
            &&& sent.len() <= 11
            &&& sent.len() == found.len() || sent.len() == req_type || sent.len() == 11
            &&& forall|i: int| 0 <= i < sent.len() ==> #[trigger] sent[i] == found[i]
        }),
        ({
            let sent = capped(found, KAD_BOOTSTRAP_ANSWER_CAP as int);
            &&& sent.len() == found.len() || sent.len() == 20
            &&& sent.len() <= 20
            &&& forall|i: int| 0 <= i < sent.len() ==> #[trigger] sent[i] == found[i]
        }),
{
}

/// A ping is always answered, with the port that it came from and nothing else.
pub proof fn law_a_ping_is_told_its_port<
    S: FnOnce(&Kad128, usize) -> Vec<WireContact>,
    B: FnOnce(&Kad128, usize) -> Vec<WireContact>,
>(
    payload: Seq<u8>,
    from_udp_port: u16,
    me: ServeIdentity,
    valid_receiver_key: bool,
    closest_serving: S,
    bootstrap_pool: B,
    answer: Option<ServeAnswer>,
)
    requires
        answered(
            OP_PING,
            payload,
            from_udp_port,
            me,
            valid_receiver_key,
            closest_serving,
            bootstrap_pool,
            answer,
        ),
    ensures
        answer matches Some(a) && a.payload@.len() == 2 && a.payload@[0] + 256 * a.payload@[1]
            == from_udp_port && !a.request_ack,
{
    wire::law_the_low_byte_comes_first(from_udp_port, 0);
}

/// A lookup request is answered if and only if it can be read and names us as its receiver; a hello
/// if and only if it can be read, and it is then asked for an acknowledgement unless its sender
/// proved its address.
pub proof fn law_what_is_meant_for_us_is_answered<
    S: FnOnce(&Kad128, usize) -> Vec<WireContact>,
    B: FnOnce(&Kad128, usize) -> Vec<WireContact>,
>(
    op: u8,
    payload: Seq<u8>,
    from_udp_port: u16,
    me: ServeIdentity,
    valid_receiver_key: bool,
    closest_serving: S,
    bootstrap_pool: B,
    answer: Option<ServeAnswer>,
)
    requires
        answered(
            op,
            payload,
            from_udp_port,
            me,
            valid_receiver_key,
            closest_serving,
            bootstrap_pool,
            answer,
        ),
    ensures
        op == 0x21 ==> (answer is Some <==> (kad_wire::kad2_req_of(payload) matches Ok(req)
            && req.receiver == me.kad_id)),
        op == 0x11 ==> (answer is Some <==> kad_wire::hello_of(payload) is Ok),
        op == 0x01 ==> answer is Some,
        op != 0x01 && op != 0x11 && op != 0x21 && op != 0x60 ==> answer is None,
        answer matches Some(a) ==> (a.request_ack <==> op == 0x11 && !valid_receiver_key),
        !valid_receiver_key ==> hello_misc(valid_receiver_key) == Some(4u8),
        valid_receiver_key ==> hello_misc(valid_receiver_key) is None,
{
}

} // verus!
