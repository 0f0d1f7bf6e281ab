//! A live Kad node, without its socket: which reply answers which request, which datagram is
//! served and how, who enters the routing table, and what an answer may put before a search.
//!
//! An address is held in host order: 5.6.7.250 is `0x050607FA`. Times are milliseconds of one
//! clock that never runs back.
use vstd::prelude::*;
use crate::kad_serve;
use crate::kad_serve::{
    accept_hello_res_ack, answer_request, AckVerdict, ServeAnswer, ServeIdentity,
};
use crate::kad_wire;
use crate::kad_wire::{
    build_hello, build_hello_res_ack, parse_hello, BootstrapRes, Kad128, KadHello, WireContact,
    OP_BOOTSTRAP_REQ, OP_HELLO_REQ, OP_HELLO_RES_ACK, OP_KAD2_REQ, OP_PING,
};
use crate::net::{IpAddr, SocketAddr};
use crate::text::{push_text, string_of};
use crate::wire::IoError;

verus! {

/// How long a hello answer that we sent makes an acknowledgement from that address acceptable.
pub const ACK_SOLICITED_WINDOW: u64 = 180_000;

/// The contacts of the routing table that may share one address.
pub const MAX_CONTACTS_PER_IP: usize = 1;

/// The contacts of the routing table that may share one /24.
pub const MAX_CONTACTS_PER_SUBNET: usize = 10;

/// The last version whose nodes are refused at the port of the name service.
pub const LAST_LEGACY_VERSION: u8 = 5;

/// The port of the name service.
pub const DNS_PORT: u16 = 53;

/// The contacts of one answer that may share a public /24.
pub const ANSWER_PER_SUBNET: usize = 2;

/// The socket address of a contact.
pub fn contact_addr(ip: u32, port: u16) -> (a: SocketAddr)
    ensures
        a == (SocketAddr { ip: IpAddr::V4(ip), port }),
{
    SocketAddr { ip: IpAddr::V4(ip), port }
}

/// The address of a peer as records and keys hold it; zero for the other family.
pub open spec fn host_order(a: SocketAddr) -> u32 {
    match a.ip {
        IpAddr::V4(ip) => ip,
        IpAddr::V6(_) => 0,
    }
}

/// The address of a peer as records and keys hold it; zero for the other family.
pub fn ip_u32(addr: &SocketAddr) -> (ip: u32)
    ensures
        ip == host_order(*addr),
{
    match addr.ip {
        IpAddr::V4(ip) => ip,
        IpAddr::V6(_) => 0,
    }
}

/// A contact's address comes back from its socket address.
pub proof fn law_contact_addr_round_trip(ip: u32, port: u16)
    ensures
        host_order(SocketAddr { ip: IpAddr::V4(ip), port }) == ip,
{
}

/// What can go wrong in an exchange with another node.
#[derive(Debug, Clone, PartialEq, Eq)]
pub enum KadError {
    /// The socket failed, in its own words.
    Io(String),
    Timeout,
    /// The datagram was plain, or matched no key.
    NotDecryptable,
    /// There are no contacts yet.
    NotReady,
    /// The reply could not be parsed.
    Decode(IoError),
    /// A reply, but not the one that was awaited.
    Unexpected(u8),
}

/// A lower-case hexadecimal digit.
pub open spec fn hex_digit(n: int) -> char {
    if n < 10 {
        (('0' as int) + n) as char
    } else {
        (('a' as int) + n - 10) as char
    }
}

fn push_hex_digit(out: &mut Vec<char>, n: u8)
    requires
        n < 16,
    ensures
        final(out)@ == old(out)@.push(hex_digit(n as int)),
{
    if n < 10 {
        out.push((48 + n) as char);
    } else {
        out.push((87 + n) as char);
    }
}

impl KadError {
    /// What the error says.
    pub open spec fn said(&self) -> Seq<char> {
        match self {
            KadError::Io(e) => "io: "@ + e@,
            KadError::Timeout => "timed out"@,
            KadError::NotDecryptable => "response not decryptable (plaintext or wrong key)"@,
            KadError::NotReady => "no Kad contacts yet (bootstrap first)"@,
            KadError::Decode(e) => "decode: "@ + e.said(),
            KadError::Unexpected(op) => "unexpected opcode 0x"@.push(
                hex_digit((*op / 16) as int),
            ).push(hex_digit((*op % 16) as int)),
        }
    }

    /// The error in words.
    pub fn message(&self) -> (s: String)
        ensures
            s@ == self.said(),
    {
        let mut out: Vec<char> = Vec::new();
        match self {
            KadError::Io(e) => {
                push_text(&mut out, "io: ");
                push_text(&mut out, e.as_str());
            },
            KadError::Timeout => {
                push_text(&mut out, "timed out");
            },
            KadError::NotDecryptable => {
                push_text(&mut out, "response not decryptable (plaintext or wrong key)");
            },
            KadError::NotReady => {
                push_text(&mut out, "no Kad contacts yet (bootstrap first)");
            },
            KadError::Decode(e) => {
                push_text(&mut out, "decode: ");
                push_text(&mut out, e.message().as_str());
            },
            KadError::Unexpected(op) => {
                push_text(&mut out, "unexpected opcode 0x");
                push_hex_digit(&mut out, *op / 16);
                push_hex_digit(&mut out, *op % 16);
            },
        }
        assert(out@ =~= self.said());
        string_of(&out)
    }
}

/// A request that waits for its reply.
#[derive(Debug, Clone, Copy, PartialEq, Eq, Structural)]
pub struct PendingSlot {
    pub seq: u64,
    pub dest: SocketAddr,
    pub dest_ip: u32,
    /// The key that we issue for the destination: what its reply echoes.
    pub sender_vk: u32,
    /// The opcode of the reply.
    pub expect: u8,
}

/// The slot awaits this opcode from this very address.
pub open spec fn exact(s: PendingSlot, from: SocketAddr, op: u8) -> bool {
    s.dest == from && s.expect == op
}

/// The slot awaits this opcode from this host: a reply may come from another port.
pub open spec fn same_host(s: PendingSlot, from: SocketAddr, op: u8) -> bool {
    s.dest_ip == host_order(from) && s.expect == op
}

/// The slot that a reply belongs to: the first that awaits it from that very address, else the
/// first that awaits it from that host.
pub open spec fn is_match(slots: Seq<PendingSlot>, from: SocketAddr, op: u8, i: int) -> bool {
    &&& 0 <= i < slots.len()
    &&& if exists|j: int| 0 <= j < slots.len() && exact(#[trigger] slots[j], from, op) {
        &&& exact(slots[i], from, op)
        &&& forall|j: int| 0 <= j < i ==> !exact(#[trigger] slots[j], from, op)
    } else {
        &&& same_host(slots[i], from, op)
        &&& forall|j: int| 0 <= j < i ==> !same_host(#[trigger] slots[j], from, op)
    }
}

/// Whether any slot awaits this opcode from this address or host.
pub open spec fn is_awaited(slots: Seq<PendingSlot>, from: SocketAddr, op: u8) -> bool {
    exists|j: int|
        0 <= j < slots.len() && (exact(#[trigger] slots[j], from, op) || same_host(
            slots[j],
            from,
            op,
        ))
}

/// The slots that are not of these requests, in their order.
pub open spec fn without(slots: Seq<PendingSlot>, seqs: Seq<u64>) -> Seq<PendingSlot>
    decreases slots.len(),
{
    if slots.len() == 0 {
        Seq::empty()
    } else if seqs.contains(slots.last().seq) {
        without(slots.drop_last(), seqs)
    } else {
        without(slots.drop_last(), seqs).push(slots.last())
    }
}

/// The requests that wait for their replies, oldest first.
#[derive(Debug, Clone)]
pub struct Pending {
    pub slots: Vec<PendingSlot>,
    pub next_seq: u64,
}

impl Pending {
    /// No two requests have one number, and new ones are later than all of them.
    pub open spec fn wf(&self) -> bool {
        &&& forall|i: int| 0 <= i < self.slots@.len() ==> (#[trigger] self.slots@[i]).seq < self.next_seq
        &&& forall|i: int, j: int|
            0 <= i < j < self.slots@.len() ==> (#[trigger] self.slots@[i]).seq < (
            #[trigger] self.slots@[j]).seq
    }

    pub fn new() -> (p: Pending)
        ensures
            p.wf(),
            p.slots@.len() == 0,
            p.next_seq == 0,
    {
        Pending { slots: Vec::new(), next_seq: 0 }
    }

    /// Register a request before it is sent, so that no reply can come too early.
    pub fn begin_request(&mut self, dest: SocketAddr, sender_vk: u32, expect: u8) -> (seq: u64)
        requires
            old(self).wf(),
            old(self).next_seq < u64::MAX,
        ensures
            final(self).wf(),
            seq == old(self).next_seq,
            final(self).next_seq == seq + 1,
            final(self).slots@ == old(self).slots@.push(
                PendingSlot { seq, dest, dest_ip: host_order(dest), sender_vk, expect },
            ),
    {
        let seq: u64 = self.next_seq;
        self.next_seq = seq + 1;
        self.slots.push(PendingSlot { seq, dest, dest_ip: ip_u32(&dest), sender_vk, expect });
        seq
    }

    /// Take the slot that a reply belongs to. The others keep their order.
    pub fn take_match(&mut self, from: &SocketAddr, op: u8) -> (slot: Option<PendingSlot>)
        requires
            old(self).wf(),
        ensures
            final(self).wf(),
            final(self).next_seq == old(self).next_seq,
            slot is Some == is_awaited(old(self).slots@, *from, op),
            slot is None ==> final(self).slots@ == old(self).slots@,
            final(self).taken(old(self), *from, op, slot),
    {
        let from_ip: u32 = ip_u32(from);
        let mut i: usize = 0;
        while i < self.slots.len()
            invariant
                i <= self.slots@.len(),
                *self == *old(self),
                self.wf(),
                from_ip == host_order(*from),
                forall|j: int| 0 <= j < i ==> !exact(#[trigger] self.slots@[j], *from, op),
            decreases self.slots@.len() - i,
        {
            if self.slots[i].dest == *from && self.slots[i].expect == op {
                assert(exact(self.slots@[i as int], *from, op));
                assert(is_match(self.slots@, *from, op, i as int));
                return Some(self.slots.remove(i));
            }
            i = i + 1;
        }
        i = 0;
        while i < self.slots.len()
            invariant
                i <= self.slots@.len(),
                *self == *old(self),
                self.wf(),
                from_ip == host_order(*from),
                forall|j: int|
                    0 <= j < self.slots@.len() ==> !exact(#[trigger] self.slots@[j], *from, op),
                forall|j: int| 0 <= j < i ==> !same_host(#[trigger] self.slots@[j], *from, op),
            decreases self.slots@.len() - i,
        {
            if self.slots[i].dest_ip == from_ip && self.slots[i].expect == op {
                assert(same_host(self.slots@[i as int], *from, op));
                assert(is_match(self.slots@, *from, op, i as int));
                return Some(self.slots.remove(i));
            }
            i = i + 1;
        }
        None
    }

    /// How a match relates the slots before and after it.
    pub open spec fn taken(
        &self,
        before: &Pending,
        from: SocketAddr,
        op: u8,
        slot: Option<PendingSlot>,
    ) -> bool {
        slot is Some ==> exists|i: int|
            #![trigger before.slots@[i]]
            is_match(before.slots@, from, op, i) && slot == Some(before.slots@[i]) && self.slots@
                == before.slots@.remove(i)
    }

    /// Withdraw requests that no one waits for any more: a slot left behind would take the reply
    /// to a later request. Those that are gone already are no matter.
    pub fn withdraw(&mut self, seqs: &Vec<u64>)
        requires
            old(self).wf(),
        ensures
            final(self).wf(),
            final(self).next_seq == old(self).next_seq,
            final(self).slots@ == without(old(self).slots@, seqs@),
    {
        let mut kept: Vec<PendingSlot> = Vec::new();
        let mut i: usize = 0;
        assert(self.slots@.take(0) =~= Seq::empty());
        while i < self.slots.len()
            invariant
                i <= self.slots@.len(),
                *self == *old(self),
                self.wf(),
                kept@ == without(self.slots@.take(i as int), seqs@),
                kept@.len() <= i,
                forall|k: int|
                    0 <= k < kept@.len() ==> (#[trigger] kept@[k]).seq < self.next_seq,
                forall|k: int|
                    0 <= k < kept@.len() && i < self.slots@.len() ==> (#[trigger] kept@[k]).seq
                        < self.slots@[i as int].seq,
                forall|k: int, l: int|
                    0 <= k < l < kept@.len() ==> (#[trigger] kept@[k]).seq < (
                    #[trigger] kept@[l]).seq,
            decreases self.slots@.len() - i,
        {
            let s = self.slots[i];
            assert(self.slots@.take(i + 1).drop_last() =~= self.slots@.take(i as int));
            if !crate::part_file::contains_u64(seqs, s.seq) {
                kept.push(s);
            }
            i = i + 1;
        }
        assert(self.slots@.take(i as int) =~= self.slots@);
        self.slots = kept;
    }
}

/// After a withdrawal none of those requests has a slot, and every other one has its slot still.
pub proof fn law_withdraw_is_exact(slots: Seq<PendingSlot>, seqs: Seq<u64>)
    ensures
        forall|s: PendingSlot|
            #![trigger without(slots, seqs).contains(s)]
            without(slots, seqs).contains(s) <==> slots.contains(s) && !seqs.contains(s.seq),
    decreases slots.len(),
{
    if slots.len() > 0 {
        let shorter = slots.drop_last();
        law_withdraw_is_exact(shorter, seqs);
        let kept = without(shorter, seqs);
        assert forall|s: PendingSlot|
            #![trigger without(slots, seqs).contains(s)]
            without(slots, seqs).contains(s) <==> slots.contains(s) && !seqs.contains(s.seq) by {
            assert(slots =~= shorter.push(slots.last()));
            assert(slots.contains(s) <==> shorter.contains(s) || s == slots.last()) by {
                if shorter.contains(s) {
                    let i = choose|i: int| 0 <= i < shorter.len() && shorter[i] == s;
                    assert(slots[i] == s);
                }
                if s == slots.last() {
                    assert(slots[slots.len() - 1] == s);
                }
            }
            if !seqs.contains(slots.last().seq) {
                let all = kept.push(slots.last());
                assert(all.contains(s) <==> kept.contains(s) || s == slots.last()) by {
                    if kept.contains(s) {
                        let i = choose|i: int| 0 <= i < kept.len() && kept[i] == s;
                        assert(all[i] == s);
                    }
                    if s == slots.last() {
                        assert(all[all.len() - 1] == s);
                    }
                }
            }
        }
    }
}

/// Two requests to one host cannot swap their replies: a reply from the address that one of
/// them went to is never given to the other.
pub proof fn law_replies_are_not_swapped(
    slots: Seq<PendingSlot>,
    from: SocketAddr,
    op: u8,
    mine: int,
    got: int,
)
    requires
        0 <= mine < slots.len(),
        exact(slots[mine], from, op),
        is_match(slots, from, op, got),
    ensures
        slots[got].dest == from,
        slots[got].expect == op,
{
}

/// A private address: 10/8, 172.16/12 or 192.168/16.
pub open spec fn lan(ip: u32) -> bool {
    ip / 0x100_0000 == 10 || ip / 0x10_0000 == 0xAC1 || ip / 0x1_0000 == 0xC0A8
}

pub fn is_lan_ip(ip: u32) -> (b: bool)
    ensures
        b == lan(ip),
{
    ip / 0x100_0000 == 10 || ip / 0x10_0000 == 0xAC1 || ip / 0x1_0000 == 0xC0A8
}

/// The /24 of an address.
pub open spec fn subnet(ip: u32) -> u32 {
    ip / 256
}

/// How many of the contacts are public ones of this /24.
pub open spec fn in_subnet(cs: Seq<WireContact>, net: u32) -> nat
    decreases cs.len(),
{
    if cs.len() == 0 {
        0
    } else {
        in_subnet(cs.drop_last(), net) + (if !lan(cs.last().ip) && subnet(cs.last().ip) == net {
            1nat
        } else {
            0
        })
    }
}

/// Whether any of the contacts has this address.
pub open spec fn names_ip(cs: Seq<WireContact>, ip: u32) -> bool {
    exists|i: int| 0 <= i < cs.len() && (#[trigger] cs[i]).ip == ip
}

/// What a search takes from one answer, in its order: a contact whose address is not the
/// responder's and was not named before, and that is private or whose /24 has room yet. The
/// responder itself takes one of the places of its /24.
pub open spec fn frontier(responder_ip: u32, cs: Seq<WireContact>) -> Seq<WireContact>
    decreases cs.len(),
{
    if cs.len() == 0 {
        Seq::empty()
    } else {
        let before = frontier(responder_ip, cs.drop_last());
        let c = cs.last();
        let fresh = c.ip != responder_ip && !names_ip(cs.drop_last(), c.ip);
        let taken = in_subnet(before, subnet(c.ip)) + (if subnet(responder_ip) == subnet(c.ip) {
            1nat
        } else {
            0
        });
        if fresh && (lan(c.ip) || taken < ANSWER_PER_SUBNET) {
            before.push(c)
        } else {
            before
        }
    }
}

fn contains_ip(cs: &Vec<WireContact>, n: usize, ip: u32) -> (b: bool)
    requires
        n <= cs@.len(),
    ensures
        b == names_ip(cs@.take(n as int), ip),
{
    let mut i: usize = 0;
    while i < n
        invariant
            i <= n <= cs@.len(),
            forall|j: int| 0 <= j < i ==> (#[trigger] cs@[j]).ip != ip,
        decreases n - i,
    {
        if cs[i].ip == ip {
            assert(cs@.take(n as int)[i as int].ip == ip);
            return true;
        }
        i = i + 1;
    }
    false
}

fn count_in_subnet(cs: &Vec<WireContact>, net: u32) -> (n: usize)
    ensures
        n == in_subnet(cs@, net),
        n <= cs@.len(),
{
    let mut n: usize = 0;
    let mut i: usize = 0;
    assert(cs@.take(0) =~= Seq::empty());
    while i < cs.len()
        invariant
            i <= cs@.len(),
            n <= i,
            n == in_subnet(cs@.take(i as int), net),
        decreases cs@.len() - i,
    {
        assert(cs@.take(i + 1).drop_last() =~= cs@.take(i as int));
        if !is_lan_ip(cs[i].ip) && cs[i].ip / 256 == net {
            n = n + 1;
        }
        i = i + 1;
    }
    assert(cs@.take(i as int) =~= cs@);
    n
}

/// What a search takes from one answer. The routing table takes the same answer by its own
/// rules.
pub fn frontier_filter(responder_ip: u32, contacts: Vec<WireContact>) -> (kept: Vec<WireContact>)
    ensures
        kept@ == frontier(responder_ip, contacts@),
{
    let mut kept: Vec<WireContact> = Vec::new();
    let mut i: usize = 0;
    assert(contacts@.take(0) =~= Seq::empty());
    while i < contacts.len()
        invariant
            i <= contacts@.len(),
            kept@ == frontier(responder_ip, contacts@.take(i as int)),
            kept@.len() <= i,
        decreases contacts@.len() - i,
    {
        let c = contacts[i];
        assert(contacts@.take(i + 1).drop_last() =~= contacts@.take(i as int));
        if c.ip != responder_ip && !contains_ip(&contacts, i, c.ip) {
            if is_lan_ip(c.ip) {
                kept.push(c);
            } else {
                let taken: usize = count_in_subnet(&kept, c.ip / 256);
                let room: bool = if responder_ip / 256 == c.ip / 256 {
                    taken + 1 < ANSWER_PER_SUBNET
                } else {
                    taken < ANSWER_PER_SUBNET
                };
                if room {
                    kept.push(c);
                }
            }
        }
        i = i + 1;
    }
    assert(contacts@.take(i as int) =~= contacts@);
    kept
}

proof fn lemma_frontier_of_offered(responder_ip: u32, cs: Seq<WireContact>, c: WireContact)
    requires
        frontier(responder_ip, cs).contains(c),
    ensures
        cs.contains(c),
        c.ip != responder_ip,
        names_ip(cs, c.ip),
    decreases cs.len(),
{
    if cs.len() > 0 {
        let before = frontier(responder_ip, cs.drop_last());
        if before.contains(c) {
            lemma_frontier_of_offered(responder_ip, cs.drop_last(), c);
            let i = choose|i: int| 0 <= i < cs.drop_last().len() && cs.drop_last()[i] == c;
            assert(cs[i] == c);
        } else {
            let all = frontier(responder_ip, cs);
            let i = choose|i: int| 0 <= i < all.len() && all[i] == c;
            if i < before.len() {
                assert(before[i] == c);
            }
            assert(c == cs.last());
            assert(cs[cs.len() - 1] == c);
        }
        let i = choose|i: int| 0 <= i < cs.len() && cs[i] == c;
        assert(cs[i].ip == c.ip);
    }
}

/// A node cannot answer with itself, nor put one address before a search twice; all that a
/// search takes was offered.
pub proof fn law_frontier_has_each_address_once(responder_ip: u32, cs: Seq<WireContact>)
    ensures
        forall|i: int|
            0 <= i < frontier(responder_ip, cs).len() ==> cs.contains(
                #[trigger] frontier(responder_ip, cs)[i],
            ) && frontier(responder_ip, cs)[i].ip != responder_ip,
        forall|i: int, j: int|
            0 <= i < j < frontier(responder_ip, cs).len() ==> (#[trigger] frontier(
                responder_ip,
                cs,
            )[i]).ip != (#[trigger] frontier(responder_ip, cs)[j]).ip,
    decreases cs.len(),
{
    let f = frontier(responder_ip, cs);
    assert forall|i: int| 0 <= i < f.len() implies cs.contains(#[trigger] f[i]) && f[i].ip
        != responder_ip by {
        assert(f.contains(f[i]));
        lemma_frontier_of_offered(responder_ip, cs, f[i]);
    }
    if cs.len() > 0 {
        law_frontier_has_each_address_once(responder_ip, cs.drop_last());
        let before = frontier(responder_ip, cs.drop_last());
        assert forall|i: int, j: int| 0 <= i < j < f.len() implies (#[trigger] f[i]).ip != (
        #[trigger] f[j]).ip by {
            assert(before.contains(before[i]));
            lemma_frontier_of_offered(responder_ip, cs.drop_last(), before[i]);
            if j < before.len() {
                assert(before[i].ip != before[j].ip);
            }
        }
    }
}

/// A node can put at most two contacts of one public /24 before a search, and only one of its
/// own /24.
pub proof fn law_frontier_is_spread(responder_ip: u32, cs: Seq<WireContact>, net: u32)
    ensures
        in_subnet(frontier(responder_ip, cs), net) <= ANSWER_PER_SUBNET,
        subnet(responder_ip) == net ==> in_subnet(frontier(responder_ip, cs), net) + 1
            <= ANSWER_PER_SUBNET,
    decreases cs.len(),
{
    if cs.len() > 0 {
        law_frontier_is_spread(responder_ip, cs.drop_last(), net);
        let before = frontier(responder_ip, cs.drop_last());
        assert(before.push(cs.last()).drop_last() =~= before);
    }
}

/// How many of the contacts lie in the /24 of `ip`.
pub open spec fn neighbours(cs: Seq<WireContact>, ip: u32) -> nat {
    cs.filter(|c: WireContact| c.ip / 256 == ip / 256).len()
}

proof fn lemma_neighbours_push(cs: Seq<WireContact>, c: WireContact, ip: u32)
    ensures
        neighbours(cs.push(c), ip) == neighbours(cs, ip) + (if c.ip / 256 == ip / 256 {
            1nat
        } else {
            0nat
        }),
{
    reveal(Seq::filter);
    assert(cs.push(c).drop_last() =~= cs);
}

/// The search takes no more of a /24 than were offered of it.
proof fn lemma_frontier_neighbours(responder_ip: u32, cs: Seq<WireContact>, ip: u32)
    ensures
        in_subnet(frontier(responder_ip, cs), ip / 256) <= neighbours(cs, ip),
    decreases cs.len(),
{
    reveal(Seq::filter);
    if cs.len() > 0 {
        let less = cs.drop_last();
        lemma_frontier_neighbours(responder_ip, less, ip);
        assert(less.push(cs.last()) =~= cs);
        lemma_neighbours_push(less, cs.last(), ip);
        let before = frontier(responder_ip, less);
        assert(before.push(cs.last()).drop_last() =~= before);
    }
}

/// What the search took of the beginning of an answer, it takes of the whole.
proof fn lemma_frontier_grows(responder_ip: u32, cs: Seq<WireContact>, n: int)
    requires
        0 <= n <= cs.len(),
    ensures
        frontier(responder_ip, cs.take(n)).len() <= frontier(responder_ip, cs).len(),
        frontier(responder_ip, cs.take(n)) == frontier(responder_ip, cs).take(
            frontier(responder_ip, cs.take(n)).len() as int,
        ),
    decreases cs.len(),
{
    let first = frontier(responder_ip, cs.take(n));
    if n == cs.len() {
        assert(cs.take(n) =~= cs);
        assert(first =~= first.take(first.len() as int));
    } else {
        let less = cs.drop_last();
        lemma_frontier_grows(responder_ip, less, n);
        assert(less.take(n) =~= cs.take(n));
        assert(first =~= frontier(responder_ip, cs).take(first.len() as int));
    }
}

/// Nothing is thrown away without a reason: a contact whose address is not the responder's and is
/// not named earlier in the answer is taken if it is private, or if its /24 has fewer than two
/// earlier contacts in the answer, the responder counted.
pub proof fn law_frontier_takes_what_has_room(responder_ip: u32, cs: Seq<WireContact>, i: int)
    requires
        0 <= i < cs.len(),
        cs[i].ip != responder_ip,
        forall|j: int| 0 <= j < i ==> (#[trigger] cs[j]).ip != cs[i].ip,
        ({
            let ip = cs[i].ip;
            ||| 0x0A00_0000 <= ip <= 0x0AFF_FFFF
            ||| 0xAC10_0000 <= ip <= 0xAC1F_FFFF
            ||| 0xC0A8_0000 <= ip <= 0xC0A8_FFFF
            ||| neighbours(cs.take(i), ip) + (if responder_ip / 256 == ip / 256 {
                1nat
            } else {
                0nat
            }) < 2
        }),
    ensures
        frontier(responder_ip, cs).contains(cs[i]),
{
    let c = cs[i];
    let less = cs.take(i);
    let upto = cs.take(i + 1);
    assert(upto.drop_last() =~= less);
    assert(upto.last() == c);
    assert(!names_ip(less, c.ip)) by {
        if names_ip(less, c.ip) {
            let j = choose|j: int| 0 <= j < less.len() && (#[trigger] less[j]).ip == c.ip;
            assert(cs[j].ip == c.ip);
        }
    }
    lemma_frontier_neighbours(responder_ip, less, c.ip);
    let f = frontier(responder_ip, upto);
    assert(f == frontier(responder_ip, less).push(c));
    lemma_frontier_grows(responder_ip, cs, i + 1);
    assert(frontier(responder_ip, cs)[f.len() - 1] == f[f.len() - 1]);
}

/// A contact is left out for these reasons only: it is the responder, its address was named
/// before, or its /24 is full of contacts that were taken, the responder counted.
pub proof fn law_frontier_leaves_out_only_what_is_full(
    responder_ip: u32,
    cs: Seq<WireContact>,
    i: int,
)
    requires
        0 <= i < cs.len(),
        !frontier(responder_ip, cs).contains(cs[i]),
        cs[i].ip != responder_ip,
        forall|j: int| 0 <= j < i ==> (#[trigger] cs[j]).ip != cs[i].ip,
    ensures
        neighbours(frontier(responder_ip, cs), cs[i].ip) + (if responder_ip / 256 == cs[i].ip
            / 256 {
            1nat
        } else {
            0nat
        }) >= 2,
{
    let c = cs[i];
    let less = cs.take(i);
    let upto = cs.take(i + 1);
    assert(upto.drop_last() =~= less);
    assert(upto.last() == c);
    assert(!names_ip(less, c.ip)) by {
        if names_ip(less, c.ip) {
            let j = choose|j: int| 0 <= j < less.len() && (#[trigger] less[j]).ip == c.ip;
            assert(cs[j].ip == c.ip);
        }
    }
    let f = frontier(responder_ip, upto);
    let all = frontier(responder_ip, cs);
    lemma_frontier_grows(responder_ip, cs, i + 1);
    if f == frontier(responder_ip, less).push(c) {
        assert(all[f.len() - 1] == f[f.len() - 1]);
        assert(false);
    }
    lemma_in_subnet_neighbours(f, c.ip);
    lemma_neighbours_grow(all, f.len() as int, c.ip);
}

proof fn lemma_in_subnet_neighbours(cs: Seq<WireContact>, ip: u32)
    ensures
        in_subnet(cs, ip / 256) <= neighbours(cs, ip),
    decreases cs.len(),
{
    reveal(Seq::filter);
    if cs.len() > 0 {
        lemma_in_subnet_neighbours(cs.drop_last(), ip);
        assert(cs.drop_last().push(cs.last()) =~= cs);
        lemma_neighbours_push(cs.drop_last(), cs.last(), ip);
    }
}

proof fn lemma_neighbours_grow(cs: Seq<WireContact>, n: int, ip: u32)
    requires
        0 <= n <= cs.len(),
    ensures
        neighbours(cs.take(n), ip) <= neighbours(cs, ip),
    decreases cs.len(),
{
    if n == cs.len() {
        assert(cs.take(n) =~= cs);
    } else {
        lemma_neighbours_grow(cs.drop_last(), n, ip);
        assert(cs.drop_last().take(n) =~= cs.take(n));
        assert(cs.drop_last().push(cs.last()) =~= cs);
        lemma_neighbours_push(cs.drop_last(), cs.last(), ip);
    }
}

/// A search takes no three contacts of one public /24 from an answer, and no two of the
/// responder's own. What it takes keeps the order of the answer.
pub proof fn law_frontier_takes_no_three_of_a_kind(responder_ip: u32, cs: Seq<WireContact>)
    ensures
        forall|i: int, j: int, k: int|
            #![trigger frontier(responder_ip, cs)[i], frontier(responder_ip, cs)[j], frontier(
                responder_ip,
                cs,
            )[k]]
            0 <= i < j < k < frontier(responder_ip, cs).len() ==> {
                let f = frontier(responder_ip, cs);
                let ip = f[i].ip;
                ||| !(ip / 256 == f[j].ip / 256 && ip / 256 == f[k].ip / 256)
                ||| 0x0A00_0000 <= ip <= 0x0AFF_FFFF
                ||| 0xAC10_0000 <= ip <= 0xAC1F_FFFF
                ||| 0xC0A8_0000 <= ip <= 0xC0A8_FFFF
            },
        forall|i: int, j: int|
            #![trigger frontier(responder_ip, cs)[i], frontier(responder_ip, cs)[j]]
            0 <= i < j < frontier(responder_ip, cs).len() ==> {
                let f = frontier(responder_ip, cs);
                let ip = responder_ip;
                ||| !(ip / 256 == f[i].ip / 256 && ip / 256 == f[j].ip / 256)
                ||| 0x0A00_0000 <= ip <= 0x0AFF_FFFF
                ||| 0xAC10_0000 <= ip <= 0xAC1F_FFFF
                ||| 0xC0A8_0000 <= ip <= 0xC0A8_FFFF
            },
        exists|at: Seq<int>| #[trigger]
            taken_in_order(cs, frontier(responder_ip, cs), at),
{
    let f = frontier(responder_ip, cs);
    assert forall|i: int, j: int, k: int|
        #![trigger f[i], f[j], f[k]]
        0 <= i < j < k < f.len() && f[i].ip / 256 == f[j].ip / 256 && f[i].ip / 256 == f[k].ip / 256
            && !lan(f[i].ip) implies false by {
        law_frontier_is_spread(responder_ip, cs, f[i].ip / 256);
        lemma_same_net(f[i].ip, f[j].ip);
        lemma_same_net(f[i].ip, f[k].ip);
        lemma_counted(f, f[i].ip / 256, i, j, k);
    }
    assert forall|i: int, j: int|
        #![trigger f[i], f[j]]
        0 <= i < j < f.len() && responder_ip / 256 == f[i].ip / 256 && responder_ip / 256 == f[j].ip
            / 256 && !lan(responder_ip) implies false by {
        law_frontier_is_spread(responder_ip, cs, responder_ip / 256);
        lemma_same_net(responder_ip, f[i].ip);
        lemma_same_net(responder_ip, f[j].ip);
        lemma_counted_two(f, responder_ip / 256, i, j);
    }
    lemma_frontier_in_order(responder_ip, cs);
}

/// `at` leads from the places of `some` to places of `all`, onward.
pub open spec fn taken_in_order(
    all: Seq<WireContact>,
    some: Seq<WireContact>,
    at: Seq<int>,
) -> bool {
    &&& at.len() == some.len()
    &&& forall|k: int|
        0 <= k < at.len() ==> 0 <= #[trigger] at[k] < all.len() && all[at[k]] == some[k]
    &&& forall|k: int, m: int| 0 <= k < m < at.len() ==> #[trigger] at[k] < #[trigger] at[m]
}

proof fn lemma_frontier_in_order(responder_ip: u32, cs: Seq<WireContact>)
    ensures
        exists|at: Seq<int>| #[trigger]
            taken_in_order(cs, frontier(responder_ip, cs), at),
    decreases cs.len(),
{
    let f = frontier(responder_ip, cs);
    if cs.len() == 0 {
        assert(taken_in_order(cs, f, Seq::empty()));
    } else {
        let less = cs.drop_last();
        lemma_frontier_in_order(responder_ip, less);
        let before = frontier(responder_ip, less);
        let at = choose|at: Seq<int>| #[trigger] taken_in_order(less, before, at);
        assert forall|k: int| 0 <= k < at.len() implies 0 <= #[trigger] at[k] < cs.len()
            && cs[at[k]] == before[k] by {
            assert(less[at[k]] == cs[at[k]]);
        }
        if f == before {
            assert(taken_in_order(cs, f, at));
        } else {
            assert(f == before.push(cs.last()));
            let more = at.push(cs.len() - 1);
            assert(taken_in_order(cs, f, more));
        }
    }
}

/// Addresses of one /24 are private together.
proof fn lemma_same_net(a: u32, b: u32)
    requires
        a / 256 == b / 256,
    ensures
        lan(a) == lan(b),
{
}

proof fn lemma_counted_one(cs: Seq<WireContact>, net: u32, i: int)
    requires
        0 <= i < cs.len(),
        !lan(cs[i].ip) && subnet(cs[i].ip) == net,
    ensures
        in_subnet(cs, net) >= 1,
    decreases cs.len(),
{
    if i < cs.len() - 1 {
        lemma_counted_one(cs.drop_last(), net, i);
    }
}

proof fn lemma_counted_two(cs: Seq<WireContact>, net: u32, i: int, j: int)
    requires
        0 <= i < j < cs.len(),
        !lan(cs[i].ip) && subnet(cs[i].ip) == net,
        !lan(cs[j].ip) && subnet(cs[j].ip) == net,
    ensures
        in_subnet(cs, net) >= 2,
    decreases cs.len(),
{
    if j < cs.len() - 1 {
        lemma_counted_two(cs.drop_last(), net, i, j);
    } else {
        lemma_counted_one(cs.drop_last(), net, i);
    }
}

proof fn lemma_counted(cs: Seq<WireContact>, net: u32, i: int, j: int, k: int)
    requires
        0 <= i < j < k < cs.len(),
        !lan(cs[i].ip) && subnet(cs[i].ip) == net,
        !lan(cs[j].ip) && subnet(cs[j].ip) == net,
        !lan(cs[k].ip) && subnet(cs[k].ip) == net,
    ensures
        in_subnet(cs, net) >= 3,
    decreases cs.len(),
{
    if k < cs.len() - 1 {
        lemma_counted(cs.drop_last(), net, i, j, k);
    } else {
        lemma_counted_two(cs.drop_last(), net, i, j);
    }
}

/// What the routing table knows of a contact that is offered to it.
#[derive(Debug, Clone, Copy, PartialEq, Eq, Structural)]
pub struct GateFacts {
    /// The address and port are public and routable.
    pub acceptable: bool,
    /// The user's filter blocks the address. Without a filter nothing is blocked.
    pub blocked: bool,
    /// The address that the table holds for the contact's id, if it knows the id.
    pub stored_ip: Option<u32>,
    /// How many contacts of the table have the offered address.
    pub same_ip: usize,
    /// How many contacts of the table are in the /24 of the offered address.
    pub same_subnet: usize,
}

/// What becomes of a contact that is offered to the routing table.
#[derive(Debug, Clone, Copy, PartialEq, Eq, Structural)]
pub enum AddVerdict {
    Refuse,
    /// Add or refresh it.
    Add,
    /// Refresh it, and renew its lease.
    AddAndRenew,
}

/// A contact passes the gates: its address is public, not at the name service's port of an old
/// node, and not blocked; and the table has room for its address, unless it is there already
/// under this id.
pub open spec fn passes(c: WireContact, facts: GateFacts) -> bool {
    &&& facts.acceptable
    &&& !(c.udp_port == DNS_PORT && c.version <= LAST_LEGACY_VERSION)
    &&& !facts.blocked
    &&& c.ip == 0 || facts.stored_ip == Some(c.ip) || (facts.same_ip < MAX_CONTACTS_PER_IP
        && facts.same_subnet < MAX_CONTACTS_PER_SUBNET)
}

/// Decide whether a contact enters the routing table. There is no other way in. Its lease is
/// renewed only where it proved itself alive and was known before: neither hearsay nor a first
/// sighting renews one.
pub fn gated_add_contact(c: &WireContact, facts: &GateFacts, proven_alive: bool) -> (v: AddVerdict)
    ensures
        v == if !passes(*c, *facts) {
            AddVerdict::Refuse
        } else if proven_alive && facts.stored_ip is Some {
            AddVerdict::AddAndRenew
        } else {
            AddVerdict::Add
        },
{
    if !facts.acceptable {
        return AddVerdict::Refuse;
    }
    if c.udp_port == DNS_PORT && c.version <= LAST_LEGACY_VERSION {
        return AddVerdict::Refuse;
    }
    if facts.blocked {
        return AddVerdict::Refuse;
    }
    let refresh: bool = match facts.stored_ip {
        Some(ip) => ip == c.ip,
        None => false,
    };
    if c.ip != 0 && !refresh {
        if facts.same_ip >= MAX_CONTACTS_PER_IP || facts.same_subnet >= MAX_CONTACTS_PER_SUBNET {
            return AddVerdict::Refuse;
        }
    }
    if proven_alive && facts.stored_ip.is_some() {
        AddVerdict::AddAndRenew
    } else {
        AddVerdict::Add
    }
}

/// A known id that turns up at another address is no refresh: it faces the caps there.
pub proof fn law_repointing_faces_the_caps(c: WireContact, facts: GateFacts, ip: u32)
    requires
        facts.stored_ip == Some(ip),
        ip != c.ip,
        c.ip != 0,
        facts.same_ip >= MAX_CONTACTS_PER_IP || facts.same_subnet >= MAX_CONTACTS_PER_SUBNET,
    ensures
        !passes(c, facts),
{
}

/// The requests per minute that one address has answered, by opcode; `None` for what is not
/// served.
pub open spec fn budget(op: u8) -> Option<u32> {
    if op == OP_BOOTSTRAP_REQ {
        Some(2)
    } else if op == OP_HELLO_REQ {
        Some(3)
    } else if op == OP_KAD2_REQ {
        Some(10)
    } else if op == OP_PING {
        Some(2)
    } else {
        None
    }
}

pub fn flood_budget(op: u8) -> (b: Option<u32>)
    ensures
        b == budget(op),
{
    if op == OP_BOOTSTRAP_REQ {
        Some(2)
    } else if op == OP_HELLO_REQ {
        Some(3)
    } else if op == OP_KAD2_REQ {
        Some(10)
    } else if op == OP_PING {
        Some(2)
    } else {
        None
    }
}

/// How the requests of one opcode are limited, per address.
#[derive(Debug, Clone, Copy, PartialEq, Eq, Structural)]
pub struct FloodLimits {
    pub window_secs: u64,
    /// More than this in a window are ignored.
    pub allowed: u32,
    /// More than this get the address banned.
    pub ban_at: u32,
    pub ban_secs: u64,
}

/// The limits of an opcode that is served: five times what is allowed bans for two hours.
pub fn flood_limits(op: u8) -> (l: Option<FloodLimits>)
    ensures
        l == match budget(op) {
            Some(n) => Some(
                FloodLimits {
                    window_secs: 60,
                    allowed: n,
                    ban_at: (n * 5) as u32,
                    ban_secs: 7200,
                },
            ),
            None => None,
        },
{
    match flood_budget(op) {
        Some(n) => Some(
            FloodLimits { window_secs: 60, allowed: n, ban_at: n * 5, ban_secs: 7200 },
        ),
        None => None,
    }
}

/// What the count of an address's requests says.
#[derive(Debug, Clone, Copy, PartialEq, Eq, Structural)]
pub enum FloodVerdict {
    Allow,
    Ignore,
    Ban,
}

/// Whether a request may be looked at: what is not served is not counted, and is dropped later.
pub fn flood_allows(op: u8, verdict: FloodVerdict) -> (b: bool)
    ensures
        b == (budget(op) is None || verdict is Allow),
{
    match flood_budget(op) {
        None => true,
        Some(_) => matches!(verdict, FloodVerdict::Allow),
    }
}

/// When a hello answer went to an address.
#[derive(Debug, Clone, Copy, PartialEq, Eq, Structural)]
pub struct HelloSent {
    pub ip: u32,
    pub at: u64,
}

/// When a hello answer last went to `ip`.
pub open spec fn sent_at(sent: Seq<HelloSent>, ip: u32) -> Option<u64>
    decreases sent.len(),
{
    if sent.len() == 0 {
        None
    } else if sent.last().ip == ip {
        Some(sent.last().at)
    } else {
        sent_at(sent.drop_last(), ip)
    }
}

/// Not longer ago than an acknowledgement may take.
pub open spec fn is_recent(at: u64, now: u64) -> bool {
    now - at < ACK_SOLICITED_WINDOW
}

/// The time, where it is recent.
pub open spec fn if_recent(at: Option<u64>, now: u64) -> Option<u64> {
    match at {
        Some(t) if is_recent(t, now) => Some(t),
        _ => None,
    }
}

/// The entries that are recent.
pub open spec fn recent(sent: Seq<HelloSent>, now: u64) -> Seq<HelloSent>
    decreases sent.len(),
{
    if sent.len() == 0 {
        Seq::empty()
    } else if is_recent(sent.last().at, now) {
        recent(sent.drop_last(), now).push(sent.last())
    } else {
        recent(sent.drop_last(), now)
    }
}

/// The entries of the other addresses.
pub open spec fn of_others(sent: Seq<HelloSent>, ip: u32) -> Seq<HelloSent>
    decreases sent.len(),
{
    if sent.len() == 0 {
        Seq::empty()
    } else if sent.last().ip == ip {
        of_others(sent.drop_last(), ip)
    } else {
        of_others(sent.drop_last(), ip).push(sent.last())
    }
}

/// No address occurs twice.
pub open spec fn each_once(sent: Seq<HelloSent>) -> bool {
    forall|i: int, j: int|
        0 <= i < j < sent.len() ==> (#[trigger] sent[i]).ip != (#[trigger] sent[j]).ip
}

proof fn lemma_sent_at(sent: Seq<HelloSent>, ip: u32)
    requires
        each_once(sent),
    ensures
        sent_at(sent, ip) is Some <==> exists|i: int|
            0 <= i < sent.len() && (#[trigger] sent[i]).ip == ip,
        forall|i: int|
            0 <= i < sent.len() && (#[trigger] sent[i]).ip == ip ==> sent_at(sent, ip) == Some(
                sent[i].at,
            ),
    decreases sent.len(),
{
    if sent.len() > 0 {
        let shorter = sent.drop_last();
        assert(each_once(shorter)) by {
            assert forall|i: int, j: int| 0 <= i < j < shorter.len() implies (
            #[trigger] shorter[i]).ip != (#[trigger] shorter[j]).ip by {
                assert(sent[i].ip != sent[j].ip);
            }
        }
        lemma_sent_at(shorter, ip);
        assert forall|i: int| 0 <= i < sent.len() && (#[trigger] sent[i]).ip == ip implies sent_at(
            sent,
            ip,
        ) == Some(sent[i].at) by {
            if i < shorter.len() {
                assert(shorter[i] == sent[i]);
                assert(sent[i].ip != sent[sent.len() - 1].ip);
            }
        }
        if exists|i: int| 0 <= i < sent.len() && (#[trigger] sent[i]).ip == ip {
            let i = choose|i: int| 0 <= i < sent.len() && (#[trigger] sent[i]).ip == ip;
            assert(sent_at(sent, ip) == Some(sent[i].at));
        }
        if sent_at(sent, ip) is Some {
            if sent.last().ip == ip {
                assert(sent[sent.len() - 1].ip == ip);
            } else {
                let i = choose|i: int| 0 <= i < shorter.len() && (#[trigger] shorter[i]).ip == ip;
                assert(sent[i].ip == ip);
            }
        }
    }
}

proof fn lemma_recent(sent: Seq<HelloSent>, now: u64, ip: u32)
    requires
        each_once(sent),
    ensures
        each_once(recent(sent, now)),
        recent(sent, now).len() <= sent.len(),
        sent_at(recent(sent, now), ip) == if_recent(sent_at(sent, ip), now),
        forall|i: int|
            0 <= i < recent(sent, now).len() ==> sent.contains(#[trigger] recent(sent, now)[i]),
    decreases sent.len(),
{
    if sent.len() > 0 {
        let shorter = sent.drop_last();
        assert(each_once(shorter)) by {
            assert forall|i: int, j: int| 0 <= i < j < shorter.len() implies (
            #[trigger] shorter[i]).ip != (#[trigger] shorter[j]).ip by {
                assert(sent[i].ip != sent[j].ip);
            }
        }
        lemma_recent(shorter, now, ip);
        let r = recent(shorter, now);
        let all = recent(sent, now);
        assert forall|i: int| 0 <= i < all.len() implies sent.contains(#[trigger] all[i]) by {
            if i < r.len() {
                assert(shorter.contains(r[i]));
                let k = choose|k: int| 0 <= k < shorter.len() && shorter[k] == r[i];
                assert(sent[k] == all[i]);
            } else {
                assert(sent[sent.len() - 1] == all[i]);
            }
        }
        assert forall|i: int, j: int| 0 <= i < j < all.len() implies (#[trigger] all[i]).ip != (
        #[trigger] all[j]).ip by {
            assert(shorter.contains(r[i]));
            let k = choose|k: int| 0 <= k < shorter.len() && shorter[k] == r[i];
            assert(sent[k] == r[i]);
            if j < r.len() {
                assert(r[i].ip != r[j].ip);
            } else {
                assert(sent[k].ip != sent[sent.len() - 1].ip);
            }
        }
        if is_recent(sent.last().at, now) {
            assert(all.drop_last() =~= r);
        } else if sent.last().ip == ip {
            lemma_sent_at(shorter, ip);
            if sent_at(shorter, ip) is Some {
                let k = choose|k: int| 0 <= k < shorter.len() && (#[trigger] shorter[k]).ip == ip;
                assert(sent[k].ip != sent[sent.len() - 1].ip);
            }
        }
    }
}

proof fn lemma_of_others(sent: Seq<HelloSent>, ip: u32, other: u32)
    requires
        each_once(sent),
    ensures
        each_once(of_others(sent, ip)),
        sent_at(of_others(sent, ip), other) == if other == ip {
            None
        } else {
            sent_at(sent, other)
        },
        of_others(sent, ip).len() <= sent.len(),
        sent_at(sent, ip) is Some ==> of_others(sent, ip).len() < sent.len(),
        forall|i: int|
            0 <= i < of_others(sent, ip).len() ==> sent.contains(#[trigger] of_others(sent, ip)[i])
                && of_others(sent, ip)[i].ip != ip,
    decreases sent.len(),
{
    if sent.len() > 0 {
        let shorter = sent.drop_last();
        assert(each_once(shorter)) by {
            assert forall|i: int, j: int| 0 <= i < j < shorter.len() implies (
            #[trigger] shorter[i]).ip != (#[trigger] shorter[j]).ip by {
                assert(sent[i].ip != sent[j].ip);
            }
        }
        lemma_of_others(shorter, ip, other);
        let r = of_others(shorter, ip);
        let all = of_others(sent, ip);
        assert forall|i: int| 0 <= i < all.len() implies sent.contains(#[trigger] all[i])
            && all[i].ip != ip by {
            if i < r.len() {
                assert(shorter.contains(r[i]));
                let k = choose|k: int| 0 <= k < shorter.len() && shorter[k] == r[i];
                assert(sent[k] == all[i]);
            } else {
                assert(sent[sent.len() - 1] == all[i]);
            }
        }
        assert forall|i: int, j: int| 0 <= i < j < all.len() implies (#[trigger] all[i]).ip != (
        #[trigger] all[j]).ip by {
            assert(shorter.contains(r[i]));
            let k = choose|k: int| 0 <= k < shorter.len() && shorter[k] == r[i];
            assert(sent[k] == r[i]);
            if j < r.len() {
                assert(r[i].ip != r[j].ip);
            } else {
                assert(sent[k].ip != sent[sent.len() - 1].ip);
            }
        }
        if sent.last().ip != ip {
            assert(all.drop_last() =~= r);
        }
    }
}

/// The addresses that a hello answer went to: what makes an acknowledgement solicited. The
/// addresses come from strangers, so there is room for no more than `cap` of them.
#[derive(Debug, Clone)]
pub struct HelloTrack {
    pub sent: Vec<HelloSent>,
    pub cap: usize,
}

impl HelloTrack {
    pub open spec fn wf(&self) -> bool {
        each_once(self.sent@) && self.sent@.len() <= self.cap
    }

    pub open spec fn at(&self, ip: u32) -> Option<u64> {
        sent_at(self.sent@, ip)
    }

    pub fn new(cap: usize) -> (t: HelloTrack)
        ensures
            t.wf(),
            t.cap == cap,
            forall|ip: u32| #[trigger] t.at(ip) is None,
    {
        HelloTrack { sent: Vec::new(), cap }
    }

    /// Note that a hello answer goes to `ip`. Old entries are dropped first; where there is no
    /// room then, a new address is not noted, and the others stay.
    pub fn note_hello_res_sent(&mut self, ip: u32, now: u64)
        requires
            old(self).wf(),
        ensures
            final(self).wf(),
            final(self).cap == old(self).cap,
            forall|q: u32|
                q != ip ==> #[trigger] final(self).at(q) == if_recent(old(self).at(q), now),
            final(self).at(ip) == if if_recent(old(self).at(ip), now) is Some || recent(
                old(self).sent@,
                now,
            ).len() < old(self).cap {
                Some(now)
            } else {
                None
            },
    {
        let mut kept: Vec<HelloSent> = Vec::new();
        let mut known = false;
        let mut fresh: usize = 0;
        let mut i: usize = 0;
        let ghost all = self.sent@;
        assert(all.take(0) =~= Seq::empty());
        while i < self.sent.len()
            invariant
                i <= self.sent@.len(),
                all == self.sent@,
                each_once(all),
                fresh == recent(all.take(i as int), now).len(),
                fresh <= i,
                known == (sent_at(recent(all.take(i as int), now), ip) is Some),
                kept@ == of_others(recent(all.take(i as int), now), ip),
            decreases self.sent@.len() - i,
        {
            let e = self.sent[i];
            assert(all.take(i + 1).drop_last() =~= all.take(i as int));
            let age: u64 = if e.at <= now {
                now - e.at
            } else {
                0
            };
            if age < ACK_SOLICITED_WINDOW {
                proof {
                    let r = recent(all.take(i as int), now);
                    assert(r.push(e).drop_last() =~= r);
                }
                fresh = fresh + 1;
                if e.ip == ip {
                    known = true;
                } else {
                    kept.push(e);
                }
            }
            i = i + 1;
        }
        proof {
            assert(all.take(i as int) =~= all);
            lemma_recent(all, now, ip);
            let r = recent(all, now);
            lemma_of_others(r, ip, ip);
            assert forall|q: u32| q != ip implies #[trigger] sent_at(kept@, q) == if_recent(
                sent_at(all, q),
                now,
            ) by {
                lemma_recent(all, now, q);
                lemma_of_others(r, ip, q);
            }
        }
        if known || fresh < self.cap {
            let ghost before = kept@;
            kept.push(HelloSent { ip, at: now });
            proof {
                assert(kept@.drop_last() =~= before);
                assert forall|q: u32| q != ip implies #[trigger] sent_at(kept@, q) == if_recent(
                    sent_at(all, q),
                    now,
                ) by {
                    assert(sent_at(before, q) == if_recent(sent_at(all, q), now));
                }
                assert forall|a: int, b: int| 0 <= a < b < kept@.len() implies (
                #[trigger] kept@[a]).ip != (#[trigger] kept@[b]).ip by {
                    if b < before.len() {
                        assert(before[a].ip != before[b].ip);
                    } else {
                        assert(before[a].ip != ip);
                    }
                }
            }
        } else {
            proof {
                lemma_sent_at(kept@, ip);
            }
        }
        self.sent = kept;
    }

    /// Whether a hello answer went to `ip` lately. The entry is used up: one answer admits one
    /// acknowledgement.
    pub fn take_hello_res_sent(&mut self, ip: u32, now: u64) -> (b: bool)
        requires
            old(self).wf(),
        ensures
            final(self).wf(),
            final(self).cap == old(self).cap,
            b == (if_recent(old(self).at(ip), now) is Some),
            final(self).at(ip) is None,
            forall|q: u32| q != ip ==> #[trigger] final(self).at(q) == old(self).at(q),
    {
        let mut kept: Vec<HelloSent> = Vec::new();
        let mut found: Option<u64> = None;
        let mut i: usize = 0;
        let ghost all = self.sent@;
        assert(all.take(0) =~= Seq::empty());
        while i < self.sent.len()
            invariant
                i <= self.sent@.len(),
                all == self.sent@,
                found == sent_at(all.take(i as int), ip),
                kept@ == of_others(all.take(i as int), ip),
            decreases self.sent@.len() - i,
        {
            let e = self.sent[i];
            assert(all.take(i + 1).drop_last() =~= all.take(i as int));
            if e.ip == ip {
                found = Some(e.at);
            } else {
                kept.push(e);
            }
            i = i + 1;
        }
        proof {
            assert(all.take(i as int) =~= all);
            lemma_of_others(all, ip, ip);
            assert forall|q: u32| q != ip implies #[trigger] sent_at(kept@, q) == sent_at(
                all,
                q,
            ) by {
                lemma_of_others(all, ip, q);
            }
        }
        self.sent = kept;
        match found {
            Some(at) => at > now || now - at < ACK_SOLICITED_WINDOW,
            None => false,
        }
    }
}

/// Something to do to the routing table.
#[derive(Debug, Clone, Copy, PartialEq, Eq, Structural)]
pub enum TableAction {
    /// Offer a contact, by the gates of [`gated_add_contact`].
    Add { contact: WireContact, verified: bool, proven_alive: bool },
    /// Keep the key that a node handed us, bound to its address and to ours: a later request to
    /// it echoes the key, and so proves our address.
    NoteKey { id: Kad128, ip: u32, key: u32, our_ip: u32 },
}

/// A datagram that was deciphered and unpacked.
#[derive(Debug, Clone, PartialEq, Eq)]
pub struct Datagram {
    pub from: SocketAddr,
    pub op: u8,
    pub payload: Vec<u8>,
    /// The key that the sender echoes: ours for its address, if it received there.
    pub receiver_vk: u32,
    /// The key that the sender wants echoed.
    pub sender_vk: u32,
}

/// Where a datagram goes.
#[derive(Debug, Clone, Copy, PartialEq, Eq, Structural)]
pub enum Demux {
    /// To the request that it answers.
    Deliver { slot: PendingSlot, valid_receiver_key: bool },
    /// It acknowledged a hello answer; nothing is sent back.
    Ack(AckVerdict),
    /// It is a request, to be counted and then served.
    Request,
}

/// What serving a request comes to.
#[derive(Debug, Clone, PartialEq, Eq)]
pub struct Served {
    pub actions: Vec<TableAction>,
    pub answer: Option<ServeAnswer>,
}

/// What a hello from another node teaches: the node is there, at the address that the datagram
/// came from, and this is its key.
pub open spec fn learned(
    h: KadHello,
    from: SocketAddr,
    verified: bool,
    key: u32,
    our_ip: u32,
) -> Seq<TableAction> {
    seq![
        TableAction::Add {
            contact: WireContact {
                id: h.id,
                ip: host_order(from),
                udp_port: from.port,
                tcp_port: h.tcp_port,
                version: h.version,
            },
            verified,
            proven_alive: true,
        },
        TableAction::NoteKey { id: h.id, ip: host_order(from), key, our_ip },
    ]
}

/// A node that answered us is recorded: offered to the table, and its key kept.
pub open spec fn responder_noted(
    c: WireContact,
    verified: bool,
    key: u32,
    our_ip: u32,
    proven_alive: bool,
) -> Seq<TableAction> {
    seq![
        TableAction::Add { contact: c, verified, proven_alive },
        TableAction::NoteKey { id: c.id, ip: c.ip, key, our_ip },
    ]
}

/// Contacts that another node named: offered, unverified, and no proof that they live.
pub open spec fn hearsay(cs: Seq<WireContact>) -> Seq<TableAction> {
    cs.map_values(
        |c: WireContact|
            TableAction::Add { contact: c, verified: false, proven_alive: false },
    )
}

fn push_hearsay(out: &mut Vec<TableAction>, cs: &Vec<WireContact>)
    ensures
        final(out)@ == old(out)@ + hearsay(cs@),
{
    let mut i: usize = 0;
    assert(hearsay(cs@.take(0)) =~= Seq::empty());
    assert(out@ =~= old(out)@ + hearsay(cs@.take(0)));
    while i < cs.len()
        invariant
            i <= cs@.len(),
            out@ == old(out)@ + hearsay(cs@.take(i as int)),
        decreases cs@.len() - i,
    {
        out.push(TableAction::Add { contact: cs[i], verified: false, proven_alive: false });
        assert(hearsay(cs@.take(i + 1)) =~= hearsay(cs@.take(i as int)).push(
            TableAction::Add { contact: cs@[i as int], verified: false, proven_alive: false },
        ));
        assert(out@ =~= old(out)@ + hearsay(cs@.take(i + 1)));
        i = i + 1;
    }
    assert(cs@.take(i as int) =~= cs@);
}

/// An acknowledgement of a hello answer.
#[derive(Debug, Clone, PartialEq, Eq)]
pub struct HelloAck {
    pub payload: Vec<u8>,
    /// The key to echo: the one that the node issued for our address.
    pub receiver_vk: u32,
}

/// What a Kad node is, besides its socket and its routing table.
#[derive(Debug, Clone)]
pub struct KadNode {
    pub kad_id: Kad128,
    pub tcp_port: u16,
    /// The port that is bound.
    pub udp_port: u16,
    /// The port that other nodes are told, where it is another one; else zero.
    pub advertised_udp_port: u16,
    /// Our public address; zero while it is not known.
    pub current_public_ip: u32,
    pub pending: Pending,
    pub hello_res_sent: HelloTrack,
}

impl KadNode {
    pub open spec fn wf(&self) -> bool {
        self.pending.wf() && self.hello_res_sent.wf()
    }

    /// The port to tell other nodes.
    pub open spec fn advertised(&self) -> u16 {
        if self.advertised_udp_port == 0 {
            self.udp_port
        } else {
            self.advertised_udp_port
        }
    }

    /// Who we are to other nodes.
    pub open spec fn who(&self) -> ServeIdentity {
        ServeIdentity {
            kad_id: self.kad_id,
            tcp_port: self.tcp_port,
            advertised_udp_port: self.advertised(),
        }
    }

    /// A node that is bound to `udp_port`. At most `remembered` addresses are remembered for their
    /// acknowledgements.
    pub fn new(kad_id: Kad128, tcp_port: u16, udp_port: u16, remembered: usize) -> (n: KadNode)
        ensures
            n.wf(),
            n.kad_id == kad_id,
            n.tcp_port == tcp_port,
            n.udp_port == udp_port,
            n.advertised() == udp_port,
            n.current_public_ip == 0,
            n.pending.slots@.len() == 0,
            n.pending.next_seq == 0,
            n.hello_res_sent.cap == remembered,
            forall|ip: u32| #[trigger] n.hello_res_sent.at(ip) is None,
    {
        KadNode {
            kad_id,
            tcp_port,
            udp_port,
            advertised_udp_port: 0,
            current_public_ip: 0,
            pending: Pending::new(),
            hello_res_sent: HelloTrack::new(remembered),
        }
    }

    /// Tell other nodes this port, or, with `None` or zero, the one that is bound.
    pub fn set_advertised_udp_port(&mut self, port: Option<u16>)
        ensures
            *final(self) == (KadNode {
                advertised_udp_port: final(self).advertised_udp_port,
                ..*old(self)
            }),
            final(self).advertised() == match port {
                Some(p) if p != 0 => p,
                _ => old(self).udp_port,
            },
    {
        self.advertised_udp_port = match port {
            Some(p) => p,
            None => 0,
        };
    }

    /// The port to tell other nodes.
    pub fn advertised_udp(&self) -> (p: u16)
        ensures
            p == self.advertised(),
    {
        if self.advertised_udp_port == 0 {
            self.udp_port
        } else {
            self.advertised_udp_port
        }
    }

    /// Our public address is this one now.
    pub fn set_public_ip(&mut self, ip: u32)
        ensures
            *final(self) == (KadNode { current_public_ip: ip, ..*old(self) }),
    {
        self.current_public_ip = ip;
    }

    pub fn kad_id(&self) -> (id: Kad128)
        ensures
            id == self.kad_id,
    {
        self.kad_id
    }

    /// Who we are to other nodes.
    pub fn identity(&self) -> (me: ServeIdentity)
        ensures
            me == self.who(),
    {
        ServeIdentity {
            kad_id: self.kad_id,
            tcp_port: self.tcp_port,
            advertised_udp_port: self.advertised_udp(),
        }
    }

    /// Decide where a datagram goes. A reply goes to the request that it answers. An
    /// acknowledgement of a hello answer is judged, and is never held to a budget: we asked for
    /// it. Anything else is a request. `our_vk` is the key that we issue for the sender's
    /// address.
    pub fn demux(&mut self, d: &Datagram, our_vk: u32, now: u64) -> (step: Demux)
        requires
            old(self).wf(),
        ensures
            final(self).wf(),
            *final(self) == (KadNode {
                pending: final(self).pending,
                hello_res_sent: final(self).hello_res_sent,
                ..*old(self)
            }),
            final(self).pending.next_seq == old(self).pending.next_seq,
            final(self).hello_res_sent.cap == old(self).hello_res_sent.cap,
            if is_awaited(old(self).pending.slots@, d.from, d.op) {
                &&& step is Deliver
                &&& step->valid_receiver_key == (d.receiver_vk == step->slot.sender_vk)
                &&& final(self).pending.taken(
                    &old(self).pending,
                    d.from,
                    d.op,
                    Some(step->slot),
                )
                &&& final(self).hello_res_sent == old(self).hello_res_sent
            } else {
                &&& final(self).pending.slots@ == old(self).pending.slots@
                &&& if d.op == OP_HELLO_RES_ACK {
                    &&& step == Demux::Ack(
                        judged_ack(
                            old(self).hello_res_sent,
                            d.from,
                            now,
                            d.payload@,
                            d.receiver_vk == our_vk,
                        ),
                    )
                    &&& final(self).hello_res_sent.at(host_order(d.from)) is None
                    &&& forall|q: u32|
                        q != host_order(d.from) ==> #[trigger] final(self).hello_res_sent.at(q)
                            == old(self).hello_res_sent.at(q)
                } else {
                    step is Request && final(self).hello_res_sent == old(self).hello_res_sent
                }
            },
    {
        if let Some(slot) = self.pending.take_match(&d.from, d.op) {
            return Demux::Deliver { slot, valid_receiver_key: d.receiver_vk == slot.sender_vk };
        }
        if d.op == OP_HELLO_RES_ACK {
            let from_ip: u32 = ip_u32(&d.from);
            let solicited = self.hello_res_sent.take_hello_res_sent(from_ip, now);
            return Demux::Ack(
                accept_hello_res_ack(&d.payload, solicited, d.receiver_vk == our_vk),
            );
        }
        Demux::Request
    }

    /// Serve a request: nothing for one that is over its budget or comes from an address that
    /// the user blocks. A hello is learned from, and then answered. That a hello answer goes to
    /// the address is noted before it is sent, whether or not it asks for an acknowledgement: an
    /// acknowledgement may be on its way before the send returns.
    pub fn serve<
        S: FnOnce(&Kad128, usize) -> Vec<WireContact>,
        B: FnOnce(&Kad128, usize) -> Vec<WireContact>,
    >(
        &mut self,
        d: &Datagram,
        our_vk: u32,
        flood: FloodVerdict,
        blocked: bool,
        closest_serving: S,
        bootstrap_pool: B,
        now: u64,
    ) -> (out: Served)
        requires
            old(self).wf(),
            match kad_wire::kad2_req_of(d.payload@) {
                Ok(req) => d.op == OP_KAD2_REQ && req.receiver == old(self).kad_id
                    ==> call_requires(
                    closest_serving,
                    (&req.target, kad_serve::wanted(req.req_type)),
                ),
                Err(_) => true,
            },
            d.op == OP_BOOTSTRAP_REQ ==> call_requires(
                bootstrap_pool,
                (&old(self).kad_id, kad_serve::KAD_BOOTSTRAP_ANSWER_CAP),
            ),
        ensures
            final(self).wf(),
            *final(self) == (KadNode {
                hello_res_sent: final(self).hello_res_sent,
                ..*old(self)
            }),
            final(self).hello_res_sent.cap == old(self).hello_res_sent.cap,
            if (budget(d.op) is Some && flood !is Allow) || blocked {
                out.actions@.len() == 0 && out.answer is None
            } else {
                &&& out.actions@ == match kad_wire::hello_of(d.payload@) {
                    Ok(h) if d.op == OP_HELLO_REQ => learned(
                        h,
                        d.from,
                        d.receiver_vk == our_vk,
                        d.sender_vk,
                        old(self).current_public_ip,
                    ),
                    _ => Seq::empty(),
                }
                &&& kad_serve::answered(
                    d.op,
                    d.payload@,
                    d.from.port,
                    old(self).who(),
                    d.receiver_vk == our_vk,
                    closest_serving,
                    bootstrap_pool,
                    out.answer,
                )
            },
            if out.answer is Some && d.op == OP_HELLO_REQ {
                final(self).noted(old(self), host_order(d.from), now)
            } else {
                final(self).hello_res_sent == old(self).hello_res_sent
            },
    {
        let none = Served { actions: Vec::new(), answer: None };
        if !flood_allows(d.op, flood) {
            return none;
        }
        if blocked {
            return none;
        }
        let valid: bool = d.receiver_vk == our_vk;
        let from_ip: u32 = ip_u32(&d.from);
        let mut actions: Vec<TableAction> = Vec::new();
        if d.op == OP_HELLO_REQ {
            if let Ok(h) = parse_hello(&d.payload) {
                actions.push(
                    TableAction::Add {
                        contact: WireContact {
                            id: h.id,
                            ip: from_ip,
                            udp_port: d.from.port,
                            tcp_port: h.tcp_port,
                            version: h.version,
                        },
                        verified: valid,
                        proven_alive: true,
                    },
                );
                actions.push(
                    TableAction::NoteKey {
                        id: h.id,
                        ip: from_ip,
                        key: d.sender_vk,
                        our_ip: self.current_public_ip,
                    },
                );
                assert(actions@ =~= learned(h, d.from, valid, d.sender_vk, self.current_public_ip));
            }
        }
        let me = self.identity();
        let answer = answer_request(
            d.op,
            &d.payload,
            d.from.port,
            &me,
            valid,
            closest_serving,
            bootstrap_pool,
        );
        if d.op == OP_HELLO_REQ && answer.is_some() {
            self.hello_res_sent.note_hello_res_sent(from_ip, now);
        }
        Served { actions, answer }
    }

    /// How noting a hello answer to `ip` changes what is remembered.
    pub open spec fn noted(&self, before: &KadNode, ip: u32, now: u64) -> bool {
        let was = before.hello_res_sent;
        &&& forall|q: u32|
            q != ip ==> #[trigger] self.hello_res_sent.at(q) == if_recent(was.at(q), now)
        &&& self.hello_res_sent.at(ip) == if if_recent(was.at(ip), now) is Some || recent(
            was.sent@,
            now,
        ).len() < was.cap {
            Some(now)
        } else {
            None
        }
    }

    /// Record a node that answered us, with what its echoed key proves. Only some answers are a
    /// proof of life that renews its lease: the caller says so.
    pub fn note_responder(
        &self,
        c: &WireContact,
        verified: bool,
        sender_vk: u32,
        proven_alive: bool,
    ) -> (actions: Vec<TableAction>)
        ensures
            actions@ == responder_noted(
                *c,
                verified,
                sender_vk,
                self.current_public_ip,
                proven_alive,
            ),
    {
        let mut actions: Vec<TableAction> = Vec::new();
        actions.push(TableAction::Add { contact: *c, verified, proven_alive });
        actions.push(
            TableAction::NoteKey {
                id: c.id,
                ip: c.ip,
                key: sender_vk,
                our_ip: self.current_public_ip,
            },
        );
        assert(actions@ =~= responder_noted(
            *c,
            verified,
            sender_vk,
            self.current_public_ip,
            proven_alive,
        ));
        actions
    }

    /// What an answer to a bootstrap request from `ip` and `udp_port` does to the table: the node
    /// that answered is recorded under the id that it names, which is a proof of life; the
    /// contacts that it names are hearsay.
    pub fn bootstrap_from(
        &self,
        ip: u32,
        udp_port: u16,
        res: &BootstrapRes,
        verified: bool,
        sender_vk: u32,
    ) -> (actions: Vec<TableAction>)
        ensures
            actions@ == responder_noted(
                WireContact {
                    id: res.id,
                    ip,
                    udp_port,
                    tcp_port: res.tcp_port,
                    version: res.version,
                },
                verified,
                sender_vk,
                self.current_public_ip,
                true,
            ) + hearsay(res.contacts@),
    {
        let responder = WireContact {
            id: res.id,
            ip,
            udp_port,
            tcp_port: res.tcp_port,
            version: res.version,
        };
        let mut actions = self.note_responder(&responder, verified, sender_vk, true);
        push_hearsay(&mut actions, &res.contacts);
        actions
    }

    /// Our hello to another node. It never asks for an acknowledgement: that is for the node that
    /// answers.
    pub fn hello_request(&self) -> (payload: Vec<u8>)
        ensures
            payload@ == kad_wire::hello_bytes(
                self.kad_id,
                self.tcp_port,
                Some(self.advertised()),
                None,
            ),
            kad_wire::hello_of(payload@) matches Ok(h) && h.misc_options is None,
    {
        proof {
            kad_wire::law_hello_round_trip(
                self.kad_id,
                self.tcp_port,
                Some(self.advertised()),
                None,
            );
        }
        build_hello(self.kad_id, self.tcp_port, Some(self.advertised_udp()), None)
    }

    /// What an answer to our hello does: the contact is recorded with what the answer says of
    /// it, which is a proof of life; and where the answer asks for it, an acknowledgement is
    /// owed, which echoes the key that the node handed us.
    pub fn hello(
        &self,
        contact: &WireContact,
        res: &KadHello,
        verified: bool,
        peer_vk: u32,
    ) -> (r: (Vec<TableAction>, Option<HelloAck>))
        ensures
            r.0@ == responder_noted(
                WireContact { tcp_port: res.tcp_port, version: res.version, ..*contact },
                verified,
                peer_vk,
                self.current_public_ip,
                true,
            ),
            match r.1 {
                Some(ack) => {
                    &&& res.misc_options is Some && asks_for_ack(res.misc_options->0)
                    &&& ack.payload@ == kad_wire::hello_res_ack_bytes(self.kad_id)
                    &&& ack.receiver_vk == peer_vk
                },
                None => !(res.misc_options is Some && asks_for_ack(res.misc_options->0)),
            },
    {
        let responder = WireContact {
            id: contact.id,
            ip: contact.ip,
            udp_port: contact.udp_port,
            tcp_port: res.tcp_port,
            version: res.version,
        };
        let owed: bool = match res.misc_options {
            Some(m) => m / 4 % 2 == 1,
            None => false,
        };
        let ack: Option<HelloAck> = if owed {
            Some(HelloAck { payload: build_hello_res_ack(self.kad_id), receiver_vk: peer_vk })
        } else {
            None
        };
        (self.note_responder(&responder, verified, peer_vk, true), ack)
    }

    /// What an answer to a lookup request does to the table, and what it puts before the search.
    /// The responder is recorded for its key, but an answer to a lookup renews no lease; every
    /// contact that it names is offered to the table; the search takes fewer of them. Of these
    /// it keeps those that `retain_acceptable` leaves.
    pub fn absorb_find_answer(
        &self,
        responder: &WireContact,
        verified: bool,
        sender_vk: u32,
        contacts: Vec<WireContact>,
    ) -> (r: (Vec<TableAction>, Vec<WireContact>))
        ensures
            r.0@ == responder_noted(
                *responder,
                verified,
                sender_vk,
                self.current_public_ip,
                false,
            ) + hearsay(contacts@),
            r.1@ == frontier(responder.ip, contacts@),
    {
        let mut actions = self.note_responder(responder, verified, sender_vk, false);
        push_hearsay(&mut actions, &contacts);
        (actions, frontier_filter(responder.ip, contacts))
    }
}

/// The option that asks for an acknowledgement is set.
pub open spec fn asks_for_ack(misc: u8) -> bool {
    misc / 4 % 2 == 1
}

/// The contacts that the table accepts, in their order.
pub open spec fn accepted(cs: Seq<WireContact>, ok: Seq<bool>) -> Seq<WireContact>
    decreases cs.len(),
{
    if cs.len() == 0 {
        Seq::empty()
    } else if ok[cs.len() - 1] {
        accepted(cs.drop_last(), ok).push(cs.last())
    } else {
        accepted(cs.drop_last(), ok)
    }
}

/// Keep the contacts that the table accepts: not one that would point a verified contact at
/// another address. `ok` holds the table's word on each.
pub fn retain_acceptable(cs: &Vec<WireContact>, ok: &Vec<bool>) -> (kept: Vec<WireContact>)
    requires
        ok@.len() == cs@.len(),
    ensures
        kept@ == accepted(cs@, ok@),
{
    let mut kept: Vec<WireContact> = Vec::new();
    let mut i: usize = 0;
    assert(cs@.take(0) =~= Seq::empty());
    while i < cs.len()
        invariant
            i <= cs@.len(),
            ok@.len() == cs@.len(),
            kept@ == accepted(cs@.take(i as int), ok@),
        decreases cs@.len() - i,
    {
        assert(cs@.take(i + 1).drop_last() =~= cs@.take(i as int));
        if ok[i] {
            kept.push(cs[i]);
        }
        i = i + 1;
    }
    assert(cs@.take(i as int) =~= cs@);
    kept
}

/// Whether a seed's key is kept: it has one, and the seed passed the gates.
pub fn seed_key(contact: &WireContact, udp_key: u32, udp_key_ip: u32, in_table: bool) -> (action:
    Option<TableAction>)
    ensures
        action == if udp_key != 0 && in_table {
            Some(
                TableAction::NoteKey {
                    id: contact.id,
                    ip: contact.ip,
                    key: udp_key,
                    our_ip: udp_key_ip,
                },
            )
        } else {
            None
        },
{
    if udp_key != 0 && in_table {
        Some(
            TableAction::NoteKey {
                id: contact.id,
                ip: contact.ip,
                key: udp_key,
                our_ip: udp_key_ip,
            },
        )
    } else {
        None
    }
}

/// Hearsay renews no lease and verifies nothing: of an answer to a lookup, nothing that is done
/// to the table claims a proof of life, and at most the responder is verified.
pub proof fn law_a_lookup_answer_renews_no_lease(
    responder: WireContact,
    verified: bool,
    key: u32,
    our_ip: u32,
    contacts: Seq<WireContact>,
    i: int,
)
    requires
        0 <= i < (responder_noted(responder, verified, key, our_ip, false) + hearsay(contacts)).len(),
    ensures
        match (responder_noted(responder, verified, key, our_ip, false) + hearsay(contacts))[i] {
            TableAction::Add { contact, verified: v, proven_alive } => !proven_alive && (v
                ==> contact == responder && verified),
            TableAction::NoteKey { id, .. } => id == responder.id,
        },
{
}

/// What an acknowledgement from `from` means: it verifies its sender where it is well formed,
/// a hello answer went to that address lately, and it echoes our key.
pub open spec fn judged_ack(
    sent: HelloTrack,
    from: SocketAddr,
    now: u64,
    payload: Seq<u8>,
    valid_receiver_key: bool,
) -> AckVerdict {
    match kad_wire::hello_res_ack_of(payload) {
        Ok(sender_id) if if_recent(sent.at(host_order(from)), now) is Some && valid_receiver_key =>
            AckVerdict::MarkSenderVerified { sender_id },
        _ => AckVerdict::Drop,
    }
}

/// A node that got a hello answer, and acknowledges it in time and with our key, is verified.
pub proof fn law_a_solicited_ack_verifies_its_sender(
    before: &KadNode,
    after: &KadNode,
    from: SocketAddr,
    asked: u64,
    now: u64,
    sender_id: Kad128,
)
    requires
        after.noted(before, host_order(from), asked),
        recent(before.hello_res_sent.sent@, asked).len() < before.hello_res_sent.cap,
        now - asked < ACK_SOLICITED_WINDOW,
    ensures
        judged_ack(
            after.hello_res_sent,
            from,
            now,
            kad_wire::hello_res_ack_bytes(sender_id),
            true,
        ) == (AckVerdict::MarkSenderVerified { sender_id }),
{
    kad_wire::law_hello_res_ack_round_trip(sender_id);
}

/// One hello answer admits one acknowledgement: a second one from that address is dropped,
/// whatever it holds, until another hello answer goes there. So is one without a hello answer
/// before it.
pub proof fn law_an_unsolicited_ack_is_dropped(
    sent: HelloTrack,
    from: SocketAddr,
    now: u64,
    payload: Seq<u8>,
    valid_receiver_key: bool,
)
    requires
        sent.at(host_order(from)) is None,
    ensures
        judged_ack(sent, from, now, payload, valid_receiver_key) == AckVerdict::Drop,
{
}

/// The contacts that are asked in turn for their contacts, until one answers.
#[derive(Debug, Clone, PartialEq, Eq)]
pub struct BootstrapAny {
    /// How many are asked at most.
    pub tries: usize,
    /// How many did not answer.
    pub failed: usize,
    /// Why the last of them did not: what is returned if none does.
    pub last: KadError,
}

impl BootstrapAny {
    pub open spec fn wf(&self) -> bool {
        self.failed <= self.tries
    }

    /// Ask the first `max_tries` of the contacts.
    pub fn new(contacts: usize, max_tries: usize) -> (b: BootstrapAny)
        ensures
            b.wf(),
            b.tries == if contacts <= max_tries {
                contacts
            } else {
                max_tries
            },
            b.failed == 0,
            b.last is Timeout,
    {
        let tries: usize = if contacts <= max_tries {
            contacts
        } else {
            max_tries
        };
        BootstrapAny { tries, failed: 0, last: KadError::Timeout }
    }

    /// The contact to ask next, or `None` where all were asked.
    pub fn next(&self) -> (i: Option<usize>)
        ensures
            i == if self.failed < self.tries {
                Some(self.failed)
            } else {
                None
            },
    {
        if self.failed < self.tries {
            Some(self.failed)
        } else {
            None
        }
    }

    /// The contact did not answer.
    pub fn on_error(&mut self, e: KadError)
        requires
            old(self).wf(),
            old(self).failed < old(self).tries,
        ensures
            final(self).wf(),
            *final(self) == (BootstrapAny {
                tries: old(self).tries,
                failed: (old(self).failed + 1) as usize,
                last: e,
            }),
    {
        self.failed = self.failed + 1;
        self.last = e;
    }
}

/// Who enters the routing table: a contact whose address is acceptable and not blocked, that is no
/// old node at the port of the name service, and whose address the table holds for it already, or
/// is held by nobody else and shares its /24 with nine at most. A contact without an address faces
/// no cap.
pub proof fn law_the_gates(c: WireContact, facts: GateFacts)
    ensures
        passes(c, facts) <==> {
            &&& facts.acceptable
            &&& !facts.blocked
            &&& c.udp_port != 53 || c.version > 5
            &&& c.ip != 0 && facts.stored_ip != Some(c.ip) ==> facts.same_ip == 0
                && facts.same_subnet <= 9
        },
{
}

/// A crowded table admits nobody whom an emptier one refuses.
pub proof fn law_a_crowd_admits_nobody(c: WireContact, sparse: GateFacts, crowded: GateFacts)
    requires
        passes(c, crowded),
        sparse == (GateFacts {
            same_ip: sparse.same_ip,
            same_subnet: sparse.same_subnet,
            ..crowded
        }),
        sparse.same_ip <= crowded.same_ip,
        sparse.same_subnet <= crowded.same_subnet,
    ensures
        passes(c, sparse),
{
}

/// Whatever is answered is counted: a request that gets an answer has a budget, and what has none
/// gets no answer.
pub proof fn law_what_is_answered_is_counted<
    S: FnOnce(&Kad128, usize) -> Vec<WireContact>,
    B: FnOnce(&Kad128, usize) -> Vec<WireContact>,
>(
    op: u8,
    payload: Seq<u8>,
    from_udp_port: u16,
    me: ServeIdentity,
    valid_receiver_key: bool,
    closest_serving: S,
    bootstrap_pool: B,
    answer: ServeAnswer,
)
    requires
        kad_serve::answered(
            op,
            payload,
            from_udp_port,
            me,
            valid_receiver_key,
            closest_serving,
            bootstrap_pool,
            Some(answer),
        ),
    ensures
        budget(op) matches Some(n) && n == (if answer.opcode == kad_wire::OP_KAD2_RES {
            10u32
        } else if answer.opcode == kad_wire::OP_HELLO_RES {
            3u32
        } else {
            2u32
        }),
{
}

/// The addresses that are remembered are those of the last three minutes, and each keeps its time.
pub proof fn law_hello_answers_are_remembered_for_three_minutes(
    sent: Seq<HelloSent>,
    now: u64,
    ip: u32,
)
    ensures
        recent(sent, now) == sent.filter(|e: HelloSent| now < e.at + 180_000),
        of_others(sent, ip) == sent.filter(|e: HelloSent| e.ip != ip),
        forall|at: Option<u64>| #[trigger]
            if_recent(at, now) == (match at {
                Some(t) => if now < t + 180_000 {
                    Some(t)
                } else {
                    None
                },
                None => None,
            }),
    decreases sent.len(),
{
    reveal(Seq::filter);
    if sent.len() > 0 {
        law_hello_answers_are_remembered_for_three_minutes(sent.drop_last(), now, ip);
    }
}

/// Of the contacts before a search those stay that the table accepts, all of them, in their order.
pub proof fn law_what_the_table_accepts_stays(cs: Seq<WireContact>, ok: Seq<bool>)
    requires
        ok.len() == cs.len(),
    ensures
        exists|at: Seq<int>|
            {
                &&& #[trigger] taken_in_order(cs, accepted(cs, ok), at)
                &&& forall|i: int| 0 <= i < cs.len() ==> (#[trigger] ok[i] <==> at.contains(i))
            },
    decreases cs.len(),
{
    if cs.len() == 0 {
        let at = Seq::<int>::empty();
        assert(taken_in_order(cs, accepted(cs, ok), at));
    } else {
        let less = cs.drop_last();
        let n = cs.len() - 1;
        law_what_the_table_accepts_stays(less, ok.drop_last());
        lemma_accepted_prefix(less, ok, ok.drop_last());
        let some = accepted(less, ok);
        let at = choose|at: Seq<int>|
            {
                &&& #[trigger] taken_in_order(less, some, at)
                &&& forall|i: int|
                    0 <= i < less.len() ==> (#[trigger] ok.drop_last()[i] <==> at.contains(i))
            };
        assert forall|k: int| 0 <= k < at.len() implies 0 <= #[trigger] at[k] < n && cs[at[k]]
            == some[k] by {
            assert(less[at[k]] == cs[at[k]]);
        }
        let all = if ok[n] {
            at.push(n)
        } else {
            at
        };
        assert(taken_in_order(cs, accepted(cs, ok), all));
        assert forall|i: int| 0 <= i < cs.len() implies (#[trigger] ok[i] <==> all.contains(i)) by {
            if i < n {
                assert(ok.drop_last()[i] == ok[i]);
                if at.contains(i) {
                    let k = at.index_of(i);
                    assert(all[k] == i);
                }
                if all.contains(i) {
                    let k = all.index_of(i);
                    assert(at[k] == i);
                }
            } else {
                if ok[n] {
                    assert(all[at.len() as int] == n);
                }
                if at.contains(n) {
                    let k = at.index_of(n);
                    assert(at[k] == n);
                }
            }
        }
    }
}

proof fn lemma_accepted_prefix(cs: Seq<WireContact>, a: Seq<bool>, b: Seq<bool>)
    requires
        a.len() >= cs.len(),
        b.len() >= cs.len(),
        forall|i: int| 0 <= i < cs.len() ==> a[i] == b[i],
    ensures
        accepted(cs, a) == accepted(cs, b),
    decreases cs.len(),
{
    if cs.len() > 0 {
        lemma_accepted_prefix(cs.drop_last(), a, b);
    }
}

/// A reply goes to a request that awaits its opcode from its host: one to the very address if there
/// is any, and of those that come into question the one that was sent first.
pub proof fn law_a_reply_goes_to_the_first_that_awaits_it(
    slots: Seq<PendingSlot>,
    from: SocketAddr,
    op: u8,
    got: int,
    other: int,
)
    requires
        is_match(slots, from, op, got),
        0 <= other < slots.len(),
        slots[other].expect == op,
        slots[other].dest == from || slots[other].dest_ip == host_order(from),
    ensures
        0 <= got < slots.len(),
        slots[got].expect == op,
        slots[got].dest == from || slots[got].dest_ip == host_order(from),
        slots[other].dest == from ==> slots[got].dest == from && got <= other,
        slots[got].dest != from ==> got <= other,
{
    if slots[other].dest == from {
        assert(exact(slots[other], from, op));
    }
}

/// A hello teaches us the address that it came from, not one that it claims, and that its sender is
/// verified only if it echoed our key. What other nodes name is never verified.
pub proof fn law_only_what_is_proven_is_recorded_as_verified(
    h: KadHello,
    from: SocketAddr,
    verified: bool,
    key: u32,
    our_ip: u32,
    named: Seq<WireContact>,
    i: int,
)
    ensures
        learned(h, from, verified, key, our_ip).len() == 2,
        learned(h, from, verified, key, our_ip)[0] matches TableAction::Add {
            contact,
            verified: v,
            ..
        } && v == verified && contact.id == h.id && contact.ip == host_order(from)
            && contact.udp_port == from.port,
        hearsay(named).len() == named.len(),
        0 <= i < named.len() ==> hearsay(named)[i] == (TableAction::Add {
            contact: named[i],
            verified: false,
            proven_alive: false,
        }),
{
}

/// An acknowledgement counts only with our key, and only for three minutes after the hello answer.
pub proof fn law_an_ack_needs_our_key_and_its_time(
    sent: HelloTrack,
    from: SocketAddr,
    now: u64,
    payload: Seq<u8>,
    valid_receiver_key: bool,
)
    ensures
        judged_ack(sent, from, now, payload, valid_receiver_key) is MarkSenderVerified ==> {
            &&& valid_receiver_key
            &&& sent.at(host_order(from)) matches Some(t) && now < t + 180_000
            &&& payload.len() >= 17
        },
{
    reveal(kad_wire::parse_id);
}

/// A node that answered us is offered to the table as it is known, verified as its key says, and
/// the key that it handed us is kept for its id at its address.
pub proof fn law_a_responder_is_recorded_with_its_key(
    c: WireContact,
    verified: bool,
    key: u32,
    our_ip: u32,
    proven_alive: bool,
)
    ensures
        responder_noted(c, verified, key, our_ip, proven_alive).contains(
            TableAction::Add { contact: c, verified, proven_alive },
        ),
        responder_noted(c, verified, key, our_ip, proven_alive).contains(
            TableAction::NoteKey { id: c.id, ip: c.ip, key, our_ip },
        ),
        responder_noted(c, verified, key, our_ip, proven_alive).len() == 2,
{
    let r = responder_noted(c, verified, key, our_ip, proven_alive);
    assert(r[0] == TableAction::Add { contact: c, verified, proven_alive });
    assert(r[1] == TableAction::NoteKey { id: c.id, ip: c.ip, key, our_ip });
}

} // verus!
