//! Kad messages on the wire: node ids, contacts, and the messages that keep a node known.
use vstd::prelude::*;
use crate::peer;
use crate::tags;
use crate::tags::{read_tags, write_tags, NameView, Tag, TagValue, TagView, ValueView};
use crate::wire;
use crate::wire::{write_u16, write_u32, IoError, Reader};

verus! {

pub const OP_BOOTSTRAP_REQ: u8 = 0x01;

pub const OP_BOOTSTRAP_RES: u8 = 0x09;

pub const OP_HELLO_REQ: u8 = 0x11;

pub const OP_HELLO_RES: u8 = 0x19;

pub const OP_KAD2_REQ: u8 = 0x21;

pub const OP_HELLO_RES_ACK: u8 = 0x22;

pub const OP_KAD2_RES: u8 = 0x29;

pub const OP_SEARCH_KEY_REQ: u8 = 0x33;

pub const OP_SEARCH_SOURCE_REQ: u8 = 0x34;

pub const OP_SEARCH_RES: u8 = 0x3B;

pub const OP_PUBLISH_KEY_REQ: u8 = 0x43;

pub const OP_PUBLISH_SOURCE_REQ: u8 = 0x44;

pub const OP_PUBLISH_NOTES_REQ: u8 = 0x45;

pub const OP_PUBLISH_RES: u8 = 0x4B;

pub const OP_PING: u8 = 0x60;

pub const OP_PONG: u8 = 0x61;

/// The Kad protocol version that we speak.
pub const KADEMLIA_VERSION: u8 = 0x08;

/// Contacts that a lookup for a value asks for.
pub const KAD_FIND_VALUE: u8 = 2;

/// Contacts that a lookup for storing asks for.
pub const KAD_STORE: u8 = 4;

/// Contacts that a plain lookup asks for.
pub const KAD_FIND_NODE: u8 = 11;

/// The tag that carries a node's UDP port.
pub const TAG_SOURCEUPORT: u8 = 0xFC;

/// The tag that carries a node's options.
pub const TAG_KADMISCOPTIONS: u8 = 0xF2;

/// A 128-bit id: of a node, a file or a keyword. Ids are compared and their distance taken
/// as numbers, most significant bit first.
#[derive(Debug, Clone, Copy, PartialEq, Eq, Structural, Hash)]
pub struct Kad128 {
    pub value: u128,
}

/// The number that 16 bytes spell, most significant first.
pub open spec fn be128(s: Seq<u8>) -> nat
    decreases s.len(),
{
    if s.len() == 0 {
        0
    } else {
        be128(s.drop_last()) * 256 + s.last() as nat
    }
}

proof fn lemma_be128_bound(s: Seq<u8>)
    requires
        s.len() <= 16,
    ensures
        be128(s) < pow256(s.len()),
        pow256(16) == 0x1_0000_0000_0000_0000_0000_0000_0000_0000,
        s.len() <= 16 ==> pow256(s.len()) <= pow256(16),
    decreases s.len(),
{
    reveal_with_fuel(pow256, 17);
    if s.len() > 0 {
        lemma_be128_bound(s.drop_last());
    }
}

spec fn pow256(n: nat) -> nat
    decreases n,
{
    if n == 0 {
        1
    } else {
        256 * pow256((n - 1) as nat)
    }
}

impl Kad128 {
    /// The id of a hash.
    pub fn from_hash(h: &[u8; 16]) -> (id: Kad128)
        ensures
            id.value == be128(h@),
    {
        let mut v: u128 = 0;
        let mut i: usize = 0;
        assert(h@.take(0) =~= Seq::empty());
        while i < 16
            invariant
                i <= 16,
                v == be128(h@.take(i as int)),
            decreases 16 - i,
        {
            proof {
                assert(h@.take(i + 1).drop_last() =~= h@.take(i as int));
                lemma_be128_bound(h@.take(i + 1));
            }
            v = v * 256 + h[i] as u128;
            i = i + 1;
        }
        assert(h@.take(16) =~= h@);
        Kad128 { value: v }
    }
}

/// The number above the low 32 bits.
pub open spec fn high(v: u128) -> u128 {
    v / 0x1_0000_0000
}

/// The low 32 bits.
pub open spec fn low(v: u128) -> u32 {
    (v % 0x1_0000_0000) as u32
}

/// The four 32-bit words of an id, most significant first.
pub open spec fn word(v: u128, i: int) -> u32 {
    if i == 0 {
        low(high(high(high(v))))
    } else if i == 1 {
        low(high(high(v)))
    } else if i == 2 {
        low(high(v))
    } else {
        low(v)
    }
}

/// The 16 bytes of an id on the wire: four words, most significant first, each
/// little-endian.
#[verifier::opaque]
pub open spec fn id_bytes(id: Kad128) -> Seq<u8> {
    wire::le32(word(id.value, 0)) + wire::le32(word(id.value, 1)) + wire::le32(word(id.value, 2))
        + wire::le32(word(id.value, 3))
}

/// The id of four words, most significant first.
pub open spec fn of_words(a: u32, b: u32, c: u32, d: u32) -> Kad128 {
    Kad128 {
        value: (((a * 0x1_0000_0000 + b) * 0x1_0000_0000 + c) * 0x1_0000_0000 + d) as u128,
    }
}

proof fn lemma_words(v: u128)
    ensures
        of_words(word(v, 0), word(v, 1), word(v, 2), word(v, 3)) == (Kad128 { value: v }),
{
    let h1 = high(v);
    let h2 = high(h1);
    let h3 = high(h2);
    assert(v == h1 * 0x1_0000_0000 + low(v));
    assert(h1 == h2 * 0x1_0000_0000 + low(h1));
    assert(h2 == h3 * 0x1_0000_0000 + low(h2));
    assert(h3 < 0x1_0000_0000);
    assert(low(h3) == h3);
}

/// The id that `s` begins with.
#[verifier::opaque]
pub open spec fn parse_id(s: Seq<u8>) -> Result<(Kad128, Seq<u8>), IoError> {
    if s.len() < 16 {
        Err(IoError::UnexpectedEof)
    } else {
        Ok(
            (
                of_words(
                    wire::de32(s),
                    wire::de32(s.skip(4)),
                    wire::de32(s.skip(8)),
                    wire::de32(s.skip(12)),
                ),
                s.skip(16),
            ),
        )
    }
}

/// An id that is written is read back, and the bytes behind it are left.
pub proof fn lemma_id_round_trip(id: Kad128, rest: Seq<u8>)
    ensures
        id_bytes(id).len() == 16,
        parse_id(id_bytes(id) + rest) == Ok::<(Kad128, Seq<u8>), IoError>((id, rest)),
{
    reveal(id_bytes);
    reveal(parse_id);
    let v = id.value;
    lemma_words(v);
    let (a, b, c, d) = (word(v, 0), word(v, 1), word(v, 2), word(v, 3));
    let s = id_bytes(id) + rest;
    let s3 = wire::le32(d) + rest;
    let s2 = wire::le32(c) + s3;
    let s1 = wire::le32(b) + s2;
    assert(s =~= wire::le32(a) + s1);
    assert(s.skip(4) =~= s1);
    assert(s.skip(8) =~= s2);
    assert(s.skip(12) =~= s3);
    assert(s.skip(16) =~= rest);
    wire::lemma_u32_round_trip(a, s1);
    wire::lemma_u32_round_trip(b, s2);
    wire::lemma_u32_round_trip(c, s3);
    wire::lemma_u32_round_trip(d, rest);
}

pub fn write_id(out: &mut Vec<u8>, id: Kad128)
    ensures
        final(out)@ == old(out)@ + id_bytes(id),
{
    reveal(id_bytes);
    let v: u128 = id.value;
    let h1: u128 = v / 0x1_0000_0000;
    let h2: u128 = h1 / 0x1_0000_0000;
    let h3: u128 = h2 / 0x1_0000_0000;
    write_u32(out, (h3 % 0x1_0000_0000) as u32);
    write_u32(out, (h2 % 0x1_0000_0000) as u32);
    write_u32(out, (h1 % 0x1_0000_0000) as u32);
    write_u32(out, (v % 0x1_0000_0000) as u32);
    assert(out@ =~= old(out)@ + id_bytes(id));
}

pub fn read_id(r: &mut Reader) -> (id: Result<Kad128, IoError>)
    requires
        old(r).wf(),
    ensures
        final(r).wf(),
        match parse_id(old(r).rest()) {
            Ok((x, rest)) => id == Ok::<Kad128, IoError>(x) && final(r).rest() == rest,
            Err(e) => id == Err::<Kad128, IoError>(e),
        },
{
    reveal(parse_id);
    if r.remaining() < 16 {
        return Err(IoError::UnexpectedEof);
    }
    let ghost s = r.rest();
    let a: u32 = r.read_u32()?;
    assert(r.rest() =~= s.skip(4));
    let b: u32 = r.read_u32()?;
    assert(r.rest() =~= s.skip(8));
    let c: u32 = r.read_u32()?;
    assert(r.rest() =~= s.skip(12));
    let d: u32 = r.read_u32()?;
    assert(r.rest() =~= s.skip(16));
    Ok(
        Kad128 {
            value: ((a as u128 * 0x1_0000_0000 + b as u128) * 0x1_0000_0000 + c as u128)
                * 0x1_0000_0000 + d as u128,
        },
    )
}

/// A node as one node tells another of it.
#[derive(Debug, Clone, Copy, PartialEq, Eq, Structural)]
pub struct WireContact {
    pub id: Kad128,
    pub ip: u32,
    pub udp_port: u16,
    pub tcp_port: u16,
    pub version: u8,
}

/// The bytes of a contact.
#[verifier::opaque]
pub open spec fn contact_bytes(c: WireContact) -> Seq<u8> {
    id_bytes(c.id) + wire::le32(c.ip) + wire::le16(c.udp_port) + wire::le16(c.tcp_port)
        + seq![c.version]
}

/// Contacts one behind the other.
pub open spec fn contacts_bytes(cs: Seq<WireContact>) -> Seq<u8>
    decreases cs.len(),
{
    if cs.len() == 0 {
        Seq::empty()
    } else {
        contacts_bytes(cs.drop_last()) + contact_bytes(cs.last())
    }
}

/// The contact that `s` begins with.
#[verifier::opaque]
pub open spec fn parse_contact(s: Seq<u8>) -> Result<(WireContact, Seq<u8>), IoError> {
    match parse_id(s) {
        Err(e) => Err(e),
        Ok((id, s1)) => match wire::parse_u32(s1) {
            Err(e) => Err(e),
            Ok((ip, s2)) => match wire::parse_u16(s2) {
                Err(e) => Err(e),
                Ok((udp_port, s3)) => match wire::parse_u16(s3) {
                    Err(e) => Err(e),
                    Ok((tcp_port, s4)) => match wire::parse_u8(s4) {
                        Err(e) => Err(e),
                        Ok((version, s5)) => Ok(
                            (WireContact { id, ip, udp_port, tcp_port, version }, s5),
                        ),
                    },
                },
            },
        },
    }
}

/// The `n` contacts that `s` begins with.
pub open spec fn parse_contacts(s: Seq<u8>, n: nat) -> Result<(Seq<WireContact>, Seq<u8>), IoError>
    decreases n,
{
    if n == 0 {
        Ok((Seq::empty(), s))
    } else {
        match parse_contact(s) {
            Err(e) => Err(e),
            Ok((c, s1)) => match parse_contacts(s1, (n - 1) as nat) {
                Err(e) => Err(e),
                Ok((cs, s2)) => Ok((seq![c] + cs, s2)),
            },
        }
    }
}

fn write_contact(out: &mut Vec<u8>, c: &WireContact)
    ensures
        final(out)@ == old(out)@ + contact_bytes(*c),
{
    reveal(contact_bytes);
    write_id(out, c.id);
    write_u32(out, c.ip);
    write_u16(out, c.udp_port);
    write_u16(out, c.tcp_port);
    out.push(c.version);
    assert(out@ =~= old(out)@ + contact_bytes(*c));
}

fn write_contacts(out: &mut Vec<u8>, cs: &Vec<WireContact>)
    ensures
        final(out)@ == old(out)@ + contacts_bytes(cs@),
{
    let mut i: usize = 0;
    assert(cs@.take(0) =~= Seq::empty());
    assert(out@ =~= old(out)@ + contacts_bytes(cs@.take(0)));
    while i < cs.len()
        invariant
            i <= cs@.len(),
            out@ == old(out)@ + contacts_bytes(cs@.take(i as int)),
        decreases cs@.len() - i,
    {
        write_contact(out, &cs[i]);
        proof {
            assert(cs@.take(i + 1).drop_last() =~= cs@.take(i as int));
            assert(out@ =~= old(out)@ + contacts_bytes(cs@.take(i + 1)));
        }
        i = i + 1;
    }
    assert(cs@.take(i as int) =~= cs@);
}

fn read_contact(r: &mut Reader) -> (c: Result<WireContact, IoError>)
    requires
        old(r).wf(),
    ensures
        final(r).wf(),
        match parse_contact(old(r).rest()) {
            Ok((x, rest)) => c == Ok::<WireContact, IoError>(x) && final(r).rest() == rest,
            Err(e) => c == Err::<WireContact, IoError>(e),
        },
{
    reveal(parse_contact);
    let id = read_id(r)?;
    let ip: u32 = r.read_u32()?;
    let udp_port: u16 = r.read_u16()?;
    let tcp_port: u16 = r.read_u16()?;
    let version: u8 = r.read_u8()?;
    Ok(WireContact { id, ip, udp_port, tcp_port, version })
}

fn read_contacts(r: &mut Reader, n: u16) -> (cs: Result<Vec<WireContact>, IoError>)
    requires
        old(r).wf(),
    ensures
        final(r).wf(),
        match parse_contacts(old(r).rest(), n as nat) {
            Ok((x, rest)) => cs is Ok && cs->Ok_0@ == x && final(r).rest() == rest,
            Err(e) => cs is Err && cs->Err_0 == e,
        },
{
    let ghost start = r.rest();
    let mut cs: Vec<WireContact> = Vec::new();
    let mut i: u16 = 0;
    assert(forall|x: Seq<WireContact>| #[trigger] (cs@ + x) =~= x);
    while i < n
        invariant
            i <= n,
            r.wf(),
            start == old(r).rest(),
            match parse_contacts(r.rest(), (n - i) as nat) {
                Ok((x, rest)) => parse_contacts(start, n as nat) == Ok::<
                    (Seq<WireContact>, Seq<u8>),
                    IoError,
                >((cs@ + x, rest)),
                Err(e) => parse_contacts(start, n as nat) == Err::<
                    (Seq<WireContact>, Seq<u8>),
                    IoError,
                >(e),
            },
        decreases n - i,
    {
        let ghost before = cs@;
        let c = read_contact(r)?;
        cs.push(c);
        proof {
            assert forall|x: Seq<WireContact>| #[trigger] (cs@ + x) =~= before + (seq![c] + x) by {}
        }
        i = i + 1;
    }
    assert(cs@ + Seq::<WireContact>::empty() =~= cs@);
    Ok(cs)
}

/// A contact that is written is read back, and the bytes behind it are left.
pub proof fn law_contact_round_trip(c: WireContact, rest: Seq<u8>)
    ensures
        parse_contact(contact_bytes(c) + rest) == Ok::<(WireContact, Seq<u8>), IoError>((c, rest)),
{
    reveal(contact_bytes);
    reveal(parse_contact);
    let s4 = seq![c.version] + rest;
    let s3 = wire::le16(c.tcp_port) + s4;
    let s2 = wire::le16(c.udp_port) + s3;
    let s1 = wire::le32(c.ip) + s2;
    assert(contact_bytes(c) + rest =~= id_bytes(c.id) + s1);
    lemma_id_round_trip(c.id, s1);
    wire::lemma_u32_round_trip(c.ip, s2);
    wire::lemma_u16_round_trip(c.udp_port, s3);
    wire::lemma_u16_round_trip(c.tcp_port, s4);
    assert(s4.skip(1) =~= rest);
}

proof fn lemma_contacts_first(cs: Seq<WireContact>)
    requires
        cs.len() > 0,
    ensures
        contacts_bytes(cs) == contact_bytes(cs[0]) + contacts_bytes(cs.skip(1)),
    decreases cs.len(),
{
    let others = cs.skip(1);
    if cs.len() == 1 {
        assert(cs.drop_last() =~= Seq::empty());
        assert(others =~= Seq::empty());
        assert(contacts_bytes(cs) =~= contact_bytes(cs[0]) + contacts_bytes(others));
    } else {
        lemma_contacts_first(cs.drop_last());
        assert(cs.drop_last().skip(1) =~= others.drop_last());
        assert(contacts_bytes(cs) =~= contact_bytes(cs[0]) + contacts_bytes(others));
    }
}

/// Contacts that are written are read back, and the bytes behind them are left.
pub proof fn law_contacts_round_trip(cs: Seq<WireContact>, rest: Seq<u8>)
    ensures
        parse_contacts(contacts_bytes(cs) + rest, cs.len()) == Ok::<
            (Seq<WireContact>, Seq<u8>),
            IoError,
        >((cs, rest)),
    decreases cs.len(),
{
    if cs.len() == 0 {
        assert(contacts_bytes(cs) + rest =~= rest);
        assert(cs =~= Seq::empty());
    } else {
        let others = cs.skip(1);
        lemma_contacts_first(cs);
        assert(contacts_bytes(cs) + rest =~= contact_bytes(cs[0]) + (contacts_bytes(others)
            + rest));
        law_contact_round_trip(cs[0], contacts_bytes(others) + rest);
        law_contacts_round_trip(others, rest);
        assert(seq![cs[0]] + others =~= cs);
    }
}

/// The bytes of a lookup request: how many contacts are asked for, the target, and the node
/// that the request is meant for.
pub open spec fn kad2_req_bytes(req_type: u8, target: Kad128, receiver: Kad128) -> Seq<u8> {
    seq![req_type] + id_bytes(target) + id_bytes(receiver)
}

pub fn build_kad2_req(req_type: u8, target: Kad128, receiver: Kad128) -> (out: Vec<u8>)
    ensures
        out@ == kad2_req_bytes(req_type, target, receiver),
{
    let mut out: Vec<u8> = Vec::new();
    out.push(req_type);
    write_id(&mut out, target);
    write_id(&mut out, receiver);
    assert(out@ =~= kad2_req_bytes(req_type, target, receiver));
    out
}

/// A lookup request.
#[derive(Debug, Clone, Copy, PartialEq, Eq, Structural)]
pub struct Kad2Req {
    /// How many contacts are asked for: five bits.
    pub req_type: u8,
    pub target: Kad128,
    pub receiver: Kad128,
}

pub open spec fn kad2_req_of(s: Seq<u8>) -> Result<Kad2Req, IoError> {
    match wire::parse_u8(s) {
        Err(e) => Err(e),
        Ok((t, s1)) => match parse_id(s1) {
            Err(e) => Err(e),
            Ok((target, s2)) => match parse_id(s2) {
                Err(e) => Err(e),
                Ok((receiver, _)) => Ok(Kad2Req { req_type: t % 32, target, receiver }),
            },
        },
    }
}

pub fn parse_kad2_req(payload: &[u8]) -> (r: Result<Kad2Req, IoError>)
    ensures
        r == kad2_req_of(payload@),
{
    let mut r = Reader::new(payload);
    let t: u8 = r.read_u8()?;
    let target = read_id(&mut r)?;
    let receiver = read_id(&mut r)?;
    Ok(Kad2Req { req_type: t % 32, target, receiver })
}

/// The bytes of an answer to a lookup.
pub open spec fn kad2_res_bytes(target: Kad128, contacts: Seq<WireContact>) -> Seq<u8> {
    id_bytes(target) + seq![contacts.len() as u8] + contacts_bytes(contacts)
}

pub fn build_kad2_res(target: Kad128, contacts: &Vec<WireContact>) -> (out: Vec<u8>)
    requires
        contacts@.len() <= 255,
    ensures
        out@ == kad2_res_bytes(target, contacts@),
{
    let mut out: Vec<u8> = Vec::new();
    write_id(&mut out, target);
    out.push(contacts.len() as u8);
    write_contacts(&mut out, contacts);
    assert(out@ =~= kad2_res_bytes(target, contacts@));
    out
}

/// An answer to a lookup.
#[derive(Debug, Clone, PartialEq, Eq)]
pub struct Kad2Res {
    pub target: Kad128,
    pub contacts: Vec<WireContact>,
}

pub open spec fn kad2_res_of(s: Seq<u8>) -> Result<(Kad128, Seq<WireContact>), IoError> {
    match parse_id(s) {
        Err(e) => Err(e),
        Ok((target, s1)) => match wire::parse_u8(s1) {
            Err(e) => Err(e),
            Ok((n, s2)) => match parse_contacts(s2, n as nat) {
                Err(e) => Err(e),
                Ok((cs, _)) => Ok((target, cs)),
            },
        },
    }
}

pub fn parse_kad2_res(payload: &[u8]) -> (r: Result<Kad2Res, IoError>)
    ensures
        match kad2_res_of(payload@) {
            Ok((target, cs)) => r is Ok && r->Ok_0.target == target && r->Ok_0.contacts@ == cs,
            Err(e) => r is Err && r->Err_0 == e,
        },
{
    let mut r = Reader::new(payload);
    let target = read_id(&mut r)?;
    let n: u8 = r.read_u8()?;
    let contacts = read_contacts(&mut r, n as u16)?;
    Ok(Kad2Res { target, contacts })
}

/// The bytes of an answer to a bootstrap request.
pub open spec fn bootstrap_res_bytes(
    id: Kad128,
    tcp_port: u16,
    version: u8,
    contacts: Seq<WireContact>,
) -> Seq<u8> {
    id_bytes(id) + wire::le16(tcp_port) + seq![version] + wire::le16(contacts.len() as u16)
        + contacts_bytes(contacts)
}

pub fn build_bootstrap_res(id: Kad128, tcp_port: u16, version: u8, contacts: &Vec<WireContact>) -> (
    out: Vec<u8>)
    requires
        contacts@.len() <= 0xFFFF,
    ensures
        out@ == bootstrap_res_bytes(id, tcp_port, version, contacts@),
{
    let mut out: Vec<u8> = Vec::new();
    write_id(&mut out, id);
    write_u16(&mut out, tcp_port);
    out.push(version);
    write_u16(&mut out, contacts.len() as u16);
    write_contacts(&mut out, contacts);
    assert(out@ =~= bootstrap_res_bytes(id, tcp_port, version, contacts@));
    out
}

/// An answer to a bootstrap request.
#[derive(Debug, Clone, PartialEq, Eq)]
pub struct BootstrapRes {
    pub id: Kad128,
    pub tcp_port: u16,
    pub version: u8,
    pub contacts: Vec<WireContact>,
}

pub open spec fn bootstrap_res_of(s: Seq<u8>) -> Result<
    (Kad128, u16, u8, Seq<WireContact>),
    IoError,
> {
    match parse_id(s) {
        Err(e) => Err(e),
        Ok((id, s1)) => match wire::parse_u16(s1) {
            Err(e) => Err(e),
            Ok((tcp_port, s2)) => match wire::parse_u8(s2) {
                Err(e) => Err(e),
                Ok((version, s3)) => match wire::parse_u16(s3) {
                    Err(e) => Err(e),
                    Ok((n, s4)) => match parse_contacts(s4, n as nat) {
                        Err(e) => Err(e),
                        Ok((cs, _)) => Ok((id, tcp_port, version, cs)),
                    },
                },
            },
        },
    }
}

pub fn parse_bootstrap_res(payload: &[u8]) -> (r: Result<BootstrapRes, IoError>)
    ensures
        match bootstrap_res_of(payload@) {
            Ok((id, tcp_port, version, cs)) => {
                &&& r is Ok
                &&& r->Ok_0.id == id
                &&& r->Ok_0.tcp_port == tcp_port
                &&& r->Ok_0.version == version
                &&& r->Ok_0.contacts@ == cs
            },
            Err(e) => r is Err && r->Err_0 == e,
        },
{
    let mut r = Reader::new(payload);
    let id = read_id(&mut r)?;
    let tcp_port: u16 = r.read_u16()?;
    let version: u8 = r.read_u8()?;
    let n: u16 = r.read_u16()?;
    let contacts = read_contacts(&mut r, n)?;
    Ok(BootstrapRes { id, tcp_port, version, contacts })
}

/// The tags of a hello.
pub open spec fn hello_tags(udp_port: Option<u16>, misc: Option<u8>) -> Seq<TagView> {
    (match udp_port {
        Some(p) => seq![TagView { name: NameView::Id(TAG_SOURCEUPORT), value: ValueView::U16(p) }],
        None => Seq::empty(),
    }) + (match misc {
        Some(m) => seq![
            TagView { name: NameView::Id(TAG_KADMISCOPTIONS), value: ValueView::U8(m) },
        ],
        None => Seq::empty(),
    })
}

/// The bytes of a hello, and of an answer to one.
pub open spec fn hello_bytes(
    id: Kad128,
    tcp_port: u16,
    udp_port: Option<u16>,
    misc: Option<u8>,
) -> Seq<u8> {
    let tags = hello_tags(udp_port, misc);
    id_bytes(id) + wire::le16(tcp_port) + seq![KADEMLIA_VERSION] + seq![tags.len() as u8]
        + tags::tags_bytes(tags)
}

/// Build a hello, or an answer to one.
pub fn build_hello(id: Kad128, tcp_port: u16, udp_port: Option<u16>, misc: Option<u8>) -> (out: Vec<
    u8,
>)
    ensures
        out@ == hello_bytes(id, tcp_port, udp_port, misc),
{
    let mut out: Vec<u8> = Vec::new();
    write_id(&mut out, id);
    write_u16(&mut out, tcp_port);
    out.push(KADEMLIA_VERSION);
    let mut list: Vec<Tag> = Vec::new();
    if let Some(p) = udp_port {
        list.push(Tag::id(TAG_SOURCEUPORT, TagValue::U16(p)));
    }
    if let Some(m) = misc {
        list.push(Tag::id(TAG_KADMISCOPTIONS, TagValue::U8(m)));
    }
    assert(tags::tag_views(list@) =~= hello_tags(udp_port, misc));
    assert(forall|i: int|
        0 <= i < list@.len() ==> (#[trigger] list@[i])@ == hello_tags(udp_port, misc)[i]);
    out.push(list.len() as u8);
    write_tags(&mut out, &list);
    assert(out@ =~= hello_bytes(id, tcp_port, udp_port, misc));
    out
}

/// A hello.
#[derive(Debug, Clone, Copy, PartialEq, Eq, Structural)]
pub struct KadHello {
    pub id: Kad128,
    pub tcp_port: u16,
    pub version: u8,
    pub source_udp_port: Option<u16>,
    pub misc_options: Option<u8>,
}

/// The number, where it fits in 16 bits.
pub open spec fn fit16(v: Option<u32>) -> Option<u16> {
    match v {
        Some(n) if n <= 0xFFFF => Some(n as u16),
        _ => None,
    }
}

/// The number, where it fits in 8 bits.
pub open spec fn fit8(v: Option<u32>) -> Option<u8> {
    match v {
        Some(n) if n <= 0xFF => Some(n as u8),
        _ => None,
    }
}

pub open spec fn hello_of(s: Seq<u8>) -> Result<KadHello, IoError> {
    match parse_id(s) {
        Err(e) => Err(e),
        Ok((id, s1)) => match wire::parse_u16(s1) {
            Err(e) => Err(e),
            Ok((tcp_port, s2)) => match wire::parse_u8(s2) {
                Err(e) => Err(e),
                Ok((version, s3)) => match wire::parse_u8(s3) {
                    Err(e) => Err(e),
                    Ok((n, s4)) => match tags::parse_tags(s4, n as nat) {
                        Err(e) => Err(e),
                        Ok((tags, _)) => Ok(
                            KadHello {
                                id,
                                tcp_port,
                                version,
                                source_udp_port: fit16(peer::number_of(tags, TAG_SOURCEUPORT)),
                                misc_options: fit8(peer::number_of(tags, TAG_KADMISCOPTIONS)),
                            },
                        ),
                    },
                },
            },
        },
    }
}

pub fn parse_hello(payload: &[u8]) -> (r: Result<KadHello, IoError>)
    ensures
        r == hello_of(payload@),
{
    let mut r = Reader::new(payload);
    let id = read_id(&mut r)?;
    let tcp_port: u16 = r.read_u16()?;
    let version: u8 = r.read_u8()?;
    let n: u8 = r.read_u8()?;
    let list = read_tags(&mut r, n as u32)?;
    let source_udp_port: Option<u16> = match peer::find_number(&list, TAG_SOURCEUPORT) {
        Some(n) => if n <= 0xFFFF {
            Some(n as u16)
        } else {
            None
        },
        None => None,
    };
    let misc_options: Option<u8> = match peer::find_number(&list, TAG_KADMISCOPTIONS) {
        Some(n) => if n <= 0xFF {
            Some(n as u8)
        } else {
            None
        },
        None => None,
    };
    Ok(KadHello { id, tcp_port, version, source_udp_port, misc_options })
}

/// A hello that is built is parsed back to what went into it.
pub proof fn law_hello_round_trip(id: Kad128, tcp_port: u16, udp_port: Option<u16>, misc: Option<u8>)
    ensures
        hello_of(hello_bytes(id, tcp_port, udp_port, misc)) == Ok::<KadHello, IoError>(
            KadHello {
                id,
                tcp_port,
                version: KADEMLIA_VERSION,
                source_udp_port: udp_port,
                misc_options: misc,
            },
        ),
{
    let none = Seq::<u8>::empty();
    let tags = hello_tags(udp_port, misc);
    let s4 = tags::tags_bytes(tags) + none;
    let s3 = seq![tags.len() as u8] + s4;
    let s2 = seq![KADEMLIA_VERSION] + s3;
    let s1 = wire::le16(tcp_port) + s2;
    assert(hello_bytes(id, tcp_port, udp_port, misc) =~= id_bytes(id) + s1);
    lemma_id_round_trip(id, s1);
    wire::lemma_u16_round_trip(tcp_port, s2);
    assert(s2.skip(1) =~= s3);
    assert(s3.skip(1) =~= s4);
    tags::law_tags_round_trip(tags, none);
    reveal_with_fuel(peer::number_of, 3);
}

/// The bytes of the answer to an answer to a hello.
pub open spec fn hello_res_ack_bytes(id: Kad128) -> Seq<u8> {
    id_bytes(id) + seq![0u8]
}

pub fn build_hello_res_ack(id: Kad128) -> (out: Vec<u8>)
    ensures
        out@ == hello_res_ack_bytes(id),
{
    let mut out: Vec<u8> = Vec::new();
    write_id(&mut out, id);
    out.push(0);
    assert(out@ =~= hello_res_ack_bytes(id));
    out
}

/// The sender that an acknowledgement names: an id, with at least one byte behind it.
pub open spec fn hello_res_ack_of(s: Seq<u8>) -> Result<Kad128, IoError> {
    match parse_id(s) {
        Err(e) => Err(e),
        Ok((id, s1)) => match wire::parse_u8(s1) {
            Err(e) => Err(e),
            Ok(_) => Ok(id),
        },
    }
}

pub fn parse_hello_res_ack(payload: &[u8]) -> (r: Result<Kad128, IoError>)
    ensures
        r == hello_res_ack_of(payload@),
{
    let mut r = Reader::new(payload);
    let id = read_id(&mut r)?;
    r.read_u8()?;
    Ok(id)
}

/// The bytes of a pong: the port that the ping came from.
pub fn build_pong(from_udp_port: u16) -> (out: Vec<u8>)
    ensures
        out@ == wire::le16(from_udp_port),
{
    let mut out: Vec<u8> = Vec::new();
    write_u16(&mut out, from_udp_port);
    assert(out@ =~= wire::le16(from_udp_port));
    out
}

/// A lookup request that is built is parsed back, where what it asks for fits in five bits.
pub proof fn law_kad2_req_round_trip(req_type: u8, target: Kad128, receiver: Kad128)
    requires
        req_type < 32,
    ensures
        kad2_req_of(kad2_req_bytes(req_type, target, receiver)) == Ok::<Kad2Req, IoError>(
            Kad2Req { req_type, target, receiver },
        ),
{
    let none = Seq::<u8>::empty();
    let s2 = id_bytes(receiver) + none;
    let s1 = id_bytes(target) + s2;
    let s = seq![req_type] + s1;
    assert(kad2_req_bytes(req_type, target, receiver) =~= s);
    assert(s.skip(1) =~= s1);
    lemma_id_round_trip(target, s2);
    lemma_id_round_trip(receiver, none);
}

/// An answer to a lookup that is built is parsed back.
pub proof fn law_kad2_res_round_trip(target: Kad128, contacts: Seq<WireContact>)
    requires
        contacts.len() <= 255,
    ensures
        kad2_res_of(kad2_res_bytes(target, contacts)) == Ok::<
            (Kad128, Seq<WireContact>),
            IoError,
        >((target, contacts)),
{
    let none = Seq::<u8>::empty();
    let s2 = contacts_bytes(contacts) + none;
    let s1 = seq![contacts.len() as u8] + s2;
    assert(kad2_res_bytes(target, contacts) =~= id_bytes(target) + s1);
    lemma_id_round_trip(target, s1);
    assert(s1.skip(1) =~= s2);
    law_contacts_round_trip(contacts, none);
}

/// An answer to a bootstrap request that is built is parsed back.
pub proof fn law_bootstrap_res_round_trip(
    id: Kad128,
    tcp_port: u16,
    version: u8,
    contacts: Seq<WireContact>,
)
    requires
        contacts.len() <= 0xFFFF,
    ensures
        bootstrap_res_of(bootstrap_res_bytes(id, tcp_port, version, contacts)) == Ok::<
            (Kad128, u16, u8, Seq<WireContact>),
            IoError,
        >((id, tcp_port, version, contacts)),
{
    let none = Seq::<u8>::empty();
    let n = contacts.len() as u16;
    let s4 = contacts_bytes(contacts) + none;
    let s3 = wire::le16(n) + s4;
    let s2 = seq![version] + s3;
    let s1 = wire::le16(tcp_port) + s2;
    assert(bootstrap_res_bytes(id, tcp_port, version, contacts) =~= id_bytes(id) + s1);
    lemma_id_round_trip(id, s1);
    wire::lemma_u16_round_trip(tcp_port, s2);
    assert(s2.skip(1) =~= s3);
    wire::lemma_u16_round_trip(n, s4);
    law_contacts_round_trip(contacts, none);
}

/// An acknowledgement that is built is parsed back.
pub proof fn law_hello_res_ack_round_trip(id: Kad128)
    ensures
        hello_res_ack_of(hello_res_ack_bytes(id)) == Ok::<Kad128, IoError>(id),
{
    lemma_id_round_trip(id, seq![0u8]);
}

/// Where the fields of a contact stand: its id, its address, its two ports and its version, each
/// with the low byte first.
pub proof fn law_where_a_contact_stands(c: WireContact)
    ensures
        contact_bytes(c).len() == 25,
        contact_bytes(c).take(16) == id_bytes(c.id),
        contact_bytes(c)[16] + 0x100 * contact_bytes(c)[17] + 0x1_0000 * contact_bytes(c)[18]
            + 0x100_0000 * contact_bytes(c)[19] == c.ip,
        contact_bytes(c)[20] + 0x100 * contact_bytes(c)[21] == c.udp_port,
        contact_bytes(c)[22] + 0x100 * contact_bytes(c)[23] == c.tcp_port,
        contact_bytes(c)[24] == c.version,
{
    lemma_id_round_trip(c.id, Seq::empty());
    lemma_contact_fields(c);
    wire::law_the_low_byte_comes_first(c.udp_port, c.ip);
    wire::law_the_low_byte_comes_first(c.tcp_port, c.ip);
}

proof fn lemma_contact_fields(c: WireContact)
    requires
        id_bytes(c.id).len() == 16,
    ensures
        contact_bytes(c).len() == 25,
        contact_bytes(c).take(16) == id_bytes(c.id),
        forall|i: int| 0 <= i < 4 ==> contact_bytes(c)[16 + i] == #[trigger] wire::le32(c.ip)[i],
        forall|i: int| 0 <= i < 2 ==> contact_bytes(c)[20 + i] == #[trigger] wire::le16(c.udp_port)[i],
        forall|i: int| 0 <= i < 2 ==> contact_bytes(c)[22 + i] == #[trigger] wire::le16(c.tcp_port)[i],
        contact_bytes(c)[24] == c.version,
{
    reveal(contact_bytes);
    assert(contact_bytes(c).take(16) =~= id_bytes(c.id));
}

} // verus!
