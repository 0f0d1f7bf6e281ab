//! The handshake between clients: who a peer is, and what it can do.
//!
//! Whoever opens the connection sends a hello first, whose body is prefixed with the length
//! of the user hash; the accepter replies with the same body and no prefix.
use vstd::arithmetic::div_mod::lemma_fundamental_div_mod_converse;
use vstd::prelude::*;
use vstd::string::*;
use vstd::utf8::*;
use crate::proto::{Packet, PROT_EDONKEY};
use crate::tags;
use crate::tags::{
    read_tags, write_tags, NameView, Tag, TagName, TagValue, TagView, ValueView,
};
use crate::text;
use crate::text::{push_decimal, string_of};
use crate::wire;
use crate::wire::{write_bytes, write_u16, write_u32, IoError, Reader};

verus! {

pub const OP_HELLO: u8 = 0x01;

pub const OP_HELLOANSWER: u8 = 0x4C;

pub const CT_NAME: u8 = 0x01;

pub const CT_VERSION: u8 = 0x11;

pub const CT_EMULECOMPAT_OPTIONS: u8 = 0xEF;

pub const CT_EMULE_UDPPORTS: u8 = 0xF9;

pub const CT_EMULE_MISCOPTIONS1: u8 = 0xFA;

pub const CT_EMULE_VERSION: u8 = 0xFB;

pub const CT_EMULE_MISCOPTIONS2: u8 = 0xFE;

/// The eDonkey version that we advertise.
pub const EDONKEYVERSION: u32 = 0x3C;

/// The client version that we advertise.
pub const EMULE_VERSION_TAG: u32 = 0x0306_0080;

/// The version of the enhancement channel that we advertise.
pub const PADMULE_CHANNEL_VERSION: u8 = 1;

/// The Kad protocol version that we advertise.
pub const KADEMLIA_VERSION: u32 = 0x08;

/// The compatibility options that we advertise.
pub const COMPAT_OPTIONS_BASELINE: u32 = 1;

/// The name of the tag that marks a padMule client. A string-named tag with a standard
/// type byte is read and skipped by other clients.
pub open spec fn padmule_name() -> Seq<u8> {
    seq![0x70u8, 0x61, 0x64, 0x4D, 0x75, 0x6C, 0x65]
}

/// The first capability word: AICH 1, Unicode, UDP 4, compression 1, source exchange 3,
/// extended requests 2, comments 1, multipacket, and `sec_ident` in its four bits.
pub fn baseline_misc_options1(sec_ident: u32) -> (m: u32)
    ensures
        m == 0x3410_3212u32 | (sec_ident << 16),
        sec_ident < 16 ==> m == 0x3410_3212 + 0x1_0000 * sec_ident,
{
    let aich: u32 = 1;
    let unicode: u32 = 1;
    let udp_ver: u32 = 4;
    let data_comp: u32 = 1;
    let source_exchange: u32 = 3;
    let ext_requests: u32 = 2;
    let accept_comment: u32 = 1;
    let multipacket: u32 = 1;
    let m: u32 = (aich << 29) | (unicode << 28) | (udp_ver << 24) | (data_comp << 20) | (sec_ident
        << 16) | (source_exchange << 12) | (ext_requests << 8) | (accept_comment << 4) | (
    multipacket << 1);
    proof {
        assert((1u32 << 29) | (1u32 << 28) | (4u32 << 24) | (1u32 << 20) | (sec_ident << 16) | (3u32
            << 12) | (2u32 << 8) | (1u32 << 4) | (1u32 << 1) == 0x3410_3212u32 | (sec_ident << 16))
            by (bit_vector);
        assert(sec_ident < 16 ==> 0x3410_3212u32 | (sec_ident << 16) == 0x3410_3212u32 + 0x1_0000u32
            * sec_ident) by (bit_vector);
    }
    m
}

/// The second capability word: source exchange 2, extended multipacket, large files, the
/// crypt flags and the Kad version.
pub fn baseline_misc_options2(
    crypt_supported: u32,
    crypt_requested: u32,
    crypt_required: u32,
    kad_version: u32,
) -> (m: u32)
    ensures
        m == 0x430u32 | (crypt_required << 9) | (crypt_requested << 8) | (crypt_supported << 7)
            | kad_version,
        crypt_supported <= 1 && crypt_requested <= 1 && crypt_required <= 1 && kad_version < 16
            ==> m == 0x430 + 0x200 * crypt_required + 0x100 * crypt_requested + 0x80
            * crypt_supported + kad_version,
{
    let source_ex2: u32 = 1;
    let ext_multipacket: u32 = 1;
    let large_files: u32 = 1;
    let m: u32 = (source_ex2 << 10) | (crypt_required << 9) | (crypt_requested << 8) | (
    crypt_supported << 7) | (ext_multipacket << 5) | (large_files << 4) | kad_version;
    proof {
        assert((1u32 << 10) | (crypt_required << 9) | (crypt_requested << 8) | (crypt_supported
            << 7) | (1u32 << 5) | (1u32 << 4) | kad_version == 0x430u32 | (crypt_required << 9) | (
        crypt_requested << 8) | (crypt_supported << 7) | kad_version) by (bit_vector);
        assert(crypt_supported <= 1 && crypt_requested <= 1 && crypt_required <= 1 && kad_version
            < 16 ==> 0x430u32 | (crypt_required << 9) | (crypt_requested << 8) | (crypt_supported
            << 7) | kad_version == 0x430u32 + 0x200u32 * crypt_required + 0x100u32
            * crypt_requested + 0x80u32 * crypt_supported + kad_version) by (bit_vector);
    }
    m
}

/// The identity and capabilities exchanged in a hello.
#[derive(Debug, Clone, PartialEq, Eq)]
pub struct HelloInfo {
    pub user_hash: [u8; 16],
    pub client_id: u32,
    pub tcp_port: u16,
    pub nick: String,
    pub udp_port: u16,
    pub kad_udp_port: u16,
    pub misc_options1: u32,
    pub misc_options2: u32,
    pub compat_options: u32,
    /// The server we are connected to (0 if none), so that peers can call back through it.
    pub server_ip: u32,
    pub server_port: u16,
}

impl HelloInfo {
    /// No crypto, no Kad connection, no server.
    pub fn baseline(
        user_hash: [u8; 16],
        client_id: u32,
        tcp_port: u16,
        udp_port: u16,
        nick: &str,
    ) -> (h: HelloInfo)
        ensures
            h.user_hash == user_hash,
            h.client_id == client_id,
            h.tcp_port == tcp_port,
            h.udp_port == udp_port,
            h.nick@ == nick@,
            h.kad_udp_port == 0,
            h.misc_options1 == 0x3410_3212,
            h.misc_options2 == 0x438,
            h.compat_options == COMPAT_OPTIONS_BASELINE,
            h.server_ip == 0,
            h.server_port == 0,
    {
        HelloInfo {
            user_hash,
            client_id,
            tcp_port,
            nick: nick.to_owned(),
            udp_port,
            kad_udp_port: 0,
            misc_options1: baseline_misc_options1(0),
            misc_options2: baseline_misc_options2(0, 0, 0, KADEMLIA_VERSION),
            compat_options: COMPAT_OPTIONS_BASELINE,
            server_ip: 0,
            server_port: 0,
        }
    }
}

/// The marker tag: the channel version in the low byte, 24 bits of capabilities above it.
pub open spec fn marker(caps: u32) -> TagView {
    TagView {
        name: NameView::Str(padmule_name()),
        value: ValueView::U32(
            ((caps % 0x100_0000) * 256 + PADMULE_CHANNEL_VERSION) as u32,
        ),
    }
}

fn padmule_name_bytes() -> (v: Vec<u8>)
    ensures
        v@ == padmule_name(),
{
    let mut v: Vec<u8> = Vec::new();
    v.push(0x70);
    v.push(0x61);
    v.push(0x64);
    v.push(0x4D);
    v.push(0x75);
    v.push(0x6C);
    v.push(0x65);
    assert(v@ =~= padmule_name());
    v
}

/// Build the marker tag. See [`marker`].
pub fn padmule_marker_tag(caps: u32) -> (t: Tag)
    ensures
        t@ == marker(caps),
{
    let value: u32 = (caps % 0x100_0000) * 256 + PADMULE_CHANNEL_VERSION as u32;
    Tag { name: TagName::Str(padmule_name_bytes()), value: TagValue::U32(value) }
}

/// A tag with a number for its name and a 32-bit value.
pub open spec fn tag32(id: u8, v: u32) -> TagView {
    TagView { name: NameView::Id(id), value: ValueView::U32(v) }
}

/// The tags of a hello.
pub open spec fn hello_tags(h: &HelloInfo) -> Seq<TagView> {
    seq![
        TagView { name: NameView::Id(CT_NAME), value: ValueView::Str(encode_utf8(h.nick@)) },
        tag32(CT_VERSION, EDONKEYVERSION),
        tag32(CT_EMULE_UDPPORTS, (h.kad_udp_port * 0x1_0000 + h.udp_port) as u32),
        tag32(CT_EMULE_VERSION, EMULE_VERSION_TAG),
        tag32(CT_EMULE_MISCOPTIONS1, h.misc_options1),
        tag32(CT_EMULE_MISCOPTIONS2, h.misc_options2),
        tag32(CT_EMULECOMPAT_OPTIONS, h.compat_options),
        marker(0),
    ]
}

/// The bytes of a hello: hash, address, port, number of tags, tags, server.
pub open spec fn hello_body(
    user_hash: Seq<u8>,
    client_id: u32,
    tcp_port: u16,
    tags: Seq<TagView>,
    server_ip: u32,
    server_port: u16,
) -> Seq<u8> {
    user_hash + wire::le32(client_id) + wire::le16(tcp_port) + wire::le32(tags.len() as u32)
        + tags::tags_bytes(tags) + wire::le32(server_ip) + wire::le16(server_port)
}

/// The body of a hello of ours.
pub open spec fn hello_bytes(h: &HelloInfo) -> Seq<u8> {
    hello_body(
        h.user_hash@,
        h.client_id,
        h.tcp_port,
        hello_tags(h),
        h.server_ip,
        h.server_port,
    )
}

fn write_hello_body(out: &mut Vec<u8>, h: &HelloInfo)
    requires
        encode_utf8(h.nick@).len() <= 0xFFFF,
    ensures
        final(out)@ == old(out)@ + hello_bytes(h),
{
    let ghost was = out@;
    write_bytes(out, h.user_hash.as_slice());
    write_u32(out, h.client_id);
    write_u16(out, h.tcp_port);
    let udp_ports: u32 = h.kad_udp_port as u32 * 0x1_0000 + h.udp_port as u32;
    let nick: Vec<u8> = vstd::slice::slice_to_vec(h.nick.as_str().as_bytes());
    let mut tags: Vec<Tag> = Vec::new();
    tags.push(Tag::id(CT_NAME, TagValue::Str(nick)));
    tags.push(Tag::id(CT_VERSION, TagValue::U32(EDONKEYVERSION)));
    tags.push(Tag::id(CT_EMULE_UDPPORTS, TagValue::U32(udp_ports)));
    tags.push(Tag::id(CT_EMULE_VERSION, TagValue::U32(EMULE_VERSION_TAG)));
    tags.push(Tag::id(CT_EMULE_MISCOPTIONS1, TagValue::U32(h.misc_options1)));
    tags.push(Tag::id(CT_EMULE_MISCOPTIONS2, TagValue::U32(h.misc_options2)));
    tags.push(Tag::id(CT_EMULECOMPAT_OPTIONS, TagValue::U32(h.compat_options)));
    tags.push(padmule_marker_tag(0));
    write_u32(out, 8);
    assert(nick@ =~= encode_utf8(h.nick@));
    assert(tags::tag_views(tags@) =~= hello_tags(h));
    assert(forall|i: int| 0 <= i < tags@.len() ==> (#[trigger] tags@[i])@ == hello_tags(h)[i]);
    write_tags(out, &tags);
    write_u32(out, h.server_ip);
    write_u16(out, h.server_port);
    assert(out@ =~= was + hello_bytes(h));
}

/// Build the opener's hello: its body is prefixed with the length of the user hash.
pub fn build_hello(h: &HelloInfo) -> (pkt: Packet)
    requires
        encode_utf8(h.nick@).len() <= 0xFFFF,
    ensures
        pkt.protocol == PROT_EDONKEY,
        pkt.opcode == OP_HELLO,
        pkt.payload@ == seq![16u8] + hello_bytes(h),
{
    let mut out: Vec<u8> = Vec::new();
    out.push(16);
    write_hello_body(&mut out, h);
    assert(out@ =~= seq![16u8] + hello_bytes(h));
    Packet::new(PROT_EDONKEY, OP_HELLO, out)
}

/// Build the accepter's reply: the same body, without the prefix.
pub fn build_hello_answer(h: &HelloInfo) -> (pkt: Packet)
    requires
        encode_utf8(h.nick@).len() <= 0xFFFF,
    ensures
        pkt.protocol == PROT_EDONKEY,
        pkt.opcode == OP_HELLOANSWER,
        pkt.payload@ == hello_bytes(h),
{
    let mut out: Vec<u8> = Vec::new();
    write_hello_body(&mut out, h);
    assert(out@ =~= hello_bytes(h));
    Packet::new(PROT_EDONKEY, OP_HELLOANSWER, out)
}

/// A parsed hello or answer.
#[derive(Debug, Clone, PartialEq, Eq)]
pub struct ParsedHello {
    pub user_hash: [u8; 16],
    pub client_id: u32,
    pub tcp_port: u16,
    pub tags: Vec<Tag>,
    pub server_ip: u32,
    pub server_port: u16,
}

/// What a parsed hello holds.
pub struct HelloView {
    pub user_hash: Seq<u8>,
    pub client_id: u32,
    pub tcp_port: u16,
    pub tags: Seq<TagView>,
    pub server_ip: u32,
    pub server_port: u16,
}

impl View for ParsedHello {
    type V = HelloView;

    open spec fn view(&self) -> HelloView {
        HelloView {
            user_hash: self.user_hash@,
            client_id: self.client_id,
            tcp_port: self.tcp_port,
            tags: tags::tag_views(self.tags@),
            server_ip: self.server_ip,
            server_port: self.server_port,
        }
    }
}

/// The body of a hello. Bytes behind it are ignored.
pub open spec fn parse_hello_body(s: Seq<u8>) -> Result<HelloView, IoError> {
    match wire::parse_bytes(s, 16) {
        Err(e) => Err(e),
        Ok((user_hash, s1)) => match wire::parse_u32(s1) {
            Err(e) => Err(e),
            Ok((client_id, s2)) => match wire::parse_u16(s2) {
                Err(e) => Err(e),
                Ok((tcp_port, s3)) => match wire::parse_u32(s3) {
                    Err(e) => Err(e),
                    Ok((n, s4)) => match tags::parse_tags(s4, n as nat) {
                        Err(e) => Err(e),
                        Ok((tags, s5)) => match wire::parse_u32(s5) {
                            Err(e) => Err(e),
                            Ok((server_ip, s6)) => match wire::parse_u16(s6) {
                                Err(e) => Err(e),
                                Ok((server_port, _)) => Ok(
                                    HelloView {
                                        user_hash,
                                        client_id,
                                        tcp_port,
                                        tags,
                                        server_ip,
                                        server_port,
                                    },
                                ),
                            },
                        },
                    },
                },
            },
        },
    }
}

/// A hello, whose first byte is not looked at, or an answer.
pub open spec fn hello_of(s: Seq<u8>, is_hello: bool) -> Result<HelloView, IoError> {
    if is_hello {
        match wire::parse_u8(s) {
            Err(e) => Err(e),
            Ok((_, s1)) => parse_hello_body(s1),
        }
    } else {
        parse_hello_body(s)
    }
}

/// Parse a hello (`is_hello`, which strips the leading length byte) or an answer.
pub fn parse_hello(payload: &[u8], is_hello: bool) -> (r: Result<ParsedHello, IoError>)
    ensures
        match hello_of(payload@, is_hello) {
            Ok(h) => r is Ok && r->Ok_0@ == h,
            Err(e) => r is Err && r->Err_0 == e,
        },
{
    let mut r = Reader::new(payload);
    if is_hello {
        r.read_u8()?;
    }
    let user_hash = r.read_hash16()?;
    let client_id: u32 = r.read_u32()?;
    let tcp_port: u16 = r.read_u16()?;
    let tagcount: u32 = r.read_u32()?;
    let tags = read_tags(&mut r, tagcount)?;
    let server_ip: u32 = r.read_u32()?;
    let server_port: u16 = r.read_u16()?;
    Ok(ParsedHello { user_hash, client_id, tcp_port, tags, server_ip, server_port })
}

/// The number in a tag named `id`, where its value is one of up to 32 bits.
pub open spec fn number_in(t: TagView, id: u8) -> Option<u32> {
    if t.name == NameView::Id(id) {
        match t.value {
            ValueView::U8(v) => Some(v as u32),
            ValueView::U16(v) => Some(v as u32),
            ValueView::U32(v) => Some(v),
            _ => None,
        }
    } else {
        None
    }
}

/// The number in the first tag named `id` that holds one.
pub open spec fn number_of(tags: Seq<TagView>, id: u8) -> Option<u32>
    decreases tags.len(),
{
    if tags.len() == 0 {
        None
    } else if number_in(tags[0], id) is Some {
        number_in(tags[0], id)
    } else {
        number_of(tags.skip(1), id)
    }
}

/// The value of a marker tag.
pub open spec fn marker_in(t: TagView) -> Option<u32> {
    if t.name == NameView::Str(padmule_name()) {
        match t.value {
            ValueView::U32(v) => Some(v),
            _ => None,
        }
    } else {
        None
    }
}

/// The value of the first marker tag.
pub open spec fn marker_of(tags: Seq<TagView>) -> Option<u32>
    decreases tags.len(),
{
    if tags.len() == 0 {
        None
    } else if marker_in(tags[0]) is Some {
        marker_in(tags[0])
    } else {
        marker_of(tags.skip(1))
    }
}

/// Enhancement-channel info, decoded from a peer's marker tag.
#[derive(Debug, Clone, Copy, PartialEq, Eq, Structural)]
pub struct PadMuleInfo {
    /// Channel version, at least 1.
    pub channel_version: u8,
    /// Capability bits; 0 is presence only.
    pub capabilities: u32,
}

/// A peer's decoded capability set.
#[derive(Debug, Clone, Copy, PartialEq, Eq, Structural)]
pub struct Capabilities {
    pub aich: u8,
    pub udp_ver: u8,
    pub data_comp: u8,
    pub sec_ident: u8,
    pub source_exchange: u8,
    pub ext_requests: u8,
    pub large_files: bool,
    pub ext_multipacket: bool,
    pub supports_crypt: bool,
    pub requests_crypt: bool,
    pub requires_crypt: bool,
    pub source_ex2: bool,
    pub kad_version: u8,
}

/// What the two capability words say.
pub open spec fn decode_capabilities(m1: u32, m2: u32) -> Capabilities {
    Capabilities {
        aich: (m1 / 0x2000_0000 % 8) as u8,
        udp_ver: (m1 / 0x100_0000 % 16) as u8,
        data_comp: (m1 / 0x10_0000 % 16) as u8,
        sec_ident: (m1 / 0x1_0000 % 16) as u8,
        source_exchange: (m1 / 0x1000 % 16) as u8,
        ext_requests: (m1 / 0x100 % 16) as u8,
        large_files: m2 / 0x10 % 2 == 1,
        ext_multipacket: m2 / 0x20 % 2 == 1,
        supports_crypt: m2 / 0x80 % 2 == 1,
        requests_crypt: m2 / 0x100 % 2 == 1,
        requires_crypt: m2 / 0x200 % 2 == 1,
        source_ex2: m2 / 0x400 % 2 == 1,
        kad_version: (m2 % 16) as u8,
    }
}

/// The client that a compatible-client number names.
pub open spec fn client_name(id: int) -> Seq<char> {
    if id == 0 {
        "eMule"@
    } else if id == 1 {
        "cDonkey"@
    } else if id == 2 {
        "xMule"@
    } else if id == 3 {
        "aMule"@
    } else if id == 4 {
        "Shareaza"@
    } else if id == 10 {
        "MLDonkey"@
    } else if id == 20 {
        "lphant"@
    } else {
        "eMule-compatible"@
    }
}

/// The client and version that a version tag names: the client in the high byte, then
/// seven bits of major, seven of minor and three of patch version.
pub open spec fn software_of(v: u32) -> Seq<char> {
    client_name(v as int / 0x100_0000) + seq![' '] + text::decimal((v as nat / 0x2_0000) % 128)
        + seq!['.'] + text::decimal((v as nat / 0x400) % 128) + seq!['.'] + text::decimal(
        (v as nat / 0x80) % 8,
    )
}

impl ParsedHello {
    /// The number in the first tag named `id` that holds one.
    pub fn tag_u32(&self, id: u8) -> (v: Option<u32>)
        ensures
            v == number_of(self@.tags, id),
    {
        find_number(&self.tags, id)
    }

    /// If this peer is a padMule client, its enhancement-channel info. A marker with channel
    /// version 0 is malformed, and does not count.
    pub fn padmule(&self) -> (info: Option<PadMuleInfo>)
        ensures
            info == (match marker_of(self@.tags) {
                Some(v) if v % 256 != 0 => Some(
                    PadMuleInfo { channel_version: (v % 256) as u8, capabilities: v / 256 },
                ),
                _ => None,
            }),
    {
        let ghost tags = self@.tags;
        let name = padmule_name_bytes();
        let mut i: usize = 0;
        assert(tags.skip(0) =~= tags);
        while i < self.tags.len()
            invariant
                i <= self.tags@.len(),
                tags == self@.tags,
                name@ == padmule_name(),
                marker_of(tags.skip(i as int)) == marker_of(tags),
            decreases self.tags@.len() - i,
        {
            let t = &self.tags[i];
            assert(tags.skip(i as int)[0] == t@);
            assert(tags.skip(i as int).skip(1) =~= tags.skip(i + 1));
            if let TagName::Str(n) = &t.name {
                if let TagValue::U32(v) = &t.value {
                    if same_bytes(n.as_slice(), name.as_slice()) {
                        let channel: u32 = *v % 256;
                        if channel == 0 {
                            return None;
                        }
                        return Some(
                            PadMuleInfo { channel_version: channel as u8, capabilities: *v / 256 },
                        );
                    }
                }
            }
            i = i + 1;
        }
        None
    }

    /// The peer's capabilities, from its capability words; none without the first.
    pub fn capabilities(&self) -> (caps: Option<Capabilities>)
        ensures
            caps == (match number_of(self@.tags, CT_EMULE_MISCOPTIONS1) {
                Some(m1) => Some(
                    decode_capabilities(
                        m1,
                        match number_of(self@.tags, CT_EMULE_MISCOPTIONS2) {
                            Some(m2) => m2,
                            None => 0,
                        },
                    ),
                ),
                None => None,
            }),
    {
        let m1: u32 = match self.tag_u32(CT_EMULE_MISCOPTIONS1) {
            Some(m) => m,
            None => {
                return None;
            },
        };
        let m2: u32 = match self.tag_u32(CT_EMULE_MISCOPTIONS2) {
            Some(m) => m,
            None => 0,
        };
        Some(
            Capabilities {
                aich: (m1 / 0x2000_0000 % 8) as u8,
                udp_ver: (m1 / 0x100_0000 % 16) as u8,
                data_comp: (m1 / 0x10_0000 % 16) as u8,
                sec_ident: (m1 / 0x1_0000 % 16) as u8,
                source_exchange: (m1 / 0x1000 % 16) as u8,
                ext_requests: (m1 / 0x100 % 16) as u8,
                large_files: m2 / 0x10 % 2 == 1,
                ext_multipacket: m2 / 0x20 % 2 == 1,
                supports_crypt: m2 / 0x80 % 2 == 1,
                requests_crypt: m2 / 0x100 % 2 == 1,
                requires_crypt: m2 / 0x200 % 2 == 1,
                source_ex2: m2 / 0x400 % 2 == 1,
                kad_version: (m2 % 16) as u8,
            },
        )
    }

    /// The peer's client software, for display: a padMule by its marker, another by its
    /// version tag, and a peer without one is a plain eDonkey client.
    pub fn client_software(&self) -> (s: String)
        ensures
            s@ == (match marker_of(self@.tags) {
                Some(v) if v % 256 != 0 => "padMule"@,
                _ => match number_of(self@.tags, CT_EMULE_VERSION) {
                    None => "eDonkey"@,
                    Some(v) => software_of(v),
                },
            }),
    {
        if self.padmule().is_some() {
            return String::from_str("padMule");
        }
        let v: u32 = match self.tag_u32(CT_EMULE_VERSION) {
            Some(v) => v,
            None => {
                return String::from_str("eDonkey");
            },
        };
        let id: u32 = v / 0x100_0000;
        let name: &str = if id == 0 {
            "eMule"
        } else if id == 1 {
            "cDonkey"
        } else if id == 2 {
            "xMule"
        } else if id == 3 {
            "aMule"
        } else if id == 4 {
            "Shareaza"
        } else if id == 10 {
            "MLDonkey"
        } else if id == 20 {
            "lphant"
        } else {
            "eMule-compatible"
        };
        let mut out: Vec<char> = text::chars_of(name);
        out.push(' ');
        push_decimal(&mut out, (v / 0x2_0000 % 128) as u64);
        out.push('.');
        push_decimal(&mut out, (v / 0x400 % 128) as u64);
        out.push('.');
        push_decimal(&mut out, (v / 0x80 % 8) as u64);
        assert(out@ =~= software_of(v));
        string_of(&out)
    }
}

/// The number in the first tag named `id` that holds one.
pub fn find_number(list: &Vec<Tag>, id: u8) -> (v: Option<u32>)
    ensures
        v == number_of(tags::tag_views(list@), id),
{
    let ghost all = tags::tag_views(list@);
    let mut i: usize = 0;
    assert(all.skip(0) =~= all);
    while i < list.len()
        invariant
            i <= list@.len(),
            all == tags::tag_views(list@),
            number_of(all.skip(i as int), id) == number_of(all, id),
        decreases list@.len() - i,
    {
        let t = &list[i];
        assert(all.skip(i as int)[0] == t@);
        assert(all.skip(i as int).skip(1) =~= all.skip(i + 1));
        if t.is_id(id) {
            match &t.value {
                TagValue::U8(v) => {
                    return Some(*v as u32);
                },
                TagValue::U16(v) => {
                    return Some(*v as u32);
                },
                TagValue::U32(v) => {
                    return Some(*v);
                },
                _ => {},
            }
        }
        i = i + 1;
    }
    None
}

/// Whether two byte strings are the same.
pub fn same_bytes(a: &[u8], b: &[u8]) -> (same: bool)
    ensures
        same == (a@ == b@),
{
    if a.len() != b.len() {
        return false;
    }
    let mut i: usize = 0;
    while i < a.len()
        invariant
            i <= a@.len() == b@.len(),
            forall|j: int| 0 <= j < i ==> a@[j] == b@[j],
        decreases a@.len() - i,
    {
        if a[i] != b[i] {
            return false;
        }
        i = i + 1;
    }
    assert(a@ =~= b@);
    true
}

/// What a hello tells its receiver.
pub open spec fn told(h: &HelloInfo) -> HelloView {
    HelloView {
        user_hash: h.user_hash@,
        client_id: h.client_id,
        tcp_port: h.tcp_port,
        tags: hello_tags(h),
        server_ip: h.server_ip,
        server_port: h.server_port,
    }
}

/// A hello that is built is parsed back to what went into it, as a hello and as an answer.
pub proof fn law_hello_round_trip(h: &HelloInfo)
    requires
        encode_utf8(h.nick@).len() <= 0xFFFF,
    ensures
        hello_of(seq![16u8] + hello_bytes(h), true) == Ok::<HelloView, IoError>(told(h)),
        hello_of(hello_bytes(h), false) == Ok::<HelloView, IoError>(told(h)),
{
    lemma_hello_tags_ok(h);
    lemma_hello_body_round_trip(
        h.user_hash@,
        h.client_id,
        h.tcp_port,
        hello_tags(h),
        h.server_ip,
        h.server_port,
    );
    assert((seq![16u8] + hello_bytes(h)).skip(1) =~= hello_bytes(h));
}

proof fn lemma_hello_tags_ok(h: &HelloInfo)
    requires
        encode_utf8(h.nick@).len() <= 0xFFFF,
    ensures
        hello_tags(h).len() == 8,
        forall|i: int| 0 <= i < hello_tags(h).len() ==> tags::tag_ok(#[trigger] hello_tags(h)[i]),
{
}

proof fn lemma_hello_body_round_trip(
    user_hash: Seq<u8>,
    client_id: u32,
    tcp_port: u16,
    tags: Seq<TagView>,
    server_ip: u32,
    server_port: u16,
)
    requires
        user_hash.len() == 16,
        tags.len() <= 0xFFFF_FFFF,
        forall|i: int| 0 <= i < tags.len() ==> tags::tag_ok(#[trigger] tags[i]),
    ensures
        parse_hello_body(
            hello_body(user_hash, client_id, tcp_port, tags, server_ip, server_port),
        ) == Ok::<HelloView, IoError>(
            HelloView { user_hash, client_id, tcp_port, tags, server_ip, server_port },
        ),
{
    let none = Seq::<u8>::empty();
    let s6 = wire::le16(server_port) + none;
    let s5 = wire::le32(server_ip) + s6;
    let s4 = tags::tags_bytes(tags) + s5;
    let s3 = wire::le32(tags.len() as u32) + s4;
    let s2 = wire::le16(tcp_port) + s3;
    let s1 = wire::le32(client_id) + s2;
    let s = hello_body(user_hash, client_id, tcp_port, tags, server_ip, server_port);
    assert(s =~= user_hash + s1);
    wire::lemma_bytes_round_trip(user_hash, s1, 16);
    wire::lemma_u32_round_trip(client_id, s2);
    wire::lemma_u16_round_trip(tcp_port, s3);
    wire::lemma_u32_round_trip(tags.len() as u32, s4);
    tags::law_tags_round_trip(tags, s5);
    wire::lemma_u32_round_trip(server_ip, s6);
    wire::lemma_u16_round_trip(server_port, none);
}

/// Our own hello is recognised by its marker, whatever else it says, and its capability
/// words come through.
pub proof fn law_own_hello_is_recognised(h: &HelloInfo)
    ensures
        marker_of(hello_tags(h)) == Some(PADMULE_CHANNEL_VERSION as u32),
        number_of(hello_tags(h), CT_EMULE_MISCOPTIONS1) == Some(h.misc_options1),
        number_of(hello_tags(h), CT_EMULE_MISCOPTIONS2) == Some(h.misc_options2),
        number_of(hello_tags(h), CT_EMULE_UDPPORTS) == Some(
            (h.kad_udp_port * 0x1_0000 + h.udp_port) as u32,
        ),
{
    let tags = hello_tags(h);
    reveal_with_fuel(marker_of, 9);
    reveal_with_fuel(number_of, 9);
    assert(tags.skip(1).skip(1) =~= tags.skip(2));
    assert(tags.skip(2).skip(1) =~= tags.skip(3));
    assert(tags.skip(3).skip(1) =~= tags.skip(4));
    assert(tags.skip(4).skip(1) =~= tags.skip(5));
    assert(tags.skip(5).skip(1) =~= tags.skip(6));
    assert(tags.skip(6).skip(1) =~= tags.skip(7));
}

/// The capability words say each thing in its place: words that are put together from their fields
/// are taken apart into the same fields.
pub proof fn law_capabilities_are_read_back(c: Capabilities, unicode: bool, low: u32, high: u32)
    requires
        c.aich < 8,
        c.udp_ver < 16,
        c.data_comp < 16,
        c.sec_ident < 16,
        c.source_exchange < 16,
        c.ext_requests < 16,
        c.kad_version < 16,
        low < 0x100,
        high < 0x10_0000,
    ensures
        ({
            let m1 = 0x2000_0000 * c.aich + 0x1000_0000 * flag(unicode) + 0x100_0000 * c.udp_ver
                + 0x10_0000 * c.data_comp + 0x1_0000 * c.sec_ident + 0x1000 * c.source_exchange
                + 0x100 * c.ext_requests + low;
            let m2 = 0x800 * high + 0x400 * flag(c.source_ex2) + 0x200 * flag(c.requires_crypt)
                + 0x100 * flag(c.requests_crypt) + 0x80 * flag(c.supports_crypt) + 0x20 * flag(
                c.ext_multipacket,
            ) + 0x10 * flag(c.large_files) + c.kad_version;
            0 <= m1 <= u32::MAX && 0 <= m2 <= u32::MAX && decode_capabilities(m1 as u32, m2 as u32)
                == c
        }),
{
    let (u, a) = (flag(unicode), c.aich as int);
    let (v, d, x) = (c.udp_ver as int, c.data_comp as int, c.sec_ident as int);
    let (e, r) = (c.source_exchange as int, c.ext_requests as int);
    let f1 = 16 * (16 * (16 * (16 * (16 * (2 * a + u) + v) + d) + x) + e) + r;
    let m1 = 256 * f1 + low;
    assert(m1 == 0x2000_0000 * c.aich + 0x1000_0000 * u + 0x100_0000 * c.udp_ver + 0x10_0000
        * c.data_comp + 0x1_0000 * c.sec_ident + 0x1000 * c.source_exchange + 0x100 * c.ext_requests
        + low);
    lemma_first_word(a, u, v, d, x, e, r, low as int);
    let m2 = 0x800 * high + 0x400 * flag(c.source_ex2) + 0x200 * flag(c.requires_crypt) + 0x100
        * flag(c.requests_crypt) + 0x80 * flag(c.supports_crypt) + 0x20 * flag(c.ext_multipacket)
        + 0x10 * flag(c.large_files) + c.kad_version;
    lemma_second_word(
        high as int,
        flag(c.source_ex2),
        flag(c.requires_crypt),
        flag(c.requests_crypt),
        flag(c.supports_crypt),
        flag(c.ext_multipacket),
        flag(c.large_files),
        c.kad_version as int,
    );
}

proof fn lemma_first_word(
    a: int,
    u: int,
    v: int,
    d: int,
    x: int,
    e: int,
    r: int,
    low: int,
)
    requires
        0 <= a < 8,
        0 <= u < 2,
        0 <= v < 16,
        0 <= d < 16,
        0 <= x < 16,
        0 <= e < 16,
        0 <= r < 16,
        0 <= low < 256,
    ensures
        ({
            let m = 256 * (16 * (16 * (16 * (16 * (16 * (2 * a + u) + v) + d) + x) + e) + r) + low;
            &&& 0 <= m <= u32::MAX
            &&& m / 0x2000_0000 % 8 == a
            &&& m / 0x100_0000 % 16 == v
            &&& m / 0x10_0000 % 16 == d
            &&& m / 0x1_0000 % 16 == x
            &&& m / 0x1000 % 16 == e
            &&& m / 0x100 % 16 == r
        }),
{
    let n6 = 2 * a + u;
    let n5 = 16 * n6 + v;
    let n4 = 16 * n5 + d;
    let n3 = 16 * n4 + x;
    let n2 = 16 * n3 + e;
    let n1 = 16 * n2 + r;
    let m = 256 * n1 + low;
    lemma_fundamental_div_mod_converse(m, 0x100, n1, low);
    lemma_fundamental_div_mod_converse(n1, 16, n2, r);
    lemma_fundamental_div_mod_converse(m, 0x1000, n2, 0x100 * r + low);
    lemma_fundamental_div_mod_converse(n2, 16, n3, e);
    lemma_fundamental_div_mod_converse(m, 0x1_0000, n3, 0x1000 * e + 0x100 * r + low);
    lemma_fundamental_div_mod_converse(n3, 16, n4, x);
    let r4 = 0x1_0000 * x + 0x1000 * e + 0x100 * r + low;
    lemma_fundamental_div_mod_converse(m, 0x10_0000, n4, r4);
    lemma_fundamental_div_mod_converse(n4, 16, n5, d);
    let r5 = 0x10_0000 * d + r4;
    lemma_fundamental_div_mod_converse(m, 0x100_0000, n5, r5);
    lemma_fundamental_div_mod_converse(n5, 16, n6, v);
    let r6 = 0x100_0000 * v + r5;
    lemma_fundamental_div_mod_converse(m, 0x2000_0000, a, 0x1000_0000 * u + r6);
}

proof fn lemma_second_word(
    high: int,
    sx: int,
    req: int,
    ask: int,
    sup: int,
    multi: int,
    large: int,
    kad: int,
)
    requires
        0 <= high < 0x10_0000,
        0 <= sx < 2,
        0 <= req < 2,
        0 <= ask < 2,
        0 <= sup < 2,
        0 <= multi < 2,
        0 <= large < 2,
        0 <= kad < 16,
    ensures
        ({
            let m = 0x800 * high + 0x400 * sx + 0x200 * req + 0x100 * ask + 0x80 * sup + 0x20
                * multi + 0x10 * large + kad;
            &&& 0 <= m <= u32::MAX
            &&& m % 16 == kad
            &&& m / 0x10 % 2 == large
            &&& m / 0x20 % 2 == multi
            &&& m / 0x80 % 2 == sup
            &&& m / 0x100 % 2 == ask
            &&& m / 0x200 % 2 == req
            &&& m / 0x400 % 2 == sx
        }),
{
    let n6 = 2 * high + sx;
    let n5 = 2 * n6 + req;
    let n4 = 2 * n5 + ask;
    let n3 = 2 * n4 + sup;
    let n2 = 4 * n3 + multi;
    let n1 = 2 * n2 + large;
    let m = 16 * n1 + kad;
    lemma_fundamental_div_mod_converse(m, 16, n1, kad);
    lemma_fundamental_div_mod_converse(n1, 2, n2, large);
    lemma_fundamental_div_mod_converse(m, 0x20, n2, 0x10 * large + kad);
    lemma_fundamental_div_mod_converse(n2, 2, 2 * n3, multi);
    let r3 = 0x20 * multi + 0x10 * large + kad;
    lemma_fundamental_div_mod_converse(m, 0x80, n3, r3);
    lemma_fundamental_div_mod_converse(n3, 2, n4, sup);
    lemma_fundamental_div_mod_converse(m, 0x100, n4, 0x80 * sup + r3);
    lemma_fundamental_div_mod_converse(n4, 2, n5, ask);
    lemma_fundamental_div_mod_converse(m, 0x200, n5, 0x100 * ask + 0x80 * sup + r3);
    lemma_fundamental_div_mod_converse(n5, 2, n6, req);
    let r6 = 0x200 * req + 0x100 * ask + 0x80 * sup + r3;
    lemma_fundamental_div_mod_converse(m, 0x400, n6, r6);
    lemma_fundamental_div_mod_converse(n6, 2, high, sx);
}

/// One for a flag that is set.
pub open spec fn flag(b: bool) -> int {
    if b {
        1
    } else {
        0
    }
}

/// The version tag says each thing in its place: the client, and the three numbers of its version.
pub proof fn law_a_version_is_read_back(client: u8, major: u8, minor: u8, patch: u8, low: u8)
    requires
        major < 128,
        minor < 128,
        patch < 8,
        low < 128,
    ensures
        software_of(
            (0x100_0000 * client + 0x2_0000 * major + 0x400 * minor + 0x80 * patch + low) as u32,
        ) == client_name(client as int) + seq![' '] + text::decimal(major as nat) + seq!['.']
            + text::decimal(minor as nat) + seq!['.'] + text::decimal(patch as nat),
{
    lemma_version_word(client as int, major as int, minor as int, patch as int, low as int);
}

proof fn lemma_version_word(client: int, major: int, minor: int, patch: int, low: int)
    requires
        0 <= client < 256,
        0 <= major < 128,
        0 <= minor < 128,
        0 <= patch < 8,
        0 <= low < 128,
    ensures
        ({
            let v = 0x100_0000 * client + 0x2_0000 * major + 0x400 * minor + 0x80 * patch + low;
            &&& 0 <= v <= u32::MAX
            &&& v / 0x100_0000 == client
            &&& v / 0x2_0000 % 128 == major
            &&& v / 0x400 % 128 == minor
            &&& v / 0x80 % 8 == patch
        }),
{
    let v = 0x100_0000 * client + 0x2_0000 * major + 0x400 * minor + 0x80 * patch + low;
    let n3 = 128 * client + major;
    let n2 = 128 * n3 + minor;
    let n1 = 8 * n2 + patch;
    lemma_fundamental_div_mod_converse(v, 0x80, n1, low);
    lemma_fundamental_div_mod_converse(n1, 8, n2, patch);
    lemma_fundamental_div_mod_converse(v, 0x400, n2, 0x80 * patch + low);
    lemma_fundamental_div_mod_converse(n2, 128, n3, minor);
    let r3 = 0x400 * minor + 0x80 * patch + low;
    lemma_fundamental_div_mod_converse(v, 0x2_0000, n3, r3);
    lemma_fundamental_div_mod_converse(n3, 128, client, major);
    lemma_fundamental_div_mod_converse(v, 0x100_0000, client, 0x2_0000 * major + r3);
}

/// The first tag of a number that holds a number is the one that counts, wherever it stands.
pub proof fn law_the_first_number_counts(tags: Seq<TagView>, id: u8, k: int)
    requires
        0 <= k < tags.len(),
        tags[k].name == NameView::Id(id),
        tags[k].value is U8 || tags[k].value is U16 || tags[k].value is U32,
        forall|j: int|
            0 <= j < k ==> (#[trigger] tags[j]).name != NameView::Id(id) || !(tags[j].value is U8
                || tags[j].value is U16 || tags[j].value is U32),
    ensures
        number_of(tags, id) is Some,
        tags[k].value matches ValueView::U8(v) ==> number_of(tags, id) == Some(v as u32),
        tags[k].value matches ValueView::U16(v) ==> number_of(tags, id) == Some(v as u32),
        tags[k].value matches ValueView::U32(v) ==> number_of(tags, id) == Some(v),
    decreases k,
{
    if k > 0 {
        let rest = tags.skip(1);
        assert(rest[k - 1] == tags[k]);
        assert(tags[0].name != NameView::Id(id) || !(tags[0].value is U8 || tags[0].value is U16
            || tags[0].value is U32));
        assert forall|j: int| 0 <= j < k - 1 implies (#[trigger] rest[j]).name != NameView::Id(id)
            || !(rest[j].value is U8 || rest[j].value is U16 || rest[j].value is U32) by {
            assert(rest[j] == tags[j + 1]);
        }
        law_the_first_number_counts(rest, id, k - 1);
    }
}

} // verus!
