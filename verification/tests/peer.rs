use mule_engine::peer::{
    baseline_misc_options1, baseline_misc_options2, build_hello, build_hello_answer,
    padmule_marker_tag, parse_hello, HelloInfo, ParsedHello, COMPAT_OPTIONS_BASELINE,
    CT_EMULE_MISCOPTIONS1, CT_EMULE_UDPPORTS, CT_EMULE_VERSION, CT_NAME, KADEMLIA_VERSION,
    OP_HELLO, OP_HELLOANSWER, PADMULE_CHANNEL_VERSION,
};
use mule_engine::tags::{Tag, TagName, TagValue};

const PADMULE_HELLO_TAG: &[u8] = b"padMule";

fn sample() -> HelloInfo {
    HelloInfo::baseline([0x33; 16], 0x0A00_0001, 4662, 4672, "padMule")
}

#[test]
fn baseline_misc_options_match_amule() {
    assert_eq!(baseline_misc_options1(0), 0x3410_3212);
    assert_eq!(baseline_misc_options1(3), 0x3413_3212);
    assert_eq!(baseline_misc_options2(0, 0, 0, KADEMLIA_VERSION), 0x438);
    assert_eq!(COMPAT_OPTIONS_BASELINE, 1);
}

#[test]
fn hello_has_length_prefix_answer_does_not() {
    let h = sample();
    let hello = build_hello(&h);
    let answer = build_hello_answer(&h);
    assert_eq!(hello.opcode, OP_HELLO);
    assert_eq!(hello.payload[0], 16);
    assert_eq!(answer.opcode, OP_HELLOANSWER);
    assert_eq!(&hello.payload[1..], &answer.payload[..]);
}

#[test]
fn hello_round_trips_and_decodes_capabilities() {
    let h = sample();
    let pkt = build_hello(&h);
    let parsed = parse_hello(&pkt.payload, true).unwrap();
    assert_eq!(parsed.user_hash, h.user_hash);
    assert_eq!(parsed.client_id, h.client_id);
    assert_eq!(parsed.tcp_port, h.tcp_port);
    assert_eq!(parsed.server_ip, 0);
    assert_eq!(parsed.server_port, 0);

    let caps = parsed.capabilities().unwrap();
    assert_eq!(caps.udp_ver, 4);
    assert_eq!(caps.data_comp, 1);
    assert_eq!(caps.sec_ident, 0);
    assert_eq!(caps.source_exchange, 3);
    assert_eq!(caps.ext_requests, 2);
    assert_eq!(caps.aich, 1);
    assert!(caps.large_files);
    assert!(caps.source_ex2);
    assert!(!caps.supports_crypt);
    assert_eq!(caps.kad_version, KADEMLIA_VERSION as u8);
}

#[test]
fn hello_answer_round_trips() {
    let h = sample();
    let pkt = build_hello_answer(&h);
    let parsed = parse_hello(&pkt.payload, false).unwrap();
    assert_eq!(parsed.user_hash, h.user_hash);
    assert_eq!(parsed.tcp_port, h.tcp_port);
}

#[test]
fn udp_ports_tag_packs_kad_and_client_ports() {
    let mut h = sample();
    h.kad_udp_port = 0x1234;
    h.udp_port = 0x5678;
    let pkt = build_hello(&h);
    let parsed = parse_hello(&pkt.payload, true).unwrap();
    let udp = parsed.tag_u32(CT_EMULE_UDPPORTS).unwrap();
    assert_eq!(udp, 0x1234_5678);
}

#[test]
fn padmule_marker_round_trips_and_is_detected() {
    let pkt = build_hello(&sample());
    let parsed = parse_hello(&pkt.payload, true).unwrap();
    let pm = parsed.padmule().expect("our own hello must be detected");
    assert_eq!(pm.channel_version, PADMULE_CHANNEL_VERSION);
    assert_eq!(pm.capabilities, 0, "no enhancement advertised yet");
    assert!(parsed.capabilities().is_some());
    assert_eq!(parsed.server_ip, 0);
    assert_eq!(parsed.server_port, 0);
}

#[test]
fn marker_is_a_string_named_uint32_the_provably_ignored_shape() {
    let pkt = build_hello(&sample());
    let parsed = parse_hello(&pkt.payload, true).unwrap();
    let marker = parsed
        .tags
        .iter()
        .find(|t| matches!(&t.name, TagName::Str(n) if n.as_slice() == PADMULE_HELLO_TAG))
        .expect("marker present");
    assert!(
        matches!(marker.value, TagValue::U32(_)),
        "marker must be a standard UINT32, never a custom type"
    );
}

#[test]
fn client_software_decodes_the_version_tag() {
    let hello = |tags: Vec<Tag>| ParsedHello {
        user_hash: [0; 16],
        client_id: 0,
        tcp_port: 0,
        tags,
        server_ip: 0,
        server_port: 0,
    };
    assert_eq!(
        hello(vec![Tag::id(CT_EMULE_VERSION, TagValue::U32(0x0306_0080))]).client_software(),
        "aMule 3.0.1"
    );
    let emule = 0x0032_0100;
    assert!(hello(vec![Tag::id(CT_EMULE_VERSION, TagValue::U32(emule))])
        .client_software()
        .starts_with("eMule "));
    assert_eq!(
        hello(vec![Tag::id(CT_NAME, TagValue::Str(b"x".to_vec()))]).client_software(),
        "eDonkey"
    );
    assert_eq!(
        hello(vec![padmule_marker_tag(0x0000_0001)]).client_software(),
        "padMule"
    );
}

#[test]
fn stock_hello_is_not_detected_as_padmule() {
    let stock = ParsedHello {
        user_hash: [0; 16],
        client_id: 0,
        tcp_port: 0,
        tags: vec![
            Tag::id(CT_NAME, TagValue::Str(b"eMule".to_vec())),
            Tag::id(CT_EMULE_MISCOPTIONS1, TagValue::U32(0x3410_3212)),
        ],
        server_ip: 0,
        server_port: 0,
    };
    assert!(stock.padmule().is_none());
}

#[test]
fn marker_encodes_version_and_capabilities() {
    let parsed = ParsedHello {
        user_hash: [0; 16],
        client_id: 0,
        tcp_port: 0,
        tags: vec![padmule_marker_tag(0x00AB_CDEF)],
        server_ip: 0,
        server_port: 0,
    };
    let pm = parsed.padmule().unwrap();
    assert_eq!(pm.channel_version, PADMULE_CHANNEL_VERSION);
    assert_eq!(pm.capabilities, 0x00AB_CDEF);
}
