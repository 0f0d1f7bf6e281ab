use md4::{Digest, Md4};
use mule_engine::kad_serve::{
    accept_hello_res_ack, answer_hello, answer_request, AckVerdict, ServeIdentity, MISC_REQUEST_ACK,
};
use mule_engine::kad_wire::{
    build_hello, build_hello_res_ack, build_kad2_req, parse_bootstrap_res, parse_hello,
    parse_kad2_res, write_id, Kad128, WireContact, KAD_FIND_NODE, KAD_FIND_VALUE, KAD_STORE,
    OP_BOOTSTRAP_REQ, OP_BOOTSTRAP_RES, OP_HELLO_RES, OP_KAD2_REQ, OP_KAD2_RES, OP_PING, OP_PONG,
    OP_SEARCH_KEY_REQ, OP_SEARCH_SOURCE_REQ,
};

fn search_key_req(word: &str) -> Vec<u8> {
    let hash: [u8; 16] = Md4::digest(word.as_bytes()).into();
    let mut out = Vec::new();
    write_id(&mut out, Kad128::from_hash(&hash));
    out.extend_from_slice(&0u16.to_le_bytes());
    out
}

fn search_source_req(file: Kad128, size: u64) -> Vec<u8> {
    let mut out = Vec::new();
    write_id(&mut out, file);
    out.extend_from_slice(&0u16.to_le_bytes());
    out.extend_from_slice(&size.to_le_bytes());
    out
}

fn me() -> ServeIdentity {
    ServeIdentity {
        kad_id: Kad128::from_hash(&[0x01; 16]),
        tcp_port: 4662,
        advertised_udp_port: 4672,
    }
}

fn no_contacts(_: &Kad128, _: usize) -> Vec<WireContact> {
    Vec::new()
}

#[test]
fn a_find_answers_from_the_serve_pool_and_a_bootstrap_from_its_own() {
    let target = Kad128::from_hash(&[7; 16]);
    let req = build_kad2_req(KAD_FIND_NODE, target, me().kad_id);

    let a = answer_request(
        OP_KAD2_REQ,
        &req,
        5000,
        &me(),
        false,
        |_, _| vec![contact(1, 0x0A00_0001)],
        |_, _| panic!("a FIND must not draw from the bootstrap pool"),
    )
    .expect("a find must be answered");
    assert_eq!(a.opcode, OP_KAD2_RES);

    let b = answer_request(
        OP_BOOTSTRAP_REQ,
        &[],
        5000,
        &me(),
        false,
        |_, _| panic!("a BOOTSTRAP must not draw from the narrow serve pool"),
        |_, _| vec![contact(2, 0x0A00_0002)],
    )
    .expect("a bootstrap must be answered");
    assert_eq!(b.opcode, OP_BOOTSTRAP_RES);
}

#[test]
fn a_ping_is_answered_with_the_requesters_port() {
    let a = answer_request(OP_PING, &[], 5000, &me(), false, no_contacts, no_contacts)
        .expect("a ping must be answered");
    assert_eq!(a.opcode, OP_PONG);
    assert_eq!(a.payload, vec![0x88, 0x13]);
}

#[test]
fn an_unserved_opcode_is_silently_ignored() {
    assert!(answer_request(0x43, &[], 5000, &me(), false, no_contacts, no_contacts).is_none());
}

fn contact(seed: u8, ip: u32) -> WireContact {
    WireContact {
        id: Kad128::from_hash(&[seed; 16]),
        ip,
        udp_port: 4672,
        tcp_port: 4662,
        version: 8,
    }
}

fn hello_req() -> Vec<u8> {
    let peer = Kad128::from_hash(&[0x55; 16]);
    build_hello(peer, 4662, Some(4672), None)
}

#[test]
fn the_ack_is_requested_only_when_the_senders_ip_is_not_yet_proven() {
    let unproven = answer_hello(&hello_req(), &me(), false).unwrap();
    assert!(unproven.request_ack, "an unverified sender must be asked");
    assert_eq!(
        parse_hello(&unproven.payload).unwrap().misc_options,
        Some(MISC_REQUEST_ACK),
        "the ask must be ON THE WIRE, not just on the struct"
    );

    let proven = answer_hello(&hello_req(), &me(), true).unwrap();
    assert!(
        !proven.request_ack,
        "a sender that already proved its IP must not be asked again"
    );
    assert_ne!(
        parse_hello(&proven.payload).unwrap().misc_options,
        Some(MISC_REQUEST_ACK)
    );
}

#[test]
fn the_hello_response_advertises_our_reachable_port() {
    let mut id = me();
    id.advertised_udp_port = 5999;
    let a = answer_hello(&hello_req(), &id, false).unwrap();
    assert_eq!(a.opcode, OP_HELLO_RES);
    let parsed = parse_hello(&a.payload).unwrap();
    assert_eq!(parsed.id, id.kad_id);
    assert_eq!(parsed.source_udp_port, Some(5999));
}

#[test]
fn a_malformed_hello_is_not_answered() {
    assert!(answer_hello(&[0u8; 4], &me(), false).is_none());
}

#[test]
fn find_node_is_answered_and_capped_at_the_requested_count() {
    let target = Kad128::from_hash(&[0x33; 16]);
    let req = build_kad2_req(KAD_FIND_NODE, target, me().kad_id);
    let pool: Vec<WireContact> = (1..=20)
        .map(|i| contact(i, 0x0A00_0000 + i as u32))
        .collect();

    let a = answer_request(
        OP_KAD2_REQ,
        &req,
        5000,
        &me(),
        false,
        |t, _want| {
            assert_eq!(
                *t, target,
                "the table must be asked for the REQUESTED target"
            );
            pool.clone()
        },
        no_contacts,
    )
    .expect("a find_node must be answered");

    assert_eq!(a.opcode, OP_KAD2_RES);
    let res = parse_kad2_res(&a.payload).unwrap();
    assert_eq!(res.target, target);
    assert_eq!(
        res.contacts.len(),
        11,
        "20 contacts offered, 11 is eMule's requested count, got {}",
        res.contacts.len()
    );
}

#[test]
fn a_value_lookup_is_answered_with_the_two_contacts_it_asked_for() {
    let target = Kad128::from_hash(&[0x44; 16]);
    let req = build_kad2_req(KAD_FIND_VALUE, target, me().kad_id);
    let pool: Vec<WireContact> = (1..=20)
        .map(|i| contact(i, 0x0A00_0000 + i as u32))
        .collect();

    let a = answer_request(
        OP_KAD2_REQ,
        &req,
        5000,
        &me(),
        false,
        |_, _want| pool.clone(),
        no_contacts,
    )
    .expect("a value lookup must be answered");

    let res = parse_kad2_res(&a.payload).unwrap();
    assert_eq!(
        res.contacts.len(),
        2,
        "KAD_FIND_VALUE asks for 2; eMule discards a longer answer wholesale, got {}",
        res.contacts.len()
    );
}

#[test]
fn a_store_lookup_is_answered_with_the_four_contacts_it_asked_for() {
    let target = Kad128::from_hash(&[0x55; 16]);
    let req = build_kad2_req(KAD_STORE, target, me().kad_id);
    let pool: Vec<WireContact> = (1..=20)
        .map(|i| contact(i, 0x0A00_0000 + i as u32))
        .collect();

    let a = answer_request(
        OP_KAD2_REQ,
        &req,
        5000,
        &me(),
        false,
        |_, _want| pool.clone(),
        no_contacts,
    )
    .expect("a store lookup must be answered");

    let res = parse_kad2_res(&a.payload).unwrap();
    assert_eq!(
        res.contacts.len(),
        4,
        "KAD_STORE asks for 4, got {}",
        res.contacts.len()
    );
}

#[test]
fn a_request_for_more_than_the_cap_is_still_truncated_to_the_cap() {
    let target = Kad128::from_hash(&[0x66; 16]);
    let req = build_kad2_req(0x1F, target, me().kad_id);
    let pool: Vec<WireContact> = (1..=30)
        .map(|i| contact(i, 0x0A00_0000 + i as u32))
        .collect();

    let a = answer_request(
        OP_KAD2_REQ,
        &req,
        5000,
        &me(),
        false,
        |_, _want| pool.clone(),
        no_contacts,
    )
    .expect("an over-large ask is still answered, just capped");

    let res = parse_kad2_res(&a.payload).unwrap();
    assert_eq!(
        res.contacts.len(),
        11,
        "a 31-contact ask must still be cut to our 11 ceiling, got {}",
        res.contacts.len()
    );
}

#[test]
fn a_request_addressed_to_another_node_is_ignored() {
    let target = Kad128::from_hash(&[0x33; 16]);
    let someone_else = Kad128::from_hash(&[0xEE; 16]);
    let req = build_kad2_req(KAD_FIND_NODE, target, someone_else);
    assert!(answer_request(
        OP_KAD2_REQ,
        &req,
        5000,
        &me(),
        false,
        |_, _| vec![contact(1, 1)],
        no_contacts,
    )
    .is_none());
}

#[test]
fn a_malformed_find_node_is_not_answered() {
    assert!(answer_request(
        OP_KAD2_REQ,
        &[0u8; 5],
        5000,
        &me(),
        false,
        no_contacts,
        no_contacts
    )
    .is_none());
}

#[test]
fn bootstrap_is_answered_with_our_details_and_a_capped_contact_list() {
    let pool: Vec<WireContact> = (1..=30)
        .map(|i| contact(i, 0x0A00_0000 + i as u32))
        .collect();
    let a = answer_request(
        OP_BOOTSTRAP_REQ,
        &[],
        5000,
        &me(),
        false,
        no_contacts,
        |_, _want| pool.clone(),
    )
    .expect("bootstrap must be answered");
    assert_eq!(a.opcode, OP_BOOTSTRAP_RES);
    let res = parse_bootstrap_res(&a.payload).unwrap();
    assert_eq!(res.id, me().kad_id);
    assert_eq!(res.tcp_port, 4662);
    assert_eq!(
        res.contacts.len(),
        20,
        "30 contacts offered; the amplification cap is 20, got {}",
        res.contacts.len()
    );
}

#[test]
fn a_search_gets_silence_because_that_is_what_emule_gives() {
    let key_req = search_key_req("minister");
    assert!(
        answer_request(
            OP_SEARCH_KEY_REQ,
            &key_req,
            5000,
            &me(),
            false,
            no_contacts,
            no_contacts
        )
        .is_none(),
        "answering a keyword search would fingerprint padMule"
    );

    let file = Kad128::from_hash(&[0x77; 16]);
    let src_req = search_source_req(file, 9_728_000);
    assert!(answer_request(
        OP_SEARCH_SOURCE_REQ,
        &src_req,
        5000,
        &me(),
        false,
        no_contacts,
        no_contacts
    )
    .is_none());
}

#[test]
fn a_publish_is_ignored_rather_than_falsely_acknowledged() {
    for op in [0x43u8, 0x44, 0x45] {
        assert!(
            answer_request(op, &[0u8; 40], 5000, &me(), false, no_contacts, no_contacts)
                .is_none()
        );
    }
}

fn ack_from(seed: u8) -> Vec<u8> {
    build_hello_res_ack(Kad128::from_hash(&[seed; 16]))
}

#[test]
fn a_solicited_ack_with_a_valid_key_marks_the_sender_verified() {
    let peer = Kad128::from_hash(&[0x55; 16]);
    match accept_hello_res_ack(&ack_from(0x55), true, true) {
        AckVerdict::MarkSenderVerified { sender_id } => assert_eq!(
            sender_id, peer,
            "the verdict must carry the ID parsed from the packet"
        ),
        AckVerdict::Drop => panic!("an ACK that passes every gate must verify the sender"),
    }
}

#[test]
fn an_ack_without_a_valid_receiver_key_is_dropped() {
    assert_eq!(
        accept_hello_res_ack(&ack_from(0x55), true, false),
        AckVerdict::Drop
    );
}

#[test]
fn an_unsolicited_ack_is_dropped() {
    assert_eq!(
        accept_hello_res_ack(&ack_from(0x55), false, true),
        AckVerdict::Drop
    );
}

#[test]
fn a_malformed_ack_is_dropped() {
    assert_eq!(
        accept_hello_res_ack(&ack_from(0x55)[..16], true, true),
        AckVerdict::Drop
    );
    assert_eq!(accept_hello_res_ack(&[], true, true), AckVerdict::Drop);
}
