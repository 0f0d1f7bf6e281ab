use mule_engine::obf_handshake::{
    build_reply, check_reply, check_request, obf_detect, ObfDetect, MAGICVALUE_SYNC,
};
use mule_engine::peer::{build_hello, build_hello_answer, HelloInfo};
use mule_engine::peer_conn::{is_packed, peer_handshake_inbound, peer_handshake_outbound};
use mule_engine::proto::{read_packet, write_packet, Packet, PROT_EDONKEY, PROT_PACKED};
use mule_engine::wire::IoError;

#[test]
fn two_peers_complete_the_handshake_on_loopback() {
    let bob = HelloInfo::baseline([0xBB; 16], 0, 4662, 4672, "bob");
    let alice = HelloInfo::baseline([0xAA; 16], 0x0A00_0001, 4663, 4673, "alice");
    let alice_seen = peer_handshake_inbound(&build_hello(&alice)).unwrap();
    let bob_seen = peer_handshake_outbound(&build_hello_answer(&bob)).unwrap();

    assert_eq!(alice_seen.user_hash, [0xAA; 16]);
    assert_eq!(alice_seen.tcp_port, 4663);
    assert_eq!(bob_seen.user_hash, [0xBB; 16]);
    assert_eq!(bob_seen.tcp_port, 4662);

    let caps = bob_seen.capabilities().unwrap();
    assert_eq!(caps.udp_ver, 4);
    assert_eq!(caps.data_comp, 1);
    assert!(caps.large_files);
}

#[test]
fn outbound_rejects_a_non_helloanswer_reply() {
    let odd = Packet::new(PROT_EDONKEY, 0x59, vec![]);
    assert!(matches!(
        peer_handshake_outbound(&odd),
        Err(IoError::BadTag(0x59))
    ));
    assert!(matches!(
        peer_handshake_inbound(&odd),
        Err(IoError::BadTag(0x59))
    ));
    let me = HelloInfo::baseline([0x01; 16], 0, 4662, 4672, "me");
    assert!(peer_handshake_outbound(&build_hello(&me)).is_err());
    let mut cut = build_hello_answer(&me);
    cut.payload.truncate(20);
    assert!(matches!(
        peer_handshake_outbound(&cut),
        Err(IoError::UnexpectedEof)
    ));
    assert!(is_packed(&Packet::new(PROT_PACKED, 1, vec![])));
    assert!(!is_packed(&odd));
}

#[test]
fn responder_detects_a_plaintext_peer() {
    for first in [0xE3, 0xC5, 0xD4] {
        assert_eq!(obf_detect(first), ObfDetect::Plaintext { first });
    }
    assert_eq!(obf_detect(0x01), ObfDetect::Obfuscated);

    let plain = Packet::new(PROT_EDONKEY, 0x01, vec![9, 9, 9]);
    let sent = write_packet(&plain);
    let (first, rest) = (sent[0], &sent[1..]);
    match obf_detect(first) {
        ObfDetect::Plaintext { first } => {
            assert_eq!(first, 0xE3);
            let mut again = vec![first];
            again.extend_from_slice(rest);
            let (got, _) = read_packet(&again).unwrap().unwrap();
            assert_eq!(got.opcode, 0x01);
            assert_eq!(got.payload, vec![9, 9, 9]);
        }
        ObfDetect::Obfuscated => panic!("plaintext peer misdetected as obfuscated"),
    }
}

#[test]
fn a_wrong_target_hash_fails_the_sync_check() {
    let reply = build_reply();
    assert_eq!(reply, [0xC4, 0x6F, 0x5E, 0x83, 0, 0]);
    let mut head = [0u8; 6];
    head.copy_from_slice(&reply);
    assert_eq!(check_reply(&head), Ok(0));
    head[5] = 9;
    assert_eq!(check_reply(&head), Ok(9));
    head[0] ^= 1;
    assert_eq!(check_reply(&head), Err(IoError::BadHeader(0xC5)));

    let mut head = [0u8; 7];
    head[..4].copy_from_slice(&MAGICVALUE_SYNC.to_le_bytes());
    head[6] = 3;
    assert_eq!(check_request(&head), Ok(3));
    head[3] = 0;
    assert_eq!(check_request(&head), Err(IoError::BadHeader(0xC4)));
}
