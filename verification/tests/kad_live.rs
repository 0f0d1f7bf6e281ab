use mule_engine::kad_live::{
    contact_addr, flood_allows, flood_budget, flood_limits, frontier_filter, gated_add_contact,
    ip_u32, is_lan_ip, retain_acceptable, seed_key, AddVerdict, BootstrapAny, Datagram, Demux,
    FloodVerdict, GateFacts, HelloTrack, KadError, KadNode, Pending, TableAction,
};
use mule_engine::kad_serve::AckVerdict;
use mule_engine::kad_wire::{
    build_hello, build_hello_res_ack, build_kad2_req, build_kad2_res, parse_hello,
    parse_hello_res_ack, parse_kad2_res, BootstrapRes, Kad128, KadHello, WireContact, KAD_FIND_NODE, OP_BOOTSTRAP_REQ,
    OP_BOOTSTRAP_RES, OP_HELLO_REQ, OP_HELLO_RES, OP_HELLO_RES_ACK, OP_KAD2_REQ, OP_KAD2_RES,
    OP_PING, OP_PONG,
};
use mule_engine::net::{IpAddr, SocketAddr};
use mule_engine::wire::IoError;

fn v4(a: u8, b: u8, c: u8, d: u8) -> u32 {
    u32::from_be_bytes([a, b, c, d])
}

fn wc(seed: u8, ip: u32) -> WireContact {
    WireContact {
        id: Kad128::from_hash(&[seed; 16]),
        ip,
        udp_port: 4672,
        tcp_port: 4662,
        version: 8,
    }
}

fn node() -> KadNode {
    KadNode::new(Kad128::from_hash(&[0x01; 16]), 4662, 4672, 100)
}

fn datagram(from: SocketAddr, op: u8, payload: Vec<u8>, receiver_vk: u32) -> Datagram {
    Datagram {
        from,
        op,
        payload,
        receiver_vk,
        sender_vk: 0x5555,
    }
}

const OUR_VK: u32 = 0x1111;

fn none(_: &Kad128, _: usize) -> Vec<WireContact> {
    Vec::new()
}

#[test]
fn contact_ip_uses_the_big_endian_view_confirmed_live() {
    let ip: u32 = 0x0506_07FA;
    let addr = contact_addr(ip, 4672);
    assert_eq!(
        addr,
        SocketAddr {
            ip: IpAddr::V4(v4(5, 6, 7, 250)),
            port: 4672
        }
    );
    assert_eq!(ip_u32(&addr), ip);
}

#[test]
fn ip_u32_round_trips_an_arbitrary_v4() {
    let addr = SocketAddr {
        ip: IpAddr::V4(v4(203, 0, 113, 7)),
        port: 1234,
    };
    assert_eq!(contact_addr(ip_u32(&addr), 1234), addr);
    let six = SocketAddr {
        ip: IpAddr::V6(1),
        port: 1,
    };
    assert_eq!(ip_u32(&six), 0);
}

#[test]
fn an_answer_may_name_at_most_two_contacts_per_public_slash24() {
    let kept = frontier_filter(
        v4(198, 51, 100, 1),
        vec![
            wc(1, v4(203, 0, 113, 1)),
            wc(2, v4(203, 0, 113, 2)),
            wc(3, v4(203, 0, 113, 3)),
        ],
    );
    assert_eq!(
        kept.len(),
        2,
        "the third contact in one public /24 must be dropped from the frontier"
    );
}

#[test]
fn the_responders_own_slash24_starts_at_one() {
    let kept = frontier_filter(
        v4(203, 0, 113, 9),
        vec![wc(1, v4(203, 0, 113, 1)), wc(2, v4(203, 0, 113, 2))],
    );
    assert_eq!(kept.len(), 1);
}

#[test]
fn lan_addresses_are_exempt_from_the_subnet_cap() {
    let kept = frontier_filter(
        v4(198, 51, 100, 1),
        vec![wc(1, 0x0A00_0001), wc(2, 0x0A00_0002), wc(3, 0x0A00_0003)],
    );
    assert_eq!(kept.len(), 3);
}

#[test]
fn the_responders_ip_and_duplicate_ips_are_dropped() {
    let kept = frontier_filter(
        v4(198, 51, 100, 1),
        vec![
            wc(1, v4(198, 51, 100, 1)),
            wc(2, v4(203, 0, 113, 5)),
            wc(3, v4(203, 0, 113, 5)),
        ],
    );
    assert_eq!(kept, vec![wc(2, v4(203, 0, 113, 5))]);
}

#[test]
fn lan_is_three_ranges() {
    for ip in [
        v4(10, 0, 0, 0),
        v4(10, 255, 255, 255),
        v4(172, 16, 0, 0),
        v4(172, 31, 255, 255),
        v4(192, 168, 0, 0),
        v4(192, 168, 255, 255),
    ] {
        assert!(is_lan_ip(ip), "{ip:08x}");
    }
    for ip in [
        v4(9, 255, 255, 255),
        v4(11, 0, 0, 0),
        v4(172, 15, 255, 255),
        v4(172, 32, 0, 0),
        v4(192, 167, 0, 1),
        v4(192, 169, 0, 1),
        v4(127, 0, 0, 1),
    ] {
        assert!(!is_lan_ip(ip), "{ip:08x}");
    }
}

#[test]
fn one_answer_feeds_the_table_fully_and_the_frontier_capped() {
    let node = node();
    let responder = wc(0xAA, v4(198, 51, 100, 7));
    let contacts: Vec<WireContact> = (1u8..=4).map(|i| wc(i, v4(203, 0, 113, i))).collect();
    let (actions, frontier) = node.absorb_find_answer(&responder, false, 0, contacts.clone());
    for c in &contacts {
        assert!(
            actions.contains(&TableAction::Add {
                contact: *c,
                verified: false,
                proven_alive: false
            }),
            "the table is offered every contact"
        );
    }
    assert_eq!(
        frontier.len(),
        2,
        "the frontier sees at most 2 of the four (the per-answer /24 rule)"
    );
    assert_eq!(
        retain_acceptable(&frontier, &vec![false, true]),
        vec![contacts[1]]
    );
}

#[test]
fn a_batch_matches_each_reply_to_the_peer_that_sent_it() {
    let mut p = Pending::new();
    let host = v4(127, 0, 0, 1);
    let a = contact_addr(host, 1001);
    let b = contact_addr(host, 1002);
    let sa = p.begin_request(a, 7, OP_KAD2_RES);
    let sb = p.begin_request(b, 7, OP_KAD2_RES);
    assert_eq!(p.take_match(&b, OP_KAD2_RES).unwrap().seq, sb);
    assert_eq!(p.take_match(&b, OP_PONG), None);
    let elsewhere = contact_addr(host, 9999);
    assert_eq!(
        p.take_match(&elsewhere, OP_KAD2_RES).unwrap().seq,
        sa,
        "a reply from another port goes to the first slot of that host"
    );
    assert_eq!(p.take_match(&a, OP_KAD2_RES), None);
}

#[test]
fn a_cancelled_request_batch_withdraws_its_pending_slots() {
    let mut p = Pending::new();
    let dest = contact_addr(v4(127, 0, 0, 1), 1001);
    let other = p.begin_request(dest, 1, OP_PONG);
    let seqs: Vec<u64> = (0..3).map(|_| p.begin_request(dest, 1, OP_PONG)).collect();
    p.withdraw(&seqs);
    assert_eq!(p.slots.len(), 1, "only the other request is left");
    assert_eq!(p.slots[0].seq, other);
    p.withdraw(&seqs);
    assert_eq!(p.slots.len(), 1);
    p.withdraw(&vec![other]);
    assert!(
        p.slots.is_empty(),
        "a cancelled batch must withdraw its pending slots"
    );
}

#[test]
fn request_reports_a_valid_receiver_key_when_the_peer_echoes_our_sender_key() {
    let mut n = node();
    let peer = contact_addr(v4(127, 0, 0, 1), 1001);
    n.pending.begin_request(peer, 0x77, OP_PONG);
    match n.demux(&datagram(peer, OP_PONG, vec![1], 0x77), OUR_VK, 0) {
        Demux::Deliver {
            slot,
            valid_receiver_key,
        } => {
            assert_eq!(slot.seq, 0);
            assert!(valid_receiver_key);
        }
        other => panic!("a reply must be delivered, got {other:?}"),
    }
}

#[test]
fn request_reports_an_invalid_receiver_key_for_a_nodeid_path_forgery() {
    let mut n = node();
    let peer = contact_addr(v4(127, 0, 0, 1), 1001);
    n.pending.begin_request(peer, 0x77, OP_PONG);
    assert!(matches!(
        n.demux(&datagram(peer, OP_PONG, vec![1], 0x78), OUR_VK, 0),
        Demux::Deliver {
            valid_receiver_key: false,
            ..
        }
    ));
}

#[test]
fn an_inbound_request_is_answered_while_a_reply_is_outstanding() {
    let mut n = node();
    let peer = contact_addr(v4(127, 0, 0, 1), 5000);
    n.pending.begin_request(peer, 0x77, OP_KAD2_RES);
    let ping = datagram(peer, OP_PING, Vec::new(), 0);
    assert_eq!(n.demux(&ping, OUR_VK, 0), Demux::Request);
    let served = n.serve(&ping, OUR_VK, FloodVerdict::Allow, false, none, none, 0);
    let answer = served.answer.expect("a ping must be answered");
    assert_eq!(answer.opcode, OP_PONG);
    assert_eq!(answer.payload, vec![0x88, 0x13]);
    assert_eq!(n.pending.slots.len(), 1, "the request still waits");
}

fn facts() -> GateFacts {
    GateFacts {
        acceptable: true,
        blocked: false,
        stored_ip: None,
        same_ip: 0,
        same_subnet: 0,
    }
}

#[test]
fn add_contact_drops_ipfiltered_ranges() {
    let blocked = GateFacts {
        blocked: true,
        ..facts()
    };
    assert_eq!(
        gated_add_contact(&wc(1, 0x0909_0909), &blocked, false),
        AddVerdict::Refuse,
        "blocklisted contact dropped"
    );
    assert_eq!(
        gated_add_contact(&wc(2, 0x0808_0808), &facts(), false),
        AddVerdict::Add,
        "allowed contact kept"
    );
    let unroutable = GateFacts {
        acceptable: false,
        ..facts()
    };
    assert_eq!(
        gated_add_contact(&wc(3, 0x7F00_0001), &unroutable, false),
        AddVerdict::Refuse
    );
}

#[test]
fn add_contact_version_gates_the_port_53_guard() {
    let mut legacy = wc(1, 0x0808_0808);
    legacy.udp_port = 53;
    legacy.version = 5;
    assert_eq!(
        gated_add_contact(&legacy, &facts(), false),
        AddVerdict::Refuse,
        "legacy port-53 contact dropped"
    );
    let mut modern = legacy;
    modern.version = 8;
    assert_eq!(
        gated_add_contact(&modern, &facts(), false),
        AddVerdict::Add,
        "modern port-53 contact kept"
    );
}

#[test]
fn a_known_id_repointed_to_a_full_ip_is_refused() {
    let known = GateFacts {
        stored_ip: Some(0x0808_0808),
        same_ip: 1,
        same_subnet: 2,
        ..facts()
    };
    assert_eq!(
        gated_add_contact(&wc(1, 0x0808_0809), &known, false),
        AddVerdict::Refuse,
        "hijack to a full IP refused"
    );
    assert_eq!(
        gated_add_contact(&wc(1, 0x0808_0808), &known, false),
        AddVerdict::Add,
        "a refresh at its own address is no new contact"
    );
}

#[test]
fn add_contact_enforces_one_id_per_ip() {
    let taken = GateFacts {
        same_ip: 1,
        same_subnet: 1,
        ..facts()
    };
    assert_eq!(
        gated_add_contact(&wc(2, 0x0808_0808), &taken, false),
        AddVerdict::Refuse,
        "second id on the same IP refused"
    );
    let full = GateFacts {
        same_subnet: 10,
        ..facts()
    };
    assert_eq!(
        gated_add_contact(&wc(2, 0x0808_0808), &full, false),
        AddVerdict::Refuse
    );
    let nine = GateFacts {
        same_subnet: 9,
        ..facts()
    };
    assert_eq!(
        gated_add_contact(&wc(2, 0x0808_0808), &nine, false),
        AddVerdict::Add
    );
}

#[test]
fn only_a_proving_signal_renews_a_lease_never_hearsay() {
    let known = GateFacts {
        stored_ip: Some(0x0808_0808),
        same_ip: 1,
        same_subnet: 1,
        ..facts()
    };
    assert_eq!(
        gated_add_contact(&wc(1, 0x0808_0808), &known, true),
        AddVerdict::AddAndRenew
    );
    assert_eq!(
        gated_add_contact(&wc(1, 0x0808_0808), &known, false),
        AddVerdict::Add
    );
    assert_eq!(
        gated_add_contact(&wc(1, 0x0808_0808), &facts(), true),
        AddVerdict::Add,
        "a first sighting is no proof yet"
    );
    let n = node();
    let (actions, _) = n.absorb_find_answer(&wc(1, 5), true, 9, vec![wc(2, 6)]);
    for a in actions {
        assert!(!matches!(
            a,
            TableAction::Add {
                proven_alive: true,
                ..
            }
        ));
    }
}

#[test]
fn an_inbound_hello_stores_the_senders_verify_key_for_the_echo() {
    let mut n = node();
    n.set_public_ip(0x0A00_0001);
    let peer_id = Kad128::from_hash(&[0x42; 16]);
    let from = contact_addr(v4(203, 0, 113, 5), 5005);
    let hello = build_hello(peer_id, 4663, Some(4673), None);
    let d = datagram(from, OP_HELLO_REQ, hello, OUR_VK);
    let served = n.serve(&d, OUR_VK, FloodVerdict::Allow, false, none, none, 0);
    assert_eq!(
        served.actions,
        vec![
            TableAction::Add {
                contact: WireContact {
                    id: peer_id,
                    ip: v4(203, 0, 113, 5),
                    udp_port: 5005,
                    tcp_port: 4663,
                    version: 8
                },
                verified: true,
                proven_alive: true
            },
            TableAction::NoteKey {
                id: peer_id,
                ip: v4(203, 0, 113, 5),
                key: 0x5555,
                our_ip: 0x0A00_0001
            },
        ]
    );
}

fn hello_from(n: &mut KadNode, from: SocketAddr, receiver_vk: u32, now: u64) -> Option<KadHello> {
    let hello = build_hello(Kad128::from_hash(&[0x42; 16]), 4662, None, None);
    let d = datagram(from, OP_HELLO_REQ, hello, receiver_vk);
    let served = n.serve(&d, OUR_VK, FloodVerdict::Allow, false, none, none, now);
    served.answer.map(|a| {
        assert_eq!(a.opcode, OP_HELLO_RES);
        parse_hello(&a.payload).unwrap()
    })
}

#[test]
fn a_solicited_ack_marks_the_sender_verified_in_the_table() {
    let mut n = node();
    let from = contact_addr(v4(203, 0, 113, 5), 5005);
    hello_from(&mut n, from, 0, 1_000).unwrap();
    let sender_id = Kad128::from_hash(&[0x42; 16]);
    let ack = datagram(from, OP_HELLO_RES_ACK, build_hello_res_ack(sender_id), OUR_VK);
    assert_eq!(
        n.demux(&ack, OUR_VK, 180_999),
        Demux::Ack(AckVerdict::MarkSenderVerified { sender_id })
    );
    assert_eq!(
        n.demux(&ack, OUR_VK, 180_999),
        Demux::Ack(AckVerdict::Drop),
        "one solicitation admits one ACK"
    );
    hello_from(&mut n, from, 0, 1_000).unwrap();
    assert_eq!(
        n.demux(&ack, OUR_VK, 181_000),
        Demux::Ack(AckVerdict::Drop),
        "too late"
    );
}

#[test]
fn an_unsolicited_ack_verifies_nothing() {
    let mut n = node();
    let from = contact_addr(v4(203, 0, 113, 5), 5005);
    let ack = datagram(
        from,
        OP_HELLO_RES_ACK,
        build_hello_res_ack(Kad128::from_hash(&[0x42; 16])),
        OUR_VK,
    );
    assert_eq!(n.demux(&ack, OUR_VK, 0), Demux::Ack(AckVerdict::Drop));
}

#[test]
fn a_flood_of_pings_from_one_ip_stops_being_answered() {
    let mut n = node();
    let ping = datagram(contact_addr(1, 5000), OP_PING, Vec::new(), 0);
    assert!(n
        .serve(&ping, OUR_VK, FloodVerdict::Allow, false, none, none, 0)
        .answer
        .is_some());
    for v in [FloodVerdict::Ignore, FloodVerdict::Ban] {
        assert!(n
            .serve(&ping, OUR_VK, v, false, none, none, 0)
            .answer
            .is_none());
    }
    assert_eq!(flood_budget(OP_BOOTSTRAP_REQ), Some(2));
    assert_eq!(flood_budget(OP_HELLO_REQ), Some(3));
    assert_eq!(flood_budget(OP_KAD2_REQ), Some(10));
    assert_eq!(flood_budget(OP_PING), Some(2));
    assert_eq!(flood_budget(OP_HELLO_RES_ACK), None);
    let l = flood_limits(OP_KAD2_REQ).unwrap();
    assert_eq!((l.window_secs, l.allowed, l.ban_at, l.ban_secs), (60, 10, 50, 7200));
    assert!(flood_allows(0x43, FloodVerdict::Ban), "not counted at all");
}

#[test]
fn an_inbound_hello_is_answered_with_config_applied_after_bind() {
    let mut n = node();
    let from = contact_addr(v4(203, 0, 113, 5), 5005);
    assert_eq!(
        hello_from(&mut n, from, 0, 0).unwrap().source_udp_port,
        Some(4672)
    );
    n.set_advertised_udp_port(Some(5999));
    assert_eq!(
        hello_from(&mut n, from, 0, 0).unwrap().source_udp_port,
        Some(5999)
    );
    n.set_advertised_udp_port(Some(0));
    assert_eq!(n.advertised_udp(), 4672);
    n.set_advertised_udp_port(Some(7));
    n.set_advertised_udp_port(None);
    assert_eq!(n.advertised_udp(), 4672);
}

#[test]
fn a_blocklisted_source_is_not_answered_at_all() {
    let mut n = node();
    let hello = build_hello(Kad128::from_hash(&[0x42; 16]), 4662, None, None);
    let d = datagram(contact_addr(9, 9), OP_HELLO_REQ, hello, 0);
    let served = n.serve(&d, OUR_VK, FloodVerdict::Allow, true, none, none, 0);
    assert!(
        served.answer.is_none(),
        "a blocklisted source must get SILENCE, not a HELLO_RES"
    );
    assert!(served.actions.is_empty(), "nor is it remembered");
    let served = n.serve(&d, OUR_VK, FloodVerdict::Allow, false, none, none, 0);
    assert_eq!(
        served.answer.map(|a| a.opcode),
        Some(OP_HELLO_RES),
        "with no filter the identical exchange must still be answered"
    );
    assert_eq!(served.actions.len(), 2);
}

#[test]
fn a_verified_hello_sender_is_not_asked_for_an_ack() {
    let mut n = node();
    let from = contact_addr(v4(203, 0, 113, 5), 5005);
    assert_eq!(
        hello_from(&mut n, from, OUR_VK, 0).unwrap().misc_options,
        None
    );
    assert_eq!(
        hello_from(&mut n, from, OUR_VK + 1, 0).unwrap().misc_options,
        Some(4)
    );
}

#[test]
fn an_inbound_find_is_answered_only_from_contacts_we_proved_ourselves() {
    let mut n = node();
    let target = Kad128::from_hash(&[7; 16]);
    let req = build_kad2_req(KAD_FIND_NODE, target, n.kad_id());
    let d = datagram(contact_addr(9, 9), OP_KAD2_REQ, req, 0);
    let proven = wc(3, v4(203, 0, 113, 9));
    let served = n.serve(
        &d,
        OUR_VK,
        FloodVerdict::Allow,
        false,
        |t: &Kad128, want: usize| {
            assert_eq!(*t, target);
            assert_eq!(want, 11);
            vec![proven]
        },
        |_: &Kad128, _: usize| panic!("not from the wide pool"),
        0,
    );
    let answer = served.answer.unwrap();
    assert_eq!(answer.opcode, OP_KAD2_RES);
    assert_eq!(parse_kad2_res(&answer.payload).unwrap().contacts, vec![proven]);
    assert_eq!(answer.payload, build_kad2_res(target, &vec![proven]));
}

#[test]
fn hello_completes_the_three_way_handshake_with_a_res_ack() {
    let mut n = node();
    n.set_public_ip(77);
    let contact = wc(5, v4(203, 0, 113, 9));
    let res = KadHello {
        id: contact.id,
        tcp_port: 4999,
        version: 9,
        source_udp_port: None,
        misc_options: Some(0x04),
    };
    let req = parse_hello(&n.hello_request()).unwrap();
    assert_eq!((req.id, req.tcp_port), (n.kad_id(), 4662));
    assert_eq!(req.source_udp_port, Some(4672));
    assert!(
        req.misc_options.is_none(),
        "our HELLO_REQ must not set the responder's 0x04 ack-request bit"
    );
    let (actions, ack) = n.hello(&contact, &res, true, 0xABCD_1234);
    let ack = ack.expect("we complete the handshake with a HELLO_RES_ACK");
    assert_eq!(parse_hello_res_ack(&ack.payload), Ok(n.kad_id()));
    assert_eq!(
        ack.receiver_vk, 0xABCD_1234,
        "the ACK echoes the peer's issued sender key"
    );
    let mut told = contact;
    told.tcp_port = 4999;
    told.version = 9;
    assert_eq!(
        actions,
        vec![
            TableAction::Add {
                contact: told,
                verified: true,
                proven_alive: true
            },
            TableAction::NoteKey {
                id: contact.id,
                ip: contact.ip,
                key: 0xABCD_1234,
                our_ip: 77
            },
        ]
    );
}

#[test]
fn hello_sends_no_ack_when_the_res_does_not_request_one() {
    let n = node();
    let contact = wc(5, 1);
    for misc in [None, Some(0x03), Some(0xFB)] {
        let res = KadHello {
            id: contact.id,
            tcp_port: 1,
            version: 8,
            source_udp_port: None,
            misc_options: misc,
        };
        assert_eq!(n.hello(&contact, &res, false, 0).1, None, "{misc:?}");
    }
}

#[test]
fn a_bootstrap_answer_proves_its_sender_only() {
    let n = node();
    let res = BootstrapRes {
        id: Kad128::from_hash(&[9; 16]),
        tcp_port: 1,
        version: 8,
        contacts: vec![wc(1, 11), wc(2, 12)],
    };
    let actions = n.bootstrap_from(10, 4672, &res, true, 3);
    assert_eq!(actions.len(), 4);
    assert!(matches!(
        actions[0],
        TableAction::Add {
            verified: true,
            proven_alive: true,
            ..
        }
    ));
    for a in &actions[2..] {
        assert!(matches!(
            a,
            TableAction::Add {
                verified: false,
                proven_alive: false,
                ..
            }
        ));
    }
    let d = datagram(contact_addr(9, 9), OP_BOOTSTRAP_REQ, Vec::new(), 0);
    let answer = node()
        .serve(&d, OUR_VK, FloodVerdict::Allow, false, none, none, 0)
        .answer
        .unwrap();
    assert_eq!(answer.opcode, OP_BOOTSTRAP_RES);
}

#[test]
fn a_seeds_key_is_kept_only_where_the_seed_passed() {
    let c = wc(1, 11);
    assert_eq!(seed_key(&c, 0, 5, true), None);
    assert_eq!(seed_key(&c, 9, 5, false), None);
    assert_eq!(
        seed_key(&c, 9, 5, true),
        Some(TableAction::NoteKey {
            id: c.id,
            ip: 11,
            key: 9,
            our_ip: 5
        })
    );
}

#[test]
fn the_hello_track_has_no_room_for_a_stranger_when_it_is_full() {
    let mut t = HelloTrack::new(2);
    t.note_hello_res_sent(1, 0);
    t.note_hello_res_sent(2, 10);
    t.note_hello_res_sent(3, 20);
    assert!(!t.take_hello_res_sent(3, 20), "no room was left");
    t.note_hello_res_sent(1, 30);
    assert!(t.take_hello_res_sent(1, 30 + 179_999), "renewed in place");
    let mut t = HelloTrack::new(1);
    t.note_hello_res_sent(1, 0);
    t.note_hello_res_sent(2, 180_000);
    assert!(t.take_hello_res_sent(2, 180_000), "the old entry made room");
    assert!(!t.take_hello_res_sent(1, 180_000));
}

#[test]
fn bootstrap_asks_in_turn_and_gives_the_last_error() {
    let mut b = BootstrapAny::new(5, 2);
    assert_eq!(b.next(), Some(0));
    b.on_error(KadError::NotDecryptable);
    assert_eq!(b.next(), Some(1));
    b.on_error(KadError::Unexpected(0x0a));
    assert_eq!(b.next(), None);
    assert_eq!(b.last, KadError::Unexpected(0x0a));
    let none = BootstrapAny::new(0, 9);
    assert_eq!(none.next(), None);
    assert_eq!(none.last, KadError::Timeout);
}

#[test]
fn errors_are_told_in_words() {
    assert_eq!(KadError::Io("gone".to_string()).message(), "io: gone");
    assert_eq!(KadError::Timeout.message(), "timed out");
    assert_eq!(
        KadError::NotDecryptable.message(),
        "response not decryptable (plaintext or wrong key)"
    );
    assert_eq!(
        KadError::NotReady.message(),
        "no Kad contacts yet (bootstrap first)"
    );
    assert_eq!(
        KadError::Decode(IoError::UnexpectedEof).message(),
        "decode: unexpected end of data"
    );
    assert_eq!(
        KadError::Decode(IoError::BadHeader(255)).message(),
        "decode: bad header byte 255"
    );
    assert_eq!(
        KadError::Unexpected(0x0a).message(),
        "unexpected opcode 0x0a"
    );
    assert_eq!(
        KadError::Unexpected(0xfe).message(),
        "unexpected opcode 0xfe"
    );
}

#[test]
fn a_new_node_has_asked_and_answered_nobody() {
    let n = node();
    assert!(n.pending.slots.is_empty());
    assert_eq!(n.pending.next_seq, 0);
    assert!(n.hello_res_sent.sent.is_empty());
}

#[test]
fn any_hello_answer_admits_an_ack_whether_or_not_it_asked_for_one() {
    let mut n = node();
    let from = contact_addr(v4(203, 0, 113, 5), 5005);
    assert_eq!(
        hello_from(&mut n, from, OUR_VK, 0).unwrap().misc_options,
        None
    );
    let sender_id = Kad128::from_hash(&[0x42; 16]);
    let ack = datagram(from, OP_HELLO_RES_ACK, build_hello_res_ack(sender_id), OUR_VK);
    assert_eq!(
        n.demux(&ack, OUR_VK, 1),
        Demux::Ack(AckVerdict::MarkSenderVerified { sender_id })
    );
}
