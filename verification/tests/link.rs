use mule_engine::link::{
    read_search_page, remaining_wait, request_step, Incoming, LoginAnswer, PollStep, RequestStep,
    ServerLink, ServerSearchOutcome, ServerState,
};
use mule_engine::net::{IpAddr, SocketAddr};
use mule_engine::proto::{Packet, PROT_EDONKEY};
use mule_engine::search::{
    build_search_more_request, parse_search_result_page, OP_QUERY_MORE_RESULT, OP_SEARCHRESULT,
};

const ADDR: SocketAddr = SocketAddr {
    ip: IpAddr::V4(0x7F00_0001),
    port: 4661,
};

fn accepted(id: u32, low_id: bool, related_search: bool) -> LoginAnswer {
    LoginAnswer::Accepted {
        id,
        low_id,
        related_search,
    }
}

fn packet(opcode: u8, payload: Vec<u8>) -> Packet {
    Packet::new(PROT_EDONKEY, opcode, payload)
}

fn answer(payload: Vec<u8>) -> Option<Packet> {
    Some(packet(OP_SEARCHRESULT, payload))
}

#[test]
fn an_empty_index_is_a_page_and_not_a_failure() {
    let out = read_search_page(answer(0u32.to_le_bytes().to_vec()), 5);
    match &out {
        ServerSearchOutcome::Page(p) => assert!(p.files.is_empty() && !p.more),
        other => panic!("an empty index must be a Page, got {other:?}"),
    }
    assert!(out.failure_reason().is_none());
    assert!(out.files().is_empty());
}

#[test]
fn a_server_that_never_answers_is_noanswer_not_an_empty_page() {
    let out = read_search_page(None, 12);
    assert!(
        matches!(out, ServerSearchOutcome::NoAnswer { .. }),
        "a timeout must not masquerade as an empty index, got {out:?}"
    );
    let why = out.failure_reason().expect("a timeout is a failure");
    assert!(
        why.contains("did not answer"),
        "the reason must name the timeout so a user can act on it: {why}"
    );
    assert_eq!(why, "the server did not answer the search within 12s");
    assert!(out.files().is_empty());
}

#[test]
fn an_unparseable_payload_is_malformed_and_carries_its_size() {
    let out = read_search_page(answer(9999u32.to_le_bytes().to_vec()), 5);
    match &out {
        ServerSearchOutcome::Malformed { bytes, .. } => assert_eq!(*bytes, 4),
        other => panic!("a truncated page must be Malformed, got {other:?}"),
    }
    assert_eq!(
        out.failure_reason().unwrap(),
        "the server sent 4 bytes we could not read (unexpected end of data)"
    );
}

fn one_result() -> Vec<u8> {
    let mut payload = vec![0x01, 0x00, 0x00, 0x00];
    payload.extend_from_slice(&[0xAA; 16]);
    payload.extend_from_slice(&[0x01, 0x00, 0x00, 0x0A]);
    payload.extend_from_slice(&[0x36, 0x12]);
    payload.extend_from_slice(&[0x02, 0x00, 0x00, 0x00]);
    payload.extend_from_slice(&[0x02, 0x01, 0x00, 0x01, 0x01, 0x00, b'f']);
    payload.extend_from_slice(&[0x03, 0x01, 0x00, 0x02, 0x64, 0x00, 0x00, 0x00]);
    payload
}

#[test]
fn search_round_trips_and_forwards_chatter_seen_on_the_way() {
    let chatter = packet(0x38, vec![5, 0, b'h', b'e', b'l', b'l', b'o']);
    assert_eq!(
        request_step(OP_SEARCHRESULT, Incoming::Packet(chatter.clone())),
        RequestStep::Forward(chatter)
    );
    let result = packet(OP_SEARCHRESULT, one_result());
    match request_step(OP_SEARCHRESULT, Incoming::Packet(result)) {
        RequestStep::Answer(p) => {
            let files = read_search_page(Some(p), 5).files();
            assert_eq!(files.len(), 1, "the search result parsed");
            assert_eq!(files[0].hash, [0xAA; 16]);
        }
        other => panic!("the result is the answer, got {other:?}"),
    }
    assert_eq!(
        request_step(OP_SEARCHRESULT, Incoming::TimedOut),
        RequestStep::NoAnswer
    );
    assert_eq!(
        request_step(OP_SEARCHRESULT, Incoming::Failed),
        RequestStep::Fail
    );
}

#[test]
fn a_page_says_whether_there_are_more() {
    let mut payload = one_result();
    assert!(!parse_search_result_page(&payload).unwrap().more);
    payload.push(1);
    assert!(parse_search_result_page(&payload).unwrap().more);
    *payload.last_mut().unwrap() = 0;
    assert!(!parse_search_result_page(&payload).unwrap().more);
    let more = build_search_more_request();
    assert_eq!((more.opcode, more.payload.len()), (OP_QUERY_MORE_RESULT, 0));
}

#[test]
fn connect_pause_resume_over_a_real_socket() {
    let mut link = ServerLink::new(ADDR);
    assert_eq!(link.addr(), ADDR);
    let connected = ServerState::Connected {
        id: 0x0A00_0001,
        low_id: false,
        related_search: false,
    };
    let mut states = vec![link.connecting()];
    assert!(!link.is_connected());
    link.established(accepted(0x0A00_0001, false, false));
    states.push(*link.state());
    assert!(link.is_connected());
    assert!(
        !link.related_search_supported(),
        "the server advertises no flags"
    );

    states.push(link.pause());
    assert_eq!(*link.state(), ServerState::PausedForBackground);
    assert!(!link.is_connected());
    assert!(!link.open);

    states.push(link.connecting());
    link.established(accepted(0x0A00_0001, false, false));
    states.push(*link.state());
    assert!(link.is_connected());
    assert_eq!(
        states,
        vec![
            ServerState::Connecting,
            connected,
            ServerState::PausedForBackground,
            ServerState::Connecting,
            connected,
        ]
    );
    link.established(accepted(1, true, true));
    assert!(link.related_search_supported());
}

#[test]
fn connect_failure_reports_disconnected() {
    let mut link = ServerLink::new(ADDR);
    link.connecting();
    assert_eq!(link.disconnect(), ServerState::Disconnected);
    assert_eq!(*link.state(), ServerState::Disconnected);
    assert!(!link.open);
}

#[test]
fn a_rejected_login_keeps_the_socket_and_is_not_connected() {
    let mut link = ServerLink::new(ADDR);
    link.connecting();
    link.established(LoginAnswer::Rejected);
    assert_eq!(*link.state(), ServerState::Rejected);
    assert!(link.open && !link.is_connected() && !link.related_search_supported());
    assert_eq!(link.poll_incoming(0, Incoming::Failed), PollStep::Lost);
    assert_eq!(*link.state(), ServerState::Disconnected);
}

#[test]
fn a_poll_forwards_until_it_is_idle_or_its_budget_is_spent() {
    let mut link = ServerLink::new(ADDR);
    assert_eq!(link.poll_incoming(0, Incoming::Failed), PollStep::Idle);
    link.established(accepted(1, false, false));
    let p = packet(0x38, vec![]);
    assert_eq!(
        link.poll_incoming(0, Incoming::Packet(p.clone())),
        PollStep::Forward {
            packet: p.clone(),
            again: true
        }
    );
    assert_eq!(
        link.poll_incoming(63, Incoming::Packet(p.clone())),
        PollStep::Forward {
            packet: p,
            again: false
        }
    );
    assert_eq!(link.poll_incoming(1, Incoming::TimedOut), PollStep::Idle);
    assert!(link.is_connected());
    assert_eq!(link.poll_incoming(1, Incoming::Failed), PollStep::Lost);
    assert_eq!(*link.state(), ServerState::Disconnected);
}

#[test]
fn a_wait_runs_out_at_its_deadline() {
    assert_eq!(remaining_wait(10, 4), Some(6));
    assert_eq!(remaining_wait(10, 10), None);
    assert_eq!(remaining_wait(10, 11), None);
}
