use mule_engine::portmap::{
    build_map_request, map_outcome, parse_map_response, MapReply, PortMapError, Proto,
};

#[test]
fn map_request_is_well_formed() {
    let r = build_map_request(Proto::Tcp, 4662, 4662, 3600);
    assert_eq!(r[0], 0);
    assert_eq!(r[1], 2);
    assert_eq!(&r[2..4], &[0, 0]);
    assert_eq!(u16::from_be_bytes([r[4], r[5]]), 4662);
    assert_eq!(u16::from_be_bytes([r[6], r[7]]), 4662);
    assert_eq!(u32::from_be_bytes([r[8], r[9], r[10], r[11]]), 3600);
}

#[test]
fn parse_a_success_response() {
    let mut b = vec![0u8, 130, 0, 0, 0, 0, 0, 10];
    b.extend_from_slice(&4662u16.to_be_bytes());
    b.extend_from_slice(&4662u16.to_be_bytes());
    b.extend_from_slice(&3600u32.to_be_bytes());
    let r = parse_map_response(Proto::Tcp, &b).unwrap();
    assert_eq!(r.result, 0);
    assert_eq!(r.internal_port, 4662);
    assert_eq!(r.mapped_external_port, 4662);
    assert_eq!(r.lifetime_secs, 3600);
}

#[test]
fn parse_rejects_wrong_opcode_and_short() {
    let good_len = vec![0u8, 129, 0, 0, 0, 0, 0, 0, 0, 0, 0, 0, 0, 0, 0, 0];
    assert!(parse_map_response(Proto::Tcp, &good_len).is_none());
    assert!(parse_map_response(Proto::Udp, &good_len).is_some());
    assert!(parse_map_response(Proto::Udp, &[0, 129, 0]).is_none());
}

#[test]
fn each_reply_has_its_outcome() {
    let mut b = vec![0u8, 129, 0, 0, 0, 0, 0, 10];
    b.extend_from_slice(&4672u16.to_be_bytes());
    b.extend_from_slice(&50_000u16.to_be_bytes());
    b.extend_from_slice(&3600u32.to_be_bytes());
    assert_eq!(map_outcome(Proto::Udp, MapReply::Bytes(&b)), Ok(50_000));
    assert_eq!(
        map_outcome(Proto::Tcp, MapReply::Bytes(&b)),
        Err(PortMapError::BadResponse)
    );
    b[3] = 2;
    assert_eq!(
        map_outcome(Proto::Udp, MapReply::Bytes(&b)),
        Err(PortMapError::Failed(2))
    );
    assert_eq!(
        map_outcome(Proto::Udp, MapReply::Timeout),
        Err(PortMapError::Timeout)
    );
    assert_eq!(
        map_outcome(Proto::Udp, MapReply::Io("gone".to_string())),
        Err(PortMapError::Io("gone".to_string()))
    );
}

#[test]
fn mapping_errors_are_told_in_words() {
    assert_eq!(PortMapError::Io("gone".to_string()).message(), "io: gone");
    assert_eq!(
        PortMapError::Timeout.message(),
        "gateway did not answer (no NAT-PMP?)"
    );
    assert_eq!(
        PortMapError::Failed(65535).message(),
        "gateway refused the mapping (result 65535)"
    );
    assert_eq!(
        PortMapError::BadResponse.message(),
        "malformed NAT-PMP response"
    );
}
