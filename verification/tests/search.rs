use mule_engine::proto::{read_packet, write_packet, PROT_EDONKEY};
use mule_engine::search::{
    build_global_search_udp, build_search_request, choose_search_method, is_sendable,
    parse_global_search_res, parse_search_result, related_keyword, SearchMethod, SearchParams, ED2K_SEARCH_OP_GREATER,
    FT_FILESIZE, FT_SOURCES, OP_GLOBSEARCHREQ, OP_GLOBSEARCHRES, OP_SEARCHREQUEST,
};
use mule_engine::tags::{Tag, TagName, TagValue};
use mule_engine::wire::IoError;

#[test]
fn a_keyword_may_be_long_but_a_word_may_not() {
    let word = "w".repeat(0xFFFF);
    let mut p = SearchParams {
        keyword: format!("{word} {word}"),
        ..Default::default()
    };
    assert!(is_sendable(&p));
    let tree = build_search_request(&p).payload;
    let mut leaf = vec![0x01, 0xFF, 0xFF];
    leaf.extend_from_slice(word.as_bytes());
    assert_eq!(tree, [vec![0x00, 0x00], leaf.clone(), leaf].concat());
    p.keyword = "w".repeat(0x1_0000);
    assert!(!is_sendable(&p));
    p.keyword = "w".into();
    p.extension = Some("x".repeat(0x1_0000));
    assert!(!is_sendable(&p));
    p.extension = None;
    p.file_type = Some("x".repeat(0x1_0000));
    assert!(!is_sendable(&p));
}

#[test]
fn automatic_search_method_prefers_server_then_kad() {
    assert_eq!(choose_search_method(true, true), Some(SearchMethod::Server));
    assert_eq!(
        choose_search_method(true, false),
        Some(SearchMethod::Server)
    );
    assert_eq!(choose_search_method(false, true), Some(SearchMethod::Kad));
    assert_eq!(choose_search_method(false, false), None);
}

#[test]
fn related_keyword_is_the_related_prefix_plus_uppercase_hex() {
    let hash = [
        0x01, 0x23, 0x45, 0x67, 0x89, 0xAB, 0xCD, 0xEF, 0xFE, 0xDC, 0xBA, 0x98, 0x76, 0x54,
        0x32, 0x10,
    ];
    assert_eq!(
        related_keyword(&hash),
        "related::0123456789ABCDEFFEDCBA9876543210"
    );
    let p = SearchParams {
        keyword: related_keyword(&hash),
        file_type: None,
        min_size: None,
        max_size: None,
        min_sources: None,
        extension: None,
    };
    let pkt = build_search_request(&p);
    assert_eq!(pkt.payload[0], 0x01);
    let len = u16::from_le_bytes([pkt.payload[1], pkt.payload[2]]);
    assert_eq!(len as usize, "related::".len() + 32);
}

#[test]
fn adjacent_words_are_implicitly_anded() {
    let p = SearchParams {
        keyword: "big movie".into(),
        ..Default::default()
    };
    let pkt = build_search_request(&p);
    assert_eq!(
        &pkt.payload[0..2],
        &[0x00, 0x00],
        "implicit AND between words"
    );
    assert_eq!(pkt.payload[2], 0x01);
    assert_eq!(u16::from_le_bytes([pkt.payload[3], pkt.payload[4]]), 3);
    assert_eq!(&pkt.payload[5..8], b"big");
    assert_eq!(pkt.payload[8], 0x01);
    assert_eq!(u16::from_le_bytes([pkt.payload[9], pkt.payload[10]]), 5);
    assert_eq!(&pkt.payload[11..16], b"movie");
}

#[test]
fn explicit_or_and_not_operators() {
    let or = build_search_request(&SearchParams {
        keyword: "a OR b".into(),
        ..Default::default()
    });
    assert_eq!(&or.payload[0..2], &[0x00, 0x01], "OR operator byte");

    let not = build_search_request(&SearchParams {
        keyword: "a NOT b".into(),
        ..Default::default()
    });
    assert_eq!(
        &not.payload[0..2],
        &[0x00, 0x02],
        "NOT operator byte (binary and-not)"
    );
}

#[test]
fn a_quoted_phrase_is_a_single_leaf() {
    let p = SearchParams {
        keyword: "\"big movie\"".into(),
        ..Default::default()
    };
    let pkt = build_search_request(&p);
    assert_eq!(pkt.payload[0], 0x01, "single string leaf, no AND");
    assert_eq!(u16::from_le_bytes([pkt.payload[1], pkt.payload[2]]), 9);
    assert_eq!(&pkt.payload[3..12], b"big movie");
}

#[test]
fn parentheses_group_the_expression() {
    let p = SearchParams {
        keyword: "(a OR b) c".into(),
        ..Default::default()
    };
    let pkt = build_search_request(&p);
    assert_eq!(&pkt.payload[0..2], &[0x00, 0x00], "top-level AND");
    assert_eq!(&pkt.payload[2..4], &[0x00, 0x01], "grouped OR");
    assert_eq!(pkt.payload[4], 0x01, "leaf a");
    assert_eq!(&pkt.payload[7..8], b"a");
}

#[test]
fn and_binds_looser_than_or_like_emule() {
    let pkt = build_search_request(&SearchParams {
        keyword: "a OR b AND c".into(),
        ..Default::default()
    });
    assert_eq!(
        &pkt.payload[0..2],
        &[0x00, 0x00],
        "top operator is AND (lowest precedence)"
    );
    assert_eq!(&pkt.payload[2..4], &[0x00, 0x01], "the OR is nested inside");
}

#[test]
fn a_pathologically_nested_query_does_not_crash() {
    let deep = format!("{}{}", "(".repeat(20_000), ")".repeat(20_000));
    let pkt = build_search_request(&SearchParams {
        keyword: deep,
        ..Default::default()
    });
    assert!(!pkt.payload.is_empty(), "produced a tree, no crash");
}

#[test]
fn a_boolean_keyword_ands_with_the_size_filter() {
    let p = SearchParams {
        keyword: "a OR b".into(),
        min_size: Some(1000),
        ..Default::default()
    };
    let pkt = build_search_request(&p);
    assert_eq!(
        &pkt.payload[0..2],
        &[0x00, 0x00],
        "AND joining the keyword tree to the filter"
    );
    assert_eq!(
        &pkt.payload[2..4],
        &[0x00, 0x01],
        "the OR stays inside the keyword subtree"
    );
}

#[test]
fn single_keyword_has_no_and() {
    let p = SearchParams {
        keyword: "movie".to_string(),
        ..Default::default()
    };
    let pkt = build_search_request(&p);
    assert_eq!(pkt.opcode, OP_SEARCHREQUEST);
    assert_eq!(
        pkt.payload,
        vec![0x01, 0x05, 0x00, b'm', b'o', b'v', b'i', b'e']
    );
}

#[test]
fn keyword_and_min_size() {
    let p = SearchParams {
        keyword: "movie".to_string(),
        min_size: Some(1000),
        ..Default::default()
    };
    let pkt = build_search_request(&p);
    let expected = vec![
        0x00,
        0x00,
        0x01,
        0x05,
        0x00,
        b'm',
        b'o',
        b'v',
        b'i',
        b'e',
        0x03,
        0xE8,
        0x03,
        0x00,
        0x00,
        ED2K_SEARCH_OP_GREATER,
        0x01,
        0x00,
        FT_FILESIZE,
    ];
    assert_eq!(pkt.payload, expected);
}

#[test]
fn full_query_anded_and_round_trips() {
    let p = SearchParams {
        keyword: "big".to_string(),
        file_type: Some("Video".to_string()),
        min_size: Some(1),
        max_size: Some(2),
        min_sources: Some(5),
        extension: Some("avi".to_string()),
    };
    let pkt = build_search_request(&p);
    let and_count = pkt
        .payload
        .windows(2)
        .filter(|w| w == &[0x00u8, 0x00])
        .count();
    assert!(and_count >= 5);
    let wire = write_packet(&pkt);
    let (parsed, consumed) = read_packet(&wire).unwrap().unwrap();
    assert_eq!(parsed, pkt);
    assert_eq!(consumed, wire.len());
}

#[test]
fn min_sources_becomes_a_greater_than_n_minus_one_term() {
    let p = SearchParams {
        keyword: "x".to_string(),
        min_sources: Some(1),
        ..Default::default()
    };
    let pkt = build_search_request(&p);
    let expected_term = [
        0x00,
        0x00,
        0x00,
        0x00,
        ED2K_SEARCH_OP_GREATER,
        0x01,
        0x00,
        FT_SOURCES,
    ];
    assert!(
        pkt.payload
            .windows(expected_term.len())
            .any(|w| w == expected_term),
        "min_sources 1 -> FT_SOURCES > 0"
    );
    let none = SearchParams {
        keyword: "x".to_string(),
        min_sources: Some(0),
        ..Default::default()
    };
    assert!(!build_search_request(&none)
        .payload
        .windows(1)
        .any(|w| w == [FT_SOURCES]));
}

#[test]
fn parse_one_result_file() {
    let mut payload = vec![0x01, 0x00, 0x00, 0x00];
    payload.extend_from_slice(&[
        0x00, 0x01, 0x02, 0x03, 0x04, 0x05, 0x06, 0x07, 0x08, 0x09, 0x0A, 0x0B, 0x0C, 0x0D,
        0x0E, 0x0F,
    ]);
    payload.extend_from_slice(&[0x01, 0x00, 0x00, 0x0A]);
    payload.extend_from_slice(&[0x36, 0x12]);
    payload.extend_from_slice(&[0x02, 0x00, 0x00, 0x00]);
    payload.extend_from_slice(&[0x02, 0x01, 0x00, 0x01, 0x01, 0x00, b'f']);
    payload.extend_from_slice(&[0x03, 0x01, 0x00, 0x02, 0x64, 0x00, 0x00, 0x00]);

    let files = parse_search_result(&payload).unwrap();
    assert_eq!(files.len(), 1);
    let f = &files[0];
    assert_eq!(f.id, 0x0A00_0001);
    assert_eq!(f.port, 4662);
    assert_eq!(
        f.tags,
        vec![
            Tag {
                name: TagName::Id(0x01),
                value: TagValue::Str(b"f".to_vec())
            },
            Tag {
                name: TagName::Id(0x02),
                value: TagValue::U32(100)
            },
        ]
    );
}

#[test]
fn parse_result_truncated_errors() {
    assert_eq!(
        parse_search_result(&[0x01, 0x00, 0x00, 0x00]),
        Err(IoError::UnexpectedEof)
    );
}

fn record(hash: u8, id: u32, port: u16) -> Vec<u8> {
    let mut v = vec![hash; 16];
    v.extend_from_slice(&id.to_le_bytes());
    v.extend_from_slice(&port.to_le_bytes());
    v.extend_from_slice(&0u32.to_le_bytes());
    v
}

#[test]
fn global_search_udp_reuses_the_tcp_tree_only_the_opcode_differs() {
    let p = SearchParams {
        keyword: "linux".into(),
        min_size: Some(1000),
        ..Default::default()
    };
    let tcp = build_search_request(&p);
    let udp = build_global_search_udp(&p);
    assert_eq!(udp.protocol, PROT_EDONKEY);
    assert_eq!(udp.opcode, OP_GLOBSEARCHREQ);
    assert_eq!(udp.opcode, 0x98);
    assert_eq!(tcp.opcode, OP_SEARCHREQUEST);
    assert_eq!(udp.payload, tcp.payload);
}

#[test]
fn parse_global_search_res_chains_records_by_the_0xe3_0x99_subheader() {
    let mut buf = record(0xAA, 0x0A00_0001, 4662);
    buf.push(PROT_EDONKEY);
    buf.push(OP_GLOBSEARCHRES);
    buf.extend_from_slice(&record(0xBB, 0x0A00_0002, 4663));
    buf.extend_from_slice(&[0x11, 0x22]);

    let files = parse_global_search_res(&buf).unwrap();
    assert_eq!(files.len(), 2);
    assert_eq!(files[0].hash, [0xAA; 16]);
    assert_eq!(files[0].port, 4662);
    assert_eq!(files[1].hash, [0xBB; 16]);
    assert_eq!(files[1].id, 0x0A00_0002);
}

#[test]
fn parse_global_search_res_single_record_and_empty_are_handled() {
    let one = parse_global_search_res(&record(0xCC, 7, 99)).unwrap();
    assert_eq!(one.len(), 1);
    assert_eq!(one[0].id, 7);
    assert!(parse_global_search_res(&[0x00; 4]).is_err());
}
