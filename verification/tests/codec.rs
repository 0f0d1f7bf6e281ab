use mule_engine::hash::{ed2k_hash, part_count, same_hash16, same_hash20, Ed2kHasher};
use mule_engine::kad_wire::{
    build_bootstrap_res, build_hello, build_hello_res_ack, build_kad2_req, build_kad2_res,
    build_pong, parse_bootstrap_res, parse_hello, parse_hello_res_ack, parse_kad2_req,
    parse_kad2_res, Kad128, WireContact,
};
use mule_engine::proto::{read_packet, write_packet, Packet, PARTSIZE, PROT_EDONKEY, PROT_EMULE};
use mule_engine::query::{parse_query, tokenize, QueryExpr, Tok};
use mule_engine::tags::{read_tag, read_tags, write_tag, write_tags, Tag, TagName, TagValue};
use mule_engine::text::{is_whitespace, parse_number, trim};
use mule_engine::wire::{IoError, Reader};

fn all_tags() -> Vec<Tag> {
    vec![
        Tag::id(1, TagValue::Hash([7; 16])),
        Tag::id(2, TagValue::Str(b"name".to_vec())),
        Tag::id(3, TagValue::U8(9)),
        Tag::id(4, TagValue::U16(0x1234)),
        Tag::id(5, TagValue::U32(0x1234_5678)),
        Tag::id(6, TagValue::U64(u64::MAX - 1)),
        Tag::id(7, TagValue::F32(0x3F80_0000)),
        Tag::id(8, TagValue::Bool(1)),
        Tag::id(9, TagValue::Blob(vec![1, 2, 3])),
        Tag::id(10, TagValue::Bsob(vec![4, 5])),
        Tag {
            name: TagName::Str(b"own".to_vec()),
            value: TagValue::U32(1),
        },
    ]
}

#[test]
fn every_kind_of_tag_is_read_back() {
    let tags = all_tags();
    let mut out = Vec::new();
    write_tags(&mut out, &tags);
    out.push(0xEE);
    let mut r = Reader::new(&out);
    assert_eq!(read_tags(&mut r, tags.len() as u32).unwrap(), tags);
    assert_eq!(r.remaining(), 1, "what follows is left");
    for t in &tags {
        let mut one = Vec::new();
        write_tag(&mut one, t);
        assert_eq!(read_tag(&mut Reader::new(&one)).unwrap(), *t);
        let cut = one.len() - 1;
        assert!(read_tag(&mut Reader::new(&one[..cut])).is_err());
    }
}

#[test]
fn an_unknown_tag_type_is_refused() {
    assert_eq!(
        read_tag(&mut Reader::new(&[0x7E, 1, 0, 5, 0])),
        Err(IoError::BadTag(0x7E))
    );
}

#[test]
fn a_packet_is_read_back_from_a_stream() {
    let p = Packet::new(PROT_EMULE, 0x4C, vec![1, 2, 3]);
    let mut wire = write_packet(&p);
    assert_eq!(wire, vec![0xC5, 4, 0, 0, 0, 0x4C, 1, 2, 3]);
    for n in 0..wire.len() {
        assert_eq!(read_packet(&wire[..n]), Ok(None), "{n} bytes are too few");
    }
    wire.extend_from_slice(&[0xE3, 9]);
    assert_eq!(read_packet(&wire), Ok(Some((p, 9))));
    assert_eq!(read_packet(&[0x01]), Err(IoError::BadHeader(0x01)));
    assert_eq!(
        read_packet(&[PROT_EDONKEY, 0, 0, 0, 0, 1]),
        Err(IoError::UnexpectedEof),
        "a frame has an opcode"
    );
}

fn hex(h: [u8; 16]) -> String {
    h.iter().map(|b| format!("{b:02x}")).collect()
}

#[test]
fn file_hashes_are_the_known_ones() {
    assert_eq!(hex(ed2k_hash(b"")), "31d6cfe0d16ae931b73c59d7e0c089c0");
    assert_eq!(hex(ed2k_hash(b"abc")), "a448017aaf21d8525fc10ae87aa6729d");
    let zeros = vec![0u8; PARTSIZE as usize];
    assert_eq!(
        hex(ed2k_hash(&zeros)),
        "fc21d9af828f92a8df64beac3357425d",
        "one whole part and the sentinel"
    );
    let mut by_parts = Ed2kHasher::new();
    by_parts.add_part(&zeros);
    assert_eq!(by_parts.finish(PARTSIZE), ed2k_hash(&zeros));
    assert_eq!(part_count(PARTSIZE), 2);
    assert_eq!(part_count(PARTSIZE - 1), 1);
}

#[test]
fn hashes_are_compared_whole() {
    let mut a = [3u8; 16];
    assert!(same_hash16(&a, &[3; 16]));
    a[15] = 4;
    assert!(!same_hash16(&a, &[3; 16]));
    let mut b = [3u8; 20];
    assert!(same_hash20(&b, &[3; 20]));
    b[0] = 4;
    assert!(!same_hash20(&b, &[3; 20]));
}

fn contact(n: u8) -> WireContact {
    WireContact {
        id: Kad128::from_hash(&[n; 16]),
        ip: 0x0506_07FA,
        udp_port: 4672,
        tcp_port: 4662,
        version: 8,
    }
}

#[test]
fn an_id_is_four_little_endian_words() {
    let mut h = [0u8; 16];
    for (i, b) in h.iter_mut().enumerate() {
        *b = i as u8;
    }
    let id = Kad128::from_hash(&h);
    assert_eq!(id.value, 0x0001_0203_0405_0607_0809_0A0B_0C0D_0E0F);
    assert_eq!(
        build_hello_res_ack(id),
        vec![3, 2, 1, 0, 7, 6, 5, 4, 11, 10, 9, 8, 15, 14, 13, 12, 0]
    );
    assert_eq!(parse_hello_res_ack(&build_hello_res_ack(id)), Ok(id));
    assert_eq!(
        parse_hello_res_ack(&build_hello_res_ack(id)[..16]),
        Err(IoError::UnexpectedEof)
    );
    assert_eq!(build_pong(5000), vec![0x88, 0x13]);
}

#[test]
fn kad_messages_are_read_back() {
    let id = Kad128::from_hash(&[9; 16]);
    let target = Kad128 { value: 77 };
    let req = build_kad2_req(0x2B, target, id);
    assert_eq!(req.len(), 33);
    let parsed = parse_kad2_req(&req).unwrap();
    assert_eq!(
        (parsed.req_type, parsed.target, parsed.receiver),
        (11, target, id),
        "five bits of the count"
    );
    let contacts = vec![contact(1), contact(2)];
    let res = build_kad2_res(target, &contacts);
    assert_eq!(res.len(), 16 + 1 + 2 * 25);
    assert_eq!(&res[17 + 16..17 + 25], &[0xFA, 7, 6, 5, 0x40, 0x12, 0x36, 0x12, 8]);
    let back = parse_kad2_res(&res).unwrap();
    assert_eq!((back.target, back.contacts), (target, contacts.clone()));
    assert!(parse_kad2_res(&res[..res.len() - 1]).is_err());
    let boot = build_bootstrap_res(id, 4662, 8, &contacts);
    let back = parse_bootstrap_res(&boot).unwrap();
    assert_eq!(
        (back.id, back.tcp_port, back.version, back.contacts),
        (id, 4662, 8, contacts)
    );
    let hello = build_hello(id, 4662, Some(4672), Some(4));
    let back = parse_hello(&hello).unwrap();
    assert_eq!(
        (back.id, back.tcp_port, back.version, back.source_udp_port, back.misc_options),
        (id, 4662, 8, Some(4672), Some(4))
    );
    let bare = parse_hello(&build_hello(id, 1, None, None)).unwrap();
    assert_eq!((bare.source_udp_port, bare.misc_options), (None, None));
}

fn word(s: &str) -> Tok {
    Tok::Word(s.chars().collect())
}

#[test]
fn words_and_operators_are_told_apart() {
    assert_eq!(
        tokenize("a OR \"b c\" (AND and)"),
        vec![
            word("a"),
            Tok::Or,
            word("b c"),
            Tok::LParen,
            Tok::And,
            word("and"),
            Tok::RParen
        ]
    );
}

#[test]
fn a_query_of_nothing_but_operators_is_taken_literally() {
    match parse_query("OR") {
        QueryExpr::Word(w) => assert_eq!(w, "OR".chars().collect::<Vec<char>>()),
        other => panic!("one leaf, got {other:?}"),
    }
}

#[test]
fn text_is_trimmed_and_numbers_are_read() {
    let v: Vec<char> = " \t a b\n".chars().collect();
    assert_eq!(trim(&v), vec!['a', ' ', 'b']);
    assert!(is_whitespace('\u{3000}') && !is_whitespace('x'));
    let n = |s: &str| parse_number(&s.chars().collect());
    assert_eq!(n("18446744073709551615"), Some(u64::MAX));
    assert_eq!(n("18446744073709551616"), None);
    assert_eq!(n("+7"), Some(7));
    assert_eq!(n("-7"), None);
    assert_eq!(n(""), None);
    assert_eq!(n("+"), None);
}

#[test]
fn white_space_separates_the_tokens_of_two_texts() {
    let a = "x OR \"y z\" (";
    let b = "NOT w) \"q";
    let both: Vec<Tok> = tokenize(a).into_iter().chain(tokenize(b)).collect();
    for blank in [" ", "\t", " \n  "] {
        assert_eq!(tokenize(&format!("{a}{blank}{b}")), both);
    }
    assert_ne!(
        tokenize("\"x y"),
        vec![
            Tok::Word(vec!['x']),
            Tok::Word(vec!['y'])
        ],
        "an open quote takes the white space in"
    );
}
