use mule_engine::kad_live::{KadError, KadNode};
use mule_engine::kad_lookup::{
    leading_zero_bits, FileAnswer, FileResult, FindReply, Lookup, ReqKind, Source, Step, ValueAsk,
    KAD_PUBLISH_STORE_TOTAL, KAD_SEARCH_KEYWORD_TOTAL, KAD_SEARCH_SOURCE_TOTAL,
};
use mule_engine::kad_wire::{
    build_kad2_req, build_kad2_res, Kad128, WireContact, KAD_FIND_NODE, OP_KAD2_REQ, OP_KAD2_RES,
    OP_PUBLISH_RES, OP_SEARCH_RES,
};

fn id(value: u128) -> Kad128 {
    Kad128 { value }
}

fn wc(value: u128) -> WireContact {
    WireContact {
        id: id(value),
        ip: value as u32,
        udp_port: 4672,
        tcp_port: 4662,
        version: 8,
    }
}

fn source(n: u128) -> Source {
    Source {
        client_hash: id(n),
        ip: 1,
        tcp_port: 2,
        udp_port: 3,
        source_type: 1,
    }
}

fn file(n: u128, matches: bool) -> FileAnswer {
    FileAnswer {
        file: FileResult {
            hash: id(n),
            name: "minister sample.avi".to_string(),
            size: 1024,
        },
        matches,
    }
}

fn begin(value: ValueAsk, want: usize) -> Lookup {
    Lookup::begin(id(0x55), value, want, 1, 300, 1_000).unwrap()
}

#[test]
fn a_lookup_without_seeds_is_not_ready() {
    assert_eq!(
        Lookup::begin(id(1), ValueAsk::Sources, 5, 0, 300, 0).unwrap_err(),
        KadError::NotReady
    );
}

#[test]
fn a_lookup_over_only_silent_seeds_ends_at_the_per_request_deadline() {
    let mut l = begin(ValueAsk::Sources, 5);
    assert_eq!(l.step(), Step::Progress { find_room: 3 });
    l.find_sent(true);
    assert_eq!(l.step(), Step::Wait { until: 1_000 + 16 * 300 });
    assert!(l.on_timeout(ReqKind::Find), "the candidates are told");
    assert_eq!(l.step(), Step::Progress { find_room: 3 });
    assert_eq!(l.step(), Step::Exhausted);
    let (out, files) = l.finish(None);
    assert!(out.sources.is_empty());
    assert!(files.is_empty());
    assert_eq!(out.nodes_queried, 1);
}

#[test]
fn a_node_that_never_answers_find_node_is_never_value_asked() {
    let mut l = begin(ValueAsk::Sources, 1);
    assert_eq!(l.step(), Step::Progress { find_room: 3 });
    l.find_sent(true);
    assert!(l.on_timeout(ReqKind::Find));
    assert!(
        !begin_with_value().on_timeout(ReqKind::Value),
        "a value timeout says nothing of the candidates"
    );
    let (out, _) = l.finish(None);
    assert_eq!(out.nodes_searched, 0, "we must not even send the ask");
}

fn begin_with_value() -> Lookup {
    let mut l = begin(ValueAsk::Sources, 1);
    l.value_sent(true);
    l
}

#[test]
fn one_datagram_cannot_push_a_source_search_past_the_search_total() {
    let mut l = begin(ValueAsk::Sources, 1000);
    l.step();
    l.value_sent(true);
    let reply: Vec<Source> = (0..25).map(source).collect();
    assert!(l.on_sources_reply(Some(reply), 2_000));
    assert_eq!(l.step(), Step::Enough);
    let (out, _) = l.finish(None);
    assert_eq!(
        out.sources.len(),
        KAD_SEARCH_SOURCE_TOTAL,
        "the search total caps what one reply can contribute"
    );
    assert_eq!(out.search_responses, 1);
    assert_eq!(out.sources[19], source(19));
}

#[test]
fn replies_cannot_push_a_keyword_search_past_the_search_total() {
    let mut l = begin(ValueAsk::Keyword, 1000);
    l.step();
    for m in 0..5u128 {
        l.value_sent(true);
        let reply: Vec<FileAnswer> = (0..70).map(|i| file(m * 1000 + i, true)).collect();
        assert!(l.on_files_reply(Some(reply), 2_000));
    }
    assert_eq!(l.step(), Step::Enough);
    let (_, files) = l.finish(None);
    assert_eq!(
        files.len(),
        KAD_SEARCH_KEYWORD_TOTAL,
        "the search total caps what the replies can contribute"
    );
}

#[test]
fn results_are_gathered_once_and_only_where_they_match() {
    let mut l = begin(ValueAsk::Keyword, 10);
    l.value_sent(true);
    l.value_sent(true);
    l.on_files_reply(Some(vec![file(1, true), file(2, false), file(1, true)]), 1);
    l.on_files_reply(Some(vec![file(2, true), file(1, true)]), 2);
    assert_eq!(l.files.len(), 2);
    assert_eq!(l.files[1].hash, id(2));
    let mut l = begin(ValueAsk::Sources, 10);
    l.value_sent(true);
    l.on_sources_reply(Some(vec![source(1), source(1), source(2)]), 1);
    assert_eq!(l.out.sources, vec![source(1), source(2)]);
    l.value_sent(true);
    assert!(!l.on_sources_reply(None, 5), "unreadable: nobody is recorded");
    assert_eq!(l.out.search_responses, 1);
    assert_eq!(l.last_response, 5);
}

#[test]
fn a_value_ask_is_answered_while_a_silent_find_is_still_in_flight() {
    let mut l = begin(ValueAsk::Sources, 1);
    assert_eq!(l.step(), Step::Progress { find_room: 3 });
    l.find_sent(true);
    l.find_sent(true);
    let answer = build_kad2_res(id(0x55), &vec![wc(1), wc(2)]);
    assert_eq!(
        l.on_find_reply(&answer, 1_100),
        FindReply::Contacts(vec![wc(1), wc(2)])
    );
    assert_eq!(l.find_room(), 2);
    assert_eq!(l.step(), Step::Progress { find_room: 2 });
    l.value_sent(true);
    assert_eq!(l.inflight, 2);
    assert!(l.on_sources_reply(Some(vec![source(1)]), 1_200));
    assert_eq!(l.step(), Step::Enough, "the silent find holds nothing up");
}

#[test]
fn an_overlong_or_unreadable_find_answer_is_silence() {
    let mut l = begin(ValueAsk::Nodes, 0);
    for _ in 0..3 {
        l.find_sent(true);
    }
    assert_eq!(l.find_room(), 0);
    let twelve: Vec<WireContact> = (0..12).map(wc).collect();
    assert_eq!(
        l.on_find_reply(&build_kad2_res(id(0x55), &twelve), 1),
        FindReply::Useless
    );
    let eleven: Vec<WireContact> = (0..11).map(wc).collect();
    assert_eq!(
        l.on_find_reply(&build_kad2_res(id(0x55), &eleven), 2),
        FindReply::Contacts(eleven)
    );
    assert_eq!(l.on_find_reply(&[1, 2, 3], 3), FindReply::Useless);
    assert_eq!(l.out.find_node_responses, 1);
    assert_eq!(l.last_response, 3);
    assert_eq!(l.inflight, 0);
}

#[test]
fn publish_keyword_stores_at_a_node_and_counts_the_ack() {
    let node = KadNode::new(id(1), 4662, 4672, 10);
    let mut l = node.publish_keyword(id(0x55), 1, 750, 0).unwrap();
    assert_eq!(l.overall, 4 * 750);
    assert_eq!(l.value.reply_opcode(), Some(OP_PUBLISH_RES));
    assert!(l.value.is_publish());
    for n in 0..KAD_PUBLISH_STORE_TOTAL {
        assert_ne!(l.step(), Step::Enough, "{n} acks");
        l.value_sent(true);
        assert!(l.on_publish_reply(true, 10));
    }
    assert_eq!(l.step(), Step::Enough);
    assert_eq!(l.finish(None).0.published_to, 10);
}

#[test]
fn publish_source_stores_at_a_node_and_counts_the_ack() {
    let node = KadNode::new(id(1), 4662, 4672, 10);
    let mut l = node.publish_source(id(0x55), 1, 750, 0).unwrap();
    l.value_sent(true);
    l.value_sent(true);
    assert!(l.on_publish_reply(true, 1));
    assert!(!l.on_publish_reply(false, 2), "an unreadable ack counts for nothing");
    assert_eq!(l.finish(None).0.published_to, 1);
}

#[test]
fn each_kind_of_lookup_has_its_budgets_and_its_time() {
    let node = KadNode::new(id(1), 4662, 4672, 10);
    let l = node.refresh_routing(id(2), 3, 100, 50).unwrap();
    assert_eq!(l.overall, 450);
    assert_eq!(ValueAsk::Nodes.find_budget(), 12);
    assert_eq!(ValueAsk::Nodes.value_budget(), 0);
    assert_eq!(ValueAsk::Nodes.reply_opcode(), None);
    let l = node.resolve_sources(id(2), 7, 3, 100, 50).unwrap();
    assert_eq!((l.stop, l.overall), (7, 1650));
    assert_eq!(l.value.find_budget(), 36);
    assert_eq!(l.value.value_budget(), 10);
    assert_eq!(l.value.reply_opcode(), Some(OP_SEARCH_RES));
    assert!(node.resolve_keyword(None, 5, 3, 100, 50).is_none());
    let l = node
        .resolve_keyword(Some(id(2)), 1000, 3, 100, 50)
        .unwrap()
        .unwrap();
    assert_eq!(l.stop, 300);
}

#[test]
fn a_stalled_lookup_is_moved_on() {
    let mut l = begin(ValueAsk::Sources, 1);
    l.step();
    l.find_sent(true);
    assert!(matches!(l.step(), Step::Wait { .. }));
    l.on_tick(3_999);
    assert!(matches!(l.step(), Step::Wait { .. }));
    l.on_tick(4_000);
    assert!(matches!(l.step(), Step::Progress { .. }));
    l.on_lost();
    assert_eq!((l.inflight, l.finds_inflight), (0, 0));
    l.value_sent(true);
    l.on_lost();
    assert_eq!((l.inflight, l.finds_inflight), (0, 0));
}

#[test]
fn the_find_request_asks_for_closer_nodes() {
    let l = begin(ValueAsk::Sources, 1);
    let (op, payload, expect) = l.find_request(&wc(9));
    assert_eq!((op, expect), (OP_KAD2_REQ, OP_KAD2_RES));
    assert_eq!(payload, build_kad2_req(KAD_FIND_NODE, id(0x55), id(9)));
    let mut l = l;
    l.find_sent(false);
    l.value_sent(false);
    assert_eq!((l.inflight, l.out.nodes_queried, l.out.nodes_searched), (0, 0, 0));
}

#[test]
fn the_closest_node_is_measured_in_shared_bits() {
    assert_eq!(leading_zero_bits(0), 128);
    assert_eq!(leading_zero_bits(1), 127);
    assert_eq!(leading_zero_bits(u128::MAX), 0);
    assert_eq!(leading_zero_bits(1 << 96), 31);
    let (out, _) = begin(ValueAsk::Sources, 1).finish(Some(id(0x55 ^ 0x100)));
    assert_eq!(out.closest_prefix_bits, 119);
}
