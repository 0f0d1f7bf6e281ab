//! An iterative lookup, as it is driven by events: replies, timeouts and ticks. A few requests
//! to find closer nodes are kept in flight; nodes that are close enough are asked for the value,
//! or to store it, while others are still awaited. The lookup ends once it has enough, has no
//! one left to ask, or runs out of time.
//!
//! The list of candidates and the socket are the caller's: the lookup says when to ask and how
//! many, and what each reply adds.
use vstd::prelude::*;
use crate::kad_live::{KadError, KadNode};
use crate::kad_wire;
use crate::kad_wire::{
    build_kad2_req, parse_kad2_res, Kad128, WireContact, KAD_FIND_NODE, OP_KAD2_REQ, OP_KAD2_RES,
    OP_PUBLISH_RES, OP_SEARCH_RES,
};

verus! {

/// The contacts that a lookup request asks for. An answer with more is dropped whole.
pub const KAD_REQUESTED_CONTACTS: usize = 11;

/// The sources that one search gathers at most.
pub const KAD_SEARCH_SOURCE_TOTAL: usize = 20;

/// The files that one search gathers at most.
pub const KAD_SEARCH_KEYWORD_TOTAL: usize = 300;

/// The nodes that one publish stores to.
pub const KAD_PUBLISH_STORE_TOTAL: usize = 10;

/// The time of a maintenance refresh, in the time of one request.
pub const REFRESH_DEADLINE_QUERIES: u32 = 4;

/// The time of a search, in the time of one request.
pub const LOOKUP_DEADLINE_QUERIES: u32 = 16;

/// The time of a publish, in the time of one request.
pub const PUBLISH_DEADLINE_QUERIES: u32 = 4;

/// The requests for closer nodes that one search or publish sends at most.
pub const LOOKUP_FIND_BUDGET: usize = 36;

/// The nodes that one lookup asks for the value at most.
pub const LOOKUP_VALUE_BUDGET: usize = 10;

/// The requests for closer nodes that are kept in flight.
pub const ALPHA_QUERY: usize = 3;

/// How often a lookup is looked at while nothing happens, in milliseconds.
pub const STALL_TICK: u64 = 1_000;

/// A lookup without any reply for this long is moved on, in milliseconds.
pub const STALL_AFTER: u64 = 3_000;

/// Which request of a lookup.
#[derive(Debug, Clone, Copy, PartialEq, Eq, Structural)]
pub enum ReqKind {
    /// For closer nodes.
    Find,
    /// For the value, or to store it.
    Value,
}

/// What a lookup is for.
#[derive(Debug, Clone, Copy, PartialEq, Eq, Structural)]
pub enum ValueAsk {
    /// For the nodes themselves: no one is asked for a value.
    Nodes,
    /// For sources of a file.
    Sources,
    /// For files with a keyword.
    Keyword,
    /// To store files under a keyword.
    PublishKeyword,
    /// To store ourselves as a source of a file.
    PublishSource,
}

impl ValueAsk {
    /// Whether something is stored.
    pub open spec fn stores(self) -> bool {
        self is PublishKeyword || self is PublishSource
    }

    pub fn is_publish(&self) -> (b: bool)
        ensures
            b == self.stores(),
    {
        matches!(self, ValueAsk::PublishKeyword | ValueAsk::PublishSource)
    }

    /// The results that a lookup gathers at most, whatever its caller wants.
    pub open spec fn total(self) -> usize {
        match self {
            ValueAsk::Sources => KAD_SEARCH_SOURCE_TOTAL,
            ValueAsk::Keyword => KAD_SEARCH_KEYWORD_TOTAL,
            ValueAsk::PublishKeyword => KAD_PUBLISH_STORE_TOTAL,
            ValueAsk::PublishSource => KAD_PUBLISH_STORE_TOTAL,
            ValueAsk::Nodes => usize::MAX,
        }
    }

    /// The opcode of the reply to a request for the value.
    pub open spec fn reply(self) -> Option<u8> {
        match self {
            ValueAsk::Nodes => None,
            ValueAsk::Sources => Some(OP_SEARCH_RES),
            ValueAsk::Keyword => Some(OP_SEARCH_RES),
            ValueAsk::PublishKeyword => Some(OP_PUBLISH_RES),
            ValueAsk::PublishSource => Some(OP_PUBLISH_RES),
        }
    }

    /// The opcode of the reply to a request for the value.
    pub fn reply_opcode(&self) -> (op: Option<u8>)
        ensures
            op == self.reply(),
    {
        match self {
            ValueAsk::Nodes => None,
            ValueAsk::Sources => Some(OP_SEARCH_RES),
            ValueAsk::Keyword => Some(OP_SEARCH_RES),
            ValueAsk::PublishKeyword => Some(OP_PUBLISH_RES),
            ValueAsk::PublishSource => Some(OP_PUBLISH_RES),
        }
    }

    /// How many nodes may be asked for the value.
    pub fn value_budget(&self) -> (n: usize)
        ensures
            n == if self is Nodes {
                0
            } else {
                LOOKUP_VALUE_BUDGET
            },
    {
        match self {
            ValueAsk::Nodes => 0,
            _ => LOOKUP_VALUE_BUDGET,
        }
    }

    /// How many requests for closer nodes may be sent.
    pub fn find_budget(&self) -> (n: usize)
        ensures
            n == if self is Nodes {
                (REFRESH_DEADLINE_QUERIES * ALPHA_QUERY) as usize
            } else {
                LOOKUP_FIND_BUDGET
            },
    {
        match self {
            ValueAsk::Nodes => REFRESH_DEADLINE_QUERIES as usize * ALPHA_QUERY,
            _ => LOOKUP_FIND_BUDGET,
        }
    }

    /// The time of the whole lookup, in the time of one request.
    pub fn deadline_queries(&self) -> (n: u32)
        ensures
            n == match *self {
                ValueAsk::Nodes => REFRESH_DEADLINE_QUERIES,
                ValueAsk::Sources => LOOKUP_DEADLINE_QUERIES,
                ValueAsk::Keyword => LOOKUP_DEADLINE_QUERIES,
                ValueAsk::PublishKeyword => PUBLISH_DEADLINE_QUERIES,
                ValueAsk::PublishSource => PUBLISH_DEADLINE_QUERIES,
            },
    {
        match self {
            ValueAsk::Nodes => REFRESH_DEADLINE_QUERIES,
            ValueAsk::Sources => LOOKUP_DEADLINE_QUERIES,
            ValueAsk::Keyword => LOOKUP_DEADLINE_QUERIES,
            ValueAsk::PublishKeyword => PUBLISH_DEADLINE_QUERIES,
            ValueAsk::PublishSource => PUBLISH_DEADLINE_QUERIES,
        }
    }
}

/// A client that has a file.
#[derive(Debug, Clone, Copy, PartialEq, Eq, Structural)]
pub struct Source {
    pub client_hash: Kad128,
    pub ip: u32,
    pub tcp_port: u16,
    pub udp_port: u16,
    pub source_type: u8,
}

/// A file that a keyword leads to.
#[derive(Debug, Clone, PartialEq, Eq)]
pub struct FileResult {
    pub hash: Kad128,
    pub name: String,
    pub size: u64,
}

/// Whether a source of this client is among them.
pub open spec fn has_client(list: Seq<Source>, client: Kad128) -> bool {
    exists|i: int| 0 <= i < list.len() && (#[trigger] list[i]).client_hash == client
}

/// The sources once those of a reply are added, in their order: each client once, and none
/// beyond the total.
pub open spec fn with_sources(have: Seq<Source>, new: Seq<Source>) -> Seq<Source>
    decreases new.len(),
{
    if new.len() == 0 || have.len() >= KAD_SEARCH_SOURCE_TOTAL {
        have
    } else if has_client(have, new[0].client_hash) {
        with_sources(have, new.skip(1))
    } else {
        with_sources(have.push(new[0]), new.skip(1))
    }
}

/// Whether a file with this hash is among them.
pub open spec fn has_file(list: Seq<FileResult>, hash: Kad128) -> bool {
    exists|i: int| 0 <= i < list.len() && (#[trigger] list[i]).hash == hash
}

/// A file of a reply, and whether its name has all that was searched for: the reply answers one
/// word of the search only.
#[derive(Debug, Clone, PartialEq, Eq)]
pub struct FileAnswer {
    pub file: FileResult,
    pub matches: bool,
}

/// The files once those of a reply are added, in their order: those that match, each once, and
/// none beyond the total.
pub open spec fn with_files(have: Seq<FileResult>, new: Seq<FileAnswer>) -> Seq<FileResult>
    decreases new.len(),
{
    if new.len() == 0 || have.len() >= KAD_SEARCH_KEYWORD_TOTAL {
        have
    } else if !new[0].matches || has_file(have, new[0].file.hash) {
        with_files(have, new.skip(1))
    } else {
        with_files(have.push(new[0].file), new.skip(1))
    }
}

/// What a lookup found, and how it went.
#[derive(Debug, Clone, PartialEq, Eq)]
pub struct ResolveOutcome {
    pub sources: Vec<Source>,
    /// The requests for closer nodes that were sent.
    pub nodes_queried: usize,
    /// Those that were answered.
    pub find_node_responses: usize,
    /// The nodes that were asked for the value.
    pub nodes_searched: usize,
    /// Those that answered a search.
    pub search_responses: usize,
    /// How many leading bits the target shares with the closest node.
    pub closest_prefix_bits: u32,
    /// How many nodes acknowledged a store.
    pub published_to: usize,
}

/// What the lookup does next.
#[derive(Debug, Clone, Copy, PartialEq, Eq, Structural)]
pub enum Step {
    /// There are enough results.
    Enough,
    /// Ask the candidates that are ready for the value, then send up to this many requests for
    /// closer nodes.
    Progress { find_room: usize },
    /// No one is awaited, and no one is left to ask.
    Exhausted,
    /// Wait for the next event, until this time at the latest.
    Wait { until: u64 },
}

/// What a reply to a request for closer nodes is worth.
#[derive(Debug, Clone, PartialEq, Eq)]
pub enum FindReply {
    /// These contacts, to be absorbed.
    Contacts(Vec<WireContact>),
    /// Nothing: for the candidates it is as if no reply had come.
    Useless,
}

/// A lookup that runs.
#[derive(Debug, Clone)]
pub struct Lookup {
    pub target: Kad128,
    pub value: ValueAsk,
    /// The results at which the lookup ends.
    pub stop: usize,
    pub out: ResolveOutcome,
    pub files: Vec<FileResult>,
    /// The requests that are awaited.
    pub inflight: usize,
    /// Those of them that are for closer nodes.
    pub finds_inflight: usize,
    pub need_progress: bool,
    pub last_response: u64,
    /// When the lookup ends at the latest.
    pub overall: u64,
}

impl Lookup {
    /// Each client and each file was gathered once, and none beyond the totals; no more
    /// requests are awaited than were sent.
    pub open spec fn wf(&self) -> bool {
        &&& self.inflight <= self.out.nodes_queried + self.out.nodes_searched
        &&& self.out.sources@.len() <= KAD_SEARCH_SOURCE_TOTAL
        &&& self.files@.len() <= KAD_SEARCH_KEYWORD_TOTAL
        &&& forall|i: int, j: int|
            0 <= i < j < self.out.sources@.len() ==> (#[trigger] self.out.sources@[i]).client_hash
                != (#[trigger] self.out.sources@[j]).client_hash
        &&& forall|i: int, j: int|
            0 <= i < j < self.files@.len() ==> (#[trigger] self.files@[i]).hash != (
            #[trigger] self.files@[j]).hash
    }

    /// The results so far.
    pub open spec fn found(&self) -> nat {
        match self.value {
            ValueAsk::Sources => self.out.sources@.len(),
            ValueAsk::Keyword => self.files@.len(),
            ValueAsk::PublishKeyword => self.out.published_to as nat,
            ValueAsk::PublishSource => self.out.published_to as nat,
            ValueAsk::Nodes => 0,
        }
    }

    /// How many more requests for closer nodes may be in flight.
    pub open spec fn room(&self) -> usize {
        if self.finds_inflight < ALPHA_QUERY {
            (ALPHA_QUERY - self.finds_inflight) as usize
        } else {
            0
        }
    }

    /// Start a lookup over `seeds` candidates. Without any there is nothing to start from.
    pub fn begin(
        target: Kad128,
        value: ValueAsk,
        want: usize,
        seeds: usize,
        per_query: u64,
        now: u64,
    ) -> (r: Result<Lookup, KadError>)
        requires
            now + per_query * LOOKUP_DEADLINE_QUERIES <= u64::MAX,
        ensures
            started(r, target, value, want, seeds, per_query, now),
    {
        if seeds == 0 {
            return Err(KadError::NotReady);
        }
        let total: usize = match value {
            ValueAsk::Sources => KAD_SEARCH_SOURCE_TOTAL,
            ValueAsk::Keyword => KAD_SEARCH_KEYWORD_TOTAL,
            ValueAsk::PublishKeyword => KAD_PUBLISH_STORE_TOTAL,
            ValueAsk::PublishSource => KAD_PUBLISH_STORE_TOTAL,
            ValueAsk::Nodes => usize::MAX,
        };
        let queries: u32 = value.deadline_queries();
        assert(per_query * queries <= per_query * LOOKUP_DEADLINE_QUERIES) by (nonlinear_arith)
            requires
                queries <= LOOKUP_DEADLINE_QUERIES,
                per_query >= 0,
        ;
        Ok(
            Lookup {
                target,
                value,
                stop: if want <= total {
                    want
                } else {
                    total
                },
                out: ResolveOutcome {
                    sources: Vec::new(),
                    nodes_queried: 0,
                    find_node_responses: 0,
                    nodes_searched: 0,
                    search_responses: 0,
                    closest_prefix_bits: 0,
                    published_to: 0,
                },
                files: Vec::new(),
                inflight: 0,
                finds_inflight: 0,
                need_progress: true,
                last_response: now,
                overall: now + per_query * queries as u64,
            },
        )
    }

    /// Decide what to do next. Results are counted first, so that a lookup that has enough
    /// sends nothing more.
    pub fn step(&mut self) -> (step: Step)
        ensures
            old(self).wf() ==> final(self).wf(),
            *final(self) == (Lookup {
                need_progress: old(self).need_progress && step !is Progress,
                ..*old(self)
            }),
            step == if old(self).value !is Nodes && old(self).found() >= old(self).stop {
                Step::Enough
            } else if old(self).need_progress {
                Step::Progress { find_room: old(self).room() }
            } else if old(self).inflight == 0 {
                Step::Exhausted
            } else {
                Step::Wait { until: old(self).overall }
            },
    {
        let results: usize = match self.value {
            ValueAsk::Sources => self.out.sources.len(),
            ValueAsk::Keyword => self.files.len(),
            ValueAsk::PublishKeyword => self.out.published_to,
            ValueAsk::PublishSource => self.out.published_to,
            ValueAsk::Nodes => 0,
        };
        if !matches!(self.value, ValueAsk::Nodes) && results >= self.stop {
            return Step::Enough;
        }
        if self.need_progress {
            self.need_progress = false;
            return Step::Progress { find_room: self.find_room() };
        }
        if self.inflight == 0 {
            return Step::Exhausted;
        }
        Step::Wait { until: self.overall }
    }

    /// How many more requests for closer nodes may be in flight.
    pub fn find_room(&self) -> (n: usize)
        ensures
            n == self.room(),
    {
        if self.finds_inflight < ALPHA_QUERY {
            ALPHA_QUERY - self.finds_inflight
        } else {
            0
        }
    }

    /// The request for closer nodes to send to `c`: its opcode, its payload, and the opcode of
    /// its reply.
    pub fn find_request(&self, c: &WireContact) -> (r: (u8, Vec<u8>, u8))
        ensures
            r.0 == OP_KAD2_REQ,
            r.1@ == kad_wire::kad2_req_bytes(KAD_FIND_NODE, self.target, c.id),
            r.2 == OP_KAD2_RES,
    {
        (OP_KAD2_REQ, build_kad2_req(KAD_FIND_NODE, self.target, c.id), OP_KAD2_RES)
    }

    /// A request for closer nodes was handed to the socket. One that could not be sent counts as
    /// a candidate that does not answer.
    pub fn find_sent(&mut self, sent: bool)
        requires
            old(self).inflight < usize::MAX,
            old(self).finds_inflight < usize::MAX,
            old(self).out.nodes_queried < usize::MAX,
        ensures
            old(self).wf() ==> final(self).wf(),
            *final(self) == if sent {
                old(self).asking_find()
            } else {
                *old(self)
            },
    {
        if sent {
            self.inflight = self.inflight + 1;
            self.finds_inflight = self.finds_inflight + 1;
            self.out.nodes_queried = self.out.nodes_queried + 1;
        }
    }

    /// A request for the value was handed to the socket.
    pub fn value_sent(&mut self, sent: bool)
        requires
            old(self).inflight < usize::MAX,
            old(self).out.nodes_searched < usize::MAX,
        ensures
            old(self).wf() ==> final(self).wf(),
            *final(self) == if sent {
                old(self).asking_value()
            } else {
                *old(self)
            },
    {
        if sent {
            self.inflight = self.inflight + 1;
            self.out.nodes_searched = self.out.nodes_searched + 1;
        }
    }

    /// The lookup with one more request for closer nodes in flight.
    pub open spec fn asking_find(self) -> Lookup {
        Lookup {
            inflight: (self.inflight + 1) as usize,
            finds_inflight: (self.finds_inflight + 1) as usize,
            out: ResolveOutcome {
                nodes_queried: (self.out.nodes_queried + 1) as usize,
                ..self.out
            },
            ..self
        }
    }

    /// The lookup with one more request for the value in flight.
    pub open spec fn asking_value(self) -> Lookup {
        Lookup {
            inflight: (self.inflight + 1) as usize,
            out: ResolveOutcome {
                nodes_searched: (self.out.nodes_searched + 1) as usize,
                ..self.out
            },
            ..self
        }
    }

    /// What the lookup may still do with these budgets: each request is sent once and settled
    /// once.
    pub open spec fn work_left(self, finds: nat, values: nat) -> int {
        2 * (finds - self.out.nodes_queried) + 2 * (values - self.out.nodes_searched)
            + self.inflight
    }

    /// The lookup once a request is no longer awaited: it moves on.
    pub open spec fn settled(self, find: bool) -> Lookup {
        Lookup {
            inflight: (self.inflight - 1) as usize,
            finds_inflight: if find && self.finds_inflight > 0 {
                (self.finds_inflight - 1) as usize
            } else {
                self.finds_inflight
            },
            need_progress: true,
            ..self
        }
    }

    fn settle(&mut self, find: bool)
        requires
            old(self).inflight > 0,
        ensures
            old(self).wf() ==> final(self).wf(),
            *final(self) == old(self).settled(find),
    {
        self.inflight = self.inflight - 1;
        if find && self.finds_inflight > 0 {
            self.finds_inflight = self.finds_inflight - 1;
        }
        self.need_progress = true;
    }

    /// A request was lost with no word of which it was: it is taken for one for closer nodes, so
    /// that the lookup cannot wait for it in vain.
    pub fn on_lost(&mut self)
        requires
            old(self).inflight > 0,
        ensures
            old(self).wf() ==> final(self).wf(),
            *final(self) == old(self).settled(true),
    {
        self.settle(true);
    }

    /// A request was not answered in its time. Whether the candidates are to be told: a node
    /// that does not answer with closer nodes is never asked for the value.
    pub fn on_timeout(&mut self, kind: ReqKind) -> (tell: bool)
        requires
            old(self).inflight > 0,
        ensures
            old(self).wf() ==> final(self).wf(),
            *final(self) == old(self).settled(kind is Find),
            tell == (kind is Find),
    {
        let find = matches!(kind, ReqKind::Find);
        self.settle(find);
        find
    }

    /// A reply to a request for closer nodes came. One that cannot be parsed, or that names more
    /// contacts than were asked for, is worth nothing.
    pub fn on_find_reply(&mut self, payload: &[u8], now: u64) -> (reply: FindReply)
        requires
            old(self).inflight > 0,
            old(self).out.find_node_responses < usize::MAX,
        ensures
            old(self).wf() ==> final(self).wf(),
            match kad_wire::kad2_res_of(payload@) {
                Ok((_, cs)) if cs.len() <= KAD_REQUESTED_CONTACTS => {
                    &&& reply is Contacts
                    &&& reply->Contacts_0@ == cs
                    &&& *final(self) == (Lookup {
                        last_response: now,
                        out: ResolveOutcome {
                            find_node_responses: (old(self).out.find_node_responses + 1) as usize,
                            ..old(self).out
                        },
                        ..old(self).settled(true)
                    })
                },
                _ => {
                    &&& reply is Useless
                    &&& *final(self) == (Lookup { last_response: now, ..old(self).settled(true) })
                },
            },
    {
        self.settle(true);
        self.last_response = now;
        match parse_kad2_res(payload) {
            Ok(res) => if res.contacts.len() <= KAD_REQUESTED_CONTACTS {
                self.out.find_node_responses = self.out.find_node_responses + 1;
                FindReply::Contacts(res.contacts)
            } else {
                FindReply::Useless
            },
            Err(_) => FindReply::Useless,
        }
    }

    /// A reply to a store came; `acknowledged` says that it could be parsed. Whether the
    /// responder is to be recorded.
    pub fn on_publish_reply(&mut self, acknowledged: bool, now: u64) -> (note: bool)
        requires
            old(self).inflight > 0,
            old(self).out.published_to < usize::MAX,
        ensures
            old(self).wf() ==> final(self).wf(),
            note == acknowledged,
            *final(self) == (Lookup {
                last_response: now,
                out: ResolveOutcome {
                    published_to: if acknowledged {
                        (old(self).out.published_to + 1) as usize
                    } else {
                        old(self).out.published_to
                    },
                    ..old(self).out
                },
                ..old(self).settled(false)
            }),
    {
        self.settle(false);
        self.last_response = now;
        if acknowledged {
            self.out.published_to = self.out.published_to + 1;
        }
        acknowledged
    }

    /// A reply to a search for sources came, with these sources, or one that could not be
    /// parsed. Whether the responder is to be recorded.
    pub fn on_sources_reply(&mut self, parsed: Option<Vec<Source>>, now: u64) -> (note: bool)
        requires
            old(self).wf(),
            old(self).inflight > 0,
            old(self).out.search_responses < usize::MAX,
        ensures
            final(self).wf(),
            note == parsed is Some,
            *final(self) == (Lookup {
                last_response: now,
                out: ResolveOutcome {
                    sources: final(self).out.sources,
                    search_responses: if parsed is Some {
                        (old(self).out.search_responses + 1) as usize
                    } else {
                        old(self).out.search_responses
                    },
                    ..old(self).out
                },
                ..old(self).settled(false)
            }),
            final(self).out.sources@ == match parsed {
                Some(new) => with_sources(old(self).out.sources@, new@),
                None => old(self).out.sources@,
            },
    {
        self.settle(false);
        self.last_response = now;
        match parsed {
            None => false,
            Some(new) => {
                self.out.search_responses = self.out.search_responses + 1;
                proof {
                    law_sources_are_gathered_once(self.out.sources@, new@);
                }
                add_sources(&mut self.out.sources, &new);
                true
            },
        }
    }

    /// A reply to a search for files came, with these files, or one that could not be parsed.
    /// Whether the responder is to be recorded.
    pub fn on_files_reply(&mut self, parsed: Option<Vec<FileAnswer>>, now: u64) -> (note: bool)
        requires
            old(self).wf(),
            old(self).inflight > 0,
            old(self).out.search_responses < usize::MAX,
        ensures
            final(self).wf(),
            note == parsed is Some,
            *final(self) == (Lookup {
                last_response: now,
                files: final(self).files,
                out: ResolveOutcome {
                    search_responses: if parsed is Some {
                        (old(self).out.search_responses + 1) as usize
                    } else {
                        old(self).out.search_responses
                    },
                    ..old(self).out
                },
                ..old(self).settled(false)
            }),
            final(self).files@ == match parsed {
                Some(new) => with_files(old(self).files@, new@),
                None => old(self).files@,
            },
    {
        self.settle(false);
        self.last_response = now;
        match parsed {
            None => false,
            Some(new) => {
                self.out.search_responses = self.out.search_responses + 1;
                proof {
                    law_files_are_gathered_once(self.files@, new@);
                }
                add_files(&mut self.files, new);
                true
            },
        }
    }

    /// Time went by. A lookup that has had no reply for a while is moved on.
    pub fn on_tick(&mut self, now: u64)
        ensures
            old(self).wf() ==> final(self).wf(),
            *final(self) == (Lookup {
                need_progress: old(self).need_progress || now - old(self).last_response
                    >= STALL_AFTER,
                ..*old(self)
            }),
    {
        if now >= self.last_response && now - self.last_response >= STALL_AFTER {
            self.need_progress = true;
        }
    }

    /// The lookup is over: how close it came, and what it found.
    pub fn finish(self, closest: Option<Kad128>) -> (r: (ResolveOutcome, Vec<FileResult>))
        ensures
            r.0 == (ResolveOutcome {
                closest_prefix_bits: match closest {
                    Some(id) => shared_bits(self.target, id),
                    None => self.out.closest_prefix_bits,
                },
                ..self.out
            }),
            r.1 == self.files,
    {
        let mut out = self.out;
        if let Some(id) = closest {
            out.closest_prefix_bits = leading_zero_bits(self.target.value ^ id.value);
        }
        (out, self.files)
    }
}

/// How a lookup starts: without candidates not at all; else with nothing found, no one asked,
/// and progress to be made. It ends at what its caller wants, but at the total of its kind at
/// the latest, and in the time of its kind.
pub open spec fn started(
    r: Result<Lookup, KadError>,
    target: Kad128,
    value: ValueAsk,
    want: usize,
    seeds: usize,
    per_query: u64,
    now: u64,
) -> bool {
    match r {
        Err(e) => seeds == 0 && e is NotReady,
        Ok(l) => {
            &&& seeds > 0
            &&& l.wf()
            &&& l.target == target
            &&& l.value == value
            &&& l.stop == if want <= value.total() {
                want
            } else {
                value.total()
            }
            &&& l.found() == 0
            &&& l.out.sources@.len() == 0
            &&& l.files@.len() == 0
            &&& l.out.nodes_queried == 0
            &&& l.out.find_node_responses == 0
            &&& l.out.nodes_searched == 0
            &&& l.out.search_responses == 0
            &&& l.out.closest_prefix_bits == 0
            &&& l.out.published_to == 0
            &&& l.inflight == 0
            &&& l.finds_inflight == 0
            &&& l.need_progress
            &&& l.last_response == now
            &&& l.overall == now + per_query * deadline_of(value)
        },
    }
}

/// The time of the whole lookup, in the time of one request.
pub open spec fn deadline_of(value: ValueAsk) -> u32 {
    match value {
        ValueAsk::Nodes => REFRESH_DEADLINE_QUERIES,
        ValueAsk::Sources => LOOKUP_DEADLINE_QUERIES,
        ValueAsk::Keyword => LOOKUP_DEADLINE_QUERIES,
        ValueAsk::PublishKeyword => PUBLISH_DEADLINE_QUERIES,
        ValueAsk::PublishSource => PUBLISH_DEADLINE_QUERIES,
    }
}

/// How many binary digits a number has.
pub open spec fn bits(v: nat) -> nat
    decreases v,
{
    if v == 0 {
        0
    } else {
        bits(v / 2) + 1
    }
}

/// How many leading bits two ids share.
pub open spec fn shared_bits(a: Kad128, b: Kad128) -> u32 {
    (128 - bits((a.value ^ b.value) as nat)) as u32
}

/// Two to the power of `n`.
pub open spec fn two_to(n: nat) -> nat
    decreases n,
{
    if n == 0 {
        1
    } else {
        2 * two_to((n - 1) as nat)
    }
}

proof fn lemma_bits(v: nat, n: nat)
    requires
        v < two_to(n),
    ensures
        bits(v) <= n,
    decreases n,
{
    if v > 0 {
        lemma_bits(v / 2, (n - 1) as nat);
    }
}

proof fn lemma_two_to_128()
    ensures
        two_to(128) == 0x1_0000_0000_0000_0000_0000_0000_0000_0000,
{
    assert(two_to(32) == 0x1_0000_0000) by {
        reveal_with_fuel(two_to, 33);
    }
    assert(two_to(64) == 0x1_0000_0000 * two_to(32)) by {
        reveal_with_fuel(two_to, 33);
    }
    assert(two_to(96) == 0x1_0000_0000 * two_to(64)) by {
        reveal_with_fuel(two_to, 33);
    }
    assert(two_to(128) == 0x1_0000_0000 * two_to(96)) by {
        reveal_with_fuel(two_to, 33);
    }
}

/// The leading zero bits of a distance: more of them, the closer.
pub fn leading_zero_bits(d: u128) -> (n: u32)
    ensures
        n == 128 - bits(d as nat),
        n <= 128,
{
    proof {
        lemma_two_to_128();
        lemma_bits(d as nat, 128);
    }
    let mut v: u128 = d;
    let mut n: u32 = 128;
    while v > 0
        invariant
            n <= 128,
            bits(d as nat) <= 128,
            128 - n + bits(v as nat) == bits(d as nat),
        decreases v,
    {
        v = v / 2;
        n = n - 1;
    }
    n
}

fn contains_client(list: &Vec<Source>, client: Kad128) -> (b: bool)
    ensures
        b == has_client(list@, client),
{
    let mut i: usize = 0;
    while i < list.len()
        invariant
            i <= list@.len(),
            forall|j: int| 0 <= j < i ==> (#[trigger] list@[j]).client_hash != client,
        decreases list@.len() - i,
    {
        if list[i].client_hash == client {
            return true;
        }
        i = i + 1;
    }
    false
}

fn add_sources(have: &mut Vec<Source>, new: &Vec<Source>)
    ensures
        final(have)@ == with_sources(old(have)@, new@),
{
    let mut i: usize = 0;
    assert(new@.skip(0) =~= new@);
    while i < new.len()
        invariant
            i <= new@.len(),
            with_sources(have@, new@.skip(i as int)) == with_sources(old(have)@, new@),
        decreases new@.len() - i,
    {
        if have.len() >= KAD_SEARCH_SOURCE_TOTAL {
            return ;
        }
        let s = new[i];
        assert(new@.skip(i as int)[0] == s);
        assert(new@.skip(i as int).skip(1) =~= new@.skip(i + 1));
        if !contains_client(have, s.client_hash) {
            have.push(s);
        }
        i = i + 1;
    }
}

fn contains_file(list: &Vec<FileResult>, hash: Kad128) -> (b: bool)
    ensures
        b == has_file(list@, hash),
{
    let mut i: usize = 0;
    while i < list.len()
        invariant
            i <= list@.len(),
            forall|j: int| 0 <= j < i ==> (#[trigger] list@[j]).hash != hash,
        decreases list@.len() - i,
    {
        if list[i].hash == hash {
            return true;
        }
        i = i + 1;
    }
    false
}

fn add_files(have: &mut Vec<FileResult>, new: Vec<FileAnswer>)
    ensures
        final(have)@ == with_files(old(have)@, new@),
{
    let ghost all = new@;
    let mut left = new;
    assert(all.skip(0) =~= all);
    while left.len() > 0
        invariant
            all == new@,
            with_files(have@, left@) == with_files(old(have)@, all),
        decreases left@.len(),
    {
        if have.len() >= KAD_SEARCH_KEYWORD_TOTAL {
            return ;
        }
        let ghost before = left@;
        let a = left.remove(0);
        assert(left@ =~= before.skip(1));
        if a.matches && !contains_file(have, a.file.hash) {
            have.push(a.file);
        }
    }
}

/// However many replies come, and whatever they hold: no client is gathered twice, what was
/// gathered stays, the total is never passed, and a client that a reply names is there unless
/// the total is reached.
pub proof fn law_sources_are_gathered_once(have: Seq<Source>, new: Seq<Source>)
    requires
        have.len() <= KAD_SEARCH_SOURCE_TOTAL,
        forall|i: int, j: int|
            0 <= i < j < have.len() ==> (#[trigger] have[i]).client_hash != (
            #[trigger] have[j]).client_hash,
    ensures
        with_sources(have, new).len() <= KAD_SEARCH_SOURCE_TOTAL,
        have.len() <= with_sources(have, new).len(),
        forall|i: int|
            0 <= i < have.len() ==> #[trigger] with_sources(have, new)[i] == have[i],
        forall|i: int, j: int|
            0 <= i < j < with_sources(have, new).len() ==> (#[trigger] with_sources(
                have,
                new,
            )[i]).client_hash != (#[trigger] with_sources(have, new)[j]).client_hash,
        with_sources(have, new).len() < KAD_SEARCH_SOURCE_TOTAL ==> forall|k: int|
            0 <= k < new.len() ==> has_client(
                with_sources(have, new),
                (#[trigger] new[k]).client_hash,
            ),
    decreases new.len(),
{
    if new.len() > 0 && have.len() < KAD_SEARCH_SOURCE_TOTAL {
        let rest = new.skip(1);
        let next = if has_client(have, new[0].client_hash) {
            have
        } else {
            have.push(new[0])
        };
        assert(has_client(next, new[0].client_hash)) by {
            if !has_client(have, new[0].client_hash) {
                assert(next[have.len() as int].client_hash == new[0].client_hash);
            }
        }
        law_sources_are_gathered_once(next, rest);
        let all = with_sources(next, rest);
        assert(all == with_sources(have, new));
        assert forall|i: int| 0 <= i < have.len() implies #[trigger] with_sources(have, new)[i]
            == have[i] by {
            assert(all[i] == next[i]);
        }
        if all.len() < KAD_SEARCH_SOURCE_TOTAL {
            assert forall|k: int| 0 <= k < new.len() implies has_client(
                all,
                (#[trigger] new[k]).client_hash,
            ) by {
                if k == 0 {
                    let i = choose|i: int|
                        0 <= i < next.len() && (#[trigger] next[i]).client_hash
                            == new[0].client_hash;
                    assert(all[i].client_hash == new[0].client_hash);
                } else {
                    assert(rest[k - 1] == new[k]);
                }
            }
        }
    }
}

/// However many replies come, and whatever they hold: no file is gathered twice, what was
/// gathered stays, the total is never passed, what is gathered matches the search, and a file
/// that matches is there unless the total is reached.
pub proof fn law_files_are_gathered_once(have: Seq<FileResult>, new: Seq<FileAnswer>)
    requires
        have.len() <= KAD_SEARCH_KEYWORD_TOTAL,
        forall|i: int, j: int|
            0 <= i < j < have.len() ==> (#[trigger] have[i]).hash != (#[trigger] have[j]).hash,
    ensures
        with_files(have, new).len() <= KAD_SEARCH_KEYWORD_TOTAL,
        have.len() <= with_files(have, new).len(),
        forall|i: int| 0 <= i < have.len() ==> #[trigger] with_files(have, new)[i] == have[i],
        forall|i: int|
            have.len() <= i < with_files(have, new).len() ==> is_match_of(
                new,
                #[trigger] with_files(have, new)[i],
            ),
        forall|i: int, j: int|
            0 <= i < j < with_files(have, new).len() ==> (#[trigger] with_files(have, new)[i]).hash
                != (#[trigger] with_files(have, new)[j]).hash,
        with_files(have, new).len() < KAD_SEARCH_KEYWORD_TOTAL ==> forall|k: int|
            0 <= k < new.len() && (#[trigger] new[k]).matches ==> has_file(
                with_files(have, new),
                new[k].file.hash,
            ),
    decreases new.len(),
{
    if new.len() > 0 && have.len() < KAD_SEARCH_KEYWORD_TOTAL {
        let rest = new.skip(1);
        let taken = new[0].matches && !has_file(have, new[0].file.hash);
        let next = if taken {
            have.push(new[0].file)
        } else {
            have
        };
        if new[0].matches {
            assert(has_file(next, new[0].file.hash)) by {
                if taken {
                    assert(next[have.len() as int].hash == new[0].file.hash);
                }
            }
        }
        law_files_are_gathered_once(next, rest);
        let all = with_files(next, rest);
        assert(all == with_files(have, new));
        assert forall|i: int| 0 <= i < have.len() implies #[trigger] with_files(have, new)[i]
            == have[i] by {
            assert(all[i] == next[i]);
        }
        assert forall|i: int| have.len() <= i < all.len() implies is_match_of(
            new,
            #[trigger] with_files(have, new)[i],
        ) by {
            if i < next.len() {
                assert(all[i] == next[i]);
                assert(new[0].file == all[i]);
            } else {
                assert(is_match_of(rest, all[i]));
                let k = choose|k: int|
                    0 <= k < rest.len() && (#[trigger] rest[k]).matches && rest[k].file == all[i];
                assert(new[k + 1].matches && new[k + 1].file == all[i]);
            }
        }
        if all.len() < KAD_SEARCH_KEYWORD_TOTAL {
            assert forall|k: int| 0 <= k < new.len() && (#[trigger] new[k]).matches implies has_file(
                all,
                new[k].file.hash,
            ) by {
                if k == 0 {
                    let i = choose|i: int|
                        0 <= i < next.len() && (#[trigger] next[i]).hash == new[0].file.hash;
                    assert(all[i].hash == new[0].file.hash);
                } else {
                    assert(rest[k - 1] == new[k]);
                }
            }
        }
    }
}

/// The file is one of a reply's, and matches.
pub open spec fn is_match_of(new: Seq<FileAnswer>, f: FileResult) -> bool {
    exists|k: int| 0 <= k < new.len() && (#[trigger] new[k]).matches && new[k].file == f
}

/// The requests for closer nodes that are in flight never pass their number, as long as no more
/// are sent than there is room for.
pub proof fn law_finds_in_flight_are_bounded(l: Lookup, sent: nat)
    requires
        l.finds_inflight <= ALPHA_QUERY,
        sent <= l.room(),
    ensures
        l.finds_inflight + sent <= ALPHA_QUERY,
{
}

/// A lookup ends: each request that is sent within the budgets, and each that is settled, leaves
/// less to do, and there is never less than nothing. With nothing left to do, nothing is awaited.
pub proof fn law_each_event_brings_the_end_nearer(l: Lookup, finds: nat, values: nat)
    requires
        l.out.nodes_queried <= finds,
        l.out.nodes_searched <= values,
        l.inflight < usize::MAX,
        l.finds_inflight < usize::MAX,
        l.out.nodes_queried < usize::MAX,
        l.out.nodes_searched < usize::MAX,
    ensures
        l.work_left(finds, values) >= 0,
        l.asking_find().work_left(finds, values) < l.work_left(finds, values),
        l.asking_value().work_left(finds, values) < l.work_left(finds, values),
        l.inflight > 0 ==> forall|find: bool| #[trigger]
            l.settled(find).work_left(finds, values) < l.work_left(finds, values),
        l.work_left(finds, values) == 0 ==> l.inflight == 0,
{
}

/// A node is the closer, the more leading bits it shares with the target; only the target itself
/// shares all of them.
pub proof fn law_more_shared_bits_are_closer(target: Kad128, a: Kad128, b: Kad128)
    requires
        (target.value ^ a.value) <= (target.value ^ b.value),
    ensures
        shared_bits(target, a) >= shared_bits(target, b),
        shared_bits(target, a) == 128 <==> a == target,
{
    let (t, v) = (target.value, a.value);
    assert((t ^ v) == 0 <==> t == v) by (bit_vector);
    let x = (target.value ^ a.value) as nat;
    let y = (target.value ^ b.value) as nat;
    lemma_two_to_128();
    lemma_bits(x, 128);
    lemma_bits(y, 128);
    lemma_bits_grow(x, y);
}

proof fn lemma_bits_grow(x: nat, y: nat)
    requires
        x <= y,
    ensures
        bits(x) <= bits(y),
    decreases y,
{
    if x > 0 {
        lemma_bits_grow(x / 2, y / 2);
    }
}

impl KadNode {
    /// Start a maintenance lookup toward `target`: it asks for closer nodes only, and is kept
    /// short.
    pub fn refresh_routing(&self, target: Kad128, seeds: usize, per_query: u64, now: u64) -> (r:
        Result<Lookup, KadError>)
        requires
            now + per_query * LOOKUP_DEADLINE_QUERIES <= u64::MAX,
        ensures
            started(r, target, ValueAsk::Nodes, 0, seeds, per_query, now),
    {
        Lookup::begin(target, ValueAsk::Nodes, 0, seeds, per_query, now)
    }

    /// Start a search for `want` sources of a file.
    pub fn resolve_sources(
        &self,
        file_hash: Kad128,
        want: usize,
        seeds: usize,
        per_query: u64,
        now: u64,
    ) -> (r: Result<Lookup, KadError>)
        requires
            now + per_query * LOOKUP_DEADLINE_QUERIES <= u64::MAX,
        ensures
            started(r, file_hash, ValueAsk::Sources, want, seeds, per_query, now),
    {
        Lookup::begin(file_hash, ValueAsk::Sources, want, seeds, per_query, now)
    }

    /// Start a search for `want` files with a keyword. One word goes on the wire: `primary` is
    /// its id. A search without any word that is indexed finds nothing, and nothing is asked.
    pub fn resolve_keyword(
        &self,
        primary: Option<Kad128>,
        want: usize,
        seeds: usize,
        per_query: u64,
        now: u64,
    ) -> (r: Option<Result<Lookup, KadError>>)
        requires
            now + per_query * LOOKUP_DEADLINE_QUERIES <= u64::MAX,
        ensures
            r is Some == primary is Some,
            r is Some ==> started(
                r->0,
                primary->0,
                ValueAsk::Keyword,
                want,
                seeds,
                per_query,
                now,
            ),
    {
        match primary {
            Some(target) => Some(
                Lookup::begin(target, ValueAsk::Keyword, want, seeds, per_query, now),
            ),
            None => None,
        }
    }

    /// Start to store files under a keyword.
    pub fn publish_keyword(&self, keyword_target: Kad128, seeds: usize, per_query: u64, now: u64)
        -> (r: Result<Lookup, KadError>)
        requires
            now + per_query * LOOKUP_DEADLINE_QUERIES <= u64::MAX,
        ensures
            started(
                r,
                keyword_target,
                ValueAsk::PublishKeyword,
                KAD_PUBLISH_STORE_TOTAL,
                seeds,
                per_query,
                now,
            ),
    {
        Lookup::begin(
            keyword_target,
            ValueAsk::PublishKeyword,
            KAD_PUBLISH_STORE_TOTAL,
            seeds,
            per_query,
            now,
        )
    }

    /// Start to store ourselves as a source of a file.
    pub fn publish_source(&self, file_hash: Kad128, seeds: usize, per_query: u64, now: u64) -> (r:
        Result<Lookup, KadError>)
        requires
            now + per_query * LOOKUP_DEADLINE_QUERIES <= u64::MAX,
        ensures
            started(
                r,
                file_hash,
                ValueAsk::PublishSource,
                KAD_PUBLISH_STORE_TOTAL,
                seeds,
                per_query,
                now,
            ),
    {
        Lookup::begin(
            file_hash,
            ValueAsk::PublishSource,
            KAD_PUBLISH_STORE_TOTAL,
            seeds,
            per_query,
            now,
        )
    }
}

/// What a lookup gathers at most and how long it runs: twenty sources or three hundred files, ten
/// stores, or what its caller wants if that is less; sixteen times the time of one request for a
/// search, four times for the others.
pub proof fn law_a_lookup_is_bounded(
    l: Lookup,
    target: Kad128,
    value: ValueAsk,
    want: usize,
    seeds: usize,
    per_query: u64,
    now: u64,
)
    requires
        started(Ok(l), target, value, want, seeds, per_query, now),
    ensures
        l.stop <= want,
        value is Sources ==> l.stop <= 20 && (want <= 20 ==> l.stop == want) && (want > 20 ==> l.stop
            == 20) && l.overall == now + 16 * per_query,
        value is Keyword ==> l.stop <= 300 && (want <= 300 ==> l.stop == want) && (want > 300
            ==> l.stop == 300) && l.overall == now + 16 * per_query,
        value is PublishKeyword || value is PublishSource ==> l.stop <= 10 && (want <= 10 ==> l.stop
            == want) && (want > 10 ==> l.stop == 10) && l.overall == now + 4 * per_query,
        value is Nodes ==> l.overall == now + 4 * per_query,
        l.room() == 3,
        seeds > 0,
{
    assert(per_query * deadline_of(value) == deadline_of(value) * per_query) by (nonlinear_arith);
}

/// Three requests for closer nodes are kept in flight.
pub proof fn law_three_finds_are_kept_in_flight(l: Lookup)
    requires
        l.finds_inflight <= 3,
    ensures
        l.finds_inflight + l.room() == 3,
{
}

/// What is gathered of a reply is the reply's own, in its order, and of a client the first: each
/// source that is new was named by the reply, and no earlier one of the reply is of its client. A
/// reply that brings more than there is room for fills the total.
pub proof fn law_sources_are_those_of_the_reply(have: Seq<Source>, new: Seq<Source>, i: int)
    requires
        have.len() <= i < with_sources(have, new).len(),
    ensures
        exists|k: int|
            0 <= k < new.len() && #[trigger] new[k] == with_sources(have, new)[i] && forall|j: int|
                0 <= j < k ==> (#[trigger] new[j]).client_hash != new[k].client_hash,
        with_sources(have, new).len() <= 20 || have.len() > 20,
    decreases new.len(),
{
    let rest = new.skip(1);
    let next = if has_client(have, new[0].client_hash) {
        have
    } else {
        have.push(new[0])
    };
    let all = with_sources(have, new);
    assert(all == with_sources(next, rest));
    lemma_sources_keep(next, rest);
    if i < next.len() {
        assert(all[i] == new[0]);
        assert(new[0] == all[i]);
    } else {
        law_sources_are_those_of_the_reply(next, rest, i);
        let k = choose|k: int|
            0 <= k < rest.len() && #[trigger] rest[k] == all[i] && forall|j: int|
                0 <= j < k ==> (#[trigger] rest[j]).client_hash != rest[k].client_hash;
        assert(new[k + 1] == all[i]);
        lemma_sources_fresh(next, rest, i);
        assert forall|j: int| 0 <= j < k + 1 implies (#[trigger] new[j]).client_hash != new[k
            + 1].client_hash by {
            if j > 0 {
                assert(rest[j - 1] == new[j]);
            } else {
                assert(has_client(next, new[0].client_hash)) by {
                    if !has_client(have, new[0].client_hash) {
                        assert(next[have.len() as int].client_hash == new[0].client_hash);
                    }
                }
                let m = choose|m: int|
                    0 <= m < next.len() && (#[trigger] next[m]).client_hash == new[0].client_hash;
                assert(next[m].client_hash != all[i].client_hash);
            }
        }
    }
}

proof fn lemma_sources_keep(have: Seq<Source>, new: Seq<Source>)
    ensures
        have.len() <= with_sources(have, new).len(),
        forall|i: int| 0 <= i < have.len() ==> #[trigger] with_sources(have, new)[i] == have[i],
        with_sources(have, new).len() <= 20 || have.len() > 20,
    decreases new.len(),
{
    if new.len() > 0 && have.len() < KAD_SEARCH_SOURCE_TOTAL {
        let next = if has_client(have, new[0].client_hash) {
            have
        } else {
            have.push(new[0])
        };
        lemma_sources_keep(next, new.skip(1));
        assert forall|i: int| 0 <= i < have.len() implies #[trigger] with_sources(have, new)[i]
            == have[i] by {
            assert(with_sources(next, new.skip(1))[i] == next[i]);
        }
    }
}

/// A source that is added is of a client that was not there.
proof fn lemma_sources_fresh(have: Seq<Source>, new: Seq<Source>, i: int)
    requires
        have.len() <= i < with_sources(have, new).len(),
    ensures
        forall|m: int|
            0 <= m < have.len() ==> (#[trigger] have[m]).client_hash != with_sources(
                have,
                new,
            )[i].client_hash,
    decreases new.len(),
{
    let rest = new.skip(1);
    if has_client(have, new[0].client_hash) {
        lemma_sources_fresh(have, rest, i);
    } else {
        let next = have.push(new[0]);
        lemma_sources_keep(next, rest);
        if i == have.len() {
            assert(with_sources(next, rest)[i] == next[i]);
        } else {
            lemma_sources_fresh(next, rest, i);
            assert forall|m: int| 0 <= m < have.len() implies (#[trigger] have[m]).client_hash
                != with_sources(have, new)[i].client_hash by {
                assert(next[m] == have[m]);
            }
        }
    }
}

/// The number of leading bits that two ids share, exactly: that many bits agree, and the next one
/// does not.
pub proof fn law_shared_bits_are_the_common_prefix(a: Kad128, b: Kad128)
    ensures
        a != b ==> {
            let s = shared_bits(a, b);
            &&& s < 128
            &&& two_to((127 - s) as nat) <= (a.value ^ b.value) < two_to((128 - s) as nat)
        },
        a == b ==> shared_bits(a, b) == 128,
{
    let (x, y) = (a.value, b.value);
    assert((x ^ y) == 0 <==> x == y) by (bit_vector);
    let v = (x ^ y) as nat;
    lemma_two_to_128();
    lemma_bits(v, 128);
    lemma_bits_exact(v);
}

proof fn lemma_bits_exact(v: nat)
    ensures
        v > 0 ==> bits(v) > 0 && two_to((bits(v) - 1) as nat) <= v < two_to(bits(v)),
        v == 0 ==> bits(v) == 0,
    decreases v,
{
    if v > 0 {
        lemma_bits_exact(v / 2);
        reveal_with_fuel(two_to, 2);
        if v / 2 > 0 {
            assert(two_to(bits(v)) == 2 * two_to(bits(v / 2)));
            assert(two_to((bits(v) - 1) as nat) == 2 * two_to((bits(v / 2) - 1) as nat));
        }
    }
}

} // verus!
