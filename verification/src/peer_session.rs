//! One peer's session of a download, as a state machine.
//!
//! The driver sends what a step returns, reads packets, asks [`PeerRun::classify`] what a
//! packet is to the session, and hands it to the step of that name. The session asks what
//! the peer has, fetches the hashset where one is needed, waits for an upload slot, and then
//! keeps a window of blocks in flight until the peer has nothing left to give.
use vstd::prelude::*;
use crate::aich::AichState;
use crate::hash::{same_hash16, same_hash20};
use crate::multi_source;
use crate::multi_source::{
    append_blocks, remove_blocks, Download, FileStatus, SxSource,
};
use crate::net::{IpAddr, SocketAddr};
use crate::part_file;
use crate::part_file::contains_u64;
use crate::proto::PARTSIZE;

verus! {

/// How many blocks are kept in flight.
pub const STANDARD_BLOCKS_REQUEST: usize = 3;

pub const OP_FILEREQANSNOFIL: u8 = 0x48;

pub const OP_FILESTATUS: u8 = 0x50;

pub const OP_HASHSETANSWER: u8 = 0x52;

pub const OP_ACCEPTUPLOADREQ: u8 = 0x55;

pub const OP_OUTOFPARTREQS: u8 = 0x57;

pub const OP_QUEUERANKING: u8 = 0x60;

pub const OP_FILEDESC: u8 = 0x61;

pub const OP_ANSWERSOURCES: u8 = 0x82;

pub const OP_ANSWERSOURCES2: u8 = 0x84;

pub const OP_PUBLICKEY: u8 = 0x85;

pub const OP_SIGNATURE: u8 = 0x86;

pub const OP_SECIDENTSTATE: u8 = 0x87;

pub const OP_AICHANSWER: u8 = 0x9C;

pub const OP_AICHFILEHASHANS: u8 = 0x9D;

/// Secure identification is on; whether the peer said that it supports it.
#[derive(Debug, Clone, Copy, PartialEq, Eq, Structural)]
pub struct SecIdentCtx {
    pub peer_supports: bool,
}

/// The extras that one download connection can carry.
#[derive(Debug, Clone, Copy, PartialEq, Eq, Structural)]
pub struct PeerSession {
    pub sec: Option<SecIdentCtx>,
    /// Whether what this source gives us is credited to it.
    pub credit: bool,
    /// Ask this peer for other sources of the file.
    pub ask_sources: bool,
    /// The peer's AICH version; an odd one is capable of recovery.
    pub peer_aich: u8,
}

/// One connection's recovery-ask state.
#[derive(Debug)]
pub struct AichAsk {
    /// The part that this source has been asked for.
    pub asked: Option<u64>,
    /// Parts that this source failed to serve, never asked for again.
    pub refused: Vec<u64>,
}

/// Where a session stands.
#[derive(Debug, Clone, Copy, PartialEq, Eq, Structural)]
pub enum Phase {
    AwaitStatus,
    AwaitHashset,
    AwaitSlot,
    Fetching,
}

/// A message for the peer.
#[derive(Debug, Clone, PartialEq, Eq)]
pub enum Outgoing {
    SecIdentStart,
    RequestFileName,
    SetReqFileId,
    RequestSources,
    AichFileHashRequest,
    HashsetRequest,
    StartUpload,
    AichRequest { part: u16, root: [u8; 20] },
    RequestParts(Vec<(u64, u64)>),
}

/// How a session ends.
#[derive(Debug, Clone, Copy, PartialEq, Eq, Structural)]
pub enum SessionEnd {
    /// The peer has nothing more to give; it delivered this many bytes.
    Done(u64),
    /// The peer does not have the file.
    NoFile,
    /// The peer put us on its queue.
    Queued,
}

/// What a packet is to a session.
#[derive(Debug, Clone, Copy, PartialEq, Eq, Structural)]
pub enum PacketUse {
    NoFile,
    Status,
    Hashset,
    Accept,
    Queued,
    Revoked,
    /// Block data, or a packet that the block receiver rejects.
    Data,
    /// Not what the session waits for.
    Aux,
}

/// What a packet that the session does not wait for may bring.
#[derive(Debug, Clone, Copy, PartialEq, Eq, Structural)]
pub enum AuxUse {
    Comment,
    Sources { sx2: bool },
    SecureIdent,
    AichRoot,
    AichAnswer,
    Ignored,
}

/// A peer's answer to a recovery ask, without its recovery data.
#[derive(Debug, Clone, Copy)]
pub enum AichAnswer {
    Failure { hash: [u8; 16] },
    Recovery { hash: [u8; 16], part: u16, root: [u8; 20] },
}

/// A session in progress.
#[derive(Debug)]
pub struct PeerRun {
    pub session: PeerSession,
    /// Leave at once where the peer queues us, instead of waiting.
    pub bail_on_queue: bool,
    pub peer: Option<SocketAddr>,
    pub phase: Phase,
    pub status: FileStatus,
    pub aich: AichAsk,
    /// Blocks that this session reserved and has not given back.
    pub held: Vec<(u64, u64)>,
    /// Blocks asked for on this connection and not complete yet.
    pub window: Vec<(u64, u64)>,
    /// The download has no further blocks to hand out: the window drains.
    pub no_more: bool,
    pub delivered: u64,
}

/// What a packet with this opcode is in this phase.
pub open spec fn packet_use(phase: Phase, opcode: u8, bail_on_queue: bool) -> PacketUse {
    match phase {
        Phase::AwaitStatus => if opcode == OP_FILEREQANSNOFIL {
            PacketUse::NoFile
        } else if opcode == OP_FILESTATUS {
            PacketUse::Status
        } else {
            PacketUse::Aux
        },
        Phase::AwaitHashset => if opcode == OP_HASHSETANSWER {
            PacketUse::Hashset
        } else {
            PacketUse::Aux
        },
        Phase::AwaitSlot => if opcode == OP_ACCEPTUPLOADREQ {
            PacketUse::Accept
        } else if opcode == OP_QUEUERANKING && bail_on_queue {
            PacketUse::Queued
        } else {
            PacketUse::Aux
        },
        Phase::Fetching => if opcode == OP_SECIDENTSTATE || opcode == OP_PUBLICKEY || opcode
            == OP_SIGNATURE || opcode == OP_FILEDESC || opcode == OP_AICHFILEHASHANS || opcode
            == OP_AICHANSWER {
            PacketUse::Aux
        } else if opcode == OP_OUTOFPARTREQS {
            PacketUse::Revoked
        } else {
            PacketUse::Data
        },
    }
}

/// What an auxiliary packet with this opcode brings: a comment, a vote or a recovery answer
/// only from a peer whose address is known, and a recovery answer only while one is asked.
pub open spec fn aux_use(opcode: u8, peer_known: bool, asked: bool) -> AuxUse {
    if opcode == OP_FILEDESC && peer_known {
        AuxUse::Comment
    } else if opcode == OP_ANSWERSOURCES {
        AuxUse::Sources { sx2: false }
    } else if opcode == OP_ANSWERSOURCES2 {
        AuxUse::Sources { sx2: true }
    } else if opcode == OP_SECIDENTSTATE || opcode == OP_PUBLICKEY || opcode == OP_SIGNATURE {
        AuxUse::SecureIdent
    } else if opcode == OP_AICHFILEHASHANS && peer_known {
        AuxUse::AichRoot
    } else if opcode == OP_AICHANSWER && peer_known && asked {
        AuxUse::AichAnswer
    } else {
        AuxUse::Ignored
    }
}

/// The messages that open a session.
pub open spec fn opening(session: PeerSession) -> Seq<Outgoing> {
    (if session.sec matches Some(c) && c.peer_supports {
        seq![Outgoing::SecIdentStart]
    } else {
        Seq::empty()
    }) + seq![Outgoing::RequestFileName, Outgoing::SetReqFileId] + (if session.ask_sources {
        seq![Outgoing::RequestSources]
    } else {
        Seq::empty()
    }) + (if session.peer_aich % 2 == 1 {
        seq![Outgoing::AichFileHashRequest]
    } else {
        Seq::empty()
    })
}

impl PeerRun {
    /// What the session asked for and did not get is among what it holds.
    pub open spec fn wf(&self) -> bool {
        forall|b: (u64, u64)| #[trigger] self.window@.contains(b) ==> self.held@.contains(b)
    }

    /// Begin a session: what to send first.
    pub fn start(session: PeerSession, bail_on_queue: bool, peer: Option<SocketAddr>) -> (r: (
        PeerRun,
        Vec<Outgoing>,
    ))
        ensures
            r.0.wf(),
            r.0.session == session,
            r.0.bail_on_queue == bail_on_queue,
            r.0.peer == peer,
            r.0.phase == Phase::AwaitStatus,
            r.0.aich.asked is None,
            r.0.aich.refused@.len() == 0,
            r.0.held@.len() == 0,
            r.0.window@.len() == 0,
            !r.0.no_more,
            r.0.delivered == 0,
            r.1@ == opening(session),
    {
        let mut out: Vec<Outgoing> = Vec::new();
        if let Some(c) = session.sec {
            if c.peer_supports {
                out.push(Outgoing::SecIdentStart);
            }
        }
        out.push(Outgoing::RequestFileName);
        out.push(Outgoing::SetReqFileId);
        if session.ask_sources {
            out.push(Outgoing::RequestSources);
        }
        if session.peer_aich % 2 == 1 {
            out.push(Outgoing::AichFileHashRequest);
        }
        assert(out@ =~= opening(session));
        let run = PeerRun {
            session,
            bail_on_queue,
            peer,
            phase: Phase::AwaitStatus,
            status: FileStatus { complete: false, parts: Vec::new() },
            aich: AichAsk { asked: None, refused: Vec::new() },
            held: Vec::new(),
            window: Vec::new(),
            no_more: false,
            delivered: 0,
        };
        (run, out)
    }

    /// What a packet with this opcode is to the session now.
    pub fn classify(&self, opcode: u8) -> (u: PacketUse)
        ensures
            u == packet_use(self.phase, opcode, self.bail_on_queue),
    {
        match self.phase {
            Phase::AwaitStatus => if opcode == OP_FILEREQANSNOFIL {
                PacketUse::NoFile
            } else if opcode == OP_FILESTATUS {
                PacketUse::Status
            } else {
                PacketUse::Aux
            },
            Phase::AwaitHashset => if opcode == OP_HASHSETANSWER {
                PacketUse::Hashset
            } else {
                PacketUse::Aux
            },
            Phase::AwaitSlot => if opcode == OP_ACCEPTUPLOADREQ {
                PacketUse::Accept
            } else if opcode == OP_QUEUERANKING && self.bail_on_queue {
                PacketUse::Queued
            } else {
                PacketUse::Aux
            },
            Phase::Fetching => if opcode == OP_SECIDENTSTATE || opcode == OP_PUBLICKEY || opcode
                == OP_SIGNATURE || opcode == OP_FILEDESC || opcode == OP_AICHFILEHASHANS || opcode
                == OP_AICHANSWER {
                PacketUse::Aux
            } else if opcode == OP_OUTOFPARTREQS {
                PacketUse::Revoked
            } else {
                PacketUse::Data
            },
        }
    }

    /// What an auxiliary packet with this opcode brings.
    pub fn classify_aux(&self, opcode: u8) -> (u: AuxUse)
        ensures
            u == aux_use(opcode, self.peer is Some, self.aich.asked is Some),
    {
        let known: bool = self.peer.is_some();
        if opcode == OP_FILEDESC && known {
            AuxUse::Comment
        } else if opcode == OP_ANSWERSOURCES {
            AuxUse::Sources { sx2: false }
        } else if opcode == OP_ANSWERSOURCES2 {
            AuxUse::Sources { sx2: true }
        } else if opcode == OP_SECIDENTSTATE || opcode == OP_PUBLICKEY || opcode == OP_SIGNATURE {
            AuxUse::SecureIdent
        } else if opcode == OP_AICHFILEHASHANS && known {
            AuxUse::AichRoot
        } else if opcode == OP_AICHANSWER && known && self.aich.asked.is_some() {
            AuxUse::AichAnswer
        } else {
            AuxUse::Ignored
        }
    }

    /// The peer said which parts it holds. Without a part that we need the session ends, and
    /// no slot is asked for; else the hashset is fetched where it is needed, or a slot asked
    /// for.
    pub fn on_status(&mut self, dl: &mut Download, status: FileStatus) -> (r: (
        Vec<Outgoing>,
        Option<SessionEnd>,
    ))
        requires
            old(self).wf(),
            old(dl).wf(),
        ensures
            final(self).wf(),
            final(dl).wf(),
            *final(dl) == (Download { availability: final(dl).availability, ..*old(dl) }),
            forall|p: int|
                #![trigger final(dl).availability@[p]]
                0 <= p < final(dl).availability@.len() ==> final(dl).availability@[p] == (
                if status.holds(p) && old(dl).availability@[p] < u32::MAX {
                    old(dl).availability@[p] + 1
                } else {
                    old(dl).availability@[p] as int
                }),
            ({
                let hashset = needs_hashset(old(dl));
                &&& *final(self) == (PeerRun {
                    status,
                    phase: if !old(dl).worth_asking(&status) {
                        old(self).phase
                    } else if hashset {
                        Phase::AwaitHashset
                    } else {
                        Phase::AwaitSlot
                    },
                    ..*old(self)
                })
                &&& if !old(dl).worth_asking(&status) {
                    r.0@.len() == 0 && r.1 == Some(SessionEnd::Done(0))
                } else if hashset {
                    r.0@ == seq![Outgoing::HashsetRequest] && r.1 is None
                } else {
                    r.0@ == seq![Outgoing::StartUpload] && r.1 is None
                }
            }),
    {
        let mut out: Vec<Outgoing> = Vec::new();
        dl.note_status(&status);
        let needed: bool = dl.has_needed_part(&status);
        assert(dl.worth_asking(&status) == old(dl).worth_asking(&status));
        self.status = status;
        if !needed {
            return (out, Some(SessionEnd::Done(0)));
        }
        if dl.needs_hashset() {
            out.push(Outgoing::HashsetRequest);
            self.phase = Phase::AwaitHashset;
        } else {
            out.push(Outgoing::StartUpload);
            self.phase = Phase::AwaitSlot;
        }
        (out, None)
    }

    /// The hashset arrived: take it over and ask for a slot.
    pub fn on_hashset(&mut self, dl: &mut Download, hashes: Vec<[u8; 16]>) -> (out: Vec<Outgoing>)
        requires
            old(self).wf(),
            old(dl).wf(),
        ensures
            final(self).wf(),
            final(dl).wf(),
            final(dl).store.pf.part_hashes == hashes,
            final(dl).same_but_hashset(old(dl)),
            *final(self) == (PeerRun { phase: Phase::AwaitSlot, ..*old(self) }),
            out@ == seq![Outgoing::StartUpload],
    {
        dl.set_hashset(hashes);
        self.phase = Phase::AwaitSlot;
        let mut out: Vec<Outgoing> = Vec::new();
        out.push(Outgoing::StartUpload);
        out
    }

    /// The session may ask this source for recovery data now.
    pub open spec fn can_ask_recovery(&self) -> bool {
        self.session.peer_aich % 2 == 1 && self.aich.asked is None && self.peer is Some
    }

    /// Ask this source for the recovery data of a part that awaits it, where it is eligible.
    /// A part that it refused before is handed back at once.
    pub fn ask_recovery(&mut self, dl: &mut Download, now: u64) -> (ask: Option<Outgoing>)
        requires
            old(self).wf(),
            old(dl).wf(),
        ensures
            final(self).wf(),
            final(dl).wf(),
            *final(dl) == (Download { aich: final(dl).aich, ..*old(dl) }),
            final(self).recovery_asked(old(self), &old(dl).aich, &final(dl).aich, old(dl).store.pf.size, now, ask),
    {
        if self.session.peer_aich % 2 != 1 || self.aich.asked.is_some() {
            return None;
        }
        let ip: IpAddr = match self.peer {
            Some(a) => a.ip,
            None => {
                return None;
            },
        };
        let size: u64 = dl.size();
        let ghost before = dl.aich;
        let claim = dl.claim_aich_recovery(ip, size, now);
        let ghost mid = dl.aich;
        match claim {
            Some((part, root)) => {
                if contains_u64(self.aich.refused.as_slice(), part) {
                    dl.aich_recovery_failed(part, ip);
                    assert(mid.claimed(&before, ip, size, now, claim));
                    None
                } else {
                    self.aich.asked = Some(part);
                    assert(mid.claimed(&before, ip, size, now, claim));
                    Some(Outgoing::AichRequest { part: part as u16, root })
                }
            },
            None => {
                assert(mid.claimed(&before, ip, size, now, claim));
                None
            },
        }
    }

    /// This is `before` after it looked for a part to ask recovery data for.
    pub open spec fn recovery_asked(
        &self,
        before: &PeerRun,
        aich0: &AichState,
        aich1: &AichState,
        size: u64,
        now: u64,
        ask: Option<Outgoing>,
    ) -> bool {
        if !before.can_ask_recovery() {
            *self == *before && *aich1 == *aich0 && ask is None
        } else {
            let ip = before.peer->0.ip;
            exists|mid: AichState, claim: Option<(u64, [u8; 20])>| #[trigger]
                mid.claimed(aich0, ip, size, now, claim) && match claim {
                    None => *self == *before && *aich1 == *aich0 && ask is None,
                    Some((part, root)) => if before.aich.refused@.contains(part) {
                        *self == *before && aich1.failed(&mid, part, ip) && ask is None
                    } else {
                        &&& *self == (PeerRun {
                            aich: AichAsk { asked: Some(part), ..before.aich },
                            ..*before
                        })
                        &&& *aich1 == mid
                        &&& ask == Some(Outgoing::AichRequest { part: part as u16, root })
                    },
                }
        }
    }
}

/// Parts are checked against hashes of their own, and there are none yet.
pub open spec fn needs_hashset(dl: &Download) -> bool {
    (part_file::data_parts(dl.store.pf.size as int) > 1 || dl.store.pf.size == PARTSIZE)
        && dl.store.pf.part_hashes@.len() == 0
}

/// A list of ranges without those of another holds no range that the other holds.
proof fn lemma_removed(list: Seq<(u64, u64)>, gone: Seq<(u64, u64)>)
    ensures
        forall|b: (u64, u64)| #[trigger]
            multi_source::without_blocks(list, gone).contains(b) <==> list.contains(b)
                && !gone.contains(b),
{
    assert forall|b: (u64, u64)| #[trigger]
        multi_source::without_blocks(list, gone).contains(b) <==> list.contains(b)
            && !gone.contains(b) by {
        multi_source::law_release_is_exact(list, gone, b);
    }
}

proof fn lemma_appended(list: Seq<(u64, u64)>, more: Seq<(u64, u64)>)
    ensures
        forall|b: (u64, u64)| #[trigger]
            (list + more).contains(b) <==> list.contains(b) || more.contains(b),
{
    let all = list + more;
    assert forall|b: (u64, u64)| #[trigger]
        (list + more).contains(b) <==> list.contains(b) || more.contains(b) by {
        if list.contains(b) {
            assert(all[list.index_of(b)] == b);
        }
        if more.contains(b) {
            assert(all[list.len() + more.index_of(b)] == b);
        }
        if all.contains(b) {
            let i = all.index_of(b);
            if i < list.len() {
                assert(list[i] == b);
            } else {
                assert(more[i - list.len()] == b);
            }
        }
    }
}

impl PeerRun {
    /// Claim a fresh window of blocks and ask for them. Where there is none, the session is
    /// over.
    pub fn begin_fetch(&mut self, dl: &mut Download) -> (r: (Vec<Outgoing>, Option<SessionEnd>))
        requires
            old(self).wf(),
            old(dl).wf(),
        ensures
            final(self).wf(),
            final(dl).wf(),
            final(self).fetch_begun(old(self), old(dl), final(dl), r.0@, r.1),
    {
        let mut out: Vec<Outgoing> = Vec::new();
        let blocks = dl.take_blocks(&self.status, STANDARD_BLOCKS_REQUEST);
        assert(dl.took(old(dl), &self.status, STANDARD_BLOCKS_REQUEST as nat, blocks@));
        if blocks.len() == 0 {
            return (out, Some(SessionEnd::Done(self.delivered)));
        }
        append_blocks(&mut self.held, blocks.as_slice());
        proof {
            lemma_appended(old(self).held@, blocks@);
        }
        self.window = vstd::slice::slice_to_vec(blocks.as_slice());
        assert(self.window@ =~= blocks@);
        self.no_more = false;
        self.phase = Phase::Fetching;
        out.push(Outgoing::RequestParts(blocks));
        (out, None)
    }

    /// This is `before` after a fresh window was claimed, or none could be.
    pub open spec fn fetch_begun(
        &self,
        before: &PeerRun,
        dl0: &Download,
        dl1: &Download,
        out: Seq<Outgoing>,
        end: Option<SessionEnd>,
    ) -> bool {
        exists|blocks: Seq<(u64, u64)>| #[trigger]
            dl1.took(dl0, &before.status, STANDARD_BLOCKS_REQUEST as nat, blocks)
                && if blocks.len() == 0 {
                *self == *before && out.len() == 0 && end == Some(
                    SessionEnd::Done(before.delivered),
                )
            } else {
                &&& end is None
                &&& out.len() == 1
                &&& out[0] matches Outgoing::RequestParts(v) && v@ == blocks
                &&& self.held@ == before.held@ + blocks
                &&& self.window@ == blocks
                &&& *self == (PeerRun {
                    held: self.held,
                    window: self.window,
                    no_more: false,
                    phase: Phase::Fetching,
                    ..*before
                })
            }
    }

    /// This is `before` after it looked for a part to ask recovery data for, and then claimed
    /// a fresh window.
    pub open spec fn round_begun(
        &self,
        before: &PeerRun,
        dl0: &Download,
        dl2: &Download,
        now: u64,
        out: Seq<Outgoing>,
        end: Option<SessionEnd>,
    ) -> bool {
        exists|run: PeerRun, dl1: Download, ask: Option<Outgoing>, rest: Seq<Outgoing>|
            {
                &&& #[trigger] run.recovery_asked(
                    before,
                    &dl0.aich,
                    &dl1.aich,
                    dl0.store.pf.size,
                    now,
                    ask,
                )
                &&& dl1 == (Download { aich: dl1.aich, ..*dl0 })
                &&& #[trigger] self.fetch_begun(&run, &dl1, dl2, rest, end)
                &&& out == (match ask {
                    Some(m) => seq![m],
                    None => Seq::empty(),
                }) + rest
            }
    }

    /// A slot was granted, or the window has drained: ask for recovery data where a part
    /// awaits it, then for a fresh window of blocks.
    pub fn next_round(&mut self, dl: &mut Download, now: u64) -> (r: (
        Vec<Outgoing>,
        Option<SessionEnd>,
    ))
        requires
            old(self).wf(),
            old(dl).wf(),
        ensures
            final(self).wf(),
            final(dl).wf(),
            final(self).round_begun(old(self), old(dl), final(dl), now, r.0@, r.1),
    {
        let mut out: Vec<Outgoing> = Vec::new();
        let ask = self.ask_recovery(dl, now);
        let ghost told = ask;
        let ghost (run, dl1) = (*self, *dl);
        if let Some(m) = ask {
            out.push(m);
        }
        let (mut rest, end) = self.begin_fetch(dl);
        let ghost more = rest@;
        out.append(&mut rest);
        proof {
            assert(run.recovery_asked(
                old(self),
                &old(dl).aich,
                &dl1.aich,
                old(dl).store.pf.size,
                now,
                told,
            ));
            assert(self.fetch_begun(&run, &dl1, dl, more, end));
            assert(out@ =~= (match told {
                Some(m) => seq![m],
                None => Seq::empty(),
            }) + more);
        }
        (out, end)
    }

    /// The peer took the slot back. Either the session is over, with what was delivered, or
    /// what is in flight is given back and the session waits for its turn again.
    pub fn on_revoked(&mut self, dl: &mut Download) -> (end: Option<SessionEnd>)
        requires
            old(self).wf(),
            old(dl).wf(),
        ensures
            final(self).wf(),
            final(dl).wf(),
            if old(self).bail_on_queue {
                &&& end == Some(SessionEnd::Done(old(self).delivered))
                &&& *final(self) == *old(self)
                &&& *final(dl) == *old(dl)
            } else {
                &&& end is None
                &&& final(self).held@.len() == 0
                &&& final(self).window@.len() == 0
                &&& *final(self) == (PeerRun {
                    held: final(self).held,
                    window: final(self).window,
                    phase: Phase::AwaitSlot,
                    ..*old(self)
                })
                &&& final(dl).reserved@ == multi_source::without_blocks(
                    old(dl).reserved@,
                    old(self).held@,
                )
                &&& final(dl).only_reserved_differs(old(dl))
            },
    {
        if self.bail_on_queue {
            return Some(SessionEnd::Done(self.delivered));
        }
        dl.release(self.held.as_slice());
        self.held = Vec::new();
        self.window = Vec::new();
        self.phase = Phase::AwaitSlot;
        None
    }

    /// This is `before` after the blocks of `done` were given back, which left `dl1`, and
    /// `more` were asked for in their place, which left `dl2`.
    pub open spec fn topped_up(
        &self,
        before: &PeerRun,
        dl0: &Download,
        dl1: &Download,
        dl2: &Download,
        done: Seq<(u64, u64)>,
        more: Seq<(u64, u64)>,
        out: Seq<Outgoing>,
    ) -> bool {
        let topping = done.len() > 0 && !before.no_more;
        &&& dl1.only_reserved_differs(dl0)
        &&& dl1.reserved@ == multi_source::without_blocks(dl0.reserved@, done)
        &&& if topping {
            dl2.took(dl1, &before.status, done.len(), more)
        } else {
            *dl2 == *dl1 && more.len() == 0
        }
        &&& self.held@ == multi_source::without_blocks(before.held@, done) + more
        &&& self.window@ == multi_source::without_blocks(before.window@, done) + more
        &&& self.no_more == (before.no_more || topping && more.len() == 0)
        &&& if more.len() == 0 {
            out.len() == 0
        } else {
            out.len() == 1 && (out[0] matches Outgoing::RequestParts(v) && v@ == more)
        }
        &&& *self == (PeerRun {
            held: self.held,
            window: self.window,
            no_more: self.no_more,
            delivered: self.delivered,
            ..*before
        })
    }

    /// This is `before` after the blocks of `done` were given back and fresh ones asked for
    /// in their place.
    pub open spec fn window_kept(
        &self,
        before: &PeerRun,
        dl0: &Download,
        dl2: &Download,
        done: Seq<(u64, u64)>,
        out: Seq<Outgoing>,
    ) -> bool {
        exists|dl1: Download, more: Seq<(u64, u64)>| #[trigger]
            self.topped_up(before, dl0, &dl1, dl2, done, more, out)
    }

    /// A data packet brought `received` bytes, which are written, and completed the blocks of
    /// `done`. They are given back, and as many fresh ones are asked for, so that the window
    /// stays full. True where the window is empty, and a new round is due.
    pub fn on_blocks(&mut self, dl: &mut Download, received: u64, done: &Vec<(u64, u64)>) -> (r: (
        Vec<Outgoing>,
        bool,
    ))
        requires
            old(self).wf(),
            old(dl).wf(),
            old(self).delivered + received <= u64::MAX,
        ensures
            final(self).wf(),
            final(dl).wf(),
            final(self).delivered == old(self).delivered + received,
            r.1 == (final(self).window@.len() == 0),
            final(self).window_kept(old(self), old(dl), final(dl), done@, r.0@),
    {
        let mut out: Vec<Outgoing> = Vec::new();
        self.delivered = self.delivered + received;
        dl.release(done.as_slice());
        let ghost dl1 = *dl;
        self.held = remove_blocks(&self.held, done.as_slice());
        self.window = remove_blocks(&self.window, done.as_slice());
        let ghost held = self.held@;
        let ghost window = self.window@;
        let ghost mut more = Seq::<(u64, u64)>::empty();
        proof {
            lemma_removed(old(self).held@, done@);
            lemma_removed(old(self).window@, done@);
            assert(held + more =~= held);
            assert(window + more =~= window);
        }
        if done.len() > 0 && !self.no_more {
            let blocks = dl.take_blocks(&self.status, done.len());
            proof {
                more = blocks@;
                lemma_appended(held, more);
                lemma_appended(window, more);
                assert(dl.took(&dl1, &old(self).status, done@.len(), more));
            }
            if blocks.len() == 0 {
                self.no_more = true;
                assert(held + more =~= held);
                assert(window + more =~= window);
            } else {
                append_blocks(&mut self.held, blocks.as_slice());
                append_blocks(&mut self.window, blocks.as_slice());
                out.push(Outgoing::RequestParts(blocks));
            }
        }
        proof {
            assert(self.topped_up(old(self), old(dl), &dl1, dl, done@, more, out@));
        }
        let drained: bool = self.window.len() == 0;
        (out, drained)
    }

    /// The session is over, however it ended: give back all that it holds.
    pub fn close(&mut self, dl: &mut Download)
        requires
            old(self).wf(),
            old(dl).wf(),
        ensures
            final(self).wf(),
            final(dl).wf(),
            final(self).held@.len() == 0,
            final(dl).only_reserved_differs(old(dl)),
            final(dl).reserved@ == multi_source::without_blocks(
                old(dl).reserved@,
                old(self).held@,
            ),
            forall|b: (u64, u64)| #[trigger]
                old(self).held@.contains(b) ==> !final(dl).reserved@.contains(b),
    {
        dl.release(self.held.as_slice());
        proof {
            lemma_removed(old(dl).reserved@, self.held@);
        }
        self.held = Vec::new();
        self.window = Vec::new();
    }

    /// A source exchange answer: its sources count only for the file of this connection.
    pub fn on_sources(&self, dl: &mut Download, hash: &[u8; 16], sources: &[SxSource])
        requires
            old(dl).wf(),
        ensures
            final(dl).wf(),
            *final(dl) == (Download { sx_sources: final(dl).sx_sources, ..*old(dl) }),
            final(dl).sx_sources@ == (if hash@ == old(dl).store.pf.hash@ {
                old(dl).sx_sources@ + sources@
            } else {
                old(dl).sx_sources@
            }),
    {
        if same_hash16(hash, &dl.hash()) {
            dl.note_sx_sources(sources);
        }
    }

    /// The source's AICH root: a vote, where it is for the file of this connection.
    pub fn on_aich_root(&self, dl: &mut Download, ip: IpAddr, hash: &[u8; 16], root: [u8; 20])
        requires
            old(dl).wf(),
        ensures
            final(dl).wf(),
            *final(dl) == (Download { aich: final(dl).aich, ..*old(dl) }),
            if hash@ == old(dl).store.pf.hash@ {
                final(dl).aich.rooted(&old(dl).aich, ip, root)
            } else {
                final(dl).aich == old(dl).aich
            },
    {
        if same_hash16(hash, &dl.hash()) {
            dl.note_aich_root(ip, root);
        }
    }

    /// The ask for `part` failed at this source: it is not asked for it again, and its claim
    /// is released.
    fn ask_failed(&mut self, dl: &mut Download, part: u64, ip: IpAddr)
        requires
            old(self).wf(),
            old(dl).wf(),
        ensures
            final(self).wf(),
            final(dl).wf(),
            final(self).refusing(old(self), part),
            *final(dl) == (Download { aich: final(dl).aich, ..*old(dl) }),
            final(dl).aich.failed(&old(dl).aich, part, ip),
    {
        if !contains_u64(self.aich.refused.as_slice(), part) {
            self.aich.refused.push(part);
        }
        dl.aich_recovery_failed(part, ip);
    }

    /// This is `before` with `part` among those that the source refused.
    pub open spec fn refusing(&self, before: &PeerRun, part: u64) -> bool {
        &&& self.aich.refused@ == (if before.aich.refused@.contains(part) {
            before.aich.refused@
        } else {
            before.aich.refused@.push(part)
        })
        &&& *self == (PeerRun {
            aich: AichAsk { refused: self.aich.refused, ..before.aich },
            ..*before
        })
    }

    /// The answer names the part that was asked for, of this file, under the trusted root.
    pub open spec fn answer_fits(&self, dl: &Download, hash: [u8; 16], part: u16, root: [u8; 20]) -> bool {
        &&& hash@ == dl.store.pf.hash@
        &&& self.aich.asked == Some(part as u64)
        &&& dl.aich.trusted() == Some(root)
        &&& part_file::part_start(part as int) < dl.store.pf.size
    }

    /// A recovery answer arrived, or a malformed one. Whatever it says, the ask is over. A
    /// refusal, a malformed answer and one that does not fit release the claim, so that another
    /// source can be asked. Returns the part whose recovery data is to be verified against the
    /// root.
    pub fn on_aich_answer(&mut self, dl: &mut Download, ip: IpAddr, answer: Option<AichAnswer>) -> (
        verify: Option<u64>)
        requires
            old(self).wf(),
            old(dl).wf(),
            old(self).aich.asked is Some,
        ensures
            final(self).wf(),
            final(dl).wf(),
            *final(dl) == (Download { aich: final(dl).aich, ..*old(dl) }),
            final(self).aich.asked is None,
            ({
                let asked = old(self).aich.asked->0;
                let over = PeerRun {
                    aich: AichAsk { asked: None, ..old(self).aich },
                    ..*old(self)
                };
                match answer {
                    Some(AichAnswer::Recovery { hash, part, root }) if old(self).answer_fits(
                        old(dl),
                        hash,
                        part,
                        root,
                    ) => {
                        &&& verify == Some(part as u64)
                        &&& *final(self) == over
                        &&& final(dl).aich == old(dl).aich
                    },
                    _ => {
                        &&& verify is None
                        &&& final(self).refusing(&over, asked)
                        &&& final(dl).aich.failed(&old(dl).aich, asked, ip)
                    },
                }
            }),
    {
        let asked: u64 = match self.aich.asked {
            Some(p) => p,
            None => {
                return None;
            },
        };
        self.aich.asked = None;
        match answer {
            None => {
                self.ask_failed(dl, asked, ip);
                None
            },
            Some(AichAnswer::Failure { .. }) => {
                self.ask_failed(dl, asked, ip);
                None
            },
            Some(AichAnswer::Recovery { hash, part, root }) => {
                let trusted: bool = match dl.aich_trusted_root() {
                    Some(r) => same_hash20(&r, &root),
                    None => false,
                };
                if !same_hash16(&hash, &dl.hash()) || part as u64 != asked || !trusted || part as u64
                    * PARTSIZE >= dl.size() {
                    self.ask_failed(dl, asked, ip);
                    return None;
                }
                Some(part as u64)
            },
        }
    }

    /// The recovery data of `part` was checked against the root. Good data is applied only
    /// while `ip` still owns the claim; bad data releases it. True where it is to be applied.
    pub fn on_aich_checked(&mut self, dl: &mut Download, ip: IpAddr, part: u64, good: bool) -> (
        apply: bool)
        requires
            old(self).wf(),
            old(dl).wf(),
        ensures
            final(self).wf(),
            final(dl).wf(),
            *final(dl) == (Download { aich: final(dl).aich, ..*old(dl) }),
            apply == (good && old(dl).aich.owns(part, ip)),
            if good {
                *final(self) == *old(self) && final(dl).aich == old(dl).aich
            } else {
                final(self).refusing(old(self), part) && final(dl).aich.failed(
                    &old(dl).aich,
                    part,
                    ip,
                )
            },
    {
        if good {
            dl.owns_aich_claim(part, ip)
        } else {
            self.ask_failed(dl, part, ip);
            false
        }
    }
}

/// A list loses at least as many places as there are distinct ranges of it in `gone`.
proof fn lemma_removed_len(list: Seq<(u64, u64)>, gone: Seq<(u64, u64)>)
    requires
        gone.no_duplicates(),
        forall|b: (u64, u64)| #[trigger] gone.contains(b) ==> list.contains(b),
    ensures
        multi_source::without_blocks(list, gone).len() + gone.len() <= list.len(),
{
    let out = list.filter(|b: (u64, u64)| gone.contains(b));
    lemma_filter_parts(list, gone);
    assert(gone.to_set().subset_of(out.to_set())) by {
        assert forall|b: (u64, u64)| gone.to_set().contains(b) implies out.to_set().contains(b) by {
            assert(gone.contains(b));
            let i = list.index_of(b);
            assert(list[i] == b);
            list.lemma_filter_contains(|b: (u64, u64)| gone.contains(b), i);
        }
    }
    gone.unique_seq_to_set();
    out.lemma_cardinality_of_set();
    vstd::seq_lib::seq_to_set_is_finite(gone);
    vstd::seq_lib::seq_to_set_is_finite(out);
    vstd::set_lib::lemma_len_subset(gone.to_set(), out.to_set());
}

proof fn lemma_filter_parts(list: Seq<(u64, u64)>, gone: Seq<(u64, u64)>)
    ensures
        multi_source::without_blocks(list, gone).len() + list.filter(
            |b: (u64, u64)| gone.contains(b),
        ).len() == list.len(),
    decreases list.len(),
{
    reveal(Seq::filter);
    if list.len() > 0 {
        lemma_filter_parts(list.drop_last(), gone);
    }
}

/// The window does not grow: where the blocks that were completed are blocks of the window, no
/// more are in flight after they were replaced than before.
pub proof fn law_the_window_does_not_grow(
    run: &PeerRun,
    before: &PeerRun,
    dl0: &Download,
    dl2: &Download,
    done: Seq<(u64, u64)>,
    out: Seq<Outgoing>,
)
    requires
        run.window_kept(before, dl0, dl2, done, out),
        done.no_duplicates(),
        forall|b: (u64, u64)| #[trigger] done.contains(b) ==> before.window@.contains(b),
    ensures
        run.window@.len() <= before.window@.len(),
{
    let (dl1, more) = choose|dl1: Download, more: Seq<(u64, u64)>| #[trigger]
        run.topped_up(before, dl0, &dl1, dl2, done, more, out);
    lemma_removed_len(before.window@, done);
    assert(more.len() <= done.len());
}

/// A round starts with a window of at most as many blocks as are kept in flight, and all of
/// them are reserved for this session.
pub proof fn law_a_fresh_window_is_bounded_and_reserved(
    run: &PeerRun,
    before: &PeerRun,
    dl0: &Download,
    dl1: &Download,
    out: Seq<Outgoing>,
    b: (u64, u64),
)
    requires
        run.fetch_begun(before, dl0, dl1, out, None),
        run.window@.contains(b),
    ensures
        run.window@.len() <= STANDARD_BLOCKS_REQUEST,
        dl1.reserved@.contains(b),
        run.held@.contains(b),
{
    let blocks = choose|blocks: Seq<(u64, u64)>| #[trigger]
        dl1.took(dl0, &before.status, STANDARD_BLOCKS_REQUEST as nat, blocks) && if blocks.len()
            == 0 {
            *run == *before && out.len() == 0 && None::<SessionEnd> == Some(
                SessionEnd::Done(before.delivered),
            )
        } else {
            &&& out.len() == 1
            &&& out[0] matches Outgoing::RequestParts(v) && v@ == blocks
            &&& run.held@ == before.held@ + blocks
            &&& run.window@ == blocks
        };
    lemma_appended(dl0.reserved@, blocks);
    lemma_appended(before.held@, blocks);
}

/// However a session ends, none of the blocks that it held stays reserved for it, and the
/// blocks of other sessions stay reserved.
pub proof fn law_a_closed_session_strands_no_block(
    before: &Download,
    after: &Download,
    held: Seq<(u64, u64)>,
    b: (u64, u64),
)
    requires
        after.reserved@ == multi_source::without_blocks(before.reserved@, held),
    ensures
        held.contains(b) ==> !after.reserved@.contains(b),
        !held.contains(b) ==> after.reserved@.contains(b) == before.reserved@.contains(b),
{
    multi_source::law_release_is_exact(before.reserved@, held, b);
}

/// A session that could go on does: where blocks were completed and nothing is asked for in their
/// place, every missing byte of a part that the peer holds is in a block that somebody else was
/// asked for, and the file is not near its end.
pub proof fn law_a_completed_block_is_replaced(
    run: &PeerRun,
    before: &PeerRun,
    dl0: &Download,
    dl2: &Download,
    done: Seq<(u64, u64)>,
    b: int,
)
    requires
        dl0.wf(),
        !dl0.cancelled,
        run.window_kept(before, dl0, dl2, done, Seq::empty()),
        done.len() > 0,
        !before.no_more,
        0 <= b < dl0.store.pf.size,
        dl0.store.pf.needs(b),
        before.status.complete || b / 9_728_000 < before.status.parts@.len()
            && before.status.parts@[b / 9_728_000],
    ensures
        Set::new(|x: int| dl0.store.pf.needs(x)).len() > 4 * 184_320,
        exists|r: (u64, u64)|
            {
                let cell = b - b % 9_728_000 % 184_320;
                &&& #[trigger] dl0.reserved@.contains(r)
                &&& !done.contains(r)
                &&& r.0 < cell + 184_320 && r.1 > cell
            },
{
    let none = Seq::<Outgoing>::empty();
    let (dl1, more) = choose|dl1: Download, more: Seq<(u64, u64)>| #[trigger]
        run.topped_up(before, dl0, &dl1, dl2, done, more, none);
    assert(more =~= Seq::empty());
    assert(dl1.wf());
    multi_source::law_a_peer_that_can_help_is_asked(&dl1, dl2, &before.status, done.len(), b);
    let k = choose|k: int|
        0 <= k < dl1.reserved@.len() && {
            let cell = b - b % 9_728_000 % 184_320;
            (#[trigger] dl1.reserved@[k]).0 < cell + 184_320 && dl1.reserved@[k].1 > cell
        };
    let r = dl1.reserved@[k];
    assert(dl1.reserved@.contains(r));
    multi_source::law_release_is_exact(dl0.reserved@, done, r);
    assert(Set::new(|x: int| dl0.store.pf.needs(x)) =~= Set::new(
        |x: int| dl1.store.pf.needs(x),
    ));
}

/// What is asked of the peer is what the session then holds and awaits: a completed block is
/// awaited no longer, and each block that is asked for is.
pub proof fn law_what_is_asked_for_is_awaited(
    run: &PeerRun,
    before: &PeerRun,
    dl0: &Download,
    dl2: &Download,
    done: Seq<(u64, u64)>,
    out: Seq<Outgoing>,
    b: (u64, u64),
)
    requires
        run.window_kept(before, dl0, dl2, done, out),
    ensures
        out.len() <= 1,
        out.len() == 1 ==> out[0] is RequestParts && out[0]->RequestParts_0@.len() <= done.len(),
        run.window@.contains(b) <==> {
            ||| before.window@.contains(b) && !done.contains(b)
            ||| out.len() == 1 && out[0]->RequestParts_0@.contains(b)
        },
        run.held@.contains(b) <==> {
            ||| before.held@.contains(b) && !done.contains(b)
            ||| out.len() == 1 && out[0]->RequestParts_0@.contains(b)
        },
        dl2.reserved@.contains(b) <==> {
            ||| dl0.reserved@.contains(b) && !done.contains(b)
            ||| out.len() == 1 && out[0]->RequestParts_0@.contains(b)
        },
{
    let (dl1, more) = choose|dl1: Download, more: Seq<(u64, u64)>| #[trigger]
        run.topped_up(before, dl0, &dl1, dl2, done, more, out);
    multi_source::law_release_is_exact(before.window@, done, b);
    multi_source::law_release_is_exact(before.held@, done, b);
    multi_source::law_release_is_exact(dl0.reserved@, done, b);
    lemma_in_concat(multi_source::without_blocks(before.window@, done), more, b);
    lemma_in_concat(multi_source::without_blocks(before.held@, done), more, b);
    lemma_in_concat(dl1.reserved@, more, b);
}

proof fn lemma_in_concat(a: Seq<(u64, u64)>, more: Seq<(u64, u64)>, b: (u64, u64))
    ensures
        (a + more).contains(b) <==> a.contains(b) || more.contains(b),
{
    let all = a + more;
    if a.contains(b) {
        assert(all[a.index_of(b)] == b);
    }
    if more.contains(b) {
        assert(all[a.len() + more.index_of(b)] == b);
    }
    if all.contains(b) {
        let i = all.index_of(b);
        if i < a.len() {
            assert(a[i] == b);
        } else {
            assert(more[i - a.len()] == b);
        }
    }
}

/// Which packet moves a session on: only the one that its phase waits for. A place in the queue
/// ends a session that does not wait, and nothing else; a slot is taken back only while blocks are
/// fetched, and block data counts only then.
pub proof fn law_a_session_moves_on_what_it_waits_for(phase: Phase, opcode: u8, bail: bool)
    ensures
        packet_use(phase, opcode, bail) is NoFile <==> phase is AwaitStatus && opcode == 0x48,
        packet_use(phase, opcode, bail) is Status <==> phase is AwaitStatus && opcode == 0x50,
        packet_use(phase, opcode, bail) is Hashset <==> phase is AwaitHashset && opcode == 0x52,
        packet_use(phase, opcode, bail) is Accept <==> phase is AwaitSlot && opcode == 0x55,
        packet_use(phase, opcode, bail) is Queued <==> phase is AwaitSlot && opcode == 0x60 && bail,
        packet_use(phase, opcode, bail) is Revoked <==> phase is Fetching && opcode == 0x57,
        packet_use(phase, opcode, bail) is Data ==> phase is Fetching,
        phase is Fetching && aux_use(opcode, true, true) is Ignored && opcode != 0x57
            ==> packet_use(phase, opcode, bail) is Data,
{
}

/// What counts from whom: a comment, a vote and a recovery answer only from a peer whose address is
/// known, and a recovery answer only while one is asked for.
pub proof fn law_what_counts_from_whom(opcode: u8, known: bool, asked: bool)
    ensures
        aux_use(opcode, known, asked) is Comment <==> opcode == 0x61 && known,
        aux_use(opcode, known, asked) is AichRoot <==> opcode == 0x9D && known,
        aux_use(opcode, known, asked) is AichAnswer <==> opcode == 0x9C && known && asked,
        aux_use(opcode, known, asked) is SecureIdent <==> 0x85 <= opcode <= 0x87,
        aux_use(opcode, known, asked) == (AuxUse::Sources { sx2: true }) <==> opcode == 0x84,
        aux_use(opcode, known, asked) == (AuxUse::Sources { sx2: false }) <==> opcode == 0x82,
{
}

/// A session opens with the file's name and id, asks for sources and for the root where it should
/// and may, and has the peer identify itself first where it can.
pub proof fn law_a_session_opens_with_what_it_may_ask(session: PeerSession)
    ensures
        opening(session).contains(Outgoing::RequestFileName),
        opening(session).contains(Outgoing::SetReqFileId),
        opening(session).contains(Outgoing::RequestSources) <==> session.ask_sources,
        opening(session).contains(Outgoing::AichFileHashRequest) <==> session.peer_aich % 2 == 1,
        opening(session).contains(Outgoing::SecIdentStart) <==> opening(session)[0]
            == Outgoing::SecIdentStart,
        opening(session)[0] == Outgoing::SecIdentStart <==> (session.sec matches Some(c)
            && c.peer_supports),
        !opening(session).contains(Outgoing::StartUpload),
{
    let o = opening(session);
    let k: int = if session.sec matches Some(c) && c.peer_supports {
        1
    } else {
        0
    };
    assert(o[k] == Outgoing::RequestFileName && o[k + 1] == Outgoing::SetReqFileId);
    if session.ask_sources {
        assert(o[k + 2] == Outgoing::RequestSources);
    }
    if session.peer_aich % 2 == 1 {
        assert(o[o.len() - 1] == Outgoing::AichFileHashRequest);
    }
    assert(o.len() <= 5);
}

/// Recovery data is asked for only of a source that is capable of it, while no ask is open, and
/// never for a part that the source refused; the ask is then open for that part.
pub proof fn law_a_refused_part_is_not_asked_for_again(
    run: &PeerRun,
    before: &PeerRun,
    aich0: &AichState,
    aich1: &AichState,
    size: u64,
    now: u64,
    ask: Outgoing,
)
    requires
        run.recovery_asked(before, aich0, aich1, size, now, Some(ask)),
    ensures
        before.session.peer_aich % 2 == 1,
        before.aich.asked is None,
        before.peer is Some,
        run.aich.asked is Some,
        !before.aich.refused@.contains(run.aich.asked->0),
        ask matches Outgoing::AichRequest { part, root } && part == run.aich.asked->0
            && aich0.trusted() == Some(root),
        aich1.owns(run.aich.asked->0, before.peer->0.ip),
{
}

/// A recovery answer is looked into only if it is for this file, for the part that was asked for,
/// and under the root that is trusted.
pub proof fn law_an_answer_must_fit_the_ask(
    run: &PeerRun,
    dl: &Download,
    hash: [u8; 16],
    part: u16,
    root: [u8; 20],
)
    ensures
        run.answer_fits(dl, hash, part, root) <==> {
            &&& hash@ == dl.store.pf.hash@
            &&& run.aich.asked == Some(part as u64)
            &&& dl.aich.master == Some(root)
            &&& dl.aich.status is Trusted || dl.aich.status is Verified
            &&& part * 9_728_000 < dl.store.pf.size
        },
{
}

/// The hashset is fetched if and only if the file has a full part and no part hash is known.
pub proof fn law_when_the_hashset_is_needed(dl: &Download)
    ensures
        needs_hashset(dl) <==> dl.store.pf.size >= 9_728_000 && dl.store.pf.part_hashes@.len() == 0,
{
}

} // verus!
