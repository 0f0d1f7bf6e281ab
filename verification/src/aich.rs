//! Trust in a file's AICH master root, and the parts that await block recovery with it.
//!
//! Every source may report a root. Each report is the vote of the source's network, and
//! one network signs at most one root. A root that enough networks sign, with few
//! dissenters, is trusted and may be used to ask a source for recovery data.
use vstd::prelude::*;
use crate::block_sources::BlockSources;
use crate::hash::same_hash20;
use crate::net::IpAddr;
use crate::part_file;
use crate::part_file::part_size;
use crate::proto::EMBLOCKSIZE;

verus! {

/// The distinct networks that have to sign a root before it is trusted.
pub const AICH_MIN_UNIQUE_IPS: usize = 10;

/// The share of the votes, in percent, that a trusted root has.
pub const AICH_MIN_PERCENT: usize = 92;

/// A pending recovery ask older than this, in seconds, is considered abandoned.
pub const AICH_CLAIM_STALE_SECS: u64 = 60;

/// The trust states of a master root.
#[derive(Debug, Clone, Copy, PartialEq, Eq, Structural)]
pub enum AichStatus {
    /// No root known yet.
    Empty,
    /// A root is known but has not met the vote threshold: recovery stays off.
    Untrusted,
    /// The root won the source vote.
    Trusted,
    /// The root is part of the file's identity: never displaced.
    Verified,
    /// Recovery proved a root wrong for this file. Terminal: no vote makes a root trusted again.
    Error,
}

/// The vote of one network.
#[derive(Debug, Clone, Copy)]
pub struct Vote {
    pub net: u32,
    pub root: [u8; 20],
}

/// The root that one source reported.
#[derive(Debug, Clone, Copy)]
pub struct Report {
    pub ip: IpAddr,
    pub root: [u8; 20],
}

/// Who asked for a part's recovery data, and when.
#[derive(Debug, Clone, Copy, PartialEq, Eq, Structural)]
pub struct Claim {
    pub owner: IpAddr,
    pub at: u64,
}

/// One part awaiting block recovery.
#[derive(Debug, Clone)]
pub struct PendingRecovery {
    pub part: u64,
    /// The live claim; `None` is unclaimed.
    pub claim: Option<Claim>,
    /// Who fed each of this part's blocks at the moment the part was blamed.
    pub contributors: BlockSources,
}

/// Master-root trust and recovery bookkeeping for one download.
#[derive(Debug, Clone)]
pub struct AichState {
    pub status: AichStatus,
    pub master: Option<[u8; 20]>,
    pub votes: Vec<Vote>,
    pub reported: Vec<Report>,
    pub pending: Vec<PendingRecovery>,
}

/// The network whose vote a source at `ip` casts: the leading 20 bits of an IPv4 address,
/// the leading 32 of an IPv6 address.
pub open spec fn vote_key(ip: IpAddr) -> int {
    match ip {
        IpAddr::V4(v) => v - v % 4096,
        IpAddr::V6(v) => v as int / 0x1_0000_0000_0000_0000_0000_0000,
    }
}

/// See [`vote_key`].
pub fn aich_vote_key(ip: IpAddr) -> (key: u32)
    ensures
        key == vote_key(ip),
{
    match ip {
        IpAddr::V4(v) => v - v % 4096,
        IpAddr::V6(v) => (v / 0x1_0000_0000_0000_0000_0000_0000) as u32,
    }
}

/// How many votes of the list are for `root`.
pub open spec fn support(votes: Seq<Vote>, root: [u8; 20]) -> nat {
    votes.filter(|v: Vote| v.root == root).len()
}

/// `root` leads the vote: none has more votes, and it has one.
pub open spec fn leads(votes: Seq<Vote>, root: [u8; 20]) -> bool {
    &&& support(votes, root) > 0
    &&& forall|r: [u8; 20]| #[trigger] support(votes, r) <= support(votes, root)
}

/// The votes are enough to trust the leader, which has `most` of them.
pub open spec fn convincing(votes: Seq<Vote>, most: nat) -> bool {
    &&& most >= AICH_MIN_UNIQUE_IPS
    &&& 100 * most / votes.len() >= AICH_MIN_PERCENT as nat
}

/// Network `net` has signed `root`.
pub open spec fn signed(votes: Seq<Vote>, net: u32, root: [u8; 20]) -> bool {
    exists|i: int| 0 <= i < votes.len() && (#[trigger] votes[i]).net == net && votes[i].root == root
}

/// Network `net` has signed some root.
pub open spec fn has_signed(votes: Seq<Vote>, net: u32) -> bool {
    exists|i: int| 0 <= i < votes.len() && (#[trigger] votes[i]).net == net
}

/// The root that the source at `ip` reported last.
pub open spec fn reported_root(reported: Seq<Report>, ip: IpAddr) -> Option<[u8; 20]>
    decreases reported.len(),
{
    if reported.len() == 0 {
        None
    } else if reported.last().ip == ip {
        Some(reported.last().root)
    } else {
        reported_root(reported.drop_last(), ip)
    }
}

proof fn lemma_reported_root(reported: Seq<Report>, ip: IpAddr)
    requires
        forall|i: int, j: int|
            0 <= i < j < reported.len() ==> (#[trigger] reported[i]).ip != (#[trigger] reported[j]).ip,
    ensures
        forall|i: int|
            0 <= i < reported.len() && (#[trigger] reported[i]).ip == ip ==> reported_root(
                reported,
                ip,
            ) == Some(reported[i].root),
        reported_root(reported, ip) is Some ==> exists|i: int|
            0 <= i < reported.len() && (#[trigger] reported[i]).ip == ip,
    decreases reported.len(),
{
    if reported.len() > 0 {
        let less = reported.drop_last();
        assert(forall|i: int| 0 <= i < less.len() ==> less[i] == reported[i]);
        lemma_reported_root(less, ip);
        if reported.last().ip == ip {
            assert(reported[reported.len() - 1].ip == ip);
        } else {
            if reported_root(reported, ip) is Some {
                let i = choose|i: int| 0 <= i < less.len() && (#[trigger] less[i]).ip == ip;
                assert(reported[i].ip == ip);
            }
            assert forall|i: int|
                0 <= i < reported.len() && (#[trigger] reported[i]).ip == ip implies reported_root(
                reported,
                ip,
            ) == Some(reported[i].root) by {
                assert(less[i] == reported[i]);
            }
        }
    }
}

proof fn lemma_support_push(votes: Seq<Vote>, v: Vote, root: [u8; 20])
    ensures
        support(votes.push(v), root) == support(votes, root) + (if v.root == root {
            1nat
        } else {
            0nat
        }),
        support(votes, root) <= votes.len(),
{
    reveal(Seq::filter);
    assert(votes.push(v).drop_last() =~= votes);
    lemma_filter_len(votes, root);
}

proof fn lemma_filter_len(votes: Seq<Vote>, root: [u8; 20])
    ensures
        support(votes, root) <= votes.len(),
    decreases votes.len(),
{
    reveal(Seq::filter);
    if votes.len() > 0 {
        lemma_filter_len(votes.drop_last(), root);
    }
}

/// A root with a vote is one that some network signed.
proof fn lemma_support_witness(votes: Seq<Vote>, root: [u8; 20])
    ensures
        support(votes, root) > 0 <==> exists|i: int|
            0 <= i < votes.len() && (#[trigger] votes[i]).root == root,
    decreases votes.len(),
{
    reveal(Seq::filter);
    if votes.len() > 0 {
        let less = votes.drop_last();
        lemma_support_witness(less, root);
        assert(less.push(votes.last()) =~= votes);
        lemma_support_push(less, votes.last(), root);
        if votes.last().root == root {
            assert(votes[votes.len() - 1].root == root);
        }
        if exists|i: int| 0 <= i < less.len() && (#[trigger] less[i]).root == root {
            let i = choose|i: int| 0 <= i < less.len() && (#[trigger] less[i]).root == root;
            assert(votes[i].root == root);
        }
        if exists|i: int| 0 <= i < votes.len() && (#[trigger] votes[i]).root == root {
            let i = choose|i: int| 0 <= i < votes.len() && (#[trigger] votes[i]).root == root;
            if i < less.len() {
                assert(less[i].root == root);
            }
        }
    }
}

/// Count the votes for `root`.
fn count_votes(votes: &Vec<Vote>, root: &[u8; 20]) -> (n: usize)
    ensures
        n == support(votes@, *root),
{
    let mut n: usize = 0;
    let mut i: usize = 0;
    proof {
        reveal(Seq::filter);
        assert(votes@.take(0) =~= Seq::<Vote>::empty());
    }
    while i < votes.len()
        invariant
            i <= votes.len(),
            n == support(votes@.take(i as int), *root),
            n <= i,
        decreases votes.len() - i,
    {
        proof {
            assert(votes@.take(i + 1) =~= votes@.take(i as int).push(votes@[i as int]));
            lemma_support_push(votes@.take(i as int), votes@[i as int], *root);
        }
        if same_hash20(&votes[i].root, root) {
            n = n + 1;
        }
        i = i + 1;
    }
    assert(votes@.take(i as int) =~= votes@);
    n
}

/// A leading root, and how many votes it has.
fn leading_root(votes: &Vec<Vote>) -> (best: ([u8; 20], usize))
    requires
        votes@.len() > 0,
    ensures
        leads(votes@, best.0),
        best.1 == support(votes@, best.0),
{
    let mut best: [u8; 20] = votes[0].root;
    let mut most: usize = count_votes(votes, &best);
    let mut i: usize = 1;
    proof {
        lemma_support_witness(votes@, best);
        assert(votes@[0].root == best);
    }
    while i < votes.len()
        invariant
            i <= votes.len(),
            most == support(votes@, best),
            most > 0,
            forall|j: int| 0 <= j < i ==> support(votes@, (#[trigger] votes@[j]).root) <= most,
        decreases votes.len() - i,
    {
        let n: usize = count_votes(votes, &votes[i].root);
        if n > most {
            best = votes[i].root;
            most = n;
        }
        i = i + 1;
    }
    proof {
        assert forall|r: [u8; 20]| #[trigger] support(votes@, r) <= support(votes@, best) by {
            lemma_support_witness(votes@, r);
        }
    }
    (best, most)
}

impl AichState {
    /// No network voted twice, no source reported twice, no part awaits recovery twice.
    pub open spec fn wf(&self) -> bool {
        &&& forall|i: int, j: int|
            0 <= i < j < self.votes@.len() ==> (#[trigger] self.votes@[i]).net != (
            #[trigger] self.votes@[j]).net
        &&& forall|i: int, j: int|
            0 <= i < j < self.reported@.len() ==> (#[trigger] self.reported@[i]).ip != (
            #[trigger] self.reported@[j]).ip
        &&& forall|i: int, j: int|
            0 <= i < j < self.pending@.len() ==> (#[trigger] self.pending@[i]).part != (
            #[trigger] self.pending@[j]).part
        &&& forall|i: int| 0 <= i < self.pending@.len() ==> (#[trigger] self.pending@[i]).contributors.wf()
    }

    /// Nothing known.
    pub fn new() -> (s: AichState)
        ensures
            s.wf(),
            s.status == AichStatus::Empty,
            s.master is None,
            s.votes@.len() == 0,
            s.reported@.len() == 0,
            s.pending@.len() == 0,
    {
        AichState {
            status: AichStatus::Empty,
            master: None,
            votes: Vec::new(),
            reported: Vec::new(),
            pending: Vec::new(),
        }
    }

    /// The root that recovery may use, where there is one.
    pub open spec fn trusted(&self) -> Option<[u8; 20]> {
        match self.status {
            AichStatus::Trusted | AichStatus::Verified => self.master,
            _ => None,
        }
    }

    /// The trusted or verified master root, if recovery is allowed to use one.
    pub fn trusted_root(&self) -> (root: Option<[u8; 20]>)
        ensures
            root == self.trusted(),
    {
        match self.status {
            AichStatus::Trusted | AichStatus::Verified => self.master,
            _ => None,
        }
    }

    /// Set the master root from the file's identity: it is verified.
    pub fn set_master_verified(&mut self, root: [u8; 20])
        requires
            old(self).wf(),
        ensures
            final(self).wf(),
            final(self).status == AichStatus::Verified,
            final(self).master == Some(root),
            final(self).votes == old(self).votes,
            final(self).reported == old(self).reported,
            final(self).pending == old(self).pending,
    {
        self.master = Some(root);
        self.status = AichStatus::Verified;
    }

    /// Remember the root that the source at `ip` reported.
    fn report(&mut self, ip: IpAddr, root: [u8; 20])
        requires
            old(self).wf(),
        ensures
            final(self).wf(),
            final(self).status == old(self).status,
            final(self).master == old(self).master,
            final(self).votes == old(self).votes,
            final(self).pending == old(self).pending,
            forall|q: IpAddr|
                #![trigger reported_root(final(self).reported@, q)]
                reported_root(final(self).reported@, q) == (if q == ip {
                    Some(root)
                } else {
                    reported_root(old(self).reported@, q)
                }),
    {
        let ghost was = self.reported@;
        let mut i: usize = 0;
        while i < self.reported.len()
            invariant
                i <= self.reported.len(),
                self == old(self),
                self.wf(),
                was == self.reported@,
                forall|j: int| 0 <= j < i ==> (#[trigger] was[j]).ip != ip,
            decreases self.reported.len() - i,
        {
            if self.reported[i].ip == ip {
                self.reported.set(i, Report { ip, root });
                proof {
                    let now = self.reported@;
                    assert forall|q: IpAddr|
                        #![trigger reported_root(now, q)]
                        reported_root(now, q) == (if q == ip {
                            Some(root)
                        } else {
                            reported_root(was, q)
                        }) by {
                        lemma_reported_root(was, q);
                        lemma_reported_root(now, q);
                        if q == ip {
                            assert(now[i as int].ip == ip);
                        } else {
                            if reported_root(was, q) is Some {
                                let k = choose|k: int| 0 <= k < was.len() && (#[trigger] was[k]).ip == q;
                                assert(now[k] == was[k]);
                            }
                            if reported_root(now, q) is Some {
                                let k = choose|k: int| 0 <= k < now.len() && (#[trigger] now[k]).ip == q;
                                assert(now[k] == was[k]);
                            }
                        }
                    }
                }
                return ;
            }
            i = i + 1;
        }
        self.reported.push(Report { ip, root });
        proof {
            let now = self.reported@;
            assert(now.drop_last() =~= was);
        }
    }

    /// The root that the source at `ip` reported.
    pub fn report_of(&self, ip: IpAddr) -> (root: Option<[u8; 20]>)
        requires
            self.wf(),
        ensures
            root == reported_root(self.reported@, ip),
    {
        proof {
            lemma_reported_root(self.reported@, ip);
        }
        let mut i: usize = 0;
        while i < self.reported.len()
            invariant
                i <= self.reported.len(),
                forall|j: int| 0 <= j < i ==> (#[trigger] self.reported@[j]).ip != ip,
                forall|i: int|
                    0 <= i < self.reported@.len() && (#[trigger] self.reported@[i]).ip == ip
                        ==> reported_root(self.reported@, ip) == Some(self.reported@[i].root),
                reported_root(self.reported@, ip) is Some ==> exists|i: int|
                    0 <= i < self.reported@.len() && (#[trigger] self.reported@[i]).ip == ip,
            decreases self.reported.len() - i,
        {
            if self.reported[i].ip == ip {
                return Some(self.reported[i].root);
            }
            i = i + 1;
        }
        None
    }

    /// The vote of network `net` for `root` is in this state, whose votes were `before`:
    /// a root that leads the vote is the master, trusted iff the votes convince.
    pub open spec fn voted(&self, before: Seq<Vote>, net: u32, root: [u8; 20]) -> bool {
        &&& self.votes@ == (if has_signed(before, net) {
            before
        } else {
            before.push(Vote { net, root })
        })
        &&& self.master matches Some(best) && leads(self.votes@, best) && self.status == (
        if convincing(self.votes@, support(self.votes@, best)) {
            AichStatus::Trusted
        } else {
            AichStatus::Untrusted
        })
    }

    /// This is `before` after the source at `ip` reported `root`.
    pub open spec fn rooted(&self, before: &AichState, ip: IpAddr, root: [u8; 20]) -> bool {
        let net = vote_key(ip) as u32;
        let closed = before.status == AichStatus::Verified || before.status == AichStatus::Error;
        let other = has_signed(before.votes@, net) && !signed(before.votes@, net, root);
        &&& self.wf()
        &&& forall|q: IpAddr|
            #![trigger reported_root(self.reported@, q)]
            reported_root(self.reported@, q) == (if q == ip {
                Some(root)
            } else {
                reported_root(before.reported@, q)
            })
        &&& self.pending == before.pending
        &&& if closed || other {
            &&& self.status == before.status
            &&& self.master == before.master
            &&& self.votes == before.votes
        } else {
            self.voted(before.votes@, net, root)
        }
    }

    /// The source at `ip` reported its root: record it against the source, and vote.
    ///
    /// A network signs one root only: a vote for a second one is dropped. A verified root
    /// takes no votes, nor does a state in which a root was proved wrong.
    pub fn note_root(&mut self, ip: IpAddr, root: [u8; 20])
        requires
            old(self).wf(),
        ensures
            final(self).rooted(old(self), ip, root),
    {
        self.report(ip, root);
        match self.status {
            AichStatus::Verified | AichStatus::Error => {
                return ;
            },
            _ => {},
        }
        let net: u32 = aich_vote_key(ip);
        let ghost before = self.votes@;
        let mut i: usize = 0;
        let mut known: bool = false;
        while i < self.votes.len()
            invariant
                i <= self.votes.len(),
                self.votes@ == before,
                self.wf(),
                forall|q: IpAddr|
                    #![trigger reported_root(self.reported@, q)]
                    reported_root(self.reported@, q) == (if q == ip {
                        Some(root)
                    } else {
                        reported_root(old(self).reported@, q)
                    }),
                self.status == old(self).status,
                self.master == old(self).master,
                self.votes == old(self).votes,
                self.pending == old(self).pending,
                net == vote_key(ip),
                known == has_signed(before.take(i as int), net),
                known ==> signed(before, net, root),
            decreases self.votes.len() - i,
        {
            proof {
                let (less, more) = (before.take(i as int), before.take(i + 1));
                assert(more =~= less.push(before[i as int]));
                if has_signed(less, net) {
                    let k = choose|k: int| 0 <= k < less.len() && (#[trigger] less[k]).net == net;
                    assert(more[k].net == net);
                }
                assert(more[i as int] == before[i as int]);
                if has_signed(more, net) && before[i as int].net != net {
                    let k = choose|k: int| 0 <= k < more.len() && (#[trigger] more[k]).net == net;
                    assert(less[k].net == net);
                }
            }
            if self.votes[i].net == net {
                if !same_hash20(&self.votes[i].root, &root) {
                    proof {
                        assert(before[i as int].net == net);
                        if signed(before, net, root) {
                            let k = choose|k: int|
                                0 <= k < before.len() && (#[trigger] before[k]).net == net
                                    && before[k].root == root;
                            assert(self.votes@[k].net == self.votes@[i as int].net);
                            assert(false);
                        }
                    }
                    return ;
                }
                known = true;
            }
            i = i + 1;
        }
        assert(before.take(i as int) =~= before);
        if !known {
            self.votes.push(Vote { net, root });
            proof {
                assert forall|i: int, j: int| 0 <= i < j < self.votes@.len() implies (
                #[trigger] self.votes@[i]).net != (#[trigger] self.votes@[j]).net by {
                    assert(self.votes@[i] == before[i]);
                    if j < before.len() {
                        assert(self.votes@[j] == before[j]);
                    }
                }
            }
        }
        proof {
            lemma_filter_len(self.votes@, root);
        }
        let total: usize = self.votes.len();
        let (best, most) = leading_root(&self.votes);
        self.master = Some(best);
        proof {
            assert(100u128 * most / total as int == 100 * (most as nat) / (total as nat));
        }
        if most >= AICH_MIN_UNIQUE_IPS && 100 * (most as u128) / (total as u128)
            >= AICH_MIN_PERCENT as u128 {
            self.status = AichStatus::Trusted;
        } else {
            self.status = AichStatus::Untrusted;
        }
    }

    /// Part `part` awaits recovery.
    pub open spec fn awaits(&self, part: u64) -> bool {
        exists|i: int| 0 <= i < self.pending@.len() && (#[trigger] self.pending@[i]).part == part
    }

    /// The place of part `part` among those that await recovery.
    pub open spec fn place(&self, part: u64) -> int {
        choose|i: int| 0 <= i < self.pending@.len() && (#[trigger] self.pending@[i]).part == part
    }

    /// The live claim on part `part`.
    pub open spec fn claim_on(&self, part: u64) -> Option<Claim> {
        if self.awaits(part) {
            self.pending@[self.place(part)].claim
        } else {
            None
        }
    }

    /// Who fed each block of part `part` when it was blamed.
    pub open spec fn evidence(&self, part: u64) -> Map<u64, Set<IpAddr>> {
        if self.awaits(part) {
            self.pending@[self.place(part)].contributors@
        } else {
            Map::empty()
        }
    }

    /// Part `part` may be asked for at time `now`: it awaits recovery, fits the wire's part
    /// field, is larger than one block, and no live claim is on it.
    pub open spec fn claimable(&self, part: u64, size: u64, now: u64) -> bool {
        &&& self.awaits(part)
        &&& part <= 0xFFFF
        &&& part_file::part_end(part as int, size as int) - part_file::part_start(part as int) > EMBLOCKSIZE
        &&& match self.claim_on(part) {
            None => true,
            Some(c) => now - c.at > AICH_CLAIM_STALE_SECS,
        }
    }

    /// The source at `ip` may be asked for recovery data of a file of `size` bytes: there is
    /// a trusted root, the source reported it, and the file is larger than one block.
    pub open spec fn may_ask(&self, ip: IpAddr, size: u64) -> bool {
        &&& self.trusted() is Some
        &&& reported_root(self.reported@, ip) == self.trusted()
        &&& size > EMBLOCKSIZE
    }

    /// Only the claims differ, and only that on `part`, which is now `claim`.
    pub open spec fn reclaimed(&self, before: &AichState, part: u64, claim: Option<Claim>) -> bool {
        &&& self.wf()
        &&& self.status == before.status
        &&& self.master == before.master
        &&& self.votes == before.votes
        &&& self.reported == before.reported
        &&& forall|p: u64| #[trigger] self.awaits(p) <==> before.awaits(p)
        &&& forall|p: u64| #[trigger] self.evidence(p) == before.evidence(p)
        &&& forall|p: u64|
            #![trigger self.claim_on(p)]
            self.claim_on(p) == (if p == part && before.awaits(part) {
                claim
            } else {
                before.claim_on(p)
            })
    }

    /// The entry at `i` is the one for its part.
    proof fn lemma_place(&self, i: int)
        requires
            self.wf(),
            0 <= i < self.pending@.len(),
        ensures
            self.awaits(self.pending@[i].part),
            self.place(self.pending@[i].part) == i,
    {
        let part = self.pending@[i].part;
        assert(self.awaits(part));
        let k = self.place(part);
        assert(self.pending@[k].part == self.pending@[i].part);
    }

    /// Put `claim` on the entry at `i`.
    fn set_claim(&mut self, i: usize, claim: Option<Claim>)
        requires
            old(self).wf(),
            i < old(self).pending@.len(),
        ensures
            final(self).reclaimed(old(self), old(self).pending@[i as int].part, claim),
    {
        let part: u64 = self.pending[i].part;
        let contributors = self.pending[i].contributors.copy();
        let ghost was = *self;
        self.pending.set(i, PendingRecovery { part, claim, contributors });
        proof {
            let now = *self;
            assert(now.wf());
            now.lemma_place(i as int);
            was.lemma_place(i as int);
            assert forall|p: u64| #[trigger] now.awaits(p) implies was.awaits(p) && now.place(p)
                == was.place(p) by {
                let k = now.place(p);
                assert(was.pending@[k].part == p);
                was.lemma_place(k);
            }
            assert forall|p: u64| #[trigger] was.awaits(p) implies now.awaits(p) by {
                let k = was.place(p);
                assert(now.pending@[k].part == p);
            }
            assert forall|p: u64| #[trigger] now.evidence(p) == was.evidence(p) by {
                if now.awaits(p) {
                } else if was.awaits(p) {
                }
            }
            assert forall|p: u64|
                #![trigger now.claim_on(p)]
                now.claim_on(p) == (if p == part && was.awaits(part) {
                    claim
                } else {
                    was.claim_on(p)
                }) by {
                if now.awaits(p) {
                    let k = now.place(p);
                    assert(was.place(p) == k);
                } else if was.awaits(p) {
                }
            }
        }
    }

    /// This is `before` after a source at `ip` asked for a claim and got `ask`.
    pub open spec fn claimed(
        &self,
        before: &AichState,
        ip: IpAddr,
        size: u64,
        now: u64,
        ask: Option<(u64, [u8; 20])>,
    ) -> bool {
        match ask {
            Some((part, root)) => {
                &&& before.may_ask(ip, size)
                &&& before.claimable(part, size, now)
                &&& before.trusted() == Some(root)
                &&& self.reclaimed(before, part, Some(Claim { owner: ip, at: now }))
            },
            None => {
                &&& *self == *before
                &&& !before.may_ask(ip, size) || forall|p: u64|
                    !#[trigger] before.claimable(p, size, now)
            },
        }
    }

    /// Claim one pending recovery ask for a source at `ip`. Which of the claimable parts it
    /// is, is left open. The claim expires by itself if the answer never comes.
    pub fn claim_recovery(&mut self, ip: IpAddr, size: u64, now: u64) -> (ask: Option<
        (u64, [u8; 20]),
    >)
        requires
            old(self).wf(),
            forall|p: u64| #[trigger] old(self).awaits(p) ==> part_file::part_start(p as int) <= size,
        ensures
            final(self).claimed(old(self), ip, size, now, ask),
    {
        let root = match self.trusted_root() {
            Some(r) => r,
            None => {
                return None;
            },
        };
        match self.report_of(ip) {
            Some(r) => {
                if !same_hash20(&r, &root) {
                    return None;
                }
            },
            None => {
                return None;
            },
        }
        if size <= EMBLOCKSIZE {
            return None;
        }
        let mut i: usize = 0;
        while i < self.pending.len()
            invariant
                i <= self.pending.len(),
                *self == *old(self),
                self.wf(),
                self.may_ask(ip, size),
                self.trusted() == Some(root),
                forall|p: u64| #[trigger] self.awaits(p) ==> part_file::part_start(p as int) <= size,
                forall|j: int|
                    0 <= j < i ==> !self.claimable((#[trigger] self.pending@[j]).part, size, now),
            decreases self.pending.len() - i,
        {
            proof {
                self.lemma_place(i as int);
            }
            let part: u64 = self.pending[i].part;
            let idle: bool = match self.pending[i].claim {
                None => true,
                Some(c) => now.saturating_sub(c.at) > AICH_CLAIM_STALE_SECS,
            };
            if part <= 0xFFFF && part_size(part, size) > EMBLOCKSIZE && idle {
                self.set_claim(i, Some(Claim { owner: ip, at: now }));
                return Some((part, root));
            }
            i = i + 1;
        }
        proof {
            assert forall|p: u64| !#[trigger] self.claimable(p, size, now) by {
                if self.awaits(p) {
                    let k = self.place(p);
                    assert(self.pending@[k].part == p);
                }
            }
        }
        None
    }

    /// The place of the entry for `part`.
    fn find(&self, part: u64) -> (at: Option<usize>)
        requires
            self.wf(),
        ensures
            match at {
                Some(i) => {
                    &&& i < self.pending@.len()
                    &&& self.pending@[i as int].part == part
                    &&& self.awaits(part)
                    &&& self.place(part) == i
                },
                None => !self.awaits(part),
            },
    {
        let mut i: usize = 0;
        while i < self.pending.len()
            invariant
                i <= self.pending.len(),
                self.wf(),
                forall|j: int| 0 <= j < i ==> (#[trigger] self.pending@[j]).part != part,
            decreases self.pending.len() - i,
        {
            if self.pending[i].part == part {
                proof {
                    self.lemma_place(i as int);
                }
                return Some(i);
            }
            i = i + 1;
        }
        None
    }

    /// The address `ip` owns the live claim on `part`.
    pub open spec fn owns(&self, part: u64, ip: IpAddr) -> bool {
        self.claim_on(part) matches Some(c) && c.owner == ip
    }

    /// True if `ip` currently owns the recovery claim on `part`.
    pub fn owns_claim(&self, part: u64, ip: IpAddr) -> (owns: bool)
        requires
            self.wf(),
        ensures
            owns == self.owns(part, ip),
    {
        match self.find(part) {
            Some(i) => match self.pending[i].claim {
                Some(c) => c.owner == ip,
                None => false,
            },
            None => false,
        }
    }

    /// This is `before` after the ask of `ip` for part `part` failed.
    pub open spec fn failed(&self, before: &AichState, part: u64, ip: IpAddr) -> bool {
        self.reclaimed(
            before,
            part,
            if before.owns(part, ip) {
                None
            } else {
                before.claim_on(part)
            },
        )
    }

    /// A recovery ask failed: release the claim so another source can be asked. Only the
    /// claim's owner may release it.
    pub fn recovery_failed(&mut self, part: u64, ip: IpAddr)
        requires
            old(self).wf(),
        ensures
            final(self).failed(old(self), part, ip),
    {
        match self.find(part) {
            Some(i) => {
                let owned: bool = match self.pending[i].claim {
                    Some(c) => c.owner == ip,
                    None => false,
                };
                if owned {
                    self.set_claim(i, None);
                }
            },
            None => {},
        }
    }

    /// Queue a part for recovery with the evidence of who fed its blocks. Of a part that is
    /// queued already, the blocks just blamed replace the earlier evidence, and the rest is
    /// kept, as is the claim.
    pub fn queue(&mut self, part: u64, contributors: &BlockSources)
        requires
            old(self).wf(),
            contributors.wf(),
        ensures
            final(self).wf(),
            final(self).status == old(self).status,
            final(self).master == old(self).master,
            final(self).votes == old(self).votes,
            final(self).reported == old(self).reported,
            forall|p: u64| #[trigger] final(self).awaits(p) <==> old(self).awaits(p) || p == part,
            forall|p: u64|
                #![trigger final(self).claim_on(p)]
                final(self).claim_on(p) == old(self).claim_on(p),
            forall|p: u64|
                #![trigger final(self).evidence(p)]
                final(self).evidence(p) == (if p == part {
                    old(self).evidence(p).union_prefer_right(contributors@)
                } else {
                    old(self).evidence(p)
                }),
    {
        let ghost was = *self;
        match self.find(part) {
            Some(i) => {
                let claim = self.pending[i].claim;
                let mut all = self.pending[i].contributors.copy();
                all.extend(contributors);
                self.pending.set(i, PendingRecovery { part, claim, contributors: all });
                proof {
                    let now = *self;
                    assert(now.wf());
                    assert forall|p: u64| #[trigger] now.awaits(p) implies was.awaits(p)
                        && now.place(p) == was.place(p) by {
                        let k = now.place(p);
                        assert(was.pending@[k].part == p);
                        was.lemma_place(k);
                    }
                    assert forall|p: u64| #[trigger] was.awaits(p) implies now.awaits(p) by {
                        let k = was.place(p);
                        assert(now.pending@[k].part == p);
                    }
                    assert forall|p: u64|
                        #![trigger now.claim_on(p)]
                        now.claim_on(p) == was.claim_on(p) by {
                        if now.awaits(p) {
                        } else if was.awaits(p) {
                        }
                    }
                    assert forall|p: u64|
                        #![trigger now.evidence(p)]
                        now.evidence(p) == (if p == part {
                            was.evidence(p).union_prefer_right(contributors@)
                        } else {
                            was.evidence(p)
                        }) by {
                        if now.awaits(p) {
                            assert(now.place(p) == was.place(p));
                        } else if was.awaits(p) {
                        }
                    }
                }
            },
            None => {
                self.pending.push(
                    PendingRecovery { part, claim: None, contributors: contributors.copy() },
                );
                proof {
                    let now = *self;
                    let n = was.pending@.len() as int;
                    assert(now.wf()) by {
                        assert forall|i: int, j: int| 0 <= i < j < now.pending@.len() implies (
                        #[trigger] now.pending@[i]).part != (#[trigger] now.pending@[j]).part by {
                            assert(now.pending@[i] == was.pending@[i]);
                            if j < n {
                                assert(now.pending@[j] == was.pending@[j]);
                            } else {
                                assert(was.awaits(was.pending@[i].part));
                            }
                        }
                    }
                    now.lemma_place(n);
                    assert forall|p: u64| #[trigger] was.awaits(p) implies now.awaits(p)
                        && now.place(p) == was.place(p) && p != part by {
                        let k = was.place(p);
                        assert(now.pending@[k].part == p);
                        now.lemma_place(k);
                    }
                    assert forall|p: u64| #[trigger] now.awaits(p) && p != part implies was.awaits(
                        p,
                    ) by {
                        let k = now.place(p);
                        assert(was.pending@[k].part == p);
                    }
                    assert forall|p: u64|
                        #![trigger now.claim_on(p)]
                        now.claim_on(p) == was.claim_on(p) by {
                        if was.awaits(p) {
                        } else if now.awaits(p) {
                        }
                    }
                    assert(Map::<u64, Set<IpAddr>>::empty().union_prefer_right(contributors@)
                        =~= contributors@);
                    assert forall|p: u64|
                        #![trigger now.evidence(p)]
                        now.evidence(p) == (if p == part {
                            was.evidence(p).union_prefer_right(contributors@)
                        } else {
                            was.evidence(p)
                        }) by {
                        if was.awaits(p) {
                        } else if now.awaits(p) {
                        }
                    }
                }
            },
        }
    }

    /// The evidence against the senders of part `part`.
    pub fn evidence_for(&self, part: u64) -> (contributors: BlockSources)
        requires
            self.wf(),
        ensures
            contributors.wf(),
            contributors@ == self.evidence(part),
    {
        match self.find(part) {
            Some(i) => self.pending[i].contributors.copy(),
            None => BlockSources::new(),
        }
    }

    /// Part `part` no longer awaits recovery.
    pub fn settle(&mut self, part: u64)
        requires
            old(self).wf(),
        ensures
            final(self).wf(),
            final(self).status == old(self).status,
            final(self).master == old(self).master,
            final(self).votes == old(self).votes,
            final(self).reported == old(self).reported,
            forall|p: u64| #[trigger] final(self).awaits(p) <==> old(self).awaits(p) && p != part,
            forall|p: u64|
                #![trigger final(self).claim_on(p)]
                p != part ==> final(self).claim_on(p) == old(self).claim_on(p),
            forall|p: u64|
                #![trigger final(self).evidence(p)]
                p != part ==> final(self).evidence(p) == old(self).evidence(p),
    {
        match self.find(part) {
            Some(i) => {
                let ghost was = *self;
                self.pending.remove(i);
                proof {
                    let now = *self;
                    let at = i as int;
                    assert(now.pending@ == was.pending@.remove(at));
                    assert(forall|k: int| 0 <= k < at ==> now.pending@[k] == was.pending@[k]);
                    assert(forall|k: int|
                        at <= k < now.pending@.len() ==> now.pending@[k] == was.pending@[k + 1]);
                    assert(now.wf());
                    assert forall|p: u64| #[trigger] now.awaits(p) implies was.awaits(p) && p
                        != part && now.pending@[now.place(p)] == was.pending@[was.place(p)] by {
                        let k = now.place(p);
                        if k < at {
                            was.lemma_place(k);
                        } else {
                            was.lemma_place(k + 1);
                        }
                    }
                    assert forall|p: u64| #[trigger] was.awaits(p) && p != part implies now.awaits(
                        p,
                    ) by {
                        let k = was.place(p);
                        if k < at {
                            assert(now.pending@[k].part == p);
                        } else {
                            assert(now.pending@[k - 1].part == p);
                        }
                    }
                    assert forall|p: u64|
                        #![trigger now.claim_on(p)]
                        p != part implies now.claim_on(p) == was.claim_on(p) by {
                        if now.awaits(p) {
                        } else if was.awaits(p) {
                        }
                    }
                    assert forall|p: u64|
                        #![trigger now.evidence(p)]
                        p != part implies now.evidence(p) == was.evidence(p) by {
                        if now.awaits(p) {
                        } else if was.awaits(p) {
                        }
                    }
                }
            },
            None => {},
        }
    }

    /// The root was proved wrong for this file: trust none again, and stop all recovery.
    pub fn poison(&mut self)
        requires
            old(self).wf(),
        ensures
            final(self).wf(),
            final(self).status == AichStatus::Error,
            final(self).master is None,
            final(self).votes == old(self).votes,
            final(self).reported == old(self).reported,
            final(self).pending@.len() == 0,
    {
        self.status = AichStatus::Error;
        self.master = None;
        self.pending = Vec::new();
    }
}

/// What a vote leaves trusted has the votes of enough networks and of nearly all of them.
pub proof fn law_trust_needs_agreement(
    before: &AichState,
    after: &AichState,
    net: u32,
    root: [u8; 20],
)
    requires
        after.voted(before.votes@, net, root),
    ensures
        after.status == AichStatus::Trusted || after.status == AichStatus::Untrusted,
        after.trusted() is Some ==> after.votes@.len() >= AICH_MIN_UNIQUE_IPS && support(
            after.votes@,
            after.trusted()->0,
        ) * 100 >= AICH_MIN_PERCENT * after.votes@.len(),
{
    if let Some(best) = after.trusted() {
        lemma_filter_len(after.votes@, best);
        let most = support(after.votes@, best);
        let n = after.votes@.len();
        assert(convincing(after.votes@, most));
        assert(100 * most / n >= 92);
        assert(100 * most >= 92 * n) by (nonlinear_arith)
            requires
                100 * most / n >= 92,
                n > 0,
        ;
    }
}

/// A root that is part of the file's identity is not displaced by any report, and once a root
/// was proved wrong no report makes one trusted again.
pub proof fn law_votes_change_no_closed_state(
    before: &AichState,
    after: &AichState,
    ip: IpAddr,
    root: [u8; 20],
)
    requires
        after.rooted(before, ip, root),
        before.status == AichStatus::Verified || before.status == AichStatus::Error,
    ensures
        after.status == before.status,
        after.trusted() == before.trusted(),
        before.status == AichStatus::Error ==> after.trusted() is None,
{
}

/// A network that signed a root cannot sign another one: its report of another one changes no
/// vote and no trust.
pub proof fn law_one_network_signs_one_root(
    before: &AichState,
    after: &AichState,
    ip: IpAddr,
    root: [u8; 20],
    other: [u8; 20],
)
    requires
        after.rooted(before, ip, root),
        signed(before.votes@, vote_key(ip) as u32, other),
        !signed(before.votes@, vote_key(ip) as u32, root),
    ensures
        after.votes == before.votes,
        after.trusted() == before.trusted(),
{
    let net = vote_key(ip) as u32;
    let i = choose|i: int|
        0 <= i < before.votes@.len() && (#[trigger] before.votes@[i]).net == net
            && before.votes@[i].root == other;
    assert(has_signed(before.votes@, net));
}

/// At most one root can be trusted: of two roots, only one leads convincingly.
pub proof fn law_one_root_convinces(votes: Seq<Vote>, a: [u8; 20], b: [u8; 20])
    requires
        leads(votes, a),
        convincing(votes, support(votes, a)),
        convincing(votes, support(votes, b)),
    ensures
        a == b,
{
    if a != b {
        lemma_two_supports(votes, a, b);
        let (x, y, n) = (support(votes, a), support(votes, b), votes.len());
        assert(n > 0);
        assert(100 * x >= 92 * n) by (nonlinear_arith)
            requires
                100 * x / n >= 92,
                n > 0,
        ;
        assert(100 * y >= 92 * n) by (nonlinear_arith)
            requires
                100 * y / n >= 92,
                n > 0,
        ;
    }
}

proof fn lemma_two_supports(votes: Seq<Vote>, a: [u8; 20], b: [u8; 20])
    requires
        a != b,
    ensures
        support(votes, a) + support(votes, b) <= votes.len(),
    decreases votes.len(),
{
    reveal(Seq::filter);
    if votes.len() > 0 {
        lemma_two_supports(votes.drop_last(), a, b);
    }
}

/// The networks: the sources of one IPv4 /20 share a vote, as do those of one IPv6 /32, and no
/// others of their kind do.
pub proof fn law_a_network_shares_a_vote(a: u32, b: u32, c: u128, d: u128)
    ensures
        vote_key(IpAddr::V4(a)) == vote_key(IpAddr::V4(b)) <==> a / 4096 == b / 4096,
        vote_key(IpAddr::V6(c)) == vote_key(IpAddr::V6(d)) <==> c
            / 0x1_0000_0000_0000_0000_0000_0000 == d / 0x1_0000_0000_0000_0000_0000_0000,
{
}

/// The first report from a network is a vote for the root it names: that root gains one vote, and
/// no other root gains or loses any.
pub proof fn law_a_new_network_adds_one_vote(
    before: &AichState,
    after: &AichState,
    ip: IpAddr,
    root: [u8; 20],
    other: [u8; 20],
)
    requires
        after.rooted(before, ip, root),
        before.status != AichStatus::Verified,
        before.status != AichStatus::Error,
        forall|i: int|
            0 <= i < before.votes@.len() ==> (#[trigger] before.votes@[i]).net != vote_key(ip),
    ensures
        after.votes@.len() == before.votes@.len() + 1,
        after.votes@.filter(|v: Vote| v.root == other).len() == before.votes@.filter(
            |v: Vote| v.root == other,
        ).len() + (if other == root {
            1nat
        } else {
            0nat
        }),
{
    let net = vote_key(ip) as u32;
    lemma_vote_key_fits(ip);
    assert(!has_signed(before.votes@, net));
    lemma_support_push(before.votes@, Vote { net, root }, other);
}

proof fn lemma_vote_key_fits(ip: IpAddr)
    ensures
        vote_key(ip) as u32 == vote_key(ip),
{
}

/// After a vote a root is trusted if and only if ten networks or more signed it, and 92 of a
/// hundred votes or more are for it.
pub proof fn law_a_root_is_trusted_by_agreement(
    before: &AichState,
    after: &AichState,
    net: u32,
    vote: [u8; 20],
    root: [u8; 20],
)
    requires
        after.voted(before.votes@, net, vote),
    ensures
        after.trusted() == Some(root) <==> {
            let signed = after.votes@.filter(|v: Vote| v.root == root).len();
            signed >= 10 && 100 * signed >= 92 * after.votes@.len()
        },
{
    let votes = after.votes@;
    let n = votes.len();
    let best = after.master->0;
    let (x, most) = (support(votes, root), support(votes, best));
    lemma_filter_len(votes, root);
    lemma_filter_len(votes, best);
    assert(x <= most);
    if x >= 10 && 100 * x >= 92 * n {
        assert(100 * x / n >= 92) by (nonlinear_arith)
            requires
                100 * x >= 92 * n,
                n > 0,
        ;
        assert(100 * most / n >= 92) by (nonlinear_arith)
            requires
                100 * most >= 92 * n,
                n > 0,
        ;
        law_one_root_convinces(votes, best, root);
    }
    if after.trusted() == Some(root) {
        assert(100 * x >= 92 * n) by (nonlinear_arith)
            requires
                100 * x / n >= 92,
                n > 0,
        ;
    }
}

/// Who is asked for recovery data, and of what: a source that reported the trusted root, of a part
/// that awaits recovery, has more than one block, and whose last ask is over or more than a minute
/// old. The ask is then that source's.
pub proof fn law_an_ask_goes_to_an_eligible_source(
    before: &AichState,
    after: &AichState,
    ip: IpAddr,
    size: u64,
    now: u64,
    part: u64,
    root: [u8; 20],
)
    requires
        after.claimed(before, ip, size, now, Some((part, root))),
        part * 9_728_000 <= size,
    ensures
        before.status == AichStatus::Trusted || before.status == AichStatus::Verified,
        before.master == Some(root),
        reported_root(before.reported@, ip) == Some(root),
        before.awaits(part),
        part <= 65_535,
        size - part * 9_728_000 > 184_320,
        before.claim_on(part) matches Some(c) ==> now > c.at + 60,
        after.owns(part, ip),
        forall|p: u64|
            p != part ==> #[trigger] after.claim_on(p) == before.claim_on(p),
{
}

/// No ask is held back without a reason: where none is made, there is no trusted root, or the
/// source did not report it, or every part that awaits recovery is too small, too far, or asked of
/// another source within the last minute.
pub proof fn law_no_ask_is_held_back(
    before: &AichState,
    after: &AichState,
    ip: IpAddr,
    size: u64,
    now: u64,
    part: u64,
    root: [u8; 20],
)
    requires
        before.status == AichStatus::Trusted || before.status == AichStatus::Verified,
        before.master == Some(root),
        reported_root(before.reported@, ip) == Some(root),
        before.awaits(part),
        part <= 65_535,
        size >= part * 9_728_000 + 184_321,
        before.claim_on(part) matches Some(c) ==> now > c.at + 60,
    ensures
        !after.claimed(before, ip, size, now, None),
{
    assert(before.claimable(part, size, now));
}

/// A part is asked of one source at a time: within a minute of an ask no other source is asked for
/// it, unless the ask was given up.
pub proof fn law_a_live_ask_is_exclusive(
    before: &AichState,
    mid: &AichState,
    after: &AichState,
    first: IpAddr,
    second: IpAddr,
    size: u64,
    then: u64,
    now: u64,
    part: u64,
    root: [u8; 20],
    ask: Option<(u64, [u8; 20])>,
)
    requires
        mid.claimed(before, first, size, then, Some((part, root))),
        after.claimed(mid, second, size, now, ask),
        now <= then + 60,
    ensures
        ask matches Some((p, _)) ==> p != part,
{
    assert(mid.claim_on(part) == Some(Claim { owner: first, at: then }));
}

/// An ask is given up by its owner and by nobody else.
pub proof fn law_only_its_owner_gives_an_ask_up(
    before: &AichState,
    after: &AichState,
    part: u64,
    owner: IpAddr,
    ip: IpAddr,
)
    requires
        before.owns(part, owner),
        after.failed(before, part, ip),
    ensures
        ip == owner ==> after.claim_on(part) is None && after.awaits(part),
        ip != owner ==> after.owns(part, owner),
        forall|p: u64| p != part ==> #[trigger] after.claim_on(p) == before.claim_on(p),
{
    assert(after.awaits(part) <==> before.awaits(part));
}

} // verus!
