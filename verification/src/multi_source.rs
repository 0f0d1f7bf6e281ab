//! Downloading one file from several peers at once.
//!
//! A [`Download`] holds what is known of the file, the blocks that peers have been asked
//! for, the sources met so far, and who sent which block. Each peer claims blocks that
//! nobody else is fetching, asks for them, and gives back those that it did not get. A
//! reservation that is never given back is a block that no peer is offered again, so every
//! way out of a peer's session releases what the peer holds.
use vstd::prelude::*;
use crate::aich::{AichState, AichStatus};
use crate::aich_tree;
use crate::aich_tree::AichLeafHasher;
use crate::block_sources;
use crate::block_sources::{BlockSources, IpSet};
use crate::hash;
use crate::hash::{md4, same_hash16, same_hash20, sha1, Ed2kHasher};
use crate::net::{IpAddr, SocketAddr};
use crate::part_file;
use crate::part_file::{data_part_count, PartFile};
use crate::part_store::{PartStore, StoreError};
use crate::proto::{EMBLOCKSIZE, PARTSIZE};
use crate::text;
use crate::text::from_utf8_lossy;

verus! {

/// Within this many bytes of the end, reserved blocks are raced by several peers.
pub const ENDGAME_LIMIT: u64 = 737_280;

/// How long, in seconds, a source is counted after it was last heard from.
pub const SOURCE_FRESH_SECS: u64 = 180;

/// How a source was discovered.
#[derive(Debug, Clone, Copy, PartialEq, Eq, Structural)]
pub enum SourceOrigin {
    Server,
    Kad,
    PeerExchange,
}

/// What is known of one source.
#[derive(Debug, Clone)]
pub struct SourceInfo {
    pub addr: SocketAddr,
    /// Client software, for display.
    pub software: String,
    /// Whether the connection to it was obfuscated.
    pub obfuscated: bool,
    /// Whether it reported that it cannot be dialled.
    pub low_id: bool,
    /// Whether its identity was verified.
    pub verified: bool,
    /// Its rating of the file, 1 to 5; 0 is unrated.
    pub rating: u8,
    /// Its comment on the file; empty if none.
    pub comment: String,
    /// When it was last connected or last sent bytes, in seconds.
    pub last_seen: u64,
    pub origin: SourceOrigin,
}

/// A source that a peer named in a source exchange.
#[derive(Debug, Clone, Copy, PartialEq, Eq)]
pub struct SxSource {
    pub ip: u32,
    pub port: u16,
    pub server_ip: u32,
    pub server_port: u16,
    /// The hash that the source goes by, where the peer told it.
    pub user_hash: Option<[u8; 16]>,
    /// Which obfuscation the source supports and asks for, where the peer told it.
    pub crypt: Option<u8>,
}

/// Which parts a peer holds.
#[derive(Debug, Clone)]
pub struct FileStatus {
    /// The peer holds the whole file.
    pub complete: bool,
    pub parts: Vec<bool>,
}

impl FileStatus {
    /// The peer holds part `p`.
    pub open spec fn holds(&self, p: int) -> bool {
        self.complete || 0 <= p < self.parts@.len() && self.parts@[p]
    }

    /// The peer holds part `p`.
    pub fn has_part(&self, p: usize) -> (b: bool)
        ensures
            b == self.holds(p as int),
    {
        self.complete || (p < self.parts.len() && self.parts[p])
    }
}

/// One file being pulled from many peers.
pub struct Download {
    pub store: PartStore,
    /// Blocks that some peer has been asked for and has not delivered yet.
    pub reserved: Vec<(u64, u64)>,
    /// How many peer sessions reported to hold each part.
    pub availability: Vec<u32>,
    /// The sources met so far, one record per address.
    pub sources: Vec<SourceInfo>,
    pub cancelled: bool,
    /// Blocks are picked from the front instead of rarest first.
    pub preview: bool,
    /// Claimed by whoever runs the one finalize.
    pub finalizing: bool,
    /// A fetch task is live.
    pub fetching: bool,
    /// When the retry sweep last picked this download.
    pub last_retry_at: u64,
    /// When bytes last arrived; 0 is never.
    pub last_byte_at: u64,
    /// Who sent each block.
    pub block_sources: BlockSources,
    pub aich: AichState,
    /// Addresses caught delivering a corrupt part or block.
    pub banned: IpSet,
    /// Sources named by peers, waiting to be dialled.
    pub sx_sources: Vec<SxSource>,
    /// Peers already asked for sources.
    pub asked_sources: IpSet,
}

/// A record for `addr` is among the first `n`.
pub open spec fn knows(sources: Seq<SourceInfo>, addr: SocketAddr) -> bool {
    exists|i: int| 0 <= i < sources.len() && (#[trigger] sources[i]).addr == addr
}

/// The place of the record for `addr`.
pub open spec fn source_place(sources: Seq<SourceInfo>, addr: SocketAddr) -> int {
    choose|i: int| 0 <= i < sources.len() && (#[trigger] sources[i]).addr == addr
}

/// No address has two records.
pub open spec fn sources_wf(sources: Seq<SourceInfo>) -> bool {
    forall|i: int, j: int|
        0 <= i < j < sources.len() ==> (#[trigger] sources[i]).addr != (#[trigger] sources[j]).addr
}

/// The list without the ranges of `gone`.
pub open spec fn without_blocks(reserved: Seq<(u64, u64)>, gone: Seq<(u64, u64)>) -> Seq<
    (u64, u64),
> {
    reserved.filter(|b: (u64, u64)| !gone.contains(b))
}

/// Whether a range is in a list.
pub fn contains_block(blocks: &[(u64, u64)], b: (u64, u64)) -> (found: bool)
    ensures
        found == blocks@.contains(b),
{
    let mut i: usize = 0;
    while i < blocks.len()
        invariant
            i <= blocks@.len(),
            forall|j: int| 0 <= j < i ==> blocks@[j] != b,
        decreases blocks@.len() - i,
    {
        let x = blocks[i];
        if x.0 == b.0 && x.1 == b.1 {
            assert(blocks@[i as int] == b);
            return true;
        }
        i = i + 1;
    }
    false
}

/// See [`without_blocks`].
pub fn remove_blocks(list: &Vec<(u64, u64)>, gone: &[(u64, u64)]) -> (out: Vec<(u64, u64)>)
    ensures
        out@ == without_blocks(list@, gone@),
{
    let mut out: Vec<(u64, u64)> = Vec::new();
    let mut i: usize = 0;
    proof {
        reveal(Seq::filter);
        assert(list@.take(0) =~= Seq::empty());
    }
    while i < list.len()
        invariant
            i <= list@.len(),
            out@ == without_blocks(list@.take(i as int), gone@),
        decreases list@.len() - i,
    {
        proof {
            reveal(Seq::filter);
            assert(list@.take(i + 1).drop_last() =~= list@.take(i as int));
            assert(list@.take(i + 1).last() == list@[i as int]);
        }
        if !contains_block(gone, list[i]) {
            out.push(list[i]);
        }
        i = i + 1;
    }
    assert(list@.take(i as int) =~= list@);
    out
}

/// Append the ranges of `more`.
pub fn append_blocks(list: &mut Vec<(u64, u64)>, more: &[(u64, u64)])
    ensures
        final(list)@ == old(list)@ + more@,
{
    let mut i: usize = 0;
    assert(list@ =~= old(list)@ + more@.take(0));
    while i < more.len()
        invariant
            i <= more@.len(),
            list@ == old(list)@ + more@.take(i as int),
        decreases more@.len() - i,
    {
        list.push(more[i]);
        assert(list@ =~= old(list)@ + more@.take(i + 1));
        i = i + 1;
    }
    assert(more@.take(i as int) =~= more@);
}

/// The block of the lattice in which byte `b` lies, by its start.
pub open spec fn block_of(b: int) -> int {
    let from = part_file::part_start(part_file::part_of(b));
    from + (b - from) / (EMBLOCKSIZE as int) * EMBLOCKSIZE
}

/// The lattice block `k` has a byte in `[start, end)`.
pub open spec fn touches(start: int, end: int, k: int) -> bool {
    exists|b: int| start <= b < end && #[trigger] block_of(b) == k
}

impl Download {
    /// Everything but the store's file is consistent with it, and each set is one. A part
    /// boundary fits in 64 bits.
    pub open spec fn wf(&self) -> bool {
        &&& self.store.pf.wf()
        &&& self.store.pf.size <= u64::MAX - PARTSIZE
        &&& self.availability.len() == part_file::data_parts(self.store.pf.size as int)
        &&& sources_wf(self.sources@)
        &&& self.block_sources.wf()
        &&& self.aich.wf()
        &&& forall|p: u64| #[trigger]
            self.aich.awaits(p) ==> p < part_file::data_parts(self.store.pf.size as int)
        &&& self.banned.wf()
        &&& self.asked_sources.wf()
    }

    /// A download that has met nobody.
    pub fn new(store: PartStore) -> (d: Download)
        requires
            store.pf.wf(),
            store.pf.size <= u64::MAX - PARTSIZE,
            part_file::data_parts(store.pf.size as int) <= usize::MAX,
        ensures
            d.wf(),
            d.store == store,
            d.reserved@.len() == 0,
            forall|p: int| 0 <= p < d.availability@.len() ==> #[trigger] d.availability@[p] == 0,
            d.sources@.len() == 0,
            !d.cancelled,
            !d.preview,
            !d.finalizing,
            !d.fetching,
            d.last_retry_at == 0,
            d.last_byte_at == 0,
            d.block_sources@ == Map::<u64, Set<IpAddr>>::empty(),
            d.aich.status == AichStatus::Empty,
            d.aich.master is None,
            d.aich.votes@.len() == 0,
            d.aich.reported@.len() == 0,
            d.aich.pending@.len() == 0,
            d.banned@ == Set::<IpAddr>::empty(),
            d.sx_sources@.len() == 0,
            d.asked_sources@ == Set::<IpAddr>::empty(),
    {
        let parts: u64 = data_part_count(store.pf.size);
        let mut availability: Vec<u32> = Vec::new();
        let mut p: u64 = 0;
        while p < parts
            invariant
                p <= parts,
                availability@.len() == p,
                forall|q: int| 0 <= q < p ==> #[trigger] availability@[q] == 0,
            decreases parts - p,
        {
            availability.push(0);
            p = p + 1;
        }
        Download {
            store,
            reserved: Vec::new(),
            availability,
            sources: Vec::new(),
            cancelled: false,
            preview: false,
            finalizing: false,
            fetching: false,
            last_retry_at: 0,
            last_byte_at: 0,
            block_sources: BlockSources::new(),
            aich: AichState::new(),
            banned: IpSet::new(),
            sx_sources: Vec::new(),
            asked_sources: IpSet::new(),
        }
    }

    /// The blocks on offer to a peer with this status, in the order in which they are asked
    /// for, with the reserved ones kept off or not.
    pub open spec fn offers(
        &self,
        status: &FileStatus,
        max: nat,
        endgame: bool,
        out: Seq<(u64, u64)>,
    ) -> bool {
        self.store.pf.is_first_blocks(
            self.held_by(status),
            part_file::part_ranks(self.availability@, self.preview),
            part_file::respected(self.reserved@, endgame),
            max,
            out,
        )
    }

    /// Which parts a peer with this status holds.
    pub open spec fn held_by(&self, status: &FileStatus) -> Seq<bool> {
        Seq::new(
            part_file::data_parts(self.store.pf.size as int) as nat,
            |p: int| status.holds(p),
        )
    }

    /// The file is so near its end that reserved blocks may be raced.
    pub open spec fn near_end(&self) -> bool {
        let missing = part_file::byte_set(self.store.pf.gap_list()).len();
        0 < missing <= ENDGAME_LIMIT
    }

    fn held_table(&self, status: &FileStatus) -> (held: Vec<bool>)
        requires
            self.wf(),
        ensures
            held@ == self.held_by(status),
    {
        let mut held: Vec<bool> = Vec::new();
        let mut p: usize = 0;
        while p < self.availability.len()
            invariant
                p <= self.availability@.len(),
                self.wf(),
                held@ == self.held_by(status).take(p as int),
            decreases self.availability@.len() - p,
        {
            held.push(status.has_part(p));
            assert(held@ =~= self.held_by(status).take(p + 1));
            p = p + 1;
        }
        assert(held@ =~= self.held_by(status));
        held
    }

    /// Claim up to `max` blocks that a peer with this status can serve. If nothing is on
    /// offer but the file is nearly done, blocks that others were asked for are raced. A
    /// cancelled download hands out nothing.
    pub fn take_blocks(&mut self, status: &FileStatus, max: usize) -> (blocks: Vec<(u64, u64)>)
        requires
            old(self).wf(),
        ensures
            final(self).wf(),
            final(self).took(old(self), status, max as nat, blocks@),
    {
        if self.cancelled {
            let none: Vec<(u64, u64)> = Vec::new();
            assert(self.reserved@ =~= old(self).reserved@ + none@);
            return none;
        }
        let held = self.held_table(status);
        let missing: u64 = self.store.pf.missing();
        let mut blocks = self.store.pf.select_blocks(
            &held,
            self.reserved.as_slice(),
            max,
            &self.availability,
            false,
            self.preview,
        );
        assert(self.offers(status, max as nat, false, blocks@));
        let ghost first = blocks@;
        if blocks.len() == 0 && missing > 0 && missing <= ENDGAME_LIMIT {
            blocks = self.store.pf.select_blocks(
                &held,
                self.reserved.as_slice(),
                max,
                &self.availability,
                true,
                self.preview,
            );
        }
        append_blocks(&mut self.reserved, blocks.as_slice());
        assert(old(self).offers(status, max as nat, false, first));
        blocks
    }

    /// This is `before` after `blocks` were claimed for a peer with this status.
    pub open spec fn took(
        &self,
        before: &Download,
        status: &FileStatus,
        max: nat,
        blocks: Seq<(u64, u64)>,
    ) -> bool {
        &&& self.only_reserved_differs(before)
        &&& self.reserved@ == before.reserved@ + blocks
        &&& before.cancelled ==> blocks.len() == 0
        &&& !before.cancelled ==> exists|first: Seq<(u64, u64)>|
            {
                &&& #[trigger] before.offers(status, max, false, first)
                &&& if first.len() == 0 && before.near_end() {
                    before.offers(status, max, true, blocks)
                } else {
                    blocks == first
                }
            }
    }

    /// Nothing but the reservations may differ.
    pub open spec fn only_reserved_differs(&self, before: &Download) -> bool {
        *self == (Download { reserved: self.reserved, ..*before })
    }

    /// Give blocks back so that another peer can fetch them.
    pub fn release(&mut self, blocks: &[(u64, u64)])
        requires
            old(self).wf(),
        ensures
            final(self).wf(),
            final(self).only_reserved_differs(old(self)),
            final(self).reserved@ == without_blocks(old(self).reserved@, blocks@),
    {
        self.reserved = remove_blocks(&self.reserved, blocks);
    }

    /// Fold a peer's status into the availability counts. A count that is at its limit
    /// stays there.
    pub fn note_status(&mut self, status: &FileStatus)
        requires
            old(self).wf(),
        ensures
            final(self).wf(),
            final(self).availability@.len() == old(self).availability@.len(),
            forall|p: int|
                #![trigger final(self).availability@[p]]
                0 <= p < final(self).availability@.len() ==> final(self).availability@[p] == (
                if status.holds(p) && old(self).availability@[p] < u32::MAX {
                    old(self).availability@[p] + 1
                } else {
                    old(self).availability@[p] as int
                }),
            *final(self) == (Download { availability: final(self).availability, ..*old(self) }),
    {
        let ghost was = self.availability@;
        let n: usize = self.availability.len();
        let mut p: usize = 0;
        while p < n
            invariant
                n == was.len() == self.availability@.len(),
                p <= n,
                *self == (Download { availability: self.availability, ..*old(self) }),
                forall|q: int| p <= q < n ==> #[trigger] self.availability@[q] == was[q],
                forall|q: int|
                    #![trigger self.availability@[q]]
                    0 <= q < p ==> self.availability@[q] == (if status.holds(q) && was[q]
                        < u32::MAX {
                        was[q] + 1
                    } else {
                        was[q] as int
                    }),
            decreases n - p,
        {
            if status.has_part(p) {
                let c: u32 = self.availability[p];
                if c < u32::MAX {
                    self.availability.set(p, c + 1);
                }
            }
            p = p + 1;
        }
    }

    /// Record sources that a peer named. Nothing is dialled here.
    pub fn note_sx_sources(&mut self, sources: &[SxSource])
        requires
            old(self).wf(),
        ensures
            final(self).wf(),
            final(self).sx_sources@ == old(self).sx_sources@ + sources@,
            *final(self) == (Download { sx_sources: final(self).sx_sources, ..*old(self) }),
    {
        let mut i: usize = 0;
        assert(self.sx_sources@ =~= old(self).sx_sources@ + sources@.take(0));
        while i < sources.len()
            invariant
                i <= sources@.len(),
                self.sx_sources@ == old(self).sx_sources@ + sources@.take(i as int),
                *self == (Download { sx_sources: self.sx_sources, ..*old(self) }),
            decreases sources@.len() - i,
        {
            self.sx_sources.push(sources[i]);
            assert(self.sx_sources@ =~= old(self).sx_sources@ + sources@.take(i + 1));
            i = i + 1;
        }
        assert(sources@.take(i as int) =~= sources@);
    }

    /// Take the sources that peers named since the last call.
    pub fn take_sx_sources(&mut self) -> (out: Vec<SxSource>)
        requires
            old(self).wf(),
        ensures
            final(self).wf(),
            out@ == old(self).sx_sources@,
            final(self).sx_sources@.len() == 0,
            *final(self) == (Download { sx_sources: final(self).sx_sources, ..*old(self) }),
    {
        let mut out: Vec<SxSource> = Vec::new();
        std::mem::swap(&mut out, &mut self.sx_sources);
        out
    }

    /// Claim the right to ask `ip` for sources: true only the first time.
    pub fn mark_asked_sources(&mut self, ip: IpAddr) -> (first: bool)
        requires
            old(self).wf(),
        ensures
            final(self).wf(),
            first == !old(self).asked_sources@.contains(ip),
            final(self).asked_sources@ == old(self).asked_sources@.insert(ip),
            *final(self) == (Download { asked_sources: final(self).asked_sources, ..*old(self) }),
    {
        self.asked_sources.insert(ip)
    }

    /// Claim the single fetch slot. Whoever gets it clears it with `end_fetch`.
    pub fn try_begin_fetch(&mut self) -> (got: bool)
        ensures
            got == !old(self).fetching,
            *final(self) == (Download { fetching: true, ..*old(self) }),
    {
        let got: bool = !self.fetching;
        self.fetching = true;
        got
    }

    /// Release the fetch slot.
    pub fn end_fetch(&mut self)
        ensures
            *final(self) == (Download { fetching: false, ..*old(self) }),
    {
        self.fetching = false;
    }

    /// True while a fetch task is live.
    pub fn is_fetching(&self) -> (b: bool)
        ensures
            b == self.fetching,
    {
        self.fetching
    }

    /// True if bytes arrived within the last `window_secs`.
    pub fn is_receiving(&self, now_secs: u64, window_secs: u64) -> (b: bool)
        ensures
            b == (self.last_byte_at != 0 && now_secs - self.last_byte_at <= window_secs),
    {
        self.last_byte_at != 0 && now_secs.saturating_sub(self.last_byte_at) <= window_secs
    }

    /// When the retry sweep last picked this download.
    pub fn last_retry_at(&self) -> (at: u64)
        ensures
            at == self.last_retry_at,
    {
        self.last_retry_at
    }

    /// Stamp this download as picked.
    pub fn mark_retried(&mut self, at_secs: u64)
        ensures
            *final(self) == (Download { last_retry_at: at_secs, ..*old(self) }),
    {
        self.last_retry_at = at_secs;
    }

    /// Claim the right to finalize: true only for the first until it is reset.
    pub fn try_begin_finalize(&mut self) -> (got: bool)
        ensures
            got == !old(self).finalizing,
            *final(self) == (Download { finalizing: true, ..*old(self) }),
    {
        let got: bool = !self.finalizing;
        self.finalizing = true;
        got
    }

    /// Release the finalize claim.
    pub fn reset_finalize(&mut self)
        ensures
            *final(self) == (Download { finalizing: false, ..*old(self) }),
    {
        self.finalizing = false;
    }

    /// Mark this download cancelled.
    pub fn cancel(&mut self)
        ensures
            *final(self) == (Download { cancelled: true, ..*old(self) }),
    {
        self.cancelled = true;
    }

    /// Whether cancellation has been requested.
    pub fn is_cancelled(&self) -> (b: bool)
        ensures
            b == self.cancelled,
    {
        self.cancelled
    }

    /// Whether the finished file may be moved into place: not once it is cancelled.
    pub fn may_finish(&self) -> (b: bool)
        ensures
            b == !self.cancelled,
    {
        !self.cancelled
    }

    /// The download's priority.
    pub fn priority(&self) -> (p: u8)
        ensures
            p == self.store.priority,
    {
        self.store.priority
    }

    /// Set the download's priority.
    pub fn set_priority(&mut self, priority: u8)
        ensures
            *final(self) == (Download {
                store: PartStore { priority, ..old(self).store },
                ..*old(self)
            }),
    {
        self.store.priority = priority;
    }

    /// Re-open the whole file for download.
    pub fn reset_all_gaps(&mut self)
        requires
            old(self).wf(),
        ensures
            final(self).wf(),
            final(self).store.pf.same_file(&old(self).store.pf),
            final(self).store.pf.bad_parts() == old(self).store.pf.bad_parts(),
            forall|b: int| #[trigger]
                final(self).store.pf.needs(b) <==> 0 <= b < old(self).store.pf.size,
            *final(self) == (Download {
                store: PartStore { pf: final(self).store.pf, ..old(self).store },
                ..*old(self)
            }),
    {
        self.store.pf.reset_all_gaps();
    }

    /// Whether preview mode is on.
    pub fn is_preview(&self) -> (b: bool)
        ensures
            b == self.preview,
    {
        self.preview
    }

    /// Turn preview mode on or off.
    pub fn set_preview(&mut self, on: bool)
        ensures
            *final(self) == (Download { preview: on, ..*old(self) }),
    {
        self.preview = on;
    }

    /// Bytes available contiguously from offset 0.
    pub fn contiguous_prefix(&self) -> (n: u64)
        requires
            self.wf(),
        ensures
            self.store.pf.gap_list().len() == 0 ==> n == self.store.pf.size,
            self.store.pf.gap_list().len() > 0 ==> self.store.pf.needs(n as int),
            forall|b: int| b < n ==> !self.store.pf.needs(b),
    {
        self.store.pf.contiguous_prefix()
    }

    /// The length of the prefix that a preview can play, or none where byte 0 is missing.
    pub fn preview_target(&self) -> (len: Option<u64>)
        requires
            self.wf(),
        ensures
            match len {
                Some(n) => {
                    &&& n > 0
                    &&& self.store.pf.gap_list().len() == 0 ==> n == self.store.pf.size
                    &&& self.store.pf.gap_list().len() > 0 ==> self.store.pf.needs(n as int)
                    &&& forall|b: int| b < n ==> !self.store.pf.needs(b)
                },
                None => self.store.pf.needs(0) || (self.store.pf.gap_list().len() == 0
                    && self.store.pf.size == 0),
            },
    {
        let len: u64 = self.store.pf.contiguous_prefix();
        if len == 0 {
            None
        } else {
            Some(len)
        }
    }

    /// The file's hash.
    pub fn hash(&self) -> (h: [u8; 16])
        ensures
            h == self.store.pf.hash,
    {
        self.store.pf.hash
    }

    /// The file's size.
    pub fn size(&self) -> (n: u64)
        ensures
            n == self.store.pf.size,
    {
        self.store.pf.size
    }

    /// The file's name, as text.
    pub fn name(&self) -> (s: String)
        ensures
            s@ == text::spelled(self.store.name@),
    {
        from_utf8_lossy(self.store.name.as_slice())
    }

    /// Every byte has arrived.
    pub fn is_complete(&self) -> (done: bool)
        requires
            self.wf(),
        ensures
            done == (forall|b: int| !self.store.pf.needs(b)),
    {
        self.store.is_complete()
    }

    /// Bytes still missing.
    pub fn missing(&self) -> (n: u64)
        requires
            self.wf(),
        ensures
            n == part_file::byte_set(self.store.pf.gap_list()).len(),
    {
        self.store.pf.missing()
    }

    /// True if the hashset is needed before anything can be verified: parts are checked
    /// against hashes of their own, and there are none yet.
    pub fn needs_hashset(&self) -> (b: bool)
        ensures
            b == ((part_file::data_parts(self.store.pf.size as int) > 1 || self.store.pf.size
                == PARTSIZE) && self.store.pf.part_hashes@.len() == 0),
    {
        let size: u64 = self.store.pf.size;
        (data_part_count(size) > 1 || size == PARTSIZE) && self.store.pf.part_hashes.len() == 0
    }

    /// Nothing but the hashset may differ.
    pub open spec fn same_but_hashset(&self, before: &Download) -> bool {
        *self == (Download {
            store: PartStore {
                pf: PartFile { part_hashes: self.store.pf.part_hashes, ..before.store.pf },
                ..before.store
            },
            ..*before
        })
    }

    /// Take over a hashset.
    pub fn set_hashset(&mut self, hashes: Vec<[u8; 16]>)
        requires
            old(self).wf(),
        ensures
            final(self).wf(),
            final(self).store.pf.part_hashes == hashes,
            final(self).same_but_hashset(old(self)),
    {
        self.store.pf.part_hashes = hashes;
        assert(self.store.pf.wf());
    }

    /// The part hashes.
    pub fn part_hashes(&self) -> (hashes: Vec<[u8; 16]>)
        ensures
            hashes@ == self.store.pf.part_hashes@,
    {
        vstd::slice::slice_to_vec(self.store.pf.part_hashes.as_slice())
    }

    /// Some part with missing bytes is held by a peer with this status.
    pub open spec fn worth_asking(&self, status: &FileStatus) -> bool {
        exists|p: int|
            0 <= p < part_file::data_parts(self.store.pf.size as int)
                && #[trigger] status.holds(p) && !self.store.pf.part_done(p)
    }

    /// Does a peer with this status hold any part that has bytes missing? Reservations do
    /// not count: a part that another peer is fetching may yet be needed.
    pub fn has_needed_part(&self, status: &FileStatus) -> (b: bool)
        requires
            self.wf(),
        ensures
            b == self.worth_asking(status),
    {
        let n: usize = self.availability.len();
        let mut p: usize = 0;
        while p < n
            invariant
                self.wf(),
                n == self.availability@.len(),
                p <= n,
                forall|q: int|
                    0 <= q < p ==> !(#[trigger] status.holds(q) && !self.store.pf.part_done(q)),
            decreases n - p,
        {
            if status.has_part(p) && !self.store.pf.is_part_complete(p as u64) {
                assert(status.holds(p as int) && !self.store.pf.part_done(p as int));
                return true;
            }
            p = p + 1;
        }
        false
    }

    /// How many parts are still needed, and how many of those no source was seen to hold.
    pub fn part_availability(&self) -> (r: (u64, u64))
        requires
            self.wf(),
        ensures
            r.0 == self.needed_parts(part_file::data_parts(self.store.pf.size as int)).len(),
            r.1 == self.unheld_parts(part_file::data_parts(self.store.pf.size as int)).len(),
    {
        let n: usize = self.availability.len();
        let mut needed: u64 = 0;
        let mut unheld: u64 = 0;
        let mut p: usize = 0;
        assert(self.needed_parts(0) =~= Set::empty());
        assert(self.unheld_parts(0) =~= Set::empty());
        while p < n
            invariant
                self.wf(),
                n == self.availability@.len(),
                p <= n,
                needed == self.needed_parts(p as int).len(),
                unheld == self.unheld_parts(p as int).len(),
                self.needed_parts(p as int).finite(),
                self.unheld_parts(p as int).finite(),
                needed <= p,
                unheld <= p,
            decreases n - p,
        {
            proof {
                let i = p as int;
                if self.store.pf.part_done(i) {
                    assert(self.needed_parts(i + 1) =~= self.needed_parts(i));
                    assert(self.unheld_parts(i + 1) =~= self.unheld_parts(i));
                } else {
                    assert(self.needed_parts(i + 1) =~= self.needed_parts(i).insert(i));
                    if self.availability@[i] == 0 {
                        assert(self.unheld_parts(i + 1) =~= self.unheld_parts(i).insert(i));
                    } else {
                        assert(self.unheld_parts(i + 1) =~= self.unheld_parts(i));
                    }
                }
            }
            if !self.store.pf.is_part_complete(p as u64) {
                needed = needed + 1;
                if self.availability[p] == 0 {
                    unheld = unheld + 1;
                }
            }
            p = p + 1;
        }
        (needed, unheld)
    }

    /// The parts below `n` that have bytes missing.
    pub open spec fn needed_parts(&self, n: int) -> Set<int> {
        Set::new(|p: int| 0 <= p < n && !self.store.pf.part_done(p))
    }

    /// The parts below `n` that have bytes missing and that no source was seen to hold.
    pub open spec fn unheld_parts(&self, n: int) -> Set<int> {
        Set::new(
            |p: int| 0 <= p < n && !self.store.pf.part_done(p) && self.availability@[p] == 0,
        )
    }

    /// True if `addr` was banned for this download. By address alone: the port of a peer
    /// that calls back is new each time.
    pub fn is_banned(&self, addr: &SocketAddr) -> (b: bool)
        ensures
            b == self.banned@.contains(addr.ip),
    {
        self.banned.contains(addr.ip)
    }

    /// The banned addresses.
    pub fn banned_sources(&self) -> (ips: Vec<IpAddr>)
        requires
            self.wf(),
        ensures
            ips@.no_duplicates(),
            ips@.to_set() == self.banned@,
    {
        self.banned.copy().ips
    }

    /// The place of the record for `addr`.
    fn find_source(&self, addr: SocketAddr) -> (at: Option<usize>)
        requires
            sources_wf(self.sources@),
        ensures
            match at {
                Some(i) => {
                    &&& i < self.sources@.len()
                    &&& self.sources@[i as int].addr == addr
                    &&& knows(self.sources@, addr)
                    &&& source_place(self.sources@, addr) == i
                },
                None => !knows(self.sources@, addr),
            },
    {
        let mut i: usize = 0;
        while i < self.sources.len()
            invariant
                i <= self.sources@.len(),
                sources_wf(self.sources@),
                forall|j: int| 0 <= j < i ==> (#[trigger] self.sources@[j]).addr != addr,
            decreases self.sources@.len() - i,
        {
            if self.sources[i].addr == addr {
                proof {
                    assert(knows(self.sources@, addr));
                    let k = source_place(self.sources@, addr);
                    assert(self.sources@[k].addr == self.sources@[i as int].addr);
                }
                return Some(i);
            }
            i = i + 1;
        }
        None
    }

    /// Record, or refresh, the base facts about a source. A reconnect keeps the rating,
    /// comment and verification learned before.
    pub fn note_source(
        &mut self,
        software: String,
        addr: SocketAddr,
        obfuscated: bool,
        low_id: bool,
        origin: SourceOrigin,
        now: u64,
    )
        requires
            old(self).wf(),
        ensures
            final(self).wf(),
            final(self).sources@ == ({
                let was = old(self).sources@;
                if knows(was, addr) {
                    let i = source_place(was, addr);
                    was.update(
                        i,
                        SourceInfo {
                            software,
                            obfuscated,
                            low_id,
                            origin,
                            last_seen: now,
                            ..was[i]
                        },
                    )
                } else {
                    was.push(
                        SourceInfo {
                            addr,
                            software,
                            obfuscated,
                            low_id,
                            verified: false,
                            rating: 0,
                            comment: final(self).sources@.last().comment,
                            last_seen: now,
                            origin,
                        },
                    )
                }
            }),
            !knows(old(self).sources@, addr) ==> final(self).sources@.last().comment@.len() == 0,
            *final(self) == (Download { sources: final(self).sources, ..*old(self) }),
    {
        match self.find_source(addr) {
            Some(i) => {
                let ghost was = self.sources@;
                self.sources[i].software = software;
                self.sources[i].obfuscated = obfuscated;
                self.sources[i].low_id = low_id;
                self.sources[i].origin = origin;
                self.sources[i].last_seen = now;
                assert(self.sources@ =~= was.update(i as int, self.sources@[i as int]));
            },
            None => {
                self.sources.push(
                    SourceInfo {
                        addr,
                        software,
                        obfuscated,
                        low_id,
                        verified: false,
                        rating: 0,
                        comment: String::new(),
                        last_seen: now,
                        origin,
                    },
                );
            },
        }
    }

    /// Attach a source's rating, at most 5, and comment. Nothing where there is no record.
    pub fn note_source_comment(&mut self, addr: SocketAddr, rating: u8, comment: String)
        requires
            old(self).wf(),
        ensures
            final(self).wf(),
            final(self).sources@ == (if knows(old(self).sources@, addr) {
                let i = source_place(old(self).sources@, addr);
                old(self).sources@.update(
                    i,
                    SourceInfo {
                        rating: if rating > 5 {
                            5
                        } else {
                            rating
                        },
                        comment,
                        ..old(self).sources@[i]
                    },
                )
            } else {
                old(self).sources@
            }),
            *final(self) == (Download { sources: final(self).sources, ..*old(self) }),
    {
        if let Some(i) = self.find_source(addr) {
            let ghost was = self.sources@;
            self.sources[i].rating = if rating > 5 {
                5
            } else {
                rating
            };
            self.sources[i].comment = comment;
            assert(self.sources@ =~= was.update(i as int, self.sources@[i as int]));
        }
    }

    /// Mark a source as identity-verified.
    pub fn note_source_verified(&mut self, addr: SocketAddr)
        requires
            old(self).wf(),
        ensures
            final(self).wf(),
            final(self).sources@ == (if knows(old(self).sources@, addr) {
                let i = source_place(old(self).sources@, addr);
                old(self).sources@.update(
                    i,
                    SourceInfo { verified: true, ..old(self).sources@[i] },
                )
            } else {
                old(self).sources@
            }),
            *final(self) == (Download { sources: final(self).sources, ..*old(self) }),
    {
        if let Some(i) = self.find_source(addr) {
            let ghost was = self.sources@;
            self.sources[i].verified = true;
            assert(self.sources@ =~= was.update(i as int, self.sources@[i as int]));
        }
    }

    /// The number of sources that came by `origin` and were heard from recently.
    pub open spec fn fresh_from(&self, origin: SourceOrigin, now: u64) -> nat {
        origin_count(self.sources@, origin, now)
    }

    /// How many recently heard sources came from the server, Kad, and source exchange.
    pub fn source_origins(&self, now: u64) -> (counts: (u32, u32, u32))
        requires
            self.sources@.len() <= u32::MAX,
        ensures
            counts.0 == self.fresh_from(SourceOrigin::Server, now),
            counts.1 == self.fresh_from(SourceOrigin::Kad, now),
            counts.2 == self.fresh_from(SourceOrigin::PeerExchange, now),
    {
        let mut counts: (u32, u32, u32) = (0, 0, 0);
        let mut i: usize = 0;
        proof {
            reveal(Seq::filter);
            assert(self.sources@.take(0) =~= Seq::empty());
        }
        while i < self.sources.len()
            invariant
                i <= self.sources@.len() <= u32::MAX,
                counts.0 == origin_count(self.sources@.take(i as int), SourceOrigin::Server, now),
                counts.1 == origin_count(self.sources@.take(i as int), SourceOrigin::Kad, now),
                counts.2 == origin_count(
                    self.sources@.take(i as int),
                    SourceOrigin::PeerExchange,
                    now,
                ),
                counts.0 <= i,
                counts.1 <= i,
                counts.2 <= i,
            decreases self.sources@.len() - i,
        {
            proof {
                reveal(Seq::filter);
                assert(self.sources@.take(i + 1).drop_last() =~= self.sources@.take(i as int));
                assert(self.sources@.take(i + 1).last() == self.sources@[i as int]);
            }
            if now.saturating_sub(self.sources[i].last_seen) <= SOURCE_FRESH_SECS {
                match self.sources[i].origin {
                    SourceOrigin::Server => {
                        counts.0 = counts.0 + 1;
                    },
                    SourceOrigin::Kad => {
                        counts.1 = counts.1 + 1;
                    },
                    SourceOrigin::PeerExchange => {
                        counts.2 = counts.2 + 1;
                    },
                }
            }
            i = i + 1;
        }
        assert(self.sources@.take(i as int) =~= self.sources@);
        counts
    }

    /// The sources met so far.
    pub fn sources(&self) -> (list: &Vec<SourceInfo>)
        ensures
            *list == self.sources,
    {
        &self.sources
    }

    /// What the sources said of the file: the average rating over those that rated it (0 if
    /// none did), and whether any left a comment.
    pub fn rating_summary(&self) -> (r: (u8, bool))
        ensures
            r.0 == (if rated(self.sources@) == 0 {
                0
            } else {
                rating_sum(self.sources@) / rated(self.sources@) as int
            }),
            r.1 == (exists|i: int|
                0 <= i < self.sources@.len() && (#[trigger] self.sources@[i]).comment@.len() > 0),
    {
        let mut sum: u128 = 0;
        let mut count: u128 = 0;
        let mut has_comment: bool = false;
        let mut i: usize = 0;
        assert(self.sources@.take(0) =~= Seq::empty());
        while i < self.sources.len()
            invariant
                i <= self.sources@.len(),
                i <= usize::MAX,
                sum == rating_sum(self.sources@.take(i as int)),
                count == rated(self.sources@.take(i as int)),
                sum <= 255 * count,
                count <= i,
                has_comment == (exists|j: int|
                    0 <= j < i && (#[trigger] self.sources@[j]).comment@.len() > 0),
            decreases self.sources@.len() - i,
        {
            proof {
                assert(self.sources@.take(i + 1).drop_last() =~= self.sources@.take(i as int));
                assert(self.sources@.take(i + 1).last() == self.sources@[i as int]);
            }
            if self.sources[i].rating > 0 {
                sum = sum + self.sources[i].rating as u128;
                count = count + 1;
            }
            if !self.sources[i].comment.as_str().is_empty() {
                has_comment = true;
                assert(self.sources@[i as int].comment@.len() > 0);
            }
            i = i + 1;
        }
        assert(self.sources@.take(i as int) =~= self.sources@);
        if count == 0 {
            (0, has_comment)
        } else {
            assert(sum / count <= 255) by (nonlinear_arith)
                requires
                    sum <= 255 * count,
                    count > 0,
            ;
            ((sum / count) as u8, has_comment)
        }
    }
}

/// The number of sources of a list that came by `origin` and were heard from recently.
pub open spec fn origin_count(sources: Seq<SourceInfo>, origin: SourceOrigin, now: u64) -> nat {
    sources.filter(
        |s: SourceInfo| s.origin == origin && now - s.last_seen <= SOURCE_FRESH_SECS,
    ).len()
}

/// The number of sources that rated the file.
pub open spec fn rated(sources: Seq<SourceInfo>) -> nat
    decreases sources.len(),
{
    if sources.len() == 0 {
        0
    } else {
        rated(sources.drop_last()) + (if sources.last().rating > 0 {
            1nat
        } else {
            0nat
        })
    }
}

/// The sum of the ratings.
pub open spec fn rating_sum(sources: Seq<SourceInfo>) -> int
    decreases sources.len(),
{
    if sources.len() == 0 {
        0
    } else {
        rating_sum(sources.drop_last()) + sources.last().rating
    }
}

/// The senders of each block, with `ip` added for every block that has a byte in
/// `[start, end)`.
pub open spec fn attributed(
    m: Map<u64, Set<IpAddr>>,
    start: int,
    end: int,
    ip: IpAddr,
) -> Map<u64, Set<IpAddr>> {
    Map::new(
        |k: u64| m.dom().contains(k) || touches(start, end, k as int),
        |k: u64|
            if touches(start, end, k as int) {
                (if m.dom().contains(k) {
                    m[k]
                } else {
                    Set::empty()
                }).insert(ip)
            } else {
                m[k]
            },
    )
}

/// The bytes from `b` to the end of its block, or of its part, lie in the same block.
proof fn lemma_block_run(b: int, c: int)
    requires
        0 <= b <= c,
        c < block_of(b) + EMBLOCKSIZE,
        c < part_file::part_start(part_file::part_of(b)) + PARTSIZE,
    ensures
        block_of(c) == block_of(b),
        block_of(b) <= b,
        part_file::part_of(c) == part_file::part_of(b),
{
    let from = part_file::part_start(part_file::part_of(b));
    assert(from <= b < from + PARTSIZE);
    assert(part_file::part_of(c) == part_file::part_of(b));
    let n = EMBLOCKSIZE as int;
    let q = (b - from) / n;
    assert(q * n <= b - from);
    assert((c - from) / n == q);
}

impl Download {
    /// Remember that `ip` sent the bytes of `[start, end)`, block by block.
    fn attribute(&mut self, start: u64, end: u64, ip: IpAddr)
        requires
            old(self).wf(),
            start <= end,
        ensures
            final(self).wf(),
            final(self).block_sources@ == attributed(
                old(self).block_sources@,
                start as int,
                end as int,
                ip,
            ),
            *final(self) == (Download { block_sources: final(self).block_sources, ..*old(self) }),
    {
        let ghost m = self.block_sources@;
        let mut pos: u64 = start;
        assert(m =~= attributed(m, start as int, start as int, ip));
        while pos < end
            invariant
                start <= pos <= end,
                m == old(self).block_sources@,
                self.wf(),
                *self == (Download { block_sources: self.block_sources, ..*old(self) }),
                self.block_sources@ == attributed(m, start as int, pos as int, ip),
            decreases end - pos,
        {
            let from: u64 = pos - pos % PARTSIZE;
            let key: u64 = from + ((pos - from) / EMBLOCKSIZE) * EMBLOCKSIZE;
            // What is left of the block, of the part, and of the range.
            let mut step: u64 = EMBLOCKSIZE - (pos - key);
            if PARTSIZE - (pos - from) < step {
                step = PARTSIZE - (pos - from);
            }
            if end - pos < step {
                step = end - pos;
            }
            let next: u64 = pos + step;
            let ghost mid = self.block_sources@;
            self.block_sources.note(key, ip);
            proof {
                assert(from == part_file::part_start(part_file::part_of(pos as int)));
                assert(key == block_of(pos as int));
                assert forall|c: int| pos <= c < next implies block_of(c) == key by {
                    lemma_block_run(pos as int, c);
                }
                assert forall|k: int| #[trigger]
                    touches(start as int, next as int, k) <==> touches(start as int, pos as int, k)
                        || k == key by {
                    if touches(start as int, next as int, k) {
                        let b = choose|b: int| start <= b < next && #[trigger] block_of(b) == k;
                        if b < pos {
                            assert(touches(start as int, pos as int, k));
                        }
                    }
                    if touches(start as int, pos as int, k) {
                        let b = choose|b: int| start <= b < pos && #[trigger] block_of(b) == k;
                        assert(start <= b < next && block_of(b) == k);
                    }
                    assert(start <= pos < next && block_of(pos as int) == key);
                }
                let (now, goal) = (
                    self.block_sources@,
                    attributed(m, start as int, next as int, ip),
                );
                assert forall|k: u64| #[trigger] now.dom().contains(k) <==> goal.dom().contains(
                    k,
                ) by {
                    assert(touches(start as int, next as int, k as int) <==> touches(
                        start as int,
                        pos as int,
                        k as int,
                    ) || k == key);
                }
                assert forall|k: u64| #[trigger] now.dom().contains(k) implies now[k]
                    == goal[k] by {
                    assert(touches(start as int, next as int, k as int) <==> touches(
                        start as int,
                        pos as int,
                        k as int,
                    ) || k == key);
                    assert(now[k] =~= goal[k]);
                }
                assert(now =~= goal);
            }
            pos = next;
        }
    }

    /// Bytes have arrived: `len` of them at `start`, from `source` where it is known.
    /// Records the time, keeps the source fresh, attributes every block touched, and says
    /// where the bytes end if they may be written. Once they are on disk, `committed`
    /// closes their gap.
    pub fn commit(&mut self, start: u64, len: usize, source: Option<SocketAddr>, now: u64) -> (r:
        Result<Option<u64>, StoreError>)
        requires
            old(self).wf(),
        ensures
            final(self).wf(),
            r == (if len == 0 {
                Ok(None)
            } else if start + len > old(self).store.pf.size {
                Err(StoreError::PastEnd)
            } else {
                Ok(Some((start + len) as u64))
            }),
            *final(self) == (Download {
                last_byte_at: now,
                sources: final(self).sources,
                block_sources: final(self).block_sources,
                ..*old(self)
            }),
            final(self).sources@ == (match source {
                Some(a) if knows(old(self).sources@, a) => {
                    let i = source_place(old(self).sources@, a);
                    old(self).sources@.update(
                        i,
                        SourceInfo { last_seen: now, ..old(self).sources@[i] },
                    )
                },
                _ => old(self).sources@,
            }),
            final(self).block_sources@ == (match source {
                Some(a) => attributed(
                    old(self).block_sources@,
                    start as int,
                    if start + len > u64::MAX {
                        u64::MAX as int
                    } else {
                        start + len
                    },
                    a.ip,
                ),
                None => old(self).block_sources@,
            }),
    {
        self.last_byte_at = now;
        if let Some(addr) = source {
            if let Some(i) = self.find_source(addr) {
                let ghost was = self.sources@;
                self.sources[i].last_seen = now;
                assert(self.sources@ =~= was.update(i as int, self.sources@[i as int]));
            }
            let end: u64 = start.saturating_add(len as u64);
            self.attribute(start, end, addr.ip);
        }
        self.store.plan_write(start, len)
    }

    /// The bytes of `[start, end)` are on disk: close their gap.
    pub fn committed(&mut self, start: u64, end: u64)
        requires
            old(self).wf(),
        ensures
            final(self).wf(),
            final(self).store.pf.received(&old(self).store.pf, start as int, end as int),
            *final(self) == (Download {
                store: PartStore { pf: final(self).store.pf, ..old(self).store },
                ..*old(self)
            }),
    {
        self.store.block_written(start, end);
    }

    /// The parts whose bytes have all arrived, in order: those to verify.
    pub fn ready_parts(&self) -> (parts: Vec<u64>)
        requires
            self.wf(),
        ensures
            forall|i: int, j: int| 0 <= i < j < parts@.len() ==> parts@[i] < parts@[j],
            forall|p: u64| #[trigger]
                parts@.contains(p) <==> p < part_file::data_parts(self.store.pf.size as int)
                    && self.store.pf.part_done(p as int),
    {
        let n: u64 = data_part_count(self.store.pf.size);
        let mut parts: Vec<u64> = Vec::new();
        let mut p: u64 = 0;
        while p < n
            invariant
                self.wf(),
                n == part_file::data_parts(self.store.pf.size as int),
                p <= n,
                forall|i: int| 0 <= i < parts@.len() ==> #[trigger] parts@[i] < p,
                forall|i: int, j: int| 0 <= i < j < parts@.len() ==> parts@[i] < parts@[j],
                forall|q: u64| #[trigger]
                    parts@.contains(q) <==> q < p && self.store.pf.part_done(q as int),
            decreases n - p,
        {
            if self.store.pf.is_part_complete(p) {
                let ghost was = parts@;
                parts.push(p);
                proof {
                    assert forall|q: u64| #[trigger]
                        parts@.contains(q) <==> q < p + 1 && self.store.pf.part_done(q as int) by {
                        if was.contains(q) {
                            assert(parts@[was.index_of(q)] == q);
                        }
                        assert(parts@[was.len() as int] == p);
                        if parts@.contains(q) && q != p {
                            let i = parts@.index_of(q);
                            assert(was[i] == q);
                        }
                    }
                }
            }
            p = p + 1;
        }
        parts
    }

    /// The parts that can be blamed for a bad file: complete, and with a hash of their own.
    /// None where there is no hashset.
    pub fn blameable_parts(&self) -> (parts: Option<Vec<u64>>)
        requires
            self.wf(),
        ensures
            match parts {
                None => self.store.pf.part_hashes@.len() == 0,
                Some(v) => {
                    &&& self.store.pf.part_hashes@.len() > 0
                    &&& forall|i: int, j: int| 0 <= i < j < v@.len() ==> v@[i] < v@[j]
                    &&& forall|p: u64| #[trigger]
                        v@.contains(p) <==> p < part_file::data_parts(self.store.pf.size as int) && p
                            < self.store.pf.part_hashes@.len() && self.store.pf.part_done(p as int)
                },
            },
    {
        if self.store.pf.part_hashes.len() == 0 {
            return None;
        }
        let n: u64 = data_part_count(self.store.pf.size);
        let hashes: u64 = self.store.pf.part_hashes.len() as u64;
        let mut v: Vec<u64> = Vec::new();
        let mut p: u64 = 0;
        while p < n
            invariant
                self.wf(),
                n == part_file::data_parts(self.store.pf.size as int),
                hashes == self.store.pf.part_hashes@.len(),
                p <= n,
                forall|i: int| 0 <= i < v@.len() ==> #[trigger] v@[i] < p,
                forall|i: int, j: int| 0 <= i < j < v@.len() ==> v@[i] < v@[j],
                forall|q: u64| #[trigger]
                    v@.contains(q) <==> q < p && q < hashes && self.store.pf.part_done(q as int),
            decreases n - p,
        {
            if p < hashes && self.store.pf.is_part_complete(p) {
                let ghost was = v@;
                v.push(p);
                proof {
                    assert forall|q: u64| #[trigger]
                        v@.contains(q) <==> q < p + 1 && q < hashes && self.store.pf.part_done(
                            q as int,
                        ) by {
                        if was.contains(q) {
                            assert(v@[was.index_of(q)] == q);
                        }
                        assert(v@[was.len() as int] == p);
                        if v@.contains(q) && q != p {
                            let i = v@.index_of(q);
                            assert(was[i] == q);
                        }
                    }
                }
            }
            p = p + 1;
        }
        Some(v)
    }

    /// Whether a part, whose bytes are `data`, differs from its own hash.
    pub fn part_differs(&self, part: u64, data: &[u8]) -> (b: bool)
        requires
            part < self.store.pf.part_hashes.len(),
        ensures
            b == (hash::md4_digest(data@) != self.store.pf.part_hashes@[part as int]@),
    {
        !same_hash16(&md4(data), &self.store.pf.part_hashes[part as usize])
    }
}

/// Block `k` lies in part `part`.
pub open spec fn in_part(part: u64, k: u64) -> bool {
    part_file::part_start(part as int) <= k < part_file::part_start(part as int) + PARTSIZE
}

/// Block `k` lies in one of the parts.
pub open spec fn in_parts(parts: Seq<u64>, k: u64) -> bool {
    exists|i: int| 0 <= i < parts.len() && in_part(#[trigger] parts[i], k)
}

/// Byte `b` lies in one of the parts of a file of `size` bytes.
pub open spec fn byte_in_parts(parts: Seq<u64>, size: int, b: int) -> bool {
    exists|i: int|
        0 <= i < parts.len() && part_file::part_start(#[trigger] parts[i] as int) <= b
            < part_file::part_end(parts[i] as int, size)
}

/// The senders of the blocks of part `part`.
pub open spec fn part_senders(m: Map<u64, Set<IpAddr>>, part: u64) -> Map<u64, Set<IpAddr>> {
    m.restrict(Set::new(|k: u64| in_part(part, k)))
}

/// The address `ip` alone sent the blocks of part `part`.
pub open spec fn sole_sender(m: Map<u64, Set<IpAddr>>, part: u64, ip: IpAddr) -> bool {
    block_sources::all_senders(part_senders(m, part)) == Set::<IpAddr>::empty().insert(ip)
}

/// The addresses that alone sent the blocks of one of the parts.
pub open spec fn sole_senders(m: Map<u64, Set<IpAddr>>, parts: Seq<u64>) -> Set<IpAddr> {
    Set::new(
        |ip: IpAddr|
            exists|i: int| 0 <= i < parts.len() && sole_sender(m, #[trigger] parts[i], ip),
    )
}

/// The list with the parts of `more` appended, those that are not in it yet.
pub open spec fn marked(list: Seq<u64>, more: Seq<u64>) -> Seq<u64>
    decreases more.len(),
{
    if more.len() == 0 {
        list
    } else {
        let l = marked(list, more.drop_last());
        if l.contains(more.last()) {
            l
        } else {
            l.push(more.last())
        }
    }
}

impl Download {
    /// This is `before` after the parts of `bad` were blamed: they are missing again and
    /// remembered as corrupted, whoever alone fed one of them is banned, the attribution of
    /// their blocks is frozen as evidence, and they await block recovery.
    pub open spec fn blamed(&self, before: &Download, bad: Seq<u64>) -> bool {
        &&& self.wf()
        &&& *self == (Download {
            store: PartStore { pf: self.store.pf, ..before.store },
            block_sources: self.block_sources,
            banned: self.banned,
            aich: self.aich,
            ..*before
        })
        &&& self.store.pf.same_file(&before.store.pf)
        &&& self.store.pf.bad_parts() == marked(before.store.pf.bad_parts(), bad)
        &&& forall|b: int| #[trigger]
            self.store.pf.needs(b) <==> before.store.pf.needs(b) || byte_in_parts(
                bad,
                before.store.pf.size as int,
                b,
            )
        &&& self.block_sources@ == before.block_sources@.restrict(
            Set::new(|k: u64| !in_parts(bad, k)),
        )
        &&& self.banned@ == before.banned@.union(sole_senders(before.block_sources@, bad))
        &&& self.aich.status == before.aich.status
        &&& self.aich.master == before.aich.master
        &&& self.aich.votes == before.aich.votes
        &&& self.aich.reported == before.aich.reported
        &&& forall|p: u64| #[trigger]
            self.aich.awaits(p) <==> before.aich.awaits(p) || bad.contains(p)
        &&& forall|p: u64|
            #![trigger self.aich.claim_on(p)]
            self.aich.claim_on(p) == before.aich.claim_on(p)
        &&& forall|p: u64|
            #![trigger self.aich.evidence(p)]
            self.aich.evidence(p) == (if bad.contains(p) {
                before.aich.evidence(p).union_prefer_right(part_senders(before.block_sources@, p))
            } else {
                before.aich.evidence(p)
            })
    }

    /// Blame one part.
    fn blame_part(&mut self, p: u64)
        requires
            old(self).wf(),
            p < part_file::data_parts(old(self).store.pf.size as int),
        ensures
            final(self).blamed(old(self), seq![p]),
    {
        let ghost before = *self;
        let ghost m = self.block_sources@;
        self.store.pf.mark_corrupt(p);
        let start: u64 = p * PARTSIZE;
        let senders = self.block_sources.take_range(start, start + PARTSIZE);
        proof {
            let one = seq![p];
            assert(Set::new(|k: u64| start <= k < start + PARTSIZE) =~= Set::new(
                |k: u64| in_part(p, k),
            ));
            assert forall|k: u64| #[trigger] in_parts(one, k) <==> in_part(p, k) by {
                if in_part(p, k) {
                    assert(in_part(one[0], k));
                }
            }
            assert(Set::new(|k: u64| !(start <= k < start + PARTSIZE)) =~= Set::new(
                |k: u64| !in_parts(one, k),
            ));
            assert forall|b: int|
                byte_in_parts(one, before.store.pf.size as int, b) <==> part_file::part_start(
                    p as int,
                ) <= b < part_file::part_end(p as int, before.store.pf.size as int) by {
                if part_file::part_start(p as int) <= b < part_file::part_end(
                    p as int,
                    before.store.pf.size as int,
                ) {
                    assert(part_file::part_start(one[0] as int) <= b);
                }
            }
            assert(one.drop_last() =~= Seq::<u64>::empty());
            assert(marked(before.store.pf.bad_parts(), one.drop_last())
                == before.store.pf.bad_parts());
            assert forall|q: u64| one.contains(q) <==> q == p by {
                if q == p {
                    assert(one[0] == q);
                }
            }
        }
        let ghost suspects = sole_senders(m, seq![p]);
        match senders.sole_contributor() {
            Some(ip) => {
                proof {
                    assert(sole_sender(m, seq![p][0], ip));
                    assert forall|x: IpAddr| suspects.contains(x) <==> x == ip by {
                        if suspects.contains(x) {
                            let i = choose|i: int| 0 <= i < 1 && sole_sender(m, #[trigger] seq![p][i], x);
                            let set = block_sources::all_senders(part_senders(m, p));
                            assert(set.contains(x));
                        }
                    }
                    assert(before.banned@.union(suspects) =~= before.banned@.insert(ip));
                }
                self.banned.insert(ip);
            },
            None => {
                proof {
                    assert forall|x: IpAddr| !suspects.contains(x) by {
                        if suspects.contains(x) {
                            let i = choose|i: int| 0 <= i < 1 && sole_sender(m, #[trigger] seq![p][i], x);
                            assert(Set::<IpAddr>::empty().insert(x).len() == 1);
                        }
                    }
                    assert(before.banned@.union(suspects) =~= before.banned@);
                }
            },
        }
        self.aich.queue(p, &senders);
    }

    /// The parts of `bad` failed their hash: blame them. True where there was one; with none
    /// nothing changes, and the caller has to fall back to the whole file.
    pub fn localize_corruption(&mut self, bad: &Vec<u64>) -> (localized: bool)
        requires
            old(self).wf(),
            forall|i: int|
                0 <= i < bad@.len() ==> #[trigger] bad@[i] < part_file::data_parts(
                    old(self).store.pf.size as int,
                ),
            forall|i: int, j: int| 0 <= i < j < bad@.len() ==> bad@[i] < bad@[j],
        ensures
            localized == (bad@.len() > 0),
            !localized ==> *final(self) == *old(self),
            localized ==> final(self).blamed(old(self), bad@),
    {
        if bad.len() == 0 {
            return false;
        }
        let ghost first = *self;
        let mut i: usize = 0;
        proof {
            self.lemma_blamed_none(&first);
            assert(bad@.take(0) =~= Seq::empty());
        }
        while i < bad.len()
            invariant
                i <= bad@.len(),
                first == *old(self),
                first.wf(),
                forall|i: int|
                    0 <= i < bad@.len() ==> #[trigger] bad@[i] < part_file::data_parts(
                        first.store.pf.size as int,
                    ),
                forall|i: int, j: int| 0 <= i < j < bad@.len() ==> bad@[i] < bad@[j],
                self.blamed(&first, bad@.take(i as int)),
            decreases bad@.len() - i,
        {
            let ghost mid = *self;
            self.blame_part(bad[i]);
            proof {
                assert(bad@.take(i + 1) =~= bad@.take(i as int).push(bad@[i as int]));
                lemma_blamed_more(&first, &mid, self, bad@.take(i as int), bad@[i as int]);
            }
            i = i + 1;
        }
        assert(bad@.take(i as int) =~= bad@);
        true
    }

    proof fn lemma_blamed_none(&self, before: &Download)
        requires
            self == before,
            before.wf(),
        ensures
            self.blamed(before, Seq::empty()),
    {
        let none = Seq::<u64>::empty();
        let m = before.block_sources@;
        assert(m.restrict(Set::new(|k: u64| !in_parts(none, k))) =~= m);
        assert(sole_senders(m, none) =~= Set::empty());
        assert(before.banned@.union(sole_senders(m, none)) =~= before.banned@);
    }
}

/// Blaming one more part is blaming them all, where it comes behind the others.
proof fn lemma_blamed_more(
    first: &Download,
    mid: &Download,
    last: &Download,
    done: Seq<u64>,
    p: u64,
)
    requires
        mid.blamed(first, done),
        last.blamed(mid, seq![p]),
        forall|i: int| 0 <= i < done.len() ==> #[trigger] done[i] < p,
    ensures
        last.blamed(first, done.push(p)),
{
    let all = done.push(p);
    let one = seq![p];
    let (m0, m1) = (first.block_sources@, mid.block_sources@);
    assert forall|q: u64| all.contains(q) <==> done.contains(q) || q == p by {
        if done.contains(q) {
            assert(all[done.index_of(q)] == q);
        }
        assert(all[done.len() as int] == p);
        if all.contains(q) && q != p {
            let i = all.index_of(q);
            assert(done[i] == q);
        }
    }
    assert forall|q: u64| one.contains(q) <==> q == p by {
        assert(one[0] == p);
    }
    assert(!done.contains(p));
    assert forall|k: u64| #[trigger] in_parts(all, k) <==> in_parts(done, k) || in_part(p, k) by {
        if in_parts(done, k) {
            let i = choose|i: int| 0 <= i < done.len() && in_part(#[trigger] done[i], k);
            assert(in_part(all[i], k));
        }
        if in_part(p, k) {
            assert(in_part(all[done.len() as int], k));
        }
        if in_parts(all, k) {
            let i = choose|i: int| 0 <= i < all.len() && in_part(#[trigger] all[i], k);
            if i < done.len() {
                assert(in_part(done[i], k));
            }
        }
    }
    assert forall|k: u64| #[trigger] in_parts(one, k) <==> in_part(p, k) by {
        if in_part(p, k) {
            assert(in_part(one[0], k));
        }
    }
    assert forall|k: u64| in_part(p, k) implies !#[trigger] in_parts(done, k) by {
        if in_parts(done, k) {
            let i = choose|i: int| 0 <= i < done.len() && in_part(#[trigger] done[i], k);
            assert(done[i] < p);
        }
    }
    let size = first.store.pf.size as int;
    assert forall|b: int| #[trigger]
        byte_in_parts(all, size, b) <==> byte_in_parts(done, size, b) || byte_in_parts(
            one,
            size,
            b,
        ) by {
        if byte_in_parts(done, size, b) {
            let i = choose|i: int|
                0 <= i < done.len() && part_file::part_start(#[trigger] done[i] as int) <= b
                    < part_file::part_end(done[i] as int, size);
            assert(part_file::part_start(all[i] as int) <= b);
        }
        if byte_in_parts(one, size, b) {
            assert(part_file::part_start(all[done.len() as int] as int) <= b);
        }
        if byte_in_parts(all, size, b) {
            let i = choose|i: int|
                0 <= i < all.len() && part_file::part_start(#[trigger] all[i] as int) <= b
                    < part_file::part_end(all[i] as int, size);
            if i < done.len() {
                assert(part_file::part_start(done[i] as int) <= b);
            } else {
                assert(part_file::part_start(one[0] as int) <= b);
            }
        }
    }
    assert(all.drop_last() =~= done);
    assert(one.drop_last() =~= Seq::<u64>::empty());
    assert(marked(mid.store.pf.bad_parts(), one.drop_last()) == mid.store.pf.bad_parts());
    assert(last.block_sources@ =~= m0.restrict(Set::new(|k: u64| !in_parts(all, k))));
    assert(part_senders(m1, p) =~= part_senders(m0, p));
    assert forall|q: u64| last.aich.evidence(q) == (if all.contains(q) {
        first.aich.evidence(q).union_prefer_right(part_senders(m0, q))
    } else {
        first.aich.evidence(q)
    }) by {
        assert(mid.aich.evidence(q) == mid.aich.evidence(q));
    }
    assert forall|q: u64| last.aich.claim_on(q) == first.aich.claim_on(q) by {
        assert(mid.aich.claim_on(q) == first.aich.claim_on(q));
    }
    assert forall|ip: IpAddr|
        sole_senders(m0, all).contains(ip) <==> sole_senders(m0, done).union(
            sole_senders(m1, one),
        ).contains(ip) by {
        if sole_senders(m0, done).contains(ip) {
            let i = choose|i: int| 0 <= i < done.len() && sole_sender(m0, #[trigger] done[i], ip);
            assert(sole_sender(m0, all[i], ip));
        }
        if sole_senders(m1, one).contains(ip) {
            let i = choose|i: int| 0 <= i < one.len() && sole_sender(m1, #[trigger] one[i], ip);
            assert(sole_sender(m0, all[done.len() as int], ip));
        }
        if sole_senders(m0, all).contains(ip) {
            let i = choose|i: int| 0 <= i < all.len() && sole_sender(m0, #[trigger] all[i], ip);
            if i < done.len() {
                assert(sole_sender(m0, done[i], ip));
            } else {
                assert(sole_sender(m1, one[0], ip));
            }
        }
    }
    assert(last.banned@ =~= first.banned@.union(sole_senders(m0, all)));
}

/// A span of a part, and whether its bytes on disk are good: start, length, verdict.
pub type Verdict = (u64, u64, bool);

/// Byte `b` is missing after the verdicts: a good span is there, a bad one is missing, and
/// of several spans that hold the byte the last decides.
pub open spec fn missing_after(before: &PartFile, results: Seq<Verdict>, b: int) -> bool
    decreases results.len(),
{
    if results.len() == 0 {
        before.needs(b)
    } else {
        let (start, len, ok) = results.last();
        if start <= b < start + len {
            !ok
        } else {
            missing_after(before, results.drop_last(), b)
        }
    }
}

/// How many of the verdicts are good.
pub open spec fn good_count(results: Seq<Verdict>) -> nat
    decreases results.len(),
{
    if results.len() == 0 {
        0
    } else {
        good_count(results.drop_last()) + (if results.last().2 {
            1nat
        } else {
            0nat
        })
    }
}

/// The addresses that alone fed a block found bad, by the evidence, of those blocks that
/// nobody has sent again since.
pub open spec fn block_suspects(
    results: Seq<Verdict>,
    live: Map<u64, Set<IpAddr>>,
    evidence: Map<u64, Set<IpAddr>>,
) -> Set<IpAddr> {
    Set::new(
        |ip: IpAddr|
            exists|i: int|
                0 <= i < results.len() && !(#[trigger] results[i]).2 && !live.dom().contains(
                    results[i].0,
                ) && evidence.contains_pair(results[i].0, Set::<IpAddr>::empty().insert(ip)),
    )
}

/// The verdicts on spans of the file, where `reads` is what was read at each: a span is good
/// iff its SHA-1 is the one wanted.
pub open spec fn judged(
    spans: Seq<(u64, u64, [u8; 20])>,
    reads: Seq<Vec<u8>>,
) -> Seq<Verdict> {
    Seq::new(
        spans.len(),
        |i: int| (spans[i].0, spans[i].1, hash::sha1_digest(reads[i]@) == spans[i].2@),
    )
}

/// Every span was read whole, and ends at an offset of 64 bits.
pub open spec fn read_whole(spans: Seq<(u64, u64, [u8; 20])>, reads: Seq<Vec<u8>>) -> bool {
    &&& reads.len() == spans.len()
    &&& forall|i: int|
        0 <= i < spans.len() ==> (#[trigger] spans[i]).1 == reads[i]@.len() && spans[i].0
            + spans[i].1 <= u64::MAX
}

/// Judge spans of the file by what was read at each. `None` where one was not read whole.
pub fn judge_blocks(spans: &[(u64, u64, [u8; 20])], reads: &Vec<Vec<u8>>) -> (r: Option<
    Vec<Verdict>,
>)
    requires
        forall|i: int|
            0 <= i < reads@.len() ==> (#[trigger] reads@[i])@.len() < 0x2000_0000_0000_0000,
    ensures
        match r {
            Some(v) => read_whole(spans@, reads@) && v@ == judged(spans@, reads@),
            None => !read_whole(spans@, reads@),
        },
{
    if reads.len() != spans.len() {
        return None;
    }
    let mut v: Vec<Verdict> = Vec::new();
    let mut i: usize = 0;
    while i < spans.len()
        invariant
            i <= spans@.len(),
            reads@.len() == spans@.len(),
            forall|k: int|
                0 <= k < reads@.len() ==> (#[trigger] reads@[k])@.len() < 0x2000_0000_0000_0000,
            forall|k: int|
                0 <= k < i ==> (#[trigger] spans@[k]).1 == reads@[k]@.len() && spans@[k].0
                    + spans@[k].1 <= u64::MAX,
            v@ == judged(spans@, reads@).take(i as int),
        decreases spans@.len() - i,
    {
        let (start, len, want) = spans[i];
        let block: &Vec<u8> = &reads[i];
        if block.len() as u64 != len || start > u64::MAX - len {
            assert(spans@[i as int].1 != reads@[i as int]@.len() || spans@[i as int].0
                + spans@[i as int].1 > u64::MAX);
            return None;
        }
        let ok: bool = same_hash20(&sha1(block.as_slice()), &want);
        v.push((start, len, ok));
        proof {
            assert(judged(spans@, reads@)[i as int] == (start, len, ok));
            assert(v@ =~= judged(spans@, reads@).take(i + 1));
        }
        i = i + 1;
    }
    assert(v@ =~= judged(spans@, reads@));
    Some(v)
}

impl Download {
    /// Set the AICH master root from the file's identity.
    pub fn set_aich_master_verified(&mut self, root: [u8; 20])
        requires
            old(self).wf(),
        ensures
            final(self).wf(),
            *final(self) == (Download {
                aich: AichState {
                    status: AichStatus::Verified,
                    master: Some(root),
                    ..old(self).aich
                },
                ..*old(self)
            }),
    {
        let ghost was = self.aich;
        self.aich.set_master_verified(root);
        proof {
            self.lemma_same_pending(&was);
        }
    }

    proof fn lemma_same_pending(&self, was: &AichState)
        requires
            self.aich.pending == was.pending,
        ensures
            forall|p: u64| #[trigger] self.aich.awaits(p) <==> was.awaits(p),
    {
        assert forall|p: u64| #[trigger] self.aich.awaits(p) <==> was.awaits(p) by {
            if was.awaits(p) {
                assert(self.aich.pending@[was.place(p)].part == p);
            }
            if self.aich.awaits(p) {
                assert(was.pending@[self.aich.place(p)].part == p);
            }
        }
    }

    /// The trusted or verified master root, if recovery is allowed to use one.
    pub fn aich_trusted_root(&self) -> (root: Option<[u8; 20]>)
        ensures
            root == self.aich.trusted(),
    {
        self.aich.trusted_root()
    }

    /// A source reported its AICH root: record it, and vote. See [`AichState::note_root`].
    pub fn note_aich_root(&mut self, ip: IpAddr, root: [u8; 20])
        requires
            old(self).wf(),
        ensures
            final(self).wf(),
            *final(self) == (Download { aich: final(self).aich, ..*old(self) }),
            final(self).aich.rooted(&old(self).aich, ip, root),
    {
        let ghost was = self.aich;
        self.aich.note_root(ip, root);
        proof {
            self.lemma_same_pending(&was);
        }
    }

    /// Claim one pending recovery ask for a source at `ip`. See
    /// [`AichState::claim_recovery`].
    pub fn claim_aich_recovery(&mut self, ip: IpAddr, size: u64, now: u64) -> (ask: Option<
        (u64, [u8; 20]),
    >)
        requires
            old(self).wf(),
            forall|p: u64| #[trigger]
                old(self).aich.awaits(p) ==> part_file::part_start(p as int) <= size,
        ensures
            final(self).wf(),
            *final(self) == (Download { aich: final(self).aich, ..*old(self) }),
            final(self).aich.claimed(&old(self).aich, ip, size, now, ask),
    {
        self.aich.claim_recovery(ip, size, now)
    }

    /// A recovery ask failed: its owner's claim is released.
    pub fn aich_recovery_failed(&mut self, part: u64, ip: IpAddr)
        requires
            old(self).wf(),
        ensures
            final(self).wf(),
            *final(self) == (Download { aich: final(self).aich, ..*old(self) }),
            final(self).aich.failed(&old(self).aich, part, ip),
    {
        self.aich.recovery_failed(part, ip);
    }

    /// True if `ip` currently owns the recovery claim on `part`.
    pub fn owns_aich_claim(&self, part: u64, ip: IpAddr) -> (owns: bool)
        requires
            self.wf(),
        ensures
            owns == self.aich.owns(part, ip),
    {
        self.aich.owns_claim(part, ip)
    }

    /// This is `before` after the verdicts on blocks of part `part`: good ones are there,
    /// bad ones missing, and whoever alone fed a bad one is banned.
    pub open spec fn judged_by(&self, before: &Download, part: u64, results: Seq<Verdict>) -> bool {
        &&& self.wf()
        &&& *self == (Download {
            store: PartStore { pf: self.store.pf, ..before.store },
            banned: self.banned,
            ..*before
        })
        &&& self.store.pf.same_file(&before.store.pf)
        &&& self.store.pf.bad_parts() == before.store.pf.bad_parts()
        &&& forall|b: int| #[trigger]
            self.store.pf.needs(b) <==> missing_after(&before.store.pf, results, b)
        &&& self.banned@ == before.banned@.union(
            block_suspects(results, before.block_sources@, before.aich.evidence(part)),
        )
    }

    /// Act on the verdicts on blocks of part `part`. Returns how many are good and how many
    /// bad.
    pub fn apply_block_verdicts(&mut self, part: u64, results: &Vec<Verdict>) -> (r: (
        usize,
        usize,
    ))
        requires
            old(self).wf(),
            forall|i: int|
                0 <= i < results@.len() ==> (#[trigger] results@[i]).0 + results@[i].1 <= u64::MAX,
        ensures
            final(self).judged_by(old(self), part, results@),
            r.0 == good_count(results@),
            r.0 + r.1 == results@.len(),
    {
        let ghost before = *self;
        let mut good: usize = 0;
        let mut i: usize = 0;
        assert(results@.take(0) =~= Seq::empty());
        while i < results.len()
            invariant
                i <= results@.len(),
                forall|i: int|
                    0 <= i < results@.len() ==> (#[trigger] results@[i]).0 + results@[i].1
                        <= u64::MAX,
                self.wf(),
                before == *old(self),
                *self == (Download {
                    store: PartStore { pf: self.store.pf, ..before.store },
                    ..before
                }),
                self.store.pf.same_file(&before.store.pf),
                self.store.pf.bad_parts() == before.store.pf.bad_parts(),
                forall|b: int| #[trigger]
                    self.store.pf.needs(b) <==> missing_after(
                        &before.store.pf,
                        results@.take(i as int),
                        b,
                    ),
                good == good_count(results@.take(i as int)),
                good <= i,
            decreases results@.len() - i,
        {
            let (start, len, ok) = results[i];
            proof {
                assert(results@.take(i + 1).drop_last() =~= results@.take(i as int));
                assert(results@.take(i + 1).last() == results@[i as int]);
            }
            if ok {
                self.store.pf.fill_gap(start, start + len);
                good = good + 1;
            } else {
                self.store.pf.reopen_range(start, start + len);
            }
            i = i + 1;
        }
        assert(results@.take(i as int) =~= results@);
        let snapshot = self.aich.evidence_for(part);
        let ghost evidence = before.aich.evidence(part);
        let ghost live = before.block_sources@;
        let ghost after = *self;
        let mut k: usize = 0;
        assert(results@.take(0) =~= Seq::empty());
        assert(before.banned@.union(block_suspects(results@.take(0), live, evidence))
            =~= before.banned@);
        while k < results.len()
            invariant
                k <= results@.len(),
                self.wf(),
                snapshot.wf(),
                snapshot@ == evidence,
                live == before.block_sources@,
                *self == (Download { banned: self.banned, ..after }),
                after.block_sources == before.block_sources,
                self.banned@ == before.banned@.union(
                    block_suspects(results@.take(k as int), live, evidence),
                ),
            decreases results@.len() - k,
        {
            let (start, _, ok) = results[k];
            let ghost was = self.banned@;
            let ghost less = results@.take(k as int);
            let ghost more = results@.take(k + 1);
            proof {
                assert(more =~= less.push(results@[k as int]));
            }
            if !ok && !self.block_sources.contains_block(start) {
                if let Some(ip) = snapshot.sole_source(start) {
                    self.banned.insert(ip);
                    proof {
                        lemma_suspects_push(less, results@[k as int], live, evidence);
                        let one = Set::<IpAddr>::empty().insert(ip);
                        assert forall|x: IpAddr|
                            evidence.contains_pair(
                                start,
                                Set::<IpAddr>::empty().insert(x),
                            ) implies x == ip by {
                            assert(evidence[start].contains(x));
                        }
                        assert(self.banned@ =~= before.banned@.union(
                            block_suspects(more, live, evidence),
                        ));
                    }
                } else {
                    proof {
                        lemma_suspects_push(less, results@[k as int], live, evidence);
                        assert forall|x: IpAddr|
                            !evidence.contains_pair(start, Set::<IpAddr>::empty().insert(x)) by {
                            assert(Set::<IpAddr>::empty().insert(x).len() == 1);
                        }
                        assert(self.banned@ =~= before.banned@.union(
                            block_suspects(more, live, evidence),
                        ));
                    }
                }
            } else {
                proof {
                    lemma_suspects_push(less, results@[k as int], live, evidence);
                    assert(self.banned@ =~= before.banned@.union(
                        block_suspects(more, live, evidence),
                    ));
                }
            }
            k = k + 1;
        }
        assert(results@.take(k as int) =~= results@);
        (good, results.len() - good)
    }

    /// The recovery of part `part` is over. `verdict` is that on the whole part where it is
    /// complete now: a part that recovery completed and that still fails its hash proves the
    /// root wrong, and no vote makes a root trusted again.
    pub fn finish_recovery(&mut self, part: u64, verdict: Option<bool>)
        requires
            old(self).wf(),
            part < part_file::data_parts(old(self).store.pf.size as int),
        ensures
            final(self).wf(),
            final(self).store.settled(&old(self).store, part, verdict),
            *final(self) == (Download {
                store: final(self).store,
                aich: final(self).aich,
                ..*old(self)
            }),
            final(self).aich.votes == old(self).aich.votes,
            final(self).aich.reported == old(self).aich.reported,
            if verdict == Some(false) {
                &&& final(self).aich.status == AichStatus::Error
                &&& final(self).aich.master is None
                &&& final(self).aich.pending@.len() == 0
            } else {
                &&& final(self).aich.status == old(self).aich.status
                &&& final(self).aich.master == old(self).aich.master
                &&& forall|p: u64| #[trigger]
                    final(self).aich.awaits(p) <==> old(self).aich.awaits(p) && p != part
                &&& forall|p: u64|
                    #![trigger final(self).aich.claim_on(p)]
                    p != part ==> final(self).aich.claim_on(p) == old(self).aich.claim_on(p)
                &&& forall|p: u64|
                    #![trigger final(self).aich.evidence(p)]
                    p != part ==> final(self).aich.evidence(p) == old(self).aich.evidence(p)
            },
    {
        self.store.settle_part(part, verdict);
        match verdict {
            Some(false) => {
                self.aich.poison();
                assert forall|p: u64| !#[trigger] self.aich.awaits(p) by {}
            },
            _ => {
                self.aich.settle(part);
            },
        }
    }

    /// Apply verified recovery data for one part: judge each span by what the disk holds there,
    /// which is `reads`, fill back the good ones, re-open the bad ones, and blame who alone fed
    /// them. If that completes the part, whose bytes on disk are `bytes`, its hash must agree;
    /// otherwise the root is proved wrong. Returns how many spans were good and bad, or none
    /// where a span could not be read whole, and then nothing changes.
    pub fn apply_aich_recovery(
        &mut self,
        part: u64,
        spans: &[(u64, u64, [u8; 20])],
        reads: &Vec<Vec<u8>>,
        bytes: &[u8],
    ) -> (r: Option<(usize, usize)>)
        requires
            old(self).wf(),
            part < part_file::data_parts(old(self).store.pf.size as int),
            forall|i: int|
                0 <= i < reads@.len() ==> (#[trigger] reads@[i])@.len() < 0x2000_0000_0000_0000,
            bytes@.len() == part_file::part_end(part as int, old(self).store.pf.size as int)
                - part_file::part_start(part as int),
        ensures
            final(self).wf(),
            match r {
                None => *final(self) == *old(self) && !read_whole(spans@, reads@),
                Some((good, bad)) => {
                    &&& read_whole(spans@, reads@)
                    &&& final(self).recovered(
                        old(self),
                        part,
                        judged(spans@, reads@),
                        hash::md4_digest(bytes@),
                        good as nat,
                        bad as nat,
                    )
                },
            },
    {
        let results = match judge_blocks(spans, reads) {
            Some(v) => v,
            None => {
                return None;
            },
        };
        proof {
            assert forall|i: int| 0 <= i < results@.len() implies (#[trigger] results@[i]).0
                + results@[i].1 <= u64::MAX by {
                assert(spans@[i].0 == results@[i].0 && spans@[i].1 == results@[i].1);
            }
        }
        let (good, bad) = self.apply_block_verdicts(part, &results);
        let ghost mid = *self;
        let mut verdict: Option<bool> = None;
        if self.store.pf.is_part_complete(part) {
            verdict = self.store.pf.verify_part(part, bytes);
        }
        self.finish_recovery(part, verdict);
        proof {
            assert(mid.judged_by(old(self), part, results@));
        }
        match verdict {
            Some(false) => Some((0, results.len())),
            _ => Some((good, bad)),
        }
    }

    /// This is `before` after the recovery of part `part` with these verdicts on its blocks,
    /// where `digest` is the MD4 of the whole part.
    pub open spec fn recovered(
        &self,
        before: &Download,
        part: u64,
        results: Seq<Verdict>,
        digest: Seq<u8>,
        good: nat,
        bad: nat,
    ) -> bool {
        exists|mid: Download| #[trigger]
            mid.judged_by(before, part, results) && {
                let verdict = if mid.store.pf.part_done(part as int) {
                    match before.store.pf.expected_hash(part) {
                        Some(h) => Some(digest == h),
                        None => None,
                    }
                } else {
                    None
                };
                &&& self.store.settled(&mid.store, part, verdict)
                &&& *self == (Download { store: self.store, aich: self.aich, ..mid })
                &&& self.aich.votes == before.aich.votes
                &&& self.aich.reported == before.aich.reported
                &&& if verdict == Some(false) {
                    &&& good == 0
                    &&& bad == results.len()
                    &&& self.aich.status == AichStatus::Error
                    &&& self.aich.master is None
                    &&& self.aich.pending@.len() == 0
                } else {
                    &&& good == good_count(results)
                    &&& bad == results.len() - good
                    &&& self.aich.status == before.aich.status
                    &&& self.aich.master == before.aich.master
                    &&& forall|p: u64| #[trigger]
                        self.aich.awaits(p) <==> before.aich.awaits(p) && p != part
                    &&& forall|p: u64|
                        #![trigger self.aich.claim_on(p)]
                        p != part ==> self.aich.claim_on(p) == before.aich.claim_on(p)
                    &&& forall|p: u64|
                        #![trigger self.aich.evidence(p)]
                        p != part ==> self.aich.evidence(p) == before.aich.evidence(p)
                }
            }
    }
}

proof fn lemma_suspects_push(
    results: Seq<Verdict>,
    v: Verdict,
    live: Map<u64, Set<IpAddr>>,
    evidence: Map<u64, Set<IpAddr>>,
)
    ensures
        forall|x: IpAddr| #[trigger]
            block_suspects(results.push(v), live, evidence).contains(x) <==> block_suspects(
                results,
                live,
                evidence,
            ).contains(x) || (!v.2 && !live.dom().contains(v.0) && evidence.contains_pair(
                v.0,
                Set::<IpAddr>::empty().insert(x),
            )),
{
    let more = results.push(v);
    assert forall|x: IpAddr| #[trigger]
        block_suspects(more, live, evidence).contains(x) <==> block_suspects(
            results,
            live,
            evidence,
        ).contains(x) || (!v.2 && !live.dom().contains(v.0) && evidence.contains_pair(
            v.0,
            Set::<IpAddr>::empty().insert(x),
        )) by {
        let one = Set::<IpAddr>::empty().insert(x);
        if block_suspects(results, live, evidence).contains(x) {
            let i = choose|i: int|
                0 <= i < results.len() && !(#[trigger] results[i]).2 && !live.dom().contains(
                    results[i].0,
                ) && evidence.contains_pair(results[i].0, one);
            assert(more[i] == results[i]);
        }
        if !v.2 && !live.dom().contains(v.0) && evidence.contains_pair(v.0, one) {
            assert(more[results.len() as int] == v);
        }
        if block_suspects(more, live, evidence).contains(x) {
            let i = choose|i: int|
                0 <= i < more.len() && !(#[trigger] more[i]).2 && !live.dom().contains(more[i].0)
                    && evidence.contains_pair(more[i].0, one);
            if i < results.len() {
                assert(results[i] == more[i]);
            }
        }
    }
}

impl Download {
    /// Whether the file on disk is the one that was asked for: `hasher` has hashed its parts,
    /// or there is none where they could not be read.
    pub fn verify_whole_file(&self, hasher: Option<&Ed2kHasher>, size: u64, want: [u8; 16]) -> (ok:
        bool)
        ensures
            ok == (match hasher {
                Some(h) => hash::file_hash(size as int, hash::digest_views(h.digests@)) == want@,
                None => false,
            }),
    {
        match hasher {
            Some(h) => whole_file_verdict(Some(h.finish(size)), want),
            None => whole_file_verdict(None, want),
        }
    }

    /// Like [`Download::verify_whole_file`], and hand over the file's AICH hashset that the same
    /// pass gathered. A file that fails has none, and a hashset that is not whole does not
    /// change the verdict.
    pub fn verify_whole_file_and_aich(
        &self,
        hasher: Option<&Ed2kHasher>,
        leaves: Option<AichLeafHasher>,
        size: u64,
        want: [u8; 16],
    ) -> (r: (bool, Option<([u8; 20], Vec<[u8; 20]>)>))
        ensures
            r.0 == (match hasher {
                Some(h) => hash::file_hash(size as int, hash::digest_views(h.digests@)) == want@,
                None => false,
            }),
            r.1 is Some == (r.0 && leaves is Some && leaves->0.file_size > 0
                && leaves->0.leaves@.len() == aich_tree::leaf_count(leaves->0.file_size as int)),
            match r.1 {
                Some((root, list)) => {
                    &&& list == leaves->0.leaves
                    &&& root@ == aich_tree::node_hash(
                        leaves->0.file_size as int,
                        true,
                        aich_tree::leaf_views(list@),
                    )
                },
                None => true,
            },
    {
        if !self.verify_whole_file(hasher, size, want) {
            return (false, None);
        }
        match leaves {
            Some(l) => match l.finish() {
                Some(tree) => {
                    let root = tree.master_hash();
                    (true, Some((root, tree.leaves)))
                },
                None => (true, None),
            },
            None => (true, None),
        }
    }
}

/// The file is the wanted one: its hash could be had, and is that.
pub fn whole_file_verdict(got: Option<[u8; 16]>, want: [u8; 16]) -> (ok: bool)
    ensures
        ok == (got is Some && got->0@ == want@),
{
    match got {
        Some(h) => same_hash16(&h, &want),
        None => false,
    }
}

/// Blocks that were not reserved before, claimed and then given back, leave the reservations
/// as they were.
pub proof fn law_take_then_release(before: Seq<(u64, u64)>, blocks: Seq<(u64, u64)>)
    requires
        forall|b: (u64, u64)| blocks.contains(b) ==> !before.contains(b),
    ensures
        without_blocks(before + blocks, blocks) == before,
{
    let pred = |b: (u64, u64)| !blocks.contains(b);
    lemma_filter_concat(before, blocks, pred);
    lemma_filter_all(before, pred);
    lemma_filter_none(blocks, pred);
    assert(before + Seq::<(u64, u64)>::empty() =~= before);
}

/// What is released is reserved no longer, and nothing else is given up.
pub proof fn law_release_is_exact(reserved: Seq<(u64, u64)>, blocks: Seq<(u64, u64)>, b: (u64, u64))
    ensures
        without_blocks(reserved, blocks).contains(b) <==> reserved.contains(b) && !blocks.contains(
            b,
        ),
    decreases reserved.len(),
{
    reveal(Seq::filter);
    let kept = without_blocks(reserved, blocks);
    if reserved.len() > 0 {
        let less = reserved.drop_last();
        let x = reserved.last();
        law_release_is_exact(less, blocks, b);
        let before = without_blocks(less, blocks);
        assert(reserved =~= less.push(x));
        assert(reserved.contains(b) <==> less.contains(b) || b == x) by {
            if less.contains(b) {
                assert(reserved[less.index_of(b)] == b);
            }
            if b == x {
                assert(reserved[less.len() as int] == b);
            }
            if reserved.contains(b) {
                let i = reserved.index_of(b);
                if i < less.len() {
                    assert(less[i] == b);
                }
            }
        }
        if blocks.contains(x) {
            assert(kept == before);
        } else {
            assert(kept == before.push(x));
            assert(kept.contains(b) <==> before.contains(b) || b == x) by {
                if before.contains(b) {
                    assert(kept[before.index_of(b)] == b);
                }
                if b == x {
                    assert(kept[before.len() as int] == b);
                }
                if kept.contains(b) {
                    let i = kept.index_of(b);
                    if i < before.len() {
                        assert(before[i] == b);
                    }
                }
            }
        }
    }
}

/// The blocks that a peer is handed while nothing is raced are reserved by nobody else.
pub proof fn law_handed_out_once(
    d: &Download,
    status: &FileStatus,
    max: nat,
    blocks: Seq<(u64, u64)>,
    b: (u64, u64),
)
    requires
        d.wf(),
        d.offers(status, max, false, blocks),
        blocks.contains(b),
    ensures
        !d.reserved@.contains(b),
{
    let i = blocks.index_of(b);
    assert(d.store.pf.on_offer(
        d.held_by(status),
        d.reserved@,
        part_file::part_of(blocks[i].0 as int),
        blocks[i].0 as int,
        blocks[i].1 as int,
    ));
    if d.reserved@.contains(b) {
        let j = d.reserved@.index_of(b);
        assert(d.reserved@[j] == b);
    }
}

proof fn lemma_filter_concat(
    a: Seq<(u64, u64)>,
    b: Seq<(u64, u64)>,
    pred: spec_fn((u64, u64)) -> bool,
)
    ensures
        (a + b).filter(pred) == a.filter(pred) + b.filter(pred),
    decreases b.len(),
{
    reveal(Seq::filter);
    if b.len() == 0 {
        assert(a + b =~= a);
        assert(a.filter(pred) + b.filter(pred) =~= a.filter(pred));
    } else {
        assert((a + b).drop_last() =~= a + b.drop_last());
        lemma_filter_concat(a, b.drop_last(), pred);
        assert((a + b).filter(pred) =~= a.filter(pred) + b.filter(pred));
    }
}

proof fn lemma_filter_all(a: Seq<(u64, u64)>, pred: spec_fn((u64, u64)) -> bool)
    requires
        forall|b: (u64, u64)| #[trigger] a.contains(b) ==> pred(b),
    ensures
        a.filter(pred) == a,
    decreases a.len(),
{
    reveal(Seq::filter);
    if a.len() > 0 {
        assert(a.contains(a.last()));
        assert forall|b: (u64, u64)| #[trigger] a.drop_last().contains(b) implies pred(b) by {
            assert(a[a.drop_last().index_of(b)] == b);
            assert(a.contains(b));
        }
        lemma_filter_all(a.drop_last(), pred);
        assert(a.drop_last().push(a.last()) =~= a);
    }
}

proof fn lemma_filter_none(a: Seq<(u64, u64)>, pred: spec_fn((u64, u64)) -> bool)
    requires
        forall|b: (u64, u64)| #[trigger] a.contains(b) ==> !pred(b),
    ensures
        a.filter(pred) == Seq::<(u64, u64)>::empty(),
    decreases a.len(),
{
    reveal(Seq::filter);
    if a.len() > 0 {
        assert(a.contains(a.last()));
        assert forall|b: (u64, u64)| #[trigger] a.drop_last().contains(b) implies !pred(b) by {
            assert(a[a.drop_last().index_of(b)] == b);
            assert(a.contains(b));
        }
        lemma_filter_none(a.drop_last(), pred);
    }
}

/// A part whose blocks came from two senders blames neither of them.
pub proof fn law_a_part_of_two_senders_blames_neither(
    m: Map<u64, Set<IpAddr>>,
    part: u64,
    j: u64,
    k: u64,
    a: IpAddr,
    b: IpAddr,
)
    requires
        in_part(part, j),
        in_part(part, k),
        m.dom().contains(j),
        m.dom().contains(k),
        m[j].contains(a),
        m[k].contains(b),
        a != b,
    ensures
        forall|ip: IpAddr| !#[trigger] sole_sender(m, part, ip),
{
    let mine = part_senders(m, part);
    let all = block_sources::all_senders(mine);
    assert(mine.dom().contains(j) && mine[j].contains(a));
    assert(mine.dom().contains(k) && mine[k].contains(b));
    assert(all.contains(a) && all.contains(b));
}

/// When a part fails again, the blocks that were sent anew are held against those who sent them
/// anew, and no longer against those who sent them before.
pub proof fn law_a_second_failure_blames_the_second_sender(
    before: &Download,
    after: &Download,
    bad: Seq<u64>,
    part: u64,
    block: u64,
)
    requires
        after.blamed(before, bad),
        bad.contains(part),
        in_part(part, block),
        before.block_sources@.dom().contains(block),
    ensures
        after.aich.evidence(part).dom().contains(block),
        after.aich.evidence(part)[block] == before.block_sources@[block],
{
    assert(part_senders(before.block_sources@, part).dom().contains(block));
}

/// A recovery bans nobody but whoever alone fed a block that is bad and that no one has sent
/// again since; a source that repairs the part is not held to the bytes of another.
pub proof fn law_a_recovery_bans_only_the_sender_of_a_bad_block(
    before: &Download,
    after: &Download,
    part: u64,
    results: Seq<Verdict>,
    ip: IpAddr,
)
    requires
        after.judged_by(before, part, results),
        after.banned@.contains(ip),
        !before.banned@.contains(ip),
    ensures
        exists|i: int|
            0 <= i < results.len() && !(#[trigger] results[i]).2
                && !before.block_sources@.dom().contains(results[i].0)
                && before.aich.evidence(part).contains_pair(
                results[i].0,
                Set::<IpAddr>::empty().insert(ip),
            ),
{
    assert(block_suspects(
        results,
        before.block_sources@,
        before.aich.evidence(part),
    ).contains(ip));
}

/// What a peer is handed while nothing is raced keeps off every reserved range. Ranges that are
/// reserved are handed out again only where at most four blocks' worth of bytes are missing.
pub proof fn law_blocks_are_raced_only_at_the_end(
    before: &Download,
    after: &Download,
    status: &FileStatus,
    max: nat,
    blocks: Seq<(u64, u64)>,
)
    requires
        before.wf(),
        after.took(before, status, max, blocks),
    ensures
        blocks.len() <= max,
        before.cancelled ==> blocks.len() == 0,
        after.reserved@ == before.reserved@ + blocks,
        (forall|i: int, k: int|
            0 <= i < blocks.len() && 0 <= k < before.reserved@.len() ==> (#[trigger] blocks[i]).1
                <= (#[trigger] before.reserved@[k]).0 || before.reserved@[k].1 <= blocks[i].0)
            || 0 < Set::new(|b: int| before.store.pf.needs(b)).len() <= 4 * 184_320,
{
    if !before.cancelled {
        let first = choose|first: Seq<(u64, u64)>|
            {
                &&& #[trigger] before.offers(status, max, false, first)
                &&& if first.len() == 0 && before.near_end() {
                    before.offers(status, max, true, blocks)
                } else {
                    blocks == first
                }
            };
        if first.len() == 0 && before.near_end() {
            assert(Set::new(|b: int| before.store.pf.needs(b)) =~= part_file::byte_set(
                before.store.pf.gap_list(),
            ));
        } else {
            assert forall|i: int, k: int|
                0 <= i < blocks.len() && 0 <= k < before.reserved@.len() implies (
            #[trigger] blocks[i]).1 <= (#[trigger] before.reserved@[k]).0 || before.reserved@[k].1
                <= blocks[i].0 by {
                assert(before.store.pf.on_offer(
                    before.held_by(status),
                    before.reserved@,
                    part_file::part_of(blocks[i].0 as int),
                    blocks[i].0 as int,
                    blocks[i].1 as int,
                ));
            }
        }
    }
}

/// A peer goes away with nothing only for a reason. Of every missing byte of a part that it holds,
/// a reserved range reaches into the byte's block; and near the end of the file not even that is a
/// reason.
pub proof fn law_a_peer_that_can_help_is_asked(
    before: &Download,
    after: &Download,
    status: &FileStatus,
    max: nat,
    b: int,
)
    requires
        before.wf(),
        !before.cancelled,
        max > 0,
        after.took(before, status, max, Seq::empty()),
        0 <= b < before.store.pf.size,
        before.store.pf.needs(b),
        status.complete || b / 9_728_000 < status.parts@.len() && status.parts@[b / 9_728_000],
    ensures
        Set::new(|x: int| before.store.pf.needs(x)).len() > 4 * 184_320,
        exists|k: int|
            0 <= k < before.reserved@.len() && {
                let cell = b - b % 9_728_000 % 184_320;
                (#[trigger] before.reserved@[k]).0 < cell + 184_320 && before.reserved@[k].1 > cell
            },
{
    let none = Seq::<(u64, u64)>::empty();
    let pf = before.store.pf;
    let held = before.held_by(status);
    let rank = part_file::part_ranks(before.availability@, before.preview);
    assert(held[b / 9_728_000]);
    let first = choose|first: Seq<(u64, u64)>|
        {
            &&& #[trigger] before.offers(status, max, false, first)
            &&& if first.len() == 0 && before.near_end() {
                before.offers(status, max, true, none)
            } else {
                none == first
            }
        };
    assert(first.len() == 0);
    let some = Set::new(|x: int| pf.needs(x));
    assert(some =~= part_file::byte_set(pf.gap_list()));
    if before.near_end() {
        pf.law_nothing_is_passed_over(held, rank, before.reserved@, true, max, none, b);
    } else {
        part_file::lemma_missing_finite(pf.gap_list());
        assert(some.contains(b));
        if some.len() == 0 {
            assert(some =~= Set::empty());
        }
        if forall|k: int|
            0 <= k < before.reserved@.len() ==> {
                let cell = b - b % 9_728_000 % 184_320;
                (#[trigger] before.reserved@[k]).1 <= cell || before.reserved@[k].0 >= cell + 184_320
            } {
            pf.law_nothing_is_passed_over(held, rank, before.reserved@, false, max, first, b);
        }
    }
}

/// Every block that a byte of a write falls in remembers the sender, nobody is forgotten, and
/// nobody is remembered for a block that was not touched. Blocks are counted from the start of
/// each part.
pub proof fn law_every_block_remembers_its_senders(
    m: Map<u64, Set<IpAddr>>,
    start: u64,
    end: u64,
    ip: IpAddr,
    b: int,
)
    ensures
        start <= b < end ==> {
            let k = (b - b % 9_728_000 % 184_320) as u64;
            &&& attributed(m, start as int, end as int, ip).dom().contains(k)
            &&& attributed(m, start as int, end as int, ip)[k].contains(ip)
        },
        forall|k: u64, x: IpAddr|
            m.dom().contains(k) && #[trigger] m[k].contains(x) ==> attributed(
                m,
                start as int,
                end as int,
                ip,
            ).dom().contains(k) && attributed(m, start as int, end as int, ip)[k].contains(x),
        forall|k: u64, x: IpAddr|
            attributed(m, start as int, end as int, ip).dom().contains(k)
                && #[trigger] attributed(m, start as int, end as int, ip)[k].contains(x) ==> {
                ||| m.dom().contains(k) && m[k].contains(x)
                ||| x == ip && exists|b: int|
                    start <= b < end && k == b - #[trigger] (b % 9_728_000) % 184_320
            },
{
    let all = attributed(m, start as int, end as int, ip);
    if start <= b < end {
        let k = (b - b % 9_728_000 % 184_320) as u64;
        lemma_block_of(b);
        assert(block_of(b) == k as int);
        assert(touches(start as int, end as int, k as int));
    }
    assert forall|k: u64, x: IpAddr|
        all.dom().contains(k) && #[trigger] all[k].contains(x) implies {
        ||| m.dom().contains(k) && m[k].contains(x)
        ||| x == ip && exists|b: int|
            start <= b < end && k == b - #[trigger] (b % 9_728_000) % 184_320
    } by {
        if !(m.dom().contains(k) && m[k].contains(x)) {
            let b = choose|b: int|
                start as int <= b < end as int && #[trigger] block_of(b) == k as int;
            lemma_block_of(b);
            assert(k == b - (b % 9_728_000) % 184_320);
        }
    }
}

proof fn lemma_block_of(b: int)
    requires
        0 <= b,
    ensures
        block_of(b) == b - b % 9_728_000 % 184_320,
{
    let from = part_file::part_start(part_file::part_of(b));
    assert(b - from == b % 9_728_000);
    let r = b % 9_728_000;
    assert(r / 184_320 * 184_320 == r - r % 184_320);
}

/// Whoever alone fed the blocks of a part that failed is banned, and nobody is banned otherwise: a
/// ban means that a failed part has bytes of that address and of no other.
pub proof fn law_a_failed_part_bans_its_only_sender(
    before: &Download,
    after: &Download,
    bad: Seq<u64>,
    ip: IpAddr,
)
    requires
        after.blamed(before, bad),
    ensures
        after.banned@.contains(ip) <==> before.banned@.contains(ip) || exists|i: int|
            #![trigger bad[i]]
            0 <= i < bad.len() && {
                let m = before.block_sources@;
                let from = bad[i] * 9_728_000;
                &&& exists|k: u64| #[trigger]
                    m.dom().contains(k) && from <= k < from + 9_728_000 && m[k].contains(ip)
                &&& forall|k: u64, x: IpAddr|
                    m.dom().contains(k) && from <= k < from + 9_728_000 && #[trigger] m[k].contains(
                        x,
                    ) ==> x == ip
            },
{
    let m = before.block_sources@;
    assert forall|i: int| #![trigger bad[i]] 0 <= i < bad.len() implies (sole_sender(m, bad[i], ip)
        <==> {
        let from = bad[i] * 9_728_000;
        &&& exists|k: u64| #[trigger]
            m.dom().contains(k) && from <= k < from + 9_728_000 && m[k].contains(ip)
        &&& forall|k: u64, x: IpAddr|
            m.dom().contains(k) && from <= k < from + 9_728_000 && #[trigger] m[k].contains(x)
                ==> x == ip
    }) by {
        lemma_sole_sender(m, bad[i], ip);
    }
    if sole_senders(m, bad).contains(ip) {
        let i = choose|i: int| 0 <= i < bad.len() && sole_sender(m, #[trigger] bad[i], ip);
        assert(sole_sender(m, bad[i], ip));
    }
}

proof fn lemma_sole_sender(m: Map<u64, Set<IpAddr>>, part: u64, ip: IpAddr)
    ensures
        sole_sender(m, part, ip) <==> {
            let from = part * 9_728_000;
            &&& exists|k: u64| #[trigger]
                m.dom().contains(k) && from <= k < from + 9_728_000 && m[k].contains(ip)
            &&& forall|k: u64, x: IpAddr|
                m.dom().contains(k) && from <= k < from + 9_728_000 && #[trigger] m[k].contains(x)
                    ==> x == ip
        },
{
    let mine = part_senders(m, part);
    let all = block_sources::all_senders(mine);
    let one = Set::<IpAddr>::empty().insert(ip);
    let from = part * 9_728_000;
    assert forall|k: u64| #[trigger] mine.dom().contains(k) <==> m.dom().contains(k) && from <= k
        < from + 9_728_000 by {}
    if sole_sender(m, part, ip) {
        assert(all.contains(ip));
        let k = choose|k: u64| #[trigger] mine.dom().contains(k) && mine[k].contains(ip);
        assert(m.dom().contains(k) && m[k].contains(ip));
        assert forall|k: u64, x: IpAddr|
            m.dom().contains(k) && from <= k < from + 9_728_000 && #[trigger] m[k].contains(
                x,
            ) implies x == ip by {
            assert(mine.dom().contains(k) && mine[k].contains(x));
            assert(all.contains(x));
        }
    }
    if (exists|k: u64| #[trigger]
        m.dom().contains(k) && from <= k < from + 9_728_000 && m[k].contains(ip)) && (forall|
        k: u64,
        x: IpAddr,
    |
        m.dom().contains(k) && from <= k < from + 9_728_000 && #[trigger] m[k].contains(x) ==> x
            == ip) {
        let k = choose|k: u64| #[trigger]
            m.dom().contains(k) && from <= k < from + 9_728_000 && m[k].contains(ip);
        assert(mine.dom().contains(k) && mine[k].contains(ip));
        assert forall|x: IpAddr| all.contains(x) <==> one.contains(x) by {
            if all.contains(x) {
                let j = choose|j: u64| #[trigger] mine.dom().contains(j) && mine[j].contains(x);
                assert(m.dom().contains(j) && m[j].contains(x));
            }
        }
        assert(all =~= one);
    }
}

/// What a failed part costs: its bytes are missing again, the bytes of no other part are, and the
/// part is on the list of corrupted ones and awaits recovery.
pub proof fn law_a_failed_part_is_fetched_again(
    before: &Download,
    after: &Download,
    bad: Seq<u64>,
    b: int,
)
    requires
        after.blamed(before, bad),
        0 <= b < before.store.pf.size,
    ensures
        after.store.pf.needs(b) <==> before.store.pf.needs(b) || exists|i: int|
            0 <= i < bad.len() && #[trigger] bad[i] == b / 9_728_000,
        forall|i: int|
            0 <= i < bad.len() ==> after.store.pf.bad_parts().contains(#[trigger] bad[i])
                && after.aich.awaits(bad[i]),
        forall|p: u64|
            before.store.pf.bad_parts().contains(p) ==> #[trigger] after.store.pf.bad_parts().contains(
                p,
            ),
{
    let size = before.store.pf.size as int;
    assert forall|i: int| 0 <= i < bad.len() implies (part_file::part_start(
        #[trigger] bad[i] as int,
    ) <= b < part_file::part_end(bad[i] as int, size) <==> bad[i] == b / 9_728_000) by {}
    if byte_in_parts(bad, size, b) {
        let i = choose|i: int|
            0 <= i < bad.len() && part_file::part_start(#[trigger] bad[i] as int) <= b
                < part_file::part_end(bad[i] as int, size);
        assert(bad[i] == b / 9_728_000);
    }
    if exists|i: int| 0 <= i < bad.len() && #[trigger] bad[i] == b / 9_728_000 {
        let i = choose|i: int| 0 <= i < bad.len() && #[trigger] bad[i] == b / 9_728_000;
        assert(part_file::part_start(bad[i] as int) <= b);
    }
    assert forall|i: int| 0 <= i < bad.len() implies after.store.pf.bad_parts().contains(
        #[trigger] bad[i],
    ) && after.aich.awaits(bad[i]) by {
        lemma_marked(before.store.pf.bad_parts(), bad, bad[i]);
        assert(bad.contains(bad[i]));
    }
    assert forall|p: u64| before.store.pf.bad_parts().contains(p) implies
        #[trigger] after.store.pf.bad_parts().contains(p) by {
        lemma_marked(before.store.pf.bad_parts(), bad, p);
    }
}

proof fn lemma_marked(list: Seq<u64>, more: Seq<u64>, p: u64)
    ensures
        marked(list, more).contains(p) <==> list.contains(p) || more.contains(p),
    decreases more.len(),
{
    if more.len() > 0 {
        let less = more.drop_last();
        lemma_marked(list, less, p);
        let l = marked(list, less);
        let all = l.push(more.last());
        assert(all.contains(p) <==> l.contains(p) || p == more.last()) by {
            if l.contains(p) {
                assert(all[l.index_of(p)] == p);
            }
            assert(all[l.len() as int] == more.last());
        }
        assert(more.contains(p) <==> less.contains(p) || p == more.last()) by {
            if less.contains(p) {
                assert(more[less.index_of(p)] == p);
            }
            assert(more[more.len() - 1] == more.last());
            if more.contains(p) {
                let i = more.index_of(p);
                if i < less.len() {
                    assert(less[i] == p);
                }
            }
        }
    }
}

/// A recovery puts each byte right: one in a good span is there, one in a bad span is missing, and
/// the others are as they were. Where spans overlap, the last of them decides.
pub proof fn law_a_recovery_judges_each_byte(
    before: &Download,
    after: &Download,
    part: u64,
    results: Seq<Verdict>,
    i: int,
    b: int,
)
    requires
        after.judged_by(before, part, results),
        -1 <= i < results.len(),
        i >= 0 ==> results[i].0 <= b < results[i].0 + results[i].1,
        forall|j: int|
            i < j < results.len() ==> !((#[trigger] results[j]).0 <= b < results[j].0
                + results[j].1),
    ensures
        after.store.pf.needs(b) == (if i >= 0 {
            !results[i].2
        } else {
            before.store.pf.needs(b)
        }),
{
    lemma_missing_after(&before.store.pf, results, i, b);
}

proof fn lemma_missing_after(pf: &PartFile, results: Seq<Verdict>, i: int, b: int)
    requires
        -1 <= i < results.len(),
        i >= 0 ==> results[i].0 <= b < results[i].0 + results[i].1,
        forall|j: int|
            i < j < results.len() ==> !((#[trigger] results[j]).0 <= b < results[j].0
                + results[j].1),
    ensures
        missing_after(pf, results, b) == (if i >= 0 {
            !results[i].2
        } else {
            pf.needs(b)
        }),
    decreases results.len(),
{
    if results.len() > 0 && i < results.len() - 1 {
        let less = results.drop_last();
        assert(results[results.len() - 1] == results.last());
        assert forall|j: int| i < j < less.len() implies !((#[trigger] less[j]).0 <= b < less[j].0
            + less[j].1) by {
            assert(less[j] == results[j]);
        }
        lemma_missing_after(pf, less, i, b);
    }
}

/// Whoever alone fed a bad block is banned, unless somebody has sent that block again since.
pub proof fn law_a_bad_block_bans_its_only_sender(
    before: &Download,
    after: &Download,
    part: u64,
    results: Seq<Verdict>,
    i: int,
    ip: IpAddr,
)
    requires
        after.judged_by(before, part, results),
        0 <= i < results.len(),
        !results[i].2,
        !before.block_sources@.dom().contains(results[i].0),
        before.aich.evidence(part).dom().contains(results[i].0),
        forall|x: IpAddr| #[trigger]
            before.aich.evidence(part)[results[i].0].contains(x) <==> x == ip,
    ensures
        after.banned@.contains(ip),
{
    assert(before.aich.evidence(part)[results[i].0] =~= Set::<IpAddr>::empty().insert(ip));
}

/// The count of good verdicts is the number of verdicts that are good.
pub proof fn law_good_verdicts_are_counted(results: Seq<Verdict>)
    ensures
        good_count(results) == results.filter(|v: Verdict| v.2).len(),
    decreases results.len(),
{
    reveal(Seq::filter);
    if results.len() > 0 {
        law_good_verdicts_are_counted(results.drop_last());
    }
}

/// The average rating lies among the ratings: no source that did not rate the file counts, and if
/// all who rated it agree, theirs is the average.
pub proof fn law_the_average_lies_among_the_ratings(sources: Seq<SourceInfo>, lo: int, hi: int)
    requires
        forall|i: int|
            0 <= i < sources.len() && (#[trigger] sources[i]).rating > 0 ==> lo
                <= sources[i].rating <= hi,
    ensures
        rated(sources) == sources.filter(|s: SourceInfo| s.rating > 0).len(),
        rated(sources) > 0 ==> lo <= rating_sum(sources) / rated(sources) as int <= hi,
        rated(sources) == 0 ==> rating_sum(sources) == 0,
{
    lemma_ratings(sources, lo, hi);
    let (sum, n) = (rating_sum(sources), rated(sources) as int);
    if n > 0 {
        assert(lo <= sum / n <= hi) by (nonlinear_arith)
            requires
                lo * n <= sum <= hi * n,
                n > 0,
        ;
    }
}

proof fn lemma_ratings(sources: Seq<SourceInfo>, lo: int, hi: int)
    requires
        forall|i: int|
            0 <= i < sources.len() && (#[trigger] sources[i]).rating > 0 ==> lo
                <= sources[i].rating <= hi,
    ensures
        rated(sources) == sources.filter(|s: SourceInfo| s.rating > 0).len(),
        lo * rated(sources) <= rating_sum(sources) <= hi * rated(sources),
    decreases sources.len(),
{
    reveal(Seq::filter);
    if sources.len() > 0 {
        let less = sources.drop_last();
        assert forall|i: int| 0 <= i < less.len() && (#[trigger] less[i]).rating > 0 implies lo
            <= less[i].rating <= hi by {
            assert(less[i] == sources[i]);
        }
        lemma_ratings(less, lo, hi);
        let last = sources.last();
        assert(sources[sources.len() - 1] == last);
        let n = rated(less) as int;
        assert(lo * (n + 1) == lo * n + lo && hi * (n + 1) == hi * n + hi) by (nonlinear_arith);
        assert(rated(sources) as int == if last.rating > 0 {
            n + 1
        } else {
            n
        });
    } else {
        assert(lo * 0 == 0 && hi * 0 == 0) by (nonlinear_arith);
    }
}

/// A source counts for its channel for three minutes after it was last heard from, and for no
/// other channel.
pub proof fn law_a_source_counts_while_it_is_fresh(
    sources: Seq<SourceInfo>,
    s: SourceInfo,
    origin: SourceOrigin,
    now: u64,
)
    ensures
        origin_count(sources.push(s), origin, now) == origin_count(sources, origin, now) + (
        if s.origin == origin && now <= s.last_seen + 180 {
            1nat
        } else {
            0nat
        }),
{
    reveal(Seq::filter);
    assert(sources.push(s).drop_last() =~= sources);
}

/// What a recovery ends in. Where it completes the part and the part still fails its hash, the root
/// is proved wrong: no root is trusted, nothing awaits recovery, the part is fetched again, and none
/// of its blocks counts as good. Else the root keeps its standing and the part awaits recovery no
/// longer; and where the part passes, it is off the list of corrupted ones.
pub proof fn law_a_recovery_that_fails_the_part_disproves_the_root(
    before: &Download,
    after: &Download,
    part: u64,
    results: Seq<Verdict>,
    digest: Seq<u8>,
    good: nat,
    bad: nat,
)
    requires
        after.recovered(before, part, results, digest, good, bad),
        part < part_file::data_parts(before.store.pf.size as int),
    ensures
        ({
            let complete = forall|b: int|
                0 <= b < before.store.pf.size && #[trigger] (b / 9_728_000) == part
                    ==> !missing_after(&before.store.pf, results, b);
            let want = before.store.pf.expected_hash(part);
            let failed = complete && want is Some && want->0 != digest;
            &&& failed ==> {
                &&& after.aich.status == AichStatus::Error
                &&& after.aich.trusted() is None
                &&& forall|p: u64| !#[trigger] after.aich.awaits(p)
                &&& good == 0 && bad == results.len()
                &&& after.store.pf.bad_parts().contains(part)
                &&& forall|b: int|
                    0 <= b < before.store.pf.size && #[trigger] (b / 9_728_000) == part
                        ==> after.store.pf.needs(b)
            }
            &&& !failed ==> {
                &&& after.aich.trusted() == before.aich.trusted()
                &&& !after.aich.awaits(part)
                &&& good == results.filter(|v: Verdict| v.2).len()
                &&& good + bad == results.len()
                &&& complete && want is Some ==> !after.store.pf.bad_parts().contains(part)
                &&& forall|b: int|
                    0 <= b < before.store.pf.size ==> (#[trigger] after.store.pf.needs(b)
                        <==> missing_after(&before.store.pf, results, b))
            }
        }),
{
    let complete = forall|b: int|
        0 <= b < before.store.pf.size && #[trigger] (b / 9_728_000) == part ==> !missing_after(
            &before.store.pf,
            results,
            b,
        );
    let size = before.store.pf.size as int;
    let mid = choose|mid: Download| #[trigger]
        mid.judged_by(before, part, results) && {
            let verdict = if mid.store.pf.part_done(part as int) {
                match before.store.pf.expected_hash(part) {
                    Some(h) => Some(digest == h),
                    None => None,
                }
            } else {
                None
            };
            &&& after.store.settled(&mid.store, part, verdict)
            &&& *after == (Download { store: after.store, aich: after.aich, ..mid })
            &&& after.aich.votes == before.aich.votes
            &&& after.aich.reported == before.aich.reported
            &&& if verdict == Some(false) {
                &&& good == 0
                &&& bad == results.len()
                &&& after.aich.status == AichStatus::Error
                &&& after.aich.master is None
                &&& after.aich.pending@.len() == 0
            } else {
                &&& good == good_count(results)
                &&& bad == results.len() - good
                &&& after.aich.status == before.aich.status
                &&& after.aich.master == before.aich.master
                &&& forall|p: u64| #[trigger]
                    after.aich.awaits(p) <==> before.aich.awaits(p) && p != part
            }
        };
    assert forall|b: int| 0 <= b < size implies (#[trigger] (b / 9_728_000) == part
        <==> part_file::part_start(part as int) <= b < part_file::part_end(part as int, size)) by {
        part_file::law_each_byte_lies_in_one_part(size as u64, b, part as int);
    }
    assert(mid.store.pf.part_done(part as int) <==> complete) by {
        if complete {
            assert forall|b: int|
                part_file::part_start(part as int) <= b < part_file::part_end(
                    part as int,
                    size,
                ) implies !#[trigger] mid.store.pf.needs(b) by {
                assert(b / 9_728_000 == part);
            }
        }
        if mid.store.pf.part_done(part as int) {
            assert forall|b: int|
                0 <= b < size && #[trigger] (b / 9_728_000) == part implies !missing_after(
                &before.store.pf,
                results,
                b,
            ) by {
                assert(!mid.store.pf.needs(b));
            }
        }
    }
    law_good_verdicts_are_counted(results);
    lemma_good_count_bound(results);
    let bads = mid.store.pf.bad_parts();
    if bads.contains(part) {
    } else {
        assert(bads.push(part)[bads.len() as int] == part);
    }
    lemma_without_part(bads, part);
    assert(mid.store.pf.expected_hash(part) == before.store.pf.expected_hash(part));
}

proof fn lemma_good_count_bound(results: Seq<Verdict>)
    ensures
        good_count(results) <= results.len(),
    decreases results.len(),
{
    if results.len() > 0 {
        lemma_good_count_bound(results.drop_last());
    }
}

proof fn lemma_without_part(parts: Seq<u64>, part: u64)
    ensures
        !part_file::without_part(parts, part).contains(part),
    decreases parts.len(),
{
    reveal(Seq::filter);
    if parts.len() > 0 {
        lemma_without_part(parts.drop_last(), part);
        let less = part_file::without_part(parts.drop_last(), part);
        if parts.last() != part {
            let all = less.push(parts.last());
            if all.contains(part) {
                let i = all.index_of(part);
                if i < less.len() {
                    assert(less[i] == part);
                }
            }
        }
    }
}

/// A peer is worth asking if and only if it holds a part that has a byte missing, whoever else is
/// fetching it.
pub proof fn law_a_peer_is_worth_asking_for_a_missing_byte(d: &Download, status: &FileStatus)
    ensures
        d.worth_asking(status) <==> exists|b: int|
            {
                let p = #[trigger] (b / 9_728_000);
                &&& 0 <= b < d.store.pf.size
                &&& part_file::covers(d.store.pf.gaps@, b)
                &&& status.complete || p < status.parts@.len() && status.parts@[p]
            },
{
    let pf = d.store.pf;
    let n = part_file::data_parts(pf.size as int);
    if d.worth_asking(status) {
        let p = choose|p: int| 0 <= p < n && #[trigger] status.holds(p) && !pf.part_done(p);
        let b = choose|b: int|
            part_file::part_start(p) <= b < part_file::part_end(p, pf.size as int)
                && #[trigger] pf.needs(b);
        part_file::law_each_byte_lies_in_one_part(pf.size, b, p);
        assert(b / 9_728_000 == p);
    }
    if exists|b: int|
        {
            let p = #[trigger] (b / 9_728_000);
            &&& 0 <= b < d.store.pf.size
            &&& part_file::covers(d.store.pf.gaps@, b)
            &&& status.complete || p < status.parts@.len() && status.parts@[p]
        } {
        let b = choose|b: int|
            {
                let p = #[trigger] (b / 9_728_000);
                &&& 0 <= b < d.store.pf.size
                &&& part_file::covers(d.store.pf.gaps@, b)
                &&& status.complete || p < status.parts@.len() && status.parts@[p]
            };
        let p = b / 9_728_000;
        part_file::law_each_byte_lies_in_one_part(pf.size, b, p);
        assert(pf.needs(b));
        assert(status.holds(p) && !pf.part_done(p));
    }
}

} // verus!
