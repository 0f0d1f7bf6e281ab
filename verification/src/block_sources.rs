//! Who sent what: sets of addresses, and the set of senders of each block.
use vstd::prelude::*;
use crate::net::IpAddr;

verus! {

/// A set of addresses.
#[derive(Debug, Clone)]
pub struct IpSet {
    pub ips: Vec<IpAddr>,
}

impl View for IpSet {
    type V = Set<IpAddr>;

    open spec fn view(&self) -> Set<IpAddr> {
        self.ips@.to_set()
    }
}

impl IpSet {
    /// No address is held twice.
    pub open spec fn wf(&self) -> bool {
        self.ips@.no_duplicates()
    }

    /// The empty set.
    pub fn new() -> (s: IpSet)
        ensures
            s.wf(),
            s@ == Set::<IpAddr>::empty(),
    {
        let s = IpSet { ips: Vec::new() };
        assert(s@ =~= Set::<IpAddr>::empty());
        s
    }

    /// Whether `ip` is in the set.
    pub fn contains(&self, ip: IpAddr) -> (found: bool)
        ensures
            found == self@.contains(ip),
    {
        let mut i: usize = 0;
        while i < self.ips.len()
            invariant
                i <= self.ips.len(),
                forall|j: int| 0 <= j < i ==> self.ips@[j] != ip,
            decreases self.ips.len() - i,
        {
            if self.ips[i] == ip {
                assert(self.ips@[i as int] == ip);
                return true;
            }
            i = i + 1;
        }
        false
    }

    /// Put `ip` into the set. True iff it was not there.
    pub fn insert(&mut self, ip: IpAddr) -> (added: bool)
        requires
            old(self).wf(),
        ensures
            final(self).wf(),
            final(self)@ == old(self)@.insert(ip),
            added == !old(self)@.contains(ip),
    {
        if self.contains(ip) {
            assert(self@ =~= old(self)@.insert(ip));
            return false;
        }
        let ghost was = self.ips@;
        self.ips.push(ip);
        proof {
            assert forall|x: IpAddr| self@.contains(x) <==> old(self)@.insert(ip).contains(x) by {
                if was.contains(x) {
                    let i = was.index_of(x);
                    assert(self.ips@[i] == x);
                }
                assert(self.ips@[was.len() as int] == ip);
            }
            assert(self@ =~= old(self)@.insert(ip));
        }
        true
    }

    /// The number of addresses in the set.
    pub fn len(&self) -> (n: usize)
        requires
            self.wf(),
        ensures
            n == self@.len(),
    {
        proof {
            self.ips@.unique_seq_to_set();
        }
        self.ips.len()
    }

    /// Put every address of `other` into the set.
    pub fn extend(&mut self, other: &IpSet)
        requires
            old(self).wf(),
        ensures
            final(self).wf(),
            final(self)@ == old(self)@.union(other@),
    {
        let mut i: usize = 0;
        let ghost was = self@;
        assert(other.ips@.take(0).to_set() =~= Set::<IpAddr>::empty());
        assert(self@ =~= was.union(other.ips@.take(0).to_set()));
        while i < other.ips.len()
            invariant
                i <= other.ips.len(),
                self.wf(),
                self@ == was.union(other.ips@.take(i as int).to_set()),
            decreases other.ips.len() - i,
        {
            proof {
                let more = other.ips@.take(i + 1);
                let some = other.ips@.take(i as int);
                assert forall|x: IpAddr|
                    more.to_set().contains(x) <==> some.to_set().insert(
                        other.ips@[i as int],
                    ).contains(x) by {
                    if some.contains(x) {
                        assert(more[some.index_of(x)] == x);
                    }
                    if more.contains(x) {
                        let k = more.index_of(x);
                        if k < i {
                            assert(some[k] == x);
                        }
                    }
                    assert(more[i as int] == other.ips@[i as int]);
                }
                assert(more.to_set() =~= some.to_set().insert(other.ips@[i as int]));
            }
            self.insert(other.ips[i]);
            assert(self@ =~= was.union(other.ips@.take(i + 1).to_set()));
            i = i + 1;
        }
        assert(other.ips@.take(i as int) =~= other.ips@);
    }

    /// The only address of the set, where there is exactly one.
    pub fn sole(&self) -> (ip: Option<IpAddr>)
        requires
            self.wf(),
        ensures
            match ip {
                Some(ip) => self@ == Set::<IpAddr>::empty().insert(ip),
                None => self@.len() != 1,
            },
            ip is Some <==> self@.len() == 1,
    {
        proof {
            self.ips@.unique_seq_to_set();
        }
        if self.ips.len() == 1 {
            let ip = self.ips[0];
            assert(self@ =~= Set::<IpAddr>::empty().insert(ip)) by {
                assert(self.ips@[0] == ip);
            }
            Some(ip)
        } else {
            None
        }
    }

    /// A copy of the set.
    pub fn copy(&self) -> (s: IpSet)
        ensures
            s@ == self@,
            s.wf() == self.wf(),
    {
        let s = IpSet { ips: vstd::slice::slice_to_vec(self.ips.as_slice()) };
        assert(s.ips@ =~= self.ips@);
        s
    }
}

/// The senders of one block.
#[derive(Debug, Clone)]
pub struct BlockEntry {
    pub block: u64,
    pub ips: IpSet,
}

/// The senders of each block, by the offset at which the block starts.
#[derive(Debug, Clone)]
pub struct BlockSources {
    pub entries: Vec<BlockEntry>,
}

/// The map that a list of entries spells; of two entries for one block the later counts.
pub open spec fn entry_map(entries: Seq<BlockEntry>) -> Map<u64, Set<IpAddr>>
    decreases entries.len(),
{
    if entries.len() == 0 {
        Map::empty()
    } else {
        entry_map(entries.drop_last()).insert(entries.last().block, entries.last().ips@)
    }
}

/// No block has two entries, and each has a proper set.
pub open spec fn entries_wf(entries: Seq<BlockEntry>) -> bool {
    &&& forall|i: int, j: int|
        0 <= i < j < entries.len() ==> (#[trigger] entries[i]).block != (#[trigger] entries[j]).block
    &&& forall|i: int| 0 <= i < entries.len() ==> (#[trigger] entries[i]).ips.wf()
}

proof fn lemma_entry_map(entries: Seq<BlockEntry>)
    requires
        entries_wf(entries),
    ensures
        forall|i: int|
            0 <= i < entries.len() ==> entry_map(entries).contains_pair(
                (#[trigger] entries[i]).block,
                entries[i].ips@,
            ),
        forall|k: u64| #[trigger]
            entry_map(entries).dom().contains(k) ==> exists|i: int|
                0 <= i < entries.len() && (#[trigger] entries[i]).block == k,
    decreases entries.len(),
{
    if entries.len() > 0 {
        let less = entries.drop_last();
        assert(forall|i: int| 0 <= i < less.len() ==> less[i] == entries[i]);
        lemma_entry_map(less);
        assert forall|k: u64| #[trigger] entry_map(entries).dom().contains(k) implies exists|i: int|
            0 <= i < entries.len() && (#[trigger] entries[i]).block == k by {
            if k == entries.last().block {
                assert(entries[entries.len() - 1].block == k);
            } else {
                assert(entry_map(less).dom().contains(k));
                let i = choose|i: int| 0 <= i < less.len() && (#[trigger] less[i]).block == k;
                assert(entries[i].block == k);
            }
        }
        assert forall|i: int| 0 <= i < entries.len() implies entry_map(entries).contains_pair(
            (#[trigger] entries[i]).block,
            entries[i].ips@,
        ) by {
            if i < less.len() {
                assert(less[i] == entries[i]);
                assert(entries[i].block != entries[entries.len() - 1].block);
            }
        }
    }
}

proof fn lemma_entry_map_push(entries: Seq<BlockEntry>, e: BlockEntry)
    ensures
        entry_map(entries.push(e)) == entry_map(entries).insert(e.block, e.ips@),
{
    assert(entries.push(e).drop_last() =~= entries);
}

impl View for BlockSources {
    type V = Map<u64, Set<IpAddr>>;

    open spec fn view(&self) -> Map<u64, Set<IpAddr>> {
        entry_map(self.entries@)
    }
}

/// The addresses that some block of the map names.
pub open spec fn all_senders(m: Map<u64, Set<IpAddr>>) -> Set<IpAddr> {
    Set::new(|ip: IpAddr| exists|k: u64| #[trigger] m.dom().contains(k) && m[k].contains(ip))
}

impl BlockSources {
    pub open spec fn wf(&self) -> bool {
        entries_wf(self.entries@)
    }

    /// No block has a sender.
    pub fn new() -> (s: BlockSources)
        ensures
            s.wf(),
            s@ == Map::<u64, Set<IpAddr>>::empty(),
    {
        BlockSources { entries: Vec::new() }
    }

    /// The place of the entry for `block`.
    fn find(&self, block: u64) -> (at: Option<usize>)
        requires
            self.wf(),
        ensures
            match at {
                Some(i) => {
                    &&& i < self.entries@.len()
                    &&& self.entries@[i as int].block == block
                    &&& self@.contains_pair(block, self.entries@[i as int].ips@)
                },
                None => {
                    &&& !self@.dom().contains(block)
                    &&& forall|j: int|
                        0 <= j < self.entries@.len() ==> (#[trigger] self.entries@[j]).block
                            != block
                },
            },
    {
        proof {
            lemma_entry_map(self.entries@);
        }
        let mut i: usize = 0;
        while i < self.entries.len()
            invariant
                i <= self.entries.len(),
                forall|j: int| 0 <= j < i ==> (#[trigger] self.entries@[j]).block != block,
                forall|i: int|
                    0 <= i < self.entries@.len() ==> entry_map(self.entries@).contains_pair(
                        (#[trigger] self.entries@[i]).block,
                        self.entries@[i].ips@,
                    ),
            decreases self.entries.len() - i,
        {
            if self.entries[i].block == block {
                return Some(i);
            }
            i = i + 1;
        }
        None
    }

    /// Whether `block` has an entry.
    pub fn contains_block(&self, block: u64) -> (found: bool)
        requires
            self.wf(),
        ensures
            found == self@.dom().contains(block),
    {
        self.find(block).is_some()
    }

    /// Whether exactly one address sent `block`, and which.
    pub fn sole_source(&self, block: u64) -> (ip: Option<IpAddr>)
        requires
            self.wf(),
        ensures
            match ip {
                Some(ip) => self@.contains_pair(block, Set::<IpAddr>::empty().insert(ip)),
                None => !(self@.dom().contains(block) && self@[block].len() == 1),
            },
    {
        match self.find(block) {
            Some(i) => self.entries[i].ips.sole(),
            None => None,
        }
    }

    /// Record that `ip` sent bytes of `block`.
    pub fn note(&mut self, block: u64, ip: IpAddr)
        requires
            old(self).wf(),
        ensures
            final(self).wf(),
            final(self)@ == old(self)@.insert(
                block,
                (if old(self)@.dom().contains(block) {
                    old(self)@[block]
                } else {
                    Set::empty()
                }).insert(ip),
            ),
    {
        match self.find(block) {
            Some(i) => {
                let ghost was = self.entries@;
                let mut ips = self.entries[i].ips.copy();
                ips.insert(ip);
                self.entries.set(i, BlockEntry { block, ips });
                proof {
                    assert(self.wf());
                    lemma_entry_map(was);
                    lemma_entry_map(self.entries@);
                    self.lemma_updated(was, i as int);
                    assert(self@ =~= old(self)@.insert(block, old(self)@[block].insert(ip)));
                }
            },
            None => {
                let mut ips = IpSet::new();
                ips.insert(ip);
                proof {
                    lemma_entry_map_push(self.entries@, BlockEntry { block, ips });
                }
                self.entries.push(BlockEntry { block, ips });
            },
        }
    }

    proof fn lemma_updated(&self, was: Seq<BlockEntry>, i: int)
        requires
            0 <= i < was.len(),
            entries_wf(was),
            self.wf(),
            self.entries@ == was.update(i, self.entries@[i]),
            self.entries@[i].block == was[i].block,
        ensures
            self@ == entry_map(was).insert(was[i].block, self.entries@[i].ips@),
    {
        let now = self.entries@;
        lemma_entry_map(was);
        lemma_entry_map(now);
        assert forall|k: u64|
            self@.dom().contains(k) <==> #[trigger] entry_map(was).insert(
                was[i].block,
                now[i].ips@,
            ).dom().contains(k) by {
            if self@.dom().contains(k) {
                let j = choose|j: int| 0 <= j < now.len() && (#[trigger] now[j]).block == k;
                assert(was[j].block == k);
            }
            if entry_map(was).dom().contains(k) {
                let j = choose|j: int| 0 <= j < was.len() && (#[trigger] was[j]).block == k;
                assert(now[j].block == k);
            }
        }
        assert forall|k: u64| #[trigger] self@.dom().contains(k) implies self@[k] == entry_map(
            was,
        ).insert(was[i].block, now[i].ips@)[k] by {
            let j = choose|j: int| 0 <= j < now.len() && (#[trigger] now[j]).block == k;
            if j != i {
                assert(was[j] == now[j]);
                assert(was[j].block != was[i].block);
            }
        }
        assert(self@ =~= entry_map(was).insert(was[i].block, now[i].ips@));
    }

    /// Take out the entries of the blocks that start in `[lo, hi)`.
    pub fn take_range(&mut self, lo: u64, hi: u64) -> (taken: BlockSources)
        requires
            old(self).wf(),
        ensures
            final(self).wf(),
            taken.wf(),
            taken@ == old(self)@.restrict(Set::new(|k: u64| lo <= k < hi)),
            final(self)@ == old(self)@.restrict(Set::new(|k: u64| !(lo <= k < hi))),
    {
        let mut inside: Vec<BlockEntry> = Vec::new();
        let mut outside: Vec<BlockEntry> = Vec::new();
        let ghost was = self.entries@;
        let ghost ins = Set::new(|k: u64| lo <= k < hi);
        let ghost outs = Set::new(|k: u64| !(lo <= k < hi));
        let mut i: usize = 0;
        proof {
            assert(entry_map(inside@) =~= entry_map(was.take(0)).restrict(ins));
            assert(entry_map(outside@) =~= entry_map(was.take(0)).restrict(outs));
        }
        while i < self.entries.len()
            invariant
                was == self.entries@,
                entries_wf(was),
                i <= was.len(),
                ins == Set::new(|k: u64| lo <= k < hi),
                outs == Set::new(|k: u64| !(lo <= k < hi)),
                entries_wf(inside@),
                entries_wf(outside@),
                entry_map(inside@) == entry_map(was.take(i as int)).restrict(ins),
                entry_map(outside@) == entry_map(was.take(i as int)).restrict(outs),
            decreases was.len() - i,
        {
            let e = BlockEntry { block: self.entries[i].block, ips: self.entries[i].ips.copy() };
            proof {
                assert(was.take(i + 1) =~= was.take(i as int).push(was[i as int]));
                lemma_entry_map_push(was.take(i as int), was[i as int]);
                assert(entries_wf(was.take(i as int)));
                lemma_entry_map(was.take(i as int));
                lemma_entry_map(inside@);
                lemma_entry_map(outside@);
                lemma_entry_map_push(inside@, e);
                lemma_entry_map_push(outside@, e);
                let k = was[i as int].block;
                assert(!entry_map(was.take(i as int)).dom().contains(k)) by {
                    if entry_map(was.take(i as int)).dom().contains(k) {
                        let j = choose|j: int| 0 <= j < i && (#[trigger] was.take(i as int)[j]).block == k;
                        assert(was[j].block == k);
                    }
                }
                let m = entry_map(was.take(i as int));
                assert forall|j: int| 0 <= j < inside@.len() implies (#[trigger] inside@[j]).block
                    != k by {
                    assert(entry_map(inside@).dom().contains(inside@[j].block));
                }
                assert forall|j: int| 0 <= j < outside@.len() implies (#[trigger] outside@[j]).block
                    != k by {
                    assert(entry_map(outside@).dom().contains(outside@[j].block));
                }
                if lo <= k < hi {
                    assert(m.insert(k, e.ips@).restrict(ins) =~= m.restrict(ins).insert(
                        k,
                        e.ips@,
                    ));
                    assert(m.insert(k, e.ips@).restrict(outs) =~= m.restrict(outs));
                } else {
                    assert(m.insert(k, e.ips@).restrict(outs) =~= m.restrict(outs).insert(
                        k,
                        e.ips@,
                    ));
                    assert(m.insert(k, e.ips@).restrict(ins) =~= m.restrict(ins));
                }
            }
            if lo <= e.block && e.block < hi {
                inside.push(e);
            } else {
                outside.push(e);
            }
            i = i + 1;
        }
        assert(was.take(i as int) =~= was);
        self.entries = outside;
        BlockSources { entries: inside }
    }

    /// Take over the entries of `other`, which replace those for the same block.
    pub fn extend(&mut self, other: &BlockSources)
        requires
            old(self).wf(),
            other.wf(),
        ensures
            final(self).wf(),
            final(self)@ == old(self)@.union_prefer_right(other@),
    {
        let ghost before = self@;
        let mut i: usize = 0;
        assert(before =~= before.union_prefer_right(entry_map(other.entries@.take(0))));
        while i < other.entries.len()
            invariant
                i <= other.entries.len(),
                self.wf(),
                other.wf(),
                self@ == before.union_prefer_right(entry_map(other.entries@.take(i as int))),
            decreases other.entries.len() - i,
        {
            let block: u64 = other.entries[i].block;
            let ips = other.entries[i].ips.copy();
            let ghost mid = self@;
            proof {
                let theirs = other.entries@;
                assert(theirs.take(i + 1) =~= theirs.take(i as int).push(theirs[i as int]));
                lemma_entry_map_push(theirs.take(i as int), theirs[i as int]);
                let m = entry_map(theirs.take(i as int));
                assert(before.union_prefer_right(m.insert(block, ips@))
                    =~= before.union_prefer_right(m).insert(block, ips@));
            }
            match self.find(block) {
                Some(at) => {
                    let ghost was = self.entries@;
                    self.entries.set(at, BlockEntry { block, ips });
                    proof {
                        assert(self.wf());
                        self.lemma_updated(was, at as int);
                    }
                },
                None => {
                    proof {
                        lemma_entry_map_push(self.entries@, BlockEntry { block, ips });
                    }
                    self.entries.push(BlockEntry { block, ips });
                },
            }
            i = i + 1;
        }
        assert(other.entries@.take(i as int) =~= other.entries@);
    }

    /// The only address that sent any of these blocks, where there is exactly one.
    pub fn sole_contributor(&self) -> (ip: Option<IpAddr>)
        requires
            self.wf(),
        ensures
            match ip {
                Some(ip) => all_senders(self@) == Set::<IpAddr>::empty().insert(ip),
                None => all_senders(self@).len() != 1,
            },
    {
        let mut all = IpSet::new();
        let mut i: usize = 0;
        assert(all@ =~= all_senders(entry_map(self.entries@.take(0))));
        while i < self.entries.len()
            invariant
                i <= self.entries.len(),
                self.wf(),
                all.wf(),
                all@ == all_senders(entry_map(self.entries@.take(i as int))),
            decreases self.entries.len() - i,
        {
            proof {
                let es = self.entries@;
                let e = es[i as int];
                assert(es.take(i + 1) =~= es.take(i as int).push(e));
                lemma_entry_map_push(es.take(i as int), e);
                let m = entry_map(es.take(i as int));
                assert(entries_wf(es.take(i as int)));
                lemma_entry_map(es.take(i as int));
                assert(!m.dom().contains(e.block)) by {
                    if m.dom().contains(e.block) {
                        let j = choose|j: int| 0 <= j < i && (#[trigger] es.take(i as int)[j]).block == e.block;
                        assert(es[j].block == e.block);
                    }
                }
                let n = m.insert(e.block, e.ips@);
                assert forall|ip: IpAddr|
                    all_senders(n).contains(ip) <==> all_senders(m).union(e.ips@).contains(ip) by {
                    if all_senders(m).contains(ip) {
                        let k = choose|k: u64| #[trigger] m.dom().contains(k) && m[k].contains(ip);
                        assert(n.dom().contains(k) && n[k].contains(ip));
                    }
                    if e.ips@.contains(ip) {
                        assert(n.dom().contains(e.block) && n[e.block].contains(ip));
                    }
                    if all_senders(n).contains(ip) {
                        let k = choose|k: u64| #[trigger] n.dom().contains(k) && n[k].contains(ip);
                        if k != e.block {
                            assert(m.dom().contains(k) && m[k].contains(ip));
                        }
                    }
                }
                assert(all_senders(n) =~= all_senders(m).union(e.ips@));
            }
            all.extend(&self.entries[i].ips);
            i = i + 1;
        }
        assert(self.entries@.take(i as int) =~= self.entries@);
        all.sole()
    }

    /// A copy of the map.
    pub fn copy(&self) -> (s: BlockSources)
        requires
            self.wf(),
        ensures
            s.wf(),
            s@ == self@,
    {
        let mut s = BlockSources::new();
        s.extend(self);
        assert(Map::<u64, Set<IpAddr>>::empty().union_prefer_right(self@) =~= self@);
        s
    }
}

} // verus!
