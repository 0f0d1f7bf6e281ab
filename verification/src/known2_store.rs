//! The store of AICH hashsets, `known2_64.met`: one file that holds, behind a version byte,
//! an entry per file: the master root, the number of leaves, and the leaves. An index from
//! root to offset keeps a lookup to one read.
use vstd::prelude::*;
use crate::aich_tree;
use crate::aich_tree::AichTree;
use crate::hash::same_hash20;
use crate::wire;
use crate::wire::{copy_range, write_bytes, write_u32};

verus! {

/// The version byte of a store.
pub const KNOWN2_MET_VERSION: u8 = 0x02;

/// The bytes of an entry before its leaves.
pub const ENTRY_HEAD: usize = 24;

/// The bytes of a hash.
pub const HASH: usize = 20;

/// One entry: the master root, and the leaves one behind the other.
#[verifier::ext_equal]
pub struct EntryView {
    pub root: Seq<u8>,
    pub leaves: Seq<u8>,
}

/// An entry that a store can hold.
pub open spec fn entry_ok(e: EntryView) -> bool {
    &&& e.root.len() == HASH
    &&& e.leaves.len() % 20 == 0
    &&& e.leaves.len() / 20 <= u32::MAX
}

/// The bytes of an entry.
#[verifier::opaque]
pub open spec fn entry_bytes(e: EntryView) -> Seq<u8> {
    e.root + wire::le32((e.leaves.len() / 20) as u32) + e.leaves
}

/// Entries one behind the other.
pub open spec fn entries_bytes(es: Seq<EntryView>) -> Seq<u8>
    decreases es.len(),
{
    if es.len() == 0 {
        Seq::empty()
    } else {
        entries_bytes(es.drop_last()) + entry_bytes(es.last())
    }
}

/// A store with these entries.
pub open spec fn store_bytes(es: Seq<EntryView>) -> Seq<u8> {
    seq![KNOWN2_MET_VERSION] + entries_bytes(es)
}

/// Whether a whole entry starts at `at`.
pub open spec fn entry_at(s: Seq<u8>, at: int) -> bool {
    &&& at + ENTRY_HEAD <= s.len()
    &&& at + ENTRY_HEAD + 20 * leaves_at(s, at) <= s.len()
}

/// The number of leaves that the entry at `at` names.
pub open spec fn leaves_at(s: Seq<u8>, at: int) -> int {
    wire::de32(s.skip(at + HASH)) as int
}

/// Where the entry at `at` ends.
pub open spec fn entry_end(s: Seq<u8>, at: int) -> int {
    at + ENTRY_HEAD + 20 * leaves_at(s, at)
}

/// The entry at `at`.
pub open spec fn entry_of(s: Seq<u8>, at: int) -> EntryView {
    EntryView {
        root: s.subrange(at, at + HASH),
        leaves: s.subrange(at + ENTRY_HEAD, entry_end(s, at)),
    }
}

/// The whole entries from `at` on. What stands behind the last of them is a torn tail.
pub open spec fn entries_from(s: Seq<u8>, at: int) -> Seq<EntryView>
    decreases s.len() - at,
    when 0 <= at
{
    if !entry_at(s, at) {
        Seq::empty()
    } else {
        seq![entry_of(s, at)] + entries_from(s, entry_end(s, at))
    }
}

/// Where the last whole entry from `at` on ends.
pub open spec fn valid_from(s: Seq<u8>, at: int) -> int
    decreases s.len() - at,
    when 0 <= at
{
    if !entry_at(s, at) {
        at
    } else {
        valid_from(s, entry_end(s, at))
    }
}

/// The offset of each entry's root, from `at` on. Where a root occurs twice, the later entry
/// counts.
pub open spec fn offsets_from(s: Seq<u8>, at: int) -> Map<Seq<u8>, int>
    decreases s.len() - at,
    when 0 <= at
{
    if !entry_at(s, at) {
        Map::empty()
    } else {
        let later = offsets_from(s, entry_end(s, at));
        let root = entry_of(s, at).root;
        if later.contains_key(root) {
            later
        } else {
            later.insert(root, at)
        }
    }
}

/// The bytes are a store of our version.
pub open spec fn is_store(s: Seq<u8>) -> bool {
    s.len() > 0 && s[0] == KNOWN2_MET_VERSION
}

/// The entries of a store.
pub open spec fn entries(s: Seq<u8>) -> Seq<EntryView> {
    if is_store(s) {
        entries_from(s, 1)
    } else {
        Seq::empty()
    }
}

/// The offsets in a store.
pub open spec fn offsets(s: Seq<u8>) -> Map<Seq<u8>, int> {
    if is_store(s) {
        offsets_from(s, 1)
    } else {
        Map::empty()
    }
}

/// The entries without those of `root`.
pub open spec fn without_root(es: Seq<EntryView>, root: Seq<u8>) -> Seq<EntryView>
    decreases es.len(),
{
    if es.len() == 0 {
        Seq::empty()
    } else if es.last().root == root {
        without_root(es.drop_last(), root)
    } else {
        without_root(es.drop_last(), root).push(es.last())
    }
}

/// The entry that a lookup of `root` finds: the last one.
pub open spec fn stored(es: Seq<EntryView>, root: Seq<u8>) -> Option<EntryView>
    decreases es.len(),
{
    if es.len() == 0 {
        None
    } else if es.last().root == root {
        Some(es.last())
    } else {
        stored(es.drop_last(), root)
    }
}

proof fn lemma_entry_at(s: Seq<u8>, at: int)
    requires
        0 <= at,
        entry_at(s, at),
    ensures
        entry_ok(entry_of(s, at)),
        entry_bytes(entry_of(s, at)) == s.subrange(at, entry_end(s, at)),
        at + ENTRY_HEAD <= entry_end(s, at) <= s.len(),
{
    reveal(entry_bytes);
    let e = entry_of(s, at);
    let n = wire::de32(s.skip(at + HASH));
    assert(e.leaves.len() == 20 * n);
    wire::lemma_u32_bytes(s.skip(at + HASH));
    assert(s.skip(at + HASH).take(4) =~= s.subrange(at + HASH, at + ENTRY_HEAD));
    assert(entry_bytes(e) =~= s.subrange(at, entry_end(s, at)));
}

proof fn lemma_entry_written(pre: Seq<u8>, e: EntryView, rest: Seq<u8>)
    requires
        entry_ok(e),
    ensures
        entry_at(pre + entry_bytes(e) + rest, pre.len() as int),
        entry_of(pre + entry_bytes(e) + rest, pre.len() as int) == e,
        entry_end(pre + entry_bytes(e) + rest, pre.len() as int) == pre.len() + entry_bytes(e).len(),
{
    reveal(entry_bytes);
    let s = pre + entry_bytes(e) + rest;
    let at = pre.len() as int;
    let n = (e.leaves.len() / 20) as u32;
    let t = s.skip(at + HASH);
    assert(t =~= wire::le32(n) + (e.leaves + rest));
    wire::lemma_u32_round_trip(n, e.leaves + rest);
    assert(leaves_at(s, at) == n);
    assert(entry_of(s, at).root =~= e.root);
    assert(entry_of(s, at).leaves =~= e.leaves);
}

proof fn lemma_entries_first(es: Seq<EntryView>)
    requires
        es.len() > 0,
    ensures
        entries_bytes(es) == entry_bytes(es[0]) + entries_bytes(es.skip(1)),
    decreases es.len(),
{
    let others = es.skip(1);
    if es.len() == 1 {
        assert(es.drop_last() =~= Seq::empty());
        assert(others =~= Seq::empty());
        assert(entries_bytes(es) =~= entry_bytes(es[0]) + entries_bytes(others));
    } else {
        lemma_entries_first(es.drop_last());
        assert(es.drop_last().skip(1) =~= others.drop_last());
        assert(entries_bytes(es) =~= entry_bytes(es[0]) + entries_bytes(others));
    }
}

/// Entries that are written one behind the other are read back.
proof fn lemma_entries_written(pre: Seq<u8>, es: Seq<EntryView>)
    requires
        forall|i: int| 0 <= i < es.len() ==> entry_ok(#[trigger] es[i]),
    ensures
        entries_from(pre + entries_bytes(es), pre.len() as int) == es,
        valid_from(pre + entries_bytes(es), pre.len() as int) == pre.len() + entries_bytes(
            es,
        ).len(),
    decreases es.len(),
{
    let s = pre + entries_bytes(es);
    let at = pre.len() as int;
    if es.len() == 0 {
        assert(s =~= pre);
        assert(entries_from(s, at) =~= es);
    } else {
        let rest = entries_bytes(es.skip(1));
        lemma_entries_first(es);
        assert(s =~= pre + entry_bytes(es[0]) + rest);
        lemma_entry_written(pre, es[0], rest);
        let pre2 = pre + entry_bytes(es[0]);
        assert forall|i: int| 0 <= i < es.skip(1).len() implies entry_ok(
            #[trigger] es.skip(1)[i],
        ) by {
            assert(es.skip(1)[i] == es[i + 1]);
        }
        lemma_entries_written(pre2, es.skip(1));
        assert(entries_from(s, at) =~= seq![es[0]] + es.skip(1));
        assert(seq![es[0]] + es.skip(1) =~= es);
    }
}

/// The bytes up to the end of the last whole entry are those entries.
proof fn lemma_entries_read(s: Seq<u8>, at: int)
    requires
        0 <= at <= s.len(),
    ensures
        at <= valid_from(s, at) <= s.len(),
        s.subrange(at, valid_from(s, at)) == entries_bytes(entries_from(s, at)),
        forall|i: int|
            0 <= i < entries_from(s, at).len() ==> entry_ok(#[trigger] entries_from(s, at)[i]),
    decreases s.len() - at,
{
    if entry_at(s, at) {
        let end = entry_end(s, at);
        lemma_entry_at(s, at);
        lemma_entries_read(s, end);
        let es = entries_from(s, at);
        lemma_entries_first(es);
        assert(es.skip(1) =~= entries_from(s, end));
        assert(s.subrange(at, valid_from(s, at)) =~= s.subrange(at, end) + s.subrange(
            end,
            valid_from(s, at),
        ));
        assert forall|i: int| 0 <= i < es.len() implies entry_ok(#[trigger] es[i]) by {
            if i > 0 {
                assert(es[i] == entries_from(s, end)[i - 1]);
            }
        }
    } else {
        assert(s.subrange(at, at) =~= Seq::empty());
    }
}

proof fn lemma_stored_first(e: EntryView, es: Seq<EntryView>, root: Seq<u8>)
    ensures
        stored(seq![e] + es, root) == match stored(es, root) {
            Some(x) => Some(x),
            None => if e.root == root {
                Some(e)
            } else {
                None
            },
        },
    decreases es.len(),
{
    let all = seq![e] + es;
    reveal_with_fuel(stored, 2);
    if es.len() == 0 {
        assert(all.last() == e);
        assert(all.drop_last() =~= Seq::empty());
    } else {
        assert(all.last() == es.last());
        assert(all.drop_last() =~= seq![e] + es.drop_last());
        lemma_stored_first(e, es.drop_last(), root);
    }
}

/// The offset of a root leads to the entry that is stored under it.
proof fn lemma_offsets(s: Seq<u8>, at: int, root: Seq<u8>)
    requires
        0 <= at,
    ensures
        offsets_from(s, at).contains_key(root) == (stored(entries_from(s, at), root) is Some),
        offsets_from(s, at).contains_key(root) ==> {
            let off = offsets_from(s, at)[root];
            &&& at <= off
            &&& entry_at(s, off)
            &&& stored(entries_from(s, at), root) == Some(entry_of(s, off))
            &&& entry_of(s, off).root == root
        },
    decreases s.len() - at,
{
    if entry_at(s, at) {
        let end = entry_end(s, at);
        lemma_offsets(s, end, root);
        lemma_stored_first(entry_of(s, at), entries_from(s, end), root);
    }
}

proof fn lemma_without(es: Seq<EntryView>, root: Seq<u8>, other: Seq<u8>)
    ensures
        stored(without_root(es, root), other) == if other == root {
            None
        } else {
            stored(es, other)
        },
    decreases es.len(),
{
    if es.len() > 0 {
        lemma_without(es.drop_last(), root, other);
        let kept = without_root(es.drop_last(), root);
        if es.last().root != root {
            assert(kept.push(es.last()).drop_last() =~= kept);
        }
    }
}

proof fn lemma_without_ok(es: Seq<EntryView>, root: Seq<u8>)
    requires
        forall|i: int| 0 <= i < es.len() ==> entry_ok(#[trigger] es[i]),
    ensures
        forall|i: int|
            0 <= i < without_root(es, root).len() ==> entry_ok(#[trigger] without_root(es, root)[i]),
    decreases es.len(),
{
    if es.len() > 0 {
        assert forall|i: int| 0 <= i < es.drop_last().len() implies entry_ok(
            #[trigger] es.drop_last()[i],
        ) by {
            assert(es.drop_last()[i] == es[i]);
        }
        lemma_without_ok(es.drop_last(), root);
        let kept = without_root(es.drop_last(), root);
        assert(entry_ok(es[es.len() - 1]));
        assert forall|i: int| 0 <= i < without_root(es, root).len() implies entry_ok(
            #[trigger] without_root(es, root)[i],
        ) by {
            if i < kept.len() {
                assert(without_root(es, root)[i] == kept[i]);
            }
        }
    }
}

/// A store that is written is read back: its entries, in their order, and nothing torn behind
/// them.
pub proof fn law_store_round_trip(es: Seq<EntryView>)
    requires
        forall|i: int| 0 <= i < es.len() ==> entry_ok(#[trigger] es[i]),
    ensures
        is_store(store_bytes(es)),
        entries(store_bytes(es)) == es,
        valid_from(store_bytes(es), 1) == store_bytes(es).len(),
{
    lemma_entries_written(seq![KNOWN2_MET_VERSION], es);
}

/// Cutting a torn tail off loses no whole entry, and leaves nothing more to cut.
pub proof fn law_torn_tail_is_cut(s: Seq<u8>)
    requires
        is_store(s),
    ensures
        1 <= valid_from(s, 1) <= s.len(),
        s.take(valid_from(s, 1)) == store_bytes(entries(s)),
        entries(s.take(valid_from(s, 1))) == entries(s),
        valid_from(s.take(valid_from(s, 1)), 1) == valid_from(s, 1),
{
    lemma_entries_read(s, 1);
    let end = valid_from(s, 1);
    assert(s.take(end) =~= seq![KNOWN2_MET_VERSION] + s.subrange(1, end));
    law_store_round_trip(entries(s));
}

/// What is appended is found, at the end that the file had, and what was there stays.
pub proof fn law_append_keeps_the_rest(es: Seq<EntryView>, e: EntryView)
    requires
        forall|i: int| 0 <= i < es.len() ==> entry_ok(#[trigger] es[i]),
        entry_ok(e),
    ensures
        store_bytes(es) + entry_bytes(e) == store_bytes(es.push(e)),
        entries(store_bytes(es) + entry_bytes(e)) == es.push(e),
        stored(es.push(e), e.root) == Some(e),
        forall|other: Seq<u8>|
            other != e.root ==> #[trigger] stored(es.push(e), other) == stored(es, other),
{
    let all = es.push(e);
    assert(all.drop_last() =~= es);
    assert(store_bytes(es) + entry_bytes(e) =~= store_bytes(all));
    law_store_round_trip(all);
}

/// The offset of a root leads to the entry that is stored under it.
pub proof fn law_offset_leads_to_the_entry(s: Seq<u8>, root: Seq<u8>)
    ensures
        offsets(s).contains_key(root) == (stored(entries(s), root) is Some),
        offsets(s).contains_key(root) ==> {
            &&& entry_at(s, offsets(s)[root])
            &&& stored(entries(s), root) == Some(entry_of(s, offsets(s)[root]))
        },
{
    if is_store(s) {
        lemma_offsets(s, 1, root);
    }
}

/// A root that is removed is gone, and what is stored under every other root stays.
pub proof fn law_remove_keeps_the_rest(s: Seq<u8>, root: Seq<u8>, other: Seq<u8>)
    requires
        is_store(s),
    ensures
        stored(entries(store_bytes(without_root(entries(s), root))), other) == if other == root {
            None
        } else {
            stored(entries(s), other)
        },
{
    lemma_entries_read(s, 1);
    lemma_without_ok(entries(s), root);
    law_store_round_trip(without_root(entries(s), root));
    lemma_without(entries(s), root, other);
}

/// Where an entry stands.
#[derive(Debug, Clone, Copy)]
pub struct IndexEntry {
    pub root: [u8; 20],
    pub offset: u64,
}

/// What a list of index entries maps each root to: the last one counts.
pub open spec fn index_map(items: Seq<IndexEntry>) -> Map<Seq<u8>, int>
    decreases items.len(),
{
    if items.len() == 0 {
        Map::empty()
    } else {
        index_map(items.drop_last()).insert(items.last().root@, items.last().offset as int)
    }
}

/// What a scan of a store finds.
#[derive(Debug, Clone)]
pub struct Known2Index {
    pub by_root: Vec<IndexEntry>,
    /// Where the last whole entry ends.
    pub valid_len: u64,
}

/// The four bytes at `at`, as a number.
fn count_at(bytes: &[u8], at: usize) -> (n: u32)
    requires
        at + ENTRY_HEAD <= bytes.len(),
    ensures
        n == leaves_at(bytes@, at as int),
{
    assert(bytes@.skip(at + HASH)[0] == bytes@[at + 20]);
    assert(bytes@.skip(at + HASH)[1] == bytes@[at + 21]);
    assert(bytes@.skip(at + HASH)[2] == bytes@[at + 22]);
    assert(bytes@.skip(at + HASH)[3] == bytes@[at + 23]);
    bytes[at + 20] as u32 + 0x100 * bytes[at + 21] as u32 + 0x1_0000 * bytes[at + 22] as u32
        + 0x100_0000 * bytes[at + 23] as u32
}

/// Where the whole entry at `at` ends, if one starts there.
fn end_at(bytes: &[u8], at: usize) -> (end: Option<usize>)
    requires
        at <= bytes.len(),
    ensures
        end is Some == entry_at(bytes@, at as int),
        end is Some ==> end->0 == entry_end(bytes@, at as int),
{
    if bytes.len() - at < ENTRY_HEAD {
        return None;
    }
    let n: u64 = count_at(bytes, at) as u64 * 20;
    if n > (bytes.len() - at - ENTRY_HEAD) as u64 {
        return None;
    }
    Some(at + ENTRY_HEAD + n as usize)
}

/// The hash at `at`.
fn hash_at(bytes: &[u8], at: usize) -> (h: [u8; 20])
    requires
        at + HASH <= bytes.len(),
    ensures
        h@ == bytes@.subrange(at as int, at + HASH),
{
    let mut h: [u8; 20] = [0; 20];
    let mut i: usize = 0;
    while i < 20
        invariant
            i <= 20,
            at + HASH <= bytes.len(),
            forall|j: int| 0 <= j < i ==> h@[j] == bytes@[at + j],
        decreases 20 - i,
    {
        h[i] = bytes[at + i];
        i = i + 1;
    }
    assert(h@ =~= bytes@.subrange(at as int, at + HASH));
    h
}

/// Index a store, or `None` for what is no store of our version.
pub fn scan_known2_met(bytes: &[u8]) -> (ix: Option<Known2Index>)
    ensures
        ix is Some == is_store(bytes@),
        ix is Some ==> {
            &&& index_map(ix->0.by_root@) == offsets(bytes@)
            &&& ix->0.valid_len == valid_from(bytes@, 1)
        },
{
    if bytes.len() == 0 || bytes[0] != KNOWN2_MET_VERSION {
        return None;
    }
    let ghost s = bytes@;
    let mut by_root: Vec<IndexEntry> = Vec::new();
    let mut at: usize = 1;
    let mut more = true;
    assert(index_map(by_root@).union_prefer_right(offsets_from(s, 1)) =~= offsets_from(s, 1));
    while more
        invariant
            s == bytes@,
            1 <= at <= bytes.len(),
            more ==> index_map(by_root@).union_prefer_right(offsets_from(s, at as int))
                == offsets_from(s, 1),
            more ==> valid_from(s, at as int) == valid_from(s, 1),
            !more ==> index_map(by_root@) == offsets_from(s, 1) && at == valid_from(s, 1),
        decreases (if more {
                1int
            } else {
                0int
            }) + bytes.len() - at,
    {
        match end_at(bytes, at) {
            None => {
                assert(index_map(by_root@).union_prefer_right(Map::<Seq<u8>, int>::empty())
                    =~= index_map(by_root@));
                more = false;
            },
            Some(end) => {
                let ghost before = by_root@;
                let root = hash_at(bytes, at);
                by_root.push(IndexEntry { root, offset: at as u64 });
                proof {
                    assert(by_root@.drop_last() =~= before);
                    assert(root@ == entry_of(s, at as int).root);
                    let later = offsets_from(s, end as int);
                    assert(index_map(by_root@).union_prefer_right(later) =~= index_map(
                        before,
                    ).union_prefer_right(offsets_from(s, at as int)));
                }
                at = end;
            },
        }
    }
    Some(Known2Index { by_root, valid_len: at as u64 })
}

/// The store without the entries of `root`, or `None` where there is none or the bytes are no
/// store. A torn tail is left out.
pub fn remove_known2_entry(bytes: &[u8], root: &[u8; 20]) -> (out: Option<Vec<u8>>)
    ensures
        out is Some == (is_store(bytes@) && stored(entries(bytes@), root@) is Some),
        out is Some ==> out->0@ == store_bytes(without_root(entries(bytes@), root@)),
{
    if bytes.len() == 0 || bytes[0] != KNOWN2_MET_VERSION {
        return None;
    }
    let ghost s = bytes@;
    let ghost mut done: Seq<EntryView> = Seq::empty();
    let mut out: Vec<u8> = Vec::new();
    out.push(KNOWN2_MET_VERSION);
    let mut found = false;
    let mut at: usize = 1;
    let mut more = true;
    assert(done + entries_from(s, 1) =~= entries_from(s, 1));
    assert(out@ =~= store_bytes(without_root(done, root@)));
    while more
        invariant
            s == bytes@,
            1 <= at <= bytes.len(),
            out@ == store_bytes(without_root(done, root@)),
            found == (stored(done, root@) is Some),
            more ==> done + entries_from(s, at as int) == entries_from(s, 1),
            !more ==> done == entries_from(s, 1),
        decreases (if more {
                1int
            } else {
                0int
            }) + bytes.len() - at,
    {
        match end_at(bytes, at) {
            None => {
                assert(done + entries_from(s, at as int) =~= done);
                more = false;
            },
            Some(end) => {
                let this = hash_at(bytes, at);
                let ghost e = entry_of(s, at as int);
                let ghost before = out@;
                proof {
                    lemma_entry_at(s, at as int);
                }
                if same_hash20(&this, root) {
                    found = true;
                } else {
                    let entry = copy_range(bytes, at, end);
                    write_bytes(&mut out, &entry);
                }
                proof {
                    let next = done.push(e);
                    assert(next.drop_last() =~= done);
                    assert(next + entries_from(s, end as int) =~= done + entries_from(
                        s,
                        at as int,
                    ));
                    if this@ != root@ {
                        let kept = without_root(done, root@);
                        assert(kept.push(e).drop_last() =~= kept);
                        assert(out@ =~= store_bytes(without_root(next, root@)));
                    }
                    done = next;
                }
                at = end;
            },
        }
    }
    if found {
        Some(out)
    } else {
        None
    }
}

/// What a loaded file needs.
#[derive(Debug, Clone, Copy, PartialEq, Eq, Structural)]
pub enum LoadFix {
    /// Nothing: it is whole, or it is not ours to touch.
    Keep,
    /// It is empty or absent: a store without entries is to be written.
    Create,
    /// It has a torn tail: it is to be cut to this length.
    Truncate(u64),
}

/// What a file with these bytes needs.
pub open spec fn load_fix(s: Seq<u8>) -> LoadFix {
    if s.len() == 0 {
        LoadFix::Create
    } else if is_store(s) && valid_from(s, 1) < s.len() {
        LoadFix::Truncate(valid_from(s, 1) as u64)
    } else {
        LoadFix::Keep
    }
}

/// The file once it has what it needs.
pub open spec fn mended(s: Seq<u8>, fix: LoadFix) -> Seq<u8> {
    match fix {
        LoadFix::Keep => s,
        LoadFix::Create => store_bytes(Seq::empty()),
        LoadFix::Truncate(len) => s.take(len as int),
    }
}

/// Why nothing can be appended.
#[derive(Debug, Clone, Copy, PartialEq, Eq, Structural)]
pub enum Known2Error {
    /// The file has a version byte that is not ours.
    ForeignVersion,
    /// The file did not grow by what was written.
    SizeDiffers,
}

/// Bytes to write at the end of the file.
#[derive(Debug, Clone, PartialEq, Eq)]
pub struct Append {
    /// The file's length once it has its version byte: where the entry starts.
    pub at: u64,
    /// What to write at the file's end, the version byte of an empty file before it.
    pub bytes: Vec<u8>,
}

/// A store without entries.
pub fn empty_known2_met() -> (bytes: Vec<u8>)
    ensures
        bytes@ == store_bytes(Seq::empty()),
{
    let bytes: Vec<u8> = vec![KNOWN2_MET_VERSION];
    assert(bytes@ =~= store_bytes(Seq::empty()));
    bytes
}

/// Leaves one behind the other.
pub open spec fn flat(leaves: Seq<[u8; 20]>) -> Seq<u8>
    decreases leaves.len(),
{
    if leaves.len() == 0 {
        Seq::empty()
    } else {
        flat(leaves.drop_last()) + leaves.last()@
    }
}

/// The entry of a root with these leaves.
pub open spec fn entry_with(root: [u8; 20], leaves: Seq<[u8; 20]>) -> EntryView {
    EntryView { root: root@, leaves: flat(leaves) }
}

proof fn lemma_flat(leaves: Seq<[u8; 20]>)
    ensures
        flat(leaves).len() == 20 * leaves.len(),
        forall|i: int|
            0 <= i < leaves.len() ==> #[trigger] flat(leaves).subrange(20 * i, 20 * i + 20)
                == leaves[i]@,
    decreases leaves.len(),
{
    if leaves.len() > 0 {
        let before = leaves.drop_last();
        lemma_flat(before);
        assert forall|i: int| 0 <= i < leaves.len() implies #[trigger] flat(leaves).subrange(
            20 * i,
            20 * i + 20,
        ) == leaves[i]@ by {
            if i < before.len() {
                assert(flat(leaves).subrange(20 * i, 20 * i + 20) =~= flat(before).subrange(
                    20 * i,
                    20 * i + 20,
                ));
            } else {
                assert(flat(leaves).subrange(20 * i, 20 * i + 20) =~= leaves.last()@);
            }
        }
    }
}

/// The bytes of one entry.
pub fn known2_entry_bytes(root: &[u8; 20], leaves: &Vec<[u8; 20]>) -> (bytes: Vec<u8>)
    requires
        leaves.len() <= u32::MAX,
    ensures
        bytes@ == entry_bytes(entry_with(*root, leaves@)),
        entry_ok(entry_with(*root, leaves@)),
{
    let mut bytes: Vec<u8> = Vec::new();
    write_bytes(&mut bytes, root);
    write_u32(&mut bytes, leaves.len() as u32);
    let ghost head = bytes@;
    let mut i: usize = 0;
    assert(leaves@.take(0) =~= Seq::empty());
    while i < leaves.len()
        invariant
            i <= leaves.len(),
            bytes@ == head + flat(leaves@.take(i as int)),
        decreases leaves.len() - i,
    {
        write_bytes(&mut bytes, &leaves[i]);
        proof {
            assert(leaves@.take(i + 1).drop_last() =~= leaves@.take(i as int));
            assert(bytes@ =~= head + flat(leaves@.take(i + 1)));
        }
        i = i + 1;
    }
    proof {
        reveal(entry_bytes);
        assert(leaves@.take(i as int) =~= leaves@);
        lemma_flat(leaves@);
        assert(bytes@ =~= entry_bytes(entry_with(*root, leaves@)));
    }
    bytes
}

/// Where the entry of a hashset starts that is appended to a file, and what is written for it:
/// nothing where the root is indexed. `first` is the file's first byte, `len` its length.
pub open spec fn append_plan(
    index: Map<Seq<u8>, int>,
    root: [u8; 20],
    leaves: Seq<[u8; 20]>,
    first: Option<u8>,
    len: int,
) -> Result<Option<(int, Seq<u8>)>, Known2Error> {
    let entry = entry_bytes(entry_with(root, leaves));
    if index.contains_key(root@) {
        Ok(None)
    } else {
        match first {
            None => Ok(Some((1, store_bytes(Seq::empty()) + entry))),
            Some(v) => if v == KNOWN2_MET_VERSION {
                Ok(Some((len, entry)))
            } else {
                Err(Known2Error::ForeignVersion)
            },
        }
    }
}

/// The index once an entry of `leaves` leaves was written at `at`: the root is in it iff the
/// file is as long then as the entry makes it.
pub open spec fn indexed(
    index: Map<Seq<u8>, int>,
    root: Seq<u8>,
    leaves: int,
    at: int,
    new_len: int,
) -> Map<Seq<u8>, int> {
    if new_len == at + ENTRY_HEAD + 20 * leaves {
        index.insert(root, at)
    } else {
        index
    }
}

/// The store's index. The file itself is the caller's to read and write.
#[derive(Debug, Clone)]
pub struct Known2Store {
    pub index: Vec<IndexEntry>,
}

impl View for Known2Store {
    type V = Map<Seq<u8>, int>;

    open spec fn view(&self) -> Map<Seq<u8>, int> {
        index_map(self.index@)
    }
}

impl Known2Store {
    /// Index the file with these bytes, and say what the file needs. A file with a version
    /// byte that is not ours is left as it is: nothing is served from it.
    pub fn load(bytes: &[u8]) -> (r: (Known2Store, LoadFix))
        ensures
            r.0@ == offsets(bytes@),
            r.1 == load_fix(bytes@),
    {
        let none = Known2Store { index: Vec::new() };
        if bytes.len() == 0 {
            return (none, LoadFix::Create);
        }
        match scan_known2_met(bytes) {
            None => (none, LoadFix::Keep),
            Some(ix) => {
                let fix = if ix.valid_len < bytes.len() as u64 {
                    LoadFix::Truncate(ix.valid_len)
                } else {
                    LoadFix::Keep
                };
                (Known2Store { index: ix.by_root }, fix)
            },
        }
    }

    /// Where the entry of `root` starts in the file.
    pub fn offset_of(&self, root: &[u8; 20]) -> (off: Option<u64>)
        ensures
            off is Some == self@.contains_key(root@),
            off is Some ==> off->0 == self@[root@],
    {
        let mut i: usize = self.index.len();
        assert(self.index@.take(i as int) =~= self.index@);
        while i > 0
            invariant
                i <= self.index.len(),
                index_map(self.index@.take(i as int)).contains_key(root@) == self@.contains_key(
                    root@,
                ),
                self@.contains_key(root@) ==> index_map(self.index@.take(i as int))[root@]
                    == self@[root@],
            decreases i,
        {
            i = i - 1;
            assert(self.index@.take(i + 1).drop_last() =~= self.index@.take(i as int));
            assert(self.index@.take(i + 1).last() == self.index@[i as int]);
            if same_hash20(&self.index[i].root, root) {
                return Some(self.index[i].offset);
            }
        }
        None
    }

    /// Whether a hashset for `root` is stored.
    pub fn has(&self, root: &[u8; 20]) -> (b: bool)
        ensures
            b == self@.contains_key(root@),
    {
        self.offset_of(root).is_some()
    }

    /// What to write to store a hashset: nothing where the root is stored already. `first` is
    /// the file's first byte, `len` its length.
    pub fn append(
        &self,
        root: &[u8; 20],
        leaves: &Vec<[u8; 20]>,
        first: Option<u8>,
        len: u64,
    ) -> (r: Result<Option<Append>, Known2Error>)
        requires
            leaves.len() <= u32::MAX,
        ensures
            ({
                let plan = append_plan(self@, *root, leaves@, first, len as int);
                match r {
                    Ok(None) => plan matches Ok(None),
                    Ok(Some(a)) => plan matches Ok(Some((at, bytes))) && at == a.at && bytes
                        == a.bytes@,
                    Err(e) => plan matches Err(f) && f == e,
                }
            }),
    {
        if self.has(root) {
            return Ok(None);
        }
        let entry = known2_entry_bytes(root, leaves);
        match first {
            None => {
                let mut bytes = empty_known2_met();
                write_bytes(&mut bytes, &entry);
                Ok(Some(Append { at: 1, bytes }))
            },
            Some(v) => if v != KNOWN2_MET_VERSION {
                Err(Known2Error::ForeignVersion)
            } else {
                Ok(Some(Append { at: len, bytes: entry }))
            },
        }
    }

    /// The append was written and the file is `new_len` bytes long: the root is indexed, unless
    /// the file did not grow by what was written. Then the file is to be cut back to `at`.
    pub fn appended(
        &mut self,
        root: &[u8; 20],
        leaves: usize,
        at: u64,
        new_len: u64,
    ) -> (r: Result<(), Known2Error>)
        requires
            leaves <= u32::MAX,
        ensures
            r is Ok == (new_len == at + ENTRY_HEAD + 20 * leaves),
            r is Err ==> r->Err_0 == Known2Error::SizeDiffers,
            final(self)@ == indexed(old(self)@, root@, leaves as int, at as int, new_len as int),
    {
        let entry: u64 = ENTRY_HEAD as u64 + 20 * leaves as u64;
        if new_len < entry || new_len - entry != at {
            return Err(Known2Error::SizeDiffers);
        }
        let ghost before = self.index@;
        self.index.push(IndexEntry { root: *root, offset: at });
        assert(self.index@.drop_last() =~= before);
        Ok(())
    }

    /// How many bytes the entry of a file of this size has: what to read for a lookup.
    pub fn entry_len(file_size: u64) -> (n: u64)
        ensures
            n == ENTRY_HEAD + 20 * aich_tree::leaf_count(file_size as int),
    {
        proof {
            reveal(aich_tree::leaf_count);
        }
        ENTRY_HEAD as u64 + 20 * AichTree::leaf_count(file_size)
    }

    /// The tree that `entry` holds, where it is what the file has at the offset of `root`. The
    /// entry must be the root's, and must have as many leaves as the file's size asks for. That
    /// the tree has that root is not tested here.
    pub fn read_entry(&self, root: &[u8; 20], file_size: u64, entry: &[u8]) -> (tree: Option<
        AichTree,
    >)
        ensures
            tree is Some == (self@.contains_key(root@) && answers(entry@, root@, file_size)),
            tree is Some ==> {
                &&& tree->0.wf()
                &&& tree->0.file_size == file_size
                &&& aich_tree::leaf_views(tree->0.leaves@) == chunks(entry_of(entry@, 0).leaves)
            },
    {
        if !self.has(root) {
            return None;
        }
        if end_at(entry, 0).is_none() {
            return None;
        }
        if !same_hash20(&hash_at(entry, 0), root) {
            return None;
        }
        let n: u32 = count_at(entry, 0);
        if n as u64 != AichTree::leaf_count(file_size) {
            return None;
        }
        let ghost raw = entry_of(entry@, 0).leaves;
        let mut leaves: Vec<[u8; 20]> = Vec::new();
        let mut i: usize = 0;
        while i < n as usize
            invariant
                i <= n,
                n == leaves_at(entry@, 0),
                entry_at(entry@, 0),
                raw == entry_of(entry@, 0).leaves,
                entry@.len() == entry.len(),
                leaves@.len() == i,
                forall|j: int|
                    0 <= j < i ==> (#[trigger] leaves@[j])@ == raw.subrange(20 * j, 20 * j + 20),
            decreases n - i,
        {
            let h = hash_at(entry, ENTRY_HEAD + 20 * i);
            assert(h@ =~= raw.subrange(20 * i, 20 * i + 20));
            leaves.push(h);
            i = i + 1;
        }
        assert(aich_tree::leaf_views(leaves@) =~= chunks(raw));
        AichTree::from_leaves(file_size, leaves)
    }

    /// The tree, where its master hash is the root.
    pub fn confirmed(tree: AichTree, master: &[u8; 20], root: &[u8; 20]) -> (kept: Option<AichTree>)
        ensures
            kept == if master@ == root@ {
                Some(tree)
            } else {
                None
            },
    {
        if same_hash20(master, root) {
            Some(tree)
        } else {
            None
        }
    }

    /// The tree of `root`, where `entry` holds what the file has at the root's offset. What
    /// [`Known2Store::read_entry`] finds must have that root: a store that is damaged serves
    /// nothing.
    pub fn lookup(&self, root: &[u8; 20], file_size: u64, entry: &[u8]) -> (tree: Option<AichTree>)
        ensures
            tree is Some == (self@.contains_key(root@) && serves(entry@, root@, file_size)),
            tree is Some ==> {
                &&& tree->0.wf()
                &&& tree->0.file_size == file_size
                &&& aich_tree::leaf_views(tree->0.leaves@) == chunks(entry_of(entry@, 0).leaves)
                &&& tree->0.master() == root@
            },
    {
        match self.read_entry(root, file_size, entry) {
            Some(tree) => {
                let master = tree.master_hash();
                Known2Store::confirmed(tree, &master, root)
            },
            None => None,
        }
    }

    /// The file without the hashset of `root`, to be written in its place. `None` where there is
    /// nothing to write.
    pub fn remove(&self, root: &[u8; 20], bytes: &[u8]) -> (out: Option<Vec<u8>>)
        ensures
            out is Some == (self@.contains_key(root@) && is_store(bytes@) && stored(
                entries(bytes@),
                root@,
            ) is Some),
            out is Some ==> out->0@ == store_bytes(without_root(entries(bytes@), root@)),
    {
        if !self.has(root) {
            return None;
        }
        remove_known2_entry(bytes, root)
    }

    /// The file without the hashsets that no live root names, to be written in its place. `None`
    /// where every indexed root is live.
    pub fn prune_orphans(&self, live: &Vec<[u8; 20]>, bytes: &[u8]) -> (out: Option<Vec<u8>>)
        ensures
            out is Some == exists|i: int|
                0 <= i < self.index@.len() && !is_live(live@, (#[trigger] self.index@[i]).root@),
            out is Some ==> out->0@ == pruned(bytes@, self.index@, live@),
    {
        let mut left: Vec<u8> = copy_range(bytes, 0, bytes.len());
        assert(left@ =~= bytes@);
        let mut orphaned = false;
        let mut i: usize = 0;
        assert(self.index@.take(0) =~= Seq::empty());
        while i < self.index.len()
            invariant
                i <= self.index.len(),
                left@ == pruned(bytes@, self.index@.take(i as int), live@),
                orphaned == exists|j: int|
                    0 <= j < i && !is_live(live@, (#[trigger] self.index@[j]).root@),
            decreases self.index.len() - i,
        {
            let root = self.index[i].root;
            assert(self.index@.take(i + 1).drop_last() =~= self.index@.take(i as int));
            if !contains_root(live, &root) {
                assert(!is_live(live@, self.index@[i as int].root@));
                orphaned = true;
                if let Some(out) = remove_known2_entry(&left, &root) {
                    left = out;
                }
            }
            i = i + 1;
        }
        assert(self.index@.take(i as int) =~= self.index@);
        if orphaned {
            Some(left)
        } else {
            None
        }
    }

    /// The file was rewritten: index it anew.
    pub fn rewritten(&mut self, bytes: &[u8])
        ensures
            final(self)@ == offsets(bytes@),
    {
        match scan_known2_met(bytes) {
            Some(ix) => {
                self.index = ix.by_root;
            },
            None => {
                self.index = Vec::new();
            },
        }
    }
}

/// Leaves as they stand in an entry.
pub open spec fn chunks(raw: Seq<u8>) -> Seq<Seq<u8>> {
    Seq::new(raw.len() / 20, |i: int| raw.subrange(20 * i, 20 * i + 20))
}

/// The bytes start with an entry of `root` with as many leaves as a file of this size has.
pub open spec fn answers(entry: Seq<u8>, root: Seq<u8>, file_size: u64) -> bool {
    &&& entry_at(entry, 0)
    &&& entry_of(entry, 0).root == root
    &&& leaves_at(entry, 0) == aich_tree::leaf_count(file_size as int)
    &&& file_size > 0
}

/// The bytes start with an entry that answers for `root` and a file of this size, and whose
/// tree has that root.
pub open spec fn serves(entry: Seq<u8>, root: Seq<u8>, file_size: u64) -> bool {
    &&& answers(entry, root, file_size)
    &&& aich_tree::node_hash(file_size as int, true, chunks(entry_of(entry, 0).leaves)) == root
}

/// Whether `live` names this root.
pub open spec fn is_live(live: Seq<[u8; 20]>, root: Seq<u8>) -> bool {
    exists|i: int| 0 <= i < live.len() && (#[trigger] live[i])@ == root
}

fn contains_root(live: &Vec<[u8; 20]>, root: &[u8; 20]) -> (b: bool)
    ensures
        b == is_live(live@, root@),
{
    let mut i: usize = 0;
    while i < live.len()
        invariant
            i <= live.len(),
            forall|j: int| 0 <= j < i ==> (#[trigger] live@[j])@ != root@,
        decreases live.len() - i,
    {
        if same_hash20(&live[i], root) {
            assert(live@[i as int]@ == root@);
            return true;
        }
        i = i + 1;
    }
    false
}

/// The file once the indexed roots that are not live are removed, one after the other.
pub open spec fn pruned(s: Seq<u8>, index: Seq<IndexEntry>, live: Seq<[u8; 20]>) -> Seq<u8>
    decreases index.len(),
{
    if index.len() == 0 {
        s
    } else {
        let left = pruned(s, index.drop_last(), live);
        let root = index.last().root@;
        if !is_live(live, root) && is_store(left) && stored(entries(left), root) is Some {
            store_bytes(without_root(entries(left), root))
        } else {
            left
        }
    }
}

/// A prune drops what is indexed and not live, and keeps every other hashset.
pub proof fn law_prune_keeps_the_live(
    s: Seq<u8>,
    index: Seq<IndexEntry>,
    live: Seq<[u8; 20]>,
    root: Seq<u8>,
)
    requires
        is_store(s),
    ensures
        is_store(pruned(s, index, live)),
        stored(entries(pruned(s, index, live)), root) == if index_map(index).contains_key(root)
            && !is_live(live, root) {
            None
        } else {
            stored(entries(s), root)
        },
    decreases index.len(),
{
    if index.len() > 0 {
        let left = pruned(s, index.drop_last(), live);
        law_prune_keeps_the_live(s, index.drop_last(), live, root);
        law_remove_keeps_the_rest(left, index.last().root@, root);
    }
}

/// A hashset that was appended is served: what the file then holds at the entry's offset
/// answers for the root, for a file whose size asks for as many leaves and whose tree has that
/// root.
pub proof fn law_appended_is_served(
    es: Seq<EntryView>,
    root: [u8; 20],
    leaves: Seq<[u8; 20]>,
    file_size: u64,
)
    requires
        leaves.len() <= u32::MAX,
        file_size > 0,
        leaves.len() == aich_tree::leaf_count(file_size as int),
        aich_tree::node_hash(file_size as int, true, aich_tree::leaf_views(leaves)) == root@,
    ensures
        serves(
            (store_bytes(es) + entry_bytes(entry_with(root, leaves))).skip(
                store_bytes(es).len() as int,
            ),
            root@,
            file_size,
        ),
        chunks(flat(leaves)) == aich_tree::leaf_views(leaves),
{
    let e = entry_with(root, leaves);
    let none = Seq::<u8>::empty();
    lemma_flat(leaves);
    assert((store_bytes(es) + entry_bytes(e)).skip(store_bytes(es).len() as int) =~= none
        + entry_bytes(e) + none);
    lemma_entry_written(none, e, none);
    assert(chunks(flat(leaves)) =~= aich_tree::leaf_views(leaves)) by {
        assert forall|i: int| 0 <= i < leaves.len() implies chunks(flat(leaves))[i]
            == aich_tree::leaf_views(leaves)[i] by {
            assert(flat(leaves).subrange(20 * i, 20 * i + 20) == leaves[i]@);
        }
    }
}

/// A master root with its leaves.
pub struct Hashset {
    pub root: [u8; 20],
    pub leaves: Seq<[u8; 20]>,
}

/// A store's file with the index that is held of it.
#[verifier::ext_equal]
pub struct Disk {
    pub file: Seq<u8>,
    pub index: Map<Seq<u8>, int>,
}

/// A store that was loaded from a file with these bytes, and the file mended.
pub open spec fn loaded(s: Seq<u8>) -> Disk {
    Disk { file: mended(s, load_fix(s)), index: offsets(s) }
}

/// The store after an append, all of which reached the file.
pub open spec fn after_append(d: Disk, h: Hashset) -> Disk {
    let first = if d.file.len() == 0 {
        None
    } else {
        Some(d.file[0])
    };
    match append_plan(d.index, h.root, h.leaves, first, d.file.len() as int) {
        Ok(Some((at, bytes))) => {
            let file = d.file + bytes;
            Disk {
                file,
                index: indexed(
                    d.index,
                    h.root@,
                    h.leaves.len() as int,
                    at,
                    file.len() as int,
                ),
            }
        },
        _ => d,
    }
}

/// The store after these appends, one after the other.
pub open spec fn after_appends(d: Disk, hs: Seq<Hashset>) -> Disk
    decreases hs.len(),
{
    if hs.len() == 0 {
        d
    } else {
        after_append(after_appends(d, hs.drop_last()), hs.last())
    }
}

/// What a read of up to `n` bytes at `at` gives.
pub open spec fn read_at(file: Seq<u8>, at: int, n: int) -> Seq<u8> {
    file.subrange(
        at,
        if at + n <= file.len() {
            at + n
        } else {
            file.len() as int
        },
    )
}

/// No two entries have one root.
pub open spec fn roots_once(es: Seq<EntryView>) -> bool {
    forall|i: int, j: int|
        0 <= i < j < es.len() ==> (#[trigger] es[i]).root != (#[trigger] es[j]).root
}

/// The whole entries of a store whose index is that of its file.
spec fn holds(d: Disk, es: Seq<EntryView>) -> bool {
    &&& forall|i: int| 0 <= i < es.len() ==> entry_ok(#[trigger] es[i])
    &&& d.file == store_bytes(es)
    &&& d.index == offsets(d.file)
}

proof fn lemma_offsets_push(pre: Seq<u8>, es: Seq<EntryView>, e: EntryView)
    requires
        forall|i: int| 0 <= i < es.len() ==> entry_ok(#[trigger] es[i]),
        entry_ok(e),
    ensures
        offsets_from(pre + entries_bytes(es) + entry_bytes(e), pre.len() as int) == offsets_from(
            pre + entries_bytes(es),
            pre.len() as int,
        ).insert(e.root, (pre + entries_bytes(es)).len() as int),
    decreases es.len(),
{
    let none = Seq::<u8>::empty();
    let short = pre + entries_bytes(es);
    let long = short + entry_bytes(e);
    let at = pre.len() as int;
    if es.len() == 0 {
        assert(short =~= pre);
        assert(long =~= pre + entry_bytes(e) + none);
        lemma_entry_written(pre, e, none);
        assert(offsets_from(long, long.len() as int) =~= Map::empty());
        assert(offsets_from(short, at) =~= Map::empty());
    } else {
        let rest = entries_bytes(es.skip(1));
        let pre2 = pre + entry_bytes(es[0]);
        lemma_entries_first(es);
        assert(short =~= pre + entry_bytes(es[0]) + rest);
        assert(short =~= pre2 + rest);
        assert(long =~= pre + entry_bytes(es[0]) + (rest + entry_bytes(e)));
        assert(long =~= pre2 + rest + entry_bytes(e));
        lemma_entry_written(pre, es[0], rest);
        lemma_entry_written(pre, es[0], rest + entry_bytes(e));
        assert forall|i: int| 0 <= i < es.skip(1).len() implies entry_ok(
            #[trigger] es.skip(1)[i],
        ) by {
            assert(es.skip(1)[i] == es[i + 1]);
        }
        lemma_offsets_push(pre2, es.skip(1), e);
        assert(offsets_from(long, at) =~= offsets_from(short, at).insert(
            e.root,
            short.len() as int,
        ));
    }
}

proof fn lemma_stored_absent(es: Seq<EntryView>, root: Seq<u8>)
    requires
        stored(es, root) is None,
    ensures
        forall|i: int| 0 <= i < es.len() ==> (#[trigger] es[i]).root != root,
    decreases es.len(),
{
    if es.len() > 0 {
        lemma_stored_absent(es.drop_last(), root);
        assert forall|i: int| 0 <= i < es.len() implies (#[trigger] es[i]).root != root by {
            if i < es.len() - 1 {
                assert(es[i] == es.drop_last()[i]);
            }
        }
    }
}

/// An append to a store adds an entry iff the root is new.
proof fn lemma_after_append(d: Disk, es: Seq<EntryView>, h: Hashset)
    requires
        holds(d, es),
        h.leaves.len() <= u32::MAX,
    ensures
        holds(
            after_append(d, h),
            if stored(es, h.root@) is Some {
                es
            } else {
                es.push(entry_with(h.root, h.leaves))
            },
        ),
        stored(es, h.root@) is Some ==> after_append(d, h) == d,
{
    let e = entry_with(h.root, h.leaves);
    law_store_round_trip(es);
    law_offset_leads_to_the_entry(d.file, h.root@);
    if stored(es, h.root@) is None {
        lemma_flat(h.leaves);
        reveal(entry_bytes);
        assert(entry_bytes(e).len() == ENTRY_HEAD + 20 * h.leaves.len());
        law_append_keeps_the_rest(es, e);
        lemma_offsets_push(seq![KNOWN2_MET_VERSION], es, e);
        let all = es.push(e);
        assert forall|i: int| 0 <= i < all.len() implies entry_ok(#[trigger] all[i]) by {
            if i < es.len() {
                assert(all[i] == es[i]);
            }
        }
        law_store_round_trip(all);
    }
}

/// The entries of a store after these appends.
spec fn entries_after(es: Seq<EntryView>, hs: Seq<Hashset>) -> Seq<EntryView>
    decreases hs.len(),
{
    if hs.len() == 0 {
        es
    } else {
        let so_far = entries_after(es, hs.drop_last());
        if stored(so_far, hs.last().root@) is Some {
            so_far
        } else {
            so_far.push(entry_with(hs.last().root, hs.last().leaves))
        }
    }
}

proof fn lemma_after_appends(d: Disk, es: Seq<EntryView>, hs: Seq<Hashset>)
    requires
        holds(d, es),
        forall|i: int| 0 <= i < hs.len() ==> (#[trigger] hs[i]).leaves.len() <= u32::MAX,
    ensures
        holds(after_appends(d, hs), entries_after(es, hs)),
        roots_once(es) ==> roots_once(entries_after(es, hs)),
        forall|root: Seq<u8>|
            stored(es, root) is Some ==> #[trigger] stored(entries_after(es, hs), root) == stored(
                es,
                root,
            ),
    decreases hs.len(),
{
    if hs.len() > 0 {
        let less = hs.drop_last();
        assert forall|i: int| 0 <= i < less.len() implies (#[trigger] less[i]).leaves.len()
            <= u32::MAX by {
            assert(less[i] == hs[i]);
        }
        lemma_after_appends(d, es, less);
        let h = hs.last();
        assert(h == hs[hs.len() - 1]);
        let so_far = entries_after(es, less);
        lemma_after_append(after_appends(d, less), so_far, h);
        if stored(so_far, h.root@) is None {
            lemma_stored_absent(so_far, h.root@);
            assert(so_far.push(entry_with(h.root, h.leaves)).drop_last() =~= so_far);
        }
        assert forall|root: Seq<u8>| stored(es, root) is Some implies #[trigger] stored(
            entries_after(es, hs),
            root,
        ) == stored(es, root) by {
            assert(stored(so_far, root) == stored(es, root));
        }
    }
}

/// Of the hashsets appended under one root, the first is the one that is stored.
proof fn lemma_first_is_stored(es: Seq<EntryView>, hs: Seq<Hashset>, i: int)
    requires
        0 <= i < hs.len(),
        stored(es, hs[i].root@) is None,
        forall|j: int| 0 <= j < i && (#[trigger] hs[j]).root@ == hs[i].root@ ==> hs[j] == hs[i],
    ensures
        stored(entries_after(es, hs), hs[i].root@) == Some(entry_with(hs[i].root, hs[i].leaves)),
    decreases hs.len(),
{
    let less = hs.drop_last();
    let so_far = entries_after(es, less);
    let e = entry_with(hs.last().root, hs.last().leaves);
    assert(so_far.push(e).drop_last() =~= so_far);
    if i < less.len() {
        assert(less[i] == hs[i]);
        assert forall|j: int| 0 <= j < i && (#[trigger] less[j]).root@ == less[i].root@ implies less[j]
            == less[i] by {
            assert(less[j] == hs[j]);
        }
        lemma_first_is_stored(es, less, i);
    } else if exists|j: int| 0 <= j < i && (#[trigger] hs[j]).root@ == hs[i].root@ {
        let j = choose|j: int| 0 <= j < i && (#[trigger] hs[j]).root@ == hs[i].root@;
        assert(less[j] == hs[j]);
        assert forall|k: int| 0 <= k < j && (#[trigger] less[k]).root@ == less[j].root@ implies less[k]
            == less[j] by {
            assert(less[k] == hs[k]);
        }
        lemma_first_is_stored(es, less, j);
    } else {
        assert forall|j: int| 0 <= j < less.len() implies (#[trigger] less[j]).root@
            != hs[i].root@ by {
            assert(less[j] == hs[j]);
        }
        lemma_not_appended(es, less, hs[i].root@);
    }
}

proof fn lemma_not_appended(es: Seq<EntryView>, hs: Seq<Hashset>, root: Seq<u8>)
    requires
        forall|j: int| 0 <= j < hs.len() ==> (#[trigger] hs[j]).root@ != root,
    ensures
        stored(entries_after(es, hs), root) == stored(es, root),
    decreases hs.len(),
{
    if hs.len() > 0 {
        let less = hs.drop_last();
        assert forall|j: int| 0 <= j < less.len() implies (#[trigger] less[j]).root@ != root by {
            assert(less[j] == hs[j]);
        }
        lemma_not_appended(es, less, root);
        let so_far = entries_after(es, less);
        let e = entry_with(hs.last().root, hs.last().leaves);
        assert(hs.last() == hs[hs.len() - 1]);
        assert(so_far.push(e).drop_last() =~= so_far);
    }
}

/// One hashset, appended any number of times, is one entry.
proof fn lemma_repeated(es: Seq<EntryView>, hs: Seq<Hashset>, h: Hashset)
    requires
        hs.len() > 0,
        forall|j: int| 0 <= j < hs.len() ==> (#[trigger] hs[j]) == h,
        stored(es, h.root@) is None,
    ensures
        entries_after(es, hs) == es.push(entry_with(h.root, h.leaves)),
    decreases hs.len(),
{
    let less = hs.drop_last();
    let all = es.push(entry_with(h.root, h.leaves));
    assert(hs.last() == hs[hs.len() - 1]);
    assert(all.drop_last() =~= es);
    if less.len() > 0 {
        assert forall|j: int| 0 <= j < less.len() implies (#[trigger] less[j]) == h by {
            assert(less[j] == hs[j]);
        }
        lemma_repeated(es, less, h);
    } else {
        assert(entries_after(es, less) == es);
    }
}

/// Cutting a torn tail off moves no entry.
proof fn lemma_offsets_cut(s: Seq<u8>, at: int, v: int)
    requires
        0 <= at <= s.len(),
        valid_from(s, at) == v,
    ensures
        offsets_from(s.take(v), at) == offsets_from(s, at),
    decreases s.len() - at,
{
    let t = s.take(v);
    lemma_entries_read(s, at);
    if entry_at(s, at) {
        let end = entry_end(s, at);
        lemma_entry_at(s, at);
        lemma_entries_read(s, end);
        lemma_offsets_cut(s, end, v);
        assert(t.subrange(at, end) =~= s.subrange(at, end));
        lemma_same_entry(s, at, t, at);
    }
}

/// An entry is the same wherever its bytes stand.
proof fn lemma_same_entry(s: Seq<u8>, at: int, t: Seq<u8>, to: int)
    requires
        0 <= at,
        0 <= to,
        entry_at(s, at),
        to + (entry_end(s, at) - at) <= t.len(),
        t.subrange(to, to + (entry_end(s, at) - at)) == s.subrange(at, entry_end(s, at)),
    ensures
        entry_at(t, to),
        entry_of(t, to) == entry_of(s, at),
        entry_end(t, to) - to == entry_end(s, at) - at,
{
    let n = entry_end(s, at) - at;
    let pre = t.take(to);
    let rest = t.skip(to + n);
    lemma_entry_at(s, at);
    assert(t =~= pre + t.subrange(to, to + n) + rest);
    lemma_entry_written(pre, entry_of(s, at), rest);
}

proof fn lemma_loaded(s: Seq<u8>)
    requires
        s.len() == 0 || is_store(s),
        s.len() <= u64::MAX,
    ensures
        holds(loaded(s), entries(s)),
{
    if s.len() == 0 {
        let none = store_bytes(Seq::empty());
        assert(none =~= seq![KNOWN2_MET_VERSION]);
        assert(offsets(none) =~= Map::empty());
    } else {
        law_torn_tail_is_cut(s);
        lemma_entries_read(s, 1);
        lemma_offsets_cut(s, 1, valid_from(s, 1));
        assert(s.take(s.len() as int) =~= s);
    }
}

/// What is appended to a store is read back. The store is loaded from a file, be it absent or
/// with other hashsets in it; then hashsets are appended, each once or several times. Then:
/// - the file is whole, a load of it gives the same index, and leaves it as it is;
/// - what was stored before is still stored;
/// - an append never adds a second entry for a root, and one hashset that is appended any number
///   of times adds the bytes of one entry;
/// - a new root with the leaves of a tree that has it is served, with these leaves, for the
///   tree's file size;
/// - for a size that asks for another number of leaves it is refused.
pub proof fn law_what_is_appended_is_read_back(
    bytes: Seq<u8>,
    hs: Seq<Hashset>,
    i: int,
    file_size: u64,
)
    requires
        bytes.len() == 0 || is_store(bytes),
        bytes.len() <= u64::MAX,
        forall|j: int| 0 <= j < hs.len() ==> (#[trigger] hs[j]).leaves.len() <= u32::MAX,
        0 <= i < hs.len(),
        !offsets(bytes).contains_key(hs[i].root@),
        forall|j: int| 0 <= j < i && (#[trigger] hs[j]).root@ == hs[i].root@ ==> hs[j] == hs[i],
        file_size > 0,
        hs[i].leaves.len() == aich_tree::leaf_count(file_size as int),
        aich_tree::node_hash(file_size as int, true, aich_tree::leaf_views(hs[i].leaves))
            == hs[i].root@,
    ensures
        ({
            let d = after_appends(loaded(bytes), hs);
            let root = hs[i].root@;
            let at = d.index[root];
            &&& load_fix(d.file) == LoadFix::Keep
            &&& loaded(d.file) == d
            &&& forall|other: Seq<u8>|
                stored(entries(bytes), other) is Some ==> #[trigger] stored(entries(d.file), other)
                    == stored(entries(bytes), other)
            &&& roots_once(entries(bytes)) ==> roots_once(entries(d.file))
            &&& (forall|j: int| 0 <= j < hs.len() ==> (#[trigger] hs[j]) == hs[i])
                ==> d.file.len() == loaded(bytes).file.len() + ENTRY_HEAD + 20
                * hs[i].leaves.len()
            &&& d.index.contains_key(root)
            &&& forall|n: int|
                n >= ENTRY_HEAD + 20 * hs[i].leaves.len() ==> {
                    let entry = #[trigger] read_at(d.file, at, n);
                    &&& serves(entry, root, file_size)
                    &&& chunks(entry_of(entry, 0).leaves) == aich_tree::leaf_views(hs[i].leaves)
                }
            &&& forall|n: int, size: u64|
                n >= 0 && aich_tree::leaf_count(size as int) != hs[i].leaves.len()
                    ==> !#[trigger] serves(read_at(d.file, at, n), root, size)
        }),
{
    let es = entries(bytes);
    let start = loaded(bytes);
    let d = after_appends(start, hs);
    let all = entries_after(es, hs);
    let h = hs[i];
    let root = h.root@;
    let e = entry_with(h.root, h.leaves);
    lemma_loaded(bytes);
    law_offset_leads_to_the_entry(bytes, root);
    lemma_after_appends(start, es, hs);
    lemma_first_is_stored(es, hs, i);
    law_store_round_trip(all);
    law_offset_leads_to_the_entry(d.file, root);
    lemma_flat(h.leaves);
    let at = d.index[root];
    lemma_offsets(d.file, 1, root);
    assert(entry_of(d.file, at) == e);
    lemma_entry_at(d.file, at);
    assert(loaded(d.file) =~= d);
    if forall|j: int| 0 <= j < hs.len() ==> (#[trigger] hs[j]) == h {
        lemma_repeated(es, hs, h);
        assert(all.drop_last() =~= es);
        reveal(entry_bytes);
    }
    assert(chunks(flat(h.leaves)) =~= aich_tree::leaf_views(h.leaves)) by {
        assert forall|k: int| 0 <= k < h.leaves.len() implies chunks(flat(h.leaves))[k]
            == aich_tree::leaf_views(h.leaves)[k] by {
            assert(flat(h.leaves).subrange(20 * k, 20 * k + 20) == h.leaves[k]@);
        }
    }
    assert forall|n: int| n >= ENTRY_HEAD + 20 * h.leaves.len() implies {
        let entry = #[trigger] read_at(d.file, at, n);
        &&& serves(entry, root, file_size)
        &&& chunks(entry_of(entry, 0).leaves) == aich_tree::leaf_views(h.leaves)
    } by {
        let entry = read_at(d.file, at, n);
        let end = entry_end(d.file, at);
        assert(entry.subrange(0, end - at) =~= d.file.subrange(at, end));
        lemma_same_entry(d.file, at, entry, 0);
    }
    assert forall|n: int, size: u64|
        n >= 0 && aich_tree::leaf_count(size as int) != h.leaves.len() implies !#[trigger] serves(
        read_at(d.file, at, n),
        root,
        size,
    ) by {
        let entry = read_at(d.file, at, n);
        if entry.len() >= ENTRY_HEAD {
            let a = entry.skip(HASH as int);
            let b = d.file.skip(at + HASH);
            assert(a[0] == b[0] && a[1] == b[1] && a[2] == b[2] && a[3] == b[3]);
            assert(leaves_at(entry, 0) == leaves_at(d.file, at));
        }
    }
}

/// A file with another version byte is left alone: nothing is read from it, nothing in it is
/// mended, and nothing is appended to it.
pub proof fn law_a_foreign_file_is_left_alone(s: Seq<u8>, root: [u8; 20], leaves: Seq<[u8; 20]>)
    requires
        s.len() > 0,
        s[0] != 2,
    ensures
        load_fix(s) == LoadFix::Keep,
        loaded(s).file == s,
        forall|r: Seq<u8>| !#[trigger] offsets(s).contains_key(r),
        append_plan(offsets(s), root, leaves, Some(s[0]), s.len() as int) is Err,
        after_append(loaded(s), Hashset { root, leaves }) == loaded(s),
{
}

/// What is served has the root that was asked for and the number of leaves that the size asks for:
/// an entry of another root, of another size, or cut short, answers nothing.
pub proof fn law_nothing_false_is_served(entry: Seq<u8>, root: Seq<u8>, size: u64)
    requires
        serves(entry, root, size),
    ensures
        entry.len() >= 24 + 20 * aich_tree::leaf_count(size as int),
        entry.take(20) == root,
        aich_tree::node_hash(
            size as int,
            true,
            Seq::new(
                aich_tree::leaf_count(size as int) as nat,
                |i: int| entry.subrange(24 + 20 * i, 44 + 20 * i),
            ),
        ) == root,
{
    let n = aich_tree::leaf_count(size as int);
    let raw = entry_of(entry, 0).leaves;
    assert(entry.take(20) =~= entry.subrange(0, 20));
    let list = Seq::new(n as nat, |i: int| entry.subrange(24 + 20 * i, 44 + 20 * i));
    assert(chunks(raw).len() == n);
    assert forall|i: int| 0 <= i < n implies chunks(raw)[i] == list[i] by {
        assert(raw.subrange(20 * i, 20 * i + 20) =~= entry.subrange(24 + 20 * i, 44 + 20 * i));
    }
    assert(chunks(raw) =~= list);
}

} // verus!
