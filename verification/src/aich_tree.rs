//! The AICH hash tree of a file: SHA-1 leaves over blocks of at most `EMBLOCKSIZE` bytes,
//! joined first within each part and then over the parts.
use vstd::prelude::*;
use crate::hash;
use crate::hash::sha1;
use crate::proto::{EMBLOCKSIZE, PARTSIZE};
use crate::wire::{copy_range, write_bytes};

verus! {

/// The leaves of a whole part.
pub const LEAVES_PER_PART: u64 = 53;

/// How many blocks it takes to hold `size` bytes.
pub open spec fn blocks(size: int) -> int {
    (size + EMBLOCKSIZE - 1) / EMBLOCKSIZE as int
}

/// How many parts it takes to hold `size` bytes.
pub open spec fn parts(size: int) -> int {
    (size + PARTSIZE - 1) / PARTSIZE as int
}

/// The leaves of a file of `size` bytes: blocks do not cross a part's end.
#[verifier::opaque]
pub open spec fn leaf_count(size: int) -> int {
    size / PARTSIZE as int * LEAVES_PER_PART + blocks(size % PARTSIZE as int)
}

/// How many of a node's pieces its left child gets, of `n`. An odd piece goes to the left in a
/// left child, to the right in a right child.
pub open spec fn left_pieces(n: int, is_left: bool) -> int {
    if is_left {
        (n + 1) / 2
    } else {
        n / 2
    }
}

/// How many of a node's bytes its left child covers: whole blocks within a part, whole parts
/// above.
#[verifier::opaque]
pub open spec fn left_size(size: int, is_left: bool) -> int {
    if size <= PARTSIZE {
        left_pieces(blocks(size), is_left) * EMBLOCKSIZE
    } else {
        left_pieces(parts(size), is_left) * PARTSIZE
    }
}

/// A node that is no leaf has two children that are smaller than it.
pub proof fn lemma_left_size(size: int, is_left: bool)
    requires
        size > EMBLOCKSIZE,
    ensures
        0 < left_size(size, is_left) < size,
{
    reveal(left_size);
}

/// The leaves of a node are those of its children.
pub proof fn lemma_leaves_split(size: int, is_left: bool)
    requires
        size > EMBLOCKSIZE,
    ensures
        leaf_count(size) == leaf_count(left_size(size, is_left)) + leaf_count(
            size - left_size(size, is_left),
        ),
{
    reveal(leaf_count);
    reveal(left_size);
    let left = left_size(size, is_left);
    lemma_left_size(size, is_left);
    if size > PARTSIZE {
        let k = left_pieces(parts(size), is_left);
        assert(left / PARTSIZE as int == k);
        assert(left % PARTSIZE as int == 0);
        assert(size / PARTSIZE as int == k + (size - left) / PARTSIZE as int);
        assert(size % PARTSIZE as int == (size - left) % PARTSIZE as int);
    } else {
        let k = left_pieces(blocks(size), is_left);
        assert(left < PARTSIZE);
        assert(leaf_count(left) == k);
        assert(leaf_count(size) == blocks(size));
        assert(leaf_count(size - left) == blocks(size - left));
    }
}

pub proof fn lemma_leaf_count_positive(size: int)
    requires
        size > 0,
    ensures
        leaf_count(size) > 0,
        size <= EMBLOCKSIZE ==> leaf_count(size) == 1,
{
    reveal(leaf_count);
}

/// Each leaf's bytes.
pub open spec fn leaf_views(leaves: Seq<[u8; 20]>) -> Seq<Seq<u8>> {
    Seq::new(leaves.len(), |i: int| leaves[i]@)
}

/// The hash of a node of `size` bytes with these leaves: a leaf is its own hash, any other node
/// is the digest of its children's hashes.
pub open spec fn node_hash(size: int, is_left: bool, leaves: Seq<Seq<u8>>) -> Seq<u8>
    decreases size,
    when size > 0
    via node_hash_decreases
{
    if size <= EMBLOCKSIZE {
        leaves[0]
    } else {
        let left = left_size(size, is_left);
        let n = leaf_count(left);
        hash::sha1_digest(
            node_hash(left, true, leaves.take(n)) + node_hash(size - left, false, leaves.skip(n)),
        )
    }
}

#[via_fn]
proof fn node_hash_decreases(size: int, is_left: bool, leaves: Seq<Seq<u8>>) {
    if size > EMBLOCKSIZE {
        lemma_left_size(size, is_left);
    }
}

/// The leaves that a file of `size` bytes has.
pub fn count_leaves(size: u64) -> (n: u64)
    ensures
        n == leaf_count(size as int),
{
    reveal(leaf_count);
    size / PARTSIZE * LEAVES_PER_PART + (size % PARTSIZE + EMBLOCKSIZE - 1) / EMBLOCKSIZE
}

fn left_share(n: u64, is_left: bool) -> (k: u64)
    requires
        n < u64::MAX,
    ensures
        k == left_pieces(n as int, is_left),
{
    if is_left {
        (n + 1) / 2
    } else {
        n / 2
    }
}

fn split_size(size: u64, is_left: bool) -> (left: u64)
    requires
        size > EMBLOCKSIZE,
    ensures
        left == left_size(size as int, is_left),
        0 < left < size,
{
    proof {
        reveal(left_size);
        lemma_left_size(size as int, is_left);
    }
    if size <= PARTSIZE {
        left_share((size - 1) / EMBLOCKSIZE + 1, is_left) * EMBLOCKSIZE
    } else {
        left_share((size - 1) / PARTSIZE + 1, is_left) * PARTSIZE
    }
}

/// The hash of the node of `size` bytes whose leaves stand from `at` on.
fn hash_node(size: u64, is_left: bool, leaves: &Vec<[u8; 20]>, at: usize) -> (h: [u8; 20])
    requires
        size > 0,
        at + leaf_count(size as int) <= leaves.len(),
    ensures
        h@ == node_hash(
            size as int,
            is_left,
            leaf_views(leaves@).subrange(at as int, at + leaf_count(size as int)),
        ),
    decreases size,
{
    proof {
        lemma_leaf_count_positive(size as int);
    }
    let ghost views = leaf_views(leaves@);
    let ghost mine = views.subrange(at as int, at + leaf_count(size as int));
    if size <= EMBLOCKSIZE {
        return leaves[at];
    }
    proof {
        lemma_leaves_split(size as int, is_left);
    }
    let left: u64 = split_size(size, is_left);
    proof {
        lemma_leaf_count_positive(left as int);
        lemma_leaf_count_positive(size - left);
    }
    let left_leaves: usize = count_leaves(left) as usize;
    let l = hash_node(left, true, leaves, at);
    let r = hash_node(size - left, false, leaves, at + left_leaves);
    let mut both: Vec<u8> = Vec::new();
    write_bytes(&mut both, &l);
    write_bytes(&mut both, &r);
    proof {
        assert(mine.take(left_leaves as int) =~= views.subrange(
            at as int,
            at + leaf_count(left as int),
        ));
        assert(mine.skip(left_leaves as int) =~= views.subrange(
            at + left_leaves,
            at + left_leaves + leaf_count(size - left),
        ));
        assert(both@ =~= l@ + r@);
    }
    sha1(&both)
}

/// The hash tree of a file, held as its leaves.
#[derive(Debug, Clone, PartialEq, Eq)]
pub struct AichTree {
    pub file_size: u64,
    pub leaves: Vec<[u8; 20]>,
}

impl AichTree {
    /// The file holds something, and each of its blocks has its leaf.
    pub open spec fn wf(&self) -> bool {
        self.file_size > 0 && self.leaves@.len() == leaf_count(self.file_size as int)
    }

    /// The hash at the top of the tree.
    pub open spec fn master(&self) -> Seq<u8> {
        node_hash(self.file_size as int, true, leaf_views(self.leaves@))
    }

    /// The leaves that a file of this size has.
    pub fn leaf_count(file_size: u64) -> (n: u64)
        ensures
            n == leaf_count(file_size as int),
    {
        count_leaves(file_size)
    }

    /// The tree over these leaves, where their number is what the file's size asks for.
    pub fn from_leaves(file_size: u64, leaves: Vec<[u8; 20]>) -> (t: Option<AichTree>)
        ensures
            t is Some == (file_size > 0 && leaves@.len() == leaf_count(file_size as int)),
            t is Some ==> t->0.wf() && t->0.file_size == file_size && t->0.leaves == leaves,
    {
        if file_size == 0 || leaves.len() as u64 != count_leaves(file_size) {
            return None;
        }
        Some(AichTree { file_size, leaves })
    }

    /// The hash at the top of the tree.
    pub fn master_hash(&self) -> (h: [u8; 20])
        requires
            self.wf(),
        ensures
            h@ == self.master(),
    {
        let ghost views = leaf_views(self.leaves@);
        assert(views.subrange(0, 0 + leaf_count(self.file_size as int)) =~= views);
        hash_node(self.file_size, true, &self.leaves, 0)
    }
}

/// The leaves of a part, or of what a file has less than a part: the digests of its blocks.
pub open spec fn block_digests(part: Seq<u8>) -> Seq<Seq<u8>> {
    Seq::new(blocks(part.len() as int) as nat, |i: int| hash::sha1_digest(block_of(part, i)))
}

/// The `i`th block of a part.
pub open spec fn block_of(part: Seq<u8>, i: int) -> Seq<u8> {
    let end = (i + 1) * EMBLOCKSIZE;
    part.subrange(
        i * EMBLOCKSIZE,
        if end <= part.len() {
            end
        } else {
            part.len() as int
        },
    )
}

/// The leaves of a file, gathered part by part.
#[derive(Debug, Clone)]
pub struct AichLeafHasher {
    pub file_size: u64,
    pub leaves: Vec<[u8; 20]>,
}

impl AichLeafHasher {
    /// A hasher for a file of this size; an empty file has no tree.
    pub fn new(file_size: u64) -> (h: Option<AichLeafHasher>)
        ensures
            h is Some == (file_size > 0),
            h is Some ==> h->0.file_size == file_size && h->0.leaves@.len() == 0,
    {
        if file_size == 0 {
            None
        } else {
            Some(AichLeafHasher { file_size, leaves: Vec::new() })
        }
    }

    /// Hash the next part.
    pub fn add_part(&mut self, data: &[u8])
        requires
            data.len() <= PARTSIZE,
        ensures
            final(self).file_size == old(self).file_size,
            leaf_views(final(self).leaves@) == leaf_views(old(self).leaves@) + block_digests(data@),
    {
        let n: usize = (data.len() + EMBLOCKSIZE as usize - 1) / EMBLOCKSIZE as usize;
        let ghost before = leaf_views(self.leaves@);
        let ghost all = block_digests(data@);
        let mut i: usize = 0;
        assert(leaf_views(self.leaves@) =~= before + all.take(0));
        while i < n
            invariant
                i <= n,
                n == blocks(data@.len() as int),
                data.len() <= PARTSIZE,
                all == block_digests(data@),
                self.file_size == old(self).file_size,
                leaf_views(self.leaves@) == before + all.take(i as int),
            decreases n - i,
        {
            assert(i * EMBLOCKSIZE < data@.len()) by {
                let len = data@.len() as int;
                assert(blocks(len) * EMBLOCKSIZE < len + EMBLOCKSIZE);
                assert(i + 1 <= blocks(len));
            }
            let start: usize = i * EMBLOCKSIZE as usize;
            let end: usize = if data.len() - start >= EMBLOCKSIZE as usize {
                start + EMBLOCKSIZE as usize
            } else {
                data.len()
            };
            let block = copy_range(data, start, end);
            assert(block@ =~= block_of(data@, i as int));
            let h = sha1(&block);
            let ghost was = self.leaves@;
            self.leaves.push(h);
            proof {
                assert(leaf_views(self.leaves@) =~= leaf_views(was).push(h@));
                assert(all.take(i + 1) =~= all.take(i as int).push(h@));
                assert(leaf_views(self.leaves@) =~= before + all.take(i + 1));
            }
            i = i + 1;
        }
        assert(all.take(n as int) =~= all);
    }

    /// The tree, where every block of the file was hashed.
    pub fn finish(self) -> (t: Option<AichTree>)
        ensures
            t is Some == (self.file_size > 0 && self.leaves@.len() == leaf_count(
                self.file_size as int,
            )),
            t is Some ==> t->0.wf() && t->0.file_size == self.file_size && t->0.leaves
                == self.leaves,
    {
        AichTree::from_leaves(self.file_size, self.leaves)
    }
}

/// The length of the first part of what is left.
pub open spec fn first_part(len: int) -> int {
    if len <= PARTSIZE {
        len
    } else {
        PARTSIZE as int
    }
}

/// The leaves of a file's bytes, part by part.
pub open spec fn leaves_of(data: Seq<u8>) -> Seq<Seq<u8>>
    decreases data.len(),
{
    if data.len() == 0 {
        Seq::empty()
    } else {
        let n = first_part(data.len() as int);
        block_digests(data.take(n)) + leaves_of(data.skip(n))
    }
}

/// A file that is hashed part by part has as many leaves as its size asks for.
pub proof fn law_every_block_has_its_leaf(data: Seq<u8>)
    ensures
        leaves_of(data).len() == leaf_count(data.len() as int),
    decreases data.len(),
{
    reveal(leaf_count);
    if data.len() > 0 {
        let n = first_part(data.len() as int);
        law_every_block_has_its_leaf(data.skip(n));
    }
}

impl AichTree {
    /// The tree over a file's bytes; an empty file has none.
    pub fn from_file_data(data: &[u8]) -> (t: Option<AichTree>)
        ensures
            t is Some == (data@.len() > 0),
            t is Some ==> {
                &&& t->0.wf()
                &&& t->0.file_size == data@.len()
                &&& leaf_views(t->0.leaves@) == leaves_of(data@)
            },
    {
        match AichLeafHasher::new(data.len() as u64) {
            None => None,
            Some(h) => {
                let mut h = h;
                let mut at: usize = 0;
                assert(data@.skip(0) =~= data@);
                assert(leaf_views(h.leaves@) + leaves_of(data@) =~= leaves_of(data@));
                while at < data.len()
                    invariant
                        at <= data.len(),
                        h.file_size == data@.len(),
                        leaf_views(h.leaves@) + leaves_of(data@.skip(at as int)) == leaves_of(data@),
                    decreases data.len() - at,
                {
                    let end: usize = if data.len() - at <= PARTSIZE as usize {
                        data.len()
                    } else {
                        at + PARTSIZE as usize
                    };
                    let part = copy_range(data, at, end);
                    let ghost rest = data@.skip(at as int);
                    let ghost before = leaf_views(h.leaves@);
                    h.add_part(&part);
                    proof {
                        let n = first_part(rest.len() as int);
                        assert(part@ =~= rest.take(n));
                        assert(rest.skip(n) =~= data@.skip(end as int));
                        assert((before + block_digests(part@)) + leaves_of(data@.skip(end as int))
                            =~= before + leaves_of(rest));
                    }
                    at = end;
                }
                proof {
                    assert(data@.skip(at as int) =~= Seq::empty());
                    assert(leaf_views(h.leaves@) + Seq::<Seq<u8>>::empty() =~= leaf_views(h.leaves@));
                    law_every_block_has_its_leaf(data@);
                }
                h.finish()
            },
        }
    }
}

/// Which leaf a byte is under, and what that leaf is: the digest of the block of at most 184320
/// bytes that holds the byte, where blocks are counted from the start of each part.
pub proof fn law_each_leaf_is_the_digest_of_its_block(data: Seq<u8>, b: int)
    requires
        0 <= b < data.len(),
    ensures
        ({
            let leaf = b / 9_728_000 * 53 + b % 9_728_000 / 184_320;
            let start = b - b % 9_728_000 % 184_320;
            let part_end = (b / 9_728_000 + 1) * 9_728_000;
            let end = if start + 184_320 <= part_end {
                start + 184_320
            } else {
                part_end
            };
            &&& leaf < leaves_of(data).len()
            &&& leaves_of(data)[leaf] == hash::sha1_digest(
                data.subrange(
                    start,
                    if end <= data.len() {
                        end
                    } else {
                        data.len() as int
                    },
                ),
            )
        }),
    decreases data.len(),
{
    let n = first_part(data.len() as int);
    let first = data.take(n);
    let rest = data.skip(n);
    if b < n {
        let i = b / 184_320;
        assert(b / 9_728_000 == 0);
        assert(i < blocks(n));
        assert(block_digests(first)[i] == hash::sha1_digest(block_of(first, i)));
        let start = b - b % 184_320;
        let end = if start + 184_320 <= n {
            start + 184_320
        } else {
            n
        };
        assert(block_of(first, i) =~= data.subrange(start, end));
    } else {
        assert(n == 9_728_000);
        law_each_leaf_is_the_digest_of_its_block(rest, b - n);
        let c = b - n;
        assert(c / 9_728_000 + 1 == b / 9_728_000);
        assert(c % 9_728_000 == b % 9_728_000);
        assert(block_digests(first).len() == 53);
        let start = c - c % 9_728_000 % 184_320;
        let part_end = (c / 9_728_000 + 1) * 9_728_000;
        let cut = if start + 184_320 <= part_end {
            start + 184_320
        } else {
            part_end
        };
        let end = if cut <= rest.len() {
            cut
        } else {
            rest.len() as int
        };
        assert(rest.subrange(start, end) =~= data.subrange(start + n, end + n));
    }
}

/// The root of a file of two parts or more joins the roots of two runs of whole parts, and the
/// root of anything of more than one block joins two hashes: the left one over the first bytes,
/// the right one over all the others.
pub proof fn law_a_node_joins_its_halves(size: int, is_left: bool, leaves: Seq<Seq<u8>>)
    requires
        size > 184_320,
        leaves.len() == leaf_count(size),
    ensures
        exists|left: int, n: int|
            {
                &&& 0 < left < size
                &&& left % (if size > 9_728_000 {
                    9_728_000int
                } else {
                    184_320int
                }) == 0
                &&& 0 < n < leaves.len()
                &&& leaves.take(n).len() == leaf_count(left)
                &&& leaves.skip(n).len() == leaf_count(size - left)
                &&& node_hash(size, is_left, leaves) == hash::sha1_digest(
                    #[trigger] node_hash(left, true, leaves.take(n)) + node_hash(
                        size - left,
                        false,
                        leaves.skip(n),
                    ),
                )
            },
{
    let left = left_size(size, is_left);
    let n = leaf_count(left);
    lemma_left_size(size, is_left);
    lemma_leaves_split(size, is_left);
    lemma_leaf_count_positive(left);
    lemma_leaf_count_positive(size - left);
    reveal(left_size);
    assert(node_hash(size, is_left, leaves) == hash::sha1_digest(
        node_hash(left, true, leaves.take(n)) + node_hash(size - left, false, leaves.skip(n)),
    ));
}

/// A node is split as evenly as whole blocks, or above a part whole parts, allow; an odd one goes
/// to the left in a left child, to the right in a right child.
pub proof fn law_a_node_is_split_evenly(size: int, is_left: bool)
    requires
        size > 184_320,
    ensures
        ({
            let unit: int = if size > 9_728_000 {
                9_728_000
            } else {
                184_320
            };
            let n = if size % unit == 0 {
                size / unit
            } else {
                size / unit + 1
            };
            let left = left_size(size, is_left);
            &&& left % unit == 0
            &&& is_left ==> left / unit == n - n / 2
            &&& !is_left ==> left / unit == n / 2
        }),
{
    reveal(left_size);
}

} // verus!
