//! The digests of the protocol: MD4 of a part, SHA-1 of a block, and the eD2k hash of a
//! whole file, which is built from the MD4 of its parts.
use md4::{Digest, Md4};
use sha1::Sha1;
use vstd::prelude::*;
use crate::proto::PARTSIZE;
use crate::wire::write_bytes;

verus! {

/// The MD4 digest of a byte string, by name.
pub uninterp spec fn md4_digest(data: Seq<u8>) -> Seq<u8>;

/// The SHA-1 digest of a byte string, by name.
pub uninterp spec fn sha1_digest(data: Seq<u8>) -> Seq<u8>;

/// Calls `md4::Md4::digest`. Its result is a function of the bytes alone, which
/// [`md4_digest`] names; nothing else is claimed of it.
#[verifier::external_body]
pub(crate) fn md4(data: &[u8]) -> (digest: [u8; 16])
    ensures
        digest@ == md4_digest(data@),
{
    Md4::digest(data).into()
}

/// Calls `sha1::Sha1::digest`. Its result is a function of the bytes alone, which
/// [`sha1_digest`] names; nothing else is claimed of it. The bit length of the input must
/// fit in 64 bits, which the call counts without a check.
#[verifier::external_body]
pub(crate) fn sha1(data: &[u8]) -> (digest: [u8; 20])
    requires
        data@.len() < 0x2000_0000_0000_0000,
    ensures
        digest@ == sha1_digest(data@),
{
    Sha1::digest(data).into()
}

/// The two are the same value.
pub open spec fn identical<T>(a: T, b: T) -> bool {
    a == b
}

/// Whether two 16-byte hashes are the same.
pub fn same_hash16(a: &[u8; 16], b: &[u8; 16]) -> (same: bool)
    ensures
        same == (a@ == b@),
        same == identical(*a, *b),
{
    let mut i: usize = 0;
    while i < 16
        invariant
            i <= 16,
            forall|j: int| 0 <= j < i ==> a@[j] == b@[j],
        decreases 16 - i,
    {
        if a[i] != b[i] {
            return false;
        }
        i = i + 1;
    }
    assert(a@ =~= b@);
    assert(*a =~= *b);
    true
}

/// Whether two 20-byte hashes are the same.
pub fn same_hash20(a: &[u8; 20], b: &[u8; 20]) -> (same: bool)
    ensures
        same == (a@ == b@),
        same == identical(*a, *b),
{
    let mut i: usize = 0;
    while i < 20
        invariant
            i <= 20,
            forall|j: int| 0 <= j < i ==> a@[j] == b@[j],
        decreases 20 - i,
    {
        if a[i] != b[i] {
            return false;
        }
        i = i + 1;
    }
    assert(a@ =~= b@);
    assert(*a =~= *b);
    true
}

/// The hashset's part count: one more than the full parts, so that a file of an exact
/// multiple of the part size has an empty last part.
pub fn part_count(size: u64) -> (n: u64)
    ensures
        n == size as int / PARTSIZE as int + 1,
{
    size / PARTSIZE + 1
}

/// Byte strings one behind the other.
pub open spec fn concatenated(parts: Seq<Seq<u8>>) -> Seq<u8>
    decreases parts.len(),
{
    if parts.len() == 0 {
        Seq::empty()
    } else {
        concatenated(parts.drop_last()) + parts.last()
    }
}

/// The eD2k hash of a file of `size` bytes whose parts have these digests: that of its only
/// part where the file is smaller than a part, else the MD4 of the digests, with that of an
/// empty part behind them where the last part is full.
pub open spec fn file_hash(size: int, digests: Seq<Seq<u8>>) -> Seq<u8> {
    if size < PARTSIZE {
        if digests.len() == 0 {
            md4_digest(Seq::empty())
        } else {
            digests[0]
        }
    } else if size % PARTSIZE as int == 0 {
        md4_digest(concatenated(digests.push(md4_digest(Seq::empty()))))
    } else {
        md4_digest(concatenated(digests))
    }
}

/// What a list of digests holds.
pub open spec fn digest_views(digests: Seq<[u8; 16]>) -> Seq<Seq<u8>> {
    digests.map_values(|d: [u8; 16]| d@)
}

/// The digests of parts, of a file that is hashed part by part.
#[derive(Debug)]
pub struct Ed2kHasher {
    pub digests: Vec<[u8; 16]>,
}

impl Ed2kHasher {
    pub fn new() -> (h: Ed2kHasher)
        ensures
            h.digests@.len() == 0,
    {
        Ed2kHasher { digests: Vec::new() }
    }

    /// Hash the next part.
    pub fn add_part(&mut self, data: &[u8])
        ensures
            digest_views(final(self).digests@) == digest_views(old(self).digests@).push(
                md4_digest(data@),
            ),
    {
        self.digests.push(md4(data));
        assert(digest_views(self.digests@) =~= digest_views(old(self).digests@).push(
            md4_digest(data@),
        ));
    }

    /// The hash of the file, whose size is `size`.
    pub fn finish(&self, size: u64) -> (hash: [u8; 16])
        ensures
            hash@ == file_hash(size as int, digest_views(self.digests@)),
    {
        let none: [u8; 0] = [];
        assert(none@ =~= Seq::<u8>::empty());
        if size < PARTSIZE {
            if self.digests.len() == 0 {
                return md4(none.as_slice());
            }
            assert(digest_views(self.digests@)[0] == self.digests@[0]@);
            return self.digests[0];
        }
        let ghost all = digest_views(self.digests@);
        let mut list: Vec<u8> = Vec::new();
        let mut i: usize = 0;
        assert(all.take(0) =~= Seq::empty());
        while i < self.digests.len()
            invariant
                i <= self.digests@.len(),
                all == digest_views(self.digests@),
                list@ == concatenated(all.take(i as int)),
            decreases self.digests@.len() - i,
        {
            write_bytes(&mut list, self.digests[i].as_slice());
            proof {
                assert(all.take(i + 1).drop_last() =~= all.take(i as int));
                assert(all.take(i + 1).last() == self.digests@[i as int]@);
            }
            i = i + 1;
        }
        assert(all.take(i as int) =~= all);
        if size % PARTSIZE == 0 {
            let sentinel = md4(none.as_slice());
            write_bytes(&mut list, sentinel.as_slice());
            assert(all.push(sentinel@).drop_last() =~= all);
        }
        md4(list.as_slice())
    }
}

/// Part `p` of a file's bytes.
pub open spec fn part_bytes(data: Seq<u8>, p: int) -> Seq<u8> {
    if (p + 1) * PARTSIZE <= data.len() {
        data.subrange(p * PARTSIZE, (p + 1) * PARTSIZE)
    } else {
        data.skip(p * PARTSIZE)
    }
}

/// The number of parts that hold data.
pub open spec fn parts_of(size: int) -> int {
    (size + PARTSIZE - 1) / PARTSIZE as int
}

/// The eD2k hash of bytes in memory.
pub fn ed2k_hash(data: &[u8]) -> (hash: [u8; 16])
    ensures
        hash@ == file_hash(
            data@.len() as int,
            Seq::new(parts_of(data@.len() as int) as nat, |p: int| md4_digest(part_bytes(data@, p))),
        ),
{
    let ghost all = Seq::new(
        parts_of(data@.len() as int) as nat,
        |p: int| md4_digest(part_bytes(data@, p)),
    );
    let mut h = Ed2kHasher::new();
    let mut pos: usize = 0;
    let ghost mut p: int = 0;
    assert(digest_views(h.digests@) =~= all.take(0));
    while pos < data.len()
        invariant
            pos <= data@.len(),
            0 <= p <= all.len(),
            pos == p * PARTSIZE || pos == data@.len() && p == all.len(),
            all == Seq::new(
                parts_of(data@.len() as int) as nat,
                |p: int| md4_digest(part_bytes(data@, p)),
            ),
            digest_views(h.digests@) == all.take(p),
        decreases data@.len() - pos,
    {
        let left: usize = data.len() - pos;
        let len: usize = if (left as u64) < PARTSIZE {
            left
        } else {
            PARTSIZE as usize
        };
        let part = crate::wire::copy_range(data, pos, pos + len);
        proof {
            assert(part@ =~= part_bytes(data@, p));
            assert(p < all.len());
        }
        h.add_part(part.as_slice());
        proof {
            assert(digest_views(h.digests@) =~= all.take(p + 1));
            p = p + 1;
        }
        pos = pos + len;
    }
    assert(all.take(p) =~= all);
    h.finish(data.len() as u64)
}

/// Digests one behind the other keep their order: byte `k` of digest `p` stands at `16 * p + k`.
pub proof fn law_digests_stand_in_order(digests: Seq<Seq<u8>>, p: int, k: int)
    requires
        forall|i: int| 0 <= i < digests.len() ==> (#[trigger] digests[i]).len() == 16,
        0 <= p < digests.len(),
        0 <= k < 16,
    ensures
        concatenated(digests).len() == 16 * digests.len(),
        concatenated(digests)[16 * p + k] == digests[p][k],
    decreases digests.len(),
{
    let less = digests.drop_last();
    assert forall|i: int| 0 <= i < less.len() implies (#[trigger] less[i]).len() == 16 by {
        assert(less[i] == digests[i]);
    }
    assert(digests.last() == digests[digests.len() - 1]);
    lemma_concatenated_len(less);
    if p < less.len() {
        law_digests_stand_in_order(less, p, k);
    }
}

proof fn lemma_concatenated_len(digests: Seq<Seq<u8>>)
    requires
        forall|i: int| 0 <= i < digests.len() ==> (#[trigger] digests[i]).len() == 16,
    ensures
        concatenated(digests).len() == 16 * digests.len(),
    decreases digests.len(),
{
    if digests.len() > 0 {
        let less = digests.drop_last();
        assert forall|i: int| 0 <= i < less.len() implies (#[trigger] less[i]).len() == 16 by {
            assert(less[i] == digests[i]);
        }
        assert(digests.last() == digests[digests.len() - 1]);
        lemma_concatenated_len(less);
    }
}

/// The hash of a file of at least one full part is the MD4 of a list with one digest for every
/// full part and one more: that of the rest, which is empty where there is none. The hash of a
/// smaller file is the digest of its only part.
pub proof fn law_the_hash_lists_every_part(size: u64, digests: Seq<Seq<u8>>, list: Seq<Seq<u8>>)
    requires
        digests.len() * 9_728_000 >= size,
        digests.len() > 0 ==> (digests.len() - 1) * 9_728_000 < size,
        list.len() == size / 9_728_000 + 1,
        forall|p: int|
            0 <= p < list.len() ==> #[trigger] list[p] == (if p < digests.len() {
                digests[p]
            } else {
                md4_digest(Seq::empty())
            }),
    ensures
        file_hash(size as int, digests) == (if size < 9_728_000 {
            list[0]
        } else {
            md4_digest(concatenated(list))
        }),
{
    let n = digests.len();
    if size >= 9_728_000 {
        if size % 9_728_000 == 0 {
            assert(n == size / 9_728_000) by (nonlinear_arith)
                requires
                    n * 9_728_000 >= size,
                    (n - 1) * 9_728_000 < size,
                    size % 9_728_000 == 0,
            ;
            assert(list =~= digests.push(md4_digest(Seq::empty())));
        } else {
            assert(n == size / 9_728_000 + 1) by (nonlinear_arith)
                requires
                    n * 9_728_000 >= size,
                    (n - 1) * 9_728_000 < size,
                    size % 9_728_000 != 0,
            ;
            assert(list =~= digests);
        }
    } else {
        assert(n <= 1) by (nonlinear_arith)
            requires
                n > 0 ==> (n - 1) * 9_728_000 < size,
                size < 9_728_000,
        ;
    }
}

/// The hash of bytes, from the bytes alone: their MD4 where they are fewer than a part, else the
/// MD4 of the digests of all their parts, the last of which is what is left behind the full ones.
pub proof fn law_the_hash_of_bytes(data: Seq<u8>)
    requires
        data.len() <= u64::MAX,
    ensures
        file_hash(
            data.len() as int,
            Seq::new(parts_of(data.len() as int) as nat, |p: int| md4_digest(part_bytes(data, p))),
        ) == (if data.len() < 9_728_000 {
            md4_digest(data)
        } else {
            md4_digest(
                concatenated(
                    Seq::new(
                        data.len() / 9_728_000 + 1,
                        |p: int|
                            md4_digest(
                                data.subrange(
                                    p * 9_728_000,
                                    if p < data.len() / 9_728_000 {
                                        (p + 1) * 9_728_000
                                    } else {
                                        data.len() as int
                                    },
                                ),
                            ),
                    ),
                ),
            )
        }),
{
    let len = data.len() as int;
    let n = parts_of(len);
    let digests = Seq::new(n as nat, |p: int| md4_digest(part_bytes(data, p)));
    let list = Seq::new(
        data.len() / 9_728_000 + 1,
        |p: int|
            md4_digest(
                data.subrange(
                    p * 9_728_000,
                    if p < data.len() / 9_728_000 {
                        (p + 1) * 9_728_000
                    } else {
                        data.len() as int
                    },
                ),
            ),
    );
    assert(n * 9_728_000 >= len && (n > 0 ==> (n - 1) * 9_728_000 < len) && n >= 0);
    assert forall|p: int| 0 <= p < list.len() implies #[trigger] list[p] == (if p < digests.len() {
        digests[p]
    } else {
        md4_digest(Seq::empty())
    }) by {
        let full = len / 9_728_000;
        if p < full {
            assert((p + 1) * 9_728_000 <= len) by (nonlinear_arith)
                requires
                    p < len / 9_728_000,
            ;
        } else {
            assert(p == full);
            if p < n {
                assert(part_bytes(data, p) =~= data.subrange(p * 9_728_000, len));
            } else {
                assert(data.subrange(p * 9_728_000, len) =~= Seq::empty());
            }
        }
    }
    law_the_hash_lists_every_part(data.len() as u64, digests, list);
    if len < 9_728_000 {
        assert(data.subrange(0, len) =~= data);
    }
}

} // verus!
