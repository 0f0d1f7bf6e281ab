//! The in-progress download: which bytes are still needed, which blocks to ask for
//! next, and whether a finished part verifies.
//!
//! A gap is a range that is still needed, `[start, end)`, end exclusive. The gap list
//! of a [`PartFile`] is tidy: sorted, without empty gaps, and no two gaps touch. A
//! tidy list is determined by the bytes it covers, so every operation below is
//! specified by what it does to the set of missing bytes.
use vstd::prelude::*;
use vstd::set_lib::*;
use crate::hash;
use crate::hash::{md4, same_hash16};
use crate::proto::{EMBLOCKSIZE, PARTSIZE};

verus! {

/// A range of bytes still needed: `[start, end)`.
#[derive(Debug, Clone, Copy, PartialEq, Eq, Structural)]
pub struct Gap {
    pub start: u64,
    pub end: u64,
}

/// Byte `b` lies in gap `g`.
pub open spec fn gap_has(g: Gap, b: int) -> bool {
    g.start <= b < g.end
}

/// Byte `b` lies in some gap of the list.
pub open spec fn covers(gaps: Seq<Gap>, b: int) -> bool {
    exists|i: int| 0 <= i < gaps.len() && gap_has(#[trigger] gaps[i], b)
}

/// The list is sorted, has no empty gap, and no two of its gaps touch.
pub open spec fn tidy(gaps: Seq<Gap>) -> bool {
    &&& forall|i: int| 0 <= i < gaps.len() ==> (#[trigger] gaps[i]).start < gaps[i].end
    &&& forall|i: int, j: int|
        0 <= i < j < gaps.len() ==> (#[trigger] gaps[i]).end < (#[trigger] gaps[j]).start
}

/// Some gap of the list reaches into `[start, end)`.
pub open spec fn overlaps(gaps: Seq<Gap>, start: int, end: int) -> bool {
    exists|i: int| 0 <= i < gaps.len() && (#[trigger] gaps[i]).start < end && gaps[i].end > start
}

/// The bytes of a gap list, as a set.
pub open spec fn byte_set(gaps: Seq<Gap>) -> Set<int> {
    Set::new(|b: int| covers(gaps, b))
}

/// The offset at which part `part` begins.
pub open spec fn part_start(part: int) -> int {
    part * PARTSIZE
}

/// The offset just behind part `part` of a file of `size` bytes.
pub open spec fn part_end(part: int, size: int) -> int {
    if size - part * PARTSIZE < PARTSIZE {
        size
    } else {
        (part + 1) * PARTSIZE
    }
}

/// The number of parts that hold data.
pub open spec fn data_parts(size: int) -> int {
    (size + PARTSIZE - 1) / PARTSIZE as int
}

/// Number of parts that actually hold data: `ceil(size / PARTSIZE)`.
///
/// This is not the hashset's part count, which is one larger for exact multiples.
pub fn data_part_count(size: u64) -> (n: u64)
    ensures
        n == data_parts(size as int),
        forall|p: int| 0 <= p < n <==> 0 <= p && #[trigger] part_start(p) < size,
{
    let n: u64 = if size % PARTSIZE == 0 {
        size / PARTSIZE
    } else {
        size / PARTSIZE + 1
    };
    n
}

/// Size of part `part`, which is short for the final part unless the file is an
/// exact multiple of PARTSIZE.
pub fn part_size(part: u64, size: u64) -> (n: u64)
    requires
        part_start(part as int) <= size,
    ensures
        n == part_end(part as int, size as int) - part_start(part as int),
        n <= PARTSIZE,
        n > 0 <==> part < data_parts(size as int),
{
    let start: u64 = part * PARTSIZE;
    if size - start < PARTSIZE {
        size - start
    } else {
        PARTSIZE
    }
}

/// Two tidy lists that cover the same bytes are the same list.
pub proof fn lemma_tidy_is_canonical(a: Seq<Gap>, b: Seq<Gap>)
    requires
        tidy(a),
        tidy(b),
        forall|x: int| covers(a, x) <==> covers(b, x),
    ensures
        a == b,
    decreases a.len(),
{
    if a.len() == 0 {
        if b.len() > 0 {
            assert(gap_has(b[0], b[0].start as int));
            assert(covers(b, b[0].start as int));
        }
        assert(a =~= b);
    } else if b.len() == 0 {
        assert(gap_has(a[0], a[0].start as int));
        assert(covers(a, a[0].start as int));
        assert(false);
    } else {
        lemma_last_gap(a, b);
        lemma_last_gap(b, a);
        let (la, lb) = (a.last(), b.last());
        assert(la == lb);
        let (a1, b1) = (a.drop_last(), b.drop_last());
        assert forall|x: int| covers(a1, x) <==> covers(b1, x) by {
            lemma_covers_drop_last(a, x);
            lemma_covers_drop_last(b, x);
        }
        lemma_tidy_is_canonical(a1, b1);
        assert(a =~= a1.push(la));
        assert(b =~= b1.push(lb));
    }
}

proof fn lemma_covers_drop_last(a: Seq<Gap>, x: int)
    requires
        tidy(a),
        a.len() > 0,
    ensures
        covers(a.drop_last(), x) <==> covers(a, x) && x < a.last().start,
        covers(a, x) <==> covers(a.drop_last(), x) || gap_has(a.last(), x),
        tidy(a.drop_last()),
{
    let a1 = a.drop_last();
    if covers(a1, x) {
        let i = choose|i: int| 0 <= i < a1.len() && gap_has(#[trigger] a1[i], x);
        assert(gap_has(a[i], x));
    }
    if covers(a, x) && x < a.last().start {
        let i = choose|i: int| 0 <= i < a.len() && gap_has(#[trigger] a[i], x);
        assert(gap_has(a1[i], x));
    }
    if gap_has(a.last(), x) {
        assert(gap_has(a[a.len() - 1], x));
    }
    if covers(a, x) && x >= a.last().start {
        let i = choose|i: int| 0 <= i < a.len() && gap_has(#[trigger] a[i], x);
        assert(i == a.len() - 1);
    }
}

/// The last gap of `a` reaches no further, and begins no later, than that of `b`.
proof fn lemma_last_gap(a: Seq<Gap>, b: Seq<Gap>)
    requires
        tidy(a),
        tidy(b),
        a.len() > 0,
        b.len() > 0,
        forall|x: int| covers(a, x) <==> covers(b, x),
    ensures
        a.last().end <= b.last().end,
        a.last().end == b.last().end ==> a.last().start >= b.last().start,
{
    let (la, lb) = (a.last(), b.last());
    assert(gap_has(a[a.len() - 1], la.end - 1));
    assert(covers(a, la.end - 1));
    assert(covers(b, la.end - 1));
    let i = choose|i: int| 0 <= i < b.len() && gap_has(#[trigger] b[i], la.end - 1);
    assert(b[i].end <= lb.end);
    if la.end == lb.end && la.start < lb.start {
        // The byte before `lb` is in `la`, but in no gap of `b`.
        assert(gap_has(a[a.len() - 1], lb.start - 1));
        assert(covers(a, lb.start - 1));
        let j = choose|j: int| 0 <= j < b.len() && gap_has(#[trigger] b[j], lb.start - 1);
        assert(false);
    }
}

/// The number of missing bytes in `[start, end)`.
pub open spec fn missing_within(gaps: Seq<Gap>, start: int, end: int) -> nat {
    Set::new(|b: int| start <= b < end && covers(gaps, b)).len()
}

proof fn lemma_covers_push(gaps: Seq<Gap>, g: Gap)
    ensures
        forall|b: int|
            #[trigger] covers(gaps.push(g), b) <==> covers(gaps, b) || gap_has(g, b),
{
    assert forall|b: int|
        #[trigger] covers(gaps.push(g), b) <==> covers(gaps, b) || gap_has(g, b) by {
        let more = gaps.push(g);
        if covers(gaps, b) {
            let i = choose|i: int| 0 <= i < gaps.len() && gap_has(#[trigger] gaps[i], b);
            assert(gap_has(more[i], b));
        }
        if gap_has(g, b) {
            assert(gap_has(more[gaps.len() as int], b));
        }
        if covers(more, b) {
            let i = choose|i: int| 0 <= i < more.len() && gap_has(#[trigger] more[i], b);
            if i < gaps.len() {
                assert(gap_has(gaps[i], b));
            }
        }
    }
}

/// The gaps before index `i + 1` are those before `i`, and the one at `i`.
proof fn lemma_take_next(gaps: Seq<Gap>, i: int)
    requires
        0 <= i < gaps.len(),
    ensures
        gaps.take(i + 1) == gaps.take(i).push(gaps[i]),
        forall|b: int|
            #[trigger] covers(gaps.take(i + 1), b) <==> covers(gaps.take(i), b) || gap_has(gaps[i], b),
{
    assert(gaps.take(i + 1) =~= gaps.take(i).push(gaps[i]));
    lemma_covers_push(gaps.take(i), gaps[i]);
}

proof fn lemma_missing_within_push(gaps: Seq<Gap>, g: Gap, start: int, end: int)
    requires
        tidy(gaps.push(g)),
        Set::new(|b: int| start <= b < end && covers(gaps, b)).finite(),
    ensures
        ({
            let lo = if start < g.start { g.start as int } else { start };
            let hi = if g.end < end { g.end as int } else { end };
            missing_within(gaps.push(g), start, end) == missing_within(gaps, start, end) + (if lo
                < hi {
                hi - lo
            } else {
                0
            })
        }),
        Set::new(|b: int| start <= b < end && covers(gaps.push(g), b)).finite(),
{
    let lo = if start < g.start { g.start as int } else { start };
    let hi = if g.end < end { g.end as int } else { end };
    let before = Set::new(|b: int| start <= b < end && covers(gaps, b));
    let after = Set::new(|b: int| start <= b < end && covers(gaps.push(g), b));
    lemma_covers_push(gaps, g);
    if lo < hi {
        let new = set_int_range(lo, hi);
        lemma_int_range(lo, hi);
        assert(after =~= before + new);
        assert forall|b: int| before.contains(b) implies !new.contains(b) by {
            let i = choose|i: int| 0 <= i < gaps.len() && gap_has(#[trigger] gaps[i], b);
            assert(gaps.push(g)[i] == gaps[i]);
            assert(gaps.push(g)[gaps.len() as int] == g);
        }
        assert(before.disjoint(new));
        lemma_set_disjoint_lens(before, new);
    } else {
        assert(after =~= before);
    }
}

/// The list with `[start, end)` added.
fn with_range(gaps: &Vec<Gap>, start: u64, end: u64) -> (out: Vec<Gap>)
    requires
        tidy(gaps@),
        start < end,
    ensures
        tidy(out@),
        forall|b: int| #[trigger] covers(out@, b) <==> covers(gaps@, b) || start <= b < end,
{
    let mut out: Vec<Gap> = Vec::new();
    let mut i: usize = 0;
    while i < gaps.len() && gaps[i].end < start
        invariant
            tidy(gaps@),
            i <= gaps.len(),
            out@ == gaps@.take(i as int),
            forall|j: int| 0 <= j < i ==> (#[trigger] gaps@[j]).end < start,
        decreases gaps.len() - i,
    {
        proof {
            lemma_take_next(gaps@, i as int);
        }
        out.push(gaps[i]);
        i = i + 1;
    }
    let ghost before: int = i as int;
    let mut lo: u64 = start;
    let mut hi: u64 = end;
    while i < gaps.len() && gaps[i].start <= hi
        invariant
            tidy(gaps@),
            0 <= before <= i <= gaps.len(),
            out@ == gaps@.take(before),
            forall|j: int| 0 <= j < before ==> (#[trigger] gaps@[j]).end < lo,
            before < gaps.len() ==> gaps@[before].end >= start,
            lo <= start < end <= hi,
            forall|b: int|
                #![trigger covers(out@, b)]
                #![trigger covers(gaps@.take(i as int), b)]
                covers(gaps@.take(i as int), b) || start <= b < end <==> covers(out@, b) || lo <= b
                    < hi,
        decreases gaps.len() - i,
    {
        let g = gaps[i];
        proof {
            lemma_take_next(gaps@, i as int);
            assert(g.end >= start);
        }
        if g.start < lo {
            lo = g.start;
        }
        if g.end > hi {
            hi = g.end;
        }
        i = i + 1;
    }
    proof {
        lemma_covers_push(out@, Gap { start: lo, end: hi });
    }
    out.push(Gap { start: lo, end: hi });
    while i < gaps.len()
        invariant
            tidy(gaps@),
            i <= gaps.len(),
            out.len() > 0,
            tidy(out@),
            i < gaps.len() ==> out@.last().end < gaps@[i as int].start,
            forall|b: int|
                #![trigger covers(out@, b)]
                #![trigger covers(gaps@.take(i as int), b)]
                covers(gaps@.take(i as int), b) || start <= b < end <==> covers(out@, b),
        decreases gaps.len() - i,
    {
        proof {
            lemma_take_next(gaps@, i as int);
            lemma_covers_push(out@, gaps@[i as int]);
        }
        out.push(gaps[i]);
        i = i + 1;
    }
    assert(gaps@.take(i as int) =~= gaps@);
    out
}

/// The list without `[start, end)`.
fn without_range(gaps: &Vec<Gap>, start: u64, end: u64) -> (out: Vec<Gap>)
    requires
        tidy(gaps@),
        start < end,
    ensures
        tidy(out@),
        forall|b: int| #[trigger] covers(out@, b) <==> covers(gaps@, b) && !(start <= b < end),
{
    let mut out: Vec<Gap> = Vec::new();
    let mut i: usize = 0;
    while i < gaps.len()
        invariant
            tidy(gaps@),
            start < end,
            i <= gaps.len(),
            tidy(out@),
            out.len() > 0 ==> i > 0 && out@.last().end <= gaps@[i - 1].end,
            forall|b: int|
                #![trigger covers(out@, b)]
                #![trigger covers(gaps@.take(i as int), b)]
                covers(out@, b) <==> covers(gaps@.take(i as int), b) && !(start <= b < end),
        decreases gaps.len() - i,
    {
        let g = gaps[i];
        proof {
            lemma_take_next(gaps@, i as int);
        }
        if g.end <= start || g.start >= end {
            proof {
                lemma_covers_push(out@, g);
            }
            out.push(g);
        } else {
            if g.start < start {
                proof {
                    lemma_covers_push(out@, Gap { start: g.start, end: start });
                }
                out.push(Gap { start: g.start, end: start });
            }
            if g.end > end {
                proof {
                    lemma_covers_push(out@, Gap { start: end, end: g.end });
                }
                out.push(Gap { start: end, end: g.end });
            }
        }
        i = i + 1;
    }
    assert(gaps@.take(i as int) =~= gaps@);
    out
}

/// The tidy list of the bytes that `gaps` covers, in whatever order and however
/// overlapping its gaps are.
fn normalize(gaps: &Vec<Gap>) -> (out: Vec<Gap>)
    ensures
        tidy(out@),
        forall|b: int| #[trigger] covers(out@, b) <==> covers(gaps@, b),
{
    let mut out: Vec<Gap> = Vec::new();
    let mut i: usize = 0;
    while i < gaps.len()
        invariant
            i <= gaps.len(),
            tidy(out@),
            forall|b: int|
                #![trigger covers(out@, b)]
                #![trigger covers(gaps@.take(i as int), b)]
                covers(out@, b) <==> covers(gaps@.take(i as int), b),
        decreases gaps.len() - i,
    {
        proof {
            lemma_take_next(gaps@, i as int);
        }
        let g = gaps[i];
        if g.start < g.end {
            out = with_range(&out, g.start, g.end);
        }
        i = i + 1;
    }
    assert(gaps@.take(i as int) =~= gaps@);
    out
}

/// `[start, end)` is a block of part `part`: a run of missing bytes inside one cell of
/// the part's `EMBLOCKSIZE` lattice, as long as the cell, the part and the missing bytes
/// allow.
pub open spec fn is_block(gaps: Seq<Gap>, part: int, size: int, start: int, end: int) -> bool {
    let from = part_start(part);
    &&& from <= start < end <= part_end(part, size)
    &&& (start - from) / (EMBLOCKSIZE as int) == (end - 1 - from) / (EMBLOCKSIZE as int)
    &&& forall|b: int| start <= b < end ==> covers(gaps, b)
    &&& (start - from) % (EMBLOCKSIZE as int) == 0 || !covers(gaps, start - 1)
    &&& (end - from) % (EMBLOCKSIZE as int) == 0 || end == part_end(part, size) || !covers(
        gaps,
        end,
    )
}

/// No range of `reserved` reaches into `[start, end)`.
pub open spec fn is_free(reserved: Seq<(u64, u64)>, start: int, end: int) -> bool {
    forall|i: int|
        0 <= i < reserved.len() ==> !((#[trigger] reserved[i]).0 < end && reserved[i].1 > start)
}

/// Two blocks of a part either are the same or do not overlap.
proof fn lemma_block_unique(
    gaps: Seq<Gap>,
    part: int,
    size: int,
    s1: int,
    e1: int,
    s2: int,
    e2: int,
)
    requires
        is_block(gaps, part, size, s1, e1),
        is_block(gaps, part, size, s2, e2),
        s1 <= s2 < e1,
    ensures
        s1 == s2,
        e1 == e2,
{
    let from = part_start(part);
    let c = (s1 - from) / (EMBLOCKSIZE as int);
    if s1 < s2 {
        assert(covers(gaps, s2 - 1));
        assert((s2 - from) % (EMBLOCKSIZE as int) == 0);
        assert((s2 - 1 - from) / (EMBLOCKSIZE as int) == c);
        assert(false);
    }
    if e1 < e2 {
        assert(covers(gaps, e1));
        assert(false);
    }
    if e2 < e1 {
        assert(covers(gaps, e2));
        assert(false);
    }
}

/// A block lies in its part.
proof fn lemma_part_of_block(gaps: Seq<Gap>, part: int, size: int, s: int, e: int)
    requires
        is_block(gaps, part, size, s, e),
        0 <= part,
    ensures
        part_of(s) == part,
        part_of(e - 1) == part,
{
}

/// Every missing byte of a part lies in one of its blocks.
proof fn lemma_block_around(gaps: Seq<Gap>, part: int, size: int, b: int)
    requires
        0 <= b < size,
        part == part_of(b),
        covers(gaps, b),
    ensures
        exists|s: int, e: int| #[trigger] is_block(gaps, part, size, s, e) && s <= b < e,
{
    let from = part_start(part);
    assert(from <= b < part_end(part, size));
    let s = run_start(gaps, from, b);
    let e = run_end(gaps, from, part_end(part, size), b);
    lemma_run_start(gaps, from, b);
    lemma_run_end(gaps, from, part_end(part, size), b);
    assert forall|x: int| s <= x < e implies covers(gaps, x) by {
        if x > b {
            assert(covers(gaps, x));
        } else {
            assert(covers(gaps, x));
        }
    }
    assert(is_block(gaps, part, size, s, e));
}

/// Where the run of missing bytes of one cell that holds `b` begins.
spec fn run_start(gaps: Seq<Gap>, from: int, b: int) -> int
    decreases b - from,
{
    if b <= from || (b - from) % (EMBLOCKSIZE as int) == 0 || !covers(gaps, b - 1) {
        b
    } else {
        run_start(gaps, from, b - 1)
    }
}

proof fn lemma_run_start(gaps: Seq<Gap>, from: int, b: int)
    requires
        from <= b,
        covers(gaps, b),
    ensures
        from <= run_start(gaps, from, b) <= b,
        (run_start(gaps, from, b) - from) / (EMBLOCKSIZE as int) == (b - from) / (
        EMBLOCKSIZE as int),
        (run_start(gaps, from, b) - from) % (EMBLOCKSIZE as int) == 0 || !covers(
            gaps,
            run_start(gaps, from, b) - 1,
        ),
        forall|x: int| run_start(gaps, from, b) <= x <= b ==> covers(gaps, x),
    decreases b - from,
{
    if !(b <= from || (b - from) % (EMBLOCKSIZE as int) == 0 || !covers(gaps, b - 1)) {
        lemma_run_start(gaps, from, b - 1);
    }
}

/// Where the run of missing bytes of one cell that holds `b` ends.
spec fn run_end(gaps: Seq<Gap>, from: int, end: int, b: int) -> int
    decreases end - b,
{
    if b + 1 >= end || (b + 1 - from) % (EMBLOCKSIZE as int) == 0 || !covers(gaps, b + 1) {
        b + 1
    } else {
        run_end(gaps, from, end, b + 1)
    }
}

proof fn lemma_run_end(gaps: Seq<Gap>, from: int, end: int, b: int)
    requires
        from <= b < end,
        covers(gaps, b),
    ensures
        b < run_end(gaps, from, end, b) <= end,
        (run_end(gaps, from, end, b) - 1 - from) / (EMBLOCKSIZE as int) == (b - from) / (
        EMBLOCKSIZE as int),
        (run_end(gaps, from, end, b) - from) % (EMBLOCKSIZE as int) == 0 || run_end(
            gaps,
            from,
            end,
            b,
        ) == end || !covers(gaps, run_end(gaps, from, end, b)),
        forall|x: int| b <= x < run_end(gaps, from, end, b) ==> covers(gaps, x),
    decreases end - b,
{
    if !(b + 1 >= end || (b + 1 - from) % (EMBLOCKSIZE as int) == 0 || !covers(gaps, b + 1)) {
        lemma_run_end(gaps, from, end, b + 1);
    }
}

/// The list without part `part`.
pub open spec fn without_part(parts: Seq<u64>, part: u64) -> Seq<u64> {
    parts.filter(|p: u64| p != part)
}

/// Whether `v` holds `x`.
pub fn contains_u64(v: &[u64], x: u64) -> (found: bool)
    ensures
        found == v@.contains(x),
{
    let mut i: usize = 0;
    while i < v.len()
        invariant
            i <= v@.len(),
            forall|j: int| 0 <= j < i ==> v@[j] != x,
        decreases v@.len() - i,
    {
        if v[i] == x {
            assert(v@[i as int] == x);
            return true;
        }
        i = i + 1;
    }
    false
}

/// A download in progress.
#[derive(Debug, Clone)]
pub struct PartFile {
    pub hash: [u8; 16],
    pub size: u64,
    /// Per-part MD4s of the hashset. Empty until it arrives; a single-part file never
    /// needs one.
    pub part_hashes: Vec<[u8; 16]>,
    /// Ranges still missing, tidy.
    pub gaps: Vec<Gap>,
    /// Parts that failed verification. A part is verified iff it is gap-complete and not
    /// in this list.
    pub corrupted: Vec<u64>,
}

impl PartFile {
    /// The gap list.
    #[verifier::inline]
    pub open spec fn gap_list(&self) -> Seq<Gap> {
        self.gaps@
    }

    /// The parts that failed verification, in the order in which they did.
    #[verifier::inline]
    pub open spec fn bad_parts(&self) -> Seq<u64> {
        self.corrupted@
    }

    /// The gap list is tidy.
    pub open spec fn wf(&self) -> bool {
        tidy(self.gap_list())
    }

    /// Byte `b` is still missing.
    #[verifier::inline]
    pub open spec fn needs(&self, b: int) -> bool {
        covers(self.gap_list(), b)
    }

    /// All that a change of the missing bytes leaves as it is.
    pub open spec fn same_file(&self, other: &PartFile) -> bool {
        &&& self.hash == other.hash
        &&& self.size == other.size
        &&& self.part_hashes@ == other.part_hashes@
    }

    /// This is `before` with `[start, end)` received.
    pub open spec fn received(&self, before: &PartFile, start: int, end: int) -> bool {
        &&& self.wf()
        &&& self.same_file(before)
        &&& self.bad_parts() == before.bad_parts()
        &&& forall|b: int| #[trigger]
            self.needs(b) <==> before.needs(b) && !(start <= b < end)
    }

    /// This is `before` with `[start, end)` missing again.
    pub open spec fn reopened(&self, before: &PartFile, start: int, end: int) -> bool {
        &&& self.wf()
        &&& self.same_file(before)
        &&& forall|b: int| #[trigger] self.needs(b) <==> before.needs(b) || start <= b < end
    }

    /// A fresh download: one gap covering the whole file.
    pub fn new(hash: [u8; 16], size: u64) -> (pf: PartFile)
        ensures
            pf.wf(),
            pf.hash == hash,
            pf.size == size,
            pf.part_hashes@ == Seq::<[u8; 16]>::empty(),
            pf.bad_parts() == Seq::<u64>::empty(),
            forall|b: int| pf.needs(b) <==> 0 <= b < size,
    {
        let mut gaps: Vec<Gap> = Vec::new();
        if size > 0 {
            proof {
                lemma_covers_push(gaps@, Gap { start: 0, end: size });
            }
            gaps.push(Gap { start: 0, end: size });
        }
        PartFile { hash, size, part_hashes: Vec::new(), gaps, corrupted: Vec::new() }
    }

    /// Resume a download from a stored gap list, which may be untidy.
    pub fn resume(hash: [u8; 16], size: u64, gaps: Vec<Gap>, corrupted: Vec<u64>) -> (pf: PartFile)
        ensures
            pf.wf(),
            pf.hash == hash,
            pf.size == size,
            pf.part_hashes@ == Seq::<[u8; 16]>::empty(),
            pf.bad_parts() == corrupted@,
            forall|b: int| pf.needs(b) <==> covers(gaps@, b),
    {
        let tidied = normalize(&gaps);
        PartFile { hash, size, part_hashes: Vec::new(), gaps: tidied, corrupted }
    }

    /// The ranges still missing.
    pub fn gaps(&self) -> (gaps: &[Gap])
        ensures
            gaps@ == self.gap_list(),
    {
        self.gaps.as_slice()
    }

    /// The parts that failed verification.
    pub fn corrupted(&self) -> (parts: &[u64])
        ensures
            parts@ == self.bad_parts(),
    {
        self.corrupted.as_slice()
    }

    /// Bytes still missing.
    pub fn missing(&self) -> (n: u64)
        requires
            self.wf(),
        ensures
            n == byte_set(self.gap_list()).len(),
            n == 0 <==> self.gap_list().len() == 0,
    {
        let ghost gaps = self.gaps@;
        let mut sum: u64 = 0;
        let mut i: usize = 0;
        let ghost top: int = 0x1_0000_0000_0000_0000;
        proof {
            assert(Set::new(|b: int| 0 <= b < top && covers(gaps.take(0), b)) =~= Set::empty());
        }
        while i < self.gaps.len()
            invariant
                gaps == self.gaps@,
                tidy(gaps),
                i <= gaps.len(),
                top == 0x1_0000_0000_0000_0000,
                sum == missing_within(gaps.take(i as int), 0, top),
                Set::new(|b: int| 0 <= b < top && covers(gaps.take(i as int), b)).finite(),
                i == 0 ==> sum == 0,
                i > 0 ==> 0 < sum <= gaps[i - 1].end,
            decreases self.gaps.len() - i,
        {
            let g = self.gaps[i];
            proof {
                lemma_take_next(gaps, i as int);
                lemma_missing_within_push(gaps.take(i as int), g, 0, top);
            }
            sum = sum + (g.end - g.start);
            i = i + 1;
        }
        proof {
            assert(gaps.take(i as int) =~= gaps);
            assert(Set::new(|b: int| 0 <= b < top && covers(gaps, b)) =~= byte_set(gaps));
        }
        sum
    }

    /// Bytes available contiguously from offset 0, up to the first gap: 0 when byte 0 is
    /// still missing, the full `size` when complete.
    pub fn contiguous_prefix(&self) -> (n: u64)
        requires
            self.wf(),
        ensures
            self.gap_list().len() == 0 ==> n == self.size,
            self.gap_list().len() > 0 ==> self.needs(n as int),
            forall|b: int| b < n ==> !self.needs(b),
    {
        if self.gaps.len() == 0 {
            self.size
        } else {
            assert(gap_has(self.gaps@[0], self.gaps@[0].start as int));
            self.gaps[0].start
        }
    }

    /// Every byte has arrived. (Verification is separate: see `verify_part`.)
    pub fn is_complete(&self) -> (done: bool)
        requires
            self.wf(),
        ensures
            done == (self.gap_list().len() == 0),
            done == (forall|b: int| !self.needs(b)),
    {
        let done: bool = self.gaps.len() == 0;
        proof {
            if !done {
                assert(gap_has(self.gaps@[0], self.gaps@[0].start as int));
                assert(self.needs(self.gaps@[0].start as int));
            }
        }
        done
    }

    /// All of part `part` has arrived.
    pub fn is_part_complete(&self, part: u64) -> (done: bool)
        requires
            part_start(part as int) <= self.size,
        ensures
            done == !overlaps(
                self.gap_list(),
                part_start(part as int),
                part_end(part as int, self.size as int),
            ),
            self.wf() && part < data_parts(self.size as int) ==> done == self.part_done(part as int),
    {
        let start: u64 = part * PARTSIZE;
        let end: u64 = start + part_size(part, self.size);
        let ghost gaps = self.gaps@;
        let mut i: usize = 0;
        while i < self.gaps.len()
            invariant
                gaps == self.gaps@,
                i <= gaps.len(),
                forall|j: int|
                    0 <= j < i ==> !((#[trigger] gaps[j]).start < end && gaps[j].end > start),
                start == part_start(part as int),
                end == part_end(part as int, self.size as int),
                start < end <==> part < data_parts(self.size as int),
            decreases self.gaps.len() - i,
        {
            let g = self.gaps[i];
            if g.start < end && g.end > start {
                proof {
                    assert(overlaps(gaps, start as int, end as int));
                    if self.wf() && start < end {
                        let b = if g.start < start { start as int } else { g.start as int };
                        assert(gap_has(gaps[i as int], b));
                        assert(self.needs(b));
                    }
                }
                return false;
            }
            i = i + 1;
        }
        true
    }

    /// No byte of part `part` is missing.
    pub open spec fn part_done(&self, part: int) -> bool {
        forall|b: int|
            part_start(part) <= b < part_end(part, self.size as int) ==> !#[trigger] self.needs(b)
    }

    /// Mark `[start, end)` as received, closing that much of the gap list.
    pub fn fill_gap(&mut self, start: u64, end: u64)
        requires
            old(self).wf(),
        ensures
            final(self).received(old(self), start as int, end as int),
    {
        if start >= end {
            return ;
        }
        self.gaps = without_range(&self.gaps, start, end);
    }

    /// Mark `[start, end)` as missing again.
    pub fn reopen_range(&mut self, start: u64, end: u64)
        requires
            old(self).wf(),
        ensures
            final(self).reopened(old(self), start as int, end as int),
            final(self).bad_parts() == old(self).bad_parts(),
    {
        if start >= end {
            return ;
        }
        self.gaps = with_range(&self.gaps, start, end);
    }

    /// Mark the whole file as missing again.
    pub fn reset_all_gaps(&mut self)
        ensures
            final(self).wf(),
            final(self).same_file(old(self)),
            final(self).bad_parts() == old(self).bad_parts(),
            forall|b: int| #[trigger] final(self).needs(b) <==> 0 <= b < old(self).size,
    {
        let fresh = PartFile::new(self.hash, self.size);
        self.gaps = fresh.gaps;
    }

    /// Re-open an entire part as missing, and remember that it went bad.
    pub fn mark_corrupt(&mut self, part: u64)
        requires
            old(self).wf(),
            part_start(part as int) <= old(self).size,
        ensures
            final(self).reopened(
                old(self),
                part_start(part as int),
                part_end(part as int, old(self).size as int),
            ),
            final(self).bad_parts() == (if old(self).bad_parts().contains(part) {
                old(self).bad_parts()
            } else {
                old(self).bad_parts().push(part)
            }),
    {
        let start: u64 = part * PARTSIZE;
        let end: u64 = start + part_size(part, self.size);
        self.reopen_range(start, end);
        if !contains_u64(self.corrupted.as_slice(), part) {
            self.corrupted.push(part);
        }
    }

    /// The hash against which part `part` is checked, where there is one: its own, or the
    /// file's where the hash of a single-part file is the hash of its only part. A file of
    /// exactly `PARTSIZE` has a hashset of two entries, so its part has a hash of its own.
    pub open spec fn expected_hash(&self, part: u64) -> Option<Seq<u8>> {
        if data_parts(self.size as int) > 1 || self.size == PARTSIZE {
            if part < self.part_hashes@.len() {
                Some(self.part_hashes@[part as int]@)
            } else {
                None
            }
        } else {
            Some(self.hash@)
        }
    }

    /// Check the digest of part `part`. `None` when there is no hash to check against yet.
    pub fn check_part_digest(&self, part: u64, digest: [u8; 16]) -> (ok: Option<bool>)
        ensures
            ok == (match self.expected_hash(part) {
                Some(h) => Some(digest@ == h),
                None => None,
            }),
    {
        let use_part_hash: bool = data_part_count(self.size) > 1 || self.size == PARTSIZE;
        if use_part_hash {
            if part < self.part_hashes.len() as u64 {
                Some(same_hash16(&digest, &self.part_hashes[part as usize]))
            } else {
                None
            }
        } else {
            Some(same_hash16(&digest, &self.hash))
        }
    }

    /// Verify a completed part's bytes against the hashset. `None` when there is no hash to
    /// check against yet.
    pub fn verify_part(&self, part: u64, data: &[u8]) -> (ok: Option<bool>)
        ensures
            ok == (match self.expected_hash(part) {
                Some(h) => Some(hash::md4_digest(data@) == h),
                None => None,
            }),
    {
        self.check_part_digest(part, md4(data))
    }

    /// Accept a verified part: clear it from the corrupted list.
    pub fn clear_corrupt(&mut self, part: u64)
        ensures
            final(self).same_file(old(self)),
            final(self).gap_list() == old(self).gap_list(),
            final(self).bad_parts() == without_part(old(self).bad_parts(), part),
    {
        let mut kept: Vec<u64> = Vec::new();
        let mut i: usize = 0;
        let ghost bad = self.corrupted@;
        proof {
            reveal_with_fuel(Seq::filter, 1);
            assert(bad.take(0) =~= Seq::<u64>::empty());
        }
        while i < self.corrupted.len()
            invariant
                bad == self.corrupted@,
                i <= bad.len(),
                kept@ == without_part(bad.take(i as int), part),
            decreases self.corrupted.len() - i,
        {
            proof {
                reveal(Seq::filter);
                assert(bad.take(i + 1).drop_last() =~= bad.take(i as int));
                assert(bad.take(i + 1).last() == bad[i as int]);
            }
            if self.corrupted[i] != part {
                kept.push(self.corrupted[i]);
            }
            i = i + 1;
        }
        assert(bad.take(i as int) =~= bad);
        self.corrupted = kept;
    }

    /// `[start, end)` is a block of part `part` that no range of `reserved` reaches into.
    pub open spec fn free_block(
        &self,
        part: int,
        reserved: Seq<(u64, u64)>,
        start: int,
        end: int,
    ) -> bool {
        &&& is_block(self.gap_list(), part, self.size as int, start, end)
        &&& is_free(reserved, start, end)
    }

    /// The next block to request from within `part`, skipping anything that overlaps a
    /// reserved range: the first free block.
    ///
    /// A block is bounded by both the gap and the lattice, so it can come back shorter than
    /// `EMBLOCKSIZE`.
    pub fn next_block_in_part(&self, part: u64, reserved: &[(u64, u64)]) -> (block: Option<
        (u64, u64),
    >)
        requires
            self.wf(),
            part_start(part as int) <= self.size,
        ensures
            match block {
                Some((s, e)) => {
                    &&& self.free_block(part as int, reserved@, s as int, e as int)
                    &&& forall|s2: int, e2: int| #[trigger]
                        self.free_block(part as int, reserved@, s2, e2) ==> s <= s2
                },
                None => forall|s2: int, e2: int|
                    !#[trigger] self.free_block(part as int, reserved@, s2, e2),
            },
    {
        let from: u64 = part * PARTSIZE;
        let to: u64 = from + part_size(part, self.size);
        let mut cursor: u64 = from;
        let ghost gaps = self.gaps@;
        let ghost size = self.size as int;
        while cursor < to
            invariant
                gaps == self.gaps@,
                size == self.size,
                tidy(gaps),
                from == part_start(part as int),
                to == part_end(part as int, size),
                from <= cursor <= to,
                cursor == to || (cursor - from) % (EMBLOCKSIZE as int) == 0 || !covers(
                    gaps,
                    cursor as int,
                ),
                forall|s2: int, e2: int| #[trigger]
                    self.free_block(part as int, reserved@, s2, e2) ==> s2 >= cursor,
            decreases to - cursor,
        {
            // The first gap that still intersects `[cursor, to)`.
            let mut i: usize = 0;
            while i < self.gaps.len() && !(self.gaps[i].start < to && self.gaps[i].end > cursor)
                invariant
                    gaps == self.gaps@,
                    i <= gaps.len(),
                    forall|j: int|
                        0 <= j < i ==> !((#[trigger] gaps[j]).start < to && gaps[j].end > cursor),
                decreases self.gaps.len() - i,
            {
                i = i + 1;
            }
            if i == self.gaps.len() {
                proof {
                    assert forall|s2: int, e2: int|
                        !#[trigger] self.free_block(part as int, reserved@, s2, e2) by {
                        if self.free_block(part as int, reserved@, s2, e2) {
                            assert(covers(gaps, s2));
                        }
                    }
                }
                return None;
            }
            let g = self.gaps[i];
            let start: u64 = if cursor > g.start {
                cursor
            } else {
                g.start
            };
            // Clamp to the end of this lattice cell, the gap, and the part.
            let mut len: u64 = EMBLOCKSIZE - (start - from) % EMBLOCKSIZE;
            if g.end - start < len {
                len = g.end - start;
            }
            if to - start < len {
                len = to - start;
            }
            let end: u64 = start + len;
            proof {
                self.lemma_block_found(part as int, i as int, cursor as int, start as int, end as int);
            }
            let mut free: bool = true;
            let mut k: usize = 0;
            while k < reserved.len()
                invariant
                    k <= reserved@.len(),
                    free == is_free(reserved@.take(k as int), start as int, end as int),
                decreases reserved@.len() - k,
            {
                let r = reserved[k];
                assert(reserved@.take(k + 1) =~= reserved@.take(k as int).push(r));
                if r.0 < end && r.1 > start {
                    free = false;
                    assert(reserved@.take(k + 1)[k as int] == r);
                }
                proof {
                    let more = reserved@.take(k + 1);
                    if is_free(more, start as int, end as int) {
                        assert forall|j: int| 0 <= j < k implies !((
                        #[trigger] reserved@.take(k as int)[j]).0 < end && reserved@.take(
                            k as int,
                        )[j].1 > start) by {
                            assert(more[j] == reserved@.take(k as int)[j]);
                        }
                    }
                }
                k = k + 1;
            }
            assert(reserved@.take(k as int) =~= reserved@);
            proof {
                assert forall|s2: int, e2: int| #[trigger]
                    self.free_block(part as int, reserved@, s2, e2) && s2 < end implies s2 == start
                    && e2 == end by {
                    assert(covers(gaps, s2));
                    if s2 < start {
                        let j = choose|j: int| 0 <= j < gaps.len() && gap_has(#[trigger] gaps[j], s2);
                        assert(false);
                    }
                    lemma_block_unique(
                        gaps,
                        part as int,
                        size,
                        start as int,
                        end as int,
                        s2,
                        e2,
                    );
                }
            }
            if free {
                assert(self.free_block(part as int, reserved@, start as int, end as int));
                return Some((start, end));
            }
            cursor = end;  // this block is spoken for; try the next one
        }
        proof {
            assert forall|s2: int, e2: int|
                !#[trigger] self.free_block(part as int, reserved@, s2, e2) by {}
        }
        None
    }

    proof fn lemma_block_found(&self, part: int, i: int, cursor: int, start: int, end: int)
        requires
            self.wf(),
            0 <= i < self.gaps@.len(),
            part_start(part) <= cursor < part_end(part, self.size as int),
            (cursor - part_start(part)) % (EMBLOCKSIZE as int) == 0 || !covers(self.gaps@, cursor),
            self.gaps@[i].start < part_end(part, self.size as int),
            self.gaps@[i].end > cursor,
            start == (if cursor > self.gaps@[i].start {
                cursor
            } else {
                self.gaps@[i].start as int
            }),
            ({
                let cell = EMBLOCKSIZE - (start - part_start(part)) % (EMBLOCKSIZE as int);
                let room = self.gaps@[i].end - start;
                let rest = part_end(part, self.size as int) - start;
                let len = if room < cell { room } else { cell };
                end - start == (if rest < len { rest } else { len })
            }),
        ensures
            is_block(self.gaps@, part, self.size as int, start, end),
            cursor < end <= part_end(part, self.size as int),
            end == part_end(part, self.size as int) || (end - part_start(part)) % (
            EMBLOCKSIZE as int) == 0 || !covers(self.gaps@, end),
    {
        let gaps = self.gaps@;
        let g = gaps[i];
        let from = part_start(part);
        let off = start - from;
        let n = EMBLOCKSIZE as int;
        assert forall|b: int| start <= b < end implies covers(gaps, b) by {
            assert(gap_has(gaps[i], b));
        }
        if start == cursor {
            assert(covers(gaps, cursor));
        } else {
            if covers(gaps, start - 1) {
                let j = choose|j: int| 0 <= j < gaps.len() && gap_has(#[trigger] gaps[j], start - 1);
                assert(j != i);
                assert(false);
            }
        }
        if end == g.end && covers(gaps, end) {
            let j = choose|j: int| 0 <= j < gaps.len() && gap_has(#[trigger] gaps[j], end);
            assert(false);
        }
        assert(end - start <= n - off % n);
        assert((off + (n - off % n)) % n == 0);
        assert((end - 1 - from) / n == off / n) by {
            let k = end - 1 - start;
            assert(0 <= k < n - off % n);
        }
    }

    /// Bytes still missing from `part`.
    pub fn part_missing(&self, part: u64) -> (n: u64)
        requires
            self.wf(),
            part_start(part as int) <= self.size,
        ensures
            n == self.missing_of(part as int),
            n <= PARTSIZE,
    {
        let start: u64 = part * PARTSIZE;
        let end: u64 = start + part_size(part, self.size);
        let ghost gaps = self.gaps@;
        let mut sum: u64 = 0;
        let mut i: usize = 0;
        proof {
            assert(Set::new(|b: int| start <= b < end && covers(gaps.take(0), b)) =~= Set::empty());
        }
        while i < self.gaps.len()
            invariant
                gaps == self.gaps@,
                tidy(gaps),
                start <= end <= start + PARTSIZE,
                i <= gaps.len(),
                sum == missing_within(gaps.take(i as int), start as int, end as int),
                Set::new(|b: int| start <= b < end && covers(gaps.take(i as int), b)).finite(),
                sum <= end - start,
            decreases self.gaps.len() - i,
        {
            let g = self.gaps[i];
            proof {
                lemma_take_next(gaps, i as int);
                lemma_missing_within_push(gaps.take(i as int), g, start as int, end as int);
                lemma_missing_within_bound(gaps.take(i + 1), start as int, end as int);
            }
            if g.start < end && g.end > start {
                let hi: u64 = if g.end < end {
                    g.end
                } else {
                    end
                };
                let lo: u64 = if g.start > start {
                    g.start
                } else {
                    start
                };
                sum = sum + (hi - lo);
            }
            i = i + 1;
        }
        assert(gaps.take(i as int) =~= gaps);
        sum
    }

    /// The number of missing bytes of part `part`.
    pub open spec fn missing_of(&self, part: int) -> nat {
        missing_within(self.gap_list(), part_start(part), part_end(part, self.size as int))
    }

    /// Part `p` goes before part `q`: by rank, then the one with fewer bytes missing, then
    /// the one nearer the start.
    pub open spec fn part_before(&self, rank: Seq<u64>, p: int, q: int) -> bool {
        ||| rank[p] < rank[q]
        ||| rank[p] == rank[q] && self.missing_of(p) < self.missing_of(q)
        ||| rank[p] == rank[q] && self.missing_of(p) == self.missing_of(q) && p < q
    }

    /// `parts` holds exactly the parts with missing bytes, in order.
    pub open spec fn is_part_order(&self, rank: Seq<u64>, parts: Seq<u64>) -> bool {
        &&& forall|i: int, j: int|
            0 <= i < j < parts.len() ==> self.part_before(
                rank,
                (#[trigger] parts[i]) as int,
                (#[trigger] parts[j]) as int,
            )
        &&& forall|p: u64| #[trigger]
            parts.contains(p) <==> p < data_parts(self.size as int) && !self.part_done(p as int)
    }

    /// The parts with missing bytes, ordered by `rank` first.
    fn ordered_parts(&self, rank: &Vec<u64>) -> (parts: Vec<u64>)
        requires
            self.wf(),
            rank.len() == data_parts(self.size as int),
        ensures
            self.is_part_order(rank@, parts@),
    {
        let n: u64 = data_part_count(self.size);
        let mut parts: Vec<u64> = Vec::new();
        let mut sizes: Vec<u64> = Vec::new();
        let mut p: u64 = 0;
        while p < n
            invariant
                self.wf(),
                n == data_parts(self.size as int),
                rank.len() == n,
                p <= n,
                sizes@.len() == parts@.len(),
                forall|i: int| 0 <= i < parts@.len() ==> (#[trigger] parts@[i]) < p,
                forall|i: int|
                    0 <= i < parts@.len() ==> #[trigger] sizes@[i] == self.missing_of(
                        parts@[i] as int,
                    ),
                forall|i: int, j: int|
                    0 <= i < j < parts.len() ==> self.part_before(
                        rank@,
                        (#[trigger] parts[i]) as int,
                        (#[trigger] parts[j]) as int,
                    ),
                forall|q: u64| #[trigger]
                    parts@.contains(q) <==> q < p && !self.part_done(q as int),
            decreases n - p,
        {
            if !self.is_part_complete(p) {
                let m: u64 = self.part_missing(p);
                let mut at: usize = 0;
                while at < parts.len() && (rank[parts[at] as usize] < rank[p as usize] || (
                rank[parts[at] as usize] == rank[p as usize] && sizes[at] <= m))
                    invariant
                        n == data_parts(self.size as int),
                        rank.len() == n,
                        p < n,
                        at <= parts@.len(),
                        sizes@.len() == parts@.len(),
                        m == self.missing_of(p as int),
                        forall|i: int| 0 <= i < parts@.len() ==> (#[trigger] parts@[i]) < p,
                        forall|i: int|
                            0 <= i < parts@.len() ==> #[trigger] sizes@[i] == self.missing_of(
                                parts@[i] as int,
                            ),
                        forall|i: int|
                            0 <= i < at ==> self.part_before(
                                rank@,
                                (#[trigger] parts@[i]) as int,
                                p as int,
                            ),
                    decreases parts@.len() - at,
                {
                    at = at + 1;
                }
                let ghost was = parts@;
                parts.insert(at, p);
                sizes.insert(at, m);
                proof {
                    assert(parts@ == was.insert(at as int, p));
                    assert forall|i: int, j: int| 0 <= i < j < parts@.len() implies self.part_before(
                        rank@,
                        (#[trigger] parts@[i]) as int,
                        (#[trigger] parts@[j]) as int,
                    ) by {
                        if at < was.len() {
                            assert(self.part_before(rank@, p as int, was[at as int] as int));
                        }
                        if i < at && j > at {
                            assert(was[j - 1] == parts@[j]);
                            assert(was[i] == parts@[i]);
                        }
                        if i == at && j > at {
                            assert(was[j - 1] == parts@[j]);
                            if j - 1 > at {
                                assert(self.part_before(
                                    rank@,
                                    was[at as int] as int,
                                    was[j - 1] as int,
                                ));
                            }
                        }
                        if i > at {
                            assert(was[j - 1] == parts@[j]);
                            assert(was[i - 1] == parts@[i]);
                        }
                        if j < at {
                            assert(was[j] == parts@[j]);
                        }
                        if j == at {
                            assert(was[i] == parts@[i]);
                        }
                    }
                    assert forall|q: u64| #[trigger]
                        parts@.contains(q) <==> q < p + 1 && !self.part_done(q as int) by {
                        if was.contains(q) {
                            let i = was.index_of(q);
                            if i < at {
                                assert(parts@[i] == q);
                            } else {
                                assert(parts@[i + 1] == q);
                            }
                        }
                        assert(parts@[at as int] == p);
                        if parts@.contains(q) {
                            let i = parts@.index_of(q);
                            if i < at {
                                assert(was[i] == q);
                            } else if i > at {
                                assert(was[i - 1] == q);
                            }
                        }
                    }
                    assert forall|i: int| 0 <= i < parts@.len() implies (#[trigger] parts@[i]) < p
                        + 1 by {
                        if i > at {
                            assert(was[i - 1] == parts@[i]);
                        } else if i < at {
                            assert(was[i] == parts@[i]);
                        }
                    }
                    assert forall|i: int| 0 <= i < parts@.len() implies #[trigger] sizes@[i]
                        == self.missing_of(parts@[i] as int) by {
                        if i > at {
                            assert(was[i - 1] == parts@[i]);
                        } else if i < at {
                            assert(was[i] == parts@[i]);
                        }
                    }
                }
            }
            p = p + 1;
        }
        parts
    }

    /// Parts that still have missing bytes, most-complete-first: a part goes before those
    /// with more bytes missing, and before later parts with as many.
    pub fn wanted_parts(&self) -> (parts: Vec<u64>)
        requires
            self.wf(),
        ensures
            self.is_part_order(
                Seq::new(data_parts(self.size as int) as nat, |p: int| 0u64),
                parts@,
            ),
    {
        let n: u64 = data_part_count(self.size);
        let mut rank: Vec<u64> = Vec::new();
        let mut p: u64 = 0;
        while p < n
            invariant
                p <= n,
                rank@ == Seq::new(p as nat, |p: int| 0u64),
            decreases n - p,
        {
            rank.push(0);
            p = p + 1;
        }
        self.ordered_parts(&rank)
    }

    /// `[start, end)` is a block of part `part`, which the source holds, and no range of
    /// `reserved` reaches into it.
    pub open spec fn on_offer(
        &self,
        held: Seq<bool>,
        reserved: Seq<(u64, u64)>,
        part: int,
        start: int,
        end: int,
    ) -> bool {
        &&& 0 <= part < data_parts(self.size as int)
        &&& held[part]
        &&& self.free_block(part, reserved, start, end)
    }

    /// Block `a` is asked for before block `b`: its part goes first, or it comes first in
    /// the same part.
    pub open spec fn block_before(&self, rank: Seq<u64>, a: int, b: int) -> bool {
        ||| self.part_before(rank, part_of(a), part_of(b))
        ||| part_of(a) == part_of(b) && a < b
    }

    /// `out` lists the first `max` blocks on offer, in the order in which they are asked
    /// for, or all of them where there are fewer.
    pub open spec fn is_first_blocks(
        &self,
        held: Seq<bool>,
        rank: Seq<u64>,
        reserved: Seq<(u64, u64)>,
        max: nat,
        out: Seq<(u64, u64)>,
    ) -> bool {
        &&& out.len() <= max
        &&& forall|i: int|
            0 <= i < out.len() ==> self.on_offer(
                held,
                reserved,
                part_of((#[trigger] out[i]).0 as int),
                out[i].0 as int,
                out[i].1 as int,
            )
        &&& forall|i: int, j: int|
            0 <= i < j < out.len() ==> self.block_before(
                rank,
                (#[trigger] out[i]).0 as int,
                (#[trigger] out[j]).0 as int,
            )
        &&& forall|p: int, s: int, e: int| #[trigger]
            self.on_offer(held, reserved, p, s, e) ==> {
                ||| listed(out, s, e)
                ||| out.len() == max && forall|i: int|
                    0 <= i < out.len() ==> self.block_before(rank, (#[trigger] out[i]).0 as int, s)
            }
    }

    /// What `out` holds while part `p`, at place `k` of `parts`, is being drained.
    spec fn draining(
        &self,
        held: Seq<bool>,
        rank: Seq<u64>,
        reserved: Seq<(u64, u64)>,
        parts: Seq<u64>,
        k: int,
        out: Seq<(u64, u64)>,
    ) -> bool {
        &&& forall|i: int|
            0 <= i < out.len() ==> {
                &&& self.on_offer(
                    held,
                    reserved,
                    part_of((#[trigger] out[i]).0 as int),
                    out[i].0 as int,
                    out[i].1 as int,
                )
                &&& exists|j: int|
                    0 <= j <= k && j < parts.len() && #[trigger] parts[j] == part_of(out[i].0 as int)
            }
        &&& forall|i: int, j: int|
            0 <= i < j < out.len() ==> self.block_before(
                rank,
                (#[trigger] out[i]).0 as int,
                (#[trigger] out[j]).0 as int,
            )
        // The parts before it are drained.
        &&& forall|j: int, s: int, e: int|
            0 <= j < k && j < parts.len() && #[trigger] self.on_offer(
                held,
                reserved,
                parts[j] as int,
                s,
                e,
            ) ==> listed(out, s, e)
        // Of this part, what is listed comes before what is not.
        &&& k < parts.len() ==> forall|s: int, e: int| #[trigger]
            self.on_offer(held, reserved, parts[k] as int, s, e) && !listed(out, s, e)
                ==> forall|i: int|
                0 <= i < out.len() && part_of((#[trigger] out[i]).0 as int) == parts[k]
                    ==> out[i].0 < s
    }

    /// A block on offer that is not listed does not overlap what is.
    proof fn lemma_unlisted_is_free(
        &self,
        held: Seq<bool>,
        reserved: Seq<(u64, u64)>,
        out: Seq<(u64, u64)>,
        p: int,
        s: int,
        e: int,
    )
        requires
            forall|i: int|
                0 <= i < out.len() ==> self.on_offer(
                    held,
                    reserved,
                    part_of((#[trigger] out[i]).0 as int),
                    out[i].0 as int,
                    out[i].1 as int,
                ),
            self.on_offer(held, reserved, p, s, e),
            !listed(out, s, e),
        ensures
            self.free_block(p, reserved + out, s, e),
    {
        let all = reserved + out;
        assert forall|i: int| 0 <= i < all.len() implies !((#[trigger] all[i]).0 < e && all[i].1
            > s) by {
            if i < reserved.len() {
                assert(all[i] == reserved[i]);
            } else {
                let b = out[i - reserved.len()];
                assert(all[i] == b);
                let q = part_of(b.0 as int);
                if b.0 < e && b.1 > s {
                    assert(q == p);
                    if b.0 <= s {
                        lemma_block_unique(
                            self.gap_list(),
                            p,
                            self.size as int,
                            b.0 as int,
                            b.1 as int,
                            s,
                            e,
                        );
                    } else {
                        lemma_block_unique(
                            self.gap_list(),
                            p,
                            self.size as int,
                            s,
                            e,
                            b.0 as int,
                            b.1 as int,
                        );
                    }
                    assert(listed(out, s, e));
                }
            }
        }
    }

    /// Listing the first free block of the part keeps what holds of `out`.
    proof fn lemma_draining_step(
        &self,
        held: Seq<bool>,
        rank: Seq<u64>,
        reserved: Seq<(u64, u64)>,
        parts: Seq<u64>,
        k: int,
        out: Seq<(u64, u64)>,
        b: (u64, u64),
    )
        requires
            self.is_part_order(rank, parts),
            self.draining(held, rank, reserved, parts, k, out),
            0 <= k < parts.len(),
            held[parts[k] as int],
            self.free_block(parts[k] as int, reserved + out, b.0 as int, b.1 as int),
            forall|s2: int, e2: int| #[trigger]
                self.free_block(parts[k] as int, reserved + out, s2, e2) ==> b.0 <= s2,
        ensures
            self.draining(held, rank, reserved, parts, k, out.push(b)),
    {
        let p = parts[k] as int;
        let next = out.push(b);
        let all = reserved + out;
        assert(parts.contains(parts[k]));
        assert(part_of(b.0 as int) == p);
        assert(is_free(reserved, b.0 as int, b.1 as int)) by {
            assert forall|i: int| 0 <= i < reserved.len() implies !((#[trigger] reserved[i]).0 < b.1
                && reserved[i].1 > b.0) by {
                assert(all[i] == reserved[i]);
            }
        }
        assert(self.on_offer(held, reserved, p, b.0 as int, b.1 as int));
        assert(!listed(out, b.0 as int, b.1 as int)) by {
            if listed(out, b.0 as int, b.1 as int) {
                let i = choose|i: int| 0 <= i < out.len() && (#[trigger] out[i]).0 == b.0 && out[i].1 == b.1;
                assert(all[reserved.len() + i] == out[i]);
            }
        }
        assert forall|i: int| 0 <= i < next.len() implies ({
            &&& self.on_offer(
                held,
                reserved,
                part_of((#[trigger] next[i]).0 as int),
                next[i].0 as int,
                next[i].1 as int,
            )
            &&& exists|j: int|
                0 <= j <= k && j < parts.len() && #[trigger] parts[j] == part_of(next[i].0 as int)
        }) by {
            if i < out.len() {
                assert(next[i] == out[i]);
            } else {
                assert(parts[k] == part_of(next[i].0 as int));
            }
        }
        assert forall|i: int, j: int| 0 <= i < j < next.len() implies self.block_before(
            rank,
            (#[trigger] next[i]).0 as int,
            (#[trigger] next[j]).0 as int,
        ) by {
            assert(next[i] == out[i]);
            if j < out.len() {
                assert(next[j] == out[j]);
            } else {
                let q = choose|q: int| 0 <= q <= k && q < parts.len() && #[trigger] parts[q] == part_of(out[i].0 as int);
                if q < k {
                    assert(self.part_before(rank, parts[q] as int, parts[k] as int));
                }
            }
        }
        assert forall|s: int, e: int|
            listed(out, s, e) implies #[trigger] listed(next, s, e) by {
            let i = choose|i: int| 0 <= i < out.len() && (#[trigger] out[i]).0 == s && out[i].1 == e;
            assert(next[i] == out[i]);
        }
        assert(listed(next, b.0 as int, b.1 as int)) by {
            assert(next[out.len() as int] == b);
        }
        assert forall|s: int, e: int| #[trigger]
            self.on_offer(held, reserved, parts[k] as int, s, e) && !listed(
                next,
                s,
                e,
            ) implies forall|i: int|
            0 <= i < next.len() && part_of((#[trigger] next[i]).0 as int) == parts[k] ==> next[i].0
                < s by {
            assert(!listed(out, s, e));
            self.lemma_unlisted_is_free(held, reserved, out, p, s, e);
            assert(self.free_block(p, all, s, e));
            if s == b.0 {
                lemma_block_unique(
                    self.gap_list(),
                    p,
                    self.size as int,
                    b.0 as int,
                    b.1 as int,
                    s,
                    e,
                );
            }
            assert forall|i: int|
                0 <= i < next.len() && part_of((#[trigger] next[i]).0 as int)
                    == parts[k] implies next[i].0 < s by {
                if i < out.len() {
                    assert(next[i] == out[i]);
                }
            }
        }
    }

    /// The first `max` blocks on offer from a source that holds the parts of `held`, parts
    /// of lower `rank` first.
    fn drain_parts(
        &self,
        held: &Vec<bool>,
        rank: &Vec<u64>,
        reserved: &[(u64, u64)],
        max: usize,
    ) -> (out: Vec<(u64, u64)>)
        requires
            self.wf(),
            held.len() == data_parts(self.size as int),
            rank.len() == data_parts(self.size as int),
        ensures
            self.is_first_blocks(held@, rank@, reserved@, max as nat, out@),
    {
        let parts = self.ordered_parts(rank);
        let mut taken: Vec<(u64, u64)> = vstd::slice::slice_to_vec(reserved);
        let mut out: Vec<(u64, u64)> = Vec::new();
        let mut k: usize = 0;
        while k < parts.len() && out.len() < max
            invariant
                self.wf(),
                held.len() == data_parts(self.size as int),
                self.is_part_order(rank@, parts@),
                k <= parts.len(),
                taken@ =~= reserved@ + out@,
                out.len() <= max,
                out.len() < max ==> self.draining(
                    held@,
                    rank@,
                    reserved@,
                    parts@,
                    k as int,
                    out@,
                ) && forall|i: int|
                    0 <= i < out@.len() && k < parts.len() ==> part_of((#[trigger] out@[i]).0 as int)
                        != parts@[k as int],
                out.len() == max ==> self.is_first_blocks(
                    held@,
                    rank@,
                    reserved@,
                    max as nat,
                    out@,
                ),
            decreases parts.len() - k,
        {
            let p: u64 = parts[k];
            assert(parts@.contains(parts@[k as int]));
            let ghost n = data_parts(self.size as int);
            assert(part_start(p as int) < self.size);
            if held[p as usize] {
                let mut more: bool = true;
                while more && out.len() < max
                    invariant
                        self.wf(),
                        self.is_part_order(rank@, parts@),
                        k < parts.len(),
                        p == parts@[k as int],
                        held@[p as int],
                        part_start(p as int) <= self.size,
                        taken@ =~= reserved@ + out@,
                        out.len() <= max,
                        self.draining(held@, rank@, reserved@, parts@, k as int, out@),
                        !more ==> forall|s: int, e: int| #[trigger]
                            self.on_offer(held@, reserved@, p as int, s, e) ==> listed(out@, s, e),
                    decreases max - out.len(), (if more { 1int } else { 0int }),
                {
                    match self.next_block_in_part(p, taken.as_slice()) {
                        Some(b) => {
                            proof {
                                self.lemma_draining_step(
                                    held@,
                                    rank@,
                                    reserved@,
                                    parts@,
                                    k as int,
                                    out@,
                                    b,
                                );
                            }
                            out.push(b);
                            taken.push(b);
                        },
                        None => {
                            proof {
                                assert forall|s: int, e: int| #[trigger]
                                    self.on_offer(held@, reserved@, p as int, s, e) implies listed(
                                    out@,
                                    s,
                                    e,
                                ) by {
                                    if !listed(out@, s, e) {
                                        self.lemma_unlisted_is_free(
                                            held@,
                                            reserved@,
                                            out@,
                                            p as int,
                                            s,
                                            e,
                                        );
                                    }
                                }
                            }
                            more = false;
                        },
                    }
                }
            }
            proof {
                if out.len() == max {
                    self.lemma_drained(held@, rank@, reserved@, parts@, k as int, max as nat, out@);
                } else {
                    self.lemma_next_part(held@, rank@, reserved@, parts@, k as int, out@);
                }
            }
            k = k + 1;
        }
        proof {
            if out.len() < max {
                assert forall|p: int, s: int, e: int| #[trigger]
                    self.on_offer(held@, reserved@, p, s, e) implies listed(out@, s, e) by {
                    self.lemma_offered_part_is_wanted(held@, rank@, reserved@, parts@, p, s, e);
                    let j = parts@.index_of(p as u64);
                    assert(self.on_offer(held@, reserved@, parts@[j] as int, s, e));
                }
            } else if max == 0 {
                assert(out@.len() == 0);
            }
        }
        out
    }

    proof fn lemma_offered_part_is_wanted(
        &self,
        held: Seq<bool>,
        rank: Seq<u64>,
        reserved: Seq<(u64, u64)>,
        parts: Seq<u64>,
        p: int,
        s: int,
        e: int,
    )
        requires
            self.is_part_order(rank, parts),
            self.on_offer(held, reserved, p, s, e),
        ensures
            part_of(s) == p,
            parts.contains(p as u64),
    {
        assert(self.needs(s));
        assert(!self.part_done(p));
        assert(parts.contains(p as u64));
    }

    /// With `max` blocks listed, they are the first ones.
    proof fn lemma_drained(
        &self,
        held: Seq<bool>,
        rank: Seq<u64>,
        reserved: Seq<(u64, u64)>,
        parts: Seq<u64>,
        k: int,
        max: nat,
        out: Seq<(u64, u64)>,
    )
        requires
            self.is_part_order(rank, parts),
            0 <= k < parts.len(),
            self.draining(held, rank, reserved, parts, k, out),
            out.len() == max,
        ensures
            self.is_first_blocks(held, rank, reserved, max, out),
    {
        assert forall|p: int, s: int, e: int| #[trigger]
            self.on_offer(held, reserved, p, s, e) && !listed(out, s, e) implies forall|i: int|
            0 <= i < out.len() ==> self.block_before(rank, (#[trigger] out[i]).0 as int, s) by {
            self.lemma_offered_part_is_wanted(held, rank, reserved, parts, p, s, e);
            let j = parts.index_of(p as u64);
            assert(self.on_offer(held, reserved, parts[j] as int, s, e));
            assert(j >= k);
            assert forall|i: int| 0 <= i < out.len() implies self.block_before(
                rank,
                (#[trigger] out[i]).0 as int,
                s,
            ) by {
                let q = choose|q: int| 0 <= q <= k && q < parts.len() && #[trigger] parts[q] == part_of(out[i].0 as int);
                if q < j {
                    assert(self.part_before(rank, parts[q] as int, parts[j] as int));
                }
            }
        }
    }

    /// A part that is drained is left behind.
    proof fn lemma_next_part(
        &self,
        held: Seq<bool>,
        rank: Seq<u64>,
        reserved: Seq<(u64, u64)>,
        parts: Seq<u64>,
        k: int,
        out: Seq<(u64, u64)>,
    )
        requires
            self.is_part_order(rank, parts),
            0 <= k < parts.len(),
            self.draining(held, rank, reserved, parts, k, out),
            forall|s: int, e: int| #[trigger]
                self.on_offer(held, reserved, parts[k] as int, s, e) ==> listed(out, s, e),
        ensures
            self.draining(held, rank, reserved, parts, k + 1, out),
            k + 1 < parts.len() ==> forall|i: int|
                0 <= i < out.len() ==> part_of((#[trigger] out[i]).0 as int) != parts[k + 1],
    {
        assert forall|i: int| 0 <= i < out.len() && k + 1 < parts.len() implies part_of(
            (#[trigger] out[i]).0 as int,
        ) != parts[k + 1] by {
            let q = choose|q: int| 0 <= q <= k && q < parts.len() && #[trigger] parts[q] == part_of(out[i].0 as int);
            assert(self.part_before(rank, parts[q] as int, parts[k + 1] as int));
        }
        assert forall|i: int| 0 <= i < out.len() implies exists|j: int|
            0 <= j <= k + 1 && j < parts.len() && #[trigger] parts[j] == part_of(
                (#[trigger] out[i]).0 as int,
            ) by {
            let q = choose|q: int| 0 <= q <= k && q < parts.len() && #[trigger] parts[q] == part_of(out[i].0 as int);
            assert(parts[q] == part_of(out[i].0 as int));
        }
    }

    /// Up to `max` blocks to request from a source that holds the parts of `held`.
    ///
    /// Parts are drained one after the other: rarest first by `rarity`, or, with `preview`,
    /// from the front. Ties go to the part with fewer bytes missing, then to the earlier
    /// one. In the `endgame` reserved ranges are offered again, so that several sources can
    /// race the final blocks.
    pub fn select_blocks(
        &self,
        held: &Vec<bool>,
        reserved: &[(u64, u64)],
        max: usize,
        rarity: &Vec<u32>,
        endgame: bool,
        preview: bool,
    ) -> (out: Vec<(u64, u64)>)
        requires
            self.wf(),
            held.len() == data_parts(self.size as int),
            rarity.len() == data_parts(self.size as int),
        ensures
            self.is_first_blocks(
                held@,
                part_ranks(rarity@, preview),
                respected(reserved@, endgame),
                max as nat,
                out@,
            ),
    {
        let mut rank: Vec<u64> = Vec::new();
        let mut p: usize = 0;
        while p < rarity.len()
            invariant
                p <= rarity.len(),
                rank@ =~= part_ranks(rarity@, preview).take(p as int),
            decreases rarity.len() - p,
        {
            if preview {
                rank.push(p as u64);
            } else {
                rank.push(rarity[p] as u64);
            }
            p = p + 1;
        }
        let none: [(u64, u64); 0] = [];
        if endgame {
            assert(none@ =~= Seq::<(u64, u64)>::empty());
            self.drain_parts(held, &rank, none.as_slice(), max)
        } else {
            self.drain_parts(held, &rank, reserved, max)
        }
    }

    /// Up to `max` blocks to request from a source that holds the parts for which
    /// `available` is true, where `rarity` says how many sources hold a part: see
    /// [`PartFile::select_blocks`]. Each is asked once for every part.
    pub fn next_blocks<A: Fn(u64) -> bool, R: Fn(u64) -> u32>(
        &self,
        available: &A,
        reserved: &[(u64, u64)],
        max: usize,
        rarity: &R,
        endgame: bool,
        preview: bool,
    ) -> (out: Vec<(u64, u64)>)
        requires
            self.wf(),
            forall|p: u64| p < data_parts(self.size as int) ==> call_requires(available, (p,)),
            forall|p: u64| p < data_parts(self.size as int) ==> call_requires(rarity, (p,)),
        ensures
            exists|held: Seq<bool>, counts: Seq<u32>|
                {
                    &&& held.len() == data_parts(self.size as int)
                    &&& counts.len() == data_parts(self.size as int)
                    &&& forall|p: u64|
                        p < held.len() ==> #[trigger] call_ensures(available, (p,), held[p as int])
                    &&& forall|p: u64|
                        p < counts.len() ==> #[trigger] call_ensures(rarity, (p,), counts[p as int])
                    &&& #[trigger] self.is_first_blocks(
                        held,
                        part_ranks(counts, preview),
                        respected(reserved@, endgame),
                        max as nat,
                        out@,
                    )
                },
    {
        let n: u64 = data_part_count(self.size);
        let mut held: Vec<bool> = Vec::new();
        let mut counts: Vec<u32> = Vec::new();
        let mut p: u64 = 0;
        while p < n
            invariant
                p <= n,
                n == data_parts(self.size as int),
                held@.len() == p,
                counts@.len() == p,
                forall|p: u64| p < n ==> call_requires(available, (p,)),
                forall|p: u64| p < n ==> call_requires(rarity, (p,)),
                forall|p: u64|
                    p < held@.len() ==> #[trigger] call_ensures(available, (p,), held@[p as int]),
                forall|p: u64|
                    p < counts@.len() ==> #[trigger] call_ensures(rarity, (p,), counts@[p as int]),
            decreases n - p,
        {
            held.push(available(p));
            counts.push(rarity(p));
            p = p + 1;
        }
        self.select_blocks(&held, reserved, max, &counts, endgame, preview)
    }

    /// The blocks handed out are pairwise disjoint, lie in one part and one lattice cell
    /// each, ask only for missing bytes of parts that the source holds, and keep off the
    /// reserved ranges.
    pub proof fn law_blocks_do_not_collide(
        &self,
        held: Seq<bool>,
        rank: Seq<u64>,
        reserved: Seq<(u64, u64)>,
        max: nat,
        out: Seq<(u64, u64)>,
    )
        requires
            self.wf(),
            self.is_first_blocks(held, rank, reserved, max, out),
        ensures
            forall|i: int|
                #![trigger out[i]]
                0 <= i < out.len() ==> {
                    &&& out[i].0 < out[i].1 <= out[i].0 + EMBLOCKSIZE
                    &&& out[i].1 <= self.size
                    &&& part_of(out[i].0 as int) == part_of(out[i].1 - 1)
                    &&& held[part_of(out[i].0 as int)]
                    &&& forall|b: int| out[i].0 <= b < out[i].1 ==> self.needs(b)
                    &&& is_free(reserved, out[i].0 as int, out[i].1 as int)
                },
            forall|i: int, j: int|
                0 <= i < j < out.len() ==> (#[trigger] out[i]).1 <= (#[trigger] out[j]).0 || out[j].1
                    <= out[i].0,
    {
        assert forall|i: int, j: int| 0 <= i < j < out.len() implies (#[trigger] out[i]).1 <= (
        #[trigger] out[j]).0 || out[j].1 <= out[i].0 by {
            let (a, b) = (out[i], out[j]);
            let (p, q) = (part_of(a.0 as int), part_of(b.0 as int));
            assert(self.block_before(rank, a.0 as int, b.0 as int));
            if p == q && a.1 > b.0 && b.1 > a.0 {
                lemma_block_unique(
                    self.gap_list(),
                    p,
                    self.size as int,
                    a.0 as int,
                    a.1 as int,
                    b.0 as int,
                    b.1 as int,
                );
            }
        }
    }

    /// Which blocks are asked for, and in which order, is decided: two lists that both are the
    /// first `max` blocks on offer are the same list.
    pub proof fn law_first_blocks_are_unique(
        &self,
        held: Seq<bool>,
        rank: Seq<u64>,
        reserved: Seq<(u64, u64)>,
        max: nat,
        a: Seq<(u64, u64)>,
        b: Seq<(u64, u64)>,
    )
        requires
            self.is_first_blocks(held, rank, reserved, max, a),
            self.is_first_blocks(held, rank, reserved, max, b),
        ensures
            a == b,
    {
        self.lemma_first_blocks_prefix(held, rank, reserved, max, a, b, a.len());
        self.lemma_first_blocks_prefix(held, rank, reserved, max, b, a, b.len());
        assert(a =~= b);
    }

    /// The first `k` blocks of one list are those of the other.
    proof fn lemma_first_blocks_prefix(
        &self,
        held: Seq<bool>,
        rank: Seq<u64>,
        reserved: Seq<(u64, u64)>,
        max: nat,
        a: Seq<(u64, u64)>,
        b: Seq<(u64, u64)>,
        k: nat,
    )
        requires
            self.is_first_blocks(held, rank, reserved, max, a),
            self.is_first_blocks(held, rank, reserved, max, b),
            k <= a.len(),
        ensures
            k <= b.len(),
            forall|i: int| 0 <= i < k ==> a[i] == b[i],
        decreases k,
    {
        if k > 0 {
            let m = k - 1;
            self.lemma_first_blocks_prefix(held, rank, reserved, max, a, b, m as nat);
            let x = a[m];
            let (s, e) = (x.0 as int, x.1 as int);
            assert(self.on_offer(held, reserved, part_of(s), s, e));
            if listed(b, s, e) {
                let j = choose|j: int| 0 <= j < b.len() && (#[trigger] b[j]).0 == s && b[j].1 == e;
                assert(b[j] == x);
                if j < m {
                    assert(self.block_before(rank, a[j].0 as int, a[m].0 as int));
                }
            }
            if m < b.len() {
                let y = b[m];
                let (t, f) = (y.0 as int, y.1 as int);
                assert(self.on_offer(held, reserved, part_of(t), t, f));
                if y != x {
                    assert(self.block_before(rank, t, s)) by {
                        if listed(b, s, e) {
                            let j = choose|j: int|
                                0 <= j < b.len() && (#[trigger] b[j]).0 == s && b[j].1 == e;
                            assert(b[j] == x);
                            assert(self.block_before(rank, b[m].0 as int, b[j].0 as int));
                        }
                    }
                    if listed(a, t, f) {
                        let i = choose|i: int|
                            0 <= i < a.len() && (#[trigger] a[i]).0 == t && a[i].1 == f;
                        assert(a[i] == y);
                        if i < m {
                            assert(self.block_before(rank, b[i].0 as int, b[m].0 as int));
                        } else {
                            assert(self.block_before(rank, a[m].0 as int, a[i].0 as int));
                        }
                    }
                    assert(false);
                }
            }
        }
    }

    /// Rarest first. Without a preview, a block of a part that fewer sources hold is asked for
    /// before any block of a part that more sources hold, and a block of the more common part
    /// is asked for only when no free block of the rarer one is left. Among parts that as many
    /// sources hold, the same goes for the one with fewer bytes missing, and where these are as
    /// many, for the earlier one. Inside a part the blocks come from the front.
    pub proof fn law_rarest_first(
        &self,
        held: Seq<bool>,
        rarity: Seq<u32>,
        reserved: Seq<(u64, u64)>,
        endgame: bool,
        max: nat,
        out: Seq<(u64, u64)>,
        p: int,
        q: int,
    )
        requires
            rarity.len() == data_parts(self.size as int),
            self.is_first_blocks(
                held,
                part_ranks(rarity, false),
                respected(reserved, endgame),
                max,
                out,
            ),
            0 <= p < rarity.len(),
            0 <= q < rarity.len(),
            ({
                let missing_p = Set::new(
                    |b: int| b / 9_728_000 == p && b < self.size && self.needs(b),
                ).len();
                let missing_q = Set::new(
                    |b: int| b / 9_728_000 == q && b < self.size && self.needs(b),
                ).len();
                ||| rarity[p] < rarity[q]
                ||| rarity[p] == rarity[q] && missing_p < missing_q
                ||| rarity[p] == rarity[q] && missing_p == missing_q && p < q
            }),
        ensures
            forall|i: int, j: int|
                0 <= i < out.len() && 0 <= j < out.len() && (#[trigger] out[i]).0 / 9_728_000 == p
                    && (#[trigger] out[j]).0 / 9_728_000 == q ==> i < j,
            forall|j: int, s: int, e: int|
                0 <= j < out.len() && (#[trigger] out[j]).0 / 9_728_000 == q && held[p]
                    && #[trigger] self.free_block(p, respected(reserved, endgame), s, e) ==> listed(
                    out,
                    s,
                    e,
                ),
            forall|i: int, j: int|
                0 <= i < j < out.len() && (#[trigger] out[i]).0 / 9_728_000 == p && (
                #[trigger] out[j]).0 / 9_728_000 == p ==> out[i].1 <= out[j].0,
    {
        let rank = part_ranks(rarity, false);
        let kept = respected(reserved, endgame);
        self.lemma_missing_of(p);
        self.lemma_missing_of(q);
        assert(self.part_before(rank, p, q));
        assert forall|i: int, j: int|
            0 <= i < out.len() && 0 <= j < out.len() && (#[trigger] out[i]).0 / 9_728_000 == p && (
            #[trigger] out[j]).0 / 9_728_000 == q implies i < j by {
            if j < i {
                assert(self.block_before(rank, out[j].0 as int, out[i].0 as int));
            }
        }
        assert forall|j: int, s: int, e: int|
            0 <= j < out.len() && (#[trigger] out[j]).0 / 9_728_000 == q && held[p]
                && #[trigger] self.free_block(p, kept, s, e) implies listed(out, s, e) by {
            assert(self.on_offer(held, kept, p, s, e));
            lemma_part_of_block(self.gap_list(), p, self.size as int, s, e);
            if !listed(out, s, e) {
                assert(self.block_before(rank, out[j].0 as int, s));
            }
        }
        assert forall|i: int, j: int|
            0 <= i < j < out.len() && (#[trigger] out[i]).0 / 9_728_000 == p && (
            #[trigger] out[j]).0 / 9_728_000 == p implies out[i].1 <= out[j].0 by {
            self.lemma_order_in_part(held, rank, kept, max, out, i, j);
        }
    }

    proof fn lemma_order_in_part(
        &self,
        held: Seq<bool>,
        rank: Seq<u64>,
        reserved: Seq<(u64, u64)>,
        max: nat,
        out: Seq<(u64, u64)>,
        i: int,
        j: int,
    )
        requires
            self.is_first_blocks(held, rank, reserved, max, out),
            0 <= i < j < out.len(),
            part_of(out[i].0 as int) == part_of(out[j].0 as int),
        ensures
            out[i].1 <= out[j].0,
    {
        let (a, b) = (out[i], out[j]);
        let p = part_of(a.0 as int);
        assert(self.block_before(rank, a.0 as int, b.0 as int));
        assert(self.on_offer(held, reserved, p, a.0 as int, a.1 as int));
        assert(self.on_offer(held, reserved, p, b.0 as int, b.1 as int));
        if a.1 > b.0 {
            lemma_block_unique(
                self.gap_list(),
                p,
                self.size as int,
                a.0 as int,
                a.1 as int,
                b.0 as int,
                b.1 as int,
            );
        }
    }

    /// The bytes missing of a part, counted by the part in which each lies.
    proof fn lemma_missing_of(&self, part: int)
        requires
            0 <= part < data_parts(self.size as int),
        ensures
            self.missing_of(part) == Set::new(
                |b: int| b / 9_728_000 == part && b < self.size && self.needs(b),
            ).len(),
    {
        assert(Set::new(
            |b: int|
                part_start(part) <= b < part_end(part, self.size as int) && covers(
                    self.gap_list(),
                    b,
                ),
        ) =~= Set::new(|b: int| b / 9_728_000 == part && b < self.size && self.needs(b)));
    }

    /// For a preview the file grows from the front: the blocks come in the order in which they
    /// stand in the file, whatever their rarity, and none is asked for while a free block before
    /// it, of a part that the source holds, is not.
    pub proof fn law_a_preview_goes_from_the_front(
        &self,
        held: Seq<bool>,
        rarity: Seq<u32>,
        reserved: Seq<(u64, u64)>,
        endgame: bool,
        max: nat,
        out: Seq<(u64, u64)>,
    )
        requires
            rarity.len() == data_parts(self.size as int),
            self.is_first_blocks(
                held,
                part_ranks(rarity, true),
                respected(reserved, endgame),
                max,
                out,
            ),
        ensures
            forall|i: int, j: int|
                0 <= i < j < out.len() ==> (#[trigger] out[i]).1 <= (#[trigger] out[j]).0,
            forall|j: int, p: int, s: int, e: int|
                0 <= j < out.len() && s < (#[trigger] out[j]).0 && 0 <= p < rarity.len() && held[p]
                    && #[trigger] self.free_block(p, respected(reserved, endgame), s, e) ==> listed(
                    out,
                    s,
                    e,
                ),
    {
        let rank = part_ranks(rarity, true);
        let kept = respected(reserved, endgame);
        let n = data_parts(self.size as int);
        assert(n <= u64::MAX) by {
            assert(n * 9_728_000 <= self.size + 9_728_000);
        }
        assert(forall|p: int| 0 <= p < n ==> #[trigger] rank[p] == p);
        assert forall|i: int, j: int| 0 <= i < j < out.len() implies (#[trigger] out[i]).1 <= (
        #[trigger] out[j]).0 by {
            let (a, b) = (out[i], out[j]);
            let (p, q) = (part_of(a.0 as int), part_of(b.0 as int));
            assert(self.block_before(rank, a.0 as int, b.0 as int));
            assert(self.on_offer(held, kept, p, a.0 as int, a.1 as int));
            assert(self.on_offer(held, kept, q, b.0 as int, b.1 as int));
            assert(rank[p] == p && rank[q] == q);
            if p == q {
                self.lemma_order_in_part(held, rank, kept, max, out, i, j);
            } else {
                assert(p < q);
                assert((p + 1) * 9_728_000 <= q * 9_728_000) by (nonlinear_arith)
                    requires
                        p < q,
                ;
            }
        }
        assert forall|j: int, p: int, s: int, e: int|
            0 <= j < out.len() && s < (#[trigger] out[j]).0 && 0 <= p < rarity.len() && held[p]
                && #[trigger] self.free_block(p, kept, s, e) implies listed(out, s, e) by {
            assert(self.on_offer(held, kept, p, s, e));
            lemma_part_of_block(self.gap_list(), p, self.size as int, s, e);
            if !listed(out, s, e) {
                assert(self.block_before(rank, out[j].0 as int, s));
                let q = part_of(out[j].0 as int);
                assert(self.on_offer(held, kept, q, out[j].0 as int, out[j].1 as int));
                assert(rank[p] == p && rank[q] == q);
            }
        }
    }

    /// Nothing that a source could give is passed over: where fewer blocks than `max` are asked
    /// for, every missing byte of a part that the source holds is asked for, unless a reserved
    /// range reaches into the `EMBLOCKSIZE` cell of the byte. In the endgame not even that keeps
    /// it off.
    pub proof fn law_nothing_is_passed_over(
        &self,
        held: Seq<bool>,
        rank: Seq<u64>,
        reserved: Seq<(u64, u64)>,
        endgame: bool,
        max: nat,
        out: Seq<(u64, u64)>,
        b: int,
    )
        requires
            self.is_first_blocks(held, rank, respected(reserved, endgame), max, out),
            out.len() < max,
            0 <= b < self.size,
            self.needs(b),
            held[b / 9_728_000],
            endgame || forall|i: int|
                0 <= i < reserved.len() ==> {
                    let cell = b - b % 9_728_000 % 184_320;
                    (#[trigger] reserved[i]).1 <= cell || reserved[i].0 >= cell + 184_320
                },
        ensures
            exists|i: int| 0 <= i < out.len() && (#[trigger] out[i]).0 <= b < out[i].1,
    {
        let p = part_of(b);
        let gaps = self.gap_list();
        let kept = respected(reserved, endgame);
        let size = self.size as int;
        lemma_block_around(gaps, p, size, b);
        let (s, e) = choose|s: int, e: int| #[trigger] is_block(gaps, p, size, s, e) && s <= b < e;
        let from = part_start(p);
        let cell = b - b % 9_728_000 % 184_320;
        assert(cell <= s && e <= cell + 184_320) by {
            assert(b % 9_728_000 == b - from);
            assert((s - from) / 184_320 == (b - from) / 184_320);
            assert((e - 1 - from) / 184_320 == (b - from) / 184_320);
        }
        assert(is_free(kept, s, e));
        assert(self.on_offer(held, kept, p, s, e));
        assert(listed(out, s, e));
        let i = choose|i: int| 0 <= i < out.len() && (#[trigger] out[i]).0 == s && out[i].1 == e;
        assert(out[i].0 <= b < out[i].1);
    }

    /// What is reserved is kept off, but in the endgame, in which it makes no difference at all.
    pub proof fn law_reserved_ranges_are_kept_off(
        &self,
        held: Seq<bool>,
        rank: Seq<u64>,
        reserved: Seq<(u64, u64)>,
        max: nat,
        out: Seq<(u64, u64)>,
        raced: Seq<(u64, u64)>,
        free: Seq<(u64, u64)>,
    )
        requires
            self.is_first_blocks(held, rank, respected(reserved, false), max, out),
            self.is_first_blocks(held, rank, respected(reserved, true), max, raced),
            self.is_first_blocks(held, rank, respected(Seq::empty(), false), max, free),
        ensures
            forall|i: int, k: int|
                0 <= i < out.len() && 0 <= k < reserved.len() ==> (#[trigger] out[i]).1 <= (
                #[trigger] reserved[k]).0 || reserved[k].1 <= out[i].0,
            raced == free,
    {
        assert forall|i: int, k: int| 0 <= i < out.len() && 0 <= k < reserved.len() implies (
        #[trigger] out[i]).1 <= (#[trigger] reserved[k]).0 || reserved[k].1 <= out[i].0 by {
            assert(self.on_offer(
                held,
                reserved,
                part_of(out[i].0 as int),
                out[i].0 as int,
                out[i].1 as int,
            ));
        }
        self.law_first_blocks_are_unique(held, rank, Seq::empty(), max, raced, free);
    }

    /// A source that holds no part is asked for nothing, and of a complete file nothing is
    /// asked.
    pub proof fn law_nothing_to_ask(
        &self,
        held: Seq<bool>,
        rank: Seq<u64>,
        reserved: Seq<(u64, u64)>,
        max: nat,
        out: Seq<(u64, u64)>,
    )
        requires
            self.is_first_blocks(held, rank, reserved, max, out),
            (forall|p: int| 0 <= p < data_parts(self.size as int) ==> !#[trigger] held[p])
                || self.gap_list().len() == 0,
        ensures
            out.len() == 0,
    {
        if out.len() > 0 {
            let b = out[0];
            assert(self.on_offer(held, reserved, part_of(b.0 as int), b.0 as int, b.1 as int));
            assert(self.needs(b.0 as int));
        }
    }

    /// Receiving the same range twice is receiving it once.
    pub proof fn law_fill_twice(
        before: &PartFile,
        once: &PartFile,
        twice: &PartFile,
        start: int,
        end: int,
    )
        requires
            once.received(before, start, end),
            twice.received(once, start, end),
        ensures
            twice.gap_list() == once.gap_list(),
    {
        lemma_tidy_is_canonical(twice.gap_list(), once.gap_list());
    }

    /// The order in which two ranges arrive does not matter.
    pub proof fn law_fill_order(
        before: &PartFile,
        a: &PartFile,
        ab: &PartFile,
        b: &PartFile,
        ba: &PartFile,
        s1: int,
        e1: int,
        s2: int,
        e2: int,
    )
        requires
            a.received(before, s1, e1),
            ab.received(a, s2, e2),
            b.received(before, s2, e2),
            ba.received(b, s1, e1),
        ensures
            ab.gap_list() == ba.gap_list(),
    {
        lemma_tidy_is_canonical(ab.gap_list(), ba.gap_list());
    }

    /// A range that was complete, went missing and arrived again leaves the gap list as it
    /// was.
    pub proof fn law_reopen_then_fill(
        before: &PartFile,
        reopened: &PartFile,
        filled: &PartFile,
        start: int,
        end: int,
    )
        requires
            before.wf(),
            forall|b: int| start <= b < end ==> !before.needs(b),
            reopened.reopened(before, start, end),
            filled.received(reopened, start, end),
        ensures
            filled.gap_list() == before.gap_list(),
    {
        lemma_tidy_is_canonical(filled.gap_list(), before.gap_list());
    }
}

/// The order of the parts: by rarity, or, for a preview, from the front.
pub open spec fn part_ranks(rarity: Seq<u32>, preview: bool) -> Seq<u64> {
    Seq::new(
        rarity.len(),
        |p: int|
            if preview {
                p as u64
            } else {
                rarity[p] as u64
            },
    )
}

/// The reserved ranges that are kept off: none in the endgame.
pub open spec fn respected(reserved: Seq<(u64, u64)>, endgame: bool) -> Seq<(u64, u64)> {
    if endgame {
        Seq::empty()
    } else {
        reserved
    }
}

/// The sizes of the first `n` parts of a file of `size` bytes, in all.
pub open spec fn total_size(n: nat, size: int) -> int
    decreases n,
{
    if n == 0 {
        0
    } else {
        total_size((n - 1) as nat, size) + part_end(n - 1, size) - part_start(n - 1)
    }
}

/// The parts of a file are the file: their sizes sum to its size.
pub proof fn law_parts_make_the_file(size: u64)
    ensures
        total_size(data_parts(size as int) as nat, size as int) == size,
{
    let n = data_parts(size as int);
    assert(part_start(n) >= size && (n > 0 ==> part_start(n - 1) < size)) by (nonlinear_arith)
        requires
            n == (size + PARTSIZE - 1) / PARTSIZE as int,
            part_start(n) == n * PARTSIZE,
            part_start(n - 1) == (n - 1) * PARTSIZE,
            size >= 0,
            PARTSIZE == 9_728_000,
    ;
    lemma_total_size(n as nat, size as int);
}

proof fn lemma_total_size(n: nat, size: int)
    requires
        n > 0 ==> part_start(n - 1) < size,
        size >= 0,
    ensures
        total_size(n, size) == if part_start(n as int) <= size {
            part_start(n as int)
        } else {
            size
        },
    decreases n,
{
    if n > 0 {
        lemma_total_size((n - 1) as nat, size);
    }
}

/// The part in which byte `b` lies.
pub open spec fn part_of(b: int) -> int {
    b / PARTSIZE as int
}

/// `[start, end)` is one of the ranges of `out`.
pub open spec fn listed(out: Seq<(u64, u64)>, start: int, end: int) -> bool {
    exists|i: int| 0 <= i < out.len() && (#[trigger] out[i]).0 == start && out[i].1 == end
}

proof fn lemma_missing_within_bound(gaps: Seq<Gap>, start: int, end: int)
    requires
        start <= end,
    ensures
        missing_within(gaps, start, end) <= end - start,
        Set::new(|b: int| start <= b < end && covers(gaps, b)).finite(),
{
    lemma_int_range(start, end);
    let some = Set::new(|b: int| start <= b < end && covers(gaps, b));
    lemma_set_subset_finite(set_int_range(start, end), some);
    lemma_len_subset(some, set_int_range(start, end));
}

/// Finitely many bytes are missing.
pub proof fn lemma_missing_finite(gaps: Seq<Gap>)
    ensures
        byte_set(gaps).finite(),
{
    lemma_int_range(0, u64::MAX as int);
    lemma_set_subset_finite(set_int_range(0, u64::MAX as int), byte_set(gaps));
}

/// What is received is there and stays there, and nothing else is taken for received.
pub proof fn law_what_is_received_is_there(
    before: &PartFile,
    after: &PartFile,
    start: u64,
    end: u64,
    b: int,
)
    requires
        after.received(before, start as int, end as int),
    ensures
        after.needs(b) <==> before.needs(b) && !(start <= b < end),
        after.size == before.size,
        after.corrupted@ == before.corrupted@,
{
}

/// What is re-opened is missing again, and nothing else is.
pub proof fn law_what_is_reopened_is_missing(
    before: &PartFile,
    after: &PartFile,
    start: u64,
    end: u64,
    b: int,
)
    requires
        after.reopened(before, start as int, end as int),
    ensures
        after.needs(b) <==> before.needs(b) || start <= b < end,
        after.size == before.size,
{
}

/// Which hash a part is held to: a file that is smaller than one part to the file's own hash, any
/// other to that of the part, which may not be known yet.
pub proof fn law_which_hash_a_part_is_held_to(pf: &PartFile, part: u64)
    ensures
        pf.expected_hash(part) == (if pf.size < 9_728_000 {
            Some(pf.hash@)
        } else if part < pf.part_hashes@.len() {
            Some(pf.part_hashes@[part as int]@)
        } else {
            None
        }),
{
}

/// The bytes of a part: byte `b` of a file lies in part `b / 9728000`, and in no other.
pub proof fn law_each_byte_lies_in_one_part(size: u64, b: int, part: int)
    requires
        0 <= b < size,
        0 <= part,
    ensures
        part_start(part) <= b < part_end(part, size as int) <==> part == b / 9_728_000,
        b / 9_728_000 < data_parts(size as int),
        part >= data_parts(size as int) ==> part_start(part) >= size,
{
}

/// A part is done when none of its bytes is missing, and not before.
pub proof fn law_a_part_is_done_without_missing_bytes(pf: &PartFile, part: u64)
    ensures
        pf.part_done(part as int) <==> forall|b: int|
            0 <= b < pf.size && #[trigger] (b / 9_728_000) == part ==> !pf.needs(b),
{
    let size = pf.size as int;
    if pf.part_done(part as int) {
        assert forall|b: int| 0 <= b < size && #[trigger] (b / 9_728_000) == part implies !pf.needs(
            b,
        ) by {
            law_each_byte_lies_in_one_part(pf.size, b, part as int);
        }
    }
    if forall|b: int| 0 <= b < size && #[trigger] (b / 9_728_000) == part ==> !pf.needs(b) {
        assert forall|b: int|
            part_start(part as int) <= b < part_end(part as int, size) implies !#[trigger] pf.needs(
            b,
        ) by {
            law_each_byte_lies_in_one_part(pf.size, b, part as int);
            assert(b / 9_728_000 == part);
        }
    }
}

/// The parts that are wanted are those with a byte missing, each once, and those that lack the
/// fewest bytes come first; of parts that lack as many, the earlier one.
pub proof fn law_the_most_complete_part_is_wanted_first(
    pf: &PartFile,
    parts: Seq<u64>,
    i: int,
    j: int,
)
    requires
        pf.is_part_order(Seq::new(data_parts(pf.size as int) as nat, |p: int| 0u64), parts),
        0 <= i < j < parts.len(),
    ensures
        ({
            let a = Set::new(
                |b: int| b / 9_728_000 == parts[i] && b < pf.size && pf.needs(b),
            ).len();
            let c = Set::new(
                |b: int| b / 9_728_000 == parts[j] && b < pf.size && pf.needs(b),
            ).len();
            a < c || a == c && parts[i] < parts[j]
        }),
{
    let rank = Seq::new(data_parts(pf.size as int) as nat, |p: int| 0u64);
    assert(parts.contains(parts[i]) && parts.contains(parts[j]));
    assert(pf.part_before(rank, parts[i] as int, parts[j] as int));
    pf.lemma_missing_of(parts[i] as int);
    pf.lemma_missing_of(parts[j] as int);
}

} // verus!
