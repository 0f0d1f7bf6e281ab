//! Which idle download the retry sweep turns to: the highest priority first, and within it the
//! one that was retried longest ago, so that every download gets its turn.
use vstd::prelude::*;

verus! {

/// A download as the sweep sees it.
#[derive(Debug, Clone, Copy, PartialEq, Eq, Structural)]
pub struct RetryCandidate {
    pub priority: u8,
    /// When it was retried last.
    pub last: u64,
}

/// Whether `a` comes before `b`: a higher priority, or the same and retried earlier.
pub open spec fn sooner(a: RetryCandidate, b: RetryCandidate) -> bool {
    a.priority > b.priority || (a.priority == b.priority && a.last < b.last)
}

/// Whether the sweep turns to the `i`th: none comes before it, and of those that tie with it
/// it is the first.
pub open spec fn is_next(cands: Seq<RetryCandidate>, i: int) -> bool {
    &&& 0 <= i < cands.len()
    &&& forall|j: int| 0 <= j < cands.len() ==> !sooner(#[trigger] cands[j], cands[i])
    &&& forall|j: int| 0 <= j < i ==> sooner(cands[i], #[trigger] cands[j])
}

/// The candidate to retry now.
pub fn pick_retry(cands: &Vec<RetryCandidate>) -> (i: Option<usize>)
    ensures
        i is Some == (cands@.len() > 0),
        i is Some ==> is_next(cands@, i->0 as int),
{
    if cands.len() == 0 {
        return None;
    }
    let mut best: usize = 0;
    let mut k: usize = 1;
    while k < cands.len()
        invariant
            best < k <= cands@.len(),
            forall|j: int| 0 <= j < k ==> !sooner(#[trigger] cands@[j], cands@[best as int]),
            forall|j: int| 0 <= j < best ==> sooner(cands@[best as int], #[trigger] cands@[j]),
        decreases cands@.len() - k,
    {
        let c = cands[k];
        let b = cands[best];
        if c.priority > b.priority || (c.priority == b.priority && c.last < b.last) {
            best = k;
        }
        k = k + 1;
    }
    Some(best)
}

/// Pick the candidate to retry and stamp it: a retry that finds nothing yields its place too.
pub fn sweep(cands: &mut Vec<RetryCandidate>, now: u64) -> (i: Option<usize>)
    ensures
        i is Some == (old(cands)@.len() > 0),
        i is Some ==> {
            &&& is_next(old(cands)@, i->0 as int)
            &&& final(cands)@ == old(cands)@.update(
                i->0 as int,
                RetryCandidate { priority: old(cands)@[i->0 as int].priority, last: now },
            )
        },
        i is None ==> final(cands)@ == old(cands)@,
{
    match pick_retry(cands) {
        Some(i) => {
            let priority = cands[i].priority;
            cands.set(i, RetryCandidate { priority, last: now });
            Some(i)
        },
        None => None,
    }
}

/// No download is retried twice in a row while another of its priority waits: once it is
/// stamped later than every other, the next pick is another one.
pub proof fn law_the_sweep_rotates(cands: Seq<RetryCandidate>, i: int, now: u64, other: int, next: int)
    requires
        is_next(cands, i),
        forall|j: int| 0 <= j < cands.len() ==> (#[trigger] cands[j]).last < now,
        0 <= other < cands.len(),
        other != i,
        cands[other].priority == cands[i].priority,
        is_next(
            cands.update(i, RetryCandidate { priority: cands[i].priority, last: now }),
            next,
        ),
    ensures
        next != i,
        cands[next].priority == cands[i].priority,
        cands[next].last <= cands[other].last,
{
    let stamped = cands.update(i, RetryCandidate { priority: cands[i].priority, last: now });
    assert(stamped[other] == cands[other]);
    assert(!sooner(stamped[other], stamped[next]));
    if next != i {
        assert(stamped[next] == cands[next]);
        assert(!sooner(cands[next], cands[i]));
    }
}

/// The pick is unique.
pub proof fn law_the_pick_is_unique(cands: Seq<RetryCandidate>, a: int, b: int)
    requires
        is_next(cands, a),
        is_next(cands, b),
    ensures
        a == b,
{
    if a < b {
        assert(sooner(cands[b], cands[a]));
    } else if b < a {
        assert(sooner(cands[a], cands[b]));
    }
}

/// The sweep turns to a download of the highest priority there is, and among those to one that was
/// retried longest ago.
pub proof fn law_the_pick_is_the_most_urgent(cands: Seq<RetryCandidate>, i: int, j: int)
    requires
        is_next(cands, i),
        0 <= j < cands.len(),
    ensures
        cands[j].priority <= cands[i].priority,
        cands[j].priority == cands[i].priority ==> cands[i].last <= cands[j].last,
        cands[j].priority == cands[i].priority && cands[j].last == cands[i].last ==> i <= j,
{
    assert(!sooner(cands[j], cands[i]));
    if j < i {
        assert(sooner(cands[i], cands[j]));
    }
}

} // verus!
