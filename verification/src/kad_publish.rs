//! When to announce shared files to the Kad network.
//!
//! A source record per file is due every five hours, a keyword record per word every day.
//! Records that are not announced again are forgotten by those who hold them. The schedule
//! hands out one job at a time, and looks for due ones only when none is left.
use std::collections::VecDeque;
use vstd::prelude::*;
use crate::hash;
use crate::hash::same_hash16;

verus! {

/// Announce a source record this often, in seconds.
pub const KAD_REPUBLISH_SOURCE_SECS: u64 = 18_000;

/// Announce a keyword record this often, in seconds.
pub const KAD_REPUBLISH_KEYWORD_SECS: u64 = 86_400;

/// One unit of publishing work.
#[derive(Debug, Clone, PartialEq, Eq)]
pub enum PublishJob {
    /// Publish our own source record for this file.
    Source([u8; 16]),
    /// Publish that `word` leads to `file`.
    Keyword { file: [u8; 16], word: String },
}

/// What a job holds.
pub enum JobView {
    Source([u8; 16]),
    Keyword { file: [u8; 16], word: Seq<char> },
}

impl View for PublishJob {
    type V = JobView;

    open spec fn view(&self) -> JobView {
        match self {
            PublishJob::Source(h) => JobView::Source(*h),
            PublishJob::Keyword { file, word } => JobView::Keyword { file: *file, word: word@ },
        }
    }
}

/// What a queue of jobs holds.
pub open spec fn job_views(jobs: Seq<PublishJob>) -> Seq<JobView> {
    jobs.map_values(|j: PublishJob| j@)
}

/// When a file's records were last announced, in seconds.
#[derive(Debug, Clone, Copy, PartialEq, Eq, Structural)]
pub struct Clock {
    pub source: Option<u64>,
    pub keyword: Option<u64>,
}

/// The clock of one file.
#[derive(Debug, Clone, Copy)]
pub struct FileClocks {
    pub hash: [u8; 16],
    pub clock: Clock,
}

/// Never announced.
pub open spec fn unset() -> Clock {
    Clock { source: None, keyword: None }
}

/// The clock of file `h`.
pub open spec fn clock_of(clocks: Seq<FileClocks>, h: [u8; 16]) -> Clock
    decreases clocks.len(),
{
    if clocks.len() == 0 {
        unset()
    } else if clocks.last().hash == h {
        clocks.last().clock
    } else {
        clock_of(clocks.drop_last(), h)
    }
}

/// A record last announced at `last` is due.
pub open spec fn is_due(last: Option<u64>, now: u64, interval: u64) -> bool {
    match last {
        None => true,
        Some(t) => now - t >= interval,
    }
}

fn due(last: Option<u64>, now: u64, interval: u64) -> (b: bool)
    requires
        interval > 0,
    ensures
        b == is_due(last, now, interval),
{
    match last {
        None => true,
        Some(t) => now.saturating_sub(t) >= interval,
    }
}

/// A shared file and its words.
pub type Shared = ([u8; 16], Vec<String>);

/// The keyword jobs of a file.
pub open spec fn word_jobs(file: [u8; 16], words: Seq<String>) -> Seq<JobView> {
    words.map_values(|w: String| JobView::Keyword { file, word: w@ })
}

/// The jobs of a file whose clock is `c`: its source record where we can be reached, then
/// one per word.
pub open spec fn file_jobs(c: Clock, file: &Shared, now: u64, reachable: bool) -> Seq<JobView> {
    (if reachable && is_due(c.source, now, KAD_REPUBLISH_SOURCE_SECS) {
        seq![JobView::Source(file.0)]
    } else {
        Seq::empty()
    }) + (if is_due(c.keyword, now, KAD_REPUBLISH_KEYWORD_SECS) {
        word_jobs(file.0, file.1@)
    } else {
        Seq::empty()
    })
}

/// The clock of a file after its jobs are handed out.
pub open spec fn stamped(c: Clock, now: u64, reachable: bool) -> Clock {
    Clock {
        source: if reachable && is_due(c.source, now, KAD_REPUBLISH_SOURCE_SECS) {
            Some(now)
        } else {
            c.source
        },
        keyword: if is_due(c.keyword, now, KAD_REPUBLISH_KEYWORD_SECS) {
            Some(now)
        } else {
            c.keyword
        },
    }
}

/// Some file of the list has hash `h`.
pub open spec fn is_shared(shared: Seq<Shared>, h: [u8; 16]) -> bool {
    exists|i: int| 0 <= i < shared.len() && (#[trigger] shared[i]).0 == h
}

/// The clock of file `h` after the files of `shared` were gone through, where it was
/// `before(h)`.
pub open spec fn clock_after(
    before: spec_fn([u8; 16]) -> Clock,
    shared: Seq<Shared>,
    now: u64,
    reachable: bool,
    h: [u8; 16],
) -> Clock
    decreases shared.len(),
{
    if shared.len() == 0 {
        before(h)
    } else {
        let c = clock_after(before, shared.drop_last(), now, reachable, h);
        if shared.last().0 == h {
            stamped(c, now, reachable)
        } else {
            c
        }
    }
}

/// The jobs of the files of `shared`, in order.
pub open spec fn jobs_of(
    before: spec_fn([u8; 16]) -> Clock,
    shared: Seq<Shared>,
    now: u64,
    reachable: bool,
) -> Seq<JobView>
    decreases shared.len(),
{
    if shared.len() == 0 {
        Seq::empty()
    } else {
        let less = shared.drop_last();
        let c = clock_after(before, less, now, reachable, shared.last().0);
        jobs_of(before, less, now, reachable) + file_jobs(c, &shared.last(), now, reachable)
    }
}

/// Decides which publish jobs are due and hands them out one at a time.
#[derive(Debug)]
pub struct PublishSchedule {
    pub clocks: Vec<FileClocks>,
    pub queue: VecDeque<PublishJob>,
}

impl PublishSchedule {
    /// The clock of file `h`; unset where it is not known.
    #[verifier::inline]
    pub open spec fn clock(&self, h: [u8; 16]) -> Clock {
        clock_of(self.clocks@, h)
    }

    /// The jobs waiting, in order.
    pub open spec fn jobs(&self) -> Seq<JobView> {
        job_views(self.queue@)
    }

    pub fn new() -> (s: PublishSchedule)
        ensures
            s.jobs() == Seq::<JobView>::empty(),
            forall|h: [u8; 16]| #[trigger] s.clock(h) == unset(),
    {
        let s = PublishSchedule { clocks: Vec::new(), queue: VecDeque::new() };
        assert(s.jobs() =~= Seq::empty());
        s
    }

    fn find(&self, h: &[u8; 16]) -> (c: Clock)
        ensures
            c == self.clock(*h),
    {
        let mut i: usize = self.clocks.len();
        assert(self.clocks@.take(i as int) =~= self.clocks@);
        while i > 0
            invariant
                i <= self.clocks@.len(),
                clock_of(self.clocks@.take(i as int), *h) == clock_of(self.clocks@, *h),
            decreases i,
        {
            proof {
                assert(self.clocks@.take(i as int).drop_last() =~= self.clocks@.take(i - 1));
                assert(self.clocks@.take(i as int).last() == self.clocks@[i - 1]);
            }
            i = i - 1;
            if same_hash16(&self.clocks[i].hash, h) {
                return self.clocks[i].clock;
            }
        }
        Clock { source: None, keyword: None }
    }

    /// Set the clock of file `h`.
    fn set(&mut self, h: [u8; 16], clock: Clock)
        ensures
            final(self).queue == old(self).queue,
            forall|q: [u8; 16]| #[trigger]
                final(self).clock(q) == (if hash::identical(q, h) {
                    clock
                } else {
                    old(self).clock(q)
                }),
    {
        let mut kept: Vec<FileClocks> = Vec::new();
        let mut i: usize = 0;
        let ghost was = self.clocks@;
        assert(was.take(0) =~= Seq::empty());
        while i < self.clocks.len()
            invariant
                i <= was.len(),
                was == self.clocks@,
                self.queue == old(self).queue,
                was == old(self).clocks@,
                forall|q: [u8; 16]| #[trigger]
                    clock_of(kept@, q) == (if hash::identical(q, h) {
                        unset()
                    } else {
                        clock_of(was.take(i as int), q)
                    }),
            decreases was.len() - i,
        {
            proof {
                assert(was.take(i + 1).drop_last() =~= was.take(i as int));
                assert(was.take(i + 1).last() == was[i as int]);
                assert(kept@.push(was[i as int]).drop_last() =~= kept@);
            }
            let ghost before = kept@;
            let same: bool = same_hash16(&self.clocks[i].hash, &h);
            if !same {
                kept.push(self.clocks[i]);
            }
            proof {
                assert(same == hash::identical(was[i as int].hash, h));
                assert(!same ==> kept@ == before.push(was[i as int]));
                assert forall|q: [u8; 16]| #[trigger]
                    clock_of(kept@, q) == (if hash::identical(q, h) {
                        unset()
                    } else {
                        clock_of(was.take(i + 1), q)
                    }) by {
                    assert(clock_of(before, q) == (if hash::identical(q, h) {
                        unset()
                    } else {
                        clock_of(was.take(i as int), q)
                    }));
                    if same {
                        assert(kept@ == before);
                        if !hash::identical(q, h) {
                            assert(was[i as int].hash != q);
                            assert(clock_of(was.take(i + 1), q) == clock_of(was.take(i as int), q));
                        }
                    } else {
                        if hash::identical(q, h) {
                            assert(was[i as int].hash != q);
                            assert(clock_of(kept@, q) == clock_of(before, q));
                        }
                    }
                }
            }
            i = i + 1;
        }
        assert(was.take(i as int) =~= was);
        assert(kept@.push(FileClocks { hash: h, clock }).drop_last() =~= kept@);
        let ghost before = kept@;
        kept.push(FileClocks { hash: h, clock });
        proof {
            assert forall|q: [u8; 16]| #[trigger]
                clock_of(kept@, q) == (if hash::identical(q, h) {
                    clock
                } else {
                    clock_of(was, q)
                }) by {
                if !hash::identical(q, h) {
                    assert(h != q);
                    assert(clock_of(kept@, q) == clock_of(before, q));
                }
            }
        }
        self.clocks = kept;
    }

    /// Forget the clocks of files that are no longer shared.
    fn prune(&mut self, shared: &[Shared])
        ensures
            final(self).queue == old(self).queue,
            forall|q: [u8; 16]| #[trigger]
                final(self).clock(q) == (if is_shared(shared@, q) {
                    old(self).clock(q)
                } else {
                    unset()
                }),
    {
        let mut kept: Vec<FileClocks> = Vec::new();
        let mut i: usize = 0;
        let ghost was = self.clocks@;
        assert(was.take(0) =~= Seq::empty());
        while i < self.clocks.len()
            invariant
                i <= was.len(),
                was == self.clocks@,
                self.queue == old(self).queue,
                was == old(self).clocks@,
                forall|q: [u8; 16]| #[trigger]
                    clock_of(kept@, q) == (if is_shared(shared@, q) {
                        clock_of(was.take(i as int), q)
                    } else {
                        unset()
                    }),
            decreases was.len() - i,
        {
            proof {
                assert(was.take(i + 1).drop_last() =~= was.take(i as int));
                assert(was.take(i + 1).last() == was[i as int]);
                assert(kept@.push(was[i as int]).drop_last() =~= kept@);
            }
            let h = self.clocks[i].hash;
            let mut live: bool = false;
            let mut k: usize = 0;
            while k < shared.len()
                invariant
                    k <= shared@.len(),
                    live == is_shared(shared@.take(k as int), h),
                decreases shared@.len() - k,
            {
                proof {
                    let (less, more) = (shared@.take(k as int), shared@.take(k + 1));
                    assert(more =~= less.push(shared@[k as int]));
                    if is_shared(less, h) {
                        let j = choose|j: int| 0 <= j < less.len() && (#[trigger] less[j]).0 == h;
                        assert(more[j].0 == h);
                    }
                    assert(more[k as int] == shared@[k as int]);
                    if is_shared(more, h) && shared@[k as int].0 != h {
                        let j = choose|j: int| 0 <= j < more.len() && (#[trigger] more[j]).0 == h;
                        assert(less[j].0 == h);
                    }
                }
                if same_hash16(&shared[k].0, &h) {
                    live = true;
                }
                k = k + 1;
            }
            assert(shared@.take(k as int) =~= shared@);
            if live {
                kept.push(self.clocks[i]);
            }
            i = i + 1;
        }
        assert(was.take(i as int) =~= was);
        self.clocks = kept;
    }

    /// Refill the queue from the shared library, where it is empty. Clocks are stamped when a
    /// job is queued, not when it succeeds; those of files that are no longer shared are
    /// forgotten.
    pub fn refill(&mut self, now: u64, shared: &[Shared], can_publish_source: bool)
        ensures
            old(self).jobs().len() > 0 ==> *final(self) == *old(self),
            old(self).jobs().len() == 0 ==> {
                let pruned = |h: [u8; 16]|
                    if is_shared(shared@, h) {
                        old(self).clock(h)
                    } else {
                        unset()
                    };
                &&& final(self).jobs() == jobs_of(pruned, shared@, now, can_publish_source)
                &&& forall|h: [u8; 16]| #[trigger]
                    final(self).clock(h) == clock_after(
                        pruned,
                        shared@,
                        now,
                        can_publish_source,
                        h,
                    )
            },
    {
        if self.queue.len() > 0 {
            return ;
        }
        let ghost pruned = |h: [u8; 16]|
            if is_shared(shared@, h) {
                old(self).clock(h)
            } else {
                unset()
            };
        self.prune(shared);
        let mut i: usize = 0;
        proof {
            assert(shared@.take(0) =~= Seq::empty());
            assert(self.jobs() =~= Seq::empty());
        }
        while i < shared.len()
            invariant
                i <= shared@.len(),
                self.jobs() == jobs_of(pruned, shared@.take(i as int), now, can_publish_source),
                forall|h: [u8; 16]| #[trigger]
                    self.clock(h) == clock_after(
                        pruned,
                        shared@.take(i as int),
                        now,
                        can_publish_source,
                        h,
                    ),
            decreases shared@.len() - i,
        {
            let h: [u8; 16] = shared[i].0;
            let ghost less = shared@.take(i as int);
            let ghost jobs0 = self.jobs();
            proof {
                assert(shared@.take(i + 1).drop_last() =~= less);
                assert(shared@.take(i + 1).last() == shared@[i as int]);
            }
            let mut c = self.find(&h);
            let ghost c0 = c;
            if can_publish_source && due(c.source, now, KAD_REPUBLISH_SOURCE_SECS) {
                let ghost was = self.queue@;
                self.queue.push_back(PublishJob::Source(h));
                assert(self.jobs() =~= job_views(was).push(JobView::Source(h)));
                c.source = Some(now);
            }
            let ghost jobs1 = self.jobs();
            assert(jobs1 =~= jobs0 + (if can_publish_source && is_due(
                c0.source,
                now,
                KAD_REPUBLISH_SOURCE_SECS,
            ) {
                seq![JobView::Source(h)]
            } else {
                Seq::empty()
            }));
            if due(c.keyword, now, KAD_REPUBLISH_KEYWORD_SECS) {
                let mut k: usize = 0;
                let ghost words = shared@[i as int].1@;
                assert(jobs1 + word_jobs(h, words.take(0)) =~= jobs1);
                while k < shared[i].1.len()
                    invariant
                        i < shared@.len(),
                        words == shared@[i as int].1@,
                        k <= words.len(),
                        self.jobs() == jobs1 + word_jobs(h, words.take(k as int)),
                        forall|h: [u8; 16]| #[trigger]
                            self.clock(h) == clock_after(
                                pruned,
                                less,
                                now,
                                can_publish_source,
                                h,
                            ),
                    decreases words.len() - k,
                {
                    let ghost was = self.queue@;
                    self.queue.push_back(
                        PublishJob::Keyword { file: h, word: shared[i].1[k].clone() },
                    );
                    proof {
                        assert(self.jobs() =~= job_views(was).push(
                            JobView::Keyword { file: h, word: words[k as int]@ },
                        ));
                        assert(self.jobs() =~= jobs1 + word_jobs(h, words.take(k + 1)));
                    }
                    k = k + 1;
                }
                assert(words.take(k as int) =~= words);
                c.keyword = Some(now);
            }
            proof {
                assert(self.jobs() =~= jobs0 + file_jobs(
                    c0,
                    &shared@[i as int],
                    now,
                    can_publish_source,
                ));
            }
            self.set(h, c);
            i = i + 1;
        }
        assert(shared@.take(i as int) =~= shared@);
    }

    /// The next job, or none where nothing is due.
    pub fn take_next(&mut self) -> (job: Option<PublishJob>)
        ensures
            match job {
                Some(j) => old(self).jobs().len() > 0 && j@ == old(self).jobs()[0] && final(
                    self).jobs() == old(self).jobs().skip(1),
                None => old(self).jobs().len() == 0 && final(self).jobs() == old(self).jobs(),
            },
            forall|h: [u8; 16]| #[trigger] final(self).clock(h) == old(self).clock(h),
    {
        let ghost was = self.queue@;
        let job = self.queue.pop_front();
        proof {
            if job is Some {
                assert(self.jobs() =~= job_views(was).skip(1));
            }
        }
        job
    }

    /// How many jobs are queued.
    pub fn pending(&self) -> (n: usize)
        ensures
            n == self.jobs().len(),
    {
        self.queue.len()
    }
}

/// A file whose clocks were just stamped has nothing due before the shorter interval is over.
pub proof fn law_no_republish_before_the_interval(
    c: Clock,
    file: &Shared,
    then: u64,
    now: u64,
    reachable: bool,
)
    requires
        then <= now,
        now - then < KAD_REPUBLISH_SOURCE_SECS,
        c.source == Some(then),
        c.keyword == Some(then),
    ensures
        file_jobs(c, file, now, reachable) == Seq::<JobView>::empty(),
{
    assert(file_jobs(c, file, now, reachable) =~= Seq::<JobView>::empty());
}

/// A node that cannot be reached announces no source record.
pub proof fn law_unreachable_claims_no_source(
    before: spec_fn([u8; 16]) -> Clock,
    shared: Seq<Shared>,
    now: u64,
    i: int,
)
    requires
        0 <= i < jobs_of(before, shared, now, false).len(),
    ensures
        jobs_of(before, shared, now, false)[i] is Keyword,
    decreases shared.len(),
{
    if shared.len() > 0 {
        let less = jobs_of(before, shared.drop_last(), now, false);
        if i < less.len() {
            law_unreachable_claims_no_source(before, shared.drop_last(), now, i);
        }
    }
}

/// Place `i` is the first at which the list names file `h`.
pub open spec fn first_named(shared: Seq<Shared>, h: [u8; 16], i: int) -> bool {
    &&& 0 <= i < shared.len()
    &&& shared[i].0 == h
    &&& forall|j: int| 0 <= j < i ==> (#[trigger] shared[j]).0 != h
}

proof fn lemma_contains_concat(a: Seq<JobView>, b: Seq<JobView>, j: JobView)
    ensures
        (a + b).contains(j) <==> a.contains(j) || b.contains(j),
{
    let all = a + b;
    if a.contains(j) {
        let i = a.index_of(j);
        assert(all[i] == j);
    }
    if b.contains(j) {
        let i = b.index_of(j);
        assert(all[a.len() + i] == j);
    }
    if all.contains(j) {
        let i = all.index_of(j);
        if i < a.len() {
            assert(a[i] == j);
        } else {
            assert(b[i - a.len()] == j);
        }
    }
}

proof fn lemma_file_jobs(c: Clock, file: &Shared, now: u64, reachable: bool, h: [u8; 16])
    ensures
        file_jobs(c, file, now, reachable).contains(JobView::Source(h)) <==> file.0 == h
            && reachable && is_due(c.source, now, KAD_REPUBLISH_SOURCE_SECS),
        forall|w: Seq<char>| #[trigger]
            file_jobs(c, file, now, reachable).contains(JobView::Keyword { file: h, word: w })
                <==> file.0 == h && is_due(c.keyword, now, KAD_REPUBLISH_KEYWORD_SECS) && exists|
                k: int,
            |
                0 <= k < file.1@.len() && (#[trigger] file.1@[k])@ == w,
{
    let a = if reachable && is_due(c.source, now, KAD_REPUBLISH_SOURCE_SECS) {
        seq![JobView::Source(file.0)]
    } else {
        Seq::empty()
    };
    let b = if is_due(c.keyword, now, KAD_REPUBLISH_KEYWORD_SECS) {
        word_jobs(file.0, file.1@)
    } else {
        Seq::empty()
    };
    let all = file_jobs(c, file, now, reachable);
    assert(all == a + b);
    lemma_contains_concat(a, b, JobView::Source(h));
    if a.len() > 0 {
        assert(a[0] == JobView::Source(file.0));
    }
    assert forall|w: Seq<char>| #[trigger]
        all.contains(JobView::Keyword { file: h, word: w }) <==> file.0 == h && is_due(
            c.keyword,
            now,
            KAD_REPUBLISH_KEYWORD_SECS,
        ) && exists|k: int| 0 <= k < file.1@.len() && (#[trigger] file.1@[k])@ == w by {
        let j = JobView::Keyword { file: h, word: w };
        lemma_contains_concat(a, b, j);
        if b.contains(j) {
            let k = b.index_of(j);
            assert(b[k] == JobView::Keyword { file: file.0, word: file.1@[k]@ });
        }
        if b.len() > 0 && file.0 == h && exists|k: int|
            0 <= k < file.1@.len() && (#[trigger] file.1@[k])@ == w {
            let k = choose|k: int| 0 <= k < file.1@.len() && (#[trigger] file.1@[k])@ == w;
            assert(b[k] == j);
        }
    }
}

/// A clock advances only with its job. The source record of a file is queued if and only if we can
/// be reached, the file is shared, and none was queued in the last five hours; and its clock is set
/// if and only if it is queued, to now.
pub proof fn law_a_source_record_is_queued_when_it_is_due(
    before: spec_fn([u8; 16]) -> Clock,
    shared: Seq<Shared>,
    now: u64,
    reachable: bool,
    h: [u8; 16],
)
    ensures
        jobs_of(before, shared, now, reachable).contains(JobView::Source(h)) <==> {
            &&& reachable
            &&& exists|i: int| 0 <= i < shared.len() && (#[trigger] shared[i]).0 == h
            &&& before(h).source matches Some(t) ==> t + 5 * 3600 <= now
        },
        clock_after(before, shared, now, reachable, h).source == (if jobs_of(
            before,
            shared,
            now,
            reachable,
        ).contains(JobView::Source(h)) {
            Some(now)
        } else {
            before(h).source
        }),
    decreases shared.len(),
{
    if shared.len() > 0 {
        let less = shared.drop_last();
        let last = shared.last();
        law_a_source_record_is_queued_when_it_is_due(before, less, now, reachable, h);
        let c = clock_after(before, less, now, reachable, last.0);
        lemma_file_jobs(c, &last, now, reachable, h);
        lemma_contains_concat(
            jobs_of(before, less, now, reachable),
            file_jobs(c, &last, now, reachable),
            JobView::Source(h),
        );
        if last.0 == h {
            assert(shared[shared.len() - 1].0 == h);
        }
        if exists|i: int| 0 <= i < less.len() && (#[trigger] less[i]).0 == h {
            let i = choose|i: int| 0 <= i < less.len() && (#[trigger] less[i]).0 == h;
            assert(shared[i].0 == h);
        }
        if exists|i: int| 0 <= i < shared.len() && (#[trigger] shared[i]).0 == h {
            let i = choose|i: int| 0 <= i < shared.len() && (#[trigger] shared[i]).0 == h;
            if i < less.len() {
                assert(less[i].0 == h);
            }
        }
    }
}

/// The same of keywords: a word of a file is queued if and only if the file is shared under that
/// word, where it is first named, and its words were not queued in the last day, whether or not we
/// can be reached; and their clock is set if and only if they were due, to now.
pub proof fn law_a_keyword_is_queued_when_it_is_due(
    before: spec_fn([u8; 16]) -> Clock,
    shared: Seq<Shared>,
    now: u64,
    reachable: bool,
    h: [u8; 16],
    w: Seq<char>,
)
    ensures
        jobs_of(before, shared, now, reachable).contains(JobView::Keyword { file: h, word: w })
            <==> {
            &&& before(h).keyword matches Some(t) ==> t + 24 * 3600 <= now
            &&& exists|i: int, k: int|
                #![trigger shared[i].1@[k]]
                first_named(shared, h, i) && 0 <= k < shared[i].1@.len() && shared[i].1@[k]@ == w
        },
        clock_after(before, shared, now, reachable, h).keyword == (if (exists|i: int|
            0 <= i < shared.len() && (#[trigger] shared[i]).0 == h) && (before(
            h,
        ).keyword matches Some(t) ==> t + 24 * 3600 <= now) {
            Some(now)
        } else {
            before(h).keyword
        }),
    decreases shared.len(),
{
    if shared.len() > 0 {
        let less = shared.drop_last();
        let last = shared.last();
        let n = shared.len() - 1;
        let j = JobView::Keyword { file: h, word: w };
        law_a_keyword_is_queued_when_it_is_due(before, less, now, reachable, h, w);
        let c = clock_after(before, less, now, reachable, last.0);
        lemma_file_jobs(c, &last, now, reachable, h);
        lemma_contains_concat(
            jobs_of(before, less, now, reachable),
            file_jobs(c, &last, now, reachable),
            j,
        );
        assert(shared[n] == last);
        if exists|i: int| 0 <= i < less.len() && (#[trigger] less[i]).0 == h {
            let i = choose|i: int| 0 <= i < less.len() && (#[trigger] less[i]).0 == h;
            assert(shared[i].0 == h);
        }
        if exists|i: int| 0 <= i < shared.len() && (#[trigger] shared[i]).0 == h {
            let i = choose|i: int| 0 <= i < shared.len() && (#[trigger] shared[i]).0 == h;
            if i < n {
                assert(less[i].0 == h);
            }
        }
        assert forall|i: int| 0 <= i < n implies first_named(less, h, i) == first_named(
            shared,
            h,
            i,
        ) by {
            assert(forall|j: int| 0 <= j < i ==> less[j] == shared[j]);
        }
        if exists|i: int, k: int|
            #![trigger less[i].1@[k]]
            first_named(less, h, i) && 0 <= k < less[i].1@.len() && less[i].1@[k]@ == w {
            let (i, k) = choose|i: int, k: int|
                #![trigger less[i].1@[k]]
                first_named(less, h, i) && 0 <= k < less[i].1@.len() && less[i].1@[k]@ == w;
            assert(first_named(shared, h, i) && shared[i].1@[k]@ == w);
        }
        if exists|i: int, k: int|
            #![trigger shared[i].1@[k]]
            first_named(shared, h, i) && 0 <= k < shared[i].1@.len() && shared[i].1@[k]@ == w {
            let (i, k) = choose|i: int, k: int|
                #![trigger shared[i].1@[k]]
                first_named(shared, h, i) && 0 <= k < shared[i].1@.len() && shared[i].1@[k]@ == w;
            if i < n {
                assert(first_named(less, h, i) && less[i].1@[k]@ == w);
            } else {
                assert(last.1@[k]@ == w);
                assert(forall|m: int| 0 <= m < n ==> (#[trigger] less[m]).0 == shared[m].0);
            }
        }
        if file_jobs(c, &last, now, reachable).contains(j) {
            let k = choose|k: int| 0 <= k < last.1@.len() && (#[trigger] last.1@[k])@ == w;
            assert(shared[n].1@[k]@ == w);
            if exists|i: int| 0 <= i < less.len() && (#[trigger] less[i]).0 == h {
                assert(c.keyword == Some(now) || !is_due(c.keyword, now, KAD_REPUBLISH_KEYWORD_SECS));
            } else {
                assert forall|m: int| 0 <= m < n implies (#[trigger] shared[m]).0 != h by {
                    assert(less[m] == shared[m]);
                }
                assert(first_named(shared, h, n));
            }
        }
    }
}

/// What a node holds back while it cannot be reached, it announces as soon as it can: a file whose
/// source record was never queued has it queued by the first refill of a node that can be reached,
/// whatever refill came before it.
pub proof fn law_what_was_held_back_is_announced(
    before: spec_fn([u8; 16]) -> Clock,
    first: Seq<Shared>,
    then: u64,
    second: Seq<Shared>,
    now: u64,
    h: [u8; 16],
)
    requires
        before(h).source is None,
        is_shared(second, h),
    ensures
        jobs_of(
            |x: [u8; 16]| clock_after(before, first, then, false, x),
            second,
            now,
            true,
        ).contains(JobView::Source(h)),
{
    let mid = |x: [u8; 16]| clock_after(before, first, then, false, x);
    law_a_source_record_is_queued_when_it_is_due(before, first, then, false, h);
    law_a_source_record_is_queued_when_it_is_due(mid, second, now, true, h);
}

/// The jobs go file by file, in the order of the list; of one file its source record goes first,
/// and its words keep their order.
pub proof fn law_jobs_go_file_by_file(
    before: spec_fn([u8; 16]) -> Clock,
    shared: Seq<Shared>,
    now: u64,
    reachable: bool,
)
    ensures
        exists|at: Seq<int>, word: Seq<int>| #[trigger]
            in_file_order(jobs_of(before, shared, now, reachable), shared, at, word),
    decreases shared.len(),
{
    let jobs = jobs_of(before, shared, now, reachable);
    if shared.len() == 0 {
        assert(in_file_order(jobs, shared, Seq::empty(), Seq::empty()));
    } else {
        let less = shared.drop_last();
        let last = shared.last();
        let n = shared.len() - 1;
        law_jobs_go_file_by_file(before, less, now, reachable);
        let old = jobs_of(before, less, now, reachable);
        let (at, word) = choose|at: Seq<int>, word: Seq<int>| #[trigger]
            in_file_order(old, less, at, word);
        let c = clock_after(before, less, now, reachable, last.0);
        let new = file_jobs(c, &last, now, reachable);
        let source: int = if reachable && is_due(c.source, now, KAD_REPUBLISH_SOURCE_SECS) {
            1
        } else {
            0
        };
        let at2 = at + Seq::new(new.len(), |k: int| n);
        let word2 = word + Seq::new(new.len(), |k: int| k - source);
        assert(jobs == old + new);
        assert(shared[n] == last);
        assert forall|k: int| 0 <= k < jobs.len() implies #[trigger] job_at(
            jobs[k],
            shared,
            at2[k],
            word2[k],
        ) by {
            if k < old.len() {
                assert(job_at(old[k], less, at[k], word[k]));
                assert(less[at[k]] == shared[at[k]]);
            } else {
                let m = k - old.len();
                assert(jobs[k] == new[m]);
            }
        }
        assert forall|k: int, m: int| 0 <= k < m < jobs.len() implies (#[trigger] at2[k]) < (
        #[trigger] at2[m]) || at2[k] == at2[m] && word2[k] < word2[m] by {
            if k < old.len() {
                assert(at2[k] == at[k] && word2[k] == word[k]);
                assert(job_at(old[k], less, at[k], word[k]));
                if m < old.len() {
                    assert(at2[m] == at[m] && word2[m] == word[m]);
                }
            }
        }
        assert(in_file_order(jobs, shared, at2, word2));
    }
}

/// The job is about the file at place `at`: about its word at `word`, or its source record where
/// that is -1.
pub open spec fn job_at(j: JobView, shared: Seq<Shared>, at: int, word: int) -> bool {
    &&& 0 <= at < shared.len()
    &&& -1 <= word < shared[at].1@.len()
    &&& match j {
        JobView::Source(h) => word == -1 && h == shared[at].0,
        JobView::Keyword { file, word: w } => word >= 0 && file == shared[at].0 && w
            == shared[at].1@[word]@,
    }
}

/// Each job is about the file and word that `at` and `word` name, and these go onward.
pub open spec fn in_file_order(
    jobs: Seq<JobView>,
    shared: Seq<Shared>,
    at: Seq<int>,
    word: Seq<int>,
) -> bool {
    &&& at.len() == jobs.len()
    &&& word.len() == jobs.len()
    &&& forall|k: int| 0 <= k < jobs.len() ==> #[trigger] job_at(jobs[k], shared, at[k], word[k])
    &&& forall|k: int, m: int|
        0 <= k < m < jobs.len() ==> (#[trigger] at[k]) < (#[trigger] at[m]) || at[k] == at[m]
            && word[k] < word[m]
}

} // verus!
