use mule_engine::kad_publish::{
    PublishJob, PublishSchedule, KAD_REPUBLISH_KEYWORD_SECS, KAD_REPUBLISH_SOURCE_SECS,
};

const A: [u8; 16] = [0xAA; 16];
const B: [u8; 16] = [0xBB; 16];

#[test]
fn a_fresh_file_queues_a_source_and_one_job_per_word() {
    let mut s = PublishSchedule::new();
    s.refill(
        1000,
        &[(A, vec!["ubuntu".to_string(), "iso".to_string()])],
        true,
    );
    assert_eq!(s.pending(), 3);
    assert_eq!(s.take_next(), Some(PublishJob::Source(A)));
    assert_eq!(
        s.take_next(),
        Some(PublishJob::Keyword {
            file: A,
            word: "ubuntu".to_string()
        })
    );
    assert_eq!(
        s.take_next(),
        Some(PublishJob::Keyword {
            file: A,
            word: "iso".to_string()
        })
    );
    assert_eq!(s.take_next(), None);
}

#[test]
fn a_firewalled_node_publishes_keywords_but_no_source() {
    let mut s = PublishSchedule::new();
    s.refill(1000, &[(A, vec!["ubuntu".to_string()])], false);
    assert_eq!(
        s.take_next(),
        Some(PublishJob::Keyword {
            file: A,
            word: "ubuntu".to_string()
        }),
        "keywords are published without a source claim"
    );
    assert_eq!(s.take_next(), None, "no source job when unreachable");
}

#[test]
fn clocks_gate_republish_at_their_own_intervals() {
    let mut s = PublishSchedule::new();
    let shared = [(A, vec!["ubuntu".to_string()])];
    s.refill(0, &shared, true);
    while s.take_next().is_some() {}

    s.refill(KAD_REPUBLISH_SOURCE_SECS - 1, &shared, true);
    assert_eq!(s.pending(), 0, "neither clock has elapsed");

    s.refill(KAD_REPUBLISH_SOURCE_SECS, &shared, true);
    assert_eq!(s.pending(), 1);
    assert_eq!(s.take_next(), Some(PublishJob::Source(A)));

    s.refill(KAD_REPUBLISH_KEYWORD_SECS, &shared, true);
    let mut jobs = Vec::new();
    while let Some(j) = s.take_next() {
        jobs.push(j);
    }
    assert!(jobs.contains(&PublishJob::Keyword {
        file: A,
        word: "ubuntu".to_string()
    }));
}

#[test]
fn the_queue_is_not_refilled_while_a_job_is_in_flight() {
    let mut s = PublishSchedule::new();
    s.refill(0, &[(A, vec!["a".to_string(), "b".to_string()])], true);
    let _one = s.take_next();
    s.refill(
        KAD_REPUBLISH_KEYWORD_SECS * 10,
        &[(A, vec!["a".to_string()])],
        true,
    );
    assert!(s.pending() >= 1);
}

#[test]
fn an_unshared_file_is_pruned_from_the_clock_map() {
    let mut s = PublishSchedule::new();
    s.refill(
        0,
        &[(A, vec!["a".to_string()]), (B, vec!["b".to_string()])],
        true,
    );
    while s.take_next().is_some() {}
    s.refill(
        KAD_REPUBLISH_KEYWORD_SECS + 1,
        &[(A, vec!["a".to_string()])],
        true,
    );
    while let Some(j) = s.take_next() {
        match j {
            PublishJob::Source(h) | PublishJob::Keyword { file: h, .. } => {
                assert_eq!(h, A, "only the still-shared file is scheduled")
            }
        }
    }
}
