use mule_engine::aich::PendingRecovery;
use mule_engine::block_sources::BlockSources;
use mule_engine::hash::ed2k_hash;
use mule_engine::multi_source::{Download, FileStatus, SxSource};
use mule_engine::net::{IpAddr, SocketAddr};
use mule_engine::part_store::PartStore;
use mule_engine::peer_session::{
    AichAnswer, AuxUse, Outgoing, PacketUse, PeerRun, PeerSession, Phase, SecIdentCtx, SessionEnd,
    OP_ACCEPTUPLOADREQ, OP_AICHANSWER, OP_AICHFILEHASHANS, OP_ANSWERSOURCES, OP_ANSWERSOURCES2,
    OP_FILEDESC, OP_FILEREQANSNOFIL, OP_FILESTATUS, OP_HASHSETANSWER, OP_OUTOFPARTREQS,
    OP_PUBLICKEY, OP_QUEUERANKING,
};
use mule_engine::proto::{EMBLOCKSIZE, PARTSIZE};

const PEER: SocketAddr = SocketAddr {
    ip: IpAddr::V4(0x0101_0101),
    port: 4662,
};

fn plain() -> PeerSession {
    PeerSession {
        sec: None,
        credit: false,
        ask_sources: false,
        peer_aich: 0,
    }
}

fn download(size: u64) -> Download {
    Download::new(PartStore::create([0x77; 16], size, b"d.bin", None).unwrap())
}

fn complete() -> FileStatus {
    FileStatus {
        complete: true,
        parts: Vec::new(),
    }
}

fn blocks(out: &[Outgoing]) -> Vec<(u64, u64)> {
    match out {
        [Outgoing::RequestParts(b)] => b.clone(),
        other => panic!("blocks must be asked for, got {other:?}"),
    }
}

/// A session that was granted a slot and asked for its first window.
fn fetching(dl: &mut Download, bail: bool) -> (PeerRun, Vec<(u64, u64)>) {
    let (mut run, _) = PeerRun::start(plain(), bail, Some(PEER));
    let (out, end) = run.on_status(dl, complete());
    assert_eq!((out, end), (vec![Outgoing::StartUpload], None));
    assert_eq!(run.classify(OP_ACCEPTUPLOADREQ), PacketUse::Accept);
    let (out, end) = run.next_round(dl, 0);
    assert_eq!(end, None);
    let b = blocks(&out);
    (run, b)
}

#[test]
fn a_session_opens_with_what_it_carries() {
    let (_, out) = PeerRun::start(plain(), false, None);
    assert_eq!(out, vec![Outgoing::RequestFileName, Outgoing::SetReqFileId]);
    let all = PeerSession {
        sec: Some(SecIdentCtx {
            peer_supports: true,
        }),
        credit: true,
        ask_sources: true,
        peer_aich: 1,
    };
    let (_, out) = PeerRun::start(all, false, None);
    assert_eq!(
        out,
        vec![
            Outgoing::SecIdentStart,
            Outgoing::RequestFileName,
            Outgoing::SetReqFileId,
            Outgoing::RequestSources,
            Outgoing::AichFileHashRequest
        ]
    );
}

#[test]
fn a_source_holding_nothing_we_need_is_never_asked_for_a_slot() {
    let mut dl = download(PARTSIZE + 4096);
    let (mut run, _) = PeerRun::start(plain(), true, None);
    let nothing = FileStatus {
        complete: false,
        parts: vec![false, false],
    };
    let (out, end) = run.on_status(&mut dl, nothing);
    assert!(out.is_empty(), "asked a peer with zero parts for an upload slot");
    assert_eq!(end, Some(SessionEnd::Done(0)));
}

#[test]
fn the_hashset_comes_before_the_slot() {
    let mut dl = download(2 * PARTSIZE);
    let (mut run, _) = PeerRun::start(plain(), true, None);
    let (out, end) = run.on_status(&mut dl, complete());
    assert_eq!((out, end), (vec![Outgoing::HashsetRequest], None));
    assert_eq!(run.classify(OP_HASHSETANSWER), PacketUse::Hashset);
    let out = run.on_hashset(&mut dl, vec![[1; 16]; 3]);
    assert_eq!(out, vec![Outgoing::StartUpload]);
    assert_eq!(dl.part_hashes(), vec![[1; 16]; 3]);
    assert_eq!(run.phase, Phase::AwaitSlot);
}

#[test]
fn the_block_window_is_topped_up_before_the_batch_finishes() {
    let mut dl = download(9 * EMBLOCKSIZE);
    let (mut run, first) = fetching(&mut dl, false);
    assert_eq!(first.len(), 3);
    dl.committed(first[0].0, first[0].1);
    let (out, drained) = run.on_blocks(&mut dl, EMBLOCKSIZE, &vec![first[0]]);
    let more = blocks(&out);
    assert_eq!(more.len(), 1, "one landed, one is asked for");
    assert!(!first.contains(&more[0]));
    assert!(!drained);
    assert_eq!(run.window, vec![first[1], first[2], more[0]]);
    assert_eq!(run.delivered, EMBLOCKSIZE);
}

#[test]
fn a_drained_window_starts_a_new_round_until_nothing_is_left() {
    let mut dl = download(2 * EMBLOCKSIZE);
    let (mut run, first) = fetching(&mut dl, false);
    assert_eq!(first.len(), 2);
    dl.committed(0, 2 * EMBLOCKSIZE);
    let (out, drained) = run.on_blocks(&mut dl, 2 * EMBLOCKSIZE, &first);
    assert!(out.is_empty());
    assert!(drained);
    let (out, end) = run.next_round(&mut dl, 0);
    assert!(out.is_empty());
    assert_eq!(end, Some(SessionEnd::Done(2 * EMBLOCKSIZE)));
    run.close(&mut dl);
    assert!(dl.reserved.is_empty());
}

#[test]
fn a_revoked_slot_ends_the_session_instead_of_hanging_until_the_timeout() {
    let mut dl = download(4 * EMBLOCKSIZE);
    let (mut run, first) = fetching(&mut dl, true);
    dl.committed(first[0].0, first[0].1);
    run.on_blocks(&mut dl, EMBLOCKSIZE, &vec![first[0]]);
    assert_eq!(run.classify(OP_OUTOFPARTREQS), PacketUse::Revoked);
    assert_eq!(
        run.on_revoked(&mut dl),
        Some(SessionEnd::Done(EMBLOCKSIZE)),
        "the revocation must report what the source delivered"
    );
    run.close(&mut dl);
    assert!(dl.reserved.is_empty(), "no block is stranded");
}

#[test]
fn a_dedicated_source_waits_out_a_revoked_slot_and_finishes_the_file() {
    let mut dl = download(6 * EMBLOCKSIZE);
    let (mut run, first) = fetching(&mut dl, false);
    assert_eq!(run.on_revoked(&mut dl), None);
    assert_eq!(run.phase, Phase::AwaitSlot, "back to the queue");
    assert!(dl.reserved.is_empty(), "what was in flight is given back");
    assert_eq!(run.classify(OP_ACCEPTUPLOADREQ), PacketUse::Accept);
    let (out, end) = run.next_round(&mut dl, 0);
    assert_eq!(end, None);
    assert_eq!(blocks(&out), first);
}

#[test]
fn a_peer_that_dies_mid_transfer_does_not_strand_its_blocks() {
    let mut dl = download(9 * EMBLOCKSIZE);
    let (mut run, first) = fetching(&mut dl, false);
    let (mut other, second) = fetching(&mut dl, false);
    assert!(first.iter().all(|b| !second.contains(b)));
    run.close(&mut dl);
    assert_eq!(dl.reserved, second, "only its own blocks come back");
    other.close(&mut dl);
    assert!(dl.reserved.is_empty());
}

#[test]
fn packets_mean_what_the_phase_says() {
    let (run, _) = PeerRun::start(plain(), true, None);
    assert_eq!(run.classify(OP_FILEREQANSNOFIL), PacketUse::NoFile);
    assert_eq!(run.classify(OP_FILESTATUS), PacketUse::Status);
    assert_eq!(run.classify(OP_ACCEPTUPLOADREQ), PacketUse::Aux);
    let mut dl = download(EMBLOCKSIZE);
    let (mut run, _) = PeerRun::start(plain(), true, None);
    run.on_status(&mut dl, complete());
    assert_eq!(run.classify(OP_QUEUERANKING), PacketUse::Queued);
    let (mut patient, _) = PeerRun::start(plain(), false, None);
    patient.on_status(&mut dl, complete());
    assert_eq!(patient.classify(OP_QUEUERANKING), PacketUse::Aux);
    let (run, _) = fetching(&mut download(EMBLOCKSIZE), false);
    assert_eq!(run.classify(OP_FILEDESC), PacketUse::Aux);
    assert_eq!(run.classify(0x46), PacketUse::Data);
}

#[test]
fn auxiliary_packets_count_only_from_a_known_peer() {
    let (run, _) = PeerRun::start(plain(), true, Some(PEER));
    let (stranger, _) = PeerRun::start(plain(), true, None);
    assert_eq!(run.classify_aux(OP_FILEDESC), AuxUse::Comment);
    assert_eq!(stranger.classify_aux(OP_FILEDESC), AuxUse::Ignored);
    assert_eq!(
        run.classify_aux(OP_ANSWERSOURCES),
        AuxUse::Sources { sx2: false }
    );
    assert_eq!(
        run.classify_aux(OP_ANSWERSOURCES2),
        AuxUse::Sources { sx2: true }
    );
    assert_eq!(run.classify_aux(OP_PUBLICKEY), AuxUse::SecureIdent);
    assert_eq!(run.classify_aux(OP_AICHFILEHASHANS), AuxUse::AichRoot);
    assert_eq!(
        run.classify_aux(OP_AICHANSWER),
        AuxUse::Ignored,
        "nothing was asked"
    );
}

#[test]
fn we_ask_a_peer_for_sources_and_collect_its_answer() {
    let data: Vec<u8> = (0..40_000u32).map(|i| (i.wrapping_mul(7)) as u8).collect();
    let hash = ed2k_hash(&data);
    let mut dl =
        Download::new(PartStore::create(hash, data.len() as u64, b"sx.bin", None).unwrap());
    let session = PeerSession {
        ask_sources: true,
        ..plain()
    };
    let (mut run, sent) = PeerRun::start(session, false, Some(PEER));
    assert!(
        sent.contains(&Outgoing::RequestSources),
        "the peer is asked for its sources"
    );
    assert_eq!(
        run.classify_aux(OP_ANSWERSOURCES2),
        AuxUse::Sources { sx2: true }
    );
    let source = SxSource {
        ip: 0x8602_0102,
        port: 4662,
        server_ip: 0,
        server_port: 0,
        user_hash: Some([0xEE; 16]),
        crypt: Some(0x01),
    };
    run.on_sources(&mut dl, &[0x78; 16], &[source]);
    assert!(dl.take_sx_sources().is_empty(), "another file's sources");
    run.on_sources(&mut dl, &hash, &[source]);

    let (out, end) = run.on_status(&mut dl, complete());
    assert_eq!((out, end), (vec![Outgoing::StartUpload], None));
    assert_eq!(run.classify(OP_ACCEPTUPLOADREQ), PacketUse::Accept);
    let (out, end) = run.next_round(&mut dl, 0);
    assert_eq!(end, None);
    let asked = blocks(&out);
    assert_eq!(asked, vec![(0, data.len() as u64)]);
    dl.committed(0, data.len() as u64);
    let (_, drained) = run.on_blocks(&mut dl, data.len() as u64, &asked);
    assert!(drained);
    let (_, end) = run.next_round(&mut dl, 0);
    assert_eq!(
        end,
        Some(SessionEnd::Done(data.len() as u64)),
        "the transfer still completes"
    );
    assert!(dl.is_complete());

    let learned = dl.take_sx_sources();
    assert_eq!(learned.len(), 1, "the peer's sources reached the Download");
    assert_eq!(learned[0], source);
    assert_eq!(learned[0].user_hash, Some([0xEE; 16]));
    assert_eq!(learned[0].crypt, Some(0x01));
    assert!(dl.take_sx_sources().is_empty());
    assert!(dl.mark_asked_sources(PEER.ip), "first claim wins");
    assert!(
        !dl.mark_asked_sources(PEER.ip),
        "a second ask is suppressed"
    );
}

/// A session that asked its peer for the recovery data of part 1.
fn asked(dl: &mut Download) -> PeerRun {
    let session = PeerSession {
        peer_aich: 1,
        ..plain()
    };
    let (mut run, _) = PeerRun::start(session, true, Some(PEER));
    dl.set_aich_master_verified([5; 20]);
    run.on_aich_root(dl, PEER.ip, &[0x77; 16], [5; 20]);
    dl.aich.pending.push(PendingRecovery {
        part: 1,
        claim: None,
        contributors: BlockSources::new(),
    });
    assert_eq!(
        run.ask_recovery(dl, 10),
        Some(Outgoing::AichRequest {
            part: 1,
            root: [5; 20]
        })
    );
    assert_eq!(run.ask_recovery(dl, 10), None, "one ask at a time");
    assert_eq!(run.classify_aux(OP_AICHANSWER), AuxUse::AichAnswer);
    run
}

#[test]
fn a_recovery_answer_that_fits_is_verified_and_applied_by_its_owner() {
    let mut dl = download(2 * PARTSIZE);
    let mut run = asked(&mut dl);
    let answer = AichAnswer::Recovery {
        hash: [0x77; 16],
        part: 1,
        root: [5; 20],
    };
    assert_eq!(run.on_aich_answer(&mut dl, PEER.ip, Some(answer)), Some(1));
    assert!(run.on_aich_checked(&mut dl, PEER.ip, 1, true));
    assert!(!run.on_aich_checked(&mut dl, IpAddr::V4(9), 1, true));
    assert!(!run.on_aich_checked(&mut dl, PEER.ip, 1, false));
    assert_eq!(run.aich.refused, vec![1]);
    assert!(!dl.owns_aich_claim(1, PEER.ip), "bad data frees the claim");
    assert_eq!(
        run.ask_recovery(&mut dl, 20),
        None,
        "a part that was refused is not asked for again"
    );
}

#[test]
fn a_recovery_answer_that_does_not_fit_frees_the_claim() {
    let wrong = [
        None,
        Some(AichAnswer::Failure { hash: [0x77; 16] }),
        Some(AichAnswer::Failure { hash: [0x78; 16] }),
        Some(AichAnswer::Recovery {
            hash: [0x77; 16],
            part: 0,
            root: [5; 20],
        }),
        Some(AichAnswer::Recovery {
            hash: [0x77; 16],
            part: 1,
            root: [6; 20],
        }),
        Some(AichAnswer::Recovery {
            hash: [0x78; 16],
            part: 1,
            root: [5; 20],
        }),
    ];
    for answer in wrong {
        let mut dl = download(2 * PARTSIZE);
        let mut run = asked(&mut dl);
        assert_eq!(run.on_aich_answer(&mut dl, PEER.ip, answer), None);
        assert_eq!(run.aich.asked, None);
        assert_eq!(run.aich.refused, vec![1]);
        assert!(!dl.owns_aich_claim(1, PEER.ip));
    }
}
