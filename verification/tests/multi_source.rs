use md4::{Digest, Md4};
use mule_engine::aich::{aich_vote_key, PendingRecovery};
use mule_engine::aich_tree::{AichLeafHasher, AichTree};
use mule_engine::block_sources::BlockSources;
use mule_engine::hash::{ed2k_hash, Ed2kHasher};
use mule_engine::multi_source::{
    judge_blocks, Download, FileStatus, SourceOrigin, SxSource, ENDGAME_LIMIT,
};
use mule_engine::net::{IpAddr, SocketAddr};
use mule_engine::part_file::{data_part_count, part_size};
use mule_engine::part_store::{PartStore, StoreError, PR_HIGH};
use mule_engine::peer_session::STANDARD_BLOCKS_REQUEST;
use mule_engine::proto::{EMBLOCKSIZE, PARTSIZE};

fn md4(data: &[u8]) -> [u8; 16] {
    Md4::digest(data).into()
}

fn ip(a: u8, b: u8, c: u8, d: u8) -> IpAddr {
    IpAddr::V4(u32::from_be_bytes([a, b, c, d]))
}

fn addr(a: u8, b: u8, c: u8, d: u8, port: u16) -> SocketAddr {
    SocketAddr {
        ip: ip(a, b, c, d),
        port,
    }
}

fn complete() -> FileStatus {
    FileStatus {
        complete: true,
        parts: Vec::new(),
    }
}

/// A download with its bytes in memory.
struct Disk {
    dl: Download,
    bytes: Vec<u8>,
}

impl Disk {
    fn create(hash: [u8; 16], size: u64, name: &[u8]) -> Disk {
        Disk {
            dl: Download::new(PartStore::create(hash, size, name, None).unwrap()),
            bytes: vec![0; size as usize],
        }
    }

    fn commit(&mut self, start: u64, data: &[u8], source: Option<SocketAddr>) {
        if let Some(end) = self
            .dl
            .commit(start, data.len(), source, 1_000)
            .unwrap()
        {
            self.bytes[start as usize..end as usize].copy_from_slice(data);
            self.dl.committed(start, end);
        }
    }

    fn part(&self, part: u64) -> Vec<u8> {
        let (start, len) = self.dl.store.part_range(part);
        self.bytes[start as usize..(start + len) as usize].to_vec()
    }

    /// Up to `len` bytes from `start` on.
    fn read(&self, start: u64, len: u64) -> Vec<u8> {
        let from = self.bytes.len().min(start as usize);
        let to = self.bytes.len().min(from + len as usize);
        self.bytes[from..to].to_vec()
    }

    fn localize_corruption(&mut self) -> bool {
        let Some(parts) = self.dl.blameable_parts() else {
            return false;
        };
        let bad: Vec<u64> = parts
            .into_iter()
            .filter(|p| self.dl.part_differs(*p, &self.part(*p)))
            .collect();
        self.dl.localize_corruption(&bad)
    }

    fn apply_aich_recovery(
        &mut self,
        part: u64,
        spans: &[(u64, u64, [u8; 20])],
    ) -> Option<(usize, usize)> {
        let bytes = self.part(part);
        let reads = spans
            .iter()
            .map(|(start, len, _)| self.read(*start, *len))
            .collect();
        self.dl.apply_aich_recovery(part, spans, &reads, &bytes)
    }

    fn whole_file(&self) -> (Ed2kHasher, AichLeafHasher) {
        let size = self.dl.size();
        let mut md4 = Ed2kHasher::new();
        let mut aich = AichLeafHasher::new(size).unwrap();
        for p in 0..data_part_count(size) {
            md4.add_part(&self.part(p));
            aich.add_part(&self.part(p));
        }
        (md4, aich)
    }
}

fn part_block_hashes(data: &[u8], part: u64) -> Vec<(u64, u64, [u8; 20])> {
    let tree = AichTree::from_file_data(data).unwrap();
    let start = part * PARTSIZE;
    let len = part_size(part, data.len() as u64);
    let mut out = Vec::new();
    let mut at = 0;
    let mut leaf = (part * 53) as usize;
    while at < len {
        let n = EMBLOCKSIZE.min(len - at);
        out.push((start + at, n, tree.leaves[leaf]));
        at += n;
        leaf += 1;
    }
    out
}

fn patterned(size: u64, factor: u32) -> Vec<u8> {
    (0..size as u32).map(|i| (i.wrapping_mul(factor)) as u8).collect()
}

fn hashed(good: &[u8], name: &[u8]) -> Disk {
    let mut disk = Disk::create(ed2k_hash(good), good.len() as u64, name);
    disk.dl.set_hashset(vec![
        md4(&good[..PARTSIZE as usize]),
        md4(&good[PARTSIZE as usize..]),
    ]);
    disk
}

#[test]
fn aich_root_vote_follows_emule_thresholds() {
    let mut dl = Disk::create([0xAB; 16], 1_000_000, b"v.bin").dl;
    let root_a = [0xAA; 20];
    let root_b = [0xBB; 20];

    for i in 0..9u8 {
        dl.note_aich_root(ip(10, i, 0, 1), root_a);
    }
    assert_eq!(dl.aich_trusted_root(), None, "9 < MINUNIQUEIPS_TOTRUST");
    dl.note_aich_root(ip(10, 0, 15, 9), root_a);
    assert_eq!(dl.aich_trusted_root(), None, "a /20 cannot vote twice");
    dl.note_aich_root(ip(10, 9, 0, 1), root_a);
    assert_eq!(dl.aich_trusted_root(), Some(root_a));
    dl.note_aich_root(ip(172, 16, 0, 1), root_b);
    assert_eq!(dl.aich_trusted_root(), None, "90% < MINPERCENTAGE_TOTRUST");
    dl.set_aich_master_verified(root_b);
    for i in 0..12u8 {
        dl.note_aich_root(ip(192, i, 0, 1), root_a);
    }
    assert_eq!(
        dl.aich_trusted_root(),
        Some(root_b),
        "votes never displace VERIFIED"
    );
}

#[test]
fn a_vote_is_cast_by_a_network() {
    assert_eq!(aich_vote_key(ip(10, 1, 0x2F, 9)), 0x0A01_2000);
    assert_eq!(
        aich_vote_key(IpAddr::V6(0x2001_0db8_0000_0000_0000_0000_0000_0001)),
        0x2001_0db8
    );
    let mut dl = Disk::create([0xAB; 16], 1_000_000, b"v.bin").dl;
    dl.note_aich_root(ip(10, 0, 0, 1), [1; 20]);
    dl.note_aich_root(ip(10, 0, 0, 2), [2; 20]);
    assert_eq!(dl.aich.votes.len(), 1, "one network signs one root");
}

#[test]
fn aich_recovery_claim_lifecycle() {
    let size = 2 * PARTSIZE;
    let mut dl = Disk::create([0xAB; 16], size, b"c.bin").dl;
    let root = [0x5A; 20];
    dl.set_aich_master_verified(root);
    let src = ip(9, 9, 9, 9);
    dl.note_aich_root(src, root);
    assert_eq!(dl.claim_aich_recovery(src, size, 100), None);
    dl.aich.pending.push(PendingRecovery {
        part: 1,
        claim: None,
        contributors: BlockSources::new(),
    });
    let liar = ip(8, 8, 8, 8);
    dl.note_aich_root(liar, [0xEE; 20]);
    assert_eq!(dl.claim_aich_recovery(liar, size, 100), None);
    assert_eq!(dl.claim_aich_recovery(src, size, 100), Some((1, root)));
    assert_eq!(dl.claim_aich_recovery(src, size, 100), None);
    dl.aich_recovery_failed(1, src);
    assert_eq!(dl.claim_aich_recovery(src, size, 100), Some((1, root)));
    assert_eq!(dl.claim_aich_recovery(src, size, 160), None);
    assert_eq!(
        dl.claim_aich_recovery(src, size, 161),
        Some((1, root)),
        "an abandoned claim is handed on"
    );
}

#[test]
fn aich_recovery_fills_good_blocks_and_bans_the_block_poisoner() {
    let size = PARTSIZE + 4 * EMBLOCKSIZE + 500;
    let good = patterned(size, 13);
    let mut disk = hashed(&good, b"r.bin");

    let good_src = addr(1, 2, 3, 4, 4662);
    let bad_src = addr(5, 6, 7, 8, 4662);
    disk.commit(0, &good[..PARTSIZE as usize], Some(good_src));
    let p1 = PARTSIZE as usize;
    let b1_start = p1 + EMBLOCKSIZE as usize;
    let b1_end = p1 + 2 * EMBLOCKSIZE as usize;
    disk.commit(PARTSIZE, &good[p1..b1_start], Some(good_src));
    let mut poisoned = good[b1_start..b1_end].to_vec();
    poisoned[7] ^= 0xFF;
    disk.commit(b1_start as u64, &poisoned, Some(bad_src));
    disk.commit(b1_end as u64, &good[b1_end..], Some(good_src));
    assert!(disk.dl.is_complete());

    assert!(disk.localize_corruption());
    assert!(!disk.dl.is_banned(&bad_src), "part-level blame is ambiguous");
    assert!(!disk.dl.is_banned(&good_src));

    let tree = AichTree::from_file_data(&good).unwrap();
    disk.dl.set_aich_master_verified(tree.master_hash());
    let blocks = part_block_hashes(&good, 1);
    let (kept, reopened) = disk.apply_aich_recovery(1, &blocks).unwrap();
    assert_eq!(reopened, 1, "exactly the poisoned block stays open");
    assert_eq!(kept, blocks.len() - 1, "every good block filled back");
    assert_eq!(
        disk.dl.missing(),
        EMBLOCKSIZE,
        "only one 180KB block remains to re-fetch, not a 9.28MB part"
    );
    assert!(
        disk.dl.is_banned(&bad_src),
        "the BLOCK's sole contributor is banned"
    );
    assert!(
        !disk.dl.is_banned(&good_src),
        "the good source is untouched"
    );
    assert!(disk.dl.aich.pending.is_empty(), "the recovery is done");
}

#[test]
fn a_refetching_source_is_never_blamed_by_a_recovery_pass() {
    let size = PARTSIZE + 4 * EMBLOCKSIZE + 500;
    let good = patterned(size, 11);
    let mut disk = hashed(&good, b"race.bin");

    let bad_src = addr(5, 6, 7, 8, 4662);
    let rescuer = addr(1, 2, 3, 4, 4662);
    let p1 = PARTSIZE as usize;
    disk.commit(0, &good[..p1], Some(bad_src));
    let mut poisoned = good[p1..].to_vec();
    let b_start = PARTSIZE + EMBLOCKSIZE;
    poisoned[EMBLOCKSIZE as usize + 5] ^= 0xFF;
    disk.commit(PARTSIZE, &poisoned, Some(bad_src));
    assert!(disk.localize_corruption());
    assert!(disk.dl.is_banned(&bad_src), "sole contributor of the part");

    disk.dl.block_sources.note(b_start, rescuer.ip);
    let tree = AichTree::from_file_data(&good).unwrap();
    disk.dl.set_aich_master_verified(tree.master_hash());
    let blocks = part_block_hashes(&good, 1);
    disk.apply_aich_recovery(1, &blocks).unwrap();
    assert!(
        !disk.dl.is_banned(&rescuer),
        "the source REPAIRING the part must never be banned for its stale bytes"
    );
}

#[test]
fn a_root_that_recovery_disproves_is_terminally_distrusted() {
    let size = PARTSIZE + 4 * EMBLOCKSIZE + 77;
    let good = patterned(size, 19);
    let mut disk = hashed(&good, b"p.bin");
    let attacker = addr(9, 9, 9, 9, 4662);
    let p1 = PARTSIZE as usize;
    let mut poisoned = good.clone();
    poisoned[p1 + 3] ^= 0xFF;
    disk.commit(0, &poisoned[..p1], Some(attacker));
    disk.commit(PARTSIZE, &poisoned[p1..], Some(attacker));
    assert!(disk.localize_corruption());

    let evil_root = AichTree::from_file_data(&poisoned).unwrap().master_hash();
    disk.dl.set_aich_master_verified(evil_root);
    let blocks = part_block_hashes(&poisoned, 1);
    let n = blocks.len();
    assert_eq!(disk.apply_aich_recovery(1, &blocks), Some((0, n)));

    assert_eq!(
        disk.dl.aich_trusted_root(),
        None,
        "a root disproved by the part MD4 is dropped, not kept"
    );
    assert!(
        !disk.dl.is_complete(),
        "the part is re-opened, not accepted"
    );
    for i in 0..12u8 {
        disk.dl.note_aich_root(ip(10, i, 0, 1), evil_root);
    }
    assert_eq!(
        disk.dl.aich_trusted_root(),
        None,
        "AICH_ERROR is terminal - votes cannot revive it"
    );
}

#[test]
fn only_the_claim_owner_can_release_or_apply() {
    let size = 2 * PARTSIZE;
    let mut dl = Disk::create([0xAB; 16], size, b"o.bin").dl;
    let root = [0x5A; 20];
    dl.set_aich_master_verified(root);
    let a = ip(1, 1, 1, 1);
    let b = ip(2, 2, 2, 2);
    dl.note_aich_root(a, root);
    dl.note_aich_root(b, root);
    dl.aich.pending.push(PendingRecovery {
        part: 1,
        claim: None,
        contributors: BlockSources::new(),
    });
    assert_eq!(dl.claim_aich_recovery(a, size, 0), Some((1, root)));
    assert!(dl.owns_aich_claim(1, a) && !dl.owns_aich_claim(1, b));
    dl.aich_recovery_failed(1, b);
    assert!(dl.owns_aich_claim(1, a), "a non-owner cannot release");
    dl.aich_recovery_failed(1, a);
    assert_eq!(dl.claim_aich_recovery(b, size, 0), Some((1, root)));
    assert!(dl.owns_aich_claim(1, b) && !dl.owns_aich_claim(1, a));
}

#[test]
fn a_span_past_the_end_of_the_file_changes_nothing() {
    let mut disk = Disk::create([0xAB; 16], 1000, b"s.bin");
    assert_eq!(disk.apply_aich_recovery(0, &[(990, 11, [0; 20])]), None);
    assert_eq!(judge_blocks(&[(u64::MAX, 1, [0; 20])], &vec![vec![0]]), None);
    assert_eq!(judge_blocks(&[(0, 1, [0; 20])], &vec![]), None);
    assert_eq!(disk.dl.missing(), 1000);
}

#[test]
fn a_span_of_another_part_is_judged_too() {
    let size = PARTSIZE + 2 * EMBLOCKSIZE;
    let good = patterned(size, 29);
    let mut disk = hashed(&good, b"q.bin");
    disk.bytes.copy_from_slice(&good);
    let mut spans = part_block_hashes(&good, 0);
    spans.truncate(1);
    spans.push((PARTSIZE, 10, [0; 20]));
    assert_eq!(disk.apply_aich_recovery(1, &spans), Some((1, 1)));
    assert_eq!(disk.dl.missing(), size - EMBLOCKSIZE);
}

#[test]
fn verify_pass_also_builds_the_aich_tree() {
    let size = PARTSIZE + 300_000;
    let good = patterned(size, 23);
    let hash = ed2k_hash(&good);
    let mut disk = Disk::create(hash, size, b"a.bin");
    disk.commit(0, &good[..PARTSIZE as usize], None);
    disk.commit(PARTSIZE, &good[PARTSIZE as usize..], None);
    let (md4, aich) = disk.whole_file();
    let (ok, set) = disk
        .dl
        .verify_whole_file_and_aich(Some(&md4), Some(aich.clone()), size, hash);
    assert!(ok, "md4 verifies");
    let (root, leaves) = set.expect("aich set built in the same pass");
    let want = AichTree::from_file_data(&good).unwrap();
    assert_eq!(root, want.master_hash());
    assert_eq!(leaves, want.leaves);
    let (ok2, set2) = disk
        .dl
        .verify_whole_file_and_aich(Some(&md4), Some(aich), size, [0xEE; 16]);
    assert!(!ok2 && set2.is_none());
    assert!(!disk.dl.verify_whole_file(None, size, hash), "unread is unproven");
}

#[test]
fn localize_corruption_re_opens_only_the_bad_part() {
    let size = PARTSIZE + 300_000;
    let good = patterned(size, 17);
    let hash = ed2k_hash(&good);
    let mut disk = hashed(&good, b"loc.bin");

    let good_src = addr(1, 2, 3, 4, 4662);
    let bad_src = addr(5, 6, 7, 8, 4662);
    disk.commit(0, &good[..PARTSIZE as usize], Some(good_src));
    let mut bad = good[PARTSIZE as usize..].to_vec();
    bad[0] ^= 0xFF;
    disk.commit(PARTSIZE, &bad, Some(bad_src));
    assert!(disk.dl.is_complete(), "all bytes present");
    assert!(
        !disk
            .dl
            .verify_whole_file(Some(&disk.whole_file().0), size, hash),
        "the corrupt part fails the whole-file hash"
    );

    assert!(disk.localize_corruption(), "localized the bad part");
    assert!(!disk.dl.is_complete(), "part 1 re-opened");
    assert_eq!(
        disk.dl.missing(),
        part_size(1, size),
        "ONLY part 1 was re-opened, not the whole file"
    );
    assert!(
        disk.dl.is_banned(&bad_src),
        "the corrupt part's source is banned"
    );
    assert!(
        !disk.dl.is_banned(&good_src),
        "the source of the GOOD part is never banned"
    );
    assert!(
        disk.dl.is_banned(&addr(5, 6, 7, 8, 51000)),
        "the ban catches the same IP on a new port (LowID callback case)"
    );
    assert_eq!(disk.dl.banned_sources(), vec![ip(5, 6, 7, 8)]);
}

#[test]
fn a_second_corruption_round_re_attributes_instead_of_blaming_the_first_source() {
    let size = PARTSIZE + 300_000;
    let good = patterned(size, 23);
    let mut disk = hashed(&good, b"reattr.bin");
    let a = addr(1, 1, 1, 1, 4662);
    let b = addr(2, 2, 2, 2, 4662);
    disk.commit(0, &good[..PARTSIZE as usize], Some(a));
    let mut bad = good[PARTSIZE as usize..].to_vec();
    bad[0] ^= 0xFF;

    disk.commit(PARTSIZE, &bad, Some(a));
    assert!(disk.localize_corruption());
    disk.commit(PARTSIZE, &bad, Some(b));
    assert!(disk.localize_corruption());

    let evidence = disk.dl.aich.evidence_for(1);
    assert_eq!(
        evidence.sole_contributor(),
        Some(b.ip),
        "the source that actually re-sent the bad blocks is on the hook, and it alone"
    );
    assert_eq!(evidence.sole_source(PARTSIZE), Some(b.ip));
    assert_eq!(evidence.sole_source(PARTSIZE + EMBLOCKSIZE), Some(b.ip));
}

#[test]
fn a_part_from_two_sources_bans_neither_no_false_positive() {
    let size = PARTSIZE + 300_000;
    let good = patterned(size, 17);
    let mut disk = hashed(&good, b"loc.bin");
    let a = addr(1, 1, 1, 1, 4662);
    let b = addr(2, 2, 2, 2, 4662);
    disk.commit(0, &good[..PARTSIZE as usize], Some(a));
    let mut bad = good[PARTSIZE as usize..].to_vec();
    bad[0] ^= 0xFF;
    let half = bad.len() / 2;
    disk.commit(PARTSIZE, &bad[..half], Some(a));
    disk.commit(PARTSIZE + half as u64, &bad[half..], Some(b));

    assert!(disk.localize_corruption(), "localized the bad part");
    assert!(
        disk.dl.banned_sources().is_empty(),
        "a part with two contributors blames neither"
    );
}

#[test]
fn localize_corruption_declines_without_a_hashset() {
    let file = patterned(400_000, 13);
    let mut disk = Disk::create(ed2k_hash(&file), file.len() as u64, b"one.bin");
    disk.commit(0, &file, None);
    assert!(!disk.localize_corruption(), "no hashset -> cannot localize");
    let good = patterned(PARTSIZE + 10, 3);
    let mut disk = hashed(&good, b"whole.bin");
    disk.commit(0, &good[..PARTSIZE as usize], None);
    disk.commit(PARTSIZE, &good[PARTSIZE as usize..], None);
    assert!(!disk.localize_corruption(), "every part hashes fine");
    assert!(disk.dl.is_complete());
}

#[test]
fn finish_to_refuses_to_move_a_cancelled_download() {
    let mut dl = Disk::create([0x44; 16], 500, b"c.bin").dl;
    assert!(dl.may_finish());
    dl.cancel();
    assert!(dl.is_cancelled());
    assert!(!dl.may_finish(), "cancelled -> no move");
}

#[test]
fn fetch_and_finalize_guards_admit_exactly_one_claimant() {
    let mut dl = Disk::create([0x55; 16], 500, b"g.bin").dl;
    assert!(dl.try_begin_fetch());
    assert!(!dl.try_begin_fetch(), "a second fetch task is refused");
    assert!(dl.is_fetching());
    dl.end_fetch();
    assert!(!dl.is_fetching());
    assert!(dl.try_begin_fetch(), "re-claimable after the task ends");
    assert!(dl.try_begin_finalize());
    assert!(!dl.try_begin_finalize(), "a second finalize is refused");
    dl.reset_finalize();
    assert!(
        dl.try_begin_finalize(),
        "re-claimable after a failed finalize"
    );
}

#[test]
fn the_badge_counts_sources_in_play_not_every_one_ever_seen() {
    let mut dl = Disk::create([0x44; 16], 400_000, b"f.bin").dl;
    let a = addr(1, 1, 1, 1, 4662);
    let b = addr(2, 2, 2, 2, 4662);
    dl.note_source("a".into(), a, false, false, SourceOrigin::Server, 10_000);
    dl.note_source("b".into(), b, false, false, SourceOrigin::Kad, 10_000);
    assert_eq!(dl.source_origins(10_000), (1, 1, 0), "both fresh");
    for s in dl.sources.iter_mut() {
        s.last_seen = 0;
    }
    assert_eq!(
        dl.source_origins(10_000),
        (0, 0, 0),
        "stale sources must not be counted"
    );
    assert_eq!(dl.commit(0, 32, Some(a), 10_000), Ok(Some(32)));
    assert_eq!(
        dl.source_origins(10_000),
        (1, 0, 0),
        "the delivering source is live again; the silent one is not"
    );
}

#[test]
fn source_origin_counts_split_by_discovery_channel() {
    let mut dl = Disk::create([0x33; 16], 400_000, b"o.bin").dl;
    let srv = addr(1, 2, 3, 4, 4662);
    assert_eq!(dl.source_origins(50), (0, 0, 0), "nothing connected yet");
    dl.note_source("a".into(), srv, false, false, SourceOrigin::Server, 50);
    dl.note_source(
        "b".into(),
        addr(5, 6, 7, 8, 4662),
        false,
        false,
        SourceOrigin::Kad,
        50,
    );
    dl.note_source(
        "c".into(),
        addr(9, 9, 9, 9, 4662),
        false,
        false,
        SourceOrigin::PeerExchange,
        50,
    );
    dl.note_source(
        "d".into(),
        addr(7, 7, 7, 7, 5001),
        false,
        true,
        SourceOrigin::Server,
        50,
    );
    assert_eq!(
        dl.source_origins(50),
        (2, 1, 1),
        "server (incl. the callback), kad, source-exchange"
    );
    dl.note_source("a2".into(), srv, true, false, SourceOrigin::Server, 50);
    assert_eq!(dl.source_origins(50), (2, 1, 1), "upsert, not append");
}

#[test]
fn note_source_upserts_and_preserves_learned_fields() {
    let mut dl = Disk::create([0x11; 16], 400_000, b"s.bin").dl;
    let a = addr(1, 2, 3, 4, 4662);
    let b = addr(5, 6, 7, 8, 4662);
    dl.note_source("aMule 3.0.1".into(), a, true, false, SourceOrigin::Server, 1);
    dl.note_source("eMule 0.50a".into(), b, false, true, SourceOrigin::Kad, 1);
    dl.note_source_comment(a, 5, "great".into());
    dl.note_source_verified(a);
    dl.note_source("aMule 3.0.1".into(), a, true, false, SourceOrigin::Server, 2);

    assert_eq!(dl.sources().len(), 2, "one entry per address");
    let sa = dl.sources().iter().find(|s| s.addr == a).unwrap();
    assert_eq!(sa.software, "aMule 3.0.1");
    assert!(sa.obfuscated && !sa.low_id);
    assert_eq!(sa.rating, 5);
    assert_eq!(sa.comment, "great");
    assert!(sa.verified, "verification survives a base re-note");
    let sb = dl.sources.iter().find(|s| s.addr == b).unwrap();
    assert!(!sb.obfuscated && sb.low_id && sb.rating == 0 && !sb.verified);
}

#[test]
fn a_cancelled_download_hands_out_no_more_blocks() {
    let mut dl = Disk::create([0xCD; 16], 400_000, b"y.bin").dl;
    assert!(
        !dl.take_blocks(&complete(), 3).is_empty(),
        "a live download should hand out blocks"
    );
    dl.cancel();
    assert!(
        dl.take_blocks(&complete(), 3).is_empty(),
        "a cancelled download must hand out no blocks"
    );
}

#[test]
fn a_small_file_is_fully_reserved_by_its_own_workers() {
    let size = 9 * EMBLOCKSIZE;
    let mut dl = Disk::create([0x66; 16], size, b"small.bin").dl;
    assert!(size > ENDGAME_LIMIT);
    for w in 0..3 {
        let got = dl.take_blocks(&complete(), STANDARD_BLOCKS_REQUEST);
        assert_eq!(got.len(), STANDARD_BLOCKS_REQUEST, "worker {w} reserves 3");
    }
    assert!(
        dl.has_needed_part(&complete()),
        "the file is entirely missing, so the peer does hold parts we need"
    );
    assert!(dl
        .take_blocks(&complete(), STANDARD_BLOCKS_REQUEST)
        .is_empty());
}

#[test]
fn an_exactly_partsize_file_still_fetches_its_hashset() {
    let mut dl = Disk::create([0xAB; 16], PARTSIZE, b"exact.bin").dl;
    assert_eq!(data_part_count(PARTSIZE), 1, "one DATA part");
    assert!(dl.needs_hashset(), "must still fetch the hashset");
    dl.set_hashset(vec![[1; 16], [2; 16]]);
    assert!(!dl.needs_hashset());
    assert_eq!(dl.part_hashes(), vec![[1; 16], [2; 16]]);
}

#[test]
fn taken_blocks_come_back_when_they_are_released() {
    let mut dl = Disk::create([1; 16], 9 * EMBLOCKSIZE, b"r.bin").dl;
    let first = dl.take_blocks(&complete(), 2);
    let second = dl.take_blocks(&complete(), 2);
    assert!(first.iter().all(|b| !second.contains(b)), "handed out once");
    dl.release(&first);
    assert_eq!(dl.reserved, second);
    assert_eq!(dl.take_blocks(&complete(), 2), first);
}

#[test]
fn a_commit_past_the_end_is_refused_but_noted() {
    let mut dl = Disk::create([1; 16], 100, b"r.bin").dl;
    assert_eq!(dl.commit(50, 51, None, 7), Err(StoreError::PastEnd));
    assert_eq!(dl.commit(50, 0, None, 8), Ok(None));
    assert!(dl.is_receiving(9, 3));
    assert!(!dl.is_receiving(100, 3));
}

#[test]
fn the_small_facts_of_a_download() {
    let mut dl = Disk::create([9; 16], 3 * PARTSIZE, b"n\xffame").dl;
    assert_eq!(dl.hash(), [9; 16]);
    assert_eq!(dl.size(), 3 * PARTSIZE);
    assert_eq!(dl.name(), "n\u{fffd}ame");
    dl.set_priority(PR_HIGH);
    assert_eq!(dl.priority(), PR_HIGH);
    dl.mark_retried(44);
    assert_eq!(dl.last_retry_at(), 44);
    dl.note_status(&FileStatus {
        complete: false,
        parts: vec![true, false, true],
    });
    assert_eq!(dl.availability, vec![1, 0, 1]);
    assert!(dl.mark_asked_sources(ip(1, 1, 1, 1)));
    assert!(!dl.mark_asked_sources(ip(1, 1, 1, 1)), "asked once");
    let sx = SxSource {
        ip: 1,
        port: 2,
        server_ip: 3,
        server_port: 4,
        user_hash: Some([5; 16]),
        crypt: None,
    };
    dl.note_sx_sources(&[sx]);
    assert_eq!(dl.take_sx_sources(), vec![sx]);
    assert!(dl.take_sx_sources().is_empty());
    dl.set_preview(true);
    assert!(dl.is_preview());
    assert_eq!(dl.take_blocks(&complete(), 1), vec![(0, EMBLOCKSIZE)]);
    dl.committed(0, 3 * PARTSIZE);
    assert!(dl.is_complete());
    dl.reset_all_gaps();
    assert_eq!(dl.missing(), 3 * PARTSIZE);
}

#[test]
fn ratings_are_averaged_over_those_who_rated() {
    let mut dl = Disk::create([1; 16], 1000, b"r.bin").dl;
    assert_eq!(dl.rating_summary(), (0, false));
    for (i, rating) in [(1u8, 0u8), (2, 5), (3, 2), (4, 9)] {
        let a = addr(i, i, i, i, 4662);
        dl.note_source("x".into(), a, false, false, SourceOrigin::Kad, 1);
        dl.note_source_comment(a, rating, String::new());
    }
    assert_eq!(
        dl.rating_summary(),
        (4, false),
        "5, 2 and 9 cut to 5; the unrated one does not count"
    );
    dl.note_source_comment(addr(1, 1, 1, 1, 4662), 0, "fake".into());
    assert_eq!(dl.rating_summary(), (4, true));
    dl.note_source_comment(addr(9, 9, 9, 9, 1), 1, "nobody".into());
    assert_eq!(dl.sources().len(), 4, "a comment of a stranger is dropped");
}

#[test]
fn availability_counts_the_wanted_parts_that_no_one_has() {
    let mut dl = Disk::create([1; 16], 3 * PARTSIZE, b"a.bin").dl;
    assert_eq!(dl.part_availability(), (3, 3));
    dl.note_status(&FileStatus {
        complete: false,
        parts: vec![true, true],
    });
    assert_eq!(dl.part_availability(), (3, 1));
    dl.committed(0, PARTSIZE);
    assert_eq!(dl.store.pf.wanted_parts(), vec![1, 2]);
    assert_eq!(dl.part_availability(), (2, 1));
    assert_eq!(dl.ready_parts(), vec![0]);
    assert_eq!(dl.preview_target(), Some(PARTSIZE));
    assert_eq!(dl.contiguous_prefix(), PARTSIZE);
    dl.reset_all_gaps();
    assert_eq!(dl.preview_target(), None);
}

#[test]
fn re_opening_the_file_keeps_the_list_of_corrupted_parts() {
    let mut dl = Disk::create([1; 16], 2 * PARTSIZE, b"c.bin").dl;
    dl.committed(0, 2 * PARTSIZE);
    dl.store.pf.mark_corrupt(1);
    dl.reset_all_gaps();
    assert_eq!(dl.missing(), 2 * PARTSIZE);
    assert_eq!(dl.store.pf.corrupted(), &[1]);
}

#[test]
fn a_fresh_download_has_no_votes_reports_or_recoveries() {
    let dl = Disk::create([1; 16], 1000, b"f.bin").dl;
    assert!(dl.aich.votes.is_empty() && dl.aich.reported.is_empty() && dl.aich.pending.is_empty());
    assert_eq!(dl.aich_trusted_root(), None);
}
