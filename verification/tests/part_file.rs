use md4::{Digest, Md4};
use mule_engine::hash::{ed2k_hash, part_count};
use mule_engine::part_file::{data_part_count, part_size, Gap, PartFile};
use mule_engine::proto::{EMBLOCKSIZE, PARTSIZE};

fn md4(data: &[u8]) -> [u8; 16] {
    Md4::digest(data).into()
}

const H: [u8; 16] = [0xAB; 16];

#[test]
fn data_part_count_differs_from_the_ed2k_part_count_on_exact_multiples() {
    assert_eq!(data_part_count(1), 1);
    assert_eq!(data_part_count(PARTSIZE - 1), 1);
    assert_eq!(data_part_count(PARTSIZE), 1);
    assert_eq!(data_part_count(PARTSIZE + 1), 2);
    assert_eq!(data_part_count(2 * PARTSIZE), 2);
    assert_eq!(part_count(PARTSIZE), 2);
    assert_eq!(part_count(2 * PARTSIZE), 3);
}

#[test]
fn part_size_is_short_only_for_a_ragged_last_part() {
    assert_eq!(part_size(0, PARTSIZE), PARTSIZE);
    assert_eq!(part_size(0, 500), 500);
    assert_eq!(part_size(0, PARTSIZE + 10), PARTSIZE);
    assert_eq!(part_size(1, PARTSIZE + 10), 10);
}

#[test]
fn a_fresh_download_wants_the_whole_file() {
    let pf = PartFile::new(H, 1000);
    assert_eq!(pf.missing(), 1000);
    assert_eq!(
        pf.gaps(),
        &[Gap {
            start: 0,
            end: 1000
        }]
    );
    assert!(!pf.is_complete());
}

#[test]
fn filling_gaps_closes_them_and_merges() {
    let mut pf = PartFile::new(H, 1000);
    pf.fill_gap(200, 400);
    assert_eq!(
        pf.gaps(),
        &[
            Gap { start: 0, end: 200 },
            Gap {
                start: 400,
                end: 1000
            }
        ]
    );
    assert_eq!(pf.missing(), 800);

    pf.fill_gap(0, 1000);
    assert!(pf.is_complete());
    assert_eq!(pf.missing(), 0);
}

#[test]
fn filling_the_same_range_twice_is_harmless() {
    let mut pf = PartFile::new(H, 1000);
    pf.fill_gap(100, 200);
    pf.fill_gap(100, 200);
    pf.fill_gap(150, 175);
    assert_eq!(pf.missing(), 900);
}

#[test]
fn blocks_are_bounded_by_the_lattice_not_just_the_gap() {
    let pf = PartFile::new(H, 400_000);
    let b = pf.next_block_in_part(0, &[]).unwrap();
    assert_eq!(b, (0, EMBLOCKSIZE));
}

#[test]
fn a_block_can_be_shorter_than_emblocksize() {
    let pf = PartFile::new(H, 400_000);
    let mut pf2 = pf.clone();
    pf2.fill_gap(0, 2 * EMBLOCKSIZE);
    let b = pf2.next_block_in_part(0, &[]).unwrap();
    assert_eq!(b, (2 * EMBLOCKSIZE, 400_000));
    assert!(b.1 - b.0 < EMBLOCKSIZE, "tail block must be short");
}

#[test]
fn a_block_never_crosses_a_part_boundary() {
    let size = PARTSIZE + 1000;
    let pf = PartFile::new(H, size);
    let mut pf2 = pf.clone();
    pf2.fill_gap(0, 52 * EMBLOCKSIZE);
    let b = pf2.next_block_in_part(0, &[]).unwrap();
    assert_eq!(b, (52 * EMBLOCKSIZE, PARTSIZE));
    assert_eq!(b.1 - b.0, 143_360, "the documented short tail block");

    let b1 = pf.next_block_in_part(1, &[]).unwrap();
    assert_eq!(b1, (PARTSIZE, PARTSIZE + 1000));
}

#[test]
fn reserved_blocks_are_skipped_so_two_sources_do_not_collide() {
    let pf = PartFile::new(H, 400_000);
    let first = pf.next_block_in_part(0, &[]).unwrap();
    let second = pf.next_block_in_part(0, &[first]).unwrap();
    assert_eq!(second, (EMBLOCKSIZE, 2 * EMBLOCKSIZE));
    assert_ne!(first, second);

    let third = pf.next_block_in_part(0, &[first, second]).unwrap();
    assert!(pf.next_block_in_part(0, &[first, second, third]).is_none());
}

#[test]
fn next_blocks_hands_out_three_distinct_blocks() {
    let pf = PartFile::new(H, 400_000);
    let blocks = pf.next_blocks(&|_| true, &[], 3, &|_| 0, false, false);
    assert_eq!(blocks.len(), 3);
    assert_eq!(blocks[0], (0, EMBLOCKSIZE));
    assert_eq!(blocks[1], (EMBLOCKSIZE, 2 * EMBLOCKSIZE));
    assert_eq!(blocks[2], (2 * EMBLOCKSIZE, 400_000));
    assert!(blocks[0].1 <= blocks[1].0 && blocks[1].1 <= blocks[2].0);
}

#[test]
fn contiguous_prefix_stops_at_the_first_gap() {
    let mut pf = PartFile::new(H, 1_000_000);
    assert_eq!(pf.contiguous_prefix(), 0, "byte 0 is still missing");
    pf.fill_gap(0, 300_000);
    assert_eq!(
        pf.contiguous_prefix(),
        300_000,
        "prefix reaches the first gap"
    );
    pf.fill_gap(500_000, 600_000);
    assert_eq!(pf.contiguous_prefix(), 300_000);
    pf.fill_gap(300_000, 500_000);
    assert_eq!(pf.contiguous_prefix(), 600_000, "the island now joins on");
    pf.fill_gap(0, 1_000_000);
    assert_eq!(pf.contiguous_prefix(), 1_000_000, "complete -> whole file");
}

#[test]
fn preview_is_sequential_ignoring_rarity() {
    let pf = PartFile::new(H, 3 * PARTSIZE);
    let rarity = |p: u64| if p == 2 { 0 } else { 9 };

    let rare = pf.next_blocks(&|_| true, &[], 1, &rarity, false, false);
    assert!(
        rare[0].0 >= 2 * PARTSIZE,
        "rarest-first starts in the rarest part"
    );

    let prev = pf.next_blocks(&|_| true, &[], 10_000, &rarity, false, true);
    assert_eq!(
        prev[0],
        (0, EMBLOCKSIZE),
        "preview starts at the first block"
    );
    let after_part0 = prev.iter().take_while(|(s, _)| *s < PARTSIZE).count();
    assert_eq!(
        prev[after_part0].0, PARTSIZE,
        "preview continues to part 1, in order"
    );
}

#[test]
fn we_never_request_a_part_the_source_lacks() {
    let pf = PartFile::new(H, 3 * PARTSIZE);
    let blocks = pf.next_blocks(&|p| p == 2, &[], 3, &|_| 0, false, false);
    assert!(!blocks.is_empty());
    for (s, _) in blocks {
        assert!(s >= 2 * PARTSIZE, "requested outside part 2: {s}");
    }
    assert!(pf
        .next_blocks(&|_| false, &[], 3, &|_| 0, false, false)
        .is_empty());
}

#[test]
fn a_completed_file_yields_no_more_blocks() {
    let mut pf = PartFile::new(H, 400_000);
    pf.fill_gap(0, 400_000);
    assert!(pf.is_complete());
    assert!(pf
        .next_blocks(&|_| true, &[], 3, &|_| 0, false, false)
        .is_empty());
    assert!(pf.next_block_in_part(0, &[]).is_none());
}

#[test]
fn part_completion_tracks_the_gap_list() {
    let mut pf = PartFile::new(H, PARTSIZE + 1000);
    assert!(!pf.is_part_complete(0));
    pf.fill_gap(0, PARTSIZE);
    assert!(pf.is_part_complete(0));
    assert!(!pf.is_part_complete(1));
    assert!(!pf.is_complete());
}

#[test]
fn a_small_single_part_file_verifies_against_the_file_hash() {
    let data = vec![7u8; 5000];
    let hash = ed2k_hash(&data);
    let pf = PartFile::new(hash, data.len() as u64);
    assert_eq!(pf.verify_part(0, &data), Some(true));
    assert_eq!(pf.verify_part(0, &vec![8u8; 5000]), Some(false));
}

#[test]
fn an_exactly_partsize_file_verifies_against_the_part_hash() {
    let data = vec![3u8; PARTSIZE as usize];
    let file_hash = ed2k_hash(&data);
    let part_hash = md4(&data);
    assert_ne!(
        file_hash, part_hash,
        "precondition: the two genuinely differ for an exact-multiple file"
    );

    let mut pf = PartFile::new(file_hash, PARTSIZE);
    assert_eq!(data_part_count(PARTSIZE), 1, "still a single DATA part");
    pf.part_hashes = vec![part_hash, md4(b"")];

    assert_eq!(
        pf.verify_part(0, &data),
        Some(true),
        "an exactly-PARTSIZE file must verify"
    );
}

#[test]
fn a_multipart_file_verifies_each_part_against_its_own_hash() {
    let size = PARTSIZE + 1000;
    let p0 = vec![1u8; PARTSIZE as usize];
    let p1 = vec![2u8; 1000];
    let mut pf = PartFile::new(H, size);
    pf.part_hashes = vec![md4(&p0), md4(&p1)];

    assert_eq!(pf.verify_part(0, &p0), Some(true));
    assert_eq!(pf.verify_part(1, &p1), Some(true));
    assert_eq!(pf.verify_part(1, &p0), Some(false));
}

#[test]
fn verification_without_a_hashset_is_unknown_not_false() {
    let pf = PartFile::new(H, 2 * PARTSIZE);
    assert_eq!(pf.verify_part(0, b"whatever"), None);
}

#[test]
fn a_corrupt_part_is_fully_reopened_and_remembered() {
    let size = PARTSIZE + 1000;
    let mut pf = PartFile::new(H, size);
    pf.fill_gap(0, size);
    assert!(pf.is_complete());

    pf.mark_corrupt(0);
    assert!(!pf.is_complete());
    assert!(!pf.is_part_complete(0));
    assert!(pf.is_part_complete(1), "part 1 must be untouched");
    assert_eq!(pf.missing(), PARTSIZE);
    assert_eq!(pf.corrupted(), &[0]);

    pf.fill_gap(0, PARTSIZE);
    pf.clear_corrupt(0);
    assert!(pf.is_complete());
    assert!(pf.corrupted().is_empty());
}

#[test]
fn marking_the_same_part_corrupt_twice_does_not_duplicate_it() {
    let mut pf = PartFile::new(H, PARTSIZE + 1000);
    pf.fill_gap(0, PARTSIZE + 1000);
    pf.mark_corrupt(0);
    pf.mark_corrupt(0);
    assert_eq!(pf.corrupted(), &[0]);
    assert_eq!(pf.missing(), PARTSIZE);
}

#[test]
fn resume_tidies_a_messy_gap_list() {
    let pf = PartFile::resume(
        H,
        1000,
        vec![
            Gap {
                start: 500,
                end: 700,
            },
            Gap {
                start: 100,
                end: 200,
            },
            Gap {
                start: 650,
                end: 800,
            },
            Gap {
                start: 900,
                end: 900,
            },
        ],
        vec![],
    );
    assert_eq!(
        pf.gaps(),
        &[
            Gap {
                start: 100,
                end: 200
            },
            Gap {
                start: 500,
                end: 800
            },
        ]
    );
    assert_eq!(pf.missing(), 100 + 300);
}

#[test]
fn next_blocks_prefers_the_rarest_part() {
    let pf = PartFile::new(H, 3 * PARTSIZE);
    let rarity = |p: u64| if p == 2 { 0 } else { 9 };
    let blocks = pf.next_blocks(&|_| true, &[], 1, &rarity, false, false);
    assert_eq!(blocks.len(), 1);
    assert!(
        blocks[0].0 >= 2 * PARTSIZE,
        "the rarest part (2) is requested first, got {:?}",
        blocks[0]
    );
    let flat = pf.next_blocks(&|_| true, &[], 1, &|_| 0, false, false);
    assert!(flat[0].0 < PARTSIZE, "uniform rarity -> part 0 first");
}

#[test]
fn endgame_re_offers_reserved_blocks() {
    let pf = PartFile::new(H, 100_000);
    let b = pf.next_blocks(&|_| true, &[], 1, &|_| 0, false, false)[0];
    assert!(pf
        .next_blocks(&|_| true, &[b], 1, &|_| 0, false, false)
        .is_empty());
    assert_eq!(
        pf.next_blocks(&|_| true, &[b], 1, &|_| 0, true, false),
        vec![b]
    );
}

#[test]
fn the_sizes_of_the_parts_sum_to_the_files_size() {
    for size in [0, 1, PARTSIZE - 1, PARTSIZE, PARTSIZE + 1, 5 * PARTSIZE, 7 * PARTSIZE + 123] {
        let total: u64 = (0..data_part_count(size)).map(|p| part_size(p, size)).sum();
        assert_eq!(total, size);
    }
}

#[test]
fn which_blocks_are_asked_for_is_decided() {
    let mut pf = PartFile::new(H, 2 * PARTSIZE);
    pf.fill_gap(PARTSIZE, PARTSIZE + EMBLOCKSIZE);
    let ask = || pf.next_blocks(&|_| true, &[], 2, &|_| 1, false, false);
    let from = PARTSIZE + EMBLOCKSIZE;
    assert_eq!(
        ask(),
        vec![
            (from, from + EMBLOCKSIZE),
            (from + EMBLOCKSIZE, from + 2 * EMBLOCKSIZE)
        ]
    );
    assert_eq!(ask(), ask());
}
