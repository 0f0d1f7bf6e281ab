use md4::{Digest, Md4};
use mule_engine::hash::ed2k_hash;
use mule_engine::part_file::Gap;
use mule_engine::part_store::{
    format_corrupted, parse_corrupted, part_index, part_names, read_part_met, resume_order,
    would_exhaust_space, write_part_met, PartMet, PartStore, StoreError, FT_DLPRIORITY,
    FT_FILENAME, FT_FILESIZE, FT_OLDDLPRIORITY, FT_STATUS, MIN_FREE_MARGIN, OLD_MAX_FILE_SIZE,
    PARTFILE_VERSION, PARTFILE_VERSION_LARGEFILE, PR_AUTO, PR_HIGH, PR_LOW, PR_NORMAL,
};
use mule_engine::proto::PARTSIZE;
use mule_engine::tags::{Tag, TagName, TagValue};
use mule_engine::wire::IoError;

fn md4(data: &[u8]) -> [u8; 16] {
    Md4::digest(data).into()
}

/// A download with its bytes in memory.
struct Disk {
    store: PartStore,
    bytes: Vec<u8>,
}

impl Disk {
    fn create(hash: [u8; 16], size: u64, name: &[u8]) -> Disk {
        Disk {
            store: PartStore::create(hash, size, name, None).unwrap(),
            bytes: vec![0; size as usize],
        }
    }

    fn reopen(self) -> Disk {
        let met = self.store.save_met();
        Disk {
            store: PartStore::open(Some(&met), None).unwrap(),
            bytes: self.bytes,
        }
    }

    fn write_block(&mut self, start: u64, data: &[u8]) -> Result<(), StoreError> {
        if let Some(end) = self.store.plan_write(start, data.len())? {
            self.bytes[start as usize..end as usize].copy_from_slice(data);
            self.store.block_written(start, end);
        }
        Ok(())
    }

    fn read_part(&self, part: u64) -> Vec<u8> {
        let (start, len) = self.store.part_range(part);
        self.bytes[start as usize..(start + len) as usize].to_vec()
    }

    fn verify_part(&mut self, part: u64) -> Option<bool> {
        let data = self.read_part(part);
        self.store.verify_part(part, &data)
    }
}

#[test]
fn saving_promotes_the_previous_met_to_a_bak_and_open_recovers_from_it() {
    let mut st = PartStore::create([0x5A; 16], 40_000, b"first.bin", None).unwrap();
    let bak = st.save_met();
    st.name = b"second.bin".to_vec();
    let live = st.save_met();
    let old = read_part_met(&bak).unwrap();
    let old_name = old.tags.iter().find_map(|t| match (&t.name, &t.value) {
        (TagName::Id(FT_FILENAME), TagValue::Str(v)) => Some(v.clone()),
        _ => None,
    });
    assert_eq!(old_name.as_deref(), Some(&b"first.bin"[..]));

    let opened = PartStore::open(Some(&live), Some(&bak)).unwrap();
    assert_eq!(opened.name, b"second.bin".to_vec());
    let recovered = PartStore::open(Some(b"garbage not a met"), Some(&bak))
        .expect("open must fall back to the .bak");
    assert_eq!(recovered.name, b"first.bin".to_vec());
    let recovered = PartStore::open(None, Some(&bak)).expect("a MISSING met must also fall back");
    assert_eq!(recovered.name, b"first.bin".to_vec());
    assert!(matches!(
        PartStore::open(None, Some(b"garbage not a met")),
        Err(StoreError::BadMet(IoError::BadHeader(b'g')))
    ));
    assert!(matches!(
        PartStore::open(Some(b"garbage not a met"), None),
        Err(StoreError::Missing)
    ));
}

#[test]
fn the_space_guard_refuses_only_what_would_exhaust_the_volume() {
    assert!(!would_exhaust_space(1_000, None));
    assert!(!would_exhaust_space(1_000, Some(10 * MIN_FREE_MARGIN)));
    assert!(would_exhaust_space(
        MIN_FREE_MARGIN,
        Some(MIN_FREE_MARGIN + 1_000)
    ));
    assert!(would_exhaust_space(u64::MAX / 2, Some(1_000_000)));
    assert!(would_exhaust_space(u64::MAX, Some(u64::MAX)));
}

#[test]
fn create_refuses_a_file_the_volume_cannot_hold() {
    let err = match PartStore::create([0xAB; 16], u64::MAX / 2, b"huge.bin", Some(1 << 40)) {
        Err(e) => e,
        Ok(_) => panic!("a file larger than the volume must be refused up front"),
    };
    assert_eq!(err, StoreError::NoSpace { size: u64::MAX / 2 });
    assert!(
        err.message().contains("free space"),
        "the refusal must say WHY: {}",
        err.message()
    );
    assert_eq!(
        StoreError::NoSpace { size: 7 }.message(),
        "not enough free space for 7 bytes (keeping 268435456 bytes free)"
    );
    PartStore::create([0xCD; 16], 4096, b"ok.bin", Some(1 << 40)).unwrap();
}

#[test]
fn the_large_file_met_boundary_is_old_max_not_u32_max() {
    let size = OLD_MAX_FILE_SIZE + 1;
    let s = PartStore::create([0xCD; 16], size, b"huge.bin", None).unwrap();
    let met = s.save_met();
    assert_eq!(
        met[0], PARTFILE_VERSION_LARGEFILE,
        "a file just over OLD_MAX_FILE_SIZE must use the 0xE2 large-file met"
    );
    let reopened = PartStore::open(Some(&met), None).unwrap();
    assert_eq!(reopened.pf.size, size);
    let small = PartStore::create([0xCD; 16], OLD_MAX_FILE_SIZE, b"b.bin", None).unwrap();
    assert_eq!(small.save_met()[0], 0xE0);
}

#[test]
fn writes_land_at_the_right_offsets_and_close_their_gaps() {
    let data: Vec<u8> = (0..5000u32).map(|i| i as u8).collect();
    let hash = ed2k_hash(&data);
    let mut s = Disk::create(hash, data.len() as u64, b"x.bin");

    s.write_block(2000, &data[2000..5000]).unwrap();
    assert_eq!(s.store.pf.missing(), 2000);
    s.write_block(0, &data[0..2000]).unwrap();
    assert!(s.store.is_complete());

    assert_eq!(s.read_part(0), data);
    assert_eq!(s.verify_part(0), Some(true));
}

#[test]
fn paused_persists_via_ft_status_and_only_when_paused() {
    let mut s = PartStore::create([0x5A; 16], 500, b"p.bin", None).unwrap();
    assert!(!s.paused, "new downloads are not paused");
    let tag = [0x03u8, 0x01, 0x00, FT_STATUS, 0x01, 0x00, 0x00, 0x00];
    let met = s.save_met();
    assert!(
        !met.windows(8).any(|w| w == tag),
        "an unpaused met carries no FT_STATUS tag"
    );

    s.paused = true;
    let met = s.save_met();
    assert!(
        met.windows(8).any(|w| w == tag),
        "paused writes FT_STATUS(0x14) as UINT32 = 1"
    );
    let reopened = PartStore::open(Some(&met), None).unwrap();
    assert!(reopened.paused, "the pause survives a restart");
}

#[test]
fn priority_persists_byte_faithfully_and_reads_back() {
    let mut s = PartStore::create([0x5A; 16], 500, b"p.bin", None).unwrap();
    assert_eq!(s.priority, PR_NORMAL, "new downloads default to Normal");

    s.priority = PR_HIGH;
    let met = s.save_met();
    let dl = [0x03u8, 0x01, 0x00, FT_DLPRIORITY, 0x02, 0x00, 0x00, 0x00];
    let old = [0x03u8, 0x01, 0x00, FT_OLDDLPRIORITY, 0x02, 0x00, 0x00, 0x00];
    assert!(
        met.windows(8).any(|w| w == dl),
        "FT_DLPRIORITY(0x18) must be a UINT32 tag = 2"
    );
    assert!(
        met.windows(8).any(|w| w == old),
        "FT_OLDDLPRIORITY(0x13) must be a UINT32 tag = 2"
    );

    let reopened = PartStore::open(Some(&met), None).unwrap();
    assert_eq!(reopened.priority, PR_HIGH);
}

#[test]
fn auto_reads_as_high_and_other_unknowns_read_as_normal() {
    let mut s = PartStore::create([0x11; 16], 500, b"a.bin", None).unwrap();
    s.priority = PR_AUTO;
    assert_eq!(
        PartStore::open(Some(&s.save_met()), None).unwrap().priority,
        PR_HIGH
    );

    s.priority = 3;
    assert_eq!(
        PartStore::open(Some(&s.save_met()), None).unwrap().priority,
        PR_NORMAL
    );
}

/// The download of a sidecar with these tags behind its size.
fn opened(tags: Vec<Tag>) -> PartStore {
    let mut all = vec![Tag::id(FT_FILESIZE, TagValue::U32(500))];
    all.extend(tags);
    let met = write_part_met(&PartMet {
        version: PARTFILE_VERSION,
        date: 0,
        file_hash: [0x11; 16],
        part_hashes: vec![],
        tags: all,
    });
    PartStore::open(Some(&met), None).unwrap()
}

#[test]
fn the_modern_priority_tag_is_preferred_wherever_it_stands() {
    let modern = |v| Tag::id(FT_DLPRIORITY, v);
    let legacy = |v| Tag::id(FT_OLDDLPRIORITY, v);
    let low_then_high = opened(vec![legacy(TagValue::U32(0)), modern(TagValue::U32(2))]);
    assert_eq!(low_then_high.priority, PR_HIGH);
    let high_then_low = opened(vec![modern(TagValue::U32(2)), legacy(TagValue::U32(0))]);
    assert_eq!(high_then_low.priority, PR_HIGH);
    assert_eq!(opened(vec![legacy(TagValue::U32(0))]).priority, PR_LOW);
    assert_eq!(opened(vec![]).priority, PR_NORMAL);
}

#[test]
fn an_unknown_priority_is_normal_at_any_width() {
    for v in [3u32, 4, 6, 255, 256, 258, 0x1_0000, u32::MAX] {
        let s = opened(vec![Tag::id(FT_DLPRIORITY, TagValue::U32(v))]);
        assert_eq!(s.priority, PR_NORMAL, "{v}");
    }
    let priority = |v| opened(vec![Tag::id(FT_DLPRIORITY, v)]).priority;
    assert_eq!(priority(TagValue::U8(0)), PR_LOW);
    assert_eq!(priority(TagValue::U16(5)), PR_HIGH);
    assert_eq!(priority(TagValue::U64(2)), PR_HIGH);
    assert_eq!(priority(TagValue::U64(1 << 32)), PR_NORMAL);
    assert_eq!(priority(TagValue::Str(b"2".to_vec())), PR_NORMAL);
}

#[test]
fn any_nonzero_status_means_paused() {
    let paused = |v| opened(vec![Tag::id(FT_STATUS, v)]).paused;
    assert!(paused(TagValue::U8(1)));
    assert!(paused(TagValue::U16(256)));
    assert!(paused(TagValue::U32(1 << 16)));
    assert!(paused(TagValue::U64(1 << 32)));
    assert!(!paused(TagValue::U32(0)));
    assert!(!opened(vec![]).paused);
}

#[test]
fn copy_prefix_snapshots_the_contiguous_leading_bytes() {
    let data: Vec<u8> = (0..5000u32).map(|i| i as u8).collect();
    let mut s = Disk::create(ed2k_hash(&data), data.len() as u64, b"m.bin");
    s.write_block(0, &data[0..3000]).unwrap();
    s.write_block(4000, &data[4000..5000]).unwrap();
    assert_eq!(
        s.store.pf.contiguous_prefix(),
        3000,
        "only the leading run counts, not the island"
    );
    assert_eq!(s.bytes[..3000], data[..3000]);
}

#[test]
fn a_block_past_the_end_is_refused() {
    let mut s = Disk::create([0; 16], 100, b"x");
    assert_eq!(s.write_block(50, &[0u8; 100]), Err(StoreError::PastEnd));
    assert_eq!(s.store.plan_write(u64::MAX, 2), Err(StoreError::PastEnd));
    assert_eq!(s.store.plan_write(50, 0), Ok(None));
    assert_eq!(s.store.plan_write(50, 50), Ok(Some(100)));
}

#[test]
fn a_download_resumes_from_disk_with_its_gaps_intact() {
    let data: Vec<u8> = (0..9000u32).map(|i| (i * 7) as u8).collect();
    let hash = ed2k_hash(&data);

    let mut s = Disk::create(hash, 9000, b"resume.bin");
    s.write_block(0, &data[0..3000]).unwrap();
    s.write_block(6000, &data[6000..9000]).unwrap();

    let mut s = s.reopen();
    assert_eq!(s.store.pf.hash, hash);
    assert_eq!(s.store.pf.size, 9000);
    assert_eq!(s.store.name, b"resume.bin");
    assert_eq!(
        s.store.pf.gaps(),
        &[Gap {
            start: 3000,
            end: 6000
        }]
    );
    assert_eq!(s.store.pf.missing(), 3000);

    s.write_block(3000, &data[3000..6000]).unwrap();
    assert!(s.store.is_complete());
    assert_eq!(s.read_part(0), data);
    assert_eq!(s.verify_part(0), Some(true));
}

#[test]
fn a_corrupt_part_is_re_gapped_and_survives_a_restart() {
    let size = PARTSIZE + 1000;
    let good0 = vec![1u8; PARTSIZE as usize];
    let p1 = vec![2u8; 1000];

    let mut s = Disk::create([0xAB; 16], size, b"c.bin");
    s.store.pf.part_hashes = vec![md4(&good0), md4(&p1)];
    s.write_block(0, &vec![9u8; PARTSIZE as usize]).unwrap();
    s.write_block(PARTSIZE, &p1).unwrap();
    assert!(s.store.is_complete());

    assert_eq!(s.verify_part(0), Some(false));
    assert_eq!(s.verify_part(1), Some(true));
    assert!(!s.store.is_complete());
    assert_eq!(s.store.pf.missing(), PARTSIZE);
    assert_eq!(s.store.pf.corrupted(), &[0]);

    let mut s = s.reopen();
    assert_eq!(s.store.pf.corrupted(), &[0]);
    assert_eq!(s.store.pf.missing(), PARTSIZE);

    s.store.pf.part_hashes = vec![md4(&good0), md4(&p1)];
    s.write_block(0, &good0).unwrap();
    assert_eq!(s.verify_part(0), Some(true));
    assert!(s.store.pf.corrupted().is_empty());
    assert!(s.store.is_complete());
}

#[test]
fn a_met_without_a_size_or_with_a_cut_tag_is_refused() {
    let mut met = PartStore::create([1; 16], 10, b"n", None).unwrap().met();
    met.tags.remove(1);
    assert!(matches!(
        PartStore::from_met(met),
        Err(StoreError::NoFileSize)
    ));
    let whole = PartStore::create([1; 16], 10, b"n", None).unwrap().save_met();
    assert!(matches!(
        PartStore::open(None, Some(&whole[..whole.len() - 1])),
        Err(StoreError::BadMet(IoError::UnexpectedEof))
    ));
}

#[test]
fn errors_say_what_is_wrong() {
    assert_eq!(StoreError::Missing.message(), "no part.met can be read");
    assert_eq!(
        StoreError::BadMet(IoError::BadTag(9)).message(),
        "part.met: bad tag type 9"
    );
    assert_eq!(
        StoreError::NoFileSize.message(),
        "part.met has no filesize"
    );
    assert_eq!(
        StoreError::PastEnd.message(),
        "block runs past the end of the file"
    );
}

#[test]
fn corrupted_parts_are_a_decimal_list() {
    assert_eq!(format_corrupted(&[0, 12, 7]), b"0,12,7");
    assert_eq!(format_corrupted(&[]), b"");
    assert_eq!(parse_corrupted(b"0, 12 ,x,7,"), vec![0, 12, 7]);
    assert_eq!(parse_corrupted(b"+3,18446744073709551616,\xff4"), vec![3]);
}

#[test]
fn part_names_and_their_order() {
    assert_eq!(
        part_names(7),
        (
            "007.part".to_string(),
            "007.part.met".to_string(),
            "007.part.met.bak".to_string()
        )
    );
    assert_eq!(part_names(1234).0, "1234.part");
    assert_eq!(part_index("012.part.met"), Some(12));
    assert_eq!(part_index("012.part.met.bak"), None);
    assert_eq!(part_index("x.part.met"), None);
    let names: Vec<String> = ["010.part.met", "002.part", "002.part.met", "readme"]
        .iter()
        .map(|s| s.to_string())
        .collect();
    assert_eq!(resume_order(&names), vec![2, 10]);
}
