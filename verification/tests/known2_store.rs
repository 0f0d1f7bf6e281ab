use mule_engine::aich_tree::AichTree;
use mule_engine::known2_store::{Append, Known2Error, Known2Store, LoadFix};
use mule_engine::proto::EMBLOCKSIZE;

/// The store with its file in memory.
struct Disk {
    store: Known2Store,
    bytes: Vec<u8>,
}

fn load(mut bytes: Vec<u8>) -> Disk {
    let (store, fix) = Known2Store::load(&bytes);
    match fix {
        LoadFix::Keep => {}
        LoadFix::Create => bytes = mule_engine::known2_store::empty_known2_met(),
        LoadFix::Truncate(len) => bytes.truncate(len as usize),
    }
    Disk { store, bytes }
}

impl Disk {
    fn append(&mut self, root: &[u8; 20], leaves: &Vec<[u8; 20]>) -> Result<(), Known2Error> {
        let first = self.bytes.first().copied();
        match self.store.append(root, leaves, first, self.bytes.len() as u64)? {
            None => Ok(()),
            Some(Append { at, bytes }) => {
                self.bytes.extend_from_slice(&bytes);
                self.store
                    .appended(root, leaves.len(), at, self.bytes.len() as u64)
            }
        }
    }

    fn lookup(&self, root: &[u8; 20], size: u64) -> Option<AichTree> {
        let at = self.store.offset_of(root)? as usize;
        let end = self.bytes.len().min(at + Known2Store::entry_len(size) as usize);
        self.store.lookup(root, size, &self.bytes[at..end])
    }

    fn remove(&mut self, root: &[u8; 20]) {
        if let Some(out) = self.store.remove(root, &self.bytes) {
            self.bytes = out;
            self.store.rewritten(&self.bytes);
        }
    }

    fn prune_orphans(&mut self, live: &Vec<[u8; 20]>) {
        if let Some(out) = self.store.prune_orphans(live, &self.bytes) {
            self.bytes = out;
            self.store.rewritten(&self.bytes);
        }
    }
}

fn real_set(seed: u8, blocks: usize) -> (u64, [u8; 20], Vec<[u8; 20]>) {
    let size = blocks * EMBLOCKSIZE as usize - 7;
    let data: Vec<u8> = (0..size).map(|i| (i as u8).wrapping_add(seed)).collect();
    let t = AichTree::from_file_data(&data).unwrap();
    (size as u64, t.master_hash(), t.leaves)
}

#[test]
fn append_lookup_round_trip_and_dedup() {
    let mut disk = load(Vec::new());
    let (size, root, leaves) = real_set(1, 3);
    disk.append(&root, &leaves).unwrap();
    disk.append(&root, &leaves).unwrap();
    assert_eq!(disk.lookup(&root, size).unwrap().leaves, leaves);
    assert_eq!(disk.bytes.len(), 1 + 24 + leaves.len() * 20);
    assert!(disk.lookup(&root, size + EMBLOCKSIZE).is_none());
    let again = load(disk.bytes.clone());
    assert_eq!(again.lookup(&root, size).unwrap().leaves, leaves);
}

#[test]
fn several_appends_are_read_back_beside_what_was_there() {
    let mut disk = load(Vec::new());
    let (sa, ra, la) = real_set(10, 2);
    disk.append(&ra, &la).unwrap();
    let mut disk = load(disk.bytes);
    let (sb, rb, lb) = real_set(11, 3);
    let (sc, rc, lc) = real_set(12, 1);
    for _ in 0..3 {
        disk.append(&rb, &lb).unwrap();
        disk.append(&rc, &lc).unwrap();
        disk.append(&ra, &la).unwrap();
    }
    assert_eq!(disk.bytes.len(), 1 + 3 * 24 + 6 * 20);
    let (_, fix) = Known2Store::load(&disk.bytes);
    assert_eq!(fix, LoadFix::Keep);
    let again = load(disk.bytes.clone());
    for d in [&disk, &again] {
        assert_eq!(d.lookup(&ra, sa).unwrap().leaves, la);
        assert_eq!(d.lookup(&rb, sb).unwrap().leaves, lb);
        assert_eq!(d.lookup(&rc, sc).unwrap().leaves, lc);
        assert!(d.lookup(&rb, sa).is_none());
    }
}

#[test]
fn lookup_refuses_a_corrupted_entry() {
    let mut disk = load(Vec::new());
    let (size, root, leaves) = real_set(2, 3);
    disk.append(&root, &leaves).unwrap();
    let n = disk.bytes.len() - 1;
    disk.bytes[n] ^= 0xFF;
    assert!(disk.lookup(&root, size).is_none());
}

#[test]
fn torn_tail_is_truncated_at_load() {
    let mut disk = load(Vec::new());
    let (_, root, leaves) = real_set(3, 2);
    disk.append(&root, &leaves).unwrap();
    let whole = disk.bytes.clone();
    let mut torn = whole.clone();
    torn.extend_from_slice(&[0xAB; 33]);
    let again = load(torn);
    assert_eq!(again.bytes, whole, "tail truncated off");
    assert_eq!(again.store.index.len(), 1);
}

#[test]
fn remove_and_prune_keep_the_rest() {
    let mut disk = load(Vec::new());
    let (sa, ra, la) = real_set(4, 2);
    let (_sb, rb, lb) = real_set(5, 3);
    let (sc, rc, lc) = real_set(6, 4);
    disk.append(&ra, &la).unwrap();
    disk.append(&rb, &lb).unwrap();
    disk.append(&rc, &lc).unwrap();
    disk.remove(&rb);
    assert!(!disk.store.has(&rb));
    assert_eq!(disk.lookup(&ra, sa).unwrap().leaves, la);
    assert_eq!(disk.lookup(&rc, sc).unwrap().leaves, lc);
    disk.prune_orphans(&vec![rc]);
    assert!(!disk.store.has(&ra));
    assert_eq!(disk.lookup(&rc, sc).unwrap().leaves, lc);
}

#[test]
fn foreign_version_byte_is_left_untouched() {
    let mut disk = load(vec![0x09, 1, 2, 3]);
    assert_eq!(disk.bytes, [0x09, 1, 2, 3], "not clobbered");
    let (_, root, leaves) = real_set(7, 2);
    assert_eq!(
        disk.append(&root, &leaves),
        Err(Known2Error::ForeignVersion),
        "no append into it"
    );
    assert_eq!(disk.bytes, [0x09, 1, 2, 3]);
}

#[test]
fn an_append_that_did_not_reach_the_file_is_not_indexed() {
    let mut disk = load(Vec::new());
    let (_, root, leaves) = real_set(8, 2);
    let plan = disk
        .store
        .append(&root, &leaves, Some(0x02), 1)
        .unwrap()
        .unwrap();
    assert_eq!(plan.at, 1);
    assert_eq!(plan.bytes.len(), 24 + 2 * 20);
    assert_eq!(
        disk.store.appended(&root, leaves.len(), plan.at, 64),
        Err(Known2Error::SizeDiffers)
    );
    assert!(!disk.store.has(&root));
    assert_eq!(disk.store.appended(&root, leaves.len(), plan.at, 65), Ok(()));
    assert!(disk.store.has(&root));
}

#[test]
fn a_first_append_to_an_empty_file_brings_its_version_byte() {
    let (store, fix) = Known2Store::load(&[]);
    assert_eq!(fix, LoadFix::Create);
    let plan = store.append(&[1; 20], &vec![[2; 20]], None, 0).unwrap().unwrap();
    assert_eq!(plan.at, 1);
    let mut want = vec![0x02];
    want.extend_from_slice(&[1; 20]);
    want.extend_from_slice(&[1, 0, 0, 0]);
    want.extend_from_slice(&[2; 20]);
    assert_eq!(plan.bytes, want);
}
