use mule_engine::aich_tree::{AichLeafHasher, AichTree};
use mule_engine::proto::{EMBLOCKSIZE, PARTSIZE};
use sha1::{Digest, Sha1};

fn sha1(data: &[u8]) -> [u8; 20] {
    Sha1::digest(data).into()
}

fn join(a: [u8; 20], b: [u8; 20]) -> [u8; 20] {
    let mut both = a.to_vec();
    both.extend_from_slice(&b);
    sha1(&both)
}

#[test]
fn a_file_of_one_block_is_its_own_root() {
    let data = vec![5u8; 1000];
    let t = AichTree::from_file_data(&data).unwrap();
    assert_eq!(t.leaves, vec![sha1(&data)]);
    assert_eq!(t.master_hash(), sha1(&data));
    assert!(AichTree::from_file_data(&[]).is_none());
}

#[test]
fn three_blocks_join_the_first_two() {
    let e = EMBLOCKSIZE as usize;
    let data: Vec<u8> = (0..2 * e + 10).map(|i| (i % 251) as u8).collect();
    let t = AichTree::from_file_data(&data).unwrap();
    let l: Vec<[u8; 20]> = vec![sha1(&data[..e]), sha1(&data[e..2 * e]), sha1(&data[2 * e..])];
    assert_eq!(t.leaves, l);
    assert_eq!(t.master_hash(), join(join(l[0], l[1]), l[2]));
}

#[test]
fn five_blocks_split_three_to_two_and_the_right_child_splits_evenly() {
    let leaves: Vec<[u8; 20]> = (0..5u8).map(|i| [i; 20]).collect();
    let t = AichTree::from_leaves(5 * EMBLOCKSIZE, leaves.clone()).unwrap();
    let left = join(join(leaves[0], leaves[1]), leaves[2]);
    let right = join(leaves[3], leaves[4]);
    assert_eq!(t.master_hash(), join(left, right));

    let leaves: Vec<[u8; 20]> = (0..6u8).map(|i| [i; 20]).collect();
    let t = AichTree::from_leaves(6 * EMBLOCKSIZE, leaves.clone()).unwrap();
    let left = join(join(leaves[0], leaves[1]), leaves[2]);
    let right = join(leaves[3], join(leaves[4], leaves[5]));
    assert_eq!(t.master_hash(), join(left, right));
}

#[test]
fn blocks_do_not_cross_a_part() {
    assert_eq!(AichTree::leaf_count(0), 0);
    assert_eq!(AichTree::leaf_count(1), 1);
    assert_eq!(AichTree::leaf_count(EMBLOCKSIZE), 1);
    assert_eq!(AichTree::leaf_count(EMBLOCKSIZE + 1), 2);
    assert_eq!(AichTree::leaf_count(PARTSIZE), 53);
    assert_eq!(AichTree::leaf_count(PARTSIZE + 1), 54);
    assert_eq!(AichTree::leaf_count(2 * PARTSIZE), 106);
}

#[test]
fn two_parts_are_joined_above_their_blocks() {
    let leaves: Vec<[u8; 20]> = (0..54u8).map(|i| [i; 20]).collect();
    let t = AichTree::from_leaves(PARTSIZE + 1, leaves.clone()).unwrap();
    let part = AichTree::from_leaves(PARTSIZE, leaves[..53].to_vec()).unwrap();
    assert_eq!(t.master_hash(), join(part.master_hash(), leaves[53]));
}

#[test]
fn a_tree_needs_as_many_leaves_as_its_size_asks_for() {
    assert!(AichTree::from_leaves(EMBLOCKSIZE + 1, vec![[0; 20]]).is_none());
    assert!(AichTree::from_leaves(0, Vec::new()).is_none());
    let mut h = AichLeafHasher::new(EMBLOCKSIZE + 1).unwrap();
    h.add_part(&vec![1u8; EMBLOCKSIZE as usize]);
    assert!(h.finish().is_none(), "a block is missing");
    assert!(AichLeafHasher::new(0).is_none());
}
