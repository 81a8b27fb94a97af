use rsmalloc::internals::big_meta_map::{BigMetaMap, SHARD_COUNT};
use rsmalloc::internals::hashmap::BigAllocMap;
use rsmalloc::internals::rbtree::RBTree;
use rsmalloc::BigAllocMeta;
use std::collections::HashMap as StdHashMap;

fn meta(size: usize) -> BigAllocMeta {
    BigAllocMeta {
        size,
        order: 0,
        buddy_region: 0,
        aligned: false,
    }
}

struct Rand {
    state: u64,
}

impl Rand {
    fn new() -> Self {
        Rand {
            state: 0x2545F4914F6CDD1D,
        }
    }

    fn next(&mut self) -> u64 {
        self.state ^= self.state << 13;
        self.state ^= self.state >> 7;
        self.state ^= self.state << 17;
        self.state
    }
}

#[test]
fn big_meta_map_insert_get_replace_remove_matches_reference_hashmap() {
    let mut map = BigMetaMap::new();
    let mut reference: StdHashMap<usize, usize> = StdHashMap::new();
    let mut rand = Rand::new();

    for i in 0..5000usize {
        let op = rand.next() % 4;
        let key = ((rand.next() % 500) as usize) * 16 + 0x1000;
        match op {
            0 | 1 => {
                map.insert(key, meta(i));
                reference.insert(key, i);
            }
            2 => {
                let got = map.get(key).map(|m| m.size);
                assert_eq!(got, reference.get(&key).copied());
            }
            _ => {
                let got = map.remove(key).map(|m| m.size);
                assert_eq!(got, reference.remove(&key));
            }
        }
    }

    for (key, size) in &reference {
        assert_eq!(map.get(*key).map(|m| m.size), Some(*size));
    }
}

#[test]
fn big_meta_map_replace_returns_old_value_and_leaves_key_present() {
    let mut map = BigMetaMap::new();
    assert!(map.replace(42, meta(1)).is_none());
    map.insert(42, meta(1));
    let old = map.replace(42, meta(2));
    assert_eq!(old.map(|m| m.size), Some(1));
    assert_eq!(map.get(42).map(|m| m.size), Some(2));
}

#[test]
fn keys_are_distributed_across_shards() {
    let mut seen = [false; SHARD_COUNT];
    for index in 0..4096usize {
        let key = 0x1000_0000usize + index * 4 * 1024 * 1024;
        seen[BigMetaMap::location(key).0] = true;
    }

    assert!(seen.into_iter().all(|value| value));
}

fn assert_valid_rb_tree(map: &RBTree) {
    assert!(map.black_height().is_ok());
}

#[test]
fn rbtree_insert_get_replace_remove_matches_reference_hashmap() {
    let mut map = RBTree::new();
    let mut reference: StdHashMap<usize, usize> = StdHashMap::new();
    let mut rand = Rand::new();

    for i in 0..5000usize {
        let op = rand.next() % 4;
        let key = ((rand.next() % 500) as usize) * 16 + 0x1000;
        match op {
            0 | 1 => {
                map.insert(key, meta(i));
                reference.insert(key, i);
            }
            2 => {
                let got = map.get(key).map(|m| m.size);
                assert_eq!(got, reference.get(&key).copied());
            }
            _ => {
                let got = map.remove(key).map(|m| m.size);
                assert_eq!(got, reference.remove(&key));
            }
        }
        assert_valid_rb_tree(&map);
    }

    for (key, size) in &reference {
        assert_eq!(map.get(*key).map(|m| m.size), Some(*size));
    }
}

#[test]
fn rbtree_replace_returns_old_value_and_leaves_key_present() {
    let mut map = RBTree::new();
    assert!(map.replace(42, meta(1)).is_none());
    map.insert(42, meta(1));
    let old = map.replace(42, meta(2));
    assert_eq!(old.map(|m| m.size), Some(1));
    assert_eq!(map.get(42).map(|m| m.size), Some(2));
    assert_valid_rb_tree(&map);
}

#[test]
fn open_addressing_map_matches_reference_hashmap() {
    let mut map = BigAllocMap::new();
    let mut reference: StdHashMap<usize, usize> = StdHashMap::new();
    let mut rand = Rand::new();

    for i in 0..5000usize {
        let op = rand.next() % 4;
        let key = ((rand.next() % 500) as usize) * 16 + 0x1000;
        match op {
            0 | 1 => {
                map.insert(key, meta(i));
                reference.insert(key, i);
            }
            2 => {
                let got = map.replace(key, meta(i)).map(|m| m.size);
                assert_eq!(got, reference.get(&key).copied());
                if got.is_some() {
                    reference.insert(key, i);
                }
            }
            _ => {
                let got = map.remove(key).map(|m| m.size);
                assert_eq!(got, reference.remove(&key));
            }
        }
        assert_eq!(
            map.get(key).map(|m| m.size),
            reference.get(&key).copied()
        );
    }
}

#[test]
fn an_empty_tree_has_black_height_one() {
    let mut map = RBTree::new();
    assert_eq!(map.black_height().ok(), Some(1));
    map.insert(7, meta(1));
    assert_eq!(map.black_height().ok(), Some(2));
    assert!(map.remove(8).is_none());
    assert_eq!(map.remove(7).map(|m| m.size), Some(1));
    assert_eq!(map.black_height().ok(), Some(1));
}

#[test]
fn locks_are_held_across_a_fork() {
    let mut map = BigMetaMap::new();
    map.insert(1, meta(3));
    map.lock_for_fork();
    map.reset_lock_on_fork();
    assert_eq!(map.get(1).map(|m| m.size), Some(3));

    let mut tree = RBTree::new();
    tree.insert(1, meta(4));
    tree.lock_for_fork();
    tree.reset_lock_on_fork();
    assert_eq!(tree.get(1).map(|m| m.size), Some(4));
}
