use std::sync::atomic::{AtomicBool, Ordering};

use learn_db::index::calc_hash;
use learn_db::index::concurrent_hash_index::{ConcurrentHashIndex, Head};
use learn_db::index::dynamic_index::{shards_of_worker, DynamicParallelIndexWrapper};
use learn_db::index::linked_hash_set::LinkedHashSet;
use learn_db::index::parallel_index::ParallelIndex;
use learn_db::index::DataPosition;

#[test]
pub fn test_linked_hash_set() {
    let mut hash_set = LinkedHashSet::new();
    hash_set.push(&String::from("1"), DataPosition::new(1, 2, 3));
    hash_set.push(&String::from("2"), DataPosition::new(1, 2, 3));
    hash_set.push(&String::from("1"), DataPosition::new(1, 3, 3));
    hash_set.push(&String::from("3"), DataPosition::new(1, 2, 3));
    assert_eq!(hash_set.find(&String::from("1")), Some(DataPosition::new(1, 3, 3)));
    hash_set.del(&String::from("2"));
    assert_eq!(hash_set.find(&String::from("2")), None);
    println!("hash_set:{:?}", hash_set)
}

#[test]
pub fn test_parallel_index() {
    let mut index = ParallelIndex::new(8);
    assert_eq!(index.push(&String::from("1"), DataPosition::new(1, 1, 1)), true);
    assert_eq!(index.push(&String::from("2"), DataPosition::new(2, 2, 2)), true);
    assert_eq!(index.push(&String::from("1"), DataPosition::new(3, 3, 3)), true);
    assert_eq!(index.push(&String::from("3"), DataPosition::new(4, 4, 4)), true);

    assert_eq!(index.find(&String::from("1")), (true, Some(DataPosition::new(3, 3, 3))));
    assert_eq!(index.del(&String::from("3")), true);
    assert_eq!(index.find(&String::from("3")), (true, None));

    assert_eq!(index.size(), 2);

    println!("hash_set:{:?}", index)
}

#[test]
pub fn test_create() {
    let index = ConcurrentHashIndex::new();
    assert_eq!(index.data.len(), 1024);
    assert_eq!(index.size, 0);
}

#[test]
fn dynamic_index_test_new() {
    let mut index = DynamicParallelIndexWrapper::new(8);

    for i in 0..1024 {
        index.push(&i.to_string(), DataPosition::new(i as u32, i as u32, i as u32));
    }
    assert_eq!(index.size(), 1024);

    assert_eq!(index.find(&String::from("1")), Some(DataPosition::new(1, 1, 1)));
    assert_eq!(index.find(&String::from("8")), Some(DataPosition::new(8, 8, 8)));
    assert_eq!(index.find(&String::from("80000")), None);

    index.del(&String::from("8"));
    assert_eq!(index.find(&String::from("8")), None);
}

#[test]
pub fn test_atomic_bool() {
    let flag = AtomicBool::new(false);

    println!("{:?}", flag.compare_exchange(false, true, Ordering::SeqCst, Ordering::Relaxed));
    println!("{:?}", flag.compare_exchange(true, true, Ordering::SeqCst, Ordering::Relaxed));
    println!("{:?}", flag.compare_exchange(true, false, Ordering::SeqCst, Ordering::Relaxed));
}

#[test]
fn bucket_push_reports_insert_then_update() {
    let mut set = LinkedHashSet::new();
    assert_eq!(set.push(&String::from("a"), DataPosition::new(1, 0, 10)), 1);
    assert_eq!(set.push(&String::from("a"), DataPosition::new(1, 10, 10)), 0);
    assert_eq!(set.find(&String::from("a")), Some(DataPosition::new(1, 10, 10)));
    assert_eq!(set.del(&String::from("a")), 1);
    assert_eq!(set.del(&String::from("a")), 0);
    assert!(set.pop().is_none());
}

#[test]
fn bucket_pop_takes_newest_first() {
    let mut set = LinkedHashSet::new();
    set.push(&String::from("x"), DataPosition::new(1, 0, 5));
    set.push(&String::from("y"), DataPosition::new(1, 5, 5));
    let first = set.pop().unwrap();
    assert_eq!(first.key, "y");
    assert_eq!(first.dp, DataPosition::new(1, 5, 5));
    assert_eq!(set.find(&String::from("y")), None);
    assert_eq!(set.find(&String::from("x")), Some(DataPosition::new(1, 0, 5)));
}

#[test]
fn bucket_moved_flag() {
    let mut set = LinkedHashSet::new();
    assert!(!set.is_moved());
    set.set_moved(true);
    assert!(set.is_moved());
}

#[test]
fn drained_shard_reports_stale() {
    let mut table = ParallelIndex::new(1);
    let mut dest = ParallelIndex::new(4);
    table.push(&String::from("k"), DataPosition::new(1, 0, 9));
    table.move_shard_to(0, &mut dest);
    assert_eq!(table.find(&String::from("k")), (false, None));
    assert_eq!(table.push(&String::from("k"), DataPosition::new(2, 0, 9)), false);
    assert_eq!(table.del(&String::from("k")), false);
    assert_eq!(table.size(), 0);
    assert_eq!(dest.find(&String::from("k")), (true, Some(DataPosition::new(1, 0, 9))));
    assert_eq!(dest.size(), 1);
    assert!(table.get_link(0).is_moved());
}

#[test]
fn size_counts_inserts_minus_deletes() {
    let mut index = DynamicParallelIndexWrapper::new(4);
    index.push(&String::from("a"), DataPosition::new(1, 0, 1));
    index.push(&String::from("b"), DataPosition::new(1, 1, 1));
    index.push(&String::from("a"), DataPosition::new(1, 2, 1));
    assert_eq!(index.size(), 2);
    index.del(&String::from("a"));
    index.del(&String::from("zzz"));
    assert_eq!(index.size(), 1);
}

#[test]
fn rehash_grows_and_keeps_every_key() {
    let mut index = DynamicParallelIndexWrapper::new(8);
    for i in 0..1024u32 {
        index.push(&i.to_string(), DataPosition::new(i, i, i));
    }
    assert!(index.dynamic_capacity_check());
    assert!(index.is_rehashing());
    assert!(!index.dynamic_capacity_check());
    for worker in 0..8u64 {
        index.migrate_partition(worker, 8);
        if worker == 3 {
            index.push(&String::from("5"), DataPosition::new(99, 99, 99));
            index.push(&String::from("new"), DataPosition::new(7, 7, 7));
        }
        for i in 0..1024u32 {
            assert!(index.find(&i.to_string()).is_some());
        }
    }
    assert_eq!(index.size(), 1025);
    assert!(index.finish_rehash());
    assert!(!index.is_rehashing());
    assert!(index.shard_count() >= 64);
    assert_eq!(index.shard_count(), 8192);
    assert_eq!(index.size(), 1025);
    for i in 0..1024u32 {
        let expected = if i == 5 { DataPosition::new(99, 99, 99) } else { DataPosition::new(i, i, i) };
        assert_eq!(index.find(&i.to_string()), Some(expected));
    }
    assert_eq!(index.find(&String::from("new")), Some(DataPosition::new(7, 7, 7)));
}

#[test]
fn capacity_check_needs_more_than_threshold_per_shard() {
    let mut index = DynamicParallelIndexWrapper::new(8);
    for i in 0..71u32 {
        index.push(&i.to_string(), DataPosition::new(i, i, i));
    }
    assert!(!index.dynamic_capacity_check());
    index.push(&String::from("71"), DataPosition::new(71, 71, 71));
    assert!(index.dynamic_capacity_check());
    index.migrate_shard(0);
    assert!(index.finish_rehash());
    assert_eq!(index.shard_count(), 576);
    assert!(!index.finish_rehash());
}

#[test]
fn hash_is_stable_for_equal_keys() {
    assert_eq!(calc_hash(&String::from("abc")), calc_hash(&String::from("abc")));
    assert_ne!(calc_hash(&String::from("abc")), calc_hash(&String::from("abd")));
}

#[test]
fn head_add_prepends() {
    let mut head = Head::new();
    head.add(1, 2, 3, 4);
    head.add(5, 6, 7, 8);
    let first = head.first_node.as_ref().unwrap();
    assert_eq!((first.hash, first.file_id, first.offset, first.length), (5, 6, 7, 8));
    let second = first.next_node.as_ref().unwrap();
    assert_eq!((second.hash, second.file_id, second.offset, second.length), (1, 2, 3, 4));
    assert!(second.next_node.is_none());
}

#[test]
fn concurrent_index_put_goes_to_hashed_chain() {
    let mut index = ConcurrentHashIndex::new();
    let key = String::from("key");
    index.put(&key, 1, 2, 3);
    let i = (calc_hash(&key) % 1024) as usize;
    let node = index.data[i].first_node.as_ref().unwrap();
    assert_eq!((node.file_id, node.offset, node.length), (1, 2, 3));
}

#[test]
fn workers_split_the_buckets() {
    assert_eq!(shards_of_worker(1, 8, 20), vec![1, 9, 17]);
    assert_eq!(shards_of_worker(0, 8, 8), vec![0]);
    assert!(shards_of_worker(7, 8, 5).is_empty());
}

#[test]
fn bucket_keeps_node_order() {
    let mut set = LinkedHashSet::new();
    set.push(&String::from("a"), DataPosition::new(1, 0, 1));
    set.push(&String::from("b"), DataPosition::new(1, 1, 1));
    set.push(&String::from("c"), DataPosition::new(1, 2, 1));
    set.push(&String::from("b"), DataPosition::new(2, 0, 1));
    set.del(&String::from("c"));
    let first = set.pop().unwrap();
    assert_eq!((first.key.as_str(), first.dp), ("b", DataPosition::new(2, 0, 1)));
    let second = set.pop().unwrap();
    assert_eq!((second.key.as_str(), second.dp), ("a", DataPosition::new(1, 0, 1)));
    assert!(set.pop().is_none());
}
