use concurrent_skiplist::key::{KeyOrder, OrderedKey};
use concurrent_skiplist::lib3::{height_from_bits, SkipListjjj, MAX_HEIGHT};
use concurrent_skiplist::node::{ConcurrentSkiplistMode, Node};
use concurrent_skiplist::IndexOperate;

fn values(v: Vec<&i32>) -> Vec<i32> {
    v.into_iter().copied().collect()
}

#[test]
fn get_of_empty_or_inverted_range_is_empty() {
    let mut map = SkipListjjj::<i32, i32>::new();
    for k in 1..=5 {
        map.insert_or_update(k, k * 10);
    }
    assert!(map.get(&3, &3).is_empty());
    assert!(map.get(&4, &2).is_empty());
}

#[test]
fn get_returns_values_in_key_order() {
    let mut map = SkipListjjj::<i32, i32>::new();
    for k in [5, 1, 4, 2, 3] {
        map.insert_or_update(k, k * 10);
    }
    assert_eq!(values(map.get(&2, &5)), vec![20, 30, 40]);
    assert_eq!(values(map.get(&0, &100)), vec![10, 20, 30, 40, 50]);
    assert_eq!(values(map.inner_get(&5, &6)), vec![50]);
}

#[test]
fn get_on_empty_list_is_empty() {
    let map = SkipListjjj::<i32, i32>::new();
    assert!(map.get(&i32::MIN, &i32::MAX).is_empty());
}

#[test]
fn insert_gives_back_previous_value() {
    let mut map = SkipListjjj::<i32, i32>::new();
    assert_eq!(map.insert_or_update(7, 1), None);
    assert_eq!(map.insert_or_update(7, 2), Some(1));
    assert_eq!(map.insert(7, 3), Some(2));
    assert_eq!(values(map.get(&7, &8)), vec![3]);
}

#[test]
fn read_after_write_gives_the_written_value() {
    let mut map = SkipListjjj::<i32, i32>::new();
    map.insert_or_update(10, 1);
    map.insert_or_update(20, 2);
    assert_eq!(values(map.get(&10, &20)), vec![1]);
    assert_eq!(values(map.get(&20, &21)), vec![2]);
}

#[test]
fn delete_gives_back_removed_values_in_key_order() {
    let mut map = SkipListjjj::<i32, i32>::new();
    for k in 1..=6 {
        map.insert_or_update(k, k * 10);
    }
    assert_eq!(map.delete(&2, &5), vec![20, 30, 40]);
    assert_eq!(values(map.get(&1, &7)), vec![10, 50, 60]);
    assert_eq!(map.delete(&2, &5), Vec::<i32>::new());
    assert_eq!(map.delete(&6, &1), Vec::<i32>::new());
}

#[test]
fn delete_then_get_is_empty() {
    let mut map = SkipListjjj::<i32, i32>::new();
    for k in -3..=3 {
        map.insert_or_update(k, k);
    }
    map.delete(&-2, &2);
    assert!(map.get(&-2, &2).is_empty());
    assert_eq!(values(map.get(&-10, &10)), vec![-3, 2, 3]);
}

#[test]
fn insert_after_delete_stores_the_value() {
    let mut map = SkipListjjj::<i32, i32>::new();
    map.insert_or_update(3, 99);
    map.delete(&3, &4);
    assert_eq!(map.insert_or_update(3, 5), None);
    assert_eq!(values(map.get(&3, &4)), vec![5]);
}

#[test]
fn other_key_types() {
    let mut map = SkipListjjj::<u64, &str>::new();
    map.insert_or_update(u64::MAX, "max");
    map.insert_or_update(0, "zero");
    let got: Vec<&str> = map.get(&0, &u64::MAX).into_iter().copied().collect();
    assert_eq!(got, vec!["zero"]);
    let mut m2 = SkipListjjj::<i64, i64>::new();
    m2.insert_or_update(-1, 1);
    assert_eq!(m2.delete(&i64::MIN, &0), vec![1]);
}

#[test]
fn height_from_bits_counts_trailing_zeros() {
    assert_eq!(height_from_bits(1), 1);
    assert_eq!(height_from_bits(u32::MAX), 1);
    assert_eq!(height_from_bits(2), 2);
    assert_eq!(height_from_bits(0b1000), 4);
    assert_eq!(height_from_bits(1 << 29), 30);
    assert_eq!(height_from_bits(0), MAX_HEIGHT);
    assert_eq!(height_from_bits(1 << 30), MAX_HEIGHT);
    assert_eq!(height_from_bits(1 << 31), MAX_HEIGHT);
}

#[test]
fn node_links() {
    let mode = ConcurrentSkiplistMode::NoLock;
    let mut node = Node::new(4i32, 40i32, 3);
    assert_eq!(node.height(), 3);
    assert_eq!(node.lanes(), &[None, None, None]);
    assert_eq!(*node.unwrap_key_ref(), 4);
    node.set_next(&mode, 1, Some(7), false);
    assert_eq!(node.next(&mode, 1), Some(7));
    assert!(!node.cas_setnext(1, Some(8), Some(9)));
    assert_eq!(node.next(&mode, 1), Some(7));
    assert!(node.cas_setnext(1, Some(7), Some(9)));
    assert_eq!(node.nobarrier_next(&ConcurrentSkiplistMode::OneBigLock, 1, true), Some(9));
    node.nobarrier_set_next(&mode, 2, Some(1));
    assert_eq!(node.lanes(), &[None, Some(9), Some(1)]);
    assert_eq!(node.v, Some(40));
}

#[test]
fn key_compare() {
    assert_eq!(1i32.compare(&2), KeyOrder::Less);
    assert_eq!(2i32.compare(&2), KeyOrder::Equal);
    assert_eq!(3i32.compare(&2), KeyOrder::Greater);
    assert_eq!(0u64.compare(&u64::MAX), KeyOrder::Less);
    assert_eq!(5usize.compare(&4), KeyOrder::Greater);
    assert_eq!((-1i64).compare(&-1), KeyOrder::Equal);
    assert_eq!(7u32.compare(&8), KeyOrder::Less);
}
