use concurrent_skiplist::lib3::SkipListjjj;
use concurrent_skiplist::IndexOperate;
use rand::Rng;
use std::collections::BTreeMap;

#[test]
/// Batch insert on one thread, checked against a `BTreeMap`.
fn insert() {
    let mut rng = rand::thread_rng();
    let mut std_map = BTreeMap::<i32, i32>::new();
    let mut our_map = SkipListjjj::<i32, i32>::new();

    for key in 1..=10000 {
        let value = rng.gen_range(-10000..=10000);
        std_map.insert(key, value);
        our_map.insert_or_update(key, value);
    }

    for key in 1..=10000 {
        let wanted = std_map.get(&key);

        let will_be_none = our_map.get(&key, &key);
        assert_eq!(will_be_none.len(), 0);

        let will_be_single = our_map.get(&key, &(key + 1));
        assert_eq!(will_be_single.len(), 1);
        assert_eq!(will_be_single[0], wanted.unwrap());
    }
}

#[test]
/// Batch delete on one thread, checked against a `BTreeMap`.
fn delete() {
    let mut rng = rand::thread_rng();
    let mut std_map = BTreeMap::<i32, i32>::new();
    let mut our_map = SkipListjjj::<i32, i32>::new();

    for key in 1..=10000 {
        let value = rng.gen_range(-10000..=10000);
        std_map.insert(key, value);
        our_map.insert_or_update(key, value);
    }

    let mut keys = Vec::<i32>::new();
    loop {
        let item = rng.gen_range(1..=10000);
        if !keys.contains(&item) {
            keys.push(item);
        }
        if keys.len() == 1000 {
            break;
        }
    }

    for key in keys {
        std_map.remove(&key);
        our_map.delete(&key, &(key + 1));
    }

    for key in std_map.keys() {
        let wanted = std_map.get(&key);

        let will_be_none = our_map.get(&key, &key);
        assert_eq!(will_be_none.len(), 0);

        let will_be_single = our_map.get(&key, &(key + 1));
        assert_eq!(will_be_single.len(), 1);
        assert_eq!(will_be_single[0], wanted.unwrap());
    }
}
