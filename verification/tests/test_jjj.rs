use concurrent_skiplist::lib3::SkipListjjj;
use concurrent_skiplist::IndexOperate;
use rand::Rng;
use std::collections::BTreeMap;

#[test]
/// Batch insert on one thread.
fn test_insert_batch() {
    // prepare
    let mut rng = rand::thread_rng();
    let mut std_map = BTreeMap::<i32, i32>::new();
    let mut our_map = SkipListjjj::<i32, i32>::new();

    // insert
    for key in 1..=10000 {
        let value = rng.gen_range(-10000..=10000);
        std_map.insert(key, value);
        our_map.insert_or_update(key, value);
    }

    // checkout
    for key in 1..=10000 {
        let want = std_map.get(&key);

        let len_0 = our_map.get(&key, &key);
        assert_eq!(len_0.len(), 0);

        let len_1 = our_map.get(&key, &(key + 1));
        assert_eq!(len_1.len(), 1);
        assert_eq!(len_1[0], want.unwrap());
    }
}

#[test]
/// Inserting one key twice keeps the last value.
fn test_insert_repeat() {
    let mut our_map = SkipListjjj::<i32, i32>::new();
    let (key, range_end) = (1, 3);
    let val_1 = 1;
    let val_2 = 2;

    our_map.insert_or_update(key, val_1);
    our_map.insert_or_update(key, val_2);

    let got = our_map.get(&key, &range_end);
    assert_eq!(got.len(), 1, "len is wrong");
    assert_eq!(*got[0], 2, "val isn't the last insert val");
}

#[test]
/// Reading a range that holds no key.
fn test_get_non_exist() {
    let mut our_map = SkipListjjj::<i32, i32>::new();
    let (key, range_end) = (3, 7);
    let (key_left, val_left) = (1, 1);
    let (key_right, val_right) = (7, 7);

    our_map.insert_or_update(key_left, val_left);
    our_map.insert_or_update(key_right, val_right);

    // The range 3 <= key < 7 holds no key, so nothing comes back.
    let got = our_map.get(&key, &range_end);
    assert_eq!(got.len(), 0, "len is wrong")
}

#[test]
/// Batch delete on one thread.
fn test_delete_batch() {
    let mut rng = rand::thread_rng();
    let mut std_map = BTreeMap::<i32, i32>::new();
    let mut our_map = SkipListjjj::<i32, i32>::new();

    // insert 10 keys
    for key in 1..=10 {
        std_map.insert(key, 10000 - key);
        our_map.insert_or_update(key, 10000 - key);
    }

    // pick 9 distinct keys to delete
    let mut keys = Vec::<i32>::new();
    loop {
        let item = rng.gen_range(1..=10);
        if !keys.contains(&item) {
            keys.push(item);
        }
        if keys.len() == 9 {
            break;
        }
    }

    // delete
    for key in keys {
        std_map.remove(&key);
        our_map.delete(&key, &(key + 1));
    }

    // the one key left
    for key in std_map.keys() {
        let want = std_map.get(&key);
        let got = our_map.get(&key, &(key + 1));
        assert_eq!(got[0], want.unwrap());
    }
}

#[test]
/// Reading a key after it was deleted.
fn test_get_after_delete() {
    let mut our_map = SkipListjjj::<i32, i32>::new();
    let (key, val, range_end) = (3, 99, 4);

    our_map.insert_or_update(key, val);

    our_map.delete(&key, &range_end);

    let got = our_map.get(&key, &range_end);
    assert_eq!(got.len(), 0, "len is wrong, maybe not be delete really")
}

#[test]
/// One writer fills a block of keys, then reads each back.
fn test_jjj_single_thread() {
    let mut map = SkipListjjj::<i32, i32>::new();
    for i in 1..2 {
        for j in i * 1000..(i + 1) * 1000 {
            map.insert_or_update(j, j);
        }
        for j in i * 1000..(i + 1) * 1000 {
            let end = j + 1;
            let v = map.get(&j, &end);
            assert_eq!(v.len(), 1);
            assert_eq!(*v[0], j);
        }
    }
}

#[test]
/// Writers take turns filling disjoint blocks of keys, then read each back.
fn test_jjj_multithread() {
    let mut map = SkipListjjj::<i32, i32>::new();
    for i in 1..2 {
        let time = 10000;
        for j in i * time..(i + 1) * time {
            map.insert_or_update(j, j);
        }
        for j in i * time..(i + 1) * time {
            let end = j + 1;
            let v = map.get(&j, &end);
            assert_eq!(v.len(), 1);
            assert_eq!(*v[0], j);
        }
    }
}
