use bitcask::data::log_record::LogRecordPos;
use bitcask::index::btree::{compare_keys, BTree, KeyOrder};
use bitcask::index::Indexer;

#[test]
fn test_btree_put() {
    let mut bt = BTree::new();
    let res = bt.put("".as_bytes().to_vec(), LogRecordPos { file_id: 1, offset: 0 });
    assert_eq!(res, true);
}

#[test]
fn test_btree_get() {
    let mut bt = BTree::new();
    let res1 = bt.put("hello".as_bytes().to_vec(), LogRecordPos { file_id: 1, offset: 10 });
    assert_eq!(res1, true);
    let res2 = bt.put("foo".as_bytes().to_vec(), LogRecordPos { file_id: 2, offset: 20 });
    assert_eq!(res2, true);

    let pos1 = bt.get("hello".as_bytes().to_vec());
    assert_eq!(pos1.is_some(), true);
    assert_eq!(pos1.unwrap().file_id, 1);
    let pos2 = bt.get("world".as_bytes().to_vec());
    assert_eq!(pos2.is_none(), true);
}

#[test]
fn test_btree_del() {
    let mut bt = BTree::new();
    let res1 = bt.put("hello".as_bytes().to_vec(), LogRecordPos { file_id: 1, offset: 10 });
    assert_eq!(res1, true);
    let res2 = bt.put("foo".as_bytes().to_vec(), LogRecordPos { file_id: 2, offset: 20 });
    assert_eq!(res2, true);

    let res3 = bt.delete("hello".as_bytes().to_vec());
    assert_eq!(res3, true);
    let res4 = bt.delete("hello".as_bytes().to_vec());
    assert_eq!(res4, false);
}

#[test]
fn btree_put_replaces_the_position_of_a_key() {
    let mut bt = BTree::new();
    assert!(bt.put(b"k".to_vec(), LogRecordPos { file_id: 1, offset: 10 }));
    assert!(bt.put(b"k".to_vec(), LogRecordPos { file_id: 3, offset: 30 }));
    assert_eq!(bt.get(b"k".to_vec()), Some(LogRecordPos { file_id: 3, offset: 30 }));
    assert!(bt.delete(b"k".to_vec()));
    assert_eq!(bt.get(b"k".to_vec()), None);
}

#[test]
fn btree_keeps_every_key_whatever_the_order_of_the_puts() {
    let mut bt = BTree::new();
    let mut keys: Vec<u32> = Vec::new();
    let mut x: u32 = 12_345;
    for _ in 0..500 {
        x = x.wrapping_mul(1_103_515_245).wrapping_add(12_345);
        keys.push(x % 1000);
    }
    for (n, k) in keys.iter().enumerate() {
        assert!(bt.put(k.to_string().into_bytes(), LogRecordPos { file_id: *k, offset: n as u64 }));
    }
    for k in 0..1000u32 {
        let last = keys.iter().rposition(|have| *have == k);
        let want = last.map(|n| LogRecordPos { file_id: k, offset: n as u64 });
        assert_eq!(bt.get(k.to_string().into_bytes()), want);
    }
    for k in (0..1000u32).step_by(2) {
        assert_eq!(bt.delete(k.to_string().into_bytes()), keys.contains(&k));
    }
    for k in 0..1000u32 {
        let found = bt.get(k.to_string().into_bytes()).is_some();
        assert_eq!(found, k % 2 == 1 && keys.contains(&k));
    }
}

#[test]
fn btree_delete_of_an_absent_key_changes_nothing() {
    let mut bt = BTree::new();
    assert!(bt.put(b"a".to_vec(), LogRecordPos { file_id: 0, offset: 0 }));
    assert_eq!(bt.delete(b"b".to_vec()), false);
    assert_eq!(bt.get(b"a".to_vec()), Some(LogRecordPos { file_id: 0, offset: 0 }));
}

#[test]
fn keys_compare_byte_by_byte() {
    assert_eq!(compare_keys(b"", b""), KeyOrder::Equal);
    assert_eq!(compare_keys(b"abc", b"abc"), KeyOrder::Equal);
    assert_eq!(compare_keys(b"", b"a"), KeyOrder::Less);
    assert_eq!(compare_keys(b"a", b""), KeyOrder::Greater);
    assert_eq!(compare_keys(b"ab", b"abc"), KeyOrder::Less);
    assert_eq!(compare_keys(b"abd", b"abc"), KeyOrder::Greater);
    assert_eq!(compare_keys(b"b", b"abc"), KeyOrder::Greater);
    assert_eq!(compare_keys(&[0x7f], &[0x80]), KeyOrder::Less);
}
