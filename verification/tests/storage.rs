use kv_mvcc::kvmap::KvMap;
use kv_mvcc::protocol::{write_msg, Action, OP};
use kv_mvcc::service::{handle_storage, reply_message, server_step, ServerStep, StorageResult};
use kv_mvcc::store::{BTreeStore, Store, SwapStore};

fn action(op: OP, key: &str, value: &str) -> Action {
    Action { op, key: key.to_string(), value: value.to_string() }
}

#[test]
fn kvmap_insert_get_remove() {
    let mut m: KvMap<u32> = KvMap::new();
    assert_eq!(m.get("b"), None);
    assert_eq!(m.insert("b".to_string(), 2), None);
    assert_eq!(m.insert("a".to_string(), 1), None);
    assert_eq!(m.insert("c".to_string(), 3), None);
    assert_eq!(m.insert("b".to_string(), 20), Some(2));
    assert_eq!(m.get("a"), Some(&1));
    assert_eq!(m.get("b"), Some(&20));
    assert_eq!(m.get("c"), Some(&3));
    assert!(m.contains_key("c"));
    assert!(!m.contains_key("d"));
    assert_eq!(m.remove("b"), Some(20));
    assert_eq!(m.remove("b"), None);
    assert_eq!(m.get("b"), None);
    assert_eq!(m.get("a"), Some(&1));
    assert_eq!(m.get("c"), Some(&3));
}

#[test]
fn kvmap_many_keys() {
    let mut m: KvMap<usize> = KvMap::new();
    for i in 0..200usize {
        let k = format!("key-{}", (i * 37) % 200);
        assert_eq!(m.insert(k, i), None);
    }
    for i in 0..200usize {
        let k = format!("key-{}", (i * 37) % 200);
        assert_eq!(m.get(&k), Some(&i));
    }
    for i in (0..200usize).step_by(2) {
        let k = format!("key-{}", (i * 37) % 200);
        assert_eq!(m.remove(&k), Some(i));
    }
    for i in 0..200usize {
        let k = format!("key-{}", (i * 37) % 200);
        assert_eq!(m.contains_key(&k), i % 2 == 1);
    }
}

#[test]
fn kvmap_prefixes_and_unicode_are_distinct_keys() {
    let mut m: KvMap<&str> = KvMap::new();
    m.insert("ab".to_string(), "ab");
    m.insert("a".to_string(), "a");
    m.insert("".to_string(), "empty");
    m.insert("é".to_string(), "e-acute");
    m.insert("e".to_string(), "e");
    assert_eq!(m.get("a"), Some(&"a"));
    assert_eq!(m.get("ab"), Some(&"ab"));
    assert_eq!(m.get(""), Some(&"empty"));
    assert_eq!(m.get("é"), Some(&"e-acute"));
    assert_eq!(m.get("e"), Some(&"e"));
    assert_eq!(m.get("abc"), None);
}

#[test]
fn btree_store_follows_the_store_contract() {
    let mut s = BTreeStore::new();
    assert_eq!(s.get("k"), None);
    assert!(!s.update("k", "v0"));
    assert!(s.add("k", "v1"));
    assert!(!s.add("k", "v2"));
    assert_eq!(s.get("k"), Some("v1".to_string()));
    assert!(s.update("k", "v3"));
    assert_eq!(s.get("k"), Some("v3".to_string()));
    assert!(s.remove("k"));
    assert!(!s.remove("k"));
    assert_eq!(s.get("k"), None);
}

#[test]
fn swap_store_add_update_remove() {
    let mut s = SwapStore::new();
    assert_eq!(s.get("k"), None);
    assert!(!s.update("k", "v0"));
    assert!(s.add("k", "v1"));
    assert!(!s.add("k", "v2"));
    assert_eq!(s.get("k"), Some("v1".to_string()));
    assert!(s.update("k", "v3"));
    assert_eq!(s.get("k"), Some("v3".to_string()));
    assert!(s.remove("k"));
    assert!(!s.remove("k"));
    assert_eq!(s.get("k"), None);
}

#[test]
fn handle_storage_each_outcome() {
    let mut m: KvMap<String> = KvMap::new();
    assert!(matches!(handle_storage(&action(OP::Get, "k", ""), &mut m), StorageResult::Value(None)));
    assert!(matches!(handle_storage(&action(OP::Update, "k", "x"), &mut m), StorageResult::UpdateKeyDoesNotExist));
    assert!(matches!(handle_storage(&action(OP::Remove, "k", ""), &mut m), StorageResult::ToBeRemovedKeyDoesNotExist));
    assert!(matches!(handle_storage(&action(OP::Add, "k", "v"), &mut m), StorageResult::Success));
    assert!(matches!(handle_storage(&action(OP::Add, "k", "w"), &mut m), StorageResult::InsertedKeyAlreadyExists));
    match handle_storage(&action(OP::Get, "k", ""), &mut m) {
        StorageResult::Value(Some(v)) => assert_eq!(v, "v"),
        _ => panic!("expected a value"),
    }
    assert!(matches!(handle_storage(&action(OP::Update, "k", "u"), &mut m), StorageResult::Success));
    assert_eq!(m.get("k"), Some(&"u".to_string()));
    assert!(matches!(handle_storage(&action(OP::Remove, "k", ""), &mut m), StorageResult::Success));
    assert_eq!(m.get("k"), None);
}

#[test]
fn reply_texts() {
    let a = action(OP::Update, "k", "v");
    assert_eq!(reply_message(&a, &StorageResult::Success), "Update went successfully\n");
    assert_eq!(reply_message(&a, &StorageResult::UpdateKeyDoesNotExist), "Update failed: key 'k' does not exist\n");
    assert_eq!(reply_message(&a, &StorageResult::InsertedKeyAlreadyExists), "Add failed: key 'k' already exists\n");
    assert_eq!(reply_message(&a, &StorageResult::ToBeRemovedKeyDoesNotExist), "Remove failed: key 'k' does not exist\n");
    assert_eq!(reply_message(&a, &StorageResult::Value(Some("mom".to_string()))), "{k: mom}\n");
    assert_eq!(reply_message(&a, &StorageResult::Value(None)), "Value for 'k' does not exist\n");
    assert_eq!(reply_message(&action(OP::Get, "k", ""), &StorageResult::Success), "Get went successfully\n");
    assert_eq!(reply_message(&action(OP::Add, "k", ""), &StorageResult::Success), "Add went successfully\n");
    assert_eq!(reply_message(&action(OP::Remove, "k", ""), &StorageResult::Success), "Remove went successfully\n");
}

fn serve(buf_msg: Vec<u8>, m: &mut KvMap<String>) -> String {
    let mut buf = [0u8; 1024];
    buf[..buf_msg.len()].copy_from_slice(&buf_msg);
    match server_step(&buf, buf_msg.len(), m) {
        ServerStep::Reply(text) => text,
        ServerStep::Close => panic!("closed"),
        ServerStep::Malformed => panic!("malformed"),
    }
}

#[test]
fn server_session() {
    let mut m: KvMap<String> = KvMap::new();
    assert_eq!(serve(write_msg(OP::Add, "your", "mom").unwrap(), &mut m), "Add went successfully\n");
    assert_eq!(serve(write_msg(OP::Get, "your", "").unwrap(), &mut m), "{your: mom}\n");
    assert_eq!(serve(write_msg(OP::Add, "your", "dad").unwrap(), &mut m), "Add failed: key 'your' already exists\n");
    assert_eq!(serve(write_msg(OP::Update, "your", "dad").unwrap(), &mut m), "Update went successfully\n");
    assert_eq!(serve(write_msg(OP::Get, "your", "").unwrap(), &mut m), "{your: dad}\n");
    assert_eq!(serve(write_msg(OP::Remove, "your", "").unwrap(), &mut m), "Remove went successfully\n");
    assert_eq!(serve(write_msg(OP::Get, "your", "").unwrap(), &mut m), "Value for 'your' does not exist\n");
    assert_eq!(serve(write_msg(OP::Remove, "your", "").unwrap(), &mut m), "Remove failed: key 'your' does not exist\n");
    assert_eq!(serve(write_msg(OP::Update, "x", "1").unwrap(), &mut m), "Update failed: key 'x' does not exist\n");
}

#[test]
fn server_closes_on_an_empty_read() {
    let mut m: KvMap<String> = KvMap::new();
    let buf = [0u8; 1024];
    assert!(matches!(server_step(&buf, 0, &mut m), ServerStep::Close));
}

#[test]
fn server_reports_a_malformed_request() {
    let mut m: KvMap<String> = KvMap::new();
    // Declares a key of 2^32 - 1 bytes in a 1024-byte buffer.
    let mut buf = [0u8; 1024];
    buf[0] = 0x3F;
    buf[1] = 0xFF;
    buf[2] = 0xFF;
    buf[3] = 0xFF;
    buf[4] = 0xC0;
    assert!(matches!(server_step(&buf, 5, &mut m), ServerStep::Malformed));
    assert!(!m.contains_key(""));
}

#[test]
fn filling_a_new_store_accepts_every_distinct_key() {
    let mut s = BTreeStore::new();
    let keys: Vec<String> = (0..64).map(|i| format!("key-{:08}", (i * 29) % 64)).collect();
    for k in keys.iter() {
        assert_eq!(s.get(k), None);
    }
    for k in keys.iter() {
        assert!(s.add(k, "initial"));
    }
    for k in keys.iter() {
        assert_eq!(s.get(k), Some("initial".to_string()));
    }
    assert_eq!(s.get("key-00000064"), None);
}
