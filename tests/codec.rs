use byodb::codec::{decode, encode, is_encodable, PAGE_SIZE};
use byodb::db::Database;
use byodb::node::Node;

fn b(s: &str) -> Vec<u8> {
    s.as_bytes().to_vec()
}

#[test]
fn leaf_encoding_is_exact() {
    let n = Node::Leaf { keys: vec![b("ab")], vals: vec![b("c")] };
    assert_eq!(encode(&n), vec![1, 1, 0, 2, 0, b'a', b'b', 1, 0, b'c']);
}

#[test]
fn internal_encoding_is_exact() {
    let n = Node::Internal { keys: vec![b("m")], children: vec![3, 258] };
    assert_eq!(
        encode(&n),
        vec![2, 1, 0, 1, 0, b'm', 3, 0, 0, 0, 0, 0, 0, 0, 2, 1, 0, 0, 0, 0, 0, 0]
    );
}

#[test]
fn decode_inverts_encode() {
    let leaf = Node::Leaf {
        keys: vec![b("apple"), b("banana"), b("")],
        vals: vec![b("1"), vec![7u8; 300], b("x")],
    };
    assert!(is_encodable(&leaf));
    assert_eq!(decode(&encode(&leaf)), Some(leaf));
    let inner = Node::Internal {
        keys: vec![b("g"), b("p")],
        children: vec![0, 70000, usize::MAX],
    };
    assert!(is_encodable(&inner));
    assert_eq!(decode(&encode(&inner)), Some(inner));
    let empty = Node::Leaf { keys: vec![], vals: vec![] };
    assert_eq!(encode(&empty), vec![1, 0, 0]);
    assert_eq!(decode(&vec![1, 0, 0]), Some(empty));
}

#[test]
fn decode_rejects_malformed_pages() {
    assert_eq!(decode(&vec![]), None);
    assert_eq!(decode(&vec![1, 0]), None);
    assert_eq!(decode(&vec![3, 0, 0]), None);
    assert_eq!(decode(&vec![1, 0, 0, 9]), None);
    assert_eq!(decode(&vec![1, 1, 0, 5, 0, b'a']), None);
    assert_eq!(decode(&vec![2, 0, 0, 1, 0, 0]), None);
}

#[test]
fn unencodable_nodes_are_detected() {
    let mismatched = Node::Leaf { keys: vec![b("a")], vals: vec![] };
    assert!(!is_encodable(&mismatched));
    let long = Node::Leaf { keys: vec![vec![0u8; 65536]], vals: vec![b("v")] };
    assert!(!is_encodable(&long));
    let bad_fanout = Node::Internal { keys: vec![b("a")], children: vec![1] };
    assert!(!is_encodable(&bad_fanout));
}

#[test]
fn database_pages_fit_and_decode() {
    let mut db = Database::new();
    let mut t = db.rw_txn().unwrap();
    for i in 0..200usize {
        let k = format!("key{:04}", i).into_bytes();
        t.insert(&mut db, &k, &vec![b'v'; 100]).unwrap();
    }
    t.commit(&mut db);
    for id in 0..db.page_count() {
        let bytes = db.page_bytes(id).unwrap();
        assert!(bytes.len() <= PAGE_SIZE);
        assert!(decode(&bytes).is_some());
    }
    assert_eq!(db.page_bytes(db.page_count()), None);
}
