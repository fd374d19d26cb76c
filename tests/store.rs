use std::time::{SystemTime, UNIX_EPOCH};

use domain::codec::{decode, encode};
use domain::document::Document;
use domain::domain::Domain;
use domain::storage::{DocumentId, Storage, StorageError};

fn sample(title: &str, hash: u8) -> Document {
    Document::new(
        title.to_string(),
        vec!["Ada".to_string(), "Grace".to_string()],
        vec!["systems".to_string()],
        [hash; 32],
        "pdf".to_string(),
    )
}

fn fresh_path(name: &str) -> String {
    let nanos = SystemTime::now().duration_since(UNIX_EPOCH).unwrap().as_nanos();
    format!("/tmp/domain-store-{}-{}", name, nanos)
}

fn same(a: &Document, b: &Document) -> bool {
    a.title == b.title
        && a.authors == b.authors
        && a.keywords == b.keywords
        && a.extension == b.extension
        && a.hash == b.hash
}

#[test]
fn encoding_layout() {
    let d = Document::new("ab".to_string(), vec!["c".to_string()], vec![], [7; 32], "x".to_string());
    let mut expected: Vec<u8> = vec![2, 0, 0, 0, 0, 0, 0, 0, b'a', b'b'];
    expected.extend_from_slice(&[1, 0, 0, 0, 0, 0, 0, 0, 1, 0, 0, 0, 0, 0, 0, 0, b'c']);
    expected.extend_from_slice(&[0, 0, 0, 0, 0, 0, 0, 0]);
    expected.extend_from_slice(&[1, 0, 0, 0, 0, 0, 0, 0, b'x']);
    expected.extend_from_slice(&[7; 32]);
    assert_eq!(encode(&d), expected);
}

#[test]
fn decode_of_encode_is_identity() {
    let d = sample("Schön — Ünïcode", 3);
    let back = decode(&encode(&d)).unwrap();
    assert!(same(&d, &back));
}

#[test]
fn decode_rejects_malformed() {
    let d = sample("Title", 3);
    let bytes = encode(&d);
    assert!(decode(&bytes[..bytes.len() - 1]).is_none());
    let mut longer = bytes.clone();
    longer.push(0);
    assert!(decode(&longer).is_none());
    assert!(decode(&[]).is_none());
    let mut bad_utf8 = vec![1, 0, 0, 0, 0, 0, 0, 0, 0xff];
    bad_utf8.extend_from_slice(&bytes[13..]);
    assert!(decode(&bad_utf8).is_none());
}

#[test]
fn document_id_bytes_are_big_endian() {
    let id = DocumentId::from_value(0x0102030405060708);
    assert_eq!(id.0, [1, 2, 3, 4, 5, 6, 7, 8]);
    assert_eq!(id.value(), 0x0102030405060708);
    assert!(DocumentId::from_value(255) < DocumentId::from_value(256));
}

#[test]
fn duplicate_hash_is_refused() {
    let mut s = Storage::open(&fresh_path("dedup")).unwrap();
    let first = s.insert(&sample("First", 9)).unwrap();
    match s.insert(&sample("Second", 9)) {
        Err(StorageError::DuplicatedHash(h)) => assert_eq!(h, vec![9u8; 32]),
        _ => panic!("second insert with the same hash must fail"),
    }
    let all = s.iter().unwrap();
    assert_eq!(all.len(), 1);
    assert_eq!(all[0].0, first);
    assert_eq!(all[0].1.title, "First");
}

#[test]
fn ids_increase() {
    let mut s = Storage::open(&fresh_path("ids")).unwrap();
    let mut last: Option<DocumentId> = None;
    for i in 0..5u8 {
        let id = s.insert(&sample("Doc", i)).unwrap();
        if let Some(prev) = last {
            assert!(id.value() > prev.value());
        }
        last = Some(id);
    }
}

#[test]
fn insert_then_get_round_trips() {
    let mut s = Storage::open(&fresh_path("roundtrip")).unwrap();
    let d = sample("The Rust Book", 4);
    let id = s.insert(&d).unwrap();
    assert!(same(&s.get(id).unwrap(), &d));
}

#[test]
fn remove_then_get_is_not_found() {
    let mut s = Storage::open(&fresh_path("remove")).unwrap();
    let id = s.insert(&sample("Gone", 5)).unwrap();
    s.remove(id).unwrap();
    assert!(matches!(s.get(id), Err(StorageError::NotFound)));
    s.remove(id).unwrap();
    // the hash is free again
    assert!(s.insert(&sample("Back", 5)).is_ok());
}

#[test]
fn domain_reopens_with_same_index() {
    let path = fresh_path("domain");
    {
        let mut dom = Domain::open(&path).unwrap();
        dom.insert(&sample("Rust Programming", 1)).unwrap();
        dom.insert(&sample("Cooking with Rust", 2)).unwrap();
        assert!(dom.insert(&sample("Copy", 2)).is_err());
        assert_eq!(dom.index.len(), 2);
    }
    let dom = Domain::open(&path).unwrap();
    assert_eq!(dom.index.len(), 2);
    let c = dom.index.candidates(b"rust");
    assert_eq!(c.len(), 2);
    assert!(c[0].id.value() < c[1].id.value());
}

#[test]
fn iter_yields_in_insertion_order() {
    let mut s = Storage::open(&fresh_path("order")).unwrap();
    let docs = vec![sample("One", 1), sample("Two", 2), sample("Three", 3)];
    let ids: Vec<DocumentId> = docs.iter().map(|d| s.insert(d).unwrap()).collect();
    let all = s.iter().unwrap();
    assert_eq!(all.len(), 3);
    for i in 0..3 {
        assert_eq!(all[i].0, ids[i]);
        assert!(same(&all[i].1, &docs[i]));
    }
}

#[test]
fn domain_remove_drops_from_store_and_index() {
    let mut dom = Domain::open(&fresh_path("domain-remove")).unwrap();
    let a = dom.insert(&sample("Rust Programming", 1)).unwrap();
    let b = dom.insert(&sample("The Rust Book", 2)).unwrap();
    dom.remove(a).unwrap();
    assert!(matches!(dom.get(a), Err(StorageError::NotFound)));
    let c = dom.index.candidates(b"rust");
    assert_eq!(c.len(), 1);
    assert_eq!(c[0].id, b);
    dom.remove(a).unwrap();
    assert_eq!(dom.index.len(), 1);
}
