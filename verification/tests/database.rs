use ragstore::codec::{decode_collection, decode_collection_bytes, encode_collection,
    encode_collection_bytes};
use ragstore::collection::{Collection, Config, Distance};
use ragstore::database::Database;
use ragstore::error::Error;
use ragstore::record::{Metadata, Record};
use ragstore::vector::Vector;

fn sample_collection() -> Collection {
    let mut c = Collection::new(&Config { distance: Distance::Euclidean, dimension: None });
    c.insert_many(&vec![
        Record::new(&Vector(vec![1, -2, 3]), &Metadata::Text("héllo chunk".to_string())),
        Record::new(&Vector(vec![0, 0, 0]), &Metadata::Integer(-42)),
        Record::new(&Vector(vec![i32::MAX, i32::MIN, 7]), &Metadata::Text(String::new())),
    ])
    .unwrap();
    c
}

fn assert_same_records(a: &Collection, b: &Collection) {
    assert_eq!(a.len(), b.len());
    let la = a.list();
    let lb = b.list();
    for ((ida, ma), (idb, mb)) in la.iter().zip(lb.iter()) {
        assert_eq!(ida, idb);
        match (ma, mb) {
            (Metadata::Text(x), Metadata::Text(y)) => assert_eq!(x, y),
            (Metadata::Integer(x), Metadata::Integer(y)) => assert_eq!(x, y),
            _ => panic!("metadata variants differ"),
        }
    }
}

#[test]
fn encode_then_decode_gives_back_the_collection() {
    let c = sample_collection();
    let words = encode_collection(&c);
    let d = decode_collection(&words).unwrap();
    assert_same_records(&c, &d);
    // identical vectors: every record of the copy is at distance zero
    // from the original's query by its own vector
    let hits = d.search(&Vector(vec![1, -2, 3]), 1).unwrap();
    assert_eq!(hits[0].id, 0);
    assert_eq!(hits[0].distance, 0);
}

#[test]
fn byte_encoding_round_trips_and_is_little_endian_words() {
    let c = sample_collection();
    let bytes = encode_collection_bytes(&c);
    assert_eq!(bytes.len() % 8, 0);
    let words = encode_collection(&c);
    assert_eq!(bytes.len(), 8 * words.len());
    for (i, w) in words.iter().enumerate() {
        assert_eq!(bytes[8 * i..8 * i + 8], w.to_le_bytes());
    }
    let d = decode_collection_bytes(&bytes).unwrap();
    assert_same_records(&c, &d);
}

#[test]
fn byte_decoding_rejects_odd_lengths_and_garbage() {
    assert!(matches!(
        decode_collection_bytes(&vec![1, 2, 3]),
        Err(Error::PersistenceFailure)
    ));
    let c = sample_collection();
    let mut bytes = encode_collection_bytes(&c);
    bytes.truncate(bytes.len() - 8);
    assert!(matches!(decode_collection_bytes(&bytes), Err(Error::PersistenceFailure)));
}

#[test]
fn decode_rejects_garbage() {
    assert!(matches!(decode_collection(&vec![]), Err(Error::PersistenceFailure)));
    assert!(matches!(decode_collection(&vec![9, 9, 9]), Err(Error::PersistenceFailure)));
    let c = sample_collection();
    let mut words = encode_collection(&c);
    words.pop();
    assert!(matches!(decode_collection(&words), Err(Error::PersistenceFailure)));
}

#[test]
fn save_then_get_returns_identical_record_set() {
    let mut db = Database::new();
    let c = sample_collection();
    db.save_collection("vectors", &c);
    let back = db.get_collection("vectors").unwrap();
    assert_same_records(&c, &back);
    assert_eq!(back.search(&Vector(vec![0, 0, 0]), 1).unwrap()[0].distance, 0);
}

#[test]
fn get_of_unknown_name_fails_with_not_found() {
    let db = Database::new();
    assert_eq!(db.len(), 0);
    assert!(matches!(db.get_collection("vectors"), Err(Error::NotFound)));
}

#[test]
fn save_replaces_the_prior_snapshot() {
    let mut db = Database::new();
    let mut c = sample_collection();
    db.save_collection("vectors", &c);
    c.insert_many(&vec![Record::new(&Vector(vec![5, 5, 5]), &Metadata::Text("more".into()))])
        .unwrap();
    db.save_collection("vectors", &c);
    assert_eq!(db.len(), 1);
    assert_eq!(db.get_collection("vectors").unwrap().len(), 4);
}

#[test]
fn retrieved_collection_is_a_disconnected_copy() {
    let mut db = Database::new();
    db.save_collection("vectors", &sample_collection());
    let mut copy = db.get_collection("vectors").unwrap();
    copy.insert_many(&vec![Record::new(&Vector(vec![9, 9, 9]), &Metadata::Text("local".into()))])
        .unwrap();
    assert_eq!(db.get_collection("vectors").unwrap().len(), 3);
    db.save_collection("vectors", &copy);
    assert_eq!(db.get_collection("vectors").unwrap().len(), 4);
}

#[test]
fn delete_makes_the_name_not_found() {
    let mut db = Database::new();
    db.save_collection("a", &sample_collection());
    db.save_collection("b", &sample_collection());
    assert_eq!(db.len(), 2);
    db.delete_collection("a").unwrap();
    assert_eq!(db.len(), 1);
    assert!(matches!(db.get_collection("a"), Err(Error::NotFound)));
    assert!(db.get_collection("b").is_ok());
    assert!(matches!(db.delete_collection("a"), Err(Error::NotFound)));
}

#[test]
fn ids_survive_the_round_trip_after_deletion_gaps() {
    let mut db = Database::new();
    let mut c = sample_collection();
    db.save_collection("vectors", &c);
    let mut back = db.get_collection("vectors").unwrap();
    let ids = back
        .insert_many(&vec![Record::new(&Vector(vec![4, 4, 4]), &Metadata::Text("next".into()))])
        .unwrap();
    assert_eq!(ids, vec![3]);
    let ids2 = c
        .insert_many(&vec![Record::new(&Vector(vec![4, 4, 4]), &Metadata::Text("next".into()))])
        .unwrap();
    assert_eq!(ids2, vec![3]);
}
