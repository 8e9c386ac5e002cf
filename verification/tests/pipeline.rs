use ragstore::database::Database;
use ragstore::error::Error;
use ragstore::pipeline::{ingest, query_chunk, records_from_chunks, run_query};
use ragstore::record::Metadata;
use ragstore::vector::Vector;

/// A deterministic stand-in for the embedding model: a tiny fixed-width
/// vector derived from the characters of the chunk.
fn stub_embed(batch: &[String]) -> Vec<Vector> {
    batch
        .iter()
        .map(|s| {
            let mut acc: [i32; 4] = [0; 4];
            for (i, ch) in s.chars().enumerate() {
                acc[i % 4] = acc[i % 4].wrapping_add(ch as i32);
            }
            Vector(acc.to_vec())
        })
        .collect()
}

#[test]
fn ingest_then_query_finds_the_matching_chunk() {
    let mut db = Database::new();
    let chunks = vec![
        "the water cycle".to_string(),
        "rust verification".to_string(),
        "vector databases".to_string(),
    ];
    let vectors = stub_embed(&chunks);
    let ids = ingest(&mut db, "vectors", &chunks, &vectors).unwrap();
    assert_eq!(ids, vec![0, 1, 2]);
    assert_eq!(db.len(), 1);

    let q = query_chunk("rust verification", 250).unwrap();
    assert_eq!(q, "rust verification");
    let qv = &stub_embed(&[q])[0];
    let hits = run_query(&db, "vectors", qv, 8).unwrap();
    assert_eq!(hits.len(), 3);
    assert_eq!(hits[0].id, 1);
    assert_eq!(hits[0].distance, 0);
    match &hits[0].data {
        Metadata::Text(s) => assert_eq!(s, "rust verification"),
        _ => panic!("expected text metadata"),
    }
}

#[test]
fn ingest_creates_and_persists_a_missing_collection_first() {
    let mut db = Database::new();
    let ids = ingest(&mut db, "fresh", &Vec::new(), &Vec::new()).unwrap();
    assert!(ids.is_empty());
    assert_eq!(db.len(), 1);
    assert_eq!(db.get_collection("fresh").unwrap().len(), 0);
}

#[test]
fn ingest_appends_to_an_existing_collection() {
    let mut db = Database::new();
    let first = vec!["alpha".to_string()];
    ingest(&mut db, "vectors", &first, &stub_embed(&first)).unwrap();
    let second = vec!["beta".to_string(), "gamma".to_string()];
    let ids = ingest(&mut db, "vectors", &second, &stub_embed(&second)).unwrap();
    assert_eq!(ids, vec![1, 2]);
    assert_eq!(db.get_collection("vectors").unwrap().len(), 3);
}

#[test]
fn misaligned_embedder_output_is_an_embedding_failure() {
    let chunks = vec!["one".to_string(), "two".to_string()];
    let vectors = stub_embed(&chunks[..1].to_vec());
    assert!(matches!(
        records_from_chunks(&chunks, &vectors),
        Err(Error::EmbeddingFailure)
    ));
    let mut db = Database::new();
    assert!(matches!(
        ingest(&mut db, "vectors", &chunks, &vectors),
        Err(Error::EmbeddingFailure)
    ));
    assert_eq!(db.len(), 0);
}

#[test]
fn mixed_dimensions_reject_the_whole_ingest() {
    let mut db = Database::new();
    let chunks = vec!["a".to_string(), "b".to_string()];
    let vectors = vec![Vector(vec![1, 2, 3]), Vector(vec![1, 2])];
    assert!(matches!(
        ingest(&mut db, "vectors", &chunks, &vectors),
        Err(Error::DimensionMismatch)
    ));
    assert_eq!(db.get_collection("vectors").unwrap().len(), 0);
}

#[test]
fn empty_query_is_invalid() {
    assert!(matches!(query_chunk("", 250), Err(Error::InvalidQuery)));
}

#[test]
fn query_chunk_of_zero_size_is_an_invalid_configuration() {
    assert!(matches!(query_chunk("hello", 0), Err(Error::InvalidConfiguration)));
}

#[test]
fn query_uses_only_the_first_chunk() {
    let q = query_chunk("abcdefgh", 3).unwrap();
    assert_eq!(q, "abc");
}

#[test]
fn query_of_unknown_collection_is_not_found() {
    let db = Database::new();
    assert!(matches!(
        run_query(&db, "vectors", &Vector(vec![1]), 8),
        Err(Error::NotFound)
    ));
}
