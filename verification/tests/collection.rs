use ragstore::collection::{Collection, Config, Distance};
use ragstore::error::Error;
use ragstore::record::{Metadata, Record};
use ragstore::vector::Vector;

fn text_record(components: Vec<i32>, label: &str) -> Record {
    Record::new(&Vector(components), &Metadata::Text(label.to_string()))
}

fn fresh() -> Collection {
    Collection::new(&Config { distance: Distance::Euclidean, dimension: None })
}

#[test]
fn inserted_vector_is_its_own_nearest_neighbour_at_distance_zero() {
    let mut c = fresh();
    let records = vec![
        text_record(vec![1, 2, 3], "one"),
        text_record(vec![10, 20, 30], "two"),
        text_record(vec![-5, 0, 5], "three"),
    ];
    let ids = c.insert_many(&records).unwrap();
    assert_eq!(ids, vec![0, 1, 2]);
    let hits = c.search(&Vector(vec![10, 20, 30]), 1).unwrap();
    assert_eq!(hits.len(), 1);
    assert_eq!(hits[0].id, 1);
    assert_eq!(hits[0].distance, 0);
    match &hits[0].data {
        Metadata::Text(s) => assert_eq!(s, "two"),
        _ => panic!("expected text metadata"),
    }
}

#[test]
fn dimension_mismatch_rejects_whole_batch_and_leaves_collection_unchanged() {
    let mut c = fresh();
    let ids = c.insert_many(&vec![text_record(vec![1, 2], "a")]).unwrap();
    assert_eq!(ids, vec![0]);
    let bad = vec![
        text_record(vec![3, 4], "ok"),
        text_record(vec![5, 6, 7], "wrong dimension"),
    ];
    assert!(matches!(c.insert_many(&bad), Err(Error::DimensionMismatch)));
    assert_eq!(c.len(), 1);
    let listing = c.list();
    assert_eq!(listing.len(), 1);
    assert_eq!(listing[0].0, 0);
    let next = c.insert_many(&vec![text_record(vec![8, 9], "b")]).unwrap();
    assert_eq!(next, vec![1]);
}

#[test]
fn configured_dimension_is_enforced_from_the_start() {
    let mut c = Collection::new(&Config { distance: Distance::Euclidean, dimension: Some(4) });
    assert!(matches!(
        c.insert_many(&vec![text_record(vec![1, 2, 3], "short")]),
        Err(Error::DimensionMismatch)
    ));
    assert_eq!(c.len(), 0);
    assert!(c.insert_many(&vec![text_record(vec![1, 2, 3, 4], "fits")]).is_ok());
}

#[test]
fn search_results_sorted_by_distance_then_id() {
    let mut c = fresh();
    let records = vec![
        text_record(vec![0, 10], "far"),
        text_record(vec![0, 1], "near"),
        text_record(vec![0, 3], "mid"),
        text_record(vec![0, -1], "tied with near"),
    ];
    c.insert_many(&records).unwrap();
    let hits = c.search(&Vector(vec![0, 0]), 10).unwrap();
    assert_eq!(hits.len(), 4);
    for w in hits.windows(2) {
        assert!(
            w[0].distance < w[1].distance
                || (w[0].distance == w[1].distance && w[0].id < w[1].id)
        );
    }
    assert_eq!(hits[0].id, 1);
    assert_eq!(hits[0].distance, 1);
    assert_eq!(hits[1].id, 3);
    assert_eq!(hits[1].distance, 1);
    assert_eq!(hits[2].id, 2);
    assert_eq!(hits[2].distance, 9);
    assert_eq!(hits[3].id, 0);
    assert_eq!(hits[3].distance, 100);
}

#[test]
fn empty_collection_search_returns_empty_not_error() {
    let c = fresh();
    let hits = c.search(&Vector(vec![1, 2, 3]), 8).unwrap();
    assert!(hits.is_empty());
}

#[test]
fn five_records_searched_with_three_dimensional_query_fails() {
    let mut c = fresh();
    let records: Vec<Record> = (0..5)
        .map(|i| text_record(vec![i, i + 1, i + 2, i + 3], "r"))
        .collect();
    let ids = c.insert_many(&records).unwrap();
    assert_eq!(ids.len(), 5);
    assert!(matches!(
        c.search(&Vector(vec![1, 2, 3]), 8),
        Err(Error::DimensionMismatch)
    ));
}

#[test]
fn k_zero_returns_empty_and_small_collections_return_everything() {
    let mut c = fresh();
    c.insert_many(&vec![text_record(vec![1], "a"), text_record(vec![2], "b")]).unwrap();
    assert!(c.search(&Vector(vec![0]), 0).unwrap().is_empty());
    assert_eq!(c.search(&Vector(vec![0]), 100).unwrap().len(), 2);
}

#[test]
fn exact_squared_distance_is_reported() {
    let mut c = fresh();
    c.insert_many(&vec![text_record(vec![3, -4], "pythagorean")]).unwrap();
    let hits = c.search(&Vector(vec![0, 0]), 1).unwrap();
    assert_eq!(hits[0].distance, 25);
    let far = c.search(&Vector(vec![-2_000_000_000, 2_000_000_000]), 1).unwrap();
    let dx = 3i128 + 2_000_000_000;
    let dy = -4i128 - 2_000_000_000;
    assert_eq!(far[0].distance, (dx * dx + dy * dy) as u128);
}

#[test]
fn list_is_a_snapshot_in_ascending_id_order() {
    let mut c = fresh();
    c.insert_many(&vec![
        text_record(vec![1, 1], "first"),
        text_record(vec![2, 2], "second"),
    ])
    .unwrap();
    c.insert_many(&vec![text_record(vec![3, 3], "third")]).unwrap();
    let listing = c.list();
    assert_eq!(listing.len(), 3);
    let labels: Vec<String> = listing
        .iter()
        .map(|(_, m)| match m {
            Metadata::Text(s) => s.clone(),
            _ => String::new(),
        })
        .collect();
    assert_eq!(listing.iter().map(|e| e.0).collect::<Vec<u64>>(), vec![0, 1, 2]);
    assert_eq!(labels, vec!["first", "second", "third"]);
}

#[test]
fn ids_keep_growing_across_batches() {
    let mut c = fresh();
    let a = c.insert_many(&vec![text_record(vec![1], "a")]).unwrap();
    let b = c.insert_many(&vec![text_record(vec![2], "b"), text_record(vec![3], "c")]).unwrap();
    assert_eq!(a, vec![0]);
    assert_eq!(b, vec![1, 2]);
}

#[test]
fn empty_batch_succeeds_with_no_ids() {
    let mut c = fresh();
    let ids = c.insert_many(&Vec::new()).unwrap();
    assert!(ids.is_empty());
    assert_eq!(c.len(), 0);
}
