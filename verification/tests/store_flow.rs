use voter::rank::rank;
use voter::store::{dedup_gate, Store};
use voter::{Admit, Error};

fn store_with(entries: &[(&str, &str, &str)]) -> Store {
    let mut s = Store::new();
    for (id, name, hash) in entries {
        let r = s.ingest(id.to_string(), name.to_string(), hash.to_string());
        assert_eq!(r, Ok(Admit::Inserted));
    }
    s
}

#[test]
fn ingest_identical_hash_twice_yields_one_record() {
    let mut s = Store::new();
    let first = s.ingest("id-1".to_string(), "cat.jpg".to_string(), "777".to_string());
    assert_eq!(first, Ok(Admit::Inserted));
    let second = s.ingest("id-2".to_string(), "cat.jpg".to_string(), "777".to_string());
    assert_eq!(second, Ok(Admit::Duplicate));
    assert_eq!(s.len(), 1);
}

#[test]
fn ingest_same_bytes_under_different_names_collapses() {
    // two inbound files, different basenames, identical content hash
    let mut s = Store::new();
    assert_eq!(
        s.ingest("id-1".to_string(), "a.jpg".to_string(), "42".to_string()),
        Ok(Admit::Inserted)
    );
    assert_eq!(
        s.ingest("id-2".to_string(), "b.jpeg".to_string(), "42".to_string()),
        Ok(Admit::Duplicate)
    );
    assert_eq!(s.len(), 1);
    assert_eq!(s.records[0].filename, "a.jpg");
}

#[test]
fn ingest_reused_id_is_refused() {
    let mut s = store_with(&[("id-1", "a.jpg", "1")]);
    let r = s.ingest("id-1".to_string(), "b.jpg".to_string(), "2".to_string());
    assert_eq!(r, Err(Error::StoreError));
    assert_eq!(s.len(), 1);
}

#[test]
fn fresh_record_starts_neutral() {
    let s = store_with(&[("id-1", "a.jpg", "1")]);
    let rec = &s.records[0];
    assert_eq!(rec.upvotes, 0);
    assert_eq!(rec.downvotes, 0);
    assert_eq!(rec.sorting, 500_000);
    assert_eq!(rec.confidence, 0);
}

#[test]
fn vote_up_on_fresh_record_matches_rank() {
    let mut s = store_with(&[("id-1", "a.jpg", "1")]);
    let r = s.apply_vote(&"id-1".to_string(), 1);
    assert_eq!(r, Ok(()));
    let rec = &s.records[0];
    assert_eq!(rec.upvotes, 1);
    assert_eq!(rec.downvotes, 0);
    let expected = rank(1, 0);
    assert_eq!(rec.sorting, expected.sorting);
    assert_eq!(rec.confidence, expected.confidence);
}

#[test]
fn vote_down_increments_only_downvotes() {
    let mut s = store_with(&[("id-1", "a.jpg", "1")]);
    assert_eq!(s.apply_vote(&"id-1".to_string(), -1), Ok(()));
    let rec = &s.records[0];
    assert_eq!(rec.upvotes, 0);
    assert_eq!(rec.downvotes, 1);
    assert_eq!(rec.sorting, -1_000_000);
}

#[test]
fn vote_invalid_value_mutates_nothing() {
    let mut s = store_with(&[("id-1", "a.jpg", "1")]);
    for bad in [2i8, 0, -2, 100, -100] {
        let r = s.apply_vote(&"id-1".to_string(), bad);
        assert_eq!(r, Err(Error::InvalidValue));
    }
    let rec = &s.records[0];
    assert_eq!(rec.upvotes, 0);
    assert_eq!(rec.downvotes, 0);
    assert_eq!(rec.sorting, 500_000);
}

#[test]
fn vote_unknown_id_creates_no_record() {
    let mut s = store_with(&[("id-1", "a.jpg", "1")]);
    let r = s.apply_vote(&"unknown-id".to_string(), 1);
    assert_eq!(r, Err(Error::NotFound));
    assert_eq!(s.len(), 1);
    assert_eq!(s.records[0].upvotes, 0);
}

#[test]
fn votes_accumulate() {
    let mut s = store_with(&[("id-1", "a.jpg", "1")]);
    let id = "id-1".to_string();
    for _ in 0..10 {
        assert_eq!(s.apply_vote(&id, 1), Ok(()));
    }
    for _ in 0..3 {
        assert_eq!(s.apply_vote(&id, -1), Ok(()));
    }
    let rec = &s.records[0];
    assert_eq!(rec.upvotes, 10);
    assert_eq!(rec.downvotes, 3);
    let expected = rank(10, 3);
    assert_eq!(rec.sorting, expected.sorting);
    assert_eq!(rec.confidence, expected.confidence);
}

#[test]
fn get_next_empty_pool_is_none() {
    let s = Store::new();
    assert!(s.get_next(12345).is_none());
    assert!(s.get_next_random().is_none());
}

#[test]
fn get_next_zero_draw_serves_the_front_of_the_pool() {
    let s = store_with(&[("id-1", "a.jpg", "1")]);
    let front = s.get_next(0).expect("a nonempty pool always yields a record");
    assert_eq!(front.id, "id-1");
}

#[test]
fn get_next_orders_by_confidence_ascending() {
    // confidences: id-a 0, id-b 23013 (one upvote), id-c 75826 (one of each)
    let mut s = store_with(&[("id-a", "a.jpg", "1"), ("id-b", "b.jpg", "2"), ("id-c", "c.jpg", "3")]);
    assert_eq!(s.apply_vote(&"id-b".to_string(), 1), Ok(()));
    assert_eq!(s.apply_vote(&"id-c".to_string(), 1), Ok(()));
    assert_eq!(s.apply_vote(&"id-c".to_string(), -1), Ok(()));
    // draws mapping to offsets 0, 1, 2 of a pool of three
    let front = s.get_next(18500).expect("offset 0");
    assert_eq!(front.id, "id-a");
    let middle = s.get_next(6500).expect("offset 1");
    assert_eq!(middle.id, "id-b");
    let back = s.get_next(500).expect("offset 2");
    assert_eq!(back.id, "id-c");
}

#[test]
fn suppressed_records_leave_the_pool() {
    let mut s = store_with(&[("id-a", "a.jpg", "1"), ("id-b", "b.jpg", "2")]);
    // four downvotes push the sort key to -4, below the -3 threshold
    for _ in 0..4 {
        assert_eq!(s.apply_vote(&"id-a".to_string(), -1), Ok(()));
    }
    assert_eq!(s.count_pool(), 1);
    let only = s.get_next(40000).expect("one eligible record");
    assert_eq!(only.id, "id-b");
    // three downvotes keep a record exactly at the threshold
    for _ in 0..3 {
        assert_eq!(s.apply_vote(&"id-b".to_string(), -1), Ok(()));
    }
    assert_eq!(s.records[1].sorting, -3_000_000);
    assert_eq!(s.count_pool(), 1);
}

#[test]
fn ingest_auto_mints_sortable_ids() {
    let mut s = Store::new();
    assert_eq!(
        s.ingest_auto("a.jpg".to_string(), "900".to_string()),
        Ok(Admit::Inserted)
    );
    assert_eq!(s.records[0].id.len(), 26);
    assert_eq!(
        s.ingest_auto("b.jpg".to_string(), "900".to_string()),
        Ok(Admit::Duplicate)
    );
    assert_eq!(s.len(), 1);
}

#[test]
fn dedup_gate_reports_existing_content() {
    assert_eq!(dedup_gate(true), Admit::Duplicate);
    assert_eq!(dedup_gate(false), Admit::Inserted);
}

#[test]
fn get_next_random_serves_the_pool() {
    let mut s = store_with(&[("id-1", "a.jpg", "1")]);
    assert_eq!(s.apply_vote(&"id-1".to_string(), 1), Ok(()));
    for _ in 0..10 {
        let entry = s.get_next_random().expect("a nonempty pool always yields a record");
        assert_eq!(entry.id, "id-1");
        assert_eq!(entry.hash, "1");
    }
}
