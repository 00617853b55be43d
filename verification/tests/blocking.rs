use entity_rust::{
    build_index, reverse_index, BlockIndex, ConfigurationError, Field, Record, RecordSet,
};

fn record(id: &str, title: &str, authors: &str, venue: &str) -> Record {
    Record {
        id: id.to_string(),
        title: title.to_string(),
        authors: authors.to_string(),
        venue: venue.to_string(),
    }
}

#[test]
fn reverse_index_has_one_block_per_shingle() {
    let r1 = record("1", "title", "john, doe", "venue");
    let r2 = record("2", "title", "doe", "venue");
    let index = reverse_index(vec![&r1, &r2], 3).unwrap();
    assert_eq!(index.len(), 3);
    assert_eq!(*index.keys(), vec!["joh", "ohn", "doe"]);
    assert_eq!(
        *index.posting_lists(),
        vec![vec!["1"], vec!["1"], vec!["1", "2"]]
    );
    assert!(index.get("xyz").is_none());
}

#[test]
fn reverse_index_refuses_shingle_length_zero() {
    let r1 = record("1", "title", "john, doe", "venue");
    assert_eq!(
        reverse_index(vec![&r1], 0).err(),
        Some(ConfigurationError::ZeroShingleLength)
    );
    assert_eq!(
        reverse_index(Vec::new(), 0).err(),
        Some(ConfigurationError::ZeroShingleLength)
    );
    assert_eq!(
        build_index(vec![&r1], Field::Title, 0).err(),
        Some(ConfigurationError::ZeroShingleLength)
    );
}

#[test]
fn reverse_index_of_no_records_is_empty() {
    let index = reverse_index(Vec::new(), 3).unwrap();
    assert_eq!(index.len(), 0);
    assert!(index.get("doe").is_none());
}

#[test]
fn posting_lists_follow_the_order_of_the_records() {
    let r1 = record("1", "title", "john, doe", "venue");
    let r2 = record("2", "title", "doe", "venue");
    let r3 = record("3", "title", "Doe, Jane", "venue");
    let index = reverse_index(vec![&r3, &r1, &r2], 3).unwrap();
    assert_eq!(*index.get("doe").unwrap(), vec!["3", "1", "2"]);
    let index = reverse_index(vec![&r2, &r3, &r1], 3).unwrap();
    assert_eq!(*index.get("doe").unwrap(), vec!["2", "3", "1"]);
}

#[test]
fn a_record_enters_a_posting_list_once() {
    let r1 = record("1", "title", "doe, doe, DOE", "venue");
    let index = reverse_index(vec![&r1], 3).unwrap();
    assert_eq!(*index.get("doe").unwrap(), vec!["1"]);
    assert_eq!(index.len(), 1);
}

#[test]
fn a_record_presented_twice_is_listed_twice() {
    let r1 = record("1", "title", "doe", "venue");
    let index = reverse_index(vec![&r1, &r1], 3).unwrap();
    assert_eq!(*index.get("doe").unwrap(), vec!["1", "1"]);
}

#[test]
fn list_length_is_the_number_of_records_with_the_shingle() {
    let records = vec![
        record("a", "t", "smith, jones", "v"),
        record("b", "t", "jones", "v"),
        record("c", "t", "smithers", "v"),
        record("d", "t", "brown", "v"),
    ];
    let index = reverse_index(records.iter().collect(), 3).unwrap();
    assert_eq!(index.get("smi").unwrap().len(), 2);
    assert_eq!(index.get("jon").unwrap().len(), 2);
    assert_eq!(index.get("bro").unwrap().len(), 1);
    assert_eq!(*index.get("mit").unwrap(), vec!["a", "c"]);
}

#[test]
fn build_index_reads_the_chosen_field() {
    let r1 = record("1", "Data Bases", "john", "vldb");
    let r2 = record("2", "data", "doe", "VLDB, sigmod");
    let by_title = build_index(vec![&r1, &r2], Field::Title, 4).unwrap();
    assert_eq!(*by_title.get("data").unwrap(), vec!["1", "2"]);
    assert_eq!(*by_title.get("base").unwrap(), vec!["1"]);
    let by_venue = build_index(vec![&r1, &r2], Field::Venue, 4).unwrap();
    assert_eq!(*by_venue.get("vldb").unwrap(), vec!["1", "2"]);
    assert_eq!(*by_venue.get("sigm").unwrap(), vec!["2"]);
    let by_id = build_index(vec![&r1, &r2], Field::Id, 4).unwrap();
    assert_eq!(*by_id.get("1").unwrap(), vec!["1"]);
    let by_authors = build_index(vec![&r1, &r2], Field::Authors, 4).unwrap();
    assert_eq!(*by_authors.get("john").unwrap(), vec!["1"]);
}

#[test]
fn records_with_empty_tokens_share_the_empty_shingle() {
    let r1 = record("1", "t", "", "v");
    let r2 = record("2", "t", "a,,b", "v");
    let index = reverse_index(vec![&r1, &r2], 3).unwrap();
    assert_eq!(*index.get("").unwrap(), vec!["1", "2"]);
}

#[test]
fn every_listed_id_is_a_key_of_the_record_set() {
    let mut set = RecordSet::new();
    set.insert(record("1", "t1", "john, doe", "v"));
    set.insert(record("2", "t2", "doe", "v"));
    set.insert(record("3", "t3", "johnson", "v"));
    let index = reverse_index(set.records(), 3).unwrap();
    for list in index.posting_lists() {
        for id in list {
            assert!(set.get(id).is_some());
        }
    }
}

#[test]
fn block_index_appends_in_order() {
    let mut index = BlockIndex::new();
    assert_eq!(index.len(), 0);
    index.append("abc", "1".to_string());
    index.append("xyz", "2".to_string());
    index.append("abc", "3".to_string());
    index.append("abc", "1".to_string());
    assert_eq!(index.len(), 2);
    assert_eq!(*index.keys(), vec!["abc", "xyz"]);
    assert_eq!(*index.get("abc").unwrap(), vec!["1", "3", "1"]);
    assert_eq!(*index.get("xyz").unwrap(), vec!["2"]);
    assert!(index.get("ab").is_none());
}
