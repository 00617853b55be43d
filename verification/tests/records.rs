use entity_rust::{ConfigurationError, Field, Record, RecordSet};

fn record(id: &str, title: &str) -> Record {
    Record {
        id: id.to_string(),
        title: title.to_string(),
        authors: "a".to_string(),
        venue: "v".to_string(),
    }
}

fn ids(set: &RecordSet) -> Vec<String> {
    set.records().iter().map(|r| r.id.clone()).collect()
}

#[test]
fn record_set_starts_empty() {
    let set = RecordSet::new();
    assert_eq!(set.len(), 0);
    assert!(set.get("1").is_none());
    assert!(set.records().is_empty());
}

#[test]
fn record_set_holds_records_by_id() {
    let mut set = RecordSet::new();
    set.insert(record("1", "one"));
    set.insert(record("2", "two"));
    assert_eq!(set.len(), 2);
    assert_eq!(set.get("1").unwrap().title, "one");
    assert_eq!(set.get("2").unwrap().title, "two");
    assert!(set.get("3").is_none());
    assert!(set.get("").is_none());
}

#[test]
fn record_set_last_write_wins() {
    let mut set = RecordSet::new();
    set.insert(record("1", "first"));
    set.insert(record("2", "two"));
    set.insert(record("1", "second"));
    assert_eq!(set.len(), 2);
    assert_eq!(set.get("1").unwrap().title, "second");
    assert_eq!(ids(&set), vec!["1", "2"]);
}

#[test]
fn record_set_lists_records_in_order_of_first_insertion() {
    let mut set = RecordSet::new();
    for id in ["b", "a", "c", "a"] {
        set.insert(record(id, id));
    }
    assert_eq!(ids(&set), vec!["b", "a", "c"]);
}

#[test]
fn record_set_extend_prefers_the_other_set() {
    let mut left = RecordSet::new();
    left.insert(record("1", "left one"));
    left.insert(record("2", "left two"));
    let mut right = RecordSet::new();
    right.insert(record("3", "right three"));
    right.insert(record("2", "right two"));
    left.extend(right);
    assert_eq!(left.len(), 3);
    assert_eq!(left.get("1").unwrap().title, "left one");
    assert_eq!(left.get("2").unwrap().title, "right two");
    assert_eq!(left.get("3").unwrap().title, "right three");
    assert_eq!(ids(&left), vec!["1", "2", "3"]);
}

#[test]
fn record_set_extend_with_empty_set_changes_nothing() {
    let mut left = RecordSet::new();
    left.insert(record("1", "one"));
    left.extend(RecordSet::new());
    assert_eq!(left.len(), 1);
    assert_eq!(left.get("1").unwrap().title, "one");
}

#[test]
fn record_field_selects_each_field() {
    let r = Record {
        id: "i".to_string(),
        title: "t".to_string(),
        authors: "a".to_string(),
        venue: "v".to_string(),
    };
    assert_eq!(r.field(Field::Id), "i");
    assert_eq!(r.field(Field::Title), "t");
    assert_eq!(r.field(Field::Authors), "a");
    assert_eq!(r.field(Field::Venue), "v");
}

#[test]
fn field_from_name_knows_the_four_fields() {
    assert_eq!(Field::from_name("id"), Ok(Field::Id));
    assert_eq!(Field::from_name("title"), Ok(Field::Title));
    assert_eq!(Field::from_name("authors"), Ok(Field::Authors));
    assert_eq!(Field::from_name("venue"), Ok(Field::Venue));
}

#[test]
fn field_from_name_refuses_other_names() {
    for name in ["", "Title", "author", "venue ", "year"] {
        assert_eq!(Field::from_name(name), Err(ConfigurationError::UnknownField));
    }
}
