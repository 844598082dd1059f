use docdb_rs::document::{
    clone_json, clone_key, field_matches, json_equal, Database, DocumentKey, FieldFilter, JsonNumber,
    JsonValue, LogEntry, Query,
};

fn text(s: &str) -> JsonValue {
    JsonValue::String(s.to_string())
}

fn number(n: u64) -> JsonValue {
    JsonValue::Number(JsonNumber::PosInt(n))
}

/// An object; members are given in ascending name order, as serde_json keeps them.
fn object(members: Vec<(&str, JsonValue)>) -> JsonValue {
    JsonValue::Object(members.into_iter().map(|(k, v)| (k.to_string(), v)).collect())
}

fn person(name: &str, age: u64) -> JsonValue {
    object(vec![("age", number(age)), ("name", text(name))])
}

fn doc_key(partition_key: &str, collection: &str, id: &str) -> DocumentKey {
    DocumentKey {
        partition_key: partition_key.to_string(),
        collection: collection.to_string(),
        id: id.to_string(),
    }
}

fn holds(result: &[(&DocumentKey, &JsonValue)], key: &DocumentKey, value: &JsonValue) -> bool {
    result.iter().any(|(k, v)| {
        k.partition_key == key.partition_key && k.collection == key.collection && k.id == key.id
            && json_equal(v, value)
    })
}

fn is_value(found: Option<&JsonValue>, expected: &JsonValue) -> bool {
    match found {
        Some(v) => json_equal(v, expected),
        None => false,
    }
}

/// What a commit log file holds, read again.
fn reread(log: &[LogEntry]) -> Vec<LogEntry> {
    log.iter()
        .map(|e| match e {
            LogEntry::Add { key, value } => LogEntry::Add { key: clone_key(key), value: clone_json(value) },
            LogEntry::Delete { key } => LogEntry::Delete { key: clone_key(key) },
        })
        .collect()
}

#[test]
fn test_get_document() {
    let mut test_db = Database::open(Vec::new());
    let val = person("John Doe", 43);
    let doc_key = doc_key("partition1", "collection1", "id1");
    test_db.add_document(&doc_key, &val);
    let get_result = test_db.get_document(&doc_key);
    assert!(json_equal(&val, get_result.unwrap()));
}

#[test]
fn test_get_missing_document() {
    let test_db = Database::open(Vec::new());
    let doc_key = doc_key("partition1", "collection1", "id1");
    let get_result = test_db.get_document(&doc_key);
    assert!(get_result.is_none());
}

#[test]
fn test_delete_document() {
    let mut test_db = Database::open(Vec::new());
    let val = person("John Doe", 43);
    let doc_key = doc_key("partition1", "collection1", "id1");
    test_db.add_document(&doc_key, &val);
    test_db.delete_document(&doc_key);
    let get_result = test_db.get_document(&doc_key);
    assert!(get_result.is_none());
}

#[test]
fn test_scan_collection() {
    let mut test_db = Database::open(Vec::new());
    let val = person("John Doe", 43);
    let val2 = person("Joe Sluis", 22);
    let doc_key = doc_key("partition1", "collection1", "id1");
    let doc_key2 = self::doc_key("partition1", "collection1", "id2");
    test_db.add_document(&doc_key, &val);
    test_db.add_document(&doc_key2, &val2);
    let scan_result = test_db.scan_collection("partition1", "collection1");
    assert!(holds(&scan_result, &doc_key, &val));
    assert!(holds(&scan_result, &doc_key2, &val2));
}

#[test]
fn test_execute_query() {
    let mut test_db = Database::open(Vec::new());
    let val = person("John Doe", 43);
    let val2 = person("Joe Sluis", 22);
    let doc_key = doc_key("partition1", "collection1", "id1");
    let doc_key2 = self::doc_key("partition1", "collection1", "id2");
    test_db.add_document(&doc_key, &val);
    test_db.add_document(&doc_key2, &val2);
    let query = Query {
        partition_key: "partition1".to_string(),
        collection: "collection1".to_string(),
        filter: Some(FieldFilter { field: "age".to_string(), value: number(43) }),
    };
    let query_result = test_db.execute_query(&query);
    assert!(holds(&query_result, &doc_key, &val));
    assert!(!holds(&query_result, &doc_key2, &val2));
}

#[test]
fn test_reopen_keeps_document() {
    let mut log: Vec<LogEntry> = Vec::new();
    let val = person("John Doe", 43);
    let doc_key = doc_key("partition1", "collection1", "id1");
    let val2 = person("Joe Sluis", 22);
    let doc_key2 = self::doc_key("partition1", "collection1", "id2");
    {
        let mut test_db = Database::open(reread(&log));
        log.push(test_db.add_document(&doc_key, &val));
    }
    {
        let mut test_db = Database::open(reread(&log));
        log.push(test_db.add_document(&doc_key2, &val2));
    }
    let reopened_db = Database::open(reread(&log));
    assert!(is_value(reopened_db.get_document(&doc_key), &val));
    assert!(is_value(reopened_db.get_document(&doc_key2), &val2));
}

#[test]
fn test_reopen_keeps_delete() {
    let mut log: Vec<LogEntry> = Vec::new();
    let val = person("John Doe", 43);
    let doc_key = doc_key("partition1", "collection1", "id1");
    {
        let mut test_db = Database::open(reread(&log));
        log.push(test_db.add_document(&doc_key, &val));
    }
    {
        let mut test_db = Database::open(reread(&log));
        log.push(test_db.delete_document(&doc_key));
    }
    let reopened_db = Database::open(reread(&log));
    assert!(reopened_db.get_document(&doc_key).is_none());
}

#[test]
fn scan_collection_leaves_out_other_collections() {
    let mut db = Database::open(Vec::new());
    let a = doc_key("p", "c", "1");
    let b = doc_key("p", "other", "2");
    let c = doc_key("q", "c", "3");
    db.add_document(&a, &number(1));
    db.add_document(&b, &number(2));
    db.add_document(&c, &number(3));
    let result = db.scan_collection("p", "c");
    assert_eq!(result.len(), 1);
    assert!(holds(&result, &a, &number(1)));
}

#[test]
fn scan_collection_where_filters_on_member() {
    let mut db = Database::open(Vec::new());
    let a = doc_key("p", "c", "1");
    let b = doc_key("p", "c", "2");
    let d = doc_key("p", "c", "3");
    db.add_document(&a, &person("Ann", 30));
    db.add_document(&b, &person("Bob", 31));
    db.add_document(&d, &number(30));
    let result = db.scan_collection_where("p", "c", "age", &number(30));
    assert_eq!(result.len(), 1);
    assert!(holds(&result, &a, &person("Ann", 30)));
    let none = db.scan_collection_where("p", "c", "height", &number(30));
    assert!(none.is_empty());
}

#[test]
fn execute_query_without_filter_is_scan() {
    let mut db = Database::open(Vec::new());
    let a = doc_key("p", "c", "1");
    let b = doc_key("p", "c", "2");
    db.add_document(&a, &person("Ann", 30));
    db.add_document(&b, &person("Bob", 31));
    let query = Query { partition_key: "p".to_string(), collection: "c".to_string(), filter: None };
    let result = db.execute_query(&query);
    assert_eq!(result.len(), 2);
    assert!(holds(&result, &a, &person("Ann", 30)));
    assert!(holds(&result, &b, &person("Bob", 31)));
}

#[test]
fn add_document_replaces_and_logs() {
    let mut db = Database::open(Vec::new());
    let a = doc_key("p", "c", "1");
    db.add_document(&a, &number(1));
    let entry = db.add_document(&a, &number(2));
    assert!(is_value(db.get_document(&a), &number(2)));
    assert_eq!(db.scan_collection("p", "c").len(), 1);
    match entry {
        LogEntry::Add { key, value } => {
            assert_eq!(key.id, "1");
            assert!(json_equal(&value, &number(2)));
        }
        LogEntry::Delete { .. } => panic!("an add is logged as an add"),
    }
}

#[test]
fn replay_applies_records_in_order() {
    let a = doc_key("p", "c", "1");
    let log = vec![
        LogEntry::Add { key: clone_key(&a), value: number(1) },
        LogEntry::Delete { key: clone_key(&a) },
        LogEntry::Add { key: clone_key(&a), value: number(3) },
    ];
    let db = Database::open(log);
    assert!(is_value(db.get_document(&a), &number(3)));
}

#[test]
fn field_matches_reads_top_level_members() {
    let doc = person("Ann", 30);
    assert!(field_matches(&doc, "name", &text("Ann")));
    assert!(!field_matches(&doc, "name", &text("Bob")));
    assert!(!field_matches(&number(3), "name", &text("Ann")));
}

#[test]
fn filtered_scan_keeps_scan_order() {
    let mut db = Database::open(Vec::new());
    for (id, age) in [("3", 30), ("1", 31), ("2", 30), ("4", 30)] {
        db.add_document(&doc_key("p", "c", id), &person("X", age));
    }
    let all: Vec<String> = db.scan_collection("p", "c").iter().map(|(k, _)| k.id.clone()).collect();
    let filtered: Vec<String> =
        db.scan_collection_where("p", "c", "age", &number(30)).iter().map(|(k, _)| k.id.clone()).collect();
    let expected: Vec<String> = all.iter().filter(|id| id.as_str() != "1").cloned().collect();
    assert_eq!(filtered, expected);
    let query = Query {
        partition_key: "p".to_string(),
        collection: "c".to_string(),
        filter: Some(FieldFilter { field: "age".to_string(), value: number(30) }),
    };
    let queried: Vec<String> = db.execute_query(&query).iter().map(|(k, _)| k.id.clone()).collect();
    assert_eq!(queried, filtered);
}

#[test]
fn reopen_replays_a_whole_session() {
    let mut log: Vec<LogEntry> = Vec::new();
    let a = doc_key("p", "c", "a");
    let b = doc_key("p", "c", "b");
    {
        let mut db = Database::open(reread(&log));
        log.push(db.add_document(&a, &number(1)));
        log.push(db.add_document(&b, &number(2)));
        log.push(db.delete_document(&a));
        log.push(db.add_document(&b, &number(3)));
    }
    let db = Database::open(reread(&log));
    assert!(db.get_document(&a).is_none());
    assert!(is_value(db.get_document(&b), &number(3)));
}
