use kvlog::store::Database;

#[test]
fn fresh_store_is_empty() {
    let db = Database::new();
    assert_eq!(db.get("anything"), None);
    assert_eq!(db.dump_text().as_str(), "");
}

#[test]
fn get_after_insert() {
    let mut db = Database::new();
    db.insert("key".to_string(), "value".to_string());
    assert_eq!(db.get("key"), Some(&"value".to_string()));
    assert_eq!(db.get("other"), None);
}

#[test]
fn put_overwrite_keeps_later_value() {
    let mut db = Database::new();
    db.insert("k".to_string(), "v1".to_string());
    db.insert("k".to_string(), "v2".to_string());
    assert_eq!(db.get("k"), Some(&"v2".to_string()));
    // the persisted log holds exactly one line for the key
    let lines = db.to_lines();
    assert_eq!(lines, vec!["k,v2".to_string()]);
}

#[test]
fn remove_then_get_is_none() {
    let mut db = Database::new();
    db.insert("k".to_string(), "v".to_string());
    db.remove("k");
    assert_eq!(db.get("k"), None);
}

#[test]
fn remove_absent_key_is_noop() {
    let mut db = Database::new();
    db.insert("a".to_string(), "1".to_string());
    db.remove("never-there");
    assert_eq!(db.get("never-there"), None);
    assert_eq!(db.get("a"), Some(&"1".to_string()));
}

#[test]
fn dump_is_sorted_by_key() {
    let mut db = Database::new();
    db.insert("b".to_string(), "2".to_string());
    db.insert("a".to_string(), "1".to_string());
    db.insert("c".to_string(), "3".to_string());
    assert_eq!(
        db.to_lines(),
        vec!["a,1".to_string(), "b,2".to_string(), "c,3".to_string()]
    );
    assert_eq!(db.dump_text().as_str(), "a,1\nb,2\nc,3\n");
}

#[test]
fn load_later_duplicate_wins() {
    let lines = vec!["a,first".to_string(), "a,second".to_string()];
    let db = Database::from_lines(&lines);
    assert_eq!(db.get("a"), Some(&"second".to_string()));
}

#[test]
fn load_text_later_duplicate_wins() {
    let db = Database::load_text("a,first\nb,9\na,second\n");
    assert_eq!(db.get("a"), Some(&"second".to_string()));
    assert_eq!(db.get("b"), Some(&"9".to_string()));
}

#[test]
fn load_skips_malformed_lines() {
    let db = Database::load_text("nodelimiter\na,b,c\nx,1\n\n");
    assert_eq!(db.get("x"), Some(&"1".to_string()));
    assert_eq!(db.get("nodelimiter"), None);
    assert_eq!(db.get("a"), None);
    assert_eq!(db.get(""), None);
    assert_eq!(db.to_lines(), vec!["x,1".to_string()]);
}

#[test]
fn load_text_accepts_crlf_breaks() {
    let db = Database::load_text("a,1\r\nb,2\r\n");
    assert_eq!(db.get("a"), Some(&"1".to_string()));
    assert_eq!(db.get("b"), Some(&"2".to_string()));
}

#[test]
fn load_accepts_empty_fields() {
    let db = Database::load_text(",empty-key\nk,\n");
    assert_eq!(db.get(""), Some(&"empty-key".to_string()));
    assert_eq!(db.get("k"), Some(&String::new()));
}

#[test]
fn reload_preserves_index() {
    let mut db = Database::new();
    db.insert("one".to_string(), "1".to_string());
    db.insert("two".to_string(), "2".to_string());
    db.insert("three".to_string(), "3".to_string());
    db.remove("two");
    db.insert("one".to_string(), "uno".to_string());
    let reloaded = Database::load_text(db.dump_text().as_str());
    assert_eq!(reloaded.get("one"), Some(&"uno".to_string()));
    assert_eq!(reloaded.get("two"), None);
    assert_eq!(reloaded.get("three"), Some(&"3".to_string()));
    assert_eq!(reloaded.to_lines(), db.to_lines());
}

#[test]
fn many_keys_hit_and_miss() {
    let mut db = Database::new();
    let keys = ["pear", "apple", "quince", "fig", "date", "cherry", "banana", "elder"];
    for (n, k) in keys.iter().enumerate() {
        db.insert(k.to_string(), n.to_string());
    }
    for (n, k) in keys.iter().enumerate() {
        assert_eq!(db.get(k), Some(&n.to_string()));
    }
    assert_eq!(db.get("apricot"), None);
    assert_eq!(db.get("zucchini"), None);
    assert_eq!(db.get(""), None);
    let mut sorted: Vec<&str> = keys.to_vec();
    sorted.sort();
    let dumped_keys: Vec<String> = db
        .to_lines()
        .iter()
        .map(|l| l.split(',').next().unwrap().to_string())
        .collect();
    assert_eq!(dumped_keys, sorted);
    let reloaded = Database::load_text(db.dump_text().as_str());
    for (n, k) in keys.iter().enumerate() {
        assert_eq!(reloaded.get(k), Some(&n.to_string()));
    }
}

#[test]
fn end_to_end_scenario() {
    // start with an empty file
    let mut db = Database::load_text("");
    db.insert("a".to_string(), "1".to_string());
    db.insert("b".to_string(), "2".to_string());
    db.remove("a");
    assert_eq!(db.get("a"), None);
    assert_eq!(db.get("b"), Some(&"2".to_string()));
    // reload from the persisted text: the same two assertions hold
    let reloaded = Database::load_text(db.dump_text().as_str());
    assert_eq!(reloaded.get("a"), None);
    assert_eq!(reloaded.get("b"), Some(&"2".to_string()));
}
