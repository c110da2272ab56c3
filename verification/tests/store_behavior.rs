use contextdb::store::{ContextDB, FileInput, StoreError, MAX_RESULTS};

fn readable(path: &str, content: &str) -> FileInput {
    FileInput { path: String::from(path), content: Some(String::from(content)) }
}

fn unreadable(path: &str) -> FileInput {
    FileInput { path: String::from(path), content: None }
}

#[test]
fn scenario_register_ingest_search() {
    let mut db = ContextDB::new();
    db.init_project("p1", "/src", 1);
    let files = vec![readable("a.txt", "foo\nbarfoo\nbaz")];
    let count = db.ingest("p1", &files, 2).unwrap();
    assert_eq!(count, 1);

    let results = db.search("p1", "foo", false).unwrap();
    assert_eq!(results.len(), 2);
    assert_eq!(results[0].line_number, 1);
    assert_eq!(results[0].line_content, "foo");
    assert!(results[0].full_context.is_none());
    assert_eq!(results[1].line_number, 2);
    assert_eq!(results[1].line_content, "barfoo");
    assert!(results[1].full_context.is_none());

    let results = db.search("p1", "foo", true).unwrap();
    assert_eq!(results.len(), 2);
    for r in &results {
        assert_eq!(r.full_context.as_deref(), Some("foo\nbarfoo\nbaz"));
    }
}

#[test]
fn search_results_contain_query() {
    let mut db = ContextDB::new();
    db.init_project("p1", "/src", 1);
    let files = vec![readable("a.txt", "alpha\nbeta\ngamma\nalphabet")];
    db.ingest("p1", &files, 2).unwrap();
    let results = db.search("p1", "alpha", false).unwrap();
    assert_eq!(results.len(), 2);
    for r in &results {
        assert!(r.line_content.contains("alpha"));
    }
}

#[test]
fn search_unregistered_project_fails() {
    let db = ContextDB::new();
    assert_eq!(db.search("ghost", "x", false).unwrap_err(), StoreError::NotFound);
}

#[test]
fn ingest_unregistered_project_fails() {
    let mut db = ContextDB::new();
    let files = vec![readable("a.txt", "x")];
    assert_eq!(db.ingest("ghost", &files, 1).unwrap_err(), StoreError::NotFound);
}

#[test]
fn reingest_same_content_accumulates_nothing() {
    let mut db = ContextDB::new();
    db.init_project("p1", "/src", 1);
    let files = vec![readable("a.txt", "foo\nbar")];
    db.ingest("p1", &files, 2).unwrap();
    db.ingest("p1", &files, 3).unwrap();
    let results = db.search("p1", "foo", false).unwrap();
    assert_eq!(results.len(), 1);
    let results = db.search("p1", "", false).unwrap();
    assert_eq!(results.len(), 2);
}

#[test]
fn reingest_shrinking_content_leaves_no_stale_entries() {
    let mut db = ContextDB::new();
    db.init_project("p1", "/src", 1);
    db.ingest("p1", &vec![readable("a.txt", "l1\nl2\nl3")], 2).unwrap();
    db.ingest("p1", &vec![readable("a.txt", "l1")], 3).unwrap();
    let results = db.search("p1", "l", false).unwrap();
    assert_eq!(results.len(), 1);
    assert_eq!(results[0].line_content, "l1");
    assert_eq!(results[0].line_number, 1);
}

#[test]
fn search_is_isolated_per_project() {
    let mut db = ContextDB::new();
    db.init_project("p1", "/one", 1);
    db.init_project("p2", "/two", 1);
    db.ingest("p1", &vec![readable("a.txt", "alpha shared")], 2).unwrap();
    db.ingest("p2", &vec![readable("b.txt", "alpha shared")], 2).unwrap();
    let results = db.search("p1", "alpha", false).unwrap();
    assert_eq!(results.len(), 1);
    assert_eq!(results[0].file_path, "a.txt");
    let results = db.search("p2", "alpha", false).unwrap();
    assert_eq!(results.len(), 1);
    assert_eq!(results[0].file_path, "b.txt");
}

#[test]
fn search_caps_results() {
    let mut db = ContextDB::new();
    db.init_project("p1", "/src", 1);
    let mut content = String::new();
    for i in 0..150 {
        content.push_str("match line ");
        content.push_str(&i.to_string());
        content.push('\n');
    }
    db.ingest("p1", &vec![readable("big.txt", &content)], 2).unwrap();
    let results = db.search("p1", "match", false).unwrap();
    assert_eq!(results.len(), MAX_RESULTS);
}

#[test]
fn ingest_skips_unreadable_files() {
    let mut db = ContextDB::new();
    db.init_project("p1", "/src", 1);
    let files = vec![
        readable("a.txt", "one"),
        unreadable("locked.txt"),
        readable("b.txt", "two"),
    ];
    let count = db.ingest("p1", &files, 2).unwrap();
    assert_eq!(count, 2);
    assert_eq!(db.search("p1", "one", false).unwrap().len(), 1);
    assert_eq!(db.search("p1", "two", false).unwrap().len(), 1);
    assert_eq!(db.search("p1", "locked", false).unwrap().len(), 0);
}

#[test]
fn register_is_an_upsert() {
    let mut db = ContextDB::new();
    db.init_project("p1", "/first", 1);
    db.init_project("p1", "/second", 2);
    db.init_project("p2", "/other", 3);
    let names = db.list_projects();
    assert_eq!(names, vec![String::from("p1"), String::from("p2")]);
}

#[test]
fn relative_path_is_the_name_component() {
    let mut db = ContextDB::new();
    db.init_project("p1", "/src", 1);
    db.ingest("p1", &vec![readable("dir/sub/file.rs", "needle")], 2).unwrap();
    let results = db.search("p1", "needle", false).unwrap();
    assert_eq!(results.len(), 1);
    assert_eq!(results[0].file_path, "file.rs");
}

#[test]
fn crlf_terminators_are_stripped() {
    let mut db = ContextDB::new();
    db.init_project("p1", "/src", 1);
    db.ingest("p1", &vec![readable("a.txt", "left\r\nright")], 2).unwrap();
    let results = db.search("p1", "left", false).unwrap();
    assert_eq!(results.len(), 1);
    assert_eq!(results[0].line_content, "left");
    let results = db.search("p1", "right", false).unwrap();
    assert_eq!(results[0].line_number, 2);
    assert_eq!(results[0].line_content, "right");
}

#[test]
fn matching_is_case_sensitive() {
    let mut db = ContextDB::new();
    db.init_project("p1", "/src", 1);
    db.ingest("p1", &vec![readable("a.txt", "Foo\nfoo")], 2).unwrap();
    let results = db.search("p1", "foo", false).unwrap();
    assert_eq!(results.len(), 1);
    assert_eq!(results[0].line_number, 2);
}

#[test]
fn reingest_keeps_first_archival_copy() {
    // The file record keeps the content hash of its first ingestion, so the
    // full context hydrated for a match still comes from the first archival
    // copy, while the line index reflects the latest content.
    let mut db = ContextDB::new();
    db.init_project("p1", "/src", 1);
    db.ingest("p1", &vec![readable("a.txt", "first version")], 2).unwrap();
    db.ingest("p1", &vec![readable("a.txt", "second version")], 3).unwrap();
    let results = db.search("p1", "second", true).unwrap();
    assert_eq!(results.len(), 1);
    assert_eq!(results[0].full_context.as_deref(), Some("first version"));
}

#[test]
fn trailing_separators_are_ignored_in_the_name_component() {
    let mut db = ContextDB::new();
    db.init_project("p1", "/src", 1);
    db.ingest("p1", &vec![readable("dir/sub/", "needle")], 2).unwrap();
    let results = db.search("p1", "needle", false).unwrap();
    assert_eq!(results.len(), 1);
    assert_eq!(results[0].file_path, "sub");
}

#[test]
fn ingest_of_an_empty_batch_succeeds_with_zero() {
    let mut db = ContextDB::new();
    db.init_project("p1", "/src", 1);
    assert_eq!(db.ingest("p1", &vec![], 2).unwrap(), 0);
}

#[test]
fn ingest_of_only_unreadable_files_succeeds_with_zero() {
    let mut db = ContextDB::new();
    db.init_project("p1", "/src", 1);
    let files = vec![unreadable("a.txt"), unreadable("b.txt")];
    assert_eq!(db.ingest("p1", &files, 2).unwrap(), 0);
    assert_eq!(db.search("p1", "", false).unwrap().len(), 0);
}
