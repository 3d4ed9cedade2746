use spread_server::codec::DecodeError;
use spread_server::store::{LifecycleError, LogError, Ownership, RegisterError, Store};

fn store_with_owner(name: &str) -> Store {
    let mut st = Store::new();
    st.register_publisher(1, name, "hash").unwrap();
    st
}

#[test]
fn register_then_lookup() {
    let mut st = Store::new();
    assert!(st.register_publisher(7, "alice", "h1").is_ok());
    assert_eq!(st.publisher_id_of("alice"), Some(7));
    assert_eq!(st.publisher_id_of("bob"), None);
}

#[test]
fn register_duplicate_username_is_refused() {
    let mut st = Store::new();
    st.register_publisher(1, "alice", "h1").unwrap();
    assert_eq!(st.register_publisher(2, "alice", "h2"), Err(RegisterError::UsernameTaken));
}

#[test]
fn register_duplicate_id_is_refused() {
    let mut st = Store::new();
    st.register_publisher(1, "alice", "h1").unwrap();
    assert_eq!(st.register_publisher(1, "bob", "h2"), Err(RegisterError::IdTaken));
}

#[test]
fn register_fresh_draws_an_id() {
    let mut st = Store::new();
    let id = st.register_fresh("alice", "h1").unwrap();
    assert_eq!(st.publisher_id_of("alice"), Some(id));
}

#[test]
fn credentials_check() {
    let st = store_with_owner("alice");
    assert!(st.verify_credentials("alice", "hash"));
    assert!(!st.verify_credentials("alice", "wrong"));
    assert!(!st.verify_credentials("bob", "hash"));
}

#[test]
fn create_with_payload_fills_cells() {
    let mut st = store_with_owner("alice");
    st.create(10, "alice", "budget", Some("$A0 Hello")).unwrap();
    assert_eq!(st.cell_value(10, 'A', 0), Some("Hello".to_string()));
    assert_eq!(st.cell_count_of(10), 1);
}

#[test]
fn create_without_payload_leaves_placeholder() {
    let mut st = store_with_owner("alice");
    st.create(10, "alice", "blank", None).unwrap();
    assert_eq!(st.cell_value(10, 'A', 0), Some("".to_string()));
    assert_eq!(st.cell_count_of(10), 1);
}

#[test]
fn create_with_empty_payload_leaves_placeholder() {
    let mut st = store_with_owner("alice");
    st.create(10, "alice", "blank", Some("")).unwrap();
    assert_eq!(st.cell_value(10, 'A', 0), Some("".to_string()));
}

#[test]
fn create_for_unknown_owner_fails() {
    let mut st = Store::new();
    assert_eq!(
        st.create(10, "nobody", "t", None),
        Err(LifecycleError::OwnerNotFound)
    );
}

#[test]
fn create_with_bad_payload_fails() {
    let mut st = store_with_owner("alice");
    match st.create(10, "alice", "t", Some("no marker")) {
        Err(LifecycleError::Decode(DecodeError::MissingDelimiter)) => {},
        other => panic!("expected a decode failure, got {:?}", other),
    }
    // nothing was created
    assert!(st.find_by_owner_and_title(1, "t").is_empty());
}

#[test]
fn create_with_oversized_row_fails() {
    let mut st = store_with_owner("alice");
    match st.create(10, "alice", "t", Some("$A4294967295\nMaxValue")) {
        Err(LifecycleError::Decode(DecodeError::InvalidRow(_))) => {},
        other => panic!("expected an invalid row, got {:?}", other),
    }
}

#[test]
fn upsert_is_idempotent() {
    let mut st = store_with_owner("alice");
    st.create(10, "alice", "t", Some("$A0 first")).unwrap();
    st.submit_edit("alice", "t", Ownership::Publisher, "$A0 second").unwrap();
    let count_once = st.cell_count_of(10);
    st.submit_edit("alice", "t", Ownership::Publisher, "$A0 second").unwrap();
    assert_eq!(st.cell_count_of(10), count_once);
    assert_eq!(st.cell_value(10, 'A', 0), Some("second".to_string()));
}

#[test]
fn submit_adds_cells_and_one_log_entry() {
    let mut st = store_with_owner("alice");
    st.create(10, "alice", "t", None).unwrap();
    let n = st.submit_edit("alice", "t", Ownership::Subscriber, "$B1 w$C2 x").unwrap();
    assert_eq!(n, 2);
    assert_eq!(st.cell_value(10, 'B', 1), Some("w".to_string()));
    assert_eq!(st.cell_value(10, 'C', 2), Some("x".to_string()));
    let q = st.query(10, Ownership::Subscriber, 0).unwrap();
    assert_eq!(q.len(), 1);
    assert_eq!(q[0].payload, "$B1 w$C2 x");
    assert_eq!(q[0].ownership, Ownership::Subscriber);
}

#[test]
fn submit_bad_payload_changes_nothing() {
    let mut st = store_with_owner("alice");
    st.create(10, "alice", "t", None).unwrap();
    match st.submit_edit("alice", "t", Ownership::Subscriber, "no marker") {
        Err(LifecycleError::Decode(DecodeError::MissingDelimiter)) => {},
        other => panic!("expected a decode failure, got {:?}", other),
    }
    assert_eq!(st.query(10, Ownership::Subscriber, 0).unwrap().len(), 0);
    assert_eq!(st.cell_count_of(10), 1);
}

#[test]
fn submit_to_unknown_sheet_fails() {
    let mut st = store_with_owner("alice");
    assert_eq!(
        st.submit_edit("alice", "missing", Ownership::Publisher, "$A0 v"),
        Err(LifecycleError::SheetNotFound)
    );
}

#[test]
fn query_cursor_is_strict_and_ascending() {
    let mut st = store_with_owner("alice");
    st.create(10, "alice", "t", None).unwrap();
    st.submit_edit("alice", "t", Ownership::Publisher, "$A0 a").unwrap();
    st.submit_edit("alice", "t", Ownership::Publisher, "$A1 b").unwrap();
    st.submit_edit("alice", "t", Ownership::Publisher, "$A2 c").unwrap();
    let all = st.query(10, Ownership::Publisher, 0).unwrap();
    assert_eq!(all.len(), 3);
    assert!(all[0].seq < all[1].seq && all[1].seq < all[2].seq);
    let later = st.query(10, Ownership::Publisher, all[0].seq).unwrap();
    assert_eq!(later.len(), 2);
    assert_eq!(later[0].seq, all[1].seq);
    assert_eq!(later[1].seq, all[2].seq);
    // same cursor, no new appends: same answer
    let again = st.query(10, Ownership::Publisher, all[0].seq).unwrap();
    assert_eq!(again.len(), 2);
    assert_eq!(again[0].seq, later[0].seq);
    assert_eq!(again[1].seq, later[1].seq);
}

#[test]
fn roles_see_disjoint_streams() {
    let mut st = store_with_owner("alice");
    st.create(10, "alice", "t", None).unwrap();
    st.submit_edit("alice", "t", Ownership::Publisher, "$A0 p").unwrap();
    st.submit_edit("alice", "t", Ownership::Subscriber, "$A1 s").unwrap();
    let pubs = st.query(10, Ownership::Publisher, 0).unwrap();
    let subs = st.query(10, Ownership::Subscriber, 0).unwrap();
    assert_eq!(pubs.len(), 1);
    assert_eq!(subs.len(), 1);
    assert_eq!(pubs[0].payload, "$A0 p");
    assert_eq!(subs[0].payload, "$A1 s");
}

#[test]
fn query_unknown_sheet_is_not_found() {
    let st = store_with_owner("alice");
    assert_eq!(st.query(99, Ownership::Publisher, 0), Err(LogError::MissingSheet));
}

#[test]
fn updates_payload_replays_raw_fragments() {
    let mut st = store_with_owner("alice");
    st.create(10, "alice", "t", None).unwrap();
    st.submit_edit("alice", "t", Ownership::Subscriber, "$A0 v1").unwrap();
    st.submit_edit("alice", "t", Ownership::Subscriber, "$B2 v2").unwrap();
    let replay = st.updates_payload("alice", "t", Ownership::Subscriber, 0).unwrap();
    assert_eq!(replay, "$A0 v1$B2 v2");
    let other = st.updates_payload("alice", "t", Ownership::Publisher, 0).unwrap();
    assert_eq!(other, "");
}

#[test]
fn delete_cascades_and_counts() {
    let mut st = store_with_owner("alice");
    st.create(10, "alice", "t", Some("$A0 x$B1 y")).unwrap();
    st.submit_edit("alice", "t", Ownership::Publisher, "$C2 z").unwrap();
    let counts = st.delete("alice", "t").unwrap();
    assert_eq!(counts.sheets, 1);
    assert_eq!(counts.relations, 1);
    assert_eq!(counts.cells, 3);
    assert_eq!(counts.updates, 1);
    assert!(!st.sheet_exists(10));
    assert_eq!(st.query(10, Ownership::Publisher, 0), Err(LogError::MissingSheet));
    assert_eq!(st.cell_value(10, 'A', 0), None);
    assert_eq!(st.cell_count_of(10), 0);
}

#[test]
fn delete_nothing_is_reported() {
    let mut st = store_with_owner("alice");
    assert_eq!(st.delete("alice", "missing"), Err(LifecycleError::NothingDeleted));
    assert_eq!(st.delete("nobody", "missing"), Err(LifecycleError::OwnerNotFound));
}

#[test]
fn titles_listing_follows_ownership() {
    let mut st = Store::new();
    st.register_publisher(1, "alice", "h1").unwrap();
    st.register_publisher(2, "bob", "h2").unwrap();
    st.create(10, "alice", "first", None).unwrap();
    st.create(11, "alice", "second", None).unwrap();
    st.create(12, "bob", "theirs", None).unwrap();
    assert_eq!(st.titles_of_owner(1), vec!["first".to_string(), "second".to_string()]);
    assert_eq!(st.titles_of_owner(2), vec!["theirs".to_string()]);
}

#[test]
fn create_fresh_returns_usable_id() {
    let mut st = store_with_owner("alice");
    let id = st.create_fresh("alice", "t", Some("$A0 hi")).unwrap();
    assert!(st.sheet_exists(id));
    assert_eq!(st.cell_value(id, 'A', 0), Some("hi".to_string()));
}

#[test]
fn end_to_end_publish_subscribe() {
    let mut st = store_with_owner("alice");
    st.create(10, "alice", "sheet", Some("$A0 Hello")).unwrap();
    assert_eq!(st.cell_value(10, 'A', 0), Some("Hello".to_string()));
    assert_eq!(st.cell_count_of(10), 1);

    let n = st.submit_edit("alice", "sheet", Ownership::Subscriber, "$A0 World").unwrap();
    assert_eq!(n, 1);
    assert_eq!(st.cell_value(10, 'A', 0), Some("World".to_string()));
    assert_eq!(st.cell_count_of(10), 1);

    let subs = st.query(10, Ownership::Subscriber, 0).unwrap();
    assert_eq!(subs.len(), 1);
    assert_eq!(subs[0].ownership, Ownership::Subscriber);
    assert_eq!(subs[0].payload, "$A0 World");

    let pubs = st.query(10, Ownership::Publisher, 0).unwrap();
    assert_eq!(pubs.len(), 0);
}

#[test]
fn duplicate_titles_edit_first_match() {
    let mut st = store_with_owner("alice");
    st.create(20, "alice", "dup", None).unwrap();
    st.create(21, "alice", "dup", None).unwrap();
    st.submit_edit("alice", "dup", Ownership::Publisher, "$D4 v").unwrap();
    assert_eq!(st.cell_value(20, 'D', 4), Some("v".to_string()));
    assert_eq!(st.cell_value(21, 'D', 4), None);
}

#[test]
fn duplicate_titles_delete_all_matches() {
    let mut st = store_with_owner("alice");
    st.create(20, "alice", "dup", None).unwrap();
    st.create(21, "alice", "dup", None).unwrap();
    let counts = st.delete("alice", "dup").unwrap();
    assert_eq!(counts.sheets, 2);
    assert_eq!(counts.relations, 2);
    assert_eq!(counts.cells, 2);
    assert!(!st.sheet_exists(20) && !st.sheet_exists(21));
}
