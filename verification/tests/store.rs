use anonym_mcp::detectors::Kind;
use anonym_mcp::store::{distinct_keys, split_placeholder, MappingStore};

#[test]
fn store_reuses_the_same_placeholder_for_a_repeated_value() {
    let mut store = MappingStore::ephemeral();
    let first = store.placeholder_for("a@b.com", Kind::Email);
    let second = store.placeholder_for("a@b.com", Kind::Email);
    assert_eq!(first, "EPOSTA_1");
    assert_eq!(first, second);
    assert_eq!(store.len(), 1);
}

#[test]
fn store_numbers_each_kind_independently() {
    let mut store = MappingStore::ephemeral();
    assert_eq!(store.placeholder_for("a@b.com", Kind::Email), "EPOSTA_1");
    assert_eq!(store.placeholder_for("c@d.com", Kind::Email), "EPOSTA_2");
    assert_eq!(
        store.placeholder_for("10000000146", Kind::NationalId),
        "TCKN_1"
    );
}

#[test]
fn store_round_trips_through_disk_and_keeps_counters() {
    let path = "mappings.json".to_string();
    let mut store = MappingStore::open_default(Some(path.clone()), Vec::new());
    let placeholder = store.placeholder_for("a@b.com", Kind::Email);
    let saved = store.saved_values();
    store.mark_saved();

    let mut reopened = MappingStore::open_default(Some(path), saved);
    assert_eq!(reopened.value_for(&placeholder), Some("a@b.com"));
    // The counter must resume, not restart, or a second value would steal
    // the first one's placeholder.
    assert_eq!(reopened.placeholder_for("c@d.com", Kind::Email), "EPOSTA_2");
}

#[test]
fn store_ephemeral_save_is_a_no_op() {
    let mut store = MappingStore::ephemeral();
    store.placeholder_for("a@b.com", Kind::Email);
    assert!(!store.needs_save());
    assert_eq!(store.path(), None);
}

#[test]
fn a_store_with_a_path_needs_saving_only_after_a_change() {
    let mut store = MappingStore::open_default(Some("m.json".to_string()), Vec::new());
    assert!(!store.needs_save());
    store.placeholder_for("a@b.com", Kind::Email);
    assert!(store.needs_save());
    store.placeholder_for("a@b.com", Kind::Email);
    store.mark_saved();
    assert!(!store.needs_save());
    assert_eq!(store.path(), Some("m.json"));
}

#[test]
fn a_loaded_table_resumes_each_counter_at_its_highest_number() {
    let saved = vec![
        ("TCKN_7".to_string(), "10000000146".to_string()),
        ("TCKN_3".to_string(), "12345678950".to_string()),
        ("notes".to_string(), "x".to_string()),
    ];
    assert!(distinct_keys(&saved));
    let mut store = MappingStore::from_saved(None, saved);
    assert_eq!(store.len(), 3);
    assert_eq!(store.value_for("TCKN_3"), Some("12345678950"));
    assert_eq!(store.placeholder_for("10000000146", Kind::NationalId), "TCKN_7");
    assert_eq!(store.placeholder_for("99", Kind::NationalId), "TCKN_8");
    assert_eq!(store.placeholder_for("a@b.com", Kind::Email), "EPOSTA_1");
}

#[test]
fn repeated_placeholders_in_a_loaded_table_are_caught() {
    let saved = vec![
        ("TCKN_1".to_string(), "a".to_string()),
        ("TCKN_1".to_string(), "b".to_string()),
    ];
    assert!(!distinct_keys(&saved));
}

#[test]
fn placeholders_split_into_kind_and_number() {
    assert_eq!(split_placeholder("TCKN_12"), Some((Kind::NationalId, 12)));
    assert_eq!(split_placeholder("OZEL_+3"), Some((Kind::CustomWord, 3)));
    assert_eq!(split_placeholder("TCKN_"), None);
    assert_eq!(split_placeholder("FOO_1"), None);
    assert_eq!(split_placeholder("TCKN1"), None);
}

#[test]
fn an_ephemeral_store_is_empty() {
    let store = MappingStore::ephemeral();
    assert!(store.is_empty());
    assert_eq!(store.len(), 0);
    assert_eq!(store.value_for("TCKN_1"), None);
    assert!(store.has_room(1000));
}

#[test]
fn the_default_location_is_under_the_home_directory() {
    assert_eq!(
        anonym_mcp::store::default_path_under("/home/ali"),
        "/home/ali/.anonym-mcp/mappings.json"
    );
}

#[test]
fn a_new_placeholder_follows_the_highest_number_held_and_keeps_the_rest() {
    let mut store = MappingStore::from_saved(
        None,
        vec![
            ("TCKN_5".to_string(), "10000000146".to_string()),
            ("TCKN_2".to_string(), "10000000078".to_string()),
            ("EPOSTA_1".to_string(), "a@b.co".to_string()),
        ],
    );
    let p = store.placeholder_for("12345678950", Kind::NationalId);
    assert_eq!(p, "TCKN_6");
    assert_eq!(store.value_for("TCKN_5"), Some("10000000146"));
    assert_eq!(store.value_for("TCKN_2"), Some("10000000078"));
    assert_eq!(store.value_for("TCKN_6"), Some("12345678950"));
    let q = store.placeholder_for("x@y.co", Kind::Email);
    assert_eq!(q, "EPOSTA_2");
    assert_eq!(store.value_for("TCKN_6"), Some("12345678950"));
    assert_eq!(store.len(), 5);
}
