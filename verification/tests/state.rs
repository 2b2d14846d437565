use rmdigest::ingest::{ingest, page_hash, to_hex, PageData};
use rmdigest::state::{DocState, State, Table};

fn page(id: &str, index: usize, bytes: &[u8]) -> PageData {
    PageData { id: id.into(), index, scene: Some(bytes.to_vec()) }
}

fn two_pages(p1: &[u8], p2: &[u8]) -> Vec<PageData> {
    vec![page("p1", 0, p1), page("p2", 1, p2)]
}

#[test]
fn first_sight_all_changed() {
    let pages = two_pages(b"page-one-data", b"page-two-data");
    let prev = DocState::default();
    let ingested = ingest(&pages, &prev);
    assert_eq!(ingested.changed, vec![0, 1]);
}

#[test]
fn unchanged_pages_not_reported() {
    let pages = two_pages(b"page-one-data", b"page-two-data");
    let prev = DocState::default();
    let run1 = ingest(&pages, &prev);
    assert_eq!(run1.changed, vec![0, 1]);
    let prev2 = DocState {
        cloud_version: None,
        page_hashes: run1.new_hashes,
        digest_uuids: vec![],
    };
    let run2 = ingest(&pages, &prev2);
    assert!(run2.changed.is_empty(), "expected no changes, got {:?}", run2.changed);
}

#[test]
fn mutated_page_detected() {
    let pages = two_pages(b"page-one-data", b"page-two-data");
    let prev = DocState::default();
    let run1 = ingest(&pages, &prev);
    let pages = two_pages(b"page-one-data", b"different-bytes");
    let prev2 = DocState {
        cloud_version: None,
        page_hashes: run1.new_hashes,
        digest_uuids: vec![],
    };
    let run2 = ingest(&pages, &prev2);
    assert_eq!(run2.changed, vec![1]);
}

#[test]
fn hashes_are_known_values() {
    assert_eq!(
        page_hash(b""),
        "e3b0c44298fc1c149afbf4c8996fb92427ae41e4649b934ca495991b7852b855"
    );
    assert_eq!(
        page_hash(b"abc"),
        "ba7816bf8f01cfea414140de5dae2223b00361a396177a9cb410ff61f20015ad"
    );
}

#[test]
fn bytes_in_base_sixteen() {
    assert_eq!(to_hex(&[]), "");
    assert_eq!(to_hex(&[0x00, 0x09, 0x0a, 0x9f, 0xf0, 0xff]), "00090a9ff0ff");
    assert_ne!(to_hex(&[0x01, 0x0f]), to_hex(&[0x10, 0xf0]));
}

#[test]
fn a_page_without_a_scene_is_stable() {
    let pages = vec![PageData { id: "blank".into(), index: 7, scene: None }];
    let run1 = ingest(&pages, &DocState::default());
    assert_eq!(run1.changed, vec![7]);
    assert_eq!(run1.new_hashes.get("blank.rm"), Some(&page_hash(b"")));
    let prev = DocState {
        cloud_version: None,
        page_hashes: run1.new_hashes,
        digest_uuids: vec![],
    };
    assert!(ingest(&pages, &prev).changed.is_empty());
}

#[test]
fn the_last_page_of_an_id_is_remembered() {
    let pages = vec![page("p", 0, b"one"), page("p", 1, b"two")];
    let run = ingest(&pages, &DocState::default());
    assert_eq!(run.changed, vec![0, 1]);
    assert_eq!(run.new_hashes.entries().len(), 1);
    assert_eq!(run.new_hashes.get("p.rm"), Some(&page_hash(b"two")));
}

#[test]
fn tables_keep_one_entry_for_each_key() {
    let mut t: Table<u32> = Table::new();
    assert!(t.is_empty());
    assert_eq!(t.get("a"), None);
    t.insert("a".into(), 1);
    t.insert("b".into(), 2);
    t.insert("a".into(), 3);
    assert!(!t.is_empty());
    assert_eq!(t.get("a"), Some(&3));
    assert_eq!(t.get("b"), Some(&2));
    assert_eq!(t.get("c"), None);
    assert_eq!(t.entries(), &vec![("a".to_string(), 3), ("b".to_string(), 2)]);
}

#[test]
fn nothing_is_remembered_at_first() {
    let state = State::default();
    assert!(state.docs.is_empty());
    let doc = DocState::default();
    assert!(doc.cloud_version.is_none());
    assert!(doc.page_hashes.is_empty());
    assert!(doc.digest_uuids.is_empty());
}

#[test]
fn the_state_is_kept_under_the_home_directory() {
    assert_eq!(State::default_path("/home/a"), "/home/a/.local/state/rmdigest/state.json");
    assert_eq!(State::default_path("/home/a/"), "/home/a/.local/state/rmdigest/state.json");
    assert_eq!(State::default_path(""), ".local/state/rmdigest/state.json");
}
