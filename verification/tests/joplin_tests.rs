//! Tests for the hierarchy index, the path resolver, and the subtree
//! collector.

use feather_bridge::errors::CoreError;
use feather_bridge::joplin::{FoldersArray, JoplinData, NotesArray};

fn folder(id: &str, parent: &str, title: &str) -> FoldersArray {
    FoldersArray { id: id.to_string(), parent_id: parent.to_string(), title: title.to_string() }
}

fn note(id: &str, parent: &str, title: &str) -> NotesArray {
    NotesArray { id: id.to_string(), parent_id: parent.to_string(), title: title.to_string() }
}

fn chain_index() -> JoplinData {
    JoplinData::new(
        "tok".to_string(),
        vec![
            folder("r", "", "R"),
            folder("a", "r", "A"),
            folder("b", "a", "B"),
            folder("f", "b", "F"),
            folder("other", "", "Other"),
        ],
        Vec::new(),
    )
}

#[test]
fn new_builds_token_suffix() {
    let j = JoplinData::new("abc".to_string(), Vec::new(), Vec::new());
    assert_eq!(j.token_string, "?token=abc");
    assert!(j.dir_list.is_empty());
    assert!(j.notes_list.is_empty());
}

#[test]
fn add_page_appends_page_number() {
    let j = JoplinData::new("t".to_string(), Vec::new(), Vec::new());
    let mut request = "http://127.0.0.1:41184/folders?token=t".to_string();
    let r = j.add_page(3, &mut request);
    assert_eq!(r, "http://127.0.0.1:41184/folders?token=t&page=3");
    assert_eq!(request, "http://127.0.0.1:41184/folders?token=t");
    let r10 = j.add_page(210, &mut request);
    assert_eq!(r10, "http://127.0.0.1:41184/folders?token=t&page=210");
    let rneg = j.add_page(-2, &mut request);
    assert_eq!(rneg, "http://127.0.0.1:41184/folders?token=t&page=-2");
}

#[test]
fn add_page_renders_extreme_page_numbers() {
    let j = JoplinData::new("t".to_string(), Vec::new(), Vec::new());
    let mut request = "u".to_string();
    assert_eq!(j.add_page(0, &mut request), "u&page=0");
    assert_eq!(j.add_page(i32::MAX, &mut request), "u&page=2147483647");
    assert_eq!(j.add_page(i32::MIN, &mut request), "u&page=-2147483648");
}

#[test]
fn look_for_children_folders_appends_to_existing_storage() {
    let j = chain_index();
    let mut storage = vec![folder("r", "", "R")];
    j.look_for_children_folders(&mut storage, "r".to_string());
    let ids: Vec<&str> = storage.iter().map(|f| f.id.as_str()).collect();
    assert_eq!(ids, vec!["r", "a", "b", "f"]);
}

#[test]
fn resolve_path_returns_root_first_titles() {
    let j = chain_index();
    let p = j.get_path_folder("f").expect("path should resolve");
    let titles: Vec<&str> = p.iter().map(|e| e.title.as_str()).collect();
    assert_eq!(titles, vec!["R", "A", "B", "F"]);
    let ids: Vec<&str> = p.iter().map(|e| e.id.as_str()).collect();
    assert_eq!(ids, vec!["r", "a", "b", "f"]);
}

#[test]
fn resolve_path_of_root_is_single_entry() {
    let j = chain_index();
    let p = j.get_path_folder("r").expect("path should resolve");
    assert_eq!(p.len(), 1);
    assert_eq!(p[0].title, "R");
}

#[test]
fn resolve_path_missing_id_is_not_found() {
    let j = chain_index();
    assert_eq!(j.get_path_folder("nope").unwrap_err(), CoreError::NotFound);
}

#[test]
fn resolve_path_dangling_parent_is_not_found() {
    let j = JoplinData::new(
        "t".to_string(),
        vec![folder("x", "gone", "X")],
        Vec::new(),
    );
    assert_eq!(j.get_path_folder("x").unwrap_err(), CoreError::NotFound);
}

#[test]
fn resolve_path_cycle_is_detected() {
    let j = JoplinData::new(
        "t".to_string(),
        vec![folder("a", "b", "A"), folder("b", "a", "B")],
        Vec::new(),
    );
    assert_eq!(j.get_path_folder("a").unwrap_err(), CoreError::CycleDetected);
}

#[test]
fn lookup_folder_collects_subtree_depth_first() {
    let j = chain_index();
    let sub = j.lookup_folder("a".to_string()).expect("folder exists");
    let ids: Vec<&str> = sub.iter().map(|f| f.id.as_str()).collect();
    assert_eq!(ids, vec!["a", "b", "f"]);
}

#[test]
fn lookup_folder_missing_is_not_found() {
    let j = chain_index();
    assert_eq!(j.lookup_folder("zzz".to_string()).unwrap_err(), CoreError::NotFound);
}

#[test]
fn lookup_folder_skips_repeated_ids_on_cycles() {
    let j = JoplinData::new(
        "t".to_string(),
        vec![folder("a", "b", "A"), folder("b", "a", "B")],
        Vec::new(),
    );
    let sub = j.lookup_folder("a".to_string()).expect("folder exists");
    let ids: Vec<&str> = sub.iter().map(|f| f.id.as_str()).collect();
    assert_eq!(ids, vec!["a", "b"]);
}

#[test]
fn get_notes_of_folder_filters_by_parent_in_order() {
    let mut j = JoplinData::new(
        "t".to_string(),
        vec![folder("r", "", "R")],
        vec![
            note("1", "r", "One"),
            note("2", "x", "Two"),
            note("3", "r", "Three"),
        ],
    );
    let notes = j.get_notes_of_folder("r").expect("always succeeds");
    let titles: Vec<&str> = notes.iter().map(|n| n.title.as_str()).collect();
    assert_eq!(titles, vec!["One", "Three"]);
    let none = j.get_notes_of_folder("absent").expect("always succeeds");
    assert!(none.is_empty());
}
