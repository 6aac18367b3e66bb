//! Tests for the tree merge engine.

use feather_bridge::errors::CoreError;
use feather_bridge::feather::{create_node_at_path, Node};

fn leaf(name: &str, text: &str) -> Node {
    Node { name: name.to_string(), text: text.to_string(), node: Vec::new() }
}

fn path(titles: &[&str]) -> Vec<String> {
    titles.iter().map(|t| t.to_string()).collect()
}

/// Checks sibling uniqueness at every level of the forest.
fn assert_unique_siblings(nodes: &Vec<Node>) {
    for i in 0..nodes.len() {
        for j in 0..nodes.len() {
            if i != j {
                assert_ne!(nodes[i].name, nodes[j].name, "duplicate sibling name");
            }
        }
    }
    for n in nodes {
        assert_unique_siblings(&n.node);
    }
}

#[test]
fn root_insertion_creates_new_root() {
    let mut forest: Vec<Node> = Vec::new();
    let r = create_node_at_path(&mut forest, "Note A", "x", &path(&[]));
    assert!(r.is_ok());
    assert_eq!(forest.len(), 1);
    assert_eq!(forest[0].name, "Note A");
    assert_eq!(forest[0].text, "x");
}

#[test]
fn root_insertion_is_noop_when_present() {
    let mut forest: Vec<Node> = vec![leaf("Note A", "kept")];
    let r = create_node_at_path(&mut forest, "Note A", "other", &path(&[]));
    assert!(r.is_ok());
    assert_eq!(forest.len(), 1);
    assert_eq!(forest[0].text, "kept");
}

#[test]
fn missing_parent_fails_with_path_not_found() {
    let mut forest: Vec<Node> = Vec::new();
    let r = create_node_at_path(&mut forest, "leaf", "body", &path(&["A", "B"]));
    assert_eq!(r, Err(CoreError::PathNotFound));
    assert!(forest.is_empty());
}

#[test]
fn final_entry_creates_terminal_container() {
    let mut forest: Vec<Node> = Vec::new();
    let r = create_node_at_path(&mut forest, "leaf", "body", &path(&["A"]));
    assert!(r.is_ok());
    assert_eq!(forest.len(), 1);
    assert_eq!(forest[0].name, "A");
    assert_eq!(forest[0].text, "");
    assert_eq!(forest[0].node.len(), 1);
    assert_eq!(forest[0].node[0].name, "leaf");
    assert_eq!(forest[0].node[0].text, "body");
}

#[test]
fn descends_into_matching_container() {
    let mut forest: Vec<Node> = vec![leaf("A", "")];
    forest[0].node.push(leaf("B", ""));
    let r = create_node_at_path(&mut forest, "leaf", "body", &path(&["A", "B"]));
    assert!(r.is_ok());
    assert_eq!(forest[0].node[0].node.len(), 1);
    assert_eq!(forest[0].node[0].node[0].name, "leaf");
}

#[test]
fn insert_is_idempotent() {
    let mut once: Vec<Node> = vec![leaf("A", "")];
    let r1 = create_node_at_path(&mut once, "leaf", "body", &path(&["A"]));
    assert!(r1.is_ok());
    let mut twice = vec![leaf("A", "")];
    let r2 = create_node_at_path(&mut twice, "leaf", "body", &path(&["A"]));
    assert!(r2.is_ok());
    let r3 = create_node_at_path(&mut twice, "leaf", "body", &path(&["A"]));
    assert!(r3.is_ok());
    assert_eq!(once, twice);
}

#[test]
fn sibling_uniqueness_holds_after_many_inserts() {
    let mut forest: Vec<Node> = Vec::new();
    let calls: &[(&[&str], &str, &str)] = &[
        (&[], "Work", "1"),
        (&["Work"], "Projects", "2"),
        (&["Work"], "Projects", "2"),
        (&["Work", "Projects"], "Plan", "p"),
        (&["Work", "Projects"], "Plan", "q"),
        (&[], "Work", "other"),
        (&["Work"], "Archive", "3"),
    ];
    for (p, name, body) in calls {
        let r = create_node_at_path(&mut forest, name, body, &path(p));
        assert!(r.is_ok());
    }
    assert_unique_siblings(&forest);
    assert_eq!(forest.len(), 1);
    assert_eq!(forest[0].node.len(), 2);
}

#[test]
fn failed_merge_leaves_forest_unchanged() {
    let mut forest: Vec<Node> = vec![leaf("A", "a")];
    let before = vec![leaf("A", "a")];
    let r = create_node_at_path(&mut forest, "leaf", "body", &path(&["X", "Y", "Z"]));
    assert_eq!(r, Err(CoreError::PathNotFound));
    assert_eq!(forest, before);
}
