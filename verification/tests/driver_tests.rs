//! Tests for the migration driver and the text helpers.

use feather_bridge::convert_logic::{overwrite_joplin_to_feathernotes, NoteContent};
use feather_bridge::errors::CoreError;
use feather_bridge::feather::FeatherStruct;
use feather_bridge::joplin::{FoldersArray, JoplinData, NotesArray};
use feather_bridge::textops::{escape_markup, final_touches_xml, unescape_markup};

fn folder(id: &str, parent: &str, title: &str) -> FoldersArray {
    FoldersArray { id: id.to_string(), parent_id: parent.to_string(), title: title.to_string() }
}

fn note(id: &str, parent: &str, title: &str) -> NotesArray {
    NotesArray { id: id.to_string(), parent_id: parent.to_string(), title: title.to_string() }
}

fn body(id: &str, text: &str) -> NoteContent {
    NoteContent { id: id.to_string(), body: text.to_string() }
}

fn scenario_index() -> JoplinData {
    JoplinData::new(
        "t".to_string(),
        vec![folder("1", "", "Work"), folder("2", "1", "Projects")],
        vec![note("10", "2", "Plan")],
    )
}

#[test]
fn scenario_builds_work_projects_plan() {
    let joplin = scenario_index();
    let folders = joplin.dir_list.clone();
    let bodies = vec![body("10", "content")];
    let feather = FeatherStruct::new().unwrap();
    let (out, skipped) = overwrite_joplin_to_feathernotes(feather, &joplin, &folders, &bodies);
    assert!(skipped.is_empty());

    let roots = &out.struct_xml.node;
    assert_eq!(roots.len(), 1);
    assert_eq!(roots[0].name, "Work");
    assert_eq!(roots[0].text, "1");
    assert_eq!(roots[0].node.len(), 1);
    let projects = &roots[0].node[0];
    assert_eq!(projects.name, "Projects");
    assert_eq!(projects.text, "2");
    assert_eq!(projects.node.len(), 1);
    let plan = &projects.node[0];
    assert_eq!(plan.name, "Plan");
    assert_eq!(plan.text, "content");
    assert!(plan.node.is_empty());
}

#[test]
fn scenario_rerun_produces_identical_forest() {
    let joplin = scenario_index();
    let folders = joplin.dir_list.clone();
    let bodies = vec![body("10", "content")];
    let (once, s1) = overwrite_joplin_to_feathernotes(
        FeatherStruct::new().unwrap(),
        &joplin,
        &folders,
        &bodies,
    );
    assert!(s1.is_empty());
    let (twice, s2) = overwrite_joplin_to_feathernotes(once, &joplin, &folders, &bodies);
    let (fresh, _) = overwrite_joplin_to_feathernotes(
        FeatherStruct::new().unwrap(),
        &joplin,
        &folders,
        &bodies,
    );
    assert!(s2.is_empty());
    assert_eq!(twice, fresh);
}

#[test]
fn subtree_run_creates_missing_ancestor_chain() {
    // Only the depth-3 folder is a candidate; its ancestors still come to
    // exist, each carrying its own folder's id as text.
    let joplin = JoplinData::new(
        "t".to_string(),
        vec![folder("r", "", "R"), folder("a", "r", "A"), folder("b", "a", "B")],
        vec![note("n1", "b", "Deep")],
    );
    let candidates = vec![folder("b", "a", "B")];
    let bodies = vec![body("n1", "deep body")];
    let (out, skipped) = overwrite_joplin_to_feathernotes(
        FeatherStruct::new().unwrap(),
        &joplin,
        &candidates,
        &bodies,
    );
    assert!(skipped.is_empty());
    let roots = &out.struct_xml.node;
    assert_eq!(roots.len(), 1);
    assert_eq!(roots[0].name, "R");
    assert_eq!(roots[0].text, "r");
    let a = &roots[0].node[0];
    assert_eq!(a.name, "A");
    assert_eq!(a.text, "a");
    let b = &a.node[0];
    assert_eq!(b.name, "B");
    assert_eq!(b.text, "b");
    assert_eq!(b.node.len(), 1);
    assert_eq!(b.node[0].name, "Deep");
    assert_eq!(b.node[0].text, "deep body");
}

#[test]
fn child_first_candidate_order_still_builds_full_chain() {
    let joplin = scenario_index();
    // Candidates deliberately listed child before parent.
    let candidates = vec![folder("2", "1", "Projects"), folder("1", "", "Work")];
    let bodies = vec![body("10", "content")];
    let (out, skipped) = overwrite_joplin_to_feathernotes(
        FeatherStruct::new().unwrap(),
        &joplin,
        &candidates,
        &bodies,
    );
    assert!(skipped.is_empty());
    let roots = &out.struct_xml.node;
    assert_eq!(roots.len(), 1);
    assert_eq!(roots[0].name, "Work");
    assert_eq!(roots[0].text, "1");
    let projects = &roots[0].node[0];
    assert_eq!(projects.name, "Projects");
    assert_eq!(projects.text, "2");
    assert_eq!(projects.node[0].name, "Plan");
    assert_eq!(projects.node[0].text, "content");
}

#[test]
fn note_without_body_is_skipped_and_reported() {
    let joplin = scenario_index();
    let folders = joplin.dir_list.clone();
    let bodies: Vec<NoteContent> = Vec::new();
    let (out, skipped) = overwrite_joplin_to_feathernotes(
        FeatherStruct::new().unwrap(),
        &joplin,
        &folders,
        &bodies,
    );
    assert_eq!(skipped.len(), 1);
    assert_eq!(skipped[0].title, "Plan");
    assert_eq!(skipped[0].id, "10");
    assert_eq!(skipped[0].error, CoreError::NotFound);
    // The structure was still built; only the note is missing.
    assert_eq!(out.struct_xml.node.len(), 1);
    assert!(out.struct_xml.node[0].node[0].node.is_empty());
}

#[test]
fn folder_with_dangling_parent_is_skipped_and_reported() {
    let joplin = JoplinData::new(
        "t".to_string(),
        vec![folder("1", "", "Work"), folder("2", "gone", "Lost")],
        Vec::new(),
    );
    let folders = joplin.dir_list.clone();
    let (out, skipped) = overwrite_joplin_to_feathernotes(
        FeatherStruct::new().unwrap(),
        &joplin,
        &folders,
        &Vec::new(),
    );
    assert_eq!(skipped.len(), 1);
    assert_eq!(skipped[0].title, "Lost");
    assert_eq!(skipped[0].error, CoreError::NotFound);
    assert_eq!(out.struct_xml.node.len(), 1);
    assert_eq!(out.struct_xml.node[0].name, "Work");
}

#[test]
fn feather_new_has_empty_forest_and_default_fonts() {
    let f = FeatherStruct::new().unwrap();
    assert!(f.struct_xml.node.is_empty());
    assert_eq!(f.struct_xml.txtfont, "Monospace,11,-1,5,400,0,0,0,0,0,0,0,0,0,0,1");
    assert_eq!(f.struct_xml.nodefont, "Cantarell,11,-1,5,400,0,0,0,0,0,0,0,0,0,0,1");
}

#[test]
fn final_touches_xml_unescapes_amp() {
    let out = final_touches_xml("a&amp;b&amp;c".to_string());
    assert_eq!(out, "a&b&c");
    assert_eq!(final_touches_xml("plain".to_string()), "plain");
}

#[test]
fn escape_markup_round_trip() {
    let escaped = escape_markup("<p>x</p>");
    assert_eq!(escaped, "&lt;p>x&lt;/p>");
    assert_eq!(unescape_markup(&escaped), "<p>x</p>");
}
