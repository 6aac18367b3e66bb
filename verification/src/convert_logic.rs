//! The migration driver.
//!
//! `overwrite_joplin_to_feathernotes` runs two passes over a set of candidate
//! folders: a structural pass that merges a container for every prefix of
//! every folder's resolved path, so the full ancestor chain comes to exist
//! whatever the candidate order, then a content pass that merges every note
//! of every folder as a leaf under its folder's resolved path. Errors raised
//! for one folder or note are caught at the per-item boundary: the item is
//! recorded as skipped and processing continues. The whole run is pinned by
//! the fold `migrate` over the tree model.

use vstd::prelude::*;

use crate::errors::CoreError;
use crate::feather::{
    create_node_at_path, forest_of, insert_tree, lemma_insert_at_reachable,
    lemma_insert_noop, lemma_insert_preserves_reaches, lemma_insert_preserves_wf,
    lemma_insert_reaches, reaches, wf_forest, FeatherStruct, Node, TreeView,
};
use crate::joplin::{
    entries_view, resolve_spec, FoldersArray, JoplinData, MinimumFolder, NotesArray,
    PathEntryView,
};

verus! {

/// A note body, fetched and converted ahead of the run, keyed by note id.
#[derive(Debug, PartialEq)]
pub struct NoteContent {
    pub id: String,
    pub body: String,
}

/// One item the driver skipped, with the error that caused it.
#[derive(Debug, PartialEq)]
pub struct SkippedItem {
    pub title: String,
    pub id: String,
    pub error: CoreError,
}

/// The model of a skipped item.
#[verifier::ext_equal]
pub struct SkipView {
    pub title: Seq<char>,
    pub id: Seq<char>,
    pub error: CoreError,
}

/// The models of a sequence of skipped items.
pub open spec fn skips_view(s: Seq<SkippedItem>) -> Seq<SkipView> {
    Seq::new(
        s.len(),
        |i: int| SkipView { title: s[i].title@, id: s[i].id@, error: s[i].error },
    )
}

/// The index of the first body of `bodies` whose id is `id`, or -1.
pub open spec fn find_body(bodies: Seq<NoteContent>, id: Seq<char>) -> int
    decreases bodies.len(),
{
    if bodies.len() == 0 {
        -1
    } else if bodies[0].id@ == id {
        0
    } else {
        let r = find_body(bodies.skip(1), id);
        if r < 0 {
            -1
        } else {
            r + 1
        }
    }
}

/// What `find_body` returns: the least matching index, or -1.
pub proof fn lemma_find_body(bodies: Seq<NoteContent>, id: Seq<char>)
    ensures
        find_body(bodies, id) == -1 || 0 <= find_body(bodies, id) < bodies.len(),
        find_body(bodies, id) == -1 ==> forall|i: int|
            0 <= i < bodies.len() ==> bodies[i].id@ != id,
        find_body(bodies, id) >= 0 ==> bodies[find_body(bodies, id)].id@ == id,
        find_body(bodies, id) >= 0 ==> forall|i: int|
            0 <= i < find_body(bodies, id) ==> bodies[i].id@ != id,
    decreases bodies.len(),
{
    if bodies.len() == 0 {
    } else if bodies[0].id@ == id {
    } else {
        lemma_find_body(bodies.skip(1), id);
        assert(forall|i: int| 1 <= i < bodies.len() ==> bodies[i] == bodies.skip(1)[i - 1]);
    }
}

/// The titles of a resolved path, root first.
pub open spec fn path_titles(p: Seq<PathEntryView>) -> Seq<Seq<char>> {
    Seq::new(p.len(), |i: int| p[i].title)
}

/// The driver's state between items: the forest built so far and the items
/// skipped so far.
pub open spec fn skip_of(title: Seq<char>, id: Seq<char>, error: CoreError) -> SkipView {
    SkipView { title, id, error }
}

/// The structural merges for one folder: one container per prefix of its
/// resolved path `p`, root-first. The first prefix merges the root container
/// with an empty path, each later prefix merges its last entry's title under
/// the titles before it, and every container carries its own folder's id as
/// text — so the full ancestor chain comes to exist whatever the candidate
/// order. Processing stops at the first failed merge; the merges already
/// made stay in the forest.
pub open spec fn structural_prefixes(
    forest: Seq<TreeView>,
    p: Seq<PathEntryView>,
    k: nat,
) -> (Seq<TreeView>, Option<CoreError>)
    decreases k,
{
    if k == 0 {
        (forest, None)
    } else {
        let prev = structural_prefixes(forest, p, (k - 1) as nat);
        if prev.1 is Some {
            prev
        } else {
            match insert_tree(
                prev.0,
                path_titles(p.subrange(0, k as int - 1)),
                p[k as int - 1].title,
                p[k as int - 1].id,
            ) {
                Ok(f) => (f, None),
                Err(e) => (prev.0, Some(e)),
            }
        }
    }
}

/// A failed prefix merge stops the folder's structural work for good.
proof fn lemma_prefixes_stuck(forest: Seq<TreeView>, p: Seq<PathEntryView>, k: nat, m: nat)
    requires
        k <= m,
        structural_prefixes(forest, p, k).1 is Some,
    ensures
        structural_prefixes(forest, p, m) == structural_prefixes(forest, p, k),
    decreases m,
{
    if m > k {
        lemma_prefixes_stuck(forest, p, k, (m - 1) as nat);
    }
}

/// One structural item: resolve the folder's path and merge a container for
/// every prefix of it. On a resolution or merge failure the folder is
/// recorded as skipped; merges made before the failure stay.
pub open spec fn structural_step(
    records: Seq<FoldersArray>,
    state: (Seq<TreeView>, Seq<SkipView>),
    folder: FoldersArray,
) -> (Seq<TreeView>, Seq<SkipView>) {
    match resolve_spec(records, folder.id@, records.len() as nat) {
        Err(e) => (state.0, state.1.push(skip_of(folder.title@, folder.id@, e))),
        Ok(p) => {
            let merged = structural_prefixes(state.0, p, p.len());
            match merged.1 {
                None => (merged.0, state.1),
                Some(e) => (merged.0, state.1.push(skip_of(folder.title@, folder.id@, e))),
            }
        },
    }
}

/// The structural pass over a sequence of candidate folders, in order.
pub open spec fn structural_pass(
    records: Seq<FoldersArray>,
    folders: Seq<FoldersArray>,
    state: (Seq<TreeView>, Seq<SkipView>),
) -> (Seq<TreeView>, Seq<SkipView>)
    decreases folders.len(),
{
    if folders.len() == 0 {
        state
    } else {
        structural_step(
            records,
            structural_pass(records, folders.drop_last(), state),
            folders.last(),
        )
    }
}

/// One content item: a note of `folder` is merged as a leaf under the
/// folder's resolved path, with its prepared body as content. A note without
/// a prepared body is skipped with `NotFound`; a note of another folder is
/// not this item's business and leaves the state unchanged.
pub open spec fn content_step(
    records: Seq<FoldersArray>,
    bodies: Seq<NoteContent>,
    folder: FoldersArray,
    state: (Seq<TreeView>, Seq<SkipView>),
    note: NotesArray,
) -> (Seq<TreeView>, Seq<SkipView>) {
    if note.parent_id@ != folder.id@ {
        state
    } else {
        let b = find_body(bodies, note.id@);
        if b < 0 {
            (state.0, state.1.push(skip_of(note.title@, note.id@, CoreError::NotFound)))
        } else {
            match resolve_spec(records, folder.id@, records.len() as nat) {
                Err(e) => (state.0, state.1.push(skip_of(note.title@, note.id@, e))),
                Ok(p) => match insert_tree(
                    state.0,
                    path_titles(p),
                    note.title@,
                    bodies[b].body@,
                ) {
                    Ok(f) => (f, state.1),
                    Err(e) => (state.0, state.1.push(skip_of(note.title@, note.id@, e))),
                },
            }
        }
    }
}

/// The content pass for one folder: its notes, in input order.
pub open spec fn content_pass_folder(
    records: Seq<FoldersArray>,
    notes: Seq<NotesArray>,
    bodies: Seq<NoteContent>,
    folder: FoldersArray,
    state: (Seq<TreeView>, Seq<SkipView>),
) -> (Seq<TreeView>, Seq<SkipView>)
    decreases notes.len(),
{
    if notes.len() == 0 {
        state
    } else {
        content_step(
            records,
            bodies,
            folder,
            content_pass_folder(records, notes.drop_last(), bodies, folder, state),
            notes.last(),
        )
    }
}

/// The content pass over all candidate folders, in order.
pub open spec fn content_pass(
    records: Seq<FoldersArray>,
    notes: Seq<NotesArray>,
    bodies: Seq<NoteContent>,
    folders: Seq<FoldersArray>,
    state: (Seq<TreeView>, Seq<SkipView>),
) -> (Seq<TreeView>, Seq<SkipView>)
    decreases folders.len(),
{
    if folders.len() == 0 {
        state
    } else {
        content_pass_folder(
            records,
            notes,
            bodies,
            folders.last(),
            content_pass(records, notes, bodies, folders.drop_last(), state),
        )
    }
}

/// A whole migration run: the structural pass over every candidate folder,
/// then the content pass, starting from the forest `forest0` with nothing
/// skipped yet.
pub open spec fn migrate(
    records: Seq<FoldersArray>,
    notes: Seq<NotesArray>,
    bodies: Seq<NoteContent>,
    folders: Seq<FoldersArray>,
    forest0: Seq<TreeView>,
) -> (Seq<TreeView>, Seq<SkipView>) {
    content_pass(
        records,
        notes,
        bodies,
        folders,
        structural_pass(records, folders, (forest0, Seq::empty())),
    )
}

/// Every prefix merge goes through the engine, so the forest stays
/// well-formed however many prefixes were processed.
proof fn lemma_prefixes_wf(forest: Seq<TreeView>, p: Seq<PathEntryView>, k: nat)
    requires
        wf_forest(forest),
    ensures
        wf_forest(structural_prefixes(forest, p, k).0),
    decreases k,
{
    if k > 0 {
        lemma_prefixes_wf(forest, p, (k - 1) as nat);
        let prev = structural_prefixes(forest, p, (k - 1) as nat);
        if prev.1 is None {
            let path = path_titles(p.subrange(0, k as int - 1));
            if insert_tree(prev.0, path, p[k as int - 1].title, p[k as int - 1].id) is Ok {
                lemma_insert_preserves_wf(
                    prev.0,
                    path,
                    p[k as int - 1].title,
                    p[k as int - 1].id,
                );
            }
        }
    }
}

/// One structural item keeps the forest well-formed: it only inserts
/// through the merge engine or leaves the forest alone.
proof fn lemma_structural_step_wf(
    records: Seq<FoldersArray>,
    state: (Seq<TreeView>, Seq<SkipView>),
    folder: FoldersArray,
)
    requires
        wf_forest(state.0),
    ensures
        wf_forest(structural_step(records, state, folder).0),
{
    match resolve_spec(records, folder.id@, records.len() as nat) {
        Err(_) => {},
        Ok(p) => {
            lemma_prefixes_wf(state.0, p, p.len());
        },
    }
}

/// One content item keeps the forest well-formed.
proof fn lemma_content_step_wf(
    records: Seq<FoldersArray>,
    bodies: Seq<NoteContent>,
    folder: FoldersArray,
    state: (Seq<TreeView>, Seq<SkipView>),
    note: NotesArray,
)
    requires
        wf_forest(state.0),
    ensures
        wf_forest(content_step(records, bodies, folder, state, note).0),
{
    if note.parent_id@ == folder.id@ {
        let b = find_body(bodies, note.id@);
        if b >= 0 {
            match resolve_spec(records, folder.id@, records.len() as nat) {
                Err(_) => {},
                Ok(p) => {
                    if insert_tree(state.0, path_titles(p), note.title@, bodies[b].body@)
                        is Ok {
                        lemma_insert_preserves_wf(
                            state.0,
                            path_titles(p),
                            note.title@,
                            bodies[b].body@,
                        );
                    }
                },
            }
        }
    }
}

proof fn lemma_structural_pass_wf(
    records: Seq<FoldersArray>,
    folders: Seq<FoldersArray>,
    state: (Seq<TreeView>, Seq<SkipView>),
)
    requires
        wf_forest(state.0),
    ensures
        wf_forest(structural_pass(records, folders, state).0),
    decreases folders.len(),
{
    if folders.len() > 0 {
        lemma_structural_pass_wf(records, folders.drop_last(), state);
        lemma_structural_step_wf(
            records,
            structural_pass(records, folders.drop_last(), state),
            folders.last(),
        );
    }
}

proof fn lemma_content_pass_folder_wf(
    records: Seq<FoldersArray>,
    notes: Seq<NotesArray>,
    bodies: Seq<NoteContent>,
    folder: FoldersArray,
    state: (Seq<TreeView>, Seq<SkipView>),
)
    requires
        wf_forest(state.0),
    ensures
        wf_forest(content_pass_folder(records, notes, bodies, folder, state).0),
    decreases notes.len(),
{
    if notes.len() > 0 {
        lemma_content_pass_folder_wf(records, notes.drop_last(), bodies, folder, state);
        lemma_content_step_wf(
            records,
            bodies,
            folder,
            content_pass_folder(records, notes.drop_last(), bodies, folder, state),
            notes.last(),
        );
    }
}

proof fn lemma_content_pass_wf(
    records: Seq<FoldersArray>,
    notes: Seq<NotesArray>,
    bodies: Seq<NoteContent>,
    folders: Seq<FoldersArray>,
    state: (Seq<TreeView>, Seq<SkipView>),
)
    requires
        wf_forest(state.0),
    ensures
        wf_forest(content_pass(records, notes, bodies, folders, state).0),
    decreases folders.len(),
{
    if folders.len() > 0 {
        lemma_content_pass_wf(records, notes, bodies, folders.drop_last(), state);
        lemma_content_pass_folder_wf(
            records,
            notes,
            bodies,
            folders.last(),
            content_pass(records, notes, bodies, folders.drop_last(), state),
        );
    }
}

/// Prefix merges only add: whatever was reachable stays reachable.
proof fn lemma_prefixes_preserve_reaches(
    forest: Seq<TreeView>,
    p: Seq<PathEntryView>,
    k: nat,
    q: Seq<Seq<char>>,
)
    requires
        reaches(forest, q),
    ensures
        reaches(structural_prefixes(forest, p, k).0, q),
    decreases k,
{
    if k > 0 {
        lemma_prefixes_preserve_reaches(forest, p, (k - 1) as nat, q);
        let prev = structural_prefixes(forest, p, (k - 1) as nat);
        if prev.1 is None {
            let path = path_titles(p.subrange(0, k as int - 1));
            if insert_tree(prev.0, path, p[k as int - 1].title, p[k as int - 1].id) is Ok {
                lemma_insert_preserves_reaches(
                    prev.0,
                    q,
                    path,
                    p[k as int - 1].title,
                    p[k as int - 1].id,
                );
            }
        }
    }
}

/// One structural item only adds: whatever was reachable stays reachable.
proof fn lemma_structural_step_preserves_reaches(
    records: Seq<FoldersArray>,
    state: (Seq<TreeView>, Seq<SkipView>),
    folder: FoldersArray,
    q: Seq<Seq<char>>,
)
    requires
        reaches(state.0, q),
    ensures
        reaches(structural_step(records, state, folder).0, q),
{
    match resolve_spec(records, folder.id@, records.len() as nat) {
        Err(_) => {},
        Ok(p) => {
            lemma_prefixes_preserve_reaches(state.0, p, p.len(), q);
        },
    }
}

/// One content item only adds: whatever was reachable stays reachable.
proof fn lemma_content_step_preserves_reaches(
    records: Seq<FoldersArray>,
    bodies: Seq<NoteContent>,
    folder: FoldersArray,
    state: (Seq<TreeView>, Seq<SkipView>),
    note: NotesArray,
    q: Seq<Seq<char>>,
)
    requires
        reaches(state.0, q),
    ensures
        reaches(content_step(records, bodies, folder, state, note).0, q),
{
    if note.parent_id@ == folder.id@ {
        let b = find_body(bodies, note.id@);
        if b >= 0 {
            match resolve_spec(records, folder.id@, records.len() as nat) {
                Err(_) => {},
                Ok(p) => {
                    if insert_tree(state.0, path_titles(p), note.title@, bodies[b].body@)
                        is Ok {
                        lemma_insert_preserves_reaches(
                            state.0,
                            q,
                            path_titles(p),
                            note.title@,
                            bodies[b].body@,
                        );
                    }
                },
            }
        }
    }
}

proof fn lemma_content_pass_folder_preserves_reaches(
    records: Seq<FoldersArray>,
    notes: Seq<NotesArray>,
    bodies: Seq<NoteContent>,
    folder: FoldersArray,
    state: (Seq<TreeView>, Seq<SkipView>),
    q: Seq<Seq<char>>,
)
    requires
        reaches(state.0, q),
    ensures
        reaches(content_pass_folder(records, notes, bodies, folder, state).0, q),
    decreases notes.len(),
{
    if notes.len() > 0 {
        lemma_content_pass_folder_preserves_reaches(
            records,
            notes.drop_last(),
            bodies,
            folder,
            state,
            q,
        );
        lemma_content_step_preserves_reaches(
            records,
            bodies,
            folder,
            content_pass_folder(records, notes.drop_last(), bodies, folder, state),
            notes.last(),
            q,
        );
    }
}

proof fn lemma_content_pass_preserves_reaches(
    records: Seq<FoldersArray>,
    notes: Seq<NotesArray>,
    bodies: Seq<NoteContent>,
    folders: Seq<FoldersArray>,
    state: (Seq<TreeView>, Seq<SkipView>),
    q: Seq<Seq<char>>,
)
    requires
        reaches(state.0, q),
    ensures
        reaches(content_pass(records, notes, bodies, folders, state).0, q),
    decreases folders.len(),
{
    if folders.len() > 0 {
        lemma_content_pass_preserves_reaches(
            records,
            notes,
            bodies,
            folders.drop_last(),
            state,
            q,
        );
        lemma_content_pass_folder_preserves_reaches(
            records,
            notes,
            bodies,
            folders.last(),
            content_pass(records, notes, bodies, folders.drop_last(), state),
            q,
        );
    }
}

/// A folder's prefix merges never fail: the first prefix merges at the
/// forest root, and each next one merges under the chain the previous
/// prefixes just built. Afterwards every prefix of the path is reachable.
proof fn lemma_prefixes_establish(forest: Seq<TreeView>, p: Seq<PathEntryView>, k: nat)
    requires
        k <= p.len(),
    ensures
        structural_prefixes(forest, p, k).1 is None,
        forall|j: int|
            1 <= j <= k ==> reaches(
                structural_prefixes(forest, p, k).0,
                path_titles(#[trigger] p.subrange(0, j)),
            ),
    decreases k,
{
    if k > 0 {
        lemma_prefixes_establish(forest, p, (k - 1) as nat);
        let prev = structural_prefixes(forest, p, (k - 1) as nat);
        let path = path_titles(p.subrange(0, k as int - 1));
        lemma_insert_at_reachable(prev.0, path, p[k as int - 1].title, p[k as int - 1].id);
        let f2 = insert_tree(prev.0, path, p[k as int - 1].title, p[k as int - 1].id)->Ok_0;
        lemma_insert_reaches(prev.0, path, p[k as int - 1].title, p[k as int - 1].id);
        assert(path.push(p[k as int - 1].title) =~= path_titles(p.subrange(0, k as int)));
        assert forall|j: int| 1 <= j <= k - 1 implies reaches(
            f2,
            path_titles(#[trigger] p.subrange(0, j)),
        ) by {
            lemma_insert_preserves_reaches(
                prev.0,
                path_titles(p.subrange(0, j)),
                path,
                p[k as int - 1].title,
                p[k as int - 1].id,
            );
        }
    }
}

/// When every prefix of the path is already reachable, the prefix merges
/// change nothing.
proof fn lemma_prefixes_noop(forest: Seq<TreeView>, p: Seq<PathEntryView>, k: nat)
    requires
        k <= p.len(),
        forall|j: int|
            1 <= j <= k ==> reaches(forest, path_titles(#[trigger] p.subrange(0, j))),
    ensures
        structural_prefixes(forest, p, k) == (forest, Option::<CoreError>::None),
    decreases k,
{
    if k > 0 {
        lemma_prefixes_noop(forest, p, (k - 1) as nat);
        let path = path_titles(p.subrange(0, k as int - 1));
        assert(path.push(p[k as int - 1].title) =~= path_titles(p.subrange(0, k as int)));
        lemma_insert_noop(forest, path, p[k as int - 1].title, p[k as int - 1].id);
    }
}

/// Every prefix of `folder`'s resolved path names a chain of containers
/// reachable in `f`.
spec fn folder_chain_built(
    records: Seq<FoldersArray>,
    folder: FoldersArray,
    f: Seq<TreeView>,
) -> bool {
    match resolve_spec(records, folder.id@, records.len() as nat) {
        Ok(p) => forall|j: int|
            1 <= j <= p.len() ==> reaches(f, path_titles(#[trigger] p.subrange(0, j))),
        Err(_) => true,
    }
}

/// The container chain of every candidate folder exists in `f`.
spec fn chains_built(
    records: Seq<FoldersArray>,
    folders: Seq<FoldersArray>,
    f: Seq<TreeView>,
) -> bool {
    forall|t: int| 0 <= t < folders.len() ==> folder_chain_built(records, #[trigger] folders[t], f)
}

/// If `note` belongs to `folder`, has a prepared body, and the folder's
/// path resolves, then the note's leaf is in place in `f`.
spec fn note_leaf_built(
    records: Seq<FoldersArray>,
    bodies: Seq<NoteContent>,
    folder: FoldersArray,
    note: NotesArray,
    f: Seq<TreeView>,
) -> bool {
    (note.parent_id@ == folder.id@ && find_body(bodies, note.id@) >= 0 && resolve_spec(
        records,
        folder.id@,
        records.len() as nat,
    ) is Ok) ==> reaches(
        f,
        path_titles(resolve_spec(records, folder.id@, records.len() as nat)->Ok_0).push(
            note.title@,
        ),
    )
}

/// Every mergeable note of every candidate folder has its leaf in `f`.
spec fn leaves_built(
    records: Seq<FoldersArray>,
    notes: Seq<NotesArray>,
    bodies: Seq<NoteContent>,
    folders: Seq<FoldersArray>,
    f: Seq<TreeView>,
) -> bool {
    forall|t: int, n: int|
        0 <= t < folders.len() && 0 <= n < notes.len() ==> note_leaf_built(
            records,
            bodies,
            #[trigger] folders[t],
            #[trigger] notes[n],
            f,
        )
}

/// The structural pass leaves the container chain of every candidate folder
/// reachable.
proof fn lemma_structural_pass_builds(
    records: Seq<FoldersArray>,
    folders: Seq<FoldersArray>,
    state: (Seq<TreeView>, Seq<SkipView>),
)
    ensures
        chains_built(records, folders, structural_pass(records, folders, state).0),
    decreases folders.len(),
{
    if folders.len() > 0 {
        let sub = folders.drop_last();
        lemma_structural_pass_builds(records, sub, state);
        let prev = structural_pass(records, sub, state);
        let cur = structural_step(records, prev, folders.last());
        match resolve_spec(records, folders.last().id@, records.len() as nat) {
            Err(_) => {},
            Ok(p) => {
                lemma_prefixes_establish(prev.0, p, p.len());
            },
        }
        assert forall|t: int| 0 <= t < folders.len() implies folder_chain_built(
            records,
            #[trigger] folders[t],
            cur.0,
        ) by {
            if t < folders.len() - 1 {
                assert(folders[t] == sub[t]);
                assert(folder_chain_built(records, sub[t], prev.0));
                match resolve_spec(records, folders[t].id@, records.len() as nat) {
                    Err(_) => {},
                    Ok(pt) => {
                        assert forall|j: int| 1 <= j <= pt.len() implies reaches(
                            cur.0,
                            path_titles(#[trigger] pt.subrange(0, j)),
                        ) by {
                            lemma_structural_step_preserves_reaches(
                                records,
                                prev,
                                folders.last(),
                                path_titles(pt.subrange(0, j)),
                            );
                        }
                    },
                }
            }
        }
    }
}

/// The content pass for one folder merges every one of its mergeable notes
/// (the folder's chain makes the merges succeed), and keeps the folder's
/// chain reachable.
proof fn lemma_content_folder_builds(
    records: Seq<FoldersArray>,
    notes: Seq<NotesArray>,
    bodies: Seq<NoteContent>,
    folder: FoldersArray,
    state: (Seq<TreeView>, Seq<SkipView>),
)
    requires
        folder_chain_built(records, folder, state.0),
    ensures
        folder_chain_built(
            records,
            folder,
            content_pass_folder(records, notes, bodies, folder, state).0,
        ),
        forall|n: int|
            0 <= n < notes.len() ==> note_leaf_built(
                records,
                bodies,
                folder,
                #[trigger] notes[n],
                content_pass_folder(records, notes, bodies, folder, state).0,
            ),
    decreases notes.len(),
{
    if notes.len() > 0 {
        let sub = notes.drop_last();
        lemma_content_folder_builds(records, sub, bodies, folder, state);
        let prev = content_pass_folder(records, sub, bodies, folder, state);
        let note = notes.last();
        let cur = content_step(records, bodies, folder, prev, note);
        match resolve_spec(records, folder.id@, records.len() as nat) {
            Err(_) => {},
            Ok(p) => {
                if note.parent_id@ == folder.id@ && find_body(bodies, note.id@) >= 0 {
                    let b = find_body(bodies, note.id@);
                    assert(p.subrange(0, p.len() as int) =~= p);
                    lemma_insert_at_reachable(prev.0, path_titles(p), note.title@, bodies[b].body@);
                    lemma_insert_reaches(prev.0, path_titles(p), note.title@, bodies[b].body@);
                }
            },
        }
        // the folder's chain, and the leaves of earlier notes, persist
        match resolve_spec(records, folder.id@, records.len() as nat) {
            Err(_) => {},
            Ok(p) => {
                assert forall|j: int| 1 <= j <= p.len() implies reaches(
                    cur.0,
                    path_titles(#[trigger] p.subrange(0, j)),
                ) by {
                    lemma_content_step_preserves_reaches(
                        records,
                        bodies,
                        folder,
                        prev,
                        note,
                        path_titles(p.subrange(0, j)),
                    );
                }
            },
        }
        assert forall|n: int| 0 <= n < notes.len() implies note_leaf_built(
            records,
            bodies,
            folder,
            #[trigger] notes[n],
            cur.0,
        ) by {
            if n < notes.len() - 1 {
                assert(notes[n] == sub[n]);
                assert(note_leaf_built(records, bodies, folder, sub[n], prev.0));
                if notes[n].parent_id@ == folder.id@ && find_body(bodies, notes[n].id@) >= 0
                    && resolve_spec(records, folder.id@, records.len() as nat) is Ok {
                    let p = resolve_spec(records, folder.id@, records.len() as nat)->Ok_0;
                    lemma_content_step_preserves_reaches(
                        records,
                        bodies,
                        folder,
                        prev,
                        note,
                        path_titles(p).push(notes[n].title@),
                    );
                }
            }
        }
    }
}

/// The whole content pass merges every mergeable note and keeps every
/// candidate folder's chain reachable.
proof fn lemma_content_pass_builds(
    records: Seq<FoldersArray>,
    notes: Seq<NotesArray>,
    bodies: Seq<NoteContent>,
    folders: Seq<FoldersArray>,
    state: (Seq<TreeView>, Seq<SkipView>),
)
    requires
        chains_built(records, folders, state.0),
    ensures
        chains_built(records, folders, content_pass(records, notes, bodies, folders, state).0),
        leaves_built(
            records,
            notes,
            bodies,
            folders,
            content_pass(records, notes, bodies, folders, state).0,
        ),
    decreases folders.len(),
{
    if folders.len() > 0 {
        let sub = folders.drop_last();
        assert forall|t: int| 0 <= t < sub.len() implies folder_chain_built(
            records,
            #[trigger] sub[t],
            state.0,
        ) by {
            assert(sub[t] == folders[t]);
        }
        lemma_content_pass_builds(records, notes, bodies, sub, state);
        let prev = content_pass(records, notes, bodies, sub, state);
        let last = folders.last();
        let cur = content_pass_folder(records, notes, bodies, last, prev);
        // the last folder's chain survived the earlier folders' merges
        match resolve_spec(records, last.id@, records.len() as nat) {
            Err(_) => {},
            Ok(p) => {
                assert forall|j: int| 1 <= j <= p.len() implies reaches(
                    prev.0,
                    path_titles(#[trigger] p.subrange(0, j)),
                ) by {
                    lemma_content_pass_preserves_reaches(
                        records,
                        notes,
                        bodies,
                        sub,
                        state,
                        path_titles(p.subrange(0, j)),
                    );
                }
            },
        }
        lemma_content_folder_builds(records, notes, bodies, last, prev);
        assert forall|t: int| 0 <= t < folders.len() implies folder_chain_built(
            records,
            #[trigger] folders[t],
            cur.0,
        ) by {
            if t < folders.len() - 1 {
                assert(folders[t] == sub[t]);
                assert(folder_chain_built(records, sub[t], prev.0));
                match resolve_spec(records, folders[t].id@, records.len() as nat) {
                    Err(_) => {},
                    Ok(pt) => {
                        assert forall|j: int| 1 <= j <= pt.len() implies reaches(
                            cur.0,
                            path_titles(#[trigger] pt.subrange(0, j)),
                        ) by {
                            lemma_content_pass_folder_preserves_reaches(
                                records,
                                notes,
                                bodies,
                                last,
                                prev,
                                path_titles(pt.subrange(0, j)),
                            );
                        }
                    },
                }
            }
        }
        assert forall|t: int, n: int|
            0 <= t < folders.len() && 0 <= n < notes.len() implies note_leaf_built(
            records,
            bodies,
            #[trigger] folders[t],
            #[trigger] notes[n],
            cur.0,
        ) by {
            if t < folders.len() - 1 {
                assert(folders[t] == sub[t]);
                assert(note_leaf_built(records, bodies, sub[t], notes[n], prev.0));
                if notes[n].parent_id@ == folders[t].id@ && find_body(bodies, notes[n].id@)
                    >= 0 && resolve_spec(records, folders[t].id@, records.len() as nat)
                    is Ok {
                    let pt = resolve_spec(records, folders[t].id@, records.len() as nat)->Ok_0;
                    lemma_content_pass_folder_preserves_reaches(
                        records,
                        notes,
                        bodies,
                        last,
                        prev,
                        path_titles(pt).push(notes[n].title@),
                    );
                }
            }
        }
    }
}

/// On a forest that already holds every candidate folder's chain, the
/// structural pass changes nothing.
proof fn lemma_structural_pass_noop(
    records: Seq<FoldersArray>,
    folders: Seq<FoldersArray>,
    state: (Seq<TreeView>, Seq<SkipView>),
)
    requires
        chains_built(records, folders, state.0),
    ensures
        structural_pass(records, folders, state).0 == state.0,
    decreases folders.len(),
{
    if folders.len() > 0 {
        let sub = folders.drop_last();
        assert forall|t: int| 0 <= t < sub.len() implies folder_chain_built(
            records,
            #[trigger] sub[t],
            state.0,
        ) by {
            assert(sub[t] == folders[t]);
        }
        lemma_structural_pass_noop(records, sub, state);
        let prev = structural_pass(records, sub, state);
        match resolve_spec(records, folders.last().id@, records.len() as nat) {
            Err(_) => {},
            Ok(p) => {
                assert(folder_chain_built(records, folders.last(), state.0));
                lemma_prefixes_noop(prev.0, p, p.len());
            },
        }
    }
}

/// On a forest that already holds every mergeable note's leaf, one folder's
/// content pass changes nothing.
proof fn lemma_content_folder_noop(
    records: Seq<FoldersArray>,
    notes: Seq<NotesArray>,
    bodies: Seq<NoteContent>,
    folder: FoldersArray,
    state: (Seq<TreeView>, Seq<SkipView>),
)
    requires
        forall|n: int|
            0 <= n < notes.len() ==> note_leaf_built(
                records,
                bodies,
                folder,
                #[trigger] notes[n],
                state.0,
            ),
    ensures
        content_pass_folder(records, notes, bodies, folder, state).0 == state.0,
    decreases notes.len(),
{
    if notes.len() > 0 {
        let sub = notes.drop_last();
        assert forall|n: int| 0 <= n < sub.len() implies note_leaf_built(
            records,
            bodies,
            folder,
            #[trigger] sub[n],
            state.0,
        ) by {
            assert(sub[n] == notes[n]);
        }
        lemma_content_folder_noop(records, sub, bodies, folder, state);
        let prev = content_pass_folder(records, sub, bodies, folder, state);
        let note = notes.last();
        if note.parent_id@ == folder.id@ && find_body(bodies, note.id@) >= 0 {
            let b = find_body(bodies, note.id@);
            match resolve_spec(records, folder.id@, records.len() as nat) {
                Err(_) => {},
                Ok(p) => {
                    assert(note_leaf_built(records, bodies, folder, note, state.0));
                    lemma_insert_noop(prev.0, path_titles(p), note.title@, bodies[b].body@);
                },
            }
        }
    }
}

/// On a forest that already holds every chain and every leaf, the content
/// pass changes nothing.
proof fn lemma_content_pass_noop(
    records: Seq<FoldersArray>,
    notes: Seq<NotesArray>,
    bodies: Seq<NoteContent>,
    folders: Seq<FoldersArray>,
    state: (Seq<TreeView>, Seq<SkipView>),
)
    requires
        leaves_built(records, notes, bodies, folders, state.0),
    ensures
        content_pass(records, notes, bodies, folders, state).0 == state.0,
    decreases folders.len(),
{
    if folders.len() > 0 {
        let sub = folders.drop_last();
        assert forall|t: int, n: int|
            0 <= t < sub.len() && 0 <= n < notes.len() implies note_leaf_built(
            records,
            bodies,
            #[trigger] sub[t],
            #[trigger] notes[n],
            state.0,
        ) by {
            assert(sub[t] == folders[t]);
        }
        lemma_content_pass_noop(records, notes, bodies, sub, state);
        let prev = content_pass(records, notes, bodies, sub, state);
        assert(forall|n: int|
            0 <= n < notes.len() ==> note_leaf_built(
                records,
                bodies,
                folders.last(),
                #[trigger] notes[n],
                prev.0,
            ));
        lemma_content_folder_noop(records, notes, bodies, folders.last(), prev);
    }
}

/// Re-running a whole migration against its own result is a no-op on the
/// forest: the structural pass built every candidate folder's container
/// chain and the content pass every mergeable note's leaf, and re-merging
/// what is already in place adds no node and changes no text.
pub proof fn lemma_migrate_rerun(
    records: Seq<FoldersArray>,
    notes: Seq<NotesArray>,
    bodies: Seq<NoteContent>,
    folders: Seq<FoldersArray>,
    forest0: Seq<TreeView>,
)
    ensures
        migrate(
            records,
            notes,
            bodies,
            folders,
            migrate(records, notes, bodies, folders, forest0).0,
        ).0 == migrate(records, notes, bodies, folders, forest0).0,
{
    let init1 = (forest0, Seq::<SkipView>::empty());
    lemma_structural_pass_builds(records, folders, init1);
    let s1 = structural_pass(records, folders, init1);
    lemma_content_pass_builds(records, notes, bodies, folders, s1);
    let f1 = content_pass(records, notes, bodies, folders, s1).0;

    let init2 = (f1, Seq::<SkipView>::empty());
    lemma_structural_pass_noop(records, folders, init2);
    let s2 = structural_pass(records, folders, init2);
    lemma_content_pass_noop(records, notes, bodies, folders, s2);
}

/// A migration run only ever merges through the engine, so it keeps the
/// destination forest well-formed: at no point does any node acquire two
/// children with the same name, and the partial result is always a valid
/// tree.
pub proof fn lemma_migrate_preserves_wf(
    records: Seq<FoldersArray>,
    notes: Seq<NotesArray>,
    bodies: Seq<NoteContent>,
    folders: Seq<FoldersArray>,
    forest0: Seq<TreeView>,
)
    requires
        wf_forest(forest0),
    ensures
        wf_forest(migrate(records, notes, bodies, folders, forest0).0),
{
    lemma_structural_pass_wf(records, folders, (forest0, Seq::empty()));
    lemma_content_pass_wf(
        records,
        notes,
        bodies,
        folders,
        structural_pass(records, folders, (forest0, Seq::empty())),
    );
}

/// The index of the first body of `bodies` whose id equals `id`, if any.
fn position_of_body(bodies: &Vec<NoteContent>, id: &String) -> (r: Option<usize>)
    ensures
        match r {
            Some(i) => i < bodies@.len() && find_body(bodies@, id@) == i as int,
            None => find_body(bodies@, id@) == -1,
        },
{
    let mut k: usize = 0;
    while k < bodies.len()
        invariant
            k <= bodies@.len(),
            forall|j: int| 0 <= j < k ==> bodies@[j].id@ != id@,
        decreases bodies@.len() - k,
    {
        if bodies[k].id == *id {
            proof {
                lemma_find_body(bodies@, id@);
                let r = find_body(bodies@, id@);
                if r == -1 || r > k {
                    assert(bodies@[k as int].id@ != id@);
                } else if r < k {
                    assert(bodies@[r].id@ != id@);
                }
            }
            return Some(k);
        }
        k += 1;
    }
    proof {
        lemma_find_body(bodies@, id@);
    }
    None
}

/// The titles of the first `count` entries of a resolved path, as owned
/// strings.
fn titles_of(path_vec: &Vec<MinimumFolder>, count: usize) -> (r: Vec<String>)
    requires
        count <= path_vec@.len(),
    ensures
        r.deep_view() == path_titles(entries_view(path_vec@).subrange(0, count as int)),
{
    let mut titles: Vec<String> = Vec::new();
    let mut k: usize = 0;
    while k < count
        invariant
            k <= count <= path_vec@.len(),
            titles@.len() == k,
            forall|j: int| 0 <= j < k ==> titles@[j]@ == path_vec@[j].title@,
        decreases count - k,
    {
        titles.push(path_vec[k].title.clone());
        k += 1;
    }
    proof {
        assert(titles.deep_view() =~= path_titles(
            entries_view(path_vec@).subrange(0, count as int),
        ));
    }
    titles
}

/// Merge one container for every prefix of the resolved path `path_vec`,
/// root-first, exactly as `structural_prefixes` says: stop at the first
/// failed merge and hand its error back.
#[verifier::loop_isolation(false)]
fn merge_prefixes(nodes: &mut Vec<Node>, path_vec: &Vec<MinimumFolder>) -> (r: Option<CoreError>)
    ensures
        structural_prefixes(
            forest_of(old(nodes)@),
            entries_view(path_vec@),
            path_vec@.len() as nat,
        ) == (forest_of(final(nodes)@), r),
{
    let ghost p = entries_view(path_vec@);
    let ghost f0 = forest_of(nodes@);
    let mut k: usize = 0;
    while k < path_vec.len()
        invariant
            k <= path_vec@.len(),
            structural_prefixes(f0, p, k as nat) == (
                forest_of(nodes@),
                Option::<CoreError>::None,
            ),
        decreases path_vec@.len() - k,
    {
        let titles = titles_of(path_vec, k);
        proof {
            assert(titles.deep_view() == path_titles(p.subrange(0, k as int)));
            assert(p[k as int].title == path_vec@[k as int].title@);
            assert(p[k as int].id == path_vec@[k as int].id@);
        }
        let res = create_node_at_path(
            nodes,
            path_vec[k].title.as_str(),
            path_vec[k].id.as_str(),
            &titles,
        );
        match res {
            Ok(()) => {
                proof {
                    assert(structural_prefixes(f0, p, (k + 1) as nat) == (
                        forest_of(nodes@),
                        Option::<CoreError>::None,
                    ));
                }
            },
            Err(e) => {
                proof {
                    assert(structural_prefixes(f0, p, (k + 1) as nat) == (
                        forest_of(nodes@),
                        Some(e),
                    ));
                    lemma_prefixes_stuck(f0, p, (k + 1) as nat, path_vec@.len() as nat);
                }
                return Some(e);
            },
        }
        k += 1;
    }
    None
}

/// Migrate the folders `joplin_folders` and their notes into the document
/// `feather_file`.
///
/// The structural pass merges a container for every prefix of every
/// folder's resolved path before the content pass merges any note, so every
/// note's ancestor chain already exists, whatever the candidate order.
/// Items that fail to resolve or merge are skipped and reported; the forest
/// and the skip list of the result are exactly those of the model fold
/// `migrate`, and re-running the same migration over its own output leaves
/// the forest unchanged (`lemma_migrate_rerun`).
#[verifier::loop_isolation(false)]
pub fn overwrite_joplin_to_feathernotes(
    feather_file: FeatherStruct,
    joplin_struct: &JoplinData,
    joplin_folders: &Vec<FoldersArray>,
    note_bodies: &Vec<NoteContent>,
) -> (r: (FeatherStruct, Vec<SkippedItem>))
    ensures
        ({
            let outcome = migrate(
                joplin_struct.dir_list@,
                joplin_struct.notes_list@,
                note_bodies@,
                joplin_folders@,
                forest_of(feather_file.struct_xml.node@),
            );
            &&& forest_of(r.0.struct_xml.node@) == outcome.0
            &&& skips_view(r.1@) == outcome.1
            &&& r.0.struct_xml.txtfont@ == feather_file.struct_xml.txtfont@
            &&& r.0.struct_xml.nodefont@ == feather_file.struct_xml.nodefont@
        }),
{
    let ghost records = joplin_struct.dir_list@;
    let ghost notes = joplin_struct.notes_list@;
    let ghost bodies = note_bodies@;
    let ghost orig = feather_file;
    let ghost init = (forest_of(feather_file.struct_xml.node@), Seq::<SkipView>::empty());

    let mut feather = feather_file;
    let mut skipped: Vec<SkippedItem> = Vec::new();
    proof {
        assert(skips_view(skipped@) =~= Seq::<SkipView>::empty());
        assert(joplin_folders@.subrange(0, 0) =~= Seq::<FoldersArray>::empty());
    }

    // Structural pass: a container for every folder, before any note.
    let mut i: usize = 0;
    while i < joplin_folders.len()
        invariant
            i <= joplin_folders@.len(),
            (forest_of(feather.struct_xml.node@), skips_view(skipped@)) == structural_pass(
                records,
                joplin_folders@.subrange(0, i as int),
                init,
            ),
            feather.struct_xml.txtfont@ == orig.struct_xml.txtfont@,
            feather.struct_xml.nodefont@ == orig.struct_xml.nodefont@,
        decreases joplin_folders@.len() - i,
    {
        let ghost pre = structural_pass(records, joplin_folders@.subrange(0, i as int), init);
        let ghost folder = joplin_folders@[i as int];
        proof {
            assert(joplin_folders@.subrange(0, i as int + 1).drop_last()
                =~= joplin_folders@.subrange(0, i as int));
            assert(joplin_folders@.subrange(0, i as int + 1).last() == folder);
        }
        match joplin_struct.get_path_folder(joplin_folders[i].id.as_str()) {
            Err(e) => {
                skipped.push(
                    SkippedItem {
                        title: joplin_folders[i].title.clone(),
                        id: joplin_folders[i].id.clone(),
                        error: e,
                    },
                );
                proof {
                    assert(skips_view(skipped@) =~= pre.1.push(
                        skip_of(folder.title@, folder.id@, e),
                    ));
                }
            },
            Ok(path_vec) => {
                let ghost p = entries_view(path_vec@);
                let merge_err = merge_prefixes(&mut feather.struct_xml.node, &path_vec);
                match merge_err {
                    None => {
                        proof {
                            assert((forest_of(feather.struct_xml.node@), skips_view(skipped@))
                                == structural_step(records, pre, folder));
                        }
                    },
                    Some(e) => {
                        skipped.push(
                            SkippedItem {
                                title: joplin_folders[i].title.clone(),
                                id: joplin_folders[i].id.clone(),
                                error: e,
                            },
                        );
                        proof {
                            assert(skips_view(skipped@) =~= pre.1.push(
                                skip_of(folder.title@, folder.id@, e),
                            ));
                        }
                    },
                }
            },
        }
        i += 1;
    }
    proof {
        assert(joplin_folders@.subrange(0, joplin_folders@.len() as int) =~= joplin_folders@);
    }
    let ghost after_structural = structural_pass(records, joplin_folders@, init);

    // Content pass: every note of every candidate folder, as a leaf.
    let mut i: usize = 0;
    while i < joplin_folders.len()
        invariant
            i <= joplin_folders@.len(),
            (forest_of(feather.struct_xml.node@), skips_view(skipped@)) == content_pass(
                records,
                notes,
                bodies,
                joplin_folders@.subrange(0, i as int),
                after_structural,
            ),
            feather.struct_xml.txtfont@ == orig.struct_xml.txtfont@,
            feather.struct_xml.nodefont@ == orig.struct_xml.nodefont@,
        decreases joplin_folders@.len() - i,
    {
        let ghost folder_pre = content_pass(
            records,
            notes,
            bodies,
            joplin_folders@.subrange(0, i as int),
            after_structural,
        );
        let ghost folder = joplin_folders@[i as int];
        proof {
            assert(joplin_folders@.subrange(0, i as int + 1).drop_last()
                =~= joplin_folders@.subrange(0, i as int));
            assert(joplin_folders@.subrange(0, i as int + 1).last() == folder);
            assert(notes.subrange(0, 0) =~= Seq::<NotesArray>::empty());
        }
        let mut j: usize = 0;
        while j < joplin_struct.notes_list.len()
            invariant
                j <= notes.len(),
                (forest_of(feather.struct_xml.node@), skips_view(skipped@))
                    == content_pass_folder(
                    records,
                    notes.subrange(0, j as int),
                    bodies,
                    folder,
                    folder_pre,
                ),
                feather.struct_xml.txtfont@ == orig.struct_xml.txtfont@,
                feather.struct_xml.nodefont@ == orig.struct_xml.nodefont@,
            decreases notes.len() - j,
        {
            let ghost note_pre = content_pass_folder(
                records,
                notes.subrange(0, j as int),
                bodies,
                folder,
                folder_pre,
            );
            let ghost note = notes[j as int];
            proof {
                assert(notes.subrange(0, j as int + 1).drop_last() =~= notes.subrange(
                    0,
                    j as int,
                ));
                assert(notes.subrange(0, j as int + 1).last() == note);
            }
            if joplin_struct.notes_list[j].parent_id == joplin_folders[i].id {
                match position_of_body(note_bodies, &joplin_struct.notes_list[j].id) {
                    None => {
                        skipped.push(
                            SkippedItem {
                                title: joplin_struct.notes_list[j].title.clone(),
                                id: joplin_struct.notes_list[j].id.clone(),
                                error: CoreError::NotFound,
                            },
                        );
                        proof {
                            assert(skips_view(skipped@) =~= note_pre.1.push(
                                skip_of(note.title@, note.id@, CoreError::NotFound),
                            ));
                        }
                    },
                    Some(bi) => {
                        match joplin_struct.get_path_folder(joplin_folders[i].id.as_str()) {
                            Err(e) => {
                                skipped.push(
                                    SkippedItem {
                                        title: joplin_struct.notes_list[j].title.clone(),
                                        id: joplin_struct.notes_list[j].id.clone(),
                                        error: e,
                                    },
                                );
                                proof {
                                    assert(skips_view(skipped@) =~= note_pre.1.push(
                                        skip_of(note.title@, note.id@, e),
                                    ));
                                }
                            },
                            Ok(path_vec) => {
                                let ghost p = entries_view(path_vec@);
                                let count = path_vec.len();
                                let full_path = titles_of(&path_vec, count);
                                proof {
                                    assert(p.subrange(0, count as int) =~= p);
                                    assert(full_path.deep_view() == path_titles(p));
                                }
                                let res = create_node_at_path(
                                    &mut feather.struct_xml.node,
                                    joplin_struct.notes_list[j].title.as_str(),
                                    note_bodies[bi].body.as_str(),
                                    &full_path,
                                );
                                match res {
                                    Ok(()) => {
                                        proof {
                                            assert((
                                                forest_of(feather.struct_xml.node@),
                                                skips_view(skipped@),
                                            ) == content_step(
                                                records,
                                                bodies,
                                                folder,
                                                note_pre,
                                                note,
                                            ));
                                        }
                                    },
                                    Err(e) => {
                                        skipped.push(
                                            SkippedItem {
                                                title: joplin_struct.notes_list[j].title.clone(),
                                                id: joplin_struct.notes_list[j].id.clone(),
                                                error: e,
                                            },
                                        );
                                        proof {
                                            assert(skips_view(skipped@) =~= note_pre.1.push(
                                                skip_of(note.title@, note.id@, e),
                                            ));
                                        }
                                    },
                                }
                            },
                        }
                    },
                }
            }
            j += 1;
        }
        proof {
            assert(notes.subrange(0, notes.len() as int) =~= notes);
        }
        i += 1;
    }
    proof {
        assert(joplin_folders@.subrange(0, joplin_folders@.len() as int) =~= joplin_folders@);
    }
    (feather, skipped)
}

} // verus!
