//! The destination tree and the merge engine.
//!
//! A `Node` is a named tree node with a text body and an ordered sequence of
//! children. The merge engine, `create_node_at_path`, inserts a new leaf at
//! the position described by a path of titles, creating the terminal container
//! when needed and never duplicating a sibling name. Its behaviour is pinned
//! by the spec function `insert_tree` over the mathematical tree model
//! `TreeView`.

use vstd::prelude::*;

use crate::errors::CoreError;

verus! {

/// The mathematical model of a tree node: the deep view of a `Node`.
#[verifier::ext_equal]
pub struct TreeView {
    pub name: Seq<char>,
    pub text: Seq<char>,
    pub children: Seq<TreeView>,
}

/// One node of the destination tree.
#[derive(Debug, PartialEq)]
pub struct Node {
    pub name: String,
    pub text: String,
    pub node: Vec<Node>,
}

impl Node {
    /// The deep view of a node: its `TreeView` model.
    pub open spec fn tree(self) -> TreeView
        decreases self,
    {
        TreeView { name: self.name@, text: self.text@, children: forest_of(self.node@) }
    }
}

/// The deep view of a forest of nodes.
pub open spec fn forest_of(nodes: Seq<Node>) -> Seq<TreeView>
    decreases nodes,
{
    if nodes.len() == 0 {
        Seq::empty()
    } else {
        seq![nodes[0].tree()] + forest_of(nodes.subrange(1, nodes.len() as int))
    }
}

/// `forest_of` maps each node to its view, position by position.
pub proof fn lemma_forest_of(nodes: Seq<Node>)
    ensures
        forest_of(nodes).len() == nodes.len(),
        forall|i: int| 0 <= i < nodes.len() ==> forest_of(nodes)[i] == nodes[i].tree(),
    decreases nodes.len(),
{
    if nodes.len() > 0 {
        lemma_forest_of(nodes.subrange(1, nodes.len() as int));
    }
}

/// A leaf of the model tree: no children.
pub open spec fn leaf_view(name: Seq<char>, text: Seq<char>) -> TreeView {
    TreeView { name, text, children: Seq::empty() }
}

/// The index of the first tree in `forest` whose name is `name`, or -1 if
/// no tree has that name.
pub open spec fn find_named(forest: Seq<TreeView>, name: Seq<char>) -> int
    decreases forest.len(),
{
    if forest.len() == 0 {
        -1
    } else if forest[0].name == name {
        0
    } else {
        let r = find_named(forest.skip(1), name);
        if r < 0 {
            -1
        } else {
            r + 1
        }
    }
}

/// What `find_named` returns: the least matching index, or -1.
pub proof fn lemma_find_named(forest: Seq<TreeView>, name: Seq<char>)
    ensures
        find_named(forest, name) == -1 || 0 <= find_named(forest, name) < forest.len(),
        find_named(forest, name) == -1 ==> forall|i: int|
            0 <= i < forest.len() ==> forest[i].name != name,
        find_named(forest, name) >= 0 ==> forest[find_named(forest, name)].name == name,
        find_named(forest, name) >= 0 ==> forall|i: int|
            0 <= i < find_named(forest, name) ==> forest[i].name != name,
    decreases forest.len(),
{
    if forest.len() == 0 {
    } else if forest[0].name == name {
    } else {
        lemma_find_named(forest.skip(1), name);
        assert(forall|i: int|
            1 <= i < forest.len() ==> forest[i] == forest.skip(1)[i - 1]);
    }
}

/// The length of `forest_of`, as an ambient fact.
pub broadcast proof fn lemma_forest_of_len(nodes: Seq<Node>)
    ensures
        #[trigger] forest_of(nodes).len() == nodes.len(),
{
    lemma_forest_of(nodes);
}

/// The elements of `forest_of`, as an ambient fact.
pub broadcast proof fn lemma_forest_of_index(nodes: Seq<Node>, i: int)
    requires
        0 <= i < nodes.len(),
    ensures
        #[trigger] forest_of(nodes)[i] == nodes[i].tree(),
{
    lemma_forest_of(nodes);
}

/// `find_named` at a known first match: if `forest[i]` is named `name` and no
/// earlier tree is, then `find_named` returns `i`.
pub proof fn lemma_find_named_is(forest: Seq<TreeView>, name: Seq<char>, i: int)
    requires
        0 <= i < forest.len(),
        forest[i].name == name,
        forall|j: int| 0 <= j < i ==> forest[j].name != name,
    ensures
        find_named(forest, name) == i,
{
    lemma_find_named(forest, name);
    let r = find_named(forest, name);
    if r == -1 {
        assert(forest[i].name != name);
    } else if r < i {
        assert(forest[r].name != name);
    } else if r > i {
        assert(forest[i].name != name);
    }
}

/// No two trees of `forest` share a name.
pub open spec fn unique_names(forest: Seq<TreeView>) -> bool {
    forall|i: int, j: int|
        0 <= i < j < forest.len() ==> forest[i].name != forest[j].name
}

/// Every tree of `forest` has well-formed children.
pub open spec fn wf_each(forest: Seq<TreeView>) -> bool
    decreases forest, 0int,
{
    forest.len() == 0 || (wf_forest(forest[0].children) && wf_each(
        forest.subrange(1, forest.len() as int),
    ))
}

/// Sibling uniqueness, at every level of every tree of `forest`.
pub open spec fn wf_forest(forest: Seq<TreeView>) -> bool
    decreases forest, 1int,
{
    unique_names(forest) && wf_each(forest)
}

/// What `wf_forest` says, element by element: the names are unique and each
/// tree's children are themselves well-formed.
pub proof fn lemma_wf_forest(forest: Seq<TreeView>)
    ensures
        wf_forest(forest) <==> (unique_names(forest) && forall|i: int|
            0 <= i < forest.len() ==> wf_forest(#[trigger] forest[i].children)),
    decreases forest.len(),
{
    if forest.len() > 0 {
        lemma_wf_forest(forest.subrange(1, forest.len() as int));
        assert(forall|i: int|
            1 <= i < forest.len() ==> forest[i] == forest.subrange(1, forest.len() as int)[i
                - 1]);
    }
}

/// The merge engine, on the model: insert the leaf `(name, text)` into
/// `forest` at the position described by `path`.
///
/// With an empty path the leaf becomes a new root, unless a root already
/// carries its name (a silent no-op). Otherwise the first path entry is
/// looked up among the trees: on a match the insertion descends into that
/// tree's children with the rest of the path; when the final path entry
/// matches nothing, the terminal container is created with the leaf below
/// it; when a non-final entry matches nothing, the merge fails with
/// `PathNotFound`. Existing trees are never removed or reordered.
pub open spec fn insert_tree(
    forest: Seq<TreeView>,
    path: Seq<Seq<char>>,
    name: Seq<char>,
    text: Seq<char>,
) -> Result<Seq<TreeView>, CoreError>
    decreases path.len(),
{
    if path.len() == 0 {
        if find_named(forest, name) >= 0 {
            Ok(forest)
        } else {
            Ok(forest.push(leaf_view(name, text)))
        }
    } else {
        let i = find_named(forest, path[0]);
        if i >= 0 {
            match insert_tree(forest[i].children, path.skip(1), name, text) {
                Ok(cs) => Ok(
                    forest.update(
                        i,
                        TreeView { name: forest[i].name, text: forest[i].text, children: cs },
                    ),
                ),
                Err(e) => Err(e),
            }
        } else if path.len() == 1 {
            Ok(
                forest.push(
                    TreeView {
                        name: path[0],
                        text: Seq::empty(),
                        children: seq![leaf_view(name, text)],
                    },
                ),
            )
        } else {
            Err(CoreError::PathNotFound)
        }
    }
}

/// `find_named` looks only at names: forests with the same names at the same
/// positions agree on it.
proof fn lemma_find_named_same_names(f1: Seq<TreeView>, f2: Seq<TreeView>, name: Seq<char>)
    requires
        f1.len() == f2.len(),
        forall|i: int| 0 <= i < f1.len() ==> f1[i].name == f2[i].name,
    ensures
        find_named(f1, name) == find_named(f2, name),
    decreases f1.len(),
{
    if f1.len() > 0 && f1[0].name != name {
        lemma_find_named_same_names(f1.skip(1), f2.skip(1), name);
    }
}

/// Pushing a tree named `name` onto a forest where no tree carries that name
/// makes it the first (and only) match.
proof fn lemma_find_named_push(forest: Seq<TreeView>, x: TreeView, name: Seq<char>)
    requires
        find_named(forest, name) == -1,
        x.name == name,
    ensures
        find_named(forest.push(x), name) == forest.len(),
{
    lemma_find_named(forest, name);
    lemma_find_named_is(forest.push(x), name, forest.len() as int);
}

/// Sibling uniqueness is an invariant of the merge engine: inserting into a
/// well-formed forest yields a well-formed forest.
pub proof fn lemma_insert_preserves_wf(
    forest: Seq<TreeView>,
    path: Seq<Seq<char>>,
    name: Seq<char>,
    text: Seq<char>,
)
    requires
        wf_forest(forest),
        insert_tree(forest, path, name, text) is Ok,
    ensures
        wf_forest(insert_tree(forest, path, name, text)->Ok_0),
    decreases path.len(),
{
    let f2 = insert_tree(forest, path, name, text)->Ok_0;
    lemma_wf_forest(forest);
    lemma_wf_forest(f2);
    if path.len() == 0 {
        if find_named(forest, name) >= 0 {
        } else {
            lemma_find_named(forest, name);
            assert(wf_forest(leaf_view(name, text).children));
            assert(forall|i: int| 0 <= i < forest.len() ==> f2[i] == forest[i]);
        }
    } else {
        let i = find_named(forest, path[0]);
        if i >= 0 {
            lemma_find_named(forest, path[0]);
            assert(wf_forest(forest[i].children));
            lemma_insert_preserves_wf(forest[i].children, path.skip(1), name, text);
            assert(forall|j: int| 0 <= j < f2.len() ==> f2[j].name == forest[j].name);
        } else if path.len() == 1 {
            lemma_find_named(forest, path[0]);
            let container = TreeView {
                name: path[0],
                text: Seq::empty(),
                children: seq![leaf_view(name, text)],
            };
            assert(wf_forest(leaf_view(name, text).children));
            lemma_wf_forest(container.children);
            assert(wf_forest(container.children));
            assert(forall|j: int| 0 <= j < forest.len() ==> f2[j] == forest[j]);
        }
    }
}

/// The merge engine is idempotent: re-running a successful insertion against
/// its own result changes nothing and raises no error.
pub proof fn lemma_insert_idempotent(
    forest: Seq<TreeView>,
    path: Seq<Seq<char>>,
    name: Seq<char>,
    text: Seq<char>,
)
    requires
        insert_tree(forest, path, name, text) is Ok,
    ensures
        insert_tree(insert_tree(forest, path, name, text)->Ok_0, path, name, text) == insert_tree(
            forest,
            path,
            name,
            text,
        ),
    decreases path.len(),
{
    let f2 = insert_tree(forest, path, name, text)->Ok_0;
    if path.len() == 0 {
        if find_named(forest, name) >= 0 {
        } else {
            lemma_find_named_push(forest, leaf_view(name, text), name);
        }
    } else {
        let i = find_named(forest, path[0]);
        if i >= 0 {
            let cs = insert_tree(forest[i].children, path.skip(1), name, text)->Ok_0;
            lemma_find_named(forest, path[0]);
            lemma_find_named_same_names(f2, forest, path[0]);
            lemma_insert_idempotent(forest[i].children, path.skip(1), name, text);
            assert(f2.update(
                i,
                TreeView { name: f2[i].name, text: f2[i].text, children: cs },
            ) =~= f2);
        } else if path.len() == 1 {
            let container = TreeView {
                name: path[0],
                text: Seq::empty(),
                children: seq![leaf_view(name, text)],
            };
            lemma_find_named_push(forest, container, path[0]);
            let n = forest.len() as int;
            assert(f2[n] == container);
            assert(path.skip(1) =~= Seq::<Seq<char>>::empty());
            assert(find_named(container.children, name) == 0);
            assert(insert_tree(f2[n].children, path.skip(1), name, text) == Ok::<
                Seq<TreeView>,
                CoreError,
            >(container.children));
            assert(f2.update(
                n,
                TreeView { name: f2[n].name, text: f2[n].text, children: container.children },
            ) =~= f2);
        }
    }
}

/// A node is reachable in `forest` by following the titles of `path`,
/// level by level and root-first.
pub open spec fn reaches(forest: Seq<TreeView>, path: Seq<Seq<char>>) -> bool
    decreases path.len(),
{
    path.len() > 0 && {
        let i = find_named(forest, path[0]);
        i >= 0 && (path.len() == 1 || reaches(forest[i].children, path.skip(1)))
    }
}

/// A successful merge places the leaf where the path says: it is reachable by
/// following the path's titles and then the leaf's name.
pub proof fn lemma_insert_reaches(
    forest: Seq<TreeView>,
    path: Seq<Seq<char>>,
    name: Seq<char>,
    text: Seq<char>,
)
    requires
        insert_tree(forest, path, name, text) is Ok,
    ensures
        reaches(insert_tree(forest, path, name, text)->Ok_0, path.push(name)),
    decreases path.len(),
{
    let f2 = insert_tree(forest, path, name, text)->Ok_0;
    let full = path.push(name);
    if path.len() == 0 {
        assert(full[0] == name);
        if find_named(forest, name) >= 0 {
        } else {
            lemma_find_named_push(forest, leaf_view(name, text), name);
        }
    } else {
        assert(full[0] == path[0]);
        let i = find_named(forest, path[0]);
        if i >= 0 {
            lemma_find_named(forest, path[0]);
            lemma_find_named_same_names(f2, forest, path[0]);
            lemma_insert_reaches(forest[i].children, path.skip(1), name, text);
            assert(full.skip(1) =~= path.skip(1).push(name));
            assert(reaches(f2[i].children, full.skip(1)));
        } else if path.len() == 1 {
            let container = TreeView {
                name: path[0],
                text: Seq::empty(),
                children: seq![leaf_view(name, text)],
            };
            lemma_find_named_push(forest, container, path[0]);
            let n = forest.len() as int;
            assert(f2[n] == container);
            assert(full.skip(1) =~= seq![name]);
            assert(find_named(container.children, name) == 0);
            assert(reaches(f2[n].children, full.skip(1)));
        }
    }
}

/// Nothing reachable is lost by pushing a new tree onto a forest.
proof fn lemma_reaches_push(forest: Seq<TreeView>, x: TreeView, q: Seq<Seq<char>>)
    requires
        reaches(forest, q),
    ensures
        reaches(forest.push(x), q),
{
    let i = find_named(forest, q[0]);
    lemma_find_named(forest, q[0]);
    lemma_find_named_is(forest.push(x), q[0], i);
    assert(forest.push(x)[i] == forest[i]);
}

/// The engine cannot fail on a reachable path: when every entry of `path`
/// matches, level by level, the merge succeeds whatever the leaf is.
pub proof fn lemma_insert_at_reachable(
    forest: Seq<TreeView>,
    path: Seq<Seq<char>>,
    name: Seq<char>,
    text: Seq<char>,
)
    requires
        path.len() == 0 || reaches(forest, path),
    ensures
        insert_tree(forest, path, name, text) is Ok,
    decreases path.len(),
{
    if path.len() == 1 {
        let i = find_named(forest, path[0]);
        assert(path.skip(1).len() == 0);
        assert(insert_tree(forest[i].children, path.skip(1), name, text) is Ok);
    } else if path.len() > 1 {
        let i = find_named(forest, path[0]);
        lemma_insert_at_reachable(forest[i].children, path.skip(1), name, text);
    }
}

/// Re-merging a leaf that is already in place changes nothing: the
/// reachability form of idempotence.
pub proof fn lemma_insert_noop(
    forest: Seq<TreeView>,
    path: Seq<Seq<char>>,
    name: Seq<char>,
    text: Seq<char>,
)
    requires
        reaches(forest, path.push(name)),
    ensures
        insert_tree(forest, path, name, text) == Ok::<Seq<TreeView>, CoreError>(forest),
    decreases path.len(),
{
    let full = path.push(name);
    if path.len() == 0 {
        assert(full[0] == name);
    } else {
        assert(full[0] == path[0]);
        let i = find_named(forest, path[0]);
        lemma_find_named(forest, path[0]);
        assert(full.skip(1) =~= path.skip(1).push(name));
        lemma_insert_noop(forest[i].children, path.skip(1), name, text);
        assert(forest.update(
            i,
            TreeView { name: forest[i].name, text: forest[i].text, children: forest[i].children },
        ) =~= forest);
    }
}

/// The engine is strictly additive: a successful merge keeps every node
/// that was reachable before reachable afterwards.
pub proof fn lemma_insert_preserves_reaches(
    forest: Seq<TreeView>,
    q: Seq<Seq<char>>,
    path: Seq<Seq<char>>,
    name: Seq<char>,
    text: Seq<char>,
)
    requires
        insert_tree(forest, path, name, text) is Ok,
        reaches(forest, q),
    ensures
        reaches(insert_tree(forest, path, name, text)->Ok_0, q),
    decreases path.len(),
{
    let f2 = insert_tree(forest, path, name, text)->Ok_0;
    if path.len() == 0 {
        if find_named(forest, name) >= 0 {
        } else {
            lemma_reaches_push(forest, leaf_view(name, text), q);
        }
    } else {
        let i = find_named(forest, path[0]);
        if i >= 0 {
            let j = find_named(forest, q[0]);
            lemma_find_named(forest, path[0]);
            lemma_find_named(forest, q[0]);
            lemma_find_named_same_names(f2, forest, q[0]);
            if q.len() == 1 {
            } else if j != i {
                assert(f2[j] == forest[j]);
            } else {
                lemma_insert_preserves_reaches(
                    forest[i].children,
                    q.skip(1),
                    path.skip(1),
                    name,
                    text,
                );
            }
        } else if path.len() == 1 {
            let container = TreeView {
                name: path[0],
                text: Seq::empty(),
                children: seq![leaf_view(name, text)],
            };
            lemma_reaches_push(forest, container, q);
        }
    }
}

/// A merge whose path has more than one entry and whose first entry matches
/// no existing root fails with `PathNotFound`.
pub proof fn lemma_missing_parent(
    forest: Seq<TreeView>,
    path: Seq<Seq<char>>,
    name: Seq<char>,
    text: Seq<char>,
)
    requires
        path.len() > 1,
        forall|i: int| 0 <= i < forest.len() ==> forest[i].name != path[0],
    ensures
        insert_tree(forest, path, name, text) == Err::<Seq<TreeView>, CoreError>(
            CoreError::PathNotFound,
        ),
{
    lemma_find_named(forest, path[0]);
}

/// The index of the first node of `nodes` named `name`, if any.
fn position_of_name(nodes: &Vec<Node>, name: &String) -> (r: Option<usize>)
    ensures
        match r {
            Some(i) => i < nodes@.len() && find_named(forest_of(nodes@), name@) == i as int,
            None => find_named(forest_of(nodes@), name@) == -1,
        },
{
    broadcast use lemma_forest_of_len, lemma_forest_of_index;

    let mut k: usize = 0;
    while k < nodes.len()
        invariant
            k <= nodes@.len(),
            forall|j: int| 0 <= j < k ==> nodes@[j].name@ != name@,
        decreases nodes@.len() - k,
    {
        if nodes[k].name == *name {
            proof {
                lemma_forest_of(nodes@);
                lemma_find_named_is(forest_of(nodes@), name@, k as int);
            }
            return Some(k);
        }
        k += 1;
    }
    proof {
        lemma_find_named(forest_of(nodes@), name@);
    }
    None
}

/// The merge engine on path entries `pos..` of `path`: mirrors `insert_tree`
/// applied to `path.skip(pos)`.
fn merge_from(nodes: &mut Vec<Node>, path: &Vec<String>, pos: usize, title: &str, body: &str) -> (r:
    Result<(), CoreError>)
    requires
        pos <= path@.len(),
    ensures
        ({
            let outcome = insert_tree(
                forest_of(old(nodes)@),
                path.deep_view().skip(pos as int),
                title@,
                body@,
            );
            match r {
                Ok(()) => outcome == Ok::<Seq<TreeView>, CoreError>(forest_of(final(nodes)@)),
                Err(e) => outcome == Err::<Seq<TreeView>, CoreError>(e) && forest_of(final(nodes)@)
                    == forest_of(old(nodes)@),
            }
        }),
    decreases path@.len() - pos,
{
    broadcast use lemma_forest_of_len, lemma_forest_of_index;

    let ghost spec_path = path.deep_view().skip(pos as int);
    if pos == path.len() {
        let title_string = title.to_owned();
        let present = position_of_name(nodes, &title_string);
        if present.is_none() {
            let leaf = Node { name: title.to_owned(), text: body.to_owned(), node: Vec::new() };
            proof {
                assert(leaf.tree() =~= leaf_view(title@, body@));
            }
            nodes.push(leaf);
            proof {
                assert(forest_of(nodes@) =~= forest_of(old(nodes)@).push(
                    leaf_view(title@, body@),
                ));
            }
        }
        Ok(())
    } else {
        let found = position_of_name(nodes, &path[pos]);
        proof {
            assert(spec_path[0] == path@[pos as int]@);
        }
        match found {
            Some(i) => {
                let ghost fore = forest_of(nodes@);
                let child = &mut nodes[i];
                let ghost old_child = *child;
                let res = merge_from(&mut child.node, path, pos + 1, title, body);
                proof {
                    assert(spec_path.skip(1) =~= path.deep_view().skip(pos + 1));
                    assert(forest_of(nodes@) =~= fore.update(
                        i as int,
                        TreeView {
                            name: old_child.name@,
                            text: old_child.text@,
                            children: forest_of(nodes@[i as int].node@),
                        },
                    ));
                    if res is Err {
                        assert(forest_of(nodes@) =~= fore);
                    }
                }
                res
            },
            None => {
                if pos + 1 == path.len() {
                    let mut container = Node {
                        name: path[pos].clone(),
                        text: String::new(),
                        node: Vec::new(),
                    };
                    let leaf = Node {
                        name: title.to_owned(),
                        text: body.to_owned(),
                        node: Vec::new(),
                    };
                    proof {
                        assert(leaf.tree() =~= leaf_view(title@, body@));
                    }
                    container.node.push(leaf);
                    proof {
                        lemma_forest_of(container.node@);
                        assert(forest_of(container.node@) =~= seq![leaf_view(title@, body@)]);
                        assert(container.tree() =~= TreeView {
                            name: spec_path[0],
                            text: Seq::empty(),
                            children: seq![leaf_view(title@, body@)],
                        });
                    }
                    let ghost fore = forest_of(nodes@);
                    let ghost ctree = container.tree();
                    nodes.push(container);
                    proof {
                        assert(spec_path.len() == 1);
                        assert(forest_of(nodes@) =~= fore.push(ctree));
                    }
                    Ok(())
                } else {
                    proof {
                        assert(spec_path.len() > 1);
                    }
                    Err(CoreError::PathNotFound)
                }
            },
        }
    }
}

/// Insert the leaf `(title, body)` into the forest `current_node` at the
/// position described by `path`, a root-first sequence of container titles.
///
/// The result and the new forest are exactly those of the model-level
/// `insert_tree`; in particular a failed merge leaves the forest unchanged,
/// and re-running a successful merge is a no-op.
pub fn create_node_at_path(
    current_node: &mut Vec<Node>,
    title: &str,
    body: &str,
    path: &Vec<String>,
) -> (r: Result<(), CoreError>)
    ensures
        ({
            let outcome = insert_tree(
                forest_of(old(current_node)@),
                path.deep_view(),
                title@,
                body@,
            );
            match r {
                Ok(()) => outcome == Ok::<Seq<TreeView>, CoreError>(
                    forest_of(final(current_node)@),
                ),
                Err(e) => outcome == Err::<Seq<TreeView>, CoreError>(e) && forest_of(
                    final(current_node)@,
                ) == forest_of(old(current_node)@),
            }
        }),
{
    proof {
        assert(path.deep_view().skip(0) =~= path.deep_view());
    }
    merge_from(current_node, path, 0, title, body)
}

/// The document root: a forest of nodes and the two font settings that the
/// persisted representation carries.
#[derive(Debug, PartialEq)]
#[allow(non_camel_case_types)]
pub struct feathernotes {
    pub node: Vec<Node>,
    pub txtfont: String,
    pub nodefont: String,
}

/// An owned document, as handed to and returned by the migration driver.
#[derive(Debug, PartialEq)]
pub struct FeatherStruct {
    pub struct_xml: feathernotes,
}

impl FeatherStruct {
    /// A fresh, empty document with the default fonts.
    pub fn new() -> (r: Result<FeatherStruct, CoreError>)
        ensures
            r is Ok,
            r->Ok_0.struct_xml.node@ == Seq::<Node>::empty(),
            r->Ok_0.struct_xml.txtfont@ == "Monospace,11,-1,5,400,0,0,0,0,0,0,0,0,0,0,1"@,
            r->Ok_0.struct_xml.nodefont@ == "Cantarell,11,-1,5,400,0,0,0,0,0,0,0,0,0,0,1"@,
    {
        let feather_inner = feathernotes {
            node: Vec::new(),
            txtfont: "Monospace,11,-1,5,400,0,0,0,0,0,0,0,0,0,0,1".to_owned(),
            nodefont: "Cantarell,11,-1,5,400,0,0,0,0,0,0,0,0,0,0,1".to_owned(),
        };
        Ok(FeatherStruct { struct_xml: feather_inner })
    }
}

} // verus!

