//! The tree of files on the library screen.

use crate::key::NodeId;
use crate::text::{put_together, hex, pieces, split, texts, to_hex, Separator};
use vstd::prelude::*;

verus! {

/// A directory or a file: its path, whether it was added as a file, its name,
/// and what is in it.
#[derive(Debug)]
pub struct TreeNode {
    pub path: String,
    pub is_leaf: bool,
    pub label: String,
    pub children: Vec<TreeNode>,
}

/// A directory or a file as a value of the model.
pub struct Tree {
    pub path: Seq<char>,
    pub is_leaf: bool,
    pub label: Seq<char>,
    pub children: Seq<Tree>,
}

/// The value of a directory or a file.
pub open spec fn tree_of(node: TreeNode) -> Tree
    decreases node,
{
    Tree {
        path: node.path@,
        is_leaf: node.is_leaf,
        label: node.label@,
        children: trees_of(node.children@),
    }
}

/// The values of directories and files.
pub open spec fn trees_of(nodes: Seq<TreeNode>) -> Seq<Tree>
    decreases nodes,
{
    if nodes.len() == 0 {
        Seq::empty()
    } else {
        trees_of(nodes.drop_last()).push(tree_of(nodes.last()))
    }
}

/// The path of a part in a directory: parts are separated by a slash, unless
/// there is nothing before it.
pub open spec fn extended(path: Seq<char>, part: Seq<char>) -> Seq<char> {
    if path.len() == 0 {
        part
    } else {
        path.push('/') + part
    }
}

/// Whether `i` is the first tree with a path.
pub open spec fn first_at(trees: Seq<Tree>, path: Seq<char>, i: int) -> bool {
    &&& 0 <= i < trees.len()
    &&& trees[i].path == path
    &&& forall|j: int| 0 <= j < i ==> (#[trigger] trees[j]).path != path
}

/// Whether there is a tree with a path.
pub open spec fn has_path(trees: Seq<Tree>, path: Seq<char>) -> bool {
    exists|i: int| first_at(trees, path, i)
}

/// What is in a directory after adding a file: the directories on the way are
/// those that are there, or new ones.
pub open spec fn inserted(trees: Seq<Tree>, path: Seq<char>, parts: Seq<Seq<char>>) -> Seq<Tree>
    decreases parts.len(),
{
    if parts.len() == 0 {
        trees
    } else {
        let here = extended(path, parts[0]);
        let rest = parts.drop_first();
        if has_path(trees, here) {
            let i = choose|i: int| first_at(trees, here, i);
            trees.update(
                i,
                Tree { children: inserted(trees[i].children, here, rest), ..trees[i] },
            )
        } else {
            trees.push(
                Tree {
                    path: here,
                    is_leaf: rest.len() == 0,
                    label: parts[0],
                    children: inserted(Seq::empty(), here, rest),
                },
            )
        }
    }
}

/// The parts of the path of a file: the root that it is under, and the names
/// between slashes.
pub open spec fn parts_of(root: Seq<char>, file: Seq<char>) -> Seq<Seq<char>> {
    seq![root] + pieces(file, Separator::Slash)
}

/// The trees after adding files under a root.
pub open spec fn with_files(trees: Seq<Tree>, root: Seq<char>, files: Seq<Seq<char>>) -> Seq<Tree>
    decreases files.len(),
{
    if files.len() == 0 {
        trees
    } else {
        inserted(
            with_files(trees, root, files.drop_last()),
            Seq::empty(),
            parts_of(root, files.last()),
        )
    }
}

/// The trees of files under several roots.
pub open spec fn files_under(roots: Seq<(String, Vec<String>)>) -> Seq<Tree>
    decreases roots.len(),
{
    if roots.len() == 0 {
        Seq::empty()
    } else {
        with_files(
            files_under(roots.drop_last()),
            roots.last().0@,
            texts(roots.last().1@),
        )
    }
}

/// The values of a list are those of its items.
pub proof fn trees_of_items(nodes: Seq<TreeNode>)
    ensures
        trees_of(nodes).len() == nodes.len(),
        forall|i: int| 0 <= i < nodes.len() ==> #[trigger] trees_of(nodes)[i] == tree_of(nodes[i]),
    decreases nodes.len(),
{
    if nodes.len() > 0 {
        trees_of_items(nodes.drop_last());
    }
}

/// The path of a part in a directory.
fn extend(path: &String, part: &String) -> (longer: String)
    ensures
        longer@ == extended(path@, part@),
{
    let mut longer = path.clone();
    if longer.as_str().unicode_len() > 0 {
        longer.push('/');
    }
    longer.append(part.as_str());
    assert(longer@ =~= extended(path@, part@));
    longer
}

/// Adds a file to a directory: the parts of its path from `k` on.
#[verifier::rlimit(40)]
fn insert(children: &mut Vec<TreeNode>, path: &String, parts: &Vec<String>, k: usize)
    requires
        k <= parts@.len(),
    ensures
        trees_of(final(children)@) == inserted(
            trees_of(old(children)@),
            path@,
            texts(parts@).skip(k as int),
        ),
    decreases parts@.len() - k,
{
    let ghost rest = texts(parts@).skip(k as int);
    let ghost before = children@;
    proof {
        trees_of_items(before);
    }
    if k == parts.len() {
        return;
    }
    let here = extend(path, &parts[k]);
    proof {
        assert(rest[0] == parts@[k as int]@);
        assert(rest.drop_first() =~= texts(parts@).skip(k + 1));
    }
    let mut i: usize = 0;
    while i < children.len() && children[i].path != here
        invariant
            i <= children@.len(),
            children@ == before,
            trees_of(before).len() == before.len(),
            forall|j: int|
                0 <= j < before.len() ==> #[trigger] trees_of(before)[j] == tree_of(before[j]),
            forall|j: int| 0 <= j < i ==> (#[trigger] trees_of(before)[j]).path != here@,
        decreases children@.len() - i,
    {
        assert(trees_of(before)[i as int].path != here@);
        i = i + 1;
    }
    if i < children.len() {
        proof {
            assert(first_at(trees_of(before), here@, i as int));
            let chosen = choose|j: int| first_at(trees_of(before), here@, j);
            assert(first_at(trees_of(before), here@, chosen));
            assert(chosen == i);
        }
        let mut child = children.remove(i);
        insert(&mut child.children, &here, parts, k + 1);
        let ghost changed = child;
        children.insert(i, child);
        proof {
            trees_of_items(children@);
            assert(children@ =~= before.update(i as int, changed));
            assert(tree_of(before[i as int]) == trees_of(before)[i as int]);
            assert(trees_of(children@) =~= inserted(trees_of(before), path@, rest));
        }
    } else {
        let mut below: Vec<TreeNode> = Vec::new();
        insert(&mut below, &here, parts, k + 1);
        let node = TreeNode {
            path: here,
            is_leaf: k + 1 == parts.len(),
            label: parts[k].clone(),
            children: below,
        };
        children.push(node);
        proof {
            assert(!has_path(trees_of(before), node.path@)) by {
                if has_path(trees_of(before), node.path@) {
                    let j = choose|j: int| first_at(trees_of(before), node.path@, j);
                    assert(trees_of(before)[j].path != node.path@);
                }
            }
            trees_of_items(children@);
            assert(trees_of(children@) =~= trees_of(before).push(tree_of(node)));
            assert(trees_of(Seq::<TreeNode>::empty()) =~= Seq::<Tree>::empty());
        }
    }
}

/// The trees of files under several roots.
pub fn build_tree(roots: &Vec<(String, Vec<String>)>) -> (children: Vec<TreeNode>)
    ensures
        trees_of(children@) == files_under(roots@),
{
    let mut children: Vec<TreeNode> = Vec::new();
    let mut r: usize = 0;
    let start = String::new();
    assert(start@ =~= Seq::<char>::empty());
    assert(roots@.take(0) =~= Seq::empty());
    while r < roots.len()
        invariant
            r <= roots@.len(),
            start@ == Seq::<char>::empty(),
            trees_of(children@) == files_under(roots@.take(r as int)),
        decreases roots@.len() - r,
    {
        let ghost before = trees_of(children@);
        let ghost root = roots@[r as int].0@;
        let ghost files = texts(roots@[r as int].1@);
        let mut f: usize = 0;
        assert(files.take(0) =~= Seq::empty());
        while f < roots[r].1.len()
            invariant
                r < roots@.len(),
                f <= files.len(),
                start@ == Seq::<char>::empty(),
                root == roots@[r as int].0@,
                files == texts(roots@[r as int].1@),
                trees_of(children@) == with_files(before, root, files.take(f as int)),
            decreases files.len() - f,
        {
            let mut parts: Vec<String> = Vec::new();
            parts.push(roots[r].0.clone());
            let mut names = split(roots[r].1[f].as_str(), Separator::Slash);
            parts.append(&mut names);
            proof {
                assert(texts(parts@) =~= parts_of(root, files[f as int]));
                assert(texts(parts@).skip(0) =~= texts(parts@));
                assert(files.take(f + 1).drop_last() =~= files.take(f as int));
                assert(files.take(f + 1).last() == files[f as int]);
            }
            insert(&mut children, &start, &parts, 0);
            f = f + 1;
        }
        proof {
            assert(files.take(files.len() as int) =~= files);
            assert(roots@.take(r + 1).drop_last() =~= roots@.take(r as int));
            assert(roots@.take(r + 1).last() == roots@[r as int]);
        }
        r = r + 1;
    }
    assert(roots@.take(roots@.len() as int) =~= roots@);
    children
}

/// The files of a node, as they are shown.
#[derive(Debug)]
pub struct NodeFiles {
    pub node_id: NodeId,
    pub label: String,
    pub children: Vec<TreeNode>,
}

/// Whether files are those of a node, under a label.
pub open spec fn files_of(
    shown: NodeFiles,
    node_id: NodeId,
    label: Seq<char>,
    roots: Seq<(String, Vec<String>)>,
) -> bool {
    &&& shown.node_id == node_id
    &&& shown.label@ == label
    &&& trees_of(shown.children@) == files_under(roots)
}

/// The files on the library screen: those of the local node, then those of
/// each other node.
pub fn library_screen(
    local_id: NodeId,
    local_files: &Vec<(String, Vec<String>)>,
    remote_files: &Vec<(NodeId, Vec<(String, Vec<String>)>)>,
) -> (shown: Vec<NodeFiles>)
    ensures
        shown@.len() == remote_files@.len() + 1,
        files_of(shown@[0], local_id, "Local Files"@, local_files@),
        forall|i: int|
            0 <= i < remote_files@.len() ==> files_of(
                #[trigger] shown@[i + 1],
                remote_files@[i].0,
                "Remote Files on "@ + hex(remote_files@[i].0.bytes@),
                remote_files@[i].1@,
            ),
{
    let mut shown: Vec<NodeFiles> = Vec::new();
    shown.push(
        NodeFiles {
            node_id: local_id,
            label: "Local Files".to_string(),
            children: build_tree(local_files),
        },
    );
    let mut i: usize = 0;
    while i < remote_files.len()
        invariant
            i <= remote_files@.len(),
            shown@.len() == i + 1,
            files_of(shown@[0], local_id, "Local Files"@, local_files@),
            forall|j: int|
                0 <= j < i ==> files_of(
                    #[trigger] shown@[j + 1],
                    remote_files@[j].0,
                    "Remote Files on "@ + hex(remote_files@[j].0.bytes@),
                    remote_files@[j].1@,
                ),
        decreases remote_files@.len() - i,
    {
        let node_id = remote_files[i].0;
        let name = to_hex(node_id.bytes.as_slice());
        shown.push(
            NodeFiles {
                node_id,
                label: put_together("Remote Files on ", name.as_str()),
                children: build_tree(&remote_files[i].1),
            },
        );
        i = i + 1;
    }
    shown
}

/// At most one tree is the first with a path.
proof fn first_at_is_unique(trees: Seq<Tree>, path: Seq<char>, i: int)
    requires
        first_at(trees, path, i),
    ensures
        (choose|j: int| first_at(trees, path, j)) == i,
{
    let j = choose|j: int| first_at(trees, path, j);
    assert(first_at(trees, path, j));
    if j < i {
        assert(trees[j].path != path);
    } else if i < j {
        assert(trees[i].path != path);
    }
}

/// Whether no two items of a directory, or of one in it, have the same path.
pub open spec fn siblings_differ(trees: Seq<Tree>) -> bool
    decreases trees,
{
    if trees.len() == 0 {
        true
    } else {
        &&& siblings_differ(trees.drop_last())
        &&& siblings_differ(trees.last().children)
        &&& forall|i: int|
            0 <= i < trees.len() - 1 ==> (#[trigger] trees[i]).path != trees.last().path
    }
}

/// What it means for siblings to differ, item by item.
#[verifier::rlimit(40)]
proof fn siblings_differ_items(trees: Seq<Tree>)
    ensures
        siblings_differ(trees) <==> (forall|i: int|
            0 <= i < trees.len() ==> siblings_differ((#[trigger] trees[i]).children)) && (forall|
            i: int,
            j: int,
        |
            0 <= i < j < trees.len() ==> (#[trigger] trees[i]).path != (#[trigger] trees[j]).path),
    decreases trees.len(),
{
    if trees.len() > 0 {
        let rest = trees.drop_last();
        siblings_differ_items(rest);
        if siblings_differ(trees) {
            assert forall|i: int| 0 <= i < trees.len() implies siblings_differ(
                (#[trigger] trees[i]).children,
            ) by {
                if i < rest.len() {
                    assert(rest[i] == trees[i]);
                }
            }
            assert forall|i: int, j: int| 0 <= i < j < trees.len() implies (
            #[trigger] trees[i]).path != (#[trigger] trees[j]).path by {
                if j < rest.len() {
                    assert(rest[i] == trees[i] && rest[j] == trees[j]);
                }
            }
        }
        if (forall|i: int|
            0 <= i < trees.len() ==> siblings_differ((#[trigger] trees[i]).children)) && (forall|
            i: int,
            j: int,
        |
            0 <= i < j < trees.len() ==> (#[trigger] trees[i]).path != (#[trigger] trees[j]).path) {
            assert forall|i: int| 0 <= i < rest.len() implies siblings_differ(
                (#[trigger] rest[i]).children,
            ) by {
                assert(rest[i] == trees[i]);
            }
            assert forall|i: int, j: int| 0 <= i < j < rest.len() implies (
            #[trigger] rest[i]).path != (#[trigger] rest[j]).path by {
                assert(rest[i] == trees[i] && rest[j] == trees[j]);
            }
            assert(trees.last() == trees[trees.len() - 1]);
        }
    }
}

/// Adding a file keeps the paths of siblings different.
pub proof fn inserting_keeps_siblings_different(
    trees: Seq<Tree>,
    path: Seq<char>,
    parts: Seq<Seq<char>>,
)
    requires
        siblings_differ(trees),
    ensures
        siblings_differ(inserted(trees, path, parts)),
    decreases parts.len(),
{
    if parts.len() > 0 {
        let here = extended(path, parts[0]);
        let rest = parts.drop_first();
        let after = inserted(trees, path, parts);
        siblings_differ_items(trees);
        if has_path(trees, here) {
            let i = choose|i: int| first_at(trees, here, i);
            inserting_keeps_siblings_different(trees[i].children, here, rest);
        } else {
            inserting_keeps_siblings_different(Seq::empty(), here, rest);
            assert forall|i: int| 0 <= i < trees.len() implies (#[trigger] trees[i]).path
                != here by {
                if trees[i].path == here {
                    let first = first_of_path(trees, here, i);
                }
            }
        }
        siblings_differ_items(after);
    }
}

/// A path that occurs occurs first somewhere.
proof fn first_of_path(trees: Seq<Tree>, path: Seq<char>, i: int) -> (first: int)
    requires
        0 <= i < trees.len(),
        trees[i].path == path,
    ensures
        first_at(trees, path, first),
    decreases i,
{
    if exists|j: int| 0 <= j < i && (#[trigger] trees[j]).path == path {
        let j = choose|j: int| 0 <= j < i && (#[trigger] trees[j]).path == path;
        first_of_path(trees, path, j)
    } else {
        i
    }
}

/// In the tree of any files, no two siblings have the same path.
pub proof fn tree_siblings_differ(roots: Seq<(String, Vec<String>)>)
    ensures
        siblings_differ(files_under(roots)),
    decreases roots.len(),
{
    if roots.len() > 0 {
        tree_siblings_differ(roots.drop_last());
        files_keep_siblings_different(
            files_under(roots.drop_last()),
            roots.last().0@,
            texts(roots.last().1@),
        );
    }
}

proof fn files_keep_siblings_different(
    trees: Seq<Tree>,
    root: Seq<char>,
    files: Seq<Seq<char>>,
)
    requires
        siblings_differ(trees),
    ensures
        siblings_differ(with_files(trees, root, files)),
    decreases files.len(),
{
    if files.len() > 0 {
        files_keep_siblings_different(trees, root, files.drop_last());
        inserting_keeps_siblings_different(
            with_files(trees, root, files.drop_last()),
            Seq::empty(),
            parts_of(root, files.last()),
        );
    }
}

/// Whether a file is in the tree: the parts of its path lead to it.
pub open spec fn present(trees: Seq<Tree>, path: Seq<char>, parts: Seq<Seq<char>>) -> bool
    decreases parts.len(),
{
    if parts.len() == 0 {
        true
    } else {
        let here = extended(path, parts[0]);
        exists|i: int| #[trigger]
            first_at(trees, here, i) && present(trees[i].children, here, parts.drop_first())
    }
}

/// A file that was added is in the tree.
pub proof fn inserted_is_present(trees: Seq<Tree>, path: Seq<char>, parts: Seq<Seq<char>>)
    ensures
        present(inserted(trees, path, parts), path, parts),
    decreases parts.len(),
{
    if parts.len() > 0 {
        let here = extended(path, parts[0]);
        let rest = parts.drop_first();
        let after = inserted(trees, path, parts);
        if has_path(trees, here) {
            let i = choose|i: int| first_at(trees, here, i);
            inserted_is_present(trees[i].children, here, rest);
            assert(first_at(after, here, i)) by {
                assert forall|j: int| 0 <= j < i implies (#[trigger] after[j]).path != here by {
                    assert(trees[j].path != here);
                }
            }
        } else {
            inserted_is_present(Seq::empty(), here, rest);
            let n = trees.len() as int;
            assert(first_at(after, here, n)) by {
                assert forall|j: int| 0 <= j < n implies (#[trigger] after[j]).path != here by {
                    if trees[j].path == here {
                        let first = first_of_path(trees, here, j);
                    }
                }
            }
        }
    }
}

/// Adding a file again changes nothing.
pub proof fn inserting_present_changes_nothing(
    trees: Seq<Tree>,
    path: Seq<char>,
    parts: Seq<Seq<char>>,
)
    requires
        present(trees, path, parts),
    ensures
        inserted(trees, path, parts) == trees,
    decreases parts.len(),
{
    if parts.len() > 0 {
        let here = extended(path, parts[0]);
        let rest = parts.drop_first();
        let i = choose|i: int| #[trigger]
            first_at(trees, here, i) && present(trees[i].children, here, rest);
        first_at_is_unique(trees, here, i);
        inserting_present_changes_nothing(trees[i].children, here, rest);
        assert(inserted(trees, path, parts) =~= trees);
    }
}

/// Adding a file keeps every other file in the tree.
pub proof fn inserting_keeps_present(
    trees: Seq<Tree>,
    path: Seq<char>,
    parts: Seq<Seq<char>>,
    other: Seq<Seq<char>>,
)
    requires
        present(trees, path, other),
    ensures
        present(inserted(trees, path, parts), path, other),
    decreases parts.len(),
{
    if parts.len() > 0 && other.len() > 0 {
        let after = inserted(trees, path, parts);
        let there = extended(path, other[0]);
        let here = extended(path, parts[0]);
        let rest = other.drop_first();
        let k = choose|k: int| #[trigger]
            first_at(trees, there, k) && present(trees[k].children, there, rest);
        if has_path(trees, here) {
            let i = choose|i: int| first_at(trees, here, i);
            if i == k {
                inserting_keeps_present(trees[k].children, there, parts.drop_first(), rest);
            }
        }
        assert(first_at(after, there, k)) by {
            assert forall|j: int| 0 <= j < k implies (#[trigger] after[j]).path != there by {
                assert(trees[j].path != there);
            }
        }
    }
}

/// Every file is in the tree.
pub proof fn every_file_is_present(roots: Seq<(String, Vec<String>)>, r: int, f: int)
    requires
        0 <= r < roots.len(),
        0 <= f < roots[r].1@.len(),
    ensures
        present(files_under(roots), Seq::empty(), parts_of(roots[r].0@, roots[r].1@[f]@)),
    decreases roots.len(),
{
    let last = roots.last();
    let before = files_under(roots.drop_last());
    if r == roots.len() - 1 {
        file_is_present(before, last.0@, texts(last.1@), f);
    } else {
        every_file_is_present(roots.drop_last(), r, f);
        files_keep_present(
            before,
            last.0@,
            texts(last.1@),
            parts_of(roots[r].0@, roots[r].1@[f]@),
        );
    }
}

proof fn file_is_present(trees: Seq<Tree>, root: Seq<char>, files: Seq<Seq<char>>, f: int)
    requires
        0 <= f < files.len(),
    ensures
        present(with_files(trees, root, files), Seq::empty(), parts_of(root, files[f])),
    decreases files.len(),
{
    let before = with_files(trees, root, files.drop_last());
    if f == files.len() - 1 {
        inserted_is_present(before, Seq::empty(), parts_of(root, files.last()));
    } else {
        file_is_present(trees, root, files.drop_last(), f);
        inserting_keeps_present(
            before,
            Seq::empty(),
            parts_of(root, files.last()),
            parts_of(root, files[f]),
        );
    }
}

proof fn files_keep_present(
    trees: Seq<Tree>,
    root: Seq<char>,
    files: Seq<Seq<char>>,
    other: Seq<Seq<char>>,
)
    requires
        present(trees, Seq::empty(), other),
    ensures
        present(with_files(trees, root, files), Seq::empty(), other),
    decreases files.len(),
{
    if files.len() > 0 {
        files_keep_present(trees, root, files.drop_last(), other);
        inserting_keeps_present(
            with_files(trees, root, files.drop_last()),
            Seq::empty(),
            parts_of(root, files.last()),
            other,
        );
    }
}

/// The path of a part is the part itself where nothing is before it, and else
/// comes behind what is before it and a slash. Different parts have different
/// paths.
pub proof fn paths_are_parts_with_slashes(path: Seq<char>, a: Seq<char>, b: Seq<char>)
    ensures
        path.len() == 0 ==> extended(path, a) == a,
        path.len() > 0 ==> extended(path, a) == path + seq!['/'] + a,
        extended(path, a) == extended(path, b) ==> a == b,
{
    assert(path.push('/') =~= path + seq!['/']);
    if path.len() > 0 && extended(path, a) == extended(path, b) {
        let n = path.len() + 1;
        assert(extended(path, a).skip(n as int) =~= a);
        assert(extended(path, b).skip(n as int) =~= b);
    }
}

/// The parts of a file are its root and the names in its path.
pub proof fn parts_are_root_and_names(root: Seq<char>, file: Seq<char>)
    ensures
        parts_of(root, file).len() > 0,
        parts_of(root, file)[0] == root,
        parts_of(root, file).skip(1) == pieces(file, Separator::Slash),
{
    assert(parts_of(root, file).skip(1) =~= pieces(file, Separator::Slash));
}

/// The value of a directory or a file holds what it holds, at all depths.
pub proof fn trees_show_what_nodes_hold(node: TreeNode)
    ensures
        tree_of(node).path == node.path@,
        tree_of(node).label == node.label@,
        tree_of(node).is_leaf == node.is_leaf,
        tree_of(node).children.len() == node.children@.len(),
        forall|i: int|
            0 <= i < node.children@.len() ==> #[trigger] tree_of(node).children[i] == tree_of(
                node.children@[i],
            ),
{
    trees_of_items(node.children@);
}

/// Whether the path of each item of a directory, or of one in it, is its label
/// behind the path of the directory that it is in.
pub open spec fn well_labelled(trees: Seq<Tree>, path: Seq<char>) -> bool
    decreases trees,
{
    forall|i: int|
        0 <= i < trees.len() ==> {
            &&& (#[trigger] trees[i]).path == if path.len() == 0 {
                trees[i].label
            } else {
                path + seq!['/'] + trees[i].label
            }
            &&& well_labelled(trees[i].children, trees[i].path)
        }
}

/// Whether every item of a directory, or of one in it, lies on the way to a
/// file, those that are marked as files are files, and all others hold
/// something.
pub open spec fn made_of(
    trees: Seq<Tree>,
    before: Seq<Seq<char>>,
    files: Set<Seq<Seq<char>>>,
) -> bool
    decreases trees,
{
    forall|i: int|
        0 <= i < trees.len() ==> {
            let way = before.push((#[trigger] trees[i]).label);
            &&& exists|file: Seq<Seq<char>>| #[trigger]
                files.contains(file) && way.is_prefix_of(file)
            &&& trees[i].is_leaf ==> files.contains(way)
            &&& !trees[i].is_leaf ==> trees[i].children.len() > 0
            &&& made_of(trees[i].children, way, files)
        }
}

/// Whether a directory holds what it held, in the same places, and maybe more
/// behind it, at all depths.
pub open spec fn grown(before: Seq<Tree>, after: Seq<Tree>) -> bool
    decreases before,
{
    &&& before.len() <= after.len()
    &&& forall|i: int|
        0 <= i < before.len() ==> {
            &&& (#[trigger] before[i]).path == after[i].path
            &&& before[i].label == after[i].label
            &&& before[i].is_leaf == after[i].is_leaf
            &&& grown(before[i].children, after[i].children)
        }
}

/// Whether the parts of a file are the labels on a way through the tree.
pub open spec fn labelled_way(trees: Seq<Tree>, parts: Seq<Seq<char>>) -> bool
    decreases parts.len(),
{
    parts.len() > 0 ==> exists|i: int|
        {
            &&& 0 <= i < trees.len()
            &&& (#[trigger] trees[i]).label == parts[0]
            &&& labelled_way(trees[i].children, parts.drop_first())
        }
}

/// Whether parts are those of a file under a root.
pub open spec fn is_file(roots: Seq<(String, Vec<String>)>, parts: Seq<Seq<char>>) -> bool {
    exists|r: int, f: int|
        {
            &&& 0 <= r < roots.len()
            &&& 0 <= f < (#[trigger] roots[r]).1@.len()
            &&& parts == seq![roots[r].0@] + pieces(#[trigger] roots[r].1@[f]@, Separator::Slash)
        }
}

/// Adding a file keeps the labels right.
pub proof fn inserting_keeps_labels(trees: Seq<Tree>, path: Seq<char>, parts: Seq<Seq<char>>)
    requires
        well_labelled(trees, path),
    ensures
        well_labelled(inserted(trees, path, parts), path),
    decreases parts.len(),
{
    if parts.len() > 0 {
        let here = extended(path, parts[0]);
        let rest = parts.drop_first();
        paths_are_parts_with_slashes(path, parts[0], parts[0]);
        if has_path(trees, here) {
            let i = choose|i: int| first_at(trees, here, i);
            inserting_keeps_labels(trees[i].children, here, rest);
        } else {
            inserting_keeps_labels(Seq::empty(), here, rest);
        }
    }
}

proof fn files_keep_labels(trees: Seq<Tree>, root: Seq<char>, files: Seq<Seq<char>>)
    requires
        well_labelled(trees, Seq::empty()),
    ensures
        well_labelled(with_files(trees, root, files), Seq::empty()),
    decreases files.len(),
{
    if files.len() > 0 {
        files_keep_labels(trees, root, files.drop_last());
        inserting_keeps_labels(
            with_files(trees, root, files.drop_last()),
            Seq::empty(),
            parts_of(root, files.last()),
        );
    }
}

/// In the tree of any files, the path of each item is its label behind the path
/// of the directory that it is in.
pub proof fn tree_is_well_labelled(roots: Seq<(String, Vec<String>)>)
    ensures
        well_labelled(files_under(roots), Seq::empty()),
    decreases roots.len(),
{
    if roots.len() > 0 {
        tree_is_well_labelled(roots.drop_last());
        files_keep_labels(
            files_under(roots.drop_last()),
            roots.last().0@,
            texts(roots.last().1@),
        );
    }
}

proof fn present_is_labelled(trees: Seq<Tree>, path: Seq<char>, parts: Seq<Seq<char>>)
    requires
        present(trees, path, parts),
        well_labelled(trees, path),
    ensures
        labelled_way(trees, parts),
    decreases parts.len(),
{
    if parts.len() > 0 {
        let here = extended(path, parts[0]);
        let rest = parts.drop_first();
        let i = choose|i: int| #[trigger]
            first_at(trees, here, i) && present(trees[i].children, here, rest);
        paths_are_parts_with_slashes(path, trees[i].label, parts[0]);
        present_is_labelled(trees[i].children, here, rest);
    }
}

/// Every file is in the tree, under labels that are the parts of its path: the
/// item that they lead to has the last of them.
pub proof fn every_file_is_labelled(roots: Seq<(String, Vec<String>)>, parts: Seq<Seq<char>>)
    requires
        is_file(roots, parts),
    ensures
        labelled_way(files_under(roots), parts),
{
    let (r, f) = choose|r: int, f: int|
        {
            &&& 0 <= r < roots.len()
            &&& 0 <= f < (#[trigger] roots[r]).1@.len()
            &&& parts == seq![roots[r].0@] + pieces(#[trigger] roots[r].1@[f]@, Separator::Slash)
        };
    every_file_is_present(roots, r, f);
    tree_is_well_labelled(roots);
    present_is_labelled(files_under(roots), Seq::empty(), parts);
}

/// Adding a file takes nothing away, moves nothing and renames nothing. Beside
/// what a directory holds there is at most one thing more.
pub proof fn inserting_only_adds(trees: Seq<Tree>, path: Seq<char>, parts: Seq<Seq<char>>)
    ensures
        grown(trees, inserted(trees, path, parts)),
        inserted(trees, path, parts).len() <= trees.len() + 1,
        parts.len() > 0 ==> inserted(trees, path, parts).len() > 0,
    decreases parts.len(),
{
    unchanged_is_grown(trees);
    if parts.len() > 0 {
        let here = extended(path, parts[0]);
        let rest = parts.drop_first();
        if has_path(trees, here) {
            let i = choose|i: int| first_at(trees, here, i);
            inserting_only_adds(trees[i].children, here, rest);
        }
    }
}

proof fn unchanged_is_grown(trees: Seq<Tree>)
    ensures
        grown(trees, trees),
    decreases trees,
{
    assert forall|i: int| 0 <= i < trees.len() implies grown(
        (#[trigger] trees[i]).children,
        trees[i].children,
    ) by {
        unchanged_is_grown(trees[i].children);
    }
}

/// Adding a file adds items on its way, and nothing else.
pub proof fn inserting_makes_nothing_up(
    trees: Seq<Tree>,
    path: Seq<char>,
    parts: Seq<Seq<char>>,
    before: Seq<Seq<char>>,
    files: Set<Seq<Seq<char>>>,
)
    requires
        well_labelled(trees, path),
        made_of(trees, before, files),
        files.contains(before + parts),
    ensures
        made_of(inserted(trees, path, parts), before, files),
    decreases parts.len(),
{
    if parts.len() > 0 {
        let here = extended(path, parts[0]);
        let rest = parts.drop_first();
        let way = before.push(parts[0]);
        assert(way + rest =~= before + parts);
        assert(way.is_prefix_of(before + parts));
        if has_path(trees, here) {
            let i = choose|i: int| first_at(trees, here, i);
            paths_are_parts_with_slashes(path, trees[i].label, parts[0]);
            inserting_makes_nothing_up(trees[i].children, here, rest, way, files);
            inserting_only_adds(trees[i].children, here, rest);
        } else {
            inserting_makes_nothing_up(Seq::empty(), here, rest, way, files);
            inserting_only_adds(Seq::empty(), here, rest);
            if rest.len() == 0 {
                assert(way =~= before + parts);
            }
        }
    }
}

proof fn files_make_nothing_up(
    trees: Seq<Tree>,
    root: Seq<char>,
    added: Seq<Seq<char>>,
    files: Set<Seq<Seq<char>>>,
)
    requires
        well_labelled(trees, Seq::empty()),
        made_of(trees, Seq::empty(), files),
        forall|f: int|
            0 <= f < added.len() ==> files.contains(parts_of(root, #[trigger] added[f])),
    ensures
        made_of(with_files(trees, root, added), Seq::empty(), files),
    decreases added.len(),
{
    if added.len() > 0 {
        let rest = added.drop_last();
        assert forall|f: int| 0 <= f < rest.len() implies files.contains(
            parts_of(root, #[trigger] rest[f]),
        ) by {
            assert(rest[f] == added[f]);
        }
        files_make_nothing_up(trees, root, rest, files);
        files_keep_labels(trees, root, rest);
        let parts = parts_of(root, added.last());
        assert(added.last() == added[added.len() - 1]);
        assert(Seq::<Seq<char>>::empty() + parts =~= parts);
        inserting_makes_nothing_up(
            with_files(trees, root, rest),
            Seq::empty(),
            parts,
            Seq::empty(),
            files,
        );
    }
}

proof fn roots_make_nothing_up(
    roots: Seq<(String, Vec<String>)>,
    files: Set<Seq<Seq<char>>>,
)
    requires
        forall|parts: Seq<Seq<char>>| #[trigger] is_file(roots, parts) ==> files.contains(parts),
    ensures
        made_of(files_under(roots), Seq::empty(), files),
    decreases roots.len(),
{
    if roots.len() > 0 {
        let rest = roots.drop_last();
        assert forall|parts: Seq<Seq<char>>| #[trigger] is_file(rest, parts) implies files.contains(
            parts,
        ) by {
            let (r, f) = choose|r: int, f: int|
                {
                    &&& 0 <= r < rest.len()
                    &&& 0 <= f < (#[trigger] rest[r]).1@.len()
                    &&& parts == seq![rest[r].0@] + pieces(
                        #[trigger] rest[r].1@[f]@,
                        Separator::Slash,
                    )
                };
            assert(roots[r] == rest[r]);
            assert(parts == seq![roots[r].0@] + pieces(roots[r].1@[f]@, Separator::Slash));
            assert(is_file(roots, parts));
        }
        roots_make_nothing_up(rest, files);
        tree_is_well_labelled(rest);
        let last = roots.len() - 1;
        let added = texts(roots.last().1@);
        assert forall|f: int| 0 <= f < added.len() implies files.contains(
            parts_of(roots.last().0@, #[trigger] added[f]),
        ) by {
            let parts = parts_of(roots.last().0@, added[f]);
            assert(parts == seq![roots[last].0@] + pieces(roots[last].1@[f]@, Separator::Slash));
            assert(is_file(roots, parts));
        }
        files_make_nothing_up(files_under(rest), roots.last().0@, added, files);
    }
}

/// The tree of files holds nothing but the files and the directories on the way
/// to them: the labels that lead to an item are the first parts of a file, and
/// all its parts where the item is marked as a file. What is not marked as one
/// holds something.
pub proof fn tree_makes_nothing_up(roots: Seq<(String, Vec<String>)>)
    ensures
        made_of(
            files_under(roots),
            Seq::empty(),
            Set::new(|parts: Seq<Seq<char>>| is_file(roots, parts)),
        ),
{
    roots_make_nothing_up(roots, Set::new(|parts: Seq<Seq<char>>| is_file(roots, parts)));
}

/// More files under a root, or more roots, only add to the tree.
pub proof fn more_files_only_add(trees: Seq<Tree>, root: Seq<char>, files: Seq<Seq<char>>)
    ensures
        grown(trees, with_files(trees, root, files)),
    decreases files.len(),
{
    unchanged_is_grown(trees);
    if files.len() > 0 {
        let before = with_files(trees, root, files.drop_last());
        more_files_only_add(trees, root, files.drop_last());
        inserting_only_adds(before, Seq::empty(), parts_of(root, files.last()));
        growing_adds_up(trees, before, with_files(trees, root, files));
    }
}

proof fn growing_adds_up(a: Seq<Tree>, b: Seq<Tree>, c: Seq<Tree>)
    requires
        grown(a, b),
        grown(b, c),
    ensures
        grown(a, c),
    decreases a,
{
    assert forall|i: int| 0 <= i < a.len() implies {
        &&& (#[trigger] a[i]).path == c[i].path
        &&& a[i].label == c[i].label
        &&& a[i].is_leaf == c[i].is_leaf
        &&& grown(a[i].children, c[i].children)
    } by {
        assert(b[i].path == c[i].path);
        growing_adds_up(a[i].children, b[i].children, c[i].children);
    }
}

/// The files that are shown for a node are those of the node, under their label.
pub proof fn files_are_shown_for_their_node(
    shown: NodeFiles,
    node_id: NodeId,
    label: Seq<char>,
    roots: Seq<(String, Vec<String>)>,
)
    requires
        files_of(shown, node_id, label, roots),
    ensures
        shown.node_id.bytes@ == node_id.bytes@,
        shown.label@ == label,
        well_labelled(trees_of(shown.children@), Seq::empty()),
        forall|parts: Seq<Seq<char>>| #[trigger]
            is_file(roots, parts) ==> labelled_way(trees_of(shown.children@), parts),
{
    tree_is_well_labelled(roots);
    assert forall|parts: Seq<Seq<char>>| #[trigger] is_file(roots, parts) implies labelled_way(
        trees_of(shown.children@),
        parts,
    ) by {
        every_file_is_labelled(roots, parts);
    }
}

} // verus!
