use vstd::prelude::*;
use vstd::string::StrSliceExecFns;

use crate::models::{FileMetadata, FileRecord};
use crate::utils::file_lister::sort_by_path;
use crate::utils::ranking::is_sorted_copy;

verus! {

/// The mathematical value of an [`ApiNode`].
pub struct TreeView {
    pub name: Seq<char>,
    pub children: Seq<TreeView>,
    pub size: Option<u64>,
}

/// A node of the tree that a visualization draws: a directory with its
/// children, or a file with its size.
#[derive(Debug)]
pub struct ApiNode {
    pub name: String,
    pub children: Vec<ApiNode>,
    /// For files, represents bytes
    pub size: Option<u64>,
}

/// The value of a node.
pub open spec fn node_view(node: ApiNode) -> TreeView
    decreases node, 1nat,
{
    TreeView { name: node.name@, children: nodes_view(node.children@), size: node.size }
}

/// The values of the nodes of a sequence.
pub open spec fn nodes_view(nodes: Seq<ApiNode>) -> Seq<TreeView>
    decreases nodes, 0nat,
{
    if nodes.len() == 0 {
        Seq::empty()
    } else {
        nodes_view(nodes.drop_last()).push(node_view(nodes.last()))
    }
}

/// The views of a sequence of nodes are the views of its nodes.
pub proof fn lemma_nodes_view(nodes: Seq<ApiNode>)
    ensures
        nodes_view(nodes).len() == nodes.len(),
        forall|k: int| 0 <= k < nodes.len() ==> #[trigger] nodes_view(nodes)[k] == node_view(nodes[k]),
    decreases nodes.len(),
{
    if nodes.len() > 0 {
        lemma_nodes_view(nodes.drop_last());
    }
}

/// Where the next slash at or after `from` stands, or the end of the path.
pub open spec fn piece_end(path: Seq<char>, from: int) -> int
    decreases path.len() - from,
{
    if 0 <= from < path.len() && path[from] != '/' {
        piece_end(path, from + 1)
    } else {
        from
    }
}

/// A piece ends within the path, after its start.
pub proof fn lemma_piece_end(path: Seq<char>, from: int)
    requires
        0 <= from <= path.len(),
    ensures
        from <= piece_end(path, from) <= path.len(),
        from < path.len() && path[from] != '/' ==> from < piece_end(path, from),
    decreases path.len() - from,
{
    if from < path.len() && path[from] != '/' {
        lemma_piece_end(path, from + 1);
    }
}

/// The pieces of the path from `from` on: what stands between slashes,
/// without the empty pieces.
pub open spec fn components_from(path: Seq<char>, from: int) -> Seq<Seq<char>>
    decreases path.len() - from,
{
    if from < 0 || from >= path.len() {
        Seq::empty()
    } else if path[from] == '/' {
        components_from(path, from + 1)
    } else {
        proof {
            lemma_piece_end(path, from);
        }
        seq![path.subrange(from, piece_end(path, from))] + components_from(
            path,
            piece_end(path, from),
        )
    }
}

/// The names that lead to a file: the pieces of its path between slashes.
pub open spec fn components_of(path: Seq<char>) -> Seq<Seq<char>> {
    components_from(path, 0)
}

/// The position of the first child with the given name.
pub open spec fn child_position(children: Seq<TreeView>, name: Seq<char>) -> Option<int>
    decreases children.len(),
{
    if children.len() == 0 {
        None
    } else {
        match child_position(children.drop_last(), name) {
            Some(i) => Some(i),
            None => if children.last().name == name {
                Some(children.len() - 1)
            } else {
                None
            },
        }
    }
}

/// The position of a child lies within the children and holds the name.
pub proof fn lemma_child_position(children: Seq<TreeView>, name: Seq<char>)
    ensures
        child_position(children, name) matches Some(i) ==> 0 <= i < children.len() && children[i].name
            == name,
    decreases children.len(),
{
    if children.len() > 0 {
        lemma_child_position(children.drop_last(), name);
    }
}

/// The tree with a file of `bytes` bytes put where `components` lead:
/// directories on the way are entered, or made where they are missing, and
/// the last name becomes a node with the size, or has its size set where the
/// node is there already.
pub open spec fn inserted(tree: TreeView, components: Seq<Seq<char>>, bytes: u64) -> TreeView
    decreases components.len(),
{
    if components.len() == 0 {
        tree
    } else {
        let name = components[0];
        let rest = components.drop_first();
        match child_position(tree.children, name) {
            Some(i) => {
                let child = tree.children[i];
                let below = if rest.len() == 0 {
                    TreeView { size: Some(bytes), ..child }
                } else {
                    inserted(child, rest, bytes)
                };
                TreeView { children: tree.children.update(i, below), ..tree }
            },
            None => {
                let below = if rest.len() == 0 {
                    TreeView { name, children: Seq::empty(), size: Some(bytes) }
                } else {
                    inserted(TreeView { name, children: Seq::empty(), size: None }, rest, bytes)
                };
                TreeView { children: tree.children.push(below), ..tree }
            },
        }
    }
}

/// The root of every tree: the directory `.` with nothing in it.
pub open spec fn empty_tree() -> TreeView {
    TreeView { name: "."@, children: Seq::empty(), size: None }
}

/// The tree of the given files, put in one after the other.
pub open spec fn tree_of(files: Seq<FileRecord>) -> TreeView
    decreases files.len(),
{
    if files.len() == 0 {
        empty_tree()
    } else {
        inserted(tree_of(files.drop_last()), components_of(files.last().path), files.last().bytes)
    }
}

/// Cuts a path into the names between its slashes.
pub fn split_path(path: &str) -> (components: Vec<String>)
    ensures
        components.deep_view() == components_of(path@),
{
    let length = path.unicode_len();
    let ghost text = path@;
    let mut components: Vec<String> = Vec::new();
    let mut i: usize = 0;
    assert(components.deep_view() + components_from(text, 0) =~= components_of(text));
    while i < length
        invariant
            i <= length,
            length == text.len(),
            text == path@,
            components.deep_view() + components_from(text, i as int) == components_of(text),
        decreases length - i,
    {
        if path.get_char(i) == '/' {
            i += 1;
        } else {
            let mut end = i + 1;
            proof {
                lemma_piece_end(text, i as int);
            }
            while end < length && path.get_char(end) != '/'
                invariant
                    i < end <= length,
                    length == text.len(),
                    text == path@,
                    piece_end(text, i as int) == piece_end(text, end as int),
                decreases length - end,
            {
                end += 1;
            }
            let ghost earlier = components.deep_view();
            let piece = path.substring_char(i, end);
            components.push(piece.to_owned());
            proof {
                assert(components.deep_view() =~= earlier.push(text.subrange(i as int, end as int)));
                assert(components.deep_view() + components_from(text, end as int) =~= earlier
                    + components_from(text, i as int));
            }
            i = end;
        }
    }
    assert(components_from(text, i as int) =~= Seq::<Seq<char>>::empty());
    assert(components.deep_view() + Seq::<Seq<char>>::empty() =~= components.deep_view());
    components
}

/// Finds the first child with the given name.
fn find_child(children: &Vec<ApiNode>, name: &String) -> (found: Option<usize>)
    ensures
        found is Some == child_position(nodes_view(children@), name@) is Some,
        found is Some ==> child_position(nodes_view(children@), name@) == Some(found->0 as int),
        found is Some ==> found->0 < children.len(),
{
    let ghost all = children@;
    let mut i: usize = 0;
    assert(all.take(0) =~= Seq::<ApiNode>::empty());
    while i < children.len()
        invariant
            i <= children.len(),
            all == children@,
            child_position(nodes_view(all.take(i as int)), name@) is None,
        decreases children.len() - i,
    {
        let ghost views = nodes_view(all.take(i as int + 1));
        proof {
            assert(all.take(i as int + 1).drop_last() =~= all.take(i as int));
            assert(all.take(i as int + 1).last() == children[i as int]);
            assert(views == nodes_view(all.take(i as int)).push(node_view(children[i as int])));
            assert(views.drop_last() =~= nodes_view(all.take(i as int)));
            assert(views.last().name == children[i as int].name@);
            lemma_nodes_view(all.take(i as int));
        }
        if children[i].name == *name {
            proof {
                assert(child_position(views, name@) == Some(i as int));
                lemma_same_prefix_position(all, i as int + 1, name@);
            }
            return Some(i);
        }
        assert(child_position(views, name@) is None);
        i += 1;
    }
    assert(all.take(i as int) =~= all);
    None
}

/// A child that is found among the first `k` nodes is found at the same
/// position among all.
proof fn lemma_same_prefix_position(nodes: Seq<ApiNode>, k: int, name: Seq<char>)
    requires
        0 <= k <= nodes.len(),
        child_position(nodes_view(nodes.take(k)), name) is Some,
    ensures
        child_position(nodes_view(nodes), name) == child_position(nodes_view(nodes.take(k)), name),
    decreases nodes.len() - k,
{
    if k < nodes.len() {
        let views = nodes_view(nodes.take(k + 1));
        assert(nodes.take(k + 1).drop_last() =~= nodes.take(k));
        assert(views == nodes_view(nodes.take(k)).push(node_view(nodes.take(k + 1).last())));
        assert(views.drop_last() =~= nodes_view(nodes.take(k)));
        assert(child_position(views, name) == child_position(nodes_view(nodes.take(k)), name));
        lemma_same_prefix_position(nodes, k + 1, name);
    } else {
        assert(nodes.take(k) =~= nodes);
    }
}

/// A directory on the way down to where a file is put: the node without
/// the child that the way goes through, and the place among its children
/// where that child belongs.
struct Frame {
    parent: ApiNode,
    index: usize,
}

/// The node `parent` with `child` put among its children at `index`.
spec fn with_child(parent: TreeView, index: int, child: TreeView) -> TreeView {
    TreeView { children: parent.children.insert(index, child), ..parent }
}

/// The tree that comes of putting `node` back under the directories on the
/// stack, the last of them first.
spec fn plugged(stack: Seq<Frame>, node: TreeView) -> TreeView
    decreases stack.len(),
{
    if stack.len() == 0 {
        node
    } else {
        plugged(
            stack.drop_last(),
            with_child(node_view(stack.last().parent), stack.last().index as int, node),
        )
    }
}

/// Whether each directory on the stack has room for its child at the place
/// that it names.
spec fn frames_fit(stack: Seq<Frame>) -> bool {
    forall|k: int|
        0 <= k < stack.len() ==> (#[trigger] stack[k]).index <= stack[k].parent.children.len()
}

/// Puts a file into the tree under `node`, along the given names. The way
/// down is kept on a stack of its own, so that a deep path costs memory
/// there and not depth of calls.
fn insert_into_tree(node: ApiNode, components: &Vec<String>, bytes: u64) -> (out: ApiNode)
    ensures
        node_view(out) == inserted(node_view(node), components.deep_view(), bytes),
{
    let ghost all = components.deep_view();
    let ghost goal = inserted(node_view(node), all, bytes);
    let mut stack: Vec<Frame> = Vec::new();
    let mut current = node;
    let mut depth: usize = 0;
    assert(all.skip(0) =~= all);
    while depth < components.len()
        invariant
            depth <= components.len(),
            all == components.deep_view(),
            frames_fit(stack@),
            goal == plugged(stack@, inserted(node_view(current), all.skip(depth as int), bytes)),
        decreases components.len() - depth,
    {
        let ghost names = all.skip(depth as int);
        let ghost rest = all.skip(depth as int + 1);
        let ghost here = node_view(current);
        let ghost below = stack@;
        let last = depth + 1 == components.len();
        proof {
            assert(names[0] == components[depth as int]@);
            assert(names.drop_first() =~= rest);
            lemma_nodes_view(current.children@);
            lemma_child_position(here.children, names[0]);
        }
        let ApiNode { name, mut children, size } = current;
        let ghost old_children = children@;
        match find_child(&children, &components[depth]) {
            Some(i) => {
                let child = children.remove(i);
                let next = if last {
                    ApiNode { name: child.name, children: child.children, size: Some(bytes) }
                } else {
                    child
                };
                let parent = ApiNode { name, children, size };
                proof {
                    let put = inserted(node_view(next), rest, bytes);
                    lemma_nodes_view(parent.children@);
                    assert(parent.children@ =~= old_children.remove(i as int));
                    assert(nodes_view(parent.children@).insert(i as int, put)
                        =~= here.children.update(i as int, put));
                    assert(inserted(here, names, bytes) == with_child(
                        node_view(parent),
                        i as int,
                        put,
                    ));
                }
                stack.push(Frame { parent, index: i });
                current = next;
            },
            None => {
                let fresh = ApiNode {
                    name: components[depth].clone(),
                    children: Vec::new(),
                    size: if last {
                        Some(bytes)
                    } else {
                        None
                    },
                };
                let index = children.len();
                let parent = ApiNode { name, children, size };
                proof {
                    let put = inserted(node_view(fresh), rest, bytes);
                    assert(node_view(fresh).children =~= Seq::<TreeView>::empty());
                    assert(here.children.insert(index as int, put) =~= here.children.push(put));
                    assert(inserted(here, names, bytes) == with_child(
                        node_view(parent),
                        index as int,
                        put,
                    ));
                }
                stack.push(Frame { parent, index });
                current = fresh;
            },
        }
        proof {
            assert(stack@.drop_last() =~= below);
        }
        depth += 1;
    }
    assert(all.skip(depth as int).len() == 0);
    while stack.len() > 0
        invariant
            frames_fit(stack@),
            goal == plugged(stack@, node_view(current)),
        decreases stack.len(),
    {
        let ghost above = stack@;
        let ghost held = node_view(current);
        let frame = stack.pop().unwrap();
        assert(frame == above.last());
        let Frame { parent, index } = frame;
        let ghost parent_view = node_view(parent);
        let ApiNode { name, mut children, size } = parent;
        proof {
            lemma_nodes_view(children@);
        }
        children.insert(index, current);
        current = ApiNode { name, children, size };
        proof {
            lemma_nodes_view(current.children@);
            assert(node_view(current).children =~= parent_view.children.insert(index as int, held));
            assert(node_view(current) == with_child(parent_view, index as int, held));
        }
    }
    current
}

/// Builds the tree of a set of files from their paths: the files are
/// sorted by path and put in one after the other under the root `.`.
pub fn build_file_tree(files: &[FileMetadata]) -> (tree: ApiNode)
    ensures
        exists|sorted: Seq<FileRecord>|
            is_sorted_copy(files.deep_view(), sorted) && node_view(tree) == tree_of(sorted),
{
    let sorted = sort_by_path(files);
    let ghost records = sorted.deep_view();
    let mut tree = ApiNode { name: ".".to_owned(), children: Vec::new(), size: None };
    let mut i: usize = 0;
    assert(records.take(0) =~= Seq::<FileRecord>::empty());
    while i < sorted.len()
        invariant
            i <= sorted.len(),
            records == sorted.deep_view(),
            node_view(tree) == tree_of(records.take(i as int)),
        decreases sorted.len() - i,
    {
        let components = split_path(sorted[i].path.as_str());
        proof {
            assert(records.take(i as int + 1).drop_last() =~= records.take(i as int));
            assert(records.take(i as int + 1).last() == sorted[i as int]@);
        }
        tree = insert_into_tree(tree, &components, sorted[i].bytes);
        i += 1;
    }
    assert(records.take(i as int) =~= records);
    tree
}

} // verus!
