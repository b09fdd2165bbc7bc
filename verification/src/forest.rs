use crate::builder::build_tree;
use crate::nesting::{
    children_of, lemma_nested_links, lemma_rooted_links, levels_of, nested, well_linked,
};
use crate::node::{Node, NodeView, ParseError};
use crate::tokenizer::{parse_into_nodes, tokenize};
use vstd::prelude::*;

verus! {

/// A record together with the records nested under it.
#[derive(Debug, PartialEq, Eq)]
pub struct Tree {
    pub data: String,
    pub tag: String,
    pub pointer: String,
    pub level: i32,
    pub children: Vec<Tree>,
}

/// The mathematical content of a [`Tree`].
pub struct TreeView {
    pub data: Seq<char>,
    pub tag: Seq<char>,
    pub pointer: Seq<char>,
    pub level: int,
    pub children: Seq<TreeView>,
}

impl View for Tree {
    type V = TreeView;

    open spec fn view(&self) -> TreeView
        decreases self,
    {
        TreeView {
            data: self.data@,
            tag: self.tag@,
            pointer: self.pointer@,
            level: self.level as int,
            children: Seq::new(
                self.children@.len(),
                |k: int|
                    if 0 <= k < self.children@.len() {
                        self.children@[k]@
                    } else {
                        arbitrary()
                    },
            ),
        }
    }
}

impl DeepView for Tree {
    type V = TreeView;

    open spec fn deep_view(&self) -> TreeView {
        self@
    }
}

/// The tree below position `i` of a list of linked records: the record there,
/// with the tree below each of its children in place of the child's position.
/// Of a child that does not stand behind its record nothing is said.
pub open spec fn tree_at(nodes: Seq<NodeView>, i: int) -> TreeView
    decreases nodes.len() - i,
{
    let node = nodes[i];
    TreeView {
        data: node.data,
        tag: node.tag,
        pointer: node.pointer,
        level: node.level,
        children: Seq::new(
            node.children.len(),
            |k: int|
                if 0 <= i < node.children[k] < nodes.len() {
                    tree_at(nodes, node.children[k])
                } else {
                    arbitrary()
                },
        ),
    }
}

/// The trees below the given positions, in the order given.
pub open spec fn trees_at(nodes: Seq<NodeView>, tops: Seq<int>) -> Seq<TreeView> {
    Seq::new(tops.len(), |k: int| tree_at(nodes, tops[k]))
}

/// The forest of a document's records: the trees below the top-level records.
/// The root itself is no part of it.
pub open spec fn forest_of(records: Seq<NodeView>) -> Seq<TreeView> {
    trees_at(nested(records), children_of(levels_of(records), -1, records.len() as int))
}

/// The forest that a document stands for.
pub open spec fn document_forest(text: Seq<char>) -> Result<Seq<TreeView>, ParseError> {
    match tokenize(text) {
        Ok(records) => Ok(forest_of(records)),
        Err(e) => Err(e),
    }
}

/// What a forest result stands for.
pub open spec fn forest_view(r: Result<Vec<Tree>, ParseError>) -> Result<
    Seq<TreeView>,
    ParseError,
> {
    match r {
        Ok(trees) => Ok(trees.deep_view()),
        Err(e) => Err(e),
    }
}

/// Copies the record at position `i` together with everything nested under it.
pub fn subtree(nodes: &Vec<Node>, i: usize) -> (tree: Tree)
    requires
        well_linked(nodes.deep_view()),
        i < nodes.len(),
    ensures
        tree@ == tree_at(nodes.deep_view(), i as int),
    decreases nodes.len() - i,
{
    let ghost linked = nodes.deep_view();
    let node = &nodes[i];
    assert(linked[i as int] == node@);
    let mut children: Vec<Tree> = Vec::new();
    let mut k: usize = 0;
    while k < node.children.len()
        invariant
            k <= node.children.len(),
            i < nodes.len(),
            linked == nodes.deep_view(),
            linked[i as int] == node@,
            well_linked(linked),
            children.len() == k,
            forall|j: int|
                0 <= j < k ==> (#[trigger] children[j])@ == tree_at(linked, node@.children[j]),
        decreases node.children.len() - k,
    {
        let c = node.children[k];
        assert(node@.children[k as int] == c as int);
        assert(i < linked[i as int].children[k as int] < linked.len());
        let child = subtree(nodes, c);
        children.push(child);
        k += 1;
    }
    let tree = Tree {
        data: node.data.clone(),
        tag: node.tag.clone(),
        pointer: node.pointer.clone(),
        level: node.level,
        children,
    };
    proof {
        assert(node@.children.len() == node.children@.len());
        assert(tree@.children =~= tree_at(linked, i as int).children) by {
            assert forall|j: int| 0 <= j < tree@.children.len() implies tree@.children[j]
                == tree_at(linked, i as int).children[j] by {
                assert(tree.children@[j]@ == tree_at(linked, node@.children[j]));
                assert(i < linked[i as int].children[j] < linked.len());
            }
        }
    }
    tree
}

/// The forest under a root: one tree for each child of the root, in order.
/// Of the root itself nothing but its list of children is read.
pub fn forest(nodes: &Vec<Node>, root: &Node) -> (trees: Vec<Tree>)
    requires
        well_linked(nodes.deep_view()),
        forall|k: int| 0 <= k < root@.children.len() ==> 0 <= #[trigger] root@.children[k] < nodes.len(),
    ensures
        trees.deep_view() == trees_at(nodes.deep_view(), root@.children),
{
    let mut trees: Vec<Tree> = Vec::new();
    let mut k: usize = 0;
    while k < root.children.len()
        invariant
            k <= root.children.len(),
            well_linked(nodes.deep_view()),
            forall|j: int|
                0 <= j < root@.children.len() ==> 0 <= #[trigger] root@.children[j] < nodes.len(),
            trees.len() == k,
            forall|j: int|
                0 <= j < k ==> (#[trigger] trees[j])@ == tree_at(
                    nodes.deep_view(),
                    root@.children[j],
                ),
        decreases root.children.len() - k,
    {
        let c = root.children[k];
        assert(root@.children[k as int] == c as int);
        let tree = subtree(nodes, c);
        trees.push(tree);
        k += 1;
    }
    assert(trees.deep_view() =~= trees_at(nodes.deep_view(), root@.children));
    trees
}

/// Reads a document and nests its records: tokenizes the text, builds the
/// tree under a root at level -1, and hands out the forest under that root.
pub fn parse_to_forest(contents: String) -> (r: Result<Vec<Tree>, ParseError>)
    ensures
        forest_view(r) == document_forest(contents@),
{
    let mut all_nodes = match parse_into_nodes(contents) {
        Ok(nodes) => nodes,
        Err(e) => {
            return Err(e);
        },
    };
    proof {
        reveal_strlit("");
    }
    let mut dummy_root = Node::new(-1, "", "", "");
    let ghost records = all_nodes.deep_view();
    let ghost root = dummy_root@;
    assert forall|i: int| 0 <= i < all_nodes.len() implies all_nodes[i].level >= 0 by {
        assert(records[i].level == all_nodes[i]@.level);
    }
    build_tree(&mut all_nodes, &mut dummy_root);
    proof {
        lemma_nested_links(records);
        lemma_rooted_links(root, records);
    }
    Ok(forest(&all_nodes, &dummy_root))
}

} // verus!
