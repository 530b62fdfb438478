//! The search tree is an `ego_tree::Tree`; these items state what its methods do.
use ego_tree::{NodeId, Tree};
use vstd::prelude::*;

use super::node::{MonteCarloNode, NodeModel};

verus! {

/// `ego_tree::Tree`, a tree whose nodes live in one vector; its contents are stated by
/// `tree_model` and `tree_root`.
#[verifier::external_type_specification]
#[verifier::external_body]
#[verifier::reject_recursive_types(T)]
pub struct ExTree<T>(Tree<T>);

/// `ego_tree::NodeId`, the index of a node in its tree.
#[verifier::external_type_specification]
#[verifier::external_body]
pub struct ExNodeId(NodeId);

/// What the tree holds at one node: its ancestors (parent first, root last), its
/// children (in the order they were appended) and its value.
pub struct TreeEntry {
    pub ancestors: Seq<NodeId>,
    pub children: Seq<NodeId>,
    pub node: NodeModel,
}

/// The contents of the tree, node by node.
pub uninterp spec fn tree_model(tree: Tree<MonteCarloNode>) -> Map<NodeId, TreeEntry>;

/// The id of the root of the tree.
pub uninterp spec fn tree_root(tree: Tree<MonteCarloNode>) -> NodeId;

/// `Tree::new` makes a tree of one node, the root, that holds `root`.
#[verifier::external_body]
pub(crate) fn tree_new(root: MonteCarloNode) -> (t: Tree<MonteCarloNode>)
    ensures
        tree_model(t) == map![tree_root(t) => TreeEntry {
            ancestors: Seq::empty(),
            children: Seq::empty(),
            node: root@,
        }],
{
    Tree::new(root)
}

/// `Tree::root` gives the root node; its id is the tree's root id.
#[verifier::external_body]
pub(crate) fn tree_root_id(t: &Tree<MonteCarloNode>) -> (r: NodeId)
    ensures
        r == tree_root(*t),
{
    t.root().id()
}

/// `NodeRef::value` of the node that `Tree::get` finds: the value held at the node.
#[verifier::external_body]
pub(crate) fn tree_value(t: &Tree<MonteCarloNode>, id: NodeId) -> (r: &MonteCarloNode)
    requires
        tree_model(*t).contains_key(id),
    ensures
        r@ == tree_model(*t)[id].node,
{
    t.get(id).unwrap().value()
}

/// `NodeRef::children` of the node: the ids of its children in order.
#[verifier::external_body]
pub(crate) fn tree_children(t: &Tree<MonteCarloNode>, id: NodeId) -> (r: Vec<NodeId>)
    requires
        tree_model(*t).contains_key(id),
    ensures
        r@ == tree_model(*t)[id].children,
{
    t.get(id).unwrap().children().map(|c| c.id()).collect()
}

/// `NodeRef::ancestors` of the node: the ids of its parent, grandparent, ..., root.
#[verifier::external_body]
pub(crate) fn tree_ancestors(t: &Tree<MonteCarloNode>, id: NodeId) -> (r: Vec<NodeId>)
    requires
        tree_model(*t).contains_key(id),
    ensures
        r@ == tree_model(*t)[id].ancestors,
{
    t.get(id).unwrap().ancestors().map(|a| a.id()).collect()
}

/// `NodeMut::append` adds a new node holding `value` as the last child of `id`; the new
/// node's ancestors are `id` followed by the ancestors of `id`; nothing else changes.
#[verifier::external_body]
pub(crate) fn tree_append(t: &mut Tree<MonteCarloNode>, id: NodeId, value: MonteCarloNode) -> (r: NodeId)
    requires
        tree_model(*old(t)).contains_key(id),
    ensures
        !tree_model(*old(t)).contains_key(r),
        tree_root(*final(t)) == tree_root(*old(t)),
        tree_model(*final(t)) == tree_model(*old(t)).insert(
            id,
            TreeEntry {
                children: tree_model(*old(t))[id].children.push(r),
                ..tree_model(*old(t))[id]
            },
        ).insert(
            r,
            TreeEntry {
                ancestors: seq![id] + tree_model(*old(t))[id].ancestors,
                children: Seq::empty(),
                node: value@,
            },
        ),
{
    t.get_mut(id).unwrap().append(value).id()
}

/// `NodeMut::value` gives the node's value to overwrite; only that value changes.
#[verifier::external_body]
pub(crate) fn tree_set_value(t: &mut Tree<MonteCarloNode>, id: NodeId, value: MonteCarloNode)
    requires
        tree_model(*old(t)).contains_key(id),
    ensures
        tree_root(*final(t)) == tree_root(*old(t)),
        tree_model(*final(t)) == tree_model(*old(t)).insert(
            id,
            TreeEntry { node: value@, ..tree_model(*old(t))[id] },
        ),
{
    *t.get_mut(id).unwrap().value() = value;
}

} // verus!
