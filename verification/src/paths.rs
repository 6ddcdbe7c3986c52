//! Where nodes stand in a tree.

use vstd::prelude::*;

use crate::syntax::Tree;

verus! {

/// Whether there is a node where a path leads. A path goes from a node to one of its
/// children at each step, by the place of the child.
pub open spec fn is_path(t: Tree, path: Seq<int>) -> bool
    decreases path.len(),
{
    path.len() == 0 || (0 <= path[0] < t.children.len() && is_path(
        t.children[path[0]],
        path.skip(1),
    ))
}

/// The node where a path leads.
pub open spec fn node_at(t: Tree, path: Seq<int>) -> Tree
    decreases path.len(),
{
    if path.len() == 0 {
        t
    } else {
        node_at(t.children[path[0]], path.skip(1))
    }
}

/// Whether two nodes are the same but for their children, of which they have as many,
/// and for the modifiers.
pub open spec fn same_but_flags(a: Tree, b: Tree) -> bool {
    &&& a.kind == b.kind
    &&& a.role == b.role
    &&& a.span == b.span
    &&& a.text == b.text
    &&& a.origin == b.origin
    &&& a.children.len() == b.children.len()
}

/// Whether two nodes are the same but for their children, of which they have as many.
pub open spec fn same_node(a: Tree, b: Tree) -> bool {
    same_but_flags(a, b) && a.flags == b.flags
}

/// The path that goes to a child first.
pub open spec fn below(i: int, path: Seq<int>) -> Seq<int> {
    seq![i] + path
}

pub broadcast proof fn lemma_below(i: int, path: Seq<int>)
    ensures
        (#[trigger] below(i, path)).len() == path.len() + 1,
        below(i, path)[0] == i,
        below(i, path).skip(1) == path,
{
    assert(below(i, path).skip(1) =~= path);
}

}
