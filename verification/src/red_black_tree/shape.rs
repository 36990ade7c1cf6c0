//! The shape of the arena: which links make it one binary tree, what its
//! in-order sequence is, and what a rotation does to both.

use crate::keyed::Keyed;
use crate::red_black_tree::{paired, Node, RedBlackOp, Rotation};
use vstd::prelude::*;

verus! {

/// Ghost bookkeeping that ties the links of the arena to the in-order
/// sequence. `order` lists the nodes in in-order; `pos` is its inverse; the
/// subtree of node `i` fills the positions from `lo[i]` up to, not
/// including, `hi[i]`; `bh[i]` counts the black nodes on any path from below
/// `i` down to an empty position.
pub struct Layout {
    pub order: Seq<int>,
    pub pos: Seq<int>,
    pub lo: Seq<int>,
    pub hi: Seq<int>,
    pub bh: Seq<nat>,
}

/// The link `link` leads to node `i`.
pub open spec fn leads_to(link: Option<usize>, i: int) -> bool {
    link is Some && link->0 as int == i
}

/// Node `i` agrees with its neighbours: each child names `i` as its parent
/// and fills the positions to the left or to the right of `i`; the parent
/// holds `i` in one of its slots; a node without parent is the root.
pub open spec fn link_ok<T>(a: Seq<Node<T>>, root: Option<usize>, g: Layout, i: int) -> bool {
    let n = a.len() as int;
    &&& 0 <= g.lo[i] <= g.pos[i] < g.hi[i] <= n
    &&& g.order[g.pos[i]] == i
    &&& match a[i].left {
        None => g.lo[i] == g.pos[i],
        Some(c) => c < n && leads_to(a[c as int].parent, i) && g.lo[c as int] == g.lo[i]
            && g.hi[c as int] == g.pos[i],
    }
    &&& match a[i].right {
        None => g.hi[i] == g.pos[i] + 1,
        Some(c) => c < n && leads_to(a[c as int].parent, i) && g.lo[c as int] == g.pos[i]
            + 1 && g.hi[c as int] == g.hi[i],
    }
    &&& match a[i].parent {
        None => leads_to(root, i),
        Some(p) => p < n && (leads_to(a[p as int].left, i) || leads_to(a[p as int].right, i)),
    }
}

/// The arena is one binary tree below `root`, and `g.order` is its in-order
/// sequence.
pub open spec fn shape_ok<T>(a: Seq<Node<T>>, root: Option<usize>, g: Layout) -> bool {
    let n = a.len() as int;
    &&& g.order.len() == n
    &&& g.pos.len() == n
    &&& g.lo.len() == n
    &&& g.hi.len() == n
    &&& g.bh.len() == n
    &&& forall|k: int| 0 <= k < n ==> 0 <= (#[trigger] g.order[k]) < n && g.pos[g.order[k]] == k
    &&& forall|i: int| 0 <= i < n ==> #[trigger] link_ok(a, root, g, i)
    &&& match root {
        None => n == 0,
        Some(r) => r < n && a[r as int].parent is None && g.lo[r as int] == 0 && g.hi[r as int]
            == n,
    }
}

/// The keys are in non-decreasing order along `order`.
pub open spec fn keys_sorted<T: Keyed>(a: Seq<Node<T>>, order: Seq<int>) -> bool {
    forall|j: int, k: int|
        0 <= j <= k < order.len() ==> a[#[trigger] order[j]].v.key() <= a[#[trigger] order[k]].v.key()
}

/// The side of `parent` on which `child` hangs: left if the left slot holds
/// it, right otherwise.
pub open spec fn slot_of<T>(a: Seq<Node<T>>, parent: usize, child: usize) -> RedBlackOp {
    if a[parent as int].left == Some(child) {
        RedBlackOp::LeftNode
    } else {
        RedBlackOp::RightNode
    }
}

/// What node `i` holds after a rotation of `node` in `direction`. The child
/// on the opposite side takes the place of `node` below the former parent of
/// `node`; `node` becomes that child's child on the `direction` side; the
/// child's former subtree on that side becomes the subtree of `node` on the
/// opposite side. Values and colors stay.
pub open spec fn rotated_node<T>(a: Seq<Node<T>>, node: usize, direction: Rotation, i: int) -> Node<T> {
    let up = direction.up_side();
    let down = direction.down_side();
    let child = a[node as int].child(up)->0;
    let grandchild = a[child as int].child(down);
    let parent = a[node as int].parent;
    if i == child {
        a[i].with_child(down, Some(node)).with_parent(parent)
    } else if i == node {
        a[i].with_child(up, grandchild).with_parent(Some(child))
    } else if leads_to(grandchild, i) {
        a[i].with_parent(Some(node))
    } else if leads_to(parent, i) {
        a[i].with_child(slot_of(a, parent->0, node), Some(child))
    } else {
        a[i]
    }
}

/// The arena after a rotation of `node` in `direction`.
pub open spec fn rotated<T>(a: Seq<Node<T>>, node: usize, direction: Rotation) -> Seq<Node<T>> {
    Seq::new(a.len(), |i: int| rotated_node(a, node, direction, i))
}

/// The root after a rotation of `node`: the child that moved up, if `node`
/// was the root.
pub open spec fn rotated_root<T>(
    a: Seq<Node<T>>,
    root: Option<usize>,
    node: usize,
    direction: Rotation,
) -> Option<usize> {
    if a[node as int].parent is None {
        a[node as int].child(direction.up_side())
    } else {
        root
    }
}

/// The bookkeeping after a rotation of `node`: the in-order sequence stays,
/// the child that moved up takes over the span of `node`, and `node` keeps
/// the part of it beyond that child.
pub open spec fn rotated_layout<T>(a: Seq<Node<T>>, g: Layout, node: usize, direction: Rotation) -> Layout {
    let child = a[node as int].child(direction.up_side())->0 as int;
    let n = node as int;
    match direction {
        Rotation::Right => Layout {
            lo: g.lo.update(n, g.pos[child] + 1),
            hi: g.hi.update(child, g.hi[n]),
            ..g
        },
        Rotation::Left => Layout {
            lo: g.lo.update(child, g.lo[n]),
            hi: g.hi.update(n, g.pos[child]),
            ..g
        },
    }
}

/// The nodes that a rotation touches are distinct.
pub proof fn lemma_rotation_nodes_distinct<T>(
    a: Seq<Node<T>>,
    root: Option<usize>,
    g: Layout,
    node: usize,
    direction: Rotation,
)
    requires
        shape_ok(a, root, g),
        node < a.len(),
        a[node as int].child(direction.up_side()) is Some,
    ensures
        ({
            let child = a[node as int].child(direction.up_side())->0;
            let grandchild = a[child as int].child(direction.down_side());
            let parent = a[node as int].parent;
            &&& child < a.len()
            &&& child != node
            &&& a[child as int].parent == Some(node)
            &&& grandchild != Some(node)
            &&& grandchild != Some(child)
            &&& parent != Some(node)
            &&& parent != Some(child)
            &&& (grandchild is Some ==> grandchild != parent && grandchild->0 < a.len() && a[grandchild->0 as int].parent == Some(child))
            &&& (parent is Some ==> parent->0 < a.len())
        }),
{
    let child = a[node as int].child(direction.up_side())->0;
    let grandchild = a[child as int].child(direction.down_side());
    let parent = a[node as int].parent;
    assert(link_ok(a, root, g, node as int));
    assert(link_ok(a, root, g, child as int));
    if grandchild is Some {
        assert(link_ok(a, root, g, grandchild->0 as int));
    }
    if parent is Some {
        assert(link_ok(a, root, g, parent->0 as int));
    }
}

/// A rotation is three pairings: the child above the node, the node above
/// the grandchild, and the former parent above the child.
#[verifier::rlimit(40)]
pub proof fn lemma_rotated_by_pairs<T>(
    a: Seq<Node<T>>,
    root: Option<usize>,
    g: Layout,
    node: usize,
    direction: Rotation,
)
    requires
        shape_ok(a, root, g),
        node < a.len(),
        a[node as int].child(direction.up_side()) is Some,
    ensures
        ({
            let child = a[node as int].child(direction.up_side());
            let grandchild = a[child->0 as int].child(direction.down_side());
            let parent = a[node as int].parent;
            let slot = match parent {
                Some(p) => slot_of(a, p, node),
                None => RedBlackOp::LeftNode,
            };
            let first = paired(a, child, Some(node), direction.down_side());
            let second = paired(first, Some(node), grandchild, direction.up_side());
            paired(second, parent, child, slot) == rotated(a, node, direction)
        }),
{
    let child = a[node as int].child(direction.up_side());
    let grandchild = a[child->0 as int].child(direction.down_side());
    let parent = a[node as int].parent;
    let slot = match parent {
        Some(p) => slot_of(a, p, node),
        None => RedBlackOp::LeftNode,
    };
    let first = paired(a, child, Some(node), direction.down_side());
    let second = paired(first, Some(node), grandchild, direction.up_side());
    let third = paired(second, parent, child, slot);
    lemma_rotation_nodes_distinct(a, root, g, node, direction);
    assert(link_ok(a, root, g, node as int));
    assert(first.len() == a.len());
    assert(second.len() == a.len());
    assert(third.len() == a.len());
    assert forall|i: int| 0 <= i < a.len() implies third[i] == rotated_node(
        a,
        node,
        direction,
        i,
    ) by {
        let c = child->0 as int;
        if i == c {
            assert(first[c] == a[c].with_child(direction.down_side(), Some(node)));
            assert(second[c] == first[c]);
            assert(third[c] == second[c].with_parent(parent));
        } else if i == node {
            assert(first[i] == a[i].with_parent(child));
            assert(second[i] == first[i].with_child(direction.up_side(), grandchild));
            assert(third[i] == second[i]);
        } else if leads_to(grandchild, i) {
            assert(first[i] == a[i]);
            assert(second[i] == first[i].with_parent(Some(node)));
            assert(third[i] == second[i]);
        } else if leads_to(parent, i) {
            assert(first[i] == a[i]);
            assert(second[i] == first[i]);
            assert(third[i] == second[i].with_child(slot, child));
        } else {
            assert(first[i] == a[i]);
            assert(second[i] == first[i]);
            assert(third[i] == second[i]);
        }
    }
    assert(third =~= rotated(a, node, direction));
}

/// After a rotation, the node that moved up agrees with its neighbours.
#[verifier::rlimit(40)]
proof fn lemma_rotation_link_child<T>(
    a: Seq<Node<T>>,
    root: Option<usize>,
    g: Layout,
    node: usize,
    direction: Rotation,
    i: int,
)
    requires
        shape_ok(a, root, g),
        node < a.len(),
        a[node as int].child(direction.up_side()) is Some,
        0 <= i < a.len(),
        i == a[node as int].child(direction.up_side())->0,
    ensures
        link_ok(
            rotated(a, node, direction),
            rotated_root(a, root, node, direction),
            rotated_layout(a, g, node, direction),
            i,
        ),
{
    let child = a[node as int].child(direction.up_side())->0;
    let grandchild = a[child as int].child(direction.down_side());
    let parent = a[node as int].parent;
    lemma_rotation_nodes_distinct(a, root, g, node, direction);
    assert(link_ok(a, root, g, node as int));
    assert(link_ok(a, root, g, child as int));
    if grandchild is Some {
        assert(link_ok(a, root, g, grandchild->0 as int));
    }
    if parent is Some {
        assert(link_ok(a, root, g, parent->0 as int));
    }
    assert(link_ok(a, root, g, i));
    if a[i].left is Some {
        assert(link_ok(a, root, g, a[i].left->0 as int));
    }
    if a[i].right is Some {
        assert(link_ok(a, root, g, a[i].right->0 as int));
    }
    if a[i].parent is Some {
        assert(link_ok(a, root, g, a[i].parent->0 as int));
    }
}

/// After a rotation, the rotated node agrees with its neighbours.
#[verifier::rlimit(40)]
proof fn lemma_rotation_link_node<T>(
    a: Seq<Node<T>>,
    root: Option<usize>,
    g: Layout,
    node: usize,
    direction: Rotation,
    i: int,
)
    requires
        shape_ok(a, root, g),
        node < a.len(),
        a[node as int].child(direction.up_side()) is Some,
        0 <= i < a.len(),
        i == node,
    ensures
        link_ok(
            rotated(a, node, direction),
            rotated_root(a, root, node, direction),
            rotated_layout(a, g, node, direction),
            i,
        ),
{
    let child = a[node as int].child(direction.up_side())->0;
    let grandchild = a[child as int].child(direction.down_side());
    let parent = a[node as int].parent;
    lemma_rotation_nodes_distinct(a, root, g, node, direction);
    assert(link_ok(a, root, g, node as int));
    assert(link_ok(a, root, g, child as int));
    if grandchild is Some {
        assert(link_ok(a, root, g, grandchild->0 as int));
    }
    if parent is Some {
        assert(link_ok(a, root, g, parent->0 as int));
    }
    assert(link_ok(a, root, g, i));
    if a[i].left is Some {
        assert(link_ok(a, root, g, a[i].left->0 as int));
    }
    if a[i].right is Some {
        assert(link_ok(a, root, g, a[i].right->0 as int));
    }
    if a[i].parent is Some {
        assert(link_ok(a, root, g, a[i].parent->0 as int));
    }
}

/// After a rotation, the subtree that changed sides agrees with its neighbours.
#[verifier::rlimit(40)]
proof fn lemma_rotation_link_grandchild<T>(
    a: Seq<Node<T>>,
    root: Option<usize>,
    g: Layout,
    node: usize,
    direction: Rotation,
    i: int,
)
    requires
        shape_ok(a, root, g),
        node < a.len(),
        a[node as int].child(direction.up_side()) is Some,
        0 <= i < a.len(),
        leads_to(a[a[node as int].child(direction.up_side())->0 as int].child(direction.down_side()), i),
    ensures
        link_ok(
            rotated(a, node, direction),
            rotated_root(a, root, node, direction),
            rotated_layout(a, g, node, direction),
            i,
        ),
{
    let child = a[node as int].child(direction.up_side())->0;
    let grandchild = a[child as int].child(direction.down_side());
    let parent = a[node as int].parent;
    lemma_rotation_nodes_distinct(a, root, g, node, direction);
    assert(link_ok(a, root, g, node as int));
    assert(link_ok(a, root, g, child as int));
    if grandchild is Some {
        assert(link_ok(a, root, g, grandchild->0 as int));
    }
    if parent is Some {
        assert(link_ok(a, root, g, parent->0 as int));
    }
    assert(link_ok(a, root, g, i));
    if a[i].left is Some {
        assert(link_ok(a, root, g, a[i].left->0 as int));
    }
    if a[i].right is Some {
        assert(link_ok(a, root, g, a[i].right->0 as int));
    }
    if a[i].parent is Some {
        assert(link_ok(a, root, g, a[i].parent->0 as int));
    }
}

/// After a rotation, the former parent of the rotated node agrees with its neighbours.
#[verifier::rlimit(40)]
proof fn lemma_rotation_link_parent<T>(
    a: Seq<Node<T>>,
    root: Option<usize>,
    g: Layout,
    node: usize,
    direction: Rotation,
    i: int,
)
    requires
        shape_ok(a, root, g),
        node < a.len(),
        a[node as int].child(direction.up_side()) is Some,
        0 <= i < a.len(),
        leads_to(a[node as int].parent, i),
    ensures
        link_ok(
            rotated(a, node, direction),
            rotated_root(a, root, node, direction),
            rotated_layout(a, g, node, direction),
            i,
        ),
{
    let child = a[node as int].child(direction.up_side())->0;
    let grandchild = a[child as int].child(direction.down_side());
    let parent = a[node as int].parent;
    lemma_rotation_nodes_distinct(a, root, g, node, direction);
    assert(link_ok(a, root, g, node as int));
    assert(link_ok(a, root, g, child as int));
    if grandchild is Some {
        assert(link_ok(a, root, g, grandchild->0 as int));
    }
    if parent is Some {
        assert(link_ok(a, root, g, parent->0 as int));
    }
    assert(link_ok(a, root, g, i));
    if a[i].left is Some {
        assert(link_ok(a, root, g, a[i].left->0 as int));
    }
    if a[i].right is Some {
        assert(link_ok(a, root, g, a[i].right->0 as int));
    }
    if a[i].parent is Some {
        assert(link_ok(a, root, g, a[i].parent->0 as int));
    }
}

/// After a rotation, a node away from it still agrees with its neighbours.
#[verifier::rlimit(40)]
proof fn lemma_rotation_link_other<T>(
    a: Seq<Node<T>>,
    root: Option<usize>,
    g: Layout,
    node: usize,
    direction: Rotation,
    i: int,
)
    requires
        shape_ok(a, root, g),
        node < a.len(),
        a[node as int].child(direction.up_side()) is Some,
        0 <= i < a.len(),
        i != node,
        i != a[node as int].child(direction.up_side())->0,
        !leads_to(a[a[node as int].child(direction.up_side())->0 as int].child(direction.down_side()), i),
        !leads_to(a[node as int].parent, i),
    ensures
        link_ok(
            rotated(a, node, direction),
            rotated_root(a, root, node, direction),
            rotated_layout(a, g, node, direction),
            i,
        ),
{
    let child = a[node as int].child(direction.up_side())->0;
    let grandchild = a[child as int].child(direction.down_side());
    let parent = a[node as int].parent;
    lemma_rotation_nodes_distinct(a, root, g, node, direction);
    assert(link_ok(a, root, g, node as int));
    assert(link_ok(a, root, g, child as int));
    if grandchild is Some {
        assert(link_ok(a, root, g, grandchild->0 as int));
    }
    if parent is Some {
        assert(link_ok(a, root, g, parent->0 as int));
    }
    assert(link_ok(a, root, g, i));
    if a[i].left is Some {
        assert(link_ok(a, root, g, a[i].left->0 as int));
    }
    if a[i].right is Some {
        assert(link_ok(a, root, g, a[i].right->0 as int));
    }
    if a[i].parent is Some {
        assert(link_ok(a, root, g, a[i].parent->0 as int));
    }
}

/// A rotation keeps the arena one tree with the same in-order sequence.
pub proof fn lemma_rotation_keeps_shape<T>(
    a: Seq<Node<T>>,
    root: Option<usize>,
    g: Layout,
    node: usize,
    direction: Rotation,
)
    requires
        shape_ok(a, root, g),
        node < a.len(),
        a[node as int].child(direction.up_side()) is Some,
    ensures
        shape_ok(
            rotated(a, node, direction),
            rotated_root(a, root, node, direction),
            rotated_layout(a, g, node, direction),
        ),
{
    let b = rotated(a, node, direction);
    let r2 = rotated_root(a, root, node, direction);
    let g2 = rotated_layout(a, g, node, direction);
    let n = a.len() as int;
    lemma_rotation_nodes_distinct(a, root, g, node, direction);
    assert(link_ok(a, root, g, node as int));
    assert forall|i: int| 0 <= i < n implies #[trigger] link_ok(b, r2, g2, i) by {
        let child = a[node as int].child(direction.up_side())->0;
        if i == child {
            lemma_rotation_link_child(a, root, g, node, direction, i);
        } else if i == node {
            lemma_rotation_link_node(a, root, g, node, direction, i);
        } else if leads_to(a[child as int].child(direction.down_side()), i) {
            lemma_rotation_link_grandchild(a, root, g, node, direction, i);
        } else if leads_to(a[node as int].parent, i) {
            lemma_rotation_link_parent(a, root, g, node, direction, i);
        } else {
            lemma_rotation_link_other(a, root, g, node, direction, i);
        }
    }
    if root is Some {
        assert(link_ok(a, root, g, root->0 as int));
    }
}

/// Rotating a node and then rotating the child that moved up, the other
/// way, gives back every link, the root and the bookkeeping.
#[verifier::rlimit(40)]
pub proof fn lemma_rotation_undone<T>(
    a: Seq<Node<T>>,
    root: Option<usize>,
    g: Layout,
    node: usize,
    direction: Rotation,
)
    requires
        shape_ok(a, root, g),
        node < a.len(),
        a[node as int].child(direction.up_side()) is Some,
    ensures
        ({
            let child = a[node as int].child(direction.up_side())->0;
            let b = rotated(a, node, direction);
            let mid_root = rotated_root(a, root, node, direction);
            let mid_layout = rotated_layout(a, g, node, direction);
            &&& child < b.len()
            &&& b[child as int].child(direction.reverse().up_side()) == Some(node)
            &&& rotated(b, child, direction.reverse()) == a
            &&& rotated_root(b, mid_root, child, direction.reverse()) == root
            &&& rotated_layout(b, mid_layout, child, direction.reverse()) == g
        }),
{
    let child = a[node as int].child(direction.up_side())->0;
    let grandchild = a[child as int].child(direction.down_side());
    let parent = a[node as int].parent;
    let b = rotated(a, node, direction);
    let back = rotated(b, child, direction.reverse());
    let mid_layout = rotated_layout(a, g, node, direction);
    let end_layout = rotated_layout(b, mid_layout, child, direction.reverse());
    lemma_rotation_nodes_distinct(a, root, g, node, direction);
    assert(link_ok(a, root, g, node as int));
    assert(link_ok(a, root, g, child as int));
    if grandchild is Some {
        assert(link_ok(a, root, g, grandchild->0 as int));
    }
    if parent is Some {
        assert(link_ok(a, root, g, parent->0 as int));
        if a[parent->0 as int].left is Some {
            assert(link_ok(a, root, g, a[parent->0 as int].left->0 as int));
        }
    }
    if root is Some {
        assert(link_ok(a, root, g, root->0 as int));
    }
    assert forall|i: int| 0 <= i < a.len() implies back[i] == a[i] by {
        if i == child {
        } else if i == node {
        } else if leads_to(grandchild, i) {
        } else if leads_to(parent, i) {
        } else {
        }
    }
    assert(back =~= a);
    assert(end_layout.lo =~= g.lo);
    assert(end_layout.hi =~= g.hi);
}

} // verus!
