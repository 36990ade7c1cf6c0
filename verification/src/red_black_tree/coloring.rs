//! The red-black rules, stated node by node, and what each step of the
//! rebalancing does to them.

use crate::keyed::Keyed;
use crate::red_black_tree::grow::grown;
use crate::red_black_tree::shape::{
    keys_sorted, lemma_rotation_nodes_distinct, link_ok, rotated, rotated_root, shape_ok, slot_of,
    Layout,
};
use crate::red_black_tree::{Color, Node, RedBlackOp, Rotation};
use vstd::prelude::*;

verus! {

/// The number of black nodes on a path that enters the subtree behind
/// `link` and runs down to an empty position, the subtree's root counted.
pub open spec fn weight<T>(a: Seq<Node<T>>, bh: Seq<nat>, link: Option<usize>) -> nat {
    match link {
        None => 0,
        Some(c) => if a[c as int].color == Color::Black {
            bh[c as int] + 1
        } else {
            bh[c as int]
        },
    }
}

/// Both subtrees of node `i` weigh `bh[i]`.
pub open spec fn height_ok<T>(a: Seq<Node<T>>, bh: Seq<nat>, i: int) -> bool {
    weight(a, bh, a[i].left) == bh[i] && weight(a, bh, a[i].right) == bh[i]
}

/// Node `i` is not a red node below a red parent.
pub open spec fn color_ok<T>(a: Seq<Node<T>>, i: int) -> bool {
    a[i].color == Color::Red && a[i].parent is Some ==> a[a[i].parent->0 as int].color
        == Color::Black
}

/// The red-black rules: the root is black, no red node has a red parent, and
/// the two subtrees of every node weigh the same.
pub open spec fn colors_ok<T>(a: Seq<Node<T>>, root: Option<usize>, bh: Seq<nat>) -> bool {
    &&& forall|i: int| 0 <= i < a.len() ==> #[trigger] height_ok(a, bh, i)
    &&& forall|i: int| 0 <= i < a.len() ==> #[trigger] color_ok(a, i)
    &&& root is Some ==> a[root->0 as int].color == Color::Black
}

/// The red-black rules but for the red node `current`: it may have a red
/// parent, and it may be the root.
pub open spec fn colors_ok_but<T>(
    a: Seq<Node<T>>,
    root: Option<usize>,
    bh: Seq<nat>,
    current: int,
) -> bool {
    &&& forall|i: int| 0 <= i < a.len() ==> #[trigger] height_ok(a, bh, i)
    &&& forall|i: int| 0 <= i < a.len() && i != current ==> #[trigger] color_ok(a, i)
    &&& a[current].color == Color::Red
    &&& root is Some && root->0 != current ==> a[root->0 as int].color == Color::Black
}

/// The arena with node `i` in another color.
pub open spec fn recolored<T>(a: Seq<Node<T>>, i: int, color: Color) -> Seq<Node<T>> {
    a.update(i, a[i].with_color(color))
}

/// Two arenas hold the same links and values; their colors may differ.
pub open spec fn same_links<T>(a: Seq<Node<T>>, b: Seq<Node<T>>) -> bool {
    &&& a.len() == b.len()
    &&& forall|i: int|
        0 <= i < a.len() ==> (#[trigger] b[i]).left == a[i].left && b[i].right == a[i].right
            && b[i].parent == a[i].parent && b[i].v == a[i].v
}

/// Colors play no part in the shape of the tree.
pub proof fn lemma_colors_apart_from_shape<T: Keyed>(
    a: Seq<Node<T>>,
    b: Seq<Node<T>>,
    root: Option<usize>,
    g: Layout,
)
    requires
        shape_ok(a, root, g),
        keys_sorted(a, g.order),
        same_links(a, b),
    ensures
        shape_ok(b, root, g),
        keys_sorted(b, g.order),
{
    assert forall|i: int| 0 <= i < b.len() implies #[trigger] link_ok(b, root, g, i) by {
        assert(link_ok(a, root, g, i));
    }
    assert forall|j: int, k: int| 0 <= j <= k < g.order.len() implies b[#[trigger] g.order[j]].v.key()
        <= b[#[trigger] g.order[k]].v.key() by {
        assert(a[g.order[j]].v.key() <= a[g.order[k]].v.key());
    }
}

/// A fresh red leaf breaks no rule but, perhaps, that on a red parent.
pub proof fn lemma_leaf_colors<T>(
    a: Seq<Node<T>>,
    root: Option<usize>,
    g: Layout,
    fresh: Node<T>,
    q: usize,
    side: RedBlackOp,
)
    requires
        shape_ok(a, root, g),
        colors_ok(a, root, g.bh),
        a.len() < usize::MAX,
        fresh.color == Color::Red,
        fresh.left is None,
        fresh.right is None,
        q < a.len(),
        a[q as int].child(side) is None,
    ensures
        colors_ok_but(grown(a, fresh, q, side), root, g.bh.push(0), a.len() as int),
{
    let b = grown(a, fresh, q, side);
    let bh2 = g.bh.push(0);
    assert forall|i: int| 0 <= i < b.len() implies #[trigger] height_ok(b, bh2, i) by {
        if i < a.len() {
            assert(height_ok(a, g.bh, i));
            assert(link_ok(a, root, g, i));
        }
    }
    assert forall|i: int| 0 <= i < b.len() && i != a.len() implies #[trigger] color_ok(b, i) by {
        assert(color_ok(a, i));
        assert(link_ok(a, root, g, i));
    }
}

/// A single red node breaks no rule but that on the root's color.
pub proof fn lemma_first_node_colors<T>(a: Seq<Node<T>>, bh: Seq<nat>, fresh: Node<T>)
    requires
        a.len() == 0,
        bh.len() == 0,
        fresh.color == Color::Red,
        fresh.left is None,
        fresh.right is None,
        fresh.parent is None,
    ensures
        colors_ok_but(a.push(fresh), Some(0usize), bh.push(0), 0),
{
    let b = a.push(fresh);
    assert(height_ok(b, bh.push(0), 0));
}

/// Once the only node that may break a rule is the root, or is a node with a
/// black parent, blackening the root establishes every rule.
pub proof fn lemma_blacken_root<T>(
    a: Seq<Node<T>>,
    root: usize,
    bh: Seq<nat>,
    current: int,
    g: Layout,
)
    requires
        shape_ok(a, Some(root), g),
        colors_ok_but(a, Some(root), bh, current),
        0 <= current < a.len(),
        current == root || (a[current].parent is Some && a[a[current].parent->0 as int].color
            == Color::Black),
    ensures
        colors_ok(recolored(a, root as int, Color::Black), Some(root), bh),
{
    let b = recolored(a, root as int, Color::Black);
    assert(link_ok(a, Some(root), g, root as int));
    assert forall|i: int| 0 <= i < b.len() implies #[trigger] height_ok(b, bh, i) by {
        assert(height_ok(a, bh, i));
        assert(link_ok(a, Some(root), g, i));
    }
    assert forall|i: int| 0 <= i < b.len() implies #[trigger] color_ok(b, i) by {
        assert(link_ok(a, Some(root), g, i));
        if i != current {
            assert(color_ok(a, i));
        }
    }
}

/// Three generations on the way up: `current` hangs below the red node
/// `parent`, which hangs below `grand` on the side away from `uncle_side`.
pub open spec fn family<T>(
    a: Seq<Node<T>>,
    current: usize,
    parent: usize,
    grand: usize,
    uncle_side: RedBlackOp,
) -> bool {
    &&& current < a.len()
    &&& parent < a.len()
    &&& grand < a.len()
    &&& a[current as int].parent == Some(parent)
    &&& a[parent as int].parent == Some(grand)
    &&& a[grand as int].child(uncle_side.flip()) == Some(parent)
    &&& a[parent as int].color == Color::Red
}

/// The arena after the step for a red uncle: parent and uncle black, the
/// grandparent red.
pub open spec fn uncle_recolored<T>(a: Seq<Node<T>>, parent: usize, uncle: usize, grand: usize) -> Seq<
    Node<T>,
> {
    recolored(
        recolored(recolored(a, parent as int, Color::Black), uncle as int, Color::Black),
        grand as int,
        Color::Red,
    )
}

/// With a red uncle, recoloring moves the possible breach two levels up.
#[verifier::rlimit(40)]
pub proof fn lemma_red_uncle_step<T>(
    a: Seq<Node<T>>,
    root: Option<usize>,
    g: Layout,
    current: usize,
    parent: usize,
    grand: usize,
    uncle_side: RedBlackOp,
)
    requires
        shape_ok(a, root, g),
        colors_ok_but(a, root, g.bh, current as int),
        family(a, current, parent, grand, uncle_side),
        a[grand as int].child(uncle_side) is Some,
        a[a[grand as int].child(uncle_side)->0 as int].color == Color::Red,
    ensures
        ({
            let uncle = a[grand as int].child(uncle_side)->0;
            &&& uncle < a.len()
            &&& uncle != parent
            &&& uncle != grand
            &&& parent != grand
            &&& a[grand as int].color == Color::Black
            &&& colors_ok_but(
                uncle_recolored(a, parent, uncle, grand),
                root,
                g.bh.update(grand as int, g.bh[grand as int] + 1),
                grand as int,
            )
        }),
{
    let uncle = a[grand as int].child(uncle_side)->0;
    let b = uncle_recolored(a, parent, uncle, grand);
    let bh = g.bh;
    let bh2 = bh.update(grand as int, bh[grand as int] + 1);
    assert(link_ok(a, root, g, current as int));
    assert(link_ok(a, root, g, parent as int));
    assert(link_ok(a, root, g, grand as int));
    assert(link_ok(a, root, g, uncle as int));
    assert(color_ok(a, parent as int));
    assert(color_ok(a, uncle as int));
    assert(height_ok(a, bh, grand as int));
    assert forall|i: int| 0 <= i < b.len() implies #[trigger] height_ok(b, bh2, i) by {
        assert(height_ok(a, bh, i));
        assert(link_ok(a, root, g, i));
        if a[i].left is Some {
            assert(link_ok(a, root, g, a[i].left->0 as int));
        }
        if a[i].right is Some {
            assert(link_ok(a, root, g, a[i].right->0 as int));
        }
    }
    assert forall|i: int| 0 <= i < b.len() && i != grand implies #[trigger] color_ok(b, i) by {
        assert(link_ok(a, root, g, i));
        if i != current {
            assert(color_ok(a, i));
        }
    }
    if root is Some {
        assert(link_ok(a, root, g, root->0 as int));
    }
}

/// Where `current` hangs on the inner side of its parent, rotating the
/// parent brings `current` above it: the possible breach is then at the
/// former parent, which hangs on the outer side.
#[verifier::rlimit(40)]
pub proof fn lemma_inner_rotation_step<T>(
    a: Seq<Node<T>>,
    root: Option<usize>,
    g: Layout,
    current: usize,
    parent: usize,
    grand: usize,
    uncle_side: RedBlackOp,
    direction: Rotation,
)
    requires
        shape_ok(a, root, g),
        colors_ok_but(a, root, g.bh, current as int),
        family(a, current, parent, grand, uncle_side),
        a[parent as int].child(uncle_side) == Some(current),
        direction.up_side() == uncle_side,
    ensures
        ({
            let b = rotated(a, parent, direction);
            &&& rotated_root(a, root, parent, direction) == root
            &&& colors_ok_but(b, root, g.bh, parent as int)
            &&& family(b, parent, current, grand, uncle_side)
            &&& b[current as int].child(uncle_side.flip()) == Some(parent)
            &&& b[grand as int].child(uncle_side) == a[grand as int].child(uncle_side)
            &&& forall|i: int| 0 <= i < a.len() ==> (#[trigger] b[i]).color == a[i].color
        }),
{
    let b = rotated(a, parent, direction);
    let bh = g.bh;
    lemma_rotation_nodes_distinct(a, root, g, parent, direction);
    assert(link_ok(a, root, g, current as int));
    assert(link_ok(a, root, g, parent as int));
    assert(link_ok(a, root, g, grand as int));
    assert(height_ok(a, bh, current as int));
    assert(height_ok(a, bh, parent as int));
    assert(height_ok(a, bh, grand as int));
    assert(color_ok(a, parent as int));
    assert forall|i: int| 0 <= i < b.len() implies #[trigger] height_ok(b, bh, i) by {
        assert(height_ok(a, bh, i));
        assert(link_ok(a, root, g, i));
    }
    assert forall|i: int| 0 <= i < b.len() && i != parent implies #[trigger] color_ok(b, i) by {
        assert(link_ok(a, root, g, i));
        if i != current {
            assert(color_ok(a, i));
        }
    }
    if root is Some {
        assert(link_ok(a, root, g, root->0 as int));
    }
}

/// The arena after the recoloring that precedes the outer rotation: the
/// parent black, the grandparent red.
pub open spec fn outer_recolored<T>(a: Seq<Node<T>>, parent: usize, grand: usize) -> Seq<Node<T>> {
    recolored(recolored(a, parent as int, Color::Black), grand as int, Color::Red)
}

/// The setting of the outer rotation: `current` hangs on the outer side of
/// its red parent, and the uncle is black or absent.
pub open spec fn outer_setting<T>(
    a: Seq<Node<T>>,
    root: Option<usize>,
    g: Layout,
    current: usize,
    parent: usize,
    grand: usize,
    uncle_side: RedBlackOp,
    direction: Rotation,
) -> bool {
    &&& shape_ok(a, root, g)
    &&& colors_ok_but(a, root, g.bh, current as int)
    &&& family(a, current, parent, grand, uncle_side)
    &&& a[parent as int].child(uncle_side.flip()) == Some(current)
    &&& (a[grand as int].child(uncle_side) is Some ==> a[a[grand as int].child(
        uncle_side,
    )->0 as int].color == Color::Black)
    &&& direction.down_side() == uncle_side
}

/// After the outer rotation the subtrees of node `i` weigh the same.
#[verifier::rlimit(40)]
proof fn lemma_outer_rotation_height<T>(
    a: Seq<Node<T>>,
    root: Option<usize>,
    g: Layout,
    current: usize,
    parent: usize,
    grand: usize,
    uncle_side: RedBlackOp,
    direction: Rotation,
    i: int,
)
    requires
        outer_setting(a, root, g, current, parent, grand, uncle_side, direction),
        0 <= i < a.len(),
    ensures
        height_ok(rotated(outer_recolored(a, parent, grand), grand, direction), g.bh, i),
{
    let bh = g.bh;
    lemma_rotation_nodes_distinct(a, root, g, grand, direction);
    assert(link_ok(a, root, g, current as int));
    assert(link_ok(a, root, g, parent as int));
    assert(link_ok(a, root, g, grand as int));
    assert(height_ok(a, bh, current as int));
    assert(height_ok(a, bh, parent as int));
    assert(height_ok(a, bh, grand as int));
    assert(color_ok(a, parent as int));
    assert(height_ok(a, bh, i));
    assert(link_ok(a, root, g, i));
}

/// After the outer rotation node `i` is no red node below a red parent.
#[verifier::rlimit(40)]
proof fn lemma_outer_rotation_color<T>(
    a: Seq<Node<T>>,
    root: Option<usize>,
    g: Layout,
    current: usize,
    parent: usize,
    grand: usize,
    uncle_side: RedBlackOp,
    direction: Rotation,
    i: int,
)
    requires
        outer_setting(a, root, g, current, parent, grand, uncle_side, direction),
        0 <= i < a.len(),
    ensures
        color_ok(rotated(outer_recolored(a, parent, grand), grand, direction), i),
{
    lemma_rotation_nodes_distinct(a, root, g, grand, direction);
    assert(link_ok(a, root, g, current as int));
    assert(link_ok(a, root, g, parent as int));
    assert(link_ok(a, root, g, grand as int));
    assert(color_ok(a, parent as int));
    let inner = a[parent as int].child(uncle_side);
    if inner is Some {
        assert(link_ok(a, root, g, inner->0 as int));
        assert(color_ok(a, inner->0 as int));
    }
    assert(link_ok(a, root, g, i));
    if i != current {
        assert(color_ok(a, i));
    }
}

/// Where `current` hangs on the outer side of its parent and the uncle is
/// black or absent, blackening the parent, reddening the grandparent and
/// rotating the grandparent establishes every rule.
#[verifier::rlimit(40)]
pub proof fn lemma_outer_rotation_step<T>(
    a: Seq<Node<T>>,
    root: Option<usize>,
    g: Layout,
    current: usize,
    parent: usize,
    grand: usize,
    uncle_side: RedBlackOp,
    direction: Rotation,
)
    requires
        outer_setting(a, root, g, current, parent, grand, uncle_side, direction),
    ensures
        ({
            let c = outer_recolored(a, parent, grand);
            let b = rotated(c, grand, direction);
            &&& colors_ok(b, rotated_root(c, root, grand, direction), g.bh)
            &&& b[current as int].parent == Some(parent)
            &&& b[parent as int].color == Color::Black
            &&& b[current as int].color == Color::Red
        }),
{
    let c = outer_recolored(a, parent, grand);
    let b = rotated(c, grand, direction);
    lemma_rotation_nodes_distinct(a, root, g, grand, direction);
    assert(link_ok(a, root, g, current as int));
    assert(link_ok(a, root, g, parent as int));
    assert(link_ok(a, root, g, grand as int));
    assert(color_ok(a, parent as int));
    assert forall|i: int| 0 <= i < b.len() implies #[trigger] height_ok(b, g.bh, i) by {
        lemma_outer_rotation_height(a, root, g, current, parent, grand, uncle_side, direction, i);
    }
    assert forall|i: int| 0 <= i < b.len() implies #[trigger] color_ok(b, i) by {
        lemma_outer_rotation_color(a, root, g, current, parent, grand, uncle_side, direction, i);
    }
    if root is Some {
        assert(link_ok(a, root, g, root->0 as int));
    }
}

/// The rebalancing at `current` has nothing to do: `current` is the root, or
/// its parent is not red, or its parent is the root.
pub open spec fn settled<T>(a: Seq<Node<T>>, current: usize) -> bool {
    ||| a[current as int].parent is None
    ||| a[a[current as int].parent->0 as int].color != Color::Red
    ||| a[a[current as int].parent->0 as int].parent is None
}

/// One step of the rebalancing at the red node `current` below a red
/// parent: the arena and the root after it, and the node to go on with.
///
/// With a red uncle, parent and uncle turn black and the grandparent red,
/// and the grandparent is next. Otherwise a node on the inner side of its
/// parent is first rotated to the outer side, which makes the former parent
/// the node in question; then the parent turns black, the grandparent red,
/// and the grandparent is rotated towards the uncle's side.
pub open spec fn step<T>(a: Seq<Node<T>>, root: Option<usize>, current: usize) -> (
    Seq<Node<T>>,
    Option<usize>,
    usize,
) {
    let parent = a[current as int].parent->0;
    let grand = a[parent as int].parent->0;
    let uncle_side = slot_of(a, grand, parent).flip();
    let uncle = a[grand as int].child(uncle_side);
    if uncle is Some && a[uncle->0 as int].color == Color::Red {
        (uncle_recolored(a, parent, uncle->0, grand), root, grand)
    } else if slot_of(a, parent, current) == uncle_side {
        let turned = rotated(a, parent, Rotation::lowering(uncle_side.flip()));
        let colored = outer_recolored(turned, current, grand);
        (
            rotated(colored, grand, Rotation::lowering(uncle_side)),
            rotated_root(colored, root, grand, Rotation::lowering(uncle_side)),
            parent,
        )
    } else {
        let colored = outer_recolored(a, parent, grand);
        (
            rotated(colored, grand, Rotation::lowering(uncle_side)),
            rotated_root(colored, root, grand, Rotation::lowering(uncle_side)),
            current,
        )
    }
}

/// The arena and the root after at most `fuel` steps of the rebalancing
/// that starts at `current`.
pub open spec fn mended<T>(a: Seq<Node<T>>, root: Option<usize>, current: usize, fuel: nat) -> (
    Seq<Node<T>>,
    Option<usize>,
)
    decreases fuel,
{
    if fuel == 0 || settled(a, current) {
        (a, root)
    } else {
        let next = step(a, root, current);
        mended(next.0, next.1, next.2, (fuel - 1) as nat)
    }
}

/// The arena and the root after the rebalancing that follows the entry of
/// the red leaf `inserted`: the steps on the way up, of which there are
/// fewer than nodes, and the blackening of the root.
pub open spec fn rebalanced<T>(a: Seq<Node<T>>, root: Option<usize>, inserted: usize) -> (
    Seq<Node<T>>,
    Option<usize>,
) {
    let up = mended(a, root, inserted, a.len());
    (recolored(up.0, up.1->0 as int, Color::Black), up.1)
}

} // verus!
