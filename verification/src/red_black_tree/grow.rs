//! What hanging a fresh leaf into the tree does to its shape and to its
//! in-order sequence.

use crate::keyed::Keyed;
use crate::red_black_tree::shape::{keys_sorted, leads_to, link_ok, shape_ok, Layout};
use crate::red_black_tree::{paired, Node, RedBlackOp};
use vstd::prelude::*;

verus! {

/// A position after room has been made at `at`.
pub open spec fn shift(x: int, at: int) -> int {
    if x >= at {
        x + 1
    } else {
        x
    }
}

/// The bookkeeping after a fresh node has entered the in-order sequence at
/// position `p`; spans that end before `bound` stay, the others make room.
pub open spec fn grown_layout(g: Layout, p: int, bound: int) -> Layout {
    let m = g.order.len() as int;
    Layout {
        order: g.order.insert(p, m),
        pos: Seq::new(
            (m + 1) as nat,
            |i: int|
                if i == m {
                    p
                } else {
                    shift(g.pos[i], p)
                },
        ),
        lo: Seq::new(
            (m + 1) as nat,
            |i: int|
                if i == m {
                    p
                } else {
                    shift(g.lo[i], bound)
                },
        ),
        hi: Seq::new(
            (m + 1) as nat,
            |i: int|
                if i == m {
                    p + 1
                } else {
                    shift(g.hi[i], bound)
                },
        ),
        bh: g.bh.push(0),
    }
}

/// The in-order position that a leaf on the `side` of node `q` takes.
pub open spec fn leaf_position(g: Layout, q: int, side: RedBlackOp) -> int {
    match side {
        RedBlackOp::LeftNode => g.pos[q],
        RedBlackOp::RightNode => g.pos[q] + 1,
    }
}

/// The arena after `fresh` has been appended and hung on the `side` of `q`.
pub open spec fn grown<T>(a: Seq<Node<T>>, fresh: Node<T>, q: usize, side: RedBlackOp) -> Seq<
    Node<T>,
> {
    paired(a.push(fresh), Some(q), Some(a.len() as usize), side)
}

/// The fresh leaf agrees with its parent.
#[verifier::rlimit(40)]
proof fn lemma_grow_link_leaf<T>(
    a: Seq<Node<T>>,
    root: Option<usize>,
    g: Layout,
    fresh: Node<T>,
    q: usize,
    side: RedBlackOp,
)
    requires
        shape_ok(a, root, g),
        a.len() < usize::MAX,
        fresh.left is None,
        fresh.right is None,
        q < a.len(),
        a[q as int].child(side) is None,
    ensures
        link_ok(
            grown(a, fresh, q, side),
            root,
            grown_layout(g, leaf_position(g, q as int, side), g.pos[q as int] + 1),
            a.len() as int,
        ),
{
    assert(link_ok(a, root, g, q as int));
}

/// The node that received the leaf agrees with its neighbours.
#[verifier::rlimit(40)]
proof fn lemma_grow_link_parent<T>(
    a: Seq<Node<T>>,
    root: Option<usize>,
    g: Layout,
    fresh: Node<T>,
    q: usize,
    side: RedBlackOp,
)
    requires
        shape_ok(a, root, g),
        a.len() < usize::MAX,
        fresh.left is None,
        fresh.right is None,
        q < a.len(),
        a[q as int].child(side) is None,
    ensures
        link_ok(
            grown(a, fresh, q, side),
            root,
            grown_layout(g, leaf_position(g, q as int, side), g.pos[q as int] + 1),
            q as int,
        ),
{
    let i = q as int;
    assert(link_ok(a, root, g, i));
    if a[i].left is Some {
        assert(link_ok(a, root, g, a[i].left->0 as int));
    }
    if a[i].right is Some {
        assert(link_ok(a, root, g, a[i].right->0 as int));
    }
    if a[i].parent is Some {
        assert(link_ok(a, root, g, a[i].parent->0 as int));
    }
}

/// A node other than the leaf and its parent still agrees with its
/// neighbours.
#[verifier::rlimit(40)]
proof fn lemma_grow_link_other<T>(
    a: Seq<Node<T>>,
    root: Option<usize>,
    g: Layout,
    fresh: Node<T>,
    q: usize,
    side: RedBlackOp,
    i: int,
)
    requires
        shape_ok(a, root, g),
        a.len() < usize::MAX,
        fresh.left is None,
        fresh.right is None,
        q < a.len(),
        a[q as int].child(side) is None,
        0 <= i < a.len(),
        i != q,
    ensures
        link_ok(
            grown(a, fresh, q, side),
            root,
            grown_layout(g, leaf_position(g, q as int, side), g.pos[q as int] + 1),
            i,
        ),
{
    assert(link_ok(a, root, g, q as int));
    assert(link_ok(a, root, g, i));
    if a[i].left is Some {
        assert(link_ok(a, root, g, a[i].left->0 as int));
    }
    if a[i].right is Some {
        assert(link_ok(a, root, g, a[i].right->0 as int));
    }
    if a[i].parent is Some {
        assert(link_ok(a, root, g, a[i].parent->0 as int));
    }
}

/// Hanging a fresh leaf into an empty slot keeps the arena one tree, and
/// puts the leaf into the in-order sequence next to its parent.
#[verifier::rlimit(40)]
pub proof fn lemma_grow_keeps_shape<T>(
    a: Seq<Node<T>>,
    root: Option<usize>,
    g: Layout,
    fresh: Node<T>,
    q: usize,
    side: RedBlackOp,
)
    requires
        shape_ok(a, root, g),
        a.len() < usize::MAX,
        fresh.left is None,
        fresh.right is None,
        q < a.len(),
        a[q as int].child(side) is None,
    ensures
        shape_ok(
            grown(a, fresh, q, side),
            root,
            grown_layout(g, leaf_position(g, q as int, side), g.pos[q as int] + 1),
        ),
{
    let b = grown(a, fresh, q, side);
    let p = leaf_position(g, q as int, side);
    let g2 = grown_layout(g, p, g.pos[q as int] + 1);
    let n = a.len() as int;
    assert(link_ok(a, root, g, q as int));
    assert(b.len() == n + 1);
    assert forall|k: int| 0 <= k < n + 1 implies 0 <= (#[trigger] g2.order[k]) < n + 1
        && g2.pos[g2.order[k]] == k by {
        if k < p {
            assert(g2.order[k] == g.order[k]);
        } else if k == p {
        } else {
            assert(g2.order[k] == g.order[k - 1]);
        }
    }
    assert forall|i: int| 0 <= i < n + 1 implies #[trigger] link_ok(b, root, g2, i) by {
        if i == n {
            lemma_grow_link_leaf(a, root, g, fresh, q, side);
        } else if i == q {
            lemma_grow_link_parent(a, root, g, fresh, q, side);
        } else {
            lemma_grow_link_other(a, root, g, fresh, q, side, i);
        }
    }
    assert(link_ok(a, root, g, root->0 as int));
}

/// The first node of a tree is its root and its whole in-order sequence.
pub proof fn lemma_first_node_shape<T>(a: Seq<Node<T>>, g: Layout, fresh: Node<T>)
    requires
        shape_ok(a, None, g),
        fresh.left is None,
        fresh.right is None,
        fresh.parent is None,
    ensures
        shape_ok(a.push(fresh), Some(0usize), grown_layout(g, 0, 0)),
{
    let b = a.push(fresh);
    let g2 = grown_layout(g, 0, 0);
    assert(link_ok(b, Some(0usize), g2, 0));
}

/// A record that enters the in-order sequence between the keys that do not
/// exceed its own and the keys that do not fall below it keeps the keys in
/// order.
pub proof fn lemma_grow_keeps_order<T: Keyed>(
    a: Seq<Node<T>>,
    b: Seq<Node<T>>,
    order: Seq<int>,
    p: int,
)
    requires
        keys_sorted(a, order),
        b.len() == a.len() + 1,
        order.len() == a.len(),
        0 <= p <= order.len(),
        forall|k: int| 0 <= k < order.len() ==> 0 <= #[trigger] order[k] < a.len(),
        forall|i: int| 0 <= i < a.len() ==> (#[trigger] b[i]).v == a[i].v,
        forall|k: int| 0 <= k < p ==> a[#[trigger] order[k]].v.key() <= b[a.len() as int].v.key(),
        forall|k: int|
            p <= k < order.len() ==> b[a.len() as int].v.key() <= a[#[trigger] order[k]].v.key(),
    ensures
        keys_sorted(b, order.insert(p, a.len() as int)),
{
    let m = a.len() as int;
    let grown_order = order.insert(p, m);
    assert forall|j: int, k: int| 0 <= j <= k < grown_order.len() implies b[#[trigger] grown_order[j]].v.key()
        <= b[#[trigger] grown_order[k]].v.key() by {
        let jj = if j < p { j } else { j - 1 };
        let kk = if k < p { k } else { k - 1 };
        if j != p {
            assert(grown_order[j] == order[jj]);
            assert(b[order[jj]].v == a[order[jj]].v);
        }
        if k != p {
            assert(grown_order[k] == order[kk]);
            assert(b[order[kk]].v == a[order[kk]].v);
        }
    }
}

} // verus!
