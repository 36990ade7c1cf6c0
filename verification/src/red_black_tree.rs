//! A red-black tree held in an arena: nodes live in a vector and refer to
//! each other by index, so a child can reach its parent without shared
//! ownership.

pub mod coloring;
pub mod grow;
pub mod laws;
pub mod lookup;
pub mod shape;
pub mod walk;

use crate::keyed::Keyed;
use crate::red_black_tree::coloring::{
    color_ok, colors_ok, colors_ok_but, family, lemma_blacken_root, lemma_colors_apart_from_shape,
    lemma_first_node_colors, lemma_inner_rotation_step, lemma_leaf_colors,
    lemma_outer_rotation_step, lemma_red_uncle_step, mended, outer_recolored, rebalanced,
    recolored, settled, step, uncle_recolored,
};
use crate::red_black_tree::grow::{
    grown, grown_layout, leaf_position, lemma_first_node_shape, lemma_grow_keeps_order,
    lemma_grow_keeps_shape,
};
use crate::red_black_tree::shape::{
    keys_sorted, lemma_rotated_by_pairs, lemma_rotation_keeps_shape,
    lemma_rotation_nodes_distinct, link_ok, rotated, rotated_layout, rotated_root, shape_ok,
    slot_of, Layout,
};
use vstd::prelude::*;

verus! {

/// The color tag of a node.
#[derive(Clone, Copy, Debug, PartialEq, Eq, Structural)]
pub enum Color {
    Red,
    Black,
}

/// The side of a parent on which a child hangs.
#[derive(Clone, Copy, Debug, PartialEq, Eq, Structural)]
pub enum RedBlackOp {
    LeftNode,
    RightNode,
}

/// The direction of a rotation: the way the rotated node moves down.
#[derive(Clone, Copy, Debug, PartialEq, Eq, Structural)]
pub enum Rotation {
    Left,
    Right,
}

impl RedBlackOp {
    /// The other side.
    pub open spec fn flip(self) -> RedBlackOp {
        match self {
            RedBlackOp::LeftNode => RedBlackOp::RightNode,
            RedBlackOp::RightNode => RedBlackOp::LeftNode,
        }
    }

    pub fn flipped(self) -> (other: RedBlackOp)
        ensures
            other == self.flip(),
    {
        match self {
            RedBlackOp::LeftNode => RedBlackOp::RightNode,
            RedBlackOp::RightNode => RedBlackOp::LeftNode,
        }
    }
}

impl Rotation {
    /// The rotation the other way.
    pub open spec fn reverse(self) -> Rotation {
        match self {
            Rotation::Left => Rotation::Right,
            Rotation::Right => Rotation::Left,
        }
    }

    /// The rotation that moves a node down to the given side.
    pub open spec fn lowering(side: RedBlackOp) -> Rotation {
        match side {
            RedBlackOp::LeftNode => Rotation::Left,
            RedBlackOp::RightNode => Rotation::Right,
        }
    }

    /// The rotation that moves a node down to the given side.
    pub fn toward(side: RedBlackOp) -> (rotation: Rotation)
        ensures
            rotation == Rotation::lowering(side),
            rotation.down_side() == side,
    {
        match side {
            RedBlackOp::LeftNode => Rotation::Left,
            RedBlackOp::RightNode => Rotation::Right,
        }
    }

    /// The side on which the rotated node ends up below its former child.
    pub open spec fn down_side(self) -> RedBlackOp {
        match self {
            Rotation::Left => RedBlackOp::LeftNode,
            Rotation::Right => RedBlackOp::RightNode,
        }
    }

    /// The side whose child moves up into the rotated node's place.
    pub open spec fn up_side(self) -> RedBlackOp {
        self.down_side().flip()
    }

    pub fn side_down(self) -> (side: RedBlackOp)
        ensures
            side == self.down_side(),
    {
        match self {
            Rotation::Left => RedBlackOp::LeftNode,
            Rotation::Right => RedBlackOp::RightNode,
        }
    }

    pub fn side_up(self) -> (side: RedBlackOp)
        ensures
            side == self.up_side(),
    {
        match self {
            Rotation::Left => RedBlackOp::RightNode,
            Rotation::Right => RedBlackOp::LeftNode,
        }
    }
}

/// One cell of the tree: a value, its color and the indices of its
/// neighbours in the arena.
pub struct Node<T> {
    pub color: Color,
    pub v: T,
    pub parent: Option<usize>,
    pub left: Option<usize>,
    pub right: Option<usize>,
}

impl<T> Node<T> {
    /// A red node with no links.
    pub fn new(value: T) -> (node: Node<T>)
        ensures
            node.color == Color::Red,
            node.v == value,
            node.parent is None,
            node.left is None,
            node.right is None,
    {
        Node { color: Color::Red, v: value, parent: None, left: None, right: None }
    }

    pub fn is_root(&self) -> (top: bool)
        ensures
            top == (self.parent is None),
    {
        self.parent.is_none()
    }

    /// Recolors the node; the new color must differ from the current one.
    pub fn switch_color(&mut self, color: Color)
        requires
            old(self).color != color,
        ensures
            *final(self) == old(self).with_color(color),
    {
        self.color = color;
    }

    /// Colors the node, whatever its color was.
    pub fn set_color(&mut self, color: Color)
        ensures
            *final(self) == old(self).with_color(color),
    {
        self.color = color;
    }

    /// The child on the given side.
    pub open spec fn child(self, side: RedBlackOp) -> Option<usize> {
        match side {
            RedBlackOp::LeftNode => self.left,
            RedBlackOp::RightNode => self.right,
        }
    }

    /// This node with another color.
    pub open spec fn with_color(self, color: Color) -> Node<T> {
        Node { color, ..self }
    }

    /// This node with another child on the given side.
    pub open spec fn with_child(self, side: RedBlackOp, child: Option<usize>) -> Node<T> {
        match side {
            RedBlackOp::LeftNode => Node { left: child, ..self },
            RedBlackOp::RightNode => Node { right: child, ..self },
        }
    }

    /// This node with another parent.
    pub open spec fn with_parent(self, parent: Option<usize>) -> Node<T> {
        Node { parent, ..self }
    }

    pub fn child_on(&self, side: RedBlackOp) -> (c: Option<usize>)
        ensures
            c == self.child(side),
    {
        match side {
            RedBlackOp::LeftNode => self.left,
            RedBlackOp::RightNode => self.right,
        }
    }
}

/// The arena after `child` has been hung on the `direction` side of `parent`
/// and `parent` has been recorded in `child`. An absent parent makes the
/// child a root; an absent child empties the parent's slot.
pub open spec fn paired<T>(
    arena: Seq<Node<T>>,
    parent: Option<usize>,
    child: Option<usize>,
    direction: RedBlackOp,
) -> Seq<Node<T>> {
    let upper = match parent {
        Some(p) => arena.update(p as int, arena[p as int].with_child(direction, child)),
        None => arena,
    };
    match child {
        Some(c) => upper.update(c as int, upper[c as int].with_parent(parent)),
        None => upper,
    }
}

/// Links `parent` and `child` in both directions.
pub fn pair<T>(
    nodes: &mut Vec<Node<T>>,
    parent: Option<usize>,
    child: Option<usize>,
    direction: RedBlackOp,
)
    requires
        parent is Some ==> parent->0 < old(nodes).len(),
        child is Some ==> child->0 < old(nodes).len(),
    ensures
        final(nodes)@ == paired(old(nodes)@, parent, child, direction),
{
    match parent {
        Some(p) => {
            match direction {
                RedBlackOp::LeftNode => {
                    nodes[p].left = child;
                },
                RedBlackOp::RightNode => {
                    nodes[p].right = child;
                },
            }
        },
        None => {},
    }
    match child {
        Some(c) => {
            nodes[c].parent = parent;
        },
        None => {},
    }
    assert(nodes@ =~= paired(old(nodes)@, parent, child, direction));
}

/// A registry of records in key order: a red-black tree over an arena of
/// nodes, with the root's index and the number of records.
pub struct DeviceRegistry<T> {
    nodes: Vec<Node<T>>,
    root: Option<usize>,
    length: u64,
    layout: Ghost<Layout>,
}

impl<T: Keyed> View for DeviceRegistry<T> {
    type V = Seq<T>;

    /// The records in in-order.
    open spec fn view(&self) -> Seq<T> {
        Seq::new(self.inorder().len(), |k: int| self.arena()[self.inorder()[k]].v)
    }
}

impl<T: Keyed> DeviceRegistry<T> {
    /// The nodes, by index.
    pub closed spec fn arena(&self) -> Seq<Node<T>> {
        self.nodes@
    }

    /// The index of the root, if the tree has one.
    pub closed spec fn top(&self) -> Option<usize> {
        self.root
    }

    /// The indices of the nodes in in-order: left subtree, node, right
    /// subtree.
    pub closed spec fn inorder(&self) -> Seq<int> {
        self.layout@.order
    }

    /// For each node, the number of black nodes on a path from below it
    /// down to an empty position, as the tree's bookkeeping holds it.
    pub closed spec fn black_heights(&self) -> Seq<nat> {
        self.layout@.bh
    }

    /// The counter of records.
    pub closed spec fn count(&self) -> u64 {
        self.length
    }

    /// The arena is one binary search tree below the root, `inorder` is its
    /// in-order sequence, and the counter equals the number of nodes.
    pub closed spec fn wf(&self) -> bool {
        &&& shape_ok(self.nodes@, self.root, self.layout@)
        &&& keys_sorted(self.nodes@, self.layout@.order)
        &&& self.length == self.nodes@.len()
    }

    /// `after` is `before` with `node` rotated in `direction`: the links
    /// change as `rotated` says, and nothing else does.
    pub open spec fn rotation_of(before: Self, after: Self, node: usize, direction: Rotation) -> bool {
        &&& after.arena() == rotated(before.arena(), node, direction)
        &&& after.top() == rotated_root(before.arena(), before.top(), node, direction)
        &&& after.inorder() == before.inorder()
        &&& after.black_heights() == before.black_heights()
        &&& after.count() == before.count()
    }

    /// `p` is where a record with key `key` enters the sequence `records`:
    /// behind every record whose key does not exceed `key`, ties included,
    /// and before every record with a greater key.
    pub open spec fn slot_for(records: Seq<T>, key: u64, p: int) -> bool {
        &&& 0 <= p <= records.len()
        &&& forall|k: int| 0 <= k < p ==> (#[trigger] records[k]).key() <= key
        &&& forall|k: int| p <= k < records.len() ==> key < (#[trigger] records[k]).key()
    }

    /// `after` is `before` with `value` entered at in-order position `p`, in
    /// a node appended to the arena.
    pub open spec fn insertion_of(before: Self, after: Self, value: T, p: int) -> bool {
        &&& Self::slot_for(before@, value.key(), p)
        &&& after@ == before@.insert(p, value)
        &&& after.inorder() == before.inorder().insert(p, before.arena().len() as int)
        &&& after.count() == before.count() + 1
        &&& after.arena().len() == before.arena().len() + 1
    }

    /// A red node with the record `value` and no links.
    pub open spec fn fresh(value: T) -> Node<T> {
        Node { color: Color::Red, v: value, parent: None, left: None, right: None }
    }

    /// `after` is `before` with a red leaf for `value` appended to the
    /// arena: as the root where there was none, else in an empty slot of
    /// some node, on the side that the keys of the two decide.
    pub open spec fn leaf_entered(before: Self, after: Self, value: T) -> bool {
        match before.top() {
            None => after.top() == Some(0usize) && after.arena() == seq![Self::fresh(value)],
            Some(r) => after.top() == Some(r) && exists|q: usize, side: RedBlackOp|
                q < before.arena().len() && before.arena()[q as int].child(side) is None && side
                    == Self::direction_for(before.arena()[q as int].v, value) && #[trigger] grown(
                    before.arena(),
                    Self::fresh(value),
                    q,
                    side,
                ) == after.arena(),
        }
    }

    /// `after` is `before`, whose last node has just entered as a red leaf,
    /// rebalanced: recolored and rotated on the way up from that leaf, and
    /// with a black root.
    pub open spec fn rebalance_of(before: Self, after: Self) -> bool {
        &&& before.arena().len() > 0
        &&& (after.arena(), after.top()) == rebalanced(
            before.arena(),
            before.top(),
            (before.arena().len() - 1) as usize,
        )
        &&& after.inorder() == before.inorder()
        &&& after.count() == before.count()
    }

    /// An empty registry.
    pub fn new() -> (registry: Self)
        ensures
            registry.wf(),
            registry.is_red_black(),
            registry.arena().len() == 0,
            registry.top() is None,
            registry@.len() == 0,
            registry.count() == 0,
    {
        DeviceRegistry {
            nodes: Vec::new(),
            root: None,
            length: 0,
            layout: Ghost(
                Layout {
                    order: Seq::empty(),
                    pos: Seq::empty(),
                    lo: Seq::empty(),
                    hi: Seq::empty(),
                    bh: Seq::empty(),
                },
            ),
        }
    }

    /// The number of records: the number of insertions so far.
    pub fn length(&self) -> (n: u64)
        ensures
            n == self.count(),
            self.wf() ==> n == self@.len() && n == self.arena().len(),
    {
        self.length
    }

    /// The index of the root.
    pub fn root(&self) -> (r: Option<usize>)
        ensures
            r == self.top(),
    {
        self.root
    }

    /// The node at `index`.
    pub fn node(&self, index: usize) -> (n: &Node<T>)
        requires
            index < self.arena().len(),
        ensures
            *n == self.arena()[index as int],
    {
        &self.nodes[index]
    }

    /// The side of a node with value `a` on which a record with value `b`
    /// belongs: right if the key of `a` does not exceed that of `b`, left
    /// otherwise.
    pub open spec fn direction_for(a: T, b: T) -> RedBlackOp {
        if a.key() <= b.key() {
            RedBlackOp::RightNode
        } else {
            RedBlackOp::LeftNode
        }
    }

    fn decide_direction(&self, a: &T, b: &T) -> (side: RedBlackOp)
        ensures
            side == Self::direction_for(*a, *b),
    {
        if a.key_of() <= b.key_of() {
            RedBlackOp::RightNode
        } else {
            RedBlackOp::LeftNode
        }
    }

    /// Descends from the root to the empty slot in which `value` belongs.
    fn insert_rec(&self, start: usize, value: &T) -> (slot: (usize, RedBlackOp))
        requires
            self.wf(),
            self.root == Some(start),
        ensures
            slot.0 < self.nodes@.len(),
            self.nodes@[slot.0 as int].child(slot.1) is None,
            slot.1 == Self::direction_for(self.nodes@[slot.0 as int].v, *value),
            Self::slot_for(self@, value.key(), leaf_position(self.layout@, slot.0 as int, slot.1)),
    {
        let mut current = start;
        let ghost g = self.layout@;
        proof {
            assert(link_ok(self.nodes@, self.root, g, current as int));
        }
        loop
            invariant
                self.wf(),
                g == self.layout@,
                current < self.nodes@.len(),
                forall|k: int| 0 <= k < g.lo[current as int] ==> (#[trigger] self@[k]).key() <= value.key(),
                forall|k: int|
                    g.hi[current as int] <= k < self@.len() ==> value.key() < (#[trigger] self@[k]).key(),
            decreases g.hi[current as int] - g.lo[current as int],
        {
            proof {
                assert(link_ok(self.nodes@, self.root, g, current as int));
                let here = g.pos[current as int];
                assert(self@[here] == self.nodes@[current as int].v);
                assert forall|k: int| 0 <= k <= here implies (#[trigger] self@[k]).key() <= self@[here].key() by {
                    assert(self.nodes@[g.order[k]].v.key() <= self.nodes@[g.order[here]].v.key());
                }
                assert forall|k: int| here <= k < self@.len() implies self@[here].key() <= (#[trigger] self@[k]).key() by {
                    assert(self.nodes@[g.order[here]].v.key() <= self.nodes@[g.order[k]].v.key());
                }
            }
            let side = self.decide_direction(&self.nodes[current].v, value);
            match self.nodes[current].child_on(side) {
                None => {
                    return (current, side);
                },
                Some(next) => {
                    proof {
                        assert(link_ok(self.nodes@, self.root, g, next as int));
                    }
                    current = next;
                },
            }
        }
    }

    /// Enters `value` as a red leaf where the search order puts it, without
    /// rebalancing. Returns the index of the new node.
    #[verifier::rlimit(40)]
    pub fn insert_internal(&mut self, value: T) -> (new_node: usize)
        requires
            old(self).wf(),
        ensures
            final(self).wf(),
            new_node == old(self).arena().len(),
            exists|p: int| Self::insertion_of(*old(self), *final(self), value, p),
            Self::leaf_entered(*old(self), *final(self), value),
            final(self).black_heights() == old(self).black_heights().push(0),
    {
        let new_node = self.nodes.len();
        let ghost fresh = Self::fresh(value);
        let ghost a = self.nodes@;
        let ghost g = self.layout@;
        let ghost before = self@;
        match self.root {
            None => {
                self.nodes.push(Node::new(value));
                self.root = Some(new_node);
                self.length = self.length + 1;
                proof {
                    self.layout = Ghost(grown_layout(g, 0, 0));
                    lemma_first_node_shape(a, g, fresh);
                    assert(self@ =~= before.insert(0, value));
                    assert(Self::insertion_of(*old(self), *self, value, 0));
                    assert(self.nodes@ =~= seq![fresh]);
                }
            },
            Some(r) => {
                let (q, side) = self.insert_rec(r, &value);
                let ghost p = leaf_position(g, q as int, side);
                self.nodes.push(Node::new(value));
                assert(a.len() < usize::MAX) by {
                    assert(self.nodes@.len() == a.len() + 1);
                    assert(self.nodes.len() <= usize::MAX);
                }
                pair(&mut self.nodes, Some(q), Some(new_node), side);
                self.length = self.length + 1;
                proof {
                    self.layout = Ghost(grown_layout(g, p, g.pos[q as int] + 1));
                    lemma_grow_keeps_shape(a, self.root, g, fresh, q, side);
                    assert(link_ok(a, self.root, g, q as int));
                    assert forall|k: int| 0 <= k < p implies a[#[trigger] g.order[k]].v.key()
                        <= value.key() by {
                        assert(before[k] == a[g.order[k]].v);
                    }
                    assert forall|k: int| p <= k < g.order.len() implies value.key() <= a[#[trigger] g.order[k]].v.key() by {
                        assert(before[k] == a[g.order[k]].v);
                    }
                    lemma_grow_keeps_order(a, self.nodes@, g.order, p);
                    assert(self@ =~= before.insert(p, value)) by {
                        assert forall|k: int| 0 <= k < self@.len() implies self@[k] == before.insert(p, value)[k] by {
                            if k < p {
                                assert(self.layout@.order[k] == g.order[k]);
                            } else if k > p {
                                assert(self.layout@.order[k] == g.order[k - 1]);
                            }
                        }
                    }
                    assert(Self::insertion_of(*old(self), *self, value, p));
                    assert(grown(a, fresh, q, side) == self.nodes@);
                }
            },
        }
        new_node
    }

    /// Rotates `node` in `direction`; the child on the opposite side, which
    /// must exist, moves up into its place.
    pub fn rotate(&mut self, node: usize, direction: Rotation)
        requires
            old(self).wf(),
            node < old(self).arena().len(),
            old(self).arena()[node as int].child(direction.up_side()) is Some,
        ensures
            final(self).wf(),
            Self::rotation_of(*old(self), *final(self), node, direction),
            final(self)@ == old(self)@,
    {
        let child = self.nodes[node].child_on(direction.side_up());
        let grandchild = match child {
            Some(c) => {
                proof {
                    lemma_rotation_nodes_distinct(
                        self.nodes@,
                        self.root,
                        self.layout@,
                        node,
                        direction,
                    );
                }
                self.nodes[c].child_on(direction.side_down())
            },
            None => None,
        };
        self.rotate_internal(node, child, grandchild, direction);
    }

    /// Relinks `node`, its `child` and that child's inner `grandchild` for a
    /// rotation. Returns the node that now stands above the child, or the
    /// child itself where it became the root.
    #[verifier::rlimit(40)]
    fn rotate_internal(
        &mut self,
        node: usize,
        child: Option<usize>,
        grandchild: Option<usize>,
        rotation: Rotation,
    ) -> (above: usize)
        requires
            old(self).wf(),
            node < old(self).nodes@.len(),
            child is Some,
            child == old(self).nodes@[node as int].child(rotation.up_side()),
            child->0 < old(self).nodes@.len(),
            grandchild == old(self).nodes@[child->0 as int].child(rotation.down_side()),
        ensures
            final(self).wf(),
            Self::rotation_of(*old(self), *final(self), node, rotation),
            final(self)@ == old(self)@,
            final(self).layout@ == rotated_layout(old(self).nodes@, old(self).layout@, node, rotation),
            above == match old(self).nodes@[node as int].parent {
                Some(p) => p,
                None => child->0,
            },
    {
        proof {
            lemma_rotation_nodes_distinct(self.nodes@, self.root, self.layout@, node, rotation);
            lemma_rotation_keeps_shape(self.nodes@, self.root, self.layout@, node, rotation);
            lemma_rotated_by_pairs(self.nodes@, self.root, self.layout@, node, rotation);
        }
        let p = self.nodes[node].parent;
        let slot = match p {
            Some(above) => self.side_of(above, node),
            None => RedBlackOp::LeftNode,
        };
        pair(&mut self.nodes, child, Some(node), rotation.side_down());
        pair(&mut self.nodes, Some(node), grandchild, rotation.side_up());
        pair(&mut self.nodes, p, child, slot);
        proof {
            self.layout = Ghost(
                rotated_layout(old(self).nodes@, old(self).layout@, node, rotation),
            );
        }
        let above = match (p, child) {
            (Some(above), _) => above,
            (None, Some(c)) => {
                self.root = child;
                c
            },
            (None, None) => node,
        };
        proof {
            let order = self.layout@.order;
            assert forall|j: int, k: int| 0 <= j <= k < order.len() implies self.nodes@[#[trigger] order[j]].v.key()
                <= self.nodes@[#[trigger] order[k]].v.key() by {
                assert(self.nodes@[order[j]].v == old(self).nodes@[order[j]].v);
                assert(self.nodes@[order[k]].v == old(self).nodes@[order[k]].v);
            }
            assert(self@ =~= old(self)@);
        }
        above
    }

    /// The side of `parent` on which `child` hangs.
    fn side_of(&self, parent: usize, child: usize) -> (side: RedBlackOp)
        requires
            parent < self.nodes@.len(),
        ensures
            side == slot_of(self.nodes@, parent, child),
    {
        match self.nodes[parent].left {
            Some(l) => {
                if l == child {
                    RedBlackOp::LeftNode
                } else {
                    RedBlackOp::RightNode
                }
            },
            None => RedBlackOp::RightNode,
        }
    }

    /// The red-black rules hold: the root is black, no red node has a red
    /// parent, and the two subtrees of every node hold the same number of
    /// black nodes on every path down.
    pub closed spec fn is_red_black(&self) -> bool {
        colors_ok(self.nodes@, self.root, self.layout@.bh)
    }

    /// Node `node` stands in the subtree of node `top`: it is `top` or a
    /// descendant of it.
    pub closed spec fn covers(&self, top: int, node: int) -> bool {
        self.layout@.lo[top] <= self.layout@.pos[node] < self.layout@.hi[top]
    }

    /// The nodes of the subtree behind `link`, in in-order.
    pub closed spec fn subtree(&self, link: Option<usize>) -> Seq<int> {
        match link {
            None => Seq::empty(),
            Some(i) => self.layout@.order.subrange(
                self.layout@.lo[i as int],
                self.layout@.hi[i as int],
            ),
        }
    }

    /// The number of in-order positions that the subtree of `node` fills.
    pub closed spec fn span(&self, node: int) -> int {
        self.layout@.hi[node] - self.layout@.lo[node]
    }

    /// The tree is in order and obeys the red-black rules but, perhaps, at
    /// the red node `current`.
    pub closed spec fn mending(&self, current: usize) -> bool {
        &&& self.wf()
        &&& current < self.nodes@.len()
        &&& colors_ok_but(self.nodes@, self.root, self.layout@.bh, current as int)
    }

    /// `node` has a parent, and the parent is black.
    pub open spec fn below_black(a: Seq<Node<T>>, node: usize) -> bool {
        a[node as int].parent is Some && a[a[node as int].parent->0 as int].color == Color::Black
    }

    fn parent_or_panic(&self, node: usize) -> (parent: usize)
        requires
            self.wf(),
            node < self.nodes@.len(),
            self.nodes@[node as int].parent is Some,
        ensures
            Some(parent) == self.nodes@[node as int].parent,
            parent < self.nodes@.len(),
            self.span(node as int) < self.span(parent as int),
    {
        proof {
            assert(link_ok(self.nodes@, self.root, self.layout@, node as int));
            assert(link_ok(
                self.nodes@,
                self.root,
                self.layout@,
                self.nodes@[node as int].parent->0 as int,
            ));
        }
        self.nodes[node].parent.unwrap()
    }

    /// The sibling of the parent of `node` and the side of the grandparent
    /// on which it hangs; nothing where `node` has no grandparent.
    fn uncle(&self, node: usize) -> (found: Option<(Option<usize>, RedBlackOp)>)
        requires
            self.wf(),
            node < self.nodes@.len(),
        ensures
            match found {
                Some((uncle, which)) => {
                    &&& self.nodes@[node as int].parent is Some
                    &&& self.nodes@[self.nodes@[node as int].parent->0 as int].parent is Some
                    &&& ({
                        let parent = self.nodes@[node as int].parent->0;
                        let grand = self.nodes@[parent as int].parent->0;
                        &&& parent < self.nodes@.len()
                        &&& grand < self.nodes@.len()
                        &&& which == slot_of(self.nodes@, grand, parent).flip()
                        &&& self.nodes@[grand as int].child(which.flip()) == Some(parent)
                        &&& uncle == self.nodes@[grand as int].child(which)
                    })
                },
                None => self.nodes@[node as int].parent is None
                    || self.nodes@[self.nodes@[node as int].parent->0 as int].parent is None,
            },
    {
        let parent = match self.nodes[node].parent {
            Some(p) => p,
            None => {
                return None;
            },
        };
        proof {
            assert(link_ok(self.nodes@, self.root, self.layout@, node as int));
            assert(link_ok(self.nodes@, self.root, self.layout@, parent as int));
        }
        let grand_parent = match self.nodes[parent].parent {
            Some(g) => g,
            None => {
                return None;
            },
        };
        match self.side_of(grand_parent, parent) {
            RedBlackOp::LeftNode => Some((self.nodes[grand_parent].right, RedBlackOp::RightNode)),
            RedBlackOp::RightNode => Some((self.nodes[grand_parent].left, RedBlackOp::LeftNode)),
        }
    }

    /// One step of the rebalancing at `current`, whose parent is red. With
    /// a red uncle it recolors and hands the grandparent on; otherwise it
    /// rotates, after which no rule is broken. Returns the node that was
    /// made black and the node to go on with.
    #[verifier::rlimit(40)]
    fn balance_single_node(
        &mut self,
        current: usize,
        parent: usize,
        maybe_uncle: Option<usize>,
        uncle_direction: RedBlackOp,
        grand_parent: usize,
    ) -> (next: (usize, usize))
        requires
            old(self).mending(current),
            family(old(self).nodes@, current, parent, grand_parent, uncle_direction),
            maybe_uncle == old(self).nodes@[grand_parent as int].child(uncle_direction),
            uncle_direction == slot_of(old(self).nodes@, grand_parent, parent).flip(),
        ensures
            final(self).mending(next.1),
            (final(self).nodes@, final(self).root, next.1) == step(
                old(self).nodes@,
                old(self).root,
                current,
            ),
            final(self)@ == old(self)@,
            final(self).inorder() == old(self).inorder(),
            final(self).count() == old(self).count(),
            final(self).nodes@.len() == old(self).nodes@.len(),
            old(self).span(current as int) < final(self).span(next.1 as int)
                || Self::below_black(final(self).nodes@, next.1),
    {
        let ghost a = self.nodes@;
        let ghost g = self.layout@;
        proof {
            assert(link_ok(a, self.root, g, current as int));
            assert(link_ok(a, self.root, g, parent as int));
            assert(link_ok(a, self.root, g, grand_parent as int));
        }
        let uncle_is_red = match maybe_uncle {
            Some(u) => self.nodes[u].color == Color::Red,
            None => false,
        };
        match maybe_uncle {
            Some(uncle) if uncle_is_red => {
                proof {
                    lemma_red_uncle_step(
                        a,
                        self.root,
                        g,
                        current,
                        parent,
                        grand_parent,
                        uncle_direction,
                    );
                }
                self.nodes[parent].switch_color(Color::Black);
                self.nodes[uncle].switch_color(Color::Black);
                self.nodes[grand_parent].switch_color(Color::Red);
                proof {
                    assert(self.nodes@ =~= uncle_recolored(a, parent, uncle, grand_parent));
                    lemma_colors_apart_from_shape(a, self.nodes@, self.root, g);
                    self.layout = Ghost(
                        Layout {
                            bh: g.bh.update(grand_parent as int, g.bh[grand_parent as int] + 1),
                            ..g
                        },
                    );
                    assert forall|i: int| 0 <= i < a.len() implies #[trigger] link_ok(
                        self.nodes@,
                        self.root,
                        self.layout@,
                        i,
                    ) by {
                        assert(link_ok(self.nodes@, self.root, g, i));
                    }
                    assert(self@ =~= old(self)@);
                }
                (parent, grand_parent)
            },
            _ => {
                let inner = match self.side_of(parent, current) {
                    RedBlackOp::LeftNode => match uncle_direction {
                        RedBlackOp::LeftNode => true,
                        RedBlackOp::RightNode => false,
                    },
                    RedBlackOp::RightNode => match uncle_direction {
                        RedBlackOp::LeftNode => false,
                        RedBlackOp::RightNode => true,
                    },
                };
                let (next_parent, next_current) = if inner {
                    let direction = Rotation::toward(uncle_direction.flipped());
                    proof {
                        lemma_inner_rotation_step(
                            a,
                            self.root,
                            g,
                            current,
                            parent,
                            grand_parent,
                            uncle_direction,
                            direction,
                        );
                    }
                    self.rotate(parent, direction);
                    (self.parent_or_panic(parent), parent)
                } else {
                    (parent, current)
                };
                let ghost a1 = self.nodes@;
                let ghost g1 = self.layout@;
                let ghost root1 = self.root;
                let direction = Rotation::toward(uncle_direction);
                proof {
                    assert(family(a1, next_current, next_parent, grand_parent, uncle_direction));
                    lemma_outer_rotation_step(
                        a1,
                        root1,
                        g1,
                        next_current,
                        next_parent,
                        grand_parent,
                        uncle_direction,
                        direction,
                    );
                    assert(color_ok(a1, next_parent as int));
                }
                let above = self.parent_or_panic(next_parent);
                self.nodes[next_parent].switch_color(Color::Black);
                self.nodes[above].switch_color(Color::Red);
                proof {
                    assert(self.nodes@ =~= outer_recolored(a1, next_parent, grand_parent));
                    lemma_colors_apart_from_shape(a1, self.nodes@, root1, g1);
                    assert(self@ =~= old(self)@);
                }
                self.rotate(above, direction);
                (next_parent, next_current)
            },
        }
    }

    /// Restores the red-black rules after `inserted` has entered the tree
    /// as a red leaf: recolors and rotates on the way up while a red node
    /// has a red parent, then blackens the root. Returns the root.
    #[verifier::rlimit(40)]
    fn balance(&mut self, inserted: usize) -> (root: Option<usize>)
        requires
            old(self).mending(inserted),
        ensures
            final(self).wf(),
            final(self).is_red_black(),
            root == final(self).root,
            root is Some,
            final(self)@ == old(self)@,
            final(self).inorder() == old(self).inorder(),
            final(self).count() == old(self).count(),
            final(self).nodes@.len() == old(self).nodes@.len(),
            (final(self).nodes@, final(self).root) == rebalanced(
                old(self).nodes@,
                old(self).root,
                inserted,
            ),
    {
        let mut current_is_not_root = !self.nodes[inserted].is_root();
        let mut current = inserted;
        let ghost goal = mended(self.nodes@, self.root, inserted, self.nodes@.len());
        let ghost fuel: nat = self.nodes@.len();
        proof {
            assert(link_ok(self.nodes@, self.root, self.layout@, inserted as int));
            if !current_is_not_root {
                assert(settled(self.nodes@, inserted));
            }
        }
        if current_is_not_root {
            let first_parent = self.parent_or_panic(inserted);
            let mut parent_is_red = self.nodes[first_parent].color == Color::Red;
            while parent_is_red && current_is_not_root
                invariant
                    self.mending(current),
                    mended(self.nodes@, self.root, current, fuel) == goal,
                    settled(self.nodes@, current) || fuel >= self.nodes@.len() - self.span(
                        current as int,
                    ),
                    current_is_not_root == (self.nodes@[current as int].parent is Some),
                    current_is_not_root ==> parent_is_red == (self.nodes@[self.nodes@[current as int].parent->0 as int].color
                        == Color::Red),
                    self@ == old(self)@,
                    self.inorder() == old(self).inorder(),
                    self.count() == old(self).count(),
                    self.nodes@.len() == old(self).nodes@.len(),
                ensures
                    self.nodes@[current as int].parent is None || Self::below_black(
                        self.nodes@,
                        current,
                    ),
                    (self.nodes@, self.root) == goal,
                decreases
                        (if parent_is_red && current_is_not_root {
                            1int
                        } else {
                            0int
                        }),
                        self.nodes@.len() - self.span(current as int),
            {
                let found = self.uncle(current);
                let (maybe_uncle, which) = match found {
                    Some(pair) => pair,
                    None => {
                        proof {
                            let p = self.nodes@[current as int].parent->0;
                            assert(link_ok(self.nodes@, self.root, self.layout@, current as int));
                            assert(link_ok(self.nodes@, self.root, self.layout@, p as int));
                        }
                        break ;
                    },
                };
                let parent = self.parent_or_panic(current);
                let grand_parent = self.parent_or_panic(parent);
                proof {
                    assert(link_ok(self.nodes@, self.root, self.layout@, parent as int));
                    assert(!settled(self.nodes@, current));
                    assert(fuel > 0);
                }
                let ghost span_before = self.span(current as int);
                let (_parent, next_current) = self.balance_single_node(
                    current,
                    parent,
                    maybe_uncle,
                    which,
                    grand_parent,
                );
                current = next_current;
                proof {
                    fuel = (fuel - 1) as nat;
                }
                current_is_not_root = !self.nodes[current].is_root();
                if current_is_not_root {
                    let above = self.parent_or_panic(current);
                    parent_is_red = self.nodes[above].color == Color::Red;
                }
                proof {
                    assert(link_ok(self.nodes@, self.root, self.layout@, current as int));
                }
            }
        }
        let ghost breach = current;
        while !self.nodes[current].is_root()
            invariant
                self.mending(breach),
                current < self.nodes@.len(),
                self.nodes@[breach as int].parent is None || Self::below_black(self.nodes@, breach),
                (self.nodes@, self.root) == goal,
                self@ == old(self)@,
                self.inorder() == old(self).inorder(),
                self.count() == old(self).count(),
                self.nodes@.len() == old(self).nodes@.len(),
            decreases self.nodes@.len() - self.span(current as int),
        {
            current = self.parent_or_panic(current);
            proof {
                assert(link_ok(self.nodes@, self.root, self.layout@, current as int));
            }
        }
        proof {
            assert(link_ok(self.nodes@, self.root, self.layout@, current as int));
            assert(link_ok(self.nodes@, self.root, self.layout@, breach as int));
            lemma_blacken_root(
                self.nodes@,
                current,
                self.layout@.bh,
                breach as int,
                self.layout@,
            );
        }
        let ghost a = self.nodes@;
        self.nodes[current].set_color(Color::Black);
        proof {
            assert(self.nodes@ =~= recolored(a, current as int, Color::Black));
            lemma_colors_apart_from_shape(a, self.nodes@, self.root, self.layout@);
            assert(self@ =~= old(self)@);
        }
        Some(current)
    }

    /// Enters `value` into the tree. A record whose key is already there is
    /// entered once more, behind its equals.
    pub fn insert(&mut self, value: T)
        requires
            old(self).wf(),
            old(self).is_red_black(),
        ensures
            final(self).wf(),
            final(self).is_red_black(),
            exists|p: int| Self::insertion_of(*old(self), *final(self), value, p),
            exists|middle: Self| #[trigger]
                Self::leaf_entered(*old(self), middle, value) && Self::rebalance_of(
                    middle,
                    *final(self),
                ),
            final(self).root_is_black(),
            final(self).no_red_pair(),
            final(self).balanced(),
            final(self).sorted(),
            final(self).count() == final(self)@.len(),
    {
        let ghost a = self.nodes@;
        let ghost g = self.layout@;
        let ghost first = self.root is None;
        let new_node = self.insert_internal(value);
        proof {
            let fresh = Self::fresh(value);
            if first {
                lemma_first_node_colors(a, g.bh, fresh);
                assert(self.nodes@ =~= a.push(fresh));
            } else {
                assert(a.len() < usize::MAX) by {
                    assert(self.nodes.len() <= usize::MAX);
                }
                let (q, side) = choose|q: usize, side: RedBlackOp|
                    q < a.len() && a[q as int].child(side) is None && side == Self::direction_for(
                        a[q as int].v,
                        value,
                    ) && #[trigger] grown(a, fresh, q, side) == self.nodes@;
                lemma_leaf_colors(a, old(self).root, g, fresh, q, side);
            }
        }
        let ghost middle = *self;
        let ghost p = choose|p: int| Self::insertion_of(*old(self), middle, value, p);
        let root = self.balance(new_node);
        self.root = root;
        proof {
            assert(Self::rebalance_of(middle, *self));
            assert(Self::insertion_of(*old(self), *self, value, p));
            self.lemma_red_black_rules();
            self.lemma_sorted_and_counted();
        }
    }
}

impl<T: Keyed> Default for DeviceRegistry<T> {
    /// An empty registry.
    fn default() -> (registry: Self)
        ensures
            registry.wf(),
            registry.is_red_black(),
            registry@.len() == 0,
            registry.count() == 0,
    {
        DeviceRegistry::new()
    }
}

} // verus!
