//! The node of a B-tree of devices, and a tree that so far grows a single
//! leaf.

use crate::iot::IoTDevice;
use vstd::prelude::*;

verus! {

pub type Tree = Box<Node>;

pub type Key = u64;

pub type ValueChildPair = (Option<IoTDevice>, Option<Tree>);

/// A node with this many values has to be split.
pub const DEFAULT_ORDER: usize = 3;

#[derive(Clone, Copy, Debug, PartialEq)]
pub enum NodeType {
    Leaf,
    Regular,
}

/// Where a key belongs among the values of a node.
#[derive(Clone, PartialEq)]
pub enum Direction {
    /// Before every value: with the leftmost child.
    Left,
    /// Behind the value at the given index.
    Right(usize),
}

/// A node of the B-tree: values in a row, behind each the child for the
/// keys that follow it, and before the first the leftmost child.
#[derive(Debug, PartialEq)]
pub struct Node {
    values: Vec<Option<IoTDevice>>,
    children: Vec<Option<Tree>>,
    left_child: Option<Tree>,
    pub node_type: NodeType,
}

/// The first index from `from` on at which `values` holds a device whose
/// id exceeds `key`; the length of `values` where there is none.
pub open spec fn stop_index(values: Seq<Option<IoTDevice>>, key: Key, from: int) -> int
    decreases values.len() - from,
{
    if from < 0 || from >= values.len() {
        values.len() as int
    } else if values[from] is Some && values[from]->0.numeriacl_id > key {
        from
    } else {
        stop_index(values, key, from + 1)
    }
}

/// The last index below `upto` at which `values` holds a device, as a
/// direction; left where there is none.
pub open spec fn last_filled(values: Seq<Option<IoTDevice>>, upto: int) -> Direction
    decreases upto,
{
    if upto <= 0 {
        Direction::Left
    } else if values[upto - 1] is Some {
        Direction::Right((upto - 1) as usize)
    } else {
        last_filled(values, upto - 1)
    }
}

/// Where `key` belongs among `values`: behind the last device before the
/// first one whose id exceeds `key`.
pub open spec fn closest(values: Seq<Option<IoTDevice>>, key: Key) -> Direction {
    last_filled(values, stop_index(values, key, 0))
}

/// The index at which a value that belongs in direction `d` is entered.
pub open spec fn slot_after(d: Direction) -> int {
    match d {
        Direction::Left => 0,
        Direction::Right(i) => i + 1,
    }
}

/// The first device among `values` from `from` on with the id `key`.
pub open spec fn first_with(values: Seq<Option<IoTDevice>>, key: Key, from: int) -> Option<
    IoTDevice,
>
    decreases values.len() - from,
{
    if from < 0 || from >= values.len() {
        None
    } else if values[from] is Some && values[from]->0.numeriacl_id == key {
        values[from]
    } else {
        first_with(values, key, from + 1)
    }
}

impl Node {
    /// The values, in their row.
    pub closed spec fn slots(&self) -> Seq<Option<IoTDevice>> {
        self.values@
    }

    /// The children, each behind the value of the same index.
    pub closed spec fn branches(&self) -> Seq<Option<Tree>> {
        self.children@
    }

    /// The child before the first value.
    pub closed spec fn leftmost(&self) -> Option<Tree> {
        self.left_child
    }

    /// Whether the node is a leaf.
    pub closed spec fn kind(&self) -> NodeType {
        self.node_type
    }

    /// Every value has its child slot.
    pub open spec fn wf(&self) -> bool {
        self.slots().len() == self.branches().len()
    }

    pub fn new_leaf() -> (node: Tree)
        ensures
            node.kind() == NodeType::Leaf,
            node.slots().len() == 0,
            node.branches().len() == 0,
            node.leftmost() is None,
    {
        Node::new(NodeType::Leaf)
    }

    pub fn new_regular() -> (node: Tree)
        ensures
            node.kind() == NodeType::Regular,
            node.slots().len() == 0,
            node.branches().len() == 0,
            node.leftmost() is None,
    {
        Node::new(NodeType::Regular)
    }

    fn new(node_type: NodeType) -> (node: Tree)
        ensures
            node.kind() == node_type,
            node.slots().len() == 0,
            node.branches().len() == 0,
            node.leftmost() is None,
    {
        Box::new(Node { values: Vec::new(), children: Vec::new(), left_child: None, node_type })
    }

    fn from_nodes(
        node_type: NodeType,
        left: Option<Box<Node>>,
        values: Vec<Option<IoTDevice>>,
        children: Vec<Option<Tree>>,
    ) -> (node: Tree)
        ensures
            node.kind() == node_type,
            node.slots() == values@,
            node.branches() == children@,
            node.leftmost() == left,
    {
        Box::new(Node { values, children, left_child: left, node_type })
    }

    pub fn len(&self) -> (n: usize)
        ensures
            n == self.slots().len(),
    {
        self.values.len()
    }

    pub fn is_empty(&self) -> (empty: bool)
        ensures
            empty == (self.slots().len() == 0),
    {
        self.values.len() == 0
    }

    /// The values of the node.
    pub fn values(&self) -> (row: &Vec<Option<IoTDevice>>)
        ensures
            row@ == self.slots(),
    {
        &self.values
    }

    /// The children of the node behind its values.
    pub fn children(&self) -> (row: &Vec<Option<Tree>>)
        ensures
            row@ == self.branches(),
    {
        &self.children
    }

    /// Where `key` belongs among the values.
    pub fn find_closest_index(&self, key: Key) -> (index: Direction)
        ensures
            index == closest(self.slots(), key),
            slot_after(index) <= self.slots().len(),
    {
        let mut index = Direction::Left;
        let mut i: usize = 0;
        let n = self.values.len();
        while i < n
            invariant
                n == self.values@.len(),
                i <= n,
                index == last_filled(self.values@, i as int),
                stop_index(self.values@, key, 0) == stop_index(self.values@, key, i as int),
                slot_after(index) <= i,
            ensures
                index == closest(self.values@, key),
                slot_after(index) <= n,
            decreases n - i,
        {
            match &self.values[i] {
                Some(value) => {
                    if value.numeriacl_id <= key {
                        index = Direction::Right(i);
                    } else {
                        break ;
                    }
                },
                None => {},
            }
            i += 1;
        }
        index
    }

    /// Enters a value and the child behind it where `key` belongs.
    pub fn add_key(&mut self, key: Key, value: ValueChildPair) -> (added: bool)
        requires
            old(self).wf(),
        ensures
            added,
            final(self).wf(),
            0 <= slot_after(closest(old(self).slots(), key)) <= old(self).slots().len(),
            final(self).slots() == old(self).slots().insert(
                slot_after(closest(old(self).slots(), key)),
                value.0,
            ),
            final(self).branches() == old(self).branches().insert(
                slot_after(closest(old(self).slots(), key)),
                value.1,
            ),
            final(self).leftmost() == old(self).leftmost(),
            final(self).kind() == old(self).kind(),
    {
        let n = self.values.len();
        let index = match self.find_closest_index(key) {
            Direction::Left => 0,
            Direction::Right(i) => i + 1,
        };
        let (dev, tree) = value;

        self.values.insert(index, dev);
        self.children.insert(index, tree);
        true
    }

    /// Hangs `tree` before the first value.
    pub fn set_left_child(&mut self, tree: Tree)
        ensures
            final(self).leftmost() == Some(tree),
            final(self).slots() == old(self).slots(),
            final(self).branches() == old(self).branches(),
            final(self).kind() == old(self).kind(),
    {
        self.left_child = Some(tree);
    }

    /// Takes out what is closest to `key`: the leftmost child where the
    /// key belongs before every value, else the value behind which it
    /// belongs, with its child.
    pub fn remove_key(&mut self, key: Key) -> (removed: Option<(Key, ValueChildPair)>)
        requires
            old(self).wf(),
        ensures
            final(self).wf(),
            final(self).kind() == old(self).kind(),
            match closest(old(self).slots(), key) {
                Direction::Left => {
                    &&& removed == Some((key, (None::<IoTDevice>, old(self).leftmost())))
                    &&& final(self).leftmost() is None
                    &&& final(self).slots() == old(self).slots()
                    &&& final(self).branches() == old(self).branches()
                },
                Direction::Right(i) => {
                    &&& removed == Some(
                        (key, (old(self).slots()[i as int], old(self).branches()[i as int])),
                    )
                    &&& final(self).leftmost() == old(self).leftmost()
                    &&& final(self).slots() == old(self).slots().remove(i as int)
                    &&& final(self).branches() == old(self).branches().remove(i as int)
                },
            },
    {
        match self.find_closest_index(key) {
            Direction::Left => {
                let tree = self.left_child.take();
                Some((key, (None, tree)))
            },
            Direction::Right(i) => {
                let value = self.values.remove(i);
                let tree = self.children.remove(i);
                Some((key, (value, tree)))
            },
        }
    }

    /// The first device with the id `key`.
    pub fn find_value(&self, key: Key) -> (found: Option<&IoTDevice>)
        ensures
            match found {
                Some(device) => first_with(self.slots(), key, 0) == Some(*device),
                None => first_with(self.slots(), key, 0) is None,
            },
    {
        let mut i: usize = 0;
        let n = self.values.len();
        while i < n
            invariant
                n == self.values@.len(),
                i <= n,
                first_with(self.values@, key, 0) == first_with(self.values@, key, i as int),
            decreases n - i,
        {
            match &self.values[i] {
                Some(device) => {
                    if device.numeriacl_id == key {
                        return Some(device);
                    }
                },
                None => {},
            }
            i += 1;
        }
        None
    }

    /// The child in which `key` belongs.
    pub open spec fn child_for(&self, key: Key) -> Option<Tree> {
        match closest(self.slots(), key) {
            Direction::Left => self.leftmost(),
            Direction::Right(i) => if i < self.branches().len() {
                self.branches()[i as int]
            } else {
                None
            },
        }
    }

    /// The child in which `key` belongs, if the node has it.
    pub fn find_child(&self, key: Key) -> (child: Option<&Tree>)
        ensures
            match child {
                Some(tree) => self.child_for(key) == Some(*tree),
                None => self.child_for(key) is None,
            },
    {
        match self.find_closest_index(key) {
            Direction::Left => self.left_child.as_ref(),
            Direction::Right(i) => {
                if i < self.children.len() {
                    self.children[i].as_ref()
                } else {
                    None
                }
            },
        }
    }

    /// The slot of the child in which `key` belongs, to be filled or
    /// emptied in place.
    pub fn find_child_mut(&mut self, key: Key) -> (child: Option<&mut Option<Tree>>)
        ensures
            final(self).slots() == old(self).slots(),
            final(self).kind() == old(self).kind(),
            match closest(old(self).slots(), key) {
                Direction::Left => {
                    &&& child is Some
                    &&& *child->0 == old(self).leftmost()
                    &&& final(self).leftmost() == *final(child->0)
                    &&& final(self).branches() == old(self).branches()
                },
                Direction::Right(i) => if i < old(self).branches().len() {
                    &&& child is Some
                    &&& *child->0 == old(self).branches()[i as int]
                    &&& final(self).branches() == old(self).branches().update(
                        i as int,
                        *final(child->0),
                    )
                    &&& final(self).leftmost() == old(self).leftmost()
                } else {
                    &&& child is None
                    &&& final(self).branches() == old(self).branches()
                    &&& final(self).leftmost() == old(self).leftmost()
                },
            },
    {
        match self.find_closest_index(key) {
            Direction::Left => Some(&mut self.left_child),
            Direction::Right(i) => {
                if i < self.children.len() {
                    Some(&mut self.children[i])
                } else {
                    None
                }
            },
        }
    }

    /// True where the node holds as many values as it can, or more: it
    /// has to be split.
    pub fn is_overflow(&self) -> (full: bool)
        ensures
            full == (self.slots().len() >= DEFAULT_ORDER),
    {
        self.len() >= DEFAULT_ORDER
    }

    /// Takes the value at `index`, which must hold a device, and all that
    /// follows it out of the node. Gives the device and a node of the
    /// same kind with what followed; the child behind the device becomes
    /// the leftmost child of that node.
    fn take_after(&mut self, index: usize) -> (taken: (IoTDevice, Tree))
        requires
            old(self).wf(),
            index < old(self).slots().len(),
            old(self).slots()[index as int] is Some,
        ensures
            final(self).wf(),
            final(self).kind() == old(self).kind(),
            final(self).leftmost() == old(self).leftmost(),
            final(self).slots() == old(self).slots().subrange(0, index as int),
            final(self).branches() == old(self).branches().subrange(0, index as int),
            Some(taken.0) == old(self).slots()[index as int],
            taken.1.wf(),
            taken.1.kind() == old(self).kind(),
            taken.1.leftmost() == old(self).branches()[index as int],
            taken.1.slots() == old(self).slots().subrange(
                index + 1,
                old(self).slots().len() as int,
            ),
            taken.1.branches() == old(self).branches().subrange(
                index + 1,
                old(self).slots().len() as int,
            ),
    {
        let mid_value = self.values.remove(index);
        let mid_node = self.children.remove(index);
        let mut new_values: Vec<Option<IoTDevice>> = Vec::new();
        let mut new_children: Vec<Option<Tree>> = Vec::new();
        let ghost total = old(self).values@.len() as int;
        while index < self.values.len()
            invariant
                self.values@.len() == self.children@.len(),
                index <= self.values@.len(),
                total == old(self).values@.len(),
                old(self).values@.len() == old(self).children@.len(),
                self.node_type == old(self).node_type,
                self.left_child == old(self).left_child,
                new_values@.len() == new_children@.len(),
                new_values@.len() + self.values@.len() == total - 1,
                self.values@.subrange(0, index as int) == old(self).values@.subrange(
                    0,
                    index as int,
                ),
                self.children@.subrange(0, index as int) == old(self).children@.subrange(
                    0,
                    index as int,
                ),
                new_values@ + self.values@.subrange(index as int, self.values@.len() as int)
                    == old(self).values@.subrange(index + 1, total),
                new_children@ + self.children@.subrange(index as int, self.children@.len() as int)
                    == old(self).children@.subrange(index + 1, total),
            decreases self.values@.len(),
        {
            let ghost values_before = self.values@;
            let ghost children_before = self.children@;
            let ghost moved_values = new_values@;
            let ghost moved_children = new_children@;
            let value = self.values.remove(index);
            let child = self.children.remove(index);
            new_values.push(value);
            new_children.push(child);
            proof {
                assert(self.values@.subrange(0, index as int) =~= values_before.subrange(
                    0,
                    index as int,
                ));
                assert(self.children@.subrange(0, index as int) =~= children_before.subrange(
                    0,
                    index as int,
                ));
                assert(new_values@ + self.values@.subrange(
                    index as int,
                    self.values@.len() as int,
                ) =~= moved_values + values_before.subrange(
                    index as int,
                    values_before.len() as int,
                ));
                assert(new_children@ + self.children@.subrange(
                    index as int,
                    self.children@.len() as int,
                ) =~= moved_children + children_before.subrange(
                    index as int,
                    children_before.len() as int,
                ));
            }
        }
        proof {
            assert(self.values@ =~= self.values@.subrange(0, index as int));
            assert(self.children@ =~= self.children@.subrange(0, index as int));
            assert(new_values@ =~= new_values@ + self.values@.subrange(
                index as int,
                self.values@.len() as int,
            ));
            assert(new_children@ =~= new_children@ + self.children@.subrange(
                index as int,
                self.children@.len() as int,
            ));
        }
        let new_node = Node::from_nodes(self.node_type.clone(), mid_node, new_values, new_children);
        (mid_value.unwrap(), new_node)
    }

    /// The index of the middle value.
    pub open spec fn middle(&self) -> int {
        self.slots().len() as int / 2
    }

    /// Splits a node that has to be split: the middle value leaves the
    /// node, and what followed it moves into a new node of the same kind.
    /// Gives the middle device, which must be there, and the new node.
    pub fn split(&mut self) -> (halves: (IoTDevice, Tree))
        requires
            old(self).wf(),
            old(self).slots().len() >= DEFAULT_ORDER,
            old(self).slots()[old(self).middle()] is Some,
        ensures
            final(self).wf(),
            final(self).kind() == old(self).kind(),
            final(self).leftmost() == old(self).leftmost(),
            final(self).slots() == old(self).slots().subrange(0, old(self).middle()),
            final(self).branches() == old(self).branches().subrange(
                0,
                old(self).middle(),
            ),
            Some(halves.0) == old(self).slots()[old(self).middle()],
            halves.1.wf(),
            halves.1.kind() == old(self).kind(),
            halves.1.leftmost() == old(self).branches()[old(self).middle()],
            halves.1.slots() == old(self).slots().subrange(
                old(self).middle() + 1,
                old(self).slots().len() as int,
            ),
            halves.1.branches() == old(self).branches().subrange(
                old(self).middle() + 1,
                old(self).slots().len() as int,
            ),
    {
        let mid = self.len() / 2;
        let (orphan_value, new_n) = self.take_after(mid);
        (orphan_value, new_n)
    }
}

/// A B-tree of devices. It grows one leaf, in which the devices stand in
/// the order in which their keys put them.
pub struct BTree {
    root: Option<Tree>,
    order: usize,
    length: u64,
}

impl BTree {
    /// The values of the leaf; none where the tree is empty.
    pub closed spec fn row(&self) -> Seq<Option<IoTDevice>> {
        match self.root {
            Some(node) => node.slots(),
            None => Seq::empty(),
        }
    }

    /// The counter of devices.
    pub closed spec fn count(&self) -> u64 {
        self.length
    }

    /// The root, if there is one, is a leaf without children, and the
    /// counter is the number of its values.
    pub closed spec fn wf(&self) -> bool {
        match self.root {
            Some(node) => {
                &&& node.kind() == NodeType::Leaf
                &&& node.wf()
                &&& node.leftmost() is None
                &&& forall|i: int| 0 <= i < node.branches().len() ==> node.branches()[i] is None
                &&& self.length == node.slots().len()
            },
            None => self.length == 0,
        }
    }

    /// An empty tree.
    pub fn new() -> (tree: Self)
        ensures
            tree.wf(),
            tree.row().len() == 0,
            tree.count() == 0,
    {
        BTree { root: None, order: DEFAULT_ORDER, length: 0 }
    }

    /// The number of devices.
    pub fn length(&self) -> (n: u64)
        ensures
            n == self.count(),
    {
        self.length
    }

    /// Enters `value` where `key` belongs among the devices.
    pub fn add(&mut self, key: Key, value: IoTDevice)
        requires
            old(self).wf(),
        ensures
            final(self).wf(),
            final(self).row() == old(self).row().insert(
                slot_after(closest(old(self).row(), key)),
                Some(value),
            ),
            final(self).count() == old(self).count() + 1,
    {
        let root = match self.root.take() {
            Some(node) => node,
            None => Node::new_leaf(),
        };
        let ghost before = root.branches();
        let (new_root, _) = self.add_rec(root, key, value, true);
        proof {
            let at = slot_after(closest(old(self).row(), key));
            assert forall|i: int| 0 <= i < new_root.branches().len() implies new_root.branches()[i] is None by {
                if i < at {
                    assert(new_root.branches()[i] == before[i]);
                } else if i > at {
                    assert(new_root.branches()[i] == before[i - 1]);
                }
            }
        }
        self.root = Some(new_root);
    }

    /// Enters `value` into the leaf `target` where `key` belongs, and
    /// counts it.
    fn add_rec(&mut self, target: Tree, key: Key, value: IoTDevice, is_root: bool) -> (result: (
        Tree,
        Option<ValueChildPair>,
    ))
        requires
            target.wf(),
            target.kind() == NodeType::Leaf,
            old(self).length == target.slots().len(),
        ensures
            result.1 is None,
            result.0.wf(),
            result.0.kind() == NodeType::Leaf,
            0 <= slot_after(closest(target.slots(), key)) <= target.slots().len(),
            result.0.leftmost() == target.leftmost(),
            result.0.slots() == target.slots().insert(
                slot_after(closest(target.slots(), key)),
                Some(value),
            ),
            result.0.branches() == target.branches().insert(
                slot_after(closest(target.slots(), key)),
                None,
            ),
            final(self).length == old(self).length + 1,
            final(self).root == old(self).root,
            final(self).order == old(self).order,
    {
        let mut node = target;
        if node.add_key(key, (Some(value), None)) {
            assert(node.slots().len() == old(self).length + 1);
            assert(node.values.len() <= usize::MAX);
            self.length += 1;
        }
        (node, None)
    }

    /// The first device with the id `key`.
    pub fn find(&self, key: Key) -> (found: Option<&IoTDevice>)
        requires
            self.wf(),
        ensures
            match found {
                Some(device) => first_with(self.row(), key, 0) == Some(*device),
                None => first_with(self.row(), key, 0) is None,
            },
    {
        let root = match self.root.as_ref() {
            Some(root) => root,
            None => {
                return None;
            },
        };
        let mut current = root;
        loop
            invariant
                self.wf(),
                self.root == Some(*current),
            decreases 0int,
        {
            match current.find_value(key) {
                Some(value) => {
                    return Some(value);
                },
                None => {
                    // The leaf has no child to descend into.
                    assert(current.child_for(key) is None);
                    match current.find_child(key) {
                        Some(child) => {
                            current = child;
                        },
                        None => {
                            return None;
                        },
                    }
                },
            }
        }
    }
}

impl Default for BTree {
    fn default() -> (tree: Self)
        ensures
            tree.wf(),
            tree.row().len() == 0,
            tree.count() == 0,
    {
        BTree::new()
    }
}

} // verus!
