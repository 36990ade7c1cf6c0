//! Visiting every node of the tree.

use crate::keyed::{Keyed, Labeled};
use crate::red_black_tree::shape::link_ok;
use crate::red_black_tree::DeviceRegistry;
use crate::text::{line, push_line};
use vstd::prelude::*;

verus! {

/// The nodes that a list of visits names, in the order of the visits.
pub open spec fn visited(visits: Seq<(int, int)>) -> Seq<int> {
    Seq::new(visits.len(), |k: int| visits[k].0)
}

/// A list of visits, each a node's index and its depth, as integers.
pub open spec fn as_visits(list: Seq<(usize, usize)>) -> Seq<(int, int)> {
    Seq::new(list.len(), |k: int| (list[k].0 as int, list[k].1 as int))
}

impl<T: Keyed> DeviceRegistry<T> {
    /// The visits that a walk of the subtree behind `link` makes when that
    /// subtree's root is at depth `level`: the root first, then its right
    /// subtree, then its left subtree, each node with its depth.
    pub closed spec fn visits(&self, link: Option<usize>, level: int) -> Seq<(int, int)>
        decreases
                (match link {
                    Some(i) => self.span(i as int),
                    None => 0,
                }),
        when self.wf() && (link is Some ==> link->0 < self.arena().len())
    {
        match link {
            None => Seq::empty(),
            Some(i) => {
                proof {
                    self.lemma_spans_shrink(i);
                }
                seq![(i as int, level)] + self.visits(self.nodes@[i as int].right, level + 1)
                    + self.visits(self.nodes@[i as int].left, level + 1)
            },
        }
    }

    /// A subtree fills at least one position, at most as many as the tree
    /// has nodes, and more than either subtree below it.
    pub proof fn lemma_spans_shrink(&self, node: usize)
        requires
            self.wf(),
            node < self.arena().len(),
        ensures
            0 < self.span(node as int) <= self.arena().len(),
            self.arena()[node as int].left is Some ==> self.arena()[node as int].left->0
                < self.arena().len() && 0 < self.span(self.arena()[node as int].left->0 as int)
                < self.span(node as int),
            self.arena()[node as int].right is Some ==> self.arena()[node as int].right->0
                < self.arena().len() && 0 < self.span(self.arena()[node as int].right->0 as int)
                < self.span(node as int),
            self.top() == Some(node) ==> self.span(node as int) == self.arena().len(),
    {
        let a = self.nodes@;
        assert(link_ok(a, self.root, self.layout@, node as int));
        if a[node as int].left is Some {
            assert(link_ok(a, self.root, self.layout@, a[node as int].left->0 as int));
        }
        if a[node as int].right is Some {
            assert(link_ok(a, self.root, self.layout@, a[node as int].right->0 as int));
        }
    }

    /// A walk visits nothing behind an empty link; behind a link to a node
    /// it visits that node, then what lies to its right, then what lies to
    /// its left, one level further down.
    pub proof fn lemma_visits_unfold(&self, link: Option<usize>, level: int)
        requires
            self.wf(),
            link is Some ==> link->0 < self.arena().len(),
        ensures
            self.visits(link, level) == match link {
                None => Seq::empty(),
                Some(i) => seq![(i as int, level)] + self.visits(
                    self.arena()[i as int].right,
                    level + 1,
                ) + self.visits(self.arena()[i as int].left, level + 1),
            },
    {
        if link is Some {
            self.lemma_spans_shrink(link->0);
        }
    }

    /// A walk of a subtree visits the nodes of the subtree, each as often
    /// as the in-order sequence of the subtree holds it.
    proof fn lemma_visits_cover(&self, link: Option<usize>, level: int)
        requires
            self.wf(),
            link is Some ==> link->0 < self.arena().len(),
        ensures
            visited(self.visits(link, level)).to_multiset() == self.subtree(link).to_multiset(),
        decreases
                (match link {
                    Some(i) => self.span(i as int),
                    None => 0,
                }),
    {
        broadcast use vstd::seq_lib::lemma_multiset_commutative;
        broadcast use vstd::multiset::group_multiset_axioms;

        self.lemma_visits_unfold(link, level);
        match link {
            None => {
                assert(visited(self.visits(link, level)) =~= Seq::<int>::empty());
                assert(self.subtree(link) =~= Seq::<int>::empty());
            },
            Some(i) => {
                self.lemma_spans_shrink(i);
                self.lemma_inorder_unfold(i);
                let left = self.arena()[i as int].left;
                let right = self.arena()[i as int].right;
                self.lemma_visits_cover(right, level + 1);
                self.lemma_visits_cover(left, level + 1);
                let here = seq![i as int];
                let on_right = visited(self.visits(right, level + 1));
                let on_left = visited(self.visits(left, level + 1));
                assert(visited(self.visits(link, level)) =~= here + on_right + on_left);
                assert((here + on_right + on_left).to_multiset() =~= (self.subtree(left) + here
                    + self.subtree(right)).to_multiset());
            },
        }
    }

    /// A walk of the whole tree visits every node exactly once.
    pub proof fn lemma_walk_visits_each_once(&self)
        requires
            self.wf(),
        ensures
            self.visits(self.top(), 0).len() == self.arena().len(),
            forall|i: int|
                0 <= i < self.arena().len() ==> #[trigger] visited(
                    self.visits(self.top(), 0),
                ).to_multiset().count(i) == 1,
    {
        broadcast use vstd::seq_lib::group_to_multiset_ensures;

        let order = self.layout@.order;
        let all = visited(self.visits(self.top(), 0));
        if self.top() is Some {
            self.lemma_spans_shrink(self.top()->0);
            self.lemma_inorder_unfold(self.top()->0);
        } else {
            assert(order =~= Seq::<int>::empty());
            assert(self.subtree(None) =~= order);
        }
        self.lemma_visits_cover(self.top(), 0);
        assert(order.no_duplicates());
        order.lemma_multiset_has_no_duplicates();
        assert forall|i: int| 0 <= i < self.arena().len() implies #[trigger] all.to_multiset().count(
            i,
        ) == 1 by {
            assert(link_ok(self.nodes@, self.root, self.layout@, i));
            assert(order[self.layout@.pos[i]] == i);
            assert(order.contains(i));
        }
        assert(all.len() == all.to_multiset().len());
        assert(order.len() == order.to_multiset().len());
    }

    /// The visits of a walk of the whole tree, in order.
    pub fn traversal(&self) -> (out: Vec<(usize, usize)>)
        requires
            self.wf(),
        ensures
            as_visits(out@) == self.visits(self.top(), 0),
            out@.len() == self.arena().len(),
            forall|k: int| 0 <= k < out@.len() ==> (#[trigger] out@[k]).0 < self.arena().len(),
    {
        proof {
            self.lemma_walk_visits_each_once();
        }
        let mut out: Vec<(usize, usize)> = Vec::new();
        assert(as_visits(out@) =~= Seq::empty());
        match self.root {
            Some(root) => {
                proof {
                    self.lemma_spans_shrink(root);
                }
                self.walk_rec(root, 0, &mut out);
                assert(as_visits(out@) =~= self.visits(self.top(), 0));
            },
            None => {},
        }
        out
    }

    /// Appends the visits of the subtree of `node`, which stands at depth
    /// `level`.
    fn walk_rec(&self, node: usize, level: usize, out: &mut Vec<(usize, usize)>)
        requires
            self.wf(),
            node < self.nodes@.len(),
            level + self.span(node as int) <= self.nodes@.len(),
            forall|k: int| 0 <= k < old(out)@.len() ==> (#[trigger] old(out)@[k]).0 < self.nodes@.len(),
        ensures
            as_visits(final(out)@) == as_visits(old(out)@) + self.visits(Some(node), level as int),
            forall|k: int| 0 <= k < final(out)@.len() ==> (#[trigger] final(out)@[k]).0 < self.nodes@.len(),
        decreases self.span(node as int),
    {
        proof {
            self.lemma_spans_shrink(node);
            self.lemma_visits_unfold(Some(node), level as int);
            assert(self.nodes.len() <= usize::MAX);
        }
        let ghost before = as_visits(out@);
        out.push((node, level));
        assert(as_visits(out@) =~= before + seq![(node as int, level as int)]);
        let ghost first = as_visits(out@);
        match self.nodes[node].right {
            Some(right) => {
                self.walk_rec(right, level + 1, out);
            },
            None => {
                proof {
                    self.lemma_visits_unfold(None, level + 1);
                }
                assert(as_visits(out@) =~= first + self.visits(None, level + 1));
            },
        }
        let ghost second = as_visits(out@);
        match self.nodes[node].left {
            Some(left) => {
                self.walk_rec(left, level + 1, out);
            },
            None => {
                proof {
                    self.lemma_visits_unfold(None, level + 1);
                }
                assert(as_visits(out@) =~= second + self.visits(None, level + 1));
            },
        }
        assert(as_visits(out@) =~= before + self.visits(Some(node), level as int));
    }

    /// Calls `callback` with the record and the depth of every node: a node
    /// first, then the nodes to its right, then those to its left.
    pub fn walk(&self, mut callback: impl FnMut(&T, usize))
        requires
            self.wf(),
            forall|record: &T, level: usize| call_requires(callback, (record, level)),
    {
        let order = self.traversal();
        let mut k: usize = 0;
        while k < order.len()
            invariant
                forall|j: int| 0 <= j < order@.len() ==> (#[trigger] order@[j]).0 < self.nodes@.len(),
                forall|record: &T, level: usize| call_requires(callback, (record, level)),
            decreases order.len() - k,
        {
            let (node, level) = order[k];
            callback(&self.nodes[node].v, level);
            k += 1;
        }
    }
}

impl<T: Keyed + Labeled> DeviceRegistry<T> {
    /// The text of a dump that makes the given visits: one line for each,
    /// indented by the depth of the node.
    pub open spec fn rendering(&self, visits: Seq<(int, int)>) -> Seq<char>
        decreases visits.len(),
    {
        if visits.len() == 0 {
            Seq::empty()
        } else {
            self.rendering(visits.drop_last()) + line(
                visits.last().1,
                self.arena()[visits.last().0].v.label(),
            )
        }
    }

    /// Dumps the tree as text: one line for each node in the order of a
    /// walk.
    pub fn render(&self) -> (text: String)
        requires
            self.wf(),
        ensures
            text@ == self.rendering(self.visits(self.top(), 0)),
    {
        let order = self.traversal();
        let mut text = String::new();
        let mut k: usize = 0;
        while k < order.len()
            invariant
                k <= order@.len(),
                forall|j: int| 0 <= j < order@.len() ==> (#[trigger] order@[j]).0 < self.nodes@.len(),
                text@ == self.rendering(as_visits(order@).subrange(0, k as int)),
            decreases order.len() - k,
        {
            let (node, level) = order[k];
            let label = self.nodes[node].v.to_label();
            push_line(&mut text, level, label.as_str());
            k += 1;
            proof {
                let upto = as_visits(order@).subrange(0, k as int);
                assert(upto.drop_last() =~= as_visits(order@).subrange(0, k - 1));
                assert(upto.last() == (node as int, level as int));
            }
        }
        assert(as_visits(order@).subrange(0, k as int) =~= as_visits(order@));
        text
    }
}

} // verus!
