//! What holds of every registry: the red-black rules in terms of the
//! links alone, and how the operations fit together.

use crate::keyed::Keyed;
use crate::red_black_tree::coloring::{color_ok, height_ok, weight};
use crate::red_black_tree::shape::{leads_to, lemma_rotation_undone, link_ok};
use crate::red_black_tree::{Color, DeviceRegistry, Rotation};
use vstd::prelude::*;

verus! {

impl<T: Keyed> DeviceRegistry<T> {
    /// The root, if there is one, is black.
    pub open spec fn root_is_black(&self) -> bool {
        self.top() is Some ==> self.arena()[self.top()->0 as int].color == Color::Black
    }

    /// No red node has a red child.
    pub open spec fn no_red_pair(&self) -> bool {
        forall|i: int, c: int|
            0 <= i < self.arena().len() && 0 <= c < self.arena().len() && (leads_to(
                #[trigger] self.arena()[i].left,
                c,
            ) || leads_to(self.arena()[i].right, c)) && self.arena()[i].color == Color::Red
                ==> #[trigger] self.arena()[c].color == Color::Black
    }

    /// `path` runs down the tree from node to child and ends at a node with
    /// an empty position below it.
    pub open spec fn descent(&self, path: Seq<int>) -> bool {
        &&& path.len() > 0
        &&& forall|k: int| 0 <= k < path.len() ==> 0 <= #[trigger] path[k] < self.arena().len()
        &&& forall|k: int|
            0 <= k < path.len() - 1 ==> leads_to(self.arena()[#[trigger] path[k]].left, path[k + 1])
                || leads_to(self.arena()[path[k]].right, path[k + 1])
        &&& (self.arena()[path.last()].left is None || self.arena()[path.last()].right is None)
    }

    /// The number of black nodes on `path`.
    pub open spec fn blacks(&self, path: Seq<int>) -> nat
        decreases path.len(),
    {
        if path.len() == 0 {
            0
        } else if self.arena()[path[0]].color == Color::Black {
            1 + self.blacks(path.drop_first())
        } else {
            self.blacks(path.drop_first())
        }
    }

    /// Any two paths from one node down to an empty position pass the same
    /// number of black nodes.
    pub open spec fn balanced(&self) -> bool {
        forall|p: Seq<int>, q: Seq<int>|
            #![trigger self.descent(p), self.descent(q)]
            self.descent(p) && self.descent(q) && p[0] == q[0] ==> self.blacks(p) == self.blacks(
                q,
            )
    }

    /// The keys do not decrease along the in-order sequence.
    pub open spec fn sorted(&self) -> bool {
        forall|j: int, k: int|
            0 <= j <= k < self@.len() ==> (#[trigger] self@[j]).key() <= (#[trigger] self@[k]).key()
    }

    /// A path down from node `i` passes as many black nodes as the
    /// bookkeeping says.
    proof fn lemma_descent_weight(&self, path: Seq<int>)
        requires
            self.wf(),
            self.is_red_black(),
            self.descent(path),
        ensures
            self.blacks(path) == weight(self.nodes@, self.layout@.bh, Some(path[0] as usize)),
        decreases path.len(),
    {
        let a = self.nodes@;
        let bh = self.layout@.bh;
        let i = path[0];
        assert(height_ok(a, bh, i));
        assert(link_ok(a, self.root, self.layout@, i));
        let rest = path.drop_first();
        if path.len() == 1 {
            assert(rest.len() == 0);
            assert(self.blacks(rest) == 0);
            assert(path.last() == i);
        } else {
            assert(rest[0] == path[1]);
            assert(rest.last() == path.last());
            assert forall|k: int| 0 <= k < rest.len() - 1 implies leads_to(
                a[#[trigger] rest[k]].left,
                rest[k + 1],
            ) || leads_to(a[rest[k]].right, rest[k + 1]) by {
                assert(rest[k] == path[k + 1]);
                assert(rest[k + 1] == path[k + 2]);
            }
            assert forall|k: int| 0 <= k < rest.len() implies 0 <= #[trigger] rest[k] < a.len() by {
                assert(rest[k] == path[k + 1]);
            }
            assert(self.descent(rest));
            self.lemma_descent_weight(rest);
            assert(leads_to(a[path[0]].left, path[1]) || leads_to(a[path[0]].right, path[1]));
        }
    }

    /// A registry that is well formed and red-black obeys the red-black
    /// rules as the links and colors show them: the root is black, no red
    /// node has a red child, and all paths from a node down to an empty
    /// position pass the same number of black nodes.
    pub proof fn lemma_red_black_rules(&self)
        requires
            self.wf(),
            self.is_red_black(),
        ensures
            self.root_is_black(),
            self.no_red_pair(),
            self.balanced(),
    {
        let a = self.nodes@;
        assert forall|i: int, c: int|
            0 <= i < a.len() && 0 <= c < a.len() && (leads_to(#[trigger] a[i].left, c) || leads_to(
                a[i].right,
                c,
            )) && a[i].color == Color::Red implies #[trigger] a[c].color == Color::Black by {
            assert(link_ok(a, self.root, self.layout@, i));
            assert(color_ok(a, c));
        }
        assert forall|p: Seq<int>, q: Seq<int>|
            #![trigger self.descent(p), self.descent(q)]
            self.descent(p) && self.descent(q) && p[0] == q[0] implies self.blacks(p)
                == self.blacks(q) by {
            self.lemma_descent_weight(p);
            self.lemma_descent_weight(q);
        }
    }

    /// In a well-formed registry the links agree: a child names its parent,
    /// a parent holds its child on one side, and the root, and no other
    /// node, is without parent.
    pub proof fn lemma_links_agree(&self, node: usize)
        requires
            self.wf(),
            node < self.arena().len(),
        ensures
            self.top() is Some,
            self.top()->0 < self.arena().len(),
            self.arena()[node as int].parent is None <==> self.top() == Some(node),
            match self.arena()[node as int].left {
                Some(c) => c < self.arena().len() && c != node && self.arena()[c as int].parent
                    == Some(node),
                None => true,
            },
            match self.arena()[node as int].right {
                Some(c) => c < self.arena().len() && c != node && self.arena()[c as int].parent
                    == Some(node) && self.arena()[node as int].left != Some(c),
                None => true,
            },
            match self.arena()[node as int].parent {
                Some(p) => p < self.arena().len() && p != node && (self.arena()[p as int].left
                    == Some(node) || self.arena()[p as int].right == Some(node)),
                None => true,
            },
    {
        let a = self.nodes@;
        let g = self.layout@;
        assert(link_ok(a, self.root, g, node as int));
        assert(link_ok(a, self.root, g, self.root->0 as int));
        if a[node as int].left is Some {
            assert(link_ok(a, self.root, g, a[node as int].left->0 as int));
        }
        if a[node as int].right is Some {
            assert(link_ok(a, self.root, g, a[node as int].right->0 as int));
        }
        if a[node as int].parent is Some {
            assert(link_ok(a, self.root, g, a[node as int].parent->0 as int));
        }
    }

    /// In a well-formed registry the keys are in order, and the counter,
    /// the number of nodes and the number of records are the same.
    pub proof fn lemma_sorted_and_counted(&self)
        requires
            self.wf(),
        ensures
            self.sorted(),
            self.count() == self.arena().len(),
            self.count() == self@.len(),
            self.inorder().len() == self.arena().len(),
    {
    }

    /// The in-order sequence is put together from the subtrees: that of a
    /// node is the one of its left subtree, the node, and the one of its
    /// right subtree; that of the tree is the one of its root. A node stands
    /// in the subtree of another exactly if that subtree's sequence holds
    /// it.
    pub proof fn lemma_inorder_unfold(&self, node: usize)
        requires
            self.wf(),
            node < self.arena().len(),
        ensures
            self.subtree(None) == Seq::<int>::empty(),
            self.subtree(Some(node)) == self.subtree(self.arena()[node as int].left) + seq![
                node as int,
            ] + self.subtree(self.arena()[node as int].right),
            self.inorder() == self.subtree(self.top()),
            forall|j: int|
                0 <= j < self.arena().len() ==> (self.covers(node as int, j) <==> self.subtree(
                    Some(node),
                ).contains(j)),
    {
        let a = self.nodes@;
        let g = self.layout@;
        let i = node as int;
        assert(link_ok(a, self.root, g, i));
        if a[i].left is Some {
            assert(link_ok(a, self.root, g, a[i].left->0 as int));
        }
        if a[i].right is Some {
            assert(link_ok(a, self.root, g, a[i].right->0 as int));
        }
        assert(self.subtree(Some(node)) =~= self.subtree(a[i].left) + seq![i] + self.subtree(
            a[i].right,
        ));
        assert(link_ok(a, self.root, g, self.root->0 as int));
        assert(self.inorder() =~= self.subtree(self.top()));
        assert forall|j: int| 0 <= j < a.len() implies (self.covers(i, j) <==> self.subtree(
            Some(node),
        ).contains(j)) by {
            assert(link_ok(a, self.root, g, j));
            let s = self.subtree(Some(node));
            if self.covers(i, j) {
                assert(s[g.pos[j] - g.lo[i]] == j);
            }
            if s.contains(j) {
                let k = choose|k: int| 0 <= k < s.len() && s[k] == j;
                assert(g.order[g.lo[i] + k] == j);
            }
        }
    }

    /// A record that has been entered is found: a search for it does not
    /// come back empty, and where no record had its key before, the search
    /// gives a copy of the record itself.
    pub proof fn lemma_inserted_is_found(before: Self, after: Self, value: T, p: int)
        requires
            before.wf(),
            after.wf(),
            Self::insertion_of(before, after, value, p),
        ensures
            !after.lacks(value.key()),
            before.lacks(value.key()) ==> forall|i: int|
                after.finds(value.key(), i) ==> #[trigger] after.arena()[i].v == value,
    {
        let a = after.nodes@;
        let g = after.layout@;
        let m = before.nodes@.len() as int;
        assert(after.inorder()[p] == m);
        assert(after@[p] == value);
        assert(after@[p] == a[g.order[p]].v);
        assert(a[m].v.key() == value.key());
        if before.lacks(value.key()) {
            assert forall|i: int| after.finds(value.key(), i) implies #[trigger] a[i].v == value by {
                assert(link_ok(a, after.root, g, i));
                let k = g.pos[i];
                assert(after@[k] == a[i].v);
                if k != p {
                    let kk = if k < p { k } else { k - 1 };
                    assert(before@.insert(p, value)[k] == before@[kk]);
                    let j = before.layout@.order[kk];
                    assert(before@[kk] == before.nodes@[j].v);
                    assert(link_ok(before.nodes@, before.root, before.layout@, j));
                    assert(before.nodes@[j].v.key() != value.key());
                }
            }
        }
    }

    /// Rotating a node one way and then the child that moved up the other
    /// way restores every link, the root and the in-order sequence.
    pub proof fn lemma_rotate_there_and_back(
        start: Self,
        middle: Self,
        end: Self,
        node: usize,
        direction: Rotation,
    )
        requires
            start.wf(),
            node < start.arena().len(),
            start.arena()[node as int].child(direction.up_side()) is Some,
            Self::rotation_of(start, middle, node, direction),
            Self::rotation_of(
                middle,
                end,
                start.arena()[node as int].child(direction.up_side())->0,
                direction.reverse(),
            ),
        ensures
            middle.arena()[start.arena()[node as int].child(direction.up_side())->0 as int].child(
                direction.reverse().up_side(),
            ) == Some(node),
            end.arena() == start.arena(),
            end.top() == start.top(),
            end.inorder() == start.inorder(),
            end@ == start@,
    {
        lemma_rotation_undone(start.nodes@, start.root, start.layout@, node, direction);
        assert(end@ =~= start@);
    }
}

} // verus!
