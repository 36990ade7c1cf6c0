//! Searching the tree for a key.

use crate::keyed::Keyed;
use crate::red_black_tree::shape::link_ok;
use crate::red_black_tree::DeviceRegistry;
use vstd::prelude::*;

verus! {

impl<T: Keyed> DeviceRegistry<T> {
    /// Node `i` is the topmost node with key `key`: it holds the key, and
    /// every node that holds it stands in the subtree of `i`.
    pub open spec fn finds(&self, key: u64, i: int) -> bool {
        &&& 0 <= i < self.arena().len()
        &&& self.arena()[i].v.key() == key
        &&& forall|j: int|
            0 <= j < self.arena().len() && #[trigger] self.arena()[j].v.key() == key
                ==> self.covers(i, j)
    }

    /// No node holds the key `key`.
    pub open spec fn lacks(&self, key: u64) -> bool {
        forall|j: int| 0 <= j < self.arena().len() ==> #[trigger] self.arena()[j].v.key() != key
    }
}

impl<T: Keyed + Clone> DeviceRegistry<T> {
    /// Looks for a record with the key of `value`. Among several it gives
    /// a copy of the one nearest to the root.
    pub fn find(&self, value: T) -> (found: Option<T>)
        requires
            self.wf(),
        ensures
            match found {
                Some(v) => exists|i: int|
                    #[trigger] self.finds(value.key(), i) && cloned(self.arena()[i].v, v),
                None => self.lacks(value.key()),
            },
    {
        match self.root {
            Some(root) => {
                proof {
                    assert(link_ok(self.nodes@, self.root, self.layout@, root as int));
                    assert forall|j: int| 0 <= j < self.nodes@.len() implies self.covers(
                        root as int,
                        j,
                    ) by {
                        assert(link_ok(self.nodes@, self.root, self.layout@, j));
                    }
                }
                self.find_rec(root, value)
            },
            None => None,
        }
    }

    /// Searches the subtree of `current`, outside of which no node holds the
    /// key.
    fn find_rec(&self, current: usize, value: T) -> (found: Option<T>)
        requires
            self.wf(),
            current < self.nodes@.len(),
            forall|j: int|
                0 <= j < self.nodes@.len() && #[trigger] self.nodes@[j].v.key() == value.key()
                    ==> self.covers(current as int, j),
        ensures
            match found {
                Some(v) => exists|i: int|
                    #[trigger] self.finds(value.key(), i) && cloned(self.arena()[i].v, v),
                None => self.lacks(value.key()),
            },
    {
        let key = value.key_of();
        let mut current = current;
        let ghost g = self.layout@;
        loop
            invariant
                self.wf(),
                g == self.layout@,
                key == value.key(),
                current < self.nodes@.len(),
                forall|j: int|
                    0 <= j < self.nodes@.len() && #[trigger] self.nodes@[j].v.key() == key
                        ==> self.covers(current as int, j),
            decreases g.hi[current as int] - g.lo[current as int],
        {
            let here = self.nodes[current].v.key_of();
            proof {
                assert(link_ok(self.nodes@, self.root, g, current as int));
                assert forall|j: int| 0 <= j < self.nodes@.len() implies (g.pos[j]
                    <= g.pos[current as int] ==> #[trigger] self.nodes@[j].v.key() <= here) && (
                g.pos[j] >= g.pos[current as int] ==> self.nodes@[j].v.key() >= here) by {
                    assert(link_ok(self.nodes@, self.root, g, j));
                    if g.pos[j] <= g.pos[current as int] {
                        assert(self.nodes@[g.order[g.pos[j]]].v.key()
                            <= self.nodes@[g.order[g.pos[current as int]]].v.key());
                    } else {
                        assert(self.nodes@[g.order[g.pos[current as int]]].v.key()
                            <= self.nodes@[g.order[g.pos[j]]].v.key());
                    }
                }
            }
            let next = if here < key {
                self.nodes[current].right
            } else if here > key {
                self.nodes[current].left
            } else {
                let copy = self.nodes[current].v.clone();
                proof {
                    assert(self.finds(key, current as int));
                }
                return Some(copy);
            };
            match next {
                Some(child) => {
                    proof {
                        assert(link_ok(self.nodes@, self.root, g, child as int));
                    }
                    current = child;
                },
                None => {
                    return None;
                },
            }
        }
    }
}

} // verus!
