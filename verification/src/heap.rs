//! A binary max-heap in a vector, and the queue of message notifications
//! that is built on it.

use crate::iot::MessageNotification;
use crate::keyed::Keyed;
use vstd::multiset::Multiset;
use vstd::prelude::*;

verus! {

/// The index of the parent of the node at `i`.
pub open spec fn above(i: int) -> int {
    (i - 1) / 2
}

/// Every node but the first has a key no greater than its parent's.
pub open spec fn heap_ordered<T: Keyed>(items: Seq<T>) -> bool {
    forall|i: int| 0 < i < items.len() ==> items[above(i)].key() >= (#[trigger] items[i]).key()
}

/// The heap order holds but, perhaps, between the node at `at` and its
/// parent; the children of `at` do not exceed that parent.
pub open spec fn ordered_but_above<T: Keyed>(items: Seq<T>, at: int) -> bool {
    &&& forall|i: int|
        0 < i < items.len() && i != at ==> items[above(i)].key() >= (#[trigger] items[i]).key()
    &&& forall|i: int|
        0 < i < items.len() && above(i) == at && at > 0 ==> items[above(at)].key() >= (
        #[trigger] items[i]).key()
}

/// The heap order holds but, perhaps, between the node at `at` and its
/// children; those children do not exceed the parent of `at`.
pub open spec fn ordered_but_below<T: Keyed>(items: Seq<T>, at: int) -> bool {
    &&& forall|i: int|
        0 < i < items.len() && above(i) != at ==> items[above(i)].key() >= (
        #[trigger] items[i]).key()
    &&& forall|i: int|
        0 < i < items.len() && above(i) == at && at > 0 ==> items[above(at)].key() >= (
        #[trigger] items[i]).key()
}

/// The sequence with the items at `i` and `j` exchanged.
pub open spec fn exchanged<T>(items: Seq<T>, i: int, j: int) -> Seq<T> {
    items.update(i, items[j]).update(j, items[i])
}

/// Exchanging two items changes no count.
pub proof fn lemma_exchange_keeps_items<T>(items: Seq<T>, i: int, j: int)
    requires
        0 <= i < items.len(),
        0 <= j < items.len(),
    ensures
        exchanged(items, i, j).to_multiset() == items.to_multiset(),
{
    broadcast use vstd::seq_lib::group_to_multiset_ensures;
    broadcast use vstd::multiset::group_multiset_axioms;

    if i == j {
        assert(exchanged(items, i, j) =~= items);
    } else {
        let first = items.update(i, items[j]);
        assert(first.to_multiset() == items.to_multiset().insert(items[j]).remove(items[i]));
        assert(exchanged(items, i, j).to_multiset() == first.to_multiset().insert(
            items[i],
        ).remove(items[j]));
        assert(items.to_multiset().count(items[i]) > 0);
        assert(items.to_multiset().count(items[j]) > 0);
        assert(exchanged(items, i, j).to_multiset() =~= items.to_multiset());
    }
}

/// Moving the last item to the front in place of the first takes the first
/// item out and changes no other count.
pub proof fn lemma_take_first_keeps_rest<T>(items: Seq<T>)
    requires
        items.len() > 0,
    ensures
        items.update(0, items.last()).drop_last().to_multiset() == items.to_multiset().remove(
            items[0],
        ),
{
    broadcast use vstd::seq_lib::group_to_multiset_ensures;
    broadcast use vstd::multiset::group_multiset_axioms;

    let moved = items.update(0, items.last());
    let n = items.len() as int;
    assert(moved.drop_last() =~= moved.remove(n - 1));
    assert(moved.to_multiset() == items.to_multiset().insert(items.last()).remove(items[0]));
    assert(moved.remove(n - 1).to_multiset() == moved.to_multiset().remove(moved[n - 1]));
    assert(items.to_multiset().count(items[0]) > 0);
    assert(moved.drop_last().to_multiset() =~= items.to_multiset().remove(items[0]));
}

/// In a heap no key exceeds the first.
pub proof fn lemma_first_is_greatest<T: Keyed>(items: Seq<T>, i: int)
    requires
        heap_ordered(items),
        0 <= i < items.len(),
    ensures
        items[0].key() >= items[i].key(),
    decreases i,
{
    if i > 0 {
        lemma_first_is_greatest(items, above(i));
    }
}

/// `<[T]>::swap` of the standard library: exchanges the items at two
/// indices of the vector, both of which must be in bounds.
#[verifier::external_body]
fn swap_items<T>(items: &mut Vec<T>, i: usize, j: usize)
    requires
        i < old(items).len(),
        j < old(items).len(),
    ensures
        final(items)@ == exchanged(old(items)@, i as int, j as int),
{
    items.swap(i, j)
}

/// A binary max-heap: the item with the greatest key is at the front.
pub struct HeapTree<T> {
    heap: Vec<T>,
}

impl<T: Keyed> View for HeapTree<T> {
    type V = Multiset<T>;

    /// The items, each with the number of times it is held.
    open spec fn view(&self) -> Multiset<T> {
        self.items().to_multiset()
    }
}

impl<T: Keyed> HeapTree<T> {
    /// The items in the order in which the vector holds them.
    pub closed spec fn items(&self) -> Seq<T> {
        self.heap@
    }

    /// The vector is in heap order.
    pub open spec fn wf(&self) -> bool {
        heap_ordered(self.items())
    }

    /// An empty heap.
    pub fn new() -> (tree: Self)
        ensures
            tree.wf(),
            tree.items().len() == 0,
            tree@ == Multiset::<T>::empty(),
    {
        broadcast use vstd::seq_lib::group_to_multiset_ensures;

        let tree = HeapTree { heap: Vec::new() };
        assert(tree.items() =~= Seq::empty());
        tree
    }

    fn parent(&self, index: usize) -> (up: Option<usize>)
        ensures
            index == 0 ==> up is None,
            index > 0 ==> up == Some(above(index as int) as usize),
    {
        if index == 0 {
            return None;
        }
        Some((index - 1) / 2)
    }

    fn is_higher_priority(&self, i1: usize, i2: usize) -> (higher: bool)
        requires
            i1 < self.heap@.len(),
            i2 < self.heap@.len(),
        ensures
            higher == (self.heap@[i1 as int].key() >= self.heap@[i2 as int].key()),
    {
        self.heap[i1].key_of() >= self.heap[i2].key_of()
    }

    /// The child of `index` with the greater key; the left one on a tie or
    /// where it is the only one.
    fn get_largest_child(&self, index: usize) -> (child: usize)
        requires
            2 * index + 1 < self.heap@.len(),
        ensures
            child < self.heap@.len(),
            above(child as int) == index,
            child > 0,
            forall|i: int|
                0 < i < self.heap@.len() && above(i) == index ==> self.heap@[child as int].key()
                    >= (#[trigger] self.heap@[i]).key(),
    {
        let len = self.heap.len();
        let left = index * 2 + 1;
        let right = left + 1;
        if right >= len || self.is_higher_priority(left, right) {
            left
        } else {
            right
        }
    }

    /// Lifts the item at `index` until its parent's key exceeds its own.
    fn bubble_up(&mut self, index: usize)
        requires
            index < old(self).heap@.len(),
            ordered_but_above(old(self).heap@, index as int),
        ensures
            final(self).wf(),
            final(self)@ == old(self)@,
            final(self).heap@.len() == old(self).heap@.len(),
    {
        let mut current = index;
        loop
            invariant
                current < self.heap@.len(),
                ordered_but_above(self.heap@, current as int),
                self@ == old(self)@,
                self.heap@.len() == old(self).heap@.len(),
            ensures
                self.wf(),
                self@ == old(self)@,
                self.heap@.len() == old(self).heap@.len(),
            decreases current,
        {
            match self.parent(current) {
                Some(parent) => {
                    if self.is_higher_priority(current, parent) {
                        let ghost before = self.heap@;
                        swap_items(&mut self.heap, current, parent);
                        proof {
                            lemma_exchange_keeps_items(before, current as int, parent as int);
                            let after = self.heap@;
                            assert forall|i: int|
                                0 < i < after.len() && i != parent implies after[above(i)].key()
                                >= (#[trigger] after[i]).key() by {
                                if i != current {
                                    assert(before[above(i)].key() >= before[i].key());
                                }
                            }
                            assert forall|i: int|
                                0 < i < after.len() && above(i) == parent && parent
                                    > 0 implies after[above(parent as int)].key() >= (
                            #[trigger] after[i]).key() by {
                                assert(before[above(parent as int)].key() >= before[parent as int].key());
                                if i != current {
                                    assert(before[above(i)].key() >= before[i].key());
                                }
                            }
                        }
                        current = parent;
                    } else {
                        break ;
                    }
                },
                None => {
                    break ;
                },
            }
        }
    }

    /// The number of items.
    pub fn length(&self) -> (n: usize)
        ensures
            n == self.items().len(),
            n == self@.len(),
    {
        broadcast use vstd::seq_lib::group_to_multiset_ensures;

        self.heap.len()
    }

    /// Enters `v` into the heap.
    pub fn add(&mut self, v: T)
        requires
            old(self).wf(),
        ensures
            final(self).wf(),
            final(self)@ == old(self)@.insert(v),
            final(self).items().len() == old(self).items().len() + 1,
    {
        broadcast use vstd::seq_lib::group_to_multiset_ensures;

        self.heap.push(v);
        let last = self.length() - 1;
        proof {
            assert forall|i: int| 0 < i < self.heap@.len() && i != last implies self.heap@[above(
                i,
            )].key() >= (#[trigger] self.heap@[i]).key() by {
                assert(old(self).heap@[above(i)].key() >= old(self).heap@[i].key());
            }
        }
        self.bubble_up(last);
    }

    /// Sinks the item at `index` until neither child's key exceeds its own.
    /// The heap order must hold everywhere but between `index` and its
    /// children.
    pub fn bubble_down(&mut self, index: usize)
        requires
            ordered_but_below(old(self).items(), index as int),
        ensures
            final(self).wf(),
            final(self)@ == old(self)@,
            final(self).items().len() == old(self).items().len(),
    {
        let mut current = index;
        while current < self.heap.len() / 2
            invariant
                ordered_but_below(self.heap@, current as int),
                self@ == old(self)@,
                self.heap@.len() == old(self).heap@.len(),
            ensures
                self.wf(),
                self@ == old(self)@,
                self.heap@.len() == old(self).heap@.len(),
            decreases self.heap@.len() - current,
        {
            let largest_child = self.get_largest_child(current);
            if self.is_higher_priority(current, largest_child) {
                proof {
                    assert forall|i: int| 0 < i < self.heap@.len() implies self.heap@[above(i)].key()
                        >= (#[trigger] self.heap@[i]).key() by {
                        if above(i) == current {
                            assert(self.heap@[largest_child as int].key() >= self.heap@[i].key());
                        }
                    }
                }
                break ;
            } else {
                let ghost before = self.heap@;
                swap_items(&mut self.heap, current, largest_child);
                proof {
                    lemma_exchange_keeps_items(before, current as int, largest_child as int);
                    let after = self.heap@;
                    assert forall|i: int|
                        0 < i < after.len() && above(i) != largest_child implies after[above(
                        i,
                    )].key() >= (#[trigger] after[i]).key() by {
                        if above(i) == current {
                            assert(before[largest_child as int].key() >= before[i].key());
                        } else if i == current {
                            assert(before[above(current as int)].key()
                                >= before[largest_child as int].key());
                        } else {
                            assert(before[above(i)].key() >= before[i].key());
                        }
                    }
                    assert forall|i: int|
                        0 < i < after.len() && above(i) == largest_child implies after[above(
                        largest_child as int,
                    )].key() >= (#[trigger] after[i]).key() by {
                        assert(before[above(i)].key() >= before[i].key());
                    }
                }
                current = largest_child;
            }
        }
    }

    /// Takes out an item with the greatest key; nothing where the heap is
    /// empty.
    pub fn pop(&mut self) -> (top: Option<T>)
        requires
            old(self).wf(),
        ensures
            final(self).wf(),
            match top {
                None => old(self).items().len() == 0 && final(self).items() == old(self).items(),
                Some(item) => {
                    &&& old(self).items().len() > 0
                    &&& item == old(self).items()[0]
                    &&& old(self)@.contains(item)
                    &&& forall|other: T| #[trigger]
                        old(self)@.contains(other) ==> other.key() <= item.key()
                    &&& final(self)@ == old(self)@.remove(item)
                    &&& final(self).items().len() == old(self).items().len() - 1
                },
            },
    {
        broadcast use vstd::seq_lib::group_to_multiset_ensures;

        if self.length() == 0 {
            None
        } else {
            let ghost before = self.heap@;
            let result = self.heap.swap_remove(0);
            proof {
                lemma_take_first_keeps_rest(before);
                assert forall|other: T| #[trigger]
                    before.to_multiset().contains(other) implies other.key() <= result.key() by {
                    assert(before.contains(other));
                    let i = choose|i: int| 0 <= i < before.len() && before[i] == other;
                    lemma_first_is_greatest(before, i);
                }
                assert(before.to_multiset().contains(result)) by {
                    assert(before.contains(before[0]));
                }
                assert forall|i: int|
                    0 < i < self.heap@.len() && above(i) != 0 implies self.heap@[above(i)].key() >= (
                #[trigger] self.heap@[i]).key() by {
                    assert(before[above(i)].key() >= before[i].key());
                }
            }
            self.bubble_down(0);
            Some(result)
        }
    }
}

impl<T: Keyed> Default for HeapTree<T> {
    fn default() -> (tree: Self)
        ensures
            tree.wf(),
            tree.items().len() == 0,
    {
        HeapTree::new()
    }
}

/// The queue of message notifications: the notification with the most
/// messages leaves first.
pub struct MessageChecker {
    heap: HeapTree<MessageNotification>,
}

impl View for MessageChecker {
    type V = Multiset<MessageNotification>;

    /// The notifications that wait, each with the number of times it does.
    closed spec fn view(&self) -> Multiset<MessageNotification> {
        self.heap@
    }
}

impl MessageChecker {
    /// The heap below is in order.
    pub closed spec fn wf(&self) -> bool {
        self.heap.wf()
    }

    /// An empty queue.
    pub fn new() -> (checker: Self)
        ensures
            checker.wf(),
            checker@ == Multiset::<MessageNotification>::empty(),
    {
        MessageChecker { heap: HeapTree::new() }
    }

    /// The number of notifications that wait.
    pub fn length(&self) -> (n: usize)
        ensures
            n == self@.len(),
    {
        self.heap.length()
    }

    /// Enters a notification.
    pub fn add(&mut self, notification: MessageNotification)
        requires
            old(self).wf(),
        ensures
            final(self).wf(),
            final(self)@ == old(self)@.insert(notification),
    {
        self.heap.add(notification);
    }

    /// Takes out a notification with the most messages; nothing where none
    /// waits.
    pub fn pop(&mut self) -> (top: Option<MessageNotification>)
        requires
            old(self).wf(),
        ensures
            final(self).wf(),
            match top {
                None => old(self)@.len() == 0 && final(self)@ == old(self)@,
                Some(item) => {
                    &&& old(self)@.contains(item)
                    &&& forall|other: MessageNotification| #[trigger]
                        old(self)@.contains(other) ==> other.message_count <= item.message_count
                    &&& final(self)@ == old(self)@.remove(item)
                },
            },
    {
        broadcast use vstd::seq_lib::group_to_multiset_ensures;

        self.heap.pop()
    }
}

impl Default for MessageChecker {
    fn default() -> (checker: Self)
        ensures
            checker.wf(),
            checker@ == Multiset::<MessageNotification>::empty(),
    {
        MessageChecker::new()
    }
}

} // verus!
