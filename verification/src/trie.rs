//! A map from non-empty strings to values that shares the nodes of common
//! prefixes.

use crate::text::{codes, codes_of};
use std::collections::BTreeMap;
use vstd::prelude::*;

verus! {

broadcast use vstd::std_specs::btree::group_btree_axioms;

/// The children of a node, by the code of the character that leads to each.
pub type Level<V> = BTreeMap<u32, Box<TrieNode<V>>>;

/// What adding a key did.
pub enum InsertResult<V> {
    Added,
    Updated(V),
}

/// A node of the trie: the last character of a prefix of some key.
pub enum TrieNode<V> {
    /// The prefix is no key itself.
    Internal { next: Level<V> },
    /// The prefix is a key and has a value.
    Entry { value: V, next: Level<V> },
}

/// The value below `node` at the end of `path`.
pub open spec fn lookup<V>(node: TrieNode<V>, path: Seq<u32>) -> Option<V>
    decreases path.len(),
{
    if path.len() == 0 {
        node.held()
    } else {
        descend(node.children(), path)
    }
}

/// The value at the end of the non-empty `path` that starts among
/// `level`.
pub open spec fn descend<V>(level: Map<u32, Box<TrieNode<V>>>, path: Seq<u32>) -> Option<V>
    decreases path.len(), 0nat,
    when path.len() > 0
{
    if level.contains_key(path[0]) {
        lookup(*level[path[0]], path.drop_first())
    } else {
        None
    }
}

/// The value that `level`, taken as the roots of a trie, holds for `key`:
/// none for the empty key.
pub open spec fn held_for<V>(level: Map<u32, Box<TrieNode<V>>>, key: Seq<u32>) -> Option<V> {
    if key.len() == 0 {
        None
    } else {
        descend(level, key)
    }
}

impl<V> TrieNode<V> {
    /// The children of the node.
    pub open spec fn children(self) -> Map<u32, Box<TrieNode<V>>> {
        match self {
            TrieNode::Internal { next } => next@,
            TrieNode::Entry { next, .. } => next@,
        }
    }

    /// The value of the node, if it is an entry.
    pub open spec fn held(self) -> Option<V> {
        match self {
            TrieNode::Internal { .. } => None,
            TrieNode::Entry { value, .. } => Some(value),
        }
    }

    pub fn new_internal() -> (node: Self)
        ensures
            node is Internal,
            node.children() == Map::<u32, Box<TrieNode<V>>>::empty(),
            node.held() is None,
    {
        TrieNode::Internal { next: BTreeMap::new() }
    }

    pub fn next(&self) -> (level: &Level<V>)
        ensures
            level@ == self.children(),
    {
        match self {
            TrieNode::Internal { next } => next,
            TrieNode::Entry { next, .. } => next,
        }
    }

    pub fn value(&self) -> (held: Option<&V>)
        ensures
            match held {
                Some(v) => self.held() == Some(*v),
                None => self.held() is None,
            },
    {
        match self {
            TrieNode::Internal { .. } => None,
            TrieNode::Entry { value, .. } => Some(value),
        }
    }

    pub fn is_internal(&self) -> (internal: bool)
        ensures
            internal == (self is Internal),
            internal == (self.held() is None),
    {
        match self {
            TrieNode::Internal { .. } => true,
            TrieNode::Entry { .. } => false,
        }
    }

    /// The node has neither a value nor children.
    pub open spec fn unused(self) -> bool {
        self.held() is None && self.children().dom() =~= Set::empty()
    }

    pub fn is_unused(&self) -> (unused: bool)
        ensures
            unused == self.unused(),
    {
        self.is_internal() && self.next().is_empty()
    }

    /// Gives the node the value `value`; tells whether it had one.
    pub fn make_entry(&mut self, value: V) -> (result: InsertResult<V>)
        ensures
            final(self).held() == Some(value),
            final(self).children() == old(self).children(),
            match result {
                InsertResult::Added => old(self).held() is None,
                InsertResult::Updated(previous) => old(self).held() == Some(previous),
            },
    {
        let mut node = TrieNode::new_internal();
        std::mem::swap(self, &mut node);
        match node {
            TrieNode::Internal { next } => {
                *self = TrieNode::Entry { value, next };
                InsertResult::Added
            },
            TrieNode::Entry { value: previous, next } => {
                *self = TrieNode::Entry { value, next };
                InsertResult::Updated(previous)
            },
        }
    }

    /// Takes the value out of the node, which then is no entry any more.
    pub fn take_value(&mut self) -> (taken: Option<V>)
        ensures
            taken == old(self).held(),
            final(self).held() is None,
            final(self).children() == old(self).children(),
    {
        let mut node = TrieNode::new_internal();
        std::mem::swap(self, &mut node);
        match node {
            TrieNode::Internal { next } => {
                *self = TrieNode::Internal { next };
                None
            },
            TrieNode::Entry { value, next } => {
                *self = TrieNode::Internal { next };
                Some(value)
            },
        }
    }

    /// The children of the node, to be changed in place.
    pub fn next_mut(&mut self) -> (level: &mut Level<V>)
        ensures
            level@ == old(self).children(),
            final(self).children() == final(level)@,
            final(self).held() == old(self).held(),
    {
        match self {
            TrieNode::Internal { next } => next,
            TrieNode::Entry { next, .. } => next,
        }
    }
}

/// The node that the non-empty `path` leads to from among `level`.
pub open spec fn node_at<V>(level: Map<u32, Box<TrieNode<V>>>, path: Seq<u32>) -> Option<
    TrieNode<V>,
>
    decreases path.len(),
    when path.len() > 0
{
    if !level.contains_key(path[0]) {
        None
    } else if path.len() == 1 {
        Some(*level[path[0]])
    } else {
        node_at(level[path[0]].children(), path.drop_first())
    }
}

/// The non-empty `path` leads to a node that has neither a value nor
/// children.
pub open spec fn idle<V>(level: Map<u32, Box<TrieNode<V>>>, path: Seq<u32>) -> bool {
    match node_at(level, path) {
        Some(node) => node.unused(),
        None => false,
    }
}

/// No path leads to a node that has neither a value nor children.
pub open spec fn tidy<V>(level: Map<u32, Box<TrieNode<V>>>) -> bool {
    forall|path: Seq<u32>| path.len() > 0 ==> !#[trigger] idle(level, path)
}

/// Below a node of a tidy level all is tidy, and the node itself has a
/// value or children.
proof fn lemma_tidy_below<V>(level: Map<u32, Box<TrieNode<V>>>, c: u32)
    requires
        tidy(level),
        level.contains_key(c),
    ensures
        tidy(level[c].children()),
        !level[c].unused(),
{
    assert(node_at(level, seq![c]) == Some(*level[c]));
    assert(!idle(level, seq![c]));
    assert forall|t: Seq<u32>| t.len() > 0 implies !#[trigger] idle(level[c].children(), t) by {
        let q = seq![c] + t;
        assert(q.drop_first() =~= t);
        assert(node_at(level, q) == node_at(level[c].children(), t));
        assert(!idle(level, q));
    }
}

/// Below a node that has a value or children, in a tidy trie, some path ends
/// at a value.
proof fn lemma_node_has_entry<V>(node: TrieNode<V>)
    requires
        !node.unused(),
        tidy(node.children()),
    ensures
        exists|path: Seq<u32>| lookup(node, path) is Some,
    decreases node,
{
    if node.held() is Some {
        assert(lookup(node, Seq::<u32>::empty()) is Some);
    } else {
        let level = node.children();
        assert(exists|k: u32| level.contains_key(k)) by {
            if forall|k: u32| !level.contains_key(k) {
                assert(level.dom() =~= Set::<u32>::empty());
            }
        }
        let k = choose|k: u32| level.contains_key(k);
        let child = *level[k];
        lemma_tidy_below(level, k);
        lemma_node_has_entry(child);
        let below = choose|path: Seq<u32>| lookup(child, path) is Some;
        let path = seq![k] + below;
        assert(path.drop_first() =~= below);
        assert(lookup(node, path) == descend(level, path));
    }
}

/// The value that a map of entries has for `key`.
pub open spec fn entry_of<V>(entries: Map<Seq<u32>, V>, key: Seq<u32>) -> Option<V> {
    if entries.contains_key(key) {
        Some(entries[key])
    } else {
        None
    }
}

/// A path is the rest of `chars` from `index` on exactly if it starts with
/// the code at `index` and goes on with the rest from `index + 1`.
proof fn lemma_rest_splits(chars: Seq<u32>, index: int, path: Seq<u32>)
    requires
        0 <= index < chars.len(),
        path.len() > 0,
    ensures
        path == chars.skip(index) <==> path[0] == chars[index] && path.drop_first() == chars.skip(
            index + 1,
        ),
{
    if path == chars.skip(index) {
        assert(path.drop_first() =~= chars.skip(index + 1));
    }
    if path[0] == chars[index] && path.drop_first() == chars.skip(index + 1) {
        assert(path =~= seq![path[0]] + path.drop_first());
        assert(chars.skip(index) =~= seq![chars[index]] + chars.skip(index + 1));
    }
}

/// A trie: a map from non-empty strings to values. A string stands in it
/// as the sequence of the code points of its characters.
pub struct TrieTree<V> {
    length: usize,
    root: Level<V>,
    entries: Ghost<Map<Seq<u32>, V>>,
}

impl<V> View for TrieTree<V> {
    type V = Map<Seq<u32>, V>;

    /// The entries: each key, as its code points, with its value.
    closed spec fn view(&self) -> Map<Seq<u32>, V> {
        self.entries@
    }
}

impl<V> TrieTree<V> {
    /// The counter of entries.
    pub closed spec fn count(&self) -> nat {
        self.length as nat
    }

    /// The nodes at the top, by the code of the first character of a key.
    pub closed spec fn top_level(&self) -> Map<u32, Box<TrieNode<V>>> {
        self.root@
    }

    /// The nodes hold exactly the entries, and the counter is their number.
    pub closed spec fn holds(&self) -> bool {
        &&& self.entries@.dom().finite()
        &&& self.length == self.entries@.dom().len()
        &&& forall|key: Seq<u32>| #[trigger]
            held_for(self.root@, key) == entry_of(self.entries@, key)
    }

    /// The nodes hold exactly the entries, the counter is their number, and
    /// every node has a value or children.
    pub open spec fn wf(&self) -> bool {
        self.holds() && tidy(self.top_level())
    }

    /// In a well-formed trie the counter is the number of entries, and the
    /// entries are finitely many.
    pub proof fn lemma_counted(&self)
        requires
            self.wf(),
        ensures
            self@.dom().finite(),
            self.count() == self@.dom().len(),
    {
    }

    /// A well-formed trie has no entries exactly if it has no nodes.
    pub proof fn lemma_bare_when_empty(&self)
        requires
            self.wf(),
        ensures
            self.top_level().dom() =~= Set::<u32>::empty() <==> self.count() == 0,
            self.count() == 0 <==> self@ =~= Map::<Seq<u32>, V>::empty(),
    {
        let level = self.root@;
        if self.entries@.dom().len() == 0 {
            self.entries@.dom().lemma_len0_is_empty();
            assert(self.entries@ =~= Map::<Seq<u32>, V>::empty());
            if !(level.dom() =~= Set::<u32>::empty()) {
                assert(exists|k: u32| level.contains_key(k)) by {
                    if forall|k: u32| !level.contains_key(k) {
                        assert(level.dom() =~= Set::<u32>::empty());
                    }
                }
                let k = choose|k: u32| level.contains_key(k);
                lemma_tidy_below(level, k);
                lemma_node_has_entry(*level[k]);
                let below = choose|path: Seq<u32>| lookup(*level[k], path) is Some;
                let key = seq![k] + below;
                assert(key.drop_first() =~= below);
                assert(held_for(level, key) == descend(level, key));
                assert(held_for(level, key) == entry_of(self.entries@, key));
            }
        } else {
            assert(exists|key: Seq<u32>| self.entries@.dom().contains(key)) by {
                if forall|key: Seq<u32>| !self.entries@.dom().contains(key) {
                    assert(self.entries@.dom() =~= Set::<Seq<u32>>::empty());
                }
            }
            let key = choose|key: Seq<u32>| self.entries@.dom().contains(key);
            assert(held_for(level, key) == entry_of(self.entries@, key));
            assert(level.contains_key(key[0]));
        }
    }

    /// An empty trie.
    pub fn new() -> (trie: Self)
        ensures
            trie.wf(),
            trie@ == Map::<Seq<u32>, V>::empty(),
            trie.count() == 0,
    {
        let trie = TrieTree { length: 0, root: BTreeMap::new(), entries: Ghost(Map::empty()) };
        assert forall|path: Seq<u32>| path.len() > 0 implies !#[trigger] idle(trie.root@, path) by {
            assert(node_at(trie.root@, path) is None);
        }
        trie
    }

    /// No node is left in the trie.
    pub fn is_bare(&self) -> (bare: bool)
        ensures
            bare == (self.top_level().dom() =~= Set::<u32>::empty()),
            self.wf() ==> bare == (self.count() == 0),
    {
        let bare = self.root.is_empty();
        proof {
            assert(self.root@.is_empty() == (self.root@.dom() =~= Set::<u32>::empty()));
            if self.wf() {
                self.lemma_bare_when_empty();
            }
        }
        bare
    }

    pub fn is_empty(&self) -> (empty: bool)
        requires
            self.wf(),
        ensures
            empty == (self.count() == 0),
            empty == (self@.dom().len() == 0),
    {
        self.length == 0
    }

    pub fn len(&self) -> (n: usize)
        requires
            self.wf(),
        ensures
            n == self.count(),
            n == self@.dom().len(),
    {
        self.length
    }

    /// Enters the rest of `chars` from `index` on below `level`.
    #[verifier::rlimit(40)]
    fn add_rec(level: &mut Level<V>, chars: &Vec<u32>, index: usize, v: V) -> (result:
        InsertResult<V>)
        requires
            index < chars@.len(),
        ensures
            match result {
                InsertResult::Added => descend(old(level)@, chars@.skip(index as int)) is None,
                InsertResult::Updated(previous) => descend(old(level)@, chars@.skip(index as int))
                    == Some(previous),
            },
            forall|path: Seq<u32>|
                path.len() > 0 ==> #[trigger] descend(final(level)@, path) == if path
                    == chars@.skip(index as int) {
                    Some(v)
                } else {
                    descend(old(level)@, path)
                },
            final(level)@.contains_key(chars@[index as int]),
            tidy(old(level)@) ==> tidy(final(level)@),
        decreases chars@.len() - index,
    {
        let len = chars.len();
        let c = chars[index];
        let mut node = match level.remove(&c) {
            Some(node) => node,
            None => Box::new(TrieNode::new_internal()),
        };
        let ghost before = *node;
        let result = if index + 1 == len {
            node.make_entry(v)
        } else {
            Self::add_rec(node.next_mut(), chars, index + 1, v)
        };
        let ghost after = *node;
        level.insert(c, node);
        proof {
            let rest = chars@.skip(index as int);
            assert(rest[0] == chars@[index as int]);
            assert(rest.drop_first() =~= chars@.skip(index + 1));
            assert forall|path: Seq<u32>| path.len() > 0 implies #[trigger] descend(
                level@,
                path,
            ) == if path == rest {
                Some(v)
            } else {
                descend(old(level)@, path)
            } by {
                lemma_rest_splits(chars@, index as int, path);
                let tail = path.drop_first();
                if path[0] == c {
                    assert(descend(level@, path) == lookup(after, tail));
                    assert(descend(old(level)@, path) == lookup(before, tail)) by {
                        if !old(level)@.contains_key(c) {
                            assert(before.children() =~= Map::empty());
                            if tail.len() > 0 {
                                assert(descend(before.children(), tail) is None);
                            }
                        }
                    }
                    if tail.len() > 0 {
                        assert(lookup(after, tail) == descend(after.children(), tail));
                        assert(lookup(before, tail) == descend(before.children(), tail));
                        if index + 1 == len {
                            assert(after.children() == before.children());
                            assert(tail != chars@.skip(index + 1));
                            assert(path != rest);
                        } else {
                            assert(descend(after.children(), tail) == if tail == chars@.skip(
                                index + 1,
                            ) {
                                Some(v)
                            } else {
                                descend(before.children(), tail)
                            });
                        }
                    } else {
                        assert(lookup(after, tail) == after.held());
                        assert(lookup(before, tail) == before.held());
                        if index + 1 == len {
                            assert(tail =~= chars@.skip(index + 1));
                        } else {
                            assert(tail != chars@.skip(index + 1));
                            assert(after.held() == before.held());
                        }
                    }
                } else {
                    assert(level@.contains_key(path[0]) == old(level)@.contains_key(path[0]));
                }
            }
            if tidy(old(level)@) {
                if old(level)@.contains_key(c) {
                    lemma_tidy_below(old(level)@, c);
                } else {
                    assert(before.children() =~= Map::empty());
                    assert forall|t: Seq<u32>| t.len() > 0 implies !#[trigger] idle(
                        before.children(),
                        t,
                    ) by {
                        assert(node_at(before.children(), t) is None);
                    }
                }
                assert(tidy(before.children()));
                assert forall|p: Seq<u32>| p.len() > 0 implies !#[trigger] idle(level@, p) by {
                    let tail = p.drop_first();
                    if p[0] == c {
                        if p.len() == 1 {
                            assert(node_at(level@, p) == Some(after));
                            if index + 1 != len {
                                assert(after.children().contains_key(chars@[index + 1]));
                            }
                        } else {
                            assert(node_at(level@, p) == node_at(after.children(), tail));
                            assert(!idle(after.children(), tail));
                        }
                    } else {
                        assert(level@.contains_key(p[0]) == old(level)@.contains_key(p[0]));
                        assert(node_at(level@, p) == node_at(old(level)@, p));
                        assert(!idle(old(level)@, p));
                    }
                }
            }
        }
        result
    }

    /// Enters `v` under `key`, which must not be empty; a value that the
    /// key had is replaced.
    pub fn add(&mut self, key: String, v: V)
        requires
            old(self).wf(),
            key@.len() > 0,
            old(self).count() < usize::MAX,
        ensures
            final(self).wf(),
            final(self)@ == old(self)@.insert(codes(key@), v),
            final(self).count() == if old(self)@.contains_key(codes(key@)) {
                old(self).count()
            } else {
                old(self).count() + 1
            },
    {
        let chars = codes_of(key.as_str());
        assert(chars@.skip(0) =~= chars@);
        let result = Self::add_rec(&mut self.root, &chars, 0, v);
        proof {
            assert(held_for(old(self).root@, chars@) == entry_of(old(self).entries@, chars@));
            self.entries = Ghost(old(self).entries@.insert(chars@, v));
        }
        match result {
            InsertResult::Added => {
                self.length += 1;
            },
            InsertResult::Updated(_) => {},
        }
        proof {
            assert forall|k: Seq<u32>| #[trigger]
                held_for(self.root@, k) == entry_of(self.entries@, k) by {
                assert(held_for(old(self).root@, k) == entry_of(old(self).entries@, k));
            }
        }
    }

    /// The value under the key `s`.
    pub fn find(&self, s: &str) -> (found: Option<&V>)
        requires
            self.wf(),
        ensures
            match found {
                Some(v) => self@.contains_key(codes(s@)) && self@[codes(s@)] == *v,
                None => !self@.contains_key(codes(s@)),
            },
    {
        let chars = codes_of(s);
        proof {
            assert(held_for(self.root@, chars@) == entry_of(self.entries@, chars@));
        }
        if chars.len() == 0 {
            return None;
        }
        let first = chars[0];
        let mut current: &Box<TrieNode<V>> = match self.root.get(&first) {
            Some(node) => node,
            None => {
                return None;
            },
        };
        let mut i: usize = 1;
        assert(chars@.drop_first() =~= chars@.skip(1));
        while i < chars.len()
            invariant
                1 <= i <= chars@.len(),
                chars@ == codes(s@),
                held_for(self.root@, chars@) == entry_of(self.entries@, chars@),
                lookup(**current, chars@.skip(i as int)) == held_for(self.root@, chars@),
            decreases chars@.len() - i,
        {
            let c = chars[i];
            let ghost here = **current;
            proof {
                let rest = chars@.skip(i as int);
                assert(rest[0] == chars@[i as int]);
                assert(rest.drop_first() =~= chars@.skip(i + 1));
                assert(lookup(here, rest) == descend(here.children(), rest));
            }
            current = match current.next().get(&c) {
                Some(node) => node,
                None => {
                    return None;
                },
            };
            i += 1;
        }
        assert(chars@.skip(i as int).len() == 0);
        current.value()
    }

    /// Takes the value at the end of the rest of `chars` from `index` on
    /// out of the nodes below `level`. Tells also whether the node at the
    /// end has no children.
    #[verifier::rlimit(40)]
    fn take_rec(level: &mut Level<V>, chars: &Vec<u32>, index: usize) -> (result: (
        Option<V>,
        bool,
    ))
        requires
            index < chars@.len(),
        ensures
            result.0 == descend(old(level)@, chars@.skip(index as int)),
            forall|path: Seq<u32>|
                path.len() > 0 ==> #[trigger] descend(final(level)@, path) == if path
                    == chars@.skip(index as int) {
                    None
                } else {
                    descend(old(level)@, path)
                },
            final(level)@.dom() == old(level)@.dom(),
            tidy(old(level)@) ==> forall|p: Seq<u32>|
                p.len() > 0 && #[trigger] idle(final(level)@, p) ==> p == chars@.skip(index as int)
                    && result.0 is Some && result.1,
        decreases chars@.len() - index,
    {
        let len = chars.len();
        let c = chars[index];
        let mut node = match level.remove(&c) {
            Some(node) => node,
            None => {
                proof {
                    assert(level@ =~= old(level)@);
                }
                return (None, false);
            },
        };
        let ghost before = *node;
        let result = if index + 1 == len {
            let value = node.take_value();
            (value, node.next().is_empty())
        } else {
            Self::take_rec(node.next_mut(), chars, index + 1)
        };
        let ghost after = *node;
        level.insert(c, node);
        proof {
            let rest = chars@.skip(index as int);
            assert(rest[0] == chars@[index as int]);
            assert(rest.drop_first() =~= chars@.skip(index + 1));
            assert(descend(old(level)@, rest) == lookup(before, rest.drop_first()));
            if index + 1 != len {
                assert(lookup(before, rest.drop_first()) == descend(
                    before.children(),
                    rest.drop_first(),
                ));
            }
            assert forall|path: Seq<u32>| path.len() > 0 implies #[trigger] descend(
                level@,
                path,
            ) == if path == rest {
                None
            } else {
                descend(old(level)@, path)
            } by {
                lemma_rest_splits(chars@, index as int, path);
                let tail = path.drop_first();
                if path[0] == c {
                    assert(descend(level@, path) == lookup(after, tail));
                    assert(descend(old(level)@, path) == lookup(before, tail));
                    if tail.len() > 0 {
                        assert(lookup(after, tail) == descend(after.children(), tail));
                        assert(lookup(before, tail) == descend(before.children(), tail));
                        if index + 1 == len {
                            assert(tail != chars@.skip(index + 1));
                        }
                    } else {
                        assert(lookup(after, tail) == after.held());
                        assert(lookup(before, tail) == before.held());
                        if index + 1 == len {
                            assert(tail =~= chars@.skip(index + 1));
                        } else {
                            assert(tail != chars@.skip(index + 1));
                        }
                    }
                } else {
                    assert(level@.contains_key(path[0]) == old(level)@.contains_key(path[0]));
                }
            }
            assert(level@.dom() =~= old(level)@.dom());
            if tidy(old(level)@) {
                lemma_tidy_below(old(level)@, c);
                assert forall|p: Seq<u32>| p.len() > 0 && #[trigger] idle(level@, p) implies p
                    == rest && result.0 is Some && result.1 by {
                    let tail = p.drop_first();
                    lemma_rest_splits(chars@, index as int, p);
                    if p[0] == c {
                        if p.len() == 1 {
                            assert(node_at(level@, p) == Some(after));
                            assert(tail =~= Seq::<u32>::empty());
                            if index + 1 == len {
                                assert(chars@.skip(index + 1) =~= Seq::<u32>::empty());
                                assert(p == rest);
                                assert(result.1);
                                assert(result.0 is Some);
                            } else {
                                assert(after.children().dom() =~= before.children().dom());
                                assert(!after.unused());
                            }
                        } else {
                            assert(node_at(level@, p) == node_at(after.children(), tail));
                            if index + 1 == len {
                                assert(!idle(before.children(), tail));
                                assert(after.children() == before.children());
                            } else {
                                assert(idle(after.children(), tail));
                                assert(tail == chars@.skip(index + 1));
                                assert(p == rest);
                            }
                        }
                    } else {
                        assert(level@.contains_key(p[0]) == old(level)@.contains_key(p[0]));
                        assert(node_at(level@, p) == node_at(old(level)@, p));
                        assert(!idle(old(level)@, p));
                    }
                }
            }
        }
        result
    }

    /// Follows `path` from `depth` up to `index` below `level` and removes
    /// the child with code `c` of the node reached there, if that child has
    /// neither a value nor children. Tells whether it did.
    #[verifier::rlimit(40)]
    fn prune_rec(level: &mut Level<V>, path: &Vec<u32>, depth: usize, index: usize, c: u32) -> (removed:
        bool)
        requires
            depth <= index <= path@.len(),
        ensures
            removed == idle(
                old(level)@,
                path@.subrange(depth as int, index as int).push(c),
            ),
            forall|p: Seq<u32>|
                p.len() > 0 ==> #[trigger] descend(final(level)@, p) == descend(old(level)@, p),
            final(level)@.dom() == if removed && depth == index {
                old(level)@.dom().remove(c)
            } else {
                old(level)@.dom()
            },
            forall|p: Seq<u32>|
                p.len() > 0 && #[trigger] idle(final(level)@, p) ==> (idle(old(level)@, p) && p
                    != path@.subrange(depth as int, index as int).push(c)) || (removed && depth
                    < index && p == path@.subrange(depth as int, index as int)),
        decreases index - depth,
    {
        let ghost target = path@.subrange(depth as int, index as int).push(c);
        if depth == index {
            assert(target =~= seq![c]);
            let unused = match level.get(&c) {
                Some(node) => node.is_unused(),
                None => false,
            };
            if unused {
                let ghost gone = *old(level)@[c];
                level.remove(&c);
                proof {
                    assert forall|p: Seq<u32>| p.len() > 0 implies #[trigger] descend(level@, p)
                        == descend(old(level)@, p) by {
                        if p[0] == c {
                            assert(descend(old(level)@, p) == lookup(gone, p.drop_first()));
                            if p.drop_first().len() > 0 {
                                assert(lookup(gone, p.drop_first()) == descend(
                                    gone.children(),
                                    p.drop_first(),
                                ));
                            }
                        }
                    }
                    assert(level@.dom() =~= old(level)@.dom().remove(c));
                    assert forall|p: Seq<u32>| p.len() > 0 && #[trigger] idle(level@, p) implies idle(
                        old(level)@,
                        p,
                    ) && p != target by {
                        if p[0] == c {
                            assert(node_at(level@, p) is None);
                        } else {
                            assert(node_at(level@, p) == node_at(old(level)@, p));
                        }
                    }
                }
            } else {
                proof {
                    assert(node_at(old(level)@, target) == if old(level)@.contains_key(c) {
                        Some(*old(level)@[c])
                    } else {
                        None
                    });
                }
            }
            unused
        } else {
            let k = path[depth];
            assert(target.drop_first() =~= path@.subrange(depth + 1, index as int).push(c));
            assert(target[0] == k);
            match level.remove(&k) {
                None => {
                    proof {
                        assert(level@ =~= old(level)@);
                    }
                    false
                },
                Some(mut node) => {
                    let ghost before = *node;
                    let removed = Self::prune_rec(node.next_mut(), path, depth + 1, index, c);
                    let ghost after = *node;
                    level.insert(k, node);
                    proof {
                        assert forall|p: Seq<u32>| p.len() > 0 implies #[trigger] descend(level@, p)
                            == descend(old(level)@, p) by {
                            let tail = p.drop_first();
                            if p[0] == k {
                                assert(descend(level@, p) == lookup(after, tail));
                                assert(descend(old(level)@, p) == lookup(before, tail));
                                if tail.len() > 0 {
                                    assert(lookup(after, tail) == descend(after.children(), tail));
                                    assert(lookup(before, tail) == descend(
                                        before.children(),
                                        tail,
                                    ));
                                }
                            } else {
                                assert(level@.contains_key(p[0]) == old(level)@.contains_key(p[0]));
                            }
                        }
                        assert(level@.dom() =~= old(level)@.dom());
                        let parent_path = path@.subrange(depth as int, index as int);
                        let below = path@.subrange(depth + 1, index as int);
                        assert(parent_path =~= seq![k] + below);
                        assert forall|p: Seq<u32>| p.len() > 0 && #[trigger] idle(level@, p) implies (
                        idle(old(level)@, p) && p != target) || (removed && depth < index && p
                            == parent_path) by {
                            let tail = p.drop_first();
                            if p[0] == k {
                                if p.len() == 1 {
                                    assert(node_at(level@, p) == Some(after));
                                    assert(node_at(old(level)@, p) == Some(before));
                                    assert(p =~= seq![k]);
                                    assert(target.len() >= 2);
                                    if !before.unused() {
                                        assert(after.unused());
                                        assert(after.held() == before.held());
                                        assert(!(before.children().dom() =~= Set::<u32>::empty()));
                                        assert(after.children().dom() =~= Set::<u32>::empty());
                                        assert(removed && depth + 1 == index);
                                        assert(below =~= Seq::<u32>::empty());
                                        assert(p == parent_path);
                                    } else {
                                        assert(idle(old(level)@, p));
                                    }
                                } else {
                                    assert(node_at(level@, p) == node_at(after.children(), tail));
                                    assert(node_at(old(level)@, p) == node_at(
                                        before.children(),
                                        tail,
                                    ));
                                    assert(p =~= seq![k] + tail);
                                    assert(idle(after.children(), tail));
                                    if idle(before.children(), tail) && tail
                                        != path@.subrange(depth + 1, index as int).push(c) {
                                        assert(idle(old(level)@, p));
                                        if p == target {
                                            assert(tail =~= target.drop_first());
                                        }
                                    } else {
                                        assert(removed && depth + 1 < index && tail == below);
                                        assert(p =~= parent_path);
                                    }
                                }
                            } else {
                                assert(level@.contains_key(p[0]) == old(level)@.contains_key(p[0]));
                                assert(node_at(level@, p) == node_at(old(level)@, p));
                            }
                        }
                    }
                    removed
                },
            }
        }
    }

    /// Removes the node that `c` leads to from the end of the first `index`
    /// characters of `chars`, if that node has neither a value nor
    /// children. Tells whether it did; a node that is removed so never had
    /// a value to give back. No entry changes. The only node that can be
    /// left without value and children by this is the one at the end of
    /// those first characters.
    pub fn remove_node(&mut self, chars: &[char], index: usize, c: char) -> (result: (
        Option<V>,
        bool,
    ))
        requires
            old(self).holds(),
            index <= chars@.len(),
        ensures
            final(self).holds(),
            old(self).wf() ==> final(self).wf(),
            final(self)@ == old(self)@,
            final(self).count() == old(self).count(),
            result.0 is None,
            result.1 == idle(
                old(self).top_level(),
                codes(chars@).subrange(0, index as int).push(c as u32),
            ),
            forall|p: Seq<u32>|
                p.len() > 0 && #[trigger] idle(final(self).top_level(), p) ==> (idle(
                    old(self).top_level(),
                    p,
                ) && p != codes(chars@).subrange(0, index as int).push(c as u32)) || (result.1 && 0
                    < index && p == codes(chars@).subrange(0, index as int)),
    {
        let mut path: Vec<u32> = Vec::new();
        let mut i: usize = 0;
        while i < index
            invariant
                i <= index <= chars@.len(),
                path@ == codes(chars@).subrange(0, i as int),
            decreases index - i,
        {
            path.push(chars[i] as u32);
            i += 1;
            assert(path@ =~= codes(chars@).subrange(0, i as int));
        }
        assert(path@.subrange(0, index as int) =~= codes(chars@).subrange(0, index as int));
        let removed = self.remove_node_at(&path, index, c as u32);
        (None, removed)
    }

    /// Removes the child with code `c` of the node at the end of the first
    /// `index` codes of `path`, if it has neither a value nor children.
    fn remove_node_at(&mut self, path: &Vec<u32>, index: usize, c: u32) -> (removed: bool)
        requires
            old(self).holds(),
            index <= path@.len(),
        ensures
            final(self).holds(),
            final(self)@ == old(self)@,
            final(self).count() == old(self).count(),
            removed == idle(old(self).root@, path@.subrange(0, index as int).push(c)),
            forall|p: Seq<u32>|
                p.len() > 0 && #[trigger] idle(final(self).root@, p) ==> (idle(old(self).root@, p)
                    && p != path@.subrange(0, index as int).push(c)) || (removed && 0 < index && p
                    == path@.subrange(0, index as int)),
    {
        let removed = Self::prune_rec(&mut self.root, path, 0, index, c);
        proof {
            assert forall|k: Seq<u32>| #[trigger]
                held_for(self.root@, k) == entry_of(self.entries@, k) by {
                assert(held_for(old(self).root@, k) == entry_of(old(self).entries@, k));
            }
        }
        removed
    }

    /// Takes the entry of `key` out of the trie and gives its value, and
    /// removes the nodes that serve no other key.
    pub fn remove(&mut self, key: &str) -> (taken: Option<V>)
        requires
            old(self).wf(),
        ensures
            final(self).wf(),
            taken == entry_of(old(self)@, codes(key@)),
            final(self)@ == old(self)@.remove(codes(key@)),
            final(self).count() == if old(self)@.contains_key(codes(key@)) {
                old(self).count() - 1
            } else {
                old(self).count() as int
            },
    {
        let chars = codes_of(key);
        proof {
            assert(held_for(self.root@, chars@) == entry_of(self.entries@, chars@));
        }
        if chars.len() == 0 {
            assert(self@ =~= old(self)@.remove(codes(key@)));
            return None;
        }
        assert(chars@.skip(0) =~= chars@);
        let (value, bare) = Self::take_rec(&mut self.root, &chars, 0);
        let value = match value {
            Some(value) => value,
            None => {
                proof {
                    assert forall|k: Seq<u32>| #[trigger]
                        held_for(self.root@, k) == entry_of(self.entries@, k) by {
                        assert(held_for(old(self).root@, k) == entry_of(old(self).entries@, k));
                    }
                    assert(self@ =~= old(self)@.remove(codes(key@)));
                }
                return None;
            },
        };
        proof {
            assert(old(self).entries@.dom().contains(chars@));
            assert(old(self).entries@.dom().len() > 0) by {
                if old(self).entries@.dom().len() == 0 {
                    old(self).entries@.dom().lemma_len0_is_empty();
                }
            }
            self.entries = Ghost(old(self).entries@.remove(chars@));
        }
        self.length -= 1;
        proof {
            assert forall|k: Seq<u32>| #[trigger]
                held_for(self.root@, k) == entry_of(self.entries@, k) by {
                assert(held_for(old(self).root@, k) == entry_of(old(self).entries@, k));
            }
        }
        if !bare {
            return Some(value);
        }
        let mut can_remove_parent = true;
        let mut i = chars.len();
        assert(chars@.subrange(0, i as int) =~= chars@);
        while i > 0 && can_remove_parent
            invariant
                self.holds(),
                i <= chars@.len(),
                self@ == old(self)@.remove(codes(key@)),
                self.count() == old(self).count() - 1,
                forall|p: Seq<u32>|
                    p.len() > 0 && #[trigger] idle(self.root@, p) ==> can_remove_parent && p
                        == chars@.subrange(0, i as int),
            decreases i,
        {
            i -= 1;
            assert(chars@.subrange(0, i as int).push(chars@[i as int]) =~= chars@.subrange(
                0,
                i + 1,
            ));
            let removed = self.remove_node_at(&chars, i, chars[i]);
            can_remove_parent = removed;
        }
        Some(value)
    }
}

impl<V> Default for TrieTree<V> {
    fn default() -> (trie: Self)
        ensures
            trie.wf(),
            trie@ == Map::<Seq<u32>, V>::empty(),
    {
        TrieTree::new()
    }
}

} // verus!
