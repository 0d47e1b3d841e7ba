//! The tree as a map from keys to payloads.

use crate::label::scalars;
use crate::node::Node;
use vstd::prelude::*;

verus! {

/// A compressed prefix tree that stores payloads under keys, which are
/// sequences of Unicode scalar values. Its view is the map from each stored
/// key to its payload.
///
/// A key is spelled by the labels on the way from the root to the node that
/// holds its payload. At all times
/// - the label of the root is empty, and no other label is,
/// - a node below the root that holds no payload has two children or more,
/// - the labels of a node's children begin with different scalar values, and
///   the children are kept in the ascending order of these.
///
/// [`PatriciaTree::compressed`] says this of a tree.
#[derive(Debug)]
pub struct PatriciaTree<Item> {
    root: Node<Item>,
}

/// What `m` holds under `key`, if anything.
pub open spec fn stored<Item>(m: Map<Seq<char>, Item>, key: Seq<char>) -> Option<Item> {
    if m.contains_key(key) {
        Some(m[key])
    } else {
        None
    }
}

impl<Item> View for PatriciaTree<Item> {
    type V = Map<Seq<char>, Item>;

    closed spec fn view(&self) -> Map<Seq<char>, Item> {
        self.root.entries(Seq::empty())
    }
}

impl<Item> PatriciaTree<Item> {
    /// The tree keeps the shape that the description of the type lays down.
    /// Every tree that running code holds does; the functions that make or
    /// change a tree say so of their results.
    pub closed spec fn compressed(&self) -> bool {
        self.root.wf(true)
    }

    #[verifier::type_invariant]
    spec fn inv(self) -> bool {
        self.compressed()
    }

    /// A tree stores finitely many keys.
    pub proof fn lemma_finite(self)
        ensures
            self@.dom().finite(),
    {
        self.root.lemma_entries_finite(Seq::empty());
    }

    /// Two trees that store the same keys have the same nodes: which labels
    /// are split and which nodes are merged depends on the keys alone, not on
    /// the calls that brought them.
    pub(crate) proof fn lemma_one_layout(self, other: PatriciaTree<Item>)
        requires
            self.compressed(),
            other.compressed(),
            self@.dom() == other@.dom(),
        ensures
            self.outline_text() == other.outline_text(),
    {
        self.root.lemma_layout(other.root, Seq::empty(), Seq::empty());
    }

    /// A tree that stores nothing.
    pub fn new() -> (tree: PatriciaTree<Item>)
        ensures
            tree@ == Map::<Seq<char>, Item>::empty(),
            tree.compressed(),
            tree.outline_text() == seq!['-', ' ', '\n'],
    {
        let tree = PatriciaTree { root: Node::empty() };
        proof {
            tree.root.lemma_vacant_entries(Seq::empty());
            assert(tree.root.outline(Seq::empty()) =~= seq!['-', ' ', '\n']);
        }
        tree
    }

    /// Whether a payload is stored under `s`.
    pub fn exist(&self, s: &str) -> (found: bool)
        ensures
            found == self@.contains_key(s@),
    {
        self.find(s).is_some()
    }

    /// The payload stored under `s`, if there is one.
    pub fn find(&self, s: &str) -> (found: Option<&Item>)
        ensures
            match found {
                Some(v) => stored(self@, s@) == Some(*v),
                None => stored(self@, s@) is None,
            },
    {
        let key = scalars(s);
        proof {
            use_type_invariant(self);
            assert(key@.take(0) =~= Seq::empty());
        }
        self.root.lookup(&key, 0)
    }

    /// Stores `value` under `s`, in place of what was stored there, if
    /// anything; what other keys store stays. Where something was stored
    /// under `s` the nodes of the tree stay as they are.
    pub fn add(&mut self, s: &str, value: Item)
        ensures
            final(self)@ == old(self)@.insert(s@, value),
            final(self).compressed(),
            old(self)@.contains_key(s@) ==> final(self).outline_text() == old(self).outline_text(),
    {
        let key = scalars(s);
        proof {
            use_type_invariant(&*self);
            assert(key@.take(0) =~= Seq::empty());
        }
        let mut root = Node::empty();
        std::mem::swap(&mut root, &mut self.root);
        root.insert(&key, 0, value, Ghost(true));
        self.root = root;
        proof {
            if old(self)@.contains_key(s@) {
                assert(self@.dom() =~= old(self)@.dom());
                self.lemma_one_layout(*old(self));
            }
        }
    }

    /// Takes away what is stored under `s`, if anything; what other keys
    /// store stays. Where nothing is stored under `s` the nodes of the tree
    /// stay as they are.
    pub fn remove(&mut self, s: &str)
        ensures
            final(self)@ == old(self)@.remove(s@),
            final(self).compressed(),
            !old(self)@.contains_key(s@) ==> final(self).outline_text() == old(self).outline_text(),
    {
        let key = scalars(s);
        proof {
            use_type_invariant(&*self);
            assert(key@.take(0) =~= Seq::empty());
        }
        let mut root = Node::empty();
        std::mem::swap(&mut root, &mut self.root);
        root.remove(&key, 0);
        self.root = root;
        proof {
            if !old(self)@.contains_key(s@) {
                assert(self@.dom() =~= old(self)@.dom());
                self.lemma_one_layout(*old(self));
            }
        }
    }

    /// The text that `outline` returns: a line for each node, the root's
    /// first and below each node those of its children, in the order of their
    /// labels. A line is two spaces for each level below the root, a dash and
    /// a space, the node's label, and a space and a star where a key ends at
    /// the node; then a line feed.
    pub closed spec fn outline_text(&self) -> Seq<char> {
        self.root.outline(Seq::empty())
    }

    /// The tree written out for a reader, node by node.
    pub fn outline(&self) -> (text: String)
        ensures
            text@ == self.outline_text(),
    {
        let mut text = String::new();
        let mut indent: Vec<char> = Vec::new();
        self.root.write_outline(&mut indent, &mut text);
        text
    }

    /// The number of keys that store a payload.
    pub fn size(&self) -> (n: usize)
        requires
            self@.dom().len() <= usize::MAX,
        ensures
            n == self@.dom().len(),
    {
        proof {
            use_type_invariant(self);
        }
        self.root.count(Ghost(Seq::empty()))
    }
}

} // verus!
