//! The nodes of a tree are determined by the keys that it stores.

use crate::entries::kid_holds;
use crate::entries::lemma_forest_contains;
use crate::entries::lemma_kid_key;
use crate::node::forest_entries;
use crate::node::ordered;
use crate::node::shaped;
use crate::node::Node;
use crate::outline::forest_outline;
use vstd::prelude::*;

verus! {

/// A label among `kids` begins with `c`.
pub(crate) open spec fn has_first<Item>(kids: Seq<Node<Item>>, c: char) -> bool {
    exists|j: int| 0 <= j < kids.len() && (#[trigger] kids[j]).first() == c
}

impl<Item> Node<Item> {
    /// A node below the root stores a key.
    pub(crate) proof fn lemma_some_key(self, path: Seq<char>) -> (k: Seq<char>)
        requires
            self.wf(false),
        ensures
            self.entries(path).contains_key(k),
        decreases self,
    {
        let here = path + self.label@;
        if self.value is Some {
            here
        } else {
            let below = self.children@[0].lemma_some_key(here);
            assert(kid_holds(self.children@, here, 0, below));
            lemma_forest_contains(self.children@, here, below);
            below
        }
    }
}

/// Two ordered forests whose labels begin with the same scalar values have
/// as many nodes, and their labels begin alike node by node.
pub(crate) proof fn lemma_same_firsts<Item>(a: Seq<Node<Item>>, b: Seq<Node<Item>>)
    requires
        ordered(a),
        ordered(b),
        forall|i: int| 0 <= i < a.len() ==> has_first(b, (#[trigger] a[i]).first()),
        forall|j: int| 0 <= j < b.len() ==> has_first(a, (#[trigger] b[j]).first()),
    ensures
        a.len() == b.len(),
        forall|i: int| 0 <= i < a.len() ==> (#[trigger] a[i]).first() == b[i].first(),
    decreases a.len(),
{
    if a.len() == 0 {
        if b.len() > 0 {
            assert(has_first(a, b[0].first()));
        }
    } else {
        let la = a.len() - 1;
        assert(has_first(b, a[la].first()));
        let j = choose|j: int| 0 <= j < b.len() && (#[trigger] b[j]).first() == a[la].first();
        let lb = b.len() - 1;
        assert(has_first(a, b[lb].first()));
        let i = choose|i: int| 0 <= i < a.len() && (#[trigger] a[i]).first() == b[lb].first();
        assert(i == la && j == lb);
        let a0 = a.drop_last();
        let b0 = b.drop_last();
        assert forall|x: int| 0 <= x < a0.len() implies has_first(b0, (#[trigger] a0[x]).first()) by {
            assert(a0[x] == a[x]);
            assert(has_first(b, a[x].first()));
            let y = choose|y: int| 0 <= y < b.len() && (#[trigger] b[y]).first() == a[x].first();
            assert(b0[y] == b[y]);
        }
        assert forall|y: int| 0 <= y < b0.len() implies has_first(a0, (#[trigger] b0[y]).first()) by {
            assert(b0[y] == b[y]);
            assert(has_first(a, b[y].first()));
            let x = choose|x: int| 0 <= x < a.len() && (#[trigger] a[x]).first() == b[y].first();
            assert(a0[x] == a[x]);
        }
        lemma_same_firsts(a0, b0);
        assert forall|x: int| 0 <= x < a.len() implies (#[trigger] a[x]).first() == b[x].first() by {
            if x < la {
                assert(a0[x] == a[x]);
                assert(b0[x] == b[x]);
            }
        }
    }
}

/// Forests with as many nodes, whose outlines are the same node by node,
/// have the same outline.
pub(crate) proof fn lemma_outline_kids_alike<Item>(
    a: Seq<Node<Item>>,
    b: Seq<Node<Item>>,
    indent: Seq<char>,
)
    requires
        a.len() == b.len(),
        forall|i: int| 0 <= i < a.len() ==> (#[trigger] a[i]).outline(indent) == b[i].outline(indent),
    ensures
        forest_outline(a, indent) == forest_outline(b, indent),
    decreases a.len(),
{
    if a.len() > 0 {
        let a0 = a.drop_last();
        let b0 = b.drop_last();
        assert forall|i: int| 0 <= i < a0.len() implies (#[trigger] a0[i]).outline(indent)
            == b0[i].outline(indent) by {
            assert(a0[i] == a[i]);
            assert(b0[i] == b[i]);
        }
        lemma_outline_kids_alike(a0, b0, indent);
        assert(a.last() == a[a.len() - 1]);
    }
}

/// Each key that one of two ordered forests stores is stored by the other:
/// then every scalar value that a label of the one begins with begins a
/// label of the other.
proof fn lemma_firsts_follow<Item>(a: Seq<Node<Item>>, b: Seq<Node<Item>>, here: Seq<char>)
    requires
        ordered(a),
        shaped(a),
        ordered(b),
        forest_entries(a, here).dom().subset_of(forest_entries(b, here).dom()),
    ensures
        forall|i: int| 0 <= i < a.len() ==> has_first(b, (#[trigger] a[i]).first()),
{
    assert forall|i: int| 0 <= i < a.len() implies has_first(b, (#[trigger] a[i]).first()) by {
        let k = a[i].lemma_some_key(here);
        assert(kid_holds(a, here, i, k));
        lemma_forest_contains(a, here, k);
        assert(forest_entries(b, here).dom().contains(k));
        lemma_forest_contains(b, here, k);
        let j = choose|j: int| kid_holds(b, here, j, k);
        lemma_kid_key(a, here, i, k);
        lemma_kid_key(b, here, j, k);
    }
}

/// Of two ordered forests that store the same keys and whose labels begin
/// alike node by node, the nodes at the same place store the same keys.
proof fn lemma_kid_keys_follow<Item>(
    a: Seq<Node<Item>>,
    b: Seq<Node<Item>>,
    here: Seq<char>,
    i: int,
)
    requires
        ordered(a),
        ordered(b),
        a.len() == b.len(),
        0 <= i < a.len(),
        forall|x: int| 0 <= x < a.len() ==> (#[trigger] a[x]).first() == b[x].first(),
        forest_entries(a, here).dom().subset_of(forest_entries(b, here).dom()),
    ensures
        a[i].entries(here).dom().subset_of(b[i].entries(here).dom()),
{
    assert forall|k: Seq<char>| a[i].entries(here).dom().contains(k) implies b[i].entries(
        here,
    ).dom().contains(k) by {
        assert(kid_holds(a, here, i, k));
        lemma_forest_contains(a, here, k);
        assert(forest_entries(b, here).dom().contains(k));
        lemma_forest_contains(b, here, k);
        let j = choose|j: int| kid_holds(b, here, j, k);
        lemma_kid_key(a, here, i, k);
        lemma_kid_key(b, here, j, k);
        assert(a[j].first() == b[j].first());
        if j < i {
            assert(a[j].first() < a[i].first());
        } else if i < j {
            assert(a[i].first() < a[j].first());
        }
    }
}

/// Two forests in shape that store the same keys have the same outline.
pub(crate) proof fn lemma_forest_layout<Item>(
    a: Seq<Node<Item>>,
    b: Seq<Node<Item>>,
    here: Seq<char>,
    indent: Seq<char>,
)
    requires
        ordered(a),
        shaped(a),
        ordered(b),
        shaped(b),
        forest_entries(a, here).dom() == forest_entries(b, here).dom(),
    ensures
        forest_outline(a, indent) == forest_outline(b, indent),
    decreases a, 0nat,
{
    lemma_firsts_follow(a, b, here);
    lemma_firsts_follow(b, a, here);
    lemma_same_firsts(a, b);
    assert forall|i: int| 0 <= i < a.len() implies (#[trigger] a[i]).outline(indent)
        == b[i].outline(indent) by {
        lemma_kid_keys_follow(a, b, here, i);
        lemma_kid_keys_follow(b, a, here, i);
        assert(a[i].entries(here).dom() =~= b[i].entries(here).dom());
        a[i].lemma_layout(b[i], here, indent);
    }
    lemma_outline_kids_alike(a, b, indent);
}

impl<Item> Node<Item> {
    /// Of two nodes below the root that store the same keys, the one has no
    /// shorter label than the other: a node with a shorter label would end a
    /// key there, or branch there, where all keys of the other go on alike.
    proof fn lemma_label_not_shorter(self, other: Node<Item>, path: Seq<char>)
        requires
            self.wf(false),
            other.wf(false),
            self.entries(path).dom() == other.entries(path).dom(),
        ensures
            self.label@.len() >= other.label@.len(),
    {
        let here = path + self.label@;
        let there = path + other.label@;
        if self.label@.len() < other.label@.len() {
            if self.value is Some {
                self.lemma_entry_here(path);
                assert(other.entries(path).dom().contains(here));
                other.lemma_entries_prefix(path, here);
            } else {
                let kids = self.children@;
                let k0 = kids[0].lemma_some_key(here);
                let k1 = kids[1].lemma_some_key(here);
                assert(kid_holds(kids, here, 0, k0));
                assert(kid_holds(kids, here, 1, k1));
                lemma_forest_contains(kids, here, k0);
                lemma_forest_contains(kids, here, k1);
                lemma_kid_key(kids, here, 0, k0);
                lemma_kid_key(kids, here, 1, k1);
                assert(other.entries(path).dom().contains(k0));
                assert(other.entries(path).dom().contains(k1));
                other.lemma_entries_prefix(path, k0);
                other.lemma_entries_prefix(path, k1);
                let at = here.len() as int;
                assert(k0.subrange(0, there.len() as int)[at] == k0[at]);
                assert(k1.subrange(0, there.len() as int)[at] == k1[at]);
                assert(kids[0].first() < kids[1].first());
            }
        }
    }

    /// Two nodes below the root that store the same keys have the same
    /// outline, and so have two roots.
    pub(crate) proof fn lemma_layout(self, other: Node<Item>, path: Seq<char>, indent: Seq<char>)
        requires
            self.wf(false) && other.wf(false) || self.wf(true) && other.wf(true),
            self.entries(path).dom() == other.entries(path).dom(),
        ensures
            self.outline(indent) == other.outline(indent),
        decreases self, 1nat,
    {
        if self.wf(false) && other.wf(false) {
            self.lemma_label_not_shorter(other, path);
            other.lemma_label_not_shorter(self, path);
            let k = self.lemma_some_key(path);
            self.lemma_entries_prefix(path, k);
            other.lemma_entries_prefix(path, k);
            assert(self.label@ =~= other.label@) by {
                let n = path.len() as int;
                assert forall|i: int| 0 <= i < self.label@.len() implies self.label@[i]
                    == other.label@[i] by {
                    assert((path + self.label@)[n + i] == self.label@[i]);
                    assert((path + other.label@)[n + i] == other.label@[i]);
                    assert(k.subrange(0, n + self.label@.len())[n + i] == k[n + i]);
                }
            }
        } else {
            assert(self.label@ =~= other.label@);
        }
        let here = path + self.label@;
        self.lemma_entry_here(path);
        other.lemma_entry_here(path);
        assert(self.value is Some <==> other.value is Some) by {
            assert(self.entries(path).dom().contains(here) <==> other.entries(path).dom().contains(
                here,
            ));
        }
        self.lemma_entries_beyond(path);
        other.lemma_entries_beyond(path);
        lemma_forest_layout(self.children@, other.children@, here, indent + seq![' ', ' ']);
    }
}

} // verus!
