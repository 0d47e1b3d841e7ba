//! Counting the keys that nodes store.

use crate::entries::kid_holds;
use crate::entries::lemma_forest_beyond;
use crate::entries::lemma_forest_contains;
use crate::entries::lemma_kids_disjoint;
use crate::node::Node;
use crate::node::forest_entries;
use crate::node::ordered;
use crate::node::own_entry;
use vstd::map_lib::lemma_disjoint_union_size;
use vstd::map_lib::lemma_union_dom;
use vstd::prelude::*;
use vstd::set_lib::lemma_len_subset;

verus! {

/// How many entries a payload makes: one, or none where there is none.
pub(crate) open spec fn own_count<Item>(value: Option<Item>) -> nat {
    if value is Some {
        1
    } else {
        0
    }
}

/// A forest stores finitely many keys.
pub(crate) proof fn lemma_forest_finite<Item>(kids: Seq<Node<Item>>, here: Seq<char>)
    ensures
        forest_entries(kids, here).dom().finite(),
    decreases kids, 0nat,
{
    if kids.len() > 0 {
        lemma_forest_finite(kids.drop_last(), here);
        kids.last().lemma_entries_finite(here);
        lemma_union_dom(
            forest_entries(kids.drop_last(), here),
            kids.last().entries(here),
        );
    }
}

/// The first `i + 1` nodes of an ordered forest store what the first `i`
/// store and what the next one stores, which are different keys; and they
/// store no more than the whole forest.
pub(crate) proof fn lemma_forest_grows<Item>(kids: Seq<Node<Item>>, here: Seq<char>, i: int)
    requires
        ordered(kids),
        0 <= i < kids.len(),
    ensures
        forest_entries(kids.take(i + 1), here).dom().len() == forest_entries(
            kids.take(i),
            here,
        ).dom().len() + kids[i].entries(here).dom().len(),
        forest_entries(kids.take(i + 1), here).dom().len() <= forest_entries(
            kids,
            here,
        ).dom().len(),
{
    let front = kids.take(i);
    let more = kids.take(i + 1);
    let f = forest_entries(front, here);
    let c = kids[i].entries(here);
    assert(more.drop_last() =~= front);
    assert(more.last() == kids[i]);
    lemma_forest_finite(front, here);
    lemma_forest_finite(more, here);
    lemma_forest_finite(kids, here);
    kids[i].lemma_entries_finite(here);
    assert(f.dom().disjoint(c.dom())) by {
        assert forall|x: Seq<char>| f.dom().contains(x) implies !c.dom().contains(x) by {
            lemma_forest_contains(front, here, x);
            let j = choose|j: int| kid_holds(front, here, j, x);
            assert(kid_holds(kids, here, j, x));
            if c.dom().contains(x) {
                assert(kid_holds(kids, here, i, x));
                lemma_kids_disjoint(kids, here, j, i, x);
            }
        }
    }
    lemma_disjoint_union_size(f, c);
    let whole = forest_entries(kids, here);
    let part = forest_entries(more, here);
    assert(part.dom().subset_of(whole.dom())) by {
        assert forall|x: Seq<char>| part.dom().contains(x) implies whole.dom().contains(x) by {
            lemma_forest_contains(more, here, x);
            lemma_forest_contains(kids, here, x);
            let j = choose|j: int| kid_holds(more, here, j, x);
            assert(kid_holds(kids, here, j, x));
        }
    }
    lemma_len_subset(part.dom(), whole.dom());
}

impl<Item> Node<Item> {
    /// A node and the nodes below it store finitely many keys.
    pub(crate) proof fn lemma_entries_finite(self, path: Seq<char>)
        ensures
            self.entries(path).dom().finite(),
        decreases self, 1nat,
    {
        let here = path + self.label@;
        lemma_forest_finite(self.children@, here);
        lemma_union_dom(
            forest_entries(self.children@, here),
            own_entry(here, self.value),
        );
    }

    /// A node with ordered children stores one key for its payload, if it has
    /// one, and the keys that its children store, which are others.
    pub(crate) proof fn lemma_entries_len(self, path: Seq<char>)
        requires
            ordered(self.children@),
        ensures
            self.entries(path).dom().len() == forest_entries(
                self.children@,
                path + self.label@,
            ).dom().len() + own_count(self.value),
    {
        let here = path + self.label@;
        let f = forest_entries(self.children@, here);
        let o = own_entry(here, self.value);
        lemma_forest_finite(self.children@, here);
        lemma_forest_beyond(self.children@, here, here);
        assert(f.dom().disjoint(o.dom()));
        lemma_disjoint_union_size(f, o);
        if self.value is Some {
            assert(o.dom() =~= Set::empty().insert(here));
        } else {
            assert(o.dom() =~= Set::empty());
        }
    }

    /// The number of keys that the node and the nodes below it store.
    /// `path` spells the labels above the node.
    pub(crate) fn count(&self, Ghost(path): Ghost<Seq<char>>) -> (n: usize)
        requires
            self.sound(),
            self.entries(path).dom().len() <= usize::MAX,
        ensures
            n == self.entries(path).dom().len(),
        decreases self,
    {
        let ghost here = path + self.label@;
        let ghost kids = self.children@;
        let mut n: usize = if self.value.is_some() {
            1
        } else {
            0
        };
        let mut i: usize = 0;
        proof {
            self.lemma_entries_len(path);
            assert(kids.take(0) =~= Seq::empty());
            assert(forest_entries(kids.take(0), here).dom() =~= Set::empty());
        }
        while i < self.children.len()
            invariant
                kids == self.children@,
                here == path + self.label@,
                i <= kids.len(),
                self.sound(),
                self.entries(path).dom().len() <= usize::MAX,
                self.entries(path).dom().len() == forest_entries(kids, here).dom().len()
                    + own_count(self.value),
                n == forest_entries(kids.take(i as int), here).dom().len() + own_count(self.value),
            decreases kids.len() - i,
        {
            proof {
                lemma_forest_grows(kids, here, i as int);
                kids[i as int].lemma_wf_parts();
            }
            let below = self.children[i].count(Ghost(here));
            n = n + below;
            i += 1;
        }
        proof {
            assert(kids.take(i as int) =~= kids);
        }
        n
    }
}

} // verus!
