//! What follows from the shape of nodes for the keys they store.

use crate::label::is_common_len;
use crate::node::Node;
use crate::node::forest_entries;
use crate::node::ordered;
use crate::node::own_entry;
use crate::node::shaped;
use crate::node::shaped_but;
use vstd::prelude::*;

verus! {

/// The node at position `i` of `kids` stores something under `k`.
pub(crate) open spec fn kid_holds<Item>(
    kids: Seq<Node<Item>>,
    here: Seq<char>,
    i: int,
    k: Seq<char>,
) -> bool {
    0 <= i < kids.len() && kids[i].entries(here).contains_key(k)
}

/// A forest stores a key exactly when one of its nodes does.
pub(crate) proof fn lemma_forest_contains<Item>(
    kids: Seq<Node<Item>>,
    here: Seq<char>,
    k: Seq<char>,
)
    ensures
        forest_entries(kids, here).contains_key(k) <==> exists|i: int|
            kid_holds(kids, here, i, k),
    decreases kids.len(),
{
    if kids.len() > 0 {
        let front = kids.drop_last();
        lemma_forest_contains(front, here, k);
        if forest_entries(kids, here).contains_key(k) {
            if kids.last().entries(here).contains_key(k) {
                assert(kid_holds(kids, here, kids.len() - 1, k));
            } else {
                let i = choose|i: int| kid_holds(front, here, i, k);
                assert(kid_holds(kids, here, i, k));
            }
        }
        if exists|i: int| kid_holds(kids, here, i, k) {
            let i = choose|i: int| kid_holds(kids, here, i, k);
            if i < kids.len() - 1 {
                assert(kid_holds(front, here, i, k));
            }
        }
    }
}

impl<Item> Node<Item> {
    /// Every key stored at or below a node begins with the labels on the way
    /// to it, its own included.
    pub(crate) proof fn lemma_entries_prefix(self, path: Seq<char>, k: Seq<char>)
        requires
            self.entries(path).contains_key(k),
        ensures
            (path + self.label@).is_prefix_of(k),
        decreases self,
    {
        let here = path + self.label@;
        if own_entry(here, self.value).contains_key(k) {
            assert(k =~= here);
        } else {
            lemma_forest_contains(self.children@, here, k);
            let i = choose|i: int| kid_holds(self.children@, here, i, k);
            self.children@[i].lemma_entries_prefix(here, k);
        }
    }
}

/// A key stored by a node of a forest is longer than the way to the forest,
/// and goes on with the first scalar value of that node's label.
pub(crate) proof fn lemma_kid_key<Item>(
    kids: Seq<Node<Item>>,
    here: Seq<char>,
    i: int,
    k: Seq<char>,
)
    requires
        kid_holds(kids, here, i, k),
        kids[i].label@.len() > 0,
    ensures
        here.is_prefix_of(k),
        k.len() > here.len(),
        k[here.len() as int] == kids[i].first(),
{
    kids[i].lemma_entries_prefix(here, k);
    let full = here + kids[i].label@;
    assert(full[here.len() as int] == kids[i].first());
    assert(k.subrange(0, full.len() as int)[here.len() as int] == k[here.len() as int]);
    assert(here =~= k.subrange(0, here.len() as int)) by {
        assert forall|j: int| 0 <= j < here.len() implies here[j] == k[j] by {
            assert(full[j] == here[j]);
            assert(k.subrange(0, full.len() as int)[j] == k[j]);
        }
    }
}

/// In an ordered forest no key is stored by two nodes.
pub(crate) proof fn lemma_kids_disjoint<Item>(
    kids: Seq<Node<Item>>,
    here: Seq<char>,
    i: int,
    j: int,
    k: Seq<char>,
)
    requires
        ordered(kids),
        kid_holds(kids, here, i, k),
        kid_holds(kids, here, j, k),
    ensures
        i == j,
{
    lemma_kid_key(kids, here, i, k);
    lemma_kid_key(kids, here, j, k);
}

/// In an ordered forest a key has the payload that the node storing it gives it.
pub(crate) proof fn lemma_forest_value<Item>(
    kids: Seq<Node<Item>>,
    here: Seq<char>,
    i: int,
    k: Seq<char>,
)
    requires
        ordered(kids),
        kid_holds(kids, here, i, k),
    ensures
        forest_entries(kids, here).contains_key(k),
        forest_entries(kids, here)[k] == kids[i].entries(here)[k],
    decreases kids.len(),
{
    lemma_forest_contains(kids, here, k);
    let front = kids.drop_last();
    let last = kids.len() - 1;
    if i < last {
        assert(kid_holds(front, here, i, k));
        assert(ordered(front));
        lemma_forest_value(front, here, i, k);
        if kids.last().entries(here).contains_key(k) {
            assert(kid_holds(kids, here, last, k));
            lemma_kids_disjoint(kids, here, i, last, k);
        }
    }
}

/// An ordered forest is the one map that stores what its nodes store.
pub(crate) proof fn lemma_forest_is<Item>(
    kids: Seq<Node<Item>>,
    here: Seq<char>,
    m: Map<Seq<char>, Item>,
)
    requires
        ordered(kids),
        forall|x: Seq<char>| #[trigger]
            m.contains_key(x) <==> exists|i: int| kid_holds(kids, here, i, x),
        forall|i: int, x: Seq<char>| #[trigger]
            kid_holds(kids, here, i, x) ==> m[x] == kids[i].entries(here)[x],
    ensures
        forest_entries(kids, here) == m,
{
    let f = forest_entries(kids, here);
    assert forall|x: Seq<char>| f.contains_key(x) <==> m.contains_key(x) by {
        lemma_forest_contains(kids, here, x);
    }
    assert forall|x: Seq<char>| f.contains_key(x) implies f[x] == m[x] by {
        lemma_forest_contains(kids, here, x);
        let i = choose|i: int| kid_holds(kids, here, i, x);
        lemma_forest_value(kids, here, i, x);
    }
    assert(f =~= m);
}

/// An ordered forest stores no key that ends on the way to it.
pub(crate) proof fn lemma_forest_beyond<Item>(kids: Seq<Node<Item>>, here: Seq<char>, k: Seq<char>)
    requires
        ordered(kids),
        k.len() <= here.len(),
    ensures
        !forest_entries(kids, here).contains_key(k),
{
    lemma_forest_contains(kids, here, k);
    if forest_entries(kids, here).contains_key(k) {
        let i = choose|i: int| kid_holds(kids, here, i, k);
        lemma_kid_key(kids, here, i, k);
    }
}

/// A forest of one node stores what the node stores.
pub(crate) proof fn lemma_forest_single<Item>(kids: Seq<Node<Item>>, here: Seq<char>)
    requires
        kids.len() == 1,
    ensures
        forest_entries(kids, here) == kids[0].entries(here),
{
    assert(forest_entries(kids.drop_last(), here) =~= Map::empty());
    assert(forest_entries(kids, here) =~= kids[0].entries(here));
}

/// Putting a node into an ordered forest, at a place that keeps it ordered,
/// adds what the node stores.
pub(crate) proof fn lemma_forest_inserted<Item>(
    kids: Seq<Node<Item>>,
    here: Seq<char>,
    s: int,
    c: Node<Item>,
)
    requires
        0 <= s <= kids.len(),
        ordered(kids),
        ordered(kids.insert(s, c)),
    ensures
        forest_entries(kids.insert(s, c), here) == forest_entries(kids, here).union_prefer_right(
            c.entries(here),
        ),
{
    let grown = kids.insert(s, c);
    let target = forest_entries(kids, here).union_prefer_right(c.entries(here));
    assert forall|x: Seq<char>| #[trigger]
        target.contains_key(x) <==> exists|j: int| kid_holds(grown, here, j, x) by {
        lemma_forest_contains(kids, here, x);
        if c.entries(here).contains_key(x) {
            assert(kid_holds(grown, here, s, x));
        } else if forest_entries(kids, here).contains_key(x) {
            let j = choose|j: int| kid_holds(kids, here, j, x);
            if j < s {
                assert(kid_holds(grown, here, j, x));
            } else {
                assert(kid_holds(grown, here, j + 1, x));
            }
        }
        if exists|j: int| kid_holds(grown, here, j, x) {
            let j = choose|j: int| kid_holds(grown, here, j, x);
            if j < s {
                assert(kid_holds(kids, here, j, x));
            } else if j > s {
                assert(kid_holds(kids, here, j - 1, x));
            }
        }
    }
    assert forall|j: int, x: Seq<char>| #[trigger]
        kid_holds(grown, here, j, x) implies target[x] == grown[j].entries(here)[x] by {
        if j != s {
            if c.entries(here).contains_key(x) {
                assert(kid_holds(grown, here, s, x));
                lemma_kids_disjoint(grown, here, j, s, x);
            }
            if j < s {
                lemma_forest_value(kids, here, j, x);
            } else {
                lemma_forest_value(kids, here, j - 1, x);
            }
        }
    }
    lemma_forest_is(grown, here, target);
}

/// Taking a node that stores nothing out of an ordered forest leaves an
/// ordered forest that stores the same.
pub(crate) proof fn lemma_forest_without<Item>(kids: Seq<Node<Item>>, here: Seq<char>, i: int)
    requires
        0 <= i < kids.len(),
        ordered(kids),
        kids[i].entries(here) == Map::<Seq<char>, Item>::empty(),
    ensures
        ordered(kids.remove(i)),
        forest_entries(kids.remove(i), here) == forest_entries(kids, here),
{
    let fewer = kids.remove(i);
    let target = forest_entries(kids, here);
    assert(ordered(fewer)) by {
        assert forall|a: int| 0 <= a < fewer.len() implies (#[trigger] fewer[a]).label@.len()
            > 0 by {
            if a < i {
                assert(fewer[a] == kids[a]);
            } else {
                assert(fewer[a] == kids[a + 1]);
            }
        }
        assert forall|a: int, b: int| 0 <= a < b < fewer.len() implies (#[trigger] fewer[a]).first()
            < (#[trigger] fewer[b]).first() by {
            let a0 = if a < i { a } else { a + 1 };
            let b0 = if b < i { b } else { b + 1 };
            assert(fewer[a] == kids[a0]);
            assert(fewer[b] == kids[b0]);
        }
    }
    assert forall|x: Seq<char>| #[trigger]
        target.contains_key(x) <==> exists|j: int| kid_holds(fewer, here, j, x) by {
        lemma_forest_contains(kids, here, x);
        if target.contains_key(x) {
            let j = choose|j: int| kid_holds(kids, here, j, x);
            if j < i {
                assert(kid_holds(fewer, here, j, x));
            } else {
                assert(kid_holds(fewer, here, j - 1, x));
            }
        }
        if exists|j: int| kid_holds(fewer, here, j, x) {
            let j = choose|j: int| kid_holds(fewer, here, j, x);
            if j < i {
                assert(kid_holds(kids, here, j, x));
            } else {
                assert(kid_holds(kids, here, j + 1, x));
            }
        }
    }
    assert forall|j: int, x: Seq<char>| #[trigger]
        kid_holds(fewer, here, j, x) implies target[x] == fewer[j].entries(here)[x] by {
        if j < i {
            lemma_forest_value(kids, here, j, x);
        } else {
            lemma_forest_value(kids, here, j + 1, x);
        }
    }
    lemma_forest_is(fewer, here, target);
}

/// Where one node of an ordered forest comes to store one entry more, or
/// another payload under a key it stored already, so does the forest.
pub(crate) proof fn lemma_forest_kid_gains<Item>(
    kids: Seq<Node<Item>>,
    here: Seq<char>,
    i: int,
    c: Node<Item>,
    k: Seq<char>,
    v: Item,
)
    requires
        0 <= i < kids.len(),
        ordered(kids),
        ordered(kids.update(i, c)),
        c.entries(here) == kids[i].entries(here).insert(k, v),
    ensures
        forest_entries(kids.update(i, c), here) == forest_entries(kids, here).insert(k, v),
{
    let after = kids.update(i, c);
    let target = forest_entries(kids, here).insert(k, v);
    assert forall|x: Seq<char>| #[trigger]
        target.contains_key(x) <==> exists|j: int| kid_holds(after, here, j, x) by {
        lemma_forest_contains(kids, here, x);
        if x == k {
            assert(kid_holds(after, here, i, x));
        } else if target.contains_key(x) {
            let j = choose|j: int| kid_holds(kids, here, j, x);
            assert(kid_holds(after, here, j, x));
        }
        if exists|j: int| kid_holds(after, here, j, x) {
            let j = choose|j: int| kid_holds(after, here, j, x);
            if x != k {
                assert(kid_holds(kids, here, j, x));
            }
        }
    }
    assert forall|j: int, x: Seq<char>| #[trigger]
        kid_holds(after, here, j, x) implies target[x] == after[j].entries(here)[x] by {
        if x == k {
            assert(kid_holds(after, here, i, x));
            lemma_kids_disjoint(after, here, j, i, x);
        } else {
            assert(kid_holds(kids, here, j, x));
            lemma_forest_value(kids, here, j, x);
        }
    }
    lemma_forest_is(after, here, target);
}

/// Where one node of an ordered forest no longer stores a key that goes on
/// with the first scalar value of its label, neither does the forest.
pub(crate) proof fn lemma_forest_kid_loses<Item>(
    kids: Seq<Node<Item>>,
    here: Seq<char>,
    i: int,
    c: Node<Item>,
    k: Seq<char>,
)
    requires
        0 <= i < kids.len(),
        ordered(kids),
        ordered(kids.update(i, c)),
        c.entries(here) == kids[i].entries(here).remove(k),
        k.len() > here.len(),
        kids[i].first() == k[here.len() as int],
    ensures
        forest_entries(kids.update(i, c), here) == forest_entries(kids, here).remove(k),
{
    let after = kids.update(i, c);
    let target = forest_entries(kids, here).remove(k);
    assert forall|j: int| kid_holds(kids, here, j, k) implies j == i by {
        lemma_kid_key(kids, here, j, k);
    }
    assert forall|x: Seq<char>| #[trigger]
        target.contains_key(x) <==> exists|j: int| kid_holds(after, here, j, x) by {
        lemma_forest_contains(kids, here, x);
        if target.contains_key(x) {
            let j = choose|j: int| kid_holds(kids, here, j, x);
            assert(kid_holds(after, here, j, x));
        }
        if exists|j: int| kid_holds(after, here, j, x) {
            let j = choose|j: int| kid_holds(after, here, j, x);
            assert(kid_holds(kids, here, j, x));
        }
    }
    assert forall|j: int, x: Seq<char>| #[trigger]
        kid_holds(after, here, j, x) implies target[x] == after[j].entries(here)[x] by {
        assert(kid_holds(kids, here, j, x));
        lemma_forest_value(kids, here, j, x);
    }
    lemma_forest_is(after, here, target);
}

/// Putting a node whose label begins as that of the node at `i` in its place
/// keeps a forest ordered and the other nodes in shape.
pub(crate) proof fn lemma_kid_replaced<Item>(kids: Seq<Node<Item>>, i: int, c: Node<Item>)
    requires
        0 <= i < kids.len(),
        ordered(kids),
        c.label@.len() > 0,
        c.first() == kids[i].first(),
    ensures
        ordered(kids.update(i, c)),
        shaped(kids) ==> shaped_but(kids.update(i, c), i),
        shaped(kids) && c.wf(false) ==> shaped(kids.update(i, c)),
{
    let after = kids.update(i, c);
    assert forall|a: int, b: int| 0 <= a < b < after.len() implies (#[trigger] after[a]).first() < (
    #[trigger] after[b]).first() by {
        assert(after[a].first() == kids[a].first());
        assert(after[b].first() == kids[b].first());
    }
    assert forall|a: int| 0 <= a < after.len() implies (#[trigger] after[a]).label@.len() > 0 by {
        if a != i {
            assert(after[a] == kids[a]);
        }
    }
    if shaped(kids) {
        assert forall|a: int| 0 <= a < after.len() && a != i implies (#[trigger] after[a]).wf(
            false,
        ) by {
            assert(after[a] == kids[a]);
        }
    }
}

/// A forest with a node in shape put into it is in shape.
pub(crate) proof fn lemma_kid_added<Item>(kids: Seq<Node<Item>>, s: int, c: Node<Item>)
    requires
        0 <= s <= kids.len(),
        shaped(kids),
        c.wf(false),
    ensures
        shaped(kids.insert(s, c)),
{
    let grown = kids.insert(s, c);
    assert forall|a: int| 0 <= a < grown.len() implies (#[trigger] grown[a]).wf(false) by {
        if a < s {
            assert(grown[a] == kids[a]);
        } else if a > s {
            assert(grown[a] == kids[a - 1]);
        }
    }
}

/// A forest without the one node that may be out of shape is in shape.
pub(crate) proof fn lemma_kid_dropped<Item>(kids: Seq<Node<Item>>, i: int)
    requires
        0 <= i < kids.len(),
        shaped_but(kids, i),
    ensures
        shaped(kids.remove(i)),
{
    let fewer = kids.remove(i);
    assert forall|a: int| 0 <= a < fewer.len() implies (#[trigger] fewer[a]).wf(false) by {
        if a < i {
            assert(fewer[a] == kids[a]);
        } else {
            assert(fewer[a] == kids[a + 1]);
        }
    }
}

/// Where a label is all of the common prefix with what follows `pos` in a
/// key, the way to the node and its label are the key up to there.
pub(crate) proof fn lemma_path_extends(key: Seq<char>, pos: int, label: Seq<char>)
    requires
        0 <= pos <= key.len(),
        is_common_len(label, key.skip(pos), label.len() as int),
    ensures
        key.take(pos) + label == key.take(pos + label.len()),
{
    let a = key.take(pos) + label;
    let b = key.take(pos + label.len());
    assert forall|j: int| 0 <= j < a.len() implies a[j] == b[j] by {
        if j >= pos {
            assert(label[j - pos] == key.skip(pos)[j - pos]);
        }
    }
    assert(a =~= b);
}

impl<Item> Node<Item> {
    /// A key that ends inside the label of a node, or goes on otherwise than
    /// the label, is not stored at or below the node.
    pub(crate) proof fn lemma_entry_off(self, key: Seq<char>, pos: int, m: int)
        requires
            0 <= pos <= key.len(),
            is_common_len(self.label@, key.skip(pos), m),
            m < self.label@.len(),
        ensures
            !self.entries(key.take(pos)).contains_key(key),
    {
        let path = key.take(pos);
        let here = path + self.label@;
        if self.entries(path).contains_key(key) {
            self.lemma_entries_prefix(path, key);
            assert(here[pos + m] == key.subrange(0, here.len() as int)[pos + m]);
            assert(key.skip(pos)[m] == key[pos + m]);
        }
    }

    /// The key that ends at a node is stored exactly when the node has a
    /// payload, and with that payload.
    pub(crate) proof fn lemma_entry_here(self, path: Seq<char>)
        requires
            ordered(self.children@),
        ensures
            self.entries(path).contains_key(path + self.label@) <==> self.value is Some,
            self.value is Some ==> self.entries(path)[path + self.label@] == self.value->0,
    {
        let here = path + self.label@;
        lemma_forest_contains(self.children@, here, here);
        if exists|i: int| kid_holds(self.children@, here, i, here) {
            let i = choose|i: int| kid_holds(self.children@, here, i, here);
            lemma_kid_key(self.children@, here, i, here);
        }
    }

    /// The children of a node store the keys that the node stores, but for
    /// the key that ends at the node.
    pub(crate) proof fn lemma_entries_beyond(self, path: Seq<char>)
        requires
            ordered(self.children@),
        ensures
            forest_entries(self.children@, path + self.label@).dom() == self.entries(
                path,
            ).dom().remove(path + self.label@),
    {
        let here = path + self.label@;
        lemma_forest_beyond(self.children@, here, here);
        assert(forest_entries(self.children@, here).dom() =~= self.entries(path).dom().remove(
            here,
        ));
    }

    /// A key that goes on below a node with the first scalar value of a
    /// child's label is stored exactly when that child stores it.
    pub(crate) proof fn lemma_entry_below(self, path: Seq<char>, i: int, k: Seq<char>)
        requires
            ordered(self.children@),
            0 <= i < self.children@.len(),
            k.len() > (path + self.label@).len(),
            self.children@[i].first() == k[(path + self.label@).len() as int],
        ensures
            self.entries(path).contains_key(k) <==> self.children@[i].entries(
                path + self.label@,
            ).contains_key(k),
            self.entries(path).contains_key(k) ==> self.entries(path)[k]
                == self.children@[i].entries(path + self.label@)[k],
    {
        let here = path + self.label@;
        let kids = self.children@;
        lemma_forest_contains(kids, here, k);
        if self.entries(path).contains_key(k) {
            let j = choose|j: int| kid_holds(kids, here, j, k);
            lemma_kid_key(kids, here, j, k);
            assert(j == i);
        }
        if kids[i].entries(here).contains_key(k) {
            assert(kid_holds(kids, here, i, k));
            lemma_forest_value(kids, here, i, k);
        }
    }

    /// A key that goes on below a node with a scalar value that no child's
    /// label begins with is not stored.
    pub(crate) proof fn lemma_entry_nowhere(self, path: Seq<char>, k: Seq<char>)
        requires
            ordered(self.children@),
            k.len() > (path + self.label@).len(),
            forall|i: int|
                0 <= i < self.children@.len() ==> (#[trigger] self.children@[i]).first()
                    != k[(path + self.label@).len() as int],
        ensures
            !self.entries(path).contains_key(k),
    {
        let here = path + self.label@;
        let kids = self.children@;
        lemma_forest_contains(kids, here, k);
        if self.entries(path).contains_key(k) {
            let j = choose|j: int| kid_holds(kids, here, j, k);
            lemma_kid_key(kids, here, j, k);
        }
    }

    /// A node with a payload and without children stores the payload under
    /// the labels on the way to it, its own included, and nothing else.
    pub(crate) proof fn lemma_leaf_entries(self, path: Seq<char>)
        requires
            self.value is Some,
            self.children@.len() == 0,
        ensures
            self.entries(path) == Map::<Seq<char>, Item>::empty().insert(
                path + self.label@,
                self.value->0,
            ),
    {
        assert(self.entries(path) =~= Map::empty().insert(path + self.label@, self.value->0));
    }

    /// A node without payload and children stores nothing.
    pub(crate) proof fn lemma_vacant_entries(self, path: Seq<char>)
        requires
            self.vacant(),
        ensures
            self.entries(path) == Map::<Seq<char>, Item>::empty(),
    {
        assert(self.entries(path) =~= Map::empty());
    }

    /// A node without payload stores what its only child stores, and so does
    /// the child put in its place under both labels, one after the other.
    pub(crate) proof fn lemma_absorbed(self, merged: Node<Item>, path: Seq<char>)
        requires
            self.idle(),
            merged.label@ == self.label@ + self.children@[0].label@,
            merged.value == self.children@[0].value,
            merged.children@ == self.children@[0].children@,
        ensures
            merged.entries(path) == self.entries(path),
    {
        let here = path + self.label@;
        lemma_forest_single(self.children@, here);
        assert(path + merged.label@ =~= here + self.children@[0].label@);
        assert(self.entries(path) =~= self.children@[0].entries(here));
    }
}

} // verus!
