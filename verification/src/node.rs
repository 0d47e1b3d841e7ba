//! Nodes of the tree: what they hold, what they store and the shape they keep.

use crate::entries::lemma_forest_inserted;
use crate::entries::lemma_kid_added;
use crate::label::copy_range;
use vstd::prelude::*;

verus! {

/// One node: the label of the edge that leads to it, the payload of the key
/// that ends here, if one does, and the nodes below it.
#[derive(Debug)]
pub(crate) struct Node<Item> {
    pub(crate) label: Vec<char>,
    pub(crate) value: Option<Item>,
    pub(crate) children: Vec<Node<Item>>,
}

/// The map that holds `value`, if there is one, under `key`, and nothing else.
pub(crate) open spec fn own_entry<Item>(key: Seq<char>, value: Option<Item>) -> Map<
    Seq<char>,
    Item,
> {
    match value {
        Some(v) => Map::empty().insert(key, v),
        None => Map::empty(),
    }
}

/// What the nodes `kids` store together, where `here` spells the labels on
/// the way to their parent, the parent's own included.
pub(crate) open spec fn forest_entries<Item>(kids: Seq<Node<Item>>, here: Seq<char>) -> Map<
    Seq<char>,
    Item,
>
    decreases kids, 0nat,
{
    if kids.len() == 0 {
        Map::empty()
    } else {
        forest_entries(kids.drop_last(), here).union_prefer_right(kids.last().entries(here))
    }
}

/// The first scalar values of the labels of `kids` ascend strictly; none of
/// the labels is empty.
pub(crate) open spec fn ordered<Item>(kids: Seq<Node<Item>>) -> bool {
    &&& forall|i: int| 0 <= i < kids.len() ==> (#[trigger] kids[i]).label@.len() > 0
    &&& forall|i: int, j: int|
        0 <= i < j < kids.len() ==> (#[trigger] kids[i]).first() < (#[trigger] kids[j]).first()
}

/// Each of `kids` keeps the shape of a node below the root.
pub(crate) open spec fn shaped<Item>(kids: Seq<Node<Item>>) -> bool
    decreases kids, 0nat,
{
    forall|i: int| 0 <= i < kids.len() ==> (#[trigger] kids[i]).wf(false)
}

/// Each of `kids` but the one at `i` keeps the shape of a node below the root.
pub(crate) open spec fn shaped_but<Item>(kids: Seq<Node<Item>>, i: int) -> bool {
    forall|j: int| 0 <= j < kids.len() && j != i ==> (#[trigger] kids[j]).wf(false)
}

impl<Item> Node<Item> {
    /// The first scalar value of the label.
    pub(crate) open spec fn first(self) -> char {
        self.label@[0]
    }

    /// What this node and the nodes below it store: each payload under the
    /// labels on the way to its node, one after the other. `path` spells the
    /// labels above this node.
    pub(crate) open spec fn entries(self, path: Seq<char>) -> Map<Seq<char>, Item>
        decreases self, 1nat,
    {
        let here = path + self.label@;
        forest_entries(self.children@, here).union_prefer_right(own_entry(here, self.value))
    }

    /// The node has neither payload nor children.
    pub(crate) open spec fn vacant(self) -> bool {
        self.value is None && self.children@.len() == 0
    }

    /// The node has no payload and one child: it neither ends a key nor
    /// branches.
    pub(crate) open spec fn idle(self) -> bool {
        self.value is None && self.children@.len() == 1
    }

    /// The children are ordered, and each of them and of the nodes below
    /// keeps the shape of a node below the root.
    pub(crate) open spec fn sound(self) -> bool
        decreases self, 1nat,
    {
        ordered(self.children@) && shaped(self.children@)
    }

    /// The shape every node keeps. The root has an empty label, and no other
    /// node has. A node below the root has a payload, or two children or
    /// more.
    pub(crate) open spec fn wf(self, root: bool) -> bool
        decreases self, 2nat,
    {
        &&& self.sound()
        &&& if root {
            self.label@.len() == 0
        } else {
            self.label@.len() > 0 && (self.value is Some || self.children@.len() >= 2)
        }
    }

    /// What the shape of a node below the root says of its parts.
    pub(crate) proof fn lemma_wf_parts(self)
        requires
            self.wf(false),
        ensures
            self.label@.len() > 0,
            self.value is Some || self.children@.len() >= 2,
            self.sound(),
            ordered(self.children@),
            shaped(self.children@),
    {
    }
}

impl<Item> Node<Item> {
    /// A node without label, payload or children.
    pub(crate) fn empty() -> (node: Node<Item>)
        ensures
            node.label@.len() == 0,
            node.value is None,
            node.children@.len() == 0,
            node.wf(true),
    {
        Node { label: Vec::new(), value: None, children: Vec::new() }
    }

    /// A node without children, whose label is what `key` holds from `from`
    /// on and whose payload is `value`.
    pub(crate) fn leaf(key: &Vec<char>, from: usize, value: Item) -> (node: Node<Item>)
        requires
            from <= key.len(),
        ensures
            node.label@ == key@.skip(from as int),
            node.value == Some(value),
            node.children@.len() == 0,
    {
        let label = copy_range(key, from, key.len());
        Node { label, value: Some(value), children: Vec::new() }
    }

    /// Whether the node has no payload and one child.
    pub(crate) fn is_idle(&self) -> (b: bool)
        ensures
            b == self.idle(),
    {
        self.value.is_none() && self.children.len() == 1
    }

    /// Whether the node has neither payload nor children.
    pub(crate) fn is_vacant(&self) -> (b: bool)
        ensures
            b == self.vacant(),
    {
        self.value.is_none() && self.children.len() == 0
    }

    /// Where the child whose label begins with `c` stands, or where one
    /// would have to be put.
    pub(crate) fn child_slot(&self, c: char) -> (slot: Result<usize, usize>)
        requires
            ordered(self.children@),
        ensures
            match slot {
                Ok(i) => i < self.children@.len() && self.children@[i as int].first() == c,
                Err(i) => {
                    &&& i <= self.children@.len()
                    &&& forall|j: int| 0 <= j < i ==> (#[trigger] self.children@[j]).first() < c
                    &&& forall|j: int|
                        i <= j < self.children@.len() ==> c < (#[trigger] self.children@[j]).first()
                },
            },
    {
        let mut lo: usize = 0;
        let mut hi: usize = self.children.len();
        while lo < hi
            invariant
                ordered(self.children@),
                lo <= hi <= self.children@.len(),
                forall|j: int| 0 <= j < lo ==> (#[trigger] self.children@[j]).first() < c,
                forall|j: int|
                    hi <= j < self.children@.len() ==> c < (#[trigger] self.children@[j]).first(),
            decreases hi - lo,
        {
            let mid: usize = lo + (hi - lo) / 2;
            let f: char = self.children[mid].label[0];
            if f == c {
                return Ok(mid);
            } else if f < c {
                lo = mid + 1;
            } else {
                hi = mid;
            }
        }
        Err(lo)
    }

    /// Puts `child` among the children, where its label's first scalar value
    /// places it. The children then store what `child` stores as well.
    pub(crate) fn add_child(&mut self, child: Node<Item>)
        requires
            ordered(old(self).children@),
            child.label@.len() > 0,
            forall|j: int|
                0 <= j < old(self).children@.len() ==> (#[trigger] old(self).children@[j]).first()
                    != child.first(),
        ensures
            final(self).label == old(self).label,
            final(self).value == old(self).value,
            ordered(final(self).children@),
            exists|s: int|
                0 <= s <= old(self).children@.len() && final(self).children@ == #[trigger] old(
                    self,
                ).children@.insert(s, child),
            shaped(old(self).children@) && child.wf(false) ==> shaped(final(self).children@),
            forall|here: Seq<char>| #[trigger]
                forest_entries(final(self).children@, here) == forest_entries(
                    old(self).children@,
                    here,
                ).union_prefer_right(child.entries(here)),
    {
        // no label among the children begins as `child`'s does: the slot is free
        let s: usize = match self.child_slot(child.label[0]) {
            Ok(s) => s,
            Err(s) => s,
        };
        self.children.insert(s, child);
        proof {
            let kids = old(self).children@;
            let grown = kids.insert(s as int, child);
            assert(self.children@ == grown);
            assert forall|a: int, b: int| 0 <= a < b < grown.len() implies (
            #[trigger] grown[a]).first() < (#[trigger] grown[b]).first() by {
                let a0 = if a < s { a } else { a - 1 };
                let b0 = if b < s { b } else { b - 1 };
                if a != s {
                    assert(grown[a] == kids[a0]);
                }
                if b != s {
                    assert(grown[b] == kids[b0]);
                }
            }
            assert forall|a: int| 0 <= a < grown.len() implies (#[trigger] grown[a]).label@.len()
                > 0 by {
                let a0 = if a < s { a } else { a - 1 };
                if a != s {
                    assert(grown[a] == kids[a0]);
                }
            }
            if shaped(kids) && child.wf(false) {
                lemma_kid_added(kids, s as int, child);
            }
            assert forall|here: Seq<char>| #[trigger]
                forest_entries(grown, here) == forest_entries(kids, here).union_prefer_right(
                    child.entries(here),
                ) by {
                lemma_forest_inserted(kids, here, s as int, child);
            }
        }
    }

    /// Splits the label at `at`: the node keeps the label up to there and
    /// hands the rest of it, its payload and its children to a new node,
    /// which becomes its only child.
    pub(crate) fn split_label(&mut self, at: usize)
        requires
            at < old(self).label@.len(),
        ensures
            final(self).label@ == old(self).label@.take(at as int),
            final(self).value is None,
            final(self).children@.len() == 1,
            final(self).children@[0].label@ == old(self).label@.skip(at as int),
            final(self).children@[0].value == old(self).value,
            final(self).children@[0].children@ == old(self).children@,
    {
        let rest = copy_range(&self.label, at, self.label.len());
        self.label.truncate(at);
        let value = self.value.take();
        let mut children: Vec<Node<Item>> = Vec::new();
        std::mem::swap(&mut children, &mut self.children);
        self.children.push(Node { label: rest, value, children });
    }

    /// Puts the only child in the node's place: the child's label is added to
    /// the node's, and the node takes the child's payload and children.
    pub(crate) fn absorb_child(&mut self)
        requires
            old(self).idle(),
        ensures
            final(self).label@ == old(self).label@ + old(self).children@[0].label@,
            final(self).value == old(self).children@[0].value,
            final(self).children@ == old(self).children@[0].children@,
    {
        let child = self.children.remove(0);
        let Node { label, value, children } = child;
        let mut rest = label;
        self.label.append(&mut rest);
        self.value = value;
        self.children = children;
    }
}

} // verus!
