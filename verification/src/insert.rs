//! Storing a payload under a key: nodes are entered, split and added.

use crate::entries::lemma_forest_kid_gains;
use crate::entries::lemma_kid_replaced;
use crate::entries::lemma_path_extends;
use crate::label::common_prefix_len;
use crate::label::is_common_len;
use crate::node::forest_entries;
use crate::node::ordered;
use crate::node::shaped;
use crate::node::Node;
use vstd::prelude::*;

verus! {

impl<Item> Node<Item> {
    /// Stores `value` under `key`, in place of what `key` had, if anything.
    /// The node is looked at from position `pos` of the key on: the key up to
    /// there spells the labels above the node. Below the root a node is only
    /// entered by a key that goes on with the first scalar value of its label.
    pub(crate) fn insert(
        &mut self,
        key: &Vec<char>,
        pos: usize,
        value: Item,
        Ghost(root): Ghost<bool>,
    )
        requires
            old(self).wf(root),
            pos <= key.len(),
            !root ==> pos < key.len() && old(self).first() == key@[pos as int],
        ensures
            final(self).wf(root),
            !root ==> final(self).first() == old(self).first(),
            final(self).entries(key@.take(pos as int)) == old(self).entries(
                key@.take(pos as int),
            ).insert(key@, value),
        decreases *old(self),
    {
        let ghost path = key@.take(pos as int);
        let ghost before = *self;
        let m: usize = common_prefix_len(&self.label, key, pos);
        let next: usize = pos + m;
        let ghost rest = key@.skip(pos as int);
        proof {
            assert(rest.len() > 0 ==> rest[0] == key@[pos as int]);
            assert(!root ==> m >= 1);
        }
        if m < self.label.len() {
            self.split_label(m);
            proof {
                assert(before.label@ =~= self.label@ + self.children@[0].label@);
                self.lemma_absorbed(before, path);
                before.lemma_wf_parts();
                assert(self.children@[0].wf(false));
                assert(shaped(self.children@));
                assert(ordered(self.children@));
                assert(self.children@[0].first() == before.label@[m as int]);
                assert(rest.len() > m ==> rest[m as int] == key@[next as int]);
            }
        }
        let ghost parted = *self;
        let ghost here = path + self.label@;
        proof {
            assert(is_common_len(self.label@, rest, self.label@.len() as int));
            lemma_path_extends(key@, pos as int, self.label@);
        }
        if next == key.len() {
            self.value = Some(value);
            proof {
                assert(key@.take(next as int) =~= key@);
                assert(self.entries(path) =~= before.entries(path).insert(key@, value));
            }
        } else {
            let c: char = key[next];
            match self.child_slot(c) {
                Ok(i) => {
                    self.children[i].insert(key, next, value, Ghost(false));
                    proof {
                        let kids = parted.children@;
                        let entered = self.children@[i as int];
                        assert(self.children@ == kids.update(i as int, entered));
                        lemma_kid_replaced(kids, i as int, entered);
                        lemma_forest_kid_gains(kids, here, i as int, entered, key@, value);
                        assert(self.entries(path) =~= parted.entries(path).insert(key@, value));
                    }
                },
                Err(_) => {
                    let leaf = Node::leaf(key, next, value);
                    proof {
                        assert(leaf.first() == c);
                        assert(here + leaf.label@ =~= key@);
                        leaf.lemma_leaf_entries(here);
                    }
                    self.add_child(leaf);
                    proof {
                        assert(forest_entries(self.children@, here) =~= forest_entries(
                            parted.children@,
                            here,
                        ).insert(key@, value));
                        assert(self.entries(path) =~= parted.entries(path).insert(key@, value));
                    }
                },
            }
        }
    }
}

} // verus!
