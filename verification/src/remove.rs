//! Taking away the payload of a key: nodes are emptied, taken out and merged.

use crate::entries::lemma_forest_beyond;
use crate::entries::lemma_forest_kid_loses;
use crate::entries::lemma_forest_without;
use crate::entries::lemma_kid_dropped;
use crate::entries::lemma_kid_replaced;
use crate::entries::lemma_path_extends;
use crate::label::common_prefix_len;
use crate::node::Node;
use vstd::prelude::*;

verus! {

impl<Item> Node<Item> {
    /// Takes away what `key` stores, if anything, and says whether it stored
    /// anything. The node is looked at from position `pos` of the key on: the
    /// key up to there spells the labels above the node.
    ///
    /// Where nothing is taken away the node and the nodes below it are left
    /// alone. Otherwise the node may be left without payload and with fewer
    /// than two children, for its parent to mend; every node below it is
    /// mended here: one that is left without payload and children is taken
    /// out, one that is left without payload and with one child takes up
    /// that child.
    pub(crate) fn remove(&mut self, key: &Vec<char>, pos: usize) -> (removed: bool)
        requires
            old(self).sound(),
            pos <= key.len(),
        ensures
            removed == old(self).entries(key@.take(pos as int)).contains_key(key@),
            final(self).entries(key@.take(pos as int)) == old(self).entries(
                key@.take(pos as int),
            ).remove(key@),
            final(self).sound(),
            final(self).label@ == old(self).label@,
            !removed ==> final(self).value == old(self).value && final(self).children@.len() == old(
                self,
            ).children@.len(),
        decreases *old(self),
    {
        let ghost path = key@.take(pos as int);
        let ghost before = *self;
        let ghost here = path + self.label@;
        let m: usize = common_prefix_len(&self.label, key, pos);
        if m < self.label.len() {
            proof {
                self.lemma_entry_off(key@, pos as int, m as int);
                assert(self.entries(path) =~= self.entries(path).remove(key@));
            }
            return false;
        }
        let next: usize = pos + m;
        proof {
            lemma_path_extends(key@, pos as int, self.label@);
        }
        if next == key.len() {
            proof {
                assert(key@.take(next as int) =~= key@);
                self.lemma_entry_here(path);
            }
            if self.value.is_none() {
                proof {
                    assert(self.entries(path) =~= self.entries(path).remove(key@));
                }
                return false;
            }
            self.value = None;
            proof {
                lemma_forest_beyond(self.children@, here, key@);
                assert(self.entries(path) =~= before.entries(path).remove(key@));
            }
            return true;
        }
        let c: char = key[next];
        match self.child_slot(c) {
            Err(_) => {
                proof {
                    self.lemma_entry_nowhere(path, key@);
                    assert(self.entries(path) =~= self.entries(path).remove(key@));
                }
                false
            },
            Ok(i) => {
                proof {
                    self.lemma_entry_below(path, i as int, key@);
                    before.children@[i as int].lemma_wf_parts();
                }
                let removed = self.children[i].remove(key, next);
                let ghost kids = before.children@;
                let ghost left = self.children@[i as int];
                proof {
                    assert(self.children@ == kids.update(i as int, left));
                    assert(left.first() == kids[i as int].first());
                    lemma_kid_replaced(kids, i as int, left);
                    lemma_forest_kid_loses(kids, here, i as int, left, key@);
                    assert(self.entries(path) =~= before.entries(path).remove(key@));
                }
                if !removed {
                    proof {
                        assert(left.wf(false));
                    }
                    return false;
                }
                if self.children[i].is_vacant() {
                    proof {
                        left.lemma_vacant_entries(here);
                        lemma_forest_without(self.children@, here, i as int);
                        lemma_kid_dropped(self.children@, i as int);
                    }
                    self.children.remove(i);
                } else if self.children[i].is_idle() {
                    self.children[i].absorb_child();
                    proof {
                        let merged = self.children@[i as int];
                        assert(self.children@ =~= kids.update(i as int, merged));
                        left.lemma_absorbed(merged, here);
                        left.children@[0].lemma_wf_parts();
                        assert(merged.first() == left.first());
                        assert(merged.wf(false));
                        lemma_kid_replaced(kids, i as int, merged);
                        lemma_forest_kid_loses(kids, here, i as int, merged, key@);
                    }
                } else {
                    proof {
                        assert(left.wf(false));
                    }
                }
                proof {
                    assert(self.entries(path) =~= before.entries(path).remove(key@));
                }
                true
            },
        }
    }
}

} // verus!
