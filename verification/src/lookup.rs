//! Finding the payload of a key.

use crate::entries::lemma_path_extends;
use crate::label::common_prefix_len;
use crate::node::Node;
use vstd::prelude::*;

verus! {

impl<Item> Node<Item> {
    /// The payload stored under `key`, if there is one. The node is looked at
    /// from position `pos` of the key on: the key up to there spells the
    /// labels above the node.
    pub(crate) fn lookup<'a>(&'a self, key: &Vec<char>, pos: usize) -> (found: Option<&'a Item>)
        requires
            self.sound(),
            pos <= key.len(),
        ensures
            match found {
                Some(v) => self.entries(key@.take(pos as int)).contains_key(key@) && *v
                    == self.entries(key@.take(pos as int))[key@],
                None => !self.entries(key@.take(pos as int)).contains_key(key@),
            },
        decreases self,
    {
        let ghost path = key@.take(pos as int);
        let ghost here = path + self.label@;
        let m: usize = common_prefix_len(&self.label, key, pos);
        if m < self.label.len() {
            proof {
                self.lemma_entry_off(key@, pos as int, m as int);
            }
            return None;
        }
        let next: usize = pos + m;
        proof {
            lemma_path_extends(key@, pos as int, self.label@);
        }
        if next == key.len() {
            proof {
                assert(key@.take(next as int) =~= key@);
                self.lemma_entry_here(path);
            }
            return self.value.as_ref();
        }
        let c: char = key[next];
        match self.child_slot(c) {
            Ok(i) => {
                proof {
                    self.lemma_entry_below(path, i as int, key@);
                    self.children@[i as int].lemma_wf_parts();
                }
                self.children[i].lookup(key, next)
            },
            Err(_) => {
                proof {
                    self.lemma_entry_nowhere(path, key@);
                }
                None
            },
        }
    }
}

} // verus!
