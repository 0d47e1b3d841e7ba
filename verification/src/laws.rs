//! What holds of every tree, stated over the maps that trees are viewed as
//! and over their outlines.
//!
//! `add` turns the view `m` of a tree into `m.insert(key, value)`, `remove`
//! turns it into `m.remove(key)`, `find` returns `stored(m, key)`, `exist`
//! returns `m.contains_key(key)` and `size` returns `m.dom().len()`. Each law
//! below relates trees before and after such calls.

use crate::tree::stored;
use crate::tree::PatriciaTree;
use vstd::prelude::*;

verus! {

/// One call that changes a tree.
pub enum Step<Item> {
    /// `add` of a payload under a key.
    Add(Seq<char>, Item),
    /// `remove` of a key.
    Remove(Seq<char>),
}

/// The view of a tree that was made by `new` and then changed by `steps`, one
/// after the other.
pub open spec fn replay<Item>(steps: Seq<Step<Item>>) -> Map<Seq<char>, Item>
    decreases steps.len(),
{
    if steps.len() == 0 {
        Map::empty()
    } else {
        let earlier = replay(steps.drop_last());
        match steps.last() {
            Step::Add(key, value) => earlier.insert(key, value),
            Step::Remove(key) => earlier.remove(key),
        }
    }
}

/// `step` is an `add` under `key`.
pub open spec fn adds<Item>(step: Step<Item>, key: Seq<char>) -> bool {
    step matches Step::Add(k, _) && k == key
}

/// After `add` of `value` under `key`, `find` of `key` yields `value`.
pub proof fn law_round_trip<Item>(
    before: PatriciaTree<Item>,
    after: PatriciaTree<Item>,
    key: Seq<char>,
    value: Item,
)
    requires
        after@ == before@.insert(key, value),
    ensures
        stored(after@, key) == Some(value),
        after@.contains_key(key),
{
}

/// A key that was never added is not stored, whatever was added and removed
/// under other keys: keys that begin with it, or that it begins with, too.
pub proof fn law_never_added<Item>(tree: PatriciaTree<Item>, steps: Seq<Step<Item>>, key: Seq<char>)
    requires
        tree@ == replay(steps),
        forall|i: int| 0 <= i < steps.len() ==> !adds(#[trigger] steps[i], key),
    ensures
        !tree@.contains_key(key),
        stored(tree@, key) is None,
{
    lemma_replay_lacks(steps, key);
}

/// Replaying steps of which none adds `key` gives a map without `key`.
proof fn lemma_replay_lacks<Item>(steps: Seq<Step<Item>>, key: Seq<char>)
    requires
        forall|i: int| 0 <= i < steps.len() ==> !adds(#[trigger] steps[i], key),
    ensures
        !replay(steps).contains_key(key),
    decreases steps.len(),
{
    if steps.len() > 0 {
        let earlier = steps.drop_last();
        assert forall|i: int| 0 <= i < earlier.len() implies !adds(#[trigger] earlier[i], key) by {
            assert(earlier[i] == steps[i]);
        }
        lemma_replay_lacks(earlier, key);
        assert(steps.last() == steps[steps.len() - 1]);
    }
}

/// A second `add` under the same key leaves one entry for the key, with the
/// later payload, and leaves the number of keys as the first `add` made it.
pub proof fn law_overwrite<Item>(
    before: PatriciaTree<Item>,
    once: PatriciaTree<Item>,
    twice: PatriciaTree<Item>,
    key: Seq<char>,
    first: Item,
    second: Item,
)
    requires
        once@ == before@.insert(key, first),
        twice@ == once@.insert(key, second),
    ensures
        stored(twice@, key) == Some(second),
        twice@ == before@.insert(key, second),
        twice@.dom() == once@.dom(),
        twice@.dom().len() == once@.dom().len(),
{
    assert(twice@ =~= before@.insert(key, second));
    assert(twice@.dom() =~= once@.dom());
}

/// After `remove` of a stored key the key is not stored; after `add` under it
/// again it is, and the tree has as many keys as before the `remove`.
pub proof fn law_remove_then_add<Item>(
    before: PatriciaTree<Item>,
    without: PatriciaTree<Item>,
    again: PatriciaTree<Item>,
    key: Seq<char>,
    value: Item,
)
    requires
        before@.contains_key(key),
        without@ == before@.remove(key),
        again@ == without@.insert(key, value),
    ensures
        !without@.contains_key(key),
        again@.contains_key(key),
        again@.dom().len() == before@.dom().len(),
        without@.dom().len() == before@.dom().len() - 1,
{
    before.lemma_finite();
    assert(again@.dom() =~= before@.dom());
}

/// `remove` of a key that is not stored changes nothing: the tree has the
/// keys it had, each with the payload it had.
pub proof fn law_remove_absent<Item>(
    before: PatriciaTree<Item>,
    after: PatriciaTree<Item>,
    key: Seq<char>,
)
    requires
        !before@.contains_key(key),
        after@ == before@.remove(key),
    ensures
        after@ == before@,
        after@.dom().len() == before@.dom().len(),
        forall|other: Seq<char>| stored(after@, other) == stored(before@, other),
{
    assert(after@ =~= before@);
}

/// `add` under one key changes what no other key stores, whether the other
/// key begins with the one, the one with the other, or neither.
pub proof fn law_add_leaves_others<Item>(
    before: PatriciaTree<Item>,
    after: PatriciaTree<Item>,
    key: Seq<char>,
    value: Item,
    other: Seq<char>,
)
    requires
        after@ == before@.insert(key, value),
        other != key,
    ensures
        stored(after@, other) == stored(before@, other),
        after@.contains_key(other) == before@.contains_key(other),
{
}

/// `remove` of one key changes what no other key stores.
pub proof fn law_remove_leaves_others<Item>(
    before: PatriciaTree<Item>,
    after: PatriciaTree<Item>,
    key: Seq<char>,
    other: Seq<char>,
)
    requires
        after@ == before@.remove(key),
        other != key,
    ensures
        stored(after@, other) == stored(before@, other),
        after@.contains_key(other) == before@.contains_key(other),
{
}

/// The nodes of a tree depend on the keys it stores and on nothing else: two
/// trees with the same keys have the same outline, however they were made.
pub proof fn law_one_layout<Item>(a: PatriciaTree<Item>, b: PatriciaTree<Item>)
    requires
        a.compressed(),
        b.compressed(),
        a@.dom() == b@.dom(),
    ensures
        a.outline_text() == b.outline_text(),
{
    a.lemma_one_layout(b);
}

/// `add` under a key that is not stored makes the tree one key larger.
pub proof fn law_add_new_key<Item>(
    before: PatriciaTree<Item>,
    after: PatriciaTree<Item>,
    key: Seq<char>,
    value: Item,
)
    requires
        !before@.contains_key(key),
        after@ == before@.insert(key, value),
    ensures
        after@.dom().len() == before@.dom().len() + 1,
{
    before.lemma_finite();
}

} // verus!
