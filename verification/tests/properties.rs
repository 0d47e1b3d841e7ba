use patricia_tree::PatriciaTree;
use std::collections::BTreeMap;

#[test]
fn round_trip_returns_the_payload() {
    let keys = ["a", "ab", "abc", "b", "bcd", "tea", "teapot", "é", "éa", "日本", "日本語"];
    let mut tree = PatriciaTree::new();
    for (i, k) in keys.iter().enumerate() {
        tree.add(k, i);
        assert_eq!(tree.find(k), Some(&i));
    }
    for (i, k) in keys.iter().enumerate() {
        assert_eq!(tree.find(k), Some(&i));
        assert!(tree.exist(k));
    }
    assert_eq!(tree.size(), keys.len());
}

#[test]
fn keys_never_added_are_absent() {
    let mut tree = PatriciaTree::new();
    tree.add("teapot", 1);
    tree.add("team", 2);
    tree.add("toast", 3);
    let absent =
        ["", "t", "te", "tea", "teap", "teapo", "teapots", "tead", "to", "toas", "x", "teams"];
    for k in absent {
        assert!(!tree.exist(k), "{:?} was never added", k);
        assert_eq!(tree.find(k), None);
    }
    assert_eq!(tree.size(), 3);
}

#[test]
fn second_add_overwrites() {
    let mut tree = PatriciaTree::new();
    tree.add("root", 1);
    tree.add("rooter", 2);
    assert_eq!(tree.size(), 2);
    tree.add("root", 10);
    assert_eq!(tree.find("root"), Some(&10));
    assert_eq!(tree.find("rooter"), Some(&2));
    assert_eq!(tree.size(), 2);
    tree.add("rooter", 20);
    assert_eq!(tree.find("rooter"), Some(&20));
    assert_eq!(tree.size(), 2);
}

#[test]
fn remove_then_add_restores() {
    let keys = ["test", "root", "tea", "rooter", "roast", "teapot"];
    for gone in keys {
        let mut tree = PatriciaTree::new();
        for k in keys {
            tree.add(k, k.len());
        }
        let before = tree.size();
        tree.remove(gone);
        assert!(!tree.exist(gone));
        assert_eq!(tree.size(), before - 1);
        for k in keys {
            if k != gone {
                assert_eq!(tree.find(k), Some(&k.len()));
            }
        }
        tree.add(gone, 99);
        assert!(tree.exist(gone));
        assert_eq!(tree.find(gone), Some(&99));
        assert_eq!(tree.size(), before);
    }
}

#[test]
fn size_counts_distinct_keys() {
    let mut tree = PatriciaTree::new();
    assert_eq!(tree.size(), 0);
    tree.add("a", 0);
    tree.add("a", 1);
    tree.add("ab", 2);
    tree.add("", 3);
    assert_eq!(tree.size(), 3);
    tree.remove("zz");
    assert_eq!(tree.size(), 3);
    tree.remove("a");
    assert_eq!(tree.size(), 2);
    tree.remove("a");
    assert_eq!(tree.size(), 2);
    tree.remove("");
    tree.remove("ab");
    assert_eq!(tree.size(), 0);
}

#[test]
fn remove_of_an_absent_key_changes_nothing() {
    let keys = ["test", "root", "tea", "rooter", "roast", "teapot"];
    let mut tree = PatriciaTree::new();
    for (i, k) in keys.iter().enumerate() {
        tree.add(k, i);
    }
    for absent in ["", "t", "te", "teap", "teapots", "ro", "roo", "roots", "x", "tex", "rob"] {
        tree.remove(absent);
        assert_eq!(tree.size(), keys.len());
        for (i, k) in keys.iter().enumerate() {
            assert_eq!(tree.find(k), Some(&i));
        }
        assert!(!tree.exist(absent));
    }
}

#[test]
fn prefixes_are_independent() {
    let mut tree = PatriciaTree::new();
    tree.add("tea", ());
    tree.add("teapot", ());
    tree.add("test", ());
    assert!(tree.exist("tea"));
    assert!(tree.exist("teapot"));
    assert!(tree.exist("test"));
    assert!(!tree.exist("te"));
    assert!(!tree.exist("teap"));
}

#[test]
fn six_keys_added_and_removed() {
    let mut tree = PatriciaTree::new();
    for k in ["test", "root", "tea", "rooter", "roast", "teapot"] {
        tree.add(k, ());
    }
    assert_eq!(tree.size(), 6);
    let mut left = 6;
    for k in ["teapot", "roast", "root", "test", "tea", "rooter"] {
        tree.remove(k);
        left -= 1;
        assert!(!tree.exist(k));
        assert_eq!(tree.size(), left);
    }
    assert_eq!(tree.size(), 0);
}

#[test]
fn the_empty_key_is_a_key() {
    let mut tree = PatriciaTree::new();
    assert!(!tree.exist(""));
    tree.add("", 7);
    assert_eq!(tree.find(""), Some(&7));
    assert_eq!(tree.size(), 1);
    tree.add("a", 8);
    assert_eq!(tree.find(""), Some(&7));
    assert_eq!(tree.find("a"), Some(&8));
    tree.remove("");
    assert!(!tree.exist(""));
    assert_eq!(tree.find("a"), Some(&8));
    assert_eq!(tree.size(), 1);
}

#[test]
fn a_key_that_ends_inside_a_label_splits_it() {
    let mut tree = PatriciaTree::new();
    tree.add("teapot", 1);
    tree.add("tea", 2);
    assert_eq!(tree.find("teapot"), Some(&1));
    assert_eq!(tree.find("tea"), Some(&2));
    assert_eq!(tree.find("te"), None);
    assert_eq!(tree.find("teap"), None);
    assert_eq!(tree.size(), 2);
}

#[test]
fn a_key_that_leaves_a_label_splits_it() {
    let mut tree = PatriciaTree::new();
    tree.add("tea", 1);
    tree.add("test", 2);
    assert_eq!(tree.find("tea"), Some(&1));
    assert_eq!(tree.find("test"), Some(&2));
    assert_eq!(tree.find("te"), None);
    assert_eq!(tree.size(), 2);
    tree.add("te", 3);
    assert_eq!(tree.find("te"), Some(&3));
    assert_eq!(tree.size(), 3);
}

#[test]
fn keys_split_between_scalar_values_not_bytes() {
    let mut tree = PatriciaTree::new();
    // 'é' and 'è' share their first byte in UTF-8
    tree.add("é", 1);
    tree.add("è", 2);
    tree.add("ée", 3);
    assert_eq!(tree.find("é"), Some(&1));
    assert_eq!(tree.find("è"), Some(&2));
    assert_eq!(tree.find("ée"), Some(&3));
    assert_eq!(tree.find("e"), None);
    assert_eq!(tree.size(), 3);
    tree.remove("é");
    assert_eq!(tree.find("é"), None);
    assert_eq!(tree.find("ée"), Some(&3));
    assert_eq!(tree.find("è"), Some(&2));
}

#[test]
fn a_tree_emptied_by_remove_takes_new_keys() {
    let mut tree = PatriciaTree::new();
    tree.add("abc", 1);
    tree.remove("abc");
    assert_eq!(tree.size(), 0);
    tree.add("abd", 2);
    assert!(!tree.exist("abc"));
    assert_eq!(tree.find("abd"), Some(&2));
    assert_eq!(tree.size(), 1);
    tree.add("abde", 3);
    tree.add("x", 4);
    tree.remove("abd");
    assert_eq!(tree.find("abde"), Some(&3));
    assert_eq!(tree.find("x"), Some(&4));
    assert_eq!(tree.size(), 2);
}

#[test]
fn nodes_merge_after_remove() {
    let mut tree = PatriciaTree::new();
    tree.add("test", 1);
    tree.add("tea", 2);
    tree.remove("tea");
    assert_eq!(tree.find("test"), Some(&1));
    assert_eq!(tree.find("te"), None);
    tree.add("team", 3);
    tree.add("toast", 4);
    tree.add("", 5);
    assert_eq!(tree.find("test"), Some(&1));
    assert_eq!(tree.find("team"), Some(&3));
    assert_eq!(tree.find("toast"), Some(&4));
    assert_eq!(tree.find(""), Some(&5));
    assert_eq!(tree.find("t"), None);
    assert_eq!(tree.find("te"), None);
    assert_eq!(tree.size(), 4);
    tree.remove("test");
    tree.remove("toast");
    assert_eq!(tree.find("team"), Some(&3));
    assert_eq!(tree.find(""), Some(&5));
    assert_eq!(tree.size(), 2);
}

#[test]
fn remove_of_an_inner_key_keeps_the_keys_below() {
    let mut tree = PatriciaTree::new();
    tree.add("a", 1);
    tree.add("ab", 2);
    tree.add("abc", 3);
    tree.add("abd", 4);
    tree.remove("ab");
    assert_eq!(tree.find("a"), Some(&1));
    assert_eq!(tree.find("ab"), None);
    assert_eq!(tree.find("abc"), Some(&3));
    assert_eq!(tree.find("abd"), Some(&4));
    tree.remove("abc");
    assert_eq!(tree.find("abd"), Some(&4));
    assert_eq!(tree.find("ab"), None);
    tree.remove("a");
    assert_eq!(tree.find("abd"), Some(&4));
    assert_eq!(tree.size(), 1);
}

fn next(state: &mut u64) -> u64 {
    *state = state.wrapping_mul(6364136223846793005).wrapping_add(1442695040888963407);
    *state >> 33
}

#[test]
fn agrees_with_a_map_over_many_steps() {
    let alphabet = ['a', 'b', 'é'];
    let mut state = 12345u64;
    let mut tree = PatriciaTree::new();
    let mut model: BTreeMap<String, u64> = BTreeMap::new();
    for step in 0..4000u64 {
        let len = next(&mut state) % 5;
        let mut key = String::new();
        for _ in 0..len {
            key.push(alphabet[(next(&mut state) % 3) as usize]);
        }
        match next(&mut state) % 3 {
            0 => {
                tree.add(&key, step);
                model.insert(key.clone(), step);
            }
            1 => {
                tree.remove(&key);
                model.remove(&key);
            }
            _ => {}
        }
        assert_eq!(tree.find(&key), model.get(&key));
        assert_eq!(tree.exist(&key), model.contains_key(&key));
        assert_eq!(tree.size(), model.len());
        if step % 97 == 0 {
            for (k, v) in model.iter() {
                assert_eq!(tree.find(k), Some(v));
            }
        }
    }
}

#[test]
fn outline_shows_each_node_on_a_line() {
    let mut tree = PatriciaTree::new();
    assert_eq!(tree.outline(), "- \n");
    tree.add("test", 0);
    assert_eq!(tree.outline(), "- \n  - test *\n");
    tree.add("tea", 1);
    tree.add("teapot", 2);
    assert_eq!(tree.outline(), "- \n  - te\n    - a *\n      - pot *\n    - st *\n");
    tree.add("", 3);
    assert_eq!(tree.outline(), "-  *\n  - te\n    - a *\n      - pot *\n    - st *\n");
    tree.add("roast", 4);
    assert_eq!(
        tree.outline(),
        "-  *\n  - roast *\n  - te\n    - a *\n      - pot *\n    - st *\n"
    );
}

#[test]
fn outline_shows_merged_nodes() {
    let mut tree = PatriciaTree::new();
    tree.add("tea", ());
    tree.add("test", ());
    tree.add("teapot", ());
    tree.remove("tea");
    assert_eq!(tree.outline(), "- \n  - te\n    - apot *\n    - st *\n");
    tree.remove("zebra");
    tree.remove("te");
    tree.remove("teap");
    assert_eq!(tree.outline(), "- \n  - te\n    - apot *\n    - st *\n");
    tree.remove("test");
    assert_eq!(tree.outline(), "- \n  - teapot *\n");
    tree.remove("teapot");
    assert_eq!(tree.outline(), "- \n");
}

#[test]
fn the_nodes_depend_on_the_keys_alone() {
    let mut one = PatriciaTree::new();
    for k in ["roast", "tea", "teapot", "test"] {
        one.add(k, 0);
    }
    let mut other = PatriciaTree::new();
    for k in ["test", "toast", "teapot", "root", "te", "roast", "", "tea", "teas"] {
        other.add(k, 1);
    }
    for k in ["", "toast", "teas", "te", "root", "never"] {
        other.remove(k);
    }
    assert_eq!(one.outline(), other.outline());
    assert_eq!(
        one.outline(),
        "- \n  - roast *\n  - te\n    - a *\n      - pot *\n    - st *\n"
    );
    other.add("tea", 2);
    assert_eq!(one.outline(), other.outline());
}
