use patricia_tree::PatriciaTree;

fn add_counted(root: &mut PatriciaTree<()>, expected_size: &mut usize, s: &str) {
    root.add(s, ());
    *expected_size += 1;
    assert_eq!(root.size(), *expected_size);
}

#[test]
fn mod_add_size_test() {
    let mut root = PatriciaTree::new();
    let mut expected_size = 0;
    assert_eq!(root.size(), expected_size);

    add_counted(&mut root, &mut expected_size, "test");
    add_counted(&mut root, &mut expected_size, "root");
    add_counted(&mut root, &mut expected_size, "tea");
    add_counted(&mut root, &mut expected_size, "rooter");
    add_counted(&mut root, &mut expected_size, "roast");
    add_counted(&mut root, &mut expected_size, "teapot");
}

fn add_present(root: &mut PatriciaTree<()>, s: &str) {
    root.add(s, ());
    assert!(root.exist(s));
}

#[test]
fn mod_add_exist_test() {
    let mut root = PatriciaTree::new();
    assert!(!root.exist("test"));

    add_present(&mut root, "root");
    add_present(&mut root, "tea");
    add_present(&mut root, "roast");
    add_present(&mut root, "rooter");
    add_present(&mut root, "test");
    add_present(&mut root, "teapot");

    assert!(!root.exist("te"));
    assert!(!root.exist("ro"));
}

fn remove_present(root: &mut PatriciaTree<()>, s: &str) {
    assert!(root.exist(s));
    root.remove(s);
    assert!(!root.exist(s));
}

#[test]
fn mod_remove_test() {
    let mut root = PatriciaTree::new();
    root.add("test", ());
    root.add("tea", ());
    root.add("teapot", ());
    root.add("root", ());
    root.add("rooter", ());
    root.add("roast", ());

    remove_present(&mut root, "teapot");
    remove_present(&mut root, "roast");
    remove_present(&mut root, "root");
    remove_present(&mut root, "test");
    remove_present(&mut root, "tea");
    remove_present(&mut root, "rooter");
}
