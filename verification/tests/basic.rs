use patricia_tree::PatriciaTree;

fn add_and_check_size(
    root: &mut PatriciaTree<&'static str>,
    expected_size: &mut usize,
    s: &'static str,
) {
    println!("\nAdding \"{}\"...", s);
    root.add(s, s);
    *expected_size += 1;
    println!("{:#?}", root);
    assert_eq!(root.size(), *expected_size);
}

#[test]
fn lib_add_size_test() {
    let mut root = PatriciaTree::new();
    let mut expected_size = 0;
    assert_eq!(root.size(), expected_size);

    add_and_check_size(&mut root, &mut expected_size, "test");
    add_and_check_size(&mut root, &mut expected_size, "root");
    add_and_check_size(&mut root, &mut expected_size, "tea");
    add_and_check_size(&mut root, &mut expected_size, "rooter");
    add_and_check_size(&mut root, &mut expected_size, "roast");
    add_and_check_size(&mut root, &mut expected_size, "teapot");
}

fn add_and_check_exist(root: &mut PatriciaTree<&'static str>, s: &'static str) {
    println!("\nAdding \"{}\"...", s);
    root.add(s, s);
    println!("{:#?}", root);
    assert!(root.exist(s));
}

#[test]
fn lib_add_exist_test() {
    let mut root = PatriciaTree::new();
    assert!(!root.exist("test"));

    add_and_check_exist(&mut root, "root");
    add_and_check_exist(&mut root, "tea");
    add_and_check_exist(&mut root, "roast");
    add_and_check_exist(&mut root, "rooter");
    add_and_check_exist(&mut root, "test");
    add_and_check_exist(&mut root, "teapot");

    assert!(!root.exist("te"));
    assert!(!root.exist("ro"));
}

#[test]
fn find_test() {
    let mut root = PatriciaTree::new();
    root.add("test", 0);
    root.add("tea", 1);
    root.add("teapot", 2);
    root.add("root", 3);
    root.add("rooter", 4);
    root.add("roast", 5);

    println!("{:#?}", root);

    assert!(root.find("test") == Some(&0));
    assert!(root.find("tea") == Some(&1));
    assert!(root.find("teapot") == Some(&2));
    assert!(root.find("root") == Some(&3));
    assert!(root.find("rooter") == Some(&4));
    assert!(root.find("roast") == Some(&5));

    assert!(root.find("po") == None);
}

fn check_and_remove(root: &mut PatriciaTree<i32>, s: &str) {
    assert!(root.exist(s));
    println!("\nRemoving \"{}\"...", s);
    root.remove(s);
    println!("{:#?}", root);
    assert!(!root.exist(s));
}

#[test]
fn lib_remove_test() {
    let mut root = PatriciaTree::new();
    root.add("test", 0);
    root.add("tea", 1);
    root.add("teapot", 2);
    root.add("root", 3);
    root.add("rooter", 4);
    root.add("roast", 5);

    println!("{:#?}", root);

    check_and_remove(&mut root, "teapot");
    check_and_remove(&mut root, "roast");
    check_and_remove(&mut root, "root");
    check_and_remove(&mut root, "test");
    check_and_remove(&mut root, "tea");
    check_and_remove(&mut root, "rooter");
}
