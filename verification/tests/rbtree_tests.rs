use memtable::rbtree::{Color, Node, RBTree};
use rand::distributions::{Alphanumeric, DistString};

#[test]
fn test_node_color_update() {
    let mut node = Node::new(
        String::from("a"),
        Some("askjhkjh"),
        Color::Red,
        None,
        None,
        None,
    );
    node.update_color(Color::Black);
    assert_eq!(Color::Black, node.get_color());
}

#[test]
fn test_get_left_child() {
    let node_1 = Node::new(
        String::from("a"),
        Some("ausdhiank"),
        Color::Red,
        None,
        None,
        None,
    );
    let _ = node_1;
    let node_2 = Node::new(
        String::from("a"),
        Some("asbjks"),
        Color::Red,
        Some(0),
        None,
        None,
    );
    assert_eq!(node_2.get_left_child(), Some(0));
}

#[test]
fn test_get_right_child() {
    let node_1 = Node::new(String::from("a"), Some("b"), Color::Red, None, None, None);
    let _ = node_1;
    let node_2 = Node::new(
        String::from("a"),
        Some("a"),
        Color::Red,
        None,
        Some(0),
        None,
    );
    assert_eq!(node_2.get_right_child(), Some(0));
}

#[test]
fn test_get_parent() {
    let node_1 = Node::new(String::from("a"), Some("asd"), Color::Red, None, None, None);
    let _ = node_1;
    let node_2 = Node::new(
        String::from("a"),
        Some("a"),
        Color::Red,
        None,
        None,
        Some(0),
    );
    assert_eq!(node_2.get_parent(), Some(0));
}

#[test]
fn lib_test_node_color_update() {
    let mut node = Node::new(String::from("a"), Some("2"), Color::Red, None, None, None);
    node.update_color(Color::Black);
    assert_eq!(Color::Black, node.get_color());
}

#[test]
fn lib_test_get_left_child() {
    let node_1 = Node::new(String::from("a"), Some("2"), Color::Red, None, None, None);
    let _ = node_1;
    let node_2 = Node::new(
        String::from("a"),
        Some("2"),
        Color::Red,
        Some(0),
        None,
        None,
    );
    assert_eq!(node_2.get_left_child(), Some(0));
}

#[test]
fn lib_test_get_right_child() {
    let node_1 = Node::new(String::from("a"), Some("2"), Color::Red, None, None, None);
    let _ = node_1;
    let node_2 = Node::new(
        String::from("a"),
        Some("2"),
        Color::Red,
        None,
        Some(0),
        None,
    );
    assert_eq!(node_2.get_right_child(), Some(0));
}

#[test]
fn lib_test_get_parent() {
    let node_1 = Node::new(String::from("a"), Some("2"), Color::Red, None, None, None);
    let _ = node_1;
    let node_2 = Node::new(
        String::from("a"),
        Some("2"),
        Color::Red,
        None,
        None,
        Some(0),
    );
    assert_eq!(node_2.get_parent(), Some(0));
}

#[test]
fn test_tree_insertion_with_duplicate_keys() {
    let sample_vec: Vec<i32> = (0..20).collect();
    let sample_vec: Vec<&str> = sample_vec.iter().map(|_| "a").collect();

    let mut rb_tree = RBTree::new();

    for key in sample_vec {
        rb_tree.insert(key, key);
    }

    assert_eq!(rb_tree.len(), 1);
    let root_node = rb_tree.root_entry().unwrap();
    assert_eq!(root_node.0, "a");
    assert_eq!(root_node.1.as_ref().unwrap(), "a");
}

fn rand_string_gen() -> String {
    Alphanumeric.sample_string(&mut rand::thread_rng(), 20)
}

fn generate_rb_tree(len: usize) -> RBTree {
    let mut tree = RBTree::new();
    for _ in 0..len {
        tree.insert(&rand_string_gen(), &rand_string_gen());
    }
    tree
}

#[test]
fn test_deletion() {
    let mut rb_tree = generate_rb_tree(6);

    rb_tree.insert("a", "abv");
    rb_tree.delete("a");

    let studd = rb_tree.search("a");

    assert!(studd.unwrap().1.is_none());
}

#[test]
fn test_tree_insert_and_search_values() {
    let mut tree = RBTree::new();
    tree.insert("b", "vb");
    tree.insert("a", "va");
    tree.insert("c", "vc");
    assert_eq!(tree.search("a").unwrap().1.unwrap(), "va");
    assert_eq!(tree.search("b").unwrap().1.unwrap(), "vb");
    assert_eq!(tree.search("c").unwrap().1.unwrap(), "vc");
    assert!(tree.search("d").is_none());
    tree.insert("b", "vb2");
    assert_eq!(tree.search("b").unwrap().1.unwrap(), "vb2");
    assert_eq!(tree.len(), 3);
    assert!(!tree.is_empty());
}

#[test]
fn test_tree_iter_yields_entries() {
    let mut tree = RBTree::new();
    tree.insert("b", "vb");
    tree.insert("a", "va");
    tree.insert("c", "vc");
    let mut cursor = tree.iter();
    let mut seen: Vec<String> = Vec::new();
    while let Some((k, _v)) = cursor.next(&tree) {
        if seen.len() > 10 {
            break;
        }
        seen.push(k);
    }
    assert!(seen.contains(&String::from("a")));
}

#[test]
fn test_tree_insertion_and_search() {
    let sample = |_: &i32| Alphanumeric.sample_string(&mut rand::thread_rng(), 20);
    let sample_vec = vec![0; 20];
    let sample_vec: Vec<String> = sample_vec.iter().map(sample).collect();

    let mut rb_tree = RBTree::new();

    for key in &sample_vec {
        rb_tree.insert(key, key);
    }

    for key in &sample_vec {
        assert!(
            &rb_tree.search(key).unwrap().0 == key,
            "{}",
            format!("Did not find key: {}", key)
        );
    }
}

#[test]
fn test_tree_len() {
    let sample = |_: &i32| Alphanumeric.sample_string(&mut rand::thread_rng(), 20);
    let sample_vec = vec![0; 20];
    let sample_vec: Vec<String> = sample_vec.iter().map(sample).collect();

    let mut rb_tree = RBTree::new();

    for key in &sample_vec {
        rb_tree.insert(key, key);
    }

    assert_eq!(rb_tree.len(), 20);
}

#[test]
fn test_tree_order() {
    let mut char_arr: [char; 20] = [' '; 20];
    for c in char_arr.iter_mut() {
        *c = rand::random();
    }

    let mut tree = RBTree::new();

    for ch in char_arr.iter() {
        let s = ch.to_string();
        tree.insert(&s, &s);
    }

    let mut char_arr = char_arr;
    char_arr.sort();

    let mut tree_vec: Vec<(String, Option<String>)> = Vec::new();
    let mut cursor = tree.iter();
    while let Some(entry) = cursor.next(&tree) {
        tree_vec.push(entry);
        if tree_vec.len() > 40 {
            break;
        }
    }

    let mut i1 = 0;
    let mut i2 = 0;

    while i1 != char_arr.len() && i2 != tree_vec.len() {
        assert_eq!(char_arr[i1].to_string(), tree_vec[i2].0);
        i1 += 1;
        while i1 < char_arr.len() && char_arr[i1] == char_arr[i1 - 1] {
            i1 += 1;
        }
        i2 += 1;
    }
}

#[test]
fn test_tree_node_arrangement() {
    let mut tree = RBTree::new();
    assert!(tree.root_index().is_none());

    tree.insert("b", &rand_string_gen());
    let root = tree.root_index().unwrap();
    assert_eq!(tree.entry(root).0, "b");

    tree.insert("a", "ajsjhdaukukad");
    let root = tree.root_index().unwrap();
    assert_eq!(tree.entry(root).0, "b");
    assert_eq!(tree.entry(tree.left_of(root).unwrap()).0, "a");

    tree.insert("c", &rand_string_gen());
    let root = tree.root_index().unwrap();
    assert_eq!(tree.entry(root).0, "b");
    assert_eq!(tree.entry(tree.left_of(root).unwrap()).0, "a");
    assert_eq!(tree.entry(tree.right_of(root).unwrap()).0, "c");

    tree.insert("d", &rand_string_gen());
    let root = tree.root_index().unwrap();
    assert_eq!(tree.entry(root).0, "b");
    assert_eq!(tree.entry(tree.left_of(root).unwrap()).0, "a");
    let c_node = tree.right_of(root).unwrap();
    assert_eq!(tree.entry(c_node).0, "c");
    assert_eq!(tree.entry(tree.right_of(c_node).unwrap()).0, "d");

    tree.insert("e", &rand_string_gen());
    let root = tree.root_index().unwrap();
    assert_eq!(tree.entry(root).0, "b");
    assert_eq!(tree.entry(tree.left_of(root).unwrap()).0, "a");
    let d_node = tree.right_of(root).unwrap();
    assert_eq!(tree.entry(d_node).0, "d");
    assert_eq!(tree.entry(tree.left_of(d_node).unwrap()).0, "c");
    assert_eq!(tree.entry(tree.right_of(d_node).unwrap()).0, "e");
}

#[test]
fn test_tree_color_arrangement() {
    let mut tree = RBTree::new();
    assert!(tree.root_index().is_none());

    tree.insert("b", &rand_string_gen());
    assert_eq!(tree.color_of(tree.root_index().unwrap()), Color::Black);

    tree.insert("a", &rand_string_gen());
    let root = tree.root_index().unwrap();
    assert_eq!(tree.color_of(root), Color::Black);
    assert_eq!(tree.color_of(tree.left_of(root).unwrap()), Color::Red);

    tree.insert("c", &rand_string_gen());
    let root = tree.root_index().unwrap();
    assert_eq!(tree.color_of(root), Color::Black);
    assert_eq!(tree.color_of(tree.left_of(root).unwrap()), Color::Red);
    assert_eq!(tree.color_of(tree.right_of(root).unwrap()), Color::Red);

    tree.insert("d", &rand_string_gen());
    let root = tree.root_index().unwrap();
    assert_eq!(tree.color_of(root), Color::Black);
    assert_eq!(tree.color_of(tree.left_of(root).unwrap()), Color::Black);
    assert_eq!(tree.color_of(tree.right_of(root).unwrap()), Color::Black);
    let c_node = tree.right_of(root).unwrap();
    assert_eq!(tree.color_of(tree.right_of(c_node).unwrap()), Color::Red);

    tree.insert("e", &rand_string_gen());
    let root = tree.root_index().unwrap();
    assert_eq!(tree.color_of(root), Color::Black);
    assert_eq!(tree.color_of(tree.left_of(root).unwrap()), Color::Black);
    assert_eq!(tree.color_of(tree.right_of(root).unwrap()), Color::Black);
    let d_node = tree.right_of(root).unwrap();
    assert_eq!(tree.color_of(tree.left_of(d_node).unwrap()), Color::Red);
    assert_eq!(tree.color_of(tree.right_of(d_node).unwrap()), Color::Red);
}

#[test]
fn test_iter_on_empty_tree_yields_nothing() {
    let tree = RBTree::new();
    let mut cursor = tree.iter();
    assert!(cursor.next(&tree).is_none());
    assert!(cursor.next(&tree).is_none());
}
