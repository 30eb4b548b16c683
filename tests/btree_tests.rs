use btree::{BTree, BTreeNode, SearchResult};

fn letters() -> Vec<(u64, String)> {
    "abcdefghijklmnopqrstuvwxyz"
        .chars()
        .enumerate()
        .map(|(i, c)| (i as u64 + 1, c.to_string()))
        .collect()
}

fn mixed_data() -> Vec<(u64, &'static str)> {
    vec![
        (1, "a"),
        (2, "b"),
        (3, "c"),
        (4, "d"),
        (5, "e"),
        (6, "f"),
        (7, "g"),
        (8, "h"),
        (9, "i"),
        (10, "j"),
        (11, "k"),
        (20, "t"),
        (21, "u"),
        (22, "v"),
        (23, "w"),
        (24, "x"),
        (25, "y"),
        (26, "z"),
        (27, "z"),
        (28, "z"),
        (29, "z"),
        (30, "z"),
        (31, "z"),
        (32, "z"),
    ]
}

/// Checks the ordering and capacity invariants of a subtree whose keys must
/// lie strictly between `lo` and `hi`; returns the number of pairs in it.
fn check_node(node: &BTreeNode<String>, cap: usize, lo: Option<u64>, hi: Option<u64>) -> usize {
    assert_eq!(node.node_size, cap);
    assert!(node.keys.len() <= cap);
    assert_eq!(node.keys.len(), node.values.len());
    for w in node.keys.windows(2) {
        assert!(w[0] < w[1]);
    }
    for k in node.keys.iter() {
        assert!(lo.map_or(true, |l| l < *k));
        assert!(hi.map_or(true, |h| *k < h));
    }
    let mut count = node.keys.len();
    if !node.children.is_empty() {
        assert_eq!(node.children.len(), node.keys.len() + 1);
        for (i, child) in node.children.iter().enumerate() {
            let clo = if i == 0 { lo } else { Some(node.keys[i - 1]) };
            let chi = if i == node.keys.len() { hi } else { Some(node.keys[i]) };
            count += check_node(child, cap, clo, chi);
        }
    }
    count
}

#[test]
fn test_btree() {
    let mut tree = BTree::<String>::new(5);

    let data = mixed_data();

    for (i, (key, value)) in data.iter().enumerate() {
        tree.add(key.clone(), value.to_string());

        for (key, _) in data[..i + 1].iter() {
            assert!(tree.find(*key).is_some());
        }
    }

    for (key, _value) in data.iter() {
        assert!(tree.find(key.clone()).is_some());
    }
}

#[test]
fn letters_capacity_three_found_after_every_add() {
    let mut tree = BTree::<String>::new(3);
    let data = letters();
    for (i, (key, value)) in data.iter().enumerate() {
        tree.add(*key, value.clone());
        for (k, v) in data[..i + 1].iter() {
            assert_eq!(tree.find(*k), Some(v));
        }
        assert_eq!(check_node(&tree.root, 3, None, None), i + 1);
    }
    assert!(tree.height() > 1);
    assert_eq!(tree.find(26).map(|s| s.as_str()), Some("z"));
    assert_eq!(tree.find(1).map(|s| s.as_str()), Some("a"));
}

#[test]
fn mixed_capacity_five_only_added_keys_found() {
    let mut tree = BTree::<String>::new(5);
    let data = mixed_data();
    for (i, (key, value)) in data.iter().enumerate() {
        tree.add(*key, value.to_string());
        for probe in 0u64..40 {
            let expected = data[..i + 1].iter().find(|(k, _)| *k == probe).map(|(_, v)| *v);
            assert_eq!(tree.find(probe).map(|s| s.as_str()), expected);
        }
        assert!(tree.find(1000).is_none());
        assert_eq!(check_node(&tree.root, 5, None, None), i + 1);
    }
}

#[test]
fn find_on_empty_tree() {
    let tree = BTree::<String>::new(3);
    assert!(tree.find(0).is_none());
    assert!(tree.find(7).is_none());
    assert!(tree.find(u64::MAX).is_none());
    assert_eq!(tree.height(), 1);
}

#[test]
fn height_grows_after_capacity_plus_one_keys() {
    for cap in 1usize..6 {
        let mut tree = BTree::<String>::new(cap);
        for k in 0..cap as u64 {
            tree.add(k, k.to_string());
            assert_eq!(tree.height(), 1);
        }
        tree.add(cap as u64, "last".to_string());
        assert_eq!(tree.height(), 2);
        assert_eq!(tree.root.keys.len(), 1);
        assert_eq!(tree.root.children.len(), 2);
    }
}

#[test]
fn capacity_three_split_shape() {
    let mut tree = BTree::<String>::new(3);
    for k in 1u64..=4 {
        tree.add(k, k.to_string());
    }
    assert_eq!(tree.root.keys, vec![3]);
    assert_eq!(tree.root.children[0].keys, vec![1, 2]);
    assert_eq!(tree.root.children[1].keys, vec![4]);
}

#[test]
fn repeated_find_is_stable() {
    let mut tree = BTree::<String>::new(3);
    for (k, v) in letters() {
        tree.add(k, v);
    }
    let before: Vec<u64> = tree.root.keys.clone();
    let first = tree.find(13).cloned();
    let second = tree.find(13).cloned();
    assert_eq!(first, second);
    assert_eq!(first.as_deref(), Some("m"));
    assert_eq!(tree.find(99), tree.find(99));
    assert_eq!(tree.root.keys, before);
}

#[test]
fn adding_an_existing_key_overwrites_its_value() {
    let mut tree = BTree::<String>::new(3);
    for k in 1u64..=10 {
        tree.add(k, "old".to_string());
    }
    tree.add(4, "new".to_string());
    tree.add(10, "newer".to_string());
    assert_eq!(tree.find(4).map(|s| s.as_str()), Some("new"));
    assert_eq!(tree.find(10).map(|s| s.as_str()), Some("newer"));
    assert_eq!(tree.find(5).map(|s| s.as_str()), Some("old"));
    assert_eq!(check_node(&tree.root, 3, None, None), 10);
}

#[test]
fn decreasing_and_interleaved_orders() {
    let mut tree = BTree::<String>::new(2);
    let keys: Vec<u64> = (0..60u64).map(|i| (i * 37) % 61).collect();
    for k in keys.iter() {
        tree.add(*k, format!("v{}", k));
    }
    for k in (100u64..130).rev() {
        tree.add(k, format!("v{}", k));
    }
    assert_eq!(check_node(&tree.root, 2, None, None), 90);
    for k in keys.iter().chain((100u64..130).collect::<Vec<_>>().iter()) {
        assert_eq!(tree.find(*k).cloned(), Some(format!("v{}", k)));
    }
    assert!(tree.find(61).is_none());
}

#[test]
fn capacity_one_tree() {
    let mut tree = BTree::<String>::new(1);
    for k in 0u64..20 {
        tree.add(k, k.to_string());
    }
    assert_eq!(check_node(&tree.root, 1, None, None), 20);
    for k in 0u64..20 {
        assert_eq!(tree.find(k).cloned(), Some(k.to_string()));
    }
}

#[test]
fn find_it_reports_slots() {
    let keys: Vec<u64> = vec![10, 20, 30];
    assert_eq!(BTreeNode::<String>::find_it(&vec![], &5), SearchResult::NotFound(0));
    assert_eq!(BTreeNode::<String>::find_it(&keys, &10), SearchResult::Found(0));
    assert_eq!(BTreeNode::<String>::find_it(&keys, &30), SearchResult::Found(2));
    assert_eq!(BTreeNode::<String>::find_it(&keys, &5), SearchResult::NotFound(0));
    assert_eq!(BTreeNode::<String>::find_it(&keys, &25), SearchResult::NotFound(2));
    assert_eq!(BTreeNode::<String>::find_it(&keys, &31), SearchResult::NotFound(3));
}

#[test]
fn split_moves_middle_pair_up() {
    let mut node = BTreeNode::<String> {
        node_size: 3,
        keys: vec![1, 2, 3, 4],
        values: vec!["a".to_string(), "b".to_string(), "c".to_string(), "d".to_string()],
        children: vec![],
    };
    let (k, v, right) = node.split();
    assert_eq!(k, 3);
    assert_eq!(v, "c");
    assert_eq!(node.keys, vec![1, 2]);
    assert_eq!(right.keys, vec![4]);
    assert_eq!(right.values, vec!["d".to_string()]);
}

#[test]
fn split_divides_children() {
    let leaf = |k: u64| BTreeNode::<String> {
        node_size: 2,
        keys: vec![k],
        values: vec![k.to_string()],
        children: vec![],
    };
    let mut node = BTreeNode::<String> {
        node_size: 2,
        keys: vec![10, 20, 30],
        values: vec!["10".to_string(), "20".to_string(), "30".to_string()],
        children: vec![leaf(5), leaf(15), leaf(25), leaf(35)],
    };
    let (k, _v, right) = node.split();
    assert_eq!(k, 20);
    assert_eq!(node.keys, vec![10]);
    assert_eq!(node.children.len(), 2);
    assert_eq!(node.children[1].keys, vec![15]);
    assert_eq!(right.keys, vec![30]);
    assert_eq!(right.children.len(), 2);
    assert_eq!(right.children[0].keys, vec![25]);
}

#[test]
fn generate_find_path_lists_slots_from_the_end() {
    let mut tree = BTree::<String>::new(3);
    for k in 1u64..=4 {
        tree.add(k, k.to_string());
    }
    // root [3], children [1, 2] and [4]
    assert_eq!(tree.root.generate_find_path(&3), vec![0]);
    assert_eq!(tree.root.generate_find_path(&2), vec![1, 0]);
    assert_eq!(tree.root.generate_find_path(&4), vec![0, 1]);
    assert!(tree.root.generate_find_path(&9).is_empty());
    assert_eq!(tree.root.find(&2).map(|s| s.as_str()), Some("2"));
    assert!(tree.root.find(&0).is_none());
}

#[test]
fn add_recursive_reports_overflow() {
    let mut node = BTreeNode::<String>::new(2);
    assert!(node.add_recursive(5, "5".to_string()).is_none());
    assert!(node.add_recursive(1, "1".to_string()).is_none());
    let (k, v, right) = node.add_recursive(9, "9".to_string()).unwrap();
    assert_eq!((k, v.as_str()), (5, "5"));
    assert_eq!(node.keys, vec![1]);
    assert_eq!(right.keys, vec![9]);
}
