use tidy_trees::tree::{JsonTree, Tree, TreeStructure};

fn leaf(s: &str) -> Tree<String> {
    Tree::new(s.to_string(), vec![])
}

fn sample() -> Tree<String> {
    // a(b(d), c)
    Tree::new(
        "a".to_string(),
        vec![Tree::new("b".to_string(), vec![leaf("d")]), leaf("c")],
    )
}

fn preorder_values(t: Tree<String>) -> Vec<String> {
    let mut ts = TreeStructure::new();
    let td = ts.load_data(t);
    td.iter_preorder().into_iter().map(|(_, v)| v.clone()).collect()
}

#[test]
fn tree_len_counts_all_nodes() {
    let t = sample();
    assert_eq!(t.len(), 4);
    assert!(!t.is_empty());
    assert_eq!(leaf("x").len(), 1);
}

#[test]
fn load_data_lists_values_in_preorder() {
    assert_eq!(preorder_values(sample()), vec!["a", "b", "d", "c"]);
}

#[test]
fn load_data_links_parents_and_children() {
    let mut ts = TreeStructure::new();
    let td = ts.load_data(sample());
    let nodes = td.iter_nodes_preorder();
    assert_eq!(nodes.len(), 4);
    let root = td.root().unwrap();
    assert_eq!(root, nodes[0].id);
    assert!(nodes[0].parent.is_none());
    assert_eq!(td.num_children(root), 2);
    let b = td.first_child(root);
    let c = td.last_child(root);
    assert_eq!(b, nodes[1].id);
    assert_eq!(c, nodes[3].id);
    assert_eq!(td.get_child(root, 1), c);
    assert_eq!(td.get(b), "b");
    assert_eq!(td.get(c), "c");
    assert_eq!(nodes[1].parent, Some(root));
    assert_eq!(nodes[3].parent, Some(root));
    let d = td.first_child(b);
    assert_eq!(d, nodes[2].id);
    assert_eq!(nodes[2].parent, Some(b));
    assert!(td.has_children(b));
    assert!(!td.has_children(d));
    assert!(!td.has_children(c));
    assert_eq!(td.iter_children(root), &[b, c]);
    assert_eq!(nodes[0].iter_children(), &[b, c]);
    assert_eq!(format!("{:?}", d), "NodeId(2)");
    assert!(b < c);
}

#[test]
fn identifiers_are_positions() {
    let mut ts = TreeStructure::new();
    let td = ts.load_data(sample());
    for (i, n) in td.iter_nodes_preorder().iter().enumerate() {
        assert_eq!(format!("{:?}", n.id), format!("NodeId({})", i));
    }
    let tree = td.tree();
    assert_eq!(tree.iter_preorder().len(), 4);
}

#[test]
fn empty_structure_has_no_root() {
    let ts = TreeStructure::new();
    assert!(ts.root().is_none());
    assert!(ts.iter_preorder().is_empty());
    let d = TreeStructure::default();
    assert!(d.root().is_none());
}

#[test]
fn mirror_reverses_children_everywhere() {
    let mut t = sample();
    t.mirror();
    assert_eq!(t.len(), 4);
    assert_eq!(preorder_values(t), vec!["a", "c", "b", "d"]);
}

#[test]
fn mirror_twice_restores_the_tree() {
    let mut t = Tree::new(
        "r".to_string(),
        vec![
            Tree::new("x".to_string(), vec![leaf("x1"), leaf("x2"), leaf("x3")]),
            leaf("y"),
            Tree::new("z".to_string(), vec![leaf("z1")]),
        ],
    );
    let before = preorder_values(t.clone());
    t.mirror();
    t.mirror();
    assert_eq!(preorder_values(t), before);
}

#[test]
fn json_tree_without_children_is_a_leaf() {
    let t = Tree::from_json(JsonTree { content: "solo".to_string(), children: None });
    assert_eq!(t.len(), 1);
    let t2 = Tree::from_json(JsonTree {
        content: "r".to_string(),
        children: Some(vec![leaf("a"), sample()]),
    });
    assert_eq!(t2.len(), 6);
    assert_eq!(preorder_values(t2), vec!["r", "a", "a", "b", "d", "c"]);
}

#[test]
fn derived_tables_keep_the_structure() {
    let mut ts = TreeStructure::new();
    let td = ts.load_data(sample());
    let lens = td.derive(|tree, n, v: &String| v.len() + tree.num_children(n.id));
    assert_eq!(lens.iter_preorder().into_iter().map(|(_, v)| *v).collect::<Vec<_>>(), vec![3, 2, 1, 1]);
    let kids = td.derive_from_nodes(|n| n.children.len());
    assert_eq!(kids.iter_preorder().into_iter().map(|(_, v)| *v).collect::<Vec<_>>(), vec![2, 1, 0, 0]);
    let zeros = td.new_default::<u32>();
    assert_eq!(zeros.iter_preorder().into_iter().map(|(_, v)| *v).collect::<Vec<_>>(), vec![0, 0, 0, 0]);
    let upper = td.transform(|n, v| format!("{}{}", v.to_uppercase(), n.children.len()));
    assert_eq!(
        upper.iter_preorder().into_iter().map(|(_, v)| v.clone()).collect::<Vec<_>>(),
        vec!["A2", "B1", "D0", "C0"]
    );
    assert!(!upper.is_empty());
}

#[test]
fn get_mut_changes_one_value() {
    let mut ts = TreeStructure::new();
    let mut td = ts.load_data(sample());
    let root = td.root().unwrap();
    let b = td.first_child(root);
    *td.get_mut(b) = "B".to_string();
    assert_eq!(td.get(b), "B");
    assert_eq!(td.get(root), "a");
    {
        let (nodes, values) = td.iter_mut_preorder();
        assert_eq!(nodes.len(), values.len());
        for v in values.iter_mut() {
            v.push('!');
        }
    }
    assert_eq!(
        td.iter_preorder().into_iter().map(|(_, v)| v.clone()).collect::<Vec<_>>(),
        vec!["a!", "B!", "d!", "c!"]
    );
}

#[test]
fn load_data_fn_calls_once_per_node_in_preorder() {
    let mut ts = TreeStructure::new();
    let mut calls = Vec::new();
    let td = ts.load_data_fn(sample(), |v: String| {
        calls.push(v.clone());
        v.len() * 10
    });
    assert_eq!(td.iter_preorder().into_iter().map(|(_, v)| *v).collect::<Vec<_>>(), vec![10, 10, 10, 10]);
    drop(td);
    assert_eq!(calls, vec!["a", "b", "d", "c"]);
}

#[test]
fn reloading_replaces_the_structure() {
    let mut ts = TreeStructure::new();
    {
        let td = ts.load_data(sample());
        assert_eq!(td.iter_nodes_preorder().len(), 4);
    }
    let td = ts.load_data(leaf("only"));
    assert_eq!(td.iter_nodes_preorder().len(), 1);
    assert_eq!(td.get(td.root().unwrap()), "only");
}

#[test]
fn load_data_fn_stores_the_closures_own_results() {
    let mut ts = TreeStructure::new();
    let offset = 100usize;
    let td = ts.load_data_fn(sample(), |v: String| v.as_bytes()[0] as usize + offset);
    assert_eq!(
        td.iter_preorder().into_iter().map(|(_, v)| *v).collect::<Vec<_>>(),
        vec![197, 198, 200, 199]
    );
}

#[test]
fn subtrees_occupy_contiguous_id_ranges() {
    // r(a(x, y(z)), b, c(w))
    let t = Tree::new(
        "r".to_string(),
        vec![
            Tree::new("a".to_string(), vec![leaf("x"), Tree::new("y".to_string(), vec![leaf("z")])]),
            leaf("b"),
            Tree::new("c".to_string(), vec![leaf("w")]),
        ],
    );
    let mut ts = TreeStructure::new();
    let td = ts.load_data(t);
    let nodes = td.iter_nodes_preorder();
    assert_eq!(nodes.len(), 8);
    let pos = |k: usize| -> Vec<usize> {
        nodes[k]
            .iter_children()
            .iter()
            .map(|c| nodes.iter().position(|n| n.id == *c).unwrap())
            .collect()
    };
    // r owns 0..8: a owns 1..5, b owns 5..6, c owns 6..8.
    assert_eq!(pos(0), vec![1, 5, 6]);
    // a owns 1..5: x owns 2..3, y owns 3..5.
    assert_eq!(pos(1), vec![2, 3]);
    assert_eq!(pos(3), vec![4]);
    assert_eq!(pos(6), vec![7]);
    for k in [2, 4, 5, 7] {
        assert!(pos(k).is_empty());
    }
    let vals: Vec<&str> = td.iter_preorder().into_iter().map(|(_, v)| v.as_str()).collect();
    assert_eq!(vals, vec!["r", "a", "x", "y", "z", "b", "c", "w"]);
}

#[test]
fn clone_can_be_used_like_the_original() {
    let t = sample();
    let mut c = t.clone();
    assert_eq!(c.len(), t.len());
    c.mirror();
    assert_eq!(preorder_values(c), vec!["a", "c", "b", "d"]);
    assert_eq!(preorder_values(t), vec!["a", "b", "d", "c"]);
}
