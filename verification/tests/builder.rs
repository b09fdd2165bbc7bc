use gedcom_parser::{build_tree, forest, parse_into_nodes, parse_to_forest, subtree, Node, ParseError, Tree};

fn records(levels: &[i32]) -> Vec<Node> {
    levels
        .iter()
        .enumerate()
        .map(|(i, level)| Node::new(*level, &format!("T{}", i), "", ""))
        .collect()
}

fn root() -> Node {
    Node::new(-1, "", "", "")
}

fn links(levels: &[i32]) -> (Vec<usize>, Vec<Vec<usize>>) {
    let mut nodes = records(levels);
    let mut dummy_root = root();
    build_tree(&mut nodes, &mut dummy_root);
    (dummy_root.children, nodes.into_iter().map(|node| node.children).collect())
}

fn leaf(level: i32, tag: &str, data: &str, pointer: &str) -> Tree {
    Tree {
        data: data.to_string(),
        tag: tag.to_string(),
        pointer: pointer.to_string(),
        level,
        children: vec![],
    }
}

fn preorder(trees: &[Tree], tags: &mut Vec<String>) {
    for tree in trees {
        tags.push(tree.tag.clone());
        preorder(&tree.children, tags);
    }
}

fn check_levels(tree: &Tree) {
    for child in &tree.children {
        assert_eq!(child.level, tree.level + 1);
        check_levels(child);
    }
}

const HEAD: &str = "0 HEAD\n1 NAME William Jefferson\n1 SEX M\n1 OCCU US President No. 42\n1 @SUB1@ SUBM\n";

#[test]
fn head_document_is_one_tree_with_four_children() {
    let trees = parse_to_forest(HEAD.to_string()).unwrap();
    let mut head = leaf(0, "HEAD", "", "");
    head.children = vec![
        leaf(1, "NAME", "William Jefferson", ""),
        leaf(1, "SEX", "M", ""),
        leaf(1, "OCCU", "US President No. 42", ""),
        leaf(1, "SUBM", "", "@SUB1@"),
    ];
    assert_eq!(trees, vec![head]);
}

#[test]
fn first_record_at_level_two_attaches_to_nothing() {
    let mut nodes = parse_into_nodes("2 FOO bar".to_string()).unwrap();
    assert_eq!(nodes, vec![Node::new(2, "FOO", "bar", "")]);
    let mut dummy_root = root();
    build_tree(&mut nodes, &mut dummy_root);
    assert!(dummy_root.children.is_empty());
    assert_eq!(nodes, vec![Node::new(2, "FOO", "bar", "")]);
    assert_eq!(parse_to_forest("2 FOO bar".to_string()), Ok(vec![]));
}

#[test]
fn empty_document_is_an_empty_forest() {
    assert_eq!(parse_to_forest(String::new()), Ok(vec![]));
    assert_eq!(parse_to_forest("nothing here\n\n".to_string()), Ok(vec![]));
    let (top, below) = links(&[]);
    assert!(top.is_empty());
    assert!(below.is_empty());
}

#[test]
fn unreadable_level_fails_the_whole_run() {
    assert_eq!(parse_to_forest("0 HEAD\n1 A\n123456789012 B\n1 C".to_string()), Err(ParseError::Level));
}

#[test]
fn siblings_keep_their_order() {
    let (top, below) = links(&[0, 1, 1, 1, 0, 1]);
    assert_eq!(top, vec![0, 4]);
    assert_eq!(below, vec![vec![1, 2, 3], vec![], vec![], vec![], vec![5], vec![]]);
}

#[test]
fn scopes_close_when_a_shallower_record_comes() {
    let (top, below) = links(&[0, 1, 2, 3, 1, 2, 0, 1]);
    assert_eq!(top, vec![0, 6]);
    assert_eq!(
        below,
        vec![vec![1, 4], vec![2], vec![3], vec![], vec![5], vec![], vec![7], vec![]]
    );
}

#[test]
fn a_record_two_levels_deeper_is_left_out() {
    let (top, below) = links(&[0, 2, 1]);
    assert_eq!(top, vec![0]);
    assert_eq!(below, vec![vec![2], vec![], vec![]]);
}

#[test]
fn a_left_out_record_still_takes_children() {
    let (top, below) = links(&[0, 2, 3, 3, 1]);
    assert_eq!(top, vec![0]);
    assert_eq!(below, vec![vec![4], vec![2, 3], vec![], vec![], vec![]]);
    let trees = parse_to_forest("0 A\n2 B\n3 C\n3 D\n1 E".to_string()).unwrap();
    let mut a = leaf(0, "A", "", "");
    a.children = vec![leaf(1, "E", "", "")];
    assert_eq!(trees, vec![a]);
}

#[test]
fn first_record_below_level_zero_leaves_the_root_empty() {
    let (top, below) = links(&[1, 2, 2]);
    assert!(top.is_empty());
    assert_eq!(below, vec![vec![1, 2], vec![], vec![]]);
}

#[test]
fn a_record_under_a_left_out_one_compares_with_its_level() {
    let (top, below) = links(&[0, 3, 1, 2]);
    assert_eq!(top, vec![0]);
    assert_eq!(below, vec![vec![2], vec![], vec![3], vec![]]);
}

#[test]
fn records_and_root_keep_what_they_hold() {
    let mut nodes = vec![Node::new(0, "A", "a", "@1@"), Node::new(1, "B", "b", "@2@")];
    let mut dummy_root = Node::new(-1, "dummy", "d", "p");
    build_tree(&mut nodes, &mut dummy_root);
    let mut a = Node::new(0, "A", "a", "@1@");
    a.children = vec![1];
    assert_eq!(nodes, vec![a, Node::new(1, "B", "b", "@2@")]);
    let mut expected_root = Node::new(-1, "dummy", "d", "p");
    expected_root.children = vec![0];
    assert_eq!(dummy_root, expected_root);
}

#[test]
fn children_are_added_behind_those_already_there() {
    let mut nodes = records(&[0, 1]);
    let mut dummy_root = root();
    build_tree(&mut nodes, &mut dummy_root);
    build_tree(&mut nodes, &mut dummy_root);
    assert_eq!(dummy_root.children, vec![0, 0]);
    assert_eq!(nodes[0].children, vec![1, 1]);
}

#[test]
fn a_child_is_one_level_below_its_parent() {
    let levels = [0, 1, 2, 2, 4, 5, 1, 3, 2, 0, 2, 1, 2, 3, 0];
    let (top, below) = links(&levels);
    for child in &top {
        assert_eq!(levels[*child], 0);
    }
    for (parent, children) in below.iter().enumerate() {
        for child in children {
            assert!(*child > parent);
            assert_eq!(levels[*child], levels[parent] + 1);
        }
    }
    let text: String = levels.iter().map(|level| format!("{} TAG\n", level)).collect();
    for tree in parse_to_forest(text).unwrap() {
        assert_eq!(tree.level, 0);
        check_levels(&tree);
    }
}

#[test]
fn preorder_is_document_order() {
    let text = "0 A\n1 B\n2 C\n2 D\n4 X\n5 Y\n1 E\n3 Z\n2 F\n0 G\n2 W\n1 H\n";
    let mut tags = Vec::new();
    preorder(&parse_to_forest(text.to_string()).unwrap(), &mut tags);
    assert_eq!(tags, vec!["A", "B", "C", "D", "E", "F", "G", "H"]);
}

#[test]
fn the_root_is_no_part_of_the_forest() {
    let mut nodes = records(&[0, 1, 0]);
    let mut dummy_root = Node::new(-1, "ROOT", "root data", "@R@");
    build_tree(&mut nodes, &mut dummy_root);
    let trees = forest(&nodes, &dummy_root);
    let mut tags = Vec::new();
    preorder(&trees, &mut tags);
    assert_eq!(tags, vec!["T0", "T1", "T2"]);
    assert_eq!(trees.len(), 2);
    assert_eq!(trees[0].level, 0);
}

#[test]
fn forest_is_the_same_each_time() {
    let mut nodes = records(&[0, 1, 2, 1, 0]);
    let mut dummy_root = root();
    build_tree(&mut nodes, &mut dummy_root);
    assert_eq!(forest(&nodes, &dummy_root), forest(&nodes, &dummy_root));
}

#[test]
fn subtree_copies_a_record_and_what_is_under_it() {
    let mut nodes = records(&[0, 1, 2, 1]);
    let mut dummy_root = root();
    build_tree(&mut nodes, &mut dummy_root);
    let mut t1 = leaf(1, "T1", "", "");
    t1.children = vec![leaf(2, "T2", "", "")];
    assert_eq!(subtree(&nodes, 1), t1);
    assert_eq!(subtree(&nodes, 3), leaf(1, "T3", "", ""));
    let mut t0 = leaf(0, "T0", "", "");
    t0.children = vec![t1, leaf(1, "T3", "", "")];
    assert_eq!(subtree(&nodes, 0), t0);
}

#[test]
fn deep_nesting_is_followed_to_the_end() {
    let levels: Vec<i32> = (0..200).collect();
    let (top, below) = links(&levels);
    assert_eq!(top, vec![0]);
    for (i, children) in below.iter().enumerate() {
        if i + 1 < levels.len() {
            assert_eq!(children, &vec![i + 1]);
        } else {
            assert!(children.is_empty());
        }
    }
}

struct Dice(u64);

impl Dice {
    fn roll(&mut self, sides: usize) -> usize {
        self.0 ^= self.0 << 13;
        self.0 ^= self.0 >> 7;
        self.0 ^= self.0 << 17;
        (self.0 % sides as u64) as usize
    }
}

// The children by the plain rule: a record's parent is the nearest earlier
// record that is shallower, and it is a child only if it is one level deeper.
fn links_by_search(levels: &[i32]) -> (Vec<usize>, Vec<Vec<usize>>) {
    let mut top = Vec::new();
    let mut below = vec![Vec::new(); levels.len()];
    for i in 0..levels.len() {
        let parent = (0..i).rev().find(|j| levels[*j] < levels[i]);
        match parent {
            Some(p) if levels[p] == levels[i] - 1 => below[p].push(i),
            None if levels[i] == 0 => top.push(i),
            _ => {}
        }
    }
    (top, below)
}

#[test]
fn children_are_found_as_by_search() {
    let mut dice = Dice(0x9E3779B97F4A7C15);
    for _ in 0..300 {
        let length = dice.roll(30);
        let levels: Vec<i32> = (0..length).map(|_| dice.roll(5) as i32).collect();
        assert_eq!(links(&levels), links_by_search(&levels), "{:?}", levels);
    }
}

#[test]
fn preorder_visits_the_records_under_the_root_in_order() {
    let mut dice = Dice(0xD1B54A32D192ED03);
    for _ in 0..200 {
        let length = dice.roll(30);
        let levels: Vec<i32> = (0..length).map(|_| dice.roll(4) as i32).collect();
        let mut nodes = records(&levels);
        let mut dummy_root = root();
        build_tree(&mut nodes, &mut dummy_root);
        let mut in_forest = vec![false; levels.len()];
        for i in 0..levels.len() {
            let parent = (0..i).rev().find(|j| levels[*j] < levels[i]);
            in_forest[i] = match parent {
                Some(p) => levels[p] == levels[i] - 1 && in_forest[p],
                None => levels[i] == 0,
            };
        }
        let expected: Vec<String> = (0..levels.len())
            .filter(|i| in_forest[*i])
            .map(|i| format!("T{}", i))
            .collect();
        let mut tags = Vec::new();
        preorder(&forest(&nodes, &dummy_root), &mut tags);
        assert_eq!(tags, expected, "{:?}", levels);
    }
}
