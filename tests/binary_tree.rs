use rlu::BinaryTree;
use rlu::BinaryTree::{Leaf, Node};

fn test_tree() -> BinaryTree<&'static str> {
    Node(
        "B",
        Box::new(Node("A", Box::new(Leaf), Box::new(Leaf))),
        Box::new(Node("C", Box::new(Leaf), Box::new(Leaf))),
    )
}

#[test]
fn len_test() {
    assert_eq!(test_tree().len(), 3);
}

#[test]
fn to_vec_test() {
    assert_eq!(test_tree().to_vec(), vec![&"A", &"B", &"C"]);
}

#[test]
fn sorted_test() {
    let mut t = test_tree();
    assert!(t.sorted());

    t = Node("D", Box::new(Leaf), Box::new(t));
    assert!(!t.sorted());
}

#[test]
fn insertion_test() {
    let mut t = test_tree();
    t.insert("E");
    assert!(t.sorted());
}

#[test]
fn search_test() {
    let mut t = test_tree();
    t.insert("E");
    assert!(t.search(&"D") == Some(&"E"));
    assert!(t.search(&"C") == Some(&"C"));
    assert!(t.search(&"F") == None);
}

#[test]
fn rebalance1_test() {
    let mut t = Node(
        "D",
        Box::new(Node(
            "B",
            Box::new(Node("A", Box::new(Leaf), Box::new(Leaf))),
            Box::new(Node("C", Box::new(Leaf), Box::new(Leaf))),
        )),
        Box::new(Node("E", Box::new(Leaf), Box::new(Leaf))),
    );

    let t2 = Node(
        "C",
        Box::new(Node(
            "B",
            Box::new(Node("A", Box::new(Leaf), Box::new(Leaf))),
            Box::new(Leaf),
        )),
        Box::new(Node(
            "D",
            Box::new(Leaf),
            Box::new(Node("E", Box::new(Leaf), Box::new(Leaf))),
        )),
    );

    t.rebalance();
    assert_eq!(t, t2);
}

#[test]
fn rebalance2_test() {
    let mut t = Node(
        "A",
        Box::new(Leaf),
        Box::new(Node(
            "B",
            Box::new(Leaf),
            Box::new(Node(
                "C",
                Box::new(Leaf),
                Box::new(Node("D", Box::new(Leaf), Box::new(Leaf))),
            )),
        )),
    );

    let t2 = Node(
        "B",
        Box::new(Node("A", Box::new(Leaf), Box::new(Leaf))),
        Box::new(Node(
            "C",
            Box::new(Leaf),
            Box::new(Node("D", Box::new(Leaf), Box::new(Leaf))),
        )),
    );

    t.rebalance();
    assert_eq!(t, t2);
}

#[test]
fn rebalance3_test() {
    let mut t = Node(
        "E",
        Box::new(Node(
            "B",
            Box::new(Leaf),
            Box::new(Node(
                "D",
                Box::new(Node("C", Box::new(Leaf), Box::new(Leaf))),
                Box::new(Leaf),
            )),
        )),
        Box::new(Node("F", Box::new(Leaf), Box::new(Leaf))),
    );

    let t2 = Node(
        "D",
        Box::new(Node(
            "B",
            Box::new(Leaf),
            Box::new(Node("C", Box::new(Leaf), Box::new(Leaf))),
        )),
        Box::new(Node(
            "E",
            Box::new(Leaf),
            Box::new(Node("F", Box::new(Leaf), Box::new(Leaf))),
        )),
    );

    t.rebalance();
    assert_eq!(t, t2);
}

#[test]
fn empty_tree_edges() {
    let mut t: BinaryTree<&str> = Leaf;
    assert_eq!(t.len(), 0);
    assert!(t.sorted());
    assert!(t.search(&"A") == None);
    assert!(t.to_vec().is_empty());
    t.rebalance();
    assert_eq!(t, Leaf);
    t.insert("M");
    assert_eq!(t.len(), 1);
}

#[test]
fn insert_keeps_order_with_equal_and_multibyte_keys() {
    let mut t: BinaryTree<&str> = Leaf;
    for s in ["m", "b", "x", "b", "é", "ab", "a"] {
        t.insert(s);
        assert!(t.sorted());
    }
    assert_eq!(t.to_vec(), vec![&"a", &"ab", &"b", &"b", &"m", &"x", &"é"]);
    assert!(t.search(&"aa") == Some(&"ab"));
    assert!(t.search(&"y") == Some(&"é"));
    assert!(t.search(&"z") == Some(&"é"));
    assert!(t.search(&"ê") == None);
}

#[test]
fn balanced_root_is_unchanged() {
    let mut t = test_tree();
    t.rebalance();
    assert_eq!(t, test_tree());
}

#[test]
fn ascii_drawing() {
    let expected = " B\n \u{251c}\u{2500} A\n \u{2502}  \u{251c}\u{2500}\n \u{2502}  \u{2514}\u{2500}\n \u{2514}\u{2500} C\n    \u{251c}\u{2500}\n    \u{2514}\u{2500}\n";
    assert_eq!(test_tree().to_ascii_tree(), expected);
    let empty: BinaryTree<&str> = Leaf;
    assert_eq!(empty.to_ascii_tree(), "\n");
}
