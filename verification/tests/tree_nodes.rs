use tree_craft::Node;

#[test]
fn a_new_node_has_no_children() {
    let node = Node::new("src".to_string(), true);
    assert_eq!(node.name, "src");
    assert!(node.is_directory);
    assert!(node.children.is_empty());
    let file = Node::new("a.txt".to_string(), false);
    assert_eq!(file.name, "a.txt");
    assert!(!file.is_directory);
    assert!(file.children.is_empty());
}

#[test]
fn children_keep_the_order_in_which_they_were_added() {
    let mut node = Node::new("src".to_string(), true);
    node.add_child(Node::new("b.txt".to_string(), false));
    node.add_child(Node::new("a.txt".to_string(), false));
    node.add_child(Node::new("b.txt".to_string(), false));
    let names: Vec<&str> = node.children.iter().map(|child| child.name.as_str()).collect();
    assert_eq!(names, vec!["b.txt", "a.txt", "b.txt"]);
    assert_eq!(node.name, "src");
    assert!(node.is_directory);
}

#[test]
fn adding_a_child_checks_nothing() {
    let mut file = Node::new("a.txt".to_string(), false);
    file.add_child(Node::new("inside".to_string(), true));
    assert!(!file.is_directory);
    assert_eq!(file.children.len(), 1);
    assert_eq!(file.children[0].name, "inside");
}

#[test]
fn a_clone_holds_the_same_tree() {
    let mut inner = Node::new("inner".to_string(), true);
    inner.add_child(Node::new("x.txt".to_string(), false));
    let mut node = Node::new("outer".to_string(), true);
    node.add_child(inner);
    node.add_child(Node::new("y.txt".to_string(), false));
    let copy = node.clone();
    assert_eq!(format!("{:?}", copy), format!("{:?}", node));
    assert_eq!(copy.children[0].children[0].name, "x.txt");
    node.add_child(Node::new("z.txt".to_string(), false));
    assert_eq!(copy.children.len(), 2);
    assert_eq!(node.children.len(), 3);
}
