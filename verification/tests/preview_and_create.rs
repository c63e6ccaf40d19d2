use tree_craft::creator::{create_node, preview_node};
use tree_craft::{
    build_structure, create, preview, Action, BoxDrawingParser, Node, Parser, Step, TreeCraftError,
};

const PROJECT: &str = "project/\n├── src/\n│   └── main.txt\n└── README.md\n";

fn read(text: &str) -> Node {
    BoxDrawingParser.parse(text).expect("a text with a line parses")
}

fn file(name: &str) -> Node {
    Node::new(name.to_string(), false)
}

fn dir(name: &str, children: Vec<Node>) -> Node {
    let mut node = Node::new(name.to_string(), true);
    for child in children {
        node.add_child(child);
    }
    node
}

fn below(node: &Node) -> usize {
    node.children.iter().map(|child| 1 + below(child)).sum()
}

fn plan(steps: &[Step]) -> Vec<(String, bool)> {
    steps.iter().map(|step| (step.path.join("/"), step.is_directory)).collect()
}

#[test]
fn the_preview_of_the_project_diagram_is_the_diagram() {
    let lines = preview(&read(PROJECT));
    assert_eq!(lines, vec!["project/", "├── src/", "│   └── main.txt", "└── README.md"]);
    assert_eq!(lines.join("\n") + "\n", PROJECT);
}

#[test]
fn a_root_alone_is_previewed_on_one_line() {
    assert_eq!(preview(&read("project/\n")), vec!["project/"]);
    assert_eq!(preview(&file("odd.txt")), vec!["odd.txt/"]);
    assert_eq!(preview(&dir("", vec![])), vec!["/"]);
}

#[test]
fn the_prefix_tells_which_ancestors_were_last() {
    let root = dir(
        "root",
        vec![
            dir("a", vec![dir("b", vec![file("c.txt")]), file("d.txt")]),
            dir("e", vec![dir("f", vec![file("g.txt"), file("h.txt")])]),
        ],
    );
    assert_eq!(
        preview(&root),
        vec![
            "root/",
            "├── a/",
            "│   ├── b/",
            "│   │   └── c.txt",
            "│   └── d.txt",
            "└── e/",
            "    └── f/",
            "        ├── g.txt",
            "        └── h.txt",
        ]
    );
}

#[test]
fn an_only_child_is_the_last_child() {
    let root = dir("r", vec![dir("x", vec![file("y.txt")])]);
    assert_eq!(preview(&root), vec!["r/", "└── x/", "    └── y.txt"]);
}

#[test]
fn the_preview_has_one_line_for_each_entry() {
    let texts = [
        "r\n",
        PROJECT,
        "r\n├── a\n│   ├── b\n│   └── c.d\n├── e\n└── f.g\n",
        "r\n├── a\n├── b\n├── c\n",
    ];
    for text in texts {
        let root = read(text);
        assert_eq!(preview(&root).len(), 1 + below(&root), "{:?}", text);
    }
    let mut odd = file("odd.txt");
    odd.add_child(file("inner.txt"));
    let root = dir("r", vec![odd, file("z.txt")]);
    assert_eq!(preview(&root), vec!["r/", "├── odd.txt", "│   └── inner.txt", "└── z.txt"]);
    assert_eq!(preview(&root).len(), 1 + below(&root));
}

#[test]
fn previewing_a_node_appends_to_the_lines() {
    let mut lines = vec!["kept".to_string()];
    preview_node(&dir("a", vec![file("b.txt")]), "│   ", false, &mut lines);
    assert_eq!(lines, vec!["kept", "│   ├── a/", "│   │   └── b.txt"]);
    preview_node(&file("c.txt"), "", true, &mut lines);
    assert_eq!(lines.len(), 4);
    assert_eq!(lines[3], "└── c.txt");
}

#[test]
fn a_parsed_preview_parses_to_the_same_preview() {
    let root = read("r\n├── a\n    ├── b.txt\n    └── c\n        └── d.txt\n└── e.txt\n");
    let lines = preview(&root);
    assert_eq!(
        lines,
        vec!["r/", "├── a/", "│   ├── b.txt", "│   └── c/", "│       └── d.txt", "└── e.txt"]
    );
}

#[test]
fn the_project_is_created_parents_first() {
    let steps = create(&read(PROJECT), "project", false).expect("the destination is free");
    assert_eq!(
        plan(&steps),
        vec![
            (String::new(), true),
            ("src".to_string(), true),
            ("src/main.txt".to_string(), false),
            ("README.md".to_string(), false),
        ]
    );
    assert!(steps[0].path.is_empty());
    assert_eq!(steps[2].path, vec!["src", "main.txt"]);
}

#[test]
fn an_existing_destination_is_refused() {
    match create(&read(PROJECT), "out/project", true) {
        Err(TreeCraftError::AlreadyExists(path)) => assert_eq!(path, "out/project"),
        other => panic!("expected the destination to be refused, got {:?}", other.map(|s| s.len())),
    }
}

#[test]
fn the_destination_is_made_even_for_an_empty_tree() {
    let steps = create(&dir("anything", vec![]), "out", false).expect("the destination is free");
    assert_eq!(plan(&steps), vec![(String::new(), true)]);
    let steps = create(&file("odd.txt"), "out", false).expect("the destination is free");
    assert_eq!(plan(&steps), vec![(String::new(), true)]);
}

#[test]
fn creation_goes_depth_first_in_the_order_of_the_children() {
    let root = dir(
        "root",
        vec![
            dir("a", vec![dir("b", vec![file("c.txt")]), file("d.txt")]),
            file("e.txt"),
            dir("f", vec![]),
        ],
    );
    let steps = create(&root, "out", false).expect("the destination is free");
    let paths: Vec<String> = plan(&steps).into_iter().map(|(path, _)| path).collect();
    assert_eq!(paths, vec!["", "a", "a/b", "a/b/c.txt", "a/d.txt", "e.txt", "f"]);
    let kinds: Vec<bool> = steps.iter().map(|step| step.is_directory).collect();
    assert_eq!(kinds, vec![true, true, true, false, false, false, true]);
    assert_eq!(steps.len(), 1 + below(&root));
}

#[test]
fn what_lies_below_a_file_is_not_created() {
    let mut odd = file("odd.txt");
    odd.add_child(file("inner.txt"));
    let steps = create(&dir("r", vec![odd, file("z.txt")]), "out", false).expect("free");
    assert_eq!(plan(&steps), vec![
        (String::new(), true),
        ("odd.txt".to_string(), false),
        ("z.txt".to_string(), false),
    ]);
}

#[test]
fn creating_a_node_appends_to_the_steps() {
    let mut steps = vec![Step { path: vec![], is_directory: true }];
    let base = vec!["out".to_string(), "x".to_string()];
    create_node(&dir("a", vec![file("b.txt")]), &base, &mut steps);
    assert_eq!(
        plan(&steps),
        vec![(String::new(), true), ("out/x/a".to_string(), true), ("out/x/a/b.txt".to_string(), false)]
    );
}

#[test]
fn building_with_preview_shows_the_tree() {
    for exists in [false, true] {
        match build_structure(PROJECT, "out", true, exists) {
            Ok(Action::Show(lines)) => {
                assert_eq!(lines, vec!["project/", "├── src/", "│   └── main.txt", "└── README.md"])
            }
            _ => panic!("expected lines to show"),
        }
    }
}

#[test]
fn building_without_preview_gives_the_steps() {
    match build_structure(PROJECT, "out", false, false) {
        Ok(Action::Create(steps)) => assert_eq!(
            plan(&steps),
            vec![
                (String::new(), true),
                ("src".to_string(), true),
                ("src/main.txt".to_string(), false),
                ("README.md".to_string(), false),
            ]
        ),
        _ => panic!("expected steps to perform"),
    }
}

#[test]
fn building_refuses_an_existing_destination() {
    match build_structure(PROJECT, "out", false, true) {
        Err(TreeCraftError::AlreadyExists(path)) => assert_eq!(path, "out"),
        _ => panic!("expected the destination to be refused"),
    }
}

#[test]
fn building_refuses_an_empty_text_first() {
    for (preview, exists) in [(false, false), (false, true), (true, false), (true, true)] {
        match build_structure("", "out", preview, exists) {
            Err(TreeCraftError::Parse(message)) => assert_eq!(message, "empty input"),
            _ => panic!("expected a parse error"),
        }
    }
}
