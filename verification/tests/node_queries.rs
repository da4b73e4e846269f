use sway_workspace_extras::Node;
use sway_workspace_extras::NodeKind;

fn named(name: &str, nodes: Vec<Node>, floating_nodes: Vec<Node>) -> Node {
    Node {
        id: 0,
        name: Some(name.to_string()),
        num: None,
        focused: false,
        kind: NodeKind::Other,
        nodes,
        floating_nodes,
    }
}

fn given_tree() -> Node {
    named(
        "root",
        vec![
            named(
                "n1",
                vec![named("n2", vec![], vec![])],
                vec![named("f1", vec![], vec![])],
            ),
            named("n3", vec![], vec![named("f2", vec![], vec![])]),
        ],
        vec![],
    )
}

fn names_of(nodes: Vec<&Node>) -> Vec<String> {
    nodes.iter().map(|n| n.name.clone().unwrap()).collect()
}

#[test]
fn should_not_collect_any_nodes_when_predicate_never_matches() {
    let root = given_tree();

    let nodes = root.find_all_nodes_by(|_| false);

    assert_eq!(names_of(nodes), Vec::<String>::new());
}

#[test]
fn should_collect_all_nodes_when_predicate_always_matches() {
    let root = given_tree();

    let nodes = root.find_all_nodes_by(|_| true);

    assert_eq!(names_of(nodes), vec!["root", "n1", "n2", "f1", "n3", "f2"]);
}

#[test]
fn should_only_collect_nodes_for_which_the_predicate_matches() {
    let root = given_tree();

    let nodes = root.find_all_nodes_by(|n: &Node| {
        matches!(n.name.as_deref(), Some("n1") | Some("f2"))
    });

    assert_eq!(names_of(nodes), vec!["n1", "f2"]);
}

fn given_node_without_name() -> Node {
    Node {
        id: 0,
        name: None,
        num: None,
        focused: false,
        kind: NodeKind::Workspace,
        nodes: vec![],
        floating_nodes: vec![],
    }
}

fn given_node_with_name(name: &str) -> Node {
    Node {
        id: 0,
        name: Some(name.to_owned()),
        num: None,
        focused: false,
        kind: NodeKind::Workspace,
        nodes: vec![],
        floating_nodes: vec![],
    }
}

#[test]
fn node_without_name_is_not_recognized_as_scratchpad() {
    let node = given_node_without_name();

    let is_scratchpad = node.is_scratchpad_workspace();

    assert!(!is_scratchpad);
}

#[test]
fn node_with_a_random_name_is_not_recognized_as_scratchpad() {
    let node = given_node_with_name("some name");

    let is_scratchpad = node.is_scratchpad_workspace();

    assert!(!is_scratchpad);
}

#[test]
fn node_with_the_right_name_is_recognized_as_scratchpad() {
    let node = given_node_with_name("__i3_scratch");

    let is_scratchpad = node.is_scratchpad_workspace();

    assert!(is_scratchpad);
}

#[test]
fn finds_focused_node_anywhere_in_subtree() {
    let mut deep = given_node_with_name("leaf");
    deep.focused = true;
    let tree = named("top", vec![named("mid", vec![], vec![deep])], vec![]);

    assert!(tree.has_focused_descendant());

    let found = tree.find_as_ref(|n: &Node| n.focused).unwrap();
    assert_eq!(found.name.as_deref(), Some("leaf"));
}

#[test]
fn subtree_without_focus_has_no_focused_descendant() {
    let tree = given_tree();

    assert!(!tree.has_focused_descendant());
    assert!(tree.find_as_ref(|n: &Node| n.focused).is_none());
}
