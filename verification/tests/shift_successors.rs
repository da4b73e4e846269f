use sway_workspace_extras::get_workspaces_of;
use sway_workspace_extras::Action;
use sway_workspace_extras::Node;
use sway_workspace_extras::NodeKind;
use sway_workspace_extras::Workflow;

#[allow(dead_code)]
fn window(focused: bool) -> Node {
    Node {
        id: 0,
        name: Some("Window".to_string()),
        num: None,
        focused,
        kind: NodeKind::Other,
        nodes: vec![],
        floating_nodes: vec![],
    }
}

#[allow(dead_code)]
fn workspace(num: i64, focused: bool, windows: Vec<Node>) -> Node {
    Node {
        id: 0,
        name: Some(num.to_string()),
        num: Some(num),
        focused,
        kind: NodeKind::Workspace,
        nodes: windows,
        floating_nodes: vec![],
    }
}

#[allow(dead_code)]
fn named_workspace(num: i64, name: &str, focused: bool, windows: Vec<Node>) -> Node {
    Node {
        id: 0,
        name: Some(format!("{num}: {name}")),
        num: Some(num),
        focused,
        kind: NodeKind::Workspace,
        nodes: windows,
        floating_nodes: vec![],
    }
}

#[allow(dead_code)]
fn output(name: &str, workspaces: Vec<Node>) -> Node {
    Node {
        id: 0,
        name: Some(name.to_string()),
        num: None,
        focused: false,
        kind: NodeKind::Output,
        nodes: workspaces,
        floating_nodes: vec![],
    }
}

#[allow(dead_code)]
fn scratchpad_output() -> Node {
    let scratch = Node {
        id: 0,
        name: Some("__i3_scratch".to_string()),
        num: None,
        focused: false,
        kind: NodeKind::Workspace,
        nodes: vec![],
        floating_nodes: vec![],
    };
    output("__i3", vec![scratch])
}

#[allow(dead_code)]
fn root(outputs: Vec<Node>) -> Node {
    let mut children = vec![scratchpad_output()];
    children.extend(outputs);
    Node {
        id: 0,
        name: Some("root".to_string()),
        num: None,
        focused: false,
        kind: NodeKind::Other,
        nodes: children,
        floating_nodes: vec![],
    }
}

#[allow(dead_code)]
fn single_output(workspaces: Vec<Node>) -> Node {
    root(vec![output("out-1", workspaces)])
}

#[allow(dead_code)]
fn two_outputs(first: Vec<Node>, second: Vec<Node>) -> Node {
    root(vec![output("out-1", first), output("out-2", second)])
}

fn shift_successors_actions(tree: Node) -> Vec<Action> {
    let workflow = get_workspaces_of(&tree).map(Workflow::new).unwrap();
    workflow.shift_successors()
}

#[test]
fn shift_successors_single_empty_workspace() {
    let tree = single_output(vec![workspace(1, true, vec![])]);

    let actions = shift_successors_actions(tree);

    assert_eq!(actions, &[]);
}

#[test]
fn shift_successors_single_workspace_with_one_window() {
    let tree = single_output(vec![workspace(1, false, vec![window(true)])]);

    let actions = shift_successors_actions(tree);

    assert_eq!(actions, &[]);
}

#[test]
fn current_workspace_is_empty() {
    let tree = single_output(vec![workspace(1, true, vec![]), workspace(2, false, vec![window(false)])]);

    let actions = shift_successors_actions(tree);

    assert_eq!(actions, &[Action::RenameWorkspace { workspace_name: "2".to_owned(), new_workspace_name: "3".to_owned() }]);
}

#[test]
fn current_workspace_not_empty() {
    let tree = single_output(vec![workspace(1, false, vec![window(true)]), workspace(2, false, vec![window(false)])]);

    let actions = shift_successors_actions(tree);

    assert_eq!(actions, &[Action::RenameWorkspace { workspace_name: "2".to_owned(), new_workspace_name: "3".to_owned() }]);
}

#[test]
fn next_workspace_is_empty() {
    let tree = single_output(vec![workspace(1, false, vec![window(true)]), workspace(3, false, vec![window(false)])]);

    let actions = shift_successors_actions(tree);

    assert_eq!(actions, &[]);
}

#[test]
fn gap_between_successors() {
    let tree = single_output(vec![workspace(1, false, vec![window(true)]), workspace(2, false, vec![window(false)]), workspace(4, false, vec![window(false)])]);

    let actions = shift_successors_actions(tree);

    assert_eq!(actions, &[Action::RenameWorkspace { workspace_name: "2".to_owned(), new_workspace_name: "3".to_owned() }]);
}

#[test]
fn multiple_successors() {
    let tree = single_output(vec![workspace(1, false, vec![window(true)]), workspace(2, false, vec![window(false)]), workspace(3, false, vec![window(false)])]);

    let actions = shift_successors_actions(tree);

    assert_eq!(actions, &[Action::RenameWorkspace { workspace_name: "3".to_owned(), new_workspace_name: "4".to_owned() }, Action::RenameWorkspace { workspace_name: "2".to_owned(), new_workspace_name: "3".to_owned() }]);
}

#[test]
fn two_empty_outputs() {
    let tree = two_outputs(vec![workspace(1, true, vec![])], vec![workspace(2, false, vec![])]);

    let actions = shift_successors_actions(tree);

    assert_eq!(actions, &[Action::RenameWorkspace { workspace_name: "2".to_owned(), new_workspace_name: "3".to_owned() }]);
}

#[test]
fn on_second_output_without_successors() {
    let tree = two_outputs(vec![workspace(1, false, vec![])], vec![workspace(2, true, vec![])]);

    let actions = shift_successors_actions(tree);

    assert_eq!(actions, &[]);
}

#[test]
fn gap_between_successors_on_different_outputs() {
    let tree = two_outputs(vec![workspace(1, true, vec![]), workspace(2, false, vec![window(false)])], vec![workspace(4, false, vec![])]);

    let actions = shift_successors_actions(tree);

    assert_eq!(actions, &[Action::RenameWorkspace { workspace_name: "2".to_owned(), new_workspace_name: "3".to_owned() }]);
}

#[test]
fn successors_on_different_outputs() {
    let tree = two_outputs(vec![workspace(1, true, vec![]), workspace(2, false, vec![window(false)])], vec![workspace(3, false, vec![])]);

    let actions = shift_successors_actions(tree);

    assert_eq!(actions, &[Action::RenameWorkspace { workspace_name: "3".to_owned(), new_workspace_name: "4".to_owned() }, Action::RenameWorkspace { workspace_name: "2".to_owned(), new_workspace_name: "3".to_owned() }]);
}

#[test]
fn two_workspace_with_gap_between() {
    let tree = two_outputs(vec![workspace(1, false, vec![window(true)])], vec![workspace(3, false, vec![])]);

    let actions = shift_successors_actions(tree);

    assert_eq!(actions, &[]);
}

#[test]
fn preserves_workspaces_names() {
    let tree = single_output(vec![named_workspace(1, "ws-1", true, vec![]), named_workspace(2, "ws-2", false, vec![window(false)])]);

    let actions = shift_successors_actions(tree);

    assert_eq!(actions, &[Action::RenameWorkspace { workspace_name: "2: ws-2".to_owned(), new_workspace_name: "3: ws-2".to_owned() }]);
}
