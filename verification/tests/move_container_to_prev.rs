use sway_workspace_extras::get_workspaces_of;
use sway_workspace_extras::Action;
use sway_workspace_extras::Node;
use sway_workspace_extras::NodeKind;
use sway_workspace_extras::Workflow;

#[allow(dead_code)]
fn window(focused: bool) -> Node {
    Node {
        id: 0,
        name: Some("Window".to_string()),
        num: None,
        focused,
        kind: NodeKind::Other,
        nodes: vec![],
        floating_nodes: vec![],
    }
}

#[allow(dead_code)]
fn workspace(num: i64, focused: bool, windows: Vec<Node>) -> Node {
    Node {
        id: 0,
        name: Some(num.to_string()),
        num: Some(num),
        focused,
        kind: NodeKind::Workspace,
        nodes: windows,
        floating_nodes: vec![],
    }
}

#[allow(dead_code)]
fn named_workspace(num: i64, name: &str, focused: bool, windows: Vec<Node>) -> Node {
    Node {
        id: 0,
        name: Some(format!("{num}: {name}")),
        num: Some(num),
        focused,
        kind: NodeKind::Workspace,
        nodes: windows,
        floating_nodes: vec![],
    }
}

#[allow(dead_code)]
fn output(name: &str, workspaces: Vec<Node>) -> Node {
    Node {
        id: 0,
        name: Some(name.to_string()),
        num: None,
        focused: false,
        kind: NodeKind::Output,
        nodes: workspaces,
        floating_nodes: vec![],
    }
}

#[allow(dead_code)]
fn scratchpad_output() -> Node {
    let scratch = Node {
        id: 0,
        name: Some("__i3_scratch".to_string()),
        num: None,
        focused: false,
        kind: NodeKind::Workspace,
        nodes: vec![],
        floating_nodes: vec![],
    };
    output("__i3", vec![scratch])
}

#[allow(dead_code)]
fn root(outputs: Vec<Node>) -> Node {
    let mut children = vec![scratchpad_output()];
    children.extend(outputs);
    Node {
        id: 0,
        name: Some("root".to_string()),
        num: None,
        focused: false,
        kind: NodeKind::Other,
        nodes: children,
        floating_nodes: vec![],
    }
}

#[allow(dead_code)]
fn single_output(workspaces: Vec<Node>) -> Node {
    root(vec![output("out-1", workspaces)])
}

#[allow(dead_code)]
fn two_outputs(first: Vec<Node>, second: Vec<Node>) -> Node {
    root(vec![output("out-1", first), output("out-2", second)])
}

fn move_container_to_prev_actions(tree: Node) -> Vec<Action> {
    let workflow = get_workspaces_of(&tree).map(Workflow::new).unwrap();
    workflow.move_container_to_prev()
}

#[test]
fn move_container_to_prev_single_empty_workspace() {
    let tree = single_output(vec![workspace(1, true, vec![])]);

    let actions = move_container_to_prev_actions(tree);

    assert_eq!(actions, &[]);
}

#[test]
fn move_container_to_prev_single_workspace_with_one_window() {
    let tree = single_output(vec![workspace(1, false, vec![window(true)])]);

    let actions = move_container_to_prev_actions(tree);

    assert_eq!(actions, &[]);
}

#[test]
fn move_container_to_prev_single_workspace_with_two_windows() {
    let tree = single_output(vec![workspace(1, false, vec![window(true), window(false)])]);

    let actions = move_container_to_prev_actions(tree);

    assert_eq!(actions, &[]);
}

#[test]
fn first_workspace_without_windows() {
    let tree = single_output(vec![workspace(1, true, vec![]), workspace(2, false, vec![window(false)])]);

    let actions = move_container_to_prev_actions(tree);

    assert_eq!(actions, &[]);
}

#[test]
fn first_workspace_with_window() {
    let tree = single_output(vec![workspace(1, false, vec![window(true)]), workspace(2, false, vec![window(false)])]);

    let actions = move_container_to_prev_actions(tree);

    assert_eq!(actions, &[]);
}

#[test]
fn move_container_to_prev_trailing_empty_workspace() {
    let tree = single_output(vec![workspace(1, false, vec![window(false)]), workspace(2, true, vec![])]);

    let actions = move_container_to_prev_actions(tree);

    assert_eq!(actions, &[]);
}

#[test]
fn move_container_to_prev_on_last_workspace_with_one_window() {
    let tree = single_output(vec![workspace(1, false, vec![window(false)]), workspace(2, false, vec![window(true)])]);

    let actions = move_container_to_prev_actions(tree);

    assert_eq!(actions, &[Action::MoveContainer { workspace_num: 1 }, Action::MoveFocus { workspace_num: 1 }]);
}

#[test]
fn move_container_to_prev_creates_intermediate_workspaces() {
    let tree = single_output(vec![workspace(1, false, vec![window(false)]), workspace(3, false, vec![window(true)])]);

    let actions = move_container_to_prev_actions(tree);

    assert_eq!(actions, &[Action::MoveContainer { workspace_num: 2 }, Action::MoveFocus { workspace_num: 2 }]);
}

#[test]
fn move_container_to_prev_on_empty_intermediate_workspace() {
    let tree = single_output(vec![workspace(1, false, vec![window(false)]), workspace(2, true, vec![]), workspace(3, false, vec![window(false)])]);

    let actions = move_container_to_prev_actions(tree);

    assert_eq!(actions, &[]);
}

#[test]
fn missing_predecessor_workspace() {
    let tree = single_output(vec![workspace(2, false, vec![window(true)]), workspace(3, false, vec![window(false)])]);

    let actions = move_container_to_prev_actions(tree);

    assert_eq!(actions, &[Action::MoveContainer { workspace_num: 1 }, Action::MoveFocus { workspace_num: 1 }]);
}

#[test]
fn on_first_of_two_empty_outputs() {
    let tree = two_outputs(vec![workspace(1, true, vec![])], vec![workspace(2, false, vec![])]);

    let actions = move_container_to_prev_actions(tree);

    assert_eq!(actions, &[]);
}

#[test]
fn on_second_of_two_empty_outputs() {
    let tree = two_outputs(vec![workspace(1, false, vec![])], vec![workspace(2, true, vec![])]);

    let actions = move_container_to_prev_actions(tree);

    assert_eq!(actions, &[]);
}

#[test]
fn on_first_of_two_non_empty_outputs() {
    let tree = two_outputs(vec![workspace(1, false, vec![window(true)])], vec![workspace(2, false, vec![window(false)])]);

    let actions = move_container_to_prev_actions(tree);

    assert_eq!(actions, &[]);
}

#[test]
fn on_second_of_two_non_empty_outputs() {
    let tree = two_outputs(vec![workspace(1, false, vec![window(false)])], vec![workspace(2, false, vec![window(true)])]);

    let actions = move_container_to_prev_actions(tree);

    assert_eq!(actions, &[]);
}

#[test]
fn on_second_output_with_gap_between_empty_outputs() {
    let tree = two_outputs(vec![workspace(1, false, vec![])], vec![workspace(3, true, vec![])]);

    let actions = move_container_to_prev_actions(tree);

    assert_eq!(actions, &[]);
}

#[test]
fn on_second_output_with_gap_between_non_empty_outputs() {
    let tree = two_outputs(vec![workspace(1, false, vec![window(false)])], vec![workspace(3, false, vec![window(true)])]);

    let actions = move_container_to_prev_actions(tree);

    assert_eq!(actions, &[Action::MoveContainer { workspace_num: 2 }, Action::MoveFocus { workspace_num: 2 }]);
}

#[test]
fn creates_empty_intermediate_workspace_on_first_output() {
    let tree = two_outputs(vec![workspace(3, false, vec![window(true)])], vec![workspace(4, false, vec![])]);

    let actions = move_container_to_prev_actions(tree);

    assert_eq!(actions, &[Action::MoveContainer { workspace_num: 2 }, Action::MoveFocus { workspace_num: 2 }]);
}

#[test]
fn creates_empty_intermediate_workspace_on_second_output() {
    let tree = two_outputs(vec![workspace(1, false, vec![])], vec![workspace(2, false, vec![window(false)]), workspace(4, false, vec![window(true)])]);

    let actions = move_container_to_prev_actions(tree);

    assert_eq!(actions, &[Action::MoveContainer { workspace_num: 3 }, Action::MoveFocus { workspace_num: 3 }]);
}

#[test]
fn move_container_to_prev_workspaces_separated_by_different_output() {
    let tree = two_outputs(vec![workspace(1, false, vec![window(false)]), workspace(3, false, vec![window(true)])], vec![workspace(2, false, vec![window(false)])]);

    let actions = move_container_to_prev_actions(tree);

    assert_eq!(actions, &[Action::MoveContainer { workspace_num: 1 }, Action::MoveFocus { workspace_num: 1 }]);
}

#[test]
fn move_container_to_prev_workspaces_separated_by_different_output_with_gap_after_second_output() {
    let tree = two_outputs(vec![workspace(1, false, vec![window(false)]), workspace(4, false, vec![window(true)])], vec![workspace(2, false, vec![])]);

    let actions = move_container_to_prev_actions(tree);

    assert_eq!(actions, &[Action::MoveContainer { workspace_num: 3 }, Action::MoveFocus { workspace_num: 3 }]);
}

#[test]
fn workspaces_separated_by_different_output_with_gap_before_second_output() {
    let tree = two_outputs(vec![workspace(1, false, vec![window(false)]), workspace(4, false, vec![window(true)])], vec![workspace(3, false, vec![])]);

    let actions = move_container_to_prev_actions(tree);

    assert_eq!(actions, &[Action::MoveContainer { workspace_num: 2 }, Action::MoveFocus { workspace_num: 2 }]);
}

#[test]
fn move_container_to_prev_supports_named_workspaces() {
    let tree = single_output(vec![named_workspace(1, "ws-1", false, vec![window(false)]), named_workspace(2, "ws-2", false, vec![window(true)])]);

    let actions = move_container_to_prev_actions(tree);

    assert_eq!(actions, &[Action::MoveContainer { workspace_num: 1 }, Action::MoveFocus { workspace_num: 1 }]);
}
