use sway_workspace_extras::get_workspaces_of;
use sway_workspace_extras::Action;
use sway_workspace_extras::Node;
use sway_workspace_extras::NodeKind;
use sway_workspace_extras::Workflow;

fn window(focused: bool) -> Node {
    Node {
        id: 0,
        name: Some("Window".to_string()),
        num: None,
        focused,
        kind: NodeKind::Other,
        nodes: vec![],
        floating_nodes: vec![],
    }
}

fn workspace(num: i64, focused: bool, windows: Vec<Node>) -> Node {
    Node {
        id: 0,
        name: Some(num.to_string()),
        num: Some(num),
        focused,
        kind: NodeKind::Workspace,
        nodes: windows,
        floating_nodes: vec![],
    }
}

fn single_output(workspaces: Vec<Node>) -> Node {
    let output = Node {
        id: 0,
        name: Some("out-1".to_string()),
        num: None,
        focused: false,
        kind: NodeKind::Output,
        nodes: workspaces,
        floating_nodes: vec![],
    };
    Node {
        id: 0,
        name: Some("root".to_string()),
        num: None,
        focused: false,
        kind: NodeKind::Other,
        nodes: vec![output],
        floating_nodes: vec![],
    }
}

#[test]
fn focus_next_target_stays_within_the_non_empty_bound() {
    let tree = single_output(vec![
        workspace(1, false, vec![window(false)]),
        workspace(2, false, vec![window(true)]),
        workspace(4, false, vec![window(false)]),
    ]);
    let workflow = get_workspaces_of(&tree).map(Workflow::new).unwrap();

    let actions = workflow.move_focus_to_next();

    let last_non_empty = 4;
    assert_eq!(actions, &[Action::MoveFocus { workspace_num: 3 }]);
    assert!(3 <= last_non_empty + 1);
}

#[test]
fn shift_renames_a_contiguous_pair_highest_first() {
    let tree = single_output(vec![
        workspace(5, true, vec![window(true)]),
        workspace(6, false, vec![window(false)]),
        workspace(7, false, vec![window(false)]),
        workspace(9, false, vec![window(false)]),
    ]);
    let workflow = get_workspaces_of(&tree).map(Workflow::new).unwrap();

    let actions = workflow.shift_successors();

    assert_eq!(
        actions,
        &[
            Action::RenameWorkspace {
                workspace_name: "7".to_owned(),
                new_workspace_name: "8".to_owned(),
            },
            Action::RenameWorkspace {
                workspace_name: "6".to_owned(),
                new_workspace_name: "7".to_owned(),
            },
        ],
    );
}

#[test]
fn focus_prev_noop_stays_a_noop_when_called_again() {
    let tree = single_output(vec![workspace(1, false, vec![window(true)])]);
    let workflow = get_workspaces_of(&tree).map(Workflow::new).unwrap();

    let first = workflow.move_focus_to_prev();
    let second = workflow.move_focus_to_prev();

    assert_eq!(first, &[]);
    assert_eq!(second, &[]);
}
