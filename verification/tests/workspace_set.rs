use sway_workspace_extras::Node;
use sway_workspace_extras::NodeKind;
use sway_workspace_extras::SwayWorkspace;
use sway_workspace_extras::TreeError;
use sway_workspace_extras::Workspaces;

fn output_node(name: &str) -> Node {
    Node {
        id: 1,
        name: Some(name.to_string()),
        num: None,
        focused: false,
        kind: NodeKind::Output,
        nodes: vec![],
        floating_nodes: vec![],
    }
}

fn workspace_node(num: i64, focused: bool) -> Node {
    Node {
        id: 2,
        name: Some(num.to_string()),
        num: Some(num),
        focused,
        kind: NodeKind::Workspace,
        nodes: vec![],
        floating_nodes: vec![],
    }
}

fn derived(num: i64, focused: bool) -> SwayWorkspace {
    let output = output_node("out-1");
    let workspace = workspace_node(num, focused);
    SwayWorkspace::new_from_output_and_workspace_nodes(&output, &workspace).unwrap()
}

#[test]
fn orders_workspaces_by_number() {
    let set = Workspaces::new(vec![derived(3, false), derived(1, false), derived(2, true)])
        .unwrap();

    assert_eq!(set.focused_workspace().workspace_number(), 2);
    let successors: Vec<i64> =
        set.successors_of_focused().iter().map(|w| w.workspace_number()).collect();
    let predecessors: Vec<i64> =
        set.predecessors_of_focused().iter().map(|w| w.workspace_number()).collect();
    assert_eq!(successors, vec![3]);
    assert_eq!(predecessors, vec![1]);
}

#[test]
fn walks_successors_up_and_predecessors_down() {
    let set = Workspaces::new(vec![
        derived(5, false),
        derived(2, true),
        derived(1, false),
        derived(3, false),
    ])
    .unwrap();

    let successors: Vec<i64> =
        set.successors_of_focused().iter().map(|w| w.workspace_number()).collect();
    let predecessors: Vec<i64> =
        set.predecessors_of_focused().iter().map(|w| w.workspace_number()).collect();
    assert_eq!(successors, vec![3, 5]);
    assert_eq!(predecessors, vec![1]);
    assert_eq!(set.successor_of_focused().unwrap().workspace_number(), 3);
    assert_eq!(set.predecessor_of_focused().unwrap().workspace_number(), 1);
}

#[test]
fn a_lone_focused_workspace_has_no_neighbours() {
    let set = Workspaces::new(vec![derived(1, true)]).unwrap();

    assert!(set.successor_of_focused().is_none());
    assert!(set.predecessor_of_focused().is_none());
    assert!(set.successors_of_focused().is_empty());
    assert!(set.predecessors_of_focused().is_empty());
}

#[test]
fn construction_demands_exactly_one_focused_member() {
    let none = Workspaces::new(vec![derived(1, false)]);
    let two = Workspaces::new(vec![derived(1, true), derived(2, true)]);

    assert_eq!(none.unwrap_err(), TreeError::NoFocusedWorkspace());
    assert_eq!(two.unwrap_err(), TreeError::MultipleFocusedWorkspaces());
}
