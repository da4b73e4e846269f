use sway_workspace_extras::get_workspaces_of;
use sway_workspace_extras::Node;
use sway_workspace_extras::NodeKind;
use sway_workspace_extras::SwayWorkspace;
use sway_workspace_extras::TreeError;

fn node(id: i64, name: Option<&str>, kind: NodeKind, focused: bool, children: Vec<Node>) -> Node {
    Node {
        id,
        name: name.map(|n| n.to_string()),
        num: None,
        focused,
        kind,
        nodes: children,
        floating_nodes: vec![],
    }
}

fn ws(id: i64, name: Option<&str>, focused: bool, children: Vec<Node>) -> Node {
    node(id, name, NodeKind::Workspace, focused, children)
}

fn out(id: i64, name: Option<&str>, children: Vec<Node>) -> Node {
    node(id, name, NodeKind::Output, false, children)
}

fn tree(outputs: Vec<Node>) -> Node {
    node(1, Some("root"), NodeKind::Other, false, outputs)
}

#[test]
fn workspace_without_name_is_an_error() {
    let t = tree(vec![out(2, Some("out-1"), vec![ws(7, None, true, vec![])])]);

    let r = get_workspaces_of(&t);

    assert_eq!(r.unwrap_err(), TreeError::MissingWorkspaceNumber(7));
}

#[test]
fn workspace_without_leading_number_is_an_error() {
    let t = tree(vec![out(2, Some("out-1"), vec![ws(8, Some("editor"), true, vec![])])]);

    let r = get_workspaces_of(&t);

    assert_eq!(r.unwrap_err(), TreeError::MissingWorkspaceNumber(8));
}

#[test]
fn workspace_with_oversized_number_is_an_error() {
    let t = tree(vec![out(2, Some("out-1"), vec![ws(9, Some("99999999999: big"), true, vec![])])]);

    let r = get_workspaces_of(&t);

    assert_eq!(r.unwrap_err(), TreeError::MissingWorkspaceNumber(9));
}

#[test]
fn output_without_name_is_an_error() {
    let t = tree(vec![out(4, None, vec![ws(5, Some("1"), true, vec![])])]);

    let r = get_workspaces_of(&t);

    assert_eq!(r.unwrap_err(), TreeError::MissingOutputName(4));
}

#[test]
fn missing_focus_is_an_error() {
    let t = tree(vec![out(2, Some("out-1"), vec![ws(3, Some("1"), false, vec![])])]);

    let r = get_workspaces_of(&t);

    assert_eq!(r.unwrap_err(), TreeError::NoFocusedWorkspace());
}

#[test]
fn twofold_focus_is_an_error() {
    let t = tree(vec![out(
        2,
        Some("out-1"),
        vec![ws(3, Some("1"), true, vec![]), ws(4, Some("2"), true, vec![])],
    )]);

    let r = get_workspaces_of(&t);

    assert_eq!(r.unwrap_err(), TreeError::MultipleFocusedWorkspaces());
}

#[test]
fn the_first_broken_workspace_in_tree_order_is_reported() {
    let t = tree(vec![out(
        2,
        Some("out-1"),
        vec![ws(3, None, false, vec![]), ws(4, Some("x"), true, vec![])],
    )]);

    let r = get_workspaces_of(&t);

    assert_eq!(r.unwrap_err(), TreeError::MissingWorkspaceNumber(3));
}

#[test]
fn scratchpad_is_excluded_from_extraction() {
    let scratch_out = out(10, Some("__i3"), vec![ws(11, Some("__i3_scratch"), false, vec![])]);
    let t = tree(vec![
        scratch_out,
        out(2, Some("out-1"), vec![ws(3, Some("1"), true, vec![])]),
    ]);

    let r = get_workspaces_of(&t);

    assert!(r.is_ok());
}

#[test]
fn workspace_fields_are_derived_from_the_nodes() {
    let o = out(2, Some("out-1"), vec![]);
    let w = ws(3, Some("2: editor"), false, vec![node(4, Some("Window"), NodeKind::Other, true, vec![])]);

    let sw = SwayWorkspace::new_from_output_and_workspace_nodes(&o, &w).unwrap();

    assert_eq!(sw.workspace_name(), "2: editor");
    assert_eq!(sw.workspace_name_without_number(), ": editor");
    assert_eq!(sw.workspace_number(), 2);
    assert_eq!(sw.output_name(), "out-1");
    assert!(sw.contains_windows());
    assert!(sw.is_focused());
    assert!(!sw.contains_not_focused_container());
}

#[test]
fn all_digit_name_has_empty_suffix() {
    let o = out(2, Some("out-1"), vec![]);
    let w = ws(3, Some("10"), false, vec![]);

    let sw = SwayWorkspace::new_from_output_and_workspace_nodes(&o, &w).unwrap();

    assert_eq!(sw.workspace_number(), 10);
    assert_eq!(sw.workspace_name_without_number(), "");
    assert!(!sw.contains_windows());
}

#[test]
fn leading_zeros_parse_to_their_value() {
    let o = out(2, Some("out-1"), vec![]);
    let w = ws(3, Some("007: spy"), false, vec![]);

    let sw = SwayWorkspace::new_from_output_and_workspace_nodes(&o, &w).unwrap();

    assert_eq!(sw.workspace_number(), 7);
    assert_eq!(sw.workspace_name_without_number(), ": spy");
}

#[test]
fn error_messages_name_the_node() {
    assert_eq!(
        TreeError::MissingWorkspaceNumber(42).message(),
        "The name of the workspace with id 42 has no leading number",
    );
    assert_eq!(
        TreeError::MissingOutputName(-3).message(),
        "The output with id -3 doesn't have a name",
    );
    assert_eq!(
        TreeError::NoFocusedWorkspace().message(),
        "Could not find a workspace which has focus",
    );
    assert_eq!(
        TreeError::MultipleFocusedWorkspaces().message(),
        "Found more than one focused workspace",
    );
}
