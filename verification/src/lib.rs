//! Planning library for navigating and renumbering the workspaces of a
//! tiling window manager session.
//!
//! The library is pure: it takes an immutable snapshot of the window tree,
//! derives the set of numbered workspaces per output, and computes an ordered
//! list of actions (focus moves, container moves, renames) for one of five
//! navigation operations. Executing the actions against the live session is
//! left to the caller.

pub mod digits;
pub mod node;
pub mod tree_error;
pub mod workflow;
pub mod workspace;

pub use crate::digits::format_number;
pub use crate::digits::format_signed;
pub use crate::digits::split_leading_number;
pub use crate::node::Node;
pub use crate::node::NodeKind;
pub use crate::tree_error::TreeError;
pub use crate::workflow::Action;
pub use crate::workflow::ActionView;
pub use crate::workflow::Workflow;
pub use crate::workspace::get_workspaces_of;
pub use crate::workspace::SwayWorkspace;
pub use crate::workspace::Workspaces;
pub use crate::workspace::WorkspaceView;
