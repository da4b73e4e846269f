//! Fatal errors raised while deriving the workspace set from a tree snapshot.

use vstd::prelude::*;
use crate::digits::format_signed;
use crate::digits::signed_dec_digits;

verus! {

/// A fatal problem found while deriving the workspace set from a tree
/// snapshot. Any of these aborts the whole invocation: no actions are
/// planned on a snapshot that does not describe a valid workspace set.
#[derive(Clone, Copy, Debug, PartialEq, Eq, Structural)]
pub enum TreeError {
    /// The workspace node with the given id has no display name with a
    /// parsable leading number.
    MissingWorkspaceNumber(i64),
    /// The output node with the given id has no name.
    MissingOutputName(i64),
    /// No workspace of the snapshot holds input focus.
    NoFocusedWorkspace(),
    /// More than one workspace of the snapshot holds input focus.
    MultipleFocusedWorkspaces(),
}

impl TreeError {
    /// The characters of the error's human-readable description.
    pub open spec fn spec_message(self) -> Seq<char> {
        match self {
            TreeError::MissingWorkspaceNumber(id) => "The name of the workspace with id "@
                + signed_dec_digits(id as int) + " has no leading number"@,
            TreeError::MissingOutputName(id) => "The output with id "@ + signed_dec_digits(
                id as int,
            ) + " doesn't have a name"@,
            TreeError::NoFocusedWorkspace() => "Could not find a workspace which has focus"@,
            TreeError::MultipleFocusedWorkspaces() => "Found more than one focused workspace"@,
        }
    }

    /// A human-readable description of the error.
    pub fn message(&self) -> (r: String)
        ensures
            r@ == self.spec_message(),
    {
        match self {
            TreeError::MissingWorkspaceNumber(id) => {
                let mut s = String::new();
                s.append("The name of the workspace with id ");
                let n = format_signed(*id);
                s.append(n.as_str());
                s.append(" has no leading number");
                proof {
                    assert(s@ =~= self.spec_message());
                }
                s
            },
            TreeError::MissingOutputName(id) => {
                let mut s = String::new();
                s.append("The output with id ");
                let n = format_signed(*id);
                s.append(n.as_str());
                s.append(" doesn't have a name");
                proof {
                    assert(s@ =~= self.spec_message());
                }
                s
            },
            TreeError::NoFocusedWorkspace() => {
                let mut s = String::new();
                s.append("Could not find a workspace which has focus");
                proof {
                    assert(s@ =~= self.spec_message());
                }
                s
            },
            TreeError::MultipleFocusedWorkspaces() => {
                let mut s = String::new();
                s.append("Found more than one focused workspace");
                proof {
                    assert(s@ =~= self.spec_message());
                }
                s
            },
        }
    }
}

} // verus!
