//! The parts that the project is made of.

use vstd::prelude::*;

verus! {

/// The name of the project.
pub const WORKSPACE_NAME: &'static str = "ask";

/// A part of the project.
#[derive(Clone, Copy, Debug, PartialEq, Eq)]
pub struct WorkspaceMember {
    /// The name of its package.
    pub package_name: &'static str,
    /// What it is for.
    pub role: &'static str,
}

/// The parts of the project: the shared logic first, the server second.
pub fn workspace_members() -> (members: &'static [WorkspaceMember])
    ensures
        members@.len() == 2,
        members@[0].package_name@ == "ask-core"@,
        members@[0].role@ == "shared domain logic and reusable primitives"@,
        members@[1].package_name@ == "ask-server"@,
        members@[1].role@ == "service runtime, API surface, and background work"@,
{
    &[
        WorkspaceMember {
            package_name: "ask-core",
            role: "shared domain logic and reusable primitives",
        },
        WorkspaceMember {
            package_name: "ask-server",
            role: "service runtime, API surface, and background work",
        },
    ]
}

} // verus!
