//! Behavior trees: a control skeleton of sequences, fallbacks, parallels and
//! decorators whose leaves are ticked through a user supplied hook.
//!
//! Leaf nodes perform some action and return one of three states: success,
//! failure, or running. All other nodes determine how the traversal is done;
//! they decide which leaves are executed and in what order.
//!
//! - [`control`] holds the tree: its nodes and their state machines, the
//!   edits of its structure, the rules that make it a behavior tree, and the
//!   run. What a run is, is defined on the views of the tree, and the
//!   traversal is proved to perform it.
//! - [`executor_mask`] maps leaves to the actions of a host, and [`bt`] puts
//!   a tree and its actions together.
//! - [`traits`] are the capabilities that the tree asks of its host.
//! - [`hashed`] gathers what is assumed of the hashed collections.

use control::CTreeNodeID;
use vstd::prelude::*;

pub mod bt;
pub mod control;
pub mod executor_mask;
pub mod hashed;
pub mod prelude;
pub mod traits;

verus! {

/// What makes a structure unfit to be a behavior tree.
#[derive(Debug, Clone, PartialEq, Eq)]
pub enum ShrubberyError {
    /// The nodes of a cycle, from a node back to itself
    CycleDetected(Vec<CTreeNodeID>),
    /// A control node without children
    DanglingControlNode(CTreeNodeID),
    /// A decorator must have exactly one child
    InvalidDecorator { decorator: CTreeNodeID, children: Vec<CTreeNodeID> },
}

pub type ShrubberyResult<T> = Result<T, ShrubberyError>;

/// Outcome of ticking a node.
#[derive(Debug, Clone, Copy, PartialEq, Eq, Hash, Structural)]
pub enum Status {
    /// Node succeeded
    Success,
    /// Node failed
    Failure,
    /// Node is still running. For a control node this means that the execution
    /// flow continues in its children.
    Running,
}

impl Status {
    /// [`Status::Running`] becomes [`Status::Failure`]; terminal statuses stay.
    pub open spec fn demoted(self) -> Status {
        if self == Status::Running {
            Status::Failure
        } else {
            self
        }
    }

    /// Success and failure swap; running stays running.
    pub open spec fn negated(self) -> Status {
        match self {
            Status::Success => Status::Failure,
            Status::Failure => Status::Success,
            Status::Running => Status::Running,
        }
    }

    /// The status that a missing cached status stands for.
    pub open spec fn or_running(status: Option<Status>) -> Status {
        match status {
            Some(s) => s,
            None => Status::Running,
        }
    }

    pub fn into_failure_if_running(self) -> (out: Self)
        ensures
            out == self.demoted(),
    {
        if self.is_running() {
            Status::Failure
        } else {
            self
        }
    }

    /// What `!self` gives.
    pub(crate) fn inverted(self) -> (out: Self)
        ensures
            out == self.negated(),
    {
        match self {
            Status::Success => Status::Failure,
            Status::Failure => Status::Success,
            Status::Running => Status::Running,
        }
    }

    pub fn is_terminal(&self) -> (out: bool)
        ensures
            out == (*self != Status::Running),
    {
        self.is_success() || self.is_failure()
    }

    pub fn is_running(&self) -> (out: bool)
        ensures
            out == (*self == Status::Running),
    {
        matches!(self, Status::Running)
    }

    pub fn is_success(&self) -> (out: bool)
        ensures
            out == (*self == Status::Success),
    {
        matches!(self, Status::Success)
    }

    pub fn is_failure(&self) -> (out: bool)
        ensures
            out == (*self == Status::Failure),
    {
        matches!(self, Status::Failure)
    }
}

impl Default for Status {
    fn default() -> (out: Self)
        ensures
            out == Status::Running,
    {
        Status::Running
    }
}

impl vstd::std_specs::ops::NotSpecImpl for Status {
    open spec fn obeys_not_spec() -> bool {
        true
    }

    open spec fn not_req(self) -> bool {
        true
    }

    open spec fn not_spec(self) -> Status {
        self.negated()
    }
}

impl std::ops::Not for Status {
    type Output = Self;

    /// Invert the status. Note that `!Running == Running`.
    fn not(self) -> (out: Self) {
        self.inverted()
    }
}

/// `From<T> for T` of std, by which a value converts into its own type: the
/// conversion is reflexive, and hands back the value that it is given.
pub assume_specification<Same>[ <Same as std::convert::From<Same>>::from ](t: Same) -> (out: Same)
    ensures
        out == t,
;

impl vstd::std_specs::convert::FromSpecImpl<bool> for Status {
    open spec fn obeys_from_spec() -> bool {
        true
    }

    open spec fn from_spec(val: bool) -> Status {
        if val {
            Status::Success
        } else {
            Status::Failure
        }
    }
}

impl From<bool> for Status {
    fn from(val: bool) -> (out: Self)
    {
        if val {
            Status::Success
        } else {
            Status::Failure
        }
    }
}

} // verus!
