//! The capabilities that the tree asks of its nodes and of its host.

use crate::control::{CTreeNodeID, ChildUpdate, ControlTree, LeafNode, TreeView};
use crate::Status;
use std::fmt::Debug;
use vstd::prelude::*;

verus! {

/// A node that can be ticked and told about its children.
pub trait Control {
    /// Whether the node may be told the outcome of a child. Leaves may not.
    spec fn takes_children(&self) -> bool;

    /// Tick the control node, returning the status of the node
    fn tick(&mut self) -> Status;

    /// Register the returned status from a child node
    fn child_updated(&mut self, update: ChildUpdate)
        requires
            old(self).takes_children(),
    ;

    /// Register the fact that all the children have now been seen.
    ///
    /// Sequences and parallels need to know this to reach a terminal status,
    /// otherwise they would be stuck in [`Status::Running`] forever.
    fn all_children_seen(&mut self);
}

/// Connector types that define what to do when the [`ControlTree`] ticks a leaf node.
pub trait ExecutorHook {
    /// Whether the hook, standing as `self`, may answer `status` when it is
    /// asked about `leaf`, and stand as `after` then. A hook that says
    /// nothing of itself may answer anything and become anything.
    open spec fn answers(&self, leaf: LeafNode, status: Status, after: &Self) -> bool {
        true
    }

    fn hook(&mut self, leaf: &LeafNode) -> (status: Status)
        ensures
            old(self).answers(*leaf, status, final(self)),
    ;
}

/// A unary control policy. Each method comes with the spec function that says
/// what it does, so that the tree can be reasoned about for any decorator.
pub trait Decorator: Clone {
    /// The decorator after [`Decorator::init`].
    spec fn initialized(&self) -> Self;

    /// The decorator after it was told `update`.
    spec fn told(&self, update: ChildUpdate) -> Self;

    /// The status that the decorator answers `update` with.
    spec fn answer(&self, update: ChildUpdate) -> Status;

    /// The status that the decorator reports.
    spec fn reported(&self) -> Status;

    /// The decorator after [`Decorator::reset`].
    spec fn cleared(&self) -> Self;

    /// The node that the decorator asks to have reset, if any.
    spec fn wanted_reset(&self) -> Option<CTreeNodeID>;

    /// The decorator after it was asked for its reset request.
    spec fn asked(&self) -> Self;

    /// Initialize the decorator
    fn init(&mut self)
        ensures
            *final(self) == old(self).initialized(),
    ;

    /// Apply the decorator to a [`ChildUpdate`]
    fn child_updated(&mut self, update: ChildUpdate) -> (status: Status)
        ensures
            *final(self) == old(self).told(update),
            status == old(self).answer(update),
    ;

    /// What is the current status of this node?
    fn status(&self) -> (status: Status)
        ensures
            status == self.reported(),
    ;

    fn reset(&mut self)
        ensures
            *final(self) == old(self).cleared(),
    ;

    fn name(&self) -> String;

    fn details(&self) -> Option<String> {
        None
    }

    /// Request that a branch gets reset
    fn reset_request(&mut self) -> (request: Option<CTreeNodeID>)
        ensures
            request == old(self).wanted_reset(),
            *final(self) == old(self).asked(),
    ;
}

/// Callback that can be used during the exploration of the [`ControlTree`].
/// Useful primarily for debuggers, for diagnosing the behavior inside the
/// control tree itself, regardless of what the leaf nodes are doing.
pub trait UpdateCallback<D: Decorator> {
    /// Whether the callback, standing as `self`, may stand as `after` when
    /// it has been shown `tree`. A callback that says nothing of itself may
    /// become anything.
    open spec fn sees(&self, tree: TreeView<D>, after: &Self) -> bool {
        true
    }

    /// Called on each noteworthy event of a run.
    fn callback(&mut self, state: &ControlTree<D>)
        ensures
            old(self).sees(state@, final(self)),
    ;
}

/// No-op callback
pub struct NoCallback;

impl<D: Decorator> UpdateCallback<D> for NoCallback {
    fn callback(&mut self, _state: &ControlTree<D>) {
    }
}

/// Leaf nodes that execute a task & update the state of the [`Blackboard`].
pub trait Executor<BB: Blackboard>: Clone + Debug {
    /// Whether the executor may answer `status` on the blackboard `before`
    /// and leave it as `after`. An executor that says nothing of itself may
    /// answer anything and leave anything.
    open spec fn executes(&self, before: BB, status: Status, after: BB) -> bool {
        true
    }

    fn execute(&self, blackboard: &mut BB) -> (status: Status)
        ensures
            self.executes(*old(blackboard), status, *final(blackboard)),
    ;

    /// Optional name shown for the leaf node
    fn name(&self) -> Option<String> {
        None
    }

    /// Optional details shown for the leaf node
    fn details(&self) -> Option<String> {
        None
    }
}

/// Leaf nodes that read the [`Blackboard`] and return a [`Status`] about it.
pub trait Conditional<BB: Blackboard>: Clone + Debug {
    /// Whether the conditional may answer `status` on `blackboard`. A
    /// conditional that says nothing of itself may answer anything.
    open spec fn evaluates(&self, blackboard: BB, status: Status) -> bool {
        true
    }

    fn conditional(&self, blackboard: &BB) -> (status: Status)
        ensures
            self.evaluates(*blackboard, status),
    ;

    /// Optional name shown for the leaf node
    fn name(&self) -> Option<String> {
        None
    }

    /// Optional details shown for the leaf node
    fn details(&self) -> Option<String> {
        None
    }
}

/// The blackboard is the shared state of the behavior tree that is updated by
/// [`Executor`] leaf nodes, and read by [`Conditional`] leaf nodes.
pub trait Blackboard: Default + Clone + Debug {
}

impl<T> Blackboard for T where T: Default + Clone + Debug {
}

pub trait ActionHandler: Clone {
    type Bb: Blackboard;

    type Execute: Executor<Self::Bb>;

    type Condition: Conditional<Self::Bb>;
}

} // verus!
