//! Connects leaf nodes to the [`Executor`] and [`Conditional`] that stand behind them.

use crate::control::{CTreeNodeID, LeafNode};
use crate::hashed::{map_get, map_insert, IdMap};
use crate::traits::{ActionHandler, Conditional, Executor, ExecutorHook};
use crate::Status;
use vstd::prelude::*;

verus! {

/// The action of a leaf: its kind, and its place among the actions of that
/// kind.
#[derive(Debug, Clone, Copy, PartialEq, Eq, Structural)]
pub enum TaskID {
    Executor(ExecutorID),
    Conditional(ConditionalID),
}

/// Place of an executor in a [`LeafDispatch`].
#[derive(Debug, Clone, Copy, PartialEq, Eq, Structural)]
pub struct ExecutorID(pub usize);

/// Place of a conditional in a [`LeafDispatch`].
#[derive(Debug, Clone, Copy, PartialEq, Eq, Structural)]
pub struct ConditionalID(pub usize);

/// What a [`LeafDispatch`] holds.
pub struct DispatchView<H: ActionHandler> {
    pub conditionals: Seq<H::Condition>,
    pub executors: Seq<H::Execute>,
    pub mask: Map<usize, TaskID>,
}

impl<H: ActionHandler> DispatchView<H> {
    /// The action that is dispatched for `leaf`: none for a leaf without an
    /// id, and none for a leaf that no action was assigned to.
    pub open spec fn task_for(self, leaf: LeafNode) -> Option<TaskID> {
        match leaf.id {
            Some(id) => if self.mask.contains_key(id.0) {
                Some(self.mask[id.0])
            } else {
                None
            },
            None => None,
        }
    }

    /// Whether the action of `leaf` may answer `status` on the blackboard
    /// `before` and leave it as `after`. A leaf that has no action fails. A
    /// conditional is shown the blackboard, and only an executor can change
    /// it.
    pub open spec fn answers(
        self,
        leaf: LeafNode,
        before: H::Bb,
        status: Status,
        after: H::Bb,
    ) -> bool {
        match self.task_for(leaf) {
            None => status == Status::Failure && after == before,
            Some(TaskID::Conditional(c)) => {
                &&& c.0 < self.conditionals.len()
                &&& after == before
                &&& self.conditionals[c.0 as int].evaluates(before, status)
            },
            Some(TaskID::Executor(e)) => {
                &&& e.0 < self.executors.len()
                &&& self.executors[e.0 as int].executes(before, status, after)
            },
        }
    }

    /// The blackboard was `boards[0]`, the actions of `leaves` were asked
    /// one after the other and answered `answers`; after each answer the
    /// blackboard was the next of `boards`.
    pub open spec fn answered_in_turn(
        self,
        boards: Seq<H::Bb>,
        leaves: Seq<LeafNode>,
        answers: Seq<Status>,
    ) -> bool {
        &&& boards.len() == leaves.len() + 1
        &&& answers.len() == leaves.len()
        &&& forall|i: int|
            0 <= i < leaves.len() ==> self.answers(
                #[trigger] leaves[i],
                boards[i],
                answers[i],
                boards[i + 1],
            )
    }

    /// `other` holds what a clone of `self` holds: the same assignment of
    /// actions to leaves, and action by action a clone.
    pub open spec fn copied_to(self, other: Self) -> bool {
        &&& other.mask == self.mask
        &&& other.executors.len() == self.executors.len()
        &&& other.conditionals.len() == self.conditionals.len()
        &&& forall|i: int|
            0 <= i < self.executors.len() ==> vstd::pervasive::cloned::<H::Execute>(
                self.executors[i],
                #[trigger] other.executors[i],
            )
        &&& forall|i: int|
            0 <= i < self.conditionals.len() ==> vstd::pervasive::cloned::<H::Condition>(
                self.conditionals[i],
                #[trigger] other.conditionals[i],
            )
    }

    /// Every action that is assigned to a leaf is held.
    pub open spec fn wf(self) -> bool {
        forall|id: usize| #[trigger]
            self.mask.contains_key(id) ==> match self.mask[id] {
                TaskID::Executor(e) => e.0 < self.executors.len(),
                TaskID::Conditional(c) => c.0 < self.conditionals.len(),
            }
    }
}

/// Dispatch to [`Conditional`]/[`Executor`] implementers when a [`LeafNode`] is ticked.
#[derive(Debug)]
pub struct LeafDispatch<Handler: ActionHandler> {
    /// Leaf nodes that are [`Conditional`] (read-only)
    conditionals: Vec<Handler::Condition>,
    /// Leaf nodes that are [`Executor`] (read-write)
    executors: Vec<Handler::Execute>,
    /// Maps which leaf node corresponds to which [`Executor`]/[`Conditional`]
    mask: IdMap<TaskID>,
}

impl<H: ActionHandler> View for LeafDispatch<H> {
    type V = DispatchView<H>;

    closed spec fn view(&self) -> DispatchView<H> {
        DispatchView {
            conditionals: self.conditionals@,
            executors: self.executors@,
            mask: self.mask@,
        }
    }
}

impl<H: ActionHandler> Clone for LeafDispatch<H> {
    fn clone(&self) -> (out: Self)
        ensures
            self@.copied_to(out@),
    {
        proof {
            use_type_invariant(self);
        }
        let conditionals = self.conditionals.clone();
        let executors = self.executors.clone();
        let mask = self.mask.clone();
        Self { conditionals, executors, mask }
    }
}

impl<H: ActionHandler> Default for LeafDispatch<H> {
    fn default() -> (out: Self)
        ensures
            out@.conditionals.len() == 0,
            out@.executors.len() == 0,
            out@.mask == Map::<usize, TaskID>::empty(),
    {
        let mask = IdMap::<TaskID>::default();
        assert(mask@ == Map::<usize, TaskID>::empty());
        Self { conditionals: Vec::new(), executors: Vec::new(), mask }
    }
}

impl<H: ActionHandler> LeafDispatch<H> {
    #[verifier::type_invariant]
    spec fn held(self) -> bool {
        self@.wf()
    }

    /// Assign an [`Executor`] to a particular [`CTreeNodeID`]
    pub fn add_executor(&mut self, id: CTreeNodeID, executor: H::Execute)
        ensures
            final(self)@.executors == old(self)@.executors.push(executor),
            final(self)@.conditionals == old(self)@.conditionals,
            final(self)@.mask == old(self)@.mask.insert(
                id.0,
                TaskID::Executor(ExecutorID(old(self)@.executors.len() as usize)),
            ),
    {
        proof {
            use_type_invariant(&*self);
        }
        // the mask is taken out while the executors grow, and put back with the new entry
        let mut mask = IdMap::default();
        std::mem::swap(&mut self.mask, &mut mask);
        let mut executors: Vec<H::Execute> = Vec::new();
        std::mem::swap(&mut self.executors, &mut executors);
        let target_id = TaskID::Executor(ExecutorID(executors.len()));
        executors.push(executor);
        std::mem::swap(&mut self.executors, &mut executors);
        map_insert(&mut mask, id.0, target_id);
        std::mem::swap(&mut self.mask, &mut mask);
    }

    /// Assign a [`Conditional`] to a particular [`CTreeNodeID`]
    pub fn add_conditional(&mut self, id: CTreeNodeID, conditional: H::Condition)
        ensures
            final(self)@.conditionals == old(self)@.conditionals.push(conditional),
            final(self)@.executors == old(self)@.executors,
            final(self)@.mask == old(self)@.mask.insert(
                id.0,
                TaskID::Conditional(ConditionalID(old(self)@.conditionals.len() as usize)),
            ),
    {
        proof {
            use_type_invariant(&*self);
        }
        // the mask is taken out while the conditionals grow, and put back with the new entry
        let mut mask = IdMap::default();
        std::mem::swap(&mut self.mask, &mut mask);
        let mut conditionals: Vec<H::Condition> = Vec::new();
        std::mem::swap(&mut self.conditionals, &mut conditionals);
        let target_id = TaskID::Conditional(ConditionalID(conditionals.len()));
        conditionals.push(conditional);
        std::mem::swap(&mut self.conditionals, &mut conditionals);
        map_insert(&mut mask, id.0, target_id);
        std::mem::swap(&mut self.mask, &mut mask);
    }

    /// The action that is dispatched for `leaf`. It is one that is held.
    pub fn task_for(&self, leaf: &LeafNode) -> (task: Option<TaskID>)
        ensures
            task == self@.task_for(*leaf),
            self@.wf(),
    {
        proof {
            use_type_invariant(self);
        }
        match leaf.id {
            Some(id) => match map_get(&self.mask, id.0) {
                Some(task) => Some(*task),
                None => None,
            },
            None => None,
        }
    }

    /// Asks the action of `leaf` for the status of the leaf, on
    /// `blackboard`.
    pub fn ask(&self, leaf: &LeafNode, blackboard: &mut H::Bb) -> (status: Status)
        ensures
            self@.answers(*leaf, *old(blackboard), status, *final(blackboard)),
    {
        match self.task_for(leaf) {
            None => Status::Failure,
            Some(TaskID::Executor(e)) => self.executor(e).execute(blackboard),
            Some(TaskID::Conditional(c)) => self.conditional(c).conditional(blackboard),
        }
    }

    /// The executor at `id`.
    pub fn executor(&self, id: ExecutorID) -> (out: &H::Execute)
        requires
            id.0 < self@.executors.len(),
        ensures
            *out == self@.executors[id.0 as int],
    {
        &self.executors[id.0]
    }

    /// The conditional at `id`.
    pub fn conditional(&self, id: ConditionalID) -> (out: &H::Condition)
        requires
            id.0 < self@.conditionals.len(),
        ensures
            *out == self@.conditionals[id.0 as int],
    {
        &self.conditionals[id.0]
    }
}

/// Short lived reference to a [`LeafDispatch`] and a `&mut` blackboard, to
/// dispatch [`Executor`] and [`Conditional`] behavior when leaf nodes are ticked.
pub struct TaskHook<'a, H: ActionHandler> {
    pub dispatch: &'a LeafDispatch<H>,
    pub blackboard: &'a mut H::Bb,
}

impl<H: ActionHandler> ExecutorHook for TaskHook<'_, H> {
    /// The action of the leaf answers, on the blackboard of the hook.
    open spec fn answers(&self, leaf: LeafNode, status: Status, after: &Self) -> bool {
        &&& after.dispatch == self.dispatch
        &&& self.dispatch@.answers(leaf, *self.blackboard, status, *after.blackboard)
    }

    fn hook(&mut self, leaf: &LeafNode) -> (status: Status) {
        self.dispatch.ask(leaf, self.blackboard)
    }
}

} // verus!
