//! The full behavior tree: a control tree with the actions of its leaves.

use crate::control::decorators::StandardDecorator;
use crate::control::engine::{asked_in_turn, shown_in_turn};
use crate::control::{ControlTree, LeafNode, TreeView};
use crate::executor_mask::{DispatchView, LeafDispatch};
use crate::traits::{ActionHandler, Decorator, ExecutorHook, NoCallback, UpdateCallback};
use crate::Status;
use builder::BTBuilder;
use vstd::prelude::*;

pub mod builder;

verus! {

/// A [`LeafDispatch`] and the blackboard itself, held for the length of a
/// run.
struct HeldHook<'a, H: ActionHandler> {
    dispatch: &'a LeafDispatch<H>,
    blackboard: H::Bb,
}

impl<H: ActionHandler> ExecutorHook for HeldHook<'_, H> {
    /// The action of the leaf answers, on the blackboard that is held.
    closed spec fn answers(&self, leaf: LeafNode, status: Status, after: &Self) -> bool {
        &&& after.dispatch == self.dispatch
        &&& self.dispatch@.answers(leaf, self.blackboard, status, after.blackboard)
    }

    fn hook(&mut self, leaf: &LeafNode) -> (status: Status) {
        self.dispatch.ask(leaf, &mut self.blackboard)
    }
}

/// A held hook keeps its actions.
proof fn lemma_held_keeps_actions<H: ActionHandler>(
    states: Seq<HeldHook<'_, H>>,
    leaves: Seq<LeafNode>,
    answers: Seq<Status>,
    upto: int,
)
    requires
        asked_in_turn::<HeldHook<'_, H>>(states, leaves, answers),
        0 <= upto < states.len(),
    ensures
        states[upto].dispatch == states[0].dispatch,
    decreases upto,
{
    if upto > 0 {
        lemma_held_keeps_actions(states, leaves, answers, upto - 1);
        assert(states[upto - 1].answers(
            leaves[upto - 1],
            answers[upto - 1],
            &states[upto - 1 + 1],
        ));
    }
}

/// The blackboards that a held hook went through are those that its
/// actions answered on in turn.
proof fn lemma_held_in_turn<H: ActionHandler>(
    states: Seq<HeldHook<'_, H>>,
    leaves: Seq<LeafNode>,
    answers: Seq<Status>,
)
    requires
        asked_in_turn::<HeldHook<'_, H>>(states, leaves, answers),
    ensures
        states[0].dispatch@.answered_in_turn(
            Seq::new(states.len(), |i: int| states[i].blackboard),
            leaves,
            answers,
        ),
{
    let boards = Seq::new(states.len(), |i: int| states[i].blackboard);
    assert forall|i: int| 0 <= i < leaves.len() implies states[0].dispatch@.answers(
        #[trigger] leaves[i],
        boards[i],
        answers[i],
        boards[i + 1],
    ) by {
        lemma_held_keeps_actions(states, leaves, answers, i);
        assert(states[i].answers(leaves[i], answers[i], &states[i + 1]));
    }
}

/// Behavior Tree with [`Executor`](crate::traits::Executor) and
/// [`Conditional`](crate::traits::Conditional) dispatch
#[derive(Debug)]
pub struct ShrubberyBT<Handler: ActionHandler, Decor: Decorator = StandardDecorator> {
    pub(crate) control_tree: ControlTree<Decor>,
    pub(crate) dispatch: LeafDispatch<Handler>,
}

impl<H: ActionHandler, D: Decorator> Clone for ShrubberyBT<H, D> {
    fn clone(&self) -> (out: Self)
        ensures
            self.tree().copied_to(out.tree()),
            self.actions().copied_to(out.actions()),
    {
        proof {
            use_type_invariant(self);
        }
        Self { control_tree: self.control_tree.clone(), dispatch: self.dispatch.clone() }
    }
}

impl<H: ActionHandler, D: Decorator> Default for ShrubberyBT<H, D> {
    fn default() -> (out: Self)
        ensures
            out.tree() == TreeView::<D>::sapling(),
            out.actions().mask == Map::<usize, crate::executor_mask::TaskID>::empty(),
    {
        Self { control_tree: ControlTree::new(), dispatch: LeafDispatch::default() }
    }
}

impl<H: ActionHandler, D: Decorator> ShrubberyBT<H, D> {
    #[verifier::type_invariant]
    spec fn well_formed(self) -> bool {
        self.control_tree@.wf()
    }

    /// The control tree.
    pub closed spec fn tree(&self) -> TreeView<D> {
        self.control_tree@
    }

    /// The actions of the leaves.
    pub closed spec fn actions(&self) -> DispatchView<H> {
        self.dispatch@
    }

    pub fn new() -> (out: Self)
        ensures
            out.tree() == TreeView::<D>::sapling(),
            out.actions().mask == Map::<usize, crate::executor_mask::TaskID>::empty(),
    {
        Self::default()
    }

    pub fn builder() -> (out: BTBuilder<H, D>)
        ensures
            out.tree() == TreeView::<D>::sapling(),
            out.actions().mask == Map::<usize, crate::executor_mask::TaskID>::empty(),
    {
        BTBuilder::new()
    }

    pub fn into_builder(self) -> (out: BTBuilder<H, D>)
        ensures
            out.tree() == self.tree(),
            out.actions() == self.actions(),
    {
        proof {
            use_type_invariant(&self);
        }
        BTBuilder::assemble(self.control_tree.into_builder(), self.dispatch)
    }

    /// Puts a valid tree and the actions of its leaves together.
    pub(crate) fn assemble(control_tree: ControlTree<D>, dispatch: LeafDispatch<H>) -> (out: Self)
        requires
            control_tree@.wf(),
        ensures
            out.tree() == control_tree@,
            out.actions() == dispatch@,
    {
        Self { control_tree, dispatch }
    }

    /// The control tree, to look at.
    pub fn control_tree(&self) -> (out: &ControlTree<D>)
        ensures
            out@ == self.tree(),
            out@.wf(),
    {
        proof {
            use_type_invariant(self);
        }
        &self.control_tree
    }

    /// Runs the tree until its root has reached a terminal status: each
    /// leaf that the run comes to is answered by its action, which reads or
    /// changes the blackboard, and a leaf without an action fails. The
    /// blackboard goes from action to action, and is handed back as the last
    /// one left it.
    pub fn run(&mut self, blackboard: &mut H::Bb) -> (out: Status)
        ensures
            out == final(self).tree().status(),
            old(self).tree().same_shape(final(self).tree()),
            final(self).actions() == old(self).actions(),
            exists|answers: Seq<Status>, boards: Seq<H::Bb>|
                {
                    &&& #[trigger] old(self).actions().answered_in_turn(
                        boards,
                        old(self).tree().run_leaves(answers, usize::MAX as nat, usize::MAX as nat),
                        answers,
                    )
                    &&& boards.first() == *old(blackboard)
                    &&& boards.last() == *final(blackboard)
                    &&& old(self).tree().run(answers, usize::MAX as nat, usize::MAX as nat) == (
                        final(self).tree(),
                        Seq::<Status>::empty(),
                    )
                    &&& forall|rest: Seq<Status>|
                        #[trigger] old(self).tree().run(
                            answers + rest,
                            usize::MAX as nat,
                            usize::MAX as nat,
                        ) == (final(self).tree(), rest)
                    &&& out == Status::Running ==> old(self).tree().run_rounds(
                        answers,
                        usize::MAX as nat,
                        usize::MAX as nat,
                    ) == usize::MAX
                },
    {
        let mut no_callback = NoCallback;
        self.run_with_update_callback(blackboard, &mut no_callback)
    }

    /// [`Self::run`], with a callback on each noteworthy event of the run.
    pub fn run_with_update_callback<Callback: UpdateCallback<D>>(
        &mut self,
        blackboard: &mut H::Bb,
        cb: &mut Callback,
    ) -> (out: Status)
        ensures
            out == final(self).tree().status(),
            old(self).tree().same_shape(final(self).tree()),
            final(self).actions() == old(self).actions(),
            exists|answers: Seq<Status>, boards: Seq<H::Bb>, seen: Seq<Callback>|
                #![trigger
                    old(self).actions().answered_in_turn(
                        boards,
                        old(self).tree().run_leaves(answers, usize::MAX as nat, usize::MAX as nat),
                        answers,
                    ),
                    shown_in_turn::<D, Callback>(
                        seen,
                        old(self).tree().run_shown(answers, usize::MAX as nat, usize::MAX as nat),
                    ),
                ]
                {
                    &&& old(self).actions().answered_in_turn(
                        boards,
                        old(self).tree().run_leaves(answers, usize::MAX as nat, usize::MAX as nat),
                        answers,
                    )
                    &&& boards.first() == *old(blackboard)
                    &&& boards.last() == *final(blackboard)
                    &&& shown_in_turn::<D, Callback>(
                        seen,
                        old(self).tree().run_shown(answers, usize::MAX as nat, usize::MAX as nat),
                    )
                    &&& seen.first() == *old(cb)
                    &&& seen.last() == *final(cb)
                    &&& old(self).tree().run(answers, usize::MAX as nat, usize::MAX as nat) == (
                        final(self).tree(),
                        Seq::<Status>::empty(),
                    )
                    &&& forall|rest: Seq<Status>|
                        #[trigger] old(self).tree().run(
                            answers + rest,
                            usize::MAX as nat,
                            usize::MAX as nat,
                        ) == (final(self).tree(), rest)
                    &&& out == Status::Running ==> old(self).tree().run_rounds(
                        answers,
                        usize::MAX as nat,
                        usize::MAX as nat,
                    ) == usize::MAX
                },
    {
        proof {
            use_type_invariant(&*self);
        }
        let mut control_tree = ControlTree::new();
        std::mem::swap(&mut self.control_tree, &mut control_tree);
        let ghost before = control_tree@;
        // the blackboard is held by the hook for the run, and handed back after it
        let mut held = HeldHook { dispatch: &self.dispatch, blackboard: H::Bb::default() };
        std::mem::swap(blackboard, &mut held.blackboard);
        let ghost hook_before = held;
        let status = control_tree.run_with_update_callback(&mut held, cb);
        let ghost hook_after = held;
        std::mem::swap(blackboard, &mut held.blackboard);
        let ghost ran = control_tree@;
        proof {
            crate::control::engine::lemma_shape_wf(before, ran);
        }
        std::mem::swap(&mut self.control_tree, &mut control_tree);
        proof {
            assert(old(self).tree() == before);
            assert(self.tree() == ran);
            let (answers, states, seen) = choose|
                answers: Seq<Status>,
                states: Seq<HeldHook<H>>,
                seen: Seq<Callback>,
            |
                #![trigger
                    asked_in_turn::<HeldHook<H>>(
                        states,
                        before.run_leaves(answers, usize::MAX as nat, usize::MAX as nat),
                        answers,
                    ),
                    shown_in_turn::<D, Callback>(
                        seen,
                        before.run_shown(answers, usize::MAX as nat, usize::MAX as nat),
                    ),
                ]
                {
                    &&& asked_in_turn::<HeldHook<H>>(
                        states,
                        before.run_leaves(answers, usize::MAX as nat, usize::MAX as nat),
                        answers,
                    )
                    &&& states.first() == hook_before
                    &&& states.last() == hook_after
                    &&& shown_in_turn::<D, Callback>(
                        seen,
                        before.run_shown(answers, usize::MAX as nat, usize::MAX as nat),
                    )
                    &&& seen.first() == *old(cb)
                    &&& seen.last() == *cb
                    &&& before.run(answers, usize::MAX as nat, usize::MAX as nat) == (
                        ran,
                        Seq::<Status>::empty(),
                    )
                    &&& forall|rest: Seq<Status>|
                        #[trigger] before.run(
                            answers + rest,
                            usize::MAX as nat,
                            usize::MAX as nat,
                        ) == (ran, rest)
                    &&& status == Status::Running ==> before.run_rounds(
                        answers,
                        usize::MAX as nat,
                        usize::MAX as nat,
                    ) == usize::MAX
                };
            let leaves = before.run_leaves(answers, usize::MAX as nat, usize::MAX as nat);
            let boards = Seq::new(states.len(), |i: int| states[i].blackboard);
            lemma_held_in_turn(states, leaves, answers);
            assert(old(self).actions().answered_in_turn(boards, leaves, answers));
            assert(boards.first() == *old(blackboard));
            assert(boards.last() == *final(blackboard));
            assert(shown_in_turn::<D, Callback>(
                seen,
                old(self).tree().run_shown(answers, usize::MAX as nat, usize::MAX as nat),
            ));
        }
        status
    }
}

} // verus!
