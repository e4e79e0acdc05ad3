//! Which leaves a run from a sequence or a fallback asks the hook about,
//! and what the run comes to, where the hook answers by the leaf.

use super::engine::{asked_in_turn, later_answers, next_answer};
use super::laws::{
    lemma_fallback_pass, lemma_parallel_pass, lemma_parallel_succeeds_iff_all_do,
    lemma_sequence_pass,
};
use super::control_nodes::ControlNodeTypeView;
use super::{CTreeNodeID, CTreeNodeView, ChildUpdate, LeafNode, TreeView};
use crate::traits::{Decorator, ExecutorHook};
use crate::Status;
use vstd::prelude::*;

verus! {

impl<D: Decorator> TreeView<D> {
    /// The first `count` of `children`, which are leaves, as they stand in
    /// the tree.
    pub open spec fn leaves_upto(self, children: Seq<CTreeNodeID>, count: int) -> Seq<LeafNode> {
        Seq::new(count as nat, |i: int| self.nodes[children[i].0 as int]->Leaf_0)
    }

    /// The tree after the leaf `child` of `node` was visited in a pass and
    /// answered `status`.
    pub open spec fn answered(self, node: usize, child: CTreeNodeID, status: Status) -> Self {
        self.tick(node).with_node(
            child.0,
            self.tick(node).nodes[child.0 as int].with_status(Some(status)),
        ).tell(node, ChildUpdate { status, child_id: child })
    }
}

impl<D: Decorator> CTreeNodeView<D> {
    /// Two nodes of one kind: both the root or both not, and with a payload
    /// of the same policy.
    pub open spec fn same_kind(self, other: Self) -> bool {
        match (self, other) {
            (CTreeNodeView::Root(a), CTreeNodeView::Root(b)) => a.node_type.same_policy(
                b.node_type,
            ),
            (CTreeNodeView::Control(a), CTreeNodeView::Control(b)) => a.node_type.same_policy(
                b.node_type,
            ),
            (CTreeNodeView::Leaf(_), CTreeNodeView::Leaf(_)) => true,
            _ => false,
        }
    }
}

impl<D: Decorator> ControlNodeTypeView<D> {
    /// Two payloads of one policy.
    pub open spec fn same_policy(self, other: Self) -> bool {
        match (self, other) {
            (ControlNodeTypeView::Sequence(_), ControlNodeTypeView::Sequence(_)) => true,
            (ControlNodeTypeView::Fallback(_), ControlNodeTypeView::Fallback(_)) => true,
            (ControlNodeTypeView::Parallel(_), ControlNodeTypeView::Parallel(_)) => true,
            (ControlNodeTypeView::Decorator(_), ControlNodeTypeView::Decorator(_)) => true,
            _ => false,
        }
    }
}

/// A hook of this kind answers nothing but `status` for `leaf`.
pub open spec fn answers_only<Hook: ExecutorHook>(leaf: LeafNode, status: Status) -> bool {
    forall|before: Hook, answer: Status, after: Hook| #[trigger]
        before.answers(leaf, answer, &after) ==> answer == status
}

/// The first visit of a pass of a running sequence over leaves: the first
/// leaf is asked, and the pass goes on from the tree in which it has
/// answered.
pub proof fn lemma_sequence_first_visit<D: Decorator>(
    tree: TreeView<D>,
    node: usize,
    children: Seq<CTreeNodeID>,
    answers: Seq<Status>,
    limit: nat,
)
    requires
        node < tree.nodes.len(),
        tree.nodes[node as int].is_open_sequence(),
        tree.leaves_to_run(children),
        children.len() > 0,
    ensures
        ({
            let told = tree.answered(node, children[0], next_answer(answers));
            &&& tree.pass(node, children, answers, limit) == told.pass(
                node,
                children.skip(1),
                later_answers(answers),
                limit,
            )
            &&& tree.pass_leaves(node, children, answers, limit) == seq![
                tree.nodes[children[0].0 as int]->Leaf_0,
            ] + told.pass_leaves(node, children.skip(1), later_answers(answers), limit)
            &&& told.nodes.len() == tree.nodes.len()
            &&& told.leaves_to_run(children.skip(1))
            &&& forall|i: int|
                0 <= i < children.len() - 1 ==> told.nodes[(#[trigger] children.skip(1)[i]).0 as int]
                    == tree.nodes[children[i + 1].0 as int]
            &&& next_answer(answers) == Status::Success ==> told.nodes[node as int].is_open_sequence()
            &&& next_answer(answers) == Status::Failure ==> told.nodes[node as int].tick_status()
                == Status::Failure
        }),
{
    let first = children[0];
    let rest = children.skip(1);
    let ticked = tree.tick(node);
    let status = next_answer(answers);
    let told = tree.answered(node, first, status);
    assert(tree.nodes[node as int].tick_status() == Status::Running);
    assert(ticked.nodes[first.0 as int] == tree.nodes[first.0 as int]);
    assert(ticked.visit(node, first, answers, limit) == (told, later_answers(answers)));
    assert(ticked.visit_leaves(node, first, answers, limit) == seq![
        tree.nodes[first.0 as int]->Leaf_0,
    ]);
    assert forall|i: int| 0 <= i < rest.len() implies told.nodes[(#[trigger] rest[i]).0 as int]
        == tree.nodes[children[i + 1].0 as int] by {
        assert(rest[i] == children[i + 1]);
        assert(children[i + 1] != children[0]);
    }
    assert forall|i: int| 0 <= i < rest.len() implies {
        &&& (#[trigger] rest[i]).0 < told.nodes.len()
        &&& told.nodes[rest[i].0 as int] is Leaf
        &&& told.nodes[rest[i].0 as int].status() != Some(Status::Success)
    } by {
        assert(rest[i] == children[i + 1]);
    }
    if status == Status::Success {
        let payload = match ticked.nodes[node as int] {
            CTreeNodeView::Root(root) => root.node_type->Sequence_0,
            CTreeNodeView::Control(control) => control.node_type->Sequence_0,
            CTreeNodeView::Leaf(_) => arbitrary(),
        };
        assert(payload.pending.remove(first.0) =~= Set::<usize>::empty());
    }
}

/// A pass of a running sequence over leaves asks the hook about the
/// leaves from left to right for as long as they succeed, and no further
/// than the first that fails.
///
/// `stop` is the place of the first leaf that fails, or the number of leaves
/// where none does.
pub proof fn lemma_sequence_pass_asks<D: Decorator>(
    tree: TreeView<D>,
    node: usize,
    children: Seq<CTreeNodeID>,
    answers: Seq<Status>,
    limit: nat,
    stop: int,
)
    requires
        node < tree.nodes.len(),
        tree.nodes[node as int].is_open_sequence(),
        tree.leaves_to_run(children),
        0 <= stop <= children.len(),
        stop <= answers.len(),
        forall|i: int| 0 <= i < stop ==> answers[i] == Status::Success,
        stop < children.len() ==> stop < answers.len() && answers[stop] == Status::Failure,
    ensures
        tree.pass_leaves(node, children, answers, limit) == tree.leaves_upto(
            children,
            if stop < children.len() {
                stop + 1
            } else {
                stop
            },
        ),
    decreases children.len(),
{
    let visited = if stop < children.len() {
        stop + 1
    } else {
        stop
    };
    if children.len() > 0 {
        let rest = children.skip(1);
        let told = tree.answered(node, children[0], next_answer(answers));
        let later = later_answers(answers);
        lemma_sequence_first_visit(tree, node, children, answers, limit);
        if stop == 0 {
            assert(told.pass_leaves(node, rest, later, limit) =~= Seq::<LeafNode>::empty());
            assert(tree.pass_leaves(node, children, answers, limit) =~= tree.leaves_upto(
                children,
                visited,
            ));
        } else {
            assert(later == answers.skip(1));
            assert forall|i: int| 0 <= i < stop - 1 implies later[i] == Status::Success by {
                assert(later[i] == answers[i + 1]);
            }
            lemma_sequence_pass_asks(told, node, rest, later, limit, stop - 1);
            assert(tree.pass_leaves(node, children, answers, limit) =~= tree.leaves_upto(
                children,
                visited,
            )) by {
                let asked = tree.pass_leaves(node, children, answers, limit);
                assert(asked.len() == visited);
                assert forall|i: int| 0 <= i < visited implies asked[i] == tree.leaves_upto(
                    children,
                    visited,
                )[i] by {
                    if i > 0 {
                        assert(rest[i - 1] == children[i]);
                        assert(told.nodes[rest[i - 1].0 as int] == tree.nodes[children[i].0 as int]);
                    }
                }
            }
        }
    } else {
        assert(tree.pass_leaves(node, children, answers, limit) =~= tree.leaves_upto(
            children,
            visited,
        ));
    }
}

/// A pass of a running sequence over leaves comes to the leaf at the place
/// `at` where the leaves before it have succeeded, whatever is answered from
/// there on.
pub proof fn lemma_sequence_comes_to<D: Decorator>(
    tree: TreeView<D>,
    node: usize,
    children: Seq<CTreeNodeID>,
    answers: Seq<Status>,
    limit: nat,
    at: int,
)
    requires
        node < tree.nodes.len(),
        tree.nodes[node as int].is_open_sequence(),
        tree.leaves_to_run(children),
        0 <= at < children.len(),
        at <= answers.len(),
        forall|i: int| 0 <= i < at ==> answers[i] == Status::Success,
    ensures
        tree.pass_leaves(node, children, answers, limit).len() > at,
        tree.pass_leaves(node, children, answers, limit)[at] == tree.nodes[children[at].0 as int]->Leaf_0,
    decreases children.len(),
{
    let rest = children.skip(1);
    let told = tree.answered(node, children[0], next_answer(answers));
    let later = later_answers(answers);
    lemma_sequence_first_visit(tree, node, children, answers, limit);
    if at > 0 {
        assert(later == answers.skip(1));
        assert forall|i: int| 0 <= i < at - 1 implies later[i] == Status::Success by {
            assert(later[i] == answers[i + 1]);
        }
        lemma_sequence_comes_to(told, node, rest, later, limit, at - 1);
        assert(rest[at - 1] == children[at]);
        assert(told.nodes[rest[at - 1].0 as int] == tree.nodes[children[at].0 as int]);
    }
}

/// A pass over leaves leaves the branches that its node holds to be reset
/// as they were, and the node is of the kind that it was.
pub proof fn lemma_pass_keeps_requests<D: Decorator>(
    tree: TreeView<D>,
    node: usize,
    children: Seq<CTreeNodeID>,
    answers: Seq<Status>,
    limit: nat,
)
    requires
        node < tree.nodes.len(),
        !(tree.nodes[node as int] is Leaf),
        forall|i: int|
            0 <= i < children.len() ==> {
                &&& (#[trigger] children[i]).0 < tree.nodes.len()
                &&& tree.nodes[children[i].0 as int] is Leaf
            },
    ensures
        tree.pass(node, children, answers, limit).0.nodes[node as int].reset_requests()
            == tree.nodes[node as int].reset_requests(),
        tree.nodes[node as int].same_kind(
            tree.pass(node, children, answers, limit).0.nodes[node as int],
        ),
    decreases children.len(),
{
    if children.len() > 0 {
        let first = children[0];
        let rest = children.skip(1);
        let ticked = tree.tick(node);
        if tree.nodes[node as int].tick_status() == Status::Running {
            assert(first.0 != node);
            assert forall|i: int| 0 <= i < rest.len() implies {
                &&& (#[trigger] rest[i]).0 < tree.nodes.len()
                &&& tree.nodes[rest[i].0 as int] is Leaf
            } by {
                assert(rest[i] == children[i + 1]);
            }
            if ticked.nodes[first.0 as int].status() == Some(Status::Success) {
                lemma_pass_keeps_requests(ticked, node, rest, answers, limit);
            } else {
                let told = tree.answered(node, first, next_answer(answers));
                assert(ticked.visit(node, first, answers, limit) == (told, later_answers(answers)));
                assert forall|i: int| 0 <= i < rest.len() implies {
                    &&& (#[trigger] rest[i]).0 < told.nodes.len()
                    &&& told.nodes[rest[i].0 as int] is Leaf
                } by {
                    assert(rest[i] == children[i + 1]);
                }
                lemma_pass_keeps_requests(told, node, rest, later_answers(answers), limit);
            }
        }
    }
}

/// A run from a running sequence over leaves, of which the first `stop`
/// succeed and the next one, if there is one, fails: the hook is asked
/// about these leaves and no others, from left to right, each leaf holds
/// its answer afterwards and the others are as they were, and the run comes
/// to failure where a leaf has failed, and else to success.
pub proof fn lemma_sequence_run<D: Decorator>(
    tree: TreeView<D>,
    node: usize,
    answers: Seq<Status>,
    limit: nat,
    stop: int,
)
    requires
        node < tree.nodes.len(),
        tree.nodes[node as int].is_open_sequence(),
        tree.nodes[node as int].reset_requests() == Seq::<CTreeNodeID>::empty(),
        tree.leaves_to_run(tree.tree[node]),
        limit > 0,
        0 <= stop <= tree.tree[node].len(),
        stop <= answers.len(),
        forall|i: int| 0 <= i < stop ==> answers[i] == Status::Success,
        stop < tree.tree[node].len() ==> stop < answers.len() && answers[stop] == Status::Failure,
    ensures
        ({
            let children = tree.tree[node];
            let visited = if stop < children.len() {
                stop + 1
            } else {
                stop
            };
            let (after, left, status) = tree.run_from(node, answers, limit);
            &&& tree.run_from_leaves(node, answers, limit) == tree.leaves_upto(children, visited)
            &&& left == answers.skip(visited)
            &&& status == (if stop < children.len() {
                Status::Failure
            } else {
                Status::Success
            })
            &&& after.nodes.len() == tree.nodes.len()
            &&& forall|i: int|
                0 <= i < visited ==> (#[trigger] after.nodes[children[i].0 as int]).status() == Some(
                    answers[i],
                )
            &&& forall|i: int|
                visited <= i < children.len() ==> #[trigger] after.nodes[children[i].0 as int]
                    == tree.nodes[children[i].0 as int]
        }),
{
    let children = tree.tree[node];
    let ticked = tree.tick(node);
    let below = (limit - 1) as nat;
    assert(tree.nodes[node as int].tick_status() == Status::Running);
    assert(ticked.nodes[node as int].is_open_sequence());
    assert(ticked.nodes[node as int].reset_requests() == Seq::<CTreeNodeID>::empty());
    assert forall|i: int| 0 <= i < children.len() implies ticked.nodes[(
    #[trigger] children[i]).0 as int] == tree.nodes[children[i].0 as int] by {}
    assert(ticked.leaves_to_run(children));
    lemma_sequence_pass(ticked, node, children, answers, below, stop);
    lemma_sequence_pass_asks(ticked, node, children, answers, below, stop);
    lemma_pass_keeps_requests(ticked, node, children, answers, below);
    let visited = if stop < children.len() {
        stop + 1
    } else {
        stop
    };
    assert(ticked.leaves_upto(children, visited) =~= tree.leaves_upto(children, visited));
    let (passed, left) = ticked.pass(node, children, answers, below);
    let closed = passed.close_pass(node);
    let status = closed.nodes[node as int].tick_status();
    let cleared = closed.tick(node).handle_resets(node);
    assert(status != Status::Running);
    assert(ticked.passes(node, answers, limit) == (cleared, left, status));
    assert(ticked.passes_leaves(node, answers, limit) =~= ticked.pass_leaves(
        node,
        children,
        answers,
        below,
    ));
    assert(closed.tick(node).nodes[node as int].reset_requests() == Seq::<CTreeNodeID>::empty());
    assert(closed.tick(node).nodes[node as int].without_requests() == closed.tick(node).nodes[node as int]);
    assert(cleared.nodes =~= closed.tick(node).nodes);
    assert forall|i: int| 0 <= i < children.len() implies cleared.nodes[(
    #[trigger] children[i]).0 as int] == passed.nodes[children[i].0 as int] by {}
}

impl<D: Decorator> TreeView<D> {
    /// A hook of this kind lets the first `stop` of `children` succeed and
    /// the next one, if there is one, fail.
    pub open spec fn succeed_upto<Hook: ExecutorHook>(
        self,
        children: Seq<CTreeNodeID>,
        stop: int,
    ) -> bool {
        &&& 0 <= stop <= children.len()
        &&& forall|i: int|
            0 <= i < stop ==> answers_only::<Hook>(
                self.nodes[(#[trigger] children[i]).0 as int]->Leaf_0,
                Status::Success,
            )
        &&& stop < children.len() ==> answers_only::<Hook>(
            self.nodes[children[stop].0 as int]->Leaf_0,
            Status::Failure,
        )
    }
}

/// In a run from a running sequence over leaves, the hook gives the answers
/// that it gives for these leaves, as far as it is asked.
proof fn lemma_sequence_hook_conforms<D: Decorator, Hook: ExecutorHook>(
    tree: TreeView<D>,
    node: usize,
    answers: Seq<Status>,
    states: Seq<Hook>,
    limit: nat,
    stop: int,
    upto: int,
)
    requires
        node < tree.nodes.len(),
        tree.nodes[node as int].is_open_sequence(),
        tree.leaves_to_run(tree.tree[node]),
        limit > 0,
        tree.succeed_upto::<Hook>(tree.tree[node], stop),
        asked_in_turn::<Hook>(states, tree.run_from_leaves(node, answers, limit), answers),
        0 <= upto <= answers.len(),
        upto <= stop + 1,
        upto <= tree.tree[node].len(),
    ensures
        forall|i: int|
            0 <= i < upto ==> answers[i] == (if i < stop {
                Status::Success
            } else {
                Status::Failure
            }),
    decreases upto,
{
    if upto > 0 {
        let at = upto - 1;
        lemma_sequence_hook_conforms(tree, node, answers, states, limit, stop, at);
        let children = tree.tree[node];
        let ticked = tree.tick(node);
        let below = (limit - 1) as nat;
        assert(tree.nodes[node as int].tick_status() == Status::Running);
        assert(ticked.nodes[node as int].is_open_sequence());
        assert forall|i: int| 0 <= i < children.len() implies ticked.nodes[(
        #[trigger] children[i]).0 as int] == tree.nodes[children[i].0 as int] by {}
        assert(ticked.leaves_to_run(children));
        lemma_sequence_comes_to(ticked, node, children, answers, below, at);
        let leaves = tree.run_from_leaves(node, answers, limit);
        let first_pass = ticked.pass_leaves(node, children, answers, below);
        assert(leaves == ticked.passes_leaves(node, answers, limit));
        assert(leaves[at] == first_pass[at]);
        assert(leaves[at] == tree.nodes[children[at].0 as int]->Leaf_0);
        assert(states[at].answers(leaves[at], answers[at], &states[at + 1]));
    }
}

/// A run from a running sequence over leaves, with a hook that lets the
/// first `stop` leaves succeed and the next one, if there is one, fail: the
/// hook is asked about these leaves and no others, once each and from left
/// to right, each of them holds its answer afterwards and the others are as
/// they were, and the run comes to failure where a leaf has failed, and
/// else to success.
///
/// `after` and `status` are what the run left and gave, `answers` what the
/// hook answered, and `states` what it went through.
pub proof fn lemma_sequence_asks_in_order<D: Decorator, Hook: ExecutorHook>(
    tree: TreeView<D>,
    after: TreeView<D>,
    node: usize,
    answers: Seq<Status>,
    states: Seq<Hook>,
    status: Status,
    limit: nat,
    stop: int,
)
    requires
        node < tree.nodes.len(),
        tree.nodes[node as int].is_open_sequence(),
        tree.nodes[node as int].reset_requests() == Seq::<CTreeNodeID>::empty(),
        tree.leaves_to_run(tree.tree[node]),
        limit > 0,
        tree.succeed_upto::<Hook>(tree.tree[node], stop),
        asked_in_turn::<Hook>(states, tree.run_from_leaves(node, answers, limit), answers),
        tree.run_from(node, answers, limit) == (after, Seq::<Status>::empty(), status),
    ensures
        ({
            let children = tree.tree[node];
            let visited = if stop < children.len() {
                stop + 1
            } else {
                stop
            };
            &&& tree.run_from_leaves(node, answers, limit) == tree.leaves_upto(children, visited)
            &&& answers.len() == visited
            &&& status == (if stop < children.len() {
                Status::Failure
            } else {
                Status::Success
            })
            &&& forall|i: int|
                0 <= i < visited ==> (#[trigger] after.nodes[children[i].0 as int]).status() == Some(
                    if i < stop {
                        Status::Success
                    } else {
                        Status::Failure
                    },
                )
            &&& forall|i: int|
                visited <= i < children.len() ==> #[trigger] after.nodes[children[i].0 as int]
                    == tree.nodes[children[i].0 as int]
        }),
{
    let children = tree.tree[node];
    let visited = if stop < children.len() {
        stop + 1
    } else {
        stop
    };
    let leaves = tree.run_from_leaves(node, answers, limit);
    if answers.len() < visited {
        // the hook would have been asked once more
        let at = answers.len() as int;
        lemma_sequence_hook_conforms(tree, node, answers, states, limit, stop, at);
        let ticked = tree.tick(node);
        let below = (limit - 1) as nat;
        assert(tree.nodes[node as int].tick_status() == Status::Running);
        assert(ticked.nodes[node as int].is_open_sequence());
        assert forall|i: int| 0 <= i < children.len() implies ticked.nodes[(
        #[trigger] children[i]).0 as int] == tree.nodes[children[i].0 as int] by {}
        assert(ticked.leaves_to_run(children));
        lemma_sequence_comes_to(ticked, node, children, answers, below, at);
        assert(leaves == ticked.passes_leaves(node, answers, limit));
        assert(leaves.len() > at);
        assert(false);
    }
    lemma_sequence_hook_conforms(tree, node, answers, states, limit, stop, visited);
    lemma_sequence_run(tree, node, answers, limit, stop);
    assert(answers.skip(visited).len() == 0);
}

/// The first visit of a pass of a running fallback over leaves: the first
/// leaf is asked, and the pass goes on from the tree in which it has
/// answered.
pub proof fn lemma_fallback_first_visit<D: Decorator>(
    tree: TreeView<D>,
    node: usize,
    children: Seq<CTreeNodeID>,
    answers: Seq<Status>,
    limit: nat,
)
    requires
        node < tree.nodes.len(),
        tree.nodes[node as int].is_open_fallback(),
        tree.leaves_to_run(children),
        children.len() > 0,
    ensures
        ({
            let told = tree.answered(node, children[0], next_answer(answers));
            &&& tree.pass(node, children, answers, limit) == told.pass(
                node,
                children.skip(1),
                later_answers(answers),
                limit,
            )
            &&& tree.pass_leaves(node, children, answers, limit) == seq![
                tree.nodes[children[0].0 as int]->Leaf_0,
            ] + told.pass_leaves(node, children.skip(1), later_answers(answers), limit)
            &&& told.nodes.len() == tree.nodes.len()
            &&& told.leaves_to_run(children.skip(1))
            &&& forall|i: int|
                0 <= i < children.len() - 1 ==> told.nodes[(#[trigger] children.skip(1)[i]).0 as int]
                    == tree.nodes[children[i + 1].0 as int]
            &&& next_answer(answers) == Status::Failure ==> told.nodes[node as int].is_open_fallback()
            &&& next_answer(answers) == Status::Success ==> told.nodes[node as int].tick_status()
                == Status::Success
        }),
{
    let first = children[0];
    let rest = children.skip(1);
    let ticked = tree.tick(node);
    let status = next_answer(answers);
    let told = tree.answered(node, first, status);
    assert(tree.nodes[node as int].tick_status() == Status::Running);
    assert(ticked.nodes[first.0 as int] == tree.nodes[first.0 as int]);
    assert(ticked.visit(node, first, answers, limit) == (told, later_answers(answers)));
    assert(ticked.visit_leaves(node, first, answers, limit) == seq![
        tree.nodes[first.0 as int]->Leaf_0,
    ]);
    assert forall|i: int| 0 <= i < rest.len() implies told.nodes[(#[trigger] rest[i]).0 as int]
        == tree.nodes[children[i + 1].0 as int] by {
        assert(rest[i] == children[i + 1]);
        assert(children[i + 1] != children[0]);
    }
    assert forall|i: int| 0 <= i < rest.len() implies {
        &&& (#[trigger] rest[i]).0 < told.nodes.len()
        &&& told.nodes[rest[i].0 as int] is Leaf
        &&& told.nodes[rest[i].0 as int].status() != Some(Status::Success)
    } by {
        assert(rest[i] == children[i + 1]);
    }
}

/// A pass of a running fallback over leaves asks the hook about the
/// leaves from left to right for as long as they fail, and no further than
/// the first that succeeds.
///
/// `stop` is the place of the first leaf that succeeds, or the number of
/// leaves where none does.
pub proof fn lemma_fallback_pass_asks<D: Decorator>(
    tree: TreeView<D>,
    node: usize,
    children: Seq<CTreeNodeID>,
    answers: Seq<Status>,
    limit: nat,
    stop: int,
)
    requires
        node < tree.nodes.len(),
        tree.nodes[node as int].is_open_fallback(),
        tree.leaves_to_run(children),
        0 <= stop <= children.len(),
        stop <= answers.len(),
        forall|i: int| 0 <= i < stop ==> answers[i] == Status::Failure,
        stop < children.len() ==> stop < answers.len() && answers[stop] == Status::Success,
    ensures
        tree.pass_leaves(node, children, answers, limit) == tree.leaves_upto(
            children,
            if stop < children.len() {
                stop + 1
            } else {
                stop
            },
        ),
    decreases children.len(),
{
    let visited = if stop < children.len() {
        stop + 1
    } else {
        stop
    };
    if children.len() > 0 {
        let rest = children.skip(1);
        let told = tree.answered(node, children[0], next_answer(answers));
        let later = later_answers(answers);
        lemma_fallback_first_visit(tree, node, children, answers, limit);
        if stop == 0 {
            assert(told.pass_leaves(node, rest, later, limit) =~= Seq::<LeafNode>::empty());
            assert(tree.pass_leaves(node, children, answers, limit) =~= tree.leaves_upto(
                children,
                visited,
            ));
        } else {
            assert(later == answers.skip(1));
            assert forall|i: int| 0 <= i < stop - 1 implies later[i] == Status::Failure by {
                assert(later[i] == answers[i + 1]);
            }
            lemma_fallback_pass_asks(told, node, rest, later, limit, stop - 1);
            assert(tree.pass_leaves(node, children, answers, limit) =~= tree.leaves_upto(
                children,
                visited,
            )) by {
                let asked = tree.pass_leaves(node, children, answers, limit);
                assert(asked.len() == visited);
                assert forall|i: int| 0 <= i < visited implies asked[i] == tree.leaves_upto(
                    children,
                    visited,
                )[i] by {
                    if i > 0 {
                        assert(rest[i - 1] == children[i]);
                        assert(told.nodes[rest[i - 1].0 as int] == tree.nodes[children[i].0 as int]);
                    }
                }
            }
        }
    } else {
        assert(tree.pass_leaves(node, children, answers, limit) =~= tree.leaves_upto(
            children,
            visited,
        ));
    }
}

/// A pass of a running fallback over leaves comes to the leaf at the place
/// `at` where the leaves before it have failed, whatever is answered from
/// there on.
pub proof fn lemma_fallback_comes_to<D: Decorator>(
    tree: TreeView<D>,
    node: usize,
    children: Seq<CTreeNodeID>,
    answers: Seq<Status>,
    limit: nat,
    at: int,
)
    requires
        node < tree.nodes.len(),
        tree.nodes[node as int].is_open_fallback(),
        tree.leaves_to_run(children),
        0 <= at < children.len(),
        at <= answers.len(),
        forall|i: int| 0 <= i < at ==> answers[i] == Status::Failure,
    ensures
        tree.pass_leaves(node, children, answers, limit).len() > at,
        tree.pass_leaves(node, children, answers, limit)[at] == tree.nodes[children[at].0 as int]->Leaf_0,
    decreases children.len(),
{
    let rest = children.skip(1);
    let told = tree.answered(node, children[0], next_answer(answers));
    let later = later_answers(answers);
    lemma_fallback_first_visit(tree, node, children, answers, limit);
    if at > 0 {
        assert(later == answers.skip(1));
        assert forall|i: int| 0 <= i < at - 1 implies later[i] == Status::Failure by {
            assert(later[i] == answers[i + 1]);
        }
        lemma_fallback_comes_to(told, node, rest, later, limit, at - 1);
        assert(rest[at - 1] == children[at]);
        assert(told.nodes[rest[at - 1].0 as int] == tree.nodes[children[at].0 as int]);
    }
}

/// A run from a running fallback over leaves, of which the first `stop`
/// fail and the next one, if there is one, succeeds: the hook is asked
/// about these leaves and no others, from left to right, each leaf holds
/// its answer afterwards and the others are as they were, and the run comes
/// to success where a leaf has succeeded, and else to failure.
pub proof fn lemma_fallback_run<D: Decorator>(
    tree: TreeView<D>,
    node: usize,
    answers: Seq<Status>,
    limit: nat,
    stop: int,
)
    requires
        node < tree.nodes.len(),
        tree.nodes[node as int].is_open_fallback(),
        tree.nodes[node as int].reset_requests() == Seq::<CTreeNodeID>::empty(),
        tree.leaves_to_run(tree.tree[node]),
        limit > 0,
        0 <= stop <= tree.tree[node].len(),
        stop <= answers.len(),
        forall|i: int| 0 <= i < stop ==> answers[i] == Status::Failure,
        stop < tree.tree[node].len() ==> stop < answers.len() && answers[stop] == Status::Success,
    ensures
        ({
            let children = tree.tree[node];
            let visited = if stop < children.len() {
                stop + 1
            } else {
                stop
            };
            let (after, left, status) = tree.run_from(node, answers, limit);
            &&& tree.run_from_leaves(node, answers, limit) == tree.leaves_upto(children, visited)
            &&& left == answers.skip(visited)
            &&& status == (if stop < children.len() {
                Status::Success
            } else {
                Status::Failure
            })
            &&& after.nodes.len() == tree.nodes.len()
            &&& forall|i: int|
                0 <= i < visited ==> (#[trigger] after.nodes[children[i].0 as int]).status() == Some(
                    answers[i],
                )
            &&& forall|i: int|
                visited <= i < children.len() ==> #[trigger] after.nodes[children[i].0 as int]
                    == tree.nodes[children[i].0 as int]
        }),
{
    let children = tree.tree[node];
    let ticked = tree.tick(node);
    let below = (limit - 1) as nat;
    assert(tree.nodes[node as int].tick_status() == Status::Running);
    assert(ticked.nodes[node as int].is_open_fallback());
    assert(ticked.nodes[node as int].reset_requests() == Seq::<CTreeNodeID>::empty());
    assert forall|i: int| 0 <= i < children.len() implies ticked.nodes[(
    #[trigger] children[i]).0 as int] == tree.nodes[children[i].0 as int] by {}
    assert(ticked.leaves_to_run(children));
    lemma_fallback_pass(ticked, node, children, answers, below, stop);
    lemma_fallback_pass_asks(ticked, node, children, answers, below, stop);
    lemma_pass_keeps_requests(ticked, node, children, answers, below);
    let visited = if stop < children.len() {
        stop + 1
    } else {
        stop
    };
    assert(ticked.leaves_upto(children, visited) =~= tree.leaves_upto(children, visited));
    let (passed, left) = ticked.pass(node, children, answers, below);
    let closed = passed.close_pass(node);
    let status = closed.nodes[node as int].tick_status();
    let cleared = closed.tick(node).handle_resets(node);
    assert(status != Status::Running);
    assert(ticked.passes(node, answers, limit) == (cleared, left, status));
    assert(ticked.passes_leaves(node, answers, limit) =~= ticked.pass_leaves(
        node,
        children,
        answers,
        below,
    ));
    assert(closed.tick(node).nodes[node as int].reset_requests() == Seq::<CTreeNodeID>::empty());
    assert(closed.tick(node).nodes[node as int].without_requests() == closed.tick(node).nodes[node as int]);
    assert(cleared.nodes =~= closed.tick(node).nodes);
    assert forall|i: int| 0 <= i < children.len() implies cleared.nodes[(
    #[trigger] children[i]).0 as int] == passed.nodes[children[i].0 as int] by {}
}

impl<D: Decorator> TreeView<D> {
    /// A hook of this kind lets the first `stop` of `children` fail and the
    /// next one, if there is one, succeed.
    pub open spec fn fail_upto<Hook: ExecutorHook>(
        self,
        children: Seq<CTreeNodeID>,
        stop: int,
    ) -> bool {
        &&& 0 <= stop <= children.len()
        &&& forall|i: int|
            0 <= i < stop ==> answers_only::<Hook>(
                self.nodes[(#[trigger] children[i]).0 as int]->Leaf_0,
                Status::Failure,
            )
        &&& stop < children.len() ==> answers_only::<Hook>(
            self.nodes[children[stop].0 as int]->Leaf_0,
            Status::Success,
        )
    }
}

/// In a run from a running fallback over leaves, the hook gives the answers
/// that it gives for these leaves, as far as it is asked.
proof fn lemma_fallback_hook_conforms<D: Decorator, Hook: ExecutorHook>(
    tree: TreeView<D>,
    node: usize,
    answers: Seq<Status>,
    states: Seq<Hook>,
    limit: nat,
    stop: int,
    upto: int,
)
    requires
        node < tree.nodes.len(),
        tree.nodes[node as int].is_open_fallback(),
        tree.leaves_to_run(tree.tree[node]),
        limit > 0,
        tree.fail_upto::<Hook>(tree.tree[node], stop),
        asked_in_turn::<Hook>(states, tree.run_from_leaves(node, answers, limit), answers),
        0 <= upto <= answers.len(),
        upto <= stop + 1,
        upto <= tree.tree[node].len(),
    ensures
        forall|i: int|
            0 <= i < upto ==> answers[i] == (if i < stop {
                Status::Failure
            } else {
                Status::Success
            }),
    decreases upto,
{
    if upto > 0 {
        let at = upto - 1;
        lemma_fallback_hook_conforms(tree, node, answers, states, limit, stop, at);
        let children = tree.tree[node];
        let ticked = tree.tick(node);
        let below = (limit - 1) as nat;
        assert(tree.nodes[node as int].tick_status() == Status::Running);
        assert(ticked.nodes[node as int].is_open_fallback());
        assert forall|i: int| 0 <= i < children.len() implies ticked.nodes[(
        #[trigger] children[i]).0 as int] == tree.nodes[children[i].0 as int] by {}
        assert(ticked.leaves_to_run(children));
        lemma_fallback_comes_to(ticked, node, children, answers, below, at);
        let leaves = tree.run_from_leaves(node, answers, limit);
        let first_pass = ticked.pass_leaves(node, children, answers, below);
        assert(leaves == ticked.passes_leaves(node, answers, limit));
        assert(leaves[at] == first_pass[at]);
        assert(leaves[at] == tree.nodes[children[at].0 as int]->Leaf_0);
        assert(states[at].answers(leaves[at], answers[at], &states[at + 1]));
    }
}

/// A run from a running fallback over leaves, with a hook that lets the
/// first `stop` leaves fail and the next one, if there is one, succeed: the
/// hook is asked about these leaves and no others, once each and from left
/// to right, each of them holds its answer afterwards and the others are as
/// they were, and the run comes to success where a leaf has succeeded, and
/// else to failure.
///
/// `after` and `status` are what the run left and gave, `answers` what the
/// hook answered, and `states` what it went through.
pub proof fn lemma_fallback_asks_in_order<D: Decorator, Hook: ExecutorHook>(
    tree: TreeView<D>,
    after: TreeView<D>,
    node: usize,
    answers: Seq<Status>,
    states: Seq<Hook>,
    status: Status,
    limit: nat,
    stop: int,
)
    requires
        node < tree.nodes.len(),
        tree.nodes[node as int].is_open_fallback(),
        tree.nodes[node as int].reset_requests() == Seq::<CTreeNodeID>::empty(),
        tree.leaves_to_run(tree.tree[node]),
        limit > 0,
        tree.fail_upto::<Hook>(tree.tree[node], stop),
        asked_in_turn::<Hook>(states, tree.run_from_leaves(node, answers, limit), answers),
        tree.run_from(node, answers, limit) == (after, Seq::<Status>::empty(), status),
    ensures
        ({
            let children = tree.tree[node];
            let visited = if stop < children.len() {
                stop + 1
            } else {
                stop
            };
            &&& tree.run_from_leaves(node, answers, limit) == tree.leaves_upto(children, visited)
            &&& answers.len() == visited
            &&& status == (if stop < children.len() {
                Status::Success
            } else {
                Status::Failure
            })
            &&& forall|i: int|
                0 <= i < visited ==> (#[trigger] after.nodes[children[i].0 as int]).status() == Some(
                    if i < stop {
                        Status::Failure
                    } else {
                        Status::Success
                    },
                )
            &&& forall|i: int|
                visited <= i < children.len() ==> #[trigger] after.nodes[children[i].0 as int]
                    == tree.nodes[children[i].0 as int]
        }),
{
    let children = tree.tree[node];
    let visited = if stop < children.len() {
        stop + 1
    } else {
        stop
    };
    let leaves = tree.run_from_leaves(node, answers, limit);
    if answers.len() < visited {
        // the hook would have been asked once more
        let at = answers.len() as int;
        lemma_fallback_hook_conforms(tree, node, answers, states, limit, stop, at);
        let ticked = tree.tick(node);
        let below = (limit - 1) as nat;
        assert(tree.nodes[node as int].tick_status() == Status::Running);
        assert(ticked.nodes[node as int].is_open_fallback());
        assert forall|i: int| 0 <= i < children.len() implies ticked.nodes[(
        #[trigger] children[i]).0 as int] == tree.nodes[children[i].0 as int] by {}
        assert(ticked.leaves_to_run(children));
        lemma_fallback_comes_to(ticked, node, children, answers, below, at);
        assert(leaves == ticked.passes_leaves(node, answers, limit));
        assert(leaves.len() > at);
        assert(false);
    }
    lemma_fallback_hook_conforms(tree, node, answers, states, limit, stop, visited);
    lemma_fallback_run(tree, node, answers, limit, stop);
    assert(answers.skip(visited).len() == 0);
}

impl<D: Decorator> CTreeNodeView<D> {
    /// The node is a parallel that has not finished.
    pub open spec fn is_running_parallel(self) -> bool {
        match self {
            CTreeNodeView::Root(root) => root.node_type matches ControlNodeTypeView::Parallel(p)
                && !p.finished,
            CTreeNodeView::Control(control) => control.node_type matches ControlNodeTypeView::Parallel(
                p,
            ) && !p.finished,
            CTreeNodeView::Leaf(_) => false,
        }
    }
}

impl<D: Decorator> TreeView<D> {
    /// A hook of this kind gives each of `children` the answer that
    /// `wanted` holds at its place, and none of these is running.
    pub open spec fn answer_by<Hook: ExecutorHook>(
        self,
        children: Seq<CTreeNodeID>,
        wanted: Seq<Status>,
    ) -> bool {
        &&& wanted.len() == children.len()
        &&& forall|i: int|
            0 <= i < children.len() ==> wanted[i] != Status::Running && answers_only::<Hook>(
                self.nodes[(#[trigger] children[i]).0 as int]->Leaf_0,
                wanted[i],
            )
    }
}

/// The first visit of a pass of a running parallel over leaves: the first
/// leaf is asked, and the pass goes on from the tree in which it has
/// answered, whatever it has answered.
pub proof fn lemma_parallel_first_visit<D: Decorator>(
    tree: TreeView<D>,
    node: usize,
    children: Seq<CTreeNodeID>,
    answers: Seq<Status>,
    limit: nat,
)
    requires
        node < tree.nodes.len(),
        tree.nodes[node as int].is_running_parallel(),
        tree.leaves_to_run(children),
        children.len() > 0,
    ensures
        ({
            let told = tree.answered(node, children[0], next_answer(answers));
            &&& tree.pass_leaves(node, children, answers, limit) == seq![
                tree.nodes[children[0].0 as int]->Leaf_0,
            ] + told.pass_leaves(node, children.skip(1), later_answers(answers), limit)
            &&& told.nodes.len() == tree.nodes.len()
            &&& told.leaves_to_run(children.skip(1))
            &&& forall|i: int|
                0 <= i < children.len() - 1 ==> told.nodes[(#[trigger] children.skip(1)[i]).0 as int]
                    == tree.nodes[children[i + 1].0 as int]
            &&& told.nodes[node as int].is_running_parallel()
        }),
{
    let first = children[0];
    let rest = children.skip(1);
    let ticked = tree.tick(node);
    let status = next_answer(answers);
    let told = tree.answered(node, first, status);
    assert(tree.nodes[node as int].tick_status() == Status::Running);
    assert(ticked.nodes[first.0 as int] == tree.nodes[first.0 as int]);
    assert(ticked.visit(node, first, answers, limit) == (told, later_answers(answers)));
    assert(ticked.visit_leaves(node, first, answers, limit) == seq![
        tree.nodes[first.0 as int]->Leaf_0,
    ]);
    assert forall|i: int| 0 <= i < rest.len() implies told.nodes[(#[trigger] rest[i]).0 as int]
        == tree.nodes[children[i + 1].0 as int] by {
        assert(rest[i] == children[i + 1]);
        assert(children[i + 1] != children[0]);
    }
    assert forall|i: int| 0 <= i < rest.len() implies {
        &&& (#[trigger] rest[i]).0 < told.nodes.len()
        &&& told.nodes[rest[i].0 as int] is Leaf
        &&& told.nodes[rest[i].0 as int].status() != Some(Status::Success)
    } by {
        assert(rest[i] == children[i + 1]);
    }
}

/// A pass of a running parallel over leaves asks the hook about every
/// leaf, from left to right, whatever the leaves answer.
pub proof fn lemma_parallel_pass_asks<D: Decorator>(
    tree: TreeView<D>,
    node: usize,
    children: Seq<CTreeNodeID>,
    answers: Seq<Status>,
    limit: nat,
)
    requires
        node < tree.nodes.len(),
        tree.nodes[node as int].is_running_parallel(),
        tree.leaves_to_run(children),
    ensures
        tree.pass_leaves(node, children, answers, limit) == tree.leaves_upto(
            children,
            children.len() as int,
        ),
    decreases children.len(),
{
    let all = children.len() as int;
    if children.len() > 0 {
        let rest = children.skip(1);
        let told = tree.answered(node, children[0], next_answer(answers));
        lemma_parallel_first_visit(tree, node, children, answers, limit);
        lemma_parallel_pass_asks(told, node, rest, later_answers(answers), limit);
        assert(tree.pass_leaves(node, children, answers, limit) =~= tree.leaves_upto(
            children,
            all,
        )) by {
            let asked = tree.pass_leaves(node, children, answers, limit);
            assert(asked.len() == all);
            assert forall|i: int| 0 <= i < all implies asked[i] == tree.leaves_upto(
                children,
                all,
            )[i] by {
                if i > 0 {
                    assert(rest[i - 1] == children[i]);
                    assert(told.nodes[rest[i - 1].0 as int] == tree.nodes[children[i].0 as int]);
                }
            }
        }
    } else {
        assert(tree.pass_leaves(node, children, answers, limit) =~= tree.leaves_upto(
            children,
            all,
        ));
    }
}

/// A run from a parallel over leaves that has seen no child, where every
/// leaf answers with a terminal status: the hook is asked about every leaf,
/// from left to right, each leaf holds its answer afterwards, and the run
/// comes to success if every leaf has succeeded, and else to failure.
pub proof fn lemma_parallel_run<D: Decorator>(
    tree: TreeView<D>,
    node: usize,
    answers: Seq<Status>,
    limit: nat,
)
    requires
        node < tree.nodes.len(),
        tree.nodes[node as int].is_open_parallel(Set::empty()),
        tree.nodes[node as int].reset_requests() == Seq::<CTreeNodeID>::empty(),
        tree.leaves_to_run(tree.tree[node]),
        limit > 0,
        tree.tree[node].len() <= answers.len(),
        forall|i: int| 0 <= i < tree.tree[node].len() ==> answers[i] != Status::Running,
    ensures
        ({
            let children = tree.tree[node];
            let (after, left, status) = tree.run_from(node, answers, limit);
            &&& tree.run_from_leaves(node, answers, limit) == tree.leaves_upto(
                children,
                children.len() as int,
            )
            &&& left == answers.skip(children.len() as int)
            &&& status != Status::Running
            &&& status == Status::Success <==> forall|i: int|
                0 <= i < children.len() ==> answers[i] == Status::Success
            &&& after.nodes.len() == tree.nodes.len()
            &&& forall|i: int|
                0 <= i < children.len() ==> (#[trigger] after.nodes[children[i].0 as int]).status()
                    == Some(answers[i])
        }),
{
    let children = tree.tree[node];
    let ticked = tree.tick(node);
    let below = (limit - 1) as nat;
    assert(tree.nodes[node as int].tick_status() == Status::Running);
    assert(ticked.nodes[node as int] == tree.nodes[node as int].ticked());
    assert(ticked.nodes[node as int].is_open_parallel(Set::empty()));
    assert(ticked.nodes[node as int].is_running_parallel());
    assert(ticked.nodes[node as int].reset_requests() == Seq::<CTreeNodeID>::empty());
    assert forall|i: int| 0 <= i < children.len() implies ticked.nodes[(
    #[trigger] children[i]).0 as int] == tree.nodes[children[i].0 as int] by {}
    assert(ticked.leaves_to_run(children));
    lemma_parallel_pass(ticked, node, children, answers, below, Set::empty());
    lemma_parallel_succeeds_iff_all_do(ticked, node, children, answers, below);
    lemma_parallel_pass_asks(ticked, node, children, answers, below);
    lemma_pass_keeps_requests(ticked, node, children, answers, below);
    let all = children.len() as int;
    assert(ticked.leaves_upto(children, all) =~= tree.leaves_upto(children, all));
    let (passed, left) = ticked.pass(node, children, answers, below);
    let closed = passed.close_pass(node);
    let status = closed.nodes[node as int].tick_status();
    let cleared = closed.tick(node).handle_resets(node);
    assert(ticked.passes(node, answers, limit) == (cleared, left, status));
    assert(ticked.passes_leaves(node, answers, limit) =~= ticked.pass_leaves(
        node,
        children,
        answers,
        below,
    ));
    assert(closed.tick(node).nodes[node as int].reset_requests() == Seq::<CTreeNodeID>::empty());
    assert(closed.tick(node).nodes[node as int].without_requests() == closed.tick(node).nodes[node as int]);
    assert(cleared.nodes =~= closed.tick(node).nodes);
    assert forall|i: int| 0 <= i < children.len() implies cleared.nodes[(
    #[trigger] children[i]).0 as int] == passed.nodes[children[i].0 as int] by {}
}

/// A run from a parallel over leaves that has seen no child, with a hook
/// that gives each leaf a terminal answer of its own: the hook is asked
/// about every leaf, once and from left to right, whatever the leaves
/// before answered; each leaf holds its answer afterwards, and the run
/// comes to success if and only if every leaf has succeeded, and else to
/// failure.
///
/// `after` and `status` are what the run left and gave, `answers` what the
/// hook answered, and `states` what it went through.
pub proof fn lemma_parallel_asks_every_leaf<D: Decorator, Hook: ExecutorHook>(
    tree: TreeView<D>,
    after: TreeView<D>,
    node: usize,
    answers: Seq<Status>,
    states: Seq<Hook>,
    status: Status,
    limit: nat,
    wanted: Seq<Status>,
)
    requires
        node < tree.nodes.len(),
        tree.nodes[node as int].is_open_parallel(Set::empty()),
        tree.nodes[node as int].reset_requests() == Seq::<CTreeNodeID>::empty(),
        tree.leaves_to_run(tree.tree[node]),
        limit > 0,
        tree.answer_by::<Hook>(tree.tree[node], wanted),
        asked_in_turn::<Hook>(states, tree.run_from_leaves(node, answers, limit), answers),
        tree.run_from(node, answers, limit) == (after, Seq::<Status>::empty(), status),
    ensures
        tree.run_from_leaves(node, answers, limit) == tree.leaves_upto(
            tree.tree[node],
            tree.tree[node].len() as int,
        ),
        answers == wanted,
        status != Status::Running,
        status == Status::Success <==> forall|i: int|
            0 <= i < wanted.len() ==> wanted[i] == Status::Success,
        forall|i: int|
            0 <= i < wanted.len() ==> (#[trigger] after.nodes[tree.tree[node][i].0 as int]).status()
                == Some(wanted[i]),
{
    let children = tree.tree[node];
    let all = children.len() as int;
    let leaves = tree.run_from_leaves(node, answers, limit);
    let ticked = tree.tick(node);
    let below = (limit - 1) as nat;
    assert(tree.nodes[node as int].tick_status() == Status::Running);
    assert(ticked.nodes[node as int] == tree.nodes[node as int].ticked());
    assert(ticked.nodes[node as int].is_running_parallel());
    assert forall|i: int| 0 <= i < children.len() implies ticked.nodes[(
    #[trigger] children[i]).0 as int] == tree.nodes[children[i].0 as int] by {}
    assert(ticked.leaves_to_run(children));
    lemma_parallel_pass_asks(ticked, node, children, answers, below);
    assert(ticked.leaves_upto(children, all) =~= tree.leaves_upto(children, all));
    let first_pass = ticked.pass_leaves(node, children, answers, below);
    assert(leaves == ticked.passes_leaves(node, answers, limit));
    assert(leaves.len() >= first_pass.len());
    assert(answers.len() >= all);
    assert forall|i: int| 0 <= i < all implies answers[i] == wanted[i] && answers[i]
        != Status::Running by {
        assert(leaves[i] == first_pass[i]);
        assert(leaves[i] == tree.nodes[children[i].0 as int]->Leaf_0);
        assert(states[i].answers(leaves[i], answers[i], &states[i + 1]));
    }
    lemma_parallel_run(tree, node, answers, limit);
    assert(answers.skip(all).len() == 0);
    assert(answers =~= wanted);
}

} // verus!
