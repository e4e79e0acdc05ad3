//! What a run from a parallel over leaves comes to where leaves keep it
//! waiting: the parallel goes through its leaves pass by pass, until none of
//! them is running any more.

use super::asking::lemma_pass_keeps_requests;
use super::control_nodes::{ControlNodeTypeView, ParallelView};
use super::engine::{asked_in_turn, later_answers, next_answer};
use super::{CTreeNodeID, CTreeNodeView, ChildUpdate, LeafNode, TreeView};
use crate::traits::{Decorator, ExecutorHook};
use crate::Status;
use vstd::prelude::*;

verus! {

/// The answer that the hook gives at the place `at`. Where none is left,
/// the leaf is taken to have failed.
pub open spec fn nth_answer(answers: Seq<Status>, at: int) -> Status {
    if 0 <= at < answers.len() {
        answers[at]
    } else {
        Status::Failure
    }
}

/// A leaf that is handed over as one that has failed is answered with
/// failure again.
pub open spec fn fails_again(leaves: Seq<LeafNode>, answers: Seq<Status>) -> bool {
    forall|i: int|
        0 <= i < leaves.len() && (#[trigger] leaves[i]).status == Some(Status::Failure)
            ==> nth_answer(answers, i) == Status::Failure
}

/// A hook of this kind answers with failure for a leaf that has failed.
pub open spec fn fails_for_good<Hook: ExecutorHook>() -> bool {
    forall|before: Hook, leaf: LeafNode, status: Status, after: Hook| #[trigger]
        before.answers(leaf, status, &after) && leaf.status == Some(Status::Failure) ==> status
            == Status::Failure
}

impl<D: Decorator> CTreeNodeView<D> {
    /// The parallel that the node holds.
    pub open spec fn parallel(self) -> ParallelView {
        match self {
            CTreeNodeView::Root(root) => root.node_type->Parallel_0,
            CTreeNodeView::Control(control) => control.node_type->Parallel_0,
            CTreeNodeView::Leaf(_) => arbitrary(),
        }
    }
}

impl<D: Decorator> TreeView<D> {
    /// The ids of those of `children` that hold `status`.
    pub open spec fn holding(self, children: Seq<CTreeNodeID>, status: Status) -> Set<usize> {
        Set::new(
            |id: usize|
                exists|k: int|
                    0 <= k < children.len() && (#[trigger] children[k]).0 == id
                        && self.nodes[id as int].status() == Some(status),
        )
    }

    /// `children` are leaves of the tree, each listed once.
    pub open spec fn leaves_once(self, children: Seq<CTreeNodeID>) -> bool {
        &&& children.no_duplicates()
        &&& forall|k: int|
            0 <= k < children.len() ==> (#[trigger] children[k]).0 < self.nodes.len()
                && self.nodes[children[k].0 as int] is Leaf
    }

    /// The node is a parallel that has not finished and keeps track of
    /// `children`: it has seen those fail that hold a failure, and waits for
    /// those that are running.
    pub open spec fn keeps_track(self, node: usize, children: Seq<CTreeNodeID>) -> bool {
        &&& self.nodes[node as int].is_running_parallel()
        &&& self.nodes[node as int].parallel().failure == self.holding(children, Status::Failure)
        &&& self.nodes[node as int].parallel().pending == self.holding(children, Status::Running)
    }

    /// Every one of `children` holds a terminal status, and `status` is
    /// success if all of them have succeeded, and else failure.
    pub open spec fn all_settled(self, children: Seq<CTreeNodeID>, status: Status) -> bool {
        &&& status != Status::Running
        &&& forall|k: int|
            0 <= k < children.len() ==> (#[trigger] self.nodes[children[k].0 as int]).status()
                is Some && self.nodes[children[k].0 as int].status() != Some(Status::Running)
        &&& status == Status::Success <==> forall|k: int|
            0 <= k < children.len() ==> (#[trigger] self.nodes[children[k].0 as int]).status()
                == Some(Status::Success)
    }
}

/// A parallel keeps track of its leaves when one of them has answered.
proof fn lemma_answer_tracked<D: Decorator>(
    tree: TreeView<D>,
    node: usize,
    all: Seq<CTreeNodeID>,
    at: int,
    status: Status,
)
    requires
        node < tree.nodes.len(),
        tree.keeps_track(node, all),
        tree.leaves_once(all),
        0 <= at < all.len(),
        tree.nodes[all[at].0 as int].status() == Some(Status::Failure) ==> status
            == Status::Failure,
    ensures
        tree.answered(node, all[at], status).keeps_track(node, all),
        tree.answered(node, all[at], status).nodes.len() == tree.nodes.len(),
        tree.answered(node, all[at], status).nodes[all[at].0 as int].status() == Some(status),
        tree.answered(node, all[at], status).tree == tree.tree,
        forall|k: int|
            0 <= k < all.len() && k != at ==> tree.answered(node, all[at], status).nodes[(
            #[trigger] all[k]).0 as int] == tree.nodes[all[k].0 as int],
        tree.answered(node, all[at], status).leaves_once(all),
{
    let child = all[at];
    let told = tree.answered(node, child, status);
    assert(child.0 != node);
    assert forall|k: int| 0 <= k < all.len() && k != at implies told.nodes[(
    #[trigger] all[k]).0 as int] == tree.nodes[all[k].0 as int] by {
        assert(all[k] != all[at]);
    }
    let before = tree.nodes[node as int].parallel();
    let after = told.nodes[node as int].parallel();
    assert(after == before.told(ChildUpdate { status, child_id: child }));
    assert forall|id: usize| told.holding(all, Status::Failure).contains(id) <==> (if status
        == Status::Failure {
        tree.holding(all, Status::Failure).insert(child.0)
    } else {
        tree.holding(all, Status::Failure)
    }).contains(id) by {
        if told.holding(all, Status::Failure).contains(id) {
            let k = choose|k: int|
                0 <= k < all.len() && (#[trigger] all[k]).0 == id && told.nodes[id as int].status()
                    == Some(Status::Failure);
            if k != at {
                assert(all[k].0 == id && tree.nodes[id as int].status() == Some(Status::Failure));
            }
        }
        if tree.holding(all, Status::Failure).contains(id) {
            let k = choose|k: int|
                0 <= k < all.len() && (#[trigger] all[k]).0 == id && tree.nodes[id as int].status()
                    == Some(Status::Failure);
            if k != at {
                assert(all[k].0 == id && told.nodes[id as int].status() == Some(Status::Failure));
            } else {
                assert(all[at].0 == id && told.nodes[id as int].status() == Some(Status::Failure));
            }
        }
        if status == Status::Failure && id == child.0 {
            assert(all[at].0 == id && told.nodes[id as int].status() == Some(Status::Failure));
        }
    }
    assert forall|id: usize| told.holding(all, Status::Running).contains(id) <==> (if status
        == Status::Running {
        tree.holding(all, Status::Running).insert(child.0)
    } else {
        tree.holding(all, Status::Running).remove(child.0)
    }).contains(id) by {
        if told.holding(all, Status::Running).contains(id) {
            let k = choose|k: int|
                0 <= k < all.len() && (#[trigger] all[k]).0 == id && told.nodes[id as int].status()
                    == Some(Status::Running);
            if k != at {
                assert(all[k].0 == id && tree.nodes[id as int].status() == Some(Status::Running));
            }
        }
        if tree.holding(all, Status::Running).contains(id) && id != child.0 {
            let k = choose|k: int|
                0 <= k < all.len() && (#[trigger] all[k]).0 == id && tree.nodes[id as int].status()
                    == Some(Status::Running);
            assert(all[k].0 == id && told.nodes[id as int].status() == Some(Status::Running));
        }
        if status == Status::Running && id == child.0 {
            assert(all[at].0 == id && told.nodes[id as int].status() == Some(Status::Running));
        }
    }
    assert(after.failure =~= told.holding(all, Status::Failure));
    assert(after.pending =~= told.holding(all, Status::Running));
}

/// A pass of a parallel that keeps track of its leaves `all`, over those
/// from the place `from` on: each of them that has not succeeded is asked,
/// whatever the others answer, and holds its answer afterwards, and the
/// parallel keeps track of the leaves. Nothing else changes.
pub proof fn lemma_parallel_pass_tracks<D: Decorator>(
    tree: TreeView<D>,
    node: usize,
    all: Seq<CTreeNodeID>,
    from: int,
    answers: Seq<Status>,
    limit: nat,
)
    requires
        node < tree.nodes.len(),
        tree.keeps_track(node, all),
        tree.leaves_once(all),
        0 <= from <= all.len(),
        fails_again(tree.pass_leaves(node, all.skip(from), answers, limit), answers),
    ensures
        ({
            let (after, left) = tree.pass(node, all.skip(from), answers, limit);
            let asked = tree.pass_leaves(node, all.skip(from), answers, limit);
            &&& after.keeps_track(node, all)
            &&& after.leaves_once(all)
            &&& after.nodes.len() == tree.nodes.len()
            &&& after.tree == tree.tree
            &&& forall|k: int|
                from <= k < all.len() ==> (#[trigger] after.nodes[all[k].0 as int]).status() is Some
            &&& forall|k: int|
                0 <= k < from ==> #[trigger] after.nodes[all[k].0 as int] == tree.nodes[all[k].0 as int]
            &&& forall|i: int|
                0 <= i ==> #[trigger] nth_answer(left, i) == nth_answer(answers, i + asked.len())
        }),
    decreases all.len() - from,
{
    let children = all.skip(from);
    if children.len() > 0 {
        let first = children[0];
        assert(first == all[from]);
        let rest = children.skip(1);
        assert(rest =~= all.skip(from + 1));
        let ticked = tree.tick(node);
        assert(tree.nodes[node as int].tick_status() == Status::Running);
        assert(first.0 != node);
        assert forall|k: int| 0 <= k < all.len() implies ticked.nodes[(#[trigger] all[k]).0 as int]
            == tree.nodes[all[k].0 as int] by {}
        if ticked.nodes[first.0 as int].status() == Some(Status::Success) {
            assert(ticked.holding(all, Status::Failure) =~= tree.holding(all, Status::Failure)) by {
                assert forall|id: usize|
                    ticked.holding(all, Status::Failure).contains(id) <==> tree.holding(
                        all,
                        Status::Failure,
                    ).contains(id) by {
                    if ticked.holding(all, Status::Failure).contains(id) {
                        let k = choose|k: int|
                            0 <= k < all.len() && (#[trigger] all[k]).0 == id
                                && ticked.nodes[id as int].status() == Some(Status::Failure);
                        assert(tree.nodes[all[k].0 as int].status() == Some(Status::Failure));
                    }
                    if tree.holding(all, Status::Failure).contains(id) {
                        let k = choose|k: int|
                            0 <= k < all.len() && (#[trigger] all[k]).0 == id
                                && tree.nodes[id as int].status() == Some(Status::Failure);
                        assert(ticked.nodes[all[k].0 as int].status() == Some(Status::Failure));
                    }
                }
            }
            assert(ticked.holding(all, Status::Running) =~= tree.holding(all, Status::Running)) by {
                assert forall|id: usize|
                    ticked.holding(all, Status::Running).contains(id) <==> tree.holding(
                        all,
                        Status::Running,
                    ).contains(id) by {
                    if ticked.holding(all, Status::Running).contains(id) {
                        let k = choose|k: int|
                            0 <= k < all.len() && (#[trigger] all[k]).0 == id
                                && ticked.nodes[id as int].status() == Some(Status::Running);
                        assert(tree.nodes[all[k].0 as int].status() == Some(Status::Running));
                    }
                    if tree.holding(all, Status::Running).contains(id) {
                        let k = choose|k: int|
                            0 <= k < all.len() && (#[trigger] all[k]).0 == id
                                && tree.nodes[id as int].status() == Some(Status::Running);
                        assert(ticked.nodes[all[k].0 as int].status() == Some(Status::Running));
                    }
                }
            }
            assert(ticked.keeps_track(node, all));
            assert(tree.pass_leaves(node, children, answers, limit) == ticked.pass_leaves(
                node,
                rest,
                answers,
                limit,
            ));
            lemma_parallel_pass_tracks(ticked, node, all, from + 1, answers, limit);
            let (after, left) = ticked.pass(node, rest, answers, limit);
            assert forall|k: int| 0 <= k < from implies #[trigger] after.nodes[all[k].0 as int]
                == tree.nodes[all[k].0 as int] by {
                assert(after.nodes[all[k].0 as int] == ticked.nodes[all[k].0 as int]);
            }
            assert forall|k: int| from <= k < all.len() implies (
            #[trigger] after.nodes[all[k].0 as int]).status() is Some by {
                if k == from {
                    assert(after.nodes[all[k].0 as int] == ticked.nodes[all[k].0 as int]);
                }
            }
        } else {
            let status = next_answer(answers);
            let later = later_answers(answers);
            let told = tree.answered(node, first, status);
            let leaf = tree.nodes[first.0 as int]->Leaf_0;
            assert(ticked.visit(node, first, answers, limit) == (told, later));
            assert(ticked.visit_leaves(node, first, answers, limit) == seq![leaf]);
            let asked = tree.pass_leaves(node, children, answers, limit);
            let asked_later = told.pass_leaves(node, rest, later, limit);
            assert(asked == seq![leaf] + asked_later);
            assert(asked[0] == leaf);
            assert(nth_answer(answers, 0) == status);
            assert(tree.nodes[first.0 as int].status() == leaf.status);
            lemma_answer_tracked(tree, node, all, from, status);
            assert forall|i: int| 0 <= i implies #[trigger] nth_answer(later, i) == nth_answer(
                answers,
                i + 1,
            ) by {}
            assert(fails_again(asked_later, later)) by {
                assert forall|i: int|
                    0 <= i < asked_later.len() && (#[trigger] asked_later[i]).status == Some(
                        Status::Failure,
                    ) implies nth_answer(later, i) == Status::Failure by {
                    assert(asked[i + 1] == asked_later[i]);
                    assert(nth_answer(answers, i + 1) == Status::Failure);
                }
            }
            lemma_parallel_pass_tracks(told, node, all, from + 1, later, limit);
            let (after, left) = told.pass(node, rest, later, limit);
            assert forall|k: int| 0 <= k < from implies #[trigger] after.nodes[all[k].0 as int]
                == tree.nodes[all[k].0 as int] by {
                assert(after.nodes[all[k].0 as int] == told.nodes[all[k].0 as int]);
            }
            assert forall|k: int| from <= k < all.len() implies (
            #[trigger] after.nodes[all[k].0 as int]).status() is Some by {
                if k == from {
                    assert(after.nodes[all[k].0 as int] == told.nodes[all[k].0 as int]);
                }
            }
            assert forall|i: int| 0 <= i implies #[trigger] nth_answer(left, i) == nth_answer(
                answers,
                i + asked.len(),
            ) by {
                assert(nth_answer(left, i) == nth_answer(later, i + asked_later.len()));
                assert(nth_answer(later, i + asked_later.len()) == nth_answer(
                    answers,
                    i + asked_later.len() + 1,
                ));
            }
        }
    } else {
        assert(tree.pass_leaves(node, children, answers, limit) =~= Seq::<LeafNode>::empty());
    }
}

/// The passes of a parallel that keeps track of its leaves, where a leaf
/// that has failed fails again: where they end with a terminal status,
/// every leaf holds a terminal status, and the parallel has succeeded if and
/// only if every leaf has.
pub proof fn lemma_parallel_passes_settle<D: Decorator>(
    tree: TreeView<D>,
    node: usize,
    answers: Seq<Status>,
    limit: nat,
)
    requires
        node < tree.nodes.len(),
        tree.keeps_track(node, tree.tree[node]),
        tree.leaves_once(tree.tree[node]),
        tree.nodes[node as int].reset_requests() == Seq::<CTreeNodeID>::empty(),
        fails_again(tree.passes_leaves(node, answers, limit), answers),
    ensures
        ({
            let (after, left, status) = tree.passes(node, answers, limit);
            status != Status::Running ==> after.all_settled(tree.tree[node], status)
        }),
    decreases limit,
{
    if limit > 0 {
        let all = tree.tree[node];
        let below = (limit - 1) as nat;
        let asked = tree.pass_leaves(node, all, answers, below);
        let (passed, left) = tree.pass(node, all, answers, below);
        let closed = passed.close_pass(node);
        let status = closed.nodes[node as int].tick_status();
        let cleared = closed.tick(node).handle_resets(node);
        let asked_later = if status == Status::Running {
            cleared.passes_leaves(node, left, below)
        } else {
            Seq::<LeafNode>::empty()
        };
        let all_asked = tree.passes_leaves(node, answers, limit);
        assert(all_asked == asked + asked_later);
        assert(all.skip(0) =~= all);
        assert(fails_again(asked, answers)) by {
            assert forall|i: int|
                0 <= i < asked.len() && (#[trigger] asked[i]).status == Some(
                    Status::Failure,
                ) implies nth_answer(answers, i) == Status::Failure by {
                assert(all_asked[i] == asked[i]);
            }
        }
        lemma_parallel_pass_tracks(tree, node, all, 0, answers, below);
        assert forall|k: int| 0 <= k < all.len() implies (#[trigger] all[k]).0 < tree.nodes.len()
            && tree.nodes[all[k].0 as int] is Leaf by {}
        lemma_pass_keeps_requests(tree, node, all, answers, below);
        let waiting = passed.nodes[node as int].parallel();
        assert(closed.tick(node).nodes[node as int].reset_requests() == Seq::<
            CTreeNodeID,
        >::empty());
        assert(closed.tick(node).nodes[node as int].without_requests() == closed.tick(
            node,
        ).nodes[node as int]);
        assert(cleared.nodes =~= closed.tick(node).nodes);
        assert forall|k: int| 0 <= k < all.len() implies cleared.nodes[(
        #[trigger] all[k]).0 as int] == passed.nodes[all[k].0 as int] by {
            assert(all[k].0 != node);
        }
        if status == Status::Running {
            assert(!waiting.pending.is_empty());
            assert(cleared.nodes[node as int].parallel() == waiting);
            assert(cleared.holding(all, Status::Failure) =~= passed.holding(
                all,
                Status::Failure,
            )) by {
                assert forall|id: usize|
                    cleared.holding(all, Status::Failure).contains(id) <==> passed.holding(
                        all,
                        Status::Failure,
                    ).contains(id) by {
                    if cleared.holding(all, Status::Failure).contains(id) {
                        let k = choose|k: int|
                            0 <= k < all.len() && (#[trigger] all[k]).0 == id
                                && cleared.nodes[id as int].status() == Some(Status::Failure);
                        assert(passed.nodes[all[k].0 as int].status() == Some(Status::Failure));
                    }
                    if passed.holding(all, Status::Failure).contains(id) {
                        let k = choose|k: int|
                            0 <= k < all.len() && (#[trigger] all[k]).0 == id
                                && passed.nodes[id as int].status() == Some(Status::Failure);
                        assert(cleared.nodes[all[k].0 as int].status() == Some(Status::Failure));
                    }
                }
            }
            assert(cleared.holding(all, Status::Running) =~= passed.holding(
                all,
                Status::Running,
            )) by {
                assert forall|id: usize|
                    cleared.holding(all, Status::Running).contains(id) <==> passed.holding(
                        all,
                        Status::Running,
                    ).contains(id) by {
                    if cleared.holding(all, Status::Running).contains(id) {
                        let k = choose|k: int|
                            0 <= k < all.len() && (#[trigger] all[k]).0 == id
                                && cleared.nodes[id as int].status() == Some(Status::Running);
                        assert(passed.nodes[all[k].0 as int].status() == Some(Status::Running));
                    }
                    if passed.holding(all, Status::Running).contains(id) {
                        let k = choose|k: int|
                            0 <= k < all.len() && (#[trigger] all[k]).0 == id
                                && passed.nodes[id as int].status() == Some(Status::Running);
                        assert(cleared.nodes[all[k].0 as int].status() == Some(Status::Running));
                    }
                }
            }
            assert(cleared.keeps_track(node, all));
            assert(cleared.tree == tree.tree);
            assert(cleared.leaves_once(all));
            assert(fails_again(asked_later, left)) by {
                assert forall|i: int|
                    0 <= i < asked_later.len() && (#[trigger] asked_later[i]).status == Some(
                        Status::Failure,
                    ) implies nth_answer(left, i) == Status::Failure by {
                    assert(all_asked[i + asked.len()] == asked_later[i]);
                    assert(nth_answer(left, i) == nth_answer(answers, i + asked.len()));
                }
            }
            lemma_parallel_passes_settle(cleared, node, left, below);
        } else {
            // the parallel has finished: it waits for no leaf, and it has
            // failed if it has seen a leaf fail
            assert(waiting.pending.is_empty());
            assert(waiting.pending =~= Set::<usize>::empty());
            assert forall|k: int| 0 <= k < all.len() implies (
            #[trigger] cleared.nodes[all[k].0 as int]).status() is Some
                && cleared.nodes[all[k].0 as int].status() != Some(Status::Running) by {
                assert(passed.nodes[all[k].0 as int].status() is Some);
                if passed.nodes[all[k].0 as int].status() == Some(Status::Running) {
                    assert(passed.holding(all, Status::Running).contains(all[k].0));
                }
            }
            if forall|k: int|
                0 <= k < all.len() ==> (#[trigger] cleared.nodes[all[k].0 as int]).status()
                    == Some(Status::Success) {
                assert(passed.holding(all, Status::Failure) =~= Set::<usize>::empty()) by {
                    assert forall|id: usize|
                        !passed.holding(all, Status::Failure).contains(id) by {
                        if passed.holding(all, Status::Failure).contains(id) {
                            let k = choose|k: int|
                                0 <= k < all.len() && (#[trigger] all[k]).0 == id
                                    && passed.nodes[id as int].status() == Some(
                                    Status::Failure,
                                );
                            assert(cleared.nodes[all[k].0 as int].status() == Some(
                                Status::Success,
                            ));
                        }
                    }
                }
                assert(status == Status::Success);
            } else {
                let k = choose|k: int|
                    0 <= k < all.len() && (#[trigger] cleared.nodes[all[k].0 as int]).status()
                        != Some(Status::Success);
                assert(cleared.nodes[all[k].0 as int].status() == Some(Status::Failure));
                assert(passed.holding(all, Status::Failure).contains(all[k].0));
                assert(!waiting.failure.is_empty());
                assert(status == Status::Failure);
            }
        }
    }
}

/// A run from a parallel over leaves that has seen none of them, where a
/// leaf that has failed fails again: where the run ends with a terminal
/// status, every leaf holds a terminal status, and the run has come to
/// success if and only if every leaf has succeeded, and else to failure.
/// The leaves may have kept the parallel waiting for any number of passes.
pub proof fn lemma_parallel_run_settles<D: Decorator>(
    tree: TreeView<D>,
    node: usize,
    answers: Seq<Status>,
    limit: nat,
)
    requires
        node < tree.nodes.len(),
        tree.nodes[node as int].is_open_parallel(Set::empty()),
        tree.nodes[node as int].reset_requests() == Seq::<CTreeNodeID>::empty(),
        tree.leaves_once(tree.tree[node]),
        forall|k: int|
            0 <= k < tree.tree[node].len() ==> (#[trigger] tree.nodes[tree.tree[node][k].0 as int]).status()
                is None,
        fails_again(tree.run_from_leaves(node, answers, limit), answers),
    ensures
        ({
            let (after, left, status) = tree.run_from(node, answers, limit);
            status != Status::Running ==> after.all_settled(tree.tree[node], status)
        }),
{
    let all = tree.tree[node];
    let ticked = tree.tick(node);
    assert(tree.nodes[node as int].tick_status() == Status::Running);
    assert(ticked.nodes[node as int] == tree.nodes[node as int].ticked());
    assert(ticked.nodes[node as int].is_running_parallel());
    assert forall|k: int| 0 <= k < all.len() implies ticked.nodes[(#[trigger] all[k]).0 as int]
        == tree.nodes[all[k].0 as int] by {}
    assert(ticked.holding(all, Status::Failure) =~= Set::<usize>::empty()) by {
        assert forall|id: usize| !ticked.holding(all, Status::Failure).contains(id) by {
            if ticked.holding(all, Status::Failure).contains(id) {
                let k = choose|k: int|
                    0 <= k < all.len() && (#[trigger] all[k]).0 == id
                        && ticked.nodes[id as int].status() == Some(Status::Failure);
                assert(tree.nodes[all[k].0 as int].status() is None);
            }
        }
    }
    assert(ticked.holding(all, Status::Running) =~= Set::<usize>::empty()) by {
        assert forall|id: usize| !ticked.holding(all, Status::Running).contains(id) by {
            if ticked.holding(all, Status::Running).contains(id) {
                let k = choose|k: int|
                    0 <= k < all.len() && (#[trigger] all[k]).0 == id
                        && ticked.nodes[id as int].status() == Some(Status::Running);
                assert(tree.nodes[all[k].0 as int].status() is None);
            }
        }
    }
    assert(ticked.keeps_track(node, all));
    lemma_parallel_passes_settle(ticked, node, answers, limit);
}

/// A run from a parallel over leaves that has seen none of them, with a
/// hook that answers with failure for a leaf that has failed: where the run
/// ends with a terminal status, every leaf holds a terminal status, and the
/// run has come to success if and only if every leaf has succeeded, and
/// else to failure. The hook may have answered that a leaf is running as
/// often as it liked.
///
/// `after` and `status` are what the run left and gave, `answers` what the
/// hook answered, and `states` what it went through.
pub proof fn lemma_parallel_waits_for_every_leaf<D: Decorator, Hook: ExecutorHook>(
    tree: TreeView<D>,
    after: TreeView<D>,
    node: usize,
    answers: Seq<Status>,
    states: Seq<Hook>,
    status: Status,
    limit: nat,
)
    requires
        node < tree.nodes.len(),
        tree.nodes[node as int].is_open_parallel(Set::empty()),
        tree.nodes[node as int].reset_requests() == Seq::<CTreeNodeID>::empty(),
        tree.leaves_once(tree.tree[node]),
        forall|k: int|
            0 <= k < tree.tree[node].len() ==> (#[trigger] tree.nodes[tree.tree[node][k].0 as int]).status()
                is None,
        fails_for_good::<Hook>(),
        asked_in_turn::<Hook>(states, tree.run_from_leaves(node, answers, limit), answers),
        tree.run_from(node, answers, limit) == (after, Seq::<Status>::empty(), status),
    ensures
        status != Status::Running ==> after.all_settled(tree.tree[node], status),
{
    let leaves = tree.run_from_leaves(node, answers, limit);
    assert(fails_again(leaves, answers)) by {
        assert forall|i: int|
            0 <= i < leaves.len() && (#[trigger] leaves[i]).status == Some(
                Status::Failure,
            ) implies nth_answer(answers, i) == Status::Failure by {
            assert(states[i].answers(leaves[i], answers[i], &states[i + 1]));
        }
    }
    lemma_parallel_run_settles(tree, node, answers, limit);
}

} // verus!
