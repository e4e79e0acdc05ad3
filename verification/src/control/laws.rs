//! What a pass over leaves does to a sequence, a fallback and a parallel:
//! which leaves are visited, in which order, and what the node makes of it.

use super::control_nodes::ControlNodeTypeView;
use super::engine::{later_answers, next_answer};
use super::{CTreeNodeID, CTreeNodeView, ChildUpdate, TreeView};
use crate::traits::Decorator;
use crate::Status;
use vstd::prelude::*;

verus! {

impl<D: Decorator> CTreeNodeView<D> {
    /// The node is a sequence that has not failed nor finished and waits
    /// for no child. The root is one as long as it runs.
    pub open spec fn is_open_sequence(self) -> bool {
        match self {
            CTreeNodeView::Root(root) => root.node_type matches ControlNodeTypeView::Sequence(s)
                && s.pending == Set::<usize>::empty() && s.failed is None && !s.finished,
            CTreeNodeView::Control(control) => control.node_type matches ControlNodeTypeView::Sequence(
                s,
            ) && s.pending == Set::<usize>::empty() && s.failed is None && !s.finished,
            CTreeNodeView::Leaf(_) => false,
        }
    }
}

impl<D: Decorator> CTreeNodeView<D> {
    /// The node is a fallback that has neither succeeded nor failed.
    pub open spec fn is_open_fallback(self) -> bool {
        match self {
            CTreeNodeView::Root(root) => root.node_type matches ControlNodeTypeView::Fallback(f)
                && Status::or_running(f.status) == Status::Running,
            CTreeNodeView::Control(control) => control.node_type matches ControlNodeTypeView::Fallback(
                f,
            ) && Status::or_running(f.status) == Status::Running,
            CTreeNodeView::Leaf(_) => false,
        }
    }

    /// The node is a parallel that has not finished and waits for no child;
    /// `failed` are the children that it has seen fail.
    pub open spec fn is_open_parallel(self, failed: Set<usize>) -> bool {
        match self {
            CTreeNodeView::Root(root) => root.node_type matches ControlNodeTypeView::Parallel(p)
                && p.pending == Set::<usize>::empty() && !p.finished && p.failure == failed,
            CTreeNodeView::Control(control) => control.node_type matches ControlNodeTypeView::Parallel(
                p,
            ) && p.pending == Set::<usize>::empty() && !p.finished && p.failure == failed,
            CTreeNodeView::Leaf(_) => false,
        }
    }
}

/// Those of `children` whose answer is failure.
pub open spec fn failures(children: Seq<CTreeNodeID>, answers: Seq<Status>) -> Set<usize> {
    Set::new(
        |id: usize|
            exists|i: int|
                0 <= i < children.len() && (#[trigger] children[i]).0 == id && answers[i]
                    == Status::Failure,
    )
}

impl<D: Decorator> TreeView<D> {
    /// `children` are leaves of the tree, each listed once, none of which
    /// has succeeded already.
    pub open spec fn leaves_to_run(self, children: Seq<CTreeNodeID>) -> bool {
        &&& children.no_duplicates()
        &&& forall|i: int|
            0 <= i < children.len() ==> {
                &&& (#[trigger] children[i]).0 < self.nodes.len()
                &&& self.nodes[children[i].0 as int] is Leaf
                &&& self.nodes[children[i].0 as int].status() != Some(Status::Success)
            }
    }
}

/// A node that has reached a terminal status is ticked once more, and the
/// rest of the pass visits nothing.
pub proof fn lemma_pass_stops<D: Decorator>(
    tree: TreeView<D>,
    node: usize,
    children: Seq<CTreeNodeID>,
    answers: Seq<Status>,
    limit: nat,
)
    requires
        tree.nodes[node as int].tick_status() != Status::Running,
    ensures
        tree.pass(node, children, answers, limit) == (if children.len() == 0 {
            (tree, answers)
        } else {
            (tree.tick(node), answers)
        }),
{
}

/// A sequence visits its leaves from left to right for as long as they
/// succeed. It fails at the first leaf that fails, and the leaves behind
/// that one are not visited; where all `children` succeed, it succeeds at
/// the close of the pass.
///
/// `stop` is the place of the first leaf that fails, or the number of leaves
/// where none does.
pub proof fn lemma_sequence_pass<D: Decorator>(
    tree: TreeView<D>,
    node: usize,
    children: Seq<CTreeNodeID>,
    answers: Seq<Status>,
    limit: nat,
    stop: int,
)
    requires
        node < tree.nodes.len(),
        tree.nodes[node as int].is_open_sequence(),
        tree.leaves_to_run(children),
        0 <= stop <= children.len(),
        stop <= answers.len(),
        forall|i: int| 0 <= i < stop ==> answers[i] == Status::Success,
        stop < children.len() ==> stop < answers.len() && answers[stop] == Status::Failure,
    ensures
        ({
            let visited = if stop < children.len() {
                stop + 1
            } else {
                stop
            };
            let (after, left) = tree.pass(node, children, answers, limit);
            &&& left == answers.skip(visited)
            &&& after.nodes.len() == tree.nodes.len()
            &&& forall|i: int|
                0 <= i < visited ==> (#[trigger] after.nodes[children[i].0 as int]).status() == Some(
                    answers[i],
                )
            &&& forall|i: int|
                visited <= i < children.len() ==> #[trigger] after.nodes[children[i].0 as int]
                    == tree.nodes[children[i].0 as int]
            &&& stop < children.len() ==> after.nodes[node as int].tick_status() == Status::Failure
            &&& stop == children.len() ==> {
                &&& after.nodes[node as int].tick_status() == Status::Running
                &&& after.close_pass(node).nodes[node as int].tick_status() == Status::Success
            }
        }),
    decreases children.len(),
{
    if children.len() > 0 {
        let first = children[0];
        let rest = children.skip(1);
        let ticked = tree.tick(node);
        assert(tree.nodes[node as int].tick_status() == Status::Running);
        assert(ticked.nodes[first.0 as int] == tree.nodes[first.0 as int]);
        let status = next_answer(answers);
        let update = ChildUpdate { status, child_id: first };
        let hooked = ticked.with_node(
            first.0,
            ticked.nodes[first.0 as int].with_status(Some(status)),
        );
        let told = hooked.tell(node, update);
        assert(ticked.visit(node, first, answers, limit) == (told, later_answers(answers)));
        assert(tree.pass(node, children, answers, limit) == told.pass(
            node,
            rest,
            later_answers(answers),
            limit,
        ));
        assert(told.nodes[first.0 as int].status() == Some(status));
        assert forall|i: int| 0 <= i < rest.len() implies #[trigger] told.nodes[rest[i].0 as int]
            == tree.nodes[rest[i].0 as int] by {
            assert(rest[i] == children[i + 1]);
            assert(children[i + 1] != children[0]);
        }
        if stop == 0 {
            lemma_pass_stops(told, node, rest, later_answers(answers), limit);
            assert(later_answers(answers) == answers.skip(1));
        } else {
            assert(answers[0] == Status::Success);
            let ticked_payload = match ticked.nodes[node as int] {
                CTreeNodeView::Root(root) => root.node_type->Sequence_0,
                CTreeNodeView::Control(control) => control.node_type->Sequence_0,
                CTreeNodeView::Leaf(_) => arbitrary(),
            };
            assert(ticked_payload.pending.remove(first.0) =~= Set::<usize>::empty());
            assert(told.nodes[node as int].is_open_sequence());
            assert forall|i: int| 0 <= i < rest.len() implies {
                &&& (#[trigger] rest[i]).0 < told.nodes.len()
                &&& told.nodes[rest[i].0 as int] is Leaf
                &&& told.nodes[rest[i].0 as int].status() != Some(Status::Success)
            } by {
                assert(rest[i] == children[i + 1]);
                assert(told.nodes[rest[i].0 as int] == tree.nodes[rest[i].0 as int]);
            }
            let later = answers.skip(1);
            assert(later_answers(answers) == later);
            assert forall|i: int| 0 <= i < stop - 1 implies later[i] == Status::Success by {
                assert(later[i] == answers[i + 1]);
            }
            lemma_sequence_pass(told, node, rest, later, limit, stop - 1);
            let (after, left) = told.pass(node, rest, later, limit);
            let visited = if stop < children.len() {
                stop + 1
            } else {
                stop
            };
            assert(later.skip(visited - 1) =~= answers.skip(visited));
            assert forall|i: int| 0 <= i < visited implies (#[trigger] after.nodes[children[i].0 as int]).status()
                == Some(answers[i]) by {
                if i == 0 {
                    if rest.len() > 0 {
                        // the first leaf is none of the rest, which alone the rest of the pass touches
                        lemma_pass_keeps_others(told, node, rest, later, limit, first.0);
                    }
                } else {
                    assert(rest[i - 1] == children[i]);
                    assert(later[i - 1] == answers[i]);
                }
            }
            assert forall|i: int| visited <= i < children.len() implies #[trigger] after.nodes[children[i].0 as int]
                == tree.nodes[children[i].0 as int] by {
                assert(rest[i - 1] == children[i]);
            }
        }
    } else {
        let payload = match tree.nodes[node as int] {
            CTreeNodeView::Root(root) => root.node_type->Sequence_0,
            CTreeNodeView::Control(control) => control.node_type->Sequence_0,
            CTreeNodeView::Leaf(_) => arbitrary(),
        };
        assert(payload.pending.is_empty());
        assert(answers.skip(0) =~= answers);
    }
}

/// A pass over leaves leaves every node but the node of the pass and these
/// leaves as it was.
pub proof fn lemma_pass_keeps_others<D: Decorator>(
    tree: TreeView<D>,
    node: usize,
    children: Seq<CTreeNodeID>,
    answers: Seq<Status>,
    limit: nat,
    other: usize,
)
    requires
        node < tree.nodes.len(),
        other < tree.nodes.len(),
        other != node,
        forall|i: int|
            0 <= i < children.len() ==> {
                &&& (#[trigger] children[i]).0 < tree.nodes.len()
                &&& tree.nodes[children[i].0 as int] is Leaf
                &&& children[i].0 != other
            },
        !(tree.nodes[node as int] is Leaf),
    ensures
        tree.pass(node, children, answers, limit).0.nodes[other as int] == tree.nodes[other as int],
        tree.pass(node, children, answers, limit).0.nodes.len() == tree.nodes.len(),
    decreases children.len(),
{
    if children.len() > 0 {
        let first = children[0];
        let rest = children.skip(1);
        let ticked = tree.tick(node);
        if tree.nodes[node as int].tick_status() == Status::Running {
            assert forall|i: int| 0 <= i < rest.len() implies {
                &&& (#[trigger] rest[i]).0 < tree.nodes.len()
                &&& tree.nodes[rest[i].0 as int] is Leaf
                &&& rest[i].0 != other
            } by {
                assert(rest[i] == children[i + 1]);
            }
            assert(ticked.nodes[other as int] == tree.nodes[other as int]);
            assert(first.0 != node);
            if ticked.nodes[first.0 as int].status() == Some(Status::Success) {
                assert forall|i: int| 0 <= i < rest.len() implies ticked.nodes[(
                #[trigger] rest[i]).0 as int] is Leaf by {
                    assert(rest[i] == children[i + 1]);
                    assert(ticked.nodes[rest[i].0 as int] == tree.nodes[rest[i].0 as int]);
                }
                lemma_pass_keeps_others(ticked, node, rest, answers, limit, other);
            } else {
                let status = next_answer(answers);
                let update = ChildUpdate { status, child_id: first };
                let hooked = ticked.with_node(
                    first.0,
                    ticked.nodes[first.0 as int].with_status(Some(status)),
                );
                let told = hooked.tell(node, update);
                assert(ticked.nodes[first.0 as int] is Leaf);
                assert(ticked.visit(node, first, answers, limit) == (told, later_answers(answers)));
                assert(told.nodes[other as int] == tree.nodes[other as int]);
                assert forall|i: int| 0 <= i < rest.len() implies told.nodes[(
                #[trigger] rest[i]).0 as int] is Leaf by {
                    assert(rest[i] == children[i + 1]);
                    assert(tree.nodes[rest[i].0 as int] is Leaf);
                }
                lemma_pass_keeps_others(told, node, rest, later_answers(answers), limit, other);
            }
        }
    }
}

/// A fallback visits its leaves from left to right for as long as none
/// succeeds. It succeeds at the first leaf that succeeds, and the leaves
/// behind that one are not visited; where none of `children` succeeds, it
/// fails at the close of the pass.
///
/// `stop` is the place of the first leaf that succeeds, or the number of
/// leaves where none does.
pub proof fn lemma_fallback_pass<D: Decorator>(
    tree: TreeView<D>,
    node: usize,
    children: Seq<CTreeNodeID>,
    answers: Seq<Status>,
    limit: nat,
    stop: int,
)
    requires
        node < tree.nodes.len(),
        tree.nodes[node as int].is_open_fallback(),
        tree.leaves_to_run(children),
        0 <= stop <= children.len(),
        stop <= answers.len(),
        forall|i: int| 0 <= i < stop ==> answers[i] != Status::Success,
        stop < children.len() ==> stop < answers.len() && answers[stop] == Status::Success,
    ensures
        ({
            let visited = if stop < children.len() {
                stop + 1
            } else {
                stop
            };
            let (after, left) = tree.pass(node, children, answers, limit);
            &&& left == answers.skip(visited)
            &&& after.nodes.len() == tree.nodes.len()
            &&& forall|i: int|
                0 <= i < visited ==> (#[trigger] after.nodes[children[i].0 as int]).status() == Some(
                    answers[i],
                )
            &&& forall|i: int|
                visited <= i < children.len() ==> #[trigger] after.nodes[children[i].0 as int]
                    == tree.nodes[children[i].0 as int]
            &&& stop < children.len() ==> after.nodes[node as int].tick_status() == Status::Success
            &&& stop == children.len() ==> {
                &&& after.nodes[node as int].tick_status() == Status::Running
                &&& after.close_pass(node).nodes[node as int].tick_status() == Status::Failure
            }
        }),
    decreases children.len(),
{
    if children.len() > 0 {
        let first = children[0];
        let rest = children.skip(1);
        let ticked = tree.tick(node);
        assert(tree.nodes[node as int].tick_status() == Status::Running);
        assert(ticked.nodes[first.0 as int] == tree.nodes[first.0 as int]);
        let status = next_answer(answers);
        let update = ChildUpdate { status, child_id: first };
        let hooked = ticked.with_node(
            first.0,
            ticked.nodes[first.0 as int].with_status(Some(status)),
        );
        let told = hooked.tell(node, update);
        assert(ticked.visit(node, first, answers, limit) == (told, later_answers(answers)));
        assert(tree.pass(node, children, answers, limit) == told.pass(
            node,
            rest,
            later_answers(answers),
            limit,
        ));
        assert(told.nodes[first.0 as int].status() == Some(status));
        assert forall|i: int| 0 <= i < rest.len() implies #[trigger] told.nodes[rest[i].0 as int]
            == tree.nodes[rest[i].0 as int] by {
            assert(rest[i] == children[i + 1]);
            assert(children[i + 1] != children[0]);
        }
        if stop == 0 {
            lemma_pass_stops(told, node, rest, later_answers(answers), limit);
            assert(later_answers(answers) == answers.skip(1));
        } else {
            assert(answers[0] != Status::Success);
            assert(told.nodes[node as int].is_open_fallback());
            assert forall|i: int| 0 <= i < rest.len() implies {
                &&& (#[trigger] rest[i]).0 < told.nodes.len()
                &&& told.nodes[rest[i].0 as int] is Leaf
                &&& told.nodes[rest[i].0 as int].status() != Some(Status::Success)
            } by {
                assert(rest[i] == children[i + 1]);
                assert(told.nodes[rest[i].0 as int] == tree.nodes[rest[i].0 as int]);
            }
            let later = answers.skip(1);
            assert(later_answers(answers) == later);
            assert forall|i: int| 0 <= i < stop - 1 implies later[i] != Status::Success by {
                assert(later[i] == answers[i + 1]);
            }
            lemma_fallback_pass(told, node, rest, later, limit, stop - 1);
            let (after, left) = told.pass(node, rest, later, limit);
            let visited = if stop < children.len() {
                stop + 1
            } else {
                stop
            };
            assert(later.skip(visited - 1) =~= answers.skip(visited));
            assert forall|i: int| 0 <= i < visited implies (#[trigger] after.nodes[children[i].0 as int]).status()
                == Some(answers[i]) by {
                if i == 0 {
                    if rest.len() > 0 {
                        lemma_pass_keeps_others(told, node, rest, later, limit, first.0);
                    }
                } else {
                    assert(rest[i - 1] == children[i]);
                    assert(later[i - 1] == answers[i]);
                }
            }
            assert forall|i: int| visited <= i < children.len() implies #[trigger] after.nodes[children[i].0 as int]
                == tree.nodes[children[i].0 as int] by {
                assert(rest[i - 1] == children[i]);
            }
        }
    } else {
        assert(answers.skip(0) =~= answers);
    }
}

/// A parallel visits every one of its leaves, whatever the leaves before
/// answered. Where every leaf answers with a terminal status, the parallel
/// has finished at the close of the pass: it has failed if it has seen a
/// child fail, and else it has succeeded.
pub proof fn lemma_parallel_pass<D: Decorator>(
    tree: TreeView<D>,
    node: usize,
    children: Seq<CTreeNodeID>,
    answers: Seq<Status>,
    limit: nat,
    failed: Set<usize>,
)
    requires
        node < tree.nodes.len(),
        tree.nodes[node as int].is_open_parallel(failed),
        tree.leaves_to_run(children),
        children.len() <= answers.len(),
        forall|i: int| 0 <= i < children.len() ==> answers[i] != Status::Running,
    ensures
        ({
            let (after, left) = tree.pass(node, children, answers, limit);
            let seen_failed = failed.union(failures(children, answers));
            &&& left == answers.skip(children.len() as int)
            &&& after.nodes.len() == tree.nodes.len()
            &&& forall|i: int|
                0 <= i < children.len() ==> (#[trigger] after.nodes[children[i].0 as int]).status()
                    == Some(answers[i])
            &&& after.nodes[node as int].is_open_parallel(seen_failed)
            &&& after.close_pass(node).nodes[node as int].tick_status() == (if seen_failed
                == Set::<usize>::empty() {
                Status::Success
            } else {
                Status::Failure
            })
        }),
    decreases children.len(),
{
    if children.len() > 0 {
        let first = children[0];
        let rest = children.skip(1);
        let ticked = tree.tick(node);
        assert(tree.nodes[node as int].tick_status() == Status::Running);
        assert(ticked.nodes[first.0 as int] == tree.nodes[first.0 as int]);
        let status = next_answer(answers);
        let update = ChildUpdate { status, child_id: first };
        let hooked = ticked.with_node(
            first.0,
            ticked.nodes[first.0 as int].with_status(Some(status)),
        );
        let told = hooked.tell(node, update);
        assert(ticked.visit(node, first, answers, limit) == (told, later_answers(answers)));
        assert(tree.pass(node, children, answers, limit) == told.pass(
            node,
            rest,
            later_answers(answers),
            limit,
        ));
        assert(told.nodes[first.0 as int].status() == Some(status));
        let later = answers.skip(1);
        assert(later_answers(answers) == later);
        let now_failed = if status == Status::Failure {
            failed.insert(first.0)
        } else {
            failed
        };
        assert(answers[0] != Status::Running);
        assert(Set::<usize>::empty().remove(first.0) =~= Set::<usize>::empty());
        assert(told.nodes[node as int].is_open_parallel(now_failed));
        assert forall|i: int| 0 <= i < rest.len() implies {
            &&& (#[trigger] rest[i]).0 < told.nodes.len()
            &&& told.nodes[rest[i].0 as int] is Leaf
            &&& told.nodes[rest[i].0 as int].status() != Some(Status::Success)
        } by {
            assert(rest[i] == children[i + 1]);
            assert(children[i + 1] != children[0]);
            assert(told.nodes[rest[i].0 as int] == tree.nodes[rest[i].0 as int]);
        }
        assert forall|i: int| 0 <= i < rest.len() implies later[i] != Status::Running by {
            assert(later[i] == answers[i + 1]);
        }
        lemma_parallel_pass(told, node, rest, later, limit, now_failed);
        let (after, left) = told.pass(node, rest, later, limit);
        assert(later.skip(rest.len() as int) =~= answers.skip(children.len() as int));
        assert forall|i: int| 0 <= i < children.len() implies (#[trigger] after.nodes[children[i].0 as int]).status()
            == Some(answers[i]) by {
            if i == 0 {
                if rest.len() > 0 {
                    assert forall|k: int| 0 <= k < rest.len() implies (#[trigger] rest[k]).0
                        != first.0 by {
                        assert(rest[k] == children[k + 1]);
                        assert(children[k + 1] != children[0]);
                    }
                    lemma_pass_keeps_others(told, node, rest, later, limit, first.0);
                }
            } else {
                assert(rest[i - 1] == children[i]);
                assert(later[i - 1] == answers[i]);
            }
        }
        assert(now_failed.union(failures(rest, later)) =~= failed.union(
            failures(children, answers),
        )) by {
            assert forall|id: usize|
                now_failed.union(failures(rest, later)).contains(id) <==> failed.union(
                    failures(children, answers),
                ).contains(id) by {
                if failures(rest, later).contains(id) {
                    let i = choose|i: int|
                        0 <= i < rest.len() && (#[trigger] rest[i]).0 == id && later[i]
                            == Status::Failure;
                    assert(children[i + 1].0 == id && answers[i + 1] == Status::Failure);
                }
                if failures(children, answers).contains(id) {
                    let i = choose|i: int|
                        0 <= i < children.len() && (#[trigger] children[i]).0 == id && answers[i]
                            == Status::Failure;
                    if i > 0 {
                        assert(rest[i - 1].0 == id && later[i - 1] == Status::Failure);
                    }
                }
                if status == Status::Failure && id == first.0 {
                    assert(children[0].0 == id && answers[0] == Status::Failure);
                }
            }
        }
    } else {
        assert(answers.skip(0) =~= answers);
        assert(failed.union(failures(children, answers)) =~= failed);
    }
}

/// A parallel that has seen no child fail succeeds at the close of a pass
/// if and only if every one of its leaves has succeeded.
pub proof fn lemma_parallel_succeeds_iff_all_do<D: Decorator>(
    tree: TreeView<D>,
    node: usize,
    children: Seq<CTreeNodeID>,
    answers: Seq<Status>,
    limit: nat,
)
    requires
        node < tree.nodes.len(),
        tree.nodes[node as int].is_open_parallel(Set::empty()),
        tree.leaves_to_run(children),
        children.len() <= answers.len(),
        forall|i: int| 0 <= i < children.len() ==> answers[i] != Status::Running,
    ensures
        ({
            let (after, left) = tree.pass(node, children, answers, limit);
            let status = after.close_pass(node).nodes[node as int].tick_status();
            &&& status != Status::Running
            &&& status == Status::Success <==> forall|i: int|
                0 <= i < children.len() ==> answers[i] == Status::Success
        }),
{
    lemma_parallel_pass(tree, node, children, answers, limit, Set::empty());
    let seen_failed = Set::<usize>::empty().union(failures(children, answers));
    if forall|i: int| 0 <= i < children.len() ==> answers[i] == Status::Success {
        assert(seen_failed =~= Set::<usize>::empty());
    } else {
        let i = choose|i: int| 0 <= i < children.len() && answers[i] != Status::Success;
        assert(failures(children, answers).contains(children[i].0));
        assert(seen_failed.contains(children[i].0));
    }
}

} // verus!
