//! Branches whose leaves all fail: how many leaves a run of such a branch
//! asks before it fails.

use super::decorators::StandardDecorator;
use super::engine::{
    asked_in_turn, can_answer, later_answers, lemma_reaches_self, next_answer,
};
use super::laws::{failures, lemma_parallel_pass, lemma_pass_stops};
use super::settling::{
    all_failing, all_terminal, lemma_branch_kept, lemma_branch_of_child, lemma_done_stays,
    lemma_enough_more, lemma_repeater_run_settles, lemma_rested_node, lemma_same_ways,
    lemma_steady_ticked, lemma_steady_told, lemma_visit_settles,
};
use super::{CTreeNodeID, CTreeNodeView, ChildUpdate, LeafNode, TreeView};
use crate::traits::ExecutorHook;
use crate::Status;
use vstd::prelude::*;

verus! {

/// A parallel over leaves that all fail asks each of its leaves once, and
/// fails.
pub proof fn lemma_parallel_of_leaves_fails(base: TreeView<StandardDecorator>, node: usize)
    requires
        node < base.nodes.len(),
        base.tree.contains_key(node),
        base.nodes[node as int].rested(),
        base.nodes[node as int] matches CTreeNodeView::Control(control) && control.node_type
            is Parallel,
        base.tree[node].len() >= 1,
        base.tree[node].no_duplicates(),
        forall|i: int|
            0 <= i < base.tree[node].len() ==> {
                &&& (#[trigger] base.tree[node][i]).0 < base.nodes.len()
                &&& base.nodes[base.tree[node][i].0 as int] is Leaf
                &&& base.nodes[base.tree[node][i].0 as int].rested()
            },
    ensures
        base.fails_after(node, base.tree[node].len(), 1),
{
    let children = base.tree[node];
    assert forall|other: TreeView<StandardDecorator>, answers: Seq<Status>, limit: nat|
        base.agrees_below(node, other) && all_failing(answers) && answers.len() >= children.len()
            && limit >= 1 implies (#[trigger] other.run_from(node, answers, limit)).2
        == Status::Failure && other.run_from(node, answers, limit).1 == answers.skip(
        children.len() as int,
    ) by {
        lemma_rested_node(base.nodes[node as int]);
        let ticked = other.tick(node);
        assert(ticked.nodes[node as int] == base.nodes[node as int].ticked());
        assert(other.nodes[node as int].tick_status() == Status::Running) by {
            assert(other.nodes[node as int].ticked().status() == Some(
                other.nodes[node as int].tick_status(),
            ));
        }
        assert(other.run_from(node, answers, limit) == ticked.passes(node, answers, limit));
        let below = (limit - 1) as nat;
        assert forall|i: int| 0 <= i < children.len() implies {
            &&& (#[trigger] children[i]).0 < ticked.nodes.len()
            &&& ticked.nodes[children[i].0 as int] is Leaf
            &&& ticked.nodes[children[i].0 as int].status() != Some(Status::Success)
        } by {
            assert(base.tree[node].contains(CTreeNodeID(children[i].0)));
            let way = seq![node, children[i].0];
            assert(base.is_path(way) && way.first() == node && way.last() == children[i].0);
            assert(base.reaches(node, children[i].0));
            assert(children[i].0 != node);
        }
        lemma_parallel_pass(ticked, node, children, answers, below, Set::empty());
        let (passed, left) = ticked.pass(node, children, answers, below);
        let seen_failed = Set::<usize>::empty().union(failures(children, answers));
        assert(failures(children, answers).contains(children[0].0));
        assert(seen_failed.contains(children[0].0));
        let closed = passed.close_pass(node);
        assert(closed.nodes[node as int].tick_status() == Status::Failure);
    }
}

/// A sequence whose first child always fails asks the leaves that the run
/// of this child asks, and fails: one leaf where the child is a leaf.
pub proof fn lemma_sequence_fails_with_its_first_child(
    base: TreeView<StandardDecorator>,
    node: usize,
    height: nat,
    floor: nat,
    visits: nat,
)
    requires
        base.branch(node, height),
        base.enough(node, floor),
        base.rested_below(node),
        !(base.nodes[node as int] is Leaf),
        base.nodes[node as int].payload() is Sequence,
        base.tree[node].len() >= 1,
        if base.nodes[base.tree[node][0].0 as int] is Leaf {
            visits == 1
        } else {
            base.fails_after(base.tree[node][0].0, visits, (floor - 1) as nat)
        },
    ensures
        base.fails_after(node, visits, floor),
{
    lemma_reaches_self(base, node);
    lemma_rested_node(base.nodes[node as int]);
    lemma_branch_of_child(base, node, height, floor, 0);
    let children = base.tree[node];
    let child = children[0];
    lemma_reaches_self(base, child.0);
    assert forall|other: TreeView<StandardDecorator>, answers: Seq<Status>, limit: nat|
        base.agrees_below(node, other) && all_failing(answers) && answers.len() >= visits && limit
            >= floor implies (#[trigger] other.run_from(node, answers, limit)).2
        == Status::Failure && other.run_from(node, answers, limit).1 == answers.skip(
        visits as int,
    ) by {
        lemma_failing_is_terminal(answers);
        let ticked = other.tick(node);
        assert(ticked.nodes[node as int] == base.nodes[node as int].ticked());
        assert(other.nodes[node as int].tick_status() == Status::Running) by {
            assert(other.nodes[node as int].ticked().status() == Some(
                other.nodes[node as int].tick_status(),
            ));
        }
        assert(other.run_from(node, answers, limit) == ticked.passes(node, answers, limit));
        let below = (limit - 1) as nat;
        assert(ticked.nodes[node as int].steady());
        lemma_steady_ticked(ticked.nodes[node as int]);
        let again = ticked.tick(node);
        assert(base.rested_below(child.0)) by {
            assert forall|x: usize| #[trigger] base.reaches(child.0, x) implies base.nodes[x as int].rested() by {
                assert(base.reaches(node, x) && x != node);
            }
        }
        assert forall|x: usize| #[trigger] base.reaches(child.0, x) implies again.nodes[x as int]
            == base.nodes[x as int] by {
            assert(base.reaches(node, x) && x != node);
        }
        assert(again.nodes[child.0 as int].status() != Some(Status::Success)) by {
            lemma_rested_node(base.nodes[child.0 as int]);
        }
        let child_floor = (floor - 1) as nat;
        assert(base.nodes[node as int].own_passes() == 1);
        lemma_visit_settles(base, again, node, height, child_floor, below, 0, answers);
        let (visited, left) = again.visit(node, child, answers, below);
        let told = visited.nodes[child.0 as int].status()->0;
        if base.nodes[child.0 as int] is Leaf {
            assert(next_answer(answers) == Status::Failure);
            assert(later_answers(answers) =~= answers.skip(1));
        } else {
            let ticked_child = again.tick(child.0);
            lemma_rested_node(base.nodes[child.0 as int]);
            assert(base.agrees_below(child.0, ticked_child)) by {
                assert forall|x: usize| #[trigger] base.reaches(child.0, x) && x
                    != child.0 implies ticked_child.nodes[x as int] == base.nodes[x as int] by {
                    assert(again.nodes[x as int] == base.nodes[x as int]);
                }
            }
            assert(ticked_child.run_from(child.0, answers, below).2 == Status::Failure);
        }
        assert(told == Status::Failure);
        assert(left == answers.skip(visits as int));
        lemma_steady_told(again.nodes[node as int], ChildUpdate { status: told, child_id: child });
        let failed = visited.nodes[node as int];
        assert(failed.tick_status() == Status::Failure);
        assert(failed.done(Status::Failure));
        lemma_pass_stops(visited, node, children.skip(1), left, below);
        let (passed, rest) = ticked.pass(node, children, answers, below);
        assert(rest == left);
        assert(passed.nodes[node as int] == failed || passed.nodes[node as int]
            == failed.ticked());
        lemma_done_stays(failed, Status::Failure);
        lemma_done_stays(passed.nodes[node as int], Status::Failure);
        let closed = passed.close_pass(node);
        assert(closed.nodes[node as int].tick_status() == Status::Failure);
    }
}

/// A repeater of `retries` retries over a leaf that always fails asks the
/// leaf once for each attempt and once more, `retries + 2` times in all,
/// and fails.
pub proof fn lemma_repeater_over_failing_leaf(
    tree: TreeView<StandardDecorator>,
    node: usize,
    height: nat,
    answers: Seq<Status>,
    limit: nat,
    retries: nat,
)
    requires
        tree.ready(node, height, limit),
        tree.nodes[node as int].repeats(),
        tree.nodes[node as int].cleared().repeater().init_retry == retries + 1,
        tree.nodes[tree.tree[node][0].0 as int] is Leaf,
        all_failing(answers),
        answers.len() >= retries + 2,
    ensures
        tree.run_from(node, answers, limit).2 == Status::Failure,
        tree.run_from(node, answers, limit).1 == answers.skip((retries + 2) as int),
{
    lemma_repeater_run_settles(tree, node, height, answers, limit, 0);
}

/// A repeater of `retries` retries over a branch that always fails runs
/// the branch once for each attempt, `retries + 1` times in all, and fails:
/// where a run of the branch asks `visits` leaves, the run of the repeater
/// asks `(retries + 1) * visits`.
pub proof fn lemma_repeater_over_failing_branch(
    tree: TreeView<StandardDecorator>,
    node: usize,
    height: nat,
    answers: Seq<Status>,
    limit: nat,
    retries: nat,
    visits: nat,
)
    requires
        tree.ready(node, height, limit),
        tree.nodes[node as int].repeats(),
        tree.nodes[node as int].cleared().repeater().init_retry == retries + 1,
        !(tree.nodes[tree.tree[node][0].0 as int] is Leaf),
        tree.fails_after(
            tree.tree[node][0].0,
            visits,
            (limit - tree.nodes[node as int].own_passes()) as nat,
        ),
        all_failing(answers),
        answers.len() >= (retries + 1) * visits,
    ensures
        tree.run_from(node, answers, limit).2 == Status::Failure,
        tree.run_from(node, answers, limit).1 == answers.skip(((retries + 1) * visits) as int),
{
    lemma_repeater_run_settles(tree, node, height, answers, limit, visits);
}

/// Where the branch below a repeater always fails after `visits` leaves,
/// the branch of the repeater always fails after as many leaves as the
/// repeater has attempts, times `visits`.
pub proof fn lemma_repeater_fails_after(
    base: TreeView<StandardDecorator>,
    node: usize,
    height: nat,
    floor: nat,
    visits: nat,
)
    requires
        base.branch(node, height),
        base.enough(node, floor),
        base.rested_below(node),
        base.nodes[node as int].repeats(),
        !(base.nodes[base.tree[node][0].0 as int] is Leaf),
        base.fails_after(
            base.tree[node][0].0,
            visits,
            (floor - base.nodes[node as int].own_passes()) as nat,
        ),
    ensures
        base.fails_after(
            node,
            (base.nodes[node as int].repeater().init_retry * visits) as nat,
            floor,
        ),
{
    let attempts = base.nodes[node as int].repeater().init_retry as nat;
    let own = base.nodes[node as int].own_passes();
    lemma_reaches_self(base, node);
    lemma_rested_node(base.nodes[node as int]);
    lemma_branch_of_child(base, node, height, floor, 0);
    let child = base.tree[node][0].0;
    assert forall|other: TreeView<StandardDecorator>, answers: Seq<Status>, limit: nat|
        base.agrees_below(node, other) && all_failing(answers) && answers.len() >= attempts
            * visits && limit >= floor implies (#[trigger] other.run_from(
        node,
        answers,
        limit,
    )).2 == Status::Failure && other.run_from(node, answers, limit).1 == answers.skip(
        (attempts * visits) as int,
    ) by {
        lemma_same_ways(base, other);
        lemma_enough_more(base, node, floor, limit);
        assert forall|x: usize| #[trigger] base.reaches(node, x) implies other.nodes[x as int].same_at_rest(
            base.nodes[x as int],
        ) by {}
        lemma_branch_kept(base, other, node, height, limit);
        assert(other.nodes[node as int].cleared() == base.nodes[node as int]);
        assert(other.ready(node, height, limit)) by {
            assert forall|x: usize| #[trigger] other.reaches(node, x) && x
                != node implies other.nodes[x as int].rested() by {
                assert(base.reaches(node, x));
            }
        }
        let other_floor = (limit - other.nodes[node as int].own_passes()) as nat;
        assert(other.nodes[node as int].own_passes() == own);
        assert(other.fails_after(child, visits, other_floor)) by {
            assert forall|t: TreeView<StandardDecorator>, more: Seq<Status>, l: nat|
                other.agrees_below(child, t) && all_failing(more) && more.len() >= visits && l
                    >= other_floor implies (#[trigger] t.run_from(child, more, l)).2
                == Status::Failure && t.run_from(child, more, l).1 == more.skip(
                visits as int,
            ) by {
                assert(base.agrees_below(child, t)) by {
                    assert(base.reaches(node, child) && child != node);
                    assert forall|x: usize| #[trigger] base.reaches(child, x) && x
                        != child implies t.nodes[x as int] == base.nodes[x as int] by {
                        assert(other.reaches(child, x));
                        assert(base.reaches(node, x) && x != node);
                    }
                }
            }
        }
        lemma_failing_is_terminal(answers);
        lemma_repeater_run_settles(other, node, height, answers, limit, visits);
    }
}

/// Answers that all fail are terminal.
pub proof fn lemma_failing_is_terminal(answers: Seq<Status>)
    requires
        all_failing(answers),
    ensures
        all_terminal(answers),
{
}

/// A repeater of `outer` retries over a repeater of `inner` retries over a
/// branch that always fails runs the branch `(outer + 1) * (inner + 1)`
/// times, and fails: where a run of the branch asks `visits` leaves, the run
/// asks `(outer + 1) * ((inner + 1) * visits)`.
pub proof fn lemma_nested_repeaters(
    tree: TreeView<StandardDecorator>,
    node: usize,
    height: nat,
    answers: Seq<Status>,
    limit: nat,
    outer: nat,
    inner: nat,
    visits: nat,
)
    requires
        tree.ready(node, height, limit),
        tree.nodes[node as int].repeats(),
        tree.nodes[node as int].cleared().repeater().init_retry == outer + 1,
        tree.nodes[tree.tree[node][0].0 as int].repeats(),
        tree.nodes[tree.tree[node][0].0 as int].repeater().init_retry == inner + 1,
        !(tree.nodes[tree.tree[tree.tree[node][0].0][0].0 as int] is Leaf),
        tree.fails_after(
            tree.tree[tree.tree[node][0].0][0].0,
            visits,
            (limit - tree.nodes[node as int].own_passes() - tree.nodes[tree.tree[node][0].0 as int].own_passes()) as nat,
        ),
        all_failing(answers),
        answers.len() >= (outer + 1) * ((inner + 1) * visits),
    ensures
        tree.run_from(node, answers, limit).2 == Status::Failure,
        tree.run_from(node, answers, limit).1 == answers.skip(
            ((outer + 1) * ((inner + 1) * visits)) as int,
        ),
{
    let below = tree.tree[node][0].0;
    lemma_reaches_self(tree, node);
    assert(tree.tree[node].len() == 1);
    lemma_branch_of_child(tree, node, height, limit, 0);
    let floor = (limit - tree.nodes[node as int].own_passes()) as nat;
    assert(tree.rested_below(below)) by {
        assert forall|x: usize| #[trigger] tree.reaches(below, x) implies tree.nodes[x as int].rested() by {
            assert(tree.reaches(node, x) && x != node);
        }
    }
    lemma_repeater_fails_after(tree, below, (height - 1) as nat, floor, visits);
    lemma_repeater_over_failing_branch(
        tree,
        node,
        height,
        answers,
        limit,
        outer,
        (inner + 1) * visits,
    );
}

/// A run from a node whose branch always fails after `visits` leaves, with
/// a hook that answers nothing but failure, asks the hook exactly `visits`
/// times, and fails.
pub proof fn lemma_failing_hook_is_asked<Hook: ExecutorHook>(
    tree: TreeView<StandardDecorator>,
    after: TreeView<StandardDecorator>,
    node: usize,
    visits: nat,
    floor: nat,
    limit: nat,
    answers: Seq<Status>,
    states: Seq<Hook>,
    status: Status,
)
    requires
        tree.fails_after(node, visits, floor),
        limit >= floor,
        forall|leaf: LeafNode, answer: Status| #[trigger]
            can_answer::<Hook>(leaf, answer) ==> answer == Status::Failure,
        asked_in_turn::<Hook>(states, tree.run_from_leaves(node, answers, limit), answers),
        forall|rest: Seq<Status>|
            #[trigger] tree.run_from(node, answers + rest, limit) == (after, rest, status),
    ensures
        status == Status::Failure,
        answers.len() == visits,
{
    let leaves = tree.run_from_leaves(node, answers, limit);
    assert forall|i: int| 0 <= i < answers.len() implies answers[i] == Status::Failure by {
        assert(states[i].answers(leaves[i], answers[i], &states[i + 1]));
        assert(can_answer::<Hook>(leaves[i], answers[i]));
    }
    let rest = Seq::new(visits, |i: int| Status::Failure);
    let padded = answers + rest;
    assert(all_failing(padded));
    assert(tree.agrees_below(node, tree));
    assert(tree.run_from(node, padded, limit).1 == padded.skip(visits as int));
    assert(tree.run_from(node, padded, limit) == (after, rest, status));
    assert(padded.skip(visits as int).len() == answers.len());
}

} // verus!
