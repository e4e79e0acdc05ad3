//! Why a run comes to an end: in a tree that is as new, a run whose leaves
//! all answer with a terminal status ends with a terminal status.

use super::control_nodes::{ControlNodeTypeView, ParallelView, SequenceView};
use super::decorators::{Repeater, StandardDecorator};
use super::engine::{asked_in_turn, can_answer, later_answers, next_answer};
use super::{CTreeNodeID, CTreeNodeView, ChildUpdate, LeafNode, TreeView, ROOT_ID};
use crate::traits::{Decorator, ExecutorHook};
use crate::Status;
use vstd::prelude::*;

verus! {

/// None of the answers is running.
pub open spec fn all_terminal(answers: Seq<Status>) -> bool {
    forall|i: int| 0 <= i < answers.len() ==> answers[i] != Status::Running
}

/// Every answer is failure.
pub open spec fn all_failing(answers: Seq<Status>) -> bool {
    forall|i: int| 0 <= i < answers.len() ==> answers[i] == Status::Failure
}

/// The leaves that a repeater with `retry` attempts left asks where its
/// child fails each time: a child that is a leaf is asked once for each
/// attempt and once more, and any other child asks `visits` leaves in each
/// attempt.
pub open spec fn asked_by_repeater(retry: nat, leaf: bool, visits: nat) -> nat {
    if leaf {
        retry + 1
    } else {
        retry * visits
    }
}

/// The payload is as after a reset. A repeater has at least one attempt.
pub open spec fn payload_rested(payload: ControlNodeTypeView<StandardDecorator>) -> bool {
    match payload {
        ControlNodeTypeView::Sequence(s) => s == SequenceView::fresh(),
        ControlNodeTypeView::Fallback(f) => f.status is None,
        ControlNodeTypeView::Parallel(p) => p == ParallelView::fresh(),
        ControlNodeTypeView::Decorator(StandardDecorator::Invert(i)) => i.child_status is None,
        ControlNodeTypeView::Decorator(StandardDecorator::Repeat(r)) => r == Repeater::fresh(
            r.init_retry,
        ) && r.init_retry >= 1,
        ControlNodeTypeView::Decorator(StandardDecorator::Subtree(s)) => s.status is None,
    }
}

impl CTreeNodeView<StandardDecorator> {
    /// The node is as after a reset, and holds no branch to be reset. A
    /// root is a sequence.
    pub open spec fn rested(self) -> bool {
        match self {
            CTreeNodeView::Root(root) => root.status is None && root.node_type
                == ControlNodeTypeView::<StandardDecorator>::Sequence(SequenceView::fresh()),
            CTreeNodeView::Control(control) => control.status is None
                && control.reset_requests.len() == 0 && payload_rested(control.node_type),
            CTreeNodeView::Leaf(leaf) => leaf.status is None,
        }
    }

    /// The node is a decorator.
    pub open spec fn decorates(self) -> bool {
        self matches CTreeNodeView::Control(control) && control.node_type is Decorator
    }

    /// The node is a repeater.
    pub open spec fn repeats(self) -> bool {
        self matches CTreeNodeView::Control(control) && control.node_type
            matches ControlNodeTypeView::Decorator(StandardDecorator::Repeat(_))
    }

    /// The passes that the node may need where its children come to an end:
    /// one, and for a repeater one for each attempt and one more.
    pub open spec fn own_passes(self) -> nat {
        match self {
            CTreeNodeView::Control(control) => match control.node_type {
                ControlNodeTypeView::Decorator(StandardDecorator::Repeat(r)) => (r.init_retry
                    + 1) as nat,
                _ => 1,
            },
            _ => 1,
        }
    }
}

/// The payload runs, and waits for no child that it has heard of. A
/// repeater is not taken for steady: it is told of the same child again.
pub open spec fn payload_steady(payload: ControlNodeTypeView<StandardDecorator>) -> bool {
    match payload {
        ControlNodeTypeView::Sequence(s) => s.pending == Set::<usize>::empty() && s.failed is None
            && !s.finished,
        ControlNodeTypeView::Fallback(f) => Status::or_running(f.status) == Status::Running,
        ControlNodeTypeView::Parallel(p) => p.pending == Set::<usize>::empty() && !p.finished,
        ControlNodeTypeView::Decorator(StandardDecorator::Invert(i)) => Status::or_running(
            i.child_status,
        ) == Status::Running,
        ControlNodeTypeView::Decorator(StandardDecorator::Repeat(_)) => false,
        ControlNodeTypeView::Decorator(StandardDecorator::Subtree(s)) => Status::or_running(
            s.status,
        ) == Status::Running,
    }
}

/// The payload has come to the terminal status `status`, for good.
pub open spec fn payload_done(payload: ControlNodeTypeView<StandardDecorator>, status: Status) -> bool {
    &&& status != Status::Running
    &&& match payload {
        ControlNodeTypeView::Sequence(s) => if s.failed is Some {
            status == Status::Failure
        } else {
            s.finished && status == Status::Success
        },
        ControlNodeTypeView::Fallback(f) => f.status == Some(status),
        ControlNodeTypeView::Parallel(p) => p.finished && status == (if p.failure.is_empty() {
            Status::Success
        } else {
            Status::Failure
        }),
        ControlNodeTypeView::Decorator(StandardDecorator::Invert(i)) => i.child_status == Some(
            status.negated(),
        ),
        ControlNodeTypeView::Decorator(StandardDecorator::Repeat(r)) => r.status == Some(status)
            && (r.retry > 0 ==> r.reset_request is None),
        ControlNodeTypeView::Decorator(StandardDecorator::Subtree(s)) => s.status == Some(status),
    }
}

impl CTreeNodeView<StandardDecorator> {
    /// The payload of the node, where it has one.
    pub open spec fn payload(self) -> ControlNodeTypeView<StandardDecorator> {
        match self {
            CTreeNodeView::Root(root) => root.node_type,
            CTreeNodeView::Control(control) => control.node_type,
            CTreeNodeView::Leaf(_) => arbitrary(),
        }
    }

    /// The node runs, and waits for no child that it has heard of.
    pub open spec fn steady(self) -> bool {
        !(self is Leaf) && payload_steady(self.payload())
    }

    /// The node has come to the terminal status `status`, for good.
    pub open spec fn done(self, status: Status) -> bool {
        !(self is Leaf) && payload_done(self.payload(), status)
    }

    /// The node is a sequence, a fallback or a parallel.
    pub open spec fn composite(self) -> bool {
        !(self is Leaf) && !(self.payload() is Decorator)
    }

    /// `other` is the node in another state: a reset makes them the same.
    pub open spec fn same_at_rest(self, other: Self) -> bool {
        self.cleared() == other.cleared()
    }
}

/// A node that is as after a reset stays so when it is reset. If it is no
/// leaf, it is running, and a tick leaves it steady unless it is a repeater.
pub proof fn lemma_rested_node(node: CTreeNodeView<StandardDecorator>)
    requires
        node.rested(),
    ensures
        node.cleared() == node,
        node.reset_requests().len() == 0,
        node.ticked().same_at_rest(node),
        node.ticked().ticked() == node.ticked(),
        !(node is Leaf) ==> node.tick_status() == Status::Running,
        !(node is Leaf) && !node.repeats() ==> node.ticked().steady(),
{
    match node {
        CTreeNodeView::Control(control) => {
            assert(control.reset_requests =~= Seq::empty());
        },
        _ => {},
    }
}

/// A steady node is running; a tick leaves it steady.
pub proof fn lemma_steady_ticked(node: CTreeNodeView<StandardDecorator>)
    requires
        node.steady(),
    ensures
        node.tick_status() == Status::Running,
        node.ticked().steady(),
        node.ticked().same_at_rest(node),
        node.ticked().reset_requests() == node.reset_requests(),
{
}

/// A steady node that is told a terminal status is done, or it is a
/// sequence, a fallback or a parallel that is steady still.
pub proof fn lemma_steady_told(node: CTreeNodeView<StandardDecorator>, update: ChildUpdate)
    requires
        node.steady(),
        update.status != Status::Running,
    ensures
        node.told(update).same_at_rest(node),
        node.told(update).reset_requests() == node.reset_requests(),
        node.told(update).done(node.told(update).tick_status()) || (node.told(update).steady()
            && node.composite()),
        node.told(update).status() == Some(node.told(update).tick_status()),
{
    assert(Set::<usize>::empty().remove(update.child_id.0) =~= Set::<usize>::empty());
}

/// A node that is done stays done, with the same status, when it is ticked
/// and when it is told that all its children have been seen; it asks for no
/// reset.
pub proof fn lemma_done_stays(node: CTreeNodeView<StandardDecorator>, status: Status)
    requires
        node.done(status),
    ensures
        node.tick_status() == status,
        node.ticked().done(status),
        node.ticked().status() == Some(status),
        node.ticked().same_at_rest(node),
        node.ticked().reset_requests() == node.reset_requests(),
        node.all_seen().done(status),
        node.all_seen().same_at_rest(node),
        node.all_seen().reset_requests() == node.reset_requests(),
{
}

/// A sequence, a fallback or a parallel that is steady at the close of a
/// pass is done.
pub proof fn lemma_steady_closes(node: CTreeNodeView<StandardDecorator>)
    requires
        node.steady(),
        node.composite(),
    ensures
        node.all_seen().done(node.all_seen().tick_status()),
        node.all_seen().same_at_rest(node),
        node.all_seen().reset_requests() == node.reset_requests(),
{
}

/// The passes that the nodes of `path` may need, all in all.
pub open spec fn passes_along(tree: TreeView<StandardDecorator>, path: Seq<usize>) -> nat
    decreases path.len(),
{
    if path.len() == 0 {
        0
    } else {
        passes_along(tree, path.drop_last()) + tree.nodes[path.last() as int].own_passes()
    }
}

impl TreeView<StandardDecorator> {
    /// `path` leads from `node` down the tree.
    pub open spec fn leads_from(self, node: usize, path: Seq<usize>) -> bool {
        self.is_path(path) && path[0] == node
    }

    /// Below `node` the structure is a tree of at most `height` levels:
    /// one way leads from `node` to each node below it, a leaf has no child
    /// and a decorator has one, and no node below `node` is a root.
    pub open spec fn branch(self, node: usize, height: nat) -> bool {
        &&& forall|path: Seq<usize>| #[trigger] self.leads_from(node, path) ==> path.len() <= height + 1
        &&& forall|one: Seq<usize>, other: Seq<usize>|
            #[trigger] self.leads_from(node, one) && #[trigger] self.leads_from(node, other)
                && one.last() == other.last() ==> one == other
        &&& forall|x: usize| #[trigger]
            self.reaches(node, x) ==> {
                &&& x < self.nodes.len()
                &&& self.tree.contains_key(x)
                &&& self.tree[x].no_duplicates()
                &&& self.nodes[x as int] is Leaf ==> self.tree[x].len() == 0
                &&& self.nodes[x as int].decorates() ==> self.tree[x].len() == 1
                &&& x != node ==> !(self.nodes[x as int] is Root)
            }
    }

    /// `limit` passes are enough for `node` and for what is below it: along
    /// each way down from `node`, the nodes have the passes that they may
    /// need.
    pub open spec fn enough(self, node: usize, limit: nat) -> bool {
        forall|path: Seq<usize>| #[trigger]
            self.leads_from(node, path) ==> passes_along(self, path) <= limit
    }

    /// What is below `node` is as after a reset.
    pub open spec fn rested_below(self, node: usize) -> bool {
        forall|x: usize| #[trigger] self.reaches(node, x) ==> self.nodes[x as int].rested()
    }
}

/// A way from a child of `node`, with `node` before it, is a way from
/// `node`.
pub proof fn lemma_way_through_child(
    tree: TreeView<StandardDecorator>,
    node: usize,
    i: int,
    path: Seq<usize>,
)
    requires
        tree.tree.contains_key(node),
        0 <= i < tree.tree[node].len(),
        tree.leads_from(tree.tree[node][i].0, path),
    ensures
        tree.leads_from(node, seq![node] + path),
        (seq![node] + path).last() == path.last(),
        (seq![node] + path).len() == path.len() + 1,
        passes_along(tree, seq![node] + path) == tree.nodes[node as int].own_passes()
            + passes_along(tree, path),
    decreases path.len(),
{
    let longer = seq![node] + path;
    let child = tree.tree[node][i];
    assert(tree.tree[node].contains(CTreeNodeID(child.0)));
    assert forall|k: int| 0 <= k < longer.len() - 1 implies tree.is_edge(
        #[trigger] longer[k],
        longer[k + 1],
    ) by {
        if k > 0 {
            assert(tree.is_edge(path[k - 1], path[k - 1 + 1]));
        }
    }
    if path.len() == 1 {
        assert(longer.drop_last() =~= seq![node]);
        assert(seq![node].drop_last() =~= Seq::<usize>::empty());
        assert(path.drop_last() =~= Seq::<usize>::empty());
        assert(passes_along(tree, seq![node]) == tree.nodes[node as int].own_passes()) by {
            reveal_with_fuel(passes_along, 2);
        }
        assert(passes_along(tree, path) == tree.nodes[path.last() as int].own_passes()) by {
            reveal_with_fuel(passes_along, 2);
        }
    } else {
        let shorter = path.drop_last();
        assert forall|k: int| 0 <= k < shorter.len() - 1 implies tree.is_edge(
            #[trigger] shorter[k],
            shorter[k + 1],
        ) by {
            assert(tree.is_edge(path[k], path[k + 1]));
        }
        lemma_way_through_child(tree, node, i, shorter);
        assert(longer.drop_last() =~= seq![node] + shorter);
    }
}

/// The branch below a child of a node of a branch is a branch, one level
/// lower, for which the passes are enough that are left after those of the
/// node. It does not hold the node, and it holds no node of the branch of
/// another child.
pub proof fn lemma_branch_of_child(
    tree: TreeView<StandardDecorator>,
    node: usize,
    height: nat,
    limit: nat,
    i: int,
)
    requires
        tree.branch(node, height),
        tree.enough(node, limit),
        0 <= i < tree.tree[node].len(),
    ensures
        height > 0,
        limit >= tree.nodes[node as int].own_passes(),
        tree.reaches(node, tree.tree[node][i].0),
        tree.branch(tree.tree[node][i].0, (height - 1) as nat),
        tree.enough(tree.tree[node][i].0, (limit - tree.nodes[node as int].own_passes()) as nat),
        !tree.reaches(tree.tree[node][i].0, node),
        forall|x: usize| #[trigger]
            tree.reaches(tree.tree[node][i].0, x) ==> tree.reaches(node, x) && x != node,
        forall|j: int, x: usize|
            0 <= j < tree.tree[node].len() && j != i && #[trigger] tree.reaches(
                tree.tree[node][j].0,
                x,
            ) ==> !tree.reaches(tree.tree[node][i].0, x),
{
    let child = tree.tree[node][i].0;
    super::engine::lemma_reaches_self(tree, node);
    super::engine::lemma_reaches_self(tree, child);
    assert(tree.tree[node].contains(CTreeNodeID(child)));
    super::engine::lemma_reaches_step(tree, node, node, child);
    let to_child = seq![child];
    assert(tree.leads_from(child, to_child));
    lemma_way_through_child(tree, node, i, to_child);
    assert(tree.leads_from(node, seq![node] + to_child));
    let alone = seq![node];
    assert(tree.leads_from(node, alone));
    assert(passes_along(tree, alone) == tree.nodes[node as int].own_passes()) by {
        reveal_with_fuel(passes_along, 2);
        assert(alone.drop_last() =~= Seq::<usize>::empty());
    }
    assert forall|path: Seq<usize>| #[trigger] tree.leads_from(child, path) implies path.len()
        <= (height - 1) as nat + 1 && passes_along(tree, path) <= (limit
        - tree.nodes[node as int].own_passes()) as nat by {
        lemma_way_through_child(tree, node, i, path);
        assert(tree.leads_from(node, seq![node] + path));
    }
    assert forall|one: Seq<usize>, other: Seq<usize>|
        #[trigger] tree.leads_from(child, one) && #[trigger] tree.leads_from(child, other)
            && one.last() == other.last() implies one == other by {
        lemma_way_through_child(tree, node, i, one);
        lemma_way_through_child(tree, node, i, other);
        let long_one = seq![node] + one;
        let long_other = seq![node] + other;
        assert(tree.leads_from(node, long_one) && tree.leads_from(node, long_other));
        assert(long_one == long_other);
        assert(one =~= long_one.skip(1));
        assert(other =~= long_other.skip(1));
    }
    assert forall|x: usize| #[trigger] tree.reaches(child, x) implies tree.reaches(node, x) && x
        != node by {
        let path = choose|path: Seq<usize>|
            #[trigger] tree.is_path(path) && path.first() == child && path.last() == x;
        lemma_way_through_child(tree, node, i, path);
        let longer = seq![node] + path;
        assert(tree.is_path(longer) && longer.first() == node && longer.last() == x);
        if x == node {
            assert(tree.leads_from(node, longer) && tree.leads_from(node, alone));
            assert(longer == alone);
        }
    }
    assert forall|j: int, x: usize|
        0 <= j < tree.tree[node].len() && j != i && #[trigger] tree.reaches(
            tree.tree[node][j].0,
            x,
        ) implies !tree.reaches(child, x) by {
        if tree.reaches(child, x) {
            let other = tree.tree[node][j].0;
            let one = choose|path: Seq<usize>|
                #[trigger] tree.is_path(path) && path.first() == child && path.last() == x;
            let two = choose|path: Seq<usize>|
                #[trigger] tree.is_path(path) && path.first() == other && path.last() == x;
            lemma_way_through_child(tree, node, i, one);
            lemma_way_through_child(tree, node, j, two);
            let long_one = seq![node] + one;
            let long_two = seq![node] + two;
            assert(tree.leads_from(node, long_one) && tree.leads_from(node, long_two));
            assert(long_one == long_two);
            assert(long_one[1] == child && long_two[1] == other);
            assert(tree.tree[node][i] == tree.tree[node][j]);
        }
    }
    assert forall|x: usize| #[trigger] tree.reaches(child, x) implies {
        &&& x < tree.nodes.len()
        &&& tree.tree.contains_key(x)
        &&& tree.tree[x].no_duplicates()
        &&& tree.nodes[x as int] is Leaf ==> tree.tree[x].len() == 0
        &&& tree.nodes[x as int].decorates() ==> tree.tree[x].len() == 1
        &&& x != child ==> !(tree.nodes[x as int] is Root)
    } by {
        assert(tree.reaches(node, x));
    }
}

impl TreeView<StandardDecorator> {
    /// `other` has the branch below `node` as `self` has it, where `node`
    /// itself may have been ticked.
    pub open spec fn agrees_below(self, node: usize, other: Self) -> bool {
        &&& other.tree == self.tree
        &&& other.nodes.len() == self.nodes.len()
        &&& other.nodes[node as int].ticked() == self.nodes[node as int].ticked()
        &&& other.nodes[node as int].same_at_rest(self.nodes[node as int])
        &&& forall|x: usize| #[trigger]
            self.reaches(node, x) && x != node ==> other.nodes[x as int] == self.nodes[x as int]
    }

    /// Wherever the branch below `node` is as `self` has it, a run from
    /// `node` whose leaves all fail asks `visits` leaves and fails, if it is
    /// given at least `floor` passes.
    pub open spec fn fails_after(self, node: usize, visits: nat, floor: nat) -> bool {
        forall|other: Self, answers: Seq<Status>, limit: nat|
            self.agrees_below(node, other) && all_failing(answers) && answers.len() >= visits
                && limit >= floor ==> (#[trigger] other.run_from(node, answers, limit)).2
                == Status::Failure && other.run_from(node, answers, limit).1 == answers.skip(
                visits as int,
            )
    }

    /// `after` is the tree in a later state of a run below `node`: the
    /// children are the same everywhere, a reset would make each node below
    /// `node` what it is in `self`, none of them holds a branch to be reset,
    /// and all other nodes are as they are in `self`.
    pub open spec fn progressed(self, node: usize, after: Self) -> bool {
        &&& after.tree == self.tree
        &&& after.nodes.len() == self.nodes.len()
        &&& forall|x: usize| #[trigger]
            self.reaches(node, x) ==> after.nodes[x as int].same_at_rest(self.nodes[x as int])
                && after.nodes[x as int].reset_requests().len() == 0
        &&& forall|x: usize|
            x < self.nodes.len() && !#[trigger] self.reaches(node, x) ==> after.nodes[x as int]
                == self.nodes[x as int]
    }

    /// A run from `node` can start: below `node` the structure is a tree
    /// for which `limit` passes are enough, `node` is no leaf and is as
    /// after a reset or has been ticked since, and all below it is as after a
    /// reset.
    pub open spec fn ready(self, node: usize, height: nat, limit: nat) -> bool {
        &&& self.branch(node, height)
        &&& self.enough(node, limit)
        &&& !(self.nodes[node as int] is Leaf)
        &&& self.nodes[node as int].cleared().rested()
        &&& self.nodes[node as int].ticked() == self.nodes[node as int].cleared().ticked()
        &&& forall|x: usize| #[trigger]
            self.reaches(node, x) && x != node ==> self.nodes[x as int].rested()
    }

    /// What a run from `node` has left: `node` has come to the terminal
    /// status `status` and has it cached, and the tree is otherwise as the
    /// run below `node` has left it.
    pub open spec fn settled(self, node: usize, after: Self, status: Status) -> bool {
        &&& self.progressed(node, after)
        &&& after.nodes[node as int].done(status)
        &&& after.nodes[node as int].status() == Some(status)
    }
}

/// Trees with the same children everywhere have the same ways.
pub proof fn lemma_same_ways(tree: TreeView<StandardDecorator>, other: TreeView<StandardDecorator>)
    requires
        tree.tree == other.tree,
    ensures
        forall|path: Seq<usize>| #[trigger] tree.is_path(path) == other.is_path(path),
        forall|from: usize, to: usize| #[trigger] tree.reaches(from, to) == other.reaches(from, to),
        forall|node: usize, path: Seq<usize>|
            #[trigger] tree.leads_from(node, path) == other.leads_from(node, path),
{
    assert forall|path: Seq<usize>| #[trigger] tree.is_path(path) == other.is_path(path) by {
        if tree.is_path(path) {
            assert forall|i: int| 0 <= i < path.len() - 1 implies other.is_edge(
                #[trigger] path[i],
                path[i + 1],
            ) by {
                assert(tree.is_edge(path[i], path[i + 1]));
            }
        }
        if other.is_path(path) {
            assert forall|i: int| 0 <= i < path.len() - 1 implies tree.is_edge(
                #[trigger] path[i],
                path[i + 1],
            ) by {
                assert(other.is_edge(path[i], path[i + 1]));
            }
        }
    }
    assert forall|from: usize, to: usize| #[trigger]
        tree.reaches(from, to) == other.reaches(from, to) by {
        if tree.reaches(from, to) {
            let path = choose|path: Seq<usize>|
                #[trigger] tree.is_path(path) && path.first() == from && path.last() == to;
            assert(other.is_path(path));
        }
        if other.reaches(from, to) {
            let path = choose|path: Seq<usize>|
                #[trigger] other.is_path(path) && path.first() == from && path.last() == to;
            assert(tree.is_path(path));
        }
    }
}

/// Each node of a way from `node` is reached from `node`.
pub proof fn lemma_way_is_reached(
    tree: TreeView<StandardDecorator>,
    node: usize,
    path: Seq<usize>,
    at: int,
)
    requires
        tree.leads_from(node, path),
        0 <= at < path.len(),
    ensures
        tree.reaches(node, path[at]),
{
    let part = path.take(at + 1);
    assert forall|i: int| 0 <= i < part.len() - 1 implies tree.is_edge(
        #[trigger] part[i],
        part[i + 1],
    ) by {
        assert(tree.is_edge(path[i], path[i + 1]));
    }
    assert(tree.is_path(part) && part.first() == node && part.last() == path[at]);
}

/// The passes along a way are the same in a tree whose nodes along the way
/// are the same but for their state.
pub proof fn lemma_same_passes(
    tree: TreeView<StandardDecorator>,
    other: TreeView<StandardDecorator>,
    path: Seq<usize>,
)
    requires
        forall|i: int|
            0 <= i < path.len() ==> other.nodes[(#[trigger] path[i]) as int].same_at_rest(
                tree.nodes[path[i] as int],
            ),
    ensures
        passes_along(other, path) == passes_along(tree, path),
    decreases path.len(),
{
    if path.len() > 0 {
        let shorter = path.drop_last();
        assert forall|i: int| 0 <= i < shorter.len() implies other.nodes[(
        #[trigger] shorter[i]) as int].same_at_rest(tree.nodes[shorter[i] as int]) by {
            assert(shorter[i] == path[i]);
        }
        lemma_same_passes(tree, other, shorter);
        assert(other.nodes[path[path.len() - 1] as int].same_at_rest(
            tree.nodes[path[path.len() - 1] as int],
        ));
    }
}

/// A branch stays a branch, and the passes that were enough stay enough,
/// when the nodes below `node` change their state only.
pub proof fn lemma_branch_kept(
    tree: TreeView<StandardDecorator>,
    other: TreeView<StandardDecorator>,
    node: usize,
    height: nat,
    limit: nat,
)
    requires
        tree.branch(node, height),
        tree.enough(node, limit),
        other.tree == tree.tree,
        other.nodes.len() == tree.nodes.len(),
        forall|x: usize| #[trigger]
            tree.reaches(node, x) ==> other.nodes[x as int].same_at_rest(tree.nodes[x as int]),
    ensures
        other.branch(node, height),
        other.enough(node, limit),
{
    lemma_same_ways(tree, other);
    assert forall|path: Seq<usize>| #[trigger] other.leads_from(node, path) implies path.len()
        <= height + 1 && passes_along(other, path) <= limit by {
        assert(tree.leads_from(node, path));
        assert forall|i: int| 0 <= i < path.len() implies other.nodes[(
        #[trigger] path[i]) as int].same_at_rest(tree.nodes[path[i] as int]) by {
            lemma_way_is_reached(tree, node, path, i);
        }
        lemma_same_passes(tree, other, path);
    }
    assert forall|one: Seq<usize>, another: Seq<usize>|
        #[trigger] other.leads_from(node, one) && #[trigger] other.leads_from(node, another)
            && one.last() == another.last() implies one == another by {
        assert(tree.leads_from(node, one) && tree.leads_from(node, another));
    }
    assert forall|x: usize| #[trigger] other.reaches(node, x) implies {
        &&& x < other.nodes.len()
        &&& other.tree.contains_key(x)
        &&& other.tree[x].no_duplicates()
        &&& other.nodes[x as int] is Leaf ==> other.tree[x].len() == 0
        &&& other.nodes[x as int].decorates() ==> other.tree[x].len() == 1
        &&& x != node ==> !(other.nodes[x as int] is Root)
    } by {
        assert(tree.reaches(node, x));
        assert(other.nodes[x as int].same_at_rest(tree.nodes[x as int]));
    }
}

/// A node without children reaches itself only.
pub proof fn lemma_childless_reaches_itself(tree: TreeView<StandardDecorator>, node: usize, x: usize)
    requires
        tree.children_of(node).len() == 0,
        tree.reaches(node, x),
    ensures
        x == node,
{
    let path = choose|path: Seq<usize>|
        #[trigger] tree.is_path(path) && path.first() == node && path.last() == x;
    if path.len() > 1 {
        assert(tree.is_edge(path[0], path[0int + 1]));
        let at = tree.tree[node].index_of(CTreeNodeID(path[1]));
    }
}

/// One visit of a child whose branch is as after a reset: the child comes
/// to a terminal status, which `node` is told.
pub proof fn lemma_visit_settles(
    base: TreeView<StandardDecorator>,
    cur: TreeView<StandardDecorator>,
    node: usize,
    height: nat,
    floor: nat,
    below: nat,
    i: int,
    answers: Seq<Status>,
)
    requires
        height > 0,
        node < base.nodes.len(),
        base.tree.contains_key(node),
        0 <= i < base.tree[node].len(),
        base.branch(base.tree[node][i].0, (height - 1) as nat),
        base.enough(base.tree[node][i].0, floor),
        below >= floor,
        base.rested_below(base.tree[node][i].0),
        !base.reaches(base.tree[node][i].0, node),
        cur.tree == base.tree,
        cur.nodes.len() == base.nodes.len(),
        forall|x: usize| #[trigger]
            base.reaches(base.tree[node][i].0, x) ==> cur.nodes[x as int] == base.nodes[x as int],
        all_terminal(answers),
    ensures
        ({
            let child = base.tree[node][i];
            let (after, left) = cur.visit(node, child, answers, below);
            let told = after.nodes[child.0 as int].status();
            &&& all_terminal(left)
            &&& after.tree == cur.tree
            &&& after.nodes.len() == cur.nodes.len()
            &&& told is Some
            &&& told->0 != Status::Running
            &&& after.nodes[node as int] == cur.nodes[node as int].told(
                ChildUpdate { status: told->0, child_id: child },
            )
            &&& !(base.nodes[child.0 as int] is Leaf) ==> after.nodes[child.0 as int].done(told->0)
            &&& !(base.nodes[child.0 as int] is Leaf) ==> told->0 == cur.tick(child.0).run_from(
                child.0,
                answers,
                below,
            ).2 && left == cur.tick(child.0).run_from(child.0, answers, below).1
            &&& base.nodes[child.0 as int] is Leaf ==> told->0 == next_answer(answers) && left
                == later_answers(answers)
            &&& forall|x: usize| #[trigger]
                base.reaches(child.0, x) ==> after.nodes[x as int].same_at_rest(base.nodes[x as int])
                    && after.nodes[x as int].reset_requests().len() == 0
            &&& forall|x: usize|
                x < base.nodes.len() && x != node && !#[trigger] base.reaches(child.0, x)
                    ==> after.nodes[x as int] == cur.nodes[x as int]
        }),
    decreases height, 0nat, 0nat,
{
    let child = base.tree[node][i];
    super::engine::lemma_reaches_self(base, child.0);
    assert(cur.nodes[child.0 as int] == base.nodes[child.0 as int]);
    assert(base.nodes[child.0 as int].rested());
    assert(child.0 != node);
    assert(child.0 < base.nodes.len());
    lemma_rested_node(base.nodes[child.0 as int]);
    if cur.nodes[child.0 as int] is Leaf {
        let status = next_answer(answers);
        let hooked = cur.with_node(
            child.0,
            cur.nodes[child.0 as int].with_status(Some(status)),
        );
        let after = hooked.tell(node, ChildUpdate { status, child_id: child });
        assert(cur.visit(node, child, answers, below) == (after, later_answers(answers)));
        assert(base.tree[child.0].len() == 0);
        assert forall|x: usize| #[trigger] base.reaches(child.0, x) implies after.nodes[x as int].same_at_rest(
            base.nodes[x as int],
        ) && after.nodes[x as int].reset_requests().len() == 0 by {
            lemma_childless_reaches_itself(base, child.0, x);
        }
    } else {
        let ticked = cur.tick(child.0);
        assert(cur.nodes[child.0 as int].tick_status() == Status::Running);
        lemma_same_ways(base, ticked);
        assert forall|path: Seq<usize>| #[trigger] base.leads_from(child.0, path) implies passes_along(
            base,
            path,
        ) <= below by {}
        assert(base.enough(child.0, below));
        lemma_branch_kept(base, ticked, child.0, (height - 1) as nat, below);
        assert forall|x: usize| #[trigger] ticked.reaches(child.0, x) && x
            != child.0 implies ticked.nodes[x as int].rested() by {
            assert(base.reaches(child.0, x));
            assert(cur.nodes[x as int] == base.nodes[x as int]);
        }
        assert(ticked.nodes[child.0 as int] == base.nodes[child.0 as int].ticked());
        assert(ticked.nodes[child.0 as int].cleared() == base.nodes[child.0 as int]);
        assert(ticked.ready(child.0, (height - 1) as nat, below));
        lemma_run_settles(ticked, child.0, (height - 1) as nat, answers, below);
        let (ran, left, status) = ticked.run_from(child.0, answers, below);
        let after = ran.tell(node, ChildUpdate { status, child_id: child });
        assert(cur.visit(node, child, answers, below) == (after, left));
        assert(!ticked.reaches(child.0, node));
        assert(ran.nodes[node as int] == ticked.nodes[node as int]);
        assert forall|x: usize| #[trigger] base.reaches(child.0, x) implies after.nodes[x as int].same_at_rest(
            base.nodes[x as int],
        ) && after.nodes[x as int].reset_requests().len() == 0 by {
            assert(ticked.reaches(child.0, x));
            assert(ran.nodes[x as int].same_at_rest(ticked.nodes[x as int]));
        }
        assert forall|x: usize|
            x < base.nodes.len() && x != node && !#[trigger] base.reaches(
                child.0,
                x,
            ) implies after.nodes[x as int] == cur.nodes[x as int] by {
            assert(!ticked.reaches(child.0, x));
        }
    }
}

/// What is left of a pass of a node that is no repeater, over children
/// whose branches are as after a reset: the children are visited until the
/// node is done, and the node is done at the end unless it is a sequence,
/// a fallback or a parallel, which is done at the close of the pass.
pub proof fn lemma_pass_settles(
    base: TreeView<StandardDecorator>,
    cur: TreeView<StandardDecorator>,
    node: usize,
    height: nat,
    limit: nat,
    below: nat,
    k: int,
    answers: Seq<Status>,
)
    requires
        base.branch(node, height),
        base.enough(node, limit),
        below + base.nodes[node as int].own_passes() >= limit,
        forall|x: usize| #[trigger]
            base.reaches(node, x) && x != node ==> base.nodes[x as int].rested(),
        base.progressed(node, cur),
        0 <= k <= base.children_of(node).len(),
        forall|j: int, x: usize|
            k <= j < base.children_of(node).len() && #[trigger] base.reaches(
                base.children_of(node)[j].0,
                x,
            ) ==> cur.nodes[x as int] == base.nodes[x as int],
        !cur.nodes[node as int].repeats(),
        cur.nodes[node as int].steady() || cur.nodes[node as int].done(
            cur.nodes[node as int].tick_status(),
        ),
        k > 0 ==> cur.nodes[node as int].done(cur.nodes[node as int].tick_status())
            || cur.nodes[node as int].composite(),
        all_terminal(answers),
    ensures
        ({
            let (after, left) = cur.pass(node, base.children_of(node).skip(k), answers, below);
            &&& all_terminal(left)
            &&& base.progressed(node, after)
            &&& after.nodes[node as int].done(after.nodes[node as int].tick_status()) || (
            after.nodes[node as int].steady() && (after.nodes[node as int].composite()
                || base.children_of(node).len() == 0))
        }),
    decreases height, 1nat, base.children_of(node).len() - k,
{
    let children = base.children_of(node);
    let rest = children.skip(k);
    super::engine::lemma_reaches_self(base, node);
    assert(node < base.nodes.len() && base.tree.contains_key(node));
    if k < children.len() {
        let child = children[k];
        assert(rest[0] == child);
        assert(rest.skip(1) =~= children.skip(k + 1));
        let before = cur.nodes[node as int];
        let ticked = cur.tick(node);
        if before.steady() {
            lemma_steady_ticked(before);
            lemma_branch_of_child(base, node, height, limit, k);
            let floor = (limit - base.nodes[node as int].own_passes()) as nat;
            assert forall|x: usize| #[trigger] base.reaches(child.0, x) implies ticked.nodes[x as int]
                == base.nodes[x as int] by {
                assert(cur.nodes[x as int] == base.nodes[x as int]);
            }
            assert(base.rested_below(child.0)) by {
                assert forall|x: usize| #[trigger] base.reaches(child.0, x) implies base.nodes[x as int].rested() by {
                    assert(base.reaches(node, x) && x != node);
                }
            }
            super::engine::lemma_reaches_self(base, child.0);
            assert(ticked.nodes[child.0 as int].status() != Some(Status::Success));
            lemma_visit_settles(base, ticked, node, height, floor, below, k, answers);
            let (visited, left) = ticked.visit(node, child, answers, below);
            assert(cur.pass(node, rest, answers, below) == visited.pass(
                node,
                children.skip(k + 1),
                left,
                below,
            ));
            let told = visited.nodes[child.0 as int].status()->0;
            lemma_steady_told(ticked.nodes[node as int], ChildUpdate { status: told, child_id: child });
            assert(base.progressed(node, visited)) by {
                assert forall|x: usize| #[trigger] base.reaches(node, x) implies visited.nodes[x as int].same_at_rest(
                    base.nodes[x as int],
                ) && visited.nodes[x as int].reset_requests().len() == 0 by {
                    if x != node && !base.reaches(child.0, x) {
                        assert(visited.nodes[x as int] == ticked.nodes[x as int]);
                        assert(cur.nodes[x as int].same_at_rest(base.nodes[x as int]));
                    }
                }
                assert forall|x: usize|
                    x < base.nodes.len() && !#[trigger] base.reaches(
                        node,
                        x,
                    ) implies visited.nodes[x as int] == base.nodes[x as int] by {
                    assert(!base.reaches(child.0, x));
                    assert(visited.nodes[x as int] == ticked.nodes[x as int]);
                }
            }
            assert forall|j: int, x: usize|
                k + 1 <= j < children.len() && #[trigger] base.reaches(
                    children[j].0,
                    x,
                ) implies visited.nodes[x as int] == base.nodes[x as int] by {
                lemma_branch_of_child(base, node, height, limit, j);
                assert(base.reaches(node, x) && x != node);
                assert(!base.reaches(child.0, x));
                assert(visited.nodes[x as int] == ticked.nodes[x as int]);
                assert(cur.nodes[x as int] == base.nodes[x as int]);
            }
            lemma_pass_settles(base, visited, node, height, limit, below, k + 1, left);
        } else {
            let status = before.tick_status();
            lemma_done_stays(before, status);
            assert(cur.pass(node, rest, answers, below) == (ticked, answers));
            assert(base.progressed(node, ticked)) by {
                assert forall|x: usize| #[trigger] base.reaches(node, x) implies ticked.nodes[x as int].same_at_rest(
                    base.nodes[x as int],
                ) && ticked.nodes[x as int].reset_requests().len() == 0 by {
                    assert(cur.nodes[x as int].same_at_rest(base.nodes[x as int]));
                }
            }
        }
    } else {
        assert(cur.pass(node, rest, answers, below) == (cur, answers));
    }
}

/// A run in a tree that is ready for it ends with a terminal status where
/// the leaves answer with terminal statuses: the node from which it runs is
/// done and has its status cached, no node holds a branch to be reset, and
/// nothing but the branch of the node has changed.
pub proof fn lemma_run_settles(
    tree: TreeView<StandardDecorator>,
    node: usize,
    height: nat,
    answers: Seq<Status>,
    limit: nat,
)
    requires
        tree.ready(node, height, limit),
        all_terminal(answers),
    ensures
        ({
            let (after, left, status) = tree.run_from(node, answers, limit);
            tree.settled(node, after, status) && all_terminal(left)
        }),
    decreases height, 2nat, 0nat,
{
    if tree.nodes[node as int].repeats() {
        lemma_repeater_run_settles(tree, node, height, answers, limit, 0);
        return ;
    }
    let first = tree.nodes[node as int];
    super::engine::lemma_reaches_self(tree, node);
    lemma_rested_node(first.cleared());
    assert(first.tick_status() == Status::Running) by {
        assert(first.ticked().status() == Some(first.tick_status()));
    }
    let ticked = tree.tick(node);
    assert(ticked.nodes[node as int].steady());
    assert(tree.run_from(node, answers, limit) == ticked.passes(node, answers, limit));
    let alone = seq![node];
    assert(tree.leads_from(node, alone));
    assert(passes_along(tree, alone) == first.own_passes()) by {
        reveal_with_fuel(passes_along, 2);
        assert(alone.drop_last() =~= Seq::<usize>::empty());
    }
    assert(limit >= 1);
    let below = (limit - 1) as nat;
    assert(tree.progressed(node, ticked)) by {
        assert forall|x: usize| #[trigger] tree.reaches(node, x) implies ticked.nodes[x as int].same_at_rest(
            tree.nodes[x as int],
        ) && ticked.nodes[x as int].reset_requests().len() == 0 by {
            if x != node {
                lemma_rested_node(tree.nodes[x as int]);
            }
        }
    }
    assert forall|j: int, x: usize|
        0 <= j < tree.children_of(node).len() && #[trigger] tree.reaches(
            tree.children_of(node)[j].0,
            x,
        ) implies ticked.nodes[x as int] == tree.nodes[x as int] by {
        lemma_branch_of_child(tree, node, height, limit, j);
    }
    lemma_pass_settles(tree, ticked, node, height, limit, below, 0, answers);
    assert(tree.children_of(node).skip(0) =~= tree.tree[node]);
    let (passed, left) = ticked.pass(node, tree.tree[node], answers, below);
    let open = passed.nodes[node as int];
    let closed = passed.close_pass(node);
    if open.steady() && open.composite() {
        lemma_steady_closes(open);
    } else {
        lemma_done_stays(open, open.tick_status());
    }
    let status = closed.nodes[node as int].tick_status();
    lemma_done_stays(closed.nodes[node as int], status);
    let reticked = closed.tick(node);
    let last = reticked.nodes[node as int];
    assert(last.reset_requests() =~= Seq::<CTreeNodeID>::empty());
    assert(last.without_requests() == last);
    assert(reticked.with_node(node, last.without_requests()) =~= reticked) by {
        assert(reticked.with_node(node, last.without_requests()).nodes =~= reticked.nodes);
    }
    assert(reticked.handle_resets(node) == reticked) by {
        assert(reticked.reset_branches(Seq::<CTreeNodeID>::empty()) == reticked);
    }
    assert(ticked.passes(node, answers, limit) == (reticked, left, status));
    assert(tree.progressed(node, reticked)) by {
        assert forall|x: usize| #[trigger] tree.reaches(node, x) implies reticked.nodes[x as int].same_at_rest(
            tree.nodes[x as int],
        ) && reticked.nodes[x as int].reset_requests().len() == 0 by {
            assert(passed.nodes[x as int].same_at_rest(tree.nodes[x as int]));
        }
    }
}

impl CTreeNodeView<StandardDecorator> {
    /// The repeater that the node holds.
    pub open spec fn repeater(self) -> Repeater {
        match self {
            CTreeNodeView::Control(control) => match control.node_type {
                ControlNodeTypeView::Decorator(StandardDecorator::Repeat(r)) => r,
                _ => arbitrary(),
            },
            _ => arbitrary(),
        }
    }
}

/// The first tick of a run from a repeater, and the passes that follow.
pub proof fn lemma_repeater_run_settles(
    tree: TreeView<StandardDecorator>,
    node: usize,
    height: nat,
    answers: Seq<Status>,
    limit: nat,
    visits: nat,
)
    requires
        tree.ready(node, height, limit),
        tree.nodes[node as int].repeats(),
        all_terminal(answers),
    ensures
        ({
            let (after, left, status) = tree.run_from(node, answers, limit);
            tree.settled(node, after, status) && all_terminal(left)
        }),
        ({
            let child = tree.tree[node][0].0;
            let leaf = tree.nodes[child as int] is Leaf;
            let attempts = tree.nodes[node as int].cleared().repeater().init_retry as nat;
            let asked = asked_by_repeater(attempts, leaf, visits);
            let floor = (limit - tree.nodes[node as int].own_passes()) as nat;
            (leaf || tree.fails_after(child, visits, floor)) && all_failing(answers)
                && answers.len() >= asked ==> tree.run_from(node, answers, limit).2
                == Status::Failure && tree.run_from(node, answers, limit).1 == answers.skip(
                asked as int,
            )
        }),
    decreases height, 1nat, tree.nodes[node as int].repeater().init_retry + 2,
{
    let first = tree.nodes[node as int];
    super::engine::lemma_reaches_self(tree, node);
    lemma_rested_node(first.cleared());
    assert(first.tick_status() == Status::Running) by {
        assert(first.ticked().status() == Some(first.tick_status()));
    }
    let ticked = tree.tick(node);
    assert(tree.run_from(node, answers, limit) == ticked.passes(node, answers, limit));
    assert(tree.tree[node].len() == 1);
    lemma_branch_of_child(tree, node, height, limit, 0);
    let floor = (limit - first.own_passes()) as nat;
    assert(tree.progressed(node, ticked)) by {
        assert forall|x: usize| #[trigger] tree.reaches(node, x) implies ticked.nodes[x as int].same_at_rest(
            tree.nodes[x as int],
        ) && ticked.nodes[x as int].reset_requests().len() == 0 by {
            if x != node {
                lemma_rested_node(tree.nodes[x as int]);
            }
        }
    }
    assert(ticked.nodes[node as int].repeater() == first.cleared().repeater());
    assert(first.own_passes() == first.cleared().own_passes());
    lemma_repeats_settle(tree, ticked, node, height, floor, limit, answers, visits);
}

/// The passes of a repeater. Either it has attempts left and the branch of
/// its child is as after a reset: then the child is run, and if it fails,
/// the repeater is either left with an attempt and has the branch reset, or
/// it is left without one. Or it is left without an attempt and its child
/// has failed: then it hears of the child once more, and fails.
pub proof fn lemma_repeats_settle(
    base: TreeView<StandardDecorator>,
    cur: TreeView<StandardDecorator>,
    node: usize,
    height: nat,
    floor: nat,
    limit: nat,
    answers: Seq<Status>,
    visits: nat,
)
    requires
        base.branch(node, height),
        height > 0,
        base.tree.contains_key(node),
        base.tree[node].len() == 1,
        base.branch(base.tree[node][0].0, (height - 1) as nat),
        base.enough(base.tree[node][0].0, floor),
        !base.reaches(base.tree[node][0].0, node),
        forall|x: usize| #[trigger]
            base.reaches(base.tree[node][0].0, x) ==> base.reaches(node, x) && x != node,
        forall|x: usize| #[trigger]
            base.reaches(node, x) && x != node ==> base.nodes[x as int].rested(),
        base.progressed(node, cur),
        cur.nodes[node as int].repeats(),
        Status::or_running(cur.nodes[node as int].repeater().status) == Status::Running,
        cur.nodes[node as int].repeater().retry > 0 ==> {
            &&& cur.nodes[node as int].repeater().reset_request is None
            &&& limit >= floor + cur.nodes[node as int].repeater().retry + 1
            &&& forall|x: usize| #[trigger]
                base.reaches(base.tree[node][0].0, x) ==> cur.nodes[x as int]
                    == base.nodes[x as int]
        },
        cur.nodes[node as int].repeater().retry == 0 ==> {
            &&& limit >= 1
            &&& cur.nodes[node as int].repeater().status == Some(Status::Running)
            &&& cur.nodes[base.tree[node][0].0 as int].status() == Some(Status::Failure)
            &&& cur.nodes[base.tree[node][0].0 as int] is Leaf
                || cur.nodes[base.tree[node][0].0 as int].done(Status::Failure)
        },
        all_terminal(answers),
    ensures
        ({
            let (after, left, status) = cur.passes(node, answers, limit);
            base.settled(node, after, status) && all_terminal(left)
        }),
        ({
            let child = base.tree[node][0].0;
            let leaf = base.nodes[child as int] is Leaf;
            let asked = asked_by_repeater(
                cur.nodes[node as int].repeater().retry as nat,
                leaf,
                visits,
            );
            (leaf || base.fails_after(child, visits, floor)) && all_failing(answers)
                && answers.len() >= asked ==> cur.passes(node, answers, limit).2
                == Status::Failure && cur.passes(node, answers, limit).1 == answers.skip(
                asked as int,
            )
        }),
    decreases height, 1nat, cur.nodes[node as int].repeater().retry + 1,
{
    let child = base.tree[node][0];
    let repeater = cur.nodes[node as int].repeater();
    let below = (limit - 1) as nat;
    let children = cur.tree[node];
    super::engine::lemma_reaches_self(base, node);
    super::engine::lemma_reaches_self(base, child.0);
    assert(children.skip(1) =~= Seq::<CTreeNodeID>::empty());
    assert(child.0 != node);
    assert(node < base.nodes.len() && child.0 < base.nodes.len()) by {
        assert(base.reaches(node, child.0));
    }
    let ticked = cur.tick(node);
    assert(cur.nodes[node as int].tick_status() == Status::Running);
    assert(ticked.nodes[node as int].repeater() == repeater);
    let (visited, left) = ticked.visit(node, child, answers, below);
    assert(cur.pass(node, children, answers, below) == visited.pass(
        node,
        children.skip(1),
        left,
        below,
    ));
    assert(visited.pass(node, children.skip(1), left, below) == (visited, left));
    if repeater.retry > 0 {
        assert(base.rested_below(child.0)) by {
            assert forall|x: usize| #[trigger] base.reaches(child.0, x) implies base.nodes[x as int].rested() by {
                assert(base.reaches(node, x) && x != node);
            }
        }
        assert forall|x: usize| #[trigger] base.reaches(child.0, x) implies ticked.nodes[x as int]
            == base.nodes[x as int] by {
            assert(cur.nodes[x as int] == base.nodes[x as int]);
        }
        lemma_visit_settles(base, ticked, node, height, floor, below, 0, answers);
    } else {
        assert(all_terminal(later_answers(answers)));
        assert(next_answer(answers) != Status::Running);
        if !(cur.nodes[child.0 as int] is Leaf) {
            lemma_done_stays(cur.nodes[child.0 as int], Status::Failure);
        }
    }
    let told = visited.nodes[child.0 as int].status()->0;
    let update = ChildUpdate { status: told, child_id: child };
    assert(told != Status::Running);
    assert(visited.nodes[node as int] == ticked.nodes[node as int].told(update));
    assert(base.progressed(node, visited)) by {
        assert forall|x: usize| #[trigger] base.reaches(node, x) implies visited.nodes[x as int].same_at_rest(
            base.nodes[x as int],
        ) && visited.nodes[x as int].reset_requests().len() == 0 by {
            assert(cur.nodes[x as int].same_at_rest(base.nodes[x as int]));
            if x != node && !base.reaches(child.0, x) {
                assert(visited.nodes[x as int] == ticked.nodes[x as int]);
            }
            if repeater.retry == 0 && x != node {
                if base.reaches(child.0, x) && x != child.0 {
                    assert(visited.nodes[x as int] == ticked.nodes[x as int]);
                }
            }
        }
        assert forall|x: usize|
            x < base.nodes.len() && !#[trigger] base.reaches(
                node,
                x,
            ) implies visited.nodes[x as int] == base.nodes[x as int] by {
            assert(!base.reaches(child.0, x));
            assert(visited.nodes[x as int] == ticked.nodes[x as int]);
        }
    }
    let closed = visited.close_pass(node);
    let status = closed.nodes[node as int].tick_status();
    let reticked = closed.tick(node);
    let after = reticked.handle_resets(node);
    if repeater.retry > 0 && told == Status::Failure && repeater.retry > 1 {
        // an attempt is left: the branch of the child is reset
        assert(reticked.nodes[node as int].reset_requests() =~= seq![child]);
        let emptied = reticked.with_node(node, reticked.nodes[node as int].without_requests());
        assert(seq![child].drop_last() =~= Seq::<CTreeNodeID>::empty());
        assert(emptied.reset_branches(Seq::<CTreeNodeID>::empty()) == emptied);
        assert(emptied.has_node(child)) by {
            assert(base.reaches(node, child.0));
        }
        assert(after == emptied.reset_branch(child.0)) by {
            reveal_with_fuel(TreeView::reset_branches, 2);
        }
        lemma_same_ways(base, emptied);
        assert forall|x: usize| #[trigger] base.reaches(child.0, x) implies after.nodes[x as int]
            == base.nodes[x as int] by {
            assert(emptied.reaches(child.0, x));
            assert(base.reaches(node, x) && x != node);
            assert(visited.nodes[x as int].same_at_rest(base.nodes[x as int]));
            lemma_rested_node(base.nodes[x as int]);
        }
        assert(base.progressed(node, after)) by {
            assert forall|x: usize| #[trigger] base.reaches(node, x) implies after.nodes[x as int].same_at_rest(
                base.nodes[x as int],
            ) && after.nodes[x as int].reset_requests().len() == 0 by {
                if base.reaches(child.0, x) {
                    assert(after.nodes[x as int] == base.nodes[x as int]);
                    assert(base.reaches(node, x) && x != node);
                    lemma_rested_node(base.nodes[x as int]);
                } else {
                    assert(!emptied.reaches(child.0, x));
                    assert(after.nodes[x as int] == emptied.nodes[x as int]);
                    assert(visited.nodes[x as int].same_at_rest(base.nodes[x as int]));
                    assert(visited.nodes[x as int].reset_requests() =~= Seq::<
                        CTreeNodeID,
                    >::empty());
                    if x == node {
                        assert(after.nodes[x as int].reset_requests() =~= Seq::<
                            CTreeNodeID,
                        >::empty());
                        assert(after.nodes[x as int].cleared() == visited.nodes[x as int].cleared());
                    } else {
                        assert(emptied.nodes[x as int] == visited.nodes[x as int]);
                    }
                }
            }
            assert forall|x: usize|
                x < base.nodes.len() && !#[trigger] base.reaches(
                    node,
                    x,
                ) implies after.nodes[x as int] == base.nodes[x as int] by {
                assert(!base.reaches(child.0, x));
                assert(!emptied.reaches(child.0, x));
            }
        }
        assert(!emptied.reaches(child.0, node));
        assert(after.nodes[node as int] == emptied.nodes[node as int]);
        assert(status == Status::Running);
        lemma_repeats_settle(base, after, node, height, floor, below, left, visits);
    } else {
        // no branch is reset
        assert(reticked.nodes[node as int].reset_requests() =~= Seq::<CTreeNodeID>::empty());
        assert(reticked.nodes[node as int].without_requests() == reticked.nodes[node as int]);
        assert(reticked.with_node(node, reticked.nodes[node as int].without_requests())
            =~= reticked) by {
            assert(reticked.with_node(
                node,
                reticked.nodes[node as int].without_requests(),
            ).nodes =~= reticked.nodes);
        }
        assert(after == reticked) by {
            assert(reticked.reset_branches(Seq::<CTreeNodeID>::empty()) == reticked);
        }
        assert(base.progressed(node, after)) by {
            assert forall|x: usize| #[trigger] base.reaches(node, x) implies after.nodes[x as int].same_at_rest(
                base.nodes[x as int],
            ) && after.nodes[x as int].reset_requests().len() == 0 by {
                assert(visited.nodes[x as int].same_at_rest(base.nodes[x as int]));
            }
        }
        if repeater.retry > 0 && told == Status::Failure {
            // the last attempt has failed: the repeater hears of its child once more
            assert(status == Status::Running);
            assert(after.nodes[child.0 as int] == visited.nodes[child.0 as int]);
            lemma_repeats_settle(base, after, node, height, floor, below, left, visits);
        } else {
            assert(status != Status::Running);
            assert(after.nodes[node as int].done(status));
        }
    }
    let leaf = base.nodes[child.0 as int] is Leaf;
    let asked = asked_by_repeater(repeater.retry as nat, leaf, visits);
    if (leaf || base.fails_after(child.0, visits, floor)) && all_failing(answers) && answers.len()
        >= asked {
        let retry = repeater.retry as nat;
        if retry > 0 {
            assert(retry * visits >= visits && (retry - 1) * visits + visits == retry * visits)
                by (nonlinear_arith)
                requires
                    retry >= 1,
            ;
            let taken: nat = if leaf {
                1
            } else {
                visits
            };
            if !leaf {
                let ticked_child = ticked.tick(child.0);
                lemma_rested_node(base.nodes[child.0 as int]);
                assert(base.agrees_below(child.0, ticked_child)) by {
                    assert forall|x: usize| #[trigger] base.reaches(child.0, x) && x
                        != child.0 implies ticked_child.nodes[x as int] == base.nodes[x as int] by {
                        assert(cur.nodes[x as int] == base.nodes[x as int]);
                    }
                }
                assert(ticked_child.run_from(child.0, answers, below).2 == Status::Failure);
            }
            assert(told == Status::Failure);
            assert(left == answers.skip(taken as int));
            assert(all_failing(left));
            if repeater.retry > 1 {
                assert(left.skip(asked_by_repeater((retry - 1) as nat, leaf, visits) as int)
                    =~= answers.skip(asked as int));
            } else {
                assert(left.skip(asked_by_repeater(0, leaf, visits) as int) =~= answers.skip(
                    asked as int,
                )) by {
                    assert(0 * visits == 0) by (nonlinear_arith);
                }
            }
        } else {
            assert(0 * visits == 0) by (nonlinear_arith);
            if leaf {
                assert(left == later_answers(answers));
                assert(later_answers(answers) =~= answers.skip(1));
            } else {
                assert(left == answers);
                assert(answers.skip(0) =~= answers);
            }
        }
    }
}

/// A run of a tree that is ready for it ends with a terminal status of the
/// root where the leaves answer with terminal statuses: it is not cut off,
/// and the root is not left running.
pub proof fn lemma_run_ends(
    tree: TreeView<StandardDecorator>,
    height: nat,
    answers: Seq<Status>,
    rounds: nat,
    limit: nat,
)
    requires
        tree.ready(ROOT_ID, height, limit),
        tree.nodes[0].status() is None,
        rounds > 0,
        all_terminal(answers),
    ensures
        ({
            let (after, left) = tree.run(answers, rounds, limit);
            &&& after.status() != Status::Running
            &&& tree.settled(ROOT_ID, after, after.status())
            &&& all_terminal(left)
        }),
{
    lemma_run_settles(tree, ROOT_ID, height, answers, limit);
    let (after, left, status) = tree.run_from(ROOT_ID, answers, limit);
    assert(after.status() == status);
    assert(after.run(left, (rounds - 1) as nat, limit) == (after, left));
}

/// A tree of a root without children is ready for a run.
pub proof fn lemma_sapling_ready()
    ensures
        TreeView::<StandardDecorator>::sapling().ready(ROOT_ID, 0, 1),
        TreeView::<StandardDecorator>::sapling().nodes[0].status() is None,
{
    let tree = TreeView::<StandardDecorator>::sapling();
    assert(tree.children_of(ROOT_ID).len() == 0);
    assert forall|path: Seq<usize>| #[trigger] tree.leads_from(ROOT_ID, path) implies path.len()
        <= 1 && path =~= seq![ROOT_ID] && passes_along(tree, path) <= 1 by {
        if path.len() > 1 {
            assert(tree.is_edge(path[0], path[0int + 1]));
            let at = tree.tree[ROOT_ID].index_of(CTreeNodeID(path[1]));
        }
        assert(path.drop_last() =~= Seq::<usize>::empty());
        reveal_with_fuel(passes_along, 2);
    }
    assert forall|x: usize| #[trigger] tree.reaches(ROOT_ID, x) implies x == ROOT_ID by {
        lemma_childless_reaches_itself(tree, ROOT_ID, x);
    }
    assert(tree.nodes[0].cleared() == tree.nodes[0]);
}

/// The passes that are enough for a node are enough for it where more are
/// given.
pub proof fn lemma_enough_more(tree: TreeView<StandardDecorator>, node: usize, limit: nat, more: nat)
    requires
        tree.enough(node, limit),
        more >= limit,
    ensures
        tree.enough(node, more),
{
    assert forall|path: Seq<usize>| #[trigger] tree.leads_from(node, path) implies passes_along(
        tree,
        path,
    ) <= more by {}
}

/// A run of a tree that is ready for it, with a hook that never answers
/// that a leaf is running, leaves the root with a terminal status: this is
/// what [`ControlTree::run`](super::ControlTree::run) returns then.
pub proof fn lemma_run_with_terminal_hook_ends<Hook: ExecutorHook>(
    before: TreeView<StandardDecorator>,
    after: TreeView<StandardDecorator>,
    height: nat,
    answers: Seq<Status>,
    states: Seq<Hook>,
    rounds: nat,
    limit: nat,
)
    requires
        before.ready(ROOT_ID, height, limit),
        before.nodes[0].status() is None,
        rounds > 0,
        forall|leaf: LeafNode, status: Status| #[trigger]
            can_answer::<Hook>(leaf, status) ==> status != Status::Running,
        asked_in_turn::<Hook>(states, before.run_leaves(answers, rounds, limit), answers),
        before.run(answers, rounds, limit) == (after, Seq::<Status>::empty()),
    ensures
        after.status() != Status::Running,
        before.settled(ROOT_ID, after, after.status()),
{
    let leaves = before.run_leaves(answers, rounds, limit);
    assert forall|i: int| 0 <= i < answers.len() implies answers[i] != Status::Running by {
        assert(states[i].answers(leaves[i], answers[i], &states[i + 1]));
        assert(can_answer::<Hook>(leaves[i], answers[i]));
    }
    lemma_run_ends(before, height, answers, rounds, limit);
}

} // verus!
