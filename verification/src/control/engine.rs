//! Running a tree: what a run is, and the traversal that performs it.

use super::{
    CTreeNode, CTreeNodeID, CTreeNodeView, ChildUpdate, ControlTree, LeafNode, TreeView, ROOT_ID,
};
use crate::hashed::map_get;
use crate::traits::{Control, Decorator, ExecutorHook, NoCallback, UpdateCallback};
use crate::Status;
use vstd::prelude::*;

verus! {

impl<D: Decorator> TreeView<D> {
    /// `child` is listed among the children of `parent`.
    pub open spec fn is_edge(self, parent: usize, child: usize) -> bool {
        self.tree.contains_key(parent) && self.tree[parent].contains(CTreeNodeID(child))
    }

    /// Each node of `path` is a child of the one before it.
    pub open spec fn is_path(self, path: Seq<usize>) -> bool {
        &&& path.len() > 0
        &&& forall|i: int|
            0 <= i < path.len() - 1 ==> self.is_edge(#[trigger] path[i], path[i + 1])
    }

    /// `to` is `from` or one of its descendants.
    pub open spec fn reaches(self, from: usize, to: usize) -> bool {
        exists|path: Seq<usize>|
            #[trigger] self.is_path(path) && path.first() == from && path.last() == to
    }

    /// The tree after the node `id` was ticked.
    pub open spec fn tick(self, id: usize) -> Self {
        self.with_node(id, self.nodes[id as int].ticked())
    }

    /// The tree after the node `id` was told `update`.
    pub open spec fn tell(self, id: usize, update: ChildUpdate) -> Self {
        self.with_node(id, self.nodes[id as int].told(update))
    }

    /// The tree after the node `id` was told that all its children have
    /// been seen.
    pub open spec fn close_pass(self, id: usize) -> Self {
        self.with_node(id, self.nodes[id as int].all_seen())
    }

    /// The tree after `from` and all its descendants were reset.
    pub open spec fn reset_branch(self, from: usize) -> Self {
        TreeView {
            nodes: Seq::new(
                self.nodes.len(),
                |i: int|
                    if self.reaches(from, i as usize) {
                        self.nodes[i].cleared()
                    } else {
                        self.nodes[i]
                    },
            ),
            ..self
        }
    }

    /// The tree after the branches were reset one after the other. A branch
    /// that names no node of the tree is passed over.
    pub open spec fn reset_branches(self, branches: Seq<CTreeNodeID>) -> Self
        decreases branches.len(),
    {
        if branches.len() == 0 {
            self
        } else {
            let before = self.reset_branches(branches.drop_last());
            if before.has_node(branches.last()) {
                before.reset_branch(branches.last().0)
            } else {
                before
            }
        }
    }

    /// The tree after the node `id` has handed over the branches that it
    /// holds to be reset, and they were reset.
    pub open spec fn handle_resets(self, id: usize) -> Self {
        self.with_node(id, self.nodes[id as int].without_requests()).reset_branches(
            self.nodes[id as int].reset_requests(),
        )
    }

    /// One visit of `child` in a pass of `parent`. A leaf is handed to the
    /// hook, whose answer is cached on the leaf and told to the parent. Any
    /// other child is ticked, run if it is running, and its status told to
    /// the parent.
    pub open spec fn visit(
        self,
        parent: usize,
        child: CTreeNodeID,
        answers: Seq<Status>,
        limit: nat,
    ) -> (Self, Seq<Status>)
        decreases limit, 2nat, 0nat,
    {
        if self.nodes[child.0 as int] is Leaf {
            let status = next_answer(answers);
            let hooked = self.with_node(
                child.0,
                self.nodes[child.0 as int].with_status(Some(status)),
            );
            (hooked.tell(parent, ChildUpdate { status, child_id: child }), later_answers(answers))
        } else {
            let status = self.nodes[child.0 as int].tick_status();
            let ticked = self.tick(child.0);
            let (after, left, subtree_status) = if status == Status::Running {
                ticked.run_from(child.0, answers, limit)
            } else {
                (ticked, answers, status)
            };
            (after.tell(parent, ChildUpdate { status: subtree_status, child_id: child }), left)
        }
    }

    /// What is left of a pass of `node` when `children` are still to come.
    /// Before each child the node is ticked, and the pass ends if the node
    /// has reached a terminal status. A child whose cached status is
    /// success is passed over.
    pub open spec fn pass(
        self,
        node: usize,
        children: Seq<CTreeNodeID>,
        answers: Seq<Status>,
        limit: nat,
    ) -> (Self, Seq<Status>)
        decreases limit, 3nat, children.len(),
    {
        if children.len() == 0 {
            (self, answers)
        } else {
            let status = self.nodes[node as int].tick_status();
            let ticked = self.tick(node);
            if status != Status::Running {
                (ticked, answers)
            } else if ticked.nodes[children[0].0 as int].status() == Some(Status::Success) {
                ticked.pass(node, children.skip(1), answers, limit)
            } else {
                let (after, left) = ticked.visit(node, children[0], answers, limit);
                after.pass(node, children.skip(1), left, limit)
            }
        }
    }

    /// The passes of a running `node`, at most `limit` of them: each goes
    /// through the children, tells the node that all were seen, ticks it and
    /// resets the branches that it asked to have reset. They end when the
    /// node has reached a terminal status.
    pub open spec fn passes(self, node: usize, answers: Seq<Status>, limit: nat) -> (
        Self,
        Seq<Status>,
        Status,
    )
        decreases limit, 0nat, 0nat,
    {
        if limit == 0 {
            (self, answers, Status::Running)
        } else {
            let below = (limit - 1) as nat;
            let (after, left) = self.pass(node, self.tree[node], answers, below);
            let closed = after.close_pass(node);
            let status = closed.nodes[node as int].tick_status();
            let cleared = closed.tick(node).handle_resets(node);
            if status == Status::Running {
                cleared.passes(node, left, below)
            } else {
                (cleared, left, status)
            }
        }
    }

    /// A run from `node`, where the hook gives `answers` one after the
    /// other and no node is given more than `limit` passes: the tree after
    /// it, the answers that were not asked for, and the status of `node`.
    pub open spec fn run_from(self, node: usize, answers: Seq<Status>, limit: nat) -> (
        Self,
        Seq<Status>,
        Status,
    )
        decreases limit, 1nat, 0nat,
    {
        let status = self.nodes[node as int].tick_status();
        let ticked = self.tick(node);
        if status == Status::Running {
            ticked.passes(node, answers, limit)
        } else {
            (ticked, answers, status)
        }
    }

    /// Runs from the root for as long as the root is running, at most
    /// `rounds` times.
    pub open spec fn run(self, answers: Seq<Status>, rounds: nat, limit: nat) -> (Self, Seq<Status>)
        decreases rounds,
    {
        if rounds == 0 || self.status() != Status::Running {
            (self, answers)
        } else {
            let (after, left, _) = self.run_from(ROOT_ID, answers, limit);
            after.run(left, (rounds - 1) as nat, limit)
        }
    }

    /// The number of runs from the root that [`Self::run`] makes.
    pub open spec fn run_rounds(self, answers: Seq<Status>, rounds: nat, limit: nat) -> nat
        decreases rounds,
    {
        if rounds == 0 || self.status() != Status::Running {
            0
        } else {
            let (after, left, _) = self.run_from(ROOT_ID, answers, limit);
            1 + after.run_rounds(left, (rounds - 1) as nat, limit)
        }
    }

    /// The leaves that the hook is asked about in [`Self::visit`], each as
    /// it stands in the tree when it is handed to the hook.
    pub open spec fn visit_leaves(
        self,
        parent: usize,
        child: CTreeNodeID,
        answers: Seq<Status>,
        limit: nat,
    ) -> Seq<LeafNode>
        decreases limit, 2nat, 0nat,
    {
        if self.nodes[child.0 as int] is Leaf {
            seq![self.nodes[child.0 as int]->Leaf_0]
        } else if self.nodes[child.0 as int].tick_status() == Status::Running {
            self.tick(child.0).run_from_leaves(child.0, answers, limit)
        } else {
            Seq::empty()
        }
    }

    /// The leaves that the hook is asked about in [`Self::pass`], in the
    /// order in which it is asked.
    pub open spec fn pass_leaves(
        self,
        node: usize,
        children: Seq<CTreeNodeID>,
        answers: Seq<Status>,
        limit: nat,
    ) -> Seq<LeafNode>
        decreases limit, 3nat, children.len(),
    {
        if children.len() == 0 {
            Seq::empty()
        } else {
            let status = self.nodes[node as int].tick_status();
            let ticked = self.tick(node);
            if status != Status::Running {
                Seq::empty()
            } else if ticked.nodes[children[0].0 as int].status() == Some(Status::Success) {
                ticked.pass_leaves(node, children.skip(1), answers, limit)
            } else {
                let (after, left) = ticked.visit(node, children[0], answers, limit);
                ticked.visit_leaves(node, children[0], answers, limit) + after.pass_leaves(
                    node,
                    children.skip(1),
                    left,
                    limit,
                )
            }
        }
    }

    /// The leaves that the hook is asked about in [`Self::passes`], in the
    /// order in which it is asked.
    pub open spec fn passes_leaves(self, node: usize, answers: Seq<Status>, limit: nat) -> Seq<
        LeafNode,
    >
        decreases limit, 0nat, 0nat,
    {
        if limit == 0 {
            Seq::empty()
        } else {
            let below = (limit - 1) as nat;
            let (after, left) = self.pass(node, self.tree[node], answers, below);
            let closed = after.close_pass(node);
            let status = closed.nodes[node as int].tick_status();
            let cleared = closed.tick(node).handle_resets(node);
            self.pass_leaves(node, self.tree[node], answers, below) + (if status
                == Status::Running {
                cleared.passes_leaves(node, left, below)
            } else {
                Seq::empty()
            })
        }
    }

    /// The leaves that the hook is asked about in [`Self::run_from`], in
    /// the order in which it is asked.
    pub open spec fn run_from_leaves(self, node: usize, answers: Seq<Status>, limit: nat) -> Seq<
        LeafNode,
    >
        decreases limit, 1nat, 0nat,
    {
        if self.nodes[node as int].tick_status() == Status::Running {
            self.tick(node).passes_leaves(node, answers, limit)
        } else {
            Seq::empty()
        }
    }

    /// The leaves that the hook is asked about in [`Self::run`], in the
    /// order in which it is asked.
    pub open spec fn run_leaves(self, answers: Seq<Status>, rounds: nat, limit: nat) -> Seq<
        LeafNode,
    >
        decreases rounds,
    {
        if rounds == 0 || self.status() != Status::Running {
            Seq::empty()
        } else {
            let (after, left, _) = self.run_from(ROOT_ID, answers, limit);
            self.run_from_leaves(ROOT_ID, answers, limit) + after.run_leaves(
                left,
                (rounds - 1) as nat,
                limit,
            )
        }
    }

    /// The trees that the callback is shown in [`Self::visit`]: for a leaf
    /// the tree in which the leaf holds its answer, and the parent has not
    /// been told.
    pub open spec fn visit_shown(
        self,
        parent: usize,
        child: CTreeNodeID,
        answers: Seq<Status>,
        limit: nat,
    ) -> Seq<Self>
        decreases limit, 2nat, 0nat,
    {
        if self.nodes[child.0 as int] is Leaf {
            seq![
                self.with_node(
                    child.0,
                    self.nodes[child.0 as int].with_status(Some(next_answer(answers))),
                ),
            ]
        } else if self.nodes[child.0 as int].tick_status() == Status::Running {
            self.tick(child.0).run_from_shown(child.0, answers, limit)
        } else {
            Seq::empty()
        }
    }

    /// The trees that the callback is shown in [`Self::pass`], in the order
    /// in which it is shown them. Where the pass ends before a child, the
    /// callback is shown the tree after the tick that ended it.
    pub open spec fn pass_shown(
        self,
        node: usize,
        children: Seq<CTreeNodeID>,
        answers: Seq<Status>,
        limit: nat,
    ) -> Seq<Self>
        decreases limit, 3nat, children.len(),
    {
        if children.len() == 0 {
            Seq::empty()
        } else {
            let status = self.nodes[node as int].tick_status();
            let ticked = self.tick(node);
            if status != Status::Running {
                seq![ticked]
            } else if ticked.nodes[children[0].0 as int].status() == Some(Status::Success) {
                ticked.pass_shown(node, children.skip(1), answers, limit)
            } else {
                let (after, left) = ticked.visit(node, children[0], answers, limit);
                ticked.visit_shown(node, children[0], answers, limit) + after.pass_shown(
                    node,
                    children.skip(1),
                    left,
                    limit,
                )
            }
        }
    }

    /// The trees that the callback is shown in [`Self::passes`]: those of
    /// each pass, and after each pass the tree with its branches reset.
    pub open spec fn passes_shown(self, node: usize, answers: Seq<Status>, limit: nat) -> Seq<Self>
        decreases limit, 0nat, 0nat,
    {
        if limit == 0 {
            Seq::empty()
        } else {
            let below = (limit - 1) as nat;
            let (after, left) = self.pass(node, self.tree[node], answers, below);
            let closed = after.close_pass(node);
            let status = closed.nodes[node as int].tick_status();
            let cleared = closed.tick(node).handle_resets(node);
            self.pass_shown(node, self.tree[node], answers, below).push(cleared) + (if status
                == Status::Running {
                cleared.passes_shown(node, left, below)
            } else {
                Seq::empty()
            })
        }
    }

    /// The trees that the callback is shown in [`Self::run_from`]: the tree
    /// after the first tick of the node, and then those of its passes.
    pub open spec fn run_from_shown(self, node: usize, answers: Seq<Status>, limit: nat) -> Seq<
        Self,
    >
        decreases limit, 1nat, 0nat,
    {
        seq![self.tick(node)] + (if self.nodes[node as int].tick_status() == Status::Running {
            self.tick(node).passes_shown(node, answers, limit)
        } else {
            Seq::empty()
        })
    }

    /// The trees that the callback is shown in [`Self::run`], in the order
    /// in which it is shown them.
    pub open spec fn run_shown(self, answers: Seq<Status>, rounds: nat, limit: nat) -> Seq<Self>
        decreases rounds,
    {
        if rounds == 0 || self.status() != Status::Running {
            Seq::empty()
        } else {
            let (after, left, _) = self.run_from(ROOT_ID, answers, limit);
            self.run_from_shown(ROOT_ID, answers, limit) + after.run_shown(
                left,
                (rounds - 1) as nat,
                limit,
            )
        }
    }

    /// Two trees of one shape: the same children everywhere, and node by
    /// node the same kind of node under the same id.
    pub open spec fn same_shape(self, other: Self) -> bool {
        &&& self.tree == other.tree
        &&& self.nodes.len() == other.nodes.len()
        &&& forall|i: int|
            0 <= i < self.nodes.len() ==> {
                &&& (#[trigger] self.nodes[i] is Root) == (other.nodes[i] is Root)
                &&& (self.nodes[i] is Leaf) == (other.nodes[i] is Leaf)
                &&& self.nodes[i].id() == other.nodes[i].id()
            }
    }
}

/// `status` is an answer that a hook of this kind can give for `leaf`.
pub open spec fn can_answer<Hook: ExecutorHook>(leaf: LeafNode, status: Status) -> bool {
    exists|before: Hook, after: Hook| #[trigger] before.answers(leaf, status, &after)
}

/// The hook stood as `states[0]`, was asked about `leaves` one after the
/// other and answered `answers`; after each answer it stood as the next of
/// `states`.
pub open spec fn asked_in_turn<Hook: ExecutorHook>(
    states: Seq<Hook>,
    leaves: Seq<LeafNode>,
    answers: Seq<Status>,
) -> bool {
    &&& states.len() == leaves.len() + 1
    &&& answers.len() == leaves.len()
    &&& forall|i: int|
        0 <= i < leaves.len() ==> states[i].answers(#[trigger] leaves[i], answers[i], &states[i + 1])
}

/// The callback stood as `seen[0]` and was shown `trees` one after the
/// other; after each it stood as the next of `seen`.
pub open spec fn shown_in_turn<D: Decorator, Callback: UpdateCallback<D>>(
    seen: Seq<Callback>,
    trees: Seq<TreeView<D>>,
) -> bool {
    &&& seen.len() == trees.len() + 1
    &&& forall|i: int| 0 <= i < trees.len() ==> seen[i].sees(#[trigger] trees[i], &seen[i + 1])
}

/// What a callback was shown in turn, and then went on to be shown in turn,
/// it was shown in turn.
pub proof fn lemma_shown_in_turn_joined<D: Decorator, Callback: UpdateCallback<D>>(
    first_seen: Seq<Callback>,
    first_trees: Seq<TreeView<D>>,
    later_seen: Seq<Callback>,
    later_trees: Seq<TreeView<D>>,
)
    requires
        shown_in_turn::<D, Callback>(first_seen, first_trees),
        shown_in_turn::<D, Callback>(later_seen, later_trees),
        first_seen.last() == later_seen.first(),
    ensures
        shown_in_turn::<D, Callback>(first_seen + later_seen.skip(1), first_trees + later_trees),
        (first_seen + later_seen.skip(1)).first() == first_seen.first(),
        (first_seen + later_seen.skip(1)).last() == later_seen.last(),
{
    let seen = first_seen + later_seen.skip(1);
    let trees = first_trees + later_trees;
    assert forall|i: int| 0 <= i < trees.len() implies seen[i].sees(
        #[trigger] trees[i],
        &seen[i + 1],
    ) by {
        if i < first_trees.len() {
            assert(first_seen[i].sees(first_trees[i], &first_seen[i + 1]));
            if i + 1 == first_seen.len() {
                assert(seen[i + 1] == later_seen[1]);
            }
        } else {
            let k = i - first_trees.len();
            assert(later_seen[k].sees(later_trees[k], &later_seen[k + 1]));
            if k == 0 {
                assert(seen[i] == first_seen.last());
            } else {
                assert(seen[i] == later_seen[k]);
            }
            assert(seen[i + 1] == later_seen[k + 1]);
        }
    }
}

/// A hook that was asked once went from what it was to what it is.
pub proof fn lemma_asked_once<Hook: ExecutorHook>(
    before: Hook,
    leaf: LeafNode,
    status: Status,
    after: Hook,
)
    requires
        before.answers(leaf, status, &after),
    ensures
        asked_in_turn::<Hook>(seq![before, after], seq![leaf], seq![status]),
{
}

/// What a hook was asked in turn, and then went on to be asked in turn, it
/// was asked in turn.
pub proof fn lemma_asked_in_turn_joined<Hook: ExecutorHook>(
    first_states: Seq<Hook>,
    first_leaves: Seq<LeafNode>,
    first_answers: Seq<Status>,
    later_states: Seq<Hook>,
    later_leaves: Seq<LeafNode>,
    later_answers: Seq<Status>,
)
    requires
        asked_in_turn::<Hook>(first_states, first_leaves, first_answers),
        asked_in_turn::<Hook>(later_states, later_leaves, later_answers),
        first_states.last() == later_states.first(),
    ensures
        asked_in_turn::<Hook>(
            first_states + later_states.skip(1),
            first_leaves + later_leaves,
            first_answers + later_answers,
        ),
        (first_states + later_states.skip(1)).first() == first_states.first(),
        (first_states + later_states.skip(1)).last() == later_states.last(),
{
    let states = first_states + later_states.skip(1);
    let leaves = first_leaves + later_leaves;
    let answers = first_answers + later_answers;
    assert forall|i: int| 0 <= i < leaves.len() implies states[i].answers(
        #[trigger] leaves[i],
        answers[i],
        &states[i + 1],
    ) by {
        if i < first_leaves.len() {
            assert(first_states[i].answers(first_leaves[i], first_answers[i], &first_states[i + 1]));
            if i + 1 == first_states.len() {
                assert(states[i + 1] == later_states[1]);
            }
        } else {
            let k = i - first_leaves.len();
            assert(later_states[k].answers(later_leaves[k], later_answers[k], &later_states[k + 1]));
            if k == 0 {
                assert(states[i] == first_states.last());
            } else {
                assert(states[i] == later_states[k]);
            }
            assert(states[i + 1] == later_states[k + 1]);
        }
    }
}

/// The answer that the hook gives next. Where none is left, the leaf is
/// taken to have failed.
pub open spec fn next_answer(answers: Seq<Status>) -> Status {
    if answers.len() > 0 {
        answers[0]
    } else {
        Status::Failure
    }
}

/// The answers that are left after the next one.
pub open spec fn later_answers(answers: Seq<Status>) -> Seq<Status> {
    if answers.len() > 0 {
        answers.skip(1)
    } else {
        answers
    }
}

/// A set that holds `from` and the children of each of its nodes holds all
/// that `from` reaches.
pub proof fn lemma_closed_holds_reached<D: Decorator>(
    tree: TreeView<D>,
    closed: Set<int>,
    path: Seq<usize>,
    at: int,
)
    requires
        tree.is_path(path),
        0 <= at < path.len(),
        closed.contains(path[0] as int),
        forall|parent: usize, child: usize|
            closed.contains(parent as int) && #[trigger] tree.is_edge(parent, child)
                ==> closed.contains(child as int),
    ensures
        closed.contains(path[at] as int),
    decreases at,
{
    if at > 0 {
        lemma_closed_holds_reached(tree, closed, path, at - 1);
        assert(tree.is_edge(path[at - 1], path[at - 1 + 1]));
    }
}

/// What is reached by way of a child is reached.
pub proof fn lemma_reaches_step<D: Decorator>(tree: TreeView<D>, from: usize, via: usize, to: usize)
    requires
        tree.reaches(from, via),
        tree.is_edge(via, to),
    ensures
        tree.reaches(from, to),
{
    let path = choose|path: Seq<usize>|
        #[trigger] tree.is_path(path) && path.first() == from && path.last() == via;
    let longer = path.push(to);
    assert forall|i: int| 0 <= i < longer.len() - 1 implies tree.is_edge(
        #[trigger] longer[i],
        longer[i + 1],
    ) by {
        if i < path.len() - 1 {
            assert(tree.is_edge(path[i], path[i + 1]));
        }
    }
    assert(tree.is_path(longer) && longer.first() == from && longer.last() == to);
}

/// Every node reaches itself.
pub proof fn lemma_reaches_self<D: Decorator>(tree: TreeView<D>, from: usize)
    ensures
        tree.reaches(from, from),
{
    let path = seq![from];
    assert(tree.is_path(path) && path.first() == from && path.last() == from);
}

/// A tree keeps its shape when a node is replaced by one of its kind.
pub proof fn lemma_shape_kept<D: Decorator>(tree: TreeView<D>, id: usize, node: CTreeNodeView<D>)
    requires
        id < tree.nodes.len(),
        (node is Root) == (tree.nodes[id as int] is Root),
        (node is Leaf) == (tree.nodes[id as int] is Leaf),
        node.id() == tree.nodes[id as int].id(),
    ensures
        tree.same_shape(tree.with_node(id, node)),
{
}

/// A tree of the shape of a well-formed tree is well-formed.
pub proof fn lemma_shape_wf<D: Decorator>(tree: TreeView<D>, other: TreeView<D>)
    requires
        tree.wf(),
        tree.same_shape(other),
    ensures
        other.wf(),
{
    assert(tree.nodes[0] is Root);
    assert forall|parent: usize, i: int|
        other.tree.contains_key(parent) && 0 <= i < other.tree[parent].len() implies other.has_node(
        #[trigger] other.tree[parent][i],
    ) by {
        assert(tree.has_node(tree.tree[parent][i]));
    }
}

/// Shapes are kept along a chain of trees.
pub proof fn lemma_shape_chain<D: Decorator>(a: TreeView<D>, b: TreeView<D>, c: TreeView<D>)
    requires
        a.same_shape(b),
        b.same_shape(c),
    ensures
        a.same_shape(c),
{
    assert forall|i: int| 0 <= i < a.nodes.len() implies {
        &&& (#[trigger] a.nodes[i] is Root) == (c.nodes[i] is Root)
        &&& (a.nodes[i] is Leaf) == (c.nodes[i] is Leaf)
        &&& a.nodes[i].id() == c.nodes[i].id()
    } by {
        assert((b.nodes[i] is Root) == (c.nodes[i] is Root));
    }
}

/// A reset keeps the shape of the tree.
pub proof fn lemma_reset_branch_shape<D: Decorator>(tree: TreeView<D>, from: usize)
    ensures
        tree.same_shape(tree.reset_branch(from)),
{
}

/// Resets keep the shape of the tree.
pub proof fn lemma_reset_branches_shape<D: Decorator>(tree: TreeView<D>, branches: Seq<CTreeNodeID>)
    ensures
        tree.same_shape(tree.reset_branches(branches)),
    decreases branches.len(),
{
    if branches.len() > 0 {
        let before = tree.reset_branches(branches.drop_last());
        lemma_reset_branches_shape(tree, branches.drop_last());
        lemma_reset_branch_shape(before, branches.last().0);
        lemma_shape_chain(tree, before, before.reset_branch(branches.last().0));
    }
}

impl<D: Decorator> ControlTree<D> {
    /// Ticks the node `id`.
    fn tick_node(&mut self, id: CTreeNodeID) -> (status: Status)
        requires
            id.0 < old(self)@.nodes.len(),
        ensures
            final(self)@ == old(self)@.tick(id.0),
            status == old(self)@.nodes[id.0 as int].tick_status(),
    {
        self.node_mut(id).tick()
    }

    /// Runs the tree until its root has reached a terminal status, and
    /// returns the status of the root. The hook is asked for the status of
    /// each leaf that the run comes to.
    ///
    /// A run is cut off where a node has been given `usize::MAX` passes, and
    /// after `usize::MAX` runs from the root. Only then is the root still
    /// running at the end.
    pub fn run<Hook: ExecutorHook>(&mut self, hook: &mut Hook) -> (out: Status)
        requires
            old(self)@.wf(),
        ensures
            out == final(self)@.status(),
            old(self)@.same_shape(final(self)@),
            exists|answers: Seq<Status>, states: Seq<Hook>|
                {
                    &&& #[trigger] asked_in_turn::<Hook>(
                        states,
                        old(self)@.run_leaves(answers, usize::MAX as nat, usize::MAX as nat),
                        answers,
                    )
                    &&& states.first() == *old(hook)
                    &&& states.last() == *final(hook)
                    &&& old(self)@.run(answers, usize::MAX as nat, usize::MAX as nat) == (
                        final(self)@,
                        Seq::<Status>::empty(),
                    )
                    &&& forall|rest: Seq<Status>|
                        #[trigger] old(self)@.run(
                            answers + rest,
                            usize::MAX as nat,
                            usize::MAX as nat,
                        ) == (final(self)@, rest)
                    &&& out == Status::Running ==> old(self)@.run_rounds(
                        answers,
                        usize::MAX as nat,
                        usize::MAX as nat,
                    ) == usize::MAX
                },
    {
        let mut no_callback = NoCallback;
        self.run_with_update_callback(hook, &mut no_callback)
    }

    /// [`Self::run`], with a callback on each noteworthy event: a tick of a
    /// node, the answer of the hook for a leaf, and the end of a pass.
    pub fn run_with_update_callback<Hook: ExecutorHook, Callback: UpdateCallback<D>>(
        &mut self,
        hook: &mut Hook,
        cb: &mut Callback,
    ) -> (out: Status)
        requires
            old(self)@.wf(),
        ensures
            out == final(self)@.status(),
            old(self)@.same_shape(final(self)@),
            exists|answers: Seq<Status>, states: Seq<Hook>, seen: Seq<Callback>|
                #![trigger
                    asked_in_turn::<Hook>(
                        states,
                        old(self)@.run_leaves(answers, usize::MAX as nat, usize::MAX as nat),
                        answers,
                    ),
                    shown_in_turn::<D, Callback>(
                        seen,
                        old(self)@.run_shown(answers, usize::MAX as nat, usize::MAX as nat),
                    ),
                ]
                {
                    &&& asked_in_turn::<Hook>(
                        states,
                        old(self)@.run_leaves(answers, usize::MAX as nat, usize::MAX as nat),
                        answers,
                    )
                    &&& states.first() == *old(hook)
                    &&& states.last() == *final(hook)
                    &&& shown_in_turn::<D, Callback>(
                        seen,
                        old(self)@.run_shown(answers, usize::MAX as nat, usize::MAX as nat),
                    )
                    &&& seen.first() == *old(cb)
                    &&& seen.last() == *final(cb)
                    &&& old(self)@.run(answers, usize::MAX as nat, usize::MAX as nat) == (
                        final(self)@,
                        Seq::<Status>::empty(),
                    )
                    &&& forall|rest: Seq<Status>|
                        #[trigger] old(self)@.run(
                            answers + rest,
                            usize::MAX as nat,
                            usize::MAX as nat,
                        ) == (final(self)@, rest)
                    &&& out == Status::Running ==> old(self)@.run_rounds(
                        answers,
                        usize::MAX as nat,
                        usize::MAX as nat,
                    ) == usize::MAX
                },
    {
        let ghost mut log: Seq<Status> = Seq::empty();
        let ghost mut leaves: Seq<LeafNode> = Seq::empty();
        let ghost mut states: Seq<Hook> = seq![*hook];
        let ghost mut shown: Seq<TreeView<D>> = Seq::empty();
        let ghost mut seen: Seq<Callback> = seq![*cb];
        let mut rounds = usize::MAX;
        proof {
            assert forall|rest: Seq<Status>|
                #[trigger] old(self)@.run_rounds(log + rest, usize::MAX as nat, usize::MAX as nat)
                    == (usize::MAX - rounds) + self@.run_rounds(
                    rest,
                    rounds as nat,
                    usize::MAX as nat,
                ) by {
                assert(log + rest =~= rest);
            }
            assert forall|rest: Seq<Status>|
                #[trigger] old(self)@.run_shown(log + rest, usize::MAX as nat, usize::MAX as nat)
                    == shown + self@.run_shown(rest, rounds as nat, usize::MAX as nat) by {
                assert(log + rest =~= rest);
                assert(shown + self@.run_shown(rest, rounds as nat, usize::MAX as nat)
                    =~= self@.run_shown(rest, rounds as nat, usize::MAX as nat));
            }
            assert forall|rest: Seq<Status>|
                #[trigger] old(self)@.run(log + rest, usize::MAX as nat, usize::MAX as nat)
                    == self@.run(rest, rounds as nat, usize::MAX as nat) by {
                assert(log + rest =~= rest);
            }
            assert forall|rest: Seq<Status>|
                #[trigger] old(self)@.run_leaves(log + rest, usize::MAX as nat, usize::MAX as nat)
                    == leaves + self@.run_leaves(rest, rounds as nat, usize::MAX as nat) by {
                assert(log + rest =~= rest);
                assert(leaves + self@.run_leaves(rest, rounds as nat, usize::MAX as nat)
                    =~= self@.run_leaves(rest, rounds as nat, usize::MAX as nat));
            }
        }
        while self.status() == Status::Running && rounds > 0
            invariant
                old(self)@.wf(),
                old(self)@.same_shape(self@),
                forall|rest: Seq<Status>|
                    #[trigger] old(self)@.run(log + rest, usize::MAX as nat, usize::MAX as nat)
                        == self@.run(rest, rounds as nat, usize::MAX as nat),
                forall|rest: Seq<Status>|
                    #[trigger] old(self)@.run_leaves(
                        log + rest,
                        usize::MAX as nat,
                        usize::MAX as nat,
                    ) == leaves + self@.run_leaves(rest, rounds as nat, usize::MAX as nat),
                asked_in_turn::<Hook>(states, leaves, log),
                states.first() == *old(hook),
                states.last() == *hook,
                forall|rest: Seq<Status>|
                    #[trigger] old(self)@.run_shown(
                        log + rest,
                        usize::MAX as nat,
                        usize::MAX as nat,
                    ) == shown + self@.run_shown(rest, rounds as nat, usize::MAX as nat),
                shown_in_turn::<D, Callback>(seen, shown),
                seen.first() == *old(cb),
                seen.last() == *cb,
                forall|rest: Seq<Status>|
                    #[trigger] old(self)@.run_rounds(
                        log + rest,
                        usize::MAX as nat,
                        usize::MAX as nat,
                    ) == (usize::MAX - rounds) + self@.run_rounds(
                        rest,
                        rounds as nat,
                        usize::MAX as nat,
                    ),
            decreases rounds,
        {
            let ghost before = self@;
            let ghost rounds_before = rounds as nat;
            rounds -= 1;
            proof {
                lemma_shape_wf(old(self)@, before);
            }
            let (_, Ghost(run)) = self.run_within(CTreeNodeID(ROOT_ID), hook, cb, usize::MAX);
            let ghost answered = run.0;
            proof {
                lemma_shape_chain(old(self)@, before, self@);
                let ghost old_log = log;
                let ghost old_leaves = leaves;
                log = log + answered;
                leaves = leaves + run.1;
                assert forall|rest: Seq<Status>|
                    #[trigger] old(self)@.run(log + rest, usize::MAX as nat, usize::MAX as nat)
                        == self@.run(rest, rounds as nat, usize::MAX as nat) by {
                    let answers = answered + rest;
                    assert(old_log + answers =~= log + rest);
                    assert(before.run_from(ROOT_ID, answered + rest, usize::MAX as nat).0
                        == self@);
                    assert(before.run(answers, rounds_before, usize::MAX as nat) == self@.run(
                        rest,
                        rounds as nat,
                        usize::MAX as nat,
                    ));
                }
                assert forall|rest: Seq<Status>|
                    #[trigger] old(self)@.run_leaves(
                        log + rest,
                        usize::MAX as nat,
                        usize::MAX as nat,
                    ) == leaves + self@.run_leaves(rest, rounds as nat, usize::MAX as nat) by {
                    let answers = answered + rest;
                    assert(old_log + answers =~= log + rest);
                    assert(before.run_from(ROOT_ID, answered + rest, usize::MAX as nat) == (
                        self@,
                        rest,
                        before.run_from(ROOT_ID, answered + rest, usize::MAX as nat).2,
                    ));
                    assert(before.run_from_leaves(ROOT_ID, answered + rest, usize::MAX as nat)
                        == run.1);
                    let later = self@.run_leaves(rest, rounds as nat, usize::MAX as nat);
                    assert(before.run_leaves(answers, rounds_before, usize::MAX as nat) == run.1
                        + later);
                    assert(old_leaves + (run.1 + later) =~= leaves + later);
                }
                lemma_asked_in_turn_joined::<Hook>(
                    states,
                    old_leaves,
                    old_log,
                    run.2,
                    run.1,
                    answered,
                );
                states = states + run.2.skip(1);
                assert forall|rest: Seq<Status>|
                    #[trigger] old(self)@.run_rounds(
                        log + rest,
                        usize::MAX as nat,
                        usize::MAX as nat,
                    ) == (usize::MAX - rounds) + self@.run_rounds(
                        rest,
                        rounds as nat,
                        usize::MAX as nat,
                    ) by {
                    let answers = answered + rest;
                    assert(old_log + answers =~= log + rest);
                    assert(before.run_from(ROOT_ID, answered + rest, usize::MAX as nat) == (
                        self@,
                        rest,
                        before.run_from(ROOT_ID, answered + rest, usize::MAX as nat).2,
                    ));
                    assert(before.run_rounds(answers, rounds_before, usize::MAX as nat) == 1
                        + self@.run_rounds(rest, rounds as nat, usize::MAX as nat));
                }
                let ghost old_shown = shown;
                lemma_shown_in_turn_joined::<D, Callback>(seen, shown, run.4, run.3);
                seen = seen + run.4.skip(1);
                shown = shown + run.3;
                assert forall|rest: Seq<Status>|
                    #[trigger] old(self)@.run_shown(
                        log + rest,
                        usize::MAX as nat,
                        usize::MAX as nat,
                    ) == shown + self@.run_shown(rest, rounds as nat, usize::MAX as nat) by {
                    let answers = answered + rest;
                    assert(old_log + answers =~= log + rest);
                    assert(before.run_from(ROOT_ID, answered + rest, usize::MAX as nat) == (
                        self@,
                        rest,
                        before.run_from(ROOT_ID, answered + rest, usize::MAX as nat).2,
                    ));
                    assert(before.run_from_shown(ROOT_ID, answered + rest, usize::MAX as nat)
                        == run.3);
                    let later = self@.run_shown(rest, rounds as nat, usize::MAX as nat);
                    assert(before.run_shown(answers, rounds_before, usize::MAX as nat) == run.3
                        + later);
                    assert(old_shown + (run.3 + later) =~= shown + later);
                }
            }
        }
        proof {
            let rest = Seq::<Status>::empty();
            assert(log + rest =~= log);
            assert(old(self)@.run(log + rest, usize::MAX as nat, usize::MAX as nat) == (
                self@,
                rest,
            ));
            assert(self@.run_leaves(rest, rounds as nat, usize::MAX as nat)
                =~= Seq::<LeafNode>::empty());
            assert(old(self)@.run_leaves(log + rest, usize::MAX as nat, usize::MAX as nat)
                =~= leaves);
            assert(asked_in_turn::<Hook>(
                states,
                old(self)@.run_leaves(log, usize::MAX as nat, usize::MAX as nat),
                log,
            ));
            assert(self@.run_shown(rest, rounds as nat, usize::MAX as nat)
                =~= Seq::<TreeView<D>>::empty());
            assert(old(self)@.run_shown(log + rest, usize::MAX as nat, usize::MAX as nat)
                =~= shown);
            assert(shown_in_turn::<D, Callback>(
                seen,
                old(self)@.run_shown(log, usize::MAX as nat, usize::MAX as nat),
            ));
            assert(self@.run_rounds(rest, rounds as nat, usize::MAX as nat) == 0);
            assert(old(self)@.run_rounds(log + rest, usize::MAX as nat, usize::MAX as nat)
                == usize::MAX - rounds);
            assert forall|more: Seq<Status>|
                #[trigger] old(self)@.run(log + more, usize::MAX as nat, usize::MAX as nat) == (
                    self@,
                    more,
                ) by {
                assert(self@.run(more, rounds as nat, usize::MAX as nat) == (self@, more));
            }
        }
        self.status()
    }

    /// Runs the branch below `node_id`, which is the root or a control node,
    /// until that node has reached a terminal status, and returns its
    /// status.
    pub fn run_from<Hook: ExecutorHook>(&mut self, node_id: CTreeNodeID, hook: &mut Hook) -> (out:
        Status)
        requires
            old(self)@.wf(),
            old(self)@.has_node(node_id),
            !(old(self)@.nodes[node_id.0 as int] is Leaf),
        ensures
            old(self)@.same_shape(final(self)@),
            exists|answers: Seq<Status>, states: Seq<Hook>|
                {
                    &&& #[trigger] asked_in_turn::<Hook>(
                        states,
                        old(self)@.run_from_leaves(node_id.0, answers, usize::MAX as nat),
                        answers,
                    )
                    &&& states.first() == *old(hook)
                    &&& states.last() == *final(hook)
                    &&& old(self)@.run_from(node_id.0, answers, usize::MAX as nat) == (
                        final(self)@,
                        Seq::<Status>::empty(),
                        out,
                    )
                    &&& forall|rest: Seq<Status>|
                        #[trigger] old(self)@.run_from(
                            node_id.0,
                            answers + rest,
                            usize::MAX as nat,
                        ) == (final(self)@, rest, out)
                },
    {
        let mut no_callback = NoCallback;
        self.run_from_with_update_callback(node_id, hook, &mut no_callback)
    }

    /// [`Self::run_from`], with a callback on each noteworthy event.
    pub fn run_from_with_update_callback<Hook: ExecutorHook, Callback: UpdateCallback<D>>(
        &mut self,
        node_id: CTreeNodeID,
        hook: &mut Hook,
        cb: &mut Callback,
    ) -> (out: Status)
        requires
            old(self)@.wf(),
            old(self)@.has_node(node_id),
            !(old(self)@.nodes[node_id.0 as int] is Leaf),
        ensures
            old(self)@.same_shape(final(self)@),
            exists|answers: Seq<Status>, states: Seq<Hook>, seen: Seq<Callback>|
                #![trigger
                    asked_in_turn::<Hook>(
                        states,
                        old(self)@.run_from_leaves(node_id.0, answers, usize::MAX as nat),
                        answers,
                    ),
                    shown_in_turn::<D, Callback>(
                        seen,
                        old(self)@.run_from_shown(node_id.0, answers, usize::MAX as nat),
                    ),
                ]
                {
                    &&& asked_in_turn::<Hook>(
                        states,
                        old(self)@.run_from_leaves(node_id.0, answers, usize::MAX as nat),
                        answers,
                    )
                    &&& states.first() == *old(hook)
                    &&& states.last() == *final(hook)
                    &&& shown_in_turn::<D, Callback>(
                        seen,
                        old(self)@.run_from_shown(node_id.0, answers, usize::MAX as nat),
                    )
                    &&& seen.first() == *old(cb)
                    &&& seen.last() == *final(cb)
                    &&& old(self)@.run_from(node_id.0, answers, usize::MAX as nat) == (
                        final(self)@,
                        Seq::<Status>::empty(),
                        out,
                    )
                    &&& forall|rest: Seq<Status>|
                        #[trigger] old(self)@.run_from(
                            node_id.0,
                            answers + rest,
                            usize::MAX as nat,
                        ) == (final(self)@, rest, out)
                },
    {
        let (status, Ghost(run)) = self.run_within(node_id, hook, cb, usize::MAX);
        let ghost answered = run.0;
        proof {
            assert(answered + Seq::<Status>::empty() =~= answered);
            assert(old(self)@.run_from(
                node_id.0,
                answered + Seq::<Status>::empty(),
                usize::MAX as nat,
            ) == (self@, Seq::<Status>::empty(), status));
            assert(old(self)@.run_from_leaves(
                node_id.0,
                answered + Seq::<Status>::empty(),
                usize::MAX as nat,
            ) == run.1);
            assert(asked_in_turn::<Hook>(
                run.2,
                old(self)@.run_from_leaves(node_id.0, answered, usize::MAX as nat),
                answered,
            ));
            assert(old(self)@.run_from_shown(
                node_id.0,
                answered + Seq::<Status>::empty(),
                usize::MAX as nat,
            ) == run.3);
            assert(shown_in_turn::<D, Callback>(
                run.4,
                old(self)@.run_from_shown(node_id.0, answered, usize::MAX as nat),
            ));
        }
        status
    }

    /// Shows the tree to the callback, which has been shown `shown` so far.
    fn show<Callback: UpdateCallback<D>>(
        &self,
        cb: &mut Callback,
        seen: Ghost<Seq<Callback>>,
        shown: Ghost<Seq<TreeView<D>>>,
    ) -> (out: Ghost<Seq<Callback>>)
        requires
            shown_in_turn::<D, Callback>(seen@, shown@),
            seen@.last() == *old(cb),
        ensures
            shown_in_turn::<D, Callback>(out@, shown@.push(self@)),
            out@.first() == seen@.first(),
            out@.last() == *final(cb),
    {
        let ghost before = *cb;
        cb.callback(self);
        proof {
            let step = seq![before, *cb];
            let tree = seq![self@];
            assert(shown_in_turn::<D, Callback>(step, tree));
            lemma_shown_in_turn_joined::<D, Callback>(seen@, shown@, step, tree);
            assert(shown@ + tree =~= shown@.push(self@));
        }
        Ghost(seen@ + seq![before, *cb].skip(1))
    }

    /// One visit of `child` in a pass of `node_id`, in which no node is
    /// given more than `limit` passes: a leaf is handed to the hook, any
    /// other child is ticked and run if it is running, and the node is told
    /// what came of it. It gives what the visit has gone through, as
    /// [`Self::run_within`] does.
    fn visit_child<Hook: ExecutorHook, Callback: UpdateCallback<D>>(
        &mut self,
        node_id: CTreeNodeID,
        child: CTreeNodeID,
        hook: &mut Hook,
        cb: &mut Callback,
        limit: usize,
    ) -> (out: Ghost<(Seq<Status>, Seq<LeafNode>, Seq<Hook>, Seq<TreeView<D>>, Seq<Callback>)>)
        requires
            old(self)@.wf(),
            old(self)@.has_node(node_id),
            !(old(self)@.nodes[node_id.0 as int] is Leaf),
            old(self)@.has_node(child),
        ensures
            old(self)@.same_shape(final(self)@),
            forall|rest: Seq<Status>|
                #[trigger] old(self)@.visit(node_id.0, child, out@.0 + rest, limit as nat) == (
                    final(self)@,
                    rest,
                ),
            forall|rest: Seq<Status>|
                #[trigger] old(self)@.visit_leaves(node_id.0, child, out@.0 + rest, limit as nat)
                    == out@.1,
            asked_in_turn::<Hook>(out@.2, out@.1, out@.0),
            out@.2.first() == *old(hook),
            out@.2.last() == *final(hook),
            forall|rest: Seq<Status>|
                #[trigger] old(self)@.visit_shown(node_id.0, child, out@.0 + rest, limit as nat)
                    == out@.3,
            shown_in_turn::<D, Callback>(out@.4, out@.3),
            out@.4.first() == *old(cb),
            out@.4.last() == *final(cb),
        decreases limit, 2nat,
    {
        let ghost node = node_id.0;
        let ghost found = self@;
        if let CTreeNode::Leaf(leaf) = &self.nodes[child.0] {
            // hook the leaf node executor to get the status & tell the control node
            let ghost asked_leaf = *leaf;
            let ghost hook_before = *hook;
            let status = hook.hook(leaf);
            let ghost hook_after = *hook;
            self.node_mut(child).set_status(status);
            let ghost hooked = self@;
            let update = ChildUpdate { status, child_id: child };
            let ghost seen_before: Seq<Callback> = seq![*cb];
            let ghost shown_before: Seq<TreeView<D>> = Seq::empty();
            let Ghost(seen) = self.show(cb, Ghost(seen_before), Ghost(shown_before));
            proof {
                lemma_shape_kept(
                    found,
                    child.0,
                    found.nodes[child.0 as int].with_status(Some(status)),
                );
            }
            self.node_mut(node_id).child_updated(update);
            let ghost log = seq![status];
            let ghost leaves = seq![asked_leaf];
            let ghost shown = Seq::<TreeView<D>>::empty().push(hooked);
            proof {
                lemma_shape_kept(hooked, node, hooked.nodes[node as int].told(update));
                lemma_shape_chain(found, hooked, self@);
                lemma_asked_once::<Hook>(hook_before, asked_leaf, status, hook_after);
                assert forall|rest: Seq<Status>|
                    #[trigger] found.visit(node, child, log + rest, limit as nat) == (
                        self@,
                        rest,
                    ) by {
                    let answers = log + rest;
                    assert(next_answer(answers) == status);
                    assert(later_answers(answers) =~= rest);
                }
                assert forall|rest: Seq<Status>|
                    #[trigger] found.visit_leaves(node, child, log + rest, limit as nat)
                        == leaves by {}
                assert forall|rest: Seq<Status>|
                    #[trigger] found.visit_shown(node, child, log + rest, limit as nat)
                        == shown by {
                    let answers = log + rest;
                    assert(next_answer(answers) == status);
                    assert(found.visit_shown(node, child, answers, limit as nat) =~= shown);
                }
            }
            Ghost((log, leaves, seq![hook_before, hook_after], shown, seen))
        } else {
            // continue down the control tree, and tell the control node the
            // eventual result
            let status = self.tick_node(child);
            let ghost child_ticked = self@;
            proof {
                lemma_shape_kept(found, child.0, found.nodes[child.0 as int].ticked());
                lemma_shape_wf(found, child_ticked);
            }
            let ghost mut log: Seq<Status> = Seq::empty();
            let ghost mut leaves: Seq<LeafNode> = Seq::empty();
            let ghost mut states: Seq<Hook> = seq![*hook];
            let ghost mut shown: Seq<TreeView<D>> = Seq::empty();
            let ghost mut seen: Seq<Callback> = seq![*cb];
            let subtree_status = match status {
                Status::Running => {
                    let (subtree_status, Ghost(answered)) = self.run_within(child, hook, cb, limit);
                    proof {
                        log = answered.0;
                        leaves = answered.1;
                        states = answered.2;
                        shown = answered.3;
                        seen = answered.4;
                    }
                    subtree_status
                },
                _ => status,
            };
            let ghost ran = self@;
            let update = ChildUpdate { status: subtree_status, child_id: child };
            proof {
                lemma_shape_chain(found, child_ticked, ran);
            }
            self.node_mut(node_id).child_updated(update);
            proof {
                lemma_shape_kept(ran, node, ran.nodes[node as int].told(update));
                lemma_shape_chain(found, ran, self@);
                assert forall|rest: Seq<Status>|
                    #[trigger] found.visit(node, child, log + rest, limit as nat) == (
                        self@,
                        rest,
                    ) by {
                    if status == Status::Running {
                        assert(child_ticked.run_from(child.0, log + rest, limit as nat) == (
                            ran,
                            rest,
                            subtree_status,
                        ));
                    } else {
                        assert(log + rest =~= rest);
                    }
                }
                assert forall|rest: Seq<Status>|
                    #[trigger] found.visit_leaves(node, child, log + rest, limit as nat)
                        == leaves by {
                    if status == Status::Running {
                        assert(child_ticked.run_from_leaves(child.0, log + rest, limit as nat)
                            == leaves);
                    } else {
                        assert(found.visit_leaves(node, child, log + rest, limit as nat)
                            =~= leaves);
                    }
                }
                assert forall|rest: Seq<Status>|
                    #[trigger] found.visit_shown(node, child, log + rest, limit as nat)
                        == shown by {
                    if status == Status::Running {
                        assert(child_ticked.run_from_shown(child.0, log + rest, limit as nat)
                            == shown);
                    } else {
                        assert(found.visit_shown(node, child, log + rest, limit as nat)
                            =~= shown);
                    }
                }
            }
            Ghost((log, leaves, states, shown, seen))
        }
    }

    /// One pass of `node_id` through its children, in which no node is given
    /// more than `limit` passes: before each child the node is ticked, and
    /// the pass ends where the node has reached a terminal status; a child
    /// that has succeeded is passed over, and any other is visited. It gives
    /// what the pass has gone through, as [`Self::run_within`] does.
    fn pass_over<Hook: ExecutorHook, Callback: UpdateCallback<D>>(
        &mut self,
        node_id: CTreeNodeID,
        hook: &mut Hook,
        cb: &mut Callback,
        limit: usize,
    ) -> (out: Ghost<(Seq<Status>, Seq<LeafNode>, Seq<Hook>, Seq<TreeView<D>>, Seq<Callback>)>)
        requires
            old(self)@.wf(),
            old(self)@.has_node(node_id),
            !(old(self)@.nodes[node_id.0 as int] is Leaf),
        ensures
            old(self)@.same_shape(final(self)@),
            forall|rest: Seq<Status>|
                #[trigger] old(self)@.pass(
                    node_id.0,
                    old(self)@.tree[node_id.0],
                    out@.0 + rest,
                    limit as nat,
                ) == (final(self)@, rest),
            forall|rest: Seq<Status>|
                #[trigger] old(self)@.pass_leaves(
                    node_id.0,
                    old(self)@.tree[node_id.0],
                    out@.0 + rest,
                    limit as nat,
                ) == out@.1,
            asked_in_turn::<Hook>(out@.2, out@.1, out@.0),
            out@.2.first() == *old(hook),
            out@.2.last() == *final(hook),
            forall|rest: Seq<Status>|
                #[trigger] old(self)@.pass_shown(
                    node_id.0,
                    old(self)@.tree[node_id.0],
                    out@.0 + rest,
                    limit as nat,
                ) == out@.3,
            shown_in_turn::<D, Callback>(out@.4, out@.3),
            out@.4.first() == *old(cb),
            out@.4.last() == *final(cb),
        decreases limit, 3nat,
    {
        let ghost node = node_id.0;
        let ghost round_start = self@;
        let children = self.children(&node_id);
        let ghost mut plog: Seq<Status> = Seq::empty();
        let ghost mut pleaves: Seq<LeafNode> = Seq::empty();
        let ghost mut pstates: Seq<Hook> = seq![*hook];
        let ghost mut pshown: Seq<TreeView<D>> = Seq::empty();
        let ghost mut pseen: Seq<Callback> = seq![*cb];
        let mut i: usize = 0;
        proof {
            assert forall|rest: Seq<Status>|
                #[trigger] round_start.pass_shown(node, children@, plog + rest, limit as nat)
                    == pshown + self@.pass_shown(
                    node,
                    children@.skip(i as int),
                    rest,
                    limit as nat,
                ) by {
                assert(plog + rest =~= rest);
                assert(children@.skip(0) =~= children@);
                assert(pshown + self@.pass_shown(node, children@, rest, limit as nat)
                    =~= self@.pass_shown(node, children@, rest, limit as nat));
            }
            assert forall|rest: Seq<Status>|
                #[trigger] round_start.pass_leaves(node, children@, plog + rest, limit as nat)
                    == pleaves + self@.pass_leaves(
                    node,
                    children@.skip(i as int),
                    rest,
                    limit as nat,
                ) by {
                assert(plog + rest =~= rest);
                assert(children@.skip(0) =~= children@);
                assert(pleaves + self@.pass_leaves(node, children@, rest, limit as nat)
                    =~= self@.pass_leaves(node, children@, rest, limit as nat));
            }
            assert forall|rest: Seq<Status>|
                #[trigger] round_start.pass(node, children@, plog + rest, limit as nat)
                    == self@.pass(node, children@.skip(i as int), rest, limit as nat) by {
                assert(plog + rest =~= rest);
                assert(children@.skip(0) =~= children@);
            }
        }
        while i < children.len()
            invariant_except_break
                forall|rest: Seq<Status>|
                    #[trigger] round_start.pass(node, children@, plog + rest, limit as nat)
                        == self@.pass(node, children@.skip(i as int), rest, limit as nat),
                forall|rest: Seq<Status>|
                    #[trigger] round_start.pass_leaves(
                        node,
                        children@,
                        plog + rest,
                        limit as nat,
                    ) == pleaves + self@.pass_leaves(
                        node,
                        children@.skip(i as int),
                        rest,
                        limit as nat,
                    ),
                forall|rest: Seq<Status>|
                    #[trigger] round_start.pass_shown(
                        node,
                        children@,
                        plog + rest,
                        limit as nat,
                    ) == pshown + self@.pass_shown(
                        node,
                        children@.skip(i as int),
                        rest,
                        limit as nat,
                    ),
            invariant
                asked_in_turn::<Hook>(pstates, pleaves, plog),
                pstates.first() == *old(hook),
                pstates.last() == *hook,
                shown_in_turn::<D, Callback>(pseen, pshown),
                pseen.first() == *old(cb),
                pseen.last() == *cb,
                round_start.wf(),
                round_start.has_node(node_id),
                !(round_start.nodes[node as int] is Leaf),
                node == node_id.0,
                round_start.same_shape(self@),
                i <= children.len(),
                children@ == round_start.tree[node],
            ensures
                forall|rest: Seq<Status>|
                    #[trigger] round_start.pass(node, children@, plog + rest, limit as nat) == (
                        self@,
                        rest,
                    ),
                forall|rest: Seq<Status>|
                    #[trigger] round_start.pass_leaves(
                        node,
                        children@,
                        plog + rest,
                        limit as nat,
                    ) == pleaves,
                forall|rest: Seq<Status>|
                    #[trigger] round_start.pass_shown(
                        node,
                        children@,
                        plog + rest,
                        limit as nat,
                    ) == pshown,
            decreases children.len() - i,
        {
            let ghost before = self@;
            let ghost left_children = children@.skip(i as int);
            let child = children[i];
            proof {
                lemma_shape_wf(round_start, before);
                assert(round_start.has_node(round_start.tree[node][i as int]));
                assert(left_children[0] == child);
                assert(left_children.skip(1) =~= children@.skip(i + 1));
            }
            // tick the parent node & stop if it has finished
            let parent_status = self.tick_node(node_id);
            let ghost ticked = self@;
            proof {
                lemma_shape_kept(before, node, before.nodes[node as int].ticked());
                lemma_shape_chain(round_start, before, ticked);
                lemma_shape_wf(round_start, ticked);
            }
            if parent_status.is_terminal() {
                let Ghost(now_seen) = self.show(cb, Ghost(pseen), Ghost(pshown));
                proof {
                    let ghost old_pshown = pshown;
                    pseen = now_seen;
                    pshown = pshown.push(ticked);
                    assert forall|rest: Seq<Status>|
                        #[trigger] round_start.pass_shown(
                            node,
                            children@,
                            plog + rest,
                            limit as nat,
                        ) == pshown by {
                        assert(before.pass_shown(node, left_children, rest, limit as nat)
                            =~= seq![ticked]);
                        assert(old_pshown + seq![ticked] =~= pshown);
                    }
                    assert forall|rest: Seq<Status>|
                        #[trigger] round_start.pass_leaves(
                            node,
                            children@,
                            plog + rest,
                            limit as nat,
                        ) == pleaves by {
                        assert(before.pass_leaves(node, left_children, rest, limit as nat)
                            =~= Seq::<LeafNode>::empty());
                        assert(pleaves + Seq::<LeafNode>::empty() =~= pleaves);
                    }
                }
                break;
            }
            if self.nodes[child.0].status().unwrap_or_default().is_success() {
                // successful nodes are not run again
                assert(ticked.nodes[child.0 as int].status() == Some(Status::Success));
                assert forall|rest: Seq<Status>|
                    #[trigger] round_start.pass_shown(
                        node,
                        children@,
                        plog + rest,
                        limit as nat,
                    ) == pshown + self@.pass_shown(
                        node,
                        children@.skip(i + 1),
                        rest,
                        limit as nat,
                    ) by {
                    assert(before.pass_shown(node, left_children, rest, limit as nat)
                        == self@.pass_shown(node, children@.skip(i + 1), rest, limit as nat));
                }
                assert forall|rest: Seq<Status>|
                    #[trigger] round_start.pass_leaves(
                        node,
                        children@,
                        plog + rest,
                        limit as nat,
                    ) == pleaves + self@.pass_leaves(
                        node,
                        children@.skip(i + 1),
                        rest,
                        limit as nat,
                    ) by {
                    assert(before.pass_leaves(node, left_children, rest, limit as nat)
                        == self@.pass_leaves(node, children@.skip(i + 1), rest, limit as nat));
                }
            } else {
                let Ghost(visit) = self.visit_child(node_id, child, hook, cb, limit);
                proof {
                    lemma_shape_chain(round_start, ticked, self@);
                    let ghost old_plog = plog;
                    let ghost old_pleaves = pleaves;
                    let ghost old_pshown = pshown;
                    lemma_asked_in_turn_joined::<Hook>(
                        pstates,
                        old_pleaves,
                        old_plog,
                        visit.2,
                        visit.1,
                        visit.0,
                    );
                    lemma_shown_in_turn_joined::<D, Callback>(pseen, pshown, visit.4, visit.3);
                    plog = plog + visit.0;
                    pleaves = pleaves + visit.1;
                    pstates = pstates + visit.2.skip(1);
                    pshown = pshown + visit.3;
                    pseen = pseen + visit.4.skip(1);
                    assert forall|rest: Seq<Status>|
                        #[trigger] round_start.pass(node, children@, plog + rest, limit as nat)
                            == self@.pass(node, children@.skip(i + 1), rest, limit as nat) by {
                        let answers = visit.0 + rest;
                        assert(old_plog + answers =~= plog + rest);
                        assert(ticked.visit(node, child, answers, limit as nat) == (self@, rest));
                        assert(before.pass(node, left_children, answers, limit as nat)
                            == self@.pass(node, left_children.skip(1), rest, limit as nat));
                    }
                    assert forall|rest: Seq<Status>|
                        #[trigger] round_start.pass_leaves(
                            node,
                            children@,
                            plog + rest,
                            limit as nat,
                        ) == pleaves + self@.pass_leaves(
                            node,
                            children@.skip(i + 1),
                            rest,
                            limit as nat,
                        ) by {
                        let answers = visit.0 + rest;
                        assert(old_plog + answers =~= plog + rest);
                        assert(ticked.visit(node, child, answers, limit as nat) == (self@, rest));
                        assert(ticked.visit_leaves(node, child, answers, limit as nat)
                            == visit.1);
                        let later = self@.pass_leaves(
                            node,
                            children@.skip(i + 1),
                            rest,
                            limit as nat,
                        );
                        assert(before.pass_leaves(node, left_children, answers, limit as nat)
                            == visit.1 + later);
                        assert(old_pleaves + (visit.1 + later) =~= pleaves + later);
                    }
                    assert forall|rest: Seq<Status>|
                        #[trigger] round_start.pass_shown(
                            node,
                            children@,
                            plog + rest,
                            limit as nat,
                        ) == pshown + self@.pass_shown(
                            node,
                            children@.skip(i + 1),
                            rest,
                            limit as nat,
                        ) by {
                        let answers = visit.0 + rest;
                        assert(old_plog + answers =~= plog + rest);
                        assert(ticked.visit(node, child, answers, limit as nat) == (self@, rest));
                        assert(ticked.visit_shown(node, child, answers, limit as nat)
                            == visit.3);
                        let later = self@.pass_shown(
                            node,
                            children@.skip(i + 1),
                            rest,
                            limit as nat,
                        );
                        assert(before.pass_shown(node, left_children, answers, limit as nat)
                            == visit.3 + later);
                        assert(old_pshown + (visit.3 + later) =~= pshown + later);
                    }
                }
            }
            i += 1;
        }
        Ghost((plog, pleaves, pstates, pshown, pseen))
    }

    /// A run from `node_id` in which no node is given more than `limit`
    /// passes. Beside the status of the node it gives the answers of the
    /// hook, in the order in which they came, the leaves that they were
    /// given for, what the hook was before and after each, the trees that
    /// the callback was shown, and what the callback was before and after
    /// each.
    fn run_within<Hook: ExecutorHook, Callback: UpdateCallback<D>>(
        &mut self,
        node_id: CTreeNodeID,
        hook: &mut Hook,
        cb: &mut Callback,
        limit: usize,
    ) -> (out: (
        Status,
        Ghost<(Seq<Status>, Seq<LeafNode>, Seq<Hook>, Seq<TreeView<D>>, Seq<Callback>)>,
    ))
        requires
            old(self)@.wf(),
            old(self)@.has_node(node_id),
            !(old(self)@.nodes[node_id.0 as int] is Leaf),
        ensures
            old(self)@.same_shape(final(self)@),
            forall|rest: Seq<Status>|
                #[trigger] old(self)@.run_from(node_id.0, out.1@.0 + rest, limit as nat) == (
                    final(self)@,
                    rest,
                    out.0,
                ),
            forall|rest: Seq<Status>|
                #[trigger] old(self)@.run_from_leaves(node_id.0, out.1@.0 + rest, limit as nat)
                    == out.1@.1,
            asked_in_turn::<Hook>(out.1@.2, out.1@.1, out.1@.0),
            out.1@.2.first() == *old(hook),
            out.1@.2.last() == *final(hook),
            forall|rest: Seq<Status>|
                #[trigger] old(self)@.run_from_shown(node_id.0, out.1@.0 + rest, limit as nat)
                    == out.1@.3,
            shown_in_turn::<D, Callback>(out.1@.4, out.1@.3),
            out.1@.4.first() == *old(cb),
            out.1@.4.last() == *final(cb),
        decreases limit, 1nat,
    {
        let ghost node = node_id.0;
        let mut node_status = self.tick_node(node_id);
        let ghost mut shown: Seq<TreeView<D>> = Seq::empty();
        let ghost mut seen: Seq<Callback> = seq![*cb];
        let Ghost(now_seen) = self.show(cb, Ghost(seen), Ghost(shown));
        let ghost mut log: Seq<Status> = Seq::empty();
        let ghost mut leaves: Seq<LeafNode> = Seq::empty();
        let ghost mut states: Seq<Hook> = seq![*hook];
        proof {
            seen = now_seen;
            shown = shown.push(self@);
            assert(shown =~= seq![self@]);
            assert forall|rest: Seq<Status>|
                #[trigger] old(self)@.run_from_shown(node, log + rest, limit as nat) == shown
                    + (if node_status == Status::Running {
                    self@.passes_shown(node, rest, limit as nat)
                } else {
                    Seq::empty()
                }) by {
                assert(log + rest =~= rest);
            }
            assert forall|rest: Seq<Status>|
                #[trigger] old(self)@.run_from_leaves(node, log + rest, limit as nat) == leaves
                    + (if node_status == Status::Running {
                    self@.passes_leaves(node, rest, limit as nat)
                } else {
                    Seq::empty()
                }) by {
                assert(log + rest =~= rest);
                assert(leaves + self@.passes_leaves(node, rest, limit as nat)
                    =~= self@.passes_leaves(node, rest, limit as nat));
            }
            lemma_shape_kept(old(self)@, node, old(self)@.nodes[node as int].ticked());
            assert forall|rest: Seq<Status>|
                #[trigger] old(self)@.run_from(node, log + rest, limit as nat) == (if node_status
                    == Status::Running {
                    self@.passes(node, rest, limit as nat)
                } else {
                    (self@, rest, node_status)
                }) by {
                assert(log + rest =~= rest);
            }
        }
        let mut passes_left = limit;
        while node_status.is_running() && passes_left > 0
            invariant
                old(self)@.wf(),
                old(self)@.has_node(node_id),
                !(old(self)@.nodes[node as int] is Leaf),
                node == node_id.0,
                old(self)@.same_shape(self@),
                passes_left <= limit,
                forall|rest: Seq<Status>|
                    #[trigger] old(self)@.run_from(node, log + rest, limit as nat) == (
                    if node_status == Status::Running {
                        self@.passes(node, rest, passes_left as nat)
                    } else {
                        (self@, rest, node_status)
                    }),
                forall|rest: Seq<Status>|
                    #[trigger] old(self)@.run_from_leaves(node, log + rest, limit as nat)
                        == leaves + (if node_status == Status::Running {
                        self@.passes_leaves(node, rest, passes_left as nat)
                    } else {
                        Seq::empty()
                    }),
                asked_in_turn::<Hook>(states, leaves, log),
                states.first() == *old(hook),
                states.last() == *hook,
                forall|rest: Seq<Status>|
                    #[trigger] old(self)@.run_from_shown(node, log + rest, limit as nat)
                        == shown + (if node_status == Status::Running {
                        self@.passes_shown(node, rest, passes_left as nat)
                    } else {
                        Seq::empty()
                    }),
                shown_in_turn::<D, Callback>(seen, shown),
                seen.first() == *old(cb),
                seen.last() == *cb,
            decreases passes_left,
        {
            let ghost round_start = self@;
            let ghost round_limit = passes_left as nat;
            passes_left -= 1;
            proof {
                lemma_shape_wf(old(self)@, self@);
            }
            let Ghost(pass) = self.pass_over(node_id, hook, cb, passes_left);
            let ghost children = round_start.tree[node];
            let ghost plog = pass.0;
            let ghost pleaves = pass.1;
            let ghost pstates = pass.2;
            let ghost mut pshown = pass.3;
            let ghost mut pseen = pass.4;
            proof {
                lemma_shape_chain(old(self)@, round_start, self@);
            }
            // tell the node that all the children have run
            let ghost passed = self@;
            self.node_mut(node_id).all_children_seen();
            let ghost closed = self@;
            node_status = self.tick_node(node_id);
            let ghost reticked = self@;
            proof {
                lemma_shape_kept(passed, node, passed.nodes[node as int].all_seen());
                lemma_shape_kept(closed, node, closed.nodes[node as int].ticked());
                lemma_shape_chain(old(self)@, passed, closed);
                lemma_shape_chain(old(self)@, closed, reticked);
                lemma_shape_wf(old(self)@, reticked);
            }
            self.handle_reset_requests(node_id);
            let Ghost(now_seen) = self.show(cb, Ghost(pseen), Ghost(pshown));
            proof {
                let ghost old_shown = shown;
                let ghost pass_shown = pshown;
                pseen = now_seen;
                pshown = pshown.push(self@);
                lemma_shown_in_turn_joined::<D, Callback>(seen, shown, pseen, pshown);
                seen = seen + pseen.skip(1);
                shown = shown + pshown;
                lemma_shape_kept(reticked, node, reticked.nodes[node as int].without_requests());
                lemma_reset_branches_shape(
                    reticked.with_node(node, reticked.nodes[node as int].without_requests()),
                    reticked.nodes[node as int].reset_requests(),
                );
                lemma_shape_chain(
                    reticked,
                    reticked.with_node(node, reticked.nodes[node as int].without_requests()),
                    self@,
                );
                lemma_shape_chain(old(self)@, reticked, self@);
                let ghost old_log = log;
                let ghost old_leaves = leaves;
                log = log + plog;
                leaves = leaves + pleaves;
                assert forall|rest: Seq<Status>|
                    #[trigger] old(self)@.run_from(node, log + rest, limit as nat) == (
                    if node_status == Status::Running {
                        self@.passes(node, rest, passes_left as nat)
                    } else {
                        (self@, rest, node_status)
                    }) by {
                    let answers = plog + rest;
                    assert(old_log + answers =~= log + rest);
                    assert(round_start.pass(node, children, plog + rest, passes_left as nat) == (
                        passed,
                        rest,
                    ));
                    assert(round_start.passes(node, answers, round_limit) == (
                        if node_status == Status::Running {
                            self@.passes(node, rest, passes_left as nat)
                        } else {
                            (self@, rest, node_status)
                        }));
                }
                assert forall|rest: Seq<Status>|
                    #[trigger] old(self)@.run_from_leaves(node, log + rest, limit as nat)
                        == leaves + (if node_status == Status::Running {
                        self@.passes_leaves(node, rest, passes_left as nat)
                    } else {
                        Seq::empty()
                    }) by {
                    let answers = plog + rest;
                    assert(old_log + answers =~= log + rest);
                    assert(round_start.pass(node, children, plog + rest, passes_left as nat) == (
                        passed,
                        rest,
                    ));
                    assert(round_start.pass_leaves(
                        node,
                        children,
                        plog + rest,
                        passes_left as nat,
                    ) == pleaves);
                    let later = if node_status == Status::Running {
                        self@.passes_leaves(node, rest, passes_left as nat)
                    } else {
                        Seq::<LeafNode>::empty()
                    };
                    assert(round_start.passes_leaves(node, answers, round_limit) == pleaves
                        + later);
                    assert(old_leaves + (pleaves + later) =~= leaves + later);
                }
                lemma_asked_in_turn_joined::<Hook>(
                    states,
                    old_leaves,
                    old_log,
                    pstates,
                    pleaves,
                    plog,
                );
                states = states + pstates.skip(1);
                assert forall|rest: Seq<Status>|
                    #[trigger] old(self)@.run_from_shown(node, log + rest, limit as nat)
                        == shown + (if node_status == Status::Running {
                        self@.passes_shown(node, rest, passes_left as nat)
                    } else {
                        Seq::empty()
                    }) by {
                    let answers = plog + rest;
                    assert(old_log + answers =~= log + rest);
                    assert(round_start.pass(node, children, plog + rest, passes_left as nat) == (
                        passed,
                        rest,
                    ));
                    assert(round_start.pass_shown(
                        node,
                        children,
                        plog + rest,
                        passes_left as nat,
                    ) == pass_shown);
                    let later = if node_status == Status::Running {
                        self@.passes_shown(node, rest, passes_left as nat)
                    } else {
                        Seq::<TreeView<D>>::empty()
                    };
                    assert(round_start.passes_shown(node, answers, round_limit)
                        == pass_shown.push(self@) + later);
                    assert(old_shown + (pass_shown.push(self@) + later) =~= shown + later);
                }
            }
        }
        proof {
            assert forall|rest: Seq<Status>|
                #[trigger] old(self)@.run_from_leaves(node, log + rest, limit as nat)
                    == leaves by {
                assert(self@.passes_leaves(node, rest, 0) =~= Seq::<LeafNode>::empty());
                assert(leaves + Seq::<LeafNode>::empty() =~= leaves);
            }
            assert forall|rest: Seq<Status>|
                #[trigger] old(self)@.run_from_shown(node, log + rest, limit as nat)
                    == shown by {
                assert(self@.passes_shown(node, rest, 0) =~= Seq::<TreeView<D>>::empty());
                assert(shown + Seq::<TreeView<D>>::empty() =~= shown);
            }
        }
        (node_status, Ghost((log, leaves, states, shown, seen)))
    }

    /// Hands over the branches that the node `node_id` holds to be reset, and
    /// resets them. Returns how many the node held.
    fn handle_reset_requests(&mut self, node_id: CTreeNodeID) -> (count: usize)
        requires
            old(self)@.wf(),
            node_id.0 < old(self)@.nodes.len(),
        ensures
            final(self)@ == old(self)@.handle_resets(node_id.0),
            count == old(self)@.nodes[node_id.0 as int].reset_requests().len(),
    {
        let mut requests: Vec<CTreeNodeID> = Vec::new();
        match self.node_mut(node_id).try_as_control_mut() {
            Some(control) => {
                std::mem::swap(&mut control.reset_requests, &mut requests);
            },
            None => {},
        }
        let ghost handed = self@;
        proof {
            assert(requests@ == old(self)@.nodes[node_id.0 as int].reset_requests());
            assert(handed == old(self)@.with_node(
                node_id.0,
                old(self)@.nodes[node_id.0 as int].without_requests(),
            ));
            lemma_shape_kept(
                old(self)@,
                node_id.0,
                old(self)@.nodes[node_id.0 as int].without_requests(),
            );
            lemma_shape_wf(old(self)@, handed);
        }
        let mut i: usize = 0;
        while i < requests.len()
            invariant
                i <= requests.len(),
                handed.wf(),
                self@ == handed.reset_branches(requests@.take(i as int)),
            decreases requests.len() - i,
        {
            let branch = requests[i];
            proof {
                lemma_reset_branches_shape(handed, requests@.take(i as int));
                lemma_shape_wf(handed, self@);
                assert(requests@.take(i + 1).drop_last() == requests@.take(i as int));
                assert(requests@.take(i + 1).last() == branch);
            }
            if branch.0 < self.nodes.len() && map_get(&self.tree, branch.0).is_some() {
                self.reset_branch(branch);
            }
            i += 1;
        }
        assert(requests@.take(requests.len() as int) == requests@);
        requests.len()
    }

    /// Resets `from` and all its descendants: their cached statuses are
    /// cleared and their payloads are as new, so that the next pass ticks
    /// them afresh.
    pub fn reset_branch(&mut self, from: CTreeNodeID)
        requires
            old(self)@.wf(),
            old(self)@.has_node(from),
        ensures
            final(self)@ == old(self)@.reset_branch(from.0),
    {
        let count = self.nodes.len();
        let mut seen: Vec<bool> = Vec::new();
        while seen.len() < count
            invariant
                seen.len() <= count,
                forall|i: int| 0 <= i < seen.len() ==> !seen[i],
            decreases count - seen.len(),
        {
            seen.push(false);
        }
        let mut to_visit: Vec<CTreeNodeID> = Vec::new();
        to_visit.push(from);
        seen[from.0] = true;
        let ghost done: Set<int> = Set::empty();
        proof {
            lemma_reaches_self(old(self)@, from.0);
            vstd::set_lib::lemma_int_range(0, count as int);
            assert(to_visit@[0] == CTreeNodeID(from.0));
        }
        while to_visit.len() > 0
            invariant
                old(self)@.wf(),
                count == old(self)@.nodes.len(),
                self@.tree == old(self)@.tree,
                self@.nodes.len() == count,
                seen.len() == count,
                seen[from.0 as int],
                from.0 < count,
                done.subset_of(vstd::set_lib::set_int_range(0, count as int)),
                vstd::set_lib::set_int_range(0, count as int).finite(),
                vstd::set_lib::set_int_range(0, count as int).len() == count,
                forall|i: int| 0 <= i < count && seen[i] ==> old(self)@.reaches(from.0, i as usize),
                forall|j: int|
                    0 <= j < to_visit.len() ==> {
                        &&& old(self)@.has_node(#[trigger] to_visit[j])
                        &&& seen[to_visit[j].0 as int]
                        &&& !done.contains(to_visit[j].0 as int)
                    },
                forall|j: int, k: int|
                    0 <= j < k < to_visit.len() ==> to_visit[j] != to_visit[k],
                forall|i: int|
                    0 <= i < count && seen[i] ==> done.contains(i) || to_visit@.contains(
                        CTreeNodeID(i as usize),
                    ),
                forall|i: int| done.contains(i) ==> 0 <= i < count && seen[i],
                forall|parent: usize, child: usize|
                    done.contains(parent as int) && #[trigger] old(self)@.is_edge(parent, child)
                        ==> seen[child as int],
                forall|i: int|
                    0 <= i < count ==> #[trigger] self@.nodes[i] == (if done.contains(i) {
                        old(self)@.nodes[i].cleared()
                    } else {
                        old(self)@.nodes[i]
                    }),
            decreases count - done.len(),
        {
            let ghost before = to_visit@;
            let id = to_visit.pop().unwrap();
            assert(id == before[before.len() - 1]);
            proof {
                vstd::set_lib::lemma_len_subset(
                    done.insert(id.0 as int),
                    vstd::set_lib::set_int_range(0, count as int),
                );
            }
            self.node_mut(id).reset();
            let children = self.children(&id);
            assert forall|i: int| 0 <= i < count && seen[i] implies done.contains(i) || i == id.0
                || to_visit@.contains(CTreeNodeID(i as usize)) by {
                if !done.contains(i) && i != id.0 {
                    let j = choose|j: int|
                        0 <= j < before.len() && before[j] == CTreeNodeID(i as usize);
                    assert(to_visit@[j] == CTreeNodeID(i as usize));
                }
            }
            let mut i: usize = 0;
            while i < children.len()
                invariant
                    old(self)@.wf(),
                    i <= children.len(),
                    children@ == old(self)@.tree[id.0],
                    old(self)@.has_node(id),
                    count == old(self)@.nodes.len(),
                    seen.len() == count,
                    from.0 < count,
                    seen[from.0 as int],
                    seen[id.0 as int],
                    !done.contains(id.0 as int),
                    forall|i: int|
                        0 <= i < count && seen[i] ==> old(self)@.reaches(from.0, i as usize),
                    forall|j: int|
                        0 <= j < to_visit.len() ==> {
                            &&& old(self)@.has_node(#[trigger] to_visit[j])
                            &&& seen[to_visit[j].0 as int]
                            &&& !done.contains(to_visit[j].0 as int)
                            &&& to_visit[j] != id
                        },
                    forall|j: int, k: int|
                        0 <= j < k < to_visit.len() ==> to_visit[j] != to_visit[k],
                    forall|i: int|
                        0 <= i < count && seen[i] ==> done.contains(i) || i == id.0
                            || to_visit@.contains(CTreeNodeID(i as usize)),
                    forall|i: int| done.contains(i) ==> 0 <= i < count && seen[i],
                    forall|parent: usize, child: usize|
                        done.contains(parent as int) && #[trigger] old(self)@.is_edge(
                            parent,
                            child,
                        ) ==> seen[child as int],
                    forall|k: int| 0 <= k < i ==> seen[children[k].0 as int],
                decreases children.len() - i,
            {
                let child = children[i];
                assert(old(self)@.has_node(old(self)@.tree[id.0][i as int]));
                if !seen[child.0] {
                    proof {
                        assert(old(self)@.tree[id.0].contains(CTreeNodeID(child.0)));
                        lemma_reaches_step(old(self)@, from.0, id.0, child.0);
                    }
                    let ghost stack = to_visit@;
                    seen[child.0] = true;
                    to_visit.push(child);
                    assert forall|i: int| 0 <= i < count && seen[i] implies done.contains(i) || i
                        == id.0 || to_visit@.contains(CTreeNodeID(i as usize)) by {
                        if i == child.0 {
                            assert(to_visit@[stack.len() as int] == child);
                        } else if !done.contains(i) && i != id.0 {
                            let j = choose|j: int|
                                0 <= j < stack.len() && stack[j] == CTreeNodeID(i as usize);
                            assert(to_visit@[j] == CTreeNodeID(i as usize));
                        }
                    }
                }
                i += 1;
            }
            proof {
                done = done.insert(id.0 as int);
                assert forall|parent: usize, child: usize|
                    done.contains(parent as int) && #[trigger] old(self)@.is_edge(
                        parent,
                        child,
                    ) implies seen[child as int] by {
                    if parent == id.0 {
                        let k = choose|k: int|
                            0 <= k < children@.len() && children@[k] == CTreeNodeID(child);
                        assert(seen[children[k].0 as int]);
                    }
                }
            }
        }
        proof {
            assert forall|i: int| 0 <= i < count implies (#[trigger] done.contains(i)) == old(
                self,
            )@.reaches(from.0, i as usize) by {
                if old(self)@.reaches(from.0, i as usize) {
                    let path = choose|path: Seq<usize>|
                        #[trigger] old(self)@.is_path(path) && path.first() == from.0
                            && path.last() == i as usize;
                    assert forall|parent: usize, child: usize|
                        done.contains(parent as int) && #[trigger] old(self)@.is_edge(
                            parent,
                            child,
                        ) implies done.contains(child as int) by {
                        let at = choose|at: int|
                            0 <= at < old(self)@.tree[parent].len() && old(self)@.tree[parent][at]
                                == CTreeNodeID(child);
                        assert(old(self)@.has_node(old(self)@.tree[parent][at]));
                    }
                    lemma_closed_holds_reached(old(self)@, done, path, path.len() - 1);
                }
            }
            assert(self@.nodes =~= old(self)@.reset_branch(from.0).nodes);
        }
    }
}

} // verus!
