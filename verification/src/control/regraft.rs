//! A branch under other ids runs as it ran: where the nodes of a branch of
//! one tree stand in another tree under other ids, each as it is and with
//! its children in their order, a run from the branch goes the same way in
//! both trees.

use super::control_nodes::{ControlNodeTypeView, ControlNodeView, ParallelView, SequenceView};
use super::decorators::{Repeater, StandardDecorator};
use super::engine::{later_answers, lemma_reaches_self, lemma_reaches_step, next_answer};
use super::subtree::renumbered;
use super::{CTreeNodeID, CTreeNodeView, ChildUpdate, LeafNode, TreeView};
use crate::Status;
use vstd::prelude::*;

verus! {

/// The id that `ren` gives in the place of `id`, where there is one.
pub open spec fn renamed_one(ren: Map<usize, usize>, id: Option<CTreeNodeID>) -> Option<
    CTreeNodeID,
> {
    match id {
        Some(id) => Some(CTreeNodeID(ren[id.0])),
        None => None,
    }
}

/// The ids that `ren` gives in the place of `ids`.
pub open spec fn renamed_ids(ren: Map<usize, usize>, ids: Set<usize>) -> Set<usize> {
    Set::new(|new: usize| exists|old: usize| ids.contains(old) && #[trigger] ren[old] == new)
}

/// `ren` gives no id in the place of two.
pub open spec fn one_to_one(ren: Map<usize, usize>) -> bool {
    forall|a: usize, b: usize|
        ren.contains_key(a) && ren.contains_key(b) && #[trigger] ren[a] == #[trigger] ren[b] ==> a
            == b
}

/// `ren` has an id for each of `ids`.
pub open spec fn knows_ids(ren: Map<usize, usize>, ids: Set<usize>) -> bool {
    forall|id: usize| ids.contains(id) ==> #[trigger] ren.contains_key(id)
}

/// `ren` has an id for `id`, where there is one.
pub open spec fn knows_one(ren: Map<usize, usize>, id: Option<CTreeNodeID>) -> bool {
    match id {
        Some(id) => ren.contains_key(id.0),
        None => true,
    }
}

/// The update with the id that `ren` gives in the place of the child's.
pub open spec fn renamed_update(ren: Map<usize, usize>, update: ChildUpdate) -> ChildUpdate {
    ChildUpdate { status: update.status, child_id: CTreeNodeID(ren[update.child_id.0]) }
}

/// The payload with the ids that `ren` gives in the place of those that it
/// holds.
pub open spec fn renamed_payload(
    ren: Map<usize, usize>,
    payload: ControlNodeTypeView<StandardDecorator>,
) -> ControlNodeTypeView<StandardDecorator> {
    match payload {
        ControlNodeTypeView::Sequence(s) => ControlNodeTypeView::Sequence(
            SequenceView {
                pending: renamed_ids(ren, s.pending),
                failed: renamed_one(ren, s.failed),
                ..s
            },
        ),
        ControlNodeTypeView::Parallel(p) => ControlNodeTypeView::Parallel(
            ParallelView {
                success: renamed_ids(ren, p.success),
                failure: renamed_ids(ren, p.failure),
                pending: renamed_ids(ren, p.pending),
                ..p
            },
        ),
        ControlNodeTypeView::Decorator(StandardDecorator::Repeat(r)) => ControlNodeTypeView::Decorator(
            StandardDecorator::Repeat(
                Repeater { reset_request: renamed_one(ren, r.reset_request), ..r },
            ),
        ),
        _ => payload,
    }
}

/// `ren` has an id for each id that the payload holds.
pub open spec fn knows_payload(
    ren: Map<usize, usize>,
    payload: ControlNodeTypeView<StandardDecorator>,
) -> bool {
    match payload {
        ControlNodeTypeView::Sequence(s) => knows_ids(ren, s.pending) && knows_one(ren, s.failed),
        ControlNodeTypeView::Parallel(p) => knows_ids(ren, p.success) && knows_ids(ren, p.failure)
            && knows_ids(ren, p.pending),
        ControlNodeTypeView::Decorator(StandardDecorator::Repeat(r)) => knows_one(
            ren,
            r.reset_request,
        ),
        _ => true,
    }
}

/// The control node with the ids that `ren` gives in the place of those
/// that it holds.
pub open spec fn renamed_control(
    ren: Map<usize, usize>,
    control: ControlNodeView<StandardDecorator>,
) -> ControlNodeView<StandardDecorator> {
    ControlNodeView {
        node_type: renamed_payload(ren, control.node_type),
        status: control.status,
        id: renamed_one(ren, control.id),
        reset_requests: control.reset_requests.map_values(renumbered(ren)),
    }
}

/// `ren` has an id for each id that the control node holds.
pub open spec fn knows_control(
    ren: Map<usize, usize>,
    control: ControlNodeView<StandardDecorator>,
) -> bool {
    &&& knows_payload(ren, control.node_type)
    &&& knows_one(ren, control.id)
    &&& forall|i: int|
        0 <= i < control.reset_requests.len() ==> ren.contains_key(
            (#[trigger] control.reset_requests[i]).0,
        )
}

/// The node with the ids that `ren` gives in the place of those that it
/// holds.
pub open spec fn renamed_node(
    ren: Map<usize, usize>,
    node: CTreeNodeView<StandardDecorator>,
) -> CTreeNodeView<StandardDecorator> {
    match node {
        CTreeNodeView::Root(root) => CTreeNodeView::Root(renamed_control(ren, root)),
        CTreeNodeView::Control(control) => CTreeNodeView::Control(renamed_control(ren, control)),
        CTreeNodeView::Leaf(leaf) => CTreeNodeView::Leaf(renamed_leaf(ren, leaf)),
    }
}

/// The leaf with the id that `ren` gives in the place of its own.
pub open spec fn renamed_leaf(ren: Map<usize, usize>, leaf: LeafNode) -> LeafNode {
    LeafNode { id: renamed_one(ren, leaf.id), ..leaf }
}

/// `ren` has an id for each id that the node holds.
pub open spec fn knows_node(ren: Map<usize, usize>, node: CTreeNodeView<StandardDecorator>) -> bool {
    match node {
        CTreeNodeView::Root(root) => knows_control(ren, root),
        CTreeNodeView::Control(control) => knows_control(ren, control),
        CTreeNodeView::Leaf(leaf) => knows_one(ren, leaf.id),
    }
}

/// The ids in the place of a set with one more id.
pub proof fn lemma_renamed_with(ren: Map<usize, usize>, ids: Set<usize>, id: usize)
    ensures
        renamed_ids(ren, ids.insert(id)) == renamed_ids(ren, ids).insert(ren[id]),
{
    assert forall|new: usize|
        renamed_ids(ren, ids.insert(id)).contains(new) <==> renamed_ids(ren, ids).insert(
            ren[id],
        ).contains(new) by {
        if renamed_ids(ren, ids.insert(id)).contains(new) {
            let old = choose|old: usize| ids.insert(id).contains(old) && #[trigger] ren[old] == new;
            if old != id {
                assert(ids.contains(old) && ren[old] == new);
            }
        }
        if renamed_ids(ren, ids).contains(new) {
            let old = choose|old: usize| ids.contains(old) && #[trigger] ren[old] == new;
            assert(ids.insert(id).contains(old) && ren[old] == new);
        }
        if new == ren[id] {
            assert(ids.insert(id).contains(id) && ren[id] == new);
        }
    }
    assert(renamed_ids(ren, ids.insert(id)) =~= renamed_ids(ren, ids).insert(ren[id]));
}

/// The ids in the place of a set with one id less.
pub proof fn lemma_renamed_without(ren: Map<usize, usize>, ids: Set<usize>, id: usize)
    requires
        one_to_one(ren),
        knows_ids(ren, ids),
        ren.contains_key(id),
    ensures
        renamed_ids(ren, ids.remove(id)) == renamed_ids(ren, ids).remove(ren[id]),
{
    assert forall|new: usize|
        renamed_ids(ren, ids.remove(id)).contains(new) <==> renamed_ids(ren, ids).remove(
            ren[id],
        ).contains(new) by {
        if renamed_ids(ren, ids.remove(id)).contains(new) {
            let old = choose|old: usize| ids.remove(id).contains(old) && #[trigger] ren[old] == new;
            assert(ids.contains(old) && ren[old] == new);
            assert(ren.contains_key(old));
        }
        if renamed_ids(ren, ids).remove(ren[id]).contains(new) {
            let old = choose|old: usize| ids.contains(old) && #[trigger] ren[old] == new;
            assert(ren.contains_key(old));
            assert(ids.remove(id).contains(old) && ren[old] == new);
        }
    }
    assert(renamed_ids(ren, ids.remove(id)) =~= renamed_ids(ren, ids).remove(ren[id]));
}

/// The ids in the place of no ids are none, and only these.
pub proof fn lemma_renamed_none(ren: Map<usize, usize>, ids: Set<usize>)
    ensures
        renamed_ids(ren, ids).is_empty() <==> ids.is_empty(),
{
    if ids.is_empty() {
        assert forall|new: usize| !renamed_ids(ren, ids).contains(new) by {
            if renamed_ids(ren, ids).contains(new) {
                let old = choose|old: usize| ids.contains(old) && #[trigger] ren[old] == new;
                assert(ids.contains(old));
            }
        }
        assert(renamed_ids(ren, ids) =~= Set::<usize>::empty());
    } else {
        let old = choose|old: usize| ids.contains(old);
        assert(ids.contains(old) && ren[old] == ren[old]);
        assert(renamed_ids(ren, ids).contains(ren[old]));
    }
}

/// A node under other ids gives the status that it gives.
pub proof fn lemma_renamed_status(ren: Map<usize, usize>, node: CTreeNodeView<StandardDecorator>)
    ensures
        renamed_node(ren, node).tick_status() == node.tick_status(),
        renamed_node(ren, node).status() == node.status(),
        renamed_node(ren, node) is Leaf <==> node is Leaf,
        renamed_node(ren, node) is Root <==> node is Root,
        renamed_node(ren, node).ticked() == renamed_node(ren, node.ticked()),
        knows_node(ren, node) ==> knows_node(ren, node.ticked()),
        renamed_node(ren, node).cleared() == renamed_node(ren, node.cleared()),
        knows_node(ren, node) ==> knows_node(ren, node.cleared()),
        renamed_node(ren, node).reset_requests() == node.reset_requests().map_values(
            renumbered(ren),
        ),
        renamed_node(ren, node).without_requests() == renamed_node(ren, node.without_requests()),
        knows_node(ren, node) ==> knows_node(ren, node.without_requests()),
        forall|status: Option<Status>|
            renamed_node(ren, #[trigger] node.with_status(status)) == renamed_node(
                ren,
                node,
            ).with_status(status),
        forall|status: Option<Status>|
            knows_node(ren, node) ==> knows_node(ren, #[trigger] node.with_status(status)),
{
    match node {
        CTreeNodeView::Root(control) | CTreeNodeView::Control(control) => {
            match control.node_type {
                ControlNodeTypeView::Sequence(s) => {
                    lemma_renamed_none(ren, s.pending);
                },
                ControlNodeTypeView::Parallel(p) => {
                    lemma_renamed_none(ren, p.failure);
                    lemma_renamed_none(ren, p.pending);
                },
                _ => {},
            }
            lemma_renamed_none(ren, Set::<usize>::empty());
            assert(renamed_ids(ren, Set::<usize>::empty()) == Set::<usize>::empty());
            assert(Seq::<CTreeNodeID>::empty().map_values(renumbered(ren)) =~= Seq::<
                CTreeNodeID,
            >::empty());
        },
        CTreeNodeView::Leaf(leaf) => {
            assert(Seq::<CTreeNodeID>::empty().map_values(renumbered(ren)) =~= Seq::<
                CTreeNodeID,
            >::empty());
        },
    }
}

/// A node under other ids that is told of its child under its other id is
/// the node that was told of its child, under the other ids.
pub proof fn lemma_renamed_told(
    ren: Map<usize, usize>,
    node: CTreeNodeView<StandardDecorator>,
    update: ChildUpdate,
)
    requires
        one_to_one(ren),
        knows_node(ren, node),
        ren.contains_key(update.child_id.0),
    ensures
        renamed_node(ren, node).told(renamed_update(ren, update)) == renamed_node(
            ren,
            node.told(update),
        ),
        knows_node(ren, node.told(update)),
{
    let child = update.child_id.0;
    match node {
        CTreeNodeView::Root(control) | CTreeNodeView::Control(control) => {
            match control.node_type {
                ControlNodeTypeView::Sequence(s) => {
                    lemma_renamed_with(ren, s.pending, child);
                    lemma_renamed_without(ren, s.pending, child);
                    lemma_renamed_none(ren, s.pending);
                },
                ControlNodeTypeView::Parallel(p) => {
                    lemma_renamed_with(ren, p.pending, child);
                    lemma_renamed_without(ren, p.pending, child);
                    lemma_renamed_with(ren, p.success, child);
                    lemma_renamed_with(ren, p.failure, child);
                    lemma_renamed_none(ren, p.failure);
                    lemma_renamed_none(ren, p.failure.insert(child));
                },
                _ => {},
            }
        },
        CTreeNodeView::Leaf(_) => {},
    }
}

/// A node under other ids that is told that all its children were seen is
/// the node that was told so, under the other ids.
pub proof fn lemma_renamed_closed(ren: Map<usize, usize>, node: CTreeNodeView<StandardDecorator>)
    requires
        knows_node(ren, node),
    ensures
        renamed_node(ren, node).all_seen() == renamed_node(ren, node.all_seen()),
        knows_node(ren, node.all_seen()),
{
    match node {
        CTreeNodeView::Root(control) | CTreeNodeView::Control(control) => {
            match control.node_type {
                ControlNodeTypeView::Sequence(s) => {
                    lemma_renamed_none(ren, s.pending);
                },
                ControlNodeTypeView::Parallel(p) => {
                    lemma_renamed_none(ren, p.pending);
                },
                _ => {},
            }
            let closed = control.all_seen();
            assert(renamed_control(ren, control).all_seen().reset_requests =~= renamed_control(
                ren,
                closed,
            ).reset_requests);
        },
        CTreeNodeView::Leaf(_) => {},
    }
}

impl TreeView<StandardDecorator> {
    /// `other` holds each node that `ren` has an id for under that id, as
    /// it is and with its children in their order. These nodes have their
    /// children among them, and hold no ids but theirs.
    pub open spec fn stands_in(self, other: Self, ren: Map<usize, usize>) -> bool {
        &&& one_to_one(ren)
        &&& forall|x: usize| #[trigger]
            ren.contains_key(x) ==> {
                &&& x < self.nodes.len()
                &&& ren[x] < other.nodes.len()
                &&& self.tree.contains_key(x)
                &&& other.tree.contains_key(ren[x])
                &&& other.tree[ren[x]] == self.tree[x].map_values(renumbered(ren))
                &&& forall|i: int|
                    0 <= i < self.tree[x].len() ==> ren.contains_key(
                        (#[trigger] self.tree[x][i]).0,
                    )
                &&& knows_node(ren, self.nodes[x as int])
                &&& other.nodes[ren[x] as int] == renamed_node(ren, self.nodes[x as int])
            }
    }
}

/// A tree stands in another when one of its nodes is replaced in both.
pub proof fn lemma_replaced_stands(
    tree: TreeView<StandardDecorator>,
    other: TreeView<StandardDecorator>,
    ren: Map<usize, usize>,
    x: usize,
    node: CTreeNodeView<StandardDecorator>,
)
    requires
        tree.stands_in(other, ren),
        ren.contains_key(x),
        knows_node(ren, node),
    ensures
        tree.with_node(x, node).stands_in(other.with_node(ren[x], renamed_node(ren, node)), ren),
{
    let after = tree.with_node(x, node);
    let other_after = other.with_node(ren[x], renamed_node(ren, node));
    assert forall|y: usize| #[trigger] ren.contains_key(y) implies {
        &&& y < after.nodes.len()
        &&& ren[y] < other_after.nodes.len()
        &&& after.tree.contains_key(y)
        &&& other_after.tree.contains_key(ren[y])
        &&& other_after.tree[ren[y]] == after.tree[y].map_values(renumbered(ren))
        &&& forall|i: int|
            0 <= i < after.tree[y].len() ==> ren.contains_key((#[trigger] after.tree[y][i]).0)
        &&& knows_node(ren, after.nodes[y as int])
        &&& other_after.nodes[ren[y] as int] == renamed_node(ren, after.nodes[y as int])
    } by {
        assert(ren.contains_key(x));
        if y != x {
            assert(ren[y] != ren[x]);
        }
    }
}

/// What stands in another tree is ticked, told and closed there as it is
/// here.
pub proof fn lemma_steps_stand(
    tree: TreeView<StandardDecorator>,
    other: TreeView<StandardDecorator>,
    ren: Map<usize, usize>,
    x: usize,
)
    requires
        tree.stands_in(other, ren),
        ren.contains_key(x),
    ensures
        tree.tick(x).stands_in(other.tick(ren[x]), ren),
        other.nodes[ren[x] as int].tick_status() == tree.nodes[x as int].tick_status(),
        other.nodes[ren[x] as int].status() == tree.nodes[x as int].status(),
        other.nodes[ren[x] as int] is Leaf <==> tree.nodes[x as int] is Leaf,
        tree.close_pass(x).stands_in(other.close_pass(ren[x]), ren),
        forall|update: ChildUpdate|
            ren.contains_key(update.child_id.0) ==> (#[trigger] tree.tell(x, update)).stands_in(
                other.tell(ren[x], renamed_update(ren, update)),
                ren,
            ),
        forall|status: Option<Status>|
            (#[trigger] tree.with_node(x, tree.nodes[x as int].with_status(status))).stands_in(
                other.with_node(ren[x], other.nodes[ren[x] as int].with_status(status)),
                ren,
            ),
{
    let node = tree.nodes[x as int];
    lemma_renamed_status(ren, node);
    lemma_replaced_stands(tree, other, ren, x, node.ticked());
    lemma_renamed_closed(ren, node);
    lemma_replaced_stands(tree, other, ren, x, node.all_seen());
    assert forall|update: ChildUpdate| ren.contains_key(update.child_id.0) implies (
    #[trigger] tree.tell(x, update)).stands_in(
        other.tell(ren[x], renamed_update(ren, update)),
        ren,
    ) by {
        lemma_renamed_told(ren, node, update);
        lemma_replaced_stands(tree, other, ren, x, node.told(update));
    }
    assert forall|status: Option<Status>|
        (#[trigger] tree.with_node(x, tree.nodes[x as int].with_status(status))).stands_in(
            other.with_node(ren[x], other.nodes[ren[x] as int].with_status(status)),
            ren,
        ) by {
        lemma_replaced_stands(tree, other, ren, x, node.with_status(status));
    }
}

/// A path among the nodes that stand in another tree is a path there.
proof fn lemma_path_stands(
    tree: TreeView<StandardDecorator>,
    other: TreeView<StandardDecorator>,
    ren: Map<usize, usize>,
    path: Seq<usize>,
    at: int,
)
    requires
        tree.stands_in(other, ren),
        tree.is_path(path),
        ren.contains_key(path[0]),
        0 <= at < path.len(),
    ensures
        ren.contains_key(path[at]),
        other.reaches(ren[path[0]], ren[path[at]]),
    decreases at,
{
    if at == 0 {
        lemma_reaches_self(other, ren[path[0]]);
    } else {
        lemma_path_stands(tree, other, ren, path, at - 1);
        let parent = path[at - 1];
        assert(tree.is_edge(parent, path[at - 1 + 1]));
        let k = choose|k: int|
            0 <= k < tree.tree[parent].len() && tree.tree[parent][k] == CTreeNodeID(path[at]);
        assert(ren.contains_key(tree.tree[parent][k].0));
        assert(other.tree[ren[parent]][k] == CTreeNodeID(ren[path[at]]));
        assert(other.is_edge(ren[parent], ren[path[at]]));
        lemma_reaches_step(other, ren[path[0]], ren[parent], ren[path[at]]);
    }
}

/// A path in the other tree from a node that stands there leads through
/// nodes that stand there, along a path here.
proof fn lemma_path_stood(
    tree: TreeView<StandardDecorator>,
    other: TreeView<StandardDecorator>,
    ren: Map<usize, usize>,
    from: usize,
    path: Seq<usize>,
    at: int,
) -> (here: usize)
    requires
        tree.stands_in(other, ren),
        other.is_path(path),
        ren.contains_key(from),
        path[0] == ren[from],
        0 <= at < path.len(),
    ensures
        ren.contains_key(here),
        ren[here] == path[at],
        tree.reaches(from, here),
    decreases at,
{
    if at == 0 {
        lemma_reaches_self(tree, from);
        from
    } else {
        let parent = lemma_path_stood(tree, other, ren, from, path, at - 1);
        assert(other.is_edge(path[at - 1], path[at - 1 + 1]));
        let listed = other.tree[ren[parent]];
        let k = choose|k: int| 0 <= k < listed.len() && listed[k] == CTreeNodeID(path[at]);
        let child = tree.tree[parent][k];
        assert(ren.contains_key(child.0));
        assert(tree.is_edge(parent, child.0));
        lemma_reaches_step(tree, from, parent, child.0);
        child.0
    }
}

/// Among the nodes that stand in another tree, one is reached from another
/// if and only if it is there.
pub proof fn lemma_reach_stands(
    tree: TreeView<StandardDecorator>,
    other: TreeView<StandardDecorator>,
    ren: Map<usize, usize>,
    from: usize,
    to: usize,
)
    requires
        tree.stands_in(other, ren),
        ren.contains_key(from),
    ensures
        tree.reaches(from, to) ==> ren.contains_key(to) && other.reaches(ren[from], ren[to]),
        ren.contains_key(to) && other.reaches(ren[from], ren[to]) ==> tree.reaches(from, to),
{
    if tree.reaches(from, to) {
        let path = choose|path: Seq<usize>|
            #[trigger] tree.is_path(path) && path.first() == from && path.last() == to;
        lemma_path_stands(tree, other, ren, path, path.len() - 1);
    }
    if ren.contains_key(to) && other.reaches(ren[from], ren[to]) {
        let path = choose|path: Seq<usize>|
            #[trigger] other.is_path(path) && path.first() == ren[from] && path.last()
                == ren[to];
        let here = lemma_path_stood(tree, other, ren, from, path, path.len() - 1);
        assert(here == to);
    }
}

/// A branch that stands in another tree is reset there as it is here.
pub proof fn lemma_reset_stands(
    tree: TreeView<StandardDecorator>,
    other: TreeView<StandardDecorator>,
    ren: Map<usize, usize>,
    from: usize,
)
    requires
        tree.stands_in(other, ren),
        ren.contains_key(from),
    ensures
        tree.reset_branch(from).stands_in(other.reset_branch(ren[from]), ren),
{
    let after = tree.reset_branch(from);
    let other_after = other.reset_branch(ren[from]);
    assert forall|y: usize| #[trigger] ren.contains_key(y) implies {
        &&& y < after.nodes.len()
        &&& ren[y] < other_after.nodes.len()
        &&& after.tree.contains_key(y)
        &&& other_after.tree.contains_key(ren[y])
        &&& other_after.tree[ren[y]] == after.tree[y].map_values(renumbered(ren))
        &&& forall|i: int|
            0 <= i < after.tree[y].len() ==> ren.contains_key((#[trigger] after.tree[y][i]).0)
        &&& knows_node(ren, after.nodes[y as int])
        &&& other_after.nodes[ren[y] as int] == renamed_node(ren, after.nodes[y as int])
    } by {
        lemma_reach_stands(tree, other, ren, from, y);
        lemma_renamed_status(ren, tree.nodes[y as int]);
        assert(tree.reaches(from, y) <==> other.reaches(ren[from], ren[y]));
    }
}

/// Branches that stand in another tree are reset there as they are here.
pub proof fn lemma_resets_stand(
    tree: TreeView<StandardDecorator>,
    other: TreeView<StandardDecorator>,
    ren: Map<usize, usize>,
    branches: Seq<CTreeNodeID>,
)
    requires
        tree.stands_in(other, ren),
        forall|i: int| 0 <= i < branches.len() ==> ren.contains_key((#[trigger] branches[i]).0),
    ensures
        tree.reset_branches(branches).stands_in(
            other.reset_branches(branches.map_values(renumbered(ren))),
            ren,
        ),
    decreases branches.len(),
{
    let others = branches.map_values(renumbered(ren));
    if branches.len() > 0 {
        assert(others.drop_last() =~= branches.drop_last().map_values(renumbered(ren)));
        lemma_resets_stand(tree, other, ren, branches.drop_last());
        let before = tree.reset_branches(branches.drop_last());
        let other_before = other.reset_branches(others.drop_last());
        let last = branches.last();
        assert(ren.contains_key(last.0));
        assert(others.last() == CTreeNodeID(ren[last.0]));
        assert(before.has_node(last));
        assert(other_before.has_node(others.last()));
        lemma_reset_stands(before, other_before, ren, last.0);
    }
}

/// The branches that a node holds to be reset are handed over and reset in
/// the other tree as they are here.
pub proof fn lemma_handled_stands(
    tree: TreeView<StandardDecorator>,
    other: TreeView<StandardDecorator>,
    ren: Map<usize, usize>,
    x: usize,
)
    requires
        tree.stands_in(other, ren),
        ren.contains_key(x),
    ensures
        tree.handle_resets(x).stands_in(other.handle_resets(ren[x]), ren),
{
    let node = tree.nodes[x as int];
    lemma_renamed_status(ren, node);
    lemma_replaced_stands(tree, other, ren, x, node.without_requests());
    assert forall|i: int| 0 <= i < node.reset_requests().len() implies ren.contains_key(
        (#[trigger] node.reset_requests()[i]).0,
    ) by {}
    lemma_resets_stand(
        tree.with_node(x, node.without_requests()),
        other.with_node(ren[x], renamed_node(ren, node.without_requests())),
        ren,
        node.reset_requests(),
    );
}

/// The leaves under the ids that `ren` gives in the place of their own.
pub open spec fn as_renamed(ren: Map<usize, usize>) -> spec_fn(LeafNode) -> LeafNode {
    |leaf: LeafNode| renamed_leaf(ren, leaf)
}

/// A visit goes in the other tree as it goes here: the same answers are
/// used, the same leaves are asked in the same order, each under its other
/// id, and the nodes stand there afterwards as they stand here.
pub proof fn lemma_visit_stands(
    tree: TreeView<StandardDecorator>,
    other: TreeView<StandardDecorator>,
    ren: Map<usize, usize>,
    parent: usize,
    child: CTreeNodeID,
    answers: Seq<Status>,
    limit: nat,
)
    requires
        tree.stands_in(other, ren),
        ren.contains_key(parent),
        ren.contains_key(child.0),
    ensures
        ({
            let there = CTreeNodeID(ren[child.0]);
            let (after, left) = tree.visit(parent, child, answers, limit);
            let (other_after, other_left) = other.visit(ren[parent], there, answers, limit);
            &&& other_left == left
            &&& after.stands_in(other_after, ren)
            &&& other.visit_leaves(ren[parent], there, answers, limit) == tree.visit_leaves(
                parent,
                child,
                answers,
                limit,
            ).map_values(as_renamed(ren))
        }),
    decreases limit, 2nat, 0nat,
{
    let there = CTreeNodeID(ren[child.0]);
    lemma_steps_stand(tree, other, ren, child.0);
    if tree.nodes[child.0 as int] is Leaf {
        let status = next_answer(answers);
        let hooked = tree.with_node(
            child.0,
            tree.nodes[child.0 as int].with_status(Some(status)),
        );
        let other_hooked = other.with_node(
            there.0,
            other.nodes[there.0 as int].with_status(Some(status)),
        );
        assert(hooked.stands_in(other_hooked, ren));
        lemma_steps_stand(hooked, other_hooked, ren, parent);
        let update = ChildUpdate { status, child_id: child };
        assert(renamed_update(ren, update) == ChildUpdate { status, child_id: there });
        assert(hooked.tell(parent, update).stands_in(
            other_hooked.tell(ren[parent], renamed_update(ren, update)),
            ren,
        ));
        assert(seq![tree.nodes[child.0 as int]->Leaf_0].map_values(as_renamed(ren)) =~= seq![
            other.nodes[there.0 as int]->Leaf_0,
        ]);
    } else {
        let status = tree.nodes[child.0 as int].tick_status();
        let ticked = tree.tick(child.0);
        let other_ticked = other.tick(there.0);
        if status == Status::Running {
            lemma_run_from_stands(ticked, other_ticked, ren, child.0, answers, limit);
            let (after, left, subtree_status) = ticked.run_from(child.0, answers, limit);
            let (other_after, other_left, other_status) = other_ticked.run_from(
                there.0,
                answers,
                limit,
            );
            lemma_steps_stand(after, other_after, ren, parent);
            let update = ChildUpdate { status: subtree_status, child_id: child };
            assert(renamed_update(ren, update) == ChildUpdate {
                status: subtree_status,
                child_id: there,
            });
            assert(after.tell(parent, update).stands_in(
                other_after.tell(ren[parent], renamed_update(ren, update)),
                ren,
            ));
        } else {
            lemma_steps_stand(ticked, other_ticked, ren, parent);
            let update = ChildUpdate { status, child_id: child };
            assert(renamed_update(ren, update) == ChildUpdate { status, child_id: there });
            assert(ticked.tell(parent, update).stands_in(
                other_ticked.tell(ren[parent], renamed_update(ren, update)),
                ren,
            ));
            assert(Seq::<LeafNode>::empty().map_values(as_renamed(ren)) =~= Seq::<
                LeafNode,
            >::empty());
        }
    }
}

/// What is left of a pass goes in the other tree as it goes here.
pub proof fn lemma_pass_stands(
    tree: TreeView<StandardDecorator>,
    other: TreeView<StandardDecorator>,
    ren: Map<usize, usize>,
    node: usize,
    children: Seq<CTreeNodeID>,
    answers: Seq<Status>,
    limit: nat,
)
    requires
        tree.stands_in(other, ren),
        ren.contains_key(node),
        forall|i: int| 0 <= i < children.len() ==> ren.contains_key((#[trigger] children[i]).0),
    ensures
        ({
            let there = children.map_values(renumbered(ren));
            let (after, left) = tree.pass(node, children, answers, limit);
            let (other_after, other_left) = other.pass(ren[node], there, answers, limit);
            &&& other_left == left
            &&& after.stands_in(other_after, ren)
            &&& other.pass_leaves(ren[node], there, answers, limit) == tree.pass_leaves(
                node,
                children,
                answers,
                limit,
            ).map_values(as_renamed(ren))
        }),
    decreases limit, 3nat, children.len(),
{
    let there = children.map_values(renumbered(ren));
    if children.len() > 0 {
        let first = children[0];
        let rest = children.skip(1);
        assert(there[0] == CTreeNodeID(ren[first.0]));
        assert(there.skip(1) =~= rest.map_values(renumbered(ren)));
        lemma_steps_stand(tree, other, ren, node);
        let status = tree.nodes[node as int].tick_status();
        let ticked = tree.tick(node);
        let other_ticked = other.tick(ren[node]);
        if status != Status::Running {
            assert(Seq::<LeafNode>::empty().map_values(as_renamed(ren)) =~= Seq::<
                LeafNode,
            >::empty());
        } else {
            lemma_steps_stand(ticked, other_ticked, ren, first.0);
            if ticked.nodes[first.0 as int].status() == Some(Status::Success) {
                lemma_pass_stands(ticked, other_ticked, ren, node, rest, answers, limit);
            } else {
                lemma_visit_stands(ticked, other_ticked, ren, node, first, answers, limit);
                let (after, left) = ticked.visit(node, first, answers, limit);
                let (other_after, other_left) = other_ticked.visit(
                    ren[node],
                    there[0],
                    answers,
                    limit,
                );
                lemma_pass_stands(after, other_after, ren, node, rest, left, limit);
                let asked = ticked.visit_leaves(node, first, answers, limit);
                let asked_later = after.pass_leaves(node, rest, left, limit);
                assert((asked + asked_later).map_values(as_renamed(ren)) =~= asked.map_values(
                    as_renamed(ren),
                ) + asked_later.map_values(as_renamed(ren)));
            }
        }
    } else {
        assert(Seq::<LeafNode>::empty().map_values(as_renamed(ren)) =~= Seq::<LeafNode>::empty());
    }
}

/// The passes of a node go in the other tree as they go here.
pub proof fn lemma_passes_stand(
    tree: TreeView<StandardDecorator>,
    other: TreeView<StandardDecorator>,
    ren: Map<usize, usize>,
    node: usize,
    answers: Seq<Status>,
    limit: nat,
)
    requires
        tree.stands_in(other, ren),
        ren.contains_key(node),
    ensures
        ({
            let (after, left, status) = tree.passes(node, answers, limit);
            let (other_after, other_left, other_status) = other.passes(ren[node], answers, limit);
            &&& other_left == left
            &&& other_status == status
            &&& after.stands_in(other_after, ren)
            &&& other.passes_leaves(ren[node], answers, limit) == tree.passes_leaves(
                node,
                answers,
                limit,
            ).map_values(as_renamed(ren))
        }),
    decreases limit, 0nat, 0nat,
{
    if limit > 0 {
        let below = (limit - 1) as nat;
        let children = tree.tree[node];
        assert(other.tree[ren[node]] == children.map_values(renumbered(ren)));
        lemma_pass_stands(tree, other, ren, node, children, answers, below);
        let (passed, left) = tree.pass(node, children, answers, below);
        let (other_passed, other_left) = other.pass(
            ren[node],
            other.tree[ren[node]],
            answers,
            below,
        );
        lemma_steps_stand(passed, other_passed, ren, node);
        let closed = passed.close_pass(node);
        let other_closed = other_passed.close_pass(ren[node]);
        lemma_steps_stand(closed, other_closed, ren, node);
        let status = closed.nodes[node as int].tick_status();
        lemma_handled_stands(closed.tick(node), other_closed.tick(ren[node]), ren, node);
        let cleared = closed.tick(node).handle_resets(node);
        let other_cleared = other_closed.tick(ren[node]).handle_resets(ren[node]);
        let asked = tree.pass_leaves(node, children, answers, below);
        if status == Status::Running {
            lemma_passes_stand(cleared, other_cleared, ren, node, left, below);
            let asked_later = cleared.passes_leaves(node, left, below);
            assert((asked + asked_later).map_values(as_renamed(ren)) =~= asked.map_values(
                as_renamed(ren),
            ) + asked_later.map_values(as_renamed(ren)));
        } else {
            assert((asked + Seq::<LeafNode>::empty()).map_values(as_renamed(ren))
                =~= asked.map_values(as_renamed(ren)) + Seq::<LeafNode>::empty());
        }
    } else {
        assert(Seq::<LeafNode>::empty().map_values(as_renamed(ren)) =~= Seq::<LeafNode>::empty());
    }
}

/// A run from a node goes in the other tree as it goes here: the same
/// answers are used, the same leaves are asked in the same order, each
/// under its other id, the run comes to the same status, and the nodes
/// stand in the other tree afterwards as they stand here.
pub proof fn lemma_run_from_stands(
    tree: TreeView<StandardDecorator>,
    other: TreeView<StandardDecorator>,
    ren: Map<usize, usize>,
    node: usize,
    answers: Seq<Status>,
    limit: nat,
)
    requires
        tree.stands_in(other, ren),
        ren.contains_key(node),
    ensures
        ({
            let (after, left, status) = tree.run_from(node, answers, limit);
            let (other_after, other_left, other_status) = other.run_from(
                ren[node],
                answers,
                limit,
            );
            &&& other_left == left
            &&& other_status == status
            &&& after.stands_in(other_after, ren)
            &&& other.run_from_leaves(ren[node], answers, limit) == tree.run_from_leaves(
                node,
                answers,
                limit,
            ).map_values(as_renamed(ren))
        }),
    decreases limit, 1nat, 0nat,
{
    lemma_steps_stand(tree, other, ren, node);
    if tree.nodes[node as int].tick_status() == Status::Running {
        lemma_passes_stand(tree.tick(node), other.tick(ren[node]), ren, node, answers, limit);
    } else {
        assert(Seq::<LeafNode>::empty().map_values(as_renamed(ren)) =~= Seq::<LeafNode>::empty());
    }
}

/// The node carries the id `own`, and holds no id of another node: it
/// waits for no child, has seen none fail or succeed, and holds no branch
/// to be reset.
pub open spec fn holds_own_id(node: CTreeNodeView<StandardDecorator>, own: usize) -> bool {
    &&& node.id() == Some(CTreeNodeID(own))
    &&& match node {
        CTreeNodeView::Root(control) | CTreeNodeView::Control(control) => {
            &&& control.reset_requests == Seq::<CTreeNodeID>::empty()
            &&& match control.node_type {
                ControlNodeTypeView::Sequence(s) => s.pending == Set::<usize>::empty()
                    && s.failed is None,
                ControlNodeTypeView::Parallel(p) => p.success == Set::<usize>::empty()
                    && p.failure == Set::<usize>::empty() && p.pending == Set::<usize>::empty(),
                ControlNodeTypeView::Decorator(StandardDecorator::Repeat(r)) => r.reset_request
                    is None,
                _ => true,
            }
        },
        CTreeNodeView::Leaf(_) => true,
    }
}

/// The ids that the nodes of a branch have where the branch was copied by
/// `remap` and then put in behind `base` nodes.
pub open spec fn regrafted_ids(remap: Map<usize, usize>, base: usize) -> Map<usize, usize> {
    Map::new(|old: usize| remap.contains_key(old), |old: usize| (base + remap[old]) as usize)
}

/// A branch that is taken out of a tree and put into a tree runs there as
/// it runs where it came from, where its nodes carry their own ids and hold
/// none of others: a run from its first node uses the same answers in both
/// trees, asks the same leaves in the same order, each under its new id,
/// and comes to the same status. The nodes of the branch stand in the one
/// tree afterwards as they stand in the other.
pub proof fn lemma_regrafted_branch_runs_alike(
    source: TreeView<StandardDecorator>,
    start: usize,
    copy: TreeView<StandardDecorator>,
    remap: Map<usize, usize>,
    target: TreeView<StandardDecorator>,
    from: usize,
    priority: usize,
    wrapper: CTreeNodeView<StandardDecorator>,
    answers: Seq<Status>,
    limit: nat,
)
    requires
        source.wf(),
        source.has_node(CTreeNodeID(start)),
        source.branch_copied(start, copy, remap),
        target.wf(),
        target.nodes.len() + copy.nodes.len() <= usize::MAX,
        forall|old: usize| #[trigger]
            remap.contains_key(old) ==> holds_own_id(source.nodes[old as int], old),
    ensures
        ({
            let base = target.nodes.len() as usize;
            let ren = regrafted_ids(remap, base);
            let grafted = target.add_subtree(from, priority, copy, wrapper);
            let (after, left, status) = source.run_from(start, answers, limit);
            let (grafted_after, grafted_left, grafted_status) = grafted.run_from(
                ren[start],
                answers,
                limit,
            );
            &&& grafted.tree[base] == seq![CTreeNodeID(ren[start])]
            &&& source.stands_in(grafted, ren)
            &&& grafted_left == left
            &&& grafted_status == status
            &&& after.stands_in(grafted_after, ren)
            &&& grafted.run_from_leaves(ren[start], answers, limit) == source.run_from_leaves(
                start,
                answers,
                limit,
            ).map_values(as_renamed(ren))
        }),
{
    let base = target.nodes.len() as usize;
    let ren = regrafted_ids(remap, base);
    let grafted = target.add_subtree(from, priority, copy, wrapper);
    super::subtree::lemma_regrafted_branch_keeps_order(
        source,
        start,
        copy,
        remap,
        target,
        from,
        priority,
        wrapper,
    );
    lemma_reaches_self(source, start);
    assert(remap.contains_key(start));
    assert(one_to_one(ren)) by {
        assert forall|a: usize, b: usize|
            ren.contains_key(a) && ren.contains_key(b) && #[trigger] ren[a]
                == #[trigger] ren[b] implies a == b by {
            assert(remap.contains_key(a) && remap.contains_key(b));
            assert(remap[a] == remap[b]);
        }
    }
    assert forall|x: usize| #[trigger] ren.contains_key(x) implies {
        &&& x < source.nodes.len()
        &&& ren[x] < grafted.nodes.len()
        &&& source.tree.contains_key(x)
        &&& grafted.tree.contains_key(ren[x])
        &&& grafted.tree[ren[x]] == source.tree[x].map_values(renumbered(ren))
        &&& forall|i: int|
            0 <= i < source.tree[x].len() ==> ren.contains_key((#[trigger] source.tree[x][i]).0)
        &&& knows_node(ren, source.nodes[x as int])
        &&& grafted.nodes[ren[x] as int] == renamed_node(ren, source.nodes[x as int])
    } by {
        assert(remap.contains_key(x));
        assert(source.reaches(start, x));
        let new = super::subtree::regrafted(remap, base)(CTreeNodeID(x));
        assert(new.0 == ren[x]);
        // the node is a node of the tree
        let path = choose|path: Seq<usize>|
            #[trigger] source.is_path(path) && path.first() == start && path.last() == x;
        if path.len() > 1 {
            let parent = path[path.len() - 2];
            assert(source.is_edge(parent, path[path.len() - 2 + 1]));
            let k = choose|k: int|
                0 <= k < source.tree[parent].len() && source.tree[parent][k] == CTreeNodeID(x);
            assert(source.has_node(source.tree[parent][k]));
        }
        assert(source.tree.contains_key(x));
        // its children are nodes of the branch
        assert forall|i: int| 0 <= i < source.tree[x].len() implies ren.contains_key(
            (#[trigger] source.tree[x][i]).0,
        ) by {
            let child = source.tree[x][i];
            assert(source.tree[x].contains(CTreeNodeID(child.0)));
            lemma_reaches_step(source, start, x, child.0);
        }
        assert(grafted.tree[ren[x]] =~= source.tree[x].map_values(renumbered(ren)));
        // and it is the node that was copied, under its new id
        let node = source.nodes[x as int];
        assert(holds_own_id(node, x));
        assert(node.with_id(Some(new)).copied_to(grafted.nodes[new.0 as int]));
        lemma_renamed_none(ren, Set::<usize>::empty());
        assert(renamed_ids(ren, Set::<usize>::empty()) == Set::<usize>::empty());
        assert(Seq::<CTreeNodeID>::empty().map_values(renumbered(ren)) =~= Seq::<
            CTreeNodeID,
        >::empty());
        assert(renamed_node(ren, node) == node.with_id(Some(new)));
        assert(grafted.nodes[new.0 as int] == node.with_id(Some(new)));
    }
    assert(source.stands_in(grafted, ren));
    lemma_run_from_stands(source, grafted, ren, start, answers, limit);
}

} // verus!
