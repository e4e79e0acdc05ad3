//! The control tree: an arena of nodes and the ordered children of each.

use crate::hashed::{map_get, map_insert, map_keys, IdMap};
use crate::traits::{Blackboard, Conditional, Control, Decorator, Executor};
use crate::Status;
use control_nodes::{ControlNode, ControlNodeView};
use decorators::StandardDecorator;
use vstd::prelude::*;

pub mod asking;
pub mod builder;
pub mod control_nodes;
pub mod decorators;
pub mod engine;
pub mod failing;
pub mod laws;
pub mod manipulation;
pub mod parallel;
pub mod regraft;
pub mod settling;
pub mod simple_executors;
pub mod splice;
pub mod subtree;
pub mod validation;

verus! {

/// Index of the root of every tree; `CTreeNodeID(ROOT_ID)` is its id.
pub const ROOT_ID: usize = 0;

/// What a child reports to its parent.
#[derive(Debug, Default, Clone, Copy, PartialEq, Eq, Structural)]
pub struct ChildUpdate {
    pub status: Status,
    pub child_id: CTreeNodeID,
}

/// Index of a node in the arena of its tree.
#[derive(Debug, Default, Clone, Copy, PartialEq, Eq, Hash, Structural)]
pub struct CTreeNodeID(pub usize);

impl CTreeNodeID {
    pub fn index(&self) -> (index: usize)
        ensures
            index == self.0,
    {
        self.0
    }
}

impl vstd::std_specs::convert::FromSpecImpl<usize> for CTreeNodeID {
    open spec fn obeys_from_spec() -> bool {
        true
    }

    open spec fn from_spec(id: usize) -> CTreeNodeID {
        CTreeNodeID(id)
    }
}

impl From<usize> for CTreeNodeID {
    fn from(id: usize) -> (out: Self) {
        Self(id)
    }
}

/// What kind of action stands behind a leaf.
#[derive(Debug, Clone, Copy, PartialEq, Eq, Hash, Structural)]
pub enum LeafType {
    Unknown,
    Conditional,
    Executor,
}

impl Default for LeafType {
    fn default() -> (out: Self)
        ensures
            out == LeafType::Unknown,
    {
        LeafType::Unknown
    }
}

/// A leaf of the tree: the place of an action, with the status that the
/// action gave last.
#[derive(Debug, PartialEq, Eq, Hash)]
pub struct LeafNode {
    pub id: Option<CTreeNodeID>,
    pub status: Option<Status>,
    pub details: Option<String>,
    pub name: Option<String>,
    pub leaf_type: LeafType,
}

impl Default for LeafNode {
    fn default() -> (out: Self)
        ensures
            out == LeafNode::blank(LeafType::Unknown, None, None),
    {
        LeafNode { id: None, status: None, details: None, name: None, leaf_type: LeafType::Unknown }
    }
}

impl Clone for LeafNode {
    fn clone(&self) -> (out: Self)
        ensures
            out == *self,
    {
        let details = match &self.details {
            Some(text) => Some(text.clone()),
            None => None,
        };
        let name = match &self.name {
            Some(text) => Some(text.clone()),
            None => None,
        };
        LeafNode { id: self.id, status: self.status, details, name, leaf_type: self.leaf_type }
    }
}

impl LeafNode {
    /// A leaf that is in no tree and was never ticked.
    pub open spec fn blank(
        leaf_type: LeafType,
        name: Option<String>,
        details: Option<String>,
    ) -> LeafNode {
        LeafNode { id: None, status: None, details, name, leaf_type }
    }

    /// The leaf with another cached status.
    pub open spec fn with_status(self, status: Option<Status>) -> LeafNode {
        LeafNode { status, ..self }
    }

    /// A leaf for `executor`, named and described as the executor says.
    pub fn from_executor<BB: Blackboard, E: Executor<BB>>(executor: &E) -> (out: Self)
        ensures
            out == LeafNode::blank(LeafType::Executor, out.name, out.details),
            call_ensures(E::name, (executor,), out.name),
            call_ensures(E::details, (executor,), out.details),
    {
        LeafNode {
            details: executor.details(),
            name: executor.name(),
            leaf_type: LeafType::Executor,
            id: None,
            status: None,
        }
    }

    /// A leaf for `conditional`, named and described as the conditional says.
    pub fn from_conditional<BB: Blackboard, C: Conditional<BB>>(conditional: &C) -> (out: Self)
        ensures
            out == LeafNode::blank(LeafType::Conditional, out.name, out.details),
            call_ensures(C::name, (conditional,), out.name),
            call_ensures(C::details, (conditional,), out.details),
    {
        LeafNode {
            details: conditional.details(),
            name: conditional.name(),
            leaf_type: LeafType::Conditional,
            id: None,
            status: None,
        }
    }

    pub fn reset(&mut self)
        ensures
            *final(self) == old(self).with_status(None),
    {
        self.status = None;
    }
}

impl Control for LeafNode {
    open spec fn takes_children(&self) -> bool {
        false
    }

    fn tick(&mut self) -> (status: Status)
        ensures
            *final(self) == *old(self),
            status == Status::or_running(old(self).status),
    {
        self.status.unwrap_or_default()
    }

    /// Leaf nodes have no children: nothing can call this.
    fn child_updated(&mut self, _update: ChildUpdate) {
    }

    fn all_children_seen(&mut self)
        ensures
            *final(self) == *old(self),
    {
    }
}

/// The top of a tree. It behaves as a sequence.
#[derive(Debug, PartialEq, Eq)]
pub struct RootNode(pub ControlNode<StandardDecorator>);

impl View for RootNode {
    type V = ControlNodeView<StandardDecorator>;

    open spec fn view(&self) -> ControlNodeView<StandardDecorator> {
        self.0@
    }
}

impl Clone for RootNode {
    fn clone(&self) -> (out: Self)
        ensures
            out@ == self@,
    {
        RootNode(self.0.clone())
    }
}

impl Control for RootNode {
    open spec fn takes_children(&self) -> bool {
        true
    }

    fn tick(&mut self) -> (status: Status)
        ensures
            final(self)@ == old(self)@.ticked(),
            status == old(self)@.tick_status(),
    {
        self.0.tick()
    }

    fn child_updated(&mut self, update: ChildUpdate)
        ensures
            final(self)@ == old(self)@.told(update),
    {
        self.0.child_updated(update)
    }

    fn all_children_seen(&mut self)
        ensures
            final(self)@ == old(self)@.all_seen(),
    {
        self.0.all_children_seen()
    }
}

/// What a [`CTreeNode`] holds.
pub enum CTreeNodeView<D> {
    Root(ControlNodeView<StandardDecorator>),
    Control(ControlNodeView<D>),
    Leaf(LeafNode),
}

impl<D: Decorator> CTreeNodeView<D> {
    /// The status that the node has cached.
    pub open spec fn status(self) -> Option<Status> {
        match self {
            CTreeNodeView::Root(root) => root.status,
            CTreeNodeView::Control(control) => control.status,
            CTreeNodeView::Leaf(leaf) => leaf.status,
        }
    }

    /// The id that the node carries.
    pub open spec fn id(self) -> Option<CTreeNodeID> {
        match self {
            CTreeNodeView::Root(root) => root.id,
            CTreeNodeView::Control(control) => control.id,
            CTreeNodeView::Leaf(leaf) => leaf.id,
        }
    }

    /// The node with another cached status.
    pub open spec fn with_status(self, status: Option<Status>) -> Self {
        match self {
            CTreeNodeView::Root(root) => CTreeNodeView::Root(ControlNodeView { status, ..root }),
            CTreeNodeView::Control(control) => CTreeNodeView::Control(
                ControlNodeView { status, ..control },
            ),
            CTreeNodeView::Leaf(leaf) => CTreeNodeView::Leaf(LeafNode { status, ..leaf }),
        }
    }

    /// The node with another id.
    pub open spec fn with_id(self, id: Option<CTreeNodeID>) -> Self {
        match self {
            CTreeNodeView::Root(root) => CTreeNodeView::Root(ControlNodeView { id, ..root }),
            CTreeNodeView::Control(control) => CTreeNodeView::Control(
                ControlNodeView { id, ..control },
            ),
            CTreeNodeView::Leaf(leaf) => CTreeNodeView::Leaf(LeafNode { id, ..leaf }),
        }
    }

    /// The status that a tick gives: for a leaf, the one it has cached.
    pub open spec fn tick_status(self) -> Status {
        match self {
            CTreeNodeView::Root(root) => root.tick_status(),
            CTreeNodeView::Control(control) => control.tick_status(),
            CTreeNodeView::Leaf(leaf) => Status::or_running(leaf.status),
        }
    }

    /// The node after a tick: the status is cached.
    pub open spec fn ticked(self) -> Self {
        match self {
            CTreeNodeView::Root(root) => CTreeNodeView::Root(root.ticked()),
            CTreeNodeView::Control(control) => CTreeNodeView::Control(control.ticked()),
            CTreeNodeView::Leaf(leaf) => CTreeNodeView::Leaf(
                leaf.with_status(Some(Status::or_running(leaf.status))),
            ),
        }
    }

    /// The node after it was told `update`. A leaf is told nothing.
    pub open spec fn told(self, update: ChildUpdate) -> Self {
        match self {
            CTreeNodeView::Root(root) => CTreeNodeView::Root(root.told(update)),
            CTreeNodeView::Control(control) => CTreeNodeView::Control(control.told(update)),
            CTreeNodeView::Leaf(_) => self,
        }
    }

    /// The node after it was told that all children have been seen.
    pub open spec fn all_seen(self) -> Self {
        match self {
            CTreeNodeView::Root(root) => CTreeNodeView::Root(root.all_seen()),
            CTreeNodeView::Control(control) => CTreeNodeView::Control(control.all_seen()),
            CTreeNodeView::Leaf(_) => self,
        }
    }

    /// The node after a reset: no cached status, and the payload as new.
    pub open spec fn cleared(self) -> Self {
        match self {
            CTreeNodeView::Root(root) => CTreeNodeView::Root(
                ControlNodeView { status: None, ..root.cleared() },
            ),
            CTreeNodeView::Control(control) => CTreeNodeView::Control(
                ControlNodeView { status: None, ..control.cleared() },
            ),
            CTreeNodeView::Leaf(leaf) => CTreeNodeView::Leaf(leaf.with_status(None)),
        }
    }

    /// The branches that the node holds to be reset.
    pub open spec fn reset_requests(self) -> Seq<CTreeNodeID> {
        match self {
            CTreeNodeView::Control(control) => control.reset_requests,
            _ => Seq::empty(),
        }
    }

    /// The node with no branch left to be reset. Only a control node holds
    /// such requests for the tree.
    pub open spec fn without_requests(self) -> Self {
        match self {
            CTreeNodeView::Control(control) => CTreeNodeView::Control(
                ControlNodeView { reset_requests: Seq::empty(), ..control },
            ),
            _ => self,
        }
    }

    /// `other` holds what a clone of `self` holds.
    pub open spec fn copied_to(self, other: Self) -> bool {
        match (self, other) {
            (CTreeNodeView::Control(c), CTreeNodeView::Control(d)) => c.copied_to(d),
            _ => self == other,
        }
    }
}

/// A node of the tree.
#[derive(Debug, PartialEq, Eq)]
pub enum CTreeNode<D: Decorator> {
    Root(RootNode),
    Control(ControlNode<D>),
    Leaf(LeafNode),
}

impl<D: Decorator> View for CTreeNode<D> {
    type V = CTreeNodeView<D>;

    open spec fn view(&self) -> CTreeNodeView<D> {
        match self {
            CTreeNode::Root(root) => CTreeNodeView::Root(root@),
            CTreeNode::Control(control) => CTreeNodeView::Control(control@),
            CTreeNode::Leaf(leaf) => CTreeNodeView::Leaf(*leaf),
        }
    }
}

impl<D: Decorator> Clone for CTreeNode<D> {
    fn clone(&self) -> (out: Self)
        ensures
            self@.copied_to(out@),
    {
        match self {
            CTreeNode::Root(root) => CTreeNode::Root(root.clone()),
            CTreeNode::Control(control) => CTreeNode::Control(control.clone()),
            CTreeNode::Leaf(leaf) => CTreeNode::Leaf(leaf.clone()),
        }
    }
}

impl<D: Decorator> vstd::std_specs::convert::FromSpecImpl<RootNode> for CTreeNode<D> {
    open spec fn obeys_from_spec() -> bool {
        true
    }

    open spec fn from_spec(root: RootNode) -> CTreeNode<D> {
        CTreeNode::Root(root)
    }
}

impl<D: Decorator> From<RootNode> for CTreeNode<D> {
    fn from(root: RootNode) -> (out: Self) {
        CTreeNode::Root(root)
    }
}

impl<D: Decorator> vstd::std_specs::convert::FromSpecImpl<ControlNode<D>> for CTreeNode<D> {
    open spec fn obeys_from_spec() -> bool {
        true
    }

    open spec fn from_spec(control: ControlNode<D>) -> CTreeNode<D> {
        CTreeNode::Control(control)
    }
}

impl<D: Decorator> From<ControlNode<D>> for CTreeNode<D> {
    fn from(control: ControlNode<D>) -> (out: Self) {
        CTreeNode::Control(control)
    }
}

impl<D: Decorator> vstd::std_specs::convert::FromSpecImpl<LeafNode> for CTreeNode<D> {
    open spec fn obeys_from_spec() -> bool {
        true
    }

    open spec fn from_spec(leaf: LeafNode) -> CTreeNode<D> {
        CTreeNode::Leaf(leaf)
    }
}

impl<D: Decorator> From<LeafNode> for CTreeNode<D> {
    fn from(leaf: LeafNode) -> (out: Self) {
        CTreeNode::Leaf(leaf)
    }
}

impl<D: Decorator> CTreeNode<D> {
    pub fn try_as_leaf_mut(&mut self) -> (out: Option<&mut LeafNode>)
        ensures
            match out {
                Some(leaf) => {
                    &&& old(self)@ == CTreeNodeView::<D>::Leaf(*leaf)
                    &&& final(self)@ == CTreeNodeView::<D>::Leaf(*final(leaf))
                },
                None => !(old(self)@ is Leaf) && *final(self) == *old(self),
            },
    {
        match self {
            CTreeNode::Leaf(c) => Some(c),
            _ => None,
        }
    }

    pub fn try_as_leaf(&self) -> (out: Option<&LeafNode>)
        ensures
            match out {
                Some(leaf) => self@ == CTreeNodeView::<D>::Leaf(*leaf),
                None => !(self@ is Leaf),
            },
    {
        match &self {
            CTreeNode::Leaf(c) => Some(c),
            _ => None,
        }
    }

    pub fn is_leaf(&self) -> (out: bool)
        ensures
            out == (self@ is Leaf),
    {
        self.try_as_leaf().is_some()
    }

    pub fn try_as_control_mut(&mut self) -> (out: Option<&mut ControlNode<D>>)
        ensures
            match out {
                Some(control) => {
                    &&& old(self)@ == CTreeNodeView::<D>::Control(control@)
                    &&& final(self)@ == CTreeNodeView::<D>::Control(final(control)@)
                },
                None => !(old(self)@ is Control) && *final(self) == *old(self),
            },
    {
        match self {
            CTreeNode::Control(c) => Some(c),
            _ => None,
        }
    }

    pub fn try_as_control(&self) -> (out: Option<&ControlNode<D>>)
        ensures
            match out {
                Some(control) => self@ == CTreeNodeView::<D>::Control(control@),
                None => !(self@ is Control),
            },
    {
        match &self {
            CTreeNode::Control(c) => Some(c),
            _ => None,
        }
    }

    pub fn is_control(&self) -> (out: bool)
        ensures
            out == (self@ is Control),
    {
        self.try_as_control().is_some()
    }

    pub fn try_as_root(&self) -> (out: Option<&RootNode>)
        ensures
            match out {
                Some(root) => self@ == CTreeNodeView::<D>::Root(root@),
                None => !(self@ is Root),
            },
    {
        match &self {
            CTreeNode::Root(c) => Some(c),
            _ => None,
        }
    }

    pub fn is_root(&self) -> (out: bool)
        ensures
            out == (self@ is Root),
    {
        self.try_as_root().is_some()
    }

    /// The root of a new tree: a sequence that was never ticked.
    pub fn root() -> (out: Self)
        ensures
            out@ == CTreeNodeView::<D>::Root(
                ControlNodeView::fresh(
                    control_nodes::ControlNodeTypeView::Sequence(
                        control_nodes::SequenceView::fresh(),
                    ),
                ),
            ),
    {
        CTreeNode::Root(RootNode(ControlNode::sequence()))
    }

    pub fn leaf() -> (out: Self)
        ensures
            out@ == CTreeNodeView::<D>::Leaf(LeafNode::blank(LeafType::Unknown, None, None)),
    {
        CTreeNode::Leaf(LeafNode::default())
    }

    pub fn unset_id(&mut self)
        ensures
            final(self)@ == old(self)@.with_id(None),
    {
        match self {
            CTreeNode::Root(root) => root.0.id = None,
            CTreeNode::Control(control) => control.id = None,
            CTreeNode::Leaf(leaf) => leaf.id = None,
        };
    }

    /// Gives the node `id` and returns the id that it had.
    pub fn set_id(&mut self, id: CTreeNodeID) -> (previous: Option<CTreeNodeID>)
        ensures
            final(self)@ == old(self)@.with_id(Some(id)),
            previous == old(self)@.id(),
    {
        let previous = self.id();
        match self {
            CTreeNode::Root(root) => root.0.id = Some(id),
            CTreeNode::Control(control) => control.id = Some(id),
            CTreeNode::Leaf(leaf) => leaf.id = Some(id),
        };
        previous
    }

    pub fn id(&self) -> (out: Option<CTreeNodeID>)
        ensures
            out == self@.id(),
    {
        match self {
            CTreeNode::Root(root) => root.0.id,
            CTreeNode::Control(control) => control.id,
            CTreeNode::Leaf(leaf) => leaf.id,
        }
    }

    pub fn reset(&mut self)
        ensures
            final(self)@ == old(self)@.cleared(),
    {
        self.clear_status();
        match self {
            CTreeNode::Root(root) => root.0.reset(),
            CTreeNode::Control(control) => control.reset(),
            CTreeNode::Leaf(leaf) => leaf.reset(),
        }
    }

    pub fn clear_status(&mut self)
        ensures
            final(self)@ == old(self)@.with_status(None),
    {
        match self {
            CTreeNode::Root(root) => root.0.status = None,
            CTreeNode::Control(control) => control.status = None,
            CTreeNode::Leaf(leaf) => leaf.status = None,
        }
    }

    pub fn set_status(&mut self, status: Status)
        ensures
            final(self)@ == old(self)@.with_status(Some(status)),
    {
        match self {
            CTreeNode::Root(root) => root.0.status = Some(status),
            CTreeNode::Control(control) => control.status = Some(status),
            CTreeNode::Leaf(leaf) => leaf.status = Some(status),
        }
    }

    pub fn status(&self) -> (out: Option<Status>)
        ensures
            out == self@.status(),
    {
        match self {
            CTreeNode::Root(root) => root.0.status,
            CTreeNode::Control(control) => control.status,
            CTreeNode::Leaf(leaf) => leaf.status,
        }
    }
}

impl<D: Decorator> Control for CTreeNode<D> {
    open spec fn takes_children(&self) -> bool {
        !(self@ is Leaf)
    }

    fn tick(&mut self) -> (status: Status)
        ensures
            final(self)@ == old(self)@.ticked(),
            status == old(self)@.tick_status(),
    {
        let status = match self {
            CTreeNode::Root(root) => root.tick(),
            CTreeNode::Control(control) => control.tick(),
            CTreeNode::Leaf(leaf) => leaf.tick(),
        };
        self.set_status(status);
        status
    }

    fn child_updated(&mut self, update: ChildUpdate)
        ensures
            final(self)@ == old(self)@.told(update),
    {
        match self {
            CTreeNode::Root(root) => root.child_updated(update),
            CTreeNode::Control(control) => control.child_updated(update),
            CTreeNode::Leaf(leaf) => leaf.child_updated(update),
        }
    }

    fn all_children_seen(&mut self)
        ensures
            final(self)@ == old(self)@.all_seen(),
    {
        match self {
            CTreeNode::Root(r) => r.all_children_seen(),
            CTreeNode::Control(c) => c.all_children_seen(),
            CTreeNode::Leaf(l) => l.all_children_seen(),
        }
    }
}

/// What a [`ControlTree`] holds: the arena of its nodes, and the ordered
/// children of each node that has an entry.
pub struct TreeView<D> {
    pub nodes: Seq<CTreeNodeView<D>>,
    pub tree: Map<usize, Seq<CTreeNodeID>>,
}

impl<D: Decorator> TreeView<D> {
    /// `id` names a node of the arena that has an entry for its children.
    pub open spec fn has_node(self, id: CTreeNodeID) -> bool {
        id.0 < self.nodes.len() && self.tree.contains_key(id.0)
    }

    /// The arena starts with the root, children are listed for nodes of the
    /// arena only, and every child that is listed is a node of the tree.
    pub open spec fn wf(self) -> bool {
        &&& self.nodes.len() > 0
        &&& self.nodes[0] is Root
        &&& self.tree.contains_key(ROOT_ID)
        &&& forall|parent: usize| #[trigger]
            self.tree.contains_key(parent) ==> parent < self.nodes.len()
        &&& forall|parent: usize, i: int|
            self.tree.contains_key(parent) && 0 <= i < self.tree[parent].len() ==> self.has_node(
                #[trigger] self.tree[parent][i],
            )
    }

    /// `other` holds what a clone of `self` holds: the same children
    /// everywhere, and node by node a clone.
    pub open spec fn copied_to(self, other: Self) -> bool {
        &&& other.tree == self.tree
        &&& other.nodes.len() == self.nodes.len()
        &&& forall|i: int|
            0 <= i < self.nodes.len() ==> self.nodes[i].copied_to(#[trigger] other.nodes[i])
        &&& self.wf() ==> other.wf()
    }

    /// The tree with another node in the place of `id`.
    pub open spec fn with_node(self, id: usize, node: CTreeNodeView<D>) -> Self {
        TreeView { nodes: self.nodes.update(id as int, node), ..self }
    }

    /// The tree with other children of `parent`.
    pub open spec fn with_children(self, parent: usize, children: Seq<CTreeNodeID>) -> Self {
        TreeView { tree: self.tree.insert(parent, children), ..self }
    }

    /// The status of the whole tree: that of its root.
    pub open spec fn status(self) -> Status {
        Status::or_running(self.nodes[0].status())
    }
}

/// A tree of control nodes and leaves. Nodes are addressed by their index
/// in the arena, and the root is at index [`ROOT_ID`].
#[derive(Debug)]
pub struct ControlTree<D: Decorator> {
    pub nodes: Vec<CTreeNode<D>>,
    pub tree: IdMap<Vec<CTreeNodeID>>,
}

pub type StdControlTree = ControlTree<StandardDecorator>;

/// The child at the place `at` is listed at no place before it.
pub open spec fn first_at(children: Seq<CTreeNodeID>, at: int) -> bool {
    forall|before: int| 0 <= before < at ==> children[before] != #[trigger] children[at]
}

/// `made` is what `f` gives when it is handed a node that holds `node`.
pub open spec fn made_of<D: Decorator, O, F: FnMut(&mut CTreeNode<D>) -> O>(
    f: F,
    node: CTreeNodeView<D>,
    made: O,
) -> bool {
    exists|handed: &mut CTreeNode<D>| handed@ == node && #[trigger] call_ensures(f, (handed,), made)
}

impl<D: Decorator> View for ControlTree<D> {
    type V = TreeView<D>;

    open spec fn view(&self) -> TreeView<D> {
        TreeView {
            nodes: self.nodes@.map_values(|node: CTreeNode<D>| node@),
            tree: self.tree@.map_values(|children: Vec<CTreeNodeID>| children@),
        }
    }
}

impl<D: Decorator> Clone for ControlTree<D> {
    fn clone(&self) -> (out: Self)
        ensures
            self@.copied_to(out@),
    {
        let mut nodes: Vec<CTreeNode<D>> = Vec::new();
        let mut i: usize = 0;
        while i < self.nodes.len()
            invariant
                i <= self.nodes.len(),
                nodes@.len() == i,
                forall|k: int| 0 <= k < i ==> self.nodes@[k]@.copied_to(#[trigger] nodes@[k]@),
            decreases self.nodes.len() - i,
        {
            nodes.push(self.nodes[i].clone());
            i += 1;
        }
        Self { nodes, tree: self.tree.clone() }
    }
}

impl<D: Decorator> vstd::std_specs::core::IndexSpecImpl<CTreeNodeID> for ControlTree<D> {
    /// A node can be had for the ids of the arena.
    open spec fn index_req(&self, index: &CTreeNodeID) -> bool {
        index.0 < self@.nodes.len()
    }
}

impl<D: Decorator> std::ops::Index<CTreeNodeID> for ControlTree<D> {
    type Output = CTreeNode<D>;

    fn index(&self, index: CTreeNodeID) -> (node: &CTreeNode<D>)
        ensures
            node@ == self@.nodes[index.0 as int],
    {
        &self.nodes[index.0]
    }
}

impl<D: Decorator> Default for ControlTree<D> {
    fn default() -> (out: Self)
        ensures
            out@ == TreeView::<D>::sapling(),
    {
        Self::new()
    }
}

impl<D: Decorator> TreeView<D> {
    /// The tree of a root without children.
    pub open spec fn sapling() -> Self {
        TreeView {
            nodes: seq![
                CTreeNodeView::Root(
                    ControlNodeView::fresh(
                        control_nodes::ControlNodeTypeView::Sequence(
                            control_nodes::SequenceView::fresh(),
                        ),
                    ),
                ),
            ],
            tree: map![ROOT_ID => Seq::empty()],
        }
    }
}

/// The control nodes among the nodes of a tree.
pub open spec fn is_control<D: Decorator>() -> spec_fn(CTreeNodeView<D>) -> bool {
    |node: CTreeNodeView<D>| node is Control
}

/// The decorators among the nodes of a tree.
pub open spec fn is_decorator<D: Decorator>() -> spec_fn(CTreeNodeView<D>) -> bool {
    |node: CTreeNodeView<D>| node matches CTreeNodeView::Control(control) && control.node_type is Decorator
}

/// The views of an arena in which one node was replaced.
pub proof fn lemma_node_replaced<D: Decorator>(nodes: Seq<CTreeNode<D>>, i: int, node: CTreeNode<D>)
    requires
        0 <= i < nodes.len(),
    ensures
        nodes.update(i, node).map_values(|n: CTreeNode<D>| n@) == nodes.map_values(
            |n: CTreeNode<D>| n@,
        ).update(i, node@),
{
    assert(nodes.update(i, node).map_values(|n: CTreeNode<D>| n@) =~= nodes.map_values(
        |n: CTreeNode<D>| n@,
    ).update(i, node@));
}

impl<D: Decorator> ControlTree<D> {
    /// The status of the whole control tree (reflected by the status of the root node).
    pub fn status(&self) -> (out: Status)
        requires
            self@.nodes.len() > 0,
        ensures
            out == self@.status(),
    {
        self.nodes[ROOT_ID].status().unwrap_or_default()
    }

    pub fn new() -> (out: Self)
        ensures
            out@ == TreeView::<D>::sapling(),
            out@.wf(),
    {
        let root = CTreeNode::root();
        let mut tree = IdMap::<Vec<CTreeNodeID>>::default();
        map_insert(&mut tree, ROOT_ID, Vec::new());
        let out = Self { nodes: vec![root], tree };
        assert(out@.nodes =~= TreeView::<D>::sapling().nodes);
        assert(out@.tree =~= TreeView::<D>::sapling().tree);
        out
    }

    pub fn node_mut(&mut self, id: CTreeNodeID) -> (node: &mut CTreeNode<D>)
        requires
            id.0 < old(self)@.nodes.len(),
        ensures
            node@ == old(self)@.nodes[id.0 as int],
            final(self)@ == old(self)@.with_node(id.0, final(node)@),
    {
        let node = &mut self.nodes[id.0];
        proof {
            lemma_node_replaced(old(self).nodes@, id.0 as int, *final(node));
        }
        node
    }

    /// The control nodes, in the order of the arena.
    pub fn iter_control_nodes(&self) -> (out: Vec<&ControlNode<D>>)
        ensures
            out@.map_values(|control: &ControlNode<D>| CTreeNodeView::Control(control@))
                == self@.nodes.filter(is_control::<D>()),
    {
        let mut out: Vec<&ControlNode<D>> = Vec::new();
        let mut i: usize = 0;
        while i < self.nodes.len()
            invariant
                i <= self.nodes.len(),
                out@.map_values(|control: &ControlNode<D>| CTreeNodeView::Control(control@))
                    == self@.nodes.take(i as int).filter(is_control::<D>()),
            decreases self.nodes.len() - i,
        {
            proof {
                assert(self@.nodes.take(i + 1) == self@.nodes.take(i as int).push(
                    self@.nodes[i as int],
                ));
                self@.nodes.take(i as int).lemma_filter_push(
                    self@.nodes[i as int],
                    is_control::<D>(),
                );
            }
            let ghost before = out@;
            if let Some(control) = self.nodes[i].try_as_control() {
                out.push(control);
                assert(out@.map_values(|control: &ControlNode<D>| CTreeNodeView::Control(control@))
                    =~= before.map_values(
                    |control: &ControlNode<D>| CTreeNodeView::Control(control@),
                ).push(self@.nodes[i as int]));
            }
            i += 1;
        }
        assert(self@.nodes.take(self.nodes.len() as int) == self@.nodes);
        out
    }

    /// The decorators, in the order of the arena.
    pub fn iter_decorators(&self) -> (out: Vec<&ControlNode<D>>)
        ensures
            out@.map_values(|control: &ControlNode<D>| CTreeNodeView::Control(control@))
                == self@.nodes.filter(is_decorator::<D>()),
    {
        let mut out: Vec<&ControlNode<D>> = Vec::new();
        let mut i: usize = 0;
        while i < self.nodes.len()
            invariant
                i <= self.nodes.len(),
                out@.map_values(|control: &ControlNode<D>| CTreeNodeView::Control(control@))
                    == self@.nodes.take(i as int).filter(is_decorator::<D>()),
            decreases self.nodes.len() - i,
        {
            proof {
                assert(self@.nodes.take(i + 1) == self@.nodes.take(i as int).push(
                    self@.nodes[i as int],
                ));
                self@.nodes.take(i as int).lemma_filter_push(
                    self@.nodes[i as int],
                    is_decorator::<D>(),
                );
            }
            let ghost before = out@;
            if let Some(control) = self.nodes[i].try_as_control() {
                if control.is_decorator() {
                    out.push(control);
                    assert(out@.map_values(
                        |control: &ControlNode<D>| CTreeNodeView::Control(control@),
                    ) =~= before.map_values(
                        |control: &ControlNode<D>| CTreeNodeView::Control(control@),
                    ).push(self@.nodes[i as int]));
                }
            }
            i += 1;
        }
        assert(self@.nodes.take(self.nodes.len() as int) == self@.nodes);
        out
    }

    /// Each node that has an entry for its children, with these children.
    /// The order is that in which the entries happen to be walked.
    pub fn iter_tree(&self) -> (out: Vec<(CTreeNodeID, Vec<CTreeNodeID>)>)
        ensures
            forall|i: int|
                0 <= i < out@.len() ==> self@.tree.contains_key((#[trigger] out@[i]).0.0)
                    && out@[i].1@ == self@.tree[out@[i].0.0],
            forall|i: int, j: int| 0 <= i < j < out@.len() ==> out@[i].0 != out@[j].0,
            forall|parent: usize|
                self@.tree.contains_key(parent) ==> exists|i: int|
                    0 <= i < out@.len() && (#[trigger] out@[i]).0 == CTreeNodeID(parent),
    {
        let keys = map_keys(&self.tree);
        let mut out: Vec<(CTreeNodeID, Vec<CTreeNodeID>)> = Vec::new();
        let mut k: usize = 0;
        while k < keys.len()
            invariant
                k <= keys.len(),
                out@.len() == k,
                keys@.no_duplicates(),
                forall|key: usize| keys@.contains(key) <==> self@.tree.contains_key(key),
                forall|i: int| 0 <= i < k ==> (#[trigger] out@[i]).0 == CTreeNodeID(keys[i]),
                forall|i: int|
                    0 <= i < k ==> self@.tree.contains_key((#[trigger] out@[i]).0.0) && out@[i].1@
                        == self@.tree[out@[i].0.0],
            decreases keys.len() - k,
        {
            let parent = CTreeNodeID(keys[k]);
            assert(keys@.contains(parent.0));
            let children = self.children(&parent);
            out.push((parent, children));
            k += 1;
        }
        proof {
            assert forall|parent: usize| self@.tree.contains_key(parent) implies exists|i: int|
                0 <= i < out@.len() && (#[trigger] out@[i]).0 == CTreeNodeID(parent) by {
                assert(keys@.contains(parent));
                let i = keys@.index_of(parent);
                assert(out@[i].0 == CTreeNodeID(parent));
            }
        }
        out
    }

    /// The children of `node_id` themselves, in the order in which they are run.
    pub fn iter_children(&self, node_id: &CTreeNodeID) -> (out: Vec<&CTreeNode<D>>)
        requires
            self@.wf(),
            self@.tree.contains_key(node_id.0),
        ensures
            out@.len() == self@.tree[node_id.0].len(),
            forall|i: int|
                0 <= i < out@.len() ==> (#[trigger] out@[i])@ == self@.nodes[self@.tree[node_id.0][i].0 as int],
    {
        let children = self.children(node_id);
        let mut out: Vec<&CTreeNode<D>> = Vec::new();
        let mut i: usize = 0;
        while i < children.len()
            invariant
                i <= children.len(),
                self@.wf(),
                self@.tree.contains_key(node_id.0),
                children@ == self@.tree[node_id.0],
                out@.len() == i,
                forall|j: int|
                    0 <= j < i ==> (#[trigger] out@[j])@ == self@.nodes[children[j].0 as int],
            decreases children.len() - i,
        {
            assert(self@.has_node(self@.tree[node_id.0][i as int]));
            out.push(&self.nodes[children[i].0]);
            i += 1;
        }
        out
    }

    /// The ids of the children of `node_id`, in the order in which they are run.
    pub fn iter_child_ids(&self, node_id: &CTreeNodeID) -> (out: Vec<CTreeNodeID>)
        requires
            self@.tree.contains_key(node_id.0),
        ensures
            out@ == self@.tree[node_id.0],
    {
        self.children(node_id)
    }

    /// Hands each child of `node_id` to `f`, in the order in which the
    /// children are run, and gives what `f` made of each. A child that is
    /// listed once, or for the first time, is handed over as it was.
    pub fn iter_children_mut<O, F: FnMut(&mut CTreeNode<D>) -> O>(
        &mut self,
        node_id: &CTreeNodeID,
        f: F,
    ) -> (out: Vec<O>)
        requires
            old(self)@.wf(),
            old(self)@.tree.contains_key(node_id.0),
            forall|node: &mut CTreeNode<D>| #[trigger] call_requires(f, (node,)),
        ensures
            out@.len() == old(self)@.tree[node_id.0].len(),
            final(self)@.tree == old(self)@.tree,
            final(self)@.nodes.len() == old(self)@.nodes.len(),
            forall|i: int|
                0 <= i < old(self)@.nodes.len() && !old(self)@.tree[node_id.0].contains(
                    CTreeNodeID(i as usize),
                ) ==> #[trigger] final(self)@.nodes[i] == old(self)@.nodes[i],
            forall|i: int|
                #![trigger out@[i]]
                0 <= i < out@.len() && first_at(old(self)@.tree[node_id.0], i) ==> made_of(
                    f,
                    old(self)@.nodes[old(self)@.tree[node_id.0][i].0 as int],
                    out@[i],
                ),
    {
        let ghost given = f;
        let mut f = f;
        let children = self.children(node_id);
        let mut out: Vec<O> = Vec::new();
        let mut i: usize = 0;
        while i < children.len()
            invariant
                i <= children.len(),
                old(self)@.wf(),
                old(self)@.tree.contains_key(node_id.0),
                children@ == old(self)@.tree[node_id.0],
                out@.len() == i,
                self@.tree == old(self)@.tree,
                self@.nodes.len() == old(self)@.nodes.len(),
                forall|node: &mut CTreeNode<D>| #[trigger] call_requires(f, (node,)),
                forall|k: int|
                    0 <= k < old(self)@.nodes.len() && !old(self)@.tree[node_id.0].contains(
                        CTreeNodeID(k as usize),
                    ) ==> #[trigger] self@.nodes[k] == old(self)@.nodes[k],
                f == given,
                forall|k: int|
                    0 <= k < old(self)@.nodes.len() && !children@.take(i as int).contains(
                        CTreeNodeID(k as usize),
                    ) ==> #[trigger] self@.nodes[k] == old(self)@.nodes[k],
                forall|k: int|
                    #![trigger out@[k]]
                    0 <= k < i && first_at(children@, k) ==> made_of(
                        given,
                        old(self)@.nodes[children@[k].0 as int],
                        out@[k],
                    ),
            decreases children.len() - i,
        {
            assert(old(self)@.has_node(old(self)@.tree[node_id.0][i as int]));
            let ghost before = self@;
            let ghost made_before = out@;
            let made = f(self.node_mut(children[i]));
            proof {
                if first_at(children@, i as int) {
                    assert(!children@.take(i as int).contains(CTreeNodeID(children@[i as int].0)))
                        by {
                        if children@.take(i as int).contains(children@[i as int]) {
                            let j = choose|j: int|
                                0 <= j < i && children@.take(i as int)[j] == children@[i as int];
                            assert(children@[j] == children@[i as int]);
                        }
                    }
                    assert(made_of(f, old(self)@.nodes[children@[i as int].0 as int], made));
                }
                assert forall|k: int|
                    0 <= k < old(self)@.nodes.len() && !children@.take(i + 1).contains(
                        CTreeNodeID(k as usize),
                    ) implies #[trigger] self@.nodes[k] == old(self)@.nodes[k] by {
                    assert(children@.take(i + 1)[i as int] == children@[i as int]);
                    assert(children@[i as int] == CTreeNodeID(children@[i as int].0));
                    if children@.take(i as int).contains(CTreeNodeID(k as usize)) {
                        let j = choose|j: int|
                            0 <= j < i && children@.take(i as int)[j] == CTreeNodeID(k as usize);
                        assert(children@.take(i + 1)[j] == CTreeNodeID(k as usize));
                    }
                    assert(before.nodes[k] == old(self)@.nodes[k]);
                }
                assert forall|k: int|
                    0 <= k < old(self)@.nodes.len() && !old(self)@.tree[node_id.0].contains(
                        CTreeNodeID(k as usize),
                    ) implies #[trigger] self@.nodes[k] == old(self)@.nodes[k] by {
                    assert(children@[i as int] == CTreeNodeID(children@[i as int].0));
                    assert(before.nodes[k] == old(self)@.nodes[k]);
                }
            }
            out.push(made);
            proof {
                assert forall|k: int|
                    #![trigger out@[k]]
                    0 <= k < i + 1 && first_at(children@, k) implies made_of(
                    given,
                    old(self)@.nodes[children@[k].0 as int],
                    out@[k],
                ) by {
                    if k < i {
                        assert(out@[k] == made_before[k]);
                    }
                }
            }
            i += 1;
        }
        out
    }

    /// The children of `node_id`, in the order in which they are run.
    pub fn children(&self, node_id: &CTreeNodeID) -> (out: Vec<CTreeNodeID>)
        requires
            self@.tree.contains_key(node_id.0),
        ensures
            out@ == self@.tree[node_id.0],
    {
        match map_get(&self.tree, node_id.0) {
            Some(children) => children.clone(),
            None => Vec::new(),
        }
    }
}

} // verus!
