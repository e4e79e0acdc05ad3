//! Building a control tree layer by layer.

use super::control_nodes::{
    ControlNode, ControlNodeTypeView, ControlNodeView, ParallelView, SequenceView,
};
use super::decorators::{Inverter, Repeater, StandardDecorator, Subtree};
use super::{CTreeNode, CTreeNodeID, CTreeNodeView, ControlTree, LeafNode, TreeView, ROOT_ID};
use crate::hashed::{map_get, map_insert, map_remove};
use crate::traits::Decorator;
use crate::ShrubberyResult;
use vstd::prelude::*;

verus! {

/// For building control trees
pub struct CTreeBuilder<D: Decorator> {
    pub(crate) inner: ControlTree<D>,
}

impl<D: Decorator> ControlTree<D> {
    pub fn into_builder(self) -> (out: CTreeBuilder<D>)
        requires
            self@.wf(),
        ensures
            out@ == self@,
    {
        CTreeBuilder { inner: self }
    }

    pub fn builder() -> (out: CTreeBuilder<D>)
        ensures
            out@ == TreeView::<D>::sapling(),
    {
        CTreeBuilder::new()
    }
}

impl<D: Decorator> View for CTreeBuilder<D> {
    type V = TreeView<D>;

    /// The tree as far as it is built.
    closed spec fn view(&self) -> TreeView<D> {
        self.inner@
    }
}

impl<D: Decorator> Clone for CTreeBuilder<D> {
    fn clone(&self) -> (out: Self)
        ensures
            self@.copied_to(out@),
    {
        proof {
            use_type_invariant(self);
        }
        Self { inner: self.inner.clone() }
    }
}

impl<D: Decorator> Default for CTreeBuilder<D> {
    fn default() -> (out: Self)
        ensures
            out@ == TreeView::<D>::sapling(),
    {
        Self::new()
    }
}

impl<D: Decorator> CTreeBuilder<D> {
    #[verifier::type_invariant]
    spec fn well_formed(self) -> bool {
        self.inner@.wf()
    }

    pub fn new() -> (out: Self)
        ensures
            out@ == TreeView::<D>::sapling(),
    {
        Self { inner: ControlTree::new() }
    }

    /// Builds the layer below the root.
    pub fn layer<O, F: FnOnce(CTreeLayerBuilder<'_, D>) -> O>(&mut self, f: F) -> (out: O)
        requires
            forall|layer: CTreeLayerBuilder<'_, D>|
                #![trigger layer.is_layer(old(self)@, ROOT_ID, 0)]
                layer.is_layer(old(self)@, ROOT_ID, 0) ==> call_requires(f, (layer,)),
        ensures
            exists|layer: CTreeLayerBuilder<'_, D>| #[trigger]
                layer.is_layer(old(self)@, ROOT_ID, 0) && call_ensures(f, (layer,), out)
                    && *final(layer.builder) == *final(self),
    {
        let layer = CTreeLayerBuilder {
            builder: self,
            layer_id: CTreeNodeID(ROOT_ID),
            layer_depth: 0,
        };
        assert(layer.is_layer(old(self)@, ROOT_ID, 0));
        f(layer)
    }

    /// Build the tree
    ///
    /// # Errors
    ///
    /// - If a cycle is detected in the tree
    /// - If a decorator has no child, or more than one
    /// - If a control node is left dangling (missing leaf)
    pub fn build(self) -> (result: ShrubberyResult<ControlTree<D>>)
        ensures
            result is Ok <==> self@.valid(),
            match result {
                Ok(tree) => tree@ == self@ && tree@.wf(),
                Err(crate::ShrubberyError::CycleDetected(cycle)) => self@.is_cycle(cycle@),
                Err(crate::ShrubberyError::InvalidDecorator { decorator, children }) => {
                    &&& self@.acyclic()
                    &&& self@.bad_decorator(decorator.0 as int)
                    &&& forall|i: int| 0 <= i < decorator.0 ==> !self@.bad_decorator(i)
                    &&& children@ == self@.tree[decorator.0]
                },
                Err(crate::ShrubberyError::DanglingControlNode(id)) => {
                    &&& self@.acyclic()
                    &&& forall|i: int| !self@.bad_decorator(i)
                    &&& self@.dangling(id.0 as int)
                    &&& forall|i: int| 0 <= i < id.0 ==> !self@.dangling(i)
                },
            },
    {
        proof {
            use_type_invariant(&self);
        }
        match self.inner.validate_bt_rules() {
            Err(e) => Err(e),
            Ok(_) => Ok(self.inner),
        }
    }

    /// Inject a cycle: a sequence below the root, with the root as its
    /// child. This makes [`Self::build`] fail.
    pub fn inject_cycle(&mut self)
        ensures
            final(self)@.is_cycle(
                seq![
                    CTreeNodeID(ROOT_ID),
                    CTreeNodeID(old(self)@.nodes.len() as usize),
                    CTreeNodeID(ROOT_ID),
                ],
            ),
    {
        proof {
            use_type_invariant(&*self);
        }
        let mut tree = ControlTree::new();
        std::mem::swap(&mut self.inner, &mut tree);
        let ghost before = tree@;
        let parent = CTreeNodeID(ROOT_ID);
        let node: CTreeNode<D> = CTreeNode::Control(ControlNode::sequence());
        let ghost fresh = node@;
        let ghost count = tree.nodes.len();
        let ghost listed = tree.tree@;
        assert(before.nodes.len() == count);
        let child = tree.attach(parent, node, usize::MAX);
        let ghost added = tree@;
        let mut below = match map_remove(&mut tree.tree, child.0) {
            Some(below) => below,
            None => Vec::new(),
        };
        below.push(parent);
        map_insert(&mut tree.tree, child.0, below);
        proof {
            let cycle = seq![parent, child, parent];
            assert(before.tree.contains_key(ROOT_ID));
            assert(added.tree.contains_key(ROOT_ID));
            assert(tree@.tree[ROOT_ID] == added.tree[ROOT_ID]);
            let siblings = before.children_of(ROOT_ID);
            assert(fresh.id() is None);
            assert(child.0 == count);
            assert(added == before.add_child(ROOT_ID, fresh, usize::MAX));
            assert(child == CTreeNodeID(child.0));
            assert(siblings == listed[ROOT_ID]@);
            assert(siblings.len() == listed[ROOT_ID].len());
            assert(siblings.len() <= usize::MAX);
            assert(added.tree[ROOT_ID] == siblings.insert(siblings.len() as int, child));
            assert(added.tree[ROOT_ID][siblings.len() as int] == child);
            assert(tree@.tree[ROOT_ID].contains(CTreeNodeID(child.0)));
            assert(tree@.tree[child.0].last() == parent);
            assert(tree@.tree[child.0].contains(CTreeNodeID(ROOT_ID)));
            assert forall|i: int| 0 <= i < cycle.len() - 1 implies tree@.is_edge(
                (#[trigger] cycle[i]).0,
                cycle[i + 1].0,
            ) by {}
            assert(cycle.drop_last() =~= seq![parent, child]);
            assert(tree@.is_cycle(cycle));
            assert forall|p: usize, i: int|
                tree@.tree.contains_key(p) && 0 <= i < tree@.tree[p].len() implies tree@.has_node(
                #[trigger] tree@.tree[p][i],
            ) by {
                if p == child.0 {
                    if i < added.tree[child.0].len() {
                        assert(added.has_node(added.tree[p][i]));
                    }
                } else {
                    assert(added.has_node(added.tree[p][i]));
                }
            }
        }
        std::mem::swap(&mut self.inner, &mut tree);
    }
}

/// Builds the layer below one node of the tree.
pub struct CTreeLayerBuilder<'a, D: Decorator> {
    pub builder: &'a mut CTreeBuilder<D>,
    pub layer_id: CTreeNodeID,
    pub layer_depth: usize,
}

impl<'a, D: Decorator> CTreeLayerBuilder<'a, D> {
    /// create a new layer builder with depth 0
    pub fn new(builder: &'a mut CTreeBuilder<D>, layer_id: CTreeNodeID) -> (out: CTreeLayerBuilder<
        'a,
        D,
    >)
        ensures
            out.is_layer((*old(builder))@, layer_id.0, 0),
            *final(builder) == *final(out.builder),
    {
        Self { builder, layer_id, layer_depth: 0 }
    }

    /// The node that this layer builds under: its own, or the root where
    /// its own is not in the tree.
    pub open spec fn place(self) -> CTreeNodeID {
        if (*self.builder)@.tree.contains_key(self.layer_id.0) {
            self.layer_id
        } else {
            CTreeNodeID(ROOT_ID)
        }
    }

    /// The layer below `id`, in a builder that holds `tree`.
    pub open spec fn is_layer(self, tree: TreeView<D>, id: usize, depth: usize) -> bool {
        &&& (*self.builder)@ == tree
        &&& self.layer_id == CTreeNodeID(id)
        &&& self.layer_depth == depth
    }

    /// The depth of the layer below this one.
    pub open spec fn deeper(self) -> usize {
        if self.layer_depth < usize::MAX {
            (self.layer_depth + 1) as usize
        } else {
            usize::MAX
        }
    }

    /// `layer` builds the layer below `node`, which was added under this
    /// layer.
    pub open spec fn enters(self, node: ControlNodeView<D>, layer: CTreeLayerBuilder<'_, D>) -> bool {
        layer.is_layer(
            (*self.builder)@.add_child(self.place().0, CTreeNodeView::Control(node), usize::MAX),
            (*self.builder)@.slot_for(CTreeNodeView::Control(node)),
            self.deeper(),
        )
    }

    /// Add a [`Sequence`](super::control_nodes::Sequence) node, and build its sub-tree
    pub fn sequence<O, F: FnOnce(CTreeLayerBuilder<'_, D>) -> O>(&mut self, layer_fn: F) -> (out: O)
        requires
            forall|layer: CTreeLayerBuilder<'_, D>|
                #![trigger old(self).enters(
                    ControlNodeView::fresh(ControlNodeTypeView::Sequence(SequenceView::fresh())),
                    layer,
                )]
                old(self).enters(
                    ControlNodeView::fresh(ControlNodeTypeView::Sequence(SequenceView::fresh())),
                    layer,
                ) ==> call_requires(layer_fn, (layer,)),
        ensures
            exists|layer: CTreeLayerBuilder<'_, D>| #[trigger]
                old(self).enters(
                    ControlNodeView::fresh(ControlNodeTypeView::Sequence(SequenceView::fresh())),
                    layer,
                ) && call_ensures(layer_fn, (layer,), out)
                    && *final(layer.builder) == *final(self).builder,
            final(self).layer_id == old(self).layer_id,
            final(self).layer_depth == old(self).layer_depth,
    {
        self.enter(ControlNode::sequence(), layer_fn)
    }

    /// Add a [`Fallback`](super::control_nodes::Fallback) node, and build its sub-tree
    pub fn fallback<O, F: FnOnce(CTreeLayerBuilder<'_, D>) -> O>(&mut self, layer_fn: F) -> (out: O)
        requires
            forall|layer: CTreeLayerBuilder<'_, D>|
                #![trigger old(self).enters(
                    ControlNodeView::fresh(ControlNodeTypeView::Fallback(super::control_nodes::Fallback { status: None })),
                    layer,
                )]
                old(self).enters(
                    ControlNodeView::fresh(ControlNodeTypeView::Fallback(super::control_nodes::Fallback { status: None })),
                    layer,
                ) ==> call_requires(layer_fn, (layer,)),
        ensures
            exists|layer: CTreeLayerBuilder<'_, D>| #[trigger]
                old(self).enters(
                    ControlNodeView::fresh(
                        ControlNodeTypeView::Fallback(super::control_nodes::Fallback { status: None }),
                    ),
                    layer,
                ) && call_ensures(layer_fn, (layer,), out)
                    && *final(layer.builder) == *final(self).builder,
            final(self).layer_id == old(self).layer_id,
            final(self).layer_depth == old(self).layer_depth,
    {
        self.enter(ControlNode::fallback(), layer_fn)
    }

    /// Add a [`Parallel`](super::control_nodes::Parallel) node, and build its sub-tree
    pub fn parallel<O, F: FnOnce(CTreeLayerBuilder<'_, D>) -> O>(&mut self, layer_fn: F) -> (out: O)
        requires
            forall|layer: CTreeLayerBuilder<'_, D>|
                #![trigger old(self).enters(
                    ControlNodeView::fresh(ControlNodeTypeView::Parallel(ParallelView::fresh())),
                    layer,
                )]
                old(self).enters(
                    ControlNodeView::fresh(ControlNodeTypeView::Parallel(ParallelView::fresh())),
                    layer,
                ) ==> call_requires(layer_fn, (layer,)),
        ensures
            exists|layer: CTreeLayerBuilder<'_, D>| #[trigger]
                old(self).enters(
                    ControlNodeView::fresh(ControlNodeTypeView::Parallel(ParallelView::fresh())),
                    layer,
                ) && call_ensures(layer_fn, (layer,), out)
                    && *final(layer.builder) == *final(self).builder,
            final(self).layer_id == old(self).layer_id,
            final(self).layer_depth == old(self).layer_depth,
    {
        self.enter(ControlNode::parallel(), layer_fn)
    }

    /// Add a node of the decorator that `decorator` converts into, and build
    /// its sub-tree
    pub fn decorator<O, T: Into<D>, F: FnOnce(CTreeLayerBuilder<'_, D>) -> O>(
        &mut self,
        decorator: T,
        layer_fn: F,
    ) -> (out: O)
        requires
            forall|layer: CTreeLayerBuilder<'_, D>, payload: D|
                #![trigger old(self).enters(
                    ControlNodeView::fresh(ControlNodeTypeView::Decorator(payload)),
                    layer,
                )]
                old(self).enters(
                    ControlNodeView::fresh(ControlNodeTypeView::Decorator(payload)),
                    layer,
                ) && call_ensures(T::into, (decorator,), payload) ==> call_requires(layer_fn, (layer,)),
        ensures
            exists|layer: CTreeLayerBuilder<'_, D>, payload: D| #[trigger]
                old(self).enters(
                    ControlNodeView::fresh(ControlNodeTypeView::Decorator(payload)),
                    layer,
                ) && call_ensures(T::into, (decorator,), payload) && call_ensures(
                    layer_fn,
                    (layer,),
                    out,
                ) && *final(layer.builder) == *final(self).builder,
            final(self).layer_id == old(self).layer_id,
            final(self).layer_depth == old(self).layer_depth,
    {
        let node = ControlNode::decorator(decorator);
        self.enter(node, layer_fn)
    }

    /// Hands the layer to `f`: the result is what `f` gives for the layer,
    /// and the layer is as `f` leaves it.
    pub fn map<O, F: FnOnce(&mut Self) -> O>(&mut self, f: F) -> (out: O)
        requires
            forall|layer: &mut Self| *layer == *old(self) ==> #[trigger] call_requires(f, (layer,)),
        ensures
            exists|layer: &mut Self|
                *layer == *old(self) && *final(layer) == *final(self) && #[trigger] call_ensures(
                    f,
                    (layer,),
                    out,
                ),
    {
        f(self)
    }

    /// `layer_fn` provides a [`CTreeLayerBuilder`] for defining the subtree beneath the
    /// added `node`
    pub fn control_node<O, T: Into<ControlNode<D>>, F: FnOnce(CTreeLayerBuilder<'_, D>) -> O>(
        &mut self,
        node: T,
        layer_fn: F,
    ) -> (out: O)
        requires
            forall|layer: CTreeLayerBuilder<'_, D>, control: ControlNode<D>|
                #![trigger old(self).enters(control@, layer)]
                old(self).enters(control@, layer) && call_ensures(T::into, (node,), control) ==> call_requires(layer_fn, (layer,)),
        ensures
            exists|layer: CTreeLayerBuilder<'_, D>, control: ControlNode<D>| #[trigger]
                old(self).enters(control@, layer) && call_ensures(T::into, (node,), control)
                    && call_ensures(layer_fn, (layer,), out)
                    && *final(layer.builder) == *final(self).builder,
            final(self).layer_id == old(self).layer_id,
            final(self).layer_depth == old(self).layer_depth,
    {
        let control: ControlNode<D> = node.into();
        self.enter(control, layer_fn)
    }

    /// Adds `node`, and hands the builder of the layer below it to
    /// `layer_fn`.
    fn enter<O, F: FnOnce(CTreeLayerBuilder<'_, D>) -> O>(
        &mut self,
        node: ControlNode<D>,
        layer_fn: F,
    ) -> (out: O)
        requires
            forall|layer: CTreeLayerBuilder<'_, D>|
                #![trigger old(self).enters(node@, layer)]
                old(self).enters(node@, layer) ==> call_requires(layer_fn, (layer,)),
        ensures
            exists|layer: CTreeLayerBuilder<'_, D>| #[trigger]
                old(self).enters(node@, layer) && call_ensures(layer_fn, (layer,), out)
                    && *final(layer.builder) == *final(self).builder,
            final(self).layer_id == old(self).layer_id,
            final(self).layer_depth == old(self).layer_depth,
    {
        let layer_builder = self.descend(node);
        layer_fn(layer_builder)
    }

    /// Adds `node`, and gives the builder of the layer below it.
    pub fn next_layer<T: Into<ControlNode<D>>>(&mut self, node: T) -> (out: CTreeLayerBuilder<'_, D>)
        ensures
            exists|control: ControlNode<D>| #[trigger]
                call_ensures(T::into, (node,), control) && old(self).enters(control@, out),
            *final(self).builder == *final(out.builder),
            final(self).layer_id == old(self).layer_id,
            final(self).layer_depth == old(self).layer_depth,
    {
        let control: ControlNode<D> = node.into();
        self.descend(control)
    }

    /// Adds `node`, and gives the builder of the layer below it.
    pub fn descend(&mut self, node: ControlNode<D>) -> (out: CTreeLayerBuilder<'_, D>)
        ensures
            old(self).enters(node@, out),
            *final(self).builder == *final(out.builder),
            final(self).layer_id == old(self).layer_id,
            final(self).layer_depth == old(self).layer_depth,
    {
        let parent_id = self.add(CTreeNode::Control(node));
        let layer_depth = if self.layer_depth < usize::MAX {
            self.layer_depth + 1
        } else {
            usize::MAX
        };
        CTreeLayerBuilder { builder: self.builder, layer_id: parent_id, layer_depth }
    }

    /// Add a leaf node.
    pub fn leaf_node<T: Into<LeafNode>>(&mut self, node: T) -> (id: CTreeNodeID)
        ensures
            final(self).layer_id == old(self).layer_id,
            final(self).layer_depth == old(self).layer_depth,
            exists|leaf: LeafNode|
                {
                    &&& #[trigger] call_ensures(T::into, (node,), leaf)
                    &&& (*final(self).builder)@ == (*old(self).builder)@.add_child(
                        old(self).place().0,
                        CTreeNode::<D>::Leaf(leaf)@,
                        usize::MAX,
                    )
                    &&& id.0 == (*old(self).builder)@.slot_for(CTreeNode::<D>::Leaf(leaf)@)
                },
    {
        let leaf: LeafNode = node.into();
        self.add(CTreeNode::Leaf(leaf))
    }

    /// Adds `node` behind the children of the node of this layer; behind
    /// those of the root where that node is not in the tree.
    pub fn add(&mut self, node: CTreeNode<D>) -> (id: CTreeNodeID)
        ensures
            final(self).layer_id == old(self).layer_id,
            final(self).layer_depth == old(self).layer_depth,
            (*final(self).builder)@ == (*old(self).builder)@.add_child(
                old(self).place().0,
                node@,
                usize::MAX,
            ),
            id.0 == (*old(self).builder)@.slot_for(node@),
            (*old(self).builder)@.nodes.len() <= usize::MAX,
    {
        proof {
            use_type_invariant(&*self.builder);
        }
        let mut tree = ControlTree::new();
        std::mem::swap(&mut self.builder.inner, &mut tree);
        assert(tree.nodes.len() <= usize::MAX);
        let parent = if map_get(&tree.tree, self.layer_id.0).is_some() {
            self.layer_id
        } else {
            CTreeNodeID(ROOT_ID)
        };
        assert(tree@.tree.contains_key(parent.0));
        let id = tree.attach(parent, node, usize::MAX);
        std::mem::swap(&mut self.builder.inner, &mut tree);
        id
    }
}

impl<'a, D: Decorator + From<StandardDecorator>> CTreeLayerBuilder<'a, D> {
    /// Add a repeater of `retries` retries, and build its sub-tree
    pub fn repeat<O, F: FnOnce(CTreeLayerBuilder<'_, D>) -> O>(
        &mut self,
        retries: usize,
        layer_fn: F,
    ) -> (out: O)
        requires
            retries < usize::MAX,
            forall|layer: CTreeLayerBuilder<'_, D>, payload: D|
                #![trigger old(self).enters(
                    ControlNodeView::fresh(ControlNodeTypeView::Decorator(payload)),
                    layer,
                )]
                old(self).enters(
                    ControlNodeView::fresh(ControlNodeTypeView::Decorator(payload)),
                    layer,
                ) && call_ensures(
                    <StandardDecorator as Into<D>>::into,
                    (StandardDecorator::Repeat(Repeater::fresh((retries + 1) as usize)),),
                    payload,
                ) ==> call_requires(layer_fn, (layer,)),
        ensures
            exists|layer: CTreeLayerBuilder<'_, D>, payload: D| #[trigger]
                old(self).enters(
                    ControlNodeView::fresh(ControlNodeTypeView::Decorator(payload)),
                    layer,
                ) && call_ensures(
                    <StandardDecorator as Into<D>>::into,
                    (StandardDecorator::Repeat(Repeater::fresh((retries + 1) as usize)),),
                    payload,
                ) && call_ensures(layer_fn, (layer,), out)
                    && *final(layer.builder) == *final(self).builder,
            final(self).layer_id == old(self).layer_id,
            final(self).layer_depth == old(self).layer_depth,
    {
        self.decorator(StandardDecorator::Repeat(Repeater::new(retries)), layer_fn)
    }

    /// Add an inverter, and build its sub-tree
    pub fn invert<O, F: FnOnce(CTreeLayerBuilder<'_, D>) -> O>(&mut self, layer_fn: F) -> (out: O)
        requires
            forall|layer: CTreeLayerBuilder<'_, D>, payload: D|
                #![trigger old(self).enters(
                    ControlNodeView::fresh(ControlNodeTypeView::Decorator(payload)),
                    layer,
                )]
                old(self).enters(
                    ControlNodeView::fresh(ControlNodeTypeView::Decorator(payload)),
                    layer,
                ) && call_ensures(
                    <StandardDecorator as Into<D>>::into,
                    (StandardDecorator::Invert(Inverter { child_status: None }),),
                    payload,
                ) ==> call_requires(layer_fn, (layer,)),
        ensures
            exists|layer: CTreeLayerBuilder<'_, D>, payload: D| #[trigger]
                old(self).enters(
                    ControlNodeView::fresh(ControlNodeTypeView::Decorator(payload)),
                    layer,
                ) && call_ensures(
                    <StandardDecorator as Into<D>>::into,
                    (StandardDecorator::Invert(Inverter { child_status: None }),),
                    payload,
                ) && call_ensures(layer_fn, (layer,), out)
                    && *final(layer.builder) == *final(self).builder,
            final(self).layer_id == old(self).layer_id,
            final(self).layer_depth == old(self).layer_depth,
    {
        self.decorator(StandardDecorator::Invert(Inverter::default()), layer_fn)
    }

    /// Add a subtree marker of the given name, and build its sub-tree
    pub fn subtree_named<O, F: FnOnce(CTreeLayerBuilder<'_, D>) -> O>(
        &mut self,
        name: &str,
        layer_fn: F,
    ) -> (out: O)
        requires
            forall|layer: CTreeLayerBuilder<'_, D>, payload: D, marker: Subtree|
                #![trigger old(self).enters(
                    ControlNodeView::fresh(ControlNodeTypeView::Decorator(payload)),
                    layer,
                ), marker.named(name@)]
                old(self).enters(
                    ControlNodeView::fresh(ControlNodeTypeView::Decorator(payload)),
                    layer,
                ) && marker.named(name@) && call_ensures(
                    <StandardDecorator as Into<D>>::into,
                    (StandardDecorator::Subtree(marker),),
                    payload,
                ) ==> call_requires(layer_fn, (layer,)),
        ensures
            exists|layer: CTreeLayerBuilder<'_, D>, payload: D, marker: Subtree|
                #![trigger old(self).enters(
                    ControlNodeView::fresh(ControlNodeTypeView::Decorator(payload)),
                    layer,
                ), marker.named(name@)]
                old(self).enters(
                    ControlNodeView::fresh(ControlNodeTypeView::Decorator(payload)),
                    layer,
                ) && marker.named(name@) && call_ensures(
                    <StandardDecorator as Into<D>>::into,
                    (StandardDecorator::Subtree(marker),),
                    payload,
                ) && call_ensures(layer_fn, (layer,), out)
                    && *final(layer.builder) == *final(self).builder,
            final(self).layer_id == old(self).layer_id,
            final(self).layer_depth == old(self).layer_depth,
    {
        let marker = Subtree::new(name.to_owned());
        assert(marker.named(name@));
        self.decorator(StandardDecorator::Subtree(marker), layer_fn)
    }

    /// Add a subtree marker, and build its sub-tree
    pub fn subtree<O, F: FnOnce(CTreeLayerBuilder<'_, D>) -> O>(&mut self, layer_fn: F) -> (out: O)
        requires
            forall|layer: CTreeLayerBuilder<'_, D>, payload: D|
                #![trigger old(self).enters(
                    ControlNodeView::fresh(ControlNodeTypeView::Decorator(payload)),
                    layer,
                )]
                old(self).enters(
                    ControlNodeView::fresh(ControlNodeTypeView::Decorator(payload)),
                    layer,
                ) && call_ensures(
                    <StandardDecorator as Into<D>>::into,
                    (StandardDecorator::Subtree(Subtree { status: None, name: None }),),
                    payload,
                ) ==> call_requires(layer_fn, (layer,)),
        ensures
            exists|layer: CTreeLayerBuilder<'_, D>, payload: D| #[trigger]
                old(self).enters(
                    ControlNodeView::fresh(ControlNodeTypeView::Decorator(payload)),
                    layer,
                ) && call_ensures(
                    <StandardDecorator as Into<D>>::into,
                    (StandardDecorator::Subtree(Subtree { status: None, name: None }),),
                    payload,
                ) && call_ensures(layer_fn, (layer,), out)
                    && *final(layer.builder) == *final(self).builder,
            final(self).layer_id == old(self).layer_id,
            final(self).layer_depth == old(self).layer_depth,
    {
        self.decorator(StandardDecorator::Subtree(Subtree::default()), layer_fn)
    }
}

} // verus!
