//! Building a behavior tree layer by layer, actions included.

use super::ShrubberyBT;
use crate::control::builder::{CTreeBuilder, CTreeLayerBuilder};
use crate::control::control_nodes::{
    ControlNode, ControlNodeTypeView, ControlNodeView, Fallback, ParallelView, SequenceView,
};
use crate::control::decorators::{Inverter, Repeater, StandardDecorator, Subtree};
use crate::control::{CTreeNodeID, LeafNode, TreeView, ROOT_ID};
use crate::executor_mask::{DispatchView, LeafDispatch, TaskID};
use crate::traits::{ActionHandler, Decorator};
use crate::{ShrubberyError, ShrubberyResult};
use vstd::prelude::*;

verus! {

/// For building behavior trees
pub struct BTBuilder<H: ActionHandler, D: Decorator = StandardDecorator> {
    inner: CTreeBuilder<D>,
    dispatch: LeafDispatch<H>,
}

impl<H: ActionHandler, D: Decorator> BTBuilder<H, D> {
    /// The tree as far as it is built.
    pub closed spec fn tree(&self) -> TreeView<D> {
        self.inner@
    }

    /// The actions of the leaves as far as they are assigned.
    pub closed spec fn actions(&self) -> DispatchView<H> {
        self.dispatch@
    }

    pub fn new() -> (out: Self)
        ensures
            out.tree() == TreeView::<D>::sapling(),
            out.actions().mask == Map::<usize, TaskID>::empty(),
    {
        Self { inner: CTreeBuilder::new(), dispatch: LeafDispatch::default() }
    }

    /// Puts the builder of a tree and the actions of its leaves together.
    pub(crate) fn assemble(inner: CTreeBuilder<D>, dispatch: LeafDispatch<H>) -> (out: Self)
        ensures
            out.tree() == inner@,
            out.actions() == dispatch@,
    {
        Self { inner, dispatch }
    }

    /// Builds the layer below the root, with `deps` at hand.
    pub fn layer_with_deps<Deps, O, F: FnOnce(Deps, BTLayer<'_, H, D>) -> O>(
        &mut self,
        deps: Deps,
        f: F,
    ) -> (out: O)
        requires
            forall|layer: BTLayer<'_, H, D>|
                #![trigger layer.is_layer(old(self).tree(), old(self).actions(), ROOT_ID, 0)]
                layer.is_layer(old(self).tree(), old(self).actions(), ROOT_ID, 0) ==> call_requires(
                    f,
                    (deps, layer),
                ),
        ensures
            exists|layer: BTLayer<'_, H, D>| #[trigger]
                layer.is_layer(old(self).tree(), old(self).actions(), ROOT_ID, 0) && call_ensures(
                    f,
                    (deps, layer),
                    out,
                )
                    && (*final(layer.control.builder))@ == final(self).tree()
                    && (*final(layer.dispatch))@ == final(self).actions(),
    {
        let BTBuilder { inner, dispatch } = self;
        let layer = BTLayer { control: CTreeLayerBuilder::new(inner, CTreeNodeID(ROOT_ID)), dispatch };
        assert(layer.is_layer(old(self).tree(), old(self).actions(), ROOT_ID, 0));
        f(deps, layer)
    }

    /// Builds the layer below the root.
    pub fn layer<O, F: FnOnce(BTLayer<'_, H, D>) -> O>(&mut self, f: F) -> (out: O)
        requires
            forall|layer: BTLayer<'_, H, D>|
                #![trigger layer.is_layer(old(self).tree(), old(self).actions(), ROOT_ID, 0)]
                layer.is_layer(old(self).tree(), old(self).actions(), ROOT_ID, 0) ==> call_requires(
                    f,
                    (layer,),
                ),
        ensures
            exists|layer: BTLayer<'_, H, D>| #[trigger]
                layer.is_layer(old(self).tree(), old(self).actions(), ROOT_ID, 0) && call_ensures(
                    f,
                    (layer,),
                    out,
                )
                    && (*final(layer.control.builder))@ == final(self).tree()
                    && (*final(layer.dispatch))@ == final(self).actions(),
    {
        let BTBuilder { inner, dispatch } = self;
        let layer = BTLayer { control: CTreeLayerBuilder::new(inner, CTreeNodeID(ROOT_ID)), dispatch };
        assert(layer.is_layer(old(self).tree(), old(self).actions(), ROOT_ID, 0));
        f(layer)
    }

    /// Build the [`ShrubberyBT`]
    ///
    /// # Errors
    ///
    /// - If a cycle is detected in the tree
    /// - If a decorator has no child, or more than one
    /// - If a control node is left dangling (missing leaf)
    pub fn build(self) -> (result: ShrubberyResult<ShrubberyBT<H, D>>)
        ensures
            result is Ok <==> self.tree().valid(),
            match result {
                Ok(bt) => bt.tree() == self.tree() && bt.actions() == self.actions(),
                Err(ShrubberyError::CycleDetected(cycle)) => self.tree().is_cycle(cycle@),
                Err(ShrubberyError::InvalidDecorator { decorator, children }) => {
                    &&& self.tree().acyclic()
                    &&& self.tree().bad_decorator(decorator.0 as int)
                    &&& forall|i: int| 0 <= i < decorator.0 ==> !self.tree().bad_decorator(i)
                    &&& children@ == self.tree().tree[decorator.0]
                },
                Err(ShrubberyError::DanglingControlNode(id)) => {
                    &&& self.tree().acyclic()
                    &&& forall|i: int| !self.tree().bad_decorator(i)
                    &&& self.tree().dangling(id.0 as int)
                    &&& forall|i: int| 0 <= i < id.0 ==> !self.tree().dangling(i)
                },
            },
    {
        match self.inner.build() {
            Err(e) => Err(e),
            Ok(control_tree) => Ok(ShrubberyBT::assemble(control_tree, self.dispatch)),
        }
    }

    /// Inject a cycle: a sequence below the root, with the root as its
    /// child. This makes [`Self::build`] fail.
    pub fn inject_cycle(&mut self)
        ensures
            final(self).actions() == old(self).actions(),
            final(self).tree().is_cycle(
                seq![
                    CTreeNodeID(ROOT_ID),
                    CTreeNodeID(old(self).tree().nodes.len() as usize),
                    CTreeNodeID(ROOT_ID),
                ],
            ),
    {
        self.inner.inject_cycle();
    }
}

impl<H: ActionHandler, D: Decorator> Default for BTBuilder<H, D> {
    fn default() -> (out: Self)
        ensures
            out.tree() == TreeView::<D>::sapling(),
            out.actions().mask == Map::<usize, TaskID>::empty(),
    {
        Self::new()
    }
}

/// Builds the layer below one node of a behavior tree.
pub struct BTLayer<'a, H: ActionHandler, D: Decorator = StandardDecorator> {
    pub control: CTreeLayerBuilder<'a, D>,
    pub dispatch: &'a mut LeafDispatch<H>,
}

impl<'a, H: ActionHandler, D: Decorator> BTLayer<'a, H, D> {
    /// The layer below `id`, in a builder that holds `tree` and `actions`.
    pub open spec fn is_layer(
        self,
        tree: TreeView<D>,
        actions: DispatchView<H>,
        id: usize,
        depth: usize,
    ) -> bool {
        self.control.is_layer(tree, id, depth) && (*self.dispatch)@ == actions
    }

    /// `layer` builds the layer below `node`, which was added under this
    /// layer; the actions are those of this layer.
    pub open spec fn enters(self, node: ControlNodeView<D>, layer: BTLayer<'_, H, D>) -> bool {
        self.control.enters(node, layer.control) && (*layer.dispatch)@ == (*self.dispatch)@
    }

    /// Do something to the layer
    pub fn map<O, F: FnOnce(Self) -> O>(self, f: F) -> (out: O)
        requires
            call_requires(f, (self,)),
        ensures
            call_ensures(f, (self,), out),
    {
        f(self)
    }

    /// Do something to the layer: the result is what `f` gives for the
    /// layer, and the layer is as `f` leaves it.
    pub fn update<O, F: FnOnce(&mut Self) -> O>(&mut self, f: F) -> (out: O)
        requires
            forall|layer: &mut Self| *layer == *old(self) ==> #[trigger] call_requires(f, (layer,)),
        ensures
            exists|layer: &mut Self|
                *layer == *old(self) && *final(layer) == *final(self) && #[trigger] call_ensures(
                    f,
                    (layer,),
                    out,
                ),
    {
        f(self)
    }

    /// Do something to the layer, with `deps` at hand
    pub fn map_with_deps<Deps, F: FnOnce(Deps, Self) -> Self>(self, deps: Deps, f: F) -> (out: Self)
        requires
            call_requires(f, (deps, self)),
        ensures
            call_ensures(f, (deps, self), out),
    {
        f(deps, self)
    }

    /// Add an executor node to the tree & dispatch
    pub fn execute<T: Into<H::Execute>>(&mut self, executor: T) -> (id: CTreeNodeID)
        ensures
            (*final(self).dispatch)@.mask == (*old(self).dispatch)@.mask.insert(
                id.0,
                TaskID::Executor(
                    crate::executor_mask::ExecutorID(
                        (*old(self).dispatch)@.executors.len() as usize,
                    ),
                ),
            ),
            (*final(self).dispatch)@.executors.len() == (*old(self).dispatch)@.executors.len() + 1,
            (*final(self).dispatch)@.executors.drop_last() == (*old(self).dispatch)@.executors,
            (*final(self).dispatch)@.conditionals == (*old(self).dispatch)@.conditionals,
            call_ensures(T::into, (executor,), (*final(self).dispatch)@.executors.last()),
            id.0 == (*old(self).control.builder)@.nodes.len(),
            final(self).control.layer_id == old(self).control.layer_id,
            final(self).control.layer_depth == old(self).control.layer_depth,
            exists|leaf: LeafNode|
                {
                    &&& leaf.id is None
                    &&& leaf.status is None
                    &&& leaf.leaf_type == crate::control::LeafType::Executor
                    &&& (*final(self).control.builder)@ == #[trigger] (*old(
                        self,
                    ).control.builder)@.add_child(
                        old(self).control.place().0,
                        crate::control::CTreeNodeView::Leaf(leaf),
                        usize::MAX,
                    )
                },
    {
        let executor: H::Execute = executor.into();
        let leaf = LeafNode::from_executor::<H::Bb, H::Execute>(&executor);
        let ghost added = leaf;
        let id = self.control.add(crate::control::CTreeNode::Leaf(leaf));
        assert((*self.control.builder)@ == (*old(self).control.builder)@.add_child(
            old(self).control.place().0,
            crate::control::CTreeNodeView::Leaf(added),
            usize::MAX,
        ));
        self.dispatch.add_executor(id, executor);
        id
    }

    /// Add a conditional node to the tree & dispatch
    pub fn condition<T: Into<H::Condition>>(&mut self, conditional: T) -> (id: CTreeNodeID)
        ensures
            (*final(self).dispatch)@.mask == (*old(self).dispatch)@.mask.insert(
                id.0,
                TaskID::Conditional(
                    crate::executor_mask::ConditionalID(
                        (*old(self).dispatch)@.conditionals.len() as usize,
                    ),
                ),
            ),
            (*final(self).dispatch)@.conditionals.len() == (*old(self).dispatch)@.conditionals.len()
                + 1,
            (*final(self).dispatch)@.conditionals.drop_last()
                == (*old(self).dispatch)@.conditionals,
            (*final(self).dispatch)@.executors == (*old(self).dispatch)@.executors,
            call_ensures(T::into, (conditional,), (*final(self).dispatch)@.conditionals.last()),
            id.0 == (*old(self).control.builder)@.nodes.len(),
            final(self).control.layer_id == old(self).control.layer_id,
            final(self).control.layer_depth == old(self).control.layer_depth,
            exists|leaf: LeafNode|
                {
                    &&& leaf.id is None
                    &&& leaf.status is None
                    &&& leaf.leaf_type == crate::control::LeafType::Conditional
                    &&& (*final(self).control.builder)@ == #[trigger] (*old(
                        self,
                    ).control.builder)@.add_child(
                        old(self).control.place().0,
                        crate::control::CTreeNodeView::Leaf(leaf),
                        usize::MAX,
                    )
                },
    {
        let conditional: H::Condition = conditional.into();
        let leaf = LeafNode::from_conditional::<H::Bb, H::Condition>(&conditional);
        let ghost added = leaf;
        let id = self.control.add(crate::control::CTreeNode::Leaf(leaf));
        assert((*self.control.builder)@ == (*old(self).control.builder)@.add_child(
            old(self).control.place().0,
            crate::control::CTreeNodeView::Leaf(added),
            usize::MAX,
        ));
        self.dispatch.add_conditional(id, conditional);
        id
    }

    /// Add a sequence node, and build its sub-tree
    pub fn sequence<O, F: FnOnce(BTLayer<'_, H, D>) -> O>(&mut self, layer_fn: F) -> (out: O)
        requires
            forall|layer: BTLayer<'_, H, D>|
                #![trigger old(self).enters(
                    ControlNodeView::fresh(ControlNodeTypeView::Sequence(SequenceView::fresh())),
                    layer,
                )]
                old(self).enters(
                    ControlNodeView::fresh(ControlNodeTypeView::Sequence(SequenceView::fresh())),
                    layer,
                ) ==> call_requires(layer_fn, (layer,)),
        ensures
            exists|layer: BTLayer<'_, H, D>| #[trigger]
                old(self).enters(ControlNodeView::fresh(ControlNodeTypeView::Sequence(SequenceView::fresh())), layer) && call_ensures(layer_fn, (layer,), out)
                    && *final(layer.control.builder) == *final(self).control.builder
                    && *final(layer.dispatch) == *final(self).dispatch,
            final(self).control.layer_id == old(self).control.layer_id,
            final(self).control.layer_depth == old(self).control.layer_depth,
    {
        self.enter(ControlNode::sequence(), layer_fn)
    }

    /// Add a sequence node, and build its sub-tree with `deps` at hand
    pub fn sequence_with_deps<Deps, O, F: FnOnce(Deps, BTLayer<'_, H, D>) -> O>(&mut self, deps: Deps, layer_fn: F) -> (out: O)
        requires
            forall|layer: BTLayer<'_, H, D>|
                #![trigger old(self).enters(
                    ControlNodeView::fresh(ControlNodeTypeView::Sequence(SequenceView::fresh())),
                    layer,
                )]
                old(self).enters(
                    ControlNodeView::fresh(ControlNodeTypeView::Sequence(SequenceView::fresh())),
                    layer,
                ) ==> call_requires(layer_fn, (deps, layer)),
        ensures
            exists|layer: BTLayer<'_, H, D>| #[trigger]
                old(self).enters(ControlNodeView::fresh(ControlNodeTypeView::Sequence(SequenceView::fresh())), layer) && call_ensures(layer_fn, (deps, layer), out)
                    && *final(layer.control.builder) == *final(self).control.builder
                    && *final(layer.dispatch) == *final(self).dispatch,
            final(self).control.layer_id == old(self).control.layer_id,
            final(self).control.layer_depth == old(self).control.layer_depth,
    {
        self.enter_with(deps, ControlNode::sequence(), layer_fn)
    }

    /// Add a fallback node, and build its sub-tree
    pub fn fallback<O, F: FnOnce(BTLayer<'_, H, D>) -> O>(&mut self, layer_fn: F) -> (out: O)
        requires
            forall|layer: BTLayer<'_, H, D>|
                #![trigger old(self).enters(
                    ControlNodeView::fresh(ControlNodeTypeView::Fallback(Fallback { status: None })),
                    layer,
                )]
                old(self).enters(
                    ControlNodeView::fresh(ControlNodeTypeView::Fallback(Fallback { status: None })),
                    layer,
                ) ==> call_requires(layer_fn, (layer,)),
        ensures
            exists|layer: BTLayer<'_, H, D>| #[trigger]
                old(self).enters(ControlNodeView::fresh(ControlNodeTypeView::Fallback(Fallback { status: None })), layer) && call_ensures(layer_fn, (layer,), out)
                    && *final(layer.control.builder) == *final(self).control.builder
                    && *final(layer.dispatch) == *final(self).dispatch,
            final(self).control.layer_id == old(self).control.layer_id,
            final(self).control.layer_depth == old(self).control.layer_depth,
    {
        self.enter(ControlNode::fallback(), layer_fn)
    }

    /// Add a fallback node, and build its sub-tree with `deps` at hand
    pub fn fallback_with_deps<Deps, O, F: FnOnce(Deps, BTLayer<'_, H, D>) -> O>(&mut self, deps: Deps, layer_fn: F) -> (out: O)
        requires
            forall|layer: BTLayer<'_, H, D>|
                #![trigger old(self).enters(
                    ControlNodeView::fresh(ControlNodeTypeView::Fallback(Fallback { status: None })),
                    layer,
                )]
                old(self).enters(
                    ControlNodeView::fresh(ControlNodeTypeView::Fallback(Fallback { status: None })),
                    layer,
                ) ==> call_requires(layer_fn, (deps, layer)),
        ensures
            exists|layer: BTLayer<'_, H, D>| #[trigger]
                old(self).enters(ControlNodeView::fresh(ControlNodeTypeView::Fallback(Fallback { status: None })), layer) && call_ensures(layer_fn, (deps, layer), out)
                    && *final(layer.control.builder) == *final(self).control.builder
                    && *final(layer.dispatch) == *final(self).dispatch,
            final(self).control.layer_id == old(self).control.layer_id,
            final(self).control.layer_depth == old(self).control.layer_depth,
    {
        self.enter_with(deps, ControlNode::fallback(), layer_fn)
    }

    /// Add a parallel node, and build its sub-tree
    pub fn parallel<O, F: FnOnce(BTLayer<'_, H, D>) -> O>(&mut self, layer_fn: F) -> (out: O)
        requires
            forall|layer: BTLayer<'_, H, D>|
                #![trigger old(self).enters(
                    ControlNodeView::fresh(ControlNodeTypeView::Parallel(ParallelView::fresh())),
                    layer,
                )]
                old(self).enters(
                    ControlNodeView::fresh(ControlNodeTypeView::Parallel(ParallelView::fresh())),
                    layer,
                ) ==> call_requires(layer_fn, (layer,)),
        ensures
            exists|layer: BTLayer<'_, H, D>| #[trigger]
                old(self).enters(ControlNodeView::fresh(ControlNodeTypeView::Parallel(ParallelView::fresh())), layer) && call_ensures(layer_fn, (layer,), out)
                    && *final(layer.control.builder) == *final(self).control.builder
                    && *final(layer.dispatch) == *final(self).dispatch,
            final(self).control.layer_id == old(self).control.layer_id,
            final(self).control.layer_depth == old(self).control.layer_depth,
    {
        self.enter(ControlNode::parallel(), layer_fn)
    }

    /// Add a parallel node, and build its sub-tree with `deps` at hand
    pub fn parallel_with_deps<Deps, O, F: FnOnce(Deps, BTLayer<'_, H, D>) -> O>(&mut self, deps: Deps, layer_fn: F) -> (out: O)
        requires
            forall|layer: BTLayer<'_, H, D>|
                #![trigger old(self).enters(
                    ControlNodeView::fresh(ControlNodeTypeView::Parallel(ParallelView::fresh())),
                    layer,
                )]
                old(self).enters(
                    ControlNodeView::fresh(ControlNodeTypeView::Parallel(ParallelView::fresh())),
                    layer,
                ) ==> call_requires(layer_fn, (deps, layer)),
        ensures
            exists|layer: BTLayer<'_, H, D>| #[trigger]
                old(self).enters(ControlNodeView::fresh(ControlNodeTypeView::Parallel(ParallelView::fresh())), layer) && call_ensures(layer_fn, (deps, layer), out)
                    && *final(layer.control.builder) == *final(self).control.builder
                    && *final(layer.dispatch) == *final(self).dispatch,
            final(self).control.layer_id == old(self).control.layer_id,
            final(self).control.layer_depth == old(self).control.layer_depth,
    {
        self.enter_with(deps, ControlNode::parallel(), layer_fn)
    }

    /// Add a node of the decorator that `decorator` converts into, and build its
    /// sub-tree
    pub fn decorator<O, T: Into<D>, F: FnOnce(BTLayer<'_, H, D>) -> O>(&mut self, decorator: T, layer_fn: F) -> (out: O)
        requires
            forall|layer: BTLayer<'_, H, D>, payload: D|
                #![trigger old(self).enters(
                    ControlNodeView::fresh(ControlNodeTypeView::Decorator(payload)),
                    layer,
                )]
                old(self).enters(
                    ControlNodeView::fresh(ControlNodeTypeView::Decorator(payload)),
                    layer,
                ) && call_ensures(T::into, (decorator,), payload) ==> call_requires(layer_fn, (layer,)),
        ensures
            exists|layer: BTLayer<'_, H, D>, payload: D| #[trigger]
                old(self).enters(
                    ControlNodeView::fresh(ControlNodeTypeView::Decorator(payload)),
                    layer,
                ) && call_ensures(T::into, (decorator,), payload) && call_ensures(
                    layer_fn,
                    (layer,),
                    out,
                )
                    && *final(layer.control.builder) == *final(self).control.builder
                    && *final(layer.dispatch) == *final(self).dispatch,
            final(self).control.layer_id == old(self).control.layer_id,
            final(self).control.layer_depth == old(self).control.layer_depth,
    {
        let node = ControlNode::decorator(decorator);
        self.enter(node, layer_fn)
    }

    /// Add a node of the decorator that `decorator` converts into, and build its
    /// sub-tree with `deps` at hand
    pub fn decorator_with_deps<Deps, O, T: Into<D>, F: FnOnce(Deps, BTLayer<'_, H, D>) -> O>(&mut self, deps: Deps, decorator: T, layer_fn: F) -> (out: O)
        requires
            forall|layer: BTLayer<'_, H, D>, payload: D|
                #![trigger old(self).enters(
                    ControlNodeView::fresh(ControlNodeTypeView::Decorator(payload)),
                    layer,
                )]
                old(self).enters(
                    ControlNodeView::fresh(ControlNodeTypeView::Decorator(payload)),
                    layer,
                ) && call_ensures(T::into, (decorator,), payload) ==> call_requires(layer_fn, (deps, layer)),
        ensures
            exists|layer: BTLayer<'_, H, D>, payload: D| #[trigger]
                old(self).enters(
                    ControlNodeView::fresh(ControlNodeTypeView::Decorator(payload)),
                    layer,
                ) && call_ensures(T::into, (decorator,), payload) && call_ensures(
                    layer_fn,
                    (deps, layer),
                    out,
                )
                    && *final(layer.control.builder) == *final(self).control.builder
                    && *final(layer.dispatch) == *final(self).dispatch,
            final(self).control.layer_id == old(self).control.layer_id,
            final(self).control.layer_depth == old(self).control.layer_depth,
    {
        let node = ControlNode::decorator(decorator);
        self.enter_with(deps, node, layer_fn)
    }

    /// `layer_fn` provides a [`BTLayer`] for defining the subtree beneath the added `node`
    pub fn control_node<O, T: Into<ControlNode<D>>, F: FnOnce(BTLayer<'_, H, D>) -> O>(
        &mut self,
        node: T,
        layer_fn: F,
    ) -> (out: O)
        requires
            forall|layer: BTLayer<'_, H, D>, control: ControlNode<D>|
                #![trigger old(self).enters(control@, layer)]
                old(self).enters(control@, layer) && call_ensures(T::into, (node,), control) ==> call_requires(layer_fn, (layer,)),
        ensures
            exists|layer: BTLayer<'_, H, D>, control: ControlNode<D>| #[trigger]
                old(self).enters(control@, layer) && call_ensures(T::into, (node,), control)
                    && call_ensures(layer_fn, (layer,), out)
                    && *final(layer.control.builder) == *final(self).control.builder
                    && *final(layer.dispatch) == *final(self).dispatch,
            final(self).control.layer_id == old(self).control.layer_id,
            final(self).control.layer_depth == old(self).control.layer_depth,
    {
        let control: ControlNode<D> = node.into();
        self.enter(control, layer_fn)
    }

    /// `layer_fn` provides a [`BTLayer`] for defining the subtree beneath the added
    /// `node`, with `deps` at hand
    pub fn control_node_with_deps<
        Deps,
        O,
        T: Into<ControlNode<D>>,
        F: FnOnce(Deps, BTLayer<'_, H, D>) -> O,
    >(&mut self, deps: Deps, node: T, layer_fn: F) -> (out: O)
        requires
            forall|layer: BTLayer<'_, H, D>, control: ControlNode<D>|
                #![trigger old(self).enters(control@, layer)]
                old(self).enters(control@, layer) && call_ensures(T::into, (node,), control) ==> call_requires(layer_fn, (deps, layer)),
        ensures
            exists|layer: BTLayer<'_, H, D>, control: ControlNode<D>| #[trigger]
                old(self).enters(control@, layer) && call_ensures(T::into, (node,), control)
                    && call_ensures(
                    layer_fn,
                    (deps, layer),
                    out,
                )
                    && *final(layer.control.builder) == *final(self).control.builder
                    && *final(layer.dispatch) == *final(self).dispatch,
            final(self).control.layer_id == old(self).control.layer_id,
            final(self).control.layer_depth == old(self).control.layer_depth,
    {
        let control: ControlNode<D> = node.into();
        self.enter_with(deps, control, layer_fn)
    }

    /// Adds `node`, and hands the layer below it to `layer_fn`.
    fn enter<O, F: FnOnce(BTLayer<'_, H, D>) -> O>(&mut self, node: ControlNode<D>, layer_fn: F) -> (out:
        O)
        requires
            forall|layer: BTLayer<'_, H, D>|
                #![trigger old(self).enters(node@, layer)]
                old(self).enters(node@, layer) ==> call_requires(layer_fn, (layer,)),
        ensures
            exists|layer: BTLayer<'_, H, D>| #[trigger]
                old(self).enters(node@, layer) && call_ensures(layer_fn, (layer,), out)
                    && *final(layer.control.builder) == *final(self).control.builder
                    && *final(layer.dispatch) == *final(self).dispatch,
            final(self).control.layer_id == old(self).control.layer_id,
            final(self).control.layer_depth == old(self).control.layer_depth,
    {
        let next_layer = self.control.descend(node);
        let layer = BTLayer { control: next_layer, dispatch: &mut *self.dispatch };
        assert(old(self).enters(node@, layer));
        layer_fn(layer)
    }

    /// Adds `node`, and hands `deps` and the layer below it to `layer_fn`.
    fn enter_with<Deps, O, F: FnOnce(Deps, BTLayer<'_, H, D>) -> O>(
        &mut self,
        deps: Deps,
        node: ControlNode<D>,
        layer_fn: F,
    ) -> (out: O)
        requires
            forall|layer: BTLayer<'_, H, D>|
                #![trigger old(self).enters(node@, layer)]
                old(self).enters(node@, layer) ==> call_requires(layer_fn, (deps, layer)),
        ensures
            exists|layer: BTLayer<'_, H, D>| #[trigger]
                old(self).enters(node@, layer) && call_ensures(layer_fn, (deps, layer), out)
                    && *final(layer.control.builder) == *final(self).control.builder
                    && *final(layer.dispatch) == *final(self).dispatch,
            final(self).control.layer_id == old(self).control.layer_id,
            final(self).control.layer_depth == old(self).control.layer_depth,
    {
        let next_layer = self.control.descend(node);
        let layer = BTLayer { control: next_layer, dispatch: &mut *self.dispatch };
        assert(old(self).enters(node@, layer));
        layer_fn(deps, layer)
    }
}

impl<'a, H: ActionHandler, D: Decorator + From<StandardDecorator>> BTLayer<'a, H, D> {
    /// Add a repeater of `retries` retries, and build its sub-tree
    pub fn repeater<O, F: FnOnce(BTLayer<'_, H, D>) -> O>(&mut self, retries: usize, layer_fn: F) -> (out: O)
        requires
            retries < usize::MAX,
            forall|layer: BTLayer<'_, H, D>, payload: D|
                #![trigger old(self).enters(
                    ControlNodeView::fresh(ControlNodeTypeView::Decorator(payload)),
                    layer,
                )]
                old(self).enters(
                    ControlNodeView::fresh(ControlNodeTypeView::Decorator(payload)),
                    layer,
                ) && call_ensures(
                    <StandardDecorator as Into<D>>::into,
                    (StandardDecorator::Repeat(Repeater::fresh((retries + 1) as usize)),),
                    payload,
                ) ==> call_requires(layer_fn, (layer,)),
        ensures
            exists|layer: BTLayer<'_, H, D>, payload: D| #[trigger]
                old(self).enters(
                    ControlNodeView::fresh(ControlNodeTypeView::Decorator(payload)),
                    layer,
                ) && call_ensures(<StandardDecorator as Into<D>>::into, (StandardDecorator::Repeat(Repeater::fresh((retries + 1) as usize)),), payload) && call_ensures(
                    layer_fn,
                    (layer,),
                    out,
                )
                    && *final(layer.control.builder) == *final(self).control.builder
                    && *final(layer.dispatch) == *final(self).dispatch,
            final(self).control.layer_id == old(self).control.layer_id,
            final(self).control.layer_depth == old(self).control.layer_depth,
    {
        let node = ControlNode::decorator(StandardDecorator::repeater(retries));
        self.enter(node, layer_fn)
    }

    /// Add a repeater of `retries` retries, and build its sub-tree with `deps` at
    /// hand
    pub fn repeater_with_deps<Deps, O, F: FnOnce(Deps, BTLayer<'_, H, D>) -> O>(&mut self, deps: Deps, retries: usize, layer_fn: F) -> (out: O)
        requires
            retries < usize::MAX,
            forall|layer: BTLayer<'_, H, D>, payload: D|
                #![trigger old(self).enters(
                    ControlNodeView::fresh(ControlNodeTypeView::Decorator(payload)),
                    layer,
                )]
                old(self).enters(
                    ControlNodeView::fresh(ControlNodeTypeView::Decorator(payload)),
                    layer,
                ) && call_ensures(
                    <StandardDecorator as Into<D>>::into,
                    (StandardDecorator::Repeat(Repeater::fresh((retries + 1) as usize)),),
                    payload,
                ) ==> call_requires(layer_fn, (deps, layer)),
        ensures
            exists|layer: BTLayer<'_, H, D>, payload: D| #[trigger]
                old(self).enters(
                    ControlNodeView::fresh(ControlNodeTypeView::Decorator(payload)),
                    layer,
                ) && call_ensures(<StandardDecorator as Into<D>>::into, (StandardDecorator::Repeat(Repeater::fresh((retries + 1) as usize)),), payload) && call_ensures(
                    layer_fn,
                    (deps, layer),
                    out,
                )
                    && *final(layer.control.builder) == *final(self).control.builder
                    && *final(layer.dispatch) == *final(self).dispatch,
            final(self).control.layer_id == old(self).control.layer_id,
            final(self).control.layer_depth == old(self).control.layer_depth,
    {
        let node = ControlNode::decorator(StandardDecorator::repeater(retries));
        self.enter_with(deps, node, layer_fn)
    }

    /// Add an inverter, and build its sub-tree
    pub fn inverter<O, F: FnOnce(BTLayer<'_, H, D>) -> O>(&mut self, layer_fn: F) -> (out: O)
        requires
            forall|layer: BTLayer<'_, H, D>, payload: D|
                #![trigger old(self).enters(
                    ControlNodeView::fresh(ControlNodeTypeView::Decorator(payload)),
                    layer,
                )]
                old(self).enters(
                    ControlNodeView::fresh(ControlNodeTypeView::Decorator(payload)),
                    layer,
                ) && call_ensures(
                    <StandardDecorator as Into<D>>::into,
                    (StandardDecorator::Invert(Inverter { child_status: None }),),
                    payload,
                ) ==> call_requires(layer_fn, (layer,)),
        ensures
            exists|layer: BTLayer<'_, H, D>, payload: D| #[trigger]
                old(self).enters(
                    ControlNodeView::fresh(ControlNodeTypeView::Decorator(payload)),
                    layer,
                ) && call_ensures(<StandardDecorator as Into<D>>::into, (StandardDecorator::Invert(Inverter { child_status: None }),), payload) && call_ensures(
                    layer_fn,
                    (layer,),
                    out,
                )
                    && *final(layer.control.builder) == *final(self).control.builder
                    && *final(layer.dispatch) == *final(self).dispatch,
            final(self).control.layer_id == old(self).control.layer_id,
            final(self).control.layer_depth == old(self).control.layer_depth,
    {
        let node = ControlNode::decorator(StandardDecorator::inverter());
        self.enter(node, layer_fn)
    }

    /// Add an inverter, and build its sub-tree with `deps` at hand
    pub fn inverter_with_deps<Deps, O, F: FnOnce(Deps, BTLayer<'_, H, D>) -> O>(&mut self, deps: Deps, layer_fn: F) -> (out: O)
        requires
            forall|layer: BTLayer<'_, H, D>, payload: D|
                #![trigger old(self).enters(
                    ControlNodeView::fresh(ControlNodeTypeView::Decorator(payload)),
                    layer,
                )]
                old(self).enters(
                    ControlNodeView::fresh(ControlNodeTypeView::Decorator(payload)),
                    layer,
                ) && call_ensures(
                    <StandardDecorator as Into<D>>::into,
                    (StandardDecorator::Invert(Inverter { child_status: None }),),
                    payload,
                ) ==> call_requires(layer_fn, (deps, layer)),
        ensures
            exists|layer: BTLayer<'_, H, D>, payload: D| #[trigger]
                old(self).enters(
                    ControlNodeView::fresh(ControlNodeTypeView::Decorator(payload)),
                    layer,
                ) && call_ensures(<StandardDecorator as Into<D>>::into, (StandardDecorator::Invert(Inverter { child_status: None }),), payload) && call_ensures(
                    layer_fn,
                    (deps, layer),
                    out,
                )
                    && *final(layer.control.builder) == *final(self).control.builder
                    && *final(layer.dispatch) == *final(self).dispatch,
            final(self).control.layer_id == old(self).control.layer_id,
            final(self).control.layer_depth == old(self).control.layer_depth,
    {
        let node = ControlNode::decorator(StandardDecorator::inverter());
        self.enter_with(deps, node, layer_fn)
    }

    /// Add a subtree marker, and build its sub-tree
    pub fn subtree<O, F: FnOnce(BTLayer<'_, H, D>) -> O>(&mut self, layer_fn: F) -> (out: O)
        requires
            forall|layer: BTLayer<'_, H, D>, payload: D|
                #![trigger old(self).enters(
                    ControlNodeView::fresh(ControlNodeTypeView::Decorator(payload)),
                    layer,
                )]
                old(self).enters(
                    ControlNodeView::fresh(ControlNodeTypeView::Decorator(payload)),
                    layer,
                ) && call_ensures(
                    <StandardDecorator as Into<D>>::into,
                    (StandardDecorator::Subtree(Subtree { status: None, name: None }),),
                    payload,
                ) ==> call_requires(layer_fn, (layer,)),
        ensures
            exists|layer: BTLayer<'_, H, D>, payload: D| #[trigger]
                old(self).enters(
                    ControlNodeView::fresh(ControlNodeTypeView::Decorator(payload)),
                    layer,
                ) && call_ensures(<StandardDecorator as Into<D>>::into, (StandardDecorator::Subtree(Subtree { status: None, name: None }),), payload) && call_ensures(
                    layer_fn,
                    (layer,),
                    out,
                )
                    && *final(layer.control.builder) == *final(self).control.builder
                    && *final(layer.dispatch) == *final(self).dispatch,
            final(self).control.layer_id == old(self).control.layer_id,
            final(self).control.layer_depth == old(self).control.layer_depth,
    {
        let node = ControlNode::decorator(StandardDecorator::subtree());
        self.enter(node, layer_fn)
    }

    /// Add a subtree marker, and build its sub-tree with `deps` at hand
    pub fn subtree_with_deps<Deps, O, F: FnOnce(Deps, BTLayer<'_, H, D>) -> O>(&mut self, deps: Deps, layer_fn: F) -> (out: O)
        requires
            forall|layer: BTLayer<'_, H, D>, payload: D|
                #![trigger old(self).enters(
                    ControlNodeView::fresh(ControlNodeTypeView::Decorator(payload)),
                    layer,
                )]
                old(self).enters(
                    ControlNodeView::fresh(ControlNodeTypeView::Decorator(payload)),
                    layer,
                ) && call_ensures(
                    <StandardDecorator as Into<D>>::into,
                    (StandardDecorator::Subtree(Subtree { status: None, name: None }),),
                    payload,
                ) ==> call_requires(layer_fn, (deps, layer)),
        ensures
            exists|layer: BTLayer<'_, H, D>, payload: D| #[trigger]
                old(self).enters(
                    ControlNodeView::fresh(ControlNodeTypeView::Decorator(payload)),
                    layer,
                ) && call_ensures(<StandardDecorator as Into<D>>::into, (StandardDecorator::Subtree(Subtree { status: None, name: None }),), payload) && call_ensures(
                    layer_fn,
                    (deps, layer),
                    out,
                )
                    && *final(layer.control.builder) == *final(self).control.builder
                    && *final(layer.dispatch) == *final(self).dispatch,
            final(self).control.layer_id == old(self).control.layer_id,
            final(self).control.layer_depth == old(self).control.layer_depth,
    {
        let node = ControlNode::decorator(StandardDecorator::subtree());
        self.enter_with(deps, node, layer_fn)
    }
}

} // verus!
