//! The rules that make a structure a behavior tree, and the checks for them.

use super::{CTreeNode, CTreeNodeID, CTreeNodeView, ControlTree, TreeView};
use crate::hashed::{map_get, map_keys};
use crate::traits::Decorator;
use crate::{ShrubberyError, ShrubberyResult};
use vstd::prelude::*;

verus! {

impl<D: Decorator> TreeView<D> {
    /// Each node of `walk` is a child of the one before it.
    pub open spec fn is_walk(self, walk: Seq<CTreeNodeID>) -> bool {
        &&& walk.len() > 0
        &&& forall|i: int|
            0 <= i < walk.len() - 1 ==> self.is_edge((#[trigger] walk[i]).0, walk[i + 1].0)
    }

    /// `cycle` leads from a node down to itself, through no node twice.
    pub open spec fn is_cycle(self, cycle: Seq<CTreeNodeID>) -> bool {
        &&& cycle.len() >= 2
        &&& self.is_walk(cycle)
        &&& cycle.first() == cycle.last()
        &&& cycle.drop_last().no_duplicates()
    }

    /// No node is its own descendant.
    pub open spec fn acyclic(self) -> bool {
        forall|cycle: Seq<CTreeNodeID>| !self.is_cycle(cycle)
    }

    /// The node at `i` is a decorator that is in the tree with no child or
    /// with more than one.
    pub open spec fn bad_decorator(self, i: int) -> bool {
        &&& 0 <= i < self.nodes.len()
        &&& self.nodes[i] matches CTreeNodeView::Control(control)
        &&& control.node_type is Decorator
        &&& self.tree.contains_key(i as usize)
        &&& self.tree[i as usize].len() != 1
    }

    /// The node at `i` is a control node that is in the tree without a
    /// child.
    pub open spec fn dangling(self, i: int) -> bool {
        &&& 0 <= i < self.nodes.len()
        &&& self.nodes[i] is Control
        &&& self.tree.contains_key(i as usize)
        &&& self.tree[i as usize].len() == 0
    }

    /// The structure is a behavior tree: no node is its own descendant,
    /// every decorator has exactly one child, and every control node has a
    /// child.
    pub open spec fn valid(self) -> bool {
        &&& self.acyclic()
        &&& forall|i: int| !self.bad_decorator(i)
        &&& forall|i: int| !self.dangling(i)
    }
}

/// Ids that differ from each other and stay below a bound are no more than
/// the bound.
pub proof fn lemma_distinct_bounded(ids: Seq<CTreeNodeID>, bound: nat)
    requires
        ids.no_duplicates(),
        bound <= usize::MAX,
        forall|i: int| 0 <= i < ids.len() ==> (#[trigger] ids[i]).0 < bound,
    ensures
        ids.len() <= bound,
    decreases bound,
{
    if ids.len() > 0 {
        if bound == 0 {
            assert(ids[0].0 < bound);
        } else {
            let top = CTreeNodeID((bound - 1) as usize);
            if ids.contains(top) {
                let k = ids.index_of(top);
                let rest = ids.remove(k);
                assert forall|i: int| 0 <= i < rest.len() implies (#[trigger] rest[i]).0 < bound
                    - 1 by {
                    if i < k {
                        assert(rest[i] == ids[i]);
                    } else {
                        assert(rest[i] == ids[i + 1]);
                    }
                }
                assert forall|i: int, j: int|
                    0 <= i < rest.len() && 0 <= j < rest.len() && i != j implies rest[i]
                    != rest[j] by {
                    let a = if i < k {
                        i
                    } else {
                        i + 1
                    };
                    let b = if j < k {
                        j
                    } else {
                        j + 1
                    };
                    assert(rest[i] == ids[a] && rest[j] == ids[b]);
                }
                lemma_distinct_bounded(rest, (bound - 1) as nat);
            } else {
                assert forall|i: int| 0 <= i < ids.len() implies (#[trigger] ids[i]).0 < bound
                    - 1 by {
                    assert(ids.contains(ids[i]));
                }
                lemma_distinct_bounded(ids, (bound - 1) as nat);
            }
        }
    }
}

impl<D: Decorator> ControlTree<D> {
    /// Whether `id` names a node of the arena that has an entry for its
    /// children.
    pub fn has_node(&self, id: CTreeNodeID) -> (out: bool)
        ensures
            out == self@.has_node(id),
    {
        id.0 < self.nodes.len() && map_get(&self.tree, id.0).is_some()
    }

    /// Whether the arena starts with the root, children are listed for
    /// nodes of the arena only, and every child that is listed is a node of
    /// the tree. The functions that run or edit a tree ask for this.
    pub fn well_formed(&self) -> (out: bool)
        ensures
            out == self@.wf(),
    {
        if self.nodes.len() == 0 || !self.nodes[0].is_root() || map_get(
            &self.tree,
            super::ROOT_ID,
        ).is_none() {
            return false;
        }
        let keys = map_keys(&self.tree);
        let mut k: usize = 0;
        while k < keys.len()
            invariant
                k <= keys.len(),
                forall|key: usize| keys@.contains(key) <==> self@.tree.contains_key(key),
                forall|j: int|
                    0 <= j < k ==> {
                        &&& (#[trigger] keys[j]) < self@.nodes.len()
                        &&& forall|i: int|
                            0 <= i < self@.tree[keys[j]].len() ==> self@.has_node(
                                #[trigger] self@.tree[keys[j]][i],
                            )
                    },
            decreases keys.len() - k,
        {
            let key = keys[k];
            assert(keys@.contains(key));
            if key >= self.nodes.len() {
                return false;
            }
            let children = self.children(&CTreeNodeID(key));
            let mut i: usize = 0;
            while i < children.len()
                invariant
                    i <= children.len(),
                    self@.tree.contains_key(key),
                    children@ == self@.tree[key],
                    forall|j: int| 0 <= j < i ==> self@.has_node(#[trigger] children@[j]),
                decreases children.len() - i,
            {
                if !self.has_node(children[i]) {
                    assert(!self@.has_node(self@.tree[key][i as int]));
                    return false;
                }
                i += 1;
            }
            k += 1;
        }
        proof {
            assert forall|parent: usize| #[trigger] self@.tree.contains_key(parent) implies parent
                < self@.nodes.len() by {
                assert(keys@.contains(parent));
                let j = keys@.index_of(parent);
                assert(keys[j] < self@.nodes.len());
            }
            assert forall|parent: usize, i: int|
                self@.tree.contains_key(parent) && 0 <= i < self@.tree[parent].len()
                    implies self@.has_node(#[trigger] self@.tree[parent][i]) by {
                assert(keys@.contains(parent));
                let j = keys@.index_of(parent);
                assert(keys[j] == parent);
            }
        }
        true
    }

    /// Validate the tree for the following conditions, error if any are violated.
    ///
    /// - No cycles
    /// - Decorators have exactly one child
    /// - No dangling control nodes
    pub fn validate_bt_rules(&self) -> (result: ShrubberyResult<()>)
        requires
            self@.wf(),
        ensures
            result is Ok <==> self@.valid(),
            match result {
                Ok(_) => true,
                Err(ShrubberyError::CycleDetected(cycle)) => self@.is_cycle(cycle@),
                Err(ShrubberyError::InvalidDecorator { decorator, children }) => {
                    &&& self@.acyclic()
                    &&& self@.bad_decorator(decorator.0 as int)
                    &&& forall|i: int| 0 <= i < decorator.0 ==> !self@.bad_decorator(i)
                    &&& children@ == self@.tree[decorator.0]
                },
                Err(ShrubberyError::DanglingControlNode(id)) => {
                    &&& self@.acyclic()
                    &&& forall|i: int| !self@.bad_decorator(i)
                    &&& self@.dangling(id.0 as int)
                    &&& forall|i: int| 0 <= i < id.0 ==> !self@.dangling(i)
                },
            },
    {
        match self.check_for_cycles() {
            Err(e) => {
                return Err(e);
            },
            Ok(_) => {},
        }
        match self.validate_decorators() {
            Err(e) => {
                return Err(e);
            },
            Ok(_) => {},
        }
        match self.check_for_dangling_control() {
            Err(e) => {
                return Err(e);
            },
            Ok(_) => {},
        }
        Ok(())
    }

    /// Look for cycles in the tree, returns an error if any exist.
    pub fn check_for_cycles(&self) -> (result: ShrubberyResult<()>)
        requires
            self@.wf(),
        ensures
            match result {
                Ok(_) => self@.acyclic(),
                Err(ShrubberyError::CycleDetected(cycle)) => self@.is_cycle(cycle@),
                Err(_) => false,
            },
    {
        let keys = map_keys(&self.tree);
        let mut k: usize = 0;
        while k < keys.len()
            invariant
                self@.wf(),
                k <= keys.len(),
                forall|key: usize| keys@.contains(key) <==> self@.tree.contains_key(key),
                forall|j: int, way: Seq<CTreeNodeID>|
                    0 <= j < k ==> !(#[trigger] self@.is_cycle(
                        seq![CTreeNodeID(keys[j])] + way,
                    )),
            decreases keys.len() - k,
        {
            let parent = CTreeNodeID(keys[k]);
            assert(keys@.contains(parent.0));
            let children = self.children(&parent);
            let mut i: usize = 0;
            while i < children.len()
                invariant
                    self@.wf(),
                    i <= children.len(),
                    self@.tree.contains_key(parent.0),
                    children@ == self@.tree[parent.0],
                    forall|way: Seq<CTreeNodeID>|
                        way.len() > 0 && children@.take(i as int).contains(way[0])
                            ==> !(#[trigger] self@.is_cycle(seq![parent] + way)),
                decreases children.len() - i,
            {
                let child = children[i];
                let mut history: Vec<CTreeNodeID> = Vec::new();
                history.push(parent);
                proof {
                    assert(self@.has_node(self@.tree[parent.0][i as int]));
                    assert(self@.tree[parent.0].contains(CTreeNodeID(child.0)));
                    assert(history@ =~= seq![parent]);
                }
                match self.recurse_children_check_cycles(child, &mut history) {
                    Err(e) => {
                        return Err(e);
                    },
                    Ok(_) => {},
                }
                proof {
                    assert forall|way: Seq<CTreeNodeID>|
                        way.len() > 0 && children@.take(i + 1).contains(way[0]) implies !(
                    #[trigger] self@.is_cycle(seq![parent] + way)) by {
                        let j = children@.take(i + 1).index_of(way[0]);
                        if j < i {
                            assert(children@.take(i as int)[j] == way[0]);
                        }
                    }
                }
                i += 1;
            }
            proof {
                assert forall|way: Seq<CTreeNodeID>|
                    !(#[trigger] self@.is_cycle(seq![parent] + way)) by {
                    let cycle = seq![parent] + way;
                    if self@.is_cycle(cycle) {
                        assert(cycle[0] == parent);
                        assert(cycle[1] == way[0]);
                        assert(self@.is_edge(cycle[0].0, cycle[0int + 1].0));
                        let j = self@.tree[parent.0].index_of(CTreeNodeID(way[0].0));
                        assert(children@.take(children.len() as int)[j] == way[0]);
                    }
                }
            }
            k += 1;
        }
        proof {
            assert forall|cycle: Seq<CTreeNodeID>| !self@.is_cycle(cycle) by {
                if self@.is_cycle(cycle) {
                    assert(self@.is_edge(cycle[0].0, cycle[0int + 1].0));
                    assert(keys@.contains(cycle[0].0));
                    let j = keys@.index_of(cycle[0].0);
                    assert(seq![CTreeNodeID(keys[j])] + cycle.skip(1) =~= cycle);
                }
            }
        }
        Ok(())
    }

    /// Decorators are only allowed to have a single child
    pub fn validate_decorators(&self) -> (result: ShrubberyResult<()>)
        requires
            self@.wf(),
        ensures
            match result {
                Ok(_) => forall|i: int| !self@.bad_decorator(i),
                Err(ShrubberyError::InvalidDecorator { decorator, children }) => {
                    &&& self@.bad_decorator(decorator.0 as int)
                    &&& forall|i: int| 0 <= i < decorator.0 ==> !self@.bad_decorator(i)
                    &&& children@ == self@.tree[decorator.0]
                },
                Err(_) => false,
            },
    {
        let mut i: usize = 0;
        while i < self.nodes.len()
            invariant
                i <= self.nodes.len(),
                forall|j: int| 0 <= j < i ==> !self@.bad_decorator(j),
            decreases self.nodes.len() - i,
        {
            if let CTreeNode::Control(control) = &self.nodes[i] {
                if control.is_decorator() {
                    if let Some(children) = map_get(&self.tree, i) {
                        if children.len() != 1 {
                            return Err(
                                ShrubberyError::InvalidDecorator {
                                    decorator: CTreeNodeID(i),
                                    children: children.clone(),
                                },
                            );
                        }
                    }
                }
            }
            i += 1;
        }
        Ok(())
    }

    /// Control nodes are by definition not leaf nodes so must have at least one child.
    pub fn check_for_dangling_control(&self) -> (result: ShrubberyResult<()>)
        requires
            self@.wf(),
        ensures
            match result {
                Ok(_) => forall|i: int| !self@.dangling(i),
                Err(ShrubberyError::DanglingControlNode(id)) => {
                    &&& self@.dangling(id.0 as int)
                    &&& forall|i: int| 0 <= i < id.0 ==> !self@.dangling(i)
                },
                Err(_) => false,
            },
    {
        let mut i: usize = 0;
        while i < self.nodes.len()
            invariant
                i <= self.nodes.len(),
                forall|j: int| 0 <= j < i ==> !self@.dangling(j),
            decreases self.nodes.len() - i,
        {
            if self.nodes[i].is_control() {
                if let Some(children) = map_get(&self.tree, i) {
                    if children.len() == 0 {
                        return Err(ShrubberyError::DanglingControlNode(CTreeNodeID(i)));
                    }
                }
            }
            i += 1;
        }
        Ok(())
    }

    /// Looks for a way from `from` down to the first node of `history`, or
    /// down to `from` itself where `history` is empty. The ways that are
    /// tried go through no node twice.
    pub(crate) fn recurse_children_check_cycles(
        &self,
        from: CTreeNodeID,
        history: &mut Vec<CTreeNodeID>,
    ) -> (result: ShrubberyResult<()>)
        requires
            self@.wf(),
            self@.has_node(from),
            old(history)@.no_duplicates(),
            old(history)@.len() > 0 ==> self@.is_walk(old(history)@.push(from)),
            forall|i: int| 0 <= i < old(history)@.len() ==> self@.has_node(#[trigger] old(history)@[i]),
        ensures
            match result {
                Ok(_) => {
                    &&& final(history)@ == old(history)@
                    &&& forall|way: Seq<CTreeNodeID>|
                        way.len() > 0 && way[0] == from ==> !(#[trigger] self@.is_cycle(
                            old(history)@ + way,
                        ))
                },
                Err(ShrubberyError::CycleDetected(cycle)) => {
                    &&& self@.is_cycle(cycle@)
                    &&& old(history)@.is_prefix_of(cycle@)
                    &&& cycle@.len() > old(history)@.len()
                    &&& cycle@[old(history)@.len() as int] == from
                },
                Err(_) => false,
            },
        decreases self.nodes.len() - old(history).len(),
    {
        let ghost before = history@;
        if history.len() > 0 && history[0].0 == from.0 {
            history.push(from);
            proof {
                assert(history@.drop_last() =~= before);
            }
            return Err(ShrubberyError::CycleDetected(history.clone()));
        }
        let mut on_the_way = false;
        let mut h: usize = 0;
        while h < history.len()
            invariant
                h <= history.len(),
                history@ == before,
                on_the_way == exists|j: int| 0 <= j < h && history[j] == from,
            decreases history.len() - h,
        {
            if history[h].0 == from.0 {
                on_the_way = true;
            }
            h += 1;
        }
        if on_the_way {
            proof {
                let at = choose|j: int| 0 <= j < before.len() && before[j] == from;
                assert forall|way: Seq<CTreeNodeID>|
                    way.len() > 0 && way[0] == from implies !(#[trigger] self@.is_cycle(
                    before + way,
                )) by {
                    let cycle = before + way;
                    if self@.is_cycle(cycle) {
                        if way.len() == 1 {
                            assert(cycle.last() == from);
                            assert(cycle.first() == before[0]);
                        } else {
                            assert(cycle.drop_last()[at] == from);
                            assert(cycle.drop_last()[before.len() as int] == from);
                        }
                    }
                }
            }
            return Ok(());
        }
        proof {
            assert forall|i: int| 0 <= i < before.push(from).len() implies (#[trigger] before.push(
                from,
            )[i]).0 < self@.nodes.len() by {
                if i < before.len() {
                    assert(self@.has_node(before[i]));
                }
            }
            lemma_distinct_bounded(before.push(from), self@.nodes.len());
        }
        history.push(from);
        let children = self.children(&from);
        let mut i: usize = 0;
        while i < children.len()
            invariant
                self@.wf(),
                self@.has_node(from),
                i <= children.len(),
                children@ == self@.tree[from.0],
                before == old(history)@,
                history@ == before.push(from),
                history@.no_duplicates(),
                history@.len() <= self.nodes.len(),
                before.len() > 0 ==> self@.is_walk(before.push(from)),
                forall|j: int| 0 <= j < history@.len() ==> self@.has_node(#[trigger] history@[j]),
                forall|way: Seq<CTreeNodeID>|
                    way.len() > 0 && children@.take(i as int).contains(way[0])
                        ==> !(#[trigger] self@.is_cycle(before.push(from) + way)),
            decreases children.len() - i,
        {
            let child = children[i];
            proof {
                assert(self@.has_node(self@.tree[from.0][i as int]));
                assert(self@.tree[from.0].contains(CTreeNodeID(child.0)));
                let longer = history@.push(child);
                assert forall|j: int| 0 <= j < longer.len() - 1 implies self@.is_edge(
                    (#[trigger] longer[j]).0,
                    longer[j + 1].0,
                ) by {
                    if j < before.len() - 1 {
                        assert(self@.is_edge(before.push(from)[j].0, before.push(from)[j + 1].0));
                    } else if j == before.len() - 1 {
                        assert(self@.is_edge(before.push(from)[j].0, before.push(from)[j + 1].0));
                    }
                }
            }
            match self.recurse_children_check_cycles(child, history) {
                Err(e) => {
                    proof {
                        let cycle = e->CycleDetected_0;
                        let pushed = before.push(from);
                        assert(pushed =~= cycle@.subrange(0, pushed.len() as int));
                        assert forall|j: int| 0 <= j < pushed.len() implies cycle@[j]
                            == #[trigger] pushed[j] by {
                            assert(cycle@.subrange(0, pushed.len() as int)[j] == pushed[j]);
                        }
                        assert(before =~= cycle@.subrange(0, before.len() as int));
                        assert(cycle@[before.len() as int] == pushed[before.len() as int]);
                    }
                    return Err(e);
                },
                Ok(_) => {},
            }
            proof {
                assert forall|way: Seq<CTreeNodeID>|
                    way.len() > 0 && children@.take(i + 1).contains(way[0]) implies !(
                #[trigger] self@.is_cycle(before.push(from) + way)) by {
                    let j = children@.take(i + 1).index_of(way[0]);
                    if j < i {
                        assert(children@.take(i as int)[j] == way[0]);
                    }
                }
            }
            i += 1;
        }
        history.pop();
        proof {
            assert(history@ =~= before);
            assert forall|way: Seq<CTreeNodeID>|
                way.len() > 0 && way[0] == from implies !(#[trigger] self@.is_cycle(
                before + way,
            )) by {
                let cycle = before + way;
                if self@.is_cycle(cycle) {
                    if way.len() == 1 {
                        assert(cycle.last() == from);
                        assert(cycle.first() == before[0]);
                    } else {
                        let at = before.len() as int;
                        assert(cycle[at] == from && cycle[at + 1] == way[1]);
                        assert(self@.is_edge(cycle[at].0, cycle[at + 1].0));
                        let j = self@.tree[from.0].index_of(CTreeNodeID(way[1].0));
                        assert(children@.take(children.len() as int)[j] == way[1]);
                        assert(before.push(from) + way.skip(1) =~= cycle);
                    }
                }
            }
        }
        Ok(())
    }
}

} // verus!
