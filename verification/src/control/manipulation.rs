//! Structural edits of a tree: adding, removing and moving nodes.

use super::{CTreeNode, CTreeNodeID, CTreeNodeView, ControlTree, TreeView};
use crate::hashed::{map_get, map_insert, map_keys, map_remove};
use crate::traits::Decorator;
use crate::{ShrubberyError, ShrubberyResult};
use vstd::prelude::*;

verus! {

/// The ids of all nodes but `id`.
pub open spec fn is_other(id: usize) -> spec_fn(CTreeNodeID) -> bool {
    |child: CTreeNodeID| child.0 != id
}

/// The ids that are not among `move_down`.
pub open spec fn stays(move_down: Seq<CTreeNodeID>) -> spec_fn(CTreeNodeID) -> bool {
    |child: CTreeNodeID| !move_down.contains(child)
}

/// The place of the first of `children` that is among `move_down`; the
/// number of children where none is.
pub open spec fn first_moved(children: Seq<CTreeNodeID>, move_down: Seq<CTreeNodeID>) -> int
    decreases children.len(),
{
    if children.len() == 0 || move_down.contains(children[0]) {
        0
    } else {
        1 + first_moved(children.skip(1), move_down)
    }
}

/// Where no child before `at` is among `move_down`, and the one at `at` is
/// or there is none, `at` is the place of the first that is.
pub proof fn lemma_first_moved(children: Seq<CTreeNodeID>, move_down: Seq<CTreeNodeID>, at: int)
    requires
        0 <= at <= children.len(),
        forall|j: int| 0 <= j < at ==> !move_down.contains(#[trigger] children[j]),
        at < children.len() ==> move_down.contains(children[at]),
    ensures
        first_moved(children, move_down) == at,
    decreases children.len(),
{
    if at > 0 {
        assert(!move_down.contains(children[0]));
        let rest = children.skip(1);
        assert forall|j: int| 0 <= j < at - 1 implies !move_down.contains(#[trigger] rest[j]) by {
            assert(rest[j] == children[j + 1]);
        }
        lemma_first_moved(rest, move_down, at - 1);
    }
}

impl<D: Decorator> TreeView<D> {
    /// The place in the arena that `node` is put at. A node that carries
    /// the id of a place of the arena other than the root's goes there
    /// again; any other node goes to the end of the arena.
    pub open spec fn slot_for(self, node: CTreeNodeView<D>) -> usize {
        match node.id() {
            Some(id) => if 0 < id.0 < self.nodes.len() {
                id.0
            } else {
                self.nodes.len() as usize
            },
            None => self.nodes.len() as usize,
        }
    }

    /// The children of `parent`; none where none are listed.
    pub open spec fn children_of(self, parent: usize) -> Seq<CTreeNodeID> {
        if self.tree.contains_key(parent) {
            self.tree[parent]
        } else {
            Seq::empty()
        }
    }

    /// The arena after `node` was put at its place, under the id of that
    /// place.
    pub open spec fn placed(self, node: CTreeNodeView<D>) -> Seq<CTreeNodeView<D>> {
        let id = self.slot_for(node);
        let named = node.with_id(Some(CTreeNodeID(id)));
        if id < self.nodes.len() {
            self.nodes.update(id as int, named)
        } else {
            self.nodes.push(named)
        }
    }

    /// The tree after `node` was added to the children of `parent`, before
    /// the child that stands at `priority`, or behind all of them where there
    /// is no such child.
    pub open spec fn add_child(self, parent: usize, node: CTreeNodeView<D>, priority: usize) -> Self {
        let id = self.slot_for(node);
        let siblings = self.children_of(parent);
        let index = if priority < siblings.len() {
            priority as int
        } else {
            siblings.len() as int
        };
        let listed = self.tree.insert(parent, siblings.insert(index, CTreeNodeID(id)));
        TreeView {
            nodes: self.placed(node),
            tree: if listed.contains_key(id) {
                listed
            } else {
                listed.insert(id, Seq::empty())
            },
        }
    }

    /// What [`ControlTree::add_child_with_priority`] makes of the tree: the
    /// node is added, unless a way would then lead from `parent` down to
    /// itself. That way is then the error, and the tree is as it was.
    pub open spec fn child_added(
        self,
        parent: CTreeNodeID,
        node: CTreeNodeView<D>,
        priority: usize,
        after: Self,
        result: ShrubberyResult<CTreeNodeID>,
    ) -> bool {
        let added = self.add_child(parent.0, node, priority);
        let id = self.slot_for(node);
        match result {
            Ok(out) => out.0 == id && after == added && !added.on_cycle(parent),
            Err(ShrubberyError::CycleDetected(cycle)) => {
                &&& added.is_cycle(cycle@)
                &&& cycle@[0] == parent
                &&& after == self
            },
            Err(_) => false,
        }
    }

    /// There is a way from `id` down to itself.
    pub open spec fn on_cycle(self, id: CTreeNodeID) -> bool {
        exists|cycle: Seq<CTreeNodeID>| #[trigger] self.is_cycle(cycle) && cycle[0] == id
    }

    /// The tree after `node` was put between `parent` and those of its
    /// children that are among `move_down`: the node takes the place of the
    /// first of them, and all of `move_down` follow its own children, in the
    /// order given.
    pub open spec fn insert_between(
        self,
        parent: usize,
        move_down: Seq<CTreeNodeID>,
        node: CTreeNodeView<D>,
    ) -> Self {
        let id = self.slot_for(node);
        let kept = self.children_of(parent).filter(stays(move_down));
        let at = first_moved(self.children_of(parent), move_down);
        let added = self.with_children(parent, kept).add_child(parent, node, usize::MAX);
        let placed = added.with_children(parent, kept.insert(at, CTreeNodeID(id)));
        placed.with_children(id, placed.children_of(id) + move_down)
    }

    /// The tree after the node `id` was removed: it is no child any more,
    /// and no children are listed for it. Its place in the arena stays.
    pub open spec fn remove(self, id: usize) -> Self {
        TreeView {
            tree: Map::new(
                |parent: usize| self.tree.contains_key(parent) && parent != id,
                |parent: usize| self.tree[parent].filter(is_other(id)),
            ),
            ..self
        }
    }
}

impl<D: Decorator> ControlTree<D> {
    /// Puts `node` into the arena and among the children of `parent_id`,
    /// with a given priority (0 runs first). No check is made for cycles.
    pub fn attach(&mut self, parent_id: CTreeNodeID, node: CTreeNode<D>, priority: usize) -> (id:
        CTreeNodeID)
        requires
            old(self)@.wf(),
            old(self)@.has_node(parent_id),
        ensures
            final(self)@ == old(self)@.add_child(parent_id.0, node@, priority),
            id.0 == old(self)@.slot_for(node@),
            final(self)@.wf(),
            final(self)@.has_node(id),
            0 < id.0,
            forall|other: CTreeNodeID| old(self)@.has_node(other) ==> final(self)@.has_node(other),
    {
        let (id, _) = self.attach_over(parent_id, node, priority);
        id
    }

    /// [`Self::attach`], which also hands out the node that `node` has taken
    /// the place of, if it has taken the place of one.
    fn attach_over(&mut self, parent_id: CTreeNodeID, node: CTreeNode<D>, priority: usize) -> (out: (
        CTreeNodeID,
        Option<CTreeNode<D>>,
    ))
        requires
            old(self)@.wf(),
            old(self)@.has_node(parent_id),
        ensures
            final(self)@ == old(self)@.add_child(parent_id.0, node@, priority),
            out.0.0 == old(self)@.slot_for(node@),
            final(self)@.wf(),
            final(self)@.has_node(out.0),
            0 < out.0.0,
            forall|other: CTreeNodeID| old(self)@.has_node(other) ==> final(self)@.has_node(other),
            match out.1 {
                Some(replaced) => out.0.0 < old(self)@.nodes.len() && replaced@
                    == old(self)@.nodes[out.0.0 as int],
                None => out.0.0 == old(self)@.nodes.len(),
            },
    {
        let mut child = node;
        let id = match child.id() {
            Some(id) => if 0 < id.0 && id.0 < self.nodes.len() {
                id
            } else {
                CTreeNodeID(self.nodes.len())
            },
            None => CTreeNodeID(self.nodes.len()),
        };
        child.set_id(id);
        let replaced = if id.0 < self.nodes.len() {
            proof {
                super::lemma_node_replaced(self.nodes@, id.0 as int, child);
            }
            let place = &mut self.nodes[id.0];
            std::mem::swap(place, &mut child);
            Some(child)
        } else {
            self.nodes.push(child);
            None
        };
        assert(self@.nodes =~= old(self)@.placed(node@));
        let mut siblings = match map_remove(&mut self.tree, parent_id.0) {
            Some(siblings) => siblings,
            None => Vec::new(),
        };
        let index = if priority < siblings.len() {
            priority
        } else {
            siblings.len()
        };
        siblings.insert(index, id);
        map_insert(&mut self.tree, parent_id.0, siblings);
        if map_get(&self.tree, id.0).is_none() {
            map_insert(&mut self.tree, id.0, Vec::new());
        }
        proof {
            let expected = old(self)@.add_child(parent_id.0, node@, priority);
            assert(self@.tree =~= expected.tree);
            assert forall|parent: usize, i: int|
                self@.tree.contains_key(parent) && 0 <= i < self@.tree[parent].len()
                    implies self@.has_node(#[trigger] self@.tree[parent][i]) by {
                if parent == parent_id.0 {
                    let before = old(self)@.tree[parent];
                    if i < index {
                        assert(old(self)@.has_node(before[i]));
                    } else if i > index {
                        assert(old(self)@.has_node(before[i - 1]));
                    }
                } else if parent != id.0 || old(self)@.tree.contains_key(parent) {
                    assert(old(self)@.has_node(old(self)@.tree[parent][i]));
                }
            }
        }
        (id, replaced)
    }

    /// Add a new node as the last child of `parent_id`.
    ///
    /// Where a way would then lead from `parent_id` down to itself, that way
    /// is returned as the error, and the tree stays as it was.
    pub fn add_child<T: Into<CTreeNode<D>>>(&mut self, parent_id: CTreeNodeID, child: T) -> (result:
        ShrubberyResult<CTreeNodeID>)
        requires
            old(self)@.wf(),
            old(self)@.has_node(parent_id),
        ensures
            final(self)@.wf(),
            exists|node: CTreeNode<D>| #[trigger]
                call_ensures(T::into, (child,), node) && old(self)@.child_added(
                    parent_id,
                    node@,
                    usize::MAX,
                    final(self)@,
                    result,
                ),
    {
        self.add_child_with_priority(parent_id, child, usize::MAX)
    }

    /// Add a new node as a child with a priority (0 runs first).
    ///
    /// Where a way would then lead from `parent_id` down to itself, that way
    /// is returned as the error, and the tree stays as it was.
    pub fn add_child_with_priority<T: Into<CTreeNode<D>>>(
        &mut self,
        parent_id: CTreeNodeID,
        child: T,
        priority: usize,
    ) -> (result: ShrubberyResult<CTreeNodeID>)
        requires
            old(self)@.wf(),
            old(self)@.has_node(parent_id),
        ensures
            final(self)@.wf(),
            exists|node: CTreeNode<D>| #[trigger]
                call_ensures(T::into, (child,), node) && old(self)@.child_added(
                    parent_id,
                    node@,
                    priority,
                    final(self)@,
                    result,
                ),
    {
        let node: CTreeNode<D> = child.into();
        self.add_node_with_priority(parent_id, node, priority)
    }

    /// Add `node` as the last child of `parent_id`.
    ///
    /// Where a way would then lead from `parent_id` down to itself, that way
    /// is returned as the error, and the tree stays as it was.
    pub fn add_node(&mut self, parent_id: CTreeNodeID, node: CTreeNode<D>) -> (result:
        ShrubberyResult<CTreeNodeID>)
        requires
            old(self)@.wf(),
            old(self)@.has_node(parent_id),
        ensures
            final(self)@.wf(),
            old(self)@.child_added(parent_id, node@, usize::MAX, final(self)@, result),
    {
        self.add_child(parent_id, node)
    }

    /// Add `node` as a child with a priority (0 runs first).
    ///
    /// Where a way would then lead from `parent_id` down to itself, that way
    /// is returned as the error, and the tree stays as it was.
    pub fn add_node_with_priority(
        &mut self,
        parent_id: CTreeNodeID,
        node: CTreeNode<D>,
        priority: usize,
    ) -> (result: ShrubberyResult<CTreeNodeID>)
        requires
            old(self)@.wf(),
            old(self)@.has_node(parent_id),
        ensures
            final(self)@.wf(),
            old(self)@.child_added(parent_id, node@, priority, final(self)@, result),
    {
        // what the node is about to change is kept, to put it back where a cycle is found
        let siblings_before = match map_get(&self.tree, parent_id.0) {
            Some(siblings) => Some(siblings.clone()),
            None => None,
        };
        assert(match siblings_before {
            Some(siblings) => self@.tree.contains_key(parent_id.0) && siblings@
                == self@.tree[parent_id.0],
            None => !self@.tree.contains_key(parent_id.0),
        });
        let slot = match node.id() {
            Some(id) => if 0 < id.0 && id.0 < self.nodes.len() {
                id.0
            } else {
                self.nodes.len()
            },
            None => self.nodes.len(),
        };
        let listed_before = map_get(&self.tree, slot).is_some();
        let (id, replaced) = self.attach_over(parent_id, node, priority);
        assert(id.0 == slot);
        let mut history: Vec<CTreeNodeID> = Vec::new();
        let ghost added = self@;
        match self.recurse_children_check_cycles(parent_id, &mut history) {
            Ok(_) => {
                proof {
                    assert forall|cycle: Seq<CTreeNodeID>|
                        !(#[trigger] added.is_cycle(cycle) && cycle[0] == parent_id) by {
                        assert(history@ + cycle =~= cycle);
                    }
                }
                Ok(id)
            },
            Err(e) => {
                proof {
                    assert(added.is_cycle(e->CycleDetected_0@));
                }
                let ghost arena = self.nodes@;
                match replaced {
                    Some(replaced) => {
                        proof {
                            super::lemma_node_replaced(arena, id.0 as int, replaced);
                        }
                        self.nodes[id.0] = replaced;
                        assert(self@.nodes =~= old(self)@.nodes);
                    },
                    None => {
                        self.nodes.pop();
                        assert(self.nodes@ == arena.drop_last());
                        assert(added.nodes == old(self)@.nodes.push(added.nodes.last()));
                        assert(self@.nodes =~= added.nodes.drop_last());
                        assert(self@.nodes =~= old(self)@.nodes);
                    },
                }
                assert(self@.tree == added.tree);
                if !listed_before {
                    map_remove(&mut self.tree, id.0);
                }
                let ghost unlisted = self@.tree;
                assert(unlisted =~= (if listed_before {
                    added.tree
                } else {
                    added.tree.remove(id.0)
                }));
                match siblings_before {
                    Some(siblings) => {
                        map_insert(&mut self.tree, parent_id.0, siblings);
                    },
                    None => {
                        map_remove(&mut self.tree, parent_id.0);
                    },
                }
                proof {
                    assert(self@.tree =~= (match siblings_before {
                        Some(siblings) => unlisted.insert(parent_id.0, siblings@),
                        None => unlisted.remove(parent_id.0),
                    }));
                    assert(self@.tree =~= old(self)@.tree);
                }
                Err(e)
            },
        }
    }

    /// Adds a child node as the last child of `parent_id`.
    ///
    /// No check is made for cycles: the tree condition can be broken with
    /// this method, and [`Self::validate_bt_rules`] tells whether it holds.
    pub fn add_child_unchecked<T: Into<CTreeNode<D>>>(
        &mut self,
        parent_id: CTreeNodeID,
        child: T,
    ) -> (id: CTreeNodeID)
        requires
            old(self)@.wf(),
            old(self)@.has_node(parent_id),
        ensures
            final(self)@.wf(),
            final(self)@.has_node(id),
            0 < id.0,
            forall|other: CTreeNodeID| old(self)@.has_node(other) ==> final(self)@.has_node(other),
            exists|node: CTreeNode<D>|
                {
                    &&& #[trigger] call_ensures(T::into, (child,), node)
                    &&& final(self)@ == old(self)@.add_child(parent_id.0, node@, usize::MAX)
                    &&& id.0 == old(self)@.slot_for(node@)
                },
    {
        self.add_child_unchecked_with_priority(parent_id, child, usize::MAX)
    }

    /// Adds a child node with a given priority (0 runs first).
    ///
    /// No check is made for cycles: the tree condition can be broken with
    /// this method, and [`Self::validate_bt_rules`] tells whether it holds.
    pub fn add_child_unchecked_with_priority<T: Into<CTreeNode<D>>>(
        &mut self,
        parent_id: CTreeNodeID,
        child: T,
        priority: usize,
    ) -> (id: CTreeNodeID)
        requires
            old(self)@.wf(),
            old(self)@.has_node(parent_id),
        ensures
            final(self)@.wf(),
            final(self)@.has_node(id),
            0 < id.0,
            forall|other: CTreeNodeID| old(self)@.has_node(other) ==> final(self)@.has_node(other),
            exists|node: CTreeNode<D>|
                {
                    &&& #[trigger] call_ensures(T::into, (child,), node)
                    &&& final(self)@ == old(self)@.add_child(parent_id.0, node@, priority)
                    &&& id.0 == old(self)@.slot_for(node@)
                },
    {
        let node: CTreeNode<D> = child.into();
        self.attach(parent_id, node, priority)
    }

    /// Insert `node` between `parent_id` and `move_down`.
    ///
    /// The inserted node will be the **n**'th child, where **n** is the index of the first
    /// child node in `move_down`, i.e. left->right order is maintained if `move_down` is
    /// contiguous among the children.
    ///
    /// `insert_between(0, &[2], X)`:
    ///
    /// ```text
    ///         0                                  0
    ///       / | \            ------>           / | \
    ///      1  2  3                            1  X  3
    ///                                            |
    ///                                            2
    /// ```
    ///
    /// `insert_between(0, &[1, 3], X)`:
    ///
    /// ```text
    ///         0                                 0
    ///       / | \            ------>           / \
    ///      1  2  3                            X   2
    ///                                        / \
    ///                                       1   3
    /// ```
    pub fn insert_between<T: Into<CTreeNode<D>>>(
        &mut self,
        parent_id: CTreeNodeID,
        move_down: &[CTreeNodeID],
        node: T,
    ) -> (id: CTreeNodeID)
        requires
            old(self)@.wf(),
            old(self)@.has_node(parent_id),
            exists|i: int|
                0 <= i < old(self)@.tree[parent_id.0].len() && move_down@.contains(
                    #[trigger] old(self)@.tree[parent_id.0][i],
                ),
        ensures
            final(self)@.has_node(id),
            exists|inserted: CTreeNode<D>|
                {
                    &&& #[trigger] call_ensures(T::into, (node,), inserted)
                    &&& final(self)@ == old(self)@.insert_between(
                        parent_id.0,
                        move_down@,
                        inserted@,
                    )
                    &&& id.0 == old(self)@.slot_for(inserted@)
                },
            (forall|i: int| 0 <= i < move_down@.len() ==> old(self)@.has_node(#[trigger] move_down@[i]))
                ==> final(self)@.wf(),
    {
        let node: CTreeNode<D> = node.into();
        let children = self.children(&parent_id);
        // find the index of the first child getting moved down -- this is where `node`
        // will be inserted -- and keep the children that stay
        let mut at: usize = 0;
        let mut found = false;
        let mut kept: Vec<CTreeNodeID> = Vec::new();
        let mut i: usize = 0;
        while i < children.len()
            invariant
                i <= children.len(),
                at <= i,
                kept@ == children@.take(i as int).filter(stays(move_down@)),
                found ==> at < i && move_down@.contains(children[at as int]),
                !found ==> at == i,
                forall|j: int| 0 <= j < at ==> !move_down@.contains(#[trigger] children[j]),
                at <= kept@.len(),
            decreases children.len() - i,
        {
            let child = children[i];
            let mut moved = false;
            let mut m: usize = 0;
            while m < move_down.len()
                invariant
                    m <= move_down.len(),
                    moved == exists|j: int| 0 <= j < m && move_down@[j] == child,
                decreases move_down.len() - m,
            {
                if move_down[m].0 == child.0 {
                    moved = true;
                }
                m += 1;
            }
            proof {
                assert(children@.take(i + 1) == children@.take(i as int).push(child));
                children@.take(i as int).lemma_filter_push(child, stays(move_down@));
                if move_down@.contains(child) {
                    let j = move_down@.index_of(child);
                    assert(move_down@[j] == child);
                }
            }
            if !moved {
                kept.push(child);
            }
            if !found {
                if moved {
                    found = true;
                } else {
                    at += 1;
                }
            }
            i += 1;
        }
        proof {
            assert(children@.take(children.len() as int) == children@);
            if !found {
                let w = choose|w: int|
                    0 <= w < old(self)@.tree[parent_id.0].len() && move_down@.contains(
                        #[trigger] old(self)@.tree[parent_id.0][w],
                    );
                assert(!move_down@.contains(children[w]));
            }
            lemma_first_moved(children@, move_down@, at as int);
        }
        let ghost kept_ids = kept@;
        map_insert(&mut self.tree, parent_id.0, kept);
        proof {
            assert(self@.tree =~= old(self)@.with_children(parent_id.0, kept_ids).tree);
            assert(self@.nodes == old(self)@.nodes);
            assert forall|parent: usize, i: int|
                self@.tree.contains_key(parent) && 0 <= i < self@.tree[parent].len()
                    implies self@.has_node(#[trigger] self@.tree[parent][i]) by {
                if parent == parent_id.0 {
                    assert(kept_ids.contains(kept_ids[i]));
                    children@.lemma_filter_contains_rev(stays(move_down@), kept_ids[i]);
                    let w = children@.index_of(kept_ids[i]);
                    assert(old(self)@.has_node(old(self)@.tree[parent][w]));
                } else {
                    assert(old(self)@.has_node(old(self)@.tree[parent][i]));
                }
            }
        }
        let ghost trimmed = self@;
        let new_id = self.attach(parent_id, node, usize::MAX);
        let ghost added = self@;
        let mut siblings = match map_remove(&mut self.tree, parent_id.0) {
            Some(siblings) => siblings,
            None => Vec::new(),
        };
        proof {
            assert(trimmed.tree.contains_key(parent_id.0));
            assert(trimmed.children_of(parent_id.0) == kept_ids);
            assert(added.tree.contains_key(parent_id.0));
            assert(added.tree[parent_id.0] == kept_ids.insert(kept_ids.len() as int, new_id));
        }
        assert(siblings@ == kept_ids.insert(kept_ids.len() as int, new_id));
        siblings.pop();
        assert(siblings@ =~= kept_ids);
        siblings.insert(at, new_id);
        map_insert(&mut self.tree, parent_id.0, siblings);
        let ghost placed = self@;
        proof {
            assert(placed.tree =~= added.with_children(
                parent_id.0,
                kept_ids.insert(at as int, new_id),
            ).tree);
        }
        let mut below = match map_remove(&mut self.tree, new_id.0) {
            Some(below) => below,
            None => Vec::new(),
        };
        assert(below@ == placed.children_of(new_id.0));
        below.extend_from_slice(move_down);
        let ghost extended = below@;
        map_insert(&mut self.tree, new_id.0, below);
        proof {
            let expected = placed.with_children(
                new_id.0,
                placed.children_of(new_id.0) + move_down@,
            );
            assert(extended == placed.children_of(new_id.0) + move_down@);
            assert(self@.tree.contains_key(new_id.0));
            assert(self@.tree[new_id.0] == extended);
            assert(self@.tree.dom() =~= expected.tree.dom());
            assert forall|key: usize| self@.tree.contains_key(key) implies #[trigger] self@.tree[key]
                == expected.tree[key] by {
                if key != new_id.0 {
                    assert(placed.tree.contains_key(key));
                }
            }
            assert(self@.tree =~= placed.with_children(
                new_id.0,
                placed.children_of(new_id.0) + move_down@,
            ).tree);
            if forall|i: int| 0 <= i < move_down@.len() ==> old(self)@.has_node(#[trigger] move_down@[i]) {
                assert forall|parent: usize, i: int|
                    self@.tree.contains_key(parent) && 0 <= i < self@.tree[parent].len()
                        implies self@.has_node(#[trigger] self@.tree[parent][i]) by {
                    let child = self@.tree[parent][i];
                    let own = placed.children_of(new_id.0);
                    if parent == new_id.0 {
                        if i < own.len() {
                            assert(child == own[i]);
                            if parent == parent_id.0 {
                                if i < at {
                                    assert(trimmed.has_node(trimmed.tree[parent_id.0][i]));
                                } else if i > at {
                                    assert(trimmed.has_node(trimmed.tree[parent_id.0][i - 1]));
                                }
                            } else {
                                assert(added.has_node(added.tree[parent][i]));
                            }
                        } else {
                            assert(child == move_down@[i - own.len()]);
                            assert(old(self)@.has_node(move_down@[i - own.len()]));
                        }
                    } else if parent == parent_id.0 {
                        if i < at {
                            assert(trimmed.has_node(trimmed.tree[parent_id.0][i]));
                        } else if i > at {
                            assert(trimmed.has_node(trimmed.tree[parent_id.0][i - 1]));
                        }
                    } else {
                        assert(added.has_node(added.tree[parent][i]));
                    }
                }
            }
        }
        new_id
    }

    /// Removes a node and all references to it from the tree. The node
    /// stays in the arena, so that it can be put back under its id.
    pub fn remove(&mut self, id: CTreeNodeID)
        requires
            old(self)@.wf(),
        ensures
            final(self)@ == old(self)@.remove(id.0),
            id.0 != super::ROOT_ID ==> final(self)@.wf(),
    {
        let keys = map_keys(&self.tree);
        assert forall|j: int| 0 <= j < keys.len() implies old(self)@.tree.contains_key(
            #[trigger] keys[j],
        ) by {
            assert(keys@.contains(keys[j]));
        }
        let mut k: usize = 0;
        while k < keys.len()
            invariant
                k <= keys.len(),
                keys@.no_duplicates(),
                forall|key: usize| keys@.contains(key) <==> old(self)@.tree.contains_key(key),
                forall|j: int|
                    0 <= j < keys.len() ==> old(self)@.tree.contains_key(#[trigger] keys[j]),
                self@.nodes == old(self)@.nodes,
                self@.tree.dom() == old(self)@.tree.dom(),
                forall|j: int|
                    0 <= j < keys.len() ==> #[trigger] self@.tree[keys[j]] == (if j < k {
                        old(self)@.tree[keys[j]].filter(is_other(id.0))
                    } else {
                        old(self)@.tree[keys[j]]
                    }),
            decreases keys.len() - k,
        {
            let key = keys[k];
            assert(keys@.contains(key));
            let ghost before = self@.tree;
            let children = match map_remove(&mut self.tree, key) {
                Some(children) => children,
                None => Vec::new(),
            };
            let mut kept: Vec<CTreeNodeID> = Vec::new();
            let mut i: usize = 0;
            while i < children.len()
                invariant
                    i <= children.len(),
                    kept@ == children@.take(i as int).filter(is_other(id.0)),
                decreases children.len() - i,
            {
                proof {
                    assert(children@.take(i + 1) == children@.take(i as int).push(children[i as int]));
                    children@.take(i as int).lemma_filter_push(children[i as int], is_other(id.0));
                }
                if children[i].0 != id.0 {
                    kept.push(children[i]);
                }
                i += 1;
            }
            assert(children@.take(children.len() as int) == children@);
            map_insert(&mut self.tree, key, kept);
            proof {
                assert(self@.tree.dom() =~= old(self)@.tree.dom());
                assert forall|j: int| 0 <= j < keys.len() implies #[trigger] self@.tree[keys[j]]
                    == (if j < k + 1 {
                    old(self)@.tree[keys[j]].filter(is_other(id.0))
                } else {
                    old(self)@.tree[keys[j]]
                }) by {
                    assert(self@.tree.contains_key(keys[j]));
                    if j == k {
                        assert(children@ == before[key]);
                        assert(self@.tree[key] == kept@);
                    }
                    if j != k {
                        assert(keys[j] != key);
                        assert(before.contains_key(keys[j]));
                        assert(self@.tree[keys[j]] == before[keys[j]]);
                    }
                }
            }
            k += 1;
        }
        let ghost filtered = self@.tree;
        map_remove(&mut self.tree, id.0);
        proof {
            let expected = old(self)@.remove(id.0);
            assert forall|parent: usize| expected.tree.contains_key(parent) implies self@.tree[parent]
                == #[trigger] expected.tree[parent] by {
                assert(keys@.contains(parent));
                let j = keys@.index_of(parent);
                assert(keys[j] == parent);
                assert(filtered[keys[j]] == old(self)@.tree[keys[j]].filter(is_other(id.0)));
                assert(filtered.contains_key(parent));
                assert(self@.tree[parent] == filtered[parent]);
            }
            assert(self@.tree =~= expected.tree);
            if id.0 != super::ROOT_ID {
                assert forall|parent: usize, i: int|
                    self@.tree.contains_key(parent) && 0 <= i < self@.tree[parent].len()
                        implies self@.has_node(#[trigger] self@.tree[parent][i]) by {
                    let before = old(self)@.tree[parent];
                    let kept = before.filter(is_other(id.0));
                    assert(kept.contains(kept[i]));
                    before.lemma_filter_contains_rev(is_other(id.0), kept[i]);
                    let at = before.index_of(kept[i]);
                    assert(old(self)@.has_node(before[at]));
                }
            }
        }
    }
}

} // verus!
