//! Taking a branch out of a tree, and putting a tree into another.

use super::control_nodes::{ControlNode, ControlNodeTypeView, ControlNodeView};
use super::decorators::StandardDecorator;
use super::engine::{lemma_closed_holds_reached, lemma_reaches_self, lemma_reaches_step};
use super::{CTreeNode, CTreeNodeID, CTreeNodeView, ControlTree, TreeView, ROOT_ID};
use crate::hashed::{map_get, map_insert, map_keys, map_remove, IdMap};
use crate::traits::Decorator;
use vstd::prelude::*;

verus! {

/// The renumbering of ids that `remap` stands for.
pub open spec fn renumbered(remap: Map<usize, usize>) -> spec_fn(CTreeNodeID) -> CTreeNodeID {
    |id: CTreeNodeID| CTreeNodeID(remap[id.0])
}

impl<D: Decorator> TreeView<D> {
    /// `copy` holds the branch of `self` below `start` under a root of its
    /// own: `remap` gives each node of the branch its place in `copy`, where
    /// a clone of it stands under its new id, with the same children in the
    /// same order. `copy` holds nothing else.
    pub open spec fn branch_copied(self, start: usize, copy: Self, remap: Map<usize, usize>) -> bool {
        &&& copy.wf()
        &&& copy.nodes[0] == Self::sapling().nodes[0]
        &&& copy.tree[ROOT_ID] == seq![CTreeNodeID(1)]
        &&& forall|key: usize| copy.tree.contains_key(key) <==> key < copy.nodes.len()
        &&& forall|old: usize| remap.contains_key(old) <==> self.reaches(start, old)
        &&& remap[start] == 1
        &&& forall|a: usize, b: usize|
            remap.contains_key(a) && remap.contains_key(b) && remap[a] == remap[b] ==> a == b
        &&& forall|new: usize| 1 <= new < copy.nodes.len() ==> #[trigger] remap.contains_value(new)
        &&& forall|old: usize| #[trigger]
            remap.contains_key(old) ==> {
                &&& old < self.nodes.len()
                &&& 1 <= remap[old] < copy.nodes.len()
                &&& self.nodes[old as int].with_id(Some(CTreeNodeID(remap[old]))).copied_to(
                    copy.nodes[remap[old] as int],
                )
                &&& copy.tree[remap[old]] == self.tree[old].map_values(renumbered(remap))
            }
    }
}

/// In a well-formed tree a path from a node of the tree stays among the
/// nodes of the arena.
pub proof fn lemma_branch_in_tree<D: Decorator>(tree: TreeView<D>, path: Seq<usize>, at: int)
    requires
        tree.wf(),
        tree.is_path(path),
        0 <= at < path.len(),
        path[0] < tree.nodes.len(),
    ensures
        path[at] < tree.nodes.len(),
    decreases at,
{
    if at > 0 {
        lemma_branch_in_tree(tree, path, at - 1);
        assert(tree.is_edge(path[at - 1], path[at - 1 + 1]));
        let parent = path[at - 1];
        let k = tree.tree[parent].index_of(CTreeNodeID(path[at]));
        assert(tree.has_node(tree.tree[parent][k]));
    }
}

/// The ids moved up by `base`.
pub open spec fn shifted(base: usize) -> spec_fn(CTreeNodeID) -> CTreeNodeID {
    |id: CTreeNodeID| CTreeNodeID((base + id.0) as usize)
}

/// A decorator node of the payload `wrapper` that is in no tree and was
/// never ticked.
pub open spec fn wrapping<D: Decorator>(wrapper: D) -> CTreeNodeView<D> {
    CTreeNodeView::Control(ControlNodeView::fresh(ControlNodeTypeView::Decorator(wrapper)))
}

/// The renumbering of a branch that was copied by `remap` and then put in
/// behind `base` nodes.
pub open spec fn regrafted(remap: Map<usize, usize>, base: usize) -> spec_fn(CTreeNodeID) -> CTreeNodeID {
    |id: CTreeNodeID| CTreeNodeID((base + remap[id.0]) as usize)
}

/// A branch that is taken out of a tree and put into a tree is there as it
/// was: under the wrapper stands the copy of its first node alone, and each
/// node of the branch has its copy, whose children are the copies of its
/// children in the same order. So the branch is visited in the order in
/// which it was visited where it came from.
pub proof fn lemma_regrafted_branch_keeps_order<D: Decorator>(
    source: TreeView<D>,
    start: usize,
    copy: TreeView<D>,
    remap: Map<usize, usize>,
    target: TreeView<D>,
    from: usize,
    priority: usize,
    wrapper: CTreeNodeView<D>,
)
    requires
        source.branch_copied(start, copy, remap),
        target.wf(),
        target.nodes.len() + copy.nodes.len() <= usize::MAX,
    ensures
        ({
            let base = target.nodes.len() as usize;
            let grafted = target.add_subtree(from, priority, copy, wrapper);
            &&& grafted.tree.contains_key(base)
            &&& grafted.tree[base] == seq![regrafted(remap, base)(CTreeNodeID(start))]
            &&& forall|old: usize| #[trigger]
                remap.contains_key(old) ==> {
                    let new = regrafted(remap, base)(CTreeNodeID(old));
                    &&& grafted.tree.contains_key(new.0)
                    &&& grafted.tree[new.0] == source.tree[old].map_values(regrafted(remap, base))
                    &&& source.nodes[old as int].with_id(Some(new)).copied_to(
                        grafted.nodes[new.0 as int],
                    )
                }
        }),
{
    let base = target.nodes.len() as usize;
    let grafted = target.add_subtree(from, priority, copy, wrapper);
    assert(copy.tree.contains_key(0));
    assert(grafted.tree[base] =~= seq![regrafted(remap, base)(CTreeNodeID(start))]);
    assert forall|old: usize| #[trigger] remap.contains_key(old) implies {
        let new = regrafted(remap, base)(CTreeNodeID(old));
        &&& grafted.tree.contains_key(new.0)
        &&& grafted.tree[new.0] == source.tree[old].map_values(regrafted(remap, base))
        &&& source.nodes[old as int].with_id(Some(new)).copied_to(grafted.nodes[new.0 as int])
    } by {
        let place = remap[old];
        let new = regrafted(remap, base)(CTreeNodeID(old));
        assert(new.0 == base + place);
        assert(copy.tree.contains_key(place));
        assert((new.0 - base) as usize == place);
        assert forall|k: int| 0 <= k < source.tree[old].len() implies #[trigger] grafted.tree[new.0][k]
            == source.tree[old].map_values(regrafted(remap, base))[k] by {
            let child = source.tree[old][k];
            assert(copy.tree[place][k] == CTreeNodeID(remap[child.0]));
            assert(copy.has_node(copy.tree[place][k]));
        }
        assert(grafted.tree[new.0] =~= source.tree[old].map_values(regrafted(remap, base)));
        assert(grafted.nodes[new.0 as int] == copy.nodes[place as int].with_id(Some(new)));
    }
}

/// The table that the places held for some of `count` nodes stand for: a
/// node for which none is held has the place 0.
pub open spec fn places_of(held: Map<usize, usize>, count: nat) -> Seq<usize> {
    Seq::new(
        count,
        |i: int|
            if held.contains_key(i as usize) {
                held[i as usize]
            } else {
                0
            },
    )
}

/// The renumbering that a table stands for: a place that holds 0 is not
/// renumbered.
pub open spec fn table_of(places: Seq<usize>) -> Map<usize, usize> {
    Map::new(
        |old: usize| old < places.len() && places[old as int] != 0,
        |old: usize| places[old as int],
    )
}

impl<D: Decorator> TreeView<D> {
    /// The tree after `graft` was put into it below `from`. The nodes of
    /// `graft` follow those of the tree, each under its new id. In the place
    /// of the root of `graft` stands the node `wrapper`, which is added to
    /// the children of `from` before the child that stands at `priority`, or
    /// behind all of them where there is no such child.
    pub open spec fn add_subtree(
        self,
        from: usize,
        priority: usize,
        graft: Self,
        wrapper: CTreeNodeView<D>,
    ) -> Self {
        let base = self.nodes.len() as usize;
        let siblings = self.children_of(from);
        let index = if priority < siblings.len() {
            priority as int
        } else {
            siblings.len() as int
        };
        TreeView {
            nodes: self.nodes.push(wrapper.with_id(Some(CTreeNodeID(base)))) + Seq::new(
                (graft.nodes.len() - 1) as nat,
                |k: int| graft.nodes[k + 1].with_id(Some(CTreeNodeID((base + k + 1) as usize))),
            ),
            tree: Map::new(
                |key: usize|
                    self.tree.contains_key(key) || (key >= base && graft.tree.contains_key(
                        (key - base) as usize,
                    )),
                |key: usize|
                    if key >= base {
                        graft.tree[(key - base) as usize].map_values(shifted(base))
                    } else if key == from {
                        siblings.insert(index, CTreeNodeID(base))
                    } else {
                        self.tree[key]
                    },
            ),
        }
    }

    /// `order` lists the branch below `start` once, `start` first, and
    /// `places` holds for each node of the branch its place in `order`,
    /// counted from 1, and 0 for every other node.
    pub open spec fn branch_listed(self, start: usize, order: Seq<CTreeNodeID>, places: Seq<usize>) -> bool {
        &&& places.len() == self.nodes.len()
        &&& order.len() >= 1
        &&& order.len() <= self.nodes.len()
        &&& order[0] == CTreeNodeID(start)
        &&& forall|i: int|
            0 <= i < places.len() ==> (#[trigger] places[i] != 0 <==> self.reaches(start, i as usize))
        &&& forall|i: int|
            0 <= i < places.len() && #[trigger] places[i] != 0 ==> {
                &&& 1 <= places[i] <= order.len()
                &&& order[places[i] - 1] == CTreeNodeID(i as usize)
            }
        &&& forall|j: int|
            0 <= j < order.len() ==> {
                &&& self.has_node(#[trigger] order[j])
                &&& places[order[j].0 as int] == j + 1
            }
    }
}

/// The ids that the places held give to `children`, which are among
/// `count` nodes.
fn renumber(children: &Vec<CTreeNodeID>, held: &IdMap<usize>, count: usize) -> (out: Vec<
    CTreeNodeID,
>)
    requires
        forall|k: int|
            0 <= k < children@.len() ==> (#[trigger] children@[k]).0 < count && places_of(
                held@,
                count as nat,
            )[children@[k].0 as int] != 0,
    ensures
        out@ == children@.map_values(renumbered(table_of(places_of(held@, count as nat)))),
{
    let ghost places = places_of(held@, count as nat);
    let mut out: Vec<CTreeNodeID> = Vec::new();
    let mut k: usize = 0;
    while k < children.len()
        invariant
            k <= children.len(),
            places == places_of(held@, count as nat),
            forall|k: int|
                0 <= k < children@.len() ==> (#[trigger] children@[k]).0 < count
                    && places[children@[k].0 as int] != 0,
            out@ == children@.take(k as int).map_values(renumbered(table_of(places))),
        decreases children.len() - k,
    {
        let child = children[k];
        assert(children@[k as int].0 < count);
        let place = match map_get(held, child.0) {
            Some(place) => *place,
            None => 0,
        };
        assert(place == places[child.0 as int]);
        out.push(CTreeNodeID(place));
        proof {
            assert(table_of(places).contains_key(child.0));
            assert(children@.take(k + 1) == children@.take(k as int).push(child));
            assert(out@ =~= children@.take(k + 1).map_values(renumbered(table_of(places))));
        }
        k += 1;
    }
    assert(children@.take(children.len() as int) == children@);
    out
}

/// The ids of `children`, moved up by `base`.
fn shift(children: &Vec<CTreeNodeID>, base: usize) -> (out: Vec<CTreeNodeID>)
    requires
        forall|k: int| 0 <= k < children@.len() ==> base + (#[trigger] children@[k]).0 <= usize::MAX,
    ensures
        out@ == children@.map_values(shifted(base)),
{
    let mut out: Vec<CTreeNodeID> = Vec::new();
    let mut k: usize = 0;
    while k < children.len()
        invariant
            k <= children.len(),
            forall|k: int|
                0 <= k < children@.len() ==> base + (#[trigger] children@[k]).0 <= usize::MAX,
            out@ == children@.take(k as int).map_values(shifted(base)),
        decreases children.len() - k,
    {
        let child = children[k];
        assert(base + children@[k as int].0 <= usize::MAX);
        out.push(CTreeNodeID(base + child.0));
        proof {
            assert(children@.take(k + 1) == children@.take(k as int).push(child));
            assert(out@ =~= children@.take(k + 1).map_values(shifted(base)));
        }
        k += 1;
    }
    assert(children@.take(children.len() as int) == children@);
    out
}

impl<D: Decorator + From<StandardDecorator>> ControlTree<D> {
    /// Add a subtree below the node at `from`, behind its other children.
    pub fn add_subtree_as_last_child(&mut self, from: CTreeNodeID, subtree: Self)
        requires
            old(self)@.wf(),
            old(self)@.has_node(from),
            subtree@.wf(),
            old(self)@.nodes.len() + subtree@.nodes.len() <= usize::MAX,
        ensures
            final(self)@.wf(),
            exists|wrapper: D|
                call_ensures(
                    <StandardDecorator as Into<D>>::into,
                    (StandardDecorator::Subtree(super::decorators::Subtree { status: None, name: None }),),
                    wrapper,
                ) && final(self)@ == old(self)@.add_subtree(
                    from.0,
                    usize::MAX,
                    subtree@,
                    wrapping(wrapper),
                ),
    {
        self.add_subtree_with_priority(from, usize::MAX, subtree)
    }

    /// Add a subtree below the node at `from`, before its other children.
    pub fn add_subtree_as_first_child(&mut self, from: CTreeNodeID, subtree: Self)
        requires
            old(self)@.wf(),
            old(self)@.has_node(from),
            subtree@.wf(),
            old(self)@.nodes.len() + subtree@.nodes.len() <= usize::MAX,
        ensures
            final(self)@.wf(),
            exists|wrapper: D|
                call_ensures(
                    <StandardDecorator as Into<D>>::into,
                    (StandardDecorator::Subtree(super::decorators::Subtree { status: None, name: None }),),
                    wrapper,
                ) && final(self)@ == old(self)@.add_subtree(from.0, 0, subtree@, wrapping(wrapper)),
    {
        self.add_subtree_with_priority(from, 0, subtree)
    }

    /// Add a subtree below the node at `from`, with a `priority` value (the position in the
    /// left->right order of the children, where 0 runs first). The nodes of the subtree
    /// are numbered anew, and a subtree decorator stands in the place of its root.
    pub fn add_subtree_with_priority(&mut self, from: CTreeNodeID, priority: usize, subtree: Self)
        requires
            old(self)@.wf(),
            old(self)@.has_node(from),
            subtree@.wf(),
            old(self)@.nodes.len() + subtree@.nodes.len() <= usize::MAX,
        ensures
            final(self)@.wf(),
            exists|wrapper: D|
                call_ensures(
                    <StandardDecorator as Into<D>>::into,
                    (StandardDecorator::Subtree(super::decorators::Subtree { status: None, name: None }),),
                    wrapper,
                ) && final(self)@ == old(self)@.add_subtree(
                    from.0,
                    priority,
                    subtree@,
                    wrapping(wrapper),
                ),
    {
        let base = self.nodes.len();
        let wrapper_node: ControlNode<D> = ControlNode::decorator(StandardDecorator::subtree());
        let ghost wrapper = wrapper_node@.node_type->Decorator_0;
        let mut wrapper_node: CTreeNode<D> = CTreeNode::Control(wrapper_node);
        wrapper_node.set_id(CTreeNodeID(base));
        let ghost expected = old(self)@.add_subtree(from.0, priority, subtree@, wrapping(wrapper));
        self.nodes.push(wrapper_node);
        let mut siblings = match map_remove(&mut self.tree, from.0) {
            Some(siblings) => siblings,
            None => Vec::new(),
        };
        let index = if priority < siblings.len() {
            priority
        } else {
            siblings.len()
        };
        siblings.insert(index, CTreeNodeID(base));
        map_insert(&mut self.tree, from.0, siblings);
        let ghost graft = subtree@;
        let ControlTree { nodes, tree } = subtree;
        let mut nodes = nodes;
        let ghost placed = self@;
        proof {
            assert(placed.nodes =~= old(self)@.nodes.push(
                wrapping(wrapper).with_id(Some(CTreeNodeID(base))),
            ));
        }
        let mut k: usize = 1;
        while k < nodes.len()
            invariant
                1 <= k <= nodes.len(),
                nodes.len() == graft.nodes.len(),
                base + nodes.len() <= usize::MAX,
                self@.tree == placed.tree,
                self@.nodes.len() == base + k,
                placed.nodes.len() == base + 1,
                forall|i: int| 0 <= i <= base ==> self@.nodes[i] == placed.nodes[i],
                forall|i: int|
                    1 <= i < k ==> #[trigger] self@.nodes[base + i] == graft.nodes[i].with_id(
                        Some(CTreeNodeID((base + i) as usize)),
                    ),
                forall|i: int| k <= i < nodes.len() ==> (#[trigger] nodes[i])@ == graft.nodes[i],
            decreases nodes.len() - k,
        {
            let mut node = CTreeNode::leaf();
            let ghost before = self@.nodes;
            std::mem::swap(&mut nodes[k], &mut node);
            node.set_id(CTreeNodeID(base + k));
            self.nodes.push(node);
            proof {
                assert(self@.nodes =~= before.push(node@));
            }
            k += 1;
        }
        proof {
            assert forall|i: int| 0 <= i < self@.nodes.len() implies self@.nodes[i]
                == #[trigger] expected.nodes[i] by {
                if i > base {
                    let inner = i - base;
                    assert(self@.nodes[base + inner] == graft.nodes[inner].with_id(
                        Some(CTreeNodeID((base + inner) as usize)),
                    ));
                }
            }
            assert(self@.nodes =~= expected.nodes);
        }
        let keys = map_keys(&tree);
        let mut k: usize = 0;
        while k < keys.len()
            invariant
                k <= keys.len(),
                graft.wf(),
                graft.tree == tree@.map_values(|children: Vec<CTreeNodeID>| children@),
                base + graft.nodes.len() <= usize::MAX,
                placed.tree.dom() == old(self)@.tree.dom(),
                forall|key: usize| #[trigger] old(self)@.tree.contains_key(key) ==> key < base,
                keys@.no_duplicates(),
                forall|key: usize| keys@.contains(key) <==> graft.tree.contains_key(key),
                self@.nodes == expected.nodes,
                forall|key: usize| #[trigger]
                    self@.tree.contains_key(key) <==> placed.tree.contains_key(key) || (key >= base
                        && keys@.take(k as int).contains((key - base) as usize)),
                forall|key: usize|
                    self@.tree.contains_key(key) ==> #[trigger] self@.tree[key] == (if key >= base {
                        graft.tree[(key - base) as usize].map_values(shifted(base))
                    } else {
                        placed.tree[key]
                    }),
            decreases keys.len() - k,
        {
            let key = keys[k];
            assert(keys@.contains(key));
            let ghost before = self@.tree;
            assert(graft.tree.contains_key(key));
            assert(tree@.contains_key(key));
            match map_get(&tree, key) {
                Some(children) => {
                    assert(children@ == graft.tree[key]);
                    proof {
                        assert forall|i: int| 0 <= i < children@.len() implies base + (
                        #[trigger] children@[i]).0 <= usize::MAX by {
                            assert(graft.has_node(graft.tree[key][i]));
                        }
                    }
                    let moved = shift(children, base);
                    map_insert(&mut self.tree, base + key, moved);
                },
                None => {},
            }
            proof {
                assert(keys@.take(k + 1) == keys@.take(k as int).push(key));
                assert forall|other: usize| #[trigger]
                    self@.tree.contains_key(other) <==> placed.tree.contains_key(other) || (other
                        >= base && keys@.take(k + 1).contains((other - base) as usize)) by {
                    assert(before.contains_key(other) <==> placed.tree.contains_key(other) || (
                    other >= base && keys@.take(k as int).contains((other - base) as usize)));
                    assert(self@.tree.contains_key(other) <==> before.contains_key(other) || other
                        == base + key);
                    if placed.tree.contains_key(other) {
                        assert(old(self)@.tree.contains_key(other));
                    }
                    if other == base + key {
                        assert(keys@.take(k + 1)[k as int] == key);
                    } else if other >= base && keys@.take(k + 1).contains((other - base) as usize) {
                        let at = keys@.take(k + 1).index_of((other - base) as usize);
                        assert(keys@.take(k as int)[at] == (other - base) as usize);
                    } else if other >= base && keys@.take(k as int).contains(
                        (other - base) as usize,
                    ) {
                        let at = keys@.take(k as int).index_of((other - base) as usize);
                        assert(keys@.take(k + 1)[at] == (other - base) as usize);
                    }
                }
                assert forall|other: usize| self@.tree.contains_key(other) implies #[trigger] self@.tree[other]
                    == (if other >= base {
                    graft.tree[(other - base) as usize].map_values(shifted(base))
                } else {
                    placed.tree[other]
                }) by {
                    if other != base + key {
                        assert(before.contains_key(other));
                        assert(self@.tree[other] == before[other]);
                    } else {
                        assert((other - base) as usize == key);
                    }
                }
            }
            k += 1;
        }
        proof {
            assert(keys@.take(keys.len() as int) == keys@);
            assert forall|key: usize| self@.tree.contains_key(key) <==> #[trigger] expected.tree.contains_key(
                key,
            ) by {
                assert(placed.tree.contains_key(key) <==> old(self)@.tree.contains_key(key));
                if key >= base {
                    assert(keys@.contains((key - base) as usize) <==> graft.tree.contains_key(
                        (key - base) as usize,
                    ));
                }
            }
            assert(self@.tree.dom() =~= expected.tree.dom());
            assert forall|key: usize| self@.tree.contains_key(key) implies #[trigger] self@.tree[key]
                == expected.tree[key] by {
                if key < base {
                    assert(placed.tree.contains_key(key));
                }
            }
            assert(self@.tree =~= expected.tree);
            assert forall|parent: usize, i: int|
                self@.tree.contains_key(parent) && 0 <= i < self@.tree[parent].len()
                    implies self@.has_node(#[trigger] self@.tree[parent][i]) by {
                if parent >= base {
                    let inner = (parent - base) as usize;
                    assert(graft.has_node(graft.tree[inner][i]));
                    assert(keys@.contains(graft.tree[inner][i].0));
                } else if parent == from.0 {
                    let before = old(self)@.tree[parent];
                    if i < index {
                        assert(old(self)@.has_node(before[i]));
                    } else if i > index {
                        assert(old(self)@.has_node(before[i - 1]));
                    } else {
                        assert(keys@.contains(ROOT_ID));
                    }
                } else {
                    assert(old(self)@.has_node(old(self)@.tree[parent][i]));
                }
            }
            assert forall|parent: usize| #[trigger] self@.tree.contains_key(parent) implies parent
                < self@.nodes.len() by {
                if parent >= base {
                    assert(graft.tree.contains_key((parent - base) as usize));
                }
            }
            assert(self@.wf());
            assert(self@ == expected);
        }
    }
}

impl<D: Decorator> ControlTree<D> {
    /// Extract a section of the [`ControlTree`] into a new one: the node
    /// `start_at` and all its descendants are cloned under a root of their
    /// own, and numbered anew.
    pub fn as_subtree(&self, start_at: CTreeNodeID) -> (out: Self)
        requires
            self@.wf(),
            self@.has_node(start_at),
        ensures
            exists|remap: Map<usize, usize>| self@.branch_copied(start_at.0, out@, remap),
    {
        let (order, held) = self.branch_order(start_at);
        let ghost places = places_of(held@, self@.nodes.len());
        let ghost table = table_of(places);
        let mut subtree = Self::new();
        let mut j: usize = 0;
        while j < order.len()
            invariant
                j <= order.len(),
                self@.branch_listed(start_at.0, order@, places),
                subtree@.nodes.len() == j + 1,
                subtree@.nodes[0] == TreeView::<D>::sapling().nodes[0],
                subtree@.tree == TreeView::<D>::sapling().tree,
                forall|k: int|
                    0 <= k < j ==> self@.nodes[order[k].0 as int].with_id(
                        Some(CTreeNodeID((k + 1) as usize)),
                    ).copied_to(#[trigger] subtree@.nodes[k + 1]),
            decreases order.len() - j,
        {
            assert(self@.has_node(order[j as int]));
            let mut node = self.nodes[order[j].0].clone();
            node.set_id(CTreeNodeID(j + 1));
            let ghost before = subtree@.nodes;
            subtree.nodes.push(node);
            proof {
                assert(subtree@.nodes =~= before.push(node@));
                assert forall|k: int| 0 <= k < j + 1 implies self@.nodes[order[k].0 as int].with_id(
                    Some(CTreeNodeID((k + 1) as usize)),
                ).copied_to(#[trigger] subtree@.nodes[k + 1]) by {
                    if k < j {
                        assert(subtree@.nodes[k + 1] == before[k + 1]);
                    }
                }
            }
            j += 1;
        }
        let ghost copies = subtree@.nodes;
        j = 0;
        while j < order.len()
            invariant
                j <= order.len(),
                self@.wf(),
                self@.branch_listed(start_at.0, order@, places),
                places == places_of(held@, self@.nodes.len()),
                table == table_of(places),
                subtree@.nodes == copies,
                forall|key: usize| subtree@.tree.contains_key(key) <==> key <= j,
                forall|k: int|
                    0 <= k < j ==> #[trigger] subtree@.tree[(k + 1) as usize]
                        == self@.tree[order[k].0].map_values(renumbered(table)),
            decreases order.len() - j,
        {
            assert(self@.has_node(order[j as int]));
            let children = self.children(&order[j]);
            proof {
                assert forall|k: int| 0 <= k < children@.len() implies (#[trigger] children@[k]).0
                    < places.len() && places[children@[k].0 as int] != 0 by {
                    let parent = order[j as int].0;
                    assert(self@.has_node(self@.tree[parent][k]));
                    assert(self@.tree[parent].contains(CTreeNodeID(children@[k].0)));
                    assert(places[parent as int] != 0);
                    lemma_reaches_step(self@, start_at.0, parent, children@[k].0);
                }
            }
            let renumbered_children = renumber(&children, &held, self.nodes.len());
            let ghost before = subtree@.tree;
            map_insert(&mut subtree.tree, j + 1, renumbered_children);
            proof {
                assert(subtree@.tree.dom() =~= before.dom().insert((j + 1) as usize));
                assert forall|key: usize| subtree@.tree.contains_key(key) <==> key <= j + 1 by {
                    assert(before.contains_key(key) <==> key <= j);
                }
                assert forall|k: int| 0 <= k < j + 1 implies #[trigger] subtree@.tree[(k
                    + 1) as usize] == self@.tree[order[k].0].map_values(renumbered(table)) by {
                    if k < j {
                        assert(before.contains_key((k + 1) as usize));
                        assert(subtree@.tree[(k + 1) as usize] == before[(k + 1) as usize]);
                    }
                }
            }
            j += 1;
        }
        let mut below_root: Vec<CTreeNodeID> = Vec::new();
        below_root.push(CTreeNodeID(1));
        let ghost before = subtree@.tree;
        map_insert(&mut subtree.tree, ROOT_ID, below_root);
        proof {
            assert(subtree@.tree[ROOT_ID] =~= seq![CTreeNodeID(1)]);
            assert(before.contains_key(ROOT_ID));
            assert(subtree@.tree.dom() =~= before.dom());
            assert forall|key: usize| subtree@.tree.contains_key(key) <==> key
                < subtree@.nodes.len() by {
                assert(before.contains_key(key) <==> key <= order.len());
            }
            assert forall|k: int| 0 <= k < order.len() implies #[trigger] subtree@.tree[(k
                + 1) as usize] == self@.tree[order[k].0].map_values(renumbered(table)) by {
                assert(before.contains_key((k + 1) as usize));
                assert(subtree@.tree[(k + 1) as usize] == before[(k + 1) as usize]);
            }
            assert forall|old: usize| #[trigger] table.contains_key(old) implies {
                &&& old < self@.nodes.len()
                &&& 1 <= table[old] < subtree@.nodes.len()
                &&& self@.nodes[old as int].with_id(Some(CTreeNodeID(table[old]))).copied_to(
                    subtree@.nodes[table[old] as int],
                )
                &&& subtree@.tree[table[old]] == self@.tree[old].map_values(renumbered(table))
            } by {
                assert(places[old as int] != 0);
                let k = places[old as int] - 1;
                assert(order[k] == CTreeNodeID(old));
                assert(subtree@.nodes[k + 1] == subtree@.nodes[table[old] as int]);
                assert(subtree@.tree[(k + 1) as usize] == self@.tree[order[k].0].map_values(
                    renumbered(table),
                ));
            }
            assert forall|old: usize| table.contains_key(old) <==> self@.reaches(
                start_at.0,
                old,
            ) by {
                if self@.reaches(start_at.0, old) {
                    let path = choose|path: Seq<usize>|
                        #[trigger] self@.is_path(path) && path.first() == start_at.0
                            && path.last() == old;
                    lemma_branch_in_tree(self@, path, path.len() - 1);
                    assert(places[old as int] != 0);
                } else if old < places.len() {
                    assert(places[old as int] == 0);
                }
            }
            assert forall|a: usize, b: usize|
                table.contains_key(a) && table.contains_key(b) && table[a] == table[b] implies a
                == b by {
                assert(places[a as int] != 0 && places[b as int] != 0);
                assert(order[places[a as int] - 1] == CTreeNodeID(a));
            }
            assert forall|new: usize| 1 <= new < subtree@.nodes.len() implies #[trigger] table.contains_value(
                new,
            ) by {
                let old = order[new - 1].0;
                assert(self@.has_node(order[new - 1]));
                assert(places[old as int] == new);
                assert(table.contains_key(old) && table[old] == new);
            }
            assert(places[order[0].0 as int] == 1);
            assert forall|parent: usize, i: int|
                subtree@.tree.contains_key(parent) && 0 <= i < subtree@.tree[parent].len()
                    implies subtree@.has_node(#[trigger] subtree@.tree[parent][i]) by {
                if parent != ROOT_ID {
                    let k = parent - 1;
                    let old = order[k].0;
                    assert(self@.has_node(order[k]));
                    assert(subtree@.tree[(k + 1) as usize] == self@.tree[old].map_values(
                        renumbered(table),
                    ));
                    let child = self@.tree[old][i];
                    assert(self@.has_node(child));
                    assert(self@.tree[old].contains(CTreeNodeID(child.0)));
                    assert(places[old as int] != 0);
                    lemma_reaches_step(self@, start_at.0, old, child.0);
                    assert(places[child.0 as int] != 0);
                    assert(table.contains_key(child.0));
                }
            }
            assert(subtree@.wf());
            assert(self@.branch_copied(start_at.0, subtree@, table));
        }
        subtree
    }

    /// Lists the branch below `start_at`, and gives each of its nodes a
    /// place: the node itself comes first, and the children of a node stand
    /// side by side.
    fn branch_order(&self, start_at: CTreeNodeID) -> (out: (Vec<CTreeNodeID>, IdMap<usize>))
        requires
            self@.wf(),
            self@.has_node(start_at),
        ensures
            self@.branch_listed(start_at.0, out.0@, places_of(out.1@, self@.nodes.len())),
    {
        let count = self.nodes.len();
        let mut held: IdMap<usize> = IdMap::default();
        let mut order: Vec<CTreeNodeID> = Vec::new();
        order.push(start_at);
        map_insert(&mut held, start_at.0, 1);
        let ghost mut places: Seq<usize> = places_of(held@, count as nat);
        let mut to_visit: Vec<CTreeNodeID> = Vec::new();
        to_visit.push(start_at);
        let ghost mut done: Set<int> = Set::empty();
        proof {
            lemma_reaches_self(self@, start_at.0);
            vstd::set_lib::lemma_int_range(0, count as int);
            assert(to_visit@[0] == CTreeNodeID(start_at.0));
        }
        while to_visit.len() > 0
            invariant
                self@.wf(),
                self@.has_node(start_at),
                count == self@.nodes.len(),
                places.len() == count,
                places == places_of(held@, count as nat),
                order.len() >= 1,
                order.len() <= count,
                order[0] == start_at,
                done.subset_of(vstd::set_lib::set_int_range(0, count as int)),
                vstd::set_lib::set_int_range(0, count as int).finite(),
                vstd::set_lib::set_int_range(0, count as int).len() == count,
                forall|i: int|
                    0 <= i < count && #[trigger] places[i] != 0 ==> {
                        &&& self@.reaches(start_at.0, i as usize)
                        &&& 1 <= places[i] <= order.len()
                        &&& order[places[i] - 1] == CTreeNodeID(i as usize)
                    },
                forall|j: int|
                    0 <= j < order.len() ==> {
                        &&& self@.has_node(#[trigger] order[j])
                        &&& places[order[j].0 as int] == j + 1
                    },
                forall|j: int|
                    0 <= j < to_visit.len() ==> {
                        &&& self@.has_node(#[trigger] to_visit[j])
                        &&& places[to_visit[j].0 as int] != 0
                        &&& !done.contains(to_visit[j].0 as int)
                    },
                forall|j: int, k: int|
                    0 <= j < k < to_visit.len() ==> to_visit[j] != to_visit[k],
                forall|i: int|
                    0 <= i < count && places[i] != 0 ==> done.contains(i) || to_visit@.contains(
                        CTreeNodeID(i as usize),
                    ),
                forall|i: int| done.contains(i) ==> 0 <= i < count && places[i] != 0,
                forall|parent: usize, child: usize|
                    done.contains(parent as int) && #[trigger] self@.is_edge(parent, child)
                        ==> places[child as int] != 0,
            decreases count - done.len(),
        {
            let ghost stack = to_visit@;
            let old_id = to_visit.pop().unwrap();
            assert(old_id == stack[stack.len() - 1]);
            proof {
                vstd::set_lib::lemma_len_subset(
                    done.insert(old_id.0 as int),
                    vstd::set_lib::set_int_range(0, count as int),
                );
            }
            let children = self.children(&old_id);
            assert forall|i: int| 0 <= i < count && places[i] != 0 implies done.contains(i) || i
                == old_id.0 || to_visit@.contains(CTreeNodeID(i as usize)) by {
                if !done.contains(i) && i != old_id.0 {
                    let j = choose|j: int| 0 <= j < stack.len() && stack[j] == CTreeNodeID(i as usize);
                    assert(to_visit@[j] == CTreeNodeID(i as usize));
                }
            }
            let ghost places_start = places;
            let mut c: usize = 0;
            while c < children.len()
                invariant
                    self@.wf(),
                    self@.has_node(start_at),
                    self@.has_node(old_id),
                    c <= children.len(),
                    children@ == self@.tree[old_id.0],
                    count == self@.nodes.len(),
                    places.len() == count,
                places == places_of(held@, count as nat),
                    places[old_id.0 as int] != 0,
                    !done.contains(old_id.0 as int),
                    order.len() >= 1,
                    order.len() <= count,
                    order[0] == start_at,
                    forall|k: int| 0 <= k < c ==> places[(#[trigger] children[k]).0 as int] != 0,
                    forall|i: int|
                        0 <= i < count && #[trigger] places[i] != 0 ==> {
                            &&& self@.reaches(start_at.0, i as usize)
                            &&& 1 <= places[i] <= order.len()
                            &&& order[places[i] - 1] == CTreeNodeID(i as usize)
                        },
                    forall|j: int|
                        0 <= j < order.len() ==> {
                            &&& self@.has_node(#[trigger] order[j])
                            &&& places[order[j].0 as int] == j + 1
                        },
                    forall|j: int|
                        0 <= j < to_visit.len() ==> {
                            &&& self@.has_node(#[trigger] to_visit[j])
                            &&& places[to_visit[j].0 as int] != 0
                            &&& !done.contains(to_visit[j].0 as int)
                            &&& to_visit[j] != old_id
                        },
                    forall|j: int, k: int|
                        0 <= j < k < to_visit.len() ==> to_visit[j] != to_visit[k],
                    forall|i: int|
                        0 <= i < count && places[i] != 0 ==> done.contains(i) || i == old_id.0
                            || to_visit@.contains(CTreeNodeID(i as usize)),
                    forall|i: int| done.contains(i) ==> 0 <= i < count && places[i] != 0,
                    forall|i: int| 0 <= i < count && places_start[i] != 0 ==> places[i] != 0,
                decreases children.len() - c,
            {
                let child = children[c];
                assert(self@.has_node(self@.tree[old_id.0][c as int]));
                let place = match map_get(&held, child.0) {
                    Some(place) => *place,
                    None => 0,
                };
                assert(place == places[child.0 as int]);
                if place == 0 {
                    let ghost stack_now = to_visit@;
                    let ghost order_now = order@;
                    let ghost places_now = places;
                    proof {
                        let listed = order@.push(child);
                        assert forall|i: int, j: int|
                            0 <= i < listed.len() && 0 <= j < listed.len() && i != j
                                implies listed[i] != listed[j] by {
                            if i < order@.len() {
                                assert(places[order[i].0 as int] == i + 1);
                            }
                            if j < order@.len() {
                                assert(places[order[j].0 as int] == j + 1);
                            }
                        }
                        assert forall|i: int| 0 <= i < listed.len() implies (#[trigger] listed[i]).0
                            < count by {
                            if i < order@.len() {
                                assert(self@.has_node(order[i]));
                            }
                        }
                        super::validation::lemma_distinct_bounded(listed, count as nat);
                    }
                    order.push(child);
                    map_insert(&mut held, child.0, order.len());
                    proof {
                        places = places.update(child.0 as int, order.len() as usize);
                        assert(places =~= places_of(held@, count as nat));
                    }
                    to_visit.push(child);
                    proof {
                        assert(self@.tree[old_id.0].contains(CTreeNodeID(child.0)));
                        lemma_reaches_step(self@, start_at.0, old_id.0, child.0);
                        assert forall|i: int| 0 <= i < count && places[i] != 0 implies done.contains(
                            i,
                        ) || i == old_id.0 || to_visit@.contains(CTreeNodeID(i as usize)) by {
                            if i == child.0 {
                                assert(to_visit@[stack_now.len() as int] == child);
                            } else if !done.contains(i) && i != old_id.0 {
                                let j = choose|j: int|
                                    0 <= j < stack_now.len() && stack_now[j] == CTreeNodeID(
                                        i as usize,
                                    );
                                assert(to_visit@[j] == CTreeNodeID(i as usize));
                            }
                        }
                        assert forall|j: int| 0 <= j < order.len() implies {
                            &&& self@.has_node(#[trigger] order[j])
                            &&& places[order[j].0 as int] == j + 1
                        } by {
                            if j < order_now.len() {
                                assert(places_now[order_now[j].0 as int] == j + 1);
                            }
                        }
                        assert forall|i: int| 0 <= i < count && #[trigger] places[i] != 0 implies {
                            &&& self@.reaches(start_at.0, i as usize)
                            &&& 1 <= places[i] <= order.len()
                            &&& order[places[i] - 1] == CTreeNodeID(i as usize)
                        } by {
                            if i != child.0 {
                                assert(places_now[i] != 0);
                            }
                        }
                    }
                }
                c += 1;
            }
            proof {
                done = done.insert(old_id.0 as int);
                assert forall|parent: usize, child: usize|
                    done.contains(parent as int) && #[trigger] self@.is_edge(
                        parent,
                        child,
                    ) implies places[child as int] != 0 by {
                    if parent == old_id.0 {
                        let k = choose|k: int|
                            0 <= k < children@.len() && children@[k] == CTreeNodeID(child);
                        assert(places[children[k].0 as int] != 0);
                    } else {
                        assert(places_start[child as int] != 0);
                    }
                }
            }
        }
        proof {
            assert forall|i: int| 0 <= i < places.len() implies (#[trigger] places[i] != 0
                <==> self@.reaches(start_at.0, i as usize)) by {
                if self@.reaches(start_at.0, i as usize) {
                    let path = choose|path: Seq<usize>|
                        #[trigger] self@.is_path(path) && path.first() == start_at.0
                            && path.last() == i as usize;
                    assert forall|parent: usize, child: usize|
                        done.contains(parent as int) && #[trigger] self@.is_edge(
                            parent,
                            child,
                        ) implies done.contains(child as int) by {
                        let at = choose|at: int|
                            0 <= at < self@.tree[parent].len() && self@.tree[parent][at]
                                == CTreeNodeID(child);
                        assert(self@.has_node(self@.tree[parent][at]));
                        assert(places[child as int] != 0);
                    }
                    lemma_closed_holds_reached(self@, done, path, path.len() - 1);
                }
            }
        }
        (order, held)
    }
}

} // verus!
