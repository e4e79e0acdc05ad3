//! The copy of a branch of a valid tree is a valid tree, and a valid tree
//! that is put into a valid tree leaves a valid tree.

use super::subtree::wrapping;
use super::{CTreeNodeID, CTreeNodeView, TreeView, ROOT_ID};
use crate::traits::Decorator;
use vstd::prelude::*;

verus! {

/// The ids moved down by `base`.
pub open spec fn unshifted(base: usize) -> spec_fn(CTreeNodeID) -> CTreeNodeID {
    |id: CTreeNodeID| CTreeNodeID((id.0 - base) as usize)
}

/// A walk in a tree that another tree was put into, once it has come to a
/// node of that other tree, stays among its nodes.
proof fn lemma_walk_stays_in_graft<D: Decorator>(
    target: TreeView<D>,
    from: usize,
    priority: usize,
    graft: TreeView<D>,
    wrapper: CTreeNodeView<D>,
    walk: Seq<CTreeNodeID>,
    at: int,
    later: int,
)
    requires
        target.wf(),
        graft.wf(),
        target.nodes.len() + graft.nodes.len() <= usize::MAX,
        target.add_subtree(from, priority, graft, wrapper).is_walk(walk),
        0 <= at <= later < walk.len(),
        walk[at].0 >= target.nodes.len(),
    ensures
        walk[later].0 >= target.nodes.len(),
    decreases later - at,
{
    if at < later {
        lemma_walk_stays_in_graft(target, from, priority, graft, wrapper, walk, at, later - 1);
        let grafted = target.add_subtree(from, priority, graft, wrapper);
        let base = target.nodes.len() as usize;
        let parent = walk[later - 1];
        assert(grafted.is_edge(parent.0, walk[later - 1 + 1].0));
        let listed = graft.tree[(parent.0 - base) as usize];
        let k = choose|k: int|
            0 <= k < listed.len() && listed.map_values(super::subtree::shifted(base))[k]
                == CTreeNodeID(walk[later].0);
        assert(graft.has_node(listed[k]));
    }
}

/// A valid tree that is put below a node of a valid tree, under a
/// decorator of its own, leaves a valid tree, where that node is no
/// decorator and the tree that is put in has one node below its root.
pub proof fn lemma_spliced_tree_is_valid<D: Decorator>(
    target: TreeView<D>,
    from: usize,
    priority: usize,
    graft: TreeView<D>,
    wrapper: D,
)
    requires
        target.wf(),
        target.valid(),
        target.has_node(CTreeNodeID(from)),
        !(target.nodes[from as int] matches CTreeNodeView::Control(control)
            && control.node_type is Decorator),
        graft.wf(),
        graft.valid(),
        graft.tree[ROOT_ID].len() == 1,
        target.nodes.len() + graft.nodes.len() <= usize::MAX,
    ensures
        target.add_subtree(from, priority, graft, wrapping(wrapper)).valid(),
{
    let base = target.nodes.len() as usize;
    let grafted = target.add_subtree(from, priority, graft, wrapping(wrapper));
    let siblings = target.children_of(from);
    let index = if priority < siblings.len() {
        priority as int
    } else {
        siblings.len() as int
    };
    assert forall|cycle: Seq<CTreeNodeID>| !grafted.is_cycle(cycle) by {
        if grafted.is_cycle(cycle) {
            if exists|i: int| 0 <= i < cycle.len() && (#[trigger] cycle[i]).0 >= base {
                let i = choose|i: int| 0 <= i < cycle.len() && (#[trigger] cycle[i]).0 >= base;
                lemma_walk_stays_in_graft(
                    target,
                    from,
                    priority,
                    graft,
                    wrapping(wrapper),
                    cycle,
                    i,
                    cycle.len() - 1,
                );
                assert(cycle[0].0 >= base);
                let inner = cycle.map_values(unshifted(base));
                assert forall|j: int| 0 <= j < cycle.len() implies (#[trigger] cycle[j]).0
                    >= base by {
                    lemma_walk_stays_in_graft(
                        target,
                        from,
                        priority,
                        graft,
                        wrapping(wrapper),
                        cycle,
                        0,
                        j,
                    );
                }
                assert forall|j: int| 0 <= j < inner.len() - 1 implies graft.is_edge(
                    (#[trigger] inner[j]).0,
                    inner[j + 1].0,
                ) by {
                    assert(cycle[j].0 >= base && cycle[j + 1].0 >= base);
                    assert(grafted.is_edge(cycle[j].0, cycle[j + 1].0));
                    let listed = graft.tree[(cycle[j].0 - base) as usize];
                    let k = choose|k: int|
                        0 <= k < listed.len() && listed.map_values(
                            super::subtree::shifted(base),
                        )[k] == CTreeNodeID(cycle[j + 1].0);
                    assert(graft.has_node(listed[k]));
                    assert(listed[k] == CTreeNodeID(inner[j + 1].0));
                }
                assert(graft.is_walk(inner));
                assert(inner.drop_last() =~= cycle.drop_last().map_values(unshifted(base)));
                assert forall|a: int, b: int|
                    0 <= a < inner.len() - 1 && 0 <= b < inner.len() - 1 && a
                        != b implies inner.drop_last()[a] != inner.drop_last()[b] by {
                    assert(cycle.drop_last()[a] != cycle.drop_last()[b]);
                    assert(cycle[a].0 >= base && cycle[b].0 >= base);
                }
                assert(graft.is_cycle(inner));
            } else {
                assert forall|j: int| 0 <= j < cycle.len() - 1 implies target.is_edge(
                    (#[trigger] cycle[j]).0,
                    cycle[j + 1].0,
                ) by {
                    assert(cycle[j].0 < base && cycle[j + 1].0 < base);
                    assert(grafted.is_edge(cycle[j].0, cycle[j + 1].0));
                    if cycle[j].0 == from {
                        let listed = siblings.insert(index, CTreeNodeID(base));
                        let k = choose|k: int|
                            0 <= k < listed.len() && listed[k] == CTreeNodeID(cycle[j + 1].0);
                        if k < index {
                            assert(siblings[k] == CTreeNodeID(cycle[j + 1].0));
                        } else {
                            assert(k != index);
                            assert(siblings[k - 1] == CTreeNodeID(cycle[j + 1].0));
                        }
                    }
                }
                assert(target.is_cycle(cycle));
            }
        }
    }
    assert forall|i: int| !grafted.bad_decorator(i) && !grafted.dangling(i) by {
        if 0 <= i < base {
            assert(grafted.nodes[i] == target.nodes[i]);
            assert(!target.bad_decorator(i) && !target.dangling(i));
            if i == from {
                assert(grafted.tree[from].len() == siblings.len() + 1);
            }
        } else if i == base {
            assert(grafted.tree[base].len() == graft.tree[ROOT_ID].len());
        } else if base < i < grafted.nodes.len() {
            let k = i - base;
            let pushed = target.nodes.push(wrapping(wrapper).with_id(Some(CTreeNodeID(base))));
            assert(pushed.len() == base + 1);
            assert(grafted.nodes.len() == base + graft.nodes.len());
            assert(0 < k < graft.nodes.len());
            assert(grafted.nodes[i] == graft.nodes[(k - 1) + 1].with_id(
                Some(CTreeNodeID((base + (k - 1) + 1) as usize)),
            ));
            assert(grafted.nodes[i] == graft.nodes[k].with_id(Some(CTreeNodeID(i as usize))));
            assert(!graft.bad_decorator(k) && !graft.dangling(k));
            if grafted.tree.contains_key(i as usize) {
                assert(graft.tree.contains_key(k as usize));
                assert(grafted.tree[i as usize].len() == graft.tree[k as usize].len());
            }
        }
    }
}

/// The node of a branch that stands at the place `new` of its copy.
pub open spec fn copied_from(remap: Map<usize, usize>, new: usize) -> usize {
    choose|old: usize| remap.contains_key(old) && #[trigger] remap[old] == new
}

/// A node of a branch that was reached is listed in the tree.
proof fn lemma_reached_is_listed<D: Decorator>(tree: TreeView<D>, start: usize, to: usize)
    requires
        tree.wf(),
        tree.has_node(CTreeNodeID(start)),
        tree.reaches(start, to),
    ensures
        tree.has_node(CTreeNodeID(to)),
{
    let path = choose|path: Seq<usize>|
        #[trigger] tree.is_path(path) && path.first() == start && path.last() == to;
    if path.len() > 1 {
        let parent = path[path.len() - 2];
        assert(tree.is_edge(parent, path[path.len() - 2 + 1]));
        let k = choose|k: int|
            0 <= k < tree.tree[parent].len() && tree.tree[parent][k] == CTreeNodeID(to);
        assert(tree.has_node(tree.tree[parent][k]));
    }
}

/// The copy of a branch of a valid tree is a valid tree.
pub proof fn lemma_copied_branch_is_valid<D: Decorator>(
    source: TreeView<D>,
    start: usize,
    copy: TreeView<D>,
    remap: Map<usize, usize>,
)
    requires
        source.wf(),
        source.valid(),
        source.has_node(CTreeNodeID(start)),
        source.branch_copied(start, copy, remap),
        copy.nodes.len() <= usize::MAX,
    ensures
        copy.valid(),
        copy.tree[ROOT_ID].len() == 1,
{
    // what stands at a place of the copy but the first came from the branch
    assert forall|new: usize|
        #![trigger copied_from(remap, new)]
        1 <= new < copy.nodes.len() implies remap.contains_key(copied_from(remap, new))
        && remap[copied_from(remap, new)] == new by {
        assert(remap.contains_value(new));
        let old = choose|old: usize| remap.contains_key(old) && remap[old] == new;
        assert(remap.contains_key(old) && remap[old] == new);
    }
    // the children of a node of the copy are copies of the children of the node
    assert forall|new: usize, k: int|
        1 <= new < copy.nodes.len() && 0 <= k < copy.tree[new].len() implies {
        let old = copied_from(remap, new);
        &&& k < source.tree[old].len()
        &&& remap.contains_key(source.tree[old][k].0)
        &&& (#[trigger] copy.tree[new][k]).0 == remap[source.tree[old][k].0]
        &&& 1 <= copy.tree[new][k].0 < copy.nodes.len()
        &&& source.is_edge(old, source.tree[old][k].0)
    } by {
        let old = copied_from(remap, new);
        assert(remap.contains_key(old));
        assert(source.reaches(start, old));
        lemma_reached_is_listed(source, start, old);
        let child = source.tree[old][k];
        assert(source.tree[old].contains(CTreeNodeID(child.0)));
        super::engine::lemma_reaches_step(source, start, old, child.0);
        assert(remap.contains_key(child.0));
    }
    assert forall|cycle: Seq<CTreeNodeID>| !copy.is_cycle(cycle) by {
        if copy.is_cycle(cycle) {
            // no child is the root of the copy, so the way leads past it
            assert forall|i: int| 0 <= i < cycle.len() implies 1 <= (#[trigger] cycle[i]).0
                < copy.nodes.len() by {
                let before = if i == 0 {
                    cycle.len() - 2
                } else {
                    i - 1
                };
                assert(copy.is_edge(cycle[before].0, cycle[before + 1].0));
                assert(cycle[before + 1] == cycle[i]);
                let parent = cycle[before].0;
                let k = choose|k: int|
                    0 <= k < copy.tree[parent].len() && copy.tree[parent][k] == CTreeNodeID(
                        cycle[i].0,
                    );
                assert(parent < copy.nodes.len());
                if parent >= 1 {
                    assert(1 <= copy.tree[parent][k].0 < copy.nodes.len());
                }
            }
            let inner = Seq::new(cycle.len(), |i: int| CTreeNodeID(copied_from(remap, cycle[i].0)));
            assert forall|i: int| 0 <= i < inner.len() - 1 implies source.is_edge(
                (#[trigger] inner[i]).0,
                inner[i + 1].0,
            ) by {
                let new = cycle[i].0;
                assert(1 <= new < copy.nodes.len());
                assert(1 <= cycle[i + 1].0 < copy.nodes.len());
                assert(copy.is_edge(new, cycle[i + 1].0));
                let k = choose|k: int|
                    0 <= k < copy.tree[new].len() && copy.tree[new][k] == CTreeNodeID(
                        cycle[i + 1].0,
                    );
                let old = copied_from(remap, new);
                assert(remap[source.tree[old][k].0] == copy.tree[new][k].0);
                assert(source.tree[old][k].0 == copied_from(remap, cycle[i + 1].0));
            }
            assert(source.is_walk(inner));
            assert forall|a: int, b: int|
                0 <= a < inner.len() - 1 && 0 <= b < inner.len() - 1 && a
                    != b implies inner.drop_last()[a] != inner.drop_last()[b] by {
                assert(cycle.drop_last()[a] != cycle.drop_last()[b]);
                assert(1 <= cycle[a].0 < copy.nodes.len());
                assert(1 <= cycle[b].0 < copy.nodes.len());
            }
            assert(source.is_cycle(inner));
        }
    }
    assert forall|i: int| !copy.bad_decorator(i) && !copy.dangling(i) by {
        if 1 <= i < copy.nodes.len() && copy.tree.contains_key(i as usize) {
            let old = copied_from(remap, i as usize);
            assert(remap.contains_key(old) && remap[old] == i);
            assert(source.reaches(start, old));
            lemma_reached_is_listed(source, start, old);
            assert(!source.bad_decorator(old as int) && !source.dangling(old as int));
            assert(source.nodes[old as int].with_id(Some(CTreeNodeID(remap[old]))).copied_to(
                copy.nodes[remap[old] as int],
            ));
            assert(copy.tree[i as usize].len() == source.tree[old].len());
        }
    }
}

} // verus!
