use shrubbery::control::control_nodes::ControlNode;
use shrubbery::control::decorators::StandardDecorator;
use shrubbery::control::simple_executors::LeafLogger;
use shrubbery::control::CTreeNode;
use shrubbery::control::CTreeNodeID;
use shrubbery::control::ControlTree;
use shrubbery::control::LeafNode;
use shrubbery::control::ROOT_ID;
use shrubbery::ShrubberyError;
use shrubbery::Status;

type Node = ControlNode<StandardDecorator>;
type Tree = ControlTree<StandardDecorator>;

fn root() -> CTreeNodeID {
    CTreeNodeID(ROOT_ID)
}

fn ids(raw: &[usize]) -> Vec<CTreeNodeID> {
    raw.iter().map(|id| CTreeNodeID(*id)).collect()
}

fn three_leaves() -> Tree {
    let mut tree = Tree::new();
    for _ in 0..3 {
        tree.add_child(root(), LeafNode::default()).unwrap();
    }
    tree
}

#[test]
fn new_tree_is_a_root_without_children() {
    let tree = Tree::new();
    assert_eq!(tree.nodes.len(), 1);
    assert!(tree.nodes[0].is_root());
    assert_eq!(tree.children(&root()), vec![]);
    assert_eq!(tree.iter_tree(), vec![(root(), vec![])]);
    assert_eq!(tree.status(), Status::Running);
    assert!(tree[root()].is_root());
    assert_eq!(Tree::default().nodes.len(), 1);
}

#[test]
fn children_are_numbered_as_they_come() {
    let mut tree = Tree::new();
    assert_eq!(tree.add_child(root(), Node::sequence()), Ok(CTreeNodeID(1)));
    assert_eq!(tree.add_child(CTreeNodeID(1), LeafNode::default()), Ok(CTreeNodeID(2)));
    assert_eq!(tree.add_child(root(), LeafNode::default()), Ok(CTreeNodeID(3)));
    assert_eq!(tree.children(&root()), ids(&[1, 3]));
    assert_eq!(tree.children(&CTreeNodeID(1)), ids(&[2]));
    assert_eq!(tree.children(&CTreeNodeID(2)), vec![]);
    assert_eq!(tree.iter_child_ids(&root()), ids(&[1, 3]));
    assert_eq!(tree.nodes[2].id(), Some(CTreeNodeID(2)));
    assert_eq!(tree.nodes[1].id(), Some(CTreeNodeID(1)));
    assert!(tree.nodes[1].is_control());
    let below_root = tree.iter_children(&root());
    assert_eq!(below_root.len(), 2);
    assert!(below_root[0].is_control() && below_root[1].is_leaf());
    assert_eq!(tree.iter_control_nodes().len(), 1);
    assert_eq!(tree.iter_decorators().len(), 0);
    let mut entries = tree.iter_tree();
    entries.sort_by_key(|(parent, _)| parent.index());
    assert_eq!(
        entries,
        vec![
            (root(), ids(&[1, 3])),
            (CTreeNodeID(1), ids(&[2])),
            (CTreeNodeID(2), vec![]),
            (CTreeNodeID(3), vec![]),
        ]
    );
}

#[test]
fn priority_is_the_place_among_the_siblings() {
    let mut tree = Tree::new();
    tree.add_child_with_priority(root(), LeafNode::default(), 0).unwrap();
    assert_eq!(tree.children(&root()), ids(&[1]));
    tree.add_child_with_priority(root(), LeafNode::default(), 0).unwrap();
    assert_eq!(tree.children(&root()), ids(&[2, 1]));
    tree.add_child_with_priority(root(), LeafNode::default(), 1).unwrap();
    assert_eq!(tree.children(&root()), ids(&[2, 3, 1]));
    tree.add_child_with_priority(root(), LeafNode::default(), 10).unwrap();
    assert_eq!(tree.children(&root()), ids(&[2, 3, 1, 4]));
    tree.add_child_with_priority(root(), LeafNode::default(), 4).unwrap();
    assert_eq!(tree.children(&root()), ids(&[2, 3, 1, 4, 5]));
}

#[test]
fn priority_decides_the_order_of_the_run() {
    let mut tree = Tree::new();
    tree.add_child_with_priority(root(), LeafNode::default(), 0).unwrap();
    tree.add_child_with_priority(root(), LeafNode::default(), 0).unwrap();
    tree.add_child_with_priority(root(), LeafNode::default(), 1).unwrap();
    let mut logger = LeafLogger::default();
    assert_eq!(tree.run(&mut logger), Status::Success);
    let visited = logger.updates.iter().map(|u| u.child_id).collect::<Vec<_>>();
    assert_eq!(visited, ids(&[2, 3, 1]));
}

#[test]
fn remove_drops_the_references_and_keeps_the_node() {
    let mut tree = Tree::new();
    tree.add_child(root(), Node::sequence()).unwrap();
    tree.add_child(CTreeNodeID(1), LeafNode::default()).unwrap();
    tree.add_child(root(), LeafNode::default()).unwrap();
    tree.add_child(CTreeNodeID(1), LeafNode::default()).unwrap();
    tree.remove(CTreeNodeID(2));
    assert_eq!(tree.children(&root()), ids(&[1, 3]));
    assert_eq!(tree.children(&CTreeNodeID(1)), ids(&[4]));
    assert_eq!(tree.nodes.len(), 5);
    assert_eq!(tree.nodes[2].id(), Some(CTreeNodeID(2)));
    let mut keys = tree
        .iter_tree()
        .into_iter()
        .map(|(parent, _)| parent.index())
        .collect::<Vec<_>>();
    keys.sort();
    assert_eq!(keys, vec![0, 1, 3, 4]);

    tree.remove(CTreeNodeID(1));
    assert_eq!(tree.children(&root()), ids(&[3]));
    let mut keys = tree
        .iter_tree()
        .into_iter()
        .map(|(parent, _)| parent.index())
        .collect::<Vec<_>>();
    keys.sort();
    assert_eq!(keys, vec![0, 3, 4]);
}

#[test]
fn a_removed_node_is_put_back_under_its_id() {
    let mut tree = Tree::new();
    tree.add_child(root(), Node::sequence()).unwrap();
    tree.add_child(CTreeNodeID(1), LeafNode::default()).unwrap();
    tree.add_child(root(), LeafNode::default()).unwrap();
    tree.remove(CTreeNodeID(2));
    assert_eq!(tree.children(&CTreeNodeID(1)), vec![]);

    let mut moved = tree.nodes[2].clone();
    if let Some(leaf) = moved.try_as_leaf_mut() {
        leaf.name = Some("again".to_string());
    }
    assert_eq!(tree.add_child(root(), moved), Ok(CTreeNodeID(2)));
    assert_eq!(tree.children(&root()), ids(&[1, 3, 2]));
    assert_eq!(tree.children(&CTreeNodeID(2)), vec![]);
    assert_eq!(tree.nodes.len(), 4);
    assert_eq!(
        tree.nodes[2].try_as_leaf().unwrap().name,
        Some("again".to_string())
    );
}

#[test]
fn an_id_that_names_no_place_is_not_kept() {
    let mut tree = three_leaves();
    let stranger = LeafNode {
        id: Some(CTreeNodeID(77)),
        ..LeafNode::default()
    };
    assert_eq!(tree.add_child(root(), stranger), Ok(CTreeNodeID(4)));
    assert_eq!(tree.nodes[4].id(), Some(CTreeNodeID(4)));
    let would_be_root = LeafNode {
        id: Some(CTreeNodeID(0)),
        ..LeafNode::default()
    };
    assert_eq!(tree.add_child(root(), would_be_root), Ok(CTreeNodeID(5)));
    assert!(tree.nodes[0].is_root());
    assert_eq!(tree.nodes.len(), 6);
    assert_eq!(tree.children(&root()), ids(&[1, 2, 3, 4, 5]));
}

#[test]
fn a_child_that_closes_a_cycle_is_refused() {
    let mut tree = Tree::new();
    tree.add_child(root(), Node::sequence()).unwrap();
    tree.add_child(CTreeNodeID(1), Node::sequence()).unwrap();
    let mut above = Node::sequence();
    above.id = Some(CTreeNodeID(1));
    let result = tree.add_child(CTreeNodeID(2), above);
    assert_eq!(
        result,
        Err(ShrubberyError::CycleDetected(ids(&[2, 1, 2])))
    );
    // the tree is as it was
    assert_eq!(tree.children(&CTreeNodeID(2)), vec![]);
    assert_eq!(tree.children(&CTreeNodeID(1)), ids(&[2]));
    assert_eq!(tree.children(&root()), ids(&[1]));
    let mut keys = tree
        .iter_tree()
        .into_iter()
        .map(|(parent, _)| parent.index())
        .collect::<Vec<_>>();
    keys.sort();
    assert_eq!(keys, vec![0, 1, 2]);
    assert_eq!(tree.nodes.len(), 3);
    assert_eq!(tree[CTreeNodeID(1)].id(), Some(CTreeNodeID(1)));
    assert_eq!(tree.check_for_cycles(), Ok(()));
}

#[test]
fn a_refused_child_leaves_the_node_whose_id_it_carries() {
    let mut tree = Tree::new();
    tree.add_child(root(), Node::sequence()).unwrap();
    tree.add_child(CTreeNodeID(1), LeafNode::default()).unwrap();
    tree.add_child(CTreeNodeID(1), Node::fallback()).unwrap();
    let before = tree.clone();
    // a parallel that carries the id of the sequence, put below the fallback
    let mut above = Node::parallel();
    above.id = Some(CTreeNodeID(1));
    let result = tree.add_child_with_priority(CTreeNodeID(3), above, 0);
    assert_eq!(
        result,
        Err(ShrubberyError::CycleDetected(ids(&[3, 1, 3])))
    );
    assert_eq!(tree.nodes, before.nodes);
    for id in 0..4 {
        assert_eq!(tree.children(&CTreeNodeID(id)), before.children(&CTreeNodeID(id)));
    }
    assert_eq!(tree.iter_tree().len(), 4);
    assert!(tree.validate_bt_rules().is_err());

    // a node that carries its parent's id closes the shortest cycle
    let mut same = Node::sequence();
    same.id = Some(CTreeNodeID(3));
    assert_eq!(
        tree.add_child(CTreeNodeID(3), same),
        Err(ShrubberyError::CycleDetected(ids(&[3, 3])))
    );
    assert_eq!(tree.nodes, before.nodes);
    assert_eq!(tree.children(&CTreeNodeID(3)), vec![]);

    // a node for a new place is added with the entry points for nodes, too
    let leaf = CTreeNode::Leaf(LeafNode::default());
    assert_eq!(tree.add_node(CTreeNodeID(3), leaf), Ok(CTreeNodeID(4)));
    let first = CTreeNode::Leaf(LeafNode::default());
    assert_eq!(tree.add_node_with_priority(CTreeNodeID(1), first, 0), Ok(CTreeNodeID(5)));
    assert_eq!(tree.children(&CTreeNodeID(1)), ids(&[5, 2, 3]));
    let last = CTreeNode::Leaf(LeafNode::default());
    assert_eq!(tree.attach(CTreeNodeID(1), last, 1), CTreeNodeID(6));
    assert_eq!(tree.children(&CTreeNodeID(1)), ids(&[5, 6, 2, 3]));
}

#[test]
fn insert_between_one_child() {
    let mut tree = three_leaves();
    let inserted = tree.insert_between(root(), &[CTreeNodeID(2)], Node::sequence());
    assert_eq!(inserted, CTreeNodeID(4));
    assert_eq!(tree.children(&root()), ids(&[1, 4, 3]));
    assert_eq!(tree.children(&inserted), ids(&[2]));
    assert_eq!(tree.nodes[4].id(), Some(inserted));
}

#[test]
fn insert_between_two_children() {
    let mut tree = three_leaves();
    let inserted = tree.insert_between(
        root(),
        &[CTreeNodeID(1), CTreeNodeID(3)],
        Node::sequence(),
    );
    assert_eq!(inserted, CTreeNodeID(4));
    assert_eq!(tree.children(&root()), ids(&[4, 2]));
    assert_eq!(tree.children(&inserted), ids(&[1, 3]));
}

#[test]
fn insert_between_keeps_the_given_order() {
    let mut tree = three_leaves();
    let inserted = tree.insert_between(
        root(),
        &[CTreeNodeID(3), CTreeNodeID(2)],
        Node::parallel(),
    );
    assert_eq!(tree.children(&root()), ids(&[1, 4]));
    assert_eq!(tree.children(&inserted), ids(&[3, 2]));
    let mut logger = LeafLogger::default();
    assert_eq!(tree.run(&mut logger), Status::Success);
    let visited = logger.updates.iter().map(|u| u.child_id).collect::<Vec<_>>();
    assert_eq!(visited, ids(&[1, 3, 2]));
}

#[test]
fn insert_between_all_children() {
    let mut tree = three_leaves();
    let all = tree.children(&root());
    let inserted = tree.insert_between(root(), &all, Node::fallback());
    assert_eq!(tree.children(&root()), ids(&[4]));
    assert_eq!(tree.children(&inserted), ids(&[1, 2, 3]));
    assert_eq!(tree.validate_bt_rules(), Ok(()));
}

#[test]
fn validation_names_the_first_rule_that_is_broken() {
    let mut tree = Tree::new();
    assert_eq!(tree.validate_bt_rules(), Ok(()));
    tree.add_child(root(), Node::sequence()).unwrap();
    assert_eq!(
        tree.validate_bt_rules(),
        Err(ShrubberyError::DanglingControlNode(CTreeNodeID(1)))
    );
    assert_eq!(
        tree.check_for_dangling_control(),
        Err(ShrubberyError::DanglingControlNode(CTreeNodeID(1)))
    );
    assert_eq!(tree.validate_decorators(), Ok(()));
    tree.add_child(root(), Node::inverter()).unwrap();
    assert_eq!(
        tree.validate_bt_rules(),
        Err(ShrubberyError::InvalidDecorator {
            decorator: CTreeNodeID(2),
            children: vec![],
        })
    );
    tree.add_child(CTreeNodeID(2), LeafNode::default()).unwrap();
    tree.add_child(CTreeNodeID(1), LeafNode::default()).unwrap();
    assert_eq!(tree.validate_bt_rules(), Ok(()));
    tree.add_child(CTreeNodeID(2), LeafNode::default()).unwrap();
    assert_eq!(
        tree.validate_decorators(),
        Err(ShrubberyError::InvalidDecorator {
            decorator: CTreeNodeID(2),
            children: ids(&[3, 5]),
        })
    );
    // a node that was removed is no part of the tree
    tree.remove(CTreeNodeID(2));
    assert_eq!(tree.validate_bt_rules(), Ok(()));
}

#[test]
fn node_mut_reaches_the_node() {
    let mut tree = three_leaves();
    tree.node_mut(CTreeNodeID(2)).set_status(Status::Failure);
    assert_eq!(tree.nodes[2].status(), Some(Status::Failure));
    assert_eq!(tree[CTreeNodeID(2)].status(), Some(Status::Failure));
    let seen = tree.iter_children_mut(&root(), |node: &mut CTreeNode<StandardDecorator>| {
        node.set_status(Status::Success);
        node.id()
    });
    assert_eq!(
        seen,
        vec![Some(CTreeNodeID(1)), Some(CTreeNodeID(2)), Some(CTreeNodeID(3))]
    );
    assert_eq!(tree.nodes[2].status(), Some(Status::Success));
    assert_eq!(tree.nodes[0].status(), None);
    let copy = tree.clone();
    assert_eq!(copy.nodes, tree.nodes);
    assert_eq!(copy.children(&root()), tree.children(&root()));
}

#[test]
fn a_node_below_itself_is_a_cycle() {
    let mut tree = Tree::new();
    tree.add_child(root(), Node::sequence()).unwrap();
    let mut again = Node::sequence();
    again.id = Some(CTreeNodeID(1));
    assert_eq!(tree.add_child_unchecked(CTreeNodeID(1), again), CTreeNodeID(1));
    assert_eq!(tree.children(&CTreeNodeID(1)), ids(&[1]));
    assert_eq!(
        tree.check_for_cycles(),
        Err(ShrubberyError::CycleDetected(ids(&[1, 1])))
    );
    assert!(tree.well_formed());
}

#[test]
fn a_cycle_below_the_root_is_found() {
    let mut tree = Tree::new();
    tree.add_child(root(), Node::sequence()).unwrap();
    tree.add_child(CTreeNodeID(1), Node::sequence()).unwrap();
    tree.add_child(root(), LeafNode::default()).unwrap();
    let mut above = Node::sequence();
    above.id = Some(CTreeNodeID(1));
    tree.add_child_unchecked_with_priority(CTreeNodeID(2), above, 0);
    match tree.validate_bt_rules() {
        Err(ShrubberyError::CycleDetected(cycle)) => {
            assert!(cycle == ids(&[1, 2, 1]) || cycle == ids(&[2, 1, 2]));
        }
        other => panic!("expected a cycle, got {:?}", other),
    }
}

#[test]
fn a_shared_child_is_no_cycle() {
    let mut tree = Tree::new();
    tree.add_child(root(), Node::sequence()).unwrap();
    tree.add_child(root(), Node::sequence()).unwrap();
    tree.add_child(CTreeNodeID(1), LeafNode::default()).unwrap();
    let shared = LeafNode {
        id: Some(CTreeNodeID(3)),
        ..LeafNode::default()
    };
    tree.add_child_unchecked(CTreeNodeID(2), shared);
    assert_eq!(tree.children(&CTreeNodeID(1)), ids(&[3]));
    assert_eq!(tree.children(&CTreeNodeID(2)), ids(&[3]));
    assert_eq!(tree.check_for_cycles(), Ok(()));
    assert_eq!(tree.validate_bt_rules(), Ok(()));
}

#[test]
fn well_formed_tells_whether_the_children_are_nodes() {
    let mut tree = three_leaves();
    assert!(tree.well_formed());
    assert!(tree.has_node(CTreeNodeID(3)));
    assert!(!tree.has_node(CTreeNodeID(4)));
    tree.remove(CTreeNodeID(2));
    assert!(tree.well_formed());
    assert!(!tree.has_node(CTreeNodeID(2)));
    tree.tree.insert(1, ids(&[9]));
    assert!(!tree.well_formed());
    tree.tree.insert(1, ids(&[2]));
    assert!(!tree.well_formed());
    tree.tree.insert(1, ids(&[3]));
    assert!(tree.well_formed());
    tree.tree.insert(7, vec![]);
    assert!(!tree.well_formed());
    tree.tree.remove(&7);
    tree.tree.remove(&0);
    assert!(!tree.well_formed());
}
