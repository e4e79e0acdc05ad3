use shrubbery::control::control_nodes::ControlNode;
use shrubbery::control::decorators::StandardDecorator;
use shrubbery::control::simple_executors::LeafLogger;
use shrubbery::control::CTreeNodeID;
use shrubbery::control::ControlTree;
use shrubbery::control::LeafNode;
use shrubbery::control::ROOT_ID;
use shrubbery::Status;

type Node = ControlNode<StandardDecorator>;
type Tree = ControlTree<StandardDecorator>;

fn root() -> CTreeNodeID {
    CTreeNodeID(ROOT_ID)
}

fn ids(raw: &[usize]) -> Vec<CTreeNodeID> {
    raw.iter().map(|id| CTreeNodeID(*id)).collect()
}

fn visited(logger: &LeafLogger) -> Vec<CTreeNodeID> {
    logger.updates.iter().map(|u| u.child_id).collect()
}

/// ```text
///        root
///       /    \
///    seq(1)   7
///   /   |  \
///  2  fb(3)  6
///     /  \
///    4    5
/// ```
fn source() -> Tree {
    let mut tree = Tree::new();
    let sequence = tree.add_child(root(), Node::sequence()).unwrap();
    tree.add_child(sequence, LeafNode::default()).unwrap();
    let fallback = tree.add_child(sequence, Node::fallback()).unwrap();
    tree.add_child(fallback, LeafNode::default()).unwrap();
    tree.add_child(fallback, LeafNode::default()).unwrap();
    tree.add_child(sequence, LeafNode::default()).unwrap();
    tree.add_child(root(), LeafNode::default()).unwrap();
    tree
}

#[test]
fn as_subtree_copies_the_branch_under_a_root_of_its_own() {
    let tree = source();
    let branch = tree.as_subtree(CTreeNodeID(1));
    assert_eq!(branch.nodes.len(), 7);
    assert!(branch.nodes[0].is_root());
    assert_eq!(branch.children(&root()), ids(&[1]));
    assert_eq!(branch.children(&CTreeNodeID(1)), ids(&[2, 3, 4]));
    assert_eq!(branch.children(&CTreeNodeID(2)), vec![]);
    assert_eq!(branch.children(&CTreeNodeID(3)), ids(&[5, 6]));
    assert_eq!(branch.children(&CTreeNodeID(4)), vec![]);
    assert_eq!(branch.children(&CTreeNodeID(5)), vec![]);
    assert_eq!(branch.children(&CTreeNodeID(6)), vec![]);
    assert!(branch.nodes[1].try_as_control().unwrap().is_sequence());
    assert!(branch.nodes[3].try_as_control().unwrap().is_fallback());
    for id in [2, 4, 5, 6] {
        assert!(branch.nodes[id].is_leaf());
    }
    for id in 1..7 {
        assert_eq!(branch.nodes[id].id(), Some(CTreeNodeID(id)));
    }
    assert_eq!(branch.validate_bt_rules(), Ok(()));
    // the tree it came from is as it was
    assert_eq!(tree.nodes.len(), 8);
    assert_eq!(tree.children(&CTreeNodeID(1)), ids(&[2, 3, 6]));
}

#[test]
fn as_subtree_of_a_leaf() {
    let tree = source();
    let branch = tree.as_subtree(CTreeNodeID(7));
    assert_eq!(branch.nodes.len(), 2);
    assert_eq!(branch.children(&root()), ids(&[1]));
    assert_eq!(branch.children(&CTreeNodeID(1)), vec![]);
    assert!(branch.nodes[1].is_leaf());
}

#[test]
fn as_subtree_keeps_the_statuses() {
    let mut tree = source();
    let mut logger = LeafLogger::default();
    tree.run(&mut logger);
    let branch = tree.as_subtree(CTreeNodeID(3));
    assert_eq!(branch.nodes[1].status(), Some(Status::Success));
    assert_eq!(branch.nodes[2].status(), Some(Status::Success));
    assert_eq!(branch.nodes[3].status(), None);
    assert_eq!(branch.status(), Status::Running);
}

#[test]
fn the_branch_is_visited_in_the_order_of_its_source() {
    let mut tree = source();
    let mut branch = tree.as_subtree(CTreeNodeID(1));

    let mut in_source = LeafLogger::default();
    assert_eq!(tree.run_from(CTreeNodeID(1), &mut in_source), Status::Success);
    assert_eq!(visited(&in_source), ids(&[2, 4, 6]));

    let mut in_branch = LeafLogger::default();
    assert_eq!(branch.run(&mut in_branch), Status::Success);
    assert_eq!(visited(&in_branch), ids(&[2, 5, 4]));
}

#[test]
fn a_subtree_is_put_in_under_a_marker() {
    let branch = source().as_subtree(CTreeNodeID(1));
    let mut target = Tree::new();
    target.add_child(root(), LeafNode::default()).unwrap();
    target.add_subtree_with_priority(root(), 0, branch);

    assert_eq!(target.nodes.len(), 9);
    assert_eq!(target.children(&root()), ids(&[2, 1]));
    assert_eq!(
        target.nodes[2].try_as_control().unwrap().try_as_decorator(),
        Some(&StandardDecorator::subtree())
    );
    assert_eq!(target.children(&CTreeNodeID(2)), ids(&[3]));
    assert_eq!(target.children(&CTreeNodeID(3)), ids(&[4, 5, 6]));
    assert_eq!(target.children(&CTreeNodeID(5)), ids(&[7, 8]));
    for id in [4, 6, 7, 8] {
        assert_eq!(target.children(&CTreeNodeID(id)), vec![]);
        assert!(target.nodes[id].is_leaf());
    }
    for id in 1..9 {
        assert_eq!(target.nodes[id].id(), Some(CTreeNodeID(id)));
    }
    assert_eq!(target.validate_bt_rules(), Ok(()));

    let mut logger = LeafLogger::default();
    assert_eq!(target.run(&mut logger), Status::Success);
    // the order of the branch in its source was 2, 4, 6
    assert_eq!(visited(&logger), ids(&[4, 7, 6, 1]));
}

#[test]
fn a_subtree_as_first_and_as_last_child() {
    let mut target = Tree::new();
    target.add_child(root(), LeafNode::default()).unwrap();
    target.add_child(root(), LeafNode::default()).unwrap();
    target.add_subtree_as_last_child(root(), source().as_subtree(CTreeNodeID(7)));
    assert_eq!(target.children(&root()), ids(&[1, 2, 3]));
    assert_eq!(target.children(&CTreeNodeID(3)), ids(&[4]));
    target.add_subtree_as_first_child(root(), source().as_subtree(CTreeNodeID(7)));
    assert_eq!(target.children(&root()), ids(&[5, 1, 2, 3]));
    assert_eq!(target.children(&CTreeNodeID(5)), ids(&[6]));
    target.add_subtree_with_priority(CTreeNodeID(3), 1, source().as_subtree(CTreeNodeID(7)));
    assert_eq!(target.children(&CTreeNodeID(3)), ids(&[4, 7]));
    assert_eq!(target.nodes.len(), 9);
}

#[test]
fn a_whole_tree_is_put_in_with_all_children_of_its_root() {
    let mut target = Tree::new();
    target.add_subtree_with_priority(root(), 0, source());
    assert_eq!(target.nodes.len(), 9);
    assert_eq!(target.children(&root()), ids(&[1]));
    assert_eq!(target.children(&CTreeNodeID(1)), ids(&[2, 8]));
    assert_eq!(target.children(&CTreeNodeID(2)), ids(&[3, 4, 7]));
    assert_eq!(target.children(&CTreeNodeID(4)), ids(&[5, 6]));
    // a marker is a decorator, and this one has two children
    assert!(target.validate_decorators().is_err());
}

/// Answers by a script, and keeps the ids of the leaves that it was asked about.
struct Scripted {
    script: Vec<Status>,
    asked: Vec<CTreeNodeID>,
}

impl shrubbery::traits::ExecutorHook for Scripted {
    fn hook(&mut self, leaf: &LeafNode) -> Status {
        let status = self.script[self.asked.len()];
        self.asked.push(leaf.id.unwrap());
        status
    }
}

#[test]
fn a_regrafted_branch_runs_as_it_ran() {
    let script = vec![Status::Success, Status::Failure, Status::Success, Status::Success];
    let mut tree = source();
    let branch = tree.as_subtree(CTreeNodeID(1));
    let mut target = Tree::new();
    target.add_child(root(), LeafNode::default()).unwrap();
    target.add_subtree_with_priority(root(), 0, branch);
    assert_eq!(target.validate_bt_rules(), Ok(()));

    let mut here = Scripted {
        script: script.clone(),
        asked: vec![],
    };
    let status = tree.run_from(CTreeNodeID(1), &mut here);
    let mut there = Scripted {
        script,
        asked: vec![],
    };
    assert_eq!(target.run_from(CTreeNodeID(3), &mut there), status);
    assert_eq!(status, Status::Success);
    assert_eq!(here.asked, ids(&[2, 4, 5, 6]));
    // the same leaves in the same order, each under its new id
    assert_eq!(there.asked, ids(&[4, 7, 8, 6]));
    for (old, new) in [(1, 3), (2, 4), (3, 5), (4, 7), (5, 8), (6, 6)] {
        assert_eq!(tree.nodes[old].status(), target.nodes[new].status());
    }
}
