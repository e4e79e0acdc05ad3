use shrubbery::control::control_nodes::ControlNode;
use shrubbery::control::control_nodes::ControlNodeType;
use shrubbery::control::control_nodes::Fallback;
use shrubbery::control::control_nodes::Parallel;
use shrubbery::control::control_nodes::Sequence;
use shrubbery::control::decorators::Inverter;
use shrubbery::control::decorators::Repeater;
use shrubbery::control::decorators::StandardDecorator;
use shrubbery::control::decorators::Subtree;
use shrubbery::control::CTreeNode;
use shrubbery::control::CTreeNodeID;
use shrubbery::control::ChildUpdate;
use shrubbery::control::LeafNode;
use shrubbery::control::LeafType;
use shrubbery::traits::Control;
use shrubbery::traits::Decorator;
use shrubbery::Status;

type Node = ControlNode<StandardDecorator>;
type TreeNode = CTreeNode<StandardDecorator>;

fn update(status: Status, id: usize) -> ChildUpdate {
    ChildUpdate {
        status,
        child_id: CTreeNodeID(id),
    }
}

#[test]
fn node_id_index_and_conversion() {
    let id: CTreeNodeID = 7.into();
    assert_eq!(id.index(), 7);
    assert_eq!(id, CTreeNodeID(7));
    assert_eq!(CTreeNodeID::default().index(), 0);
}

#[test]
fn sequence_succeeds_once_all_children_were_seen() {
    let mut sequence = Sequence::new();
    assert_eq!(sequence.tick(), Status::Running);
    sequence.child_updated(update(Status::Success, 1));
    sequence.child_updated(update(Status::Success, 2));
    assert_eq!(sequence.tick(), Status::Running);
    sequence.all_children_seen();
    assert!(sequence.finished);
    assert_eq!(sequence.tick(), Status::Success);
    assert_eq!(sequence.status, Some(Status::Success));
}

#[test]
fn sequence_fails_at_once() {
    let mut sequence = Sequence::new();
    sequence.child_updated(update(Status::Success, 1));
    sequence.child_updated(update(Status::Failure, 2));
    assert_eq!(sequence.failed, Some(CTreeNodeID(2)));
    assert_eq!(sequence.tick(), Status::Failure);
    sequence.all_children_seen();
    assert_eq!(sequence.tick(), Status::Failure);
}

#[test]
fn sequence_waits_for_pending_children() {
    let mut sequence = Sequence::new();
    sequence.child_updated(update(Status::Running, 4));
    assert!(sequence.pending.contains(&4));
    assert_eq!(sequence.pending.len(), 1);
    sequence.all_children_seen();
    assert!(!sequence.finished);
    assert_eq!(sequence.tick(), Status::Running);
    sequence.child_updated(update(Status::Success, 4));
    assert!(sequence.pending.is_empty());
    sequence.all_children_seen();
    assert_eq!(sequence.tick(), Status::Success);
}

#[test]
fn sequence_reset_forgets_everything() {
    let mut sequence = Sequence::new();
    sequence.child_updated(update(Status::Running, 4));
    sequence.child_updated(update(Status::Failure, 5));
    sequence.tick();
    sequence.reset();
    assert!(sequence.pending.is_empty());
    assert_eq!(sequence.failed, None);
    assert_eq!(sequence.status, None);
    assert!(!sequence.finished);
    assert_eq!(sequence.tick(), Status::Running);
}

#[test]
fn sequence_clone_keeps_the_pending_children() {
    let mut sequence = Sequence::new();
    sequence.child_updated(update(Status::Running, 4));
    sequence.child_updated(update(Status::Running, 9));
    let copy = sequence.clone();
    assert_eq!(copy, sequence);
    assert!(copy.pending.contains(&4) && copy.pending.contains(&9));
    assert_eq!(copy.pending.len(), 2);
}

#[test]
fn fallback_succeeds_with_its_first_success() {
    let mut fallback = Fallback::default();
    assert_eq!(fallback.tick(), Status::Running);
    fallback.child_updated(update(Status::Failure, 1));
    assert_eq!(fallback.tick(), Status::Running);
    fallback.child_updated(update(Status::Success, 2));
    assert_eq!(fallback.tick(), Status::Success);
    fallback.all_children_seen();
    assert_eq!(fallback.tick(), Status::Success);
}

#[test]
fn fallback_fails_at_the_close_of_a_pass_without_success() {
    let mut fallback = Fallback::default();
    fallback.child_updated(update(Status::Failure, 1));
    fallback.child_updated(update(Status::Running, 2));
    fallback.all_children_seen();
    assert_eq!(fallback.status, Some(Status::Failure));
    assert_eq!(fallback.tick(), Status::Failure);

    let mut running = Fallback {
        status: Some(Status::Running),
    };
    running.all_children_seen();
    assert_eq!(running.status, Some(Status::Failure));

    let mut empty = Fallback::default();
    empty.all_children_seen();
    assert_eq!(empty.tick(), Status::Failure);
    empty.reset();
    assert_eq!(empty.status, None);
}

#[test]
fn parallel_sorts_its_children() {
    let mut parallel = Parallel::default();
    parallel.child_updated(update(Status::Running, 1));
    parallel.child_updated(update(Status::Success, 2));
    parallel.child_updated(update(Status::Failure, 3));
    assert!(parallel.pending.contains(&1) && parallel.pending.len() == 1);
    assert!(parallel.success.contains(&2) && parallel.success.len() == 1);
    assert!(parallel.failure.contains(&3) && parallel.failure.len() == 1);
    assert_eq!(parallel.tick(), Status::Running);
    parallel.all_children_seen();
    assert_eq!(parallel.tick(), Status::Running);
    parallel.child_updated(update(Status::Success, 1));
    assert!(parallel.pending.is_empty());
    parallel.all_children_seen();
    assert_eq!(parallel.tick(), Status::Failure);
    let copy = parallel.clone();
    assert_eq!(copy, parallel);
    parallel.reset();
    assert!(parallel.success.is_empty() && parallel.failure.is_empty());
    assert!(!parallel.finished);
    assert!(copy.finished && copy.failure.contains(&3));
}

#[test]
fn parallel_succeeds_if_no_child_failed() {
    let mut parallel = Parallel::default();
    parallel.child_updated(update(Status::Success, 1));
    parallel.child_updated(update(Status::Success, 2));
    parallel.all_children_seen();
    assert_eq!(parallel.tick(), Status::Success);
}

#[test]
fn inverter_negates_what_it_is_told() {
    let mut inverter = Inverter::default();
    assert_eq!(inverter.status(), Status::Running);
    assert_eq!(inverter.child_updated(update(Status::Success, 1)), Status::Failure);
    assert_eq!(inverter.status(), Status::Failure);
    assert_eq!(inverter.child_updated(update(Status::Failure, 1)), Status::Success);
    assert_eq!(inverter.status(), Status::Success);
    assert_eq!(inverter.child_updated(update(Status::Running, 1)), Status::Running);
    assert_eq!(inverter.status(), Status::Running);
    assert_eq!(inverter.reset_request(), None);
    inverter.child_updated(update(Status::Success, 1));
    inverter.reset();
    assert_eq!(inverter, Inverter::default());
    assert_eq!(inverter.name(), "Inverter");
    assert!(inverter.details().is_some());
}

#[test]
fn repeater_has_one_attempt_more_than_retries() {
    let repeater = Repeater::new(3);
    assert_eq!(repeater.init_retry, 4);
    assert_eq!(repeater.retry, 4);
    assert_eq!(repeater.status, None);
    assert_eq!(repeater.reset_request, None);
    assert!(repeater.can_retry());
    assert_eq!(repeater.status(), Status::Running);
    assert!(!Repeater::default().can_retry());
    assert_eq!(Repeater::default().status(), Status::Failure);
}

#[test]
fn repeater_lets_its_child_fail_as_often_as_it_has_attempts() {
    let retries: usize = 3;
    let mut repeater = Repeater::new(retries);
    for failures in 1..=(retries + 1) {
        assert_eq!(repeater.child_updated(update(Status::Failure, 5)), Status::Running);
        assert_eq!(repeater.retry, retries + 1 - failures);
        assert_eq!(repeater.status(), Status::Running);
        if failures <= retries {
            assert_eq!(repeater.reset_request(), Some(CTreeNodeID(5)));
            // the request is handed out once
            assert_eq!(repeater.reset_request(), None);
        } else {
            assert_eq!(repeater.reset_request(), None);
        }
    }
    assert!(!repeater.can_retry());
    // out of attempts: whatever comes is a failure
    assert_eq!(repeater.child_updated(update(Status::Success, 5)), Status::Failure);
    assert_eq!(repeater.status(), Status::Failure);
    repeater.reset();
    assert_eq!(repeater, Repeater::new(retries));
}

#[test]
fn repeater_passes_success_and_running() {
    let mut repeater = Repeater::new(1);
    assert_eq!(repeater.child_updated(update(Status::Running, 2)), Status::Running);
    assert_eq!(repeater.retry, 2);
    assert_eq!(repeater.reset_request, Some(CTreeNodeID(2)));
    assert_eq!(repeater.child_updated(update(Status::Success, 2)), Status::Success);
    assert_eq!(repeater.reset_request, None);
    assert_eq!(repeater.status(), Status::Success);
    assert_eq!(repeater.retry, 2);
    repeater.init();
    assert_eq!(repeater.status, Some(Status::Running));
    assert_eq!(repeater.name(), "Repeat(2)");
}

#[test]
fn subtree_passes_the_status_through() {
    let mut subtree = Subtree::default();
    assert_eq!(subtree.name(), "Subtree");
    assert_eq!(subtree.status(), Status::Running);
    assert_eq!(subtree.child_updated(update(Status::Failure, 1)), Status::Failure);
    assert_eq!(subtree.status(), Status::Failure);
    assert_eq!(subtree.child_updated(update(Status::Success, 1)), Status::Success);
    assert_eq!(subtree.status(), Status::Success);
    assert_eq!(subtree.reset_request(), None);
    subtree.reset();
    assert_eq!(subtree.status(), Status::Running);

    let named = Subtree::new("arm".to_string());
    assert_eq!(named.name(), "arm");
    assert_eq!(named.clone(), named);
    assert_eq!(named.name, Some("arm".to_string()));
}

#[test]
fn standard_decorator_delegates() {
    let mut inverter = StandardDecorator::inverter();
    assert_eq!(inverter, StandardDecorator::Invert(Inverter::default()));
    assert_eq!(inverter.child_updated(update(Status::Failure, 1)), Status::Success);
    assert_eq!(inverter.status(), Status::Success);
    assert_eq!(inverter.name(), "Inverter");

    let mut repeater = StandardDecorator::repeater(2);
    assert_eq!(repeater, StandardDecorator::Repeat(Repeater::new(2)));
    assert_eq!(repeater.child_updated(update(Status::Failure, 3)), Status::Running);
    assert_eq!(repeater.reset_request(), Some(CTreeNodeID(3)));
    assert_eq!(repeater.name(), "Repeat(2)");
    repeater.reset();
    assert_eq!(repeater, StandardDecorator::repeater(2));
    assert_eq!(repeater.clone(), repeater);

    let mut subtree = StandardDecorator::subtree();
    assert_eq!(subtree, StandardDecorator::Subtree(Subtree::default()));
    assert_eq!(subtree.child_updated(update(Status::Running, 3)), Status::Running);
    subtree.init();
    assert_eq!(subtree.status(), Status::Running);
    assert!(subtree.details().is_some());

    let from_inverter: StandardDecorator = Inverter::default().into();
    assert_eq!(from_inverter, StandardDecorator::inverter());
    let from_repeater: StandardDecorator = Repeater::new(1).into();
    assert_eq!(from_repeater, StandardDecorator::repeater(1));
    let from_subtree: StandardDecorator = Subtree::default().into();
    assert_eq!(from_subtree, StandardDecorator::subtree());
}

#[test]
fn control_node_constructors() {
    assert!(Node::sequence().is_sequence());
    assert!(Node::fallback().is_fallback());
    assert!(Node::parallel().is_parallel());
    assert!(Node::inverter().is_decorator());
    assert!(Node::repeater(1).is_decorator());
    assert!(Node::subtree().is_decorator());
    assert!(!Node::sequence().is_decorator());
    assert!(Node::sequence().try_as_sequence().is_some());
    assert!(Node::sequence().try_as_fallback().is_none());
    assert!(Node::fallback().try_as_fallback().is_some());
    assert!(Node::parallel().try_as_parallel().is_some());
    assert_eq!(
        Node::repeater(2).try_as_decorator(),
        Some(&StandardDecorator::repeater(2))
    );
    assert_eq!(Node::decorator(Inverter::default()), Node::inverter());
    assert_eq!(Node::decorator(StandardDecorator::subtree()), Node::subtree());
    let node = Node::sequence();
    assert_eq!(node.status, None);
    assert_eq!(node.id, None);
    assert!(node.reset_requests.is_empty());
    let from_sequence: ControlNodeType<StandardDecorator> = Sequence::new().into();
    assert_eq!(from_sequence, ControlNodeType::Sequence(Sequence::new()));
    let from_fallback: ControlNodeType<StandardDecorator> = Fallback::default().into();
    assert_eq!(from_fallback, ControlNodeType::Fallback(Fallback::default()));
    let from_parallel: ControlNodeType<StandardDecorator> = Parallel::default().into();
    assert_eq!(from_parallel, ControlNodeType::Parallel(Parallel::default()));
}

#[test]
fn control_node_caches_the_status_of_its_payload() {
    let mut node = Node::inverter();
    assert_eq!(node.tick(), Status::Running);
    assert_eq!(node.status, Some(Status::Running));
    node.child_updated(update(Status::Failure, 3));
    assert_eq!(node.status, Some(Status::Success));
    assert_eq!(node.tick(), Status::Success);
    node.reset();
    assert_eq!(node.tick(), Status::Running);

    let mut sequence = Node::sequence();
    sequence.child_updated(update(Status::Failure, 3));
    assert_eq!(sequence.status, Some(Status::Failure));
}

#[test]
fn control_node_queues_the_reset_request_of_its_decorator() {
    let mut node = Node::repeater(1);
    node.child_updated(update(Status::Failure, 3));
    assert_eq!(node.status, Some(Status::Running));
    assert!(node.reset_requests.is_empty());
    node.all_children_seen();
    assert_eq!(node.reset_requests, vec![CTreeNodeID(3)]);
    node.all_children_seen();
    assert_eq!(node.reset_requests, vec![CTreeNodeID(3)]);
    let copy = node.clone();
    assert_eq!(copy, node);

    let mut sequence = Node::sequence();
    sequence.all_children_seen();
    assert!(sequence.reset_requests.is_empty());
    assert_eq!(sequence.tick(), Status::Success);
}

#[test]
fn tree_node_kinds() {
    let root = TreeNode::root();
    assert!(root.is_root() && !root.is_leaf() && !root.is_control());
    assert!(root.try_as_root().is_some());
    assert_eq!(root.id(), None);
    let leaf = TreeNode::leaf();
    assert!(leaf.is_leaf() && !leaf.is_root() && !leaf.is_control());
    assert_eq!(leaf.try_as_leaf(), Some(&LeafNode::default()));
    let control: TreeNode = Node::fallback().into();
    assert!(control.is_control());
    assert_eq!(control.try_as_control(), Some(&Node::fallback()));
    assert!(control.try_as_leaf().is_none());
    let from_leaf: TreeNode = LeafNode::default().into();
    assert_eq!(from_leaf, TreeNode::leaf());
}

#[test]
fn tree_node_ids_and_statuses() {
    let mut node = TreeNode::leaf();
    assert_eq!(node.set_id(CTreeNodeID(4)), None);
    assert_eq!(node.id(), Some(CTreeNodeID(4)));
    assert_eq!(node.set_id(CTreeNodeID(6)), Some(CTreeNodeID(4)));
    assert_eq!(node.id(), Some(CTreeNodeID(6)));
    node.unset_id();
    assert_eq!(node.id(), None);

    assert_eq!(node.status(), None);
    assert_eq!(node.tick(), Status::Running);
    assert_eq!(node.status(), Some(Status::Running));
    node.set_status(Status::Failure);
    assert_eq!(node.status(), Some(Status::Failure));
    assert_eq!(node.tick(), Status::Failure);
    node.clear_status();
    assert_eq!(node.status(), None);
    node.set_status(Status::Success);
    node.all_children_seen();
    assert_eq!(node.status(), Some(Status::Success));
    node.reset();
    assert_eq!(node.status(), None);

    let mut control: TreeNode = Node::sequence().into();
    control.set_id(CTreeNodeID(2));
    control.child_updated(update(Status::Failure, 9));
    assert_eq!(control.status(), Some(Status::Failure));
    control.reset();
    assert_eq!(control.status(), None);
    assert_eq!(control.id(), Some(CTreeNodeID(2)));
    assert_eq!(control.tick(), Status::Running);
    if let Some(inner) = control.try_as_control_mut() {
        inner.status = Some(Status::Success);
    }
    assert_eq!(control.status(), Some(Status::Success));
    let mut leaf = TreeNode::leaf();
    if let Some(inner) = leaf.try_as_leaf_mut() {
        inner.name = Some("look".to_string());
    }
    assert_eq!(leaf.try_as_leaf().unwrap().name, Some("look".to_string()));
    assert!(leaf.try_as_control_mut().is_none());
}

#[test]
fn leaf_node_defaults() {
    let leaf = LeafNode::default();
    assert_eq!(leaf.id, None);
    assert_eq!(leaf.status, None);
    assert_eq!(leaf.name, None);
    assert_eq!(leaf.details, None);
    assert_eq!(leaf.leaf_type, LeafType::Unknown);
    assert_eq!(LeafType::default(), LeafType::Unknown);
    let mut ticked = leaf.clone();
    assert_eq!(ticked.tick(), Status::Running);
    ticked.status = Some(Status::Success);
    assert_eq!(ticked.tick(), Status::Success);
    ticked.reset();
    assert_eq!(ticked, leaf);
}

#[test]
fn repeater_is_named_after_the_attempts_it_has_left() {
    assert_eq!(Repeater::default().name(), "Repeat(0)");
    assert_eq!(Repeater::new(8).name(), "Repeat(9)");
    assert_eq!(Repeater::new(122).name(), "Repeat(123)");
    let mut repeater = Repeater::new(99);
    repeater.child_updated(update(Status::Failure, 1));
    assert_eq!(repeater.name(), "Repeat(99)");
    assert_eq!(StandardDecorator::repeater(1_000_000).name(), "Repeat(1000001)");
}

#[test]
fn details_are_what_debug_writes() {
    let inverter = Inverter {
        child_status: Some(Status::Failure),
    };
    assert_eq!(inverter.details(), Some(format!("{:#?}", inverter)));
    assert_ne!(inverter.details(), Inverter::default().details());

    let mut repeater = Repeater::new(2);
    assert_eq!(repeater.details(), Some(format!("{:#?}", repeater)));
    let before = repeater.details();
    repeater.child_updated(update(Status::Failure, 7));
    assert_eq!(repeater.details(), Some(format!("{:#?}", repeater)));
    assert_ne!(repeater.details(), before);

    let subtree = Subtree::new("arm".to_string());
    assert_eq!(subtree.details(), Some(format!("{:#?}", subtree)));
    assert_ne!(subtree.details(), Subtree::default().details());

    assert_eq!(
        StandardDecorator::Invert(inverter).details(),
        Some(format!("{:#?}", inverter))
    );
    assert_eq!(
        StandardDecorator::Repeat(repeater).details(),
        Some(format!("{:#?}", repeater))
    );
    assert_eq!(
        StandardDecorator::Subtree(subtree.clone()).details(),
        Some(format!("{:#?}", subtree))
    );
}

/// A decorator of the host: it answers with one status whatever it is told, and leaves the
/// details to the trait.
#[derive(Clone, Debug, PartialEq)]
struct Always(Status);

impl Decorator for Always {
    fn initialized(&self) -> Self {
        self.clone()
    }

    fn told(&self, _update: ChildUpdate) -> Self {
        self.clone()
    }

    fn answer(&self, _update: ChildUpdate) -> Status {
        self.0
    }

    fn reported(&self) -> Status {
        self.0
    }

    fn cleared(&self) -> Self {
        self.clone()
    }

    fn wanted_reset(&self) -> Option<CTreeNodeID> {
        None
    }

    fn asked(&self) -> Self {
        self.clone()
    }

    fn init(&mut self) {}

    fn child_updated(&mut self, _update: ChildUpdate) -> Status {
        self.0
    }

    fn status(&self) -> Status {
        self.0
    }

    fn reset(&mut self) {}

    fn name(&self) -> String {
        "Always".to_string()
    }

    fn reset_request(&mut self) -> Option<CTreeNodeID> {
        None
    }
}

#[test]
fn a_decorator_has_no_details_unless_it_gives_some() {
    let always = Always(Status::Success);
    assert_eq!(always.details(), None);
    let mut node: ControlNode<Always> = ControlNode::decorator(always.clone());
    assert_eq!(node.tick(), Status::Success);
    node.child_updated(update(Status::Failure, 2));
    assert_eq!(node.status, Some(Status::Success));
    assert_eq!(node.try_as_decorator(), Some(&always));
}

#[test]
fn sequence_runs_until_it_has_failed_or_finished() {
    for cached in [Status::Success, Status::Failure, Status::Running] {
        let mut sequence = Sequence::new();
        sequence.status = Some(cached);
        assert_eq!(sequence.tick(), Status::Running);
        assert_eq!(sequence.status, Some(Status::Running));
        assert_eq!(sequence.failed, None);
        assert!(!sequence.finished);
    }
    // a failure counts for more than the end of the pass
    let mut sequence = Sequence::new();
    sequence.finished = true;
    sequence.failed = Some(CTreeNodeID(3));
    assert_eq!(sequence.tick(), Status::Failure);
    assert_eq!(sequence.status, Some(Status::Failure));
}
