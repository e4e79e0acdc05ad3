use shrubbery::control::control_nodes::ControlNode;
use shrubbery::control::decorators::StandardDecorator;
use shrubbery::control::simple_executors::LeafLogger;
use shrubbery::control::CTreeNodeID;
use shrubbery::control::ChildUpdate;
use shrubbery::control::ControlTree;
use shrubbery::control::LeafNode;
use shrubbery::control::ROOT_ID;
use shrubbery::traits::ExecutorHook;
use shrubbery::traits::NoCallback;
use shrubbery::traits::UpdateCallback;
use shrubbery::Status;

type Node = ControlNode<StandardDecorator>;
type Tree = ControlTree<StandardDecorator>;

fn root() -> CTreeNodeID {
    CTreeNodeID(ROOT_ID)
}

fn ids(raw: &[usize]) -> Vec<CTreeNodeID> {
    raw.iter().map(|id| CTreeNodeID(*id)).collect()
}

fn update(status: Status, id: usize) -> ChildUpdate {
    ChildUpdate {
        status,
        child_id: CTreeNodeID(id),
    }
}

/// Answers the leaves from a script, one answer after the other, and records what it
/// answered; when the script has run out it answers with success.
struct Scripted {
    script: Vec<Status>,
    asked: usize,
    updates: Vec<ChildUpdate>,
}

impl Scripted {
    fn new(script: &[Status]) -> Self {
        Scripted {
            script: script.to_vec(),
            asked: 0,
            updates: vec![],
        }
    }

    fn visited(&self) -> Vec<CTreeNodeID> {
        self.updates.iter().map(|u| u.child_id).collect()
    }
}

impl ExecutorHook for Scripted {
    fn hook(&mut self, leaf: &LeafNode) -> Status {
        let status = self.script.get(self.asked).copied().unwrap_or(Status::Success);
        self.asked += 1;
        self.updates.push(ChildUpdate {
            status,
            child_id: leaf.id.unwrap(),
        });
        status
    }
}

struct CountCalls(usize);

impl UpdateCallback<StandardDecorator> for CountCalls {
    fn callback(&mut self, _state: &Tree) {
        self.0 += 1;
    }
}

/// A tree of `test` over `leaves` leaves: the node has the id 1, the leaves follow.
fn over_leaves(test: Node, leaves: usize) -> Tree {
    let mut tree = Tree::new();
    let node = tree.add_child(root(), test).unwrap();
    for _ in 0..leaves {
        tree.add_child(node, LeafNode::default()).unwrap();
    }
    tree
}

#[test]
fn the_root_alone_succeeds() {
    let mut tree = Tree::new();
    let mut hook = Scripted::new(&[]);
    assert_eq!(tree.run(&mut hook), Status::Success);
    assert_eq!(tree.status(), Status::Success);
    assert_eq!(hook.asked, 0);
}

#[test]
fn the_status_of_the_root_is_what_run_returns() {
    for script in [
        vec![Status::Success, Status::Success],
        vec![Status::Success, Status::Failure],
        vec![Status::Failure],
        vec![Status::Running, Status::Success, Status::Running, Status::Failure],
    ] {
        let mut tree = over_leaves(Node::sequence(), 2);
        let mut hook = Scripted::new(&script);
        let status = tree.run(&mut hook);
        assert_eq!(tree.status(), status);
        assert_eq!(tree.nodes[0].status(), Some(status));
        assert!(status.is_terminal());
    }
}

#[test]
fn a_finished_tree_is_not_run_again() {
    let mut tree = over_leaves(Node::sequence(), 2);
    let mut hook = Scripted::new(&[Status::Success, Status::Failure]);
    assert_eq!(tree.run(&mut hook), Status::Failure);
    assert_eq!(hook.asked, 2);
    assert_eq!(tree.run(&mut hook), Status::Failure);
    assert_eq!(hook.asked, 2);
}

#[test]
fn sequence_visits_its_leaves_from_left_to_right() {
    let mut tree = over_leaves(Node::sequence(), 4);
    let mut hook = Scripted::new(&[]);
    assert_eq!(tree.run(&mut hook), Status::Success);
    assert_eq!(hook.visited(), ids(&[2, 3, 4, 5]));
    for id in 1..6 {
        assert_eq!(tree.nodes[id].status(), Some(Status::Success));
    }
}

#[test]
fn sequence_stops_at_the_first_failure() {
    let mut tree = over_leaves(Node::sequence(), 4);
    let mut hook = Scripted::new(&[Status::Success, Status::Success, Status::Failure]);
    assert_eq!(tree.run(&mut hook), Status::Failure);
    assert_eq!(hook.visited(), ids(&[2, 3, 4]));
    assert_eq!(tree.nodes[4].status(), Some(Status::Failure));
    assert_eq!(tree.nodes[5].status(), None);
    assert_eq!(tree.nodes[1].status(), Some(Status::Failure));
}

#[test]
fn fallback_stops_at_the_first_success() {
    let mut tree = over_leaves(Node::fallback(), 4);
    let mut hook = Scripted::new(&[Status::Failure, Status::Success]);
    assert_eq!(tree.run(&mut hook), Status::Success);
    assert_eq!(hook.visited(), ids(&[2, 3]));
    assert_eq!(tree.nodes[4].status(), None);
    assert_eq!(tree.nodes[5].status(), None);
}

#[test]
fn fallback_fails_if_no_leaf_succeeds() {
    let mut tree = over_leaves(Node::fallback(), 3);
    let mut hook = Scripted::new(&[Status::Failure, Status::Failure, Status::Failure]);
    assert_eq!(tree.run(&mut hook), Status::Failure);
    assert_eq!(hook.visited(), ids(&[2, 3, 4]));
}

#[test]
fn fallback_takes_a_running_leaf_for_failed_at_the_close_of_the_pass() {
    let mut tree = over_leaves(Node::fallback(), 2);
    let mut hook = Scripted::new(&[Status::Running, Status::Failure]);
    assert_eq!(tree.run(&mut hook), Status::Failure);
    assert_eq!(hook.visited(), ids(&[2, 3]));
    assert_eq!(tree.nodes[2].status(), Some(Status::Running));
}

#[test]
fn parallel_visits_every_leaf() {
    let mut tree = over_leaves(Node::parallel(), 4);
    let mut hook = Scripted::new(&[
        Status::Failure,
        Status::Success,
        Status::Failure,
        Status::Success,
    ]);
    assert_eq!(tree.run(&mut hook), Status::Failure);
    assert_eq!(hook.visited(), ids(&[2, 3, 4, 5]));
    assert_eq!(tree.nodes[1].status(), Some(Status::Failure));
}

#[test]
fn parallel_succeeds_if_and_only_if_all_leaves_do() {
    let mut all = over_leaves(Node::parallel(), 3);
    let mut hook = Scripted::new(&[]);
    assert_eq!(all.run(&mut hook), Status::Success);
    assert_eq!(hook.visited(), ids(&[2, 3, 4]));

    let mut last_fails = over_leaves(Node::parallel(), 3);
    let mut hook = Scripted::new(&[Status::Success, Status::Success, Status::Failure]);
    assert_eq!(last_fails.run(&mut hook), Status::Failure);
    assert_eq!(hook.visited(), ids(&[2, 3, 4]));
}

#[test]
fn parallel_comes_back_to_its_running_leaves_only() {
    let mut tree = over_leaves(Node::parallel(), 3);
    let mut hook = Scripted::new(&[Status::Success, Status::Running, Status::Failure]);
    // second pass: the leaf that ran succeeds, the one that failed is asked again
    assert_eq!(tree.run(&mut hook), Status::Failure);
    assert_eq!(
        hook.updates,
        vec![
            update(Status::Success, 2),
            update(Status::Running, 3),
            update(Status::Failure, 4),
            update(Status::Success, 3),
            update(Status::Success, 4),
        ]
    );
}

#[test]
fn inverter_negates_a_terminal_child() {
    let mut fails = over_leaves(Node::inverter(), 1);
    let mut hook = Scripted::new(&[Status::Failure]);
    assert_eq!(fails.run(&mut hook), Status::Success);
    assert_eq!(hook.asked, 1);
    assert_eq!(fails.nodes[1].status(), Some(Status::Success));

    let mut succeeds = over_leaves(Node::inverter(), 1);
    let mut hook = Scripted::new(&[Status::Success]);
    assert_eq!(succeeds.run(&mut hook), Status::Failure);
    assert_eq!(hook.asked, 1);
}

#[test]
fn inverter_stays_running_with_a_running_child() {
    let mut tree = over_leaves(Node::inverter(), 1);
    let mut hook = Scripted::new(&[Status::Running, Status::Running, Status::Success]);
    assert_eq!(tree.run(&mut hook), Status::Failure);
    assert_eq!(hook.asked, 3);
}

#[test]
fn subtree_marker_passes_the_status_through() {
    let mut tree = over_leaves(Node::subtree(), 1);
    let mut hook = Scripted::new(&[Status::Failure]);
    assert_eq!(tree.run(&mut hook), Status::Failure);
    let mut tree = over_leaves(Node::subtree(), 1);
    let mut hook = Scripted::new(&[Status::Success]);
    assert_eq!(tree.run(&mut hook), Status::Success);
}

#[test]
fn repeater_runs_a_failing_branch_once_and_once_per_retry() {
    for retries in [0usize, 1, 2, 5] {
        let mut tree = Tree::new();
        let repeater = tree.add_child(root(), Node::repeater(retries)).unwrap();
        let sequence = tree.add_child(repeater, Node::sequence()).unwrap();
        tree.add_child(sequence, LeafNode::default()).unwrap();
        let script = vec![Status::Failure; 20];
        let mut hook = Scripted::new(&script);
        assert_eq!(tree.run(&mut hook), Status::Failure);
        assert_eq!(hook.asked, retries + 1);
        assert_eq!(hook.visited(), vec![CTreeNodeID(3); retries + 1]);
    }
}

#[test]
fn repeater_asks_a_failing_leaf_once_more_to_see_it_has_run_out() {
    let retries: usize = 2;
    let mut tree = over_leaves(Node::repeater(retries), 1);
    let script = vec![Status::Failure; 20];
    let mut hook = Scripted::new(&script);
    assert_eq!(tree.run(&mut hook), Status::Failure);
    assert_eq!(hook.asked, retries + 2);
}

#[test]
fn repeater_succeeds_with_the_first_success() {
    let mut tree = over_leaves(Node::repeater(3), 1);
    let mut hook = Scripted::new(&[Status::Failure, Status::Failure, Status::Success]);
    assert_eq!(tree.run(&mut hook), Status::Success);
    assert_eq!(hook.asked, 3);
    assert_eq!(tree.nodes[2].status(), Some(Status::Success));
}

#[test]
fn repeater_resets_the_whole_branch() {
    let mut tree = Tree::new();
    let repeater = tree.add_child(root(), Node::repeater(1)).unwrap();
    let sequence = tree.add_child(repeater, Node::sequence()).unwrap();
    tree.add_child(sequence, LeafNode::default()).unwrap();
    tree.add_child(sequence, LeafNode::default()).unwrap();
    // first attempt: the second leaf fails; second attempt: both are run again
    let mut hook = Scripted::new(&[Status::Success, Status::Failure]);
    assert_eq!(tree.run(&mut hook), Status::Success);
    assert_eq!(hook.visited(), ids(&[3, 4, 3, 4]));
}

#[test]
fn run_from_runs_a_branch_only() {
    let mut tree = Tree::new();
    let sequence = tree.add_child(root(), Node::sequence()).unwrap();
    tree.add_child(sequence, LeafNode::default()).unwrap();
    tree.add_child(sequence, LeafNode::default()).unwrap();
    tree.add_child(root(), LeafNode::default()).unwrap();

    let mut hook = Scripted::new(&[]);
    assert_eq!(tree.run_from(sequence, &mut hook), Status::Success);
    assert_eq!(hook.visited(), ids(&[2, 3]));
    assert_eq!(tree.nodes[0].status(), None);
    assert_eq!(tree.status(), Status::Running);

    // the branch that has succeeded is not run again
    assert_eq!(tree.run(&mut hook), Status::Success);
    assert_eq!(hook.visited(), ids(&[2, 3, 4]));
}

#[test]
fn reset_branch_clears_the_branch_and_nothing_else() {
    let mut tree = Tree::new();
    let sequence = tree.add_child(root(), Node::sequence()).unwrap();
    tree.add_child(sequence, LeafNode::default()).unwrap();
    let repeater = tree.add_child(sequence, Node::repeater(2)).unwrap();
    tree.add_child(repeater, LeafNode::default()).unwrap();
    tree.add_child(root(), LeafNode::default()).unwrap();
    let mut hook = Scripted::new(&[Status::Success, Status::Failure, Status::Success]);
    assert_eq!(tree.run(&mut hook), Status::Success);
    assert_eq!(hook.visited(), ids(&[2, 4, 4, 5]));

    tree.reset_branch(sequence);
    for id in 1..5 {
        assert_eq!(tree.nodes[id].status(), None);
    }
    assert_eq!(
        tree.nodes[3].try_as_control().unwrap().try_as_decorator(),
        Some(&StandardDecorator::repeater(2))
    );
    assert!(tree.nodes[1].try_as_control().unwrap().try_as_sequence().unwrap().pending.is_empty());
    assert_eq!(tree.nodes[5].status(), Some(Status::Success));
    assert_eq!(tree.nodes[0].status(), Some(Status::Success));
    assert_eq!(tree.children(&sequence), ids(&[2, 3]));

    // the branch runs afresh
    let mut again = Scripted::new(&[]);
    assert_eq!(tree.run_from(sequence, &mut again), Status::Success);
    assert_eq!(again.visited(), ids(&[2, 4]));
}

#[test]
fn the_callback_is_called_on_each_event() {
    let mut tree = Tree::new();
    tree.add_child(root(), LeafNode::default()).unwrap();
    let mut hook = Scripted::new(&[]);
    let mut calls = CountCalls(0);
    assert_eq!(tree.run_with_update_callback(&mut hook, &mut calls), Status::Success);
    // the first tick, the answer of the leaf, the close of the pass
    assert_eq!(calls.0, 3);

    let mut tree = Tree::new();
    tree.add_child(root(), LeafNode::default()).unwrap();
    tree.add_child(root(), LeafNode::default()).unwrap();
    let mut hook = Scripted::new(&[Status::Failure]);
    let mut calls = CountCalls(0);
    assert_eq!(
        tree.run_from_with_update_callback(root(), &mut hook, &mut calls),
        Status::Failure
    );
    // and the tick that ends the pass early
    assert_eq!(calls.0, 4);
    assert_eq!(hook.asked, 1);

    let mut tree = Tree::new();
    let mut none = NoCallback;
    assert_eq!(
        tree.run_with_update_callback(&mut hook, &mut none),
        Status::Success
    );
}

#[test]
fn leaf_logger_records_what_the_leaves_hold() {
    let mut logger = LeafLogger::default();
    let fresh = LeafNode {
        id: Some(CTreeNodeID(3)),
        ..LeafNode::default()
    };
    assert_eq!(logger.hook(&fresh), Status::Success);
    let failed = LeafNode {
        id: Some(CTreeNodeID(4)),
        status: Some(Status::Failure),
        ..LeafNode::default()
    };
    assert_eq!(logger.hook(&failed), Status::Failure);
    let nameless = LeafNode {
        status: Some(Status::Running),
        ..LeafNode::default()
    };
    assert_eq!(logger.hook(&nameless), Status::Running);
    assert_eq!(
        logger.updates,
        vec![update(Status::Success, 3), update(Status::Failure, 4)]
    );
}

/// Keeps the statuses of the root and of the node 1 as they stand at each call.
struct Watch(Vec<(Option<Status>, Option<Status>)>);

impl UpdateCallback<StandardDecorator> for Watch {
    fn callback(&mut self, state: &Tree) {
        self.0.push((state[root()].status(), state[CTreeNodeID(1)].status()));
    }
}

#[test]
fn the_callback_is_shown_the_tree_at_each_event() {
    let mut tree = Tree::new();
    tree.add_child(root(), LeafNode::default()).unwrap();
    let mut hook = Scripted::new(&[Status::Running, Status::Failure]);
    let mut watch = Watch(vec![]);
    assert_eq!(tree.run_with_update_callback(&mut hook, &mut watch), Status::Failure);
    let running = Some(Status::Running);
    let failure = Some(Status::Failure);
    assert_eq!(
        watch.0,
        vec![
            // the first tick of the root
            (running, None),
            // the leaf holds its answer
            (running, running),
            // the close of the first pass
            (running, running),
            // the leaf holds its second answer
            (running, failure),
            // the close of the second pass
            (failure, failure),
        ]
    );
}
