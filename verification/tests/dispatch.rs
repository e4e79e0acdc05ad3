use shrubbery::bt::builder::BTBuilder;
use shrubbery::bt::ShrubberyBT;
use shrubbery::control::decorators::StandardDecorator;
use shrubbery::control::CTreeNodeID;
use shrubbery::control::ControlTree;
use shrubbery::control::LeafNode;
use shrubbery::control::LeafType;
use shrubbery::executor_mask::ConditionalID;
use shrubbery::executor_mask::ExecutorID;
use shrubbery::executor_mask::LeafDispatch;
use shrubbery::executor_mask::TaskHook;
use shrubbery::executor_mask::TaskID;
use shrubbery::traits::ActionHandler;
use shrubbery::traits::Conditional;
use shrubbery::traits::Executor;
use shrubbery::traits::ExecutorHook;
use shrubbery::ShrubberyError;
use shrubbery::Status;

/// The blackboard of the tests: a counter, and the steps that were taken.
#[derive(Default, Clone, Debug, PartialEq)]
struct Board {
    count: i64,
    steps: Vec<&'static str>,
}

#[derive(Clone, Debug)]
enum Act {
    Add(i64),
    Fail,
}

impl Executor<Board> for Act {
    fn execute(&self, board: &mut Board) -> Status {
        match self {
            Act::Add(amount) => {
                board.count += amount;
                board.steps.push("add");
                Status::Success
            }
            Act::Fail => {
                board.steps.push("fail");
                Status::Failure
            }
        }
    }

    fn name(&self) -> Option<String> {
        match self {
            Act::Add(_) => Some("Add".to_string()),
            Act::Fail => None,
        }
    }

    fn details(&self) -> Option<String> {
        Some("changes the count".to_string())
    }
}

#[derive(Clone, Debug)]
enum Check {
    AtLeast(i64),
}

impl Conditional<Board> for Check {
    fn conditional(&self, board: &Board) -> Status {
        match self {
            Check::AtLeast(bound) => (board.count >= *bound).into(),
        }
    }
}

#[derive(Clone, Debug, Default)]
struct Handler;

impl ActionHandler for Handler {
    type Bb = Board;
    type Execute = Act;
    type Condition = Check;
}

type Bt = ShrubberyBT<Handler, StandardDecorator>;

#[test]
fn leaves_are_made_from_their_actions() {
    let leaf = LeafNode::from_executor::<Board, Act>(&Act::Add(1));
    assert_eq!(leaf.leaf_type, LeafType::Executor);
    assert_eq!(leaf.name, Some("Add".to_string()));
    assert_eq!(leaf.details, Some("changes the count".to_string()));
    assert_eq!(leaf.id, None);
    assert_eq!(leaf.status, None);
    let leaf = LeafNode::from_executor::<Board, Act>(&Act::Fail);
    assert_eq!(leaf.name, None);
    let leaf = LeafNode::from_conditional::<Board, Check>(&Check::AtLeast(1));
    assert_eq!(leaf.leaf_type, LeafType::Conditional);
    assert_eq!(leaf.name, None);
    assert_eq!(leaf.details, None);
}

#[test]
fn dispatch_finds_the_action_of_a_leaf() {
    let mut dispatch = LeafDispatch::<Handler>::default();
    dispatch.add_executor(CTreeNodeID(4), Act::Add(2));
    dispatch.add_conditional(CTreeNodeID(2), Check::AtLeast(2));
    dispatch.add_executor(CTreeNodeID(9), Act::Fail);
    let leaf = |id: usize| LeafNode {
        id: Some(CTreeNodeID(id)),
        ..LeafNode::default()
    };
    assert_eq!(dispatch.task_for(&leaf(4)), Some(TaskID::Executor(ExecutorID(0))));
    assert_eq!(dispatch.task_for(&leaf(9)), Some(TaskID::Executor(ExecutorID(1))));
    assert_eq!(
        dispatch.task_for(&leaf(2)),
        Some(TaskID::Conditional(ConditionalID(0)))
    );
    assert_eq!(dispatch.task_for(&leaf(3)), None);
    assert_eq!(dispatch.task_for(&LeafNode::default()), None);
    let copy = dispatch.clone();
    assert_eq!(copy.task_for(&leaf(9)), Some(TaskID::Executor(ExecutorID(1))));

    // a later action takes the place of an earlier one
    dispatch.add_conditional(CTreeNodeID(4), Check::AtLeast(0));
    assert_eq!(
        dispatch.task_for(&leaf(4)),
        Some(TaskID::Conditional(ConditionalID(1)))
    );
}

#[test]
fn task_hook_calls_the_action() {
    let mut dispatch = LeafDispatch::<Handler>::default();
    dispatch.add_executor(CTreeNodeID(1), Act::Add(2));
    dispatch.add_conditional(CTreeNodeID(2), Check::AtLeast(2));
    dispatch.add_executor(CTreeNodeID(3), Act::Fail);
    let leaf = |id: usize| LeafNode {
        id: Some(CTreeNodeID(id)),
        ..LeafNode::default()
    };
    let mut board = Board::default();
    let mut hook = TaskHook {
        dispatch: &dispatch,
        blackboard: &mut board,
    };
    assert_eq!(hook.hook(&leaf(2)), Status::Failure);
    assert_eq!(hook.hook(&leaf(1)), Status::Success);
    assert_eq!(hook.hook(&leaf(2)), Status::Success);
    assert_eq!(hook.hook(&leaf(3)), Status::Failure);
    // a leaf without an id or without an action fails
    assert_eq!(hook.hook(&leaf(7)), Status::Failure);
    assert_eq!(hook.hook(&LeafNode::default()), Status::Failure);
    assert_eq!(board.count, 2);
    assert_eq!(board.steps, vec!["add", "fail"]);
}

#[test]
fn a_behavior_tree_runs_its_actions() {
    let mut builder = Bt::builder();
    let leaves = builder.layer(|mut root| {
        root.sequence(|mut sequence| {
            let first = sequence.execute(Act::Add(2));
            let second = sequence.condition(Check::AtLeast(2));
            let third = sequence.fallback(|mut fallback| {
                fallback.condition(Check::AtLeast(5));
                fallback.execute(Act::Add(3))
            });
            (first, second, third)
        })
    });
    assert_eq!(leaves, (CTreeNodeID(2), CTreeNodeID(3), CTreeNodeID(6)));
    let mut bt = builder.build().unwrap();
    let mut board = Board::default();
    assert_eq!(bt.run(&mut board), Status::Success);
    assert_eq!(board.count, 5);
    assert_eq!(board.steps, vec!["add", "add"]);
    // the tree has finished: its actions are not run again
    assert_eq!(bt.run(&mut board), Status::Success);
    assert_eq!(board.count, 5);
}

#[test]
fn a_failing_condition_stops_the_sequence() {
    let mut builder = BTBuilder::<Handler>::new();
    builder.layer(|mut root| {
        root.condition(Check::AtLeast(1));
        root.execute(Act::Add(1));
    });
    let mut bt = builder.build().unwrap();
    let mut board = Board::default();
    assert_eq!(bt.run(&mut board), Status::Failure);
    assert_eq!(board, Board::default());
}

#[test]
fn a_leaf_without_an_action_fails() {
    let mut builder = Bt::builder();
    builder.layer(|mut root| {
        root.execute(Act::Add(1));
        root.control.leaf_node(LeafNode::default());
        root.execute(Act::Add(1));
    });
    let mut bt = builder.build().unwrap();
    let mut board = Board::default();
    assert_eq!(bt.run(&mut board), Status::Failure);
    assert_eq!(board.count, 1);
}

#[test]
fn decorated_layers() {
    let mut builder = Bt::builder();
    builder.layer_with_deps(4, |amount, mut root| {
        root.parallel_with_deps(amount, |amount, mut parallel| {
            parallel.inverter(|mut inverted| {
                inverted.execute(Act::Fail);
            });
            parallel.repeater_with_deps(amount, 2, |amount, mut repeated| {
                repeated.sequence_with_deps(amount, |amount, mut sequence| {
                    sequence.execute(Act::Add(amount));
                    sequence.condition(Check::AtLeast(3 * amount));
                });
            });
            parallel.subtree(|mut marked| {
                marked.fallback_with_deps(amount, |amount, mut fallback| {
                    fallback.condition(Check::AtLeast(100));
                    fallback.inverter_with_deps(amount, |amount, mut inverted| {
                        inverted.condition(Check::AtLeast(100 * amount));
                    });
                });
            });
            parallel.decorator(StandardDecorator::subtree(), |mut marked| {
                marked.update(|layer| layer.execute(Act::Add(1)));
            });
            parallel.subtree_with_deps(amount, |amount, mut marked| {
                marked.decorator_with_deps(amount, StandardDecorator::inverter(), |_, mut inverted| {
                    inverted.execute(Act::Fail);
                });
            });
        });
    });
    let mut bt = builder.build().unwrap();
    let mut board = Board::default();
    assert_eq!(bt.run(&mut board), Status::Success);
    // the repeated sequence adds 4 three times before the count is at least 12
    assert_eq!(board.count, 13);
    assert_eq!(board.steps, vec!["fail", "add", "add", "add", "add", "fail"]);
}

#[test]
fn build_reports_what_is_wrong() {
    let mut builder = Bt::builder();
    builder.layer(|mut root| {
        root.sequence(|_| {});
    });
    assert!(matches!(
        builder.build(),
        Err(ShrubberyError::DanglingControlNode(CTreeNodeID(1)))
    ));

    let mut builder = Bt::builder();
    builder.layer(|mut root| {
        root.repeater(1, |mut repeated| {
            repeated.execute(Act::Fail);
            repeated.execute(Act::Fail);
        });
    });
    assert!(matches!(
        builder.build(),
        Err(ShrubberyError::InvalidDecorator { .. })
    ));

    let mut builder = Bt::builder();
    builder.layer(|mut root| {
        root.execute(Act::Fail);
    });
    builder.inject_cycle();
    assert!(matches!(
        builder.build(),
        Err(ShrubberyError::CycleDetected(_))
    ));
}

#[test]
fn a_tree_goes_back_into_a_builder() {
    let mut builder = Bt::builder();
    builder.layer(|mut root| {
        root.execute(Act::Add(1));
    });
    let bt = builder.build().unwrap();
    let mut builder = bt.clone().into_builder();
    builder.layer(|mut root| {
        root.execute(Act::Add(10));
    });
    let mut bt = builder.build().unwrap();
    let mut board = Board::default();
    assert_eq!(bt.run(&mut board), Status::Success);
    assert_eq!(board.count, 11);
    assert_eq!(Bt::new().run(&mut board), Status::Success);
    assert_eq!(Bt::default().run(&mut board), Status::Success);
    assert_eq!(board.count, 11);
}

#[test]
fn a_control_tree_goes_back_into_a_builder() {
    let mut tree = ControlTree::<StandardDecorator>::new();
    tree.add_child(CTreeNodeID(0), LeafNode::default()).unwrap();
    let mut builder = tree.into_builder();
    builder.layer(|mut root| {
        root.map(|layer| layer.leaf_node(LeafNode::default()));
    });
    let copy = builder.clone();
    let tree = builder.build().unwrap();
    assert_eq!(tree.children(&CTreeNodeID(0)), vec![CTreeNodeID(1), CTreeNodeID(2)]);
    assert_eq!(
        copy.build().unwrap().children(&CTreeNodeID(0)),
        vec![CTreeNodeID(1), CTreeNodeID(2)]
    );
}

#[test]
fn an_action_has_no_name_and_no_details_unless_it_gives_some() {
    let check = Check::AtLeast(1);
    assert_eq!(Conditional::<Board>::name(&check), None);
    assert_eq!(Conditional::<Board>::details(&check), None);
    assert_eq!(Executor::<Board>::name(&Act::Fail), None);
    assert_eq!(
        Executor::<Board>::details(&Act::Fail),
        Some("changes the count".to_string())
    );
}

#[test]
fn dispatch_asks_the_action_of_a_leaf() {
    let mut dispatch = LeafDispatch::<Handler>::default();
    dispatch.add_executor(CTreeNodeID(4), Act::Add(2));
    dispatch.add_conditional(CTreeNodeID(2), Check::AtLeast(2));
    dispatch.add_executor(CTreeNodeID(9), Act::Fail);
    let leaf = |id: usize| LeafNode {
        id: Some(CTreeNodeID(id)),
        ..LeafNode::default()
    };
    let mut board = Board::default();
    // a conditional reads the blackboard and leaves it alone
    assert_eq!(dispatch.ask(&leaf(2), &mut board), Status::Failure);
    assert_eq!(board, Board::default());
    assert_eq!(dispatch.ask(&leaf(4), &mut board), Status::Success);
    assert_eq!(board.count, 2);
    assert_eq!(dispatch.ask(&leaf(2), &mut board), Status::Success);
    assert_eq!(dispatch.ask(&leaf(9), &mut board), Status::Failure);
    assert_eq!(board.steps, vec!["add", "fail"]);
    // no action: the leaf fails, and the blackboard stays
    assert_eq!(dispatch.ask(&leaf(3), &mut board), Status::Failure);
    assert_eq!(dispatch.ask(&LeafNode::default(), &mut board), Status::Failure);
    assert_eq!(board.count, 2);
    assert_eq!(board.steps, vec!["add", "fail"]);
}

#[test]
fn the_blackboard_is_handed_back_as_the_actions_left_it() {
    let mut builder = Bt::builder();
    builder.layer(|mut root| {
        root.execute(Act::Add(4));
        root.condition(Check::AtLeast(4));
        root.execute(Act::Fail);
        root.execute(Act::Add(100));
    });
    let mut bt = builder.build().unwrap();
    let mut board = Board {
        count: 3,
        steps: vec!["before"],
    };
    assert_eq!(bt.run(&mut board), Status::Failure);
    assert_eq!(board.count, 7);
    assert_eq!(board.steps, vec!["before", "add", "fail"]);
}

#[test]
fn a_cloned_tree_runs_clones_of_the_actions() {
    let mut builder = Bt::builder();
    builder.layer(|mut root| {
        root.execute(Act::Add(4));
        root.condition(Check::AtLeast(4));
    });
    let bt = builder.build().unwrap();
    let mut copy = bt.clone();
    let mut board = Board::default();
    assert_eq!(copy.run(&mut board), Status::Success);
    assert_eq!(board.count, 4);
    // the tree that was cloned has not run
    assert_eq!(bt.control_tree().status(), Status::Running);
}
