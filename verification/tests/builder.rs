use shrubbery::control::control_nodes::ControlNode;
use shrubbery::control::decorators::StandardDecorator;
use shrubbery::control::CTreeNodeID;
use shrubbery::control::ControlTree;
use shrubbery::control::LeafNode;
use shrubbery::control::ROOT_ID;
use shrubbery::ShrubberyError;

#[test]
fn cyclic_nobuild() {
    let mut builder = ControlTree::<StandardDecorator>::builder();

    builder.layer(|mut root| {
        root.sequence(|mut sequence| {
            sequence.leaf_node(LeafNode::default());
            sequence.leaf_node(LeafNode::default());
        });
    });

    builder.inject_cycle();

    let err = builder.build().unwrap_err();

    assert!(matches!(err, ShrubberyError::CycleDetected(_)));
}

#[test]
fn dangling_nobuild() {
    let mut builder = ControlTree::<StandardDecorator>::builder();
    builder.layer(|mut root_layer| {
        root_layer.leaf_node(LeafNode::default());
    });

    builder.layer(|mut root_layer| {
        // a sequence that is given no child
        root_layer.next_layer(ControlNode::sequence());
    });

    let err = builder.build().unwrap_err(); // panic if this isn't an error

    assert!(matches!(err, ShrubberyError::DanglingControlNode(_)));
}

#[test]
fn multiple_decorator_children_nobuild() {
    let mut builder = ControlTree::<StandardDecorator>::builder();
    builder.layer(|mut root_layer| {
        // inverter is a decorator, not allowed to have multiple children
        root_layer.decorator(StandardDecorator::inverter(), |mut decorator_layer| {
            // two leaf node children
            decorator_layer.leaf_node(LeafNode::default());
            decorator_layer.leaf_node(LeafNode::default());
        });
    });
    let err = builder.build().unwrap_err(); // panic if this isn't an error

    assert!(matches!(err, ShrubberyError::InvalidDecorator { .. }));
}

#[test]
fn cycle_is_reported_with_its_nodes() {
    let mut builder = ControlTree::<StandardDecorator>::builder();
    builder.layer(|mut root| {
        root.leaf_node(LeafNode::default());
    });
    builder.inject_cycle();
    match builder.build() {
        Err(ShrubberyError::CycleDetected(cycle)) => {
            assert!(cycle.len() >= 2);
            assert_eq!(cycle.first(), cycle.last());
            assert!(cycle.contains(&CTreeNodeID(ROOT_ID)));
            assert!(cycle.contains(&CTreeNodeID(2)));
        }
        other => panic!("expected a cycle, got {:?}", other.map(|_| ())),
    }
}

#[test]
fn dangling_reports_the_first_control_node() {
    let mut builder = ControlTree::<StandardDecorator>::builder();
    builder.layer(|mut root| {
        root.leaf_node(LeafNode::default());
        root.next_layer(ControlNode::fallback());
        root.next_layer(ControlNode::parallel());
    });
    assert_eq!(
        builder.build().unwrap_err(),
        ShrubberyError::DanglingControlNode(CTreeNodeID(2))
    );
}

#[test]
fn decorator_without_child_is_invalid() {
    let mut builder = ControlTree::<StandardDecorator>::builder();
    builder.layer(|mut root| {
        root.next_layer(ControlNode::inverter());
    });
    assert_eq!(
        builder.build().unwrap_err(),
        ShrubberyError::InvalidDecorator {
            decorator: CTreeNodeID(1),
            children: vec![],
        }
    );
}

#[test]
fn decorator_with_two_children_reports_them() {
    let mut builder = ControlTree::<StandardDecorator>::builder();
    builder.layer(|mut root| {
        root.repeat(2, |mut repeated| {
            repeated.leaf_node(LeafNode::default());
            repeated.leaf_node(LeafNode::default());
        });
    });
    assert_eq!(
        builder.build().unwrap_err(),
        ShrubberyError::InvalidDecorator {
            decorator: CTreeNodeID(1),
            children: vec![CTreeNodeID(2), CTreeNodeID(3)],
        }
    );
}

#[test]
fn valid_tree_builds() {
    let mut builder = ControlTree::<StandardDecorator>::builder();
    builder.layer(|mut root| {
        root.sequence(|mut sequence| {
            sequence.leaf_node(LeafNode::default());
            sequence.invert(|mut inverted| {
                inverted.leaf_node(LeafNode::default());
            });
            sequence.subtree_named("named", |mut marked| {
                marked.fallback(|mut fallback| {
                    fallback.leaf_node(LeafNode::default());
                });
            });
        });
        root.parallel(|mut parallel| {
            parallel.leaf_node(LeafNode::default());
            parallel.subtree(|mut marked| {
                marked.leaf_node(LeafNode::default());
            });
        });
    });
    let tree = builder.build().unwrap();
    assert_eq!(tree.children(&CTreeNodeID(ROOT_ID)), vec![CTreeNodeID(1), CTreeNodeID(8)]);
    assert_eq!(
        tree.children(&CTreeNodeID(1)),
        vec![CTreeNodeID(2), CTreeNodeID(3), CTreeNodeID(5)]
    );
    assert_eq!(tree.children(&CTreeNodeID(3)), vec![CTreeNodeID(4)]);
    assert_eq!(tree.children(&CTreeNodeID(5)), vec![CTreeNodeID(6)]);
    assert_eq!(tree.children(&CTreeNodeID(6)), vec![CTreeNodeID(7)]);
    assert_eq!(tree.children(&CTreeNodeID(8)), vec![CTreeNodeID(9), CTreeNodeID(10)]);
    assert_eq!(tree.children(&CTreeNodeID(10)), vec![CTreeNodeID(11)]);
    assert!(tree.validate_bt_rules().is_ok());
}

#[test]
fn layer_depth_counts_down_from_the_root() {
    let mut builder = ControlTree::<StandardDecorator>::builder();
    let depths = builder.layer(|mut root| {
        let top = root.layer_depth;
        let below = root.sequence(|mut sequence| {
            let first = sequence.layer_depth;
            let second = sequence.fallback(|fallback| fallback.layer_depth);
            (first, second, sequence.layer_id)
        });
        (top, below)
    });
    assert_eq!(depths, (0, (1, 2, CTreeNodeID(1))));
}

#[test]
fn nodes_are_added_as_they_are() {
    let mut builder = ControlTree::<StandardDecorator>::builder();
    builder.layer(|mut root| {
        let mut sequence = root.descend(ControlNode::sequence());
        assert_eq!(sequence.layer_id, CTreeNodeID(1));
        assert_eq!(sequence.layer_depth, 1);
        let leaf = shrubbery::control::CTreeNode::Leaf(LeafNode::default());
        assert_eq!(sequence.add(leaf), CTreeNodeID(2));
        assert_eq!(sequence.leaf_node(LeafNode::default()), CTreeNodeID(3));
    });
    let tree = builder.build().unwrap();
    assert_eq!(tree.children(&CTreeNodeID(ROOT_ID)), vec![CTreeNodeID(1)]);
    assert_eq!(tree.children(&CTreeNodeID(1)), vec![CTreeNodeID(2), CTreeNodeID(3)]);
    assert!(tree[CTreeNodeID(1)].is_control());
    assert!(tree[CTreeNodeID(2)].is_leaf());
}
