//! A hook that records what the leaves report.

use super::ChildUpdate;
use super::LeafNode;
use super::engine::asked_in_turn;
use crate::traits::ExecutorHook;
use crate::Status;
use vstd::prelude::*;

verus! {

/// Logs the ids of and statuses returned by leaf nodes in the order they were executed in.
///
/// Can be useful to include as part of executors that do more complex stuff.
#[derive(Debug, Clone)]
pub struct LeafLogger {
    /// Only contains the updates of leaf nodes, none of control nodes
    pub updates: Vec<ChildUpdate>,
}

impl Default for LeafLogger {
    fn default() -> (out: Self)
        ensures
            out.updates@ == Seq::<ChildUpdate>::empty(),
    {
        LeafLogger { updates: Vec::new() }
    }
}

impl LeafLogger {
    /// The status that the logger answers for `leaf`: the one that the leaf
    /// has cached, and success where it has none.
    pub open spec fn answer(leaf: LeafNode) -> Status {
        match leaf.status {
            Some(status) => status,
            None => Status::Success,
        }
    }
}

impl ExecutorHook for LeafLogger {
    /// The logger answers with the status that the leaf has cached, and
    /// records the leaf under its id. A leaf without an id is answered and
    /// not recorded.
    open spec fn answers(&self, leaf: LeafNode, status: Status, after: &Self) -> bool {
        &&& status == LeafLogger::answer(leaf)
        &&& after.updates@ == (match leaf.id {
            Some(child_id) => self.updates@.push(ChildUpdate { status, child_id }),
            None => self.updates@,
        })
    }

    fn hook(&mut self, leaf: &LeafNode) -> (status: Status) {
        let status = leaf.status.unwrap_or(Status::Success);
        if let Some(child_id) = leaf.id {
            self.updates.push(ChildUpdate { status, child_id });
        }
        status
    }
}

/// What a logger records when it is asked about `leaves` one after the
/// other: each leaf that has an id, under that id and with the status that
/// the logger answers.
pub open spec fn records(leaves: Seq<LeafNode>) -> Seq<ChildUpdate>
    decreases leaves.len(),
{
    if leaves.len() == 0 {
        Seq::empty()
    } else {
        let earlier = records(leaves.drop_last());
        match leaves.last().id {
            Some(child_id) => earlier.push(
                ChildUpdate { status: LeafLogger::answer(leaves.last()), child_id },
            ),
            None => earlier,
        }
    }
}

/// A logger that was asked about leaves in turn holds what it held before,
/// and then what it recorded of these leaves, in their order.
pub proof fn lemma_logger_records(
    states: Seq<LeafLogger>,
    leaves: Seq<LeafNode>,
    answers: Seq<Status>,
)
    requires
        asked_in_turn::<LeafLogger>(states, leaves, answers),
    ensures
        states.last().updates@ == states.first().updates@ + records(leaves),
        forall|i: int| 0 <= i < leaves.len() ==> answers[i] == LeafLogger::answer(#[trigger] leaves[i]),
    decreases leaves.len(),
{
    if leaves.len() == 0 {
        assert(states.first().updates@ + records(leaves) =~= states.first().updates@);
    } else {
        let last = leaves.len() - 1;
        assert forall|i: int| 0 <= i < last implies states.drop_last()[i].answers(
            #[trigger] leaves.drop_last()[i],
            answers.drop_last()[i],
            &states.drop_last()[i + 1],
        ) by {
            assert(states[i].answers(leaves[i], answers[i], &states[i + 1]));
        }
        lemma_logger_records(states.drop_last(), leaves.drop_last(), answers.drop_last());
        assert(states[last].answers(leaves[last], answers[last], &states[last + 1]));
        assert forall|i: int| 0 <= i < leaves.len() implies answers[i] == LeafLogger::answer(
            #[trigger] leaves[i],
        ) by {
            assert(states[i].answers(leaves[i], answers[i], &states[i + 1]));
        }
        let held = states.first().updates@;
        let earlier = records(leaves.drop_last());
        assert(states.drop_last().last() == states[last]);
        assert(states[last].updates@ == held + earlier);
        match leaves.last().id {
            Some(child_id) => {
                assert((held + earlier).push(
                    ChildUpdate { status: answers[last], child_id },
                ) =~= held + earlier.push(ChildUpdate { status: answers[last], child_id }));
            },
            None => {},
        }
    }
}

/// The only answer that a logger gives for a leaf is the status that the
/// leaf has cached, and success where it has none.
pub proof fn lemma_logger_answers(leaf: LeafNode, status: Status)
    requires
        crate::control::engine::can_answer::<LeafLogger>(leaf, status),
    ensures
        status == LeafLogger::answer(leaf),
{
}

} // verus!
