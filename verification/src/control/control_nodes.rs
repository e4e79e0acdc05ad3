//! The control nodes and the state machine of each.

use super::decorators::{Inverter, Repeater, StandardDecorator, Subtree};
use super::CTreeNodeID;
use super::ChildUpdate;
use crate::hashed::{set_copy, set_insert, set_remove, IdSet};
use crate::traits::{Control, Decorator};
use crate::Status;
use vstd::prelude::*;

verus! {

/// What a [`ControlNodeType`] holds.
pub enum ControlNodeTypeView<D> {
    Sequence(SequenceView),
    Fallback(Fallback),
    Parallel(ParallelView),
    Decorator(D),
}

impl<D: Decorator> ControlNodeTypeView<D> {
    /// The status that a tick gives.
    pub open spec fn tick_status(self) -> Status {
        match self {
            ControlNodeTypeView::Sequence(s) => s.tick_status(),
            ControlNodeTypeView::Fallback(f) => f.tick_status(),
            ControlNodeTypeView::Parallel(p) => p.tick_status(),
            ControlNodeTypeView::Decorator(d) => d.reported(),
        }
    }

    /// The payload after a tick.
    pub open spec fn ticked(self) -> Self {
        match self {
            ControlNodeTypeView::Sequence(s) => ControlNodeTypeView::Sequence(s.ticked()),
            _ => self,
        }
    }

    /// The payload after it was told `update`.
    pub open spec fn told(self, update: ChildUpdate) -> Self {
        match self {
            ControlNodeTypeView::Sequence(s) => ControlNodeTypeView::Sequence(s.told(update)),
            ControlNodeTypeView::Fallback(f) => ControlNodeTypeView::Fallback(f.told(update)),
            ControlNodeTypeView::Parallel(p) => ControlNodeTypeView::Parallel(p.told(update)),
            ControlNodeTypeView::Decorator(d) => ControlNodeTypeView::Decorator(d.told(update)),
        }
    }

    /// The payload after it was told that all children have been seen.
    pub open spec fn all_seen(self) -> Self {
        match self {
            ControlNodeTypeView::Sequence(s) => ControlNodeTypeView::Sequence(s.all_seen()),
            ControlNodeTypeView::Fallback(f) => ControlNodeTypeView::Fallback(f.all_seen()),
            ControlNodeTypeView::Parallel(p) => ControlNodeTypeView::Parallel(p.all_seen()),
            ControlNodeTypeView::Decorator(d) => ControlNodeTypeView::Decorator(d.asked()),
        }
    }

    /// The payload after a reset.
    pub open spec fn cleared(self) -> Self {
        match self {
            ControlNodeTypeView::Sequence(_) => ControlNodeTypeView::Sequence(
                SequenceView::fresh(),
            ),
            ControlNodeTypeView::Fallback(_) => ControlNodeTypeView::Fallback(
                Fallback { status: None },
            ),
            ControlNodeTypeView::Parallel(_) => ControlNodeTypeView::Parallel(
                ParallelView::fresh(),
            ),
            ControlNodeTypeView::Decorator(d) => ControlNodeTypeView::Decorator(d.cleared()),
        }
    }

    /// The branch that the payload asks to have reset at the close of a pass.
    pub open spec fn wanted_reset(self) -> Option<CTreeNodeID> {
        match self {
            ControlNodeTypeView::Decorator(d) => d.wanted_reset(),
            _ => None,
        }
    }

    /// `other` holds what a clone of `self` holds.
    pub open spec fn copied_to(self, other: Self) -> bool {
        match (self, other) {
            (ControlNodeTypeView::Decorator(d), ControlNodeTypeView::Decorator(e)) => cloned(d, e),
            _ => self == other,
        }
    }
}

/// What a [`ControlNode`] holds.
pub struct ControlNodeView<D> {
    pub node_type: ControlNodeTypeView<D>,
    pub status: Option<Status>,
    pub id: Option<CTreeNodeID>,
    pub reset_requests: Seq<CTreeNodeID>,
}

impl<D: Decorator> ControlNodeView<D> {
    /// A node of the given payload that is in no tree and was never ticked.
    pub open spec fn fresh(node_type: ControlNodeTypeView<D>) -> Self {
        ControlNodeView { node_type, status: None, id: None, reset_requests: Seq::empty() }
    }

    /// The status that a tick gives.
    pub open spec fn tick_status(self) -> Status {
        self.node_type.tick_status()
    }

    /// The node after a tick: the status is cached.
    pub open spec fn ticked(self) -> Self {
        ControlNodeView {
            node_type: self.node_type.ticked(),
            status: Some(self.tick_status()),
            ..self
        }
    }

    /// The node after `update`: the payload takes the update, and the node
    /// is ticked at once.
    pub open spec fn told(self, update: ChildUpdate) -> Self {
        ControlNodeView { node_type: self.node_type.told(update), ..self }.ticked()
    }

    /// The node after it was told that all children have been seen. What a
    /// decorator asks to have reset is queued.
    pub open spec fn all_seen(self) -> Self {
        ControlNodeView {
            node_type: self.node_type.all_seen(),
            reset_requests: match self.node_type.wanted_reset() {
                Some(branch) => self.reset_requests.push(branch),
                None => self.reset_requests,
            },
            ..self
        }
    }

    /// The node after its payload was reset.
    pub open spec fn cleared(self) -> Self {
        ControlNodeView { node_type: self.node_type.cleared(), ..self }
    }

    /// `other` holds what a clone of `self` holds.
    pub open spec fn copied_to(self, other: Self) -> bool {
        &&& self.node_type.copied_to(other.node_type)
        &&& other.status == self.status
        &&& other.id == self.id
        &&& other.reset_requests == self.reset_requests
    }
}

/// Defines the control flow of the tree.
#[derive(Debug, PartialEq, Eq)]
pub enum ControlNodeType<D: Decorator> {
    /// Run children in order, failing immediately if any child fails
    Sequence(Sequence),
    /// Run children in order until one succeeds, fails if all fail, succeeds if any succeed.
    Fallback(Fallback),
    /// Run all children, regardless of their success or failure
    Parallel(Parallel),
    /// Decorators only have one child, and define custom policy. Common
    /// decorator policies are provided in [`StandardDecorator`]
    Decorator(D),
}

impl<D: Decorator> View for ControlNodeType<D> {
    type V = ControlNodeTypeView<D>;

    open spec fn view(&self) -> ControlNodeTypeView<D> {
        match self {
            ControlNodeType::Sequence(s) => ControlNodeTypeView::Sequence(s@),
            ControlNodeType::Fallback(f) => ControlNodeTypeView::Fallback(*f),
            ControlNodeType::Parallel(p) => ControlNodeTypeView::Parallel(p@),
            ControlNodeType::Decorator(d) => ControlNodeTypeView::Decorator(*d),
        }
    }
}

impl<D: Decorator> Clone for ControlNodeType<D> {
    fn clone(&self) -> (out: Self)
        ensures
            self@.copied_to(out@),
    {
        match self {
            ControlNodeType::Sequence(s) => ControlNodeType::Sequence(s.clone()),
            ControlNodeType::Fallback(f) => ControlNodeType::Fallback(*f),
            ControlNodeType::Parallel(p) => ControlNodeType::Parallel(p.clone()),
            ControlNodeType::Decorator(d) => ControlNodeType::Decorator(d.clone()),
        }
    }
}

impl<D: Decorator> vstd::std_specs::convert::FromSpecImpl<Sequence> for ControlNodeType<D> {
    open spec fn obeys_from_spec() -> bool {
        true
    }

    open spec fn from_spec(seq: Sequence) -> ControlNodeType<D> {
        ControlNodeType::Sequence(seq)
    }
}

impl<D: Decorator> From<Sequence> for ControlNodeType<D> {
    fn from(seq: Sequence) -> (out: Self) {
        ControlNodeType::Sequence(seq)
    }
}

impl<D: Decorator> vstd::std_specs::convert::FromSpecImpl<Fallback> for ControlNodeType<D> {
    open spec fn obeys_from_spec() -> bool {
        true
    }

    open spec fn from_spec(fallback: Fallback) -> ControlNodeType<D> {
        ControlNodeType::Fallback(fallback)
    }
}

impl<D: Decorator> From<Fallback> for ControlNodeType<D> {
    fn from(fallback: Fallback) -> (out: Self) {
        ControlNodeType::Fallback(fallback)
    }
}

impl<D: Decorator> vstd::std_specs::convert::FromSpecImpl<Parallel> for ControlNodeType<D> {
    open spec fn obeys_from_spec() -> bool {
        true
    }

    open spec fn from_spec(parallel: Parallel) -> ControlNodeType<D> {
        ControlNodeType::Parallel(parallel)
    }
}

impl<D: Decorator> From<Parallel> for ControlNodeType<D> {
    fn from(parallel: Parallel) -> (out: Self) {
        ControlNodeType::Parallel(parallel)
    }
}

/// An inner node of the tree: a control policy with its cached status.
#[derive(Debug, PartialEq, Eq)]
pub struct ControlNode<D: Decorator> {
    pub node_type: ControlNodeType<D>,
    pub status: Option<Status>,
    pub id: Option<CTreeNodeID>,
    /// The branches that are to be reset at the close of the pass
    pub reset_requests: Vec<CTreeNodeID>,
}

impl<D: Decorator> View for ControlNode<D> {
    type V = ControlNodeView<D>;

    open spec fn view(&self) -> ControlNodeView<D> {
        ControlNodeView {
            node_type: self.node_type@,
            status: self.status,
            id: self.id,
            reset_requests: self.reset_requests@,
        }
    }
}

impl<D: Decorator> Clone for ControlNode<D> {
    fn clone(&self) -> (out: Self)
        ensures
            self@.copied_to(out@),
    {
        let mut reset_requests: Vec<CTreeNodeID> = Vec::new();
        let mut i: usize = 0;
        while i < self.reset_requests.len()
            invariant
                i <= self.reset_requests.len(),
                reset_requests@ == self.reset_requests@.take(i as int),
            decreases self.reset_requests.len() - i,
        {
            reset_requests.push(self.reset_requests[i]);
            i += 1;
        }
        assert(reset_requests@ =~= self.reset_requests@);
        ControlNode {
            node_type: self.node_type.clone(),
            status: self.status,
            id: self.id,
            reset_requests,
        }
    }
}

impl<D: Decorator> ControlNode<D> {
    pub fn reset(&mut self)
        ensures
            final(self)@ == old(self)@.cleared(),
    {
        match &mut self.node_type {
            ControlNodeType::Sequence(s) => s.reset(),
            ControlNodeType::Fallback(s) => s.reset(),
            ControlNodeType::Parallel(s) => s.reset(),
            ControlNodeType::Decorator(s) => s.reset(),
        }
    }

    pub fn sequence() -> (out: Self)
        ensures
            out@ == ControlNodeView::<D>::fresh(
                ControlNodeTypeView::Sequence(SequenceView::fresh()),
            ),
    {
        Self {
            node_type: ControlNodeType::Sequence(Sequence::default()),
            status: None,
            id: None,
            reset_requests: Vec::new(),
        }
    }

    pub fn parallel() -> (out: Self)
        ensures
            out@ == ControlNodeView::<D>::fresh(
                ControlNodeTypeView::Parallel(ParallelView::fresh()),
            ),
    {
        Self {
            node_type: ControlNodeType::Parallel(Parallel::default()),
            status: None,
            id: None,
            reset_requests: Vec::new(),
        }
    }

    pub fn fallback() -> (out: Self)
        ensures
            out@ == ControlNodeView::<D>::fresh(
                ControlNodeTypeView::Fallback(Fallback { status: None }),
            ),
    {
        Self {
            node_type: ControlNodeType::Fallback(Fallback::default()),
            status: None,
            id: None,
            reset_requests: Vec::new(),
        }
    }

    /// A node of the decorator that `decorator` converts into.
    pub fn decorator<T: Into<D>>(decorator: T) -> (out: Self)
        ensures
            out@.node_type is Decorator,
            call_ensures(T::into, (decorator,), out@.node_type->Decorator_0),
            out@ == ControlNodeView::<D>::fresh(out@.node_type),
    {
        Self {
            node_type: ControlNodeType::Decorator(decorator.into()),
            status: None,
            id: None,
            reset_requests: Vec::new(),
        }
    }
}

impl ControlNode<StandardDecorator> {
    pub fn inverter() -> (out: Self)
        ensures
            out@ == ControlNodeView::<StandardDecorator>::fresh(
                ControlNodeTypeView::Decorator(
                    StandardDecorator::Invert(Inverter { child_status: None }),
                ),
            ),
    {
        Self {
            node_type: ControlNodeType::Decorator(StandardDecorator::inverter()),
            status: None,
            id: None,
            reset_requests: Vec::new(),
        }
    }

    /// Number of retries **after** the first failure (i.e. `retries + 1` attempts)
    pub fn repeater(retries: usize) -> (out: Self)
        requires
            retries < usize::MAX,
        ensures
            out@ == ControlNodeView::<StandardDecorator>::fresh(
                ControlNodeTypeView::Decorator(
                    StandardDecorator::Repeat(Repeater::fresh((retries + 1) as usize)),
                ),
            ),
    {
        Self {
            node_type: ControlNodeType::Decorator(StandardDecorator::repeater(retries)),
            status: None,
            id: None,
            reset_requests: Vec::new(),
        }
    }

    pub fn subtree() -> (out: Self)
        ensures
            out@ == ControlNodeView::<StandardDecorator>::fresh(
                ControlNodeTypeView::Decorator(
                    StandardDecorator::Subtree(Subtree { status: None, name: None }),
                ),
            ),
    {
        Self {
            node_type: ControlNodeType::Decorator(StandardDecorator::subtree()),
            status: None,
            id: None,
            reset_requests: Vec::new(),
        }
    }
}

impl<D: Decorator> Control for ControlNode<D> {
    open spec fn takes_children(&self) -> bool {
        true
    }

    fn tick(&mut self) -> (status: Status)
        ensures
            final(self)@ == old(self)@.ticked(),
            status == old(self)@.tick_status(),
    {
        let status = match &mut self.node_type {
            ControlNodeType::Sequence(seq) => seq.tick(),
            ControlNodeType::Fallback(f) => f.tick(),
            ControlNodeType::Parallel(p) => p.tick(),
            ControlNodeType::Decorator(d) => d.status(),
        };
        self.status = Some(status);
        status
    }

    fn child_updated(&mut self, update: ChildUpdate)
        ensures
            final(self)@ == old(self)@.told(update),
    {
        match &mut self.node_type {
            ControlNodeType::Sequence(seq) => seq.child_updated(update),
            ControlNodeType::Fallback(f) => f.child_updated(update),
            ControlNodeType::Parallel(p) => p.child_updated(update),
            ControlNodeType::Decorator(d) => {
                let answer = d.child_updated(update);
                self.status = Some(answer);
            },
        }
        self.tick();
    }

    fn all_children_seen(&mut self)
        ensures
            final(self)@ == old(self)@.all_seen(),
    {
        match &mut self.node_type {
            ControlNodeType::Sequence(seq) => seq.all_children_seen(),
            ControlNodeType::Fallback(f) => f.all_children_seen(),
            ControlNodeType::Parallel(p) => p.all_children_seen(),
            ControlNodeType::Decorator(d) => {
                // decorators have one child, so once they get a child update they have
                // seen all their children; what is left is to queue their reset request
                if let Some(reset) = d.reset_request() {
                    self.reset_requests.push(reset);
                }
            },
        }
    }
}

impl<D: Decorator> ControlNode<D> {
    pub fn try_as_sequence(&self) -> (out: Option<&Sequence>)
        ensures
            match out {
                Some(s) => self@.node_type == ControlNodeTypeView::<D>::Sequence(s@),
                None => !(self@.node_type is Sequence),
            },
    {
        if let ControlNodeType::Sequence(s) = &self.node_type {
            Some(s)
        } else {
            None
        }
    }

    pub fn is_sequence(&self) -> (out: bool)
        ensures
            out == (self@.node_type is Sequence),
    {
        self.try_as_sequence().is_some()
    }

    pub fn try_as_fallback(&self) -> (out: Option<&Fallback>)
        ensures
            match out {
                Some(f) => self@.node_type == ControlNodeTypeView::<D>::Fallback(*f),
                None => !(self@.node_type is Fallback),
            },
    {
        if let ControlNodeType::Fallback(f) = &self.node_type {
            Some(f)
        } else {
            None
        }
    }

    pub fn is_fallback(&self) -> (out: bool)
        ensures
            out == (self@.node_type is Fallback),
    {
        self.try_as_fallback().is_some()
    }

    pub fn try_as_parallel(&self) -> (out: Option<&Parallel>)
        ensures
            match out {
                Some(p) => self@.node_type == ControlNodeTypeView::<D>::Parallel(p@),
                None => !(self@.node_type is Parallel),
            },
    {
        if let ControlNodeType::Parallel(p) = &self.node_type {
            Some(p)
        } else {
            None
        }
    }

    pub fn is_parallel(&self) -> (out: bool)
        ensures
            out == (self@.node_type is Parallel),
    {
        self.try_as_parallel().is_some()
    }

    pub fn try_as_decorator(&self) -> (out: Option<&D>)
        ensures
            match out {
                Some(d) => self@.node_type == ControlNodeTypeView::<D>::Decorator(*d),
                None => !(self@.node_type is Decorator),
            },
    {
        if let ControlNodeType::Decorator(d) = &self.node_type {
            Some(d)
        } else {
            None
        }
    }

    pub fn is_decorator(&self) -> (out: bool)
        ensures
            out == (self@.node_type is Decorator),
    {
        self.try_as_decorator().is_some()
    }
}

/// What a [`Sequence`] holds.
pub struct SequenceView {
    pub pending: Set<usize>,
    pub failed: Option<CTreeNodeID>,
    pub status: Option<Status>,
    pub finished: bool,
}

impl SequenceView {
    /// A sequence that has seen nothing.
    pub open spec fn fresh() -> SequenceView {
        SequenceView { pending: Set::empty(), failed: None, status: None, finished: false }
    }

    /// Failure once a child has failed, success once every child was seen
    /// with none pending, and else running.
    pub open spec fn tick_status(self) -> Status {
        if self.failed.is_some() {
            Status::Failure
        } else if self.finished {
            Status::Success
        } else {
            Status::Running
        }
    }

    pub open spec fn ticked(self) -> SequenceView {
        SequenceView { status: Some(self.tick_status()), ..self }
    }

    pub open spec fn told(self, update: ChildUpdate) -> SequenceView {
        match update.status {
            Status::Running => SequenceView {
                pending: self.pending.insert(update.child_id.0),
                ..self
            },
            Status::Success => SequenceView {
                pending: self.pending.remove(update.child_id.0),
                ..self
            },
            Status::Failure => SequenceView { failed: Some(update.child_id), ..self },
        }
    }

    pub open spec fn all_seen(self) -> SequenceView {
        if self.pending.is_empty() {
            SequenceView { finished: true, ..self }
        } else {
            self
        }
    }
}

/// Run children in order, failing immediately if any child fails
#[derive(Debug, PartialEq, Eq)]
pub struct Sequence {
    /// The children that are still running
    pub pending: IdSet,
    pub failed: Option<CTreeNodeID>,
    pub status: Option<Status>,
    pub finished: bool,
}

impl View for Sequence {
    type V = SequenceView;

    open spec fn view(&self) -> SequenceView {
        SequenceView {
            pending: self.pending@,
            failed: self.failed,
            status: self.status,
            finished: self.finished,
        }
    }
}

impl Default for Sequence {
    fn default() -> (out: Self)
        ensures
            out@ == SequenceView::fresh(),
    {
        Sequence { pending: IdSet::default(), failed: None, status: None, finished: false }
    }
}

impl Clone for Sequence {
    fn clone(&self) -> (out: Self)
        ensures
            out@ == self@,
    {
        Sequence {
            pending: set_copy(&self.pending),
            failed: self.failed,
            status: self.status,
            finished: self.finished,
        }
    }
}

impl Sequence {
    pub fn new() -> (out: Self)
        ensures
            out@ == SequenceView::fresh(),
    {
        Self::default()
    }

    pub fn reset(&mut self)
        ensures
            final(self)@ == SequenceView::fresh(),
    {
        self.pending.clear();
        self.failed = None;
        self.status = None;
        self.finished = false;
    }
}

impl Control for Sequence {
    open spec fn takes_children(&self) -> bool {
        true
    }

    fn tick(&mut self) -> (status: Status)
        ensures
            final(self)@ == old(self)@.ticked(),
            status == old(self)@.tick_status(),
    {
        if self.failed.is_some() {
            self.status = Some(Status::Failure);
            return Status::Failure;
        }
        if self.finished {
            self.status = Some(Status::Success);
            return Status::Success;
        }
        self.status = Some(Status::Running);
        Status::Running
    }

    fn child_updated(&mut self, update: ChildUpdate)
        ensures
            final(self)@ == old(self)@.told(update),
    {
        match update.status {
            Status::Running => {
                set_insert(&mut self.pending, update.child_id.0);
            },
            Status::Success => {
                set_remove(&mut self.pending, update.child_id.0);
            },
            Status::Failure => {
                self.failed = Some(update.child_id);
            },
        }
    }

    fn all_children_seen(&mut self)
        ensures
            final(self)@ == old(self)@.all_seen(),
    {
        if self.pending.is_empty() {
            self.finished = true;
        }
    }
}

/// Run children in order until one succeeds: fails if all fail, succeeds if
/// any succeeds.
#[derive(Debug, Clone, Copy, PartialEq, Eq, Hash, Structural)]
pub struct Fallback {
    pub status: Option<Status>,
}

impl Default for Fallback {
    fn default() -> (out: Self)
        ensures
            out == (Fallback { status: None }),
    {
        Fallback { status: None }
    }
}

impl Fallback {
    pub open spec fn tick_status(self) -> Status {
        Status::or_running(self.status)
    }

    pub open spec fn told(self, update: ChildUpdate) -> Fallback {
        if update.status == Status::Success {
            Fallback { status: Some(Status::Success) }
        } else {
            self
        }
    }

    /// What is still running at the close of a pass has failed.
    pub open spec fn all_seen(self) -> Fallback {
        Fallback { status: Some(Status::or_running(self.status).demoted()) }
    }

    pub fn reset(&mut self)
        ensures
            *final(self) == (Fallback { status: None }),
    {
        self.status = None;
    }
}

impl Control for Fallback {
    open spec fn takes_children(&self) -> bool {
        true
    }

    fn tick(&mut self) -> (status: Status)
        ensures
            *final(self) == *old(self),
            status == old(self).tick_status(),
    {
        self.status.unwrap_or_default()
    }

    fn child_updated(&mut self, update: ChildUpdate)
        ensures
            *final(self) == old(self).told(update),
    {
        if update.status.is_success() {
            self.status = Some(Status::Success);
        }
    }

    fn all_children_seen(&mut self)
        ensures
            *final(self) == old(self).all_seen(),
    {
        self.status = match self.status {
            Some(status) => Some(status.into_failure_if_running()),
            None => Some(Status::Failure),
        };
    }
}

/// What a [`Parallel`] holds.
pub struct ParallelView {
    pub success: Set<usize>,
    pub failure: Set<usize>,
    pub pending: Set<usize>,
    pub finished: bool,
}

impl ParallelView {
    /// A parallel that has seen nothing.
    pub open spec fn fresh() -> ParallelView {
        ParallelView {
            success: Set::empty(),
            failure: Set::empty(),
            pending: Set::empty(),
            finished: false,
        }
    }

    /// Running until every child was seen with none pending; then success
    /// if no child has failed.
    pub open spec fn tick_status(self) -> Status {
        if self.finished {
            if self.failure.is_empty() {
                Status::Success
            } else {
                Status::Failure
            }
        } else {
            Status::Running
        }
    }

    pub open spec fn told(self, update: ChildUpdate) -> ParallelView {
        let child = update.child_id.0;
        match update.status {
            Status::Success => ParallelView {
                pending: self.pending.remove(child),
                success: self.success.insert(child),
                ..self
            },
            Status::Failure => ParallelView {
                pending: self.pending.remove(child),
                failure: self.failure.insert(child),
                ..self
            },
            Status::Running => ParallelView { pending: self.pending.insert(child), ..self },
        }
    }

    pub open spec fn all_seen(self) -> ParallelView {
        if self.pending.is_empty() {
            ParallelView { finished: true, ..self }
        } else {
            self
        }
    }
}

/// Run all children, regardless of their success or failure
#[derive(Debug, PartialEq, Eq)]
pub struct Parallel {
    pub success: IdSet,
    pub failure: IdSet,
    pub pending: IdSet,
    pub finished: bool,
}

impl View for Parallel {
    type V = ParallelView;

    open spec fn view(&self) -> ParallelView {
        ParallelView {
            success: self.success@,
            failure: self.failure@,
            pending: self.pending@,
            finished: self.finished,
        }
    }
}

impl Default for Parallel {
    fn default() -> (out: Self)
        ensures
            out@ == ParallelView::fresh(),
    {
        Parallel {
            success: IdSet::default(),
            failure: IdSet::default(),
            pending: IdSet::default(),
            finished: false,
        }
    }
}

impl Clone for Parallel {
    fn clone(&self) -> (out: Self)
        ensures
            out@ == self@,
    {
        Parallel {
            success: set_copy(&self.success),
            failure: set_copy(&self.failure),
            pending: set_copy(&self.pending),
            finished: self.finished,
        }
    }
}

impl Parallel {
    pub fn reset(&mut self)
        ensures
            final(self)@ == ParallelView::fresh(),
    {
        self.success.clear();
        self.failure.clear();
        self.pending.clear();
        self.finished = false;
    }
}

impl Control for Parallel {
    open spec fn takes_children(&self) -> bool {
        true
    }

    /// All child nodes are to run, regardless of success/failure state.
    fn tick(&mut self) -> (status: Status)
        ensures
            final(self)@ == old(self)@,
            status == old(self)@.tick_status(),
    {
        if self.finished {
            if self.failure.is_empty() {
                Status::Success
            } else {
                Status::Failure
            }
        } else {
            Status::Running
        }
    }

    fn child_updated(&mut self, update: ChildUpdate)
        ensures
            final(self)@ == old(self)@.told(update),
    {
        let ChildUpdate { status, child_id } = update;
        match status {
            Status::Success => {
                set_remove(&mut self.pending, child_id.0);
                set_insert(&mut self.success, child_id.0);
            },
            Status::Failure => {
                set_remove(&mut self.pending, child_id.0);
                set_insert(&mut self.failure, child_id.0);
            },
            Status::Running => {
                set_insert(&mut self.pending, child_id.0);
            },
        }
    }

    fn all_children_seen(&mut self)
        ensures
            final(self)@ == old(self)@.all_seen(),
    {
        if self.pending.is_empty() {
            self.finished = true;
        }
    }
}

} // verus!
