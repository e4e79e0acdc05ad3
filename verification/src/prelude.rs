//! The names that most users of the library need.

pub use crate::bt::builder::{BTBuilder, BTLayer};
pub use crate::bt::ShrubberyBT;
pub use crate::control::control_nodes::{
    ControlNode, ControlNodeType, Fallback, Parallel, Sequence,
};
pub use crate::control::decorators::{Inverter, Repeater, StandardDecorator, Subtree};
pub use crate::control::simple_executors::LeafLogger;
pub use crate::control::{ControlTree, LeafNode, RootNode, StdControlTree};
pub use crate::traits::{
    ActionHandler, Blackboard, Conditional, Control, Decorator, Executor, ExecutorHook, NoCallback,
    UpdateCallback,
};
pub use crate::{ShrubberyError, ShrubberyResult, Status};
