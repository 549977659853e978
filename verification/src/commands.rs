//! Deferred backend commands.
//!
//! A reconciliation pass never touches the scene backend directly: it emits
//! a sequence of commands that the external driver applies strictly after
//! the pass completes, so a pass never observes its own side effects.

use vstd::prelude::*;
use crate::svec::HandleList;
use crate::svec;

verus! {

/// One deferred effect on the scene backend.
pub enum Command {
    /// Create a fresh backend node for `handle`.  `entry` is true when the
    /// node should play its own entry animation; it is false when an
    /// ancestor was created in the same pass (root suppression).
    Create { handle: u64, entry: bool },
    /// Reissue the node's content (a dynamic declaration saw `changed`).
    Update { handle: u64 },
    /// The node left the declared tree.  The transition machine decides when
    /// the backend node is physically destroyed.
    Remove { handle: u64 },
    /// Reconcile the backend's child order of `parent` against `order`
    /// (the final declared order of direct children, as handles).
    Reorder { parent: u64, order: HandleList },
}

/// Mathematical image of a `Command`, with the order list as a sequence.
pub enum CommandModel {
    Create { handle: u64, entry: bool },
    Update { handle: u64 },
    Remove { handle: u64 },
    Reorder { parent: u64, order: Seq<u64> },
}

impl View for Command {
    type V = CommandModel;

    open spec fn view(&self) -> CommandModel {
        match self {
            Command::Create { handle, entry } => CommandModel::Create {
                handle: *handle,
                entry: *entry,
            },
            Command::Update { handle } => CommandModel::Update { handle: *handle },
            Command::Remove { handle } => CommandModel::Remove { handle: *handle },
            Command::Reorder { parent, order } => CommandModel::Reorder {
                parent: *parent,
                order: svec::elems(*order),
            },
        }
    }
}

} // verus!
