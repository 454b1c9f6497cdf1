//! The interactive run: both source fragments merged into the catalog
//! that is offered for selection. Reading the configuration file and the
//! store file, showing the chooser, and launching the session are the
//! caller's business around this merge.

use vstd::prelude::*;

use crate::ssh_config::SshItems;

verus! {

/// The interactive selection command.
pub struct InteractiveCommand {}

impl InteractiveCommand {
    /// A fresh interactive command.
    pub fn new() -> (r: InteractiveCommand) {
        InteractiveCommand {  }
    }

    /// Merges the configuration fragment and the history fragment into
    /// one catalog. On a shared display key the history fragment's item
    /// wins: the fragments merge last-source-wins, configuration first.
    pub fn build_catalog(&self, config_items: SshItems, history_items: SshItems) -> (r:
        SshItems)
        requires
            config_items.wf(),
            history_items.wf(),
        ensures
            r.wf(),
            r@ == config_items@.union_prefer_right(history_items@),
    {
        let mut items = config_items;
        let mut history = history_items;
        items.append(&mut history);
        items
    }
}

} // verus!
