//! The selector gateway's contract. The interactive fuzzy chooser itself
//! is an external collaborator; what comes back from it is resolved here,
//! by exact display-key lookup, so that only a catalog item of the current
//! run can be launched.

use vstd::prelude::*;

use crate::Error;
use crate::ssh_config::SshItem;
use crate::ssh_config::SshItems;

verus! {

/// What the external chooser reported.
pub enum SelectionOutcome {
    /// The user picked the item shown under this display key.
    Chosen(String),
    /// The user cancelled the selection.
    Aborted,
    /// The chooser could not run at all.
    Failed,
}

/// Resolves the chooser's outcome against the catalog. A pick is looked
/// up again by its display key: echoed text that matches no catalog item
/// fails rather than being trusted. An abort is distinguished from every
/// failure, and nothing is launched for it.
pub fn resolve_selection(items: &SshItems, outcome: &SelectionOutcome) -> (r: Result<
    SshItem,
    Error,
>)
    requires
        items.wf(),
    ensures
        match r {
            Ok(item) => *outcome matches SelectionOutcome::Chosen(k) && items@.contains_key(k@)
                && item@ == items@[k@],
            Err(e) => match *outcome {
                SelectionOutcome::Chosen(k) => e == Error::SelectionFailed
                    && !items@.contains_key(k@),
                SelectionOutcome::Aborted => e == Error::Aborted,
                SelectionOutcome::Failed => e == Error::SelectionFailed,
            },
        },
{
    match outcome {
        SelectionOutcome::Chosen(key) => {
            match items.get_choice(key.as_str()) {
                Some(item) => Ok(item.duplicate()),
                None => Err(Error::SelectionFailed),
            }
        },
        SelectionOutcome::Aborted => Err(Error::Aborted),
        SelectionOutcome::Failed => Err(Error::SelectionFailed),
    }
}

} // verus!
