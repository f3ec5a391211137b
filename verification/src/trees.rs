//! What happens to each entry when artifacts are linked from one directory tree into
//! another. File names that Cargo gives carry a hash of what they hold, so a file that
//! is there already is never replaced.

use vstd::prelude::*;

verus! {

/// What stands in a directory.
#[derive(Debug, Clone, Copy, PartialEq, Eq, Structural)]
pub enum EntryKind {
    Directory,
    File,
    Symlink,
    Other,
}

/// What is done with an entry.
#[derive(Debug, Clone, Copy, PartialEq, Eq, Structural)]
pub enum EntryAction {
    /// Go through the directory.
    Descend,
    /// Link the file, or copy it where it cannot be linked.
    Link,
    /// Make a symbolic link to the same target.
    CopySymlink,
    /// Leave it.
    Skip,
}

/// What came of an attempt to link a file.
#[derive(Debug, Clone, Copy, PartialEq, Eq, Structural)]
pub enum LinkOutcome {
    Linked,
    AlreadyThere,
    Failed,
}

/// What seeding does with an entry, given whether there is one of its name already.
pub open spec fn seed_action_of(kind: EntryKind, exists: bool) -> EntryAction {
    match kind {
        EntryKind::Directory => EntryAction::Descend,
        EntryKind::File => if exists {
            EntryAction::Skip
        } else {
            EntryAction::Link
        },
        EntryKind::Symlink => if exists {
            EntryAction::Skip
        } else {
            EntryAction::CopySymlink
        },
        EntryKind::Other => EntryAction::Skip,
    }
}

/// What merging does with an entry: symbolic links are not merged.
pub open spec fn merge_action_of(kind: EntryKind, exists: bool) -> EntryAction {
    match kind {
        EntryKind::Directory => EntryAction::Descend,
        EntryKind::File => if exists {
            EntryAction::Skip
        } else {
            EntryAction::Link
        },
        _ => EntryAction::Skip,
    }
}

/// Decides what seeding does with an entry.
pub fn seed_action(kind: EntryKind, exists: bool) -> (r: EntryAction)
    ensures
        r == seed_action_of(kind, exists),
{
    match kind {
        EntryKind::Directory => EntryAction::Descend,
        EntryKind::File if !exists => EntryAction::Link,
        EntryKind::Symlink if !exists => EntryAction::CopySymlink,
        _ => EntryAction::Skip,
    }
}

/// Decides what merging does with an entry.
pub fn merge_action(kind: EntryKind, exists: bool) -> (r: EntryAction)
    ensures
        r == merge_action_of(kind, exists),
{
    match kind {
        EntryKind::Directory => EntryAction::Descend,
        EntryKind::File if !exists => EntryAction::Link,
        _ => EntryAction::Skip,
    }
}

/// Whether the file has to be copied: only if it could not be linked and is not there.
pub fn needs_copy(outcome: LinkOutcome) -> (r: bool)
    ensures
        r == (outcome == LinkOutcome::Failed),
{
    match outcome {
        LinkOutcome::Failed => true,
        _ => false,
    }
}

/// Neither seeding nor merging touches a file or a link that is there already.
pub proof fn law_nothing_is_replaced(kind: EntryKind)
    requires
        kind != EntryKind::Directory,
    ensures
        seed_action_of(kind, true) == EntryAction::Skip,
        merge_action_of(kind, true) == EntryAction::Skip,
{
}

} // verus!
