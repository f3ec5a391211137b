use parallel_rustc::trees::{
    merge_action, needs_copy, seed_action, EntryAction, EntryKind, LinkOutcome,
};

#[test]
fn seeding_links_what_is_missing() {
    assert_eq!(seed_action(EntryKind::Directory, false), EntryAction::Descend);
    assert_eq!(seed_action(EntryKind::Directory, true), EntryAction::Descend);
    assert_eq!(seed_action(EntryKind::File, false), EntryAction::Link);
    assert_eq!(seed_action(EntryKind::File, true), EntryAction::Skip);
    assert_eq!(seed_action(EntryKind::Symlink, false), EntryAction::CopySymlink);
    assert_eq!(seed_action(EntryKind::Symlink, true), EntryAction::Skip);
    assert_eq!(seed_action(EntryKind::Other, false), EntryAction::Skip);
}

#[test]
fn merging_links_files_only() {
    assert_eq!(merge_action(EntryKind::Directory, true), EntryAction::Descend);
    assert_eq!(merge_action(EntryKind::File, false), EntryAction::Link);
    assert_eq!(merge_action(EntryKind::File, true), EntryAction::Skip);
    assert_eq!(merge_action(EntryKind::Symlink, false), EntryAction::Skip);
    assert_eq!(merge_action(EntryKind::Other, false), EntryAction::Skip);
}

#[test]
fn a_file_is_copied_only_if_it_cannot_be_linked() {
    assert!(!needs_copy(LinkOutcome::Linked));
    assert!(!needs_copy(LinkOutcome::AlreadyThere));
    assert!(needs_copy(LinkOutcome::Failed));
}
