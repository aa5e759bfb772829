use vaultsync::conflict::{ConflictResolutionItem, ResolutionChoice};
use vaultsync::errors::SyncError;
use vaultsync::repo::Repository;
use vaultsync::store::{get_path, set_path};
use vaultsync::sync::{fetch_from_remote, push_to_remote, Remote};

fn new_repo() -> Repository {
    let mut repo = Repository::init_repository(b"main".to_vec(), None);
    repo.add_remote(b"https://example.test/vault".to_vec());
    repo
}

fn write_file(repo: &mut Repository, path: &[u8], data: &[u8]) {
    set_path(&mut repo.worktree, &path.to_vec(), data.to_vec());
}

fn read_file(repo: &Repository, path: &[u8]) -> Option<Vec<u8>> {
    get_path(&repo.worktree, &path.to_vec())
}

fn main_branch() -> Vec<u8> {
    b"main".to_vec()
}

/// Publish a base snapshot from one device and bootstrap a second one.
fn two_devices() -> (Repository, Repository, Remote) {
    let mut a = new_repo();
    let mut remote = Remote::new_remote(None);
    write_file(&mut a, b"base.md", b"shared ground");
    a.commit_changes(b"base".to_vec(), 1).unwrap();
    let r = a
        .sync_with_remote(&mut remote, &main_branch(), None, 2)
        .unwrap();
    assert!(r.success && !r.has_conflict);

    let mut b = new_repo();
    let r = b
        .sync_with_remote(&mut remote, &main_branch(), None, 3)
        .unwrap();
    assert!(r.success && !r.has_conflict);
    assert_eq!(read_file(&b, b"base.md"), Some(b"shared ground".to_vec()));
    (a, b, remote)
}

#[test]
fn disjoint_edits_converge_without_conflict() {
    let (mut a, mut b, mut remote) = two_devices();

    write_file(&mut a, b"x.txt", b"from device a");
    a.commit_changes(b"add x".to_vec(), 4).unwrap();
    let r = a
        .sync_with_remote(&mut remote, &main_branch(), None, 5)
        .unwrap();
    assert!(r.success && !r.has_conflict);

    write_file(&mut b, b"y.txt", b"from device b");
    b.commit_changes(b"add y".to_vec(), 6).unwrap();
    let r = b
        .sync_with_remote(&mut remote, &main_branch(), None, 7)
        .unwrap();
    assert!(r.success);
    assert!(!r.has_conflict);

    // both files are present afterward
    assert_eq!(read_file(&b, b"x.txt"), Some(b"from device a".to_vec()));
    assert_eq!(read_file(&b, b"y.txt"), Some(b"from device b".to_vec()));
    assert_eq!(read_file(&b, b"base.md"), Some(b"shared ground".to_vec()));

    // and device a sees both after its next sync (fast-forward)
    let r = a
        .sync_with_remote(&mut remote, &main_branch(), None, 8)
        .unwrap();
    assert!(r.success && !r.has_conflict);
    assert_eq!(read_file(&a, b"y.txt"), Some(b"from device b".to_vec()));
}

#[test]
fn same_path_edits_conflict_and_copy_both_keeps_both() {
    let (mut a, mut b, mut remote) = two_devices();

    write_file(&mut a, b"doc.md", b"the a version");
    a.commit_changes(b"a edit".to_vec(), 4).unwrap();
    let r = a
        .sync_with_remote(&mut remote, &main_branch(), None, 5)
        .unwrap();
    assert!(r.success && !r.has_conflict);

    write_file(&mut b, b"doc.md", b"the b version");
    b.commit_changes(b"b edit".to_vec(), 6).unwrap();
    let r = b
        .sync_with_remote(&mut remote, &main_branch(), None, 7)
        .unwrap();
    assert!(r.success);
    assert!(r.has_conflict);
    let files = r.conflicts.unwrap();
    // exactly one conflicting file, and a markdown file is not binary
    assert_eq!(files.len(), 1);
    assert_eq!(files[0].path, b"doc.md".to_vec());
    assert!(!files[0].is_binary);

    // keep both versions: upstream content at the original path, this
    // device's content at a timestamped sibling
    b.resolve_conflict(
        vec![ConflictResolutionItem {
            path: b"doc.md".to_vec(),
            choice: ResolutionChoice::CopyBoth,
        }],
        99,
    )
    .unwrap();
    let r = b.continue_sync(&main_branch()).unwrap();
    assert!(r.success);
    assert!(!r.has_conflict);

    assert_eq!(read_file(&b, b"doc.md"), Some(b"the a version".to_vec()));
    assert_eq!(read_file(&b, b"doc_99.md"), Some(b"the b version".to_vec()));
    assert_eq!(read_file(&b, b"base.md"), Some(b"shared ground".to_vec()));

    // the next sync publishes the reconciled state
    let r = b
        .sync_with_remote(&mut remote, &main_branch(), None, 10)
        .unwrap();
    assert!(r.success && !r.has_conflict);
    let r = a
        .sync_with_remote(&mut remote, &main_branch(), None, 11)
        .unwrap();
    assert!(r.success && !r.has_conflict);
    assert_eq!(read_file(&a, b"doc_99.md"), Some(b"the b version".to_vec()));
}

#[test]
fn ours_and_theirs_resolutions_pick_one_side() {
    let (mut a, mut b, mut remote) = two_devices();

    write_file(&mut a, b"doc.md", b"the a version");
    a.commit_changes(b"a edit".to_vec(), 4).unwrap();
    a.sync_with_remote(&mut remote, &main_branch(), None, 5)
        .unwrap();

    write_file(&mut b, b"doc.md", b"the b version");
    b.commit_changes(b"b edit".to_vec(), 6).unwrap();
    let r = b
        .sync_with_remote(&mut remote, &main_branch(), None, 7)
        .unwrap();
    assert!(r.has_conflict);

    b.resolve_conflict(
        vec![ConflictResolutionItem {
            path: b"doc.md".to_vec(),
            choice: ResolutionChoice::Ours,
        }],
        50,
    )
    .unwrap();
    let r = b.continue_sync(&main_branch()).unwrap();
    assert!(!r.has_conflict);
    assert_eq!(read_file(&b, b"doc.md"), Some(b"the b version".to_vec()));
}

#[test]
fn abort_restores_the_branch_and_a_clean_tree() {
    let (mut a, mut b, mut remote) = two_devices();

    write_file(&mut a, b"doc.md", b"the a version");
    a.commit_changes(b"a edit".to_vec(), 4).unwrap();
    a.sync_with_remote(&mut remote, &main_branch(), None, 5)
        .unwrap();

    write_file(&mut b, b"doc.md", b"the b version");
    let local = b.commit_changes(b"b edit".to_vec(), 6).unwrap();
    let r = b
        .sync_with_remote(&mut remote, &main_branch(), None, 7)
        .unwrap();
    assert!(r.has_conflict);

    b.abort_sync().unwrap();
    // the branch reference is back at its pre-rebase value
    let v = b.verify_repository();
    assert_eq!(v.latest_commit_id, Some(local));
    // and the working tree matches that restored commit
    let s = b.get_repository_status();
    assert!(s.is_clean && !s.has_changes);
    assert_eq!(read_file(&b, b"doc.md"), Some(b"the b version".to_vec()));

    // aborting again, with no session open, is a quiet no-op
    b.abort_sync().unwrap();
    let v = b.verify_repository();
    assert_eq!(v.latest_commit_id, Some(local));
}

#[test]
fn unresolved_conflicts_are_reported_again() {
    let (mut a, mut b, mut remote) = two_devices();
    write_file(&mut a, b"doc.md", b"the a version");
    a.commit_changes(b"a edit".to_vec(), 4).unwrap();
    a.sync_with_remote(&mut remote, &main_branch(), None, 5)
        .unwrap();
    write_file(&mut b, b"doc.md", b"the b version");
    b.commit_changes(b"b edit".to_vec(), 6).unwrap();
    let r = b
        .sync_with_remote(&mut remote, &main_branch(), None, 7)
        .unwrap();
    assert!(r.has_conflict);

    // continuing without resolving reports the same conflict
    let r = b.continue_sync(&main_branch()).unwrap();
    assert!(r.has_conflict);
    let files = r.conflicts.unwrap();
    assert_eq!(files.len(), 1);
    assert_eq!(files[0].path, b"doc.md".to_vec());

    // resolving an unknown path is refused
    let e = b.resolve_conflict(
        vec![ConflictResolutionItem {
            path: b"other.md".to_vec(),
            choice: ResolutionChoice::Ours,
        }],
        50,
    );
    assert_eq!(e, Err(SyncError::UnknownConflictPath));
}

#[test]
fn continue_without_session_is_refused() {
    let mut repo = new_repo();
    assert!(matches!(
        repo.continue_sync(&main_branch()),
        Err(SyncError::NoRebase)
    ));
    assert_eq!(
        repo.resolve_conflict(Vec::new(), 1),
        Err(SyncError::NoRebase)
    );
}

#[test]
fn dirty_worktree_blocks_fast_forward() {
    let (mut a, mut b, mut remote) = two_devices();
    write_file(&mut a, b"x.txt", b"new upstream file");
    a.commit_changes(b"a edit".to_vec(), 4).unwrap();
    a.sync_with_remote(&mut remote, &main_branch(), None, 5)
        .unwrap();

    // device b is only behind, but has uncommitted changes
    write_file(&mut b, b"notes.md", b"work in progress");
    let e = b.sync_with_remote(&mut remote, &main_branch(), None, 6);
    assert!(matches!(e, Err(SyncError::DirtyWorktree)));
    // the uncommitted work is untouched
    assert_eq!(read_file(&b, b"notes.md"), Some(b"work in progress".to_vec()));
}

#[test]
fn wrong_token_is_rejected_and_never_stored() {
    let mut repo = new_repo();
    write_file(&mut repo, b"a.md", b"alpha");
    repo.commit_changes(b"m".to_vec(), 1).unwrap();
    let mut remote = Remote::new_remote(Some(b"sesame".to_vec()));

    let e = repo.sync_with_remote(&mut remote, &main_branch(), None, 2);
    assert!(matches!(e, Err(SyncError::AuthRejected)));
    let wrong = b"guess".to_vec();
    let e = repo.sync_with_remote(&mut remote, &main_branch(), Some(&wrong), 3);
    assert!(matches!(e, Err(SyncError::AuthRejected)));

    let right = b"sesame".to_vec();
    let r = repo
        .sync_with_remote(&mut remote, &main_branch(), Some(&right), 4)
        .unwrap();
    assert!(r.success && !r.has_conflict);
    // the stored location never carries the credential
    assert_eq!(
        repo.get_remote_url(),
        Some(b"https://example.test/vault".to_vec())
    );
}

#[test]
fn non_fast_forward_push_is_a_distinct_rejection() {
    let (a, mut b, mut remote) = two_devices();

    // device b commits on top of the shared base and pushes first
    write_file(&mut b, b"y.txt", b"from b");
    b.commit_changes(b"b edit".to_vec(), 4).unwrap();
    push_to_remote(&b, &mut remote, &main_branch(), None).unwrap();

    // device a, unaware, commits its own history and pushes
    let mut a = a;
    write_file(&mut a, b"x.txt", b"from a");
    a.commit_changes(b"a edit".to_vec(), 5).unwrap();
    let e = push_to_remote(&a, &mut remote, &main_branch(), None);
    assert_eq!(e, Err(SyncError::PushRejected));
}

#[test]
fn fetch_tracks_the_remote_tip_without_touching_the_branch() {
    let (mut a, mut b, mut remote) = two_devices();
    write_file(&mut a, b"x.txt", b"from a");
    a.commit_changes(b"a edit".to_vec(), 4).unwrap();
    a.sync_with_remote(&mut remote, &main_branch(), None, 5)
        .unwrap();

    let before = b.verify_repository().latest_commit_id;
    let fetched = fetch_from_remote(&mut b, &remote, &main_branch(), None).unwrap();
    assert!(fetched.is_some());
    // the working branch did not move, and the file is not checked out
    assert_eq!(b.verify_repository().latest_commit_id, before);
    assert_eq!(read_file(&b, b"x.txt"), None);

    // fetch without a configured remote is refused
    let mut c = Repository::init_repository(b"main".to_vec(), None);
    assert_eq!(
        fetch_from_remote(&mut c, &remote, &main_branch(), None),
        Err(SyncError::RemoteMissing)
    );
}

#[test]
fn stale_session_is_healed_on_the_next_sync() {
    let (mut a, mut b, mut remote) = two_devices();
    write_file(&mut a, b"doc.md", b"the a version");
    a.commit_changes(b"a edit".to_vec(), 4).unwrap();
    a.sync_with_remote(&mut remote, &main_branch(), None, 5)
        .unwrap();
    write_file(&mut b, b"doc.md", b"the b version");
    b.commit_changes(b"b edit".to_vec(), 6).unwrap();
    let r = b
        .sync_with_remote(&mut remote, &main_branch(), None, 7)
        .unwrap();
    assert!(r.has_conflict);
    assert!(b.rebase.is_some());

    // a new sync discovers the stale session, aborts it, and runs afresh;
    // the same divergence then conflicts again
    let r = b
        .sync_with_remote(&mut remote, &main_branch(), None, 8)
        .unwrap();
    assert!(r.has_conflict);
    assert!(b.rebase.is_some());
}
