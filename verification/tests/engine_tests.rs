use vaultsync::errors::SyncError;
use vaultsync::repo::{Head, Repository};
use vaultsync::store::{get_path, set_path};
use vaultsync::sync::Remote;

fn new_repo() -> Repository {
    Repository::init_repository(b"main".to_vec(), None)
}

fn write_file(repo: &mut Repository, path: &[u8], data: &[u8]) {
    set_path(&mut repo.worktree, &path.to_vec(), data.to_vec());
}

#[test]
fn sync_without_remote_is_a_noop_success() {
    let mut repo = new_repo();
    write_file(&mut repo, b"a.md", b"alpha");
    let c1 = repo.commit_changes(b"first".to_vec(), 1).unwrap();
    let mut remote = Remote::new_remote(None);

    let r = repo
        .sync_with_remote(&mut remote, &b"main".to_vec(), None, 10)
        .unwrap();
    assert!(r.success);
    assert!(!r.has_conflict);
    assert!(r.conflicts.is_none());
    // nothing moved: the branch still points at the same commit
    let v = repo.verify_repository();
    assert_eq!(v.latest_commit_id, Some(c1));
    assert_eq!(v.commit_count, 1);
    assert_eq!(remote.branches.len(), 0);

    // and doing it again is just as quiet
    let r2 = repo
        .sync_with_remote(&mut remote, &b"main".to_vec(), None, 11)
        .unwrap();
    assert!(r2.success && !r2.has_conflict);
}

#[test]
fn commit_with_unchanged_tree_returns_same_id() {
    let mut repo = new_repo();
    write_file(&mut repo, b"a.md", b"alpha");
    let c1 = repo.commit_changes(b"first".to_vec(), 1).unwrap();
    let c2 = repo.commit_changes(b"second".to_vec(), 2).unwrap();
    assert_eq!(c1, c2);
    let v = repo.verify_repository();
    assert_eq!(v.commit_count, 1);

    // a real change creates a new commit with the old one as parent
    write_file(&mut repo, b"a.md", b"beta");
    let c3 = repo.commit_changes(b"third".to_vec(), 3).unwrap();
    assert_ne!(c3, c1);
    let v = repo.verify_repository();
    assert_eq!(v.commit_count, 2);
    assert_eq!(v.latest_commit_id, Some(c3));
}

#[test]
fn second_sync_after_clean_sync_is_a_noop() {
    let mut repo = new_repo();
    repo.add_remote(b"https://example.test/vault".to_vec());
    write_file(&mut repo, b"a.md", b"alpha");
    let c1 = repo.commit_changes(b"first".to_vec(), 1).unwrap();
    let mut remote = Remote::new_remote(None);

    let r1 = repo
        .sync_with_remote(&mut remote, &b"main".to_vec(), None, 10)
        .unwrap();
    assert!(r1.success && !r1.has_conflict);

    let before_commits = repo.store.commits.len();
    let r2 = repo
        .sync_with_remote(&mut remote, &b"main".to_vec(), None, 11)
        .unwrap();
    assert!(r2.success && !r2.has_conflict);
    // the second pass changed nothing
    assert_eq!(repo.store.commits.len(), before_commits);
    let v = repo.verify_repository();
    assert_eq!(v.latest_commit_id, Some(c1));
}

#[test]
fn interrupted_commit_heals_without_duplicates() {
    let mut repo = new_repo();
    write_file(&mut repo, b"a.md", b"alpha");
    repo.commit_changes(b"first".to_vec(), 1).unwrap();

    // a crash between object write and reference update leaves HEAD
    // detached at the new commit and the branch lagging behind
    write_file(&mut repo, b"b.md", b"beta");
    let cid = repo.commit_without_ref_update(b"second".to_vec(), 2);
    assert!(matches!(repo.head, Head::Detached(_)));

    // the next commit heals: the branch fast-forwards, HEAD becomes
    // symbolic again, and no duplicate commit object appears
    let healed = repo.commit_changes(b"second".to_vec(), 2).unwrap();
    assert_eq!(healed, cid);
    assert!(matches!(repo.head, Head::Symbolic(_)));
    assert_eq!(repo.get_current_branch().unwrap(), b"main".to_vec());
    let v = repo.verify_repository();
    assert_eq!(v.commit_count, 2);
    assert_eq!(v.latest_commit_id, Some(cid));
}

#[test]
fn unconfigured_identity_falls_back_to_the_default() {
    let repo = new_repo();
    assert_eq!(
        repo.identity,
        b"No Visitors User <no-visitors@localhost>".to_vec()
    );
    let named = Repository::init_repository(b"main".to_vec(), Some(b"someone <s@x>".to_vec()));
    assert_eq!(named.identity, b"someone <s@x>".to_vec());
}

#[test]
fn status_reflects_working_tree() {
    let mut repo = new_repo();
    write_file(&mut repo, b"a.md", b"alpha");
    let s = repo.get_repository_status();
    assert!(s.has_changes && !s.is_clean);

    repo.commit_changes(b"first".to_vec(), 1).unwrap();
    let s = repo.get_repository_status();
    assert!(!s.has_changes && s.is_clean);

    write_file(&mut repo, b"a.md", b"changed");
    let s = repo.get_repository_status();
    assert!(s.has_changes);
}

#[test]
fn history_lists_newest_first_with_limit() {
    let mut repo = new_repo();
    write_file(&mut repo, b"a.md", b"one");
    let c1 = repo.commit_changes(b"m1".to_vec(), 1).unwrap();
    write_file(&mut repo, b"a.md", b"two");
    let c2 = repo.commit_changes(b"m2".to_vec(), 2).unwrap();
    write_file(&mut repo, b"a.md", b"three");
    let c3 = repo.commit_changes(b"m3".to_vec(), 3).unwrap();

    let all = repo.get_commit_history(None);
    assert_eq!(all.len(), 3);
    assert_eq!(all[0].id, c3);
    assert_eq!(all[0].message, b"m3".to_vec());
    assert_eq!(all[0].time, 3);
    assert_eq!(all[1].id, c2);
    assert_eq!(all[2].id, c1);

    let two = repo.get_commit_history(Some(2));
    assert_eq!(two.len(), 2);
    assert_eq!(two[0].id, c3);
    assert_eq!(two[1].id, c2);
}

#[test]
fn held_lock_fails_commit_and_weak_lock_heals() {
    let mut repo = new_repo();
    write_file(&mut repo, b"a.md", b"alpha");
    repo.lock = Some(10);
    assert_eq!(
        repo.commit_changes(b"m".to_vec(), 1),
        Err(SyncError::LockHeld)
    );
    // a lock that yields within the bounded retries is cleaned up
    repo.lock = Some(2);
    assert!(repo.commit_changes(b"m".to_vec(), 1).is_ok());
    assert!(repo.lock.is_none());
}

#[test]
fn branch_management_counts_buffer_commits() {
    let mut repo = new_repo();
    write_file(&mut repo, b"a.md", b"alpha");
    repo.commit_changes(b"base".to_vec(), 1).unwrap();

    repo.ensure_draft_branch(&b"draft".to_vec(), &b"main".to_vec())
        .unwrap();
    assert_eq!(
        repo.get_draft_commits_count(&b"draft".to_vec(), &b"main".to_vec()),
        0
    );

    repo.switch_to_branch(&b"draft".to_vec()).unwrap();
    assert_eq!(repo.get_current_branch().unwrap(), b"draft".to_vec());
    write_file(&mut repo, b"b.md", b"beta");
    repo.commit_changes(b"draft one".to_vec(), 2).unwrap();
    write_file(&mut repo, b"b.md", b"gamma");
    repo.commit_changes(b"draft two".to_vec(), 3).unwrap();

    assert_eq!(
        repo.get_draft_commits_count(&b"draft".to_vec(), &b"main".to_vec()),
        2
    );
    // an unknown branch counts as zero
    assert_eq!(
        repo.get_draft_commits_count(&b"feature".to_vec(), &b"main".to_vec()),
        0
    );
}

#[test]
fn detached_head_is_reported() {
    let mut repo = new_repo();
    write_file(&mut repo, b"a.md", b"alpha");
    let c1 = repo.commit_changes(b"m".to_vec(), 1).unwrap();
    repo.head = Head::Detached(c1);
    assert_eq!(repo.get_current_branch(), Err(SyncError::DetachedHead));
}

#[test]
fn remote_configuration_round_trip() {
    let mut repo = new_repo();
    assert!(repo.get_remote_url().is_none());
    repo.add_remote(b"https://example.test/vault".to_vec());
    assert_eq!(
        repo.get_remote_url(),
        Some(b"https://example.test/vault".to_vec())
    );
    repo.remove_remote();
    assert!(repo.get_remote_url().is_none());
}

#[test]
fn empty_vault_publishes_placeholder() {
    let mut repo = new_repo();
    repo.add_remote(b"https://example.test/vault".to_vec());
    let mut remote = Remote::new_remote(None);
    let r = repo
        .sync_with_remote(&mut remote, &b"main".to_vec(), None, 5)
        .unwrap();
    assert!(r.success && !r.has_conflict);
    // a placeholder file was seeded so a root commit could be published
    assert!(get_path(&repo.worktree, &b".keep".to_vec()).is_some());
    assert_eq!(remote.branches.len(), 1);
}
