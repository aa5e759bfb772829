//! The remote transport adapter: fetch and push against a shared remote
//! history, with token authentication injected into the transport URL for
//! the duration of one call and never persisted.

use vstd::prelude::*;

use crate::bytes::bytes_eq;
use crate::errors::SyncError;
use crate::conflict::{conflict_at, entry_projects, merge_at, paused_conflicts_sound, step_parent_view, SyncResult};
use crate::paths::{ext_of, is_text_ext};
use crate::repo::{
    find_ref, ref_tip, refs_bounded, refs_unique, refs_view, write_ref, Branch, Repository,
};
use crate::store::{clone_bytes, entries_view, pget, set_path, ObjectStore};
use crate::url::{authenticate_url, authenticated_url, credential_of, url_credential};

verus! {

/// The shared remote repository: the history every device reconciles with.
pub struct Remote {
    pub store: ObjectStore,
    pub branches: Vec<Branch>,
    /// The credential the remote demands in the transport URL, if any.
    pub required_token: Option<Vec<u8>>,
}

/// The view of an optional token argument.
pub open spec fn opt_token_view(t: Option<&Vec<u8>>) -> Option<Seq<u8>> {
    match t {
        Some(t) => Some(t@),
        None => None,
    }
}

/// A token must not contain `@`: it has to survive as the userinfo of a
/// transport URL.
pub open spec fn token_ok(t: Option<&Vec<u8>>) -> bool {
    match t {
        Some(t) => forall|k: int| 0 <= k < t@.len() ==> t@[k] != 64,
        None => true,
    }
}

/// Whether the remote accepts a transport carrying this effective URL:
/// either it demands no credential, or the URL's userinfo is exactly the
/// demanded one.
pub open spec fn transport_accepted(required: Option<Vec<u8>>, eff: Seq<u8>) -> bool {
    match required {
        Some(t) => credential_of(eff) == Some(t@),
        None => true,
    }
}

/// Whether a fetch or push against `remote` through `url` with `token`
/// gets past authentication.
pub open spec fn auth_ok(remote: Remote, url: Seq<u8>, token: Option<Seq<u8>>) -> bool {
    transport_accepted(remote.required_token, authenticated_url(url, token))
}

impl Remote {
    pub open spec fn wf(self) -> bool {
        &&& self.store.wf()
        &&& refs_unique(refs_view(self.branches@))
        &&& refs_bounded(refs_view(self.branches@), self.store.commits.len() as int)
    }

    /// A fresh, empty remote, optionally demanding a credential.
    pub fn new_remote(required_token: Option<Vec<u8>>) -> (r: Remote)
        ensures
            r.wf(),
            r.store.commits@.len() == 0,
            r.branches@.len() == 0,
            r.required_token == required_token,
    {
        Remote { store: ObjectStore::new_store(), branches: Vec::new(), required_token }
    }
}

/// Check the effective transport URL against the remote's demanded
/// credential.
fn remote_accepts(remote: &Remote, eff: &Vec<u8>) -> (r: bool)
    ensures
        r == transport_accepted(remote.required_token, eff@),
{
    match &remote.required_token {
        None => true,
        Some(t) => {
            match url_credential(eff) {
                Some(c) => bytes_eq(&c, t),
                None => false,
            }
        },
    }
}

/// Fetch: bring the remote branch's history into the local store and point
/// the tracking reference at its tip. The working branch, index and
/// working tree are untouched; a remote branch that does not exist yet is
/// reported as `Ok(None)`. Fetching a history that is already fetched and
/// tracked changes nothing at all.
pub fn fetch_from_remote(
    repo: &mut Repository,
    remote: &Remote,
    branch: &Vec<u8>,
    token: Option<&Vec<u8>>,
) -> (r: Result<Option<usize>, SyncError>)
    requires
        old(repo).wf(),
        remote.wf(),
        token_ok(token),
    ensures
        final(repo).wf(),
        final(repo).branches == old(repo).branches,
        final(repo).head == old(repo).head,
        final(repo).index == old(repo).index,
        final(repo).worktree == old(repo).worktree,
        final(repo).remote_url == old(repo).remote_url,
        final(repo).lock == old(repo).lock,
        final(repo).rebase == old(repo).rebase,
        final(repo).work_branch == old(repo).work_branch,
        final(repo).identity == old(repo).identity,
        old(repo).store.commits.len() <= final(repo).store.commits.len(),
        old(repo).store.trees.len() <= final(repo).store.trees.len(),
        forall|i: int|
            0 <= i < old(repo).store.commits.len() ==> final(repo).store.commits@[i] == old(repo).store.commits@[i],
        forall|i: int|
            0 <= i < old(repo).store.trees.len() ==> final(repo).store.trees@[i] == old(repo).store.trees@[i],
        old(repo).remote_url is None ==> r == Err::<Option<usize>, SyncError>(
            SyncError::RemoteMissing,
        ) && *final(repo) == *old(repo),
        old(repo).remote_url is Some && !auth_ok(
            *remote,
            old(repo).remote_url->0@,
            opt_token_view(token),
        ) ==> r == Err::<Option<usize>, SyncError>(SyncError::AuthRejected) && *final(repo)
            == *old(repo),
        old(repo).remote_url is Some && auth_ok(
            *remote,
            old(repo).remote_url->0@,
            opt_token_view(token),
        ) ==> match ref_tip(refs_view(remote.branches@), branch@) {
            None => r == Ok::<Option<usize>, SyncError>(None) && *final(repo) == *old(repo),
            Some(rt) => {
                &&& r is Ok && r->Ok_0 is Some
                &&& r->Ok_0->0 < final(repo).store.commits.len()
                &&& final(repo).store.hist(r->Ok_0->0 as int) == remote.store.hist(rt)
                &&& ref_tip(refs_view(final(repo).tracking@), branch@) == Some(
                    r->Ok_0->0 as int,
                )
                &&& forall|m: Seq<u8>|
                    m != branch@ ==> #[trigger] ref_tip(refs_view(final(repo).tracking@), m)
                        == ref_tip(refs_view(old(repo).tracking@), m)
                &&& (match ref_tip(refs_view(old(repo).tracking@), branch@) {
                    Some(e) => old(repo).store.hist(e) == remote.store.hist(rt) ==> *final(repo) == *old(repo),
                    None => true,
                })
            },
        },
{
    let ghost pre = *repo;
    let url = match &repo.remote_url {
        Some(url) => url,
        None => {
            return Err(SyncError::RemoteMissing);
        },
    };
    let eff = authenticate_url(url, token);
    if !remote_accepts(remote, &eff) {
        return Err(SyncError::AuthRejected);
    }
    let rt = match find_ref(&remote.branches, branch) {
        Some(i) => remote.branches[i].tip,
        None => {
            return Ok(None);
        },
    };
    let ghost rtv = rt as int;
    let id = repo.store.copy_commit(&remote.store, rt);
    proof {
        // the tracking reference is bounded by the grown store
        assert(refs_bounded(
            refs_view(repo.tracking@),
            repo.store.commits.len() as int,
        ));
        if repo.rebase is Some {
            assert(Repository::session_wf(repo.rebase->0, repo.store));
        }
    }
    // keep the tracking reference exactly at the fetched tip, writing only
    // when it moves
    let skip_write = match find_ref(&repo.tracking, branch) {
        Some(i) => repo.tracking[i].tip == id,
        None => false,
    };
    if !skip_write {
        write_ref(&mut repo.tracking, branch, id);
    }
    proof {
        if match ref_tip(refs_view(pre.tracking@), branch@) {
            Some(e) => pre.store.hist(e) == remote.store.hist(rtv),
            None => false,
        } {
            let e = ref_tip(refs_view(pre.tracking@), branch@)->0;
            assert(repo.store.hist(id as int) == remote.store.hist(rtv));
            assert(exists|x: int|
                0 <= x < pre.store.commits.len() && #[trigger] pre.store.hist(x)
                    == remote.store.hist(rtv)) by {
                assert(pre.store.hist(e) == remote.store.hist(rtv));
            }
            assert(repo.store == pre.store);
            repo.store.lemma_hist_unique(id as int, e);
            assert(id as int == e);
            assert(skip_write);
            assert(*repo == pre);
        }
        assert(refs_bounded(
            refs_view(repo.tracking@),
            repo.store.commits.len() as int,
        ));
    }
    Ok(Some(id))
}

/// Push: upload the local branch's history and advance the remote's branch
/// reference, but only when the remote loses no history — a remote tip
/// that is not an ancestor of what is pushed is a distinct rejection, so
/// the orchestrator can rebase instead of retrying.
pub fn push_to_remote(
    repo: &Repository,
    remote: &mut Remote,
    branch: &Vec<u8>,
    token: Option<&Vec<u8>>,
) -> (r: Result<(), SyncError>)
    requires
        repo.wf(),
        old(remote).wf(),
        token_ok(token),
    ensures
        final(remote).wf(),
        final(remote).required_token == old(remote).required_token,
        old(remote).store.commits.len() <= final(remote).store.commits.len(),
        forall|i: int|
            0 <= i < old(remote).store.commits.len() ==> final(remote).store.commits@[i] == old(remote).store.commits@[i],
        forall|i: int|
            0 <= i < old(remote).store.trees.len() ==> final(remote).store.trees@[i] == old(remote).store.trees@[i],
        repo.remote_url is None ==> r == Err::<(), SyncError>(SyncError::RemoteMissing)
            && *final(remote) == *old(remote),
        repo.remote_url is Some && !auth_ok(
            *old(remote),
            repo.remote_url->0@,
            opt_token_view(token),
        ) ==> r == Err::<(), SyncError>(SyncError::AuthRejected) && *final(remote) == *old(remote),
        repo.remote_url is Some && auth_ok(
            *old(remote),
            repo.remote_url->0@,
            opt_token_view(token),
        ) ==> {
            let lt = ref_tip(refs_view(repo.branches@), branch@);
            &&& (lt is None ==> r == Err::<(), SyncError>(SyncError::NoCommits) && *final(remote) == *old(remote))
            &&& (lt is Some ==> {
                let h = repo.store.hist(lt->0);
                &&& (match ref_tip(refs_view(old(remote).branches@), branch@) {
                    None => r is Ok,
                    Some(rt) => (r is Ok <==> ObjectStore::hist_suffix(
                        h,
                        old(remote).store.hist(rt),
                    )) && (r is Err ==> r == Err::<(), SyncError>(SyncError::PushRejected)
                        && final(remote).branches == old(remote).branches),
                })
                &&& (r is Ok ==> ref_tip(refs_view(final(remote).branches@), branch@) is Some
                    && final(remote).store.hist(
                    ref_tip(refs_view(final(remote).branches@), branch@)->0,
                ) == h && (forall|m: Seq<u8>|
                    m != branch@ ==> #[trigger] ref_tip(refs_view(final(remote).branches@), m)
                        == ref_tip(refs_view(old(remote).branches@), m)))
            })
        },
{
    let ghost pre = *remote;
    let url = match &repo.remote_url {
        Some(url) => url,
        None => {
            return Err(SyncError::RemoteMissing);
        },
    };
    let eff = authenticate_url(url, token);
    if !remote_accepts(remote, &eff) {
        return Err(SyncError::AuthRejected);
    }
    let lt = match find_ref(&repo.branches, branch) {
        Some(i) => repo.branches[i].tip,
        None => {
            return Err(SyncError::NoCommits);
        },
    };
    let old_tip = match find_ref(&remote.branches, branch) {
        Some(i) => Some(remote.branches[i].tip),
        None => None,
    };
    let rid = remote.store.copy_commit(&repo.store, lt);
    proof {
        assert(refs_bounded(
            refs_view(remote.branches@),
            remote.store.commits.len() as int,
        ));
    }
    match old_tip {
        Some(rt) => {
            let ff = remote.store.is_ancestor(rt, rid);
            proof {
                ObjectStore::lemma_hist_stable(pre.store, remote.store, rt as int);
                remote.store.lemma_chain_hist_suffix(rt as int, rid as int);
                assert(remote.store.hist(rid as int) == repo.store.hist(lt as int));
            }
            if !ff {
                return Err(SyncError::PushRejected);
            }
        },
        None => {},
    }
    write_ref(&mut remote.branches, branch, rid);
    proof {
        assert(refs_bounded(
            refs_view(remote.branches@),
            remote.store.commits.len() as int,
        ));
    }
    Ok(())
}

/// The message recorded when sync itself has to create a commit (first
/// publish of an empty history): the bytes of "sync".
pub open spec fn sync_message_spec() -> Seq<u8> {
    seq![115u8, 121u8, 110u8, 99u8]
}

fn sync_message() -> (r: Vec<u8>)
    ensures
        r@ == sync_message_spec(),
{
    let mut r: Vec<u8> = Vec::new();
    r.push(115u8);
    r.push(121u8);
    r.push(110u8);
    r.push(99u8);
    proof {
        assert(r@ =~= sync_message_spec());
    }
    r
}

/// The placeholder file seeded into an empty vault so that a first publish
/// can establish a root commit: the bytes of ".keep".
pub open spec fn placeholder_path_spec() -> Seq<u8> {
    seq![46u8, 107u8, 101u8, 101u8, 112u8]
}

fn placeholder_path() -> (r: Vec<u8>)
    ensures
        r@ == placeholder_path_spec(),
{
    let mut r: Vec<u8> = Vec::new();
    r.push(46u8);
    r.push(107u8);
    r.push(101u8);
    r.push(101u8);
    r.push(112u8);
    proof {
        assert(r@ =~= placeholder_path_spec());
    }
    r
}

/// The repository is already in step with the remote on `branch`: a
/// quiescent state (no session, no lock, HEAD symbolic at the work
/// branch), with the tracking reference holding exactly the remote
/// branch's history and the local branch standing on it.
pub open spec fn in_step_with(repo: Repository, rem: Remote, branch: Seq<u8>) -> bool {
    &&& repo.rebase is None
    &&& repo.lock is None
    &&& repo.head is Symbolic
    &&& repo.head->Symbolic_0@ == repo.work_branch@
    &&& repo.work_branch@ == branch
    &&& repo.remote_url is Some
    &&& match (
        ref_tip(refs_view(rem.branches@), branch),
        ref_tip(refs_view(repo.tracking@), branch),
        ref_tip(refs_view(repo.branches@), branch),
    ) {
        (Some(rt), Some(tt), Some(lt)) => repo.store.hist(tt) == rem.store.hist(rt) && lt
            == tt,
        _ => false,
    }
}

/// The state in which a sync pass owes an answer: quiescent (no open
/// session, no lock, HEAD symbolic at the requested work branch) with a
/// configured remote whose credential check passes.
pub open spec fn sync_ready(
    repo: Repository,
    rem: Remote,
    branch: Seq<u8>,
    token: Option<Seq<u8>>,
) -> bool {
    &&& repo.rebase is None
    &&& repo.lock is None
    &&& repo.head is Symbolic
    &&& repo.head->Symbolic_0@ == repo.work_branch@
    &&& repo.work_branch@ == branch
    &&& repo.remote_url is Some
    &&& auth_ok(rem, repo.remote_url->0@, token)
}

impl Repository {
    /// One full synchronization pass against the shared remote history.
    ///
    /// Heals a stale rebase session and a stale lock first. With no remote
    /// configured it is a no-op returning success — so is a repository that
    /// is already in step with the remote. Otherwise it fetches, normalizes
    /// HEAD, classifies the divergence between the local tip and the
    /// remote tracking tip, and reconciles: publish when only ahead,
    /// fast-forward when only behind (refusing to overwrite uncommitted
    /// changes), and a one-step-at-a-time rebase when diverged. Conflicts
    /// are a first-class result carrying one entry per conflicting path;
    /// the session then stays open for resolution and the branch reference
    /// still points at its pre-rebase commit, so `abort_sync` can restore
    /// everything. Credentials ride only in the transport URL, never in
    /// the stored configuration.
    #[verifier::rlimit(80)]
    pub fn sync_with_remote(
        &mut self,
        remote: &mut Remote,
        branch: &Vec<u8>,
        token: Option<&Vec<u8>>,
        now: u64,
    ) -> (r: Result<SyncResult, SyncError>)
        requires
            old(self).wf(),
            old(remote).wf(),
            token_ok(token),
        ensures
            final(self).wf(),
            final(remote).wf(),
            final(remote).required_token == old(remote).required_token,
            final(self).remote_url == old(self).remote_url,
            final(self).identity == old(self).identity,
            r is Err ==> final(self).rebase is None,
            // local-first: no outcome, success or failure, ever removes an
            // already recorded commit
            old(self).store.commits.len() <= final(self).store.commits.len(),
            forall|i: int|
                0 <= i < old(self).store.commits.len() ==> final(self).store.commits@[i] == old(self).store.commits@[i],
            // a refused fast-forward leaves the uncommitted work untouched
            (r == Err::<SyncResult, SyncError>(SyncError::DirtyWorktree) && old(self).rebase
                is None) ==> final(self).worktree == old(self).worktree,
            r is Ok ==> r->Ok_0.success,
            r is Ok && !r->Ok_0.has_conflict ==> final(self).rebase is None,
            // a vault with no remote configured syncs as a no-op
            (old(self).remote_url is None && old(self).rebase is None && old(self).lock
                is None) ==> r == Ok::<SyncResult, SyncError>(
                (SyncResult { success: true, has_conflict: false, conflicts: None }),
            ) && *final(self) == *old(self) && *final(remote) == *old(remote),
            // a repository already in step with the remote syncs as a no-op
            (in_step_with(*old(self), *old(remote), branch@) && auth_ok(
                *old(remote),
                old(self).remote_url->0@,
                opt_token_view(token),
            )) ==> r == Ok::<SyncResult, SyncError>(
                (SyncResult { success: true, has_conflict: false, conflicts: None }),
            ) && *final(self) == *old(self) && *final(remote) == *old(remote),
            // a ready repository is always answered: the only refusal left
            // is a fast-forward that would overwrite uncommitted changes
            sync_ready(*old(self), *old(remote), branch@, opt_token_view(token)) ==> (r is Ok
                || r == Err::<SyncResult, SyncError>(SyncError::DirtyWorktree)),
            // after any successful pass against a configured remote, HEAD
            // resolves symbolically to the synced branch
            (old(self).remote_url is Some && r is Ok) ==> final(self).head is Symbolic
                && final(self).head->Symbolic_0@ == branch@,
            // behind-only with a clean tree: a pure fast-forward — the
            // branch lands on exactly the remote history and the remote
            // snapshot is checked out
            (sync_ready(*old(self), *old(remote), branch@, opt_token_view(token)) && (match (
                ref_tip(refs_view(old(remote).branches@), branch@),
                ref_tip(refs_view(old(self).branches@), branch@),
            ) {
                (Some(rt), Some(lt)) => ObjectStore::hist_suffix(
                    old(remote).store.hist(rt),
                    old(self).store.hist(lt),
                ) && old(self).store.hist(lt) != old(remote).store.hist(rt) && old(self).is_clean(),
                _ => false,
            })) ==> {
                let rt = ref_tip(refs_view(old(remote).branches@), branch@)->0;
                let tip = ref_tip(refs_view(final(self).branches@), branch@)->0;
                &&& r == Ok::<SyncResult, SyncError>(
                    (SyncResult { success: true, has_conflict: false, conflicts: None }),
                )
                &&& final(self).store.hist(tip) == old(remote).store.hist(rt)
                &&& entries_view(final(self).worktree@) == old(remote).store.tree_at(
                    old(remote).store.commits[rt].tree as int,
                )
                &&& entries_view(final(self).index@) == entries_view(final(self).worktree@)
                &&& *final(remote) == *old(remote)
            },
            // ahead-only: publish — the remote branch ends on exactly the
            // local history and the local branch does not move
            (sync_ready(*old(self), *old(remote), branch@, opt_token_view(token)) && (match (
                ref_tip(refs_view(old(remote).branches@), branch@),
                ref_tip(refs_view(old(self).branches@), branch@),
            ) {
                (Some(rt), Some(lt)) => ObjectStore::hist_suffix(
                    old(self).store.hist(lt),
                    old(remote).store.hist(rt),
                ) && old(self).store.hist(lt) != old(remote).store.hist(rt),
                _ => false,
            })) ==> {
                let lt = ref_tip(refs_view(old(self).branches@), branch@)->0;
                &&& r == Ok::<SyncResult, SyncError>(
                    (SyncResult { success: true, has_conflict: false, conflicts: None }),
                )
                &&& ref_tip(refs_view(final(self).branches@), branch@) == Some(lt)
                &&& ref_tip(refs_view(final(remote).branches@), branch@) is Some
                &&& final(remote).store.hist(
                    ref_tip(refs_view(final(remote).branches@), branch@)->0,
                ) == old(self).store.hist(lt)
            },
            // diverged: the answer is owed — either the rebase completed
            // cleanly, in which case the new history extends the remote tip
            // and is published, or the structured conflicts pause the
            // session (the conflict clause below)
            (sync_ready(*old(self), *old(remote), branch@, opt_token_view(token)) && (match (
                ref_tip(refs_view(old(remote).branches@), branch@),
                ref_tip(refs_view(old(self).branches@), branch@),
            ) {
                (Some(rt), Some(lt)) => !ObjectStore::hist_suffix(
                    old(self).store.hist(lt),
                    old(remote).store.hist(rt),
                ) && !ObjectStore::hist_suffix(
                    old(remote).store.hist(rt),
                    old(self).store.hist(lt),
                ),
                _ => false,
            })) ==> {
                let rt = ref_tip(refs_view(old(remote).branches@), branch@)->0;
                let tip = ref_tip(refs_view(final(self).branches@), branch@)->0;
                &&& r is Ok
                &&& (!r->Ok_0.has_conflict ==> ObjectStore::hist_suffix(
                    final(self).store.hist(tip),
                    old(remote).store.hist(rt),
                ) && ref_tip(refs_view(final(remote).branches@), branch@) is Some && final(remote).store.hist(
                    ref_tip(refs_view(final(remote).branches@), branch@)->0,
                ) == final(self).store.hist(tip))
            },
            // a divergence of exactly one local commit is decided by the
            // three snapshots involved: it conflicts precisely where the
            // remote tip and the local commit both changed a path away from
            // the shared parent, and a clean outcome lands on exactly the
            // three-way merge
            (sync_ready(*old(self), *old(remote), branch@, opt_token_view(token)) && (match (
                ref_tip(refs_view(old(remote).branches@), branch@),
                ref_tip(refs_view(old(self).branches@), branch@),
            ) {
                (Some(rt), Some(lt)) => {
                    &&& !ObjectStore::hist_suffix(
                        old(self).store.hist(lt),
                        old(remote).store.hist(rt),
                    )
                    &&& !ObjectStore::hist_suffix(
                        old(remote).store.hist(rt),
                        old(self).store.hist(lt),
                    )
                    &&& old(self).store.commits[lt].parent is Some
                    &&& ObjectStore::hist_suffix(
                        old(remote).store.hist(rt),
                        old(self).store.hist(
                            old(self).store.commits[lt].parent->0 as int,
                        ),
                    )
                },
                _ => false,
            })) ==> {
                let rt = ref_tip(refs_view(old(remote).branches@), branch@)->0;
                let lt = ref_tip(refs_view(old(self).branches@), branch@)->0;
                let rtree = old(remote).store.tree_at(old(remote).store.commits[rt].tree as int);
                let ptree = old(self).store.tree_at(
                    old(self).store.commits[old(self).store.commits[lt].parent->0 as int].tree as int,
                );
                let ltree = old(self).store.tree_at(old(self).store.commits[lt].tree as int);
                let tip = ref_tip(refs_view(final(self).branches@), branch@)->0;
                &&& r is Ok
                &&& (r->Ok_0.has_conflict <==> exists|p: Seq<u8>|
                    conflict_at(rtree, ptree, ltree, p))
                &&& (!r->Ok_0.has_conflict ==> forall|p: Seq<u8>|
                    pget(
                        final(self).store.tree_at(final(self).store.commits[tip].tree as int),
                        p,
                    ) == merge_at(rtree, ptree, ltree, p))
            },
            // after any clean success against a configured remote, the
            // branch and its tracking reference agree
            (r is Ok && !r->Ok_0.has_conflict && old(self).remote_url is Some) ==> ref_tip(
                refs_view(final(self).branches@),
                branch@,
            ) is Some && ref_tip(refs_view(final(self).branches@), branch@) == ref_tip(
                refs_view(final(self).tracking@),
                branch@,
            ),
            // a conflicting sync leaves the session open for resolution,
            // reports exactly the conflicting paths, and leaves the branch
            // reference at its pre-rebase commit so an abort can restore it
            (r is Ok && r->Ok_0.has_conflict) ==> {
                let s = final(self).rebase->0;
                &&& final(self).rebase is Some
                &&& s.step is Some
                &&& paused_conflicts_sound(*final(self))
                &&& forall|k: int|
                    0 <= k < s.conflicts@.len() ==> !(#[trigger] s.conflicts@[k]).resolved
                &&& r->Ok_0.conflicts is Some
                &&& r->Ok_0.conflicts->0@.len() == s.conflicts@.len()
                &&& forall|k: int|
                    0 <= k < s.conflicts@.len() ==> (#[trigger] r->Ok_0.conflicts->0@[k]).path@
                        == s.conflicts@[k].path@ && r->Ok_0.conflicts->0@[k].is_binary
                        == !is_text_ext(ext_of(s.conflicts@[k].path@))
                &&& ref_tip(refs_view(final(self).branches@), branch@) == Some(
                    s.original_tip as int,
                )
                &&& (old(self).rebase is None ==> final(self).worktree == old(self).worktree)
            },
    {
        let ghost pre = *self;
        // heal a stale session and a stale lock before anything else
        if self.rebase.is_some() {
            let _healed = self.abort_sync();
        }
        match self.cleanup_stale_lock() {
            Ok(()) => {},
            Err(e) => {
                return Err(e);
            },
        }
        // with no remote configured there is nothing to reconcile
        if self.remote_url.is_none() {
            proof {
                if pre.rebase is None && pre.lock is None {
                    assert(*self == pre);
                }
            }
            return Ok(SyncResult { success: true, has_conflict: false, conflicts: None });
        }
        // sync always operates on the requested branch
        if !bytes_eq(&self.work_branch, branch) {
            self.work_branch = clone_bytes(branch);
        }
        let fetched = match fetch_from_remote(self, remote, branch, token) {
            Ok(f) => f,
            Err(e) => {
                return Err(e);
            },
        };
        self.normalize_head();
        match fetched {
            None => {
                // the remote branch does not exist yet: first publish
                let tip = match find_ref(&self.branches, branch) {
                    Some(i) => Some(self.branches[i].tip),
                    None => None,
                };
                let local_tip = match tip {
                    Some(t) => t,
                    None => {
                        // an empty history still publishes: seed minimal
                        // placeholder content when the vault is empty too
                        if self.worktree.len() == 0 {
                            let keep = placeholder_path();
                            set_path(&mut self.worktree, &keep, Vec::new());
                        }
                        match self.commit_changes(sync_message(), now) {
                            Ok(c) => c,
                            Err(e) => {
                                return Err(e);
                            },
                        }
                    },
                };
                match push_to_remote(self, remote, branch, token) {
                    Ok(()) => {},
                    Err(e) => {
                        return Err(e);
                    },
                }
                write_ref(&mut self.tracking, branch, local_tip);
                proof {
                    assert(refs_bounded(
                        refs_view(self.tracking@),
                        self.store.commits.len() as int,
                    ));
                }
                Ok(SyncResult { success: true, has_conflict: false, conflicts: None })
            },
            Some(rt) => {
                let tip = match find_ref(&self.branches, branch) {
                    Some(i) => Some(self.branches[i].tip),
                    None => None,
                };
                let lt = match tip {
                    None => {
                        // a fresh device: materialize the branch from the
                        // remote tip and check its snapshot out
                        write_ref(&mut self.branches, branch, rt);
                        proof {
                            assert(refs_bounded(
                                refs_view(self.branches@),
                                self.store.commits.len() as int,
                            ));
                        }
                        self.checkout_commit(rt);
                        return Ok(
                            SyncResult { success: true, has_conflict: false, conflicts: None },
                        );
                    },
                    Some(t) => t,
                };
                let (ahead, behind) = self.store.ahead_behind(lt, rt);
                proof {
                    if in_step_with(pre, *old(remote), branch@) {
                        assert(*self == pre);
                        assert(lt == rt);
                        let ch = self.store.chain(lt as int);
                        assert forall|k: int| 0 <= k < ch.len() implies ch.contains(
                            #[trigger] ch[k],
                        ) by {}
                        crate::store::lemma_count_missing_all_present(ch, ch);
                        assert(ahead == 0 && behind == 0);
                    }
                    // under a ready premise, the divergence counts follow the
                    // history relation between the two old tips
                    if sync_ready(pre, *old(remote), branch@, opt_token_view(token))
                        && ref_tip(refs_view(old(remote).branches@), branch@) is Some && ref_tip(
                        refs_view(pre.branches@),
                        branch@,
                    ) is Some {
                        let rt0 = ref_tip(refs_view(old(remote).branches@), branch@)->0;
                        let lt0 = ref_tip(refs_view(pre.branches@), branch@)->0;
                        assert(lt as int == lt0);
                        assert(self.store.hist(rt as int) == old(remote).store.hist(rt0));
                        ObjectStore::lemma_hist_stable(pre.store, self.store, lt as int);
                        assert(self.store.hist(lt as int) == pre.store.hist(lt0));
                        self.store.lemma_classify(lt as int, rt as int);
                    }
                }
                if ahead == 0 && behind == 0 {
                    proof {
                        self.store.lemma_counts_zero_equal(lt as int, rt as int);
                        if in_step_with(pre, *old(remote), branch@) {
                            assert(*self == pre);
                            assert(*remote == *old(remote));
                        }
                    }
                    return Ok(
                        SyncResult { success: true, has_conflict: false, conflicts: None },
                    );
                }
                if behind == 0 {
                    // only ahead: publish
                    proof {
                        if sync_ready(pre, *old(remote), branch@, opt_token_view(token)) {
                            // being ahead, the push is a fast-forward for the
                            // remote and must be accepted
                            crate::store::lemma_count_missing_zero_contains(
                                self.store.chain(rt as int),
                                self.store.chain(lt as int),
                            );
                            self.store.lemma_chain_shape(rt as int);
                            assert(self.store.chain(lt as int).contains(rt as int));
                            self.store.lemma_chain_hist_suffix(rt as int, lt as int);
                        }
                    }
                    match push_to_remote(self, remote, branch, token) {
                        Ok(()) => {},
                        Err(e) => {
                            return Err(e);
                        },
                    }
                    write_ref(&mut self.tracking, branch, lt);
                    proof {
                        assert(refs_bounded(
                            refs_view(self.tracking@),
                            self.store.commits.len() as int,
                        ));
                    }
                    return Ok(
                        SyncResult { success: true, has_conflict: false, conflicts: None },
                    );
                }
                if ahead == 0 {
                    // only behind: fast-forward, unless that would discard
                    // uncommitted changes
                    proof {
                        if sync_ready(pre, *old(remote), branch@, opt_token_view(token))
                            && pre.is_clean() {
                            assert(self.head_commit() == pre.head_commit());
                            assert(self.is_clean());
                        }
                    }
                    let status = self.get_repository_status();
                    if status.has_changes {
                        return Err(SyncError::DirtyWorktree);
                    }
                    write_ref(&mut self.branches, branch, rt);
                    proof {
                        assert(refs_bounded(
                            refs_view(self.branches@),
                            self.store.commits.len() as int,
                        ));
                    }
                    self.checkout_commit(rt);
                    proof {
                        assert(ref_tip(refs_view(self.branches@), branch@) == Some(rt as int));
                        if ref_tip(refs_view(old(remote).branches@), branch@) is Some {
                            let rt0 = ref_tip(refs_view(old(remote).branches@), branch@)->0;
                            if self.store.hist(rt as int) == old(remote).store.hist(rt0) {
                                // the checked-out snapshot is the remote tip's
                                self.store.lemma_hist_shape(rt as int);
                                old(remote).store.lemma_hist_shape(rt0);
                                assert(self.store.hist(rt as int)[0] == self.store.commit_data(
                                    rt as int,
                                ));
                                assert(old(remote).store.hist(rt0)[0]
                                    == old(remote).store.commit_data(rt0));
                                assert(self.store.tree_at(
                                    self.store.commits[rt as int].tree as int,
                                ) == old(remote).store.tree_at(
                                    old(remote).store.commits[rt0].tree as int,
                                ));
                            }
                        }
                    }
                    return Ok(
                        SyncResult { success: true, has_conflict: false, conflicts: None },
                    );
                }
                // diverged: replay the local-only commits onto the remote
                // tip, one at a time
                let chain = self.store.collect_chain(lt);
                proof {
                    self.store.lemma_chain_shape(lt as int);
                    assert forall|k: int| 0 <= k < chain@.len() implies (#[trigger] chain@[k])
                        < self.store.commits.len() by {
                        assert(chain@[k] as int == self.store.chain(lt as int)[k]);
                    }
                }
                let mut local_only: Vec<usize> = Vec::new();
                let mut i: usize = 0;
                while i < chain.len()
                    invariant
                        i <= chain@.len(),
                        self.wf(),
                        lt < self.store.commits.len(),
                        rt < self.store.commits.len(),
                        forall|k: int|
                            0 <= k < chain@.len() ==> (#[trigger] chain@[k])
                                < self.store.commits.len(),
                        local_only@.len() == i,
                        forall|k: int| 0 <= k < i ==> (#[trigger] local_only@[k]) == chain@[k],
                        forall|k: int|
                            0 <= k < i ==> !self.store.chain(rt as int).contains(
                                (#[trigger] chain@[k]) as int,
                            ),
                    ensures
                        i <= chain@.len(),
                        local_only@.len() == i,
                        forall|k: int| 0 <= k < i ==> (#[trigger] local_only@[k]) == chain@[k],
                        forall|k: int|
                            0 <= k < i ==> !self.store.chain(rt as int).contains(
                                (#[trigger] chain@[k]) as int,
                            ),
                        i < chain@.len() ==> self.store.chain(rt as int).contains(
                            chain@[i as int] as int,
                        ),
                    decreases chain@.len() - i,
                {
                    let e = chain[i];
                    if self.store.is_ancestor(e, rt) {
                        break ;
                    }
                    local_only.push(e);
                    i = i + 1;
                }
                // oldest first
                let mut steps: Vec<usize> = Vec::new();
                let mut j: usize = local_only.len();
                while j > 0
                    invariant
                        j <= local_only@.len(),
                        forall|k: int|
                            0 <= k < local_only@.len() ==> (#[trigger] local_only@[k])
                                < self.store.commits.len(),
                        steps@.len() == local_only@.len() - j,
                        forall|k: int|
                            0 <= k < steps@.len() ==> (#[trigger] steps@[k])
                                == local_only@[local_only@.len() - 1 - k],
                        forall|k: int|
                            0 <= k < steps@.len() ==> (#[trigger] steps@[k])
                                < self.store.commits.len(),
                    decreases j,
                {
                    j = j - 1;
                    steps.push(local_only[j]);
                }
                let ghost single = sync_ready(pre, *old(remote), branch@, opt_token_view(token))
                    && pre.store.commits[lt as int].parent is Some
                    && ObjectStore::hist_suffix(
                    old(remote).store.hist(
                        ref_tip(refs_view(old(remote).branches@), branch@)->0,
                    ),
                    pre.store.hist(pre.store.commits[lt as int].parent->0 as int),
                );
                proof {
                    if single {
                        let pb = pre.store.commits[lt as int].parent->0;
                        // the chain starts at the local tip, which diverged
                        // away from the remote chain
                        self.store.lemma_chain_shape(lt as int);
                        assert(chain@[0] as int == self.store.chain(lt as int)[0]);
                        assert(chain@[0] == lt);
                        self.store.lemma_chain_hist_suffix(lt as int, rt as int);
                        assert(!self.store.chain(rt as int).contains(lt as int));
                        assert(i >= 1);
                        // its parent is already on the remote chain, so the
                        // collection stopped right after the tip
                        assert(self.store.chain(lt as int) == seq![lt as int]
                            + self.store.chain(pb as int));
                        assert(chain@.len() >= 2);
                        assert(chain@[1] as int == self.store.chain(lt as int)[1]);
                        self.store.lemma_chain_shape(pb as int);
                        assert(self.store.chain(pb as int)[0] == pb as int);
                        assert(chain@[1] == pb);
                        ObjectStore::lemma_hist_stable(pre.store, self.store, pb as int);
                        assert(ObjectStore::hist_suffix(
                            self.store.hist(rt as int),
                            self.store.hist(pb as int),
                        ));
                        self.store.lemma_chain_hist_suffix(pb as int, rt as int);
                        assert(self.store.chain(rt as int).contains(pb as int));
                        if i >= 2 {
                            assert(!self.store.chain(rt as int).contains(chain@[1] as int));
                            assert(false);
                        }
                        assert(i == 1);
                        assert(steps@.len() == 1);
                        assert(steps@[0] == local_only@[0]);
                        assert(steps@[0] == lt);
                    }
                }
                let branch_name = clone_bytes(branch);
                let ghost pre_adv = *self;
                match self.advance_rebase(branch_name, lt, rt, steps) {
                    None => {
                        proof {
                            // the completed rebase extends the fetched remote
                            // tip, so publishing it is a fast-forward
                            ObjectStore::lemma_hist_stable(
                                pre_adv.store,
                                self.store,
                                rt as int,
                            );
                        }
                        // the rebase completed cleanly: publish
                        match push_to_remote(self, remote, branch, token) {
                            Ok(()) => {},
                            Err(e) => {
                                return Err(e);
                            },
                        }
                        let new_tip = match find_ref(&self.branches, branch) {
                            Some(i) => self.branches[i].tip,
                            None => {
                                proof {
                                    assert(false);
                                }
                                return Err(SyncError::BranchMissing);
                            },
                        };
                        write_ref(&mut self.tracking, branch, new_tip);
                        proof {
                            assert(refs_bounded(
                                refs_view(self.tracking@),
                                self.store.commits.len() as int,
                            ));
                            if single {
                                // the single replayed step landed on the
                                // three-way merge of the old snapshots
                                let rt0 = ref_tip(
                                    refs_view(old(remote).branches@),
                                    branch@,
                                )->0;
                                let pb = pre.store.commits[lt as int].parent->0;
                                assert(pre_adv.store.commits@[lt as int]
                                    == pre.store.commits@[lt as int]);
                                assert(pre_adv.store.tree_at(
                                    pre_adv.store.commits[lt as int].tree as int,
                                ) == pre.store.tree_at(
                                    pre.store.commits[lt as int].tree as int,
                                ));
                                assert(step_parent_view(pre_adv.store, lt as int)
                                    == pre.store.tree_at(
                                    pre.store.commits[pb as int].tree as int,
                                ));
                                pre_adv.store.lemma_hist_shape(rt as int);
                                old(remote).store.lemma_hist_shape(rt0);
                                assert(pre_adv.store.hist(rt as int)[0]
                                    == pre_adv.store.commit_data(rt as int));
                                assert(old(remote).store.hist(rt0)[0]
                                    == old(remote).store.commit_data(rt0));
                                assert(pre_adv.store.tree_at(
                                    pre_adv.store.commits[rt as int].tree as int,
                                ) == old(remote).store.tree_at(
                                    old(remote).store.commits[rt0].tree as int,
                                ));
                                assert(ref_tip(refs_view(self.branches@), branch@) == Some(
                                    new_tip as int,
                                ));
                            }
                        }
                        Ok(SyncResult { success: true, has_conflict: false, conflicts: None })
                    },
                    Some(files) => {
                        proof {
                            assert(paused_conflicts_sound(*self));
                            if single {
                                // the pause certifies a true conflict between
                                // the old snapshots
                                let rt0 = ref_tip(
                                    refs_view(old(remote).branches@),
                                    branch@,
                                )->0;
                                let pb = pre.store.commits[lt as int].parent->0;
                                let s = self.rebase->0;
                                assert(self.store == pre_adv.store);
                                assert(s.new_tip == rt && s.step == Some(lt));
                                assert(s.conflicts@.len() >= 1);
                                let e0 = s.conflicts@[0];
                                assert(entry_projects(
                                    e0,
                                    self.store.tree_at(
                                        self.store.commits[s.new_tip as int].tree as int,
                                    ),
                                    crate::conflict::step_parent_view(
                                        self.store,
                                        s.step->0 as int,
                                    ),
                                    self.store.tree_at(
                                        self.store.commits[s.step->0 as int].tree as int,
                                    ),
                                ));
                                assert(step_parent_view(self.store, lt as int)
                                    == pre.store.tree_at(
                                    pre.store.commits[pb as int].tree as int,
                                ));
                                assert(self.store.tree_at(
                                    self.store.commits[lt as int].tree as int,
                                ) == pre.store.tree_at(
                                    pre.store.commits[lt as int].tree as int,
                                ));
                                self.store.lemma_hist_shape(rt as int);
                                old(remote).store.lemma_hist_shape(rt0);
                                assert(self.store.hist(rt as int)[0] == self.store.commit_data(
                                    rt as int,
                                ));
                                assert(old(remote).store.hist(rt0)[0]
                                    == old(remote).store.commit_data(rt0));
                                assert(self.store.tree_at(
                                    self.store.commits[rt as int].tree as int,
                                ) == old(remote).store.tree_at(
                                    old(remote).store.commits[rt0].tree as int,
                                ));
                                assert(conflict_at(
                                    old(remote).store.tree_at(
                                        old(remote).store.commits[rt0].tree as int,
                                    ),
                                    pre.store.tree_at(
                                        pre.store.commits[pb as int].tree as int,
                                    ),
                                    pre.store.tree_at(
                                        pre.store.commits[lt as int].tree as int,
                                    ),
                                    e0.path@,
                                ));
                            }
                        }
                        Ok(
                            SyncResult {
                                success: true,
                                has_conflict: true,
                                conflicts: Some(files),
                            },
                        )
                    },
                }
            },
        }
    }
}


} // verus!
