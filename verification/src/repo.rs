//! The repository: object store, branch references, HEAD, staging index,
//! working tree, remote configuration, and the transient rebase session.
//!
//! Includes the consistency guards run before every mutating operation
//! (stale-lock cleanup and HEAD normalization) and the commit engine.

use vstd::prelude::*;

use crate::bytes::bytes_eq;
use crate::errors::SyncError;
use crate::store::{
    clone_bytes, clone_entries, entries_map_eq, entries_view, pairs_map, pairs_unique,
    ObjectStore, TreeEntry,
};

verus! {

// ---------------------------------------------------------------------------
// Branch references
// ---------------------------------------------------------------------------

/// A named mutable pointer to a commit.
pub struct Branch {
    pub name: Vec<u8>,
    pub tip: usize,
}

/// The mathematical content of a reference table: (name, tip) pairs.
pub type RefsV = Seq<(Seq<u8>, int)>;

pub open spec fn refs_view(s: Seq<Branch>) -> RefsV {
    s.map(|i: int, b: Branch| (b.name@, b.tip as int))
}

pub open spec fn refs_unique(s: RefsV) -> bool {
    forall|i: int, j: int| 0 <= i < j < s.len() ==> (#[trigger] s[i]).0 != (#[trigger] s[j]).0
}

pub open spec fn refs_bounded(s: RefsV, n: int) -> bool {
    forall|i: int| 0 <= i < s.len() ==> 0 <= (#[trigger] s[i]).1 < n
}

pub open spec fn ref_has(s: RefsV, name: Seq<u8>) -> bool {
    exists|i: int| 0 <= i < s.len() && (#[trigger] s[i]).0 == name
}

/// The tip the named reference points to, or `None` when absent.
pub open spec fn ref_tip(s: RefsV, name: Seq<u8>) -> Option<int> {
    if ref_has(s, name) {
        Some(s[choose|i: int| 0 <= i < s.len() && (#[trigger] s[i]).0 == name].1)
    } else {
        None
    }
}

/// With unique names, the entry at any index is the one a lookup finds.
pub proof fn lemma_ref_index(s: RefsV, i: int)
    requires
        refs_unique(s),
        0 <= i < s.len(),
    ensures
        ref_has(s, s[i].0),
        ref_tip(s, s[i].0) == Some(s[i].1),
{
    let n = s[i].0;
    assert(ref_has(s, n));
    let k = choose|k: int| 0 <= k < s.len() && (#[trigger] s[k]).0 == n;
    if k != i {
        if k < i {
            assert(s[k].0 != s[i].0);
        } else {
            assert(s[i].0 != s[k].0);
        }
    }
}

/// Find the branch with the given name.
pub fn find_ref(refs: &Vec<Branch>, name: &Vec<u8>) -> (r: Option<usize>)
    requires
        refs_unique(refs_view(refs@)),
    ensures
        match r {
            Some(i) => i < refs@.len() && refs@[i as int].name@ == name@ && ref_tip(
                refs_view(refs@),
                name@,
            ) == Some(refs@[i as int].tip as int),
            None => ref_tip(refs_view(refs@), name@) is None,
        },
{
    let ghost v = refs_view(refs@);
    let mut i: usize = 0;
    while i < refs.len()
        invariant
            i <= refs@.len(),
            v == refs_view(refs@),
            refs_unique(v),
            forall|k: int| 0 <= k < i ==> (#[trigger] v[k]).0 != name@,
        decreases refs@.len() - i,
    {
        if bytes_eq(&refs[i].name, name) {
            proof {
                lemma_ref_index(v, i as int);
            }
            return Some(i);
        }
        proof {
            assert(v[i as int].0 == refs@[i as int].name@);
        }
        i = i + 1;
    }
    proof {
        if ref_has(v, name@) {
            let k = choose|k: int| 0 <= k < v.len() && (#[trigger] v[k]).0 == name@;
        }
    }
    None
}

/// Point the named reference at `tip`, creating it if absent. No other
/// reference moves.
pub fn write_ref(refs: &mut Vec<Branch>, name: &Vec<u8>, tip: usize)
    requires
        refs_unique(refs_view(old(refs)@)),
    ensures
        refs_unique(refs_view(final(refs)@)),
        ref_tip(refs_view(final(refs)@), name@) == Some(tip as int),
        forall|m: Seq<u8>|
            m != name@ ==> #[trigger] ref_tip(refs_view(final(refs)@), m) == ref_tip(
                refs_view(old(refs)@),
                m,
            ),
        forall|n: int|
            refs_bounded(refs_view(old(refs)@), n) && (tip as int) < n ==> refs_bounded(
                refs_view(final(refs)@),
                n,
            ),
        ref_has(refs_view(old(refs)@), name@) ==> final(refs)@.len() == old(refs)@.len(),
{
    let ghost pre = refs@;
    let found = find_ref(refs, name);
    match found {
        Some(i) => {
            let mut b = refs.remove(i);
            b.tip = tip;
            refs.insert(i, b);
            proof {
                let oldv = refs_view(pre);
                let newv = refs_view(refs@);
                assert(refs@.len() == pre.len());
                assert forall|k: int| 0 <= k < pre.len() && k != i implies newv[k] == oldv[k] by {
                    assert(refs@[k] == pre[k]);
                }
                assert(newv[i as int].0 == oldv[i as int].0);
                assert(newv[i as int].1 == tip as int);
                assert(refs_unique(newv));
                lemma_ref_index(newv, i as int);
                assert forall|m: Seq<u8>| m != name@ implies #[trigger] ref_tip(newv, m)
                    == ref_tip(oldv, m) by {
                    if ref_has(oldv, m) {
                        let k = choose|k: int| 0 <= k < oldv.len() && (#[trigger] oldv[k]).0 == m;
                        assert(k != i);
                        assert(newv[k] == oldv[k]);
                        lemma_ref_index(newv, k);
                        lemma_ref_index(oldv, k);
                    } else {
                        if ref_has(newv, m) {
                            let k = choose|k: int|
                                0 <= k < newv.len() && (#[trigger] newv[k]).0 == m;
                            assert(k != i);
                            assert(oldv[k] == newv[k]);
                        }
                    }
                }
            }
        },
        None => {
            let b = Branch { name: clone_bytes(name), tip };
            refs.push(b);
            proof {
                let oldv = refs_view(pre);
                let newv = refs_view(refs@);
                assert(refs@.len() == pre.len() + 1);
                assert forall|k: int| 0 <= k < pre.len() implies newv[k] == oldv[k] by {
                    assert(refs@[k] == pre[k]);
                }
                assert(newv[pre.len() as int].0 == name@);
                assert(newv[pre.len() as int].1 == tip as int);
                assert forall|i: int, j: int| 0 <= i < j < newv.len() implies (
                #[trigger] newv[i]).0 != (#[trigger] newv[j]).0 by {
                    if j < pre.len() {
                        assert(oldv[i].0 != oldv[j].0);
                    } else {
                        assert(!ref_has(oldv, name@));
                        assert(oldv[i].0 != name@);
                    }
                }
                lemma_ref_index(newv, pre.len() as int);
                assert forall|m: Seq<u8>| m != name@ implies #[trigger] ref_tip(newv, m)
                    == ref_tip(oldv, m) by {
                    if ref_has(oldv, m) {
                        let k = choose|k: int| 0 <= k < oldv.len() && (#[trigger] oldv[k]).0 == m;
                        lemma_ref_index(newv, k);
                        lemma_ref_index(oldv, k);
                    } else {
                        if ref_has(newv, m) {
                            let k = choose|k: int|
                                0 <= k < newv.len() && (#[trigger] newv[k]).0 == m;
                            assert(k == pre.len());
                        }
                    }
                }
            }
        },
    }
}

// ---------------------------------------------------------------------------
// Repository state
// ---------------------------------------------------------------------------

/// HEAD: symbolic (pointing at a branch by name) or detached (pointing
/// straight at a commit). Detached is a defect state that the guards heal.
pub enum Head {
    Symbolic(Vec<u8>),
    Detached(usize),
}

/// One per-path conflict of a paused rebase step, projected to the three
/// contents a resolution can choose between. `None` means the side does
/// not have the path.
pub struct ConflictEntry {
    pub path: Vec<u8>,
    pub ours: Option<Vec<u8>>,
    pub theirs: Option<Vec<u8>>,
    pub ancestor: Option<Vec<u8>>,
    pub resolved: bool,
}

/// The transient state of an interrupted rebase: which branch is being
/// rebased, where it stood before, how far the replay has come, what is
/// still to replay, and the conflicts of the paused step.
pub struct RebaseSession {
    /// The branch being rebased.
    pub branch: Vec<u8>,
    /// The branch tip before the rebase began; `abort_sync` restores it.
    pub original_tip: usize,
    /// The tip of the replayed history so far.
    pub new_tip: usize,
    /// Commits still to replay, oldest first.
    pub remaining: Vec<usize>,
    /// The commit whose replay paused on conflicts, if any.
    pub step: Option<usize>,
    /// The per-path conflicts of the paused step.
    pub conflicts: Vec<ConflictEntry>,
    /// The staged resolutions: contents chosen for conflicting paths, plus
    /// any sibling files added by a copy-both resolution.
    pub staged: Vec<TreeEntry>,
}

/// The status the UI renders: whether the working tree differs from the
/// current commit.
pub struct GitStatus {
    pub has_changes: bool,
    pub is_clean: bool,
}

/// A summary of the repository for diagnostics.
pub struct RepositoryVerification {
    pub is_initialized: bool,
    pub has_commits: bool,
    pub commit_count: usize,
    pub latest_commit_id: Option<usize>,
    pub latest_commit_message: Option<Vec<u8>>,
    pub latest_commit_time: Option<u64>,
}

/// One entry of the commit history.
pub struct CommitInfo {
    pub id: usize,
    pub message: Vec<u8>,
    pub time: u64,
    pub author: Vec<u8>,
}

/// A single vault repository on one device.
pub struct Repository {
    pub store: ObjectStore,
    /// Local branch references.
    pub branches: Vec<Branch>,
    /// Remote-tracking references, one per remote branch fetched.
    pub tracking: Vec<Branch>,
    pub head: Head,
    /// The staging index: the snapshot the next commit will record.
    pub index: Vec<TreeEntry>,
    /// The working tree: the files as the device currently sees them.
    pub worktree: Vec<TreeEntry>,
    /// The configured remote, if any. Never holds credentials.
    pub remote_url: Option<Vec<u8>>,
    /// A stale index lock, if one survives: the number of removal attempts
    /// it will still absorb before one succeeds.
    pub lock: Option<u8>,
    /// The open rebase session, if any. At most one per repository.
    pub rebase: Option<RebaseSession>,
    /// The branch that commits advance; HEAD is re-pointed here by the
    /// normalization guard.
    pub work_branch: Vec<u8>,
    /// The committer identity, fixed at initialization.
    pub identity: Vec<u8>,
}

/// The identity used when none is configured, so that commit creation can
/// never fail for lack of one: the bytes of
/// "No Visitors User <no-visitors@localhost>".
pub open spec fn default_identity_spec() -> Seq<u8> {
    seq![78u8, 111u8, 32u8, 86u8, 105u8, 115u8, 105u8, 116u8, 111u8, 114u8, 115u8, 32u8, 85u8, 115u8, 101u8, 114u8, 32u8, 60u8, 110u8, 111u8, 45u8, 118u8, 105u8, 115u8, 105u8, 116u8, 111u8, 114u8, 115u8, 64u8, 108u8, 111u8, 99u8, 97u8, 108u8, 104u8, 111u8, 115u8, 116u8, 62u8]
}

/// The fallback committer identity.
pub fn default_identity() -> (r: Vec<u8>)
    ensures
        r@ == default_identity_spec(),
{
    let mut r: Vec<u8> = Vec::new();
    r.push(78u8);
    r.push(111u8);
    r.push(32u8);
    r.push(86u8);
    r.push(105u8);
    r.push(115u8);
    r.push(105u8);
    r.push(116u8);
    r.push(111u8);
    r.push(114u8);
    r.push(115u8);
    r.push(32u8);
    r.push(85u8);
    r.push(115u8);
    r.push(101u8);
    r.push(114u8);
    r.push(32u8);
    r.push(60u8);
    r.push(110u8);
    r.push(111u8);
    r.push(45u8);
    r.push(118u8);
    r.push(105u8);
    r.push(115u8);
    r.push(105u8);
    r.push(116u8);
    r.push(111u8);
    r.push(114u8);
    r.push(115u8);
    r.push(64u8);
    r.push(108u8);
    r.push(111u8);
    r.push(99u8);
    r.push(97u8);
    r.push(108u8);
    r.push(104u8);
    r.push(111u8);
    r.push(115u8);
    r.push(116u8);
    r.push(62u8);
    proof {
        assert(r@ =~= default_identity_spec());
    }
    r
}

impl Repository {
    pub open spec fn session_wf(s: RebaseSession, store: ObjectStore) -> bool {
        &&& s.original_tip < store.commits.len()
        &&& s.new_tip < store.commits.len()
        &&& forall|i: int|
            0 <= i < s.remaining@.len() ==> (#[trigger] s.remaining@[i]) < store.commits.len()
        &&& (s.step is Some ==> s.step->0 < store.commits.len())
        &&& pairs_unique(entries_view(s.staged@))
        &&& forall|i: int, j: int|
            0 <= i < j < s.conflicts@.len() ==> (#[trigger] s.conflicts@[i]).path@ != (
            #[trigger] s.conflicts@[j]).path@
    }

    pub open spec fn wf(self) -> bool {
        &&& self.store.wf()
        &&& refs_unique(refs_view(self.branches@))
        &&& refs_bounded(refs_view(self.branches@), self.store.commits.len() as int)
        &&& refs_unique(refs_view(self.tracking@))
        &&& refs_bounded(refs_view(self.tracking@), self.store.commits.len() as int)
        &&& (self.head is Detached ==> self.head->Detached_0 < self.store.commits.len())
        &&& pairs_unique(entries_view(self.index@))
        &&& pairs_unique(entries_view(self.worktree@))
        &&& (self.rebase is Some ==> Self::session_wf(self.rebase->0, self.store))
    }

    /// The commit HEAD resolves to: the work branch's tip once HEAD is
    /// symbolic, or the detached commit itself.
    pub open spec fn head_commit(self) -> Option<int> {
        match self.head {
            Head::Detached(c) => Some(c as int),
            Head::Symbolic(_) => ref_tip(refs_view(self.branches@), self.work_branch@),
        }
    }

    /// The working tree holds exactly the files of the current commit's
    /// snapshot (or nothing, before the first commit).
    pub open spec fn is_clean(self) -> bool {
        match self.head_commit() {
            None => self.worktree@.len() == 0,
            Some(c) => pairs_map(entries_view(self.worktree@)) == pairs_map(
                self.store.tree_at(self.store.commits[c].tree as int),
            ),
        }
    }

    /// Everything except store, branches, tracking and head is unchanged.
    pub open spec fn same_files_config(a: Repository, b: Repository) -> bool {
        &&& a.index == b.index
        &&& a.worktree == b.worktree
        &&& a.remote_url == b.remote_url
        &&& a.lock == b.lock
        &&& a.rebase == b.rebase
        &&& a.work_branch == b.work_branch
        &&& a.identity == b.identity
    }

    /// Initialize a repository: an empty store, an unborn work branch,
    /// symbolic HEAD, and a deterministic identity (the fallback one when
    /// none is configured).
    pub fn init_repository(branch: Vec<u8>, identity: Option<Vec<u8>>) -> (r: Repository)
        ensures
            r.wf(),
            r.store.commits@.len() == 0,
            r.store.trees@.len() == 0,
            r.branches@.len() == 0,
            r.tracking@.len() == 0,
            r.head is Symbolic && r.head->Symbolic_0@ == branch@,
            r.work_branch@ == branch@,
            r.index@.len() == 0,
            r.worktree@.len() == 0,
            r.remote_url is None,
            r.lock is None,
            r.rebase is None,
            match identity {
                Some(id) => r.identity@ == id@,
                None => r.identity@ == default_identity_spec(),
            },
    {
        let id = match identity {
            Some(id) => id,
            None => default_identity(),
        };
        let head_name = clone_bytes(&branch);
        Repository {
            store: ObjectStore::new_store(),
            branches: Vec::new(),
            tracking: Vec::new(),
            head: Head::Symbolic(head_name),
            index: Vec::new(),
            worktree: Vec::new(),
            remote_url: None,
            lock: None,
            rebase: None,
            work_branch: branch,
            identity: id,
        }
    }

    /// Remove a stale index lock with bounded retries. A lock surviving
    /// all five attempts is a fatal condition for the operation.
    pub fn cleanup_stale_lock(&mut self) -> (r: Result<(), SyncError>)
        ensures
            final(self).store == old(self).store,
            final(self).branches == old(self).branches,
            final(self).tracking == old(self).tracking,
            final(self).head == old(self).head,
            final(self).index == old(self).index,
            final(self).worktree == old(self).worktree,
            final(self).remote_url == old(self).remote_url,
            final(self).rebase == old(self).rebase,
            final(self).work_branch == old(self).work_branch,
            final(self).identity == old(self).identity,
            r is Ok <==> (old(self).lock is None || old(self).lock->0 < 5),
            r is Ok ==> final(self).lock is None,
            r is Err ==> r == Err::<(), SyncError>(SyncError::LockHeld) && final(self).lock
                == old(self).lock,
            final(self).wf() == old(self).wf(),
    {
        let mut attempts: u8 = 0;
        while attempts < 5
            invariant
                attempts <= 5,
                self.store == old(self).store,
                self.branches == old(self).branches,
                self.tracking == old(self).tracking,
                self.head == old(self).head,
                self.index == old(self).index,
                self.worktree == old(self).worktree,
                self.remote_url == old(self).remote_url,
                self.rebase == old(self).rebase,
                self.work_branch == old(self).work_branch,
                self.identity == old(self).identity,
                match old(self).lock {
                    None => self.lock is None,
                    Some(k) => if k < attempts {
                        self.lock is None
                    } else {
                        self.lock == Some((k - attempts) as u8)
                    },
                },
            decreases 5 - attempts,
        {
            match self.lock {
                None => {
                    return Ok(());
                },
                Some(k) => {
                    if k == 0 {
                        self.lock = None;
                    } else {
                        self.lock = Some(k - 1);
                    }
                },
            }
            attempts = attempts + 1;
        }
        match self.lock {
            None => Ok(()),
            Some(k) => {
                self.lock = Some(k + 5);
                proof {
                    assert(old(self).lock is Some);
                    assert(old(self).lock->0 >= 5);
                    assert(self.lock == old(self).lock);
                }
                Err(SyncError::LockHeld)
            },
        }
    }

    /// Re-point HEAD symbolically at the work branch, healing a detached
    /// HEAD first: a detached commit that descends from the branch tip
    /// fast-forwards the branch (a crash left the branch lagging), a
    /// detached commit on a missing branch creates it, and anything else
    /// leaves the branch alone. Idempotent; never touches the working tree.
    pub fn normalize_head(&mut self)
        requires
            old(self).wf(),
        ensures
            final(self).wf(),
            final(self).store == old(self).store,
            final(self).tracking == old(self).tracking,
            Self::same_files_config(*final(self), *old(self)),
            final(self).head is Symbolic && final(self).head->Symbolic_0@ == old(self).work_branch@,
            old(self).head is Symbolic ==> final(self).branches == old(self).branches,
            (old(self).head is Symbolic && old(self).head->Symbolic_0@ == old(self).work_branch@)
                ==> *final(self) == *old(self),
            old(self).head is Detached ==> {
                let c = old(self).head->Detached_0 as int;
                let refs = refs_view(old(self).branches@);
                let wb = old(self).work_branch@;
                match ref_tip(refs, wb) {
                    None => ref_tip(refs_view(final(self).branches@), wb) == Some(c)
                        && (forall|m: Seq<u8>|
                        m != wb ==> #[trigger] ref_tip(refs_view(final(self).branches@), m)
                            == ref_tip(refs, m)),
                    Some(b) => if old(self).store.chain(c).contains(b) {
                        ref_tip(refs_view(final(self).branches@), wb) == Some(c) && (forall|
                            m: Seq<u8>,
                        |
                            m != wb ==> #[trigger] ref_tip(refs_view(final(self).branches@), m)
                                == ref_tip(refs, m))
                    } else {
                        final(self).branches == old(self).branches
                    },
                }
            },
            final(self).head_commit() is Some ==> final(self).head_commit()->0 < final(self).store.commits.len(),
    {
        let ghost pre = *self;
        match &self.head {
            Head::Symbolic(name) => {
                if bytes_eq(name, &self.work_branch) {
                    return ;
                }
            },
            Head::Detached(c) => {
                let c = *c;
                let wb = clone_bytes(&self.work_branch);
                match find_ref(&self.branches, &wb) {
                    None => {
                        write_ref(&mut self.branches, &wb, c);
                    },
                    Some(i) => {
                        let b = self.branches[i].tip;
                        if self.store.is_ancestor(b, c) {
                            write_ref(&mut self.branches, &wb, c);
                        }
                        proof {
                            lemma_ref_index(refs_view(pre.branches@), i as int);
                        }
                    },
                }
            },
        }
        let name = clone_bytes(&self.work_branch);
        self.head = Head::Symbolic(name);
        proof {
            if self.head_commit() is Some {
                let refs = refs_view(self.branches@);
                if ref_has(refs, self.work_branch@) {
                    let k = choose|k: int|
                        0 <= k < refs.len() && (#[trigger] refs[k]).0 == self.work_branch@;
                }
            }
        }
    }

    /// The status the UI renders: `has_changes` iff the working tree
    /// differs from the current commit's snapshot.
    pub fn get_repository_status(&self) -> (r: GitStatus)
        requires
            self.wf(),
        ensures
            r.has_changes == !self.is_clean(),
            r.is_clean == self.is_clean(),
    {
        let head = match &self.head {
            Head::Detached(c) => Some(*c),
            Head::Symbolic(_) => {
                match find_ref(&self.branches, &self.work_branch) {
                    Some(i) => Some(self.branches[i].tip),
                    None => None,
                }
            },
        };
        match head {
            None => {
                let clean = self.worktree.len() == 0;
                GitStatus { has_changes: !clean, is_clean: clean }
            },
            Some(c) => {
                let t = self.store.commits[c].tree;
                proof {
                    assert(pairs_unique(self.store.tree_at(t as int)));
                }
                let clean = entries_map_eq(&self.worktree, &self.store.trees[t].entries);
                GitStatus { has_changes: !clean, is_clean: clean }
            },
        }
    }

    /// Where the work branch's tip will stand once `normalize_head` has
    /// run on this state.
    pub open spec fn normalized_tip(self) -> Option<int> {
        let refs = refs_view(self.branches@);
        let wb = self.work_branch@;
        match self.head {
            Head::Symbolic(_) => ref_tip(refs, wb),
            Head::Detached(c) => match ref_tip(refs, wb) {
                None => Some(c as int),
                Some(b) => if self.store.chain(c as int).contains(b) {
                    Some(c as int)
                } else {
                    Some(b)
                },
            },
        }
    }

    /// Commit the working tree to the work branch.
    ///
    /// Runs the guards, reconciles the index against the working tree
    /// (stale entries go before additions: the index is rebuilt from the
    /// files that exist), builds the snapshot tree, and records a commit —
    /// unless the normalized parent already holds exactly this snapshot,
    /// in which case the parent's identifier is returned and no commit
    /// object is created: calling `commit_changes` twice with no
    /// intervening file changes yields the same identifier both times.
    /// The branch reference moves only after the commit object exists.
    pub fn commit_changes(&mut self, message: Vec<u8>, time: u64) -> (r: Result<
        usize,
        SyncError,
    >)
        requires
            old(self).wf(),
        ensures
            final(self).wf(),
            old(self).store.commits.len() <= final(self).store.commits.len(),
            forall|i: int|
                0 <= i < old(self).store.commits.len() ==> final(self).store.commits@[i] == old(self).store.commits@[i],
            r is Err <==> old(self).lock is Some && old(self).lock->0 >= 5,
            r is Err ==> r == Err::<usize, SyncError>(SyncError::LockHeld) && *final(self)
                == *old(self),
            r is Ok ==> {
                let wt = entries_view(old(self).worktree@);
                let cid = r->Ok_0 as int;
                &&& cid < final(self).store.commits.len()
                &&& final(self).store.tree_at(
                    final(self).store.commits[cid].tree as int,
                ) == wt
                &&& ref_tip(refs_view(final(self).branches@), old(self).work_branch@)
                    == Some(cid)
                &&& final(self).head is Symbolic && final(self).head->Symbolic_0@ == old(self).work_branch@
                &&& entries_view(final(self).index@) == wt
                &&& final(self).worktree == old(self).worktree
                &&& final(self).tracking == old(self).tracking
                &&& final(self).remote_url == old(self).remote_url
                &&& final(self).rebase == old(self).rebase
                &&& final(self).work_branch == old(self).work_branch
                &&& final(self).identity == old(self).identity
                &&& final(self).lock is None
                &&& forall|m: Seq<u8>|
                    m != old(self).work_branch@ ==> #[trigger] ref_tip(
                        refs_view(final(self).branches@),
                        m,
                    ) == ref_tip(refs_view(old(self).branches@), m)
            },
            // the no-op case: a parent with an identical snapshot is
            // returned as is, and no object of any kind is created
            (r is Ok && old(self).normalized_tip() is Some && old(self).store.tree_at(
                old(self).store.commits[old(self).normalized_tip()->0].tree as int,
            ) == entries_view(old(self).worktree@)) ==> r == Ok::<usize, SyncError>(
                old(self).normalized_tip()->0 as usize,
            ) && final(self).store.commits == old(self).store.commits && final(self).store.trees == old(self).store.trees,
            // otherwise a fresh commit records snapshot, parentage,
            // identity, message and time
            (r is Ok && !(old(self).normalized_tip() is Some && old(self).store.tree_at(
                old(self).store.commits[old(self).normalized_tip()->0].tree as int,
            ) == entries_view(old(self).worktree@))) ==> {
                let cid = r->Ok_0 as int;
                let node = final(self).store.commits[cid];
                &&& node.message@ == message@
                &&& node.author@ == old(self).identity@
                &&& node.time == time
                &&& (match old(self).normalized_tip() {
                    Some(p) => node.parent is Some && node.parent->0 as int == p,
                    None => node.parent is None,
                })
            },
    {
        let ghost pre = *self;
        match self.cleanup_stale_lock() {
            Ok(()) => {},
            Err(e) => {
                proof {
                    assert(*self == *old(self));
                }
                return Err(e);
            },
        }
        self.normalize_head();
        let ghost normed = *self;
        proof {
            assert(normed.normalized_tip() == ref_tip(
                refs_view(normed.branches@),
                normed.work_branch@,
            ));
            assert(pre.normalized_tip() == normed.normalized_tip());
        }
        // reconcile the index: drop entries for vanished paths, then take
        // every present file — rebuilt wholesale from the working tree
        self.index = clone_entries(&self.worktree);
        let entries = clone_entries(&self.index);
        let tid = self.store.intern_tree(entries);
        let wb = clone_bytes(&self.work_branch);
        let parent: Option<usize> = match find_ref(&self.branches, &wb) {
            Some(i) => Some(self.branches[i].tip),
            None => None,
        };
        if let Some(p) = parent {
            proof {
                assert(refs_bounded(
                    refs_view(self.branches@),
                    self.store.commits.len() as int,
                ));
            }
            if self.store.commits[p].tree == tid {
                proof {
                    assert(self.store.tree_at(tid as int) == entries_view(pre.worktree@));
                    assert(pre.store.has_tree(entries_view(pre.worktree@)));
                }
                return Ok(p);
            }
        }
        proof {
            if pre.normalized_tip() is Some {
                let p = pre.normalized_tip()->0;
                if pre.store.tree_at(pre.store.commits[p].tree as int) == entries_view(
                    pre.worktree@,
                ) {
                    assert(self.store.tree_at(tid as int) == entries_view(pre.worktree@));
                    assert(false);
                }
            }
        }
        let author = clone_bytes(&self.identity);
        let cid = self.store.intern_commit(tid, parent, author, message, time);
        proof {
            if self.store.has_commit(
                (
                    tid as int,
                    match parent {
                        Some(p) => Some(p as int),
                        None => None::<int>,
                    },
                    pre.identity@,
                    message@,
                    time,
                ),
            ) {
            }
        }
        write_ref(&mut self.branches, &wb, cid);
        proof {
            assert(refs_bounded(
                refs_view(self.branches@),
                self.store.commits.len() as int,
            ));
            if self.rebase is Some {
                assert(Self::session_wf(self.rebase->0, self.store));
            }
        }
        Ok(cid)
    }

    /// Record the working tree as a commit object but stop before the
    /// reference update, leaving HEAD detached at the new commit: the
    /// state a crash between object write and reference update leaves
    /// behind. The guards heal it on the next operation.
    pub fn commit_without_ref_update(&mut self, message: Vec<u8>, time: u64) -> (r: usize)
        requires
            old(self).wf(),
        ensures
            final(self).wf(),
            r < final(self).store.commits.len(),
            final(self).head == Head::Detached(r),
            final(self).branches == old(self).branches,
            final(self).tracking == old(self).tracking,
            final(self).worktree == old(self).worktree,
            final(self).store.tree_at(final(self).store.commits[r as int].tree as int)
                == entries_view(old(self).worktree@),
            final(self).work_branch == old(self).work_branch,
            // the stale branch tip stays an ancestor of the detached
            // commit, so the normalization guard can fast-forward it
            match ref_tip(refs_view(old(self).branches@), old(self).work_branch@) {
                Some(b) => final(self).store.chain(r as int).contains(b),
                None => true,
            },
    {
        let ghost pre = *self;
        self.index = clone_entries(&self.worktree);
        let entries = clone_entries(&self.index);
        let tid = self.store.intern_tree(entries);
        let wb = clone_bytes(&self.work_branch);
        let parent: Option<usize> = match find_ref(&self.branches, &wb) {
            Some(i) => Some(self.branches[i].tip),
            None => None,
        };
        if let Some(p) = parent {
            if self.store.commits[p].tree == tid {
                self.head = Head::Detached(p);
                proof {
                    assert(self.store.tree_at(tid as int) == entries_view(pre.worktree@));
                    assert(pre.store.has_tree(entries_view(pre.worktree@)));
                    self.store.lemma_chain_shape(p as int);
                }
                return p;
            }
        }
        let author = clone_bytes(&self.identity);
        let cid = self.store.intern_commit(tid, parent, author, message, time);
        self.head = Head::Detached(cid);
        proof {
            match ref_tip(refs_view(pre.branches@), pre.work_branch@) {
                Some(b) => {
                    assert(self.store.commits[cid as int].parent == Some(b as usize));
                    assert(self.store.chain(cid as int) == seq![cid as int]
                        + self.store.chain(b));
                    self.store.lemma_chain_shape(b);
                    assert(self.store.chain(cid as int)[1] == b);
                },
                None => {},
            }
        }
        cid
    }

    /// Materialize the snapshot of commit `c` into the working tree and
    /// the index.
    pub fn checkout_commit(&mut self, c: usize)
        requires
            old(self).wf(),
            c < old(self).store.commits.len(),
        ensures
            final(self).wf(),
            final(self).store == old(self).store,
            final(self).branches == old(self).branches,
            final(self).tracking == old(self).tracking,
            final(self).head == old(self).head,
            final(self).remote_url == old(self).remote_url,
            final(self).lock == old(self).lock,
            final(self).rebase == old(self).rebase,
            final(self).work_branch == old(self).work_branch,
            final(self).identity == old(self).identity,
            entries_view(final(self).worktree@) == old(self).store.tree_at(
                old(self).store.commits[c as int].tree as int,
            ),
            entries_view(final(self).index@) == entries_view(final(self).worktree@),
    {
        let t = self.store.commits[c].tree;
        let files = clone_entries(&self.store.trees[t].entries);
        self.index = clone_entries(&files);
        self.worktree = files;
        proof {
            assert(pairs_unique(self.store.tree_at(t as int)));
        }
    }

    /// The name of the branch HEAD points at; detached HEAD is a defect
    /// state, reported as an error rather than a name.
    pub fn get_current_branch(&self) -> (r: Result<Vec<u8>, SyncError>)
        ensures
            match self.head {
                Head::Symbolic(_) => r is Ok && r->Ok_0@ == self.head->Symbolic_0@,
                Head::Detached(_) => r == Err::<Vec<u8>, SyncError>(SyncError::DetachedHead),
            },
    {
        match &self.head {
            Head::Symbolic(name) => Ok(clone_bytes(name)),
            Head::Detached(_) => Err(SyncError::DetachedHead),
        }
    }

    /// Switch HEAD (and the work branch) to `branch`, creating the branch
    /// at the current commit when it does not exist yet. The working tree
    /// is left alone.
    pub fn switch_to_branch(&mut self, branch: &Vec<u8>) -> (r: Result<(), SyncError>)
        requires
            old(self).wf(),
        ensures
            final(self).wf(),
            final(self).store == old(self).store,
            final(self).tracking == old(self).tracking,
            Self::same_files_config_but_work_branch(*final(self), *old(self)),
            r is Err ==> r == Err::<(), SyncError>(SyncError::NoCommits) && *final(self)
                == *old(self),
            r is Err <==> (ref_tip(refs_view(old(self).branches@), branch@) is None && old(self).head_commit() is None),
            r is Ok ==> final(self).head is Symbolic && final(self).head->Symbolic_0@
                == branch@ && final(self).work_branch@ == branch@,
            r is Ok && ref_tip(refs_view(old(self).branches@), branch@) is Some ==> final(self).branches == old(self).branches,
            r is Ok && ref_tip(refs_view(old(self).branches@), branch@) is None ==> ref_tip(
                refs_view(final(self).branches@),
                branch@,
            ) == old(self).head_commit() && (forall|m: Seq<u8>|
                m != branch@ ==> #[trigger] ref_tip(refs_view(final(self).branches@), m)
                    == ref_tip(refs_view(old(self).branches@), m)),
    {
        let existing = find_ref(&self.branches, branch);
        if existing.is_none() {
            let head = match &self.head {
                Head::Detached(c) => Some(*c),
                Head::Symbolic(_) => {
                    match find_ref(&self.branches, &self.work_branch) {
                        Some(i) => Some(self.branches[i].tip),
                        None => None,
                    }
                },
            };
            match head {
                None => {
                    return Err(SyncError::NoCommits);
                },
                Some(c) => {
                    proof {
                        if self.head is Detached {
                            assert(c < self.store.commits.len());
                        }
                    }
                    write_ref(&mut self.branches, branch, c);
                },
            }
        }
        self.head = Head::Symbolic(clone_bytes(branch));
        self.work_branch = clone_bytes(branch);
        Ok(())
    }

    /// Everything except branches, head and the work branch is unchanged.
    pub open spec fn same_files_config_but_work_branch(a: Repository, b: Repository) -> bool {
        &&& a.index == b.index
        &&& a.worktree == b.worktree
        &&& a.remote_url == b.remote_url
        &&& a.lock == b.lock
        &&& a.rebase == b.rebase
        &&& a.identity == b.identity
    }

    /// Make sure the private buffer branch exists: create it at the shared
    /// branch's tip, or at the current commit when the shared branch does
    /// not exist yet. Fails exactly when there is no commit to start from:
    /// the buffer and shared branches are both absent and HEAD resolves to
    /// no commit.
    pub fn ensure_draft_branch(&mut self, draft: &Vec<u8>, main: &Vec<u8>) -> (r: Result<
        (),
        SyncError,
    >)
        requires
            old(self).wf(),
        ensures
            final(self).wf(),
            final(self).store == old(self).store,
            final(self).tracking == old(self).tracking,
            final(self).head == old(self).head,
            Self::same_files_config(*final(self), *old(self)),
            ref_tip(refs_view(old(self).branches@), draft@) is Some ==> r is Ok && *final(self) == *old(self),
            r is Ok ==> ref_tip(refs_view(final(self).branches@), draft@) is Some,
            forall|m: Seq<u8>|
                m != draft@ ==> #[trigger] ref_tip(refs_view(final(self).branches@), m)
                    == ref_tip(refs_view(old(self).branches@), m),
            r is Err <==> ref_tip(refs_view(old(self).branches@), draft@) is None && ref_tip(
                refs_view(old(self).branches@),
                main@,
            ) is None && old(self).head_commit() is None,
            r is Err ==> *final(self) == *old(self) && r == Err::<(), SyncError>(
                SyncError::NoCommits,
            ),
            // a created buffer branch starts at the shared branch's tip,
            // falling back to the current commit
            (r is Ok && ref_tip(refs_view(old(self).branches@), draft@) is None) ==> ref_tip(
                refs_view(final(self).branches@),
                draft@,
            ) == (if ref_tip(refs_view(old(self).branches@), main@) is Some {
                ref_tip(refs_view(old(self).branches@), main@)
            } else {
                old(self).head_commit()
            }),
    {
        if find_ref(&self.branches, draft).is_some() {
            return Ok(());
        }
        let source = match find_ref(&self.branches, main) {
            Some(i) => Some(self.branches[i].tip),
            None => {
                match &self.head {
                    Head::Detached(c) => Some(*c),
                    Head::Symbolic(_) => {
                        match find_ref(&self.branches, &self.work_branch) {
                            Some(i) => Some(self.branches[i].tip),
                            None => None,
                        }
                    },
                }
            },
        };
        match source {
            None => Err(SyncError::NoCommits),
            Some(c) => {
                proof {
                    if self.head is Detached {
                        assert(c < self.store.commits.len());
                    }
                }
                write_ref(&mut self.branches, draft, c);
                Ok(())
            },
        }
    }

    /// How many commits the buffer branch holds that the shared branch
    /// does not. Zero when either branch is missing.
    pub fn get_draft_commits_count(&self, draft: &Vec<u8>, main: &Vec<u8>) -> (r: usize)
        requires
            self.wf(),
        ensures
            match (
                ref_tip(refs_view(self.branches@), draft@),
                ref_tip(refs_view(self.branches@), main@),
            ) {
                (Some(d), Some(m)) => r as int == crate::store::count_missing(
                    self.store.chain(d),
                    self.store.chain(m),
                ),
                _ => r == 0,
            },
    {
        let d = match find_ref(&self.branches, draft) {
            Some(i) => self.branches[i].tip,
            None => {
                return 0;
            },
        };
        let m = match find_ref(&self.branches, main) {
            Some(i) => self.branches[i].tip,
            None => {
                return 0;
            },
        };
        let (ahead, _) = self.store.ahead_behind(d, m);
        ahead
    }

    /// Record the remote's location. Only the location is kept: transport
    /// credentials are supplied per call and never stored.
    pub fn add_remote(&mut self, url: Vec<u8>)
        requires
            old(self).wf(),
        ensures
            final(self).wf(),
            final(self).remote_url is Some && final(self).remote_url->0@ == url@,
            final(self).store == old(self).store,
            final(self).branches == old(self).branches,
            final(self).tracking == old(self).tracking,
            final(self).head == old(self).head,
            final(self).index == old(self).index,
            final(self).worktree == old(self).worktree,
            final(self).lock == old(self).lock,
            final(self).rebase == old(self).rebase,
            final(self).work_branch == old(self).work_branch,
            final(self).identity == old(self).identity,
    {
        self.remote_url = Some(url);
    }

    /// The configured remote's location, if any.
    pub fn get_remote_url(&self) -> (r: Option<Vec<u8>>)
        ensures
            r is Some <==> self.remote_url is Some,
            r is Some ==> r->0@ == self.remote_url->0@,
    {
        match &self.remote_url {
            Some(url) => Some(clone_bytes(url)),
            None => None,
        }
    }

    /// Forget the remote. A no-op when none is configured.
    pub fn remove_remote(&mut self)
        requires
            old(self).wf(),
        ensures
            final(self).wf(),
            final(self).remote_url is None,
            final(self).store == old(self).store,
            final(self).branches == old(self).branches,
            final(self).tracking == old(self).tracking,
            final(self).head == old(self).head,
            final(self).index == old(self).index,
            final(self).worktree == old(self).worktree,
            final(self).lock == old(self).lock,
            final(self).rebase == old(self).rebase,
            final(self).work_branch == old(self).work_branch,
            final(self).identity == old(self).identity,
    {
        self.remote_url = None;
    }

    /// The newest `limit` entries of the current branch's history (ten
    /// when no limit is given), newest first.
    pub fn get_commit_history(&self, limit: Option<usize>) -> (r: Vec<CommitInfo>)
        requires
            self.wf(),
        ensures
            match self.head_commit() {
                None => r@.len() == 0,
                Some(c) => {
                    let n = if self.chain_len_of(c) <= limit_spec(limit) {
                        self.chain_len_of(c)
                    } else {
                        limit_spec(limit)
                    };
                    &&& r@.len() as int == n
                    &&& forall|i: int|
                        0 <= i < r@.len() ==> history_entry_matches(
                            self.store,
                            #[trigger] r@[i],
                            self.store.chain(c)[i],
                        )
                },
            },
    {
        let lim = match limit {
            Some(l) => l,
            None => 10,
        };
        let head = match &self.head {
            Head::Detached(c) => Some(*c),
            Head::Symbolic(_) => {
                match find_ref(&self.branches, &self.work_branch) {
                    Some(i) => Some(self.branches[i].tip),
                    None => None,
                }
            },
        };
        match head {
            None => Vec::new(),
            Some(c) => self.store.collect_history(c, lim),
        }
    }

    pub open spec fn chain_len_of(self, c: int) -> int {
        self.store.chain(c).len() as int
    }

    /// A diagnostic summary: whether history exists, how long it is, and
    /// the newest commit's identifier, message and time.
    pub fn verify_repository(&self) -> (r: RepositoryVerification)
        requires
            self.wf(),
        ensures
            r.is_initialized,
            r.has_commits <==> self.head_commit() is Some,
            match self.head_commit() {
                None => r.commit_count == 0 && r.latest_commit_id is None
                    && r.latest_commit_message is None && r.latest_commit_time is None,
                Some(c) => {
                    &&& r.commit_count as int == self.store.chain(c).len()
                    &&& r.latest_commit_id == Some(c as usize)
                    &&& r.latest_commit_message is Some && r.latest_commit_message->0@
                        == self.store.commits[c].message@
                    &&& r.latest_commit_time == Some(self.store.commits[c].time)
                },
            },
    {
        let head = match &self.head {
            Head::Detached(c) => Some(*c),
            Head::Symbolic(_) => {
                match find_ref(&self.branches, &self.work_branch) {
                    Some(i) => Some(self.branches[i].tip),
                    None => None,
                }
            },
        };
        match head {
            None => RepositoryVerification {
                is_initialized: true,
                has_commits: false,
                commit_count: 0,
                latest_commit_id: None,
                latest_commit_message: None,
                latest_commit_time: None,
            },
            Some(c) => {
                let ids = self.store.collect_chain(c);
                let node = &self.store.commits[c];
                RepositoryVerification {
                    is_initialized: true,
                    has_commits: true,
                    commit_count: ids.len(),
                    latest_commit_id: Some(c),
                    latest_commit_message: Some(clone_bytes(&node.message)),
                    latest_commit_time: Some(node.time),
                }
            },
        }
    }
}

/// Restoring a branch tip and checking its snapshot out leaves a clean
/// repository: after `abort_sync` restores the pre-rebase commit, a
/// status query reports a working tree that matches it exactly.
pub proof fn lemma_restored_tip_is_clean(r: Repository, tip: int)
    requires
        r.wf(),
        r.head is Symbolic,
        r.head->Symbolic_0@ == r.work_branch@,
        ref_tip(refs_view(r.branches@), r.work_branch@) == Some(tip),
        0 <= tip < r.store.commits.len(),
        entries_view(r.worktree@) == r.store.tree_at(r.store.commits[tip].tree as int),
    ensures
        r.is_clean(),
{
    assert(r.head_commit() == Some(tip));
}

/// The effective history limit: ten entries when none is given.
pub open spec fn limit_spec(limit: Option<usize>) -> int {
    match limit {
        Some(l) => l as int,
        None => 10,
    }
}

/// The history entry reports the commit's identifier, message, time and
/// author.
pub open spec fn history_entry_matches(store: ObjectStore, e: CommitInfo, c: int) -> bool {
    &&& e.id as int == c
    &&& 0 <= c < store.commits.len()
    &&& e.message@ == store.commits[c].message@
    &&& e.time == store.commits[c].time
    &&& e.author@ == store.commits[c].author@
}

impl ObjectStore {
    /// The newest `limit` entries of `c`'s history, newest first.
    pub fn collect_history(&self, c: usize, limit: usize) -> (r: Vec<CommitInfo>)
        requires
            self.wf(),
            c < self.commits.len(),
        ensures
            r@.len() as int == if self.chain(c as int).len() as int <= limit as int {
                self.chain(c as int).len() as int
            } else {
                limit as int
            },
            forall|i: int|
                0 <= i < r@.len() ==> history_entry_matches(
                    *self,
                    #[trigger] r@[i],
                    self.chain(c as int)[i],
                ),
        decreases c,
    {
        proof {
            self.lemma_chain_shape(c as int);
        }
        let mut r: Vec<CommitInfo> = Vec::new();
        if limit == 0 {
            return r;
        }
        let node = &self.commits[c];
        r.push(
            CommitInfo {
                id: c,
                message: clone_bytes(&node.message),
                time: node.time,
                author: clone_bytes(&node.author),
            },
        );
        match node.parent {
            Some(p) => {
                let mut rest = self.collect_history(p, limit - 1);
                proof {
                    assert(self.chain(c as int) == seq![c as int] + self.chain(p as int));
                }
                r.append(&mut rest);
            },
            None => {},
        }
        r
    }
}

} // verus!
