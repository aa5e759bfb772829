//! The conflict engine: replaying locally-ahead commits one at a time onto
//! the fetched remote tip, surfacing structured per-file conflicts when a
//! step cannot auto-apply, and resuming after per-file resolutions.
//!
//! A step replays against three snapshots: the upstream tree being rebased
//! onto ("theirs"), the step commit's own tree ("ours"), and the step's
//! parent tree (the ancestor). A path changed by the step applies cleanly
//! when upstream still holds the ancestor content, is skipped when
//! upstream already holds the step's content, and conflicts otherwise.

use vstd::prelude::*;

use crate::bytes::bytes_eq;
use crate::errors::SyncError;
use crate::paths::{ext_of, is_binary_path, is_text_ext, lemma_sibling_longer, sibling_name, sibling_spec};
use crate::repo::{
    find_ref, ref_tip, refs_bounded, refs_view, write_ref, ConflictEntry, RebaseSession,
    Repository,
};
use crate::store::{
    clone_bytes, clone_entries, diff_entries, entries_seq_eq, entries_view, get_path, opt_bytes_eq,
    opt_view, pairs_unique, pget, remove_path, set_path, ObjectStore, PairsV, TreeEntry,
};

verus! {

/// A per-file decision: keep this device's content, the remote's, or both
/// (the remote's at the original path, this device's at a timestamped
/// sibling).
#[derive(Debug, Clone, Copy, PartialEq, Eq, Structural)]
pub enum ResolutionChoice {
    Ours,
    Theirs,
    CopyBoth,
}

/// One per-file decision consumed by the conflict engine.
pub struct ConflictResolutionItem {
    pub path: Vec<u8>,
    pub choice: ResolutionChoice,
}

/// The projection of one conflict down to what the resolution UI needs.
pub struct ConflictFile {
    pub path: Vec<u8>,
    pub is_binary: bool,
}

/// What every sync entry point returns: never an exception, always a value
/// the caller renders. A conflict is a first-class outcome, not an error.
pub struct SyncResult {
    pub success: bool,
    pub has_conflict: bool,
    pub conflicts: Option<Vec<ConflictFile>>,
}

/// The three-way merge result at one path: the step's content where the
/// step changed the path, upstream's content everywhere else.
pub open spec fn merge_at(up: PairsV, par: PairsV, st: PairsV, p: Seq<u8>) -> Option<Seq<u8>> {
    if pget(par, p) != pget(st, p) {
        pget(st, p)
    } else {
        pget(up, p)
    }
}

/// A path conflicts when the step and upstream both changed it away from
/// the ancestor, to different contents.
pub open spec fn conflict_at(up: PairsV, par: PairsV, st: PairsV, p: Seq<u8>) -> bool {
    &&& pget(par, p) != pget(st, p)
    &&& pget(up, p) != pget(par, p)
    &&& pget(up, p) != pget(st, p)
}

/// A conflict entry correctly projects the three sides at its path.
pub open spec fn entry_projects(e: ConflictEntry, up: PairsV, par: PairsV, st: PairsV) -> bool {
    &&& conflict_at(up, par, st, e.path@)
    &&& opt_view(e.ours) == pget(st, e.path@)
    &&& opt_view(e.theirs) == pget(up, e.path@)
    &&& opt_view(e.ancestor) == pget(par, e.path@)
}

/// The ancestor snapshot of a step: its parent's tree, or nothing for a
/// root commit.
pub open spec fn step_parent_view(store: ObjectStore, step: int) -> PairsV {
    match store.commits[step].parent {
        Some(p) => store.tree_at(store.commits[p as int].tree as int),
        None => Seq::<(Seq<u8>, Seq<u8>)>::empty(),
    }
}

/// What one replay attempt produced.
pub enum StepOutcome {
    /// The step applied cleanly; the replayed commit's identifier.
    Clean(usize),
    /// The step's change is already present upstream: nothing to do.
    AlreadyApplied,
    /// The step conflicts: the per-path conflicts, and the partial merge
    /// (clean changes applied, conflicting paths left at upstream).
    Conflicted(Vec<ConflictEntry>, Vec<TreeEntry>),
}

/// Copy an optional content.
fn clone_opt(o: &Option<Vec<u8>>) -> (r: Option<Vec<u8>>)
    ensures
        opt_view(r) == (match o {
            Some(d) => Some(d@),
            None => None::<Seq<u8>>,
        }),
{
    match o {
        Some(d) => Some(clone_bytes(d)),
        None => None,
    }
}

/// Replay one commit onto `base` with an in-memory staged result: the
/// store is not touched unless the step applies cleanly, so a conflicting
/// step leaves the repository's durable state exactly as it was.
pub fn replay_step(store: &mut ObjectStore, base: usize, step: usize) -> (r: StepOutcome)
    requires
        old(store).wf(),
        base < old(store).commits.len(),
        step < old(store).commits.len(),
    ensures
        final(store).wf(),
        old(store).commits.len() <= final(store).commits.len(),
        old(store).trees.len() <= final(store).trees.len(),
        forall|i: int|
            0 <= i < old(store).commits.len() ==> final(store).commits@[i] == old(store).commits@[i],
        forall|i: int|
            0 <= i < old(store).trees.len() ==> final(store).trees@[i] == old(store).trees@[i],
        ({
            let up = old(store).tree_at(old(store).commits[base as int].tree as int);
            let par = step_parent_view(*old(store), step as int);
            let st = old(store).tree_at(old(store).commits[step as int].tree as int);
            match r {
                StepOutcome::AlreadyApplied => {
                    &&& *final(store) == *old(store)
                    &&& forall|p: Seq<u8>| !conflict_at(up, par, st, p)
                    &&& forall|p: Seq<u8>| merge_at(up, par, st, p) == pget(up, p)
                },
                StepOutcome::Clean(c) => {
                    &&& c < final(store).commits.len()
                    &&& forall|p: Seq<u8>| !conflict_at(up, par, st, p)
                    &&& forall|p: Seq<u8>|
                        pget(
                            final(store).tree_at(final(store).commits[c as int].tree as int),
                            p,
                        ) == merge_at(up, par, st, p)
                    &&& final(store).commits[c as int].parent == Some(base)
                    &&& final(store).commits[c as int].author@ == old(store).commits[step as int].author@
                    &&& final(store).commits[c as int].message@ == old(store).commits[step as int].message@
                    &&& final(store).commits[c as int].time == old(store).commits[step as int].time
                },
                StepOutcome::Conflicted(list, partial) => {
                    &&& *final(store) == *old(store)
                    &&& list@.len() >= 1
                    &&& forall|k: int|
                        0 <= k < list@.len() ==> entry_projects(#[trigger] list@[k], up, par, st)
                            && !list@[k].resolved
                    &&& forall|k: int, l: int|
                        0 <= k < l < list@.len() ==> (#[trigger] list@[k]).path@ != (
                        #[trigger] list@[l]).path@
                    &&& forall|p: Seq<u8>|
                        conflict_at(up, par, st, p) ==> exists|k: int|
                            0 <= k < list@.len() && (#[trigger] list@[k]).path@ == p
                    &&& pairs_unique(entries_view(partial@))
                    &&& forall|p: Seq<u8>|
                        pget(entries_view(partial@), p) == (if conflict_at(up, par, st, p) {
                            pget(up, p)
                        } else {
                            merge_at(up, par, st, p)
                        })
                },
            }
        }),
{
    let ghost up = store.tree_at(store.commits[base as int].tree as int);
    let ghost par = step_parent_view(*store, step as int);
    let ghost st = store.tree_at(store.commits[step as int].tree as int);
    let base_t = store.commits[base].tree;
    let step_t = store.commits[step].tree;
    proof {
        assert(pairs_unique(up));
        assert(pairs_unique(st));
        match store.commits[step as int].parent {
            Some(p) => {
                assert(pairs_unique(store.tree_at(store.commits[p as int].tree as int)));
            },
            None => {},
        }
    }
    let empty_parent: Vec<TreeEntry> = Vec::new();
    let parent = store.commits[step].parent;
    let changes = match parent {
        Some(p) => {
            let pt = store.commits[p].tree;
            diff_entries(&store.trees[pt].entries, &store.trees[step_t].entries)
        },
        None => {
            proof {
                assert(entries_view(empty_parent@) =~= par);
            }
            diff_entries(&empty_parent, &store.trees[step_t].entries)
        },
    };
    let mut result = clone_entries(&store.trees[base_t].entries);
    let mut conflicts: Vec<ConflictEntry> = Vec::new();
    let mut i: usize = 0;
    while i < changes.len()
        invariant
            i <= changes@.len(),
            store.wf(),
            *store == *old(store),
            base < store.commits.len(),
            step < store.commits.len(),
            base_t == store.commits[base as int].tree,
            step_t == store.commits[step as int].tree,
            up == store.tree_at(base_t as int),
            par == step_parent_view(*store, step as int),
            st == store.tree_at(step_t as int),
            pairs_unique(up),
            pairs_unique(par),
            pairs_unique(st),
            forall|k: int| 0 <= k < changes@.len() ==> crate::store::change_ok(#[trigger] changes@[k], par, st),
            forall|k: int, l: int|
                0 <= k < l < changes@.len() ==> (#[trigger] changes@[k]).path@ != (
                #[trigger] changes@[l]).path@,
            forall|p: Seq<u8>|
                pget(par, p) != pget(st, p) ==> exists|k: int|
                    0 <= k < changes@.len() && (#[trigger] changes@[k]).path@ == p,
            pairs_unique(entries_view(result@)),
            forall|k: int|
                0 <= k < conflicts@.len() ==> entry_projects(#[trigger] conflicts@[k], up, par, st)
                    && !conflicts@[k].resolved,
            forall|k: int, l: int|
                0 <= k < l < conflicts@.len() ==> (#[trigger] conflicts@[k]).path@ != (
                #[trigger] conflicts@[l]).path@,
            forall|k: int|
                0 <= k < conflicts@.len() ==> exists|l: int|
                    0 <= l < i && (#[trigger] conflicts@[k]).path@ == changes@[l].path@,
            forall|l: int|
                0 <= l < changes@.len() && conflict_at(up, par, st, (#[trigger] changes@[l]).path@)
                    && l < i ==> exists|k: int|
                    0 <= k < conflicts@.len() && (#[trigger] conflicts@[k]).path@
                        == changes@[l].path@,
            forall|p: Seq<u8>|
                #[trigger] pget(entries_view(result@), p) == (if (exists|l: int|
                    0 <= l < i && (#[trigger] changes@[l]).path@ == p) && !conflict_at(
                    up,
                    par,
                    st,
                    p,
                ) {
                    merge_at(up, par, st, p)
                } else {
                    pget(up, p)
                }),
        decreases changes@.len() - i,
    {
        let q = &changes[i].path;
        let ghost qv = q@;
        proof {
            assert(crate::store::change_ok(changes@[i as int], par, st));
            assert(pget(par, qv) != pget(st, qv));
        }
        let up_val = get_path(&store.trees[base_t].entries, q);
        let ghost pre_result = result@;
        let ghost pre_conf = conflicts@;
        if opt_bytes_eq(&up_val, &changes[i].before) {
            // upstream still holds the ancestor content: apply the change
            proof {
                assert(pget(up, qv) == pget(par, qv));
                assert(!conflict_at(up, par, st, qv));
            }
            match &changes[i].after {
                Some(d) => {
                    let d = clone_bytes(d);
                    set_path(&mut result, q, d);
                },
                None => {
                    remove_path(&mut result, q);
                },
            }
            proof {
                assert(pget(entries_view(result@), qv) == pget(st, qv));
                assert(merge_at(up, par, st, qv) == pget(st, qv));
                assert forall|p: Seq<u8>| #[trigger] pget(entries_view(result@), p) == (if (
                exists|l: int| 0 <= l < i + 1 && (#[trigger] changes@[l]).path@ == p)
                    && !conflict_at(up, par, st, p) {
                    merge_at(up, par, st, p)
                } else {
                    pget(up, p)
                }) by {
                    if p == qv {
                        assert(changes@[i as int].path@ == p);
                    } else {
                        assert(pget(entries_view(result@), p) == pget(entries_view(pre_result), p));
                        if exists|l: int| 0 <= l < i + 1 && (#[trigger] changes@[l]).path@ == p {
                            let l = choose|l: int|
                                0 <= l < i + 1 && (#[trigger] changes@[l]).path@ == p;
                            assert(l != i);
                            assert(exists|l2: int|
                                0 <= l2 < i && (#[trigger] changes@[l2]).path@ == p);
                        }
                    }
                }
            }
        } else if opt_bytes_eq(&up_val, &changes[i].after) {
            // the change is already present upstream: skip forward
            proof {
                assert(pget(up, qv) == pget(st, qv));
                assert(!conflict_at(up, par, st, qv));
                assert(merge_at(up, par, st, qv) == pget(st, qv));
                assert forall|p: Seq<u8>| #[trigger] pget(entries_view(result@), p) == (if (
                exists|l: int| 0 <= l < i + 1 && (#[trigger] changes@[l]).path@ == p)
                    && !conflict_at(up, par, st, p) {
                    merge_at(up, par, st, p)
                } else {
                    pget(up, p)
                }) by {
                    if p == qv {
                        assert(pget(entries_view(result@), p) == pget(up, p));
                    } else {
                        if exists|l: int| 0 <= l < i + 1 && (#[trigger] changes@[l]).path@ == p {
                            let l = choose|l: int|
                                0 <= l < i + 1 && (#[trigger] changes@[l]).path@ == p;
                            assert(l != i);
                            assert(exists|l2: int|
                                0 <= l2 < i && (#[trigger] changes@[l2]).path@ == p);
                        }
                    }
                }
            }
        } else {
            // a true conflict: upstream differs from both sides
            proof {
                assert(pget(up, qv) != pget(par, qv));
                assert(pget(up, qv) != pget(st, qv));
                assert(conflict_at(up, par, st, qv));
                assert forall|k: int| 0 <= k < conflicts@.len() implies (
                #[trigger] conflicts@[k]).path@ != qv by {
                    let l = choose|l: int|
                        0 <= l < i && (#[trigger] conflicts@[k]).path@ == changes@[l].path@;
                    assert(changes@[l].path@ != changes@[i as int].path@);
                }
            }
            let entry = ConflictEntry {
                path: clone_bytes(q),
                ours: clone_opt(&changes[i].after),
                theirs: up_val,
                ancestor: clone_opt(&changes[i].before),
                resolved: false,
            };
            proof {
                assert(entry_projects(entry, up, par, st));
            }
            conflicts.push(entry);
            proof {
                let n = pre_conf.len() as int;
                assert(conflicts@[n].path@ == qv);
                assert forall|k: int| 0 <= k < conflicts@.len() implies exists|l: int|
                    0 <= l < i + 1 && (#[trigger] conflicts@[k]).path@ == changes@[l].path@ by {
                    if k < n {
                        assert(conflicts@[k] == pre_conf[k]);
                        let l = choose|l: int|
                            0 <= l < i && (#[trigger] pre_conf[k]).path@ == changes@[l].path@;
                        assert(conflicts@[k].path@ == changes@[l].path@);
                    } else {
                        assert(conflicts@[k].path@ == changes@[i as int].path@);
                    }
                }
                assert forall|l: int|
                    0 <= l < changes@.len() && conflict_at(
                        up,
                        par,
                        st,
                        (#[trigger] changes@[l]).path@,
                    ) && l < i + 1 implies exists|k: int|
                    0 <= k < conflicts@.len() && (#[trigger] conflicts@[k]).path@
                        == changes@[l].path@ by {
                    if l < i {
                        let k = choose|k: int|
                            0 <= k < pre_conf.len() && (#[trigger] pre_conf[k]).path@
                                == changes@[l].path@;
                        assert(conflicts@[k].path@ == changes@[l].path@);
                    } else {
                        assert(conflicts@[n].path@ == changes@[l].path@);
                    }
                }
                assert forall|p: Seq<u8>| #[trigger] pget(entries_view(result@), p) == (if (
                exists|l: int| 0 <= l < i + 1 && (#[trigger] changes@[l]).path@ == p)
                    && !conflict_at(up, par, st, p) {
                    merge_at(up, par, st, p)
                } else {
                    pget(up, p)
                }) by {
                    if p != qv {
                        if exists|l: int| 0 <= l < i + 1 && (#[trigger] changes@[l]).path@ == p {
                            let l = choose|l: int|
                                0 <= l < i + 1 && (#[trigger] changes@[l]).path@ == p;
                            assert(l != i);
                            assert(exists|l2: int|
                                0 <= l2 < i && (#[trigger] changes@[l2]).path@ == p);
                        }
                    }
                }
            }
        }
        i = i + 1;
    }
    // after the walk: every conflicting path is collected, and the partial
    // result is upstream overlaid with the clean changes
    proof {
        assert forall|p: Seq<u8>| conflict_at(up, par, st, p) implies exists|k: int|
            0 <= k < conflicts@.len() && (#[trigger] conflicts@[k]).path@ == p by {
            let l = choose|l: int|
                0 <= l < changes@.len() && (#[trigger] changes@[l]).path@ == p;
        }
    }
    if conflicts.len() > 0 {
        proof {
            assert forall|p: Seq<u8>| #[trigger] pget(entries_view(result@), p) == (if conflict_at(
                up,
                par,
                st,
                p,
            ) {
                pget(up, p)
            } else {
                merge_at(up, par, st, p)
            }) by {
                if !conflict_at(up, par, st, p) {
                    if pget(par, p) != pget(st, p) {
                        let l = choose|l: int|
                            0 <= l < changes@.len() && (#[trigger] changes@[l]).path@ == p;
                        assert(exists|l2: int|
                            0 <= l2 < changes@.len() && (#[trigger] changes@[l2]).path@ == p);
                    } else {
                        assert(merge_at(up, par, st, p) == pget(up, p));
                    }
                }
            }
        }
        return StepOutcome::Conflicted(conflicts, result);
    }
    proof {
        assert forall|p: Seq<u8>| !conflict_at(up, par, st, p) by {
            if conflict_at(up, par, st, p) {
                let k = choose|k: int|
                    0 <= k < conflicts@.len() && (#[trigger] conflicts@[k]).path@ == p;
            }
        }
        assert forall|p: Seq<u8>| #[trigger] pget(entries_view(result@), p) == merge_at(
            up,
            par,
            st,
            p,
        ) by {
            if pget(par, p) != pget(st, p) {
                let l = choose|l: int|
                    0 <= l < changes@.len() && (#[trigger] changes@[l]).path@ == p;
                assert(exists|l2: int|
                    0 <= l2 < changes@.len() && (#[trigger] changes@[l2]).path@ == p);
            }
        }
    }
    if entries_seq_eq(&result, &store.trees[base_t].entries) {
        proof {
            assert forall|p: Seq<u8>| merge_at(up, par, st, p) == #[trigger] pget(up, p) by {
                assert(pget(entries_view(result@), p) == pget(up, p));
            }
        }
        return StepOutcome::AlreadyApplied;
    }
    let ghost result_view = entries_view(result@);
    let ghost pre2 = *store;
    let tid = store.intern_tree(result);
    let ghost mid2 = *store;
    let node_author = clone_bytes(&store.commits[step].author);
    let node_message = clone_bytes(&store.commits[step].message);
    let node_time = store.commits[step].time;
    let cid = store.intern_commit(tid, Some(base), node_author, node_message, node_time);
    proof {
        assert forall|i: int| 0 <= i < pre2.trees.len() implies store.trees@[i]
            == pre2.trees@[i] by {
            assert(mid2.tree_at(i) == pre2.tree_at(i));
            assert(mid2.trees@[i] == pre2.trees@[i]);
        }
        assert forall|i: int| 0 <= i < pre2.commits.len() implies store.commits@[i]
            == pre2.commits@[i] by {
            assert(mid2.commits@[i] == pre2.commits@[i]);
        }
        let v = crate::store::commit_view(store.commits@[cid as int]);
        assert(v.0 == tid as int);
        assert(store.commits[cid as int].tree == tid);
        assert(store.tree_at(tid as int) == result_view);
        match store.commits[cid as int].parent {
            Some(p) => {
                assert(p as int == base as int);
            },
            None => {
                assert(false);
            },
        }
    }
    StepOutcome::Clean(cid)
}

/// The view of the sides a conflict entry carries.
pub open spec fn entry_sides(e: ConflictEntry) -> (Option<Seq<u8>>, Option<Seq<u8>>, Option<
    Seq<u8>,
>) {
    (opt_view(e.ours), opt_view(e.theirs), opt_view(e.ancestor))
}

pub open spec fn has_conflict_path(cs: Seq<ConflictEntry>, p: Seq<u8>) -> bool {
    exists|k: int| 0 <= k < cs.len() && (#[trigger] cs[k]).path@ == p
}

pub open spec fn conflict_index(cs: Seq<ConflictEntry>, p: Seq<u8>) -> int {
    choose|k: int| 0 <= k < cs.len() && (#[trigger] cs[k]).path@ == p
}

/// With distinct paths, the entry at any index is the one a lookup finds.
pub proof fn lemma_conflict_index(cs: Seq<ConflictEntry>, i: int)
    requires
        forall|k: int, l: int|
            0 <= k < l < cs.len() ==> (#[trigger] cs[k]).path@ != (#[trigger] cs[l]).path@,
        0 <= i < cs.len(),
    ensures
        has_conflict_path(cs, cs[i].path@),
        conflict_index(cs, cs[i].path@) == i,
{
    assert(has_conflict_path(cs, cs[i].path@));
    let k = choose|k: int| 0 <= k < cs.len() && (#[trigger] cs[k]).path@ == cs[i].path@;
    if k != i {
        if k < i {
            assert(cs[k].path@ != cs[i].path@);
        } else {
            assert(cs[i].path@ != cs[k].path@);
        }
    }
}

/// Find the conflict entry for a path.
fn find_conflict(cs: &Vec<ConflictEntry>, p: &Vec<u8>) -> (r: Option<usize>)
    requires
        forall|k: int, l: int|
            0 <= k < l < cs@.len() ==> (#[trigger] cs@[k]).path@ != (#[trigger] cs@[l]).path@,
    ensures
        match r {
            Some(i) => i < cs@.len() && cs@[i as int].path@ == p@ && has_conflict_path(cs@, p@)
                && conflict_index(cs@, p@) == i,
            None => !has_conflict_path(cs@, p@),
        },
{
    let mut i: usize = 0;
    while i < cs.len()
        invariant
            i <= cs@.len(),
            forall|k: int, l: int|
                0 <= k < l < cs@.len() ==> (#[trigger] cs@[k]).path@ != (#[trigger] cs@[l]).path@,
            forall|k: int| 0 <= k < i ==> (#[trigger] cs@[k]).path@ != p@,
        decreases cs@.len() - i,
    {
        if bytes_eq(&cs[i].path, p) {
            proof {
                lemma_conflict_index(cs@, i as int);
            }
            return Some(i);
        }
        i = i + 1;
    }
    proof {
        if has_conflict_path(cs@, p@) {
            let k = choose|k: int| 0 <= k < cs@.len() && (#[trigger] cs@[k]).path@ == p@;
        }
    }
    None
}

/// A paused session reports its conflicts faithfully: each entry projects
/// the three sides of the paused step at its path, the paths are distinct
/// and cover exactly the conflicting paths, and the staged partial merge
/// holds upstream content at conflicting paths and the merged content
/// everywhere else (before any resolutions are applied to it).
pub open spec fn paused_conflicts_sound(repo: Repository) -> bool
    recommends
        repo.rebase is Some,
        repo.rebase->0.step is Some,
{
    let s = repo.rebase->0;
    let stc = s.step->0 as int;
    let up = repo.store.tree_at(repo.store.commits[s.new_tip as int].tree as int);
    let par = step_parent_view(repo.store, stc);
    let st = repo.store.tree_at(repo.store.commits[stc].tree as int);
    &&& s.conflicts@.len() >= 1
    &&& forall|k: int|
        0 <= k < s.conflicts@.len() ==> entry_projects(#[trigger] s.conflicts@[k], up, par, st)
    &&& forall|p: Seq<u8>|
        conflict_at(up, par, st, p) ==> exists|k: int|
            0 <= k < s.conflicts@.len() && (#[trigger] s.conflicts@[k]).path@ == p
}

/// The steps replay a consecutive stretch of first-parent history: each
/// one's parent is the step before it.
pub open spec fn steps_consecutive(store: ObjectStore, steps: Seq<usize>) -> bool {
    forall|j: int|
        1 <= j < steps.len() ==> store.commits[#[trigger] steps[j] as int].parent == Some(
            steps[j - 1],
        )
}

/// The file reports some unresolved entry of the conflict table, carrying
/// the binary flag of that entry's path.
pub open spec fn file_names_unresolved(f: ConflictFile, cs: Seq<ConflictEntry>) -> bool {
    exists|k: int|
        0 <= k < cs.len() && !(#[trigger] cs[k]).resolved && f.path@ == cs[k].path@
            && f.is_binary == !is_text_ext(ext_of(cs[k].path@))
}

/// Some reported file names this entry's path.
pub open spec fn entry_reported(e: ConflictEntry, files: Seq<ConflictFile>) -> bool {
    exists|l: int| 0 <= l < files.len() && (#[trigger] files[l]).path@ == e.path@
}

/// The reported conflict files are exactly the unresolved entries of the
/// session's conflict table: every file names an unresolved entry (with
/// the binary flag of its path), and every unresolved entry is named.
pub open spec fn files_match_unresolved(files: Seq<ConflictFile>, cs: Seq<ConflictEntry>) -> bool {
    &&& forall|l: int| 0 <= l < files.len() ==> file_names_unresolved(#[trigger] files[l], cs)
    &&& forall|k: int|
        0 <= k < cs.len() && !(#[trigger] cs[k]).resolved ==> entry_reported(cs[k], files)
}

impl Repository {
    /// Discard the open rebase session: restore the branch reference to
    /// its pre-rebase position and check that commit's snapshot back out.
    /// Calling it with no open session is a no-op, not an error.
    pub fn abort_sync(&mut self) -> (r: Result<(), SyncError>)
        requires
            old(self).wf(),
        ensures
            final(self).wf(),
            r is Ok,
            final(self).rebase is None,
            final(self).store == old(self).store,
            final(self).tracking == old(self).tracking,
            final(self).head == old(self).head,
            final(self).remote_url == old(self).remote_url,
            final(self).lock == old(self).lock,
            final(self).work_branch == old(self).work_branch,
            final(self).identity == old(self).identity,
            old(self).rebase is None ==> *final(self) == *old(self),
            old(self).rebase is Some ==> {
                let s = old(self).rebase->0;
                &&& ref_tip(refs_view(final(self).branches@), s.branch@) == Some(
                    s.original_tip as int,
                )
                &&& forall|m: Seq<u8>|
                    m != s.branch@ ==> #[trigger] ref_tip(refs_view(final(self).branches@), m)
                        == ref_tip(refs_view(old(self).branches@), m)
                &&& entries_view(final(self).worktree@) == old(self).store.tree_at(
                    old(self).store.commits[s.original_tip as int].tree as int,
                )
                &&& entries_view(final(self).index@) == entries_view(final(self).worktree@)
            },
    {
        let mut session_opt: Option<RebaseSession> = None;
        core::mem::swap(&mut self.rebase, &mut session_opt);
        let session = match session_opt {
            None => {
                return Ok(());
            },
            Some(s) => s,
        };
        let branch = clone_bytes(&session.branch);
        let orig = session.original_tip;
        write_ref(&mut self.branches, &branch, orig);
        self.checkout_commit(orig);
        Ok(())
    }

    /// Replay the remaining steps of the open session (which must not be
    /// paused). Either the rebase completes — the branch reference moves to
    /// the final replayed tip, the snapshot is checked out, and the session
    /// closes — or a step conflicts and the session pauses with the
    /// structured conflict list, leaving branch references, index and
    /// working tree untouched.
    pub(crate) fn advance_rebase(
        &mut self,
        branch: Vec<u8>,
        original_tip: usize,
        start_tip: usize,
        steps: Vec<usize>,
    ) -> (r: Option<Vec<ConflictFile>>)
        requires
            old(self).wf(),
            old(self).rebase is None,
            original_tip < old(self).store.commits.len(),
            start_tip < old(self).store.commits.len(),
            forall|i: int|
                0 <= i < steps@.len() ==> (#[trigger] steps@[i]) < old(self).store.commits.len(),
        ensures
            final(self).wf(),
            final(self).tracking == old(self).tracking,
            final(self).head == old(self).head,
            final(self).remote_url == old(self).remote_url,
            final(self).lock == old(self).lock,
            final(self).work_branch == old(self).work_branch,
            final(self).identity == old(self).identity,
            old(self).store.commits.len() <= final(self).store.commits.len(),
            old(self).store.trees.len() <= final(self).store.trees.len(),
            forall|i: int|
                0 <= i < old(self).store.commits.len() ==> final(self).store.commits@[i] == old(self).store.commits@[i],
            forall|i: int|
                0 <= i < old(self).store.trees.len() ==> final(self).store.trees@[i] == old(self).store.trees@[i],
            steps@.len() == 0 ==> r is None,
            match r {
                None => {
                    &&& final(self).rebase is None
                    &&& ref_tip(refs_view(final(self).branches@), branch@) is Some
                    &&& {
                        let tip = ref_tip(refs_view(final(self).branches@), branch@)->0;
                        &&& entries_view(final(self).worktree@) == final(self).store.tree_at(
                            final(self).store.commits[tip].tree as int,
                        ) && entries_view(final(self).index@) == entries_view(
                            final(self).worktree@,
                        )
                        // replaying extends the base: the starting tip's
                        // history survives as a suffix of the final one
                        &&& ObjectStore::hist_suffix(
                            final(self).store.hist(tip),
                            final(self).store.hist(start_tip as int),
                        )
                        &&& steps@.len() == 0 ==> tip == start_tip as int
                        // a single replayed step lands exactly on the
                        // three-way merge of its change over the base, and
                        // completes only when no path truly conflicts
                        &&& steps@.len() == 1 ==> forall|p: Seq<u8>|
                            pget(
                                final(self).store.tree_at(
                                    final(self).store.commits[tip].tree as int,
                                ),
                                p,
                            ) == merge_at(
                                old(self).store.tree_at(
                                    old(self).store.commits[start_tip as int].tree as int,
                                ),
                                step_parent_view(old(self).store, steps@[0] as int),
                                old(self).store.tree_at(
                                    old(self).store.commits[steps@[0] as int].tree as int,
                                ),
                                p,
                            )
                        &&& steps@.len() == 1 ==> forall|p: Seq<u8>|
                            !conflict_at(
                                old(self).store.tree_at(
                                    old(self).store.commits[start_tip as int].tree as int,
                                ),
                                step_parent_view(old(self).store, steps@[0] as int),
                                old(self).store.tree_at(
                                    old(self).store.commits[steps@[0] as int].tree as int,
                                ),
                                p,
                            )
                    }
                    &&& forall|m: Seq<u8>|
                        m != branch@ ==> #[trigger] ref_tip(
                            refs_view(final(self).branches@),
                            m,
                        ) == ref_tip(refs_view(old(self).branches@), m)
                },
                Some(files) => {
                    &&& final(self).branches == old(self).branches
                    &&& final(self).worktree == old(self).worktree
                    &&& final(self).index == old(self).index
                    &&& final(self).rebase is Some
                    &&& steps@.len() == 1 ==> final(self).store == old(self).store && final(self).rebase->0.new_tip == start_tip && final(self).rebase->0.step == Some(
                        steps@[0],
                    )
                    &&& {
                        let s = final(self).rebase->0;
                        &&& s.step is Some
                        &&& s.branch@ == branch@
                        &&& s.original_tip == original_tip
                        &&& paused_conflicts_sound(*final(self))
                        &&& forall|k: int|
                            0 <= k < s.conflicts@.len() ==> !(#[trigger] s.conflicts@[k]).resolved
                        &&& files@.len() == s.conflicts@.len()
                        &&& forall|k: int|
                            0 <= k < files@.len() ==> (#[trigger] files@[k]).path@
                                == s.conflicts@[k].path@ && files@[k].is_binary == !is_text_ext(
                                ext_of(s.conflicts@[k].path@),
                            )
                    }
                },
            },
    {
        let ghost branch_view = branch@;
        let ghost steps0 = steps@;
        let ghost up0 = old(self).store.tree_at(
            old(self).store.commits[start_tip as int].tree as int,
        );
        let ghost processed: int = 0;
        let mut new_tip = start_tip;
        let mut remaining = steps;
        proof {
            assert(remaining@ =~= steps0.skip(0));
            assert(self.store.hist(start_tip as int).skip(0) =~= self.store.hist(
                start_tip as int,
            ));
        }
        loop
            invariant
                self.wf(),
                self.rebase is None,
                branch@ == branch_view,
                steps0 == steps@,
                up0 == old(self).store.tree_at(
                    old(self).store.commits[start_tip as int].tree as int,
                ),
                0 <= processed <= steps0.len(),
                remaining@ =~= steps0.skip(processed),
                self.tracking == old(self).tracking,
                self.head == old(self).head,
                self.remote_url == old(self).remote_url,
                self.lock == old(self).lock,
                self.work_branch == old(self).work_branch,
                self.identity == old(self).identity,
                self.branches == old(self).branches,
                self.worktree == old(self).worktree,
                self.index == old(self).index,
                new_tip < self.store.commits.len(),
                start_tip < self.store.commits.len(),
                original_tip < self.store.commits.len(),
                forall|i: int|
                    0 <= i < remaining@.len() ==> (#[trigger] remaining@[i])
                        < self.store.commits.len(),
                old(self).store.commits.len() <= self.store.commits.len(),
                old(self).store.trees.len() <= self.store.trees.len(),
                forall|i: int|
                    0 <= i < old(self).store.commits.len() ==> self.store.commits@[i] == old(self).store.commits@[i],
                forall|i: int|
                    0 <= i < old(self).store.trees.len() ==> self.store.trees@[i] == old(self).store.trees@[i],
                processed == 0 ==> new_tip == start_tip && self.store == old(self).store,
                ObjectStore::hist_suffix(
                    self.store.hist(new_tip as int),
                    self.store.hist(start_tip as int),
                ),
                steps0.len() == 1 && processed == 1 ==> forall|p: Seq<u8>|
                    pget(
                        self.store.tree_at(
                            self.store.commits[new_tip as int].tree as int,
                        ),
                        p,
                    ) == merge_at(
                        up0,
                        step_parent_view(old(self).store, steps0[0] as int),
                        old(self).store.tree_at(
                            old(self).store.commits[steps0[0] as int].tree as int,
                        ),
                        p,
                    ),
                steps0.len() == 1 && processed == 1 ==> forall|p: Seq<u8>|
                    !conflict_at(
                        up0,
                        step_parent_view(old(self).store, steps0[0] as int),
                        old(self).store.tree_at(
                            old(self).store.commits[steps0[0] as int].tree as int,
                        ),
                        p,
                    ),
            ensures
                remaining@.len() == 0,
                self.wf(),
                self.rebase is None,
                branch@ == branch_view,
                self.tracking == old(self).tracking,
                self.head == old(self).head,
                self.remote_url == old(self).remote_url,
                self.lock == old(self).lock,
                self.work_branch == old(self).work_branch,
                self.identity == old(self).identity,
                self.branches == old(self).branches,
                self.worktree == old(self).worktree,
                self.index == old(self).index,
                new_tip < self.store.commits.len(),
                start_tip < self.store.commits.len(),
                old(self).store.commits.len() <= self.store.commits.len(),
                old(self).store.trees.len() <= self.store.trees.len(),
                forall|i: int|
                    0 <= i < old(self).store.commits.len() ==> self.store.commits@[i] == old(self).store.commits@[i],
                forall|i: int|
                    0 <= i < old(self).store.trees.len() ==> self.store.trees@[i] == old(self).store.trees@[i],
                ObjectStore::hist_suffix(
                    self.store.hist(new_tip as int),
                    self.store.hist(start_tip as int),
                ),
                steps@.len() == 0 ==> new_tip == start_tip,
                steps@.len() == 1 ==> forall|p: Seq<u8>|
                    pget(
                        self.store.tree_at(
                            self.store.commits[new_tip as int].tree as int,
                        ),
                        p,
                    ) == merge_at(
                        old(self).store.tree_at(
                            old(self).store.commits[start_tip as int].tree as int,
                        ),
                        step_parent_view(old(self).store, steps@[0] as int),
                        old(self).store.tree_at(
                            old(self).store.commits[steps@[0] as int].tree as int,
                        ),
                        p,
                    ),
                steps@.len() == 1 ==> forall|p: Seq<u8>|
                    !conflict_at(
                        old(self).store.tree_at(
                            old(self).store.commits[start_tip as int].tree as int,
                        ),
                        step_parent_view(old(self).store, steps@[0] as int),
                        old(self).store.tree_at(
                            old(self).store.commits[steps@[0] as int].tree as int,
                        ),
                        p,
                    ),
            decreases remaining@.len(),
        {
            if remaining.len() == 0 {
                break ;
            }
            let ghost pre_store = self.store;
            let ghost pre_tip = new_tip;
            let step = remaining.remove(0);
            proof {
                assert(steps0.skip(processed)[0] == steps0[processed]);
                assert(step == steps0[processed]);
                assert(remaining@ =~= steps0.skip(processed + 1));
            }
            let outcome = replay_step(&mut self.store, new_tip, step);
            proof {
                assert(refs_bounded(
                    refs_view(self.branches@),
                    self.store.commits.len() as int,
                ));
                assert(refs_bounded(
                    refs_view(self.tracking@),
                    self.store.commits.len() as int,
                ));
            }
            match outcome {
                StepOutcome::Clean(c) => {
                    new_tip = c;
                    proof {
                        // the base's history survives the replayed commit
                        ObjectStore::lemma_hist_stable(
                            pre_store,
                            self.store,
                            pre_tip as int,
                        );
                        ObjectStore::lemma_hist_stable(
                            pre_store,
                            self.store,
                            start_tip as int,
                        );
                        self.store.lemma_hist_shape(c as int);
                        assert(self.store.hist(c as int) == seq![
                            self.store.commit_data(c as int),
                        ] + self.store.hist(pre_tip as int)) by {
                            assert(self.store.commits[c as int].parent == Some(pre_tip));
                        }
                        assert(self.store.hist(c as int).skip(1) =~= self.store.hist(
                            pre_tip as int,
                        ));
                        assert(ObjectStore::hist_suffix(
                            self.store.hist(c as int),
                            self.store.hist(pre_tip as int),
                        ));
                        ObjectStore::lemma_hist_suffix_trans(
                            self.store.hist(c as int),
                            self.store.hist(pre_tip as int),
                            self.store.hist(start_tip as int),
                        );
                        processed = processed + 1;
                        if steps0.len() == 1 {
                            assert(processed == 1);
                            assert(pre_store == old(self).store);
                            assert(pre_tip == start_tip);
                            assert(step == steps0[0]);
                            let up_r = pre_store.tree_at(
                                pre_store.commits[pre_tip as int].tree as int,
                            );
                            let par_r = step_parent_view(pre_store, step as int);
                            let st_r = pre_store.tree_at(
                                pre_store.commits[step as int].tree as int,
                            );
                            assert(pre_store.commits[pre_tip as int]
                                == old(self).store.commits[start_tip as int]);
                            assert(up0 == old(self).store.tree_at(
                                old(self).store.commits[start_tip as int].tree as int,
                            ));
                            assert(up_r == up0);
                            assert(par_r == step_parent_view(old(self).store, steps0[0] as int));
                            assert(st_r == old(self).store.tree_at(
                                old(self).store.commits[steps0[0] as int].tree as int,
                            ));
                            assert forall|p: Seq<u8>|
                                pget(
                                    self.store.tree_at(
                                        self.store.commits[new_tip as int].tree as int,
                                    ),
                                    p,
                                ) == merge_at(
                                    up0,
                                    step_parent_view(old(self).store, steps0[0] as int),
                                    old(self).store.tree_at(
                                        old(self).store.commits[steps0[0] as int].tree as int,
                                    ),
                                    p,
                                ) by {
                                assert(pget(
                                    self.store.tree_at(
                                        self.store.commits[new_tip as int].tree as int,
                                    ),
                                    p,
                                ) == merge_at(up_r, par_r, st_r, p));
                            }
                            assert forall|p: Seq<u8>|
                                !conflict_at(
                                    up0,
                                    step_parent_view(old(self).store, steps0[0] as int),
                                    old(self).store.tree_at(
                                        old(self).store.commits[steps0[0] as int].tree as int,
                                    ),
                                    p,
                                ) by {
                                assert(!conflict_at(up_r, par_r, st_r, p));
                            }
                        }
                    }
                },
                StepOutcome::AlreadyApplied => {
                    proof {
                        processed = processed + 1;
                        if steps0.len() == 1 {
                            assert(processed == 1);
                            assert(pre_store == old(self).store);
                            assert(pre_tip == start_tip);
                            assert(step == steps0[0]);
                            assert(self.store == pre_store);
                            let up_r = pre_store.tree_at(
                                pre_store.commits[pre_tip as int].tree as int,
                            );
                            let par_r = step_parent_view(pre_store, step as int);
                            let st_r = pre_store.tree_at(
                                pre_store.commits[step as int].tree as int,
                            );
                            assert(pre_store.commits[pre_tip as int]
                                == old(self).store.commits[start_tip as int]);
                            assert(up0 == old(self).store.tree_at(
                                old(self).store.commits[start_tip as int].tree as int,
                            ));
                            assert(up_r == up0);
                            assert(par_r == step_parent_view(old(self).store, steps0[0] as int));
                            assert(st_r == old(self).store.tree_at(
                                old(self).store.commits[steps0[0] as int].tree as int,
                            ));
                            assert forall|p: Seq<u8>|
                                pget(
                                    self.store.tree_at(
                                        self.store.commits[new_tip as int].tree as int,
                                    ),
                                    p,
                                ) == merge_at(
                                    up0,
                                    step_parent_view(old(self).store, steps0[0] as int),
                                    old(self).store.tree_at(
                                        old(self).store.commits[steps0[0] as int].tree as int,
                                    ),
                                    p,
                                ) by {
                                assert(merge_at(up_r, par_r, st_r, p) == pget(up_r, p));
                            }
                            assert forall|p: Seq<u8>|
                                !conflict_at(
                                    up0,
                                    step_parent_view(old(self).store, steps0[0] as int),
                                    old(self).store.tree_at(
                                        old(self).store.commits[steps0[0] as int].tree as int,
                                    ),
                                    p,
                                ) by {
                                assert(!conflict_at(up_r, par_r, st_r, p));
                            }
                        }
                    }
                },
                StepOutcome::Conflicted(entries, partial) => {
                    let mut files: Vec<ConflictFile> = Vec::new();
                    let mut k: usize = 0;
                    while k < entries.len()
                        invariant
                            k <= entries@.len(),
                            files@.len() == k,
                            forall|l: int|
                                0 <= l < k ==> (#[trigger] files@[l]).path@
                                    == entries@[l].path@ && files@[l].is_binary == !is_text_ext(
                                    ext_of(entries@[l].path@),
                                ),
                        decreases entries@.len() - k,
                    {
                        let path = clone_bytes(&entries[k].path);
                        let is_binary = is_binary_path(&path);
                        files.push(ConflictFile { path, is_binary });
                        k = k + 1;
                    }
                    let paused = RebaseSession {
                        branch,
                        original_tip,
                        new_tip,
                        remaining,
                        step: Some(step),
                        conflicts: entries,
                        staged: partial,
                    };
                    self.rebase = Some(paused);
                    proof {
                        let s = self.rebase->0;
                        assert(Repository::session_wf(s, self.store));
                        let stc = s.step->0 as int;
                        let up = self.store.tree_at(
                            self.store.commits[s.new_tip as int].tree as int,
                        );
                        let par = step_parent_view(self.store, stc);
                        let st = self.store.tree_at(self.store.commits[stc].tree as int);
                        assert(forall|k: int|
                            0 <= k < s.conflicts@.len() ==> entry_projects(
                                #[trigger] s.conflicts@[k],
                                up,
                                par,
                                st,
                            ));
                        assert(paused_conflicts_sound(*self));
                        assert(self.wf());
                        assert(steps0.len() > 0);
                        if steps0.len() == 1 {
                            assert(processed == 0);
                            assert(self.store == old(self).store);
                            assert(s.new_tip == start_tip);
                            assert(s.step == Some(steps0[0]));
                        }
                    }
                    return Some(files);
                },
            }
        }
        write_ref(&mut self.branches, &branch, new_tip);
        proof {
            assert(refs_bounded(
                refs_view(self.branches@),
                self.store.commits.len() as int,
            ));
            assert(ref_tip(refs_view(self.branches@), branch@) == Some(new_tip as int));
        }
        self.checkout_commit(new_tip);
        None
    }
}


/// The content a choice selects for the conflicted path itself: this
/// device's content for `Ours`, the remote's for `Theirs` and `CopyBoth`
/// (the original path keeps what upstream expects).
pub open spec fn chosen_view(choice: ResolutionChoice, e: ConflictEntry) -> Option<Seq<u8>> {
    match choice {
        ResolutionChoice::Ours => opt_view(e.ours),
        ResolutionChoice::Theirs => opt_view(e.theirs),
        ResolutionChoice::CopyBoth => opt_view(e.theirs),
    }
}

/// What path `q` holds after the decisions in `items` are applied in
/// order to a snapshot that held `base` at `q`: each decision writes its
/// chosen content at its path, and a copy-both decision additionally
/// writes this device's content at the timestamped sibling path.
pub open spec fn resolved_at(
    items: Seq<ConflictResolutionItem>,
    cs: Seq<ConflictEntry>,
    now: nat,
    q: Seq<u8>,
    base: Option<Seq<u8>>,
) -> Option<Seq<u8>>
    decreases items.len(),
{
    if items.len() == 0 {
        base
    } else {
        let prev = resolved_at(items.drop_last(), cs, now, q, base);
        let it = items.last();
        let e = cs[conflict_index(cs, it.path@)];
        if it.path@ == q {
            chosen_view(it.choice, e)
        } else if it.choice is CopyBoth && sibling_spec(it.path@, now) == q && e.ours is Some {
            opt_view(e.ours)
        } else {
            prev
        }
    }
}

impl Repository {
    /// Apply per-file resolution decisions to the paused rebase step:
    /// write the chosen content into the working tree and stage it, and
    /// for a copy-both decision keep the remote's content at the original
    /// path and this device's content at a timestamped sibling, so neither
    /// version is lost. The caller must invoke `continue_sync` separately;
    /// resolution never resumes the rebase by itself, so decisions can be
    /// spread over several calls.
    pub fn resolve_conflict(
        &mut self,
        items: Vec<ConflictResolutionItem>,
        now: u64,
    ) -> (r: Result<(), SyncError>)
        requires
            old(self).wf(),
            forall|i: int, j: int|
                0 <= i < j < items@.len() ==> (#[trigger] items@[i]).path@ != (
                #[trigger] items@[j]).path@,
        ensures
            final(self).wf(),
            final(self).store == old(self).store,
            final(self).branches == old(self).branches,
            final(self).tracking == old(self).tracking,
            final(self).head == old(self).head,
            final(self).remote_url == old(self).remote_url,
            final(self).lock == old(self).lock,
            final(self).work_branch == old(self).work_branch,
            final(self).identity == old(self).identity,
            final(self).index == old(self).index,
            r is Err ==> *final(self) == *old(self),
            (old(self).rebase is None || old(self).rebase->0.step is None) ==> r == Err::<
                (),
                SyncError,
            >(SyncError::NoRebase),
            r is Ok <==> old(self).rebase is Some && old(self).rebase->0.step is Some && (forall|
                i: int,
            |
                0 <= i < items@.len() ==> has_conflict_path(
                    old(self).rebase->0.conflicts@,
                    (#[trigger] items@[i]).path@,
                )),
            (old(self).rebase is Some && old(self).rebase->0.step is Some && !(forall|i: int|
                0 <= i < items@.len() ==> has_conflict_path(
                    old(self).rebase->0.conflicts@,
                    (#[trigger] items@[i]).path@,
                ))) ==> r == Err::<(), SyncError>(SyncError::UnknownConflictPath),
            r is Ok ==> {
                let s0 = old(self).rebase->0;
                let s1 = final(self).rebase->0;
                &&& final(self).rebase is Some
                &&& s1.branch == s0.branch
                &&& s1.original_tip == s0.original_tip
                &&& s1.new_tip == s0.new_tip
                &&& s1.remaining == s0.remaining
                &&& s1.step == s0.step
                &&& s1.conflicts@.len() == s0.conflicts@.len()
                &&& forall|k: int|
                    0 <= k < s1.conflicts@.len() ==> (#[trigger] s1.conflicts@[k]).path@
                        == s0.conflicts@[k].path@ && entry_sides(s1.conflicts@[k]) == entry_sides(
                        s0.conflicts@[k],
                    )
                &&& forall|k: int|
                    0 <= k < s1.conflicts@.len() ==> ((#[trigger] s1.conflicts@[k]).resolved
                        <==> (s0.conflicts@[k].resolved || exists|i: int|
                        0 <= i < items@.len() && (#[trigger] items@[i]).path@
                            == s0.conflicts@[k].path@))
                &&& forall|q: Seq<u8>|
                    #[trigger] pget(entries_view(s1.staged@), q) == resolved_at(
                        items@,
                        s0.conflicts@,
                        now as nat,
                        q,
                        pget(entries_view(s0.staged@), q),
                    )
                &&& forall|q: Seq<u8>|
                    #[trigger] pget(entries_view(final(self).worktree@), q) == resolved_at(
                        items@,
                        s0.conflicts@,
                        now as nat,
                        q,
                        pget(entries_view(old(self).worktree@), q),
                    )
            },
    {
        // validate first, so a refused call changes nothing
        match &self.rebase {
            None => {
                return Err(SyncError::NoRebase);
            },
            Some(s) => {
                if s.step.is_none() {
                    return Err(SyncError::NoRebase);
                }
                let mut i: usize = 0;
                while i < items.len()
                    invariant
                        i <= items@.len(),
                        self.wf(),
                        self.rebase is Some,
                        s == self.rebase->0,
                        s.step is Some,
                        forall|k: int|
                            0 <= k < i ==> has_conflict_path(
                                s.conflicts@,
                                (#[trigger] items@[k]).path@,
                            ),
                    decreases items@.len() - i,
                {
                    proof {
                        assert(forall|k: int, l: int|
                            0 <= k < l < s.conflicts@.len() ==> (
                            #[trigger] s.conflicts@[k]).path@ != (
                            #[trigger] s.conflicts@[l]).path@);
                    }
                    if find_conflict(&s.conflicts, &items[i].path).is_none() {
                        return Err(SyncError::UnknownConflictPath);
                    }
                    i = i + 1;
                }
            },
        };
        let mut session_opt: Option<RebaseSession> = None;
        core::mem::swap(&mut self.rebase, &mut session_opt);
        let mut session = match session_opt {
            None => {
                proof {
                    assert(false);
                }
                return Err(SyncError::NoRebase);
            },
            Some(s) => s,
        };
        let ghost s0 = old(self).rebase->0;
        let ghost cs0 = s0.conflicts@;
        let ghost staged0 = entries_view(s0.staged@);
        let ghost wt0 = entries_view(old(self).worktree@);
        let mut k: usize = 0;
        while k < items.len()
            invariant
                k <= items@.len(),
                self.rebase is None,
                self.store == old(self).store,
                self.branches == old(self).branches,
                self.tracking == old(self).tracking,
                self.head == old(self).head,
                self.remote_url == old(self).remote_url,
                self.lock == old(self).lock,
                self.work_branch == old(self).work_branch,
                self.identity == old(self).identity,
                self.index == old(self).index,
                old(self).wf(),
                s0 == old(self).rebase->0,
                cs0 == s0.conflicts@,
                staged0 == entries_view(s0.staged@),
                wt0 == entries_view(old(self).worktree@),
                Repository::session_wf(s0, old(self).store),
                s0.step is Some,
                forall|i: int, j: int|
                    0 <= i < j < items@.len() ==> (#[trigger] items@[i]).path@ != (
                    #[trigger] items@[j]).path@,
                forall|i: int|
                    0 <= i < items@.len() ==> has_conflict_path(
                        cs0,
                        (#[trigger] items@[i]).path@,
                    ),
                session.branch == s0.branch,
                session.original_tip == s0.original_tip,
                session.new_tip == s0.new_tip,
                session.remaining == s0.remaining,
                session.step == s0.step,
                session.conflicts@.len() == cs0.len(),
                forall|l: int|
                    0 <= l < cs0.len() ==> (#[trigger] session.conflicts@[l]).path@
                        == cs0[l].path@ && entry_sides(session.conflicts@[l]) == entry_sides(
                        cs0[l],
                    ),
                forall|l: int|
                    0 <= l < cs0.len() ==> ((#[trigger] session.conflicts@[l]).resolved <==> (
                    cs0[l].resolved || exists|i: int|
                        0 <= i < k && (#[trigger] items@[i]).path@ == cs0[l].path@)),
                pairs_unique(entries_view(session.staged@)),
                pairs_unique(entries_view(self.worktree@)),
                forall|q: Seq<u8>|
                    #[trigger] pget(entries_view(session.staged@), q) == resolved_at(
                        items@.take(k as int),
                        cs0,
                        now as nat,
                        q,
                        pget(staged0, q),
                    ),
                forall|q: Seq<u8>|
                    #[trigger] pget(entries_view(self.worktree@), q) == resolved_at(
                        items@.take(k as int),
                        cs0,
                        now as nat,
                        q,
                        pget(wt0, q),
                    ),
            decreases items@.len() - k,
        {
            let ghost pre_staged = entries_view(session.staged@);
            let ghost pre_wt = entries_view(self.worktree@);
            proof {
                assert(forall|a: int, b: int|
                    0 <= a < b < session.conflicts@.len() ==> (
                    #[trigger] session.conflicts@[a]).path@ != (
                    #[trigger] session.conflicts@[b]).path@);
            }
            let j = match find_conflict(&session.conflicts, &items[k].path) {
                Some(j) => j,
                None => {
                    proof {
                        let kk = choose|kk: int|
                            0 <= kk < cs0.len() && (#[trigger] cs0[kk]).path@
                                == items@[k as int].path@;
                        assert(session.conflicts@[kk].path@ == items@[k as int].path@);
                        assert(has_conflict_path(
                            session.conflicts@,
                            items@[k as int].path@,
                        ));
                        assert(false);
                    }
                    return Err(SyncError::UnknownConflictPath);
                },
            };
            let ghost e0 = cs0[conflict_index(cs0, items@[k as int].path@)];
            proof {
                lemma_conflict_index(cs0, j as int);
                assert(conflict_index(cs0, items@[k as int].path@) == j as int);
                assert(entry_sides(session.conflicts@[j as int]) == entry_sides(e0));
            }
            // the content the decision selects for the path itself
            let chosen: Option<Vec<u8>> = match items[k].choice {
                ResolutionChoice::Ours => clone_opt(&session.conflicts[j].ours),
                ResolutionChoice::Theirs => clone_opt(&session.conflicts[j].theirs),
                ResolutionChoice::CopyBoth => clone_opt(&session.conflicts[j].theirs),
            };
            match chosen {
                Some(d) => {
                    let d2 = clone_bytes(&d);
                    set_path(&mut session.staged, &items[k].path, d);
                    set_path(&mut self.worktree, &items[k].path, d2);
                },
                None => {
                    remove_path(&mut session.staged, &items[k].path);
                    remove_path(&mut self.worktree, &items[k].path);
                },
            }
            let ghost mid_staged = entries_view(session.staged@);
            let ghost mid_wt = entries_view(self.worktree@);
            let is_copy_both = match items[k].choice {
                ResolutionChoice::CopyBoth => true,
                _ => false,
            };
            let mut wrote_sibling = false;
            let ghost sib = sibling_spec(items@[k as int].path@, now as nat);
            if is_copy_both {
                match clone_opt(&session.conflicts[j].ours) {
                    Some(d) => {
                        let sib_name = sibling_name(&items[k].path, now);
                        let d2 = clone_bytes(&d);
                        set_path(&mut session.staged, &sib_name, d);
                        set_path(&mut self.worktree, &sib_name, d2);
                        wrote_sibling = true;
                    },
                    None => {},
                }
            }
            // mark the entry resolved, keeping its path and sides
            let mut e = session.conflicts.remove(j);
            e.resolved = true;
            session.conflicts.insert(j, e);
            proof {
                let iv = items@.take(k + 1);
                assert(iv.drop_last() =~= items@.take(k as int));
                assert(iv.last() == items@[k as int]);
                let p = items@[k as int].path@;
                lemma_sibling_longer(p, now as nat);
                // the conflict table keeps its shape
                assert forall|l: int| 0 <= l < cs0.len() implies (
                #[trigger] session.conflicts@[l]).path@ == cs0[l].path@ && entry_sides(
                    session.conflicts@[l],
                ) == entry_sides(cs0[l]) by {}
                assert forall|l: int| 0 <= l < cs0.len() implies ((
                #[trigger] session.conflicts@[l]).resolved <==> (cs0[l].resolved || exists|
                    i: int,
                |
                    0 <= i < k + 1 && (#[trigger] items@[i]).path@ == cs0[l].path@)) by {
                    if l == j {
                        assert(items@[k as int].path@ == cs0[l].path@);
                    } else {
                        if cs0[l].resolved || exists|i: int|
                            0 <= i < k && (#[trigger] items@[i]).path@ == cs0[l].path@ {
                            assert(session.conflicts@[l].resolved);
                        }
                        if exists|i: int|
                            0 <= i < k + 1 && (#[trigger] items@[i]).path@ == cs0[l].path@ {
                            let i = choose|i: int|
                                0 <= i < k + 1 && (#[trigger] items@[i]).path@ == cs0[l].path@;
                            if i == k {
                                assert(cs0[j as int].path@ == cs0[l].path@);
                                assert(false);
                            }
                        }
                    }
                }
                // the staged snapshot and the working tree advance one step
                assert forall|q: Seq<u8>| #[trigger] pget(entries_view(session.staged@), q)
                    == resolved_at(iv, cs0, now as nat, q, pget(staged0, q)) by {
                    if q == p {
                        if wrote_sibling && sib == p {
                            assert(false);
                        }
                        assert(pget(entries_view(session.staged@), q) == pget(mid_staged, q));
                        assert(pget(mid_staged, q) == chosen_view(items@[k as int].choice, e0));
                    } else if q == sib && items@[k as int].choice is CopyBoth && e0.ours
                        is Some {
                        assert(wrote_sibling);
                        assert(pget(entries_view(session.staged@), q) == opt_view(e0.ours));
                    } else {
                        if wrote_sibling {
                            assert(q != sib);
                        }
                        assert(pget(entries_view(session.staged@), q) == pget(mid_staged, q));
                        assert(pget(mid_staged, q) == pget(pre_staged, q));
                    }
                }
                assert forall|q: Seq<u8>| #[trigger] pget(entries_view(self.worktree@), q)
                    == resolved_at(iv, cs0, now as nat, q, pget(wt0, q)) by {
                    if q == p {
                        if wrote_sibling && sib == p {
                            assert(false);
                        }
                        assert(pget(entries_view(self.worktree@), q) == pget(mid_wt, q));
                        assert(pget(mid_wt, q) == chosen_view(items@[k as int].choice, e0));
                    } else if q == sib && items@[k as int].choice is CopyBoth && e0.ours
                        is Some {
                        assert(wrote_sibling);
                        assert(pget(entries_view(self.worktree@), q) == opt_view(e0.ours));
                    } else {
                        if wrote_sibling {
                            assert(q != sib);
                        }
                        assert(pget(entries_view(self.worktree@), q) == pget(mid_wt, q));
                        assert(pget(mid_wt, q) == pget(pre_wt, q));
                    }
                }
            }
            k = k + 1;
        }
        proof {
            assert(items@.take(items@.len() as int) =~= items@);
        }
        self.rebase = Some(session);
        Ok(())
    }
}


impl Repository {
    /// Resume the open rebase from where it paused. A paused step whose
    /// conflicts are all resolved is committed from the staged snapshot;
    /// the remaining steps then replay, possibly pausing again on new
    /// conflicts (one step at a time, across repeated calls). On full
    /// completion the branch reference points at the final replayed tip
    /// and the working tree reflects exactly that snapshot. Unresolved
    /// conflicts are reported again, not treated as an error. Nothing is
    /// pushed: publishing is the next sync's job.
    #[verifier::rlimit(100)]
    #[verifier::spinoff_prover]
    pub fn continue_sync(&mut self, branch: &Vec<u8>) -> (r: Result<SyncResult, SyncError>)
        requires
            old(self).wf(),
        ensures
            final(self).wf(),
            final(self).tracking == old(self).tracking,
            final(self).head == old(self).head,
            final(self).remote_url == old(self).remote_url,
            final(self).lock == old(self).lock,
            final(self).work_branch == old(self).work_branch,
            final(self).identity == old(self).identity,
            old(self).rebase is None ==> r == Err::<SyncResult, SyncError>(SyncError::NoRebase)
                && *final(self) == *old(self),
            (old(self).rebase is Some && old(self).rebase->0.branch@ != branch@) ==> r == Err::<
                SyncResult,
                SyncError,
            >(SyncError::BranchMissing) && *final(self) == *old(self),
            // a matching open session is always resumed, never refused
            (old(self).rebase is Some && old(self).rebase->0.branch@ == branch@) ==> r is Ok,
            r is Ok ==> r->Ok_0.success,
            r is Ok && !r->Ok_0.has_conflict ==> {
                &&& final(self).rebase is None
                &&& ref_tip(refs_view(final(self).branches@), branch@) is Some
                &&& {
                    let tip = ref_tip(refs_view(final(self).branches@), branch@)->0;
                    &&& entries_view(final(self).worktree@) == final(self).store.tree_at(
                        final(self).store.commits[tip].tree as int,
                    ) && entries_view(final(self).index@) == entries_view(
                        final(self).worktree@,
                    )
                    // completion never loses the replayed base: its history
                    // survives as a suffix of the final branch history
                    &&& ObjectStore::hist_suffix(
                        final(self).store.hist(tip),
                        final(self).store.hist(old(self).rebase->0.new_tip as int),
                    )
                }
            },
            // when every conflict of the paused step is resolved and it was
            // the last step, the finished branch records exactly the staged
            // snapshot as a commit on top of the replayed base, carrying the
            // paused step's author, message and time
            (old(self).rebase is Some && old(self).rebase->0.branch@ == branch@ && old(self).rebase->0.step is Some && old(self).rebase->0.remaining@.len() == 0 && (forall|k: int|
                0 <= k < old(self).rebase->0.conflicts@.len() ==> (#[trigger] old(self).rebase->0.conflicts@[k]).resolved)) ==> {
                let s0 = old(self).rebase->0;
                let tip = ref_tip(refs_view(final(self).branches@), branch@)->0;
                &&& r is Ok
                &&& !r->Ok_0.has_conflict
                &&& final(self).store.tree_at(final(self).store.commits[tip].tree as int)
                    == entries_view(s0.staged@)
                &&& final(self).store.commits[tip].parent == Some(s0.new_tip)
                &&& final(self).store.commits[tip].author@ == old(self).store.commits[s0.step->0 as int].author@
                &&& final(self).store.commits[tip].message@ == old(self).store.commits[s0.step->0 as int].message@
                &&& final(self).store.commits[tip].time == old(self).store.commits[s0.step->0 as int].time
            },
            // a conflicted resumption reports exactly the still-unresolved
            // conflicts of the (still open) session
            r is Ok && r->Ok_0.has_conflict ==> {
                let s = final(self).rebase->0;
                &&& final(self).rebase is Some
                &&& s.step is Some
                &&& s.original_tip == old(self).rebase->0.original_tip
                &&& r->Ok_0.conflicts is Some
                &&& r->Ok_0.conflicts->0@.len() >= 1
                &&& files_match_unresolved(r->Ok_0.conflicts->0@, s.conflicts@)
            },
    {
        let mut session_opt: Option<RebaseSession> = None;
        core::mem::swap(&mut self.rebase, &mut session_opt);
        let mut session = match session_opt {
            None => {
                return Err(SyncError::NoRebase);
            },
            Some(s) => s,
        };
        if !bytes_eq(&session.branch, branch) {
            self.rebase = Some(session);
            proof {
                assert(*self == *old(self));
            }
            return Err(SyncError::BranchMissing);
        }
        let paused_step = session.step;
        if let Some(stc) = paused_step {
            // the paused step may only proceed once every conflict is
            // resolved; otherwise report what is still open
            let mut unresolved: Vec<ConflictFile> = Vec::new();
            let ghost mut src_idx: Seq<int> = Seq::empty();
            let mut k: usize = 0;
            while k < session.conflicts.len()
                invariant
                    k <= session.conflicts@.len(),
                    unresolved@.len() <= k,
                    src_idx.len() == unresolved@.len(),
                    forall|l: int|
                        0 <= l < k && !(#[trigger] session.conflicts@[l]).resolved ==> exists|
                            m: int,
                        |
                            0 <= m < unresolved@.len() && (#[trigger] unresolved@[m]).path@
                                == session.conflicts@[l].path@,
                    forall|m: int|
                        0 <= m < src_idx.len() ==> 0 <= #[trigger] src_idx[m]
                            < session.conflicts@.len() && !session.conflicts@[src_idx[m]].resolved
                            && unresolved@[m].path@ == session.conflicts@[src_idx[m]].path@
                            && unresolved@[m].is_binary == !is_text_ext(
                            ext_of(session.conflicts@[src_idx[m]].path@),
                        ),
                decreases session.conflicts@.len() - k,
            {
                if !session.conflicts[k].resolved {
                    let ghost pre_un = unresolved@;
                    let path = clone_bytes(&session.conflicts[k].path);
                    let is_binary = is_binary_path(&path);
                    unresolved.push(ConflictFile { path, is_binary });
                    proof {
                        assert(unresolved@[pre_un.len() as int].path@
                            == session.conflicts@[k as int].path@);
                        assert forall|l: int|
                            0 <= l < k + 1 && !(#[trigger] session.conflicts@[l]).resolved
                                implies exists|m: int|
                            0 <= m < unresolved@.len() && (#[trigger] unresolved@[m]).path@
                                == session.conflicts@[l].path@ by {
                            if l < k {
                                let m = choose|m: int|
                                    0 <= m < pre_un.len() && (#[trigger] pre_un[m]).path@
                                        == session.conflicts@[l].path@;
                                assert(unresolved@[m].path@ == session.conflicts@[l].path@);
                            } else {
                                assert(unresolved@[pre_un.len() as int].path@
                                    == session.conflicts@[l].path@);
                            }
                        }
                        src_idx = src_idx.push(k as int);
                        assert forall|m: int| 0 <= m < src_idx.len() implies 0 <= (
                        #[trigger] src_idx[m]) < session.conflicts@.len()
                            && !session.conflicts@[src_idx[m]].resolved && unresolved@[m].path@
                            == session.conflicts@[src_idx[m]].path@ && unresolved@[m].is_binary
                            == !is_text_ext(ext_of(session.conflicts@[src_idx[m]].path@)) by {
                            if m < pre_un.len() {
                                assert(unresolved@[m] == pre_un[m]);
                            } else {
                                assert(src_idx[m] == k as int);
                                assert(unresolved@[m].path@
                                    == session.conflicts@[k as int].path@);
                            }
                        }
                    }
                }
                k = k + 1;
            }
            if unresolved.len() > 0 {
                let ghost orig = session.original_tip;
                self.rebase = Some(session);
                proof {
                    assert(self.rebase->0.original_tip == orig);
                    let s = self.rebase->0;
                    assert(files_match_unresolved(unresolved@, s.conflicts@)) by {
                        assert forall|l: int|
                            0 <= l < unresolved@.len() implies file_names_unresolved(
                            #[trigger] unresolved@[l],
                            s.conflicts@,
                        ) by {
                            let kk = src_idx[l];
                            assert(0 <= kk < s.conflicts@.len() && !(
                            #[trigger] s.conflicts@[kk]).resolved && unresolved@[l].path@
                                == s.conflicts@[kk].path@ && unresolved@[l].is_binary
                                == !is_text_ext(ext_of(s.conflicts@[kk].path@)));
                        }
                        assert forall|kk: int|
                            0 <= kk < s.conflicts@.len() && !(
                            #[trigger] s.conflicts@[kk]).resolved implies entry_reported(
                            s.conflicts@[kk],
                            unresolved@,
                        ) by {
                            let m = choose|m: int|
                                0 <= m < unresolved@.len() && (#[trigger] unresolved@[m]).path@
                                    == s.conflicts@[kk].path@;
                            assert(unresolved@[m].path@ == s.conflicts@[kk].path@);
                        }
                    }
                    // at least one conflict is unresolved, so the premise of
                    // the exact-completion clause cannot hold here
                    let kk0 = src_idx[0];
                    assert(!s.conflicts@[kk0].resolved);
                }
                return Ok(
                    SyncResult {
                        success: true,
                        has_conflict: true,
                        conflicts: Some(unresolved),
                    },
                );
            }
            // commit the staged merge as the replayed step
            let entries = clone_entries(&session.staged);
            let tid = self.store.intern_tree(entries);
            let author = clone_bytes(&self.store.commits[stc].author);
            let message = clone_bytes(&self.store.commits[stc].message);
            let time = self.store.commits[stc].time;
            let cid = self.store.intern_commit(
                tid,
                Some(session.new_tip),
                author,
                message,
                time,
            );
            proof {
                // the committed step records exactly the staged snapshot,
                // on top of the replayed base, under the step's own metadata
                assert(self.store.tree_at(self.store.commits[cid as int].tree as int)
                    == entries_view(old(self).rebase->0.staged@));
                assert(self.store.commits[cid as int].parent == Some(
                    old(self).rebase->0.new_tip,
                ));
                assert(self.store.commits[cid as int].author@
                    == old(self).store.commits[stc as int].author@);
                assert(self.store.commits[cid as int].message@
                    == old(self).store.commits[stc as int].message@);
                assert(self.store.commits[cid as int].time
                    == old(self).store.commits[stc as int].time);
            }
            session.new_tip = cid;
            session.step = None;
            session.conflicts = Vec::new();
            session.staged = Vec::new();
            proof {
                assert(refs_bounded(
                    refs_view(self.branches@),
                    self.store.commits.len() as int,
                ));
                assert(refs_bounded(
                    refs_view(self.tracking@),
                    self.store.commits.len() as int,
                ));
            }
        }
        let RebaseSession {
            branch: session_branch,
            original_tip,
            new_tip,
            remaining,
            step: _,
            conflicts: _,
            staged: _,
        } = session;
        let ghost pre_advance = *self;
        match self.advance_rebase(session_branch, original_tip, new_tip, remaining) {
            None => {
                proof {
                    let s0 = old(self).rebase->0;
                    if s0.step is Some && (forall|k: int|
                        0 <= k < s0.conflicts@.len() ==> (
                        #[trigger] s0.conflicts@[k]).resolved) && s0.remaining@.len() == 0 {
                        let tip = ref_tip(refs_view(self.branches@), branch@)->0;
                        assert(tip == new_tip as int);
                        assert(self.store.commits@[new_tip as int]
                            == pre_advance.store.commits@[new_tip as int]);
                        assert(self.store.tree_at(
                            self.store.commits[new_tip as int].tree as int,
                        ) == pre_advance.store.tree_at(
                            pre_advance.store.commits[new_tip as int].tree as int,
                        ));
                    }
                    // the resumed base's history survives into the final tip
                    ObjectStore::lemma_hist_stable(
                        pre_advance.store,
                        self.store,
                        new_tip as int,
                    );
                    if old(self).rebase->0.step is Some {
                        let base0 = old(self).rebase->0.new_tip as int;
                        assert(self.store.commits@[base0] == pre_advance.store.commits@[base0]);
                        assert(pre_advance.store.hist(new_tip as int) == seq![
                            pre_advance.store.commit_data(new_tip as int),
                        ] + pre_advance.store.hist(base0)) by {
                            assert(pre_advance.store.commits[new_tip as int].parent == Some(
                                old(self).rebase->0.new_tip,
                            ));
                        }
                        assert(pre_advance.store.hist(new_tip as int).skip(1)
                            =~= pre_advance.store.hist(base0));
                        ObjectStore::lemma_hist_stable(pre_advance.store, self.store, base0);
                        let tip = ref_tip(refs_view(self.branches@), branch@)->0;
                        ObjectStore::lemma_hist_suffix_trans(
                            self.store.hist(tip),
                            self.store.hist(new_tip as int),
                            self.store.hist(base0),
                        );
                    }
                }
                Ok(SyncResult { success: true, has_conflict: false, conflicts: None })
            },
            Some(files) => {
                proof {
                    assert(paused_conflicts_sound(*self));
                    assert(files@.len() >= 1);
                    let s = self.rebase->0;
                    assert(files_match_unresolved(files@, s.conflicts@)) by {
                        assert forall|l: int| 0 <= l < files@.len() implies file_names_unresolved(
                            #[trigger] files@[l],
                            s.conflicts@,
                        ) by {
                            assert(0 <= l < s.conflicts@.len() && !(
                            #[trigger] s.conflicts@[l]).resolved && files@[l].path@
                                == s.conflicts@[l].path@ && files@[l].is_binary == !is_text_ext(
                                ext_of(s.conflicts@[l].path@),
                            ));
                        }
                        assert forall|k: int|
                            0 <= k < s.conflicts@.len() && !(
                            #[trigger] s.conflicts@[k]).resolved implies entry_reported(
                            s.conflicts@[k],
                            files@,
                        ) by {
                            assert((#[trigger] files@[k]).path@ == s.conflicts@[k].path@);
                        }
                    }
                }
                Ok(SyncResult { success: true, has_conflict: true, conflicts: Some(files) })
            },
        }
    }
}


} // verus!
