//! The content-addressed object store: trees (snapshots of the vault's
//! files) and commits (immutable history nodes), each identified by an
//! index into an interning table.
//!
//! Identity is content-derived: interning an object whose content is
//! already present returns the existing identifier and leaves the store
//! unchanged, so equal snapshots always share one tree and equal commits
//! share one commit. File contents are held inline in tree entries; a
//! separate blob table would only re-intern the same byte strings.

use vstd::prelude::*;

use crate::bytes::bytes_eq;

verus! {

/// One file of a snapshot: a vault-relative path and the file's bytes.
pub struct TreeEntry {
    pub path: Vec<u8>,
    pub data: Vec<u8>,
}

/// A whole-vault snapshot: the files, with no duplicate paths.
pub struct Tree {
    pub entries: Vec<TreeEntry>,
}

/// An immutable history node. `parent` is `None` only for a root commit;
/// the engine never creates merge nodes, so one parent suffices.
pub struct CommitNode {
    pub tree: usize,
    pub parent: Option<usize>,
    pub author: Vec<u8>,
    pub message: Vec<u8>,
    pub time: u64,
}

/// The interning tables for trees and commits.
pub struct ObjectStore {
    pub trees: Vec<Tree>,
    pub commits: Vec<CommitNode>,
}

/// The mathematical content of a sequence of tree entries: (path, data)
/// pairs, in order.
pub type PairsV = Seq<(Seq<u8>, Seq<u8>)>;

pub open spec fn entry_view(e: TreeEntry) -> (Seq<u8>, Seq<u8>) {
    (e.path@, e.data@)
}

pub open spec fn entries_view(s: Seq<TreeEntry>) -> PairsV {
    s.map(|i: int, e: TreeEntry| entry_view(e))
}

/// No two pairs share a path.
pub open spec fn pairs_unique(s: PairsV) -> bool {
    forall|i: int, j: int| 0 <= i < j < s.len() ==> (#[trigger] s[i]).0 != (#[trigger] s[j]).0
}

pub open spec fn pairs_has(s: PairsV, p: Seq<u8>) -> bool {
    exists|i: int| 0 <= i < s.len() && (#[trigger] s[i]).0 == p
}

pub open spec fn pairs_get(s: PairsV, p: Seq<u8>) -> Seq<u8> {
    s[choose|i: int| 0 <= i < s.len() && (#[trigger] s[i]).0 == p].1
}

/// The pairs as a map from path to content.
pub open spec fn pairs_map(s: PairsV) -> Map<Seq<u8>, Seq<u8>> {
    Map::new(|p: Seq<u8>| pairs_has(s, p), |p: Seq<u8>| pairs_get(s, p))
}

/// With unique paths, the entry at any index is the one a lookup finds.
pub proof fn lemma_pairs_get_index(s: PairsV, i: int)
    requires
        pairs_unique(s),
        0 <= i < s.len(),
    ensures
        pairs_has(s, s[i].0),
        pairs_get(s, s[i].0) == s[i].1,
{
    let p = s[i].0;
    assert(pairs_has(s, p));
    let k = choose|k: int| 0 <= k < s.len() && (#[trigger] s[k]).0 == p;
    if k != i {
        if k < i {
            assert(s[k].0 != s[i].0);
        } else {
            assert(s[i].0 != s[k].0);
        }
    }
}

/// Find the first entry with the given path.
pub fn lookup(entries: &Vec<TreeEntry>, path: &Vec<u8>) -> (r: Option<usize>)
    ensures
        match r {
            Some(i) => i < entries@.len() && entries@[i as int].path@ == path@,
            None => !pairs_has(entries_view(entries@), path@),
        },
{
    let mut i: usize = 0;
    while i < entries.len()
        invariant
            i <= entries@.len(),
            forall|k: int| 0 <= k < i ==> (#[trigger] entries@[k]).path@ != path@,
        decreases entries@.len() - i,
    {
        if bytes_eq(&entries[i].path, path) {
            return Some(i);
        }
        i = i + 1;
    }
    proof {
        assert forall|k: int| 0 <= k < entries_view(entries@).len() implies (
        #[trigger] entries_view(entries@)[k]).0 != path@ by {
            assert(entries@[k].path@ != path@);
        }
    }
    None
}

/// Copy a byte vector.
pub fn clone_bytes(a: &Vec<u8>) -> (r: Vec<u8>)
    ensures
        r@ == a@,
{
    let mut r: Vec<u8> = Vec::new();
    let mut i: usize = 0;
    while i < a.len()
        invariant
            i <= a@.len(),
            r@ == a@.take(i as int),
        decreases a@.len() - i,
    {
        r.push(a[i]);
        proof {
            assert(a@.take(i + 1) =~= a@.take(i as int).push(a@[i as int]));
        }
        i = i + 1;
    }
    proof {
        assert(a@.take(a@.len() as int) =~= a@);
    }
    r
}

/// Copy a sequence of tree entries, preserving its content view.
pub fn clone_entries(a: &Vec<TreeEntry>) -> (r: Vec<TreeEntry>)
    ensures
        entries_view(r@) == entries_view(a@),
{
    let mut r: Vec<TreeEntry> = Vec::new();
    let mut i: usize = 0;
    while i < a.len()
        invariant
            i <= a@.len(),
            r@.len() == i,
            forall|k: int| 0 <= k < i ==> entry_view(#[trigger] r@[k]) == entry_view(a@[k]),
        decreases a@.len() - i,
    {
        let e = TreeEntry { path: clone_bytes(&a[i].path), data: clone_bytes(&a[i].data) };
        r.push(e);
        i = i + 1;
    }
    proof {
        assert(entries_view(r@) =~= entries_view(a@));
    }
    r
}

/// True iff the two entry sequences hold the same pairs in the same order.
pub fn entries_seq_eq(a: &Vec<TreeEntry>, b: &Vec<TreeEntry>) -> (r: bool)
    ensures
        r <==> entries_view(a@) == entries_view(b@),
{
    if a.len() != b.len() {
        proof {
            assert(entries_view(a@).len() != entries_view(b@).len());
        }
        return false;
    }
    let mut i: usize = 0;
    while i < a.len()
        invariant
            i <= a@.len(),
            a@.len() == b@.len(),
            forall|k: int| 0 <= k < i ==> entry_view(#[trigger] a@[k]) == entry_view(b@[k]),
        decreases a@.len() - i,
    {
        if !bytes_eq(&a[i].path, &b[i].path) {
            proof {
                assert(entries_view(a@)[i as int] != entries_view(b@)[i as int]);
            }
            return false;
        }
        if !bytes_eq(&a[i].data, &b[i].data) {
            proof {
                assert(entries_view(a@)[i as int] != entries_view(b@)[i as int]);
            }
            return false;
        }
        i = i + 1;
    }
    proof {
        assert(entries_view(a@) =~= entries_view(b@));
    }
    true
}

/// True iff the two entry sequences describe the same path-to-content map.
/// Order may differ; paths must be unique on both sides.
pub fn entries_map_eq(a: &Vec<TreeEntry>, b: &Vec<TreeEntry>) -> (r: bool)
    requires
        pairs_unique(entries_view(a@)),
        pairs_unique(entries_view(b@)),
    ensures
        r <==> pairs_map(entries_view(a@)) == pairs_map(entries_view(b@)),
{
    let ghost av = entries_view(a@);
    let ghost bv = entries_view(b@);
    let mut i: usize = 0;
    while i < a.len()
        invariant
            i <= a@.len(),
            av == entries_view(a@),
            bv == entries_view(b@),
            pairs_unique(av),
            pairs_unique(bv),
            forall|k: int|
                0 <= k < i ==> pairs_has(bv, (#[trigger] av[k]).0) && pairs_get(bv, av[k].0)
                    == av[k].1,
        decreases a@.len() - i,
    {
        match lookup(b, &a[i].path) {
            Some(j) => {
                if !bytes_eq(&b[j].data, &a[i].data) {
                    proof {
                        lemma_pairs_get_index(av, i as int);
                        lemma_pairs_get_index(bv, j as int);
                        assert(pairs_map(av)[av[i as int].0] == av[i as int].1);
                        assert(pairs_map(bv)[av[i as int].0] == bv[j as int].1);
                    }
                    return false;
                }
                proof {
                    lemma_pairs_get_index(bv, j as int);
                    assert(av[i as int].0 == bv[j as int].0);
                }
            },
            None => {
                proof {
                    lemma_pairs_get_index(av, i as int);
                    assert(pairs_map(av).contains_key(av[i as int].0));
                    assert(!pairs_map(bv).contains_key(av[i as int].0));
                }
                return false;
            },
        }
        i = i + 1;
    }
    let mut j: usize = 0;
    while j < b.len()
        invariant
            j <= b@.len(),
            av == entries_view(a@),
            bv == entries_view(b@),
            pairs_unique(av),
            pairs_unique(bv),
            forall|k: int|
                0 <= k < av.len() ==> pairs_has(bv, (#[trigger] av[k]).0) && pairs_get(
                    bv,
                    av[k].0,
                ) == av[k].1,
            forall|k: int| 0 <= k < j ==> pairs_has(av, (#[trigger] bv[k]).0),
        decreases b@.len() - j,
    {
        match lookup(a, &b[j].path) {
            Some(i) => {
                proof {
                    assert(av[i as int].0 == bv[j as int].0);
                    assert(pairs_has(av, bv[j as int].0));
                }
            },
            None => {
                proof {
                    lemma_pairs_get_index(bv, j as int);
                    assert(pairs_map(bv).contains_key(bv[j as int].0));
                    assert(!pairs_map(av).contains_key(bv[j as int].0));
                }
                return false;
            },
        }
        j = j + 1;
    }
    proof {
        assert forall|p: Seq<u8>| pairs_has(av, p) implies pairs_has(bv, p) && pairs_get(bv, p)
            == pairs_get(av, p) by {
            let k = choose|k: int| 0 <= k < av.len() && (#[trigger] av[k]).0 == p;
            lemma_pairs_get_index(av, k);
        }
        assert forall|p: Seq<u8>| pairs_has(bv, p) implies pairs_has(av, p) by {
            let k = choose|k: int| 0 <= k < bv.len() && (#[trigger] bv[k]).0 == p;
        }
        assert(pairs_map(av) =~= pairs_map(bv));
    }
    true
}

/// The mathematical content of one commit node: parent is carried as an
/// index because identity is per-store.
pub open spec fn commit_view(c: CommitNode) -> (int, Option<int>, Seq<u8>, Seq<u8>, u64) {
    (
        c.tree as int,
        match c.parent {
            Some(p) => Some(p as int),
            None => None,
        },
        c.author@,
        c.message@,
        c.time,
    )
}

impl ObjectStore {
    /// The content of tree `t`.
    pub open spec fn tree_at(self, t: int) -> PairsV
        recommends
            0 <= t < self.trees.len(),
    {
        entries_view(self.trees[t].entries@)
    }

    /// Well-formed: tree contents are distinct with unique paths; commit
    /// contents are distinct, reference existing trees, and parents point
    /// strictly backwards, so history is acyclic.
    pub open spec fn wf(self) -> bool {
        &&& forall|t: int|
            0 <= t < self.trees.len() ==> pairs_unique(#[trigger] self.tree_at(t))
        &&& forall|i: int, j: int|
            0 <= i < j < self.trees.len() ==> self.tree_at(i) != self.tree_at(j)
        &&& forall|c: int|
            0 <= c < self.commits.len() ==> (#[trigger] self.commits[c].tree) < self.trees.len()
        &&& forall|c: int|
            0 <= c < self.commits.len() ==> ((#[trigger] self.commits[c].parent) is Some
                ==> self.commits[c].parent->0 < c)
        &&& forall|i: int, j: int|
            0 <= i < j < self.commits.len() ==> commit_view(self.commits[i]) != commit_view(
                self.commits[j],
            )
    }

    pub open spec fn has_tree(self, v: PairsV) -> bool {
        exists|t: int| 0 <= t < self.trees.len() && #[trigger] self.tree_at(t) == v
    }

    pub open spec fn has_commit(self, v: (int, Option<int>, Seq<u8>, Seq<u8>, u64)) -> bool {
        exists|c: int|
            0 <= c < self.commits.len() && #[trigger] commit_view(self.commits[c]) == v
    }

    /// An empty store.
    pub fn new_store() -> (r: ObjectStore)
        ensures
            r.wf(),
            r.trees@.len() == 0,
            r.commits@.len() == 0,
    {
        ObjectStore { trees: Vec::new(), commits: Vec::new() }
    }

    /// Intern a snapshot: return the identifier of the tree with exactly
    /// this content, adding it only if it is new. The store grows by at
    /// most this one tree and existing objects are untouched.
    pub fn intern_tree(&mut self, entries: Vec<TreeEntry>) -> (id: usize)
        requires
            old(self).wf(),
            pairs_unique(entries_view(entries@)),
        ensures
            final(self).wf(),
            final(self).commits == old(self).commits,
            id < final(self).trees.len(),
            final(self).tree_at(id as int) == entries_view(entries@),
            old(self).has_tree(entries_view(entries@)) ==> final(self).trees == old(self).trees,
            !old(self).has_tree(entries_view(entries@)) ==> final(self).trees@.len() == old(
                self,
            ).trees@.len() + 1,
            forall|t: int|
                0 <= t < old(self).trees.len() ==> #[trigger] final(self).tree_at(t) == old(
                    self,
                ).tree_at(t) && final(self).trees@[t] == old(self).trees@[t],
    {
        let ghost v = entries_view(entries@);
        let mut t: usize = 0;
        while t < self.trees.len()
            invariant
                t <= self.trees@.len(),
                self.wf(),
                v == entries_view(entries@),
                forall|k: int| 0 <= k < t ==> #[trigger] self.tree_at(k) != v,
            decreases self.trees@.len() - t,
        {
            if entries_seq_eq(&self.trees[t].entries, &entries) {
                proof {
                    assert(self.tree_at(t as int) == v);
                    assert(self.has_tree(v));
                }
                return t;
            }
            t = t + 1;
        }
        let ghost pre = *self;
        self.trees.push(Tree { entries });
        proof {
            assert(self.tree_at(pre.trees@.len() as int) == v);
            assert forall|i: int| 0 <= i < pre.trees.len() implies #[trigger] self.tree_at(i)
                == pre.tree_at(i) by {
                assert(self.trees@[i] == pre.trees@[i]);
            }
            assert(self.wf());
        }
        self.trees.len() - 1
    }

    /// Intern a commit node with the given content, adding it only if no
    /// node with exactly this content exists. Existing objects are
    /// untouched, so all chains through them are stable.
    pub fn intern_commit(
        &mut self,
        tree: usize,
        parent: Option<usize>,
        author: Vec<u8>,
        message: Vec<u8>,
        time: u64,
    ) -> (id: usize)
        requires
            old(self).wf(),
            tree < old(self).trees.len(),
            parent is Some ==> parent->0 < old(self).commits.len(),
        ensures
            final(self).wf(),
            final(self).trees == old(self).trees,
            id < final(self).commits.len(),
            commit_view(final(self).commits@[id as int]) == (
                tree as int,
                match parent {
                    Some(p) => Some(p as int),
                    None => None::<int>,
                },
                author@,
                message@,
                time,
            ),
            old(self).has_commit(
                (
                    tree as int,
                    match parent {
                        Some(p) => Some(p as int),
                        None => None::<int>,
                    },
                    author@,
                    message@,
                    time,
                ),
            ) ==> final(self).commits == old(self).commits,
            !old(self).has_commit(
                (
                    tree as int,
                    match parent {
                        Some(p) => Some(p as int),
                        None => None::<int>,
                    },
                    author@,
                    message@,
                    time,
                ),
            ) ==> final(self).commits@.len() == old(self).commits@.len() + 1,
            forall|c: int|
                0 <= c < old(self).commits.len() ==> #[trigger] final(self).commits@[c] == old(
                    self,
                ).commits@[c],
    {
        let ghost v = (
            tree as int,
            match parent {
                Some(p) => Some(p as int),
                None => None::<int>,
            },
            author@,
            message@,
            time,
        );
        let mut c: usize = 0;
        while c < self.commits.len()
            invariant
                c <= self.commits@.len(),
                self.wf(),
                v == (
                    tree as int,
                    match parent {
                        Some(p) => Some(p as int),
                        None => None::<int>,
                    },
                    author@,
                    message@,
                    time,
                ),
                forall|k: int| 0 <= k < c ==> #[trigger] commit_view(self.commits@[k]) != v,
            decreases self.commits@.len() - c,
        {
            let node = &self.commits[c];
            let same_parent = match (node.parent, parent) {
                (Some(a), Some(b)) => a == b,
                (None, None) => true,
                _ => false,
            };
            if node.tree == tree && same_parent && node.time == time && bytes_eq(
                &node.author,
                &author,
            ) && bytes_eq(&node.message, &message) {
                return c;
            }
            c = c + 1;
        }
        let ghost pre = *self;
        self.commits.push(CommitNode { tree, parent, author, message, time });
        proof {
            let n = pre.commits@.len() as int;
            assert(commit_view(self.commits@[n]) == v);
            assert forall|i: int| 0 <= i < n implies #[trigger] self.commits@[i]
                == pre.commits@[i] by {}
            assert forall|t: int| 0 <= t < self.trees.len() implies #[trigger] self.tree_at(t)
                == pre.tree_at(t) by {}
            assert forall|i: int, j: int| 0 <= i < j < self.commits.len() implies commit_view(
                self.commits[i],
            ) != commit_view(self.commits[j]) by {
                if j < n {
                    assert(commit_view(pre.commits[i]) != commit_view(pre.commits[j]));
                } else {
                    assert(commit_view(self.commits@[i]) == commit_view(pre.commits@[i]));
                    assert(commit_view(pre.commits@[i]) != v);
                }
            }
            assert(self.wf());
        }
        self.commits.len() - 1
    }
}

/// The content at `p`, if the entries hold the path.
pub open spec fn pget(s: PairsV, p: Seq<u8>) -> Option<Seq<u8>> {
    if pairs_has(s, p) {
        Some(pairs_get(s, p))
    } else {
        None
    }
}

/// Look up the content at `path`, as an owned value.
pub fn get_path(entries: &Vec<TreeEntry>, path: &Vec<u8>) -> (r: Option<Vec<u8>>)
    requires
        pairs_unique(entries_view(entries@)),
    ensures
        match r {
            Some(d) => pget(entries_view(entries@), path@) == Some(d@),
            None => pget(entries_view(entries@), path@) is None,
        },
{
    match lookup(entries, path) {
        Some(i) => {
            proof {
                lemma_pairs_get_index(entries_view(entries@), i as int);
            }
            Some(clone_bytes(&entries[i].data))
        },
        None => None,
    }
}

/// Write `data` at `path`, replacing an existing entry or appending a new
/// one. No other path changes.
pub fn set_path(entries: &mut Vec<TreeEntry>, path: &Vec<u8>, data: Vec<u8>)
    requires
        pairs_unique(entries_view(old(entries)@)),
    ensures
        pairs_unique(entries_view(final(entries)@)),
        pget(entries_view(final(entries)@), path@) == Some(data@),
        forall|q: Seq<u8>|
            q != path@ ==> #[trigger] pget(entries_view(final(entries)@), q) == pget(
                entries_view(old(entries)@),
                q,
            ),
{
    let ghost pre = entries@;
    let found = lookup(entries, path);
    match found {
        Some(i) => {
            let mut e = entries.remove(i);
            e.data = data;
            entries.insert(i, e);
            proof {
                let oldv = entries_view(pre);
                let newv = entries_view(entries@);
                assert(entries@.len() == pre.len());
                assert forall|k: int| 0 <= k < pre.len() && k != i implies newv[k] == oldv[k] by {
                    assert(entries@[k] == pre[k]);
                }
                assert(newv[i as int].0 == oldv[i as int].0);
                assert(newv[i as int].1 == data@);
                assert(pairs_unique(newv));
                lemma_pairs_get_index(newv, i as int);
                assert forall|q: Seq<u8>| q != path@ implies #[trigger] pget(newv, q) == pget(
                    oldv,
                    q,
                ) by {
                    if pairs_has(oldv, q) {
                        let k = choose|k: int| 0 <= k < oldv.len() && (#[trigger] oldv[k]).0 == q;
                        assert(k != i);
                        assert(newv[k] == oldv[k]);
                        lemma_pairs_get_index(newv, k);
                        lemma_pairs_get_index(oldv, k);
                    } else {
                        if pairs_has(newv, q) {
                            let k = choose|k: int|
                                0 <= k < newv.len() && (#[trigger] newv[k]).0 == q;
                            assert(k != i);
                            assert(oldv[k] == newv[k]);
                        }
                    }
                }
            }
        },
        None => {
            let e = TreeEntry { path: clone_bytes(path), data };
            entries.push(e);
            proof {
                let oldv = entries_view(pre);
                let newv = entries_view(entries@);
                assert(entries@.len() == pre.len() + 1);
                assert forall|k: int| 0 <= k < pre.len() implies newv[k] == oldv[k] by {
                    assert(entries@[k] == pre[k]);
                }
                assert(newv[pre.len() as int].0 == path@);
                assert(newv[pre.len() as int].1 == data@);
                assert forall|i: int, j: int| 0 <= i < j < newv.len() implies (
                #[trigger] newv[i]).0 != (#[trigger] newv[j]).0 by {
                    if j < pre.len() {
                        assert(oldv[i].0 != oldv[j].0);
                    } else {
                        assert(!pairs_has(oldv, path@));
                        assert(oldv[i].0 != path@);
                    }
                }
                lemma_pairs_get_index(newv, pre.len() as int);
                assert forall|q: Seq<u8>| q != path@ implies #[trigger] pget(newv, q) == pget(
                    oldv,
                    q,
                ) by {
                    if pairs_has(oldv, q) {
                        let k = choose|k: int| 0 <= k < oldv.len() && (#[trigger] oldv[k]).0 == q;
                        lemma_pairs_get_index(newv, k);
                        lemma_pairs_get_index(oldv, k);
                    } else {
                        if pairs_has(newv, q) {
                            let k = choose|k: int|
                                0 <= k < newv.len() && (#[trigger] newv[k]).0 == q;
                            assert(k == pre.len());
                        }
                    }
                }
            }
        },
    }
}

/// Drop the entry at `path`, if present. No other path changes.
pub fn remove_path(entries: &mut Vec<TreeEntry>, path: &Vec<u8>)
    requires
        pairs_unique(entries_view(old(entries)@)),
    ensures
        pairs_unique(entries_view(final(entries)@)),
        pget(entries_view(final(entries)@), path@) is None,
        forall|q: Seq<u8>|
            q != path@ ==> #[trigger] pget(entries_view(final(entries)@), q) == pget(
                entries_view(old(entries)@),
                q,
            ),
{
    let ghost pre = entries@;
    let found = lookup(entries, path);
    match found {
        Some(i) => {
            entries.remove(i);
            proof {
                let oldv = entries_view(pre);
                let newv = entries_view(entries@);
                assert(entries@.len() == pre.len() - 1);
                assert forall|k: int| 0 <= k < newv.len() implies newv[k] == (if k < i {
                    oldv[k]
                } else {
                    oldv[k + 1]
                }) by {
                    assert(entries@[k] == if k < i {
                        pre[k]
                    } else {
                        pre[k + 1]
                    });
                }
                assert forall|a: int, b: int| 0 <= a < b < newv.len() implies (
                #[trigger] newv[a]).0 != (#[trigger] newv[b]).0 by {}
                if pairs_has(newv, path@) {
                    let k = choose|k: int| 0 <= k < newv.len() && (#[trigger] newv[k]).0 == path@;
                    if k < i {
                        assert(oldv[k].0 == path@);
                        assert(oldv[i as int].0 == path@);
                        assert(false);
                    } else {
                        assert(oldv[k + 1].0 == path@);
                        assert(oldv[i as int].0 == path@);
                        assert(false);
                    }
                }
                assert forall|q: Seq<u8>| q != path@ implies #[trigger] pget(newv, q) == pget(
                    oldv,
                    q,
                ) by {
                    if pairs_has(oldv, q) {
                        let k = choose|k: int| 0 <= k < oldv.len() && (#[trigger] oldv[k]).0 == q;
                        assert(k != i);
                        if k < i {
                            assert(newv[k] == oldv[k]);
                            lemma_pairs_get_index(newv, k);
                        } else {
                            assert(newv[k - 1] == oldv[k]);
                            lemma_pairs_get_index(newv, k - 1);
                        }
                        lemma_pairs_get_index(oldv, k);
                    } else {
                        if pairs_has(newv, q) {
                            let k = choose|k: int|
                                0 <= k < newv.len() && (#[trigger] newv[k]).0 == q;
                            if k < i {
                                assert(oldv[k].0 == q);
                            } else {
                                assert(oldv[k + 1].0 == q);
                            }
                            assert(false);
                        }
                    }
                }
            }
        },
        None => {
            proof {
                if pairs_has(entries_view(entries@), path@) {
                    let k = choose|k: int|
                        0 <= k < entries_view(entries@).len() && (#[trigger] entries_view(
                            entries@,
                        )[k]).0 == path@;
                }
            }
        },
    }
}

/// True iff two optional contents are equal.
pub fn opt_bytes_eq(a: &Option<Vec<u8>>, b: &Option<Vec<u8>>) -> (r: bool)
    ensures
        r <==> (match (a, b) {
            (Some(x), Some(y)) => x@ == y@,
            (None, None) => true,
            _ => false,
        }),
{
    match (a, b) {
        (Some(x), Some(y)) => bytes_eq(x, y),
        (None, None) => true,
        _ => false,
    }
}

/// One changed path between two snapshots: what it held before and after.
/// `None` means the path is absent on that side.
pub struct Change {
    pub path: Vec<u8>,
    pub before: Option<Vec<u8>>,
    pub after: Option<Vec<u8>>,
}

/// The view of an optional content.
pub open spec fn opt_view(o: Option<Vec<u8>>) -> Option<Seq<u8>> {
    match o {
        Some(d) => Some(d@),
        None => None,
    }
}

pub open spec fn change_ok(c: Change, av: PairsV, bv: PairsV) -> bool {
    &&& pget(av, c.path@) == opt_view(c.before)
    &&& pget(bv, c.path@) == opt_view(c.after)
    &&& pget(av, c.path@) != pget(bv, c.path@)
}

/// The paths whose content differs between snapshot `a` (before) and
/// snapshot `b` (after), each with its content on both sides. Sound and
/// complete: a path appears exactly once iff the contents differ.
pub fn diff_entries(a: &Vec<TreeEntry>, b: &Vec<TreeEntry>) -> (r: Vec<Change>)
    requires
        pairs_unique(entries_view(a@)),
        pairs_unique(entries_view(b@)),
    ensures
        forall|i: int|
            0 <= i < r@.len() ==> change_ok(#[trigger] r@[i], entries_view(a@), entries_view(b@)),
        forall|i: int, j: int|
            0 <= i < j < r@.len() ==> (#[trigger] r@[i]).path@ != (#[trigger] r@[j]).path@,
        forall|p: Seq<u8>|
            pget(entries_view(a@), p) != pget(entries_view(b@), p) ==> exists|i: int|
                0 <= i < r@.len() && (#[trigger] r@[i]).path@ == p,
{
    let ghost av = entries_view(a@);
    let ghost bv = entries_view(b@);
    let mut r: Vec<Change> = Vec::new();
    // paths present in the "before" side: changed or removed
    let mut i: usize = 0;
    while i < a.len()
        invariant
            i <= a@.len(),
            av == entries_view(a@),
            bv == entries_view(b@),
            pairs_unique(av),
            pairs_unique(bv),
            forall|k: int| 0 <= k < r@.len() ==> change_ok(#[trigger] r@[k], av, bv),
            forall|k: int, l: int|
                0 <= k < l < r@.len() ==> (#[trigger] r@[k]).path@ != (#[trigger] r@[l]).path@,
            forall|l: int|
                0 <= l < r@.len() ==> exists|k: int|
                    0 <= k < i && (#[trigger] r@[l]).path@ == a@[k].path@,
            forall|k: int|
                0 <= k < i && pget(av, (#[trigger] a@[k]).path@) != pget(bv, a@[k].path@)
                    ==> exists|l: int|
                    0 <= l < r@.len() && (#[trigger] r@[l]).path@ == a@[k].path@,
        decreases a@.len() - i,
    {
        proof {
            lemma_pairs_get_index(av, i as int);
        }
        let ghost pre_r = r@;
        let before = Some(clone_bytes(&a[i].data));
        let after = get_path(b, &a[i].path);
        if !opt_bytes_eq(&before, &after) {
            proof {
                assert forall|l: int| 0 <= l < r@.len() implies (#[trigger] r@[l]).path@
                    != a@[i as int].path@ by {
                    let k = choose|k: int|
                        0 <= k < i && (#[trigger] r@[l]).path@ == a@[k].path@;
                    assert(av[k].0 == a@[k].path@);
                    assert(av[i as int].0 == a@[i as int].path@);
                    assert(av[k].0 != av[i as int].0);
                }
            }
            let c = Change { path: clone_bytes(&a[i].path), before, after };
            r.push(c);
            proof {
                let n = pre_r.len() as int;
                assert(r@[n].path@ == a@[i as int].path@);
                assert(change_ok(r@[n], av, bv));
                assert forall|l: int| 0 <= l < r@.len() implies exists|k: int|
                    0 <= k < i + 1 && (#[trigger] r@[l]).path@ == a@[k].path@ by {
                    if l < n {
                        assert(r@[l] == pre_r[l]);
                        let k = choose|k: int|
                            0 <= k < i && (#[trigger] pre_r[l]).path@ == a@[k].path@;
                        assert(r@[l].path@ == a@[k].path@);
                    } else {
                        assert(r@[l].path@ == a@[i as int].path@);
                    }
                }
                assert forall|k: int|
                    0 <= k < i + 1 && pget(av, (#[trigger] a@[k]).path@) != pget(
                        bv,
                        a@[k].path@,
                    ) implies exists|l: int|
                    0 <= l < r@.len() && (#[trigger] r@[l]).path@ == a@[k].path@ by {
                    if k < i {
                        let l = choose|l: int|
                            0 <= l < pre_r.len() && (#[trigger] pre_r[l]).path@ == a@[k].path@;
                        assert(r@[l].path@ == a@[k].path@);
                    } else {
                        assert(r@[n].path@ == a@[k].path@);
                    }
                }
            }
        } else {
            proof {
                assert(pget(av, a@[i as int].path@) == pget(bv, a@[i as int].path@));
            }
        }
        i = i + 1;
    }
    proof {
        assert forall|l: int| 0 <= l < r@.len() implies pairs_has(
            av,
            (#[trigger] r@[l]).path@,
        ) by {
            let k = choose|k: int|
                0 <= k < a@.len() && (#[trigger] r@[l]).path@ == a@[k].path@;
            assert(av[k].0 == a@[k].path@);
        }
    }
    // paths present only in the "after" side: added
    let mut j: usize = 0;
    while j < b.len()
        invariant
            j <= b@.len(),
            av == entries_view(a@),
            bv == entries_view(b@),
            pairs_unique(av),
            pairs_unique(bv),
            forall|k: int| 0 <= k < r@.len() ==> change_ok(#[trigger] r@[k], av, bv),
            forall|k: int, l: int|
                0 <= k < l < r@.len() ==> (#[trigger] r@[k]).path@ != (#[trigger] r@[l]).path@,
            forall|k: int|
                0 <= k < a@.len() && pget(av, (#[trigger] a@[k]).path@) != pget(
                    bv,
                    a@[k].path@,
                ) ==> exists|l: int|
                    0 <= l < r@.len() && (#[trigger] r@[l]).path@ == a@[k].path@,
            forall|l: int|
                0 <= l < r@.len() ==> (pairs_has(av, (#[trigger] r@[l]).path@) || exists|k: int|
                    0 <= k < j && (#[trigger] r@[l]).path@ == b@[k].path@),
            forall|k: int|
                0 <= k < j && !pairs_has(av, (#[trigger] b@[k]).path@) ==> exists|l: int|
                    0 <= l < r@.len() && (#[trigger] r@[l]).path@ == b@[k].path@,
        decreases b@.len() - j,
    {
        proof {
            lemma_pairs_get_index(bv, j as int);
        }
        let ghost pre_r = r@;
        match lookup(a, &b[j].path) {
            Some(k) => {
                proof {
                    assert(entries_view(a@)[k as int].0 == b@[j as int].path@);
                    assert(pairs_has(av, b@[j as int].path@));
                }
            },
            None => {
                proof {
                    assert(!pairs_has(av, b@[j as int].path@));
                    assert forall|l: int| 0 <= l < r@.len() implies (#[trigger] r@[l]).path@
                        != b@[j as int].path@ by {
                        if pairs_has(av, r@[l].path@) {
                        } else {
                            let k = choose|k: int|
                                0 <= k < j && (#[trigger] r@[l]).path@ == b@[k].path@;
                            assert(bv[k].0 == b@[k].path@);
                            assert(bv[j as int].0 == b@[j as int].path@);
                            assert(bv[k].0 != bv[j as int].0);
                        }
                    }
                }
                let c = Change {
                    path: clone_bytes(&b[j].path),
                    before: None,
                    after: Some(clone_bytes(&b[j].data)),
                };
                r.push(c);
                proof {
                    let n = pre_r.len() as int;
                    assert(r@[n].path@ == b@[j as int].path@);
                    assert(pget(av, b@[j as int].path@) is None);
                    assert(change_ok(r@[n], av, bv));
                    assert forall|k: int|
                        0 <= k < a@.len() && pget(av, (#[trigger] a@[k]).path@) != pget(
                            bv,
                            a@[k].path@,
                        ) implies exists|l: int|
                        0 <= l < r@.len() && (#[trigger] r@[l]).path@ == a@[k].path@ by {
                        let l = choose|l: int|
                            0 <= l < pre_r.len() && (#[trigger] pre_r[l]).path@ == a@[k].path@;
                        assert(r@[l].path@ == a@[k].path@);
                    }
                    assert forall|l: int| 0 <= l < r@.len() implies (pairs_has(
                        av,
                        (#[trigger] r@[l]).path@,
                    ) || exists|k: int|
                        0 <= k < j + 1 && (#[trigger] r@[l]).path@ == b@[k].path@) by {
                        if l < n {
                            assert(r@[l] == pre_r[l]);
                            if !pairs_has(av, pre_r[l].path@) {
                                let k = choose|k: int|
                                    0 <= k < j && (#[trigger] pre_r[l]).path@ == b@[k].path@;
                                assert(r@[l].path@ == b@[k].path@);
                            }
                        } else {
                            assert(r@[l].path@ == b@[j as int].path@);
                        }
                    }
                    assert forall|k: int|
                        0 <= k < j + 1 && !pairs_has(av, (#[trigger] b@[k]).path@) implies exists|
                        l: int,
                    |
                        0 <= l < r@.len() && (#[trigger] r@[l]).path@ == b@[k].path@ by {
                        if k < j {
                            let l = choose|l: int|
                                0 <= l < pre_r.len() && (#[trigger] pre_r[l]).path@
                                    == b@[k].path@;
                            assert(r@[l].path@ == b@[k].path@);
                        } else {
                            assert(r@[n].path@ == b@[k].path@);
                        }
                    }
                }
            },
        }
        j = j + 1;
    }
    proof {
        assert forall|p: Seq<u8>|
            pget(av, p) != pget(bv, p) implies exists|i: int|
            0 <= i < r@.len() && (#[trigger] r@[i]).path@ == p by {
            if pairs_has(av, p) {
                let k = choose|k: int| 0 <= k < av.len() && (#[trigger] av[k]).0 == p;
                lemma_pairs_get_index(av, k);
                assert(a@[k].path@ == p);
            } else {
                assert(pairs_has(bv, p));
                let k = choose|k: int| 0 <= k < bv.len() && (#[trigger] bv[k]).0 == p;
                lemma_pairs_get_index(bv, k);
                assert(b@[k].path@ == p);
                assert(!pairs_has(av, b@[k].path@));
            }
        }
    }
    r
}

/// The content of one commit for cross-store comparison: snapshot, author,
/// message and time — everything except the per-store identifiers.
pub type CommitDataV = (PairsV, Seq<u8>, Seq<u8>, u64);

/// How many elements of `s` are missing from `other`.
pub open spec fn count_missing(s: Seq<int>, other: Seq<int>) -> int
    decreases s.len(),
{
    if s.len() == 0 {
        0
    } else {
        count_missing(s.drop_last(), other) + if other.contains(s.last()) {
            0int
        } else {
            1int
        }
    }
}

pub proof fn lemma_count_missing_bounds(s: Seq<int>, other: Seq<int>)
    ensures
        0 <= count_missing(s, other) <= s.len(),
    decreases s.len(),
{
    if s.len() > 0 {
        lemma_count_missing_bounds(s.drop_last(), other);
    }
}

pub proof fn lemma_count_missing_all_present(s: Seq<int>, other: Seq<int>)
    requires
        forall|k: int| 0 <= k < s.len() ==> other.contains(#[trigger] s[k]),
    ensures
        count_missing(s, other) == 0,
    decreases s.len(),
{
    if s.len() > 0 {
        assert(forall|k: int|
            0 <= k < s.drop_last().len() ==> other.contains(#[trigger] s.drop_last()[k]));
        lemma_count_missing_all_present(s.drop_last(), other);
        assert(other.contains(s.last()));
    }
}

pub proof fn lemma_count_missing_zero_contains(s: Seq<int>, other: Seq<int>)
    requires
        count_missing(s, other) == 0,
    ensures
        forall|k: int| 0 <= k < s.len() ==> other.contains(#[trigger] s[k]),
    decreases s.len(),
{
    if s.len() > 0 {
        lemma_count_missing_bounds(s.drop_last(), other);
        lemma_count_missing_zero_contains(s.drop_last(), other);
        assert(other.contains(s.last()));
        assert forall|k: int| 0 <= k < s.len() implies other.contains(#[trigger] s[k]) by {
            if k < s.len() - 1 {
                assert(s.drop_last()[k] == s[k]);
            }
        }
    }
}

pub proof fn lemma_count_missing_positive(s: Seq<int>, other: Seq<int>, k: int)
    requires
        0 <= k < s.len(),
        !other.contains(s[k]),
    ensures
        count_missing(s, other) > 0,
    decreases s.len(),
{
    lemma_count_missing_bounds(s.drop_last(), other);
    if k < s.len() - 1 {
        assert(s.drop_last()[k] == s[k]);
        lemma_count_missing_positive(s.drop_last(), other, k);
    }
}

impl ObjectStore {
    /// The first-parent ancestor chain of commit `c`, newest first,
    /// ending at a root. Empty for an invalid identifier.
    pub open spec fn chain(self, c: int) -> Seq<int>
        decreases c,
    {
        if 0 <= c < self.commits.len() {
            match self.commits[c].parent {
                None => seq![c],
                Some(p) => if p < c {
                    seq![c] + self.chain(p as int)
                } else {
                    seq![c]
                },
            }
        } else {
            seq![]
        }
    }

    pub proof fn lemma_chain_shape(self, c: int)
        requires
            self.wf(),
            0 <= c < self.commits.len(),
        ensures
            self.chain(c).len() >= 1,
            self.chain(c)[0] == c,
            self.chain(c).contains(c),
            forall|k: int|
                0 <= k < self.chain(c).len() ==> 0 <= #[trigger] self.chain(c)[k] <= c
                    && self.chain(c)[k] < self.commits.len(),
        decreases c,
    {
        assert(self.chain(c)[0] == c);
        match self.commits[c].parent {
            None => {},
            Some(p) => {
                self.lemma_chain_shape(p as int);
            },
        }
    }

    /// Mutually reachable tips are the same commit.
    pub proof fn lemma_counts_zero_equal(self, a: int, b: int)
        requires
            self.wf(),
            0 <= a < self.commits.len(),
            0 <= b < self.commits.len(),
            count_missing(self.chain(a), self.chain(b)) == 0,
            count_missing(self.chain(b), self.chain(a)) == 0,
        ensures
            a == b,
    {
        self.lemma_chain_shape(a);
        self.lemma_chain_shape(b);
        lemma_count_missing_zero_contains(self.chain(a), self.chain(b));
        lemma_count_missing_zero_contains(self.chain(b), self.chain(a));
        assert(self.chain(a)[0] == a);
        assert(self.chain(b).contains(a));
        let k = choose|k: int| 0 <= k < self.chain(b).len() && self.chain(b)[k] == a;
        assert(a <= b);
        assert(self.chain(a).contains(b));
        let l = choose|l: int| 0 <= l < self.chain(a).len() && self.chain(a)[l] == b;
        assert(b <= a);
    }

    pub open spec fn commit_data(self, c: int) -> CommitDataV
        recommends
            0 <= c < self.commits.len(),
    {
        (
            self.tree_at(self.commits[c].tree as int),
            self.commits[c].author@,
            self.commits[c].message@,
            self.commits[c].time,
        )
    }

    /// The content of the whole first-parent history of `c`, newest first.
    /// Two commits in two stores with equal histories describe the same
    /// published state.
    pub open spec fn hist(self, c: int) -> Seq<CommitDataV>
        decreases c,
    {
        if 0 <= c < self.commits.len() {
            match self.commits[c].parent {
                None => seq![self.commit_data(c)],
                Some(p) => if p < c {
                    seq![self.commit_data(c)] + self.hist(p as int)
                } else {
                    seq![self.commit_data(c)]
                },
            }
        } else {
            seq![]
        }
    }

    pub proof fn lemma_hist_shape(self, c: int)
        requires
            self.wf(),
            0 <= c < self.commits.len(),
        ensures
            self.hist(c).len() >= 1,
            self.hist(c)[0] == self.commit_data(c),
            self.hist(c).len() == self.chain(c).len(),
        decreases c,
    {
        match self.commits[c].parent {
            None => {},
            Some(p) => {
                self.lemma_hist_shape(p as int);
            },
        }
    }

    /// History and chain only read commits and trees that already exist,
    /// so extending the store never changes them.
    pub proof fn lemma_hist_stable(a: ObjectStore, b: ObjectStore, c: int)
        requires
            a.wf(),
            0 <= c < a.commits.len(),
            a.commits.len() <= b.commits.len(),
            a.trees.len() <= b.trees.len(),
            forall|i: int| 0 <= i < a.commits.len() ==> b.commits@[i] == a.commits@[i],
            forall|i: int| 0 <= i < a.trees.len() ==> b.trees@[i] == a.trees@[i],
        ensures
            b.hist(c) == a.hist(c),
            b.chain(c) == a.chain(c),
        decreases c,
    {
        assert(b.commits@[c] == a.commits@[c]);
        assert(b.tree_at(a.commits[c].tree as int) == a.tree_at(a.commits[c].tree as int));
        match a.commits[c].parent {
            None => {},
            Some(p) => {
                Self::lemma_hist_stable(a, b, p as int);
            },
        }
    }

    /// Equal histories mean equal identifiers: content addressing makes
    /// the history of a commit determine it.
    pub proof fn lemma_hist_unique(self, x: int, y: int)
        requires
            self.wf(),
            0 <= x < self.commits.len(),
            0 <= y < self.commits.len(),
            self.hist(x) == self.hist(y),
        ensures
            x == y,
        decreases x,
    {
        self.lemma_hist_shape(x);
        self.lemma_hist_shape(y);
        assert(self.commit_data(x) == self.commit_data(y));
        let tx = self.commits[x].tree as int;
        let ty = self.commits[y].tree as int;
        if tx != ty {
            if tx < ty {
                assert(self.tree_at(tx) != self.tree_at(ty));
            } else {
                assert(self.tree_at(ty) != self.tree_at(tx));
            }
        }
        assert(tx == ty);
        match (self.commits[x].parent, self.commits[y].parent) {
            (None, None) => {
                assert(commit_view(self.commits[x]) == commit_view(self.commits[y]));
                if x != y {
                    if x < y {
                        assert(commit_view(self.commits[x]) != commit_view(self.commits[y]));
                    } else {
                        assert(commit_view(self.commits[y]) != commit_view(self.commits[x]));
                    }
                }
            },
            (Some(px), Some(py)) => {
                assert(self.hist(x).skip(1) =~= self.hist(px as int));
                assert(self.hist(y).skip(1) =~= self.hist(py as int));
                self.lemma_hist_unique(px as int, py as int);
                assert(commit_view(self.commits[x]) == commit_view(self.commits[y]));
                if x != y {
                    if x < y {
                        assert(commit_view(self.commits[x]) != commit_view(self.commits[y]));
                    } else {
                        assert(commit_view(self.commits[y]) != commit_view(self.commits[x]));
                    }
                }
            },
            (None, Some(py)) => {
                self.lemma_hist_shape(py as int);
                assert(self.hist(x).len() == 1);
                assert(self.hist(y).len() >= 2);
            },
            (Some(px), None) => {
                self.lemma_hist_shape(px as int);
                assert(self.hist(y).len() == 1);
                assert(self.hist(x).len() >= 2);
            },
        }
    }

    /// True iff `h2` is the history of some commit on `h1`'s chain:
    /// `h2` is a suffix of `h1`.
    pub open spec fn hist_suffix(h1: Seq<CommitDataV>, h2: Seq<CommitDataV>) -> bool {
        exists|k: int| 0 <= k <= h1.len() && h1.skip(k) == h2
    }

    /// Ancestry is exactly history-suffix: `a` lies on `c`'s chain iff
    /// `a`'s history is a suffix of `c`'s.
    pub proof fn lemma_chain_hist_suffix(self, a: int, c: int)
        requires
            self.wf(),
            0 <= a < self.commits.len(),
            0 <= c < self.commits.len(),
        ensures
            self.chain(c).contains(a) <==> Self::hist_suffix(self.hist(c), self.hist(a)),
        decreases c,
    {
        self.lemma_chain_shape(c);
        self.lemma_hist_shape(c);
        if self.chain(c).contains(a) {
            if a == c {
                assert(self.hist(c).skip(0) =~= self.hist(c));
                assert(Self::hist_suffix(self.hist(c), self.hist(a)));
            } else {
                let ch = self.chain(c);
                let k0 = choose|k: int| 0 <= k < ch.len() && ch[k] == a;
                assert(k0 != 0);
                match self.commits[c].parent {
                    None => {
                        assert(ch.len() == 1);
                    },
                    Some(p) => {
                        assert(ch == seq![c] + self.chain(p as int));
                        assert(self.chain(p as int)[k0 - 1] == a);
                        self.lemma_chain_hist_suffix(p as int, p as int);
                        assert(self.chain(p as int).contains(a));
                        self.lemma_chain_hist_suffix(a, p as int);
                        let k = choose|k: int|
                            0 <= k <= self.hist(p as int).len() && self.hist(p as int).skip(k)
                                == self.hist(a);
                        assert(self.hist(c) == seq![self.commit_data(c)] + self.hist(p as int));
                        assert(self.hist(c).skip(k + 1) =~= self.hist(p as int).skip(k));
                    },
                }
            }
        }
        if Self::hist_suffix(self.hist(c), self.hist(a)) {
            let k = choose|k: int|
                0 <= k <= self.hist(c).len() && self.hist(c).skip(k) == self.hist(a);
            self.lemma_hist_shape(a);
            if k == 0 {
                assert(self.hist(c).skip(0) =~= self.hist(c));
                self.lemma_hist_unique(a, c);
                assert(self.chain(c).contains(a));
            } else {
                match self.commits[c].parent {
                    None => {
                        assert(self.hist(c).len() == 1);
                        assert(self.hist(c).skip(k).len() == 0);
                    },
                    Some(p) => {
                        assert(self.hist(c) == seq![self.commit_data(c)] + self.hist(p as int));
                        assert(self.hist(c).skip(k) =~= self.hist(p as int).skip(k - 1));
                        assert(Self::hist_suffix(self.hist(p as int), self.hist(a)));
                        self.lemma_chain_hist_suffix(a, p as int);
                        assert(self.chain(p as int).contains(a));
                        let k2 = choose|k2: int|
                            0 <= k2 < self.chain(p as int).len() && self.chain(p as int)[k2]
                                == a;
                        assert(self.chain(c) == seq![c] + self.chain(p as int));
                        assert(self.chain(c)[k2 + 1] == a);
                    },
                }
            }
        }
    }

    /// History-suffix composes.
    pub proof fn lemma_hist_suffix_trans(h1: Seq<CommitDataV>, h2: Seq<CommitDataV>, h3: Seq<
        CommitDataV,
    >)
        requires
            Self::hist_suffix(h1, h2),
            Self::hist_suffix(h2, h3),
        ensures
            Self::hist_suffix(h1, h3),
    {
        let k1 = choose|k: int| 0 <= k <= h1.len() && h1.skip(k) == h2;
        let k2 = choose|k: int| 0 <= k <= h2.len() && h2.skip(k) == h3;
        assert(h1.skip(k1 + k2) =~= h1.skip(k1).skip(k2));
    }

    /// Mutual history-suffixes are equal histories.
    pub proof fn lemma_hist_suffix_antisym(h1: Seq<CommitDataV>, h2: Seq<CommitDataV>)
        requires
            Self::hist_suffix(h1, h2),
            Self::hist_suffix(h2, h1),
        ensures
            h1 == h2,
    {
        let k1 = choose|k: int| 0 <= k <= h1.len() && h1.skip(k) == h2;
        let k2 = choose|k: int| 0 <= k <= h2.len() && h2.skip(k) == h1;
        assert(h1.skip(0) =~= h1);
    }

    /// Everything reachable from an ancestor is reachable from the
    /// descendant.
    pub proof fn lemma_chain_subset(self, a: int, c: int)
        requires
            self.wf(),
            0 <= c < self.commits.len(),
            self.chain(c).contains(a),
        ensures
            forall|k: int|
                0 <= k < self.chain(a).len() ==> self.chain(c).contains(
                    #[trigger] self.chain(a)[k],
                ),
        decreases c,
    {
        self.lemma_chain_shape(c);
        if a == c {
        } else {
            match self.commits[c].parent {
                None => {
                    assert(self.chain(c).len() == 1);
                    let j = choose|j: int|
                        0 <= j < self.chain(c).len() && self.chain(c)[j] == a;
                },
                Some(p) => {
                    assert(self.chain(c) == seq![c] + self.chain(p as int));
                    let j = choose|j: int|
                        0 <= j < self.chain(c).len() && self.chain(c)[j] == a;
                    assert(j != 0);
                    assert(self.chain(p as int)[j - 1] == a);
                    self.lemma_chain_subset(a, p as int);
                    assert forall|k: int| 0 <= k < self.chain(a).len() implies self.chain(
                        c,
                    ).contains(#[trigger] self.chain(a)[k]) by {
                        assert(self.chain(p as int).contains(self.chain(a)[k]));
                        let m = choose|m: int|
                            0 <= m < self.chain(p as int).len() && self.chain(p as int)[m]
                                == self.chain(a)[k];
                        assert(self.chain(c)[m + 1] == self.chain(a)[k]);
                    }
                },
            }
        }
    }

    /// How the divergence counts classify two tips, phrased over their
    /// history contents: equal histories count (0, 0); a history that is a
    /// proper suffix of the other counts zero on its own side and positive
    /// on the other; unrelated histories count positive on both.
    pub proof fn lemma_classify(self, lt: int, rt: int)
        requires
            self.wf(),
            0 <= lt < self.commits.len(),
            0 <= rt < self.commits.len(),
        ensures
            self.hist(lt) == self.hist(rt) ==> lt == rt && count_missing(
                self.chain(lt),
                self.chain(rt),
            ) == 0 && count_missing(self.chain(rt), self.chain(lt)) == 0,
            Self::hist_suffix(self.hist(rt), self.hist(lt)) && self.hist(lt) != self.hist(rt)
                ==> count_missing(self.chain(lt), self.chain(rt)) == 0 && count_missing(
                self.chain(rt),
                self.chain(lt),
            ) > 0,
            Self::hist_suffix(self.hist(lt), self.hist(rt)) && self.hist(lt) != self.hist(rt)
                ==> count_missing(self.chain(rt), self.chain(lt)) == 0 && count_missing(
                self.chain(lt),
                self.chain(rt),
            ) > 0,
            !Self::hist_suffix(self.hist(rt), self.hist(lt)) && !Self::hist_suffix(
                self.hist(lt),
                self.hist(rt),
            ) ==> count_missing(self.chain(lt), self.chain(rt)) > 0 && count_missing(
                self.chain(rt),
                self.chain(lt),
            ) > 0,
    {
        self.lemma_chain_shape(lt);
        self.lemma_chain_shape(rt);
        self.lemma_chain_hist_suffix(lt, rt);
        self.lemma_chain_hist_suffix(rt, lt);
        if self.hist(lt) == self.hist(rt) {
            self.lemma_hist_unique(lt, rt);
            assert forall|k: int|
                0 <= k < self.chain(lt).len() implies self.chain(rt).contains(
                #[trigger] self.chain(lt)[k],
            ) by {}
            lemma_count_missing_all_present(self.chain(lt), self.chain(rt));
            lemma_count_missing_all_present(self.chain(rt), self.chain(lt));
        }
        if Self::hist_suffix(self.hist(rt), self.hist(lt)) && self.hist(lt) != self.hist(rt) {
            // the local tip lies on the remote chain: nothing is ahead
            assert(self.chain(rt).contains(lt));
            self.lemma_chain_subset(lt, rt);
            lemma_count_missing_all_present(self.chain(lt), self.chain(rt));
            // and the remote tip is not on the local chain: behind
            if self.chain(lt).contains(rt) {
                Self::lemma_hist_suffix_antisym(self.hist(rt), self.hist(lt));
            }
            assert(self.chain(rt)[0] == rt);
            lemma_count_missing_positive(self.chain(rt), self.chain(lt), 0);
        }
        if Self::hist_suffix(self.hist(lt), self.hist(rt)) && self.hist(lt) != self.hist(rt) {
            assert(self.chain(lt).contains(rt));
            self.lemma_chain_subset(rt, lt);
            lemma_count_missing_all_present(self.chain(rt), self.chain(lt));
            if self.chain(rt).contains(lt) {
                Self::lemma_hist_suffix_antisym(self.hist(lt), self.hist(rt));
            }
            assert(self.chain(lt)[0] == lt);
            lemma_count_missing_positive(self.chain(lt), self.chain(rt), 0);
        }
        if !Self::hist_suffix(self.hist(rt), self.hist(lt)) && !Self::hist_suffix(
            self.hist(lt),
            self.hist(rt),
        ) {
            assert(!self.chain(rt).contains(lt));
            assert(!self.chain(lt).contains(rt));
            assert(self.chain(lt)[0] == lt);
            assert(self.chain(rt)[0] == rt);
            lemma_count_missing_positive(self.chain(lt), self.chain(rt), 0);
            lemma_count_missing_positive(self.chain(rt), self.chain(lt), 0);
        }
    }

    /// True iff `a` is reachable from `c` along first parents (including
    /// `c` itself): `c` is `a` or a descendant of `a`.
    pub fn is_ancestor(&self, a: usize, c: usize) -> (r: bool)
        requires
            self.wf(),
            c < self.commits.len(),
        ensures
            r <==> self.chain(c as int).contains(a as int),
        decreases c,
    {
        if c == a {
            proof {
                self.lemma_chain_shape(c as int);
            }
            return true;
        }
        let parent = self.commits[c].parent;
        match parent {
            Some(p) => {
                let r = self.is_ancestor(a, p);
                proof {
                    let ch = self.chain(c as int);
                    assert(ch == seq![c as int] + self.chain(p as int));
                    if self.chain(p as int).contains(a as int) {
                        let k = choose|k: int|
                            0 <= k < self.chain(p as int).len() && self.chain(p as int)[k]
                                == a as int;
                        assert(ch[k + 1] == a as int);
                    }
                    if ch.contains(a as int) {
                        let k = choose|k: int| 0 <= k < ch.len() && ch[k] == a as int;
                        assert(k != 0);
                        assert(self.chain(p as int)[k - 1] == a as int);
                    }
                }
                r
            },
            None => {
                proof {
                    let ch = self.chain(c as int);
                    if ch.contains(a as int) {
                        let k = choose|k: int| 0 <= k < ch.len() && ch[k] == a as int;
                    }
                }
                false
            },
        }
    }

    /// The ancestor chain of `c` as identifiers, newest first.
    pub fn collect_chain(&self, c: usize) -> (r: Vec<usize>)
        requires
            self.wf(),
            c < self.commits.len(),
        ensures
            r@.len() == self.chain(c as int).len(),
            forall|i: int| 0 <= i < r@.len() ==> r@[i] as int == self.chain(c as int)[i],
        decreases c,
    {
        let mut r: Vec<usize> = Vec::new();
        r.push(c);
        let parent = self.commits[c].parent;
        match parent {
            Some(p) => {
                let mut rest = self.collect_chain(p);
                proof {
                    assert(self.chain(c as int) == seq![c as int] + self.chain(p as int));
                }
                r.append(&mut rest);
            },
            None => {},
        }
        r
    }

    /// Count how many commits of `local`'s chain are missing from
    /// `remote`'s chain and the other way around: the classic
    /// (ahead, behind) divergence measure.
    pub fn ahead_behind(&self, local: usize, remote: usize) -> (r: (usize, usize))
        requires
            self.wf(),
            local < self.commits.len(),
            remote < self.commits.len(),
        ensures
            r.0 as int == count_missing(
                self.chain(local as int),
                self.chain(remote as int),
            ),
            r.1 as int == count_missing(
                self.chain(remote as int),
                self.chain(local as int),
            ),
    {
        let lc = self.collect_chain(local);
        let rc = self.collect_chain(remote);
        let ahead = count_ids_missing(&lc, &rc, Ghost(self.chain(local as int)), Ghost(self.chain(remote as int)));
        let behind = count_ids_missing(&rc, &lc, Ghost(self.chain(remote as int)), Ghost(self.chain(local as int)));
        (ahead, behind)
    }

    /// True iff the two commits, possibly in different stores, have the
    /// same history content: the same snapshots, authors, messages and
    /// times all the way back to the root.
    pub fn same_history(&self, c: usize, other: &ObjectStore, oc: usize) -> (r: bool)
        requires
            self.wf(),
            other.wf(),
            c < self.commits.len(),
            oc < other.commits.len(),
        ensures
            r <==> self.hist(c as int) == other.hist(oc as int),
        decreases c,
    {
        proof {
            self.lemma_hist_shape(c as int);
            other.lemma_hist_shape(oc as int);
        }
        let a = &self.commits[c];
        let b = &other.commits[oc];
        let data_eq = a.time == b.time && bytes_eq(&a.author, &b.author) && bytes_eq(
            &a.message,
            &b.message,
        ) && entries_seq_eq(
            &self.trees[a.tree].entries,
            &other.trees[b.tree].entries,
        );
        if !data_eq {
            proof {
                assert(self.hist(c as int)[0] == self.commit_data(c as int));
                assert(other.hist(oc as int)[0] == other.commit_data(oc as int));
            }
            return false;
        }
        match (a.parent, b.parent) {
            (None, None) => {
                proof {
                    assert(self.hist(c as int) =~= other.hist(oc as int));
                }
                true
            },
            (Some(p), Some(op)) => {
                let r = self.same_history(p, other, op);
                proof {
                    assert(self.hist(c as int) == seq![self.commit_data(c as int)] + self.hist(
                        p as int,
                    ));
                    assert(other.hist(oc as int) == seq![other.commit_data(oc as int)]
                        + other.hist(op as int));
                    if self.hist(p as int) == other.hist(op as int) {
                        assert(self.hist(c as int) =~= other.hist(oc as int));
                    }
                    if self.hist(c as int) == other.hist(oc as int) {
                        assert(self.hist(c as int).skip(1) =~= self.hist(p as int));
                        assert(other.hist(oc as int).skip(1) =~= other.hist(op as int));
                    }
                }
                r
            },
            (None, Some(op)) => {
                proof {
                    other.lemma_hist_shape(op as int);
                    assert(self.hist(c as int).len() == 1);
                    assert(other.hist(oc as int).len() >= 2);
                }
                false
            },
            (Some(p), None) => {
                proof {
                    self.lemma_hist_shape(p as int);
                    assert(other.hist(oc as int).len() == 1);
                    assert(self.hist(c as int).len() >= 2);
                }
                false
            },
        }
    }

    /// Bring the whole history of `src`'s commit `c` into this store,
    /// returning the identifier it gets here. Interning makes this
    /// idempotent: when the history is already present nothing changes.
    pub fn copy_commit(&mut self, src: &ObjectStore, c: usize) -> (id: usize)
        requires
            old(self).wf(),
            src.wf(),
            c < src.commits.len(),
        ensures
            final(self).wf(),
            id < final(self).commits.len(),
            final(self).hist(id as int) == src.hist(c as int),
            old(self).commits.len() <= final(self).commits.len(),
            old(self).trees.len() <= final(self).trees.len(),
            forall|i: int|
                0 <= i < old(self).commits.len() ==> final(self).commits@[i] == old(
                    self,
                ).commits@[i],
            forall|i: int|
                0 <= i < old(self).trees.len() ==> final(self).trees@[i] == old(self).trees@[i],
            (exists|e: int|
                0 <= e < old(self).commits.len() && #[trigger] old(self).hist(e) == src.hist(
                    c as int,
                )) ==> *final(self) == *old(self),
        decreases c,
    {
        proof {
            src.lemma_hist_shape(c as int);
        }
        let node = &src.commits[c];
        let ghost pre = *self;
        let pid: Option<usize> = match node.parent {
            Some(p) => Some(self.copy_commit(src, p)),
            None => None,
        };
        let ghost mid1 = *self;
        let entries = clone_entries(&src.trees[node.tree].entries);
        let tid = self.intern_tree(entries);
        let ghost mid2 = *self;
        let author = clone_bytes(&node.author);
        let message = clone_bytes(&node.message);
        let id = self.intern_commit(tid, pid, author, message, node.time);
        proof {
            // chain the frame conditions of the three mutation steps
            assert(pre.trees.len() <= mid1.trees.len() <= mid2.trees.len()
                <= self.trees.len());
            assert(pre.commits.len() <= mid1.commits.len() <= mid2.commits.len()
                <= self.commits.len());
            assert forall|i: int| 0 <= i < mid1.trees.len() implies self.trees@[i]
                == mid1.trees@[i] by {
                assert(mid2.tree_at(i) == mid1.tree_at(i));
                assert(mid2.trees@[i] == mid1.trees@[i]);
            }
            assert forall|i: int| 0 <= i < mid1.commits.len() implies self.commits@[i]
                == mid1.commits@[i] by {
                assert(mid2.commits@[i] == mid1.commits@[i]);
            }
            assert forall|i: int| 0 <= i < pre.trees.len() implies self.trees@[i]
                == pre.trees@[i] by {
                assert(mid1.trees@[i] == pre.trees@[i]);
            }
            assert forall|i: int| 0 <= i < pre.commits.len() implies self.commits@[i]
                == pre.commits@[i] by {
                assert(mid1.commits@[i] == pre.commits@[i]);
            }
            // the parent's copied history survives the later interning
            if node.parent is Some {
                let p = node.parent->0 as int;
                ObjectStore::lemma_hist_stable(mid1, *self, pid->0 as int);
                assert(self.hist(pid->0 as int) == src.hist(p));
            }
            // the new commit's data matches the source commit's data
            assert(self.tree_at(tid as int) == src.tree_at(node.tree as int));
            assert(self.commit_data(id as int) == src.commit_data(c as int));
            match node.parent {
                None => {
                    assert(self.hist(id as int) =~= src.hist(c as int));
                },
                Some(p) => {
                    assert(self.commits[id as int].parent == Some(pid->0));
                    assert(self.hist(id as int) == seq![self.commit_data(id as int)]
                        + self.hist(pid->0 as int));
                    assert(src.hist(c as int) == seq![src.commit_data(c as int)] + src.hist(
                        p as int,
                    ));
                    assert(self.hist(id as int) =~= src.hist(c as int));
                },
            }
            // idempotence: a present history is found, not re-added
            if exists|e: int|
                0 <= e < pre.commits.len() && #[trigger] pre.hist(e) == src.hist(c as int) {
                let e = choose|e: int|
                    0 <= e < pre.commits.len() && #[trigger] pre.hist(e) == src.hist(c as int);
                pre.lemma_hist_shape(e);
                match pre.commits[e].parent {
                    None => {
                        match node.parent {
                            None => {},
                            Some(p) => {
                                src.lemma_hist_shape(p as int);
                                assert(pre.hist(e).len() == 1);
                                assert(src.hist(c as int).len() >= 2);
                            },
                        }
                    },
                    Some(pe) => {
                        match node.parent {
                            None => {
                                pre.lemma_hist_shape(pe as int);
                                assert(src.hist(c as int).len() == 1);
                                assert(pre.hist(e).len() >= 2);
                            },
                            Some(p) => {
                                assert(pre.hist(e).skip(1) =~= pre.hist(pe as int));
                                assert(src.hist(c as int).skip(1) =~= src.hist(p as int));
                                assert(pre.hist(pe as int) == src.hist(p as int));
                            },
                        }
                    },
                }
                // by induction the parent copy found pe and left the store
                // unchanged; the tree and the commit are then both present
                assert(mid1 == pre);
                if node.parent is Some {
                    let pe = pre.commits[e].parent->0 as int;
                    mid1.lemma_hist_unique(pid->0 as int, pe);
                }
                assert(pre.tree_at(pre.commits[e].tree as int) == src.tree_at(
                    node.tree as int,
                ));
                assert(pre.has_tree(entries_view(entries@)));
                assert(mid2.trees == pre.trees);
                if tid != pre.commits[e].tree {
                    let te = pre.commits[e].tree as int;
                    if (tid as int) < te {
                        assert(mid2.tree_at(tid as int) != mid2.tree_at(te));
                    } else {
                        assert(mid2.tree_at(te) != mid2.tree_at(tid as int));
                    }
                }
                assert(commit_view(pre.commits[e]) == (
                    tid as int,
                    match pid {
                        Some(p) => Some(p as int),
                        None => None::<int>,
                    },
                    node.author@,
                    node.message@,
                    node.time,
                ));
                assert(mid2.has_commit(commit_view(pre.commits[e])));
                assert(self.commits == pre.commits);
                assert(*self == pre);
            }
        }
        id
    }
}

/// Count how many identifiers of `s` do not occur in `other`.
fn count_ids_missing(
    s: &Vec<usize>,
    other: &Vec<usize>,
    Ghost(sv): Ghost<Seq<int>>,
    Ghost(ov): Ghost<Seq<int>>,
) -> (r: usize)
    requires
        s@.len() == sv.len(),
        forall|i: int| 0 <= i < s@.len() ==> s@[i] as int == sv[i],
        other@.len() == ov.len(),
        forall|i: int| 0 <= i < other@.len() ==> other@[i] as int == ov[i],
    ensures
        r as int == count_missing(sv, ov),
{
    let mut count: usize = 0;
    let mut i: usize = 0;
    while i < s.len()
        invariant
            i <= s@.len(),
            count <= i,
            s@.len() == sv.len(),
            forall|k: int| 0 <= k < s@.len() ==> s@[k] as int == sv[k],
            other@.len() == ov.len(),
            forall|k: int| 0 <= k < other@.len() ==> other@[k] as int == ov[k],
            count as int == count_missing(sv.take(i as int), ov),
        decreases s@.len() - i,
    {
        let mut found = false;
        let mut j: usize = 0;
        while j < other.len()
            invariant
                j <= other@.len(),
                i < s@.len(),
                other@.len() == ov.len(),
                forall|k: int| 0 <= k < other@.len() ==> other@[k] as int == ov[k],
                found <==> exists|k: int| 0 <= k < j && ov[k] == s@[i as int] as int,
            decreases other@.len() - j,
        {
            if other[j] == s[i] {
                found = true;
                proof {
                    assert(ov[j as int] == s@[i as int] as int);
                }
            }
            j = j + 1;
        }
        proof {
            assert(found <==> ov.contains(sv[i as int]));
            assert(sv.take(i + 1).drop_last() =~= sv.take(i as int));
            assert(sv.take(i + 1).last() == sv[i as int]);
        }
        if !found {
            count = count + 1;
        }
        i = i + 1;
    }
    proof {
        assert(sv.take(sv.len() as int) =~= sv);
    }
    count
}

} // verus!
