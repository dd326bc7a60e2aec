//! The stack tree: an n-ary tree of tracked branches keyed by branch name.
//!
//! Branches are held in one owning vector; parent and child "pointers" are
//! branch names looked up in that vector. The vector is kept in dependency
//! order: the trunk sits at position zero and every other branch names a
//! parent that occurs strictly earlier. That ordering is what makes the
//! parent graph a tree: following parent links strictly decreases the
//! position, so there can be no cycle and every branch reaches the trunk.

use crate::errors::StError;
use vstd::prelude::*;

verus! {

/// Remote review metadata attached to a tracked branch once it has been
/// submitted as a pull request.
#[derive(Debug, Clone, Copy, PartialEq, Eq)]
pub struct RemoteMetadata {
    /// The number of the pull request associated with the branch.
    pub pr_number: u64,
    /// The id of the stack navigation comment on the pull request, once one
    /// has been created.
    pub comment_id: Option<u64>,
}

impl RemoteMetadata {
    /// Creates metadata for a freshly submitted pull request; no navigation
    /// comment exists yet.
    pub fn new(pr_number: u64) -> (r: Self)
        ensures
            r.pr_number == pr_number,
            r.comment_id is None,
    {
        Self { pr_number, comment_id: None }
    }
}

/// A local branch tracked in the stack tree.
#[derive(Debug)]
pub struct TrackedBranch {
    /// The branch name.
    pub name: String,
    /// The name of the parent branch; `None` only for the trunk.
    pub parent: Option<String>,
    /// The tip identifier the parent had when this branch was last known to
    /// be correctly based on it; `None` only for the trunk.
    pub parent_oid_cache: Option<String>,
    /// The names of the child branches. Unordered; no name appears twice.
    pub children: Vec<String>,
    /// Remote review metadata, present once the branch has been submitted.
    pub remote: Option<RemoteMetadata>,
}

impl TrackedBranch {
    /// The parent name as a sequence of characters.
    pub open spec fn parent_view(self) -> Option<Seq<char>> {
        match self.parent {
            Some(p) => Some(p@),
            None => None,
        }
    }

    /// The cached parent tip as a sequence of characters.
    pub open spec fn cache_view(self) -> Option<Seq<char>> {
        match self.parent_oid_cache {
            Some(c) => Some(c@),
            None => None,
        }
    }

    /// The child names as sequences of characters.
    pub open spec fn kids(self) -> Seq<Seq<char>> {
        self.children@.map_values(|c: String| c@)
    }

    /// Creates a branch with the given parent and cache, no children and no
    /// remote metadata.
    pub fn new(branch_name: String, parent: Option<String>, parent_oid_cache: Option<String>) -> (r: Self)
        ensures
            r.name == branch_name,
            r.parent == parent,
            r.parent_oid_cache == parent_oid_cache,
            r.children@.len() == 0,
            r.remote is None,
    {
        Self { name: branch_name, parent, parent_oid_cache, children: Vec::new(), remote: None }
    }
}

/// An n-ary tree of branches with a designated trunk root.
#[derive(Debug)]
pub struct StackTree {
    /// The name of the trunk branch.
    pub trunk_name: String,
    /// The tracked branches, in dependency order: the trunk first, and every
    /// other branch strictly after its parent.
    pub branches: Vec<TrackedBranch>,
}

impl StackTree {
    /// The number of tracked branches.
    pub open spec fn num(self) -> int {
        self.branches@.len() as int
    }

    /// The name of the branch stored at position `i`.
    pub open spec fn nm(self, i: int) -> Seq<char> {
        self.branches@[i].name@
    }

    /// Whether a branch with the given name is tracked.
    pub open spec fn has(self, n: Seq<char>) -> bool {
        exists|i: int| 0 <= i < self.num() && self.nm(i) == n
    }

    /// The position of the branch with the given name.
    pub open spec fn idx_of(self, n: Seq<char>) -> int {
        choose|i: int| 0 <= i < self.num() && self.nm(i) == n
    }

    /// The tracked branch with the given name.
    pub open spec fn node(self, n: Seq<char>) -> TrackedBranch {
        self.branches@[self.idx_of(n)]
    }

    /// No two tracked branches share a name.
    #[verifier::opaque]
    pub open spec fn names_unique(self) -> bool {
        forall|i: int, j: int| 0 <= i < j < self.num() ==> self.nm(i) != self.nm(j)
    }

    /// The trunk sits at position zero, carries the designated trunk name,
    /// and has neither parent nor parent tip cache.
    pub open spec fn rooted(self) -> bool {
        &&& self.num() >= 1
        &&& self.nm(0) == self.trunk_name@
        &&& self.branches@[0].parent is None
        &&& self.branches@[0].parent_oid_cache is None
    }

    /// Every branch other than the trunk names a parent that occurs strictly
    /// earlier in the store, and carries a cache entry for it.
    #[verifier::opaque]
    pub open spec fn parents_linked(self) -> bool {
        forall|i: int|
            1 <= i < self.num() ==> {
                &&& (#[trigger] self.branches@[i]).parent is Some
                &&& self.branches@[i].parent_oid_cache is Some
                &&& exists|j: int| 0 <= j < i && Some(#[trigger] self.nm(j)) == self.branches@[i].parent_view()
            }
    }

    /// Child lists are duplicate-free.
    #[verifier::opaque]
    pub open spec fn kids_nodup(self) -> bool {
        forall|i: int, a: int, b: int|
            0 <= i < self.num() && 0 <= a < b < self.branches@[i].kids().len()
                ==> #[trigger] self.branches@[i].kids()[a] != #[trigger] self.branches@[i].kids()[b]
    }

    /// The entry at position `k` of branch `i`'s child list names a tracked
    /// branch whose parent is branch `i`.
    pub open spec fn kid_back_at(self, i: int, k: int) -> bool {
        exists|c: int|
            0 <= c < self.num() && self.nm(c) == self.branches@[i].kids()[k]
                && self.branches@[c].parent_view() == Some(self.nm(i))
    }

    /// Every child entry denotes a tracked branch whose parent is the
    /// listing branch.
    #[verifier::opaque]
    pub open spec fn kids_point_back(self) -> bool {
        forall|i: int, k: int|
            0 <= i < self.num() && 0 <= k < self.branches@[i].kids().len()
                ==> #[trigger] self.kid_back_at(i, k)
    }

    /// Branch `c` stands in the child list of the branch it names as its
    /// parent.
    pub open spec fn kid_listed_at(self, c: int) -> bool {
        exists|i: int, k: int|
            0 <= i < self.num() && 0 <= k < self.branches@[i].kids().len()
                && Some(self.nm(i)) == self.branches@[c].parent_view()
                && self.branches@[i].kids()[k] == self.nm(c)
    }

    /// Every non-trunk branch is listed among its parent's children.
    #[verifier::opaque]
    pub open spec fn kids_listed(self) -> bool {
        forall|c: int| 1 <= c < self.num() ==> #[trigger] self.kid_listed_at(c)
    }

    /// Child lists are duplicate-free, every child entry denotes a tracked
    /// branch whose parent is the listing branch, and every non-trunk branch
    /// is listed among its parent's children.
    pub open spec fn kids_wf(self) -> bool {
        self.kids_nodup() && self.kids_point_back() && self.kids_listed()
    }

    /// The structural invariant of the stack tree.
    pub open spec fn wf(self) -> bool {
        &&& self.names_unique()
        &&& self.rooted()
        &&& self.parents_linked()
        &&& self.kids_wf()
    }

    /// A non-trunk branch's parent occupies a strictly earlier position.
    pub proof fn lemma_parent_idx_lt(self, i: int)
        requires
            self.wf(),
            0 <= i < self.num(),
            self.branches@[i].parent_view() is Some,
        ensures
            ({
                let p = self.branches@[i].parent_view()->Some_0;
                self.has(p) && 0 <= self.idx_of(p) < i
            }),
    {
        reveal(StackTree::names_unique);
        reveal(StackTree::parents_linked);
        let p = self.branches@[i].parent_view()->Some_0;
        assert(i >= 1) by {
            if i == 0 {
                assert(self.branches@[0].parent is None);
            }
        }
        let j = choose|j: int| 0 <= j < i && Some(#[trigger] self.nm(j)) == self.branches@[i].parent_view();
        assert(self.nm(j) == p);
        assert(self.has(p));
        let w = self.idx_of(p);
        assert(0 <= w < self.num() && self.nm(w) == p);
        if w != j {
            if w < j {
                assert(self.nm(w) != self.nm(j));
            } else {
                assert(self.nm(j) != self.nm(w));
            }
        }
    }

    /// Under name uniqueness, the position of a stored branch's name is that
    /// branch's position.
    pub proof fn lemma_idx_unique(self, i: int)
        requires
            self.names_unique(),
            0 <= i < self.num(),
        ensures
            self.has(self.nm(i)),
            self.idx_of(self.nm(i)) == i,
    {
        reveal(StackTree::names_unique);
        assert(self.has(self.nm(i)));
        let j = self.idx_of(self.nm(i));
        if j != i {
            if j < i {
                assert(self.nm(j) != self.nm(i));
            } else {
                assert(self.nm(i) != self.nm(j));
            }
        }
    }

    /// Creates a tree holding only the trunk.
    pub fn new(trunk_name: String) -> (r: Self)
        ensures
            r.wf(),
            r.trunk_name == trunk_name,
            r.num() == 1,
            r.nm(0) == trunk_name@,
            r.branches@[0].parent is None,
            r.branches@[0].parent_oid_cache is None,
            r.branches@[0].kids().len() == 0,
            r.branches@[0].remote is None,
            forall|n: Seq<char>| r.has(n) <==> n == trunk_name@,
    {
        let trunk = TrackedBranch::new(trunk_name.clone(), None, None);
        let mut branches: Vec<TrackedBranch> = Vec::new();
        branches.push(trunk);
        let r = Self { trunk_name, branches };
        proof {
            reveal(StackTree::names_unique);
            reveal(StackTree::parents_linked);
            reveal(StackTree::kids_nodup);
            reveal(StackTree::kids_point_back);
            reveal(StackTree::kids_listed);
            assert(r.nm(0) == r.trunk_name@);
            assert forall|n: Seq<char>| r.has(n) <==> n == r.trunk_name@ by {
                if r.has(n) {
                    let i = choose|i: int| 0 <= i < r.num() && r.nm(i) == n;
                    assert(i == 0);
                }
                if n == r.trunk_name@ {
                    assert(r.nm(0) == n);
                }
            }
        }
        r
    }

    /// Finds the position of the branch with the given name, scanning from
    /// the front.
    fn position_of(&self, branch_name: &String) -> (r: Option<usize>)
        ensures
            match r {
                Some(i) => 0 <= i < self.num() && self.nm(i as int) == branch_name@,
                None => !self.has(branch_name@),
            },
    {
        let n = self.branches.len();
        let mut i: usize = 0;
        while i < n
            invariant
                n == self.branches@.len(),
                i <= n,
                forall|j: int| 0 <= j < i ==> self.nm(j) != branch_name@,
            decreases n - i,
        {
            if self.branches[i].name == *branch_name {
                return Some(i);
            }
            i = i + 1;
        }
        None
    }

    /// Gets a branch by name; `None` if no branch with that name is tracked.
    pub fn get(&self, branch_name: &str) -> (r: Option<&TrackedBranch>)
        requires
            self.wf(),
        ensures
            r is Some <==> self.has(branch_name@),
            r matches Some(b) ==> *b == self.node(branch_name@),
    {
        let owned = branch_name.to_owned();
        match self.position_of(&owned) {
            Some(i) => {
                proof {
                    self.lemma_idx_unique(i as int);
                }
                Some(&self.branches[i])
            }
            None => None,
        }
    }

    /// Gets a mutable branch by name; `None` if no branch with that name is
    /// tracked. The tree afterwards holds, at the same position, whatever
    /// value the caller leaves behind the returned reference; the caller is
    /// responsible for re-establishing the structural invariant.
    pub fn get_mut(&mut self, branch_name: &str) -> (r: Option<&mut TrackedBranch>)
        requires
            old(self).wf(),
        ensures
            r is Some <==> old(self).has(branch_name@),
            r matches Some(b) ==> {
                &&& *b == old(self).node(branch_name@)
                &&& final(self).trunk_name == old(self).trunk_name
                &&& final(self).branches@ == old(self).branches@.update(
                    old(self).idx_of(branch_name@),
                    *final(b),
                )
            },
            r is None ==> *final(self) == *old(self),
    {
        let owned = branch_name.to_owned();
        match self.position_of(&owned) {
            Some(i) => {
                proof {
                    old(self).lemma_idx_unique(i as int);
                }
                Some(&mut self.branches[i])
            }
            None => None,
        }
    }

    /// Tracks a new branch under the given parent, recording the parent's
    /// current tip in the new branch's cache. The new branch has no children
    /// and no remote metadata. Fails if the parent is not tracked, or if the
    /// branch is already tracked.
    /// The relation between a tree and its successor after appending a
    /// fresh branch named `bn` under the parent at position `pii`.
    spec fn grows_by_child(t0: Self, t2: Self, pii: int, bn: Seq<char>) -> bool {
        &&& 0 <= pii < t0.num()
        &&& !t0.has(bn)
        &&& t2.trunk_name == t0.trunk_name
        &&& t2.num() == t0.num() + 1
        &&& (forall|i: int| 0 <= i < t0.num() && i != pii ==> t2.branches@[i] == t0.branches@[i])
        &&& t2.branches@[pii].name == t0.branches@[pii].name
        &&& t2.branches@[pii].parent == t0.branches@[pii].parent
        &&& t2.branches@[pii].parent_oid_cache == t0.branches@[pii].parent_oid_cache
        &&& t2.branches@[pii].remote == t0.branches@[pii].remote
        &&& t2.branches@[pii].kids() == t0.branches@[pii].kids().push(bn)
        &&& t2.branches@[t0.num()].name@ == bn
        &&& t2.branches@[t0.num()].parent_view() == Some(t0.nm(pii))
        &&& t2.branches@[t0.num()].parent_oid_cache is Some
        &&& t2.branches@[t0.num()].kids().len() == 0
    }

    #[verifier::spinoff_prover]
    proof fn lemma_insert_names(t0: Self, t2: Self, pii: int, bn: Seq<char>)
        requires
            t0.wf(),
            Self::grows_by_child(t0, t2, pii, bn),
        ensures
            forall|i: int| 0 <= i < t0.num() ==> #[trigger] t2.nm(i) == t0.nm(i),
            t2.nm(t0.num()) == bn,
            forall|i: int| 0 <= i < t0.num() ==> #[trigger] t0.nm(i) != bn,
            t2.names_unique(),
            t2.rooted(),
    {
        reveal(StackTree::names_unique);
        assert forall|i: int| 0 <= i < t0.num() implies #[trigger] t2.nm(i) == t0.nm(i) by {}
        assert forall|i: int| 0 <= i < t0.num() implies #[trigger] t0.nm(i) != bn by {
            if t0.nm(i) == bn {
                assert(t0.has(bn));
            }
        }
    }

    #[verifier::spinoff_prover]
    proof fn lemma_insert_parents(t0: Self, t2: Self, pii: int, bn: Seq<char>)
        requires
            t0.wf(),
            Self::grows_by_child(t0, t2, pii, bn),
        ensures
            t2.parents_linked(),
    {
        reveal(StackTree::parents_linked);
        Self::lemma_insert_names(t0, t2, pii, bn);
        let n0 = t0.num();
        assert forall|i: int| 1 <= i < t2.num() implies {
            &&& (#[trigger] t2.branches@[i]).parent is Some
            &&& t2.branches@[i].parent_oid_cache is Some
            &&& exists|j: int| 0 <= j < i && Some(#[trigger] t2.nm(j)) == t2.branches@[i].parent_view()
        } by {
            if i < n0 {
                assert(t2.branches@[i].parent == t0.branches@[i].parent);
                let j = choose|j: int|
                    0 <= j < i && Some(#[trigger] t0.nm(j)) == t0.branches@[i].parent_view();
                assert(Some(t2.nm(j)) == t2.branches@[i].parent_view());
            } else {
                assert(Some(t2.nm(pii)) == t2.branches@[i].parent_view());
            }
        }
    }

    #[verifier::spinoff_prover]
    proof fn lemma_insert_kids_nodup(t0: Self, t2: Self, pii: int, bn: Seq<char>)
        requires
            t0.wf(),
            Self::grows_by_child(t0, t2, pii, bn),
        ensures
            t2.kids_nodup(),
    {
        reveal(StackTree::kids_nodup);
        reveal(StackTree::kids_point_back);
        Self::lemma_insert_names(t0, t2, pii, bn);
        let n0 = t0.num();
        assert forall|i: int, a: int, b: int|
            0 <= i < t2.num() && 0 <= a < b < t2.branches@[i].kids().len() implies #[trigger] t2.branches@[i].kids()[a]
            != #[trigger] t2.branches@[i].kids()[b] by {
            if i == pii {
                let k0 = t0.branches@[pii].kids();
                if b < k0.len() {
                    assert(t0.branches@[i].kids()[a] != t0.branches@[i].kids()[b]);
                } else {
                    // the new entry's name is not among the old ones, because
                    // every old entry names a branch tracked before
                    assert(t0.kid_back_at(pii, a));
                    let c = choose|c: int|
                        0 <= c < n0 && t0.nm(c) == #[trigger] t0.branches@[pii].kids()[a]
                            && t0.branches@[c].parent_view() == Some(t0.nm(pii));
                    assert(t0.nm(c) != bn);
                }
            } else if i < n0 {
                assert(t0.branches@[i].kids()[a] != t0.branches@[i].kids()[b]);
            } else {
                assert(t2.branches@[i].kids().len() == 0);
            }
        }
    }

    #[verifier::spinoff_prover]
    proof fn lemma_insert_kids_back(t0: Self, t2: Self, pii: int, bn: Seq<char>)
        requires
            t0.wf(),
            Self::grows_by_child(t0, t2, pii, bn),
        ensures
            t2.kids_point_back(),
    {
        reveal(StackTree::kids_point_back);
        Self::lemma_insert_names(t0, t2, pii, bn);
        let n0 = t0.num();
        assert forall|i: int, k: int|
            0 <= i < t2.num() && 0 <= k < t2.branches@[i].kids().len() implies #[trigger] t2.kid_back_at(
            i,
            k,
        ) by {
            if i == pii && k == t0.branches@[pii].kids().len() {
                assert(t2.nm(n0) == t2.branches@[i].kids()[k]
                    && t2.branches@[n0].parent_view() == Some(t2.nm(i)));
            } else if i < n0 {
                assert(t2.branches@[i].kids()[k] == t0.branches@[i].kids()[k]);
                assert(t0.kid_back_at(i, k));
                let c = choose|c: int|
                    0 <= c < n0 && t0.nm(c) == #[trigger] t0.branches@[i].kids()[k]
                        && t0.branches@[c].parent_view() == Some(t0.nm(i));
                assert(t2.nm(c) == t2.branches@[i].kids()[k]
                    && t2.branches@[c].parent_view() == Some(t2.nm(i)));
            }
        }
    }

    #[verifier::spinoff_prover]
    proof fn lemma_insert_kids_listed(t0: Self, t2: Self, pii: int, bn: Seq<char>)
        requires
            t0.wf(),
            Self::grows_by_child(t0, t2, pii, bn),
        ensures
            t2.kids_listed(),
    {
        reveal(StackTree::kids_listed);
        Self::lemma_insert_names(t0, t2, pii, bn);
        let n0 = t0.num();
        assert forall|c: int| 1 <= c < t2.num() implies #[trigger] t2.kid_listed_at(c) by {
            if c < n0 {
                assert(t0.kid_listed_at(c));
                let (i, k): (int, int) = choose|i: int, k: int|
                    0 <= i < n0 && 0 <= k < t0.branches@[i].kids().len()
                        && Some(t0.nm(i)) == (#[trigger] t0.branches@[c]).parent_view()
                        && t0.branches@[i].kids()[k] == t0.nm(c);
                assert(0 <= i < t2.num() && 0 <= k < t2.branches@[i].kids().len()
                    && Some(t2.nm(i)) == t2.branches@[c].parent_view()
                    && t2.branches@[i].kids()[k] == t2.nm(c));
            } else {
                let k = t0.branches@[pii].kids().len() as int;
                assert(0 <= pii < t2.num() && 0 <= k < t2.branches@[pii].kids().len()
                    && Some(t2.nm(pii)) == t2.branches@[c].parent_view()
                    && t2.branches@[pii].kids()[k] == t2.nm(c));
            }
        }
    }

    #[verifier::spinoff_prover]
    proof fn lemma_insert_has(t0: Self, t2: Self, pii: int, bn: Seq<char>)
        requires
            t0.wf(),
            Self::grows_by_child(t0, t2, pii, bn),
        ensures
            forall|n: Seq<char>|
                #![trigger t2.has(n)]
                #![trigger t0.has(n)]
                t2.has(n) <==> (t0.has(n) || n == bn),
    {
        Self::lemma_insert_names(t0, t2, pii, bn);
        let n0 = t0.num();
        assert forall|n: Seq<char>|
            #![trigger t2.has(n)]
            #![trigger t0.has(n)]
            t2.has(n) <==> (t0.has(n) || n == bn) by {
            if t2.has(n) {
                let i = choose|i: int| 0 <= i < t2.num() && t2.nm(i) == n;
                if i < n0 {
                    assert(t0.nm(i) == n);
                    assert(t0.has(n));
                }
            }
            if t0.has(n) {
                let i = choose|i: int| 0 <= i < n0 && t0.nm(i) == n;
                assert(t2.nm(i) == n);
                assert(t2.has(n));
            }
            if n == bn {
                assert(t2.nm(n0) == n);
                assert(t2.has(n));
            }
        }
    }

    /// After appending a fresh branch under the parent at position `pii`,
    /// the structural invariant is re-established, the tracked-name set
    /// grows by exactly the new name, and every other branch is unchanged.
    #[verifier::rlimit(100)]
    #[verifier::spinoff_prover]
    proof fn lemma_insert_shape(t0: Self, t2: Self, pii: int, bn: Seq<char>)
        requires
            t0.wf(),
            Self::grows_by_child(t0, t2, pii, bn),
        ensures
            t2.wf(),
            forall|n: Seq<char>|
                #![trigger t2.has(n)]
                #![trigger t0.has(n)]
                t2.has(n) <==> (t0.has(n) || n == bn),
            t2.node(bn) == t2.branches@[t0.num()],
            t2.node(t0.nm(pii)) == t2.branches@[pii],
            t0.node(t0.nm(pii)) == t0.branches@[pii],
            forall|n: Seq<char>|
                #![trigger t2.node(n)]
                #![trigger t0.node(n)]
                t0.has(n) && n != t0.nm(pii) ==> t2.node(n) == t0.node(n),
    {
        let n0 = t0.num();
        Self::lemma_insert_names(t0, t2, pii, bn);
        Self::lemma_insert_parents(t0, t2, pii, bn);
        Self::lemma_insert_kids_nodup(t0, t2, pii, bn);
        Self::lemma_insert_kids_back(t0, t2, pii, bn);
        Self::lemma_insert_kids_listed(t0, t2, pii, bn);
        Self::lemma_insert_has(t0, t2, pii, bn);
        assert(t2.wf());
        // pin the positions used by name-indexed lookups
        t2.lemma_idx_unique(n0);
        t2.lemma_idx_unique(pii);
        t0.lemma_idx_unique(pii);
        assert forall|n: Seq<char>|
            #![trigger t2.node(n)]
            #![trigger t0.node(n)]
            t0.has(n) && n != t0.nm(pii) implies t2.node(n) == t0.node(n) by {
            let i = t0.idx_of(n);
            assert(0 <= i < n0 && t0.nm(i) == n);
            t0.lemma_idx_unique(i);
            t2.lemma_idx_unique(i);
            assert(i != pii);
            assert(t2.branches@[i] == t0.branches@[i]);
        }
    }

    pub fn insert(&mut self, parent_name: &str, parent_oid_cache: &str, branch_name: &str) -> (r:
        Result<(), StError>)
        requires
            old(self).wf(),
        ensures
            final(self).wf(),
            !old(self).has(parent_name@) ==> (r matches Err(StError::BranchNotTracked(n))
                && n@ == parent_name@ && *final(self) == *old(self)),
            old(self).has(parent_name@) && old(self).has(branch_name@) ==> (r matches Err(
                StError::BranchAlreadyTracked(n),
            ) && n@ == branch_name@ && *final(self) == *old(self)),
            old(self).has(parent_name@) && !old(self).has(branch_name@) ==> {
                &&& r is Ok
                &&& final(self).trunk_name == old(self).trunk_name
                &&& final(self).num() == old(self).num() + 1
                &&& forall|n: Seq<char>|
                    #![trigger final(self).has(n)]
                    #![trigger old(self).has(n)]
                    final(self).has(n) <==> (old(self).has(n) || n == branch_name@)
                &&& {
                    let nb = final(self).node(branch_name@);
                    &&& nb.name@ == branch_name@
                    &&& nb.parent_view() == Some(parent_name@)
                    &&& nb.cache_view() == Some(parent_oid_cache@)
                    &&& nb.kids().len() == 0
                    &&& nb.remote is None
                }
                &&& {
                    let po = old(self).node(parent_name@);
                    let pn = final(self).node(parent_name@);
                    &&& pn.name == po.name
                    &&& pn.parent == po.parent
                    &&& pn.parent_oid_cache == po.parent_oid_cache
                    &&& pn.remote == po.remote
                    &&& pn.kids() == po.kids().push(branch_name@)
                }
                &&& forall|n: Seq<char>|
                    #![trigger final(self).node(n)]
                    #![trigger old(self).node(n)]
                    old(self).has(n) && n != parent_name@ ==> final(self).node(n) == old(
                        self,
                    ).node(n)
            },
    {
        let owned_parent = parent_name.to_owned();
        let pi = match self.position_of(&owned_parent) {
            Some(pi) => pi,
            None => {
                return Err(StError::BranchNotTracked(owned_parent));
            },
        };
        let owned_branch = branch_name.to_owned();
        if self.position_of(&owned_branch).is_some() {
            return Err(StError::BranchAlreadyTracked(owned_branch));
        }
        proof {
            old(self).lemma_idx_unique(pi as int);
        }
        self.branches[pi].children.push(branch_name.to_owned());
        let child = TrackedBranch::new(
            owned_branch,
            Some(owned_parent),
            Some(parent_oid_cache.to_owned()),
        );
        self.branches.push(child);
        proof {
            let t0 = *old(self);
            let t2 = *self;
            let pii = pi as int;
            assert(t2.branches@[pii].kids() =~= t0.branches@[pii].kids().push(branch_name@));
            assert(t2.branches@[t0.num()].parent_view() == Some(t0.nm(pii)));
            Self::lemma_insert_shape(t0, t2, pii, branch_name@);
            assert(t0.nm(pii) == parent_name@);
            assert(t2.node(branch_name@).cache_view() == Some(parent_oid_cache@));
        }
        Ok(())
    }

    /// A branch's name stands in another branch's child list exactly when
    /// the former names the latter as its parent.
    pub proof fn lemma_child_link(self, i: int, c: int)
        requires
            self.wf(),
            0 <= i < self.num(),
            1 <= c < self.num(),
        ensures
            self.branches@[i].kids().contains(self.nm(c)) <==> Some(self.nm(i))
                == self.branches@[c].parent_view(),
    {
        reveal(StackTree::names_unique);
        reveal(StackTree::kids_point_back);
        reveal(StackTree::kids_listed);
        if self.branches@[i].kids().contains(self.nm(c)) {
            let k = choose|k: int|
                0 <= k < self.branches@[i].kids().len() && self.branches@[i].kids()[k] == self.nm(
                    c,
                );
            assert(self.kid_back_at(i, k));
            let c2 = choose|c2: int|
                0 <= c2 < self.num() && self.nm(c2) == #[trigger] self.branches@[i].kids()[k]
                    && self.branches@[c2].parent_view() == Some(self.nm(i));
            assert(c2 == c) by {
                if c2 != c {
                    if c2 < c {
                        assert(self.nm(c2) != self.nm(c));
                    } else {
                        assert(self.nm(c) != self.nm(c2));
                    }
                }
            }
        }
        if Some(self.nm(i)) == self.branches@[c].parent_view() {
            assert(self.kid_listed_at(c));
            let (i2, k): (int, int) = choose|i2: int, k: int|
                0 <= i2 < self.num() && 0 <= k < self.branches@[i2].kids().len()
                    && Some(self.nm(i2)) == (#[trigger] self.branches@[c]).parent_view()
                    && self.branches@[i2].kids()[k] == self.nm(c);
            assert(i2 == i) by {
                if i2 != i {
                    if i2 < i {
                        assert(self.nm(i2) != self.nm(i));
                    } else {
                        assert(self.nm(i) != self.nm(i2));
                    }
                }
            }
            assert(self.branches@[i].kids().contains(self.nm(c)));
        }
    }

    /// The relation between a tree and its successor midway through
    /// deleting the branch at position `di`: the branch is gone from the
    /// store and from the child list of its parent (at position `pi`, old
    /// entry `q`), and the first `j` of its children have been re-parented
    /// onto that parent and merged into its child list.
    spec fn deleting_shape(t0: Self, t2: Self, di: int, pi: int, q: int, j: int) -> bool {
        let d = t0.branches@[di];
        &&& 1 <= di < t0.num()
        &&& 0 <= pi < di
        &&& Some(t0.nm(pi)) == d.parent_view()
        &&& 0 <= q < t0.branches@[pi].kids().len()
        &&& t0.branches@[pi].kids()[q] == t0.nm(di)
        &&& 0 <= j <= d.kids().len()
        &&& t2.trunk_name == t0.trunk_name
        &&& t2.num() == t0.num() - 1
        &&& forall|i: int|
            #![trigger t2.branches@[i]]
            0 <= i < t2.num() ==> {
                let oi = if i < di {
                    i
                } else {
                    i + 1
                };
                let b0 = t0.branches@[oi];
                let b2 = t2.branches@[i];
                &&& b2.name == b0.name
                &&& b2.parent_oid_cache == b0.parent_oid_cache
                &&& b2.remote == b0.remote
                &&& (oi == pi ==> b2.parent == b0.parent && b2.kids() == b0.kids().remove(q)
                    + d.kids().take(j))
                &&& (oi != pi && d.kids().take(j).contains(b0.name@) ==> b2.parent_view() == Some(
                    t0.nm(pi),
                ) && b2.children == b0.children)
                &&& (oi != pi && !d.kids().take(j).contains(b0.name@) ==> b2.parent == b0.parent
                    && b2.children == b0.children)
            }
    }

    /// The deletion relation once every child has been re-parented.
    spec fn deleted_shape(t0: Self, t2: Self, di: int, pi: int, q: int) -> bool {
        Self::deleting_shape(t0, t2, di, pi, q, t0.branches@[di].kids().len() as int)
    }

    #[verifier::spinoff_prover]
    proof fn lemma_delete_names(t0: Self, t2: Self, di: int, pi: int, q: int)
        requires
            t0.wf(),
            Self::deleted_shape(t0, t2, di, pi, q),
        ensures
            forall|i: int|
                0 <= i < t2.num() ==> #[trigger] t2.nm(i) == t0.nm(
                    if i < di {
                        i
                    } else {
                        i + 1
                    },
                ),
            t2.names_unique(),
            t2.rooted(),
    {
        reveal(StackTree::names_unique);
        let d = t0.branches@[di];
        assert forall|i: int| 0 <= i < t2.num() implies #[trigger] t2.nm(i) == t0.nm(
            if i < di {
                i
            } else {
                i + 1
            },
        ) by {
            assert(t2.branches@[i].name == t0.branches@[if i < di {
                i
            } else {
                i + 1
            }].name);
        }
        assert forall|i: int, i2: int| 0 <= i < i2 < t2.num() implies t2.nm(i) != t2.nm(i2) by {
            let oi = if i < di {
                i
            } else {
                i + 1
            };
            let oi2 = if i2 < di {
                i2
            } else {
                i2 + 1
            };
            assert(oi < oi2);
            assert(t0.nm(oi) != t0.nm(oi2));
        }
        // position zero survives: the trunk is never a child of the deleted
        // branch, because it has no parent at all
        assert(t2.nm(0) == t0.nm(0));
        if d.kids().take(d.kids().len() as int).contains(t0.nm(0)) {
            reveal(StackTree::kids_point_back);
            let k = choose|k: int|
                0 <= k < d.kids().len() && d.kids()[k] == t0.nm(0);
            assert(t0.kid_back_at(di, k));
            let c = choose|c: int|
                0 <= c < t0.num() && t0.nm(c) == #[trigger] d.kids()[k]
                    && t0.branches@[c].parent_view() == Some(t0.nm(di));
            assert(c == 0) by {
                if c != 0 {
                    assert(t0.nm(0) != t0.nm(c));
                }
            }
            assert(false);
        }
        if pi == 0 {
            assert(t2.branches@[0].parent == t0.branches@[0].parent);
        }
    }

    #[verifier::spinoff_prover]
    proof fn lemma_delete_parents(t0: Self, t2: Self, di: int, pi: int, q: int)
        requires
            t0.wf(),
            Self::deleted_shape(t0, t2, di, pi, q),
        ensures
            t2.parents_linked(),
    {
        reveal(StackTree::names_unique);
        reveal(StackTree::parents_linked);
        Self::lemma_delete_names(t0, t2, di, pi, q);
        let d = t0.branches@[di];
        let jlen = d.kids().len() as int;
        assert(d.kids().take(jlen) == d.kids());
        assert forall|i: int| 1 <= i < t2.num() implies {
            &&& (#[trigger] t2.branches@[i]).parent is Some
            &&& t2.branches@[i].parent_oid_cache is Some
            &&& exists|j: int| 0 <= j < i && Some(#[trigger] t2.nm(j)) == t2.branches@[i].parent_view()
        } by {
            let oi = if i < di {
                i
            } else {
                i + 1
            };
            let b0 = t0.branches@[oi];
            assert(t2.branches@[i].parent_oid_cache == b0.parent_oid_cache);
            if oi != pi && d.kids().contains(b0.name@) {
                // re-parented child: its parent now sits where the deleted
                // branch's parent sits, which is before the child
                assert(t2.branches@[i].parent_view() == Some(t0.nm(pi)));
                assert(pi < di);
                // the child sat after the deleted branch in the old order
                assert(t2.nm(pi) == t0.nm(pi));
                assert(0 <= pi < i || pi < di <= i) by {
                    if oi <= di {
                        // a child of the deleted branch cannot sit before it:
                        // its parent link would point forward
                        if oi < di {
                            let k = choose|k: int|
                                0 <= k < d.kids().len() && d.kids()[k] == b0.name@;
                            reveal(StackTree::kids_point_back);
                            assert(t0.kid_back_at(di, k));
                            let c = choose|c: int|
                                0 <= c < t0.num() && t0.nm(c) == #[trigger] d.kids()[k]
                                    && t0.branches@[c].parent_view() == Some(t0.nm(di));
                            assert(c == oi) by {
                                if c < oi {
                                    assert(t0.nm(c) != t0.nm(oi));
                                } else if c > oi {
                                    assert(t0.nm(oi) != t0.nm(c));
                                }
                            }
                            // oi's parent is the branch at di, so di < oi
                            let j2 = choose|j2: int|
                                0 <= j2 < oi && Some(#[trigger] t0.nm(j2)) == t0.branches@[oi].parent_view();
                            assert(t0.nm(j2) == t0.nm(di));
                            assert(j2 == di) by {
                                if j2 < di {
                                    assert(t0.nm(j2) != t0.nm(di));
                                } else if j2 > di {
                                    assert(t0.nm(di) != t0.nm(j2));
                                }
                            }
                            assert(false);
                        }
                    }
                }
                assert(0 <= pi < i && Some(t2.nm(pi)) == t2.branches@[i].parent_view());
            } else if oi == pi {
                let j0 = choose|j0: int|
                    0 <= j0 < oi && Some(#[trigger] t0.nm(j0)) == t0.branches@[oi].parent_view();
                assert(j0 != di) by {
                    if j0 == di {
                        assert(pi < di);
                    }
                }
                let jn = if j0 < di {
                    j0
                } else {
                    j0 - 1
                };
                assert(t2.nm(jn) == t0.nm(j0));
                assert(0 <= jn < i && Some(t2.nm(jn)) == t2.branches@[i].parent_view());
            } else {
                // unchanged branch: its parent is not the deleted branch
                assert(t2.branches@[i].parent == b0.parent);
                let j0 = choose|j0: int|
                    0 <= j0 < oi && Some(#[trigger] t0.nm(j0)) == t0.branches@[oi].parent_view();
                assert(j0 != di) by {
                    if j0 == di {
                        // then the branch would be a child of the deleted one
                        t0.lemma_child_link(di, oi);
                        assert(d.kids().contains(b0.name@));
                    }
                }
                let jn = if j0 < di {
                    j0
                } else {
                    j0 - 1
                };
                assert(t2.nm(jn) == t0.nm(j0));
                assert(jn < i);
                assert(0 <= jn < i && Some(t2.nm(jn)) == t2.branches@[i].parent_view());
            }
        }
    }

    /// Membership in a duplicate-free list after removing entry `q`.
    proof fn lemma_remove_contains(s: Seq<Seq<char>>, q: int, c: Seq<char>)
        requires
            0 <= q < s.len(),
            forall|a: int, b: int| 0 <= a < b < s.len() ==> s[a] != s[b],
        ensures
            s.remove(q).contains(c) <==> (s.contains(c) && c != s[q]),
    {
        if s.remove(q).contains(c) {
            let x = choose|x: int| 0 <= x < s.remove(q).len() && s.remove(q)[x] == c;
            if x < q {
                assert(s[x] == c);
                assert(s[x] != s[q]);
            } else {
                assert(s[x + 1] == c);
                assert(s[q] != s[x + 1]);
            }
            assert(s.contains(c));
        }
        if s.contains(c) && c != s[q] {
            let x = choose|x: int| 0 <= x < s.len() && s[x] == c;
            if x < q {
                assert(s.remove(q)[x] == c);
            } else {
                assert(x != q);
                assert(s.remove(q)[x - 1] == c);
            }
            assert(s.remove(q).contains(c));
        }
    }

    #[verifier::spinoff_prover]
    proof fn lemma_delete_kids_nodup(t0: Self, t2: Self, di: int, pi: int, q: int)
        requires
            t0.wf(),
            Self::deleted_shape(t0, t2, di, pi, q),
        ensures
            t2.kids_nodup(),
    {
        reveal(StackTree::names_unique);
        reveal(StackTree::kids_nodup);
        Self::lemma_delete_names(t0, t2, di, pi, q);
        let d = t0.branches@[di];
        let jlen = d.kids().len() as int;
        assert(d.kids().take(jlen) == d.kids());
        assert forall|i: int, a: int, b: int|
            0 <= i < t2.num() && 0 <= a < b < t2.branches@[i].kids().len() implies #[trigger] t2.branches@[i].kids()[a]
            != #[trigger] t2.branches@[i].kids()[b] by {
            let oi = if i < di {
                i
            } else {
                i + 1
            };
            if oi == pi {
                let k0 = t0.branches@[pi].kids();
                let rest = k0.remove(q);
                assert(t2.branches@[i].kids() == rest + d.kids());
                if b < rest.len() {
                    // two old entries
                    Self::lemma_remove_contains(k0, q, rest[a]);
                    if a < q {
                        if b < q {
                            assert(k0[a] != k0[b]);
                        } else {
                            assert(k0[a] != k0[b + 1]);
                        }
                    } else {
                        assert(k0[a + 1] != k0[b + 1]);
                    }
                } else if a < rest.len() {
                    // one old entry, one merged child: the old entry's branch
                    // has the parent as parent, the merged child had the
                    // deleted branch
                    let ca = rest[a];
                    let cb = d.kids()[b - rest.len()];
                    Self::lemma_remove_contains(k0, q, ca);
                    assert(k0.contains(ca));
                    reveal(StackTree::kids_point_back);
                    let xk = choose|xk: int| 0 <= xk < k0.len() && k0[xk] == ca;
                    assert(t0.kid_back_at(pi, xk));
                    let xa = choose|xa: int|
                        0 <= xa < t0.num() && t0.nm(xa) == #[trigger] k0[xk]
                            && t0.branches@[xa].parent_view() == Some(t0.nm(pi));
                    let yk = choose|yk: int| 0 <= yk < d.kids().len() && d.kids()[yk] == cb;
                    assert(t0.kid_back_at(di, yk));
                    let xb = choose|xb: int|
                        0 <= xb < t0.num() && t0.nm(xb) == #[trigger] d.kids()[yk]
                            && t0.branches@[xb].parent_view() == Some(t0.nm(di));
                    if ca == cb {
                        assert(xa == xb) by {
                            if xa < xb {
                                assert(t0.nm(xa) != t0.nm(xb));
                            } else if xb < xa {
                                assert(t0.nm(xb) != t0.nm(xa));
                            }
                        }
                        assert(t0.nm(pi) == t0.nm(di));
                        assert(false);
                    }
                } else {
                    // two merged children
                    assert(d.kids()[a - rest.len()] != d.kids()[b - rest.len()]);
                }
            } else {
                assert(t2.branches@[i].children == t0.branches@[oi].children);
                assert(t0.branches@[oi].kids()[a] != t0.branches@[oi].kids()[b]);
            }
        }
    }

    #[verifier::spinoff_prover]
    proof fn lemma_delete_kids_back(t0: Self, t2: Self, di: int, pi: int, q: int)
        requires
            t0.wf(),
            Self::deleted_shape(t0, t2, di, pi, q),
        ensures
            t2.kids_point_back(),
    {
        reveal(StackTree::names_unique);
        reveal(StackTree::kids_point_back);
        Self::lemma_delete_names(t0, t2, di, pi, q);
        let d = t0.branches@[di];
        let jlen = d.kids().len() as int;
        assert(d.kids().take(jlen) == d.kids());
        assert forall|i: int, k: int|
            0 <= i < t2.num() && 0 <= k < t2.branches@[i].kids().len() implies #[trigger] t2.kid_back_at(
            i,
            k,
        ) by {
            let oi = if i < di {
                i
            } else {
                i + 1
            };
            let entry = t2.branches@[i].kids()[k];
            // find the old branch the entry named, and show it survives
            let (xo, opar): (int, Seq<char>) = if oi == pi {
                let k0 = t0.branches@[pi].kids();
                let rest = k0.remove(q);
                if k < rest.len() {
                    let kk = if k < q {
                        k
                    } else {
                        k + 1
                    };
                    assert(k0[kk] == entry);
                    assert(t0.kid_back_at(pi, kk));
                    let x = choose|x: int|
                        0 <= x < t0.num() && t0.nm(x) == #[trigger] k0[kk]
                            && t0.branches@[x].parent_view() == Some(t0.nm(pi));
                    (x, t0.nm(pi))
                } else {
                    let kk = k - rest.len();
                    assert(d.kids()[kk] == entry);
                    assert(t0.kid_back_at(di, kk));
                    let x = choose|x: int|
                        0 <= x < t0.num() && t0.nm(x) == #[trigger] d.kids()[kk]
                            && t0.branches@[x].parent_view() == Some(t0.nm(di));
                    (x, t0.nm(di))
                }
            } else {
                assert(t2.branches@[i].children == t0.branches@[oi].children);
                assert(t0.branches@[oi].kids()[k] == entry);
                assert(t0.kid_back_at(oi, k));
                let x = choose|x: int|
                    0 <= x < t0.num() && t0.nm(x) == #[trigger] t0.branches@[oi].kids()[k]
                        && t0.branches@[x].parent_view() == Some(t0.nm(oi));
                (x, t0.nm(oi))
            };
            // the named branch is not the deleted one: the deleted branch is
            // only listed by its parent, and that entry was removed
            assert(xo != di) by {
                if xo == di {
                    // entry == t0.nm(di); whoever lists it has it as parent
                    assert(t0.branches@[di].parent_view() == Some(opar));
                    if oi == pi {
                        let k0 = t0.branches@[pi].kids();
                        let rest = k0.remove(q);
                        if k < rest.len() {
                            // the deleted branch's name occurs twice in the
                            // parent's list, contradicting duplicate-freedom
                            reveal(StackTree::kids_nodup);
                            let kk = if k < q {
                                k
                            } else {
                                k + 1
                            };
                            assert(k0[kk] == t0.nm(di) && k0[q] == t0.nm(di) && kk != q);
                            if kk < q {
                                assert(k0[kk] != k0[q]);
                            } else {
                                assert(k0[q] != k0[kk]);
                            }
                        } else {
                            // the deleted branch would be its own child
                            assert(opar == t0.nm(di));
                            assert(t0.branches@[di].parent_view() == Some(t0.nm(di)));
                            reveal(StackTree::parents_linked);
                            let j2 = choose|j2: int|
                                0 <= j2 < di && Some(#[trigger] t0.nm(j2)) == t0.branches@[di].parent_view();
                            assert(j2 == di) by {
                                if j2 < di {
                                    assert(t0.nm(j2) != t0.nm(di));
                                }
                            }
                        }
                    } else {
                        // some other branch lists the deleted branch, so the
                        // deleted branch's parent would be that branch, yet
                        // its parent is the branch at `pi`
                        assert(opar == t0.nm(oi));
                        assert(Some(t0.nm(pi)) == d.parent_view());
                        assert(t0.nm(oi) == t0.nm(pi));
                        if oi < pi {
                            assert(t0.nm(oi) != t0.nm(pi));
                        } else if pi < oi {
                            assert(t0.nm(pi) != t0.nm(oi));
                        }
                        assert(oi == pi);
                    }
                }
            }
            let xn = if xo < di {
                xo
            } else {
                xo - 1
            };
            assert(t2.nm(xn) == t0.nm(xo));
            assert(1 <= xo) by {
                if xo == 0 {
                    assert(t0.branches@[0].parent is None);
                }
            }
            // decide how the named branch's parent reads after deletion
            if opar == t0.nm(di) {
                // it was a child of the deleted branch and is re-parented;
                // its new parent is the deleted branch's parent, and the
                // listing branch is that parent
                t0.lemma_child_link(di, xo);
                assert(d.kids().contains(t0.nm(xo)));
                assert(xo != pi) by {
                    if xo == pi {
                        assert(t0.branches@[pi].parent_view() == Some(t0.nm(di)));
                        reveal(StackTree::parents_linked);
                        if pi >= 1 {
                            let j2 = choose|j2: int|
                                0 <= j2 < pi && Some(#[trigger] t0.nm(j2)) == t0.branches@[pi].parent_view();
                            assert(t0.nm(j2) == t0.nm(di));
                            assert(j2 == di) by {
                                if j2 < di {
                                    assert(t0.nm(j2) != t0.nm(di));
                                }
                            }
                        } else {
                            assert(t0.branches@[0].parent is None);
                        }
                    }
                }
                assert(t2.branches@[xn].parent_view() == Some(t0.nm(pi)));
                // the listing position is the parent's position
                assert(oi == pi) by {
                    if oi != pi {
                        assert(t2.branches@[i].children == t0.branches@[oi].children);
                        // then the old tree listed this child under two
                        // different branches
                        t0.lemma_child_link(oi, xo);
                        assert(Some(t0.nm(oi)) == t0.branches@[xo].parent_view());
                        assert(t0.nm(oi) == t0.nm(di));
                        if oi < di {
                            assert(t0.nm(oi) != t0.nm(di));
                        } else if di < oi {
                            assert(t0.nm(di) != t0.nm(oi));
                        }
                    }
                }
                assert(t2.nm(i) == t0.nm(pi));
                assert(0 <= xn < t2.num() && t2.nm(xn) == entry
                    && t2.branches@[xn].parent_view() == Some(t2.nm(i)));
            } else {
                // its parent is unchanged; in particular it was not a child
                // of the deleted branch
                assert(opar == t0.nm(oi) || (oi == pi && opar == t0.nm(pi)));
                assert(t0.branches@[xo].parent_view() == Some(t0.nm(oi)));
                assert(!d.kids().contains(t0.nm(xo))) by {
                    if d.kids().contains(t0.nm(xo)) {
                        t0.lemma_child_link(di, xo);
                        assert(t0.nm(oi) == t0.nm(di));
                        if oi < di {
                            assert(t0.nm(oi) != t0.nm(di));
                        } else if di < oi {
                            assert(t0.nm(di) != t0.nm(oi));
                        }
                        assert(oi == di);
                    }
                }
                assert(t2.branches@[xn].parent_view() == Some(t0.nm(oi)));
                assert(t2.nm(i) == t0.nm(oi));
                assert(0 <= xn < t2.num() && t2.nm(xn) == entry
                    && t2.branches@[xn].parent_view() == Some(t2.nm(i)));
            }
        }
    }

    #[verifier::spinoff_prover]
    proof fn lemma_delete_kids_listed(t0: Self, t2: Self, di: int, pi: int, q: int)
        requires
            t0.wf(),
            Self::deleted_shape(t0, t2, di, pi, q),
        ensures
            t2.kids_listed(),
    {
        reveal(StackTree::names_unique);
        reveal(StackTree::kids_listed);
        Self::lemma_delete_names(t0, t2, di, pi, q);
        let d = t0.branches@[di];
        let jlen = d.kids().len() as int;
        assert(d.kids().take(jlen) == d.kids());
        let pin = if pi < di {
            pi
        } else {
            pi - 1
        };
        assert(pin == pi);
        assert forall|c: int| 1 <= c < t2.num() implies #[trigger] t2.kid_listed_at(c) by {
            let oc = if c < di {
                c
            } else {
                c + 1
            };
            let b0 = t0.branches@[oc];
            let newkids = t2.branches@[pi].kids();
            let rest = t0.branches@[pi].kids().remove(q);
            assert(newkids == rest + d.kids());
            if oc != pi && d.kids().contains(b0.name@) {
                // re-parented child: now listed by the parent at `pi`
                let y = choose|y: int| 0 <= y < d.kids().len() && d.kids()[y] == b0.name@;
                let k = rest.len() + y;
                assert(newkids[k as int] == t2.nm(c));
                assert(Some(t2.nm(pi)) == t2.branches@[c].parent_view());
                assert(0 <= pi < t2.num() && 0 <= k < t2.branches@[pi].kids().len()
                    && Some(t2.nm(pi)) == t2.branches@[c].parent_view()
                    && t2.branches@[pi].kids()[k as int] == t2.nm(c));
            } else {
                // unchanged parent link: the old listing survives
                assert(t0.kid_listed_at(oc));
                let (i0, k0): (int, int) = choose|i0: int, k0: int|
                    0 <= i0 < t0.num() && 0 <= k0 < t0.branches@[i0].kids().len()
                        && Some(t0.nm(i0)) == (#[trigger] t0.branches@[oc]).parent_view()
                        && t0.branches@[i0].kids()[k0] == t0.nm(oc);
                assert(i0 != di) by {
                    if i0 == di {
                        t0.lemma_child_link(di, oc);
                        assert(d.kids().contains(b0.name@));
                        assert(oc != pi) by {
                            if oc == pi {
                                assert(Some(t0.nm(di)) == t0.branches@[pi].parent_view());
                                reveal(StackTree::parents_linked);
                                if pi >= 1 {
                                    let j2 = choose|j2: int|
                                        0 <= j2 < pi && Some(#[trigger] t0.nm(j2)) == t0.branches@[pi].parent_view();
                                    assert(t0.nm(j2) == t0.nm(di));
                                    assert(j2 == di) by {
                                        if j2 < di {
                                            assert(t0.nm(j2) != t0.nm(di));
                                        }
                                    }
                                } else {
                                    assert(t0.branches@[0].parent is None);
                                }
                            }
                        }
                        assert(false);
                    }
                }
                let i2 = if i0 < di {
                    i0
                } else {
                    i0 - 1
                };
                assert(t2.nm(i2) == t0.nm(i0));
                assert(t2.branches@[c].parent_view() == t0.branches@[oc].parent_view());
                if i0 == pi {
                    // the listing branch is the deletion parent; its list
                    // kept all old entries except the deleted one
                    assert(t0.branches@[pi].kids()[k0] == t0.nm(oc));
                    assert(t0.nm(oc) != t0.nm(di)) by {
                        if oc < di {
                            assert(t0.nm(oc) != t0.nm(di));
                        } else {
                            assert(t0.nm(di) != t0.nm(oc));
                        }
                    }
                    assert(k0 != q);
                    let k2 = if k0 < q {
                        k0
                    } else {
                        k0 - 1
                    };
                    assert(rest[k2] == t0.nm(oc));
                    assert(newkids[k2] == t2.nm(c));
                    assert(0 <= pi < t2.num() && 0 <= k2 < t2.branches@[pi].kids().len()
                        && Some(t2.nm(pi)) == t2.branches@[c].parent_view()
                        && t2.branches@[pi].kids()[k2] == t2.nm(c));
                } else {
                    assert(t2.branches@[i2].children == t0.branches@[i0].children);
                    assert(t2.branches@[i2].kids()[k0] == t2.nm(c));
                    assert(0 <= i2 < t2.num() && 0 <= k0 < t2.branches@[i2].kids().len()
                        && Some(t2.nm(i2)) == t2.branches@[c].parent_view()
                        && t2.branches@[i2].kids()[k0] == t2.nm(c));
                }
            }
        }
    }

    #[verifier::spinoff_prover]
    proof fn lemma_delete_has(t0: Self, t2: Self, di: int, pi: int, q: int)
        requires
            t0.wf(),
            Self::deleted_shape(t0, t2, di, pi, q),
        ensures
            forall|n: Seq<char>|
                #![trigger t2.has(n)]
                #![trigger t0.has(n)]
                t2.has(n) <==> (t0.has(n) && n != t0.nm(di)),
    {
        reveal(StackTree::names_unique);
        Self::lemma_delete_names(t0, t2, di, pi, q);
        assert forall|n: Seq<char>|
            #![trigger t2.has(n)]
            #![trigger t0.has(n)]
            t2.has(n) <==> (t0.has(n) && n != t0.nm(di)) by {
            if t2.has(n) {
                let i = choose|i: int| 0 <= i < t2.num() && t2.nm(i) == n;
                let oi = if i < di {
                    i
                } else {
                    i + 1
                };
                assert(t0.nm(oi) == n);
                assert(t0.has(n));
                assert(n != t0.nm(di)) by {
                    if oi < di {
                        assert(t0.nm(oi) != t0.nm(di));
                    } else {
                        assert(t0.nm(di) != t0.nm(oi));
                    }
                }
            }
            if t0.has(n) && n != t0.nm(di) {
                let i = choose|i: int| 0 <= i < t0.num() && t0.nm(i) == n;
                assert(i != di);
                let i2 = if i < di {
                    i
                } else {
                    i - 1
                };
                assert(t2.nm(i2) == n);
                assert(t2.has(n));
            }
        }
    }

    /// After a branch is deleted and its children re-parented onto its own
    /// parent, the structural invariant is re-established; the tracked-name
    /// set shrinks by exactly the deleted name, the parent's child set loses
    /// the deleted name and absorbs its children, the children now name the
    /// parent, and every other branch is unchanged.
    #[verifier::rlimit(100)]
    #[verifier::spinoff_prover]
    proof fn lemma_delete_shape(t0: Self, t2: Self, di: int, pi: int, q: int)
        requires
            t0.wf(),
            Self::deleted_shape(t0, t2, di, pi, q),
        ensures
            t2.wf(),
            forall|n: Seq<char>|
                #![trigger t2.has(n)]
                #![trigger t0.has(n)]
                t2.has(n) <==> (t0.has(n) && n != t0.nm(di)),
            ({
                let po = t0.branches@[pi];
                let pf = t2.node(t0.nm(pi));
                &&& pf.name == po.name
                &&& pf.parent == po.parent
                &&& pf.parent_oid_cache == po.parent_oid_cache
                &&& pf.remote == po.remote
                &&& forall|c: Seq<char>|
                    #[trigger] pf.kids().contains(c) <==> ((po.kids().contains(c) && c != t0.nm(
                        di,
                    )) || t0.branches@[di].kids().contains(c))
            }),
            forall|c: Seq<char>|
                #![trigger t2.node(c)]
                t0.branches@[di].kids().contains(c) ==> {
                    let cf = t2.node(c);
                    let co = t0.node(c);
                    &&& cf.name == co.name
                    &&& cf.parent_view() == Some(t0.nm(pi))
                    &&& cf.parent_oid_cache == co.parent_oid_cache
                    &&& cf.children == co.children
                    &&& cf.remote == co.remote
                },
            forall|n: Seq<char>|
                #![trigger t2.node(n)]
                #![trigger t0.node(n)]
                t0.has(n) && n != t0.nm(di) && n != t0.nm(pi) && !t0.branches@[di].kids().contains(
                    n,
                ) ==> t2.node(n) == t0.node(n),
    {
        reveal(StackTree::names_unique);
        let d = t0.branches@[di];
        let jlen = d.kids().len() as int;
        assert(d.kids().take(jlen) == d.kids());
        Self::lemma_delete_names(t0, t2, di, pi, q);
        Self::lemma_delete_parents(t0, t2, di, pi, q);
        Self::lemma_delete_kids_nodup(t0, t2, di, pi, q);
        Self::lemma_delete_kids_back(t0, t2, di, pi, q);
        Self::lemma_delete_kids_listed(t0, t2, di, pi, q);
        Self::lemma_delete_has(t0, t2, di, pi, q);
        assert(t2.wf());
        t2.lemma_idx_unique(pi);
        assert(t2.nm(pi) == t0.nm(pi));
        assert(t2.node(t0.nm(pi)) == t2.branches@[pi]);
        // the parent's new child set
        let po = t0.branches@[pi];
        let pf = t2.branches@[pi];
        let rest = po.kids().remove(q);
        assert forall|c: Seq<char>| #[trigger] pf.kids().contains(c) <==> ((po.kids().contains(c)
            && c != t0.nm(di)) || d.kids().contains(c)) by {
            reveal(StackTree::kids_nodup);
            Self::lemma_remove_contains(po.kids(), q, c);
            assert(pf.kids() == rest + d.kids());
            if pf.kids().contains(c) {
                let x = choose|x: int| 0 <= x < pf.kids().len() && pf.kids()[x] == c;
                if x < rest.len() {
                    assert(rest[x] == c);
                    assert(rest.contains(c));
                } else {
                    assert(d.kids()[x - rest.len()] == c);
                    assert(d.kids().contains(c));
                }
            }
            if rest.contains(c) {
                let x = choose|x: int| 0 <= x < rest.len() && rest[x] == c;
                assert(pf.kids()[x] == c);
                assert(pf.kids().contains(c));
            }
            if d.kids().contains(c) {
                let x = choose|x: int| 0 <= x < d.kids().len() && d.kids()[x] == c;
                assert(pf.kids()[rest.len() + x] == c);
                assert(pf.kids().contains(c));
            }
        }
        // the re-parented children
        assert forall|c: Seq<char>|
            #![trigger t2.node(c)]
            d.kids().contains(c) implies {
                let cf = t2.node(c);
                let co = t0.node(c);
                &&& cf.name == co.name
                &&& cf.parent_view() == Some(t0.nm(pi))
                &&& cf.parent_oid_cache == co.parent_oid_cache
                &&& cf.children == co.children
                &&& cf.remote == co.remote
            } by {
            reveal(StackTree::kids_point_back);
            let y = choose|y: int| 0 <= y < d.kids().len() && d.kids()[y] == c;
            assert(t0.kid_back_at(di, y));
            let xo = choose|xo: int|
                0 <= xo < t0.num() && t0.nm(xo) == #[trigger] d.kids()[y]
                    && t0.branches@[xo].parent_view() == Some(t0.nm(di));
            assert(xo != di) by {
                if xo == di {
                    reveal(StackTree::parents_linked);
                    let j2 = choose|j2: int|
                        0 <= j2 < di && Some(#[trigger] t0.nm(j2)) == t0.branches@[di].parent_view();
                    assert(t0.nm(j2) == t0.nm(di));
                    if j2 < di {
                        assert(t0.nm(j2) != t0.nm(di));
                    }
                }
            }
            assert(xo != pi) by {
                if xo == pi {
                    assert(t0.branches@[pi].parent_view() == Some(t0.nm(di)));
                    reveal(StackTree::parents_linked);
                    if pi >= 1 {
                        let j2 = choose|j2: int|
                            0 <= j2 < pi && Some(#[trigger] t0.nm(j2)) == t0.branches@[pi].parent_view();
                        assert(t0.nm(j2) == t0.nm(di));
                        assert(j2 == di) by {
                            if j2 < di {
                                assert(t0.nm(j2) != t0.nm(di));
                            }
                        }
                    } else {
                        assert(t0.branches@[0].parent is None);
                    }
                }
            }
            let xn = if xo < di {
                xo
            } else {
                xo - 1
            };
            t0.lemma_idx_unique(xo);
            t2.lemma_idx_unique(xn);
            assert(t2.nm(xn) == t0.nm(xo));
            assert(t0.node(c) == t0.branches@[xo]);
            assert(t2.node(c) == t2.branches@[xn]);
        }
        // all other branches
        assert forall|n: Seq<char>|
            #![trigger t2.node(n)]
            #![trigger t0.node(n)]
            t0.has(n) && n != t0.nm(di) && n != t0.nm(pi) && !d.kids().contains(n) implies t2.node(
                n,
            ) == t0.node(n) by {
            let xo = t0.idx_of(n);
            assert(0 <= xo < t0.num() && t0.nm(xo) == n);
            t0.lemma_idx_unique(xo);
            assert(xo != di && xo != pi);
            let xn = if xo < di {
                xo
            } else {
                xo - 1
            };
            t2.lemma_idx_unique(xn);
            assert(t2.nm(xn) == t0.nm(xo));
            assert(t2.node(n) == t2.branches@[xn]);
            assert(t0.node(n) == t0.branches@[xo]);
            assert(t2.branches@[xn].parent == t0.branches@[xo].parent);
            assert(t2.branches@[xn].children == t0.branches@[xo].children);
            assert(t2.branches@[xn].name == t0.branches@[xo].name);
        }
    }

    /// Finds the position of a name in a list of names, scanning from the
    /// front.
    fn position_in(list: &Vec<String>, target: &String) -> (r: Option<usize>)
        ensures
            match r {
                Some(k) => 0 <= k < list@.len() && list@[k as int]@ == target@,
                None => forall|x: int| 0 <= x < list@.len() ==> list@[x]@ != target@,
            },
    {
        let n = list.len();
        let mut k: usize = 0;
        while k < n
            invariant
                n == list@.len(),
                k <= n,
                forall|x: int| 0 <= x < k ==> list@[x]@ != target@,
            decreases n - k,
        {
            if list[k] == *target {
                return Some(k);
            }
            k = k + 1;
        }
        None
    }

    /// The observable effect of deleting branch `n` from `t0`, giving
    /// `t2`: the branch is gone; its parent's child set loses the branch
    /// and absorbs the branch's children; those children now name the
    /// parent as theirs; every other branch is untouched.
    pub open spec fn delete_effect(t0: Self, t2: Self, n: Seq<char>) -> bool {
        let d = t0.node(n);
        let pn = d.parent_view()->Some_0;
        &&& d.parent_view() is Some
        &&& t2.trunk_name == t0.trunk_name
        &&& t2.num() == t0.num() - 1
        &&& (forall|x: Seq<char>|
            #![trigger t2.has(x)]
            #![trigger t0.has(x)]
            t2.has(x) <==> (t0.has(x) && x != n))
        &&& ({
            let po = t0.node(pn);
            let pf = t2.node(pn);
            &&& pf.name == po.name
            &&& pf.parent == po.parent
            &&& pf.parent_oid_cache == po.parent_oid_cache
            &&& pf.remote == po.remote
            &&& forall|c: Seq<char>|
                #[trigger] pf.kids().contains(c) <==> ((po.kids().contains(c) && c != n)
                    || d.kids().contains(c))
        })
        &&& (forall|c: Seq<char>|
            #![trigger t2.node(c)]
            d.kids().contains(c) ==> {
                let cf = t2.node(c);
                let co = t0.node(c);
                &&& cf.name == co.name
                &&& cf.parent_view() == Some(pn)
                &&& cf.parent_oid_cache == co.parent_oid_cache
                &&& cf.children == co.children
                &&& cf.remote == co.remote
            })
        &&& (forall|x: Seq<char>|
            #![trigger t2.node(x)]
            #![trigger t0.node(x)]
            t0.has(x) && x != n && x != pn && !d.kids().contains(x) ==> t2.node(x) == t0.node(
                x,
            ))
    }

    /// Deletes a branch, re-parenting every one of its children onto the
    /// branch's own parent: each child's parent link is rewritten and each
    /// child is merged into that parent's child set. Returns the removed
    /// branch. Deleting the trunk is rejected by the layer above, not here.
    pub fn delete(&mut self, branch_name: &str) -> (r: Result<TrackedBranch, StError>)
        requires
            old(self).wf(),
            branch_name@ != old(self).trunk_name@,
        ensures
            final(self).wf(),
            !old(self).has(branch_name@) ==> (r matches Err(StError::BranchNotTracked(n))
                && n@ == branch_name@ && *final(self) == *old(self)),
            old(self).has(branch_name@) ==> (r matches Ok(removed) && removed == old(self).node(
                branch_name@,
            ) && Self::delete_effect(*old(self), *final(self), branch_name@)),
    {
        let owned = branch_name.to_owned();
        let di = match self.position_of(&owned) {
            Some(di) => di,
            None => {
                return Err(StError::BranchNotTracked(owned));
            },
        };
        let ghost t0 = *old(self);
        let ghost dii = di as int;
        proof {
            t0.lemma_idx_unique(dii);
            if di == 0 {
                assert(t0.nm(0) == t0.trunk_name@);
                assert(false);
            }
            reveal(StackTree::parents_linked);
        }
        let removed = self.branches.remove(di);
        // a non-trunk branch always records its parent
        let parent_name = match &removed.parent {
            Some(p) => p.clone(),
            None => {
                proof {
                    assert(false);
                }
                return Err(StError::MissingParentOidCache);
            },
        };
        proof {
            assert forall|i: int| 0 <= i < self.num() implies #[trigger] self.nm(i) == t0.nm(
                if i < dii {
                    i
                } else {
                    i + 1
                },
            ) by {
                if i < dii {
                    assert(self.branches@[i] == t0.branches@[i]);
                } else {
                    assert(self.branches@[i] == t0.branches@[i + 1]);
                }
            }
            reveal(StackTree::names_unique);
        }
        let ghost j0 = choose|j0: int|
            0 <= j0 < dii && Some(#[trigger] t0.nm(j0)) == t0.branches@[dii].parent_view();
        let pi = match self.position_of(&parent_name) {
            Some(pi) => pi,
            None => {
                proof {
                    assert(self.nm(j0) == t0.nm(j0));
                    assert(self.has(parent_name@));
                    assert(false);
                }
                return Err(StError::BranchNotTracked(parent_name));
            },
        };
        let ghost pii = pi as int;
        proof {
            // the parent kept its position: it sat before the deleted branch
            let oi = if pii < dii {
                pii
            } else {
                pii + 1
            };
            assert(t0.nm(oi) == parent_name@ && t0.nm(j0) == parent_name@);
            if oi != j0 {
                if oi < j0 {
                    assert(t0.nm(oi) != t0.nm(j0));
                } else {
                    assert(t0.nm(j0) != t0.nm(oi));
                }
            }
            assert(pii == j0);
        }
        // the deleted branch stands in its parent's child list
        let q = match Self::position_in(&self.branches[pi].children, &owned) {
            Some(q) => q,
            None => {
                proof {
                    reveal(StackTree::kids_listed);
                    assert(t0.kid_listed_at(dii));
                    let (i0, k0): (int, int) = choose|i0: int, k0: int|
                        0 <= i0 < t0.num() && 0 <= k0 < t0.branches@[i0].kids().len()
                            && Some(t0.nm(i0)) == t0.branches@[dii].parent_view()
                            && t0.branches@[i0].kids()[k0] == t0.nm(dii);
                    assert(t0.nm(i0) == parent_name@);
                    assert(i0 == pii) by {
                        if i0 < pii {
                            assert(t0.nm(i0) != t0.nm(pii));
                        } else if pii < i0 {
                            assert(t0.nm(pii) != t0.nm(i0));
                        }
                    }
                    assert(self.branches@[pii] == t0.branches@[pii]);
                    assert(self.branches@[pii].children@[k0]@ == t0.nm(dii));
                    assert(false);
                }
                return Err(StError::BranchNotTracked(owned));
            },
        };
        proof {
            assert(self.branches@[pii] == t0.branches@[pii]);
            assert(t0.branches@[pii].kids()[q as int] == t0.nm(dii));
        }
        self.branches[pi].children.remove(q);
        let ghost d = t0.branches@[dii];
        proof {
            assert(removed == d);
            assert(Some(t0.nm(pii)) == d.parent_view());
            assert(self.branches@[pii].kids() =~= t0.branches@[pii].kids().remove(q as int));
            assert(self.branches@[pii].kids() =~= t0.branches@[pii].kids().remove(q as int)
                + d.kids().take(0));
            assert forall|i: int|
                #![trigger self.branches@[i]]
                0 <= i < self.num() implies {
                let oi = if i < dii {
                    i
                } else {
                    i + 1
                };
                let b0 = t0.branches@[oi];
                let b2 = self.branches@[i];
                &&& b2.name == b0.name
                &&& b2.parent_oid_cache == b0.parent_oid_cache
                &&& b2.remote == b0.remote
                &&& (oi == pii ==> b2.parent == b0.parent && b2.kids() == b0.kids().remove(
                    q as int,
                ) + d.kids().take(0))
                &&& (oi != pii && d.kids().take(0).contains(b0.name@) ==> b2.parent_view()
                    == Some(t0.nm(pii)) && b2.children == b0.children)
                &&& (oi != pii && !d.kids().take(0).contains(b0.name@) ==> b2.parent == b0.parent
                    && b2.children == b0.children)
            } by {
                let oi = if i < dii {
                    i
                } else {
                    i + 1
                };
                if i != pii {
                    assert(self.branches@[i] == t0.branches@.remove(dii)[i]);
                    if i < dii {
                        assert(t0.branches@.remove(dii)[i] == t0.branches@[i]);
                    } else {
                        assert(t0.branches@.remove(dii)[i] == t0.branches@[i + 1]);
                    }
                }
            }
            assert(Self::deleting_shape(t0, *self, dii, pii, q as int, 0));
        }
        let total = removed.children.len();
        let mut j: usize = 0;
        while j < total
            invariant
                t0.wf(),
                1 <= dii < t0.num(),
                0 <= pii < dii,
                di as int == dii,
                pi as int == pii,
                removed == t0.branches@[dii],
                d == t0.branches@[dii],
                total == removed.children@.len(),
                j <= total,
                parent_name@ == t0.nm(pii),
                branch_name@ == t0.nm(dii),
                Self::deleting_shape(t0, *self, dii, pii, q as int, j as int),
            decreases total - j,
        {
            let ghost jj = j as int;
            let ghost tpre = *self;
            let cname = removed.children[j].clone();
            proof {
                reveal(StackTree::names_unique);
                reveal(StackTree::kids_point_back);
                assert(cname@ == d.kids()[jj]);
                assert(t0.kid_back_at(dii, jj));
            }
            let ghost xo = choose|xo: int|
                0 <= xo < t0.num() && t0.nm(xo) == d.kids()[jj] && t0.branches@[xo].parent_view()
                    == Some(t0.nm(dii));
            proof {
                reveal(StackTree::parents_linked);
                // the child named by the entry is not the deleted branch
                // itself and not the parent
                assert(xo != dii) by {
                    if xo == dii {
                        let j2 = choose|j2: int|
                            0 <= j2 < dii && Some(#[trigger] t0.nm(j2)) == t0.branches@[dii].parent_view();
                        assert(t0.nm(j2) == t0.nm(dii));
                        if j2 < dii {
                            assert(t0.nm(j2) != t0.nm(dii));
                        }
                    }
                }
                assert(xo != pii) by {
                    if xo == pii {
                        assert(t0.branches@[pii].parent_view() == Some(t0.nm(dii)));
                        if pii >= 1 {
                            let j2 = choose|j2: int|
                                0 <= j2 < pii && Some(#[trigger] t0.nm(j2)) == t0.branches@[pii].parent_view();
                            assert(t0.nm(j2) == t0.nm(dii));
                            assert(j2 == dii) by {
                                if j2 < dii {
                                    assert(t0.nm(j2) != t0.nm(dii));
                                }
                            }
                        } else {
                            assert(t0.branches@[0].parent is None);
                        }
                    }
                }
                // the current tree still holds that child, at a predictable
                // position
                assert forall|i: int| 0 <= i < self.num() implies #[trigger] self.nm(i) == t0.nm(
                    if i < dii {
                        i
                    } else {
                        i + 1
                    },
                ) by {
                    assert(self.branches@[i].name == t0.branches@[if i < dii {
                        i
                    } else {
                        i + 1
                    }].name);
                }
            }
            let ghost xn = if xo < dii {
                xo
            } else {
                xo - 1
            };
            proof {
                assert(self.nm(xn) == t0.nm(xo));
            }
            let ci = match self.position_of(&cname) {
                Some(ci) => ci,
                None => {
                    proof {
                        assert(self.has(cname@));
                        assert(false);
                    }
                    return Err(StError::BranchNotTracked(cname));
                },
            };
            let ghost cii = ci as int;
            proof {
                // name uniqueness pins the position
                let oc = if cii < dii {
                    cii
                } else {
                    cii + 1
                };
                assert(t0.nm(oc) == cname@ && t0.nm(xo) == cname@);
                if oc != xo {
                    if oc < xo {
                        assert(t0.nm(oc) != t0.nm(xo));
                    } else {
                        assert(t0.nm(xo) != t0.nm(oc));
                    }
                }
                assert(cii == xn);
                assert(cii != pii);
                // the next entry is fresh: the deleted branch's child list
                // is duplicate-free
                reveal(StackTree::kids_nodup);
                assert(!d.kids().take(jj).contains(d.kids()[jj])) by {
                    if d.kids().take(jj).contains(d.kids()[jj]) {
                        let y = choose|y: int| 0 <= y < jj && d.kids().take(jj)[y] == d.kids()[jj];
                        assert(d.kids()[y] == d.kids()[jj]);
                        assert(d.kids()[y] != d.kids()[jj]);
                    }
                }
            }
            self.branches[ci].parent = Some(parent_name.clone());
            self.branches[pi].children.push(cname);
            proof {
                let tcur = *self;
                assert(tcur.branches@[pii].kids() =~= tpre.branches@[pii].kids().push(
                    d.kids()[jj],
                ));
                assert(tcur.branches@[pii].kids() =~= t0.branches@[pii].kids().remove(q as int)
                    + d.kids().take(jj + 1)) by {
                    assert(tpre.branches@[pii].kids() == t0.branches@[pii].kids().remove(q as int)
                        + d.kids().take(jj));
                    assert(d.kids().take(jj + 1) =~= d.kids().take(jj).push(d.kids()[jj]));
                }
                assert forall|i: int|
                    #![trigger tcur.branches@[i]]
                    0 <= i < tcur.num() implies {
                    let oi = if i < dii {
                        i
                    } else {
                        i + 1
                    };
                    let b0 = t0.branches@[oi];
                    let b2 = tcur.branches@[i];
                    &&& b2.name == b0.name
                    &&& b2.parent_oid_cache == b0.parent_oid_cache
                    &&& b2.remote == b0.remote
                    &&& (oi == pii ==> b2.parent == b0.parent && b2.kids() == b0.kids().remove(
                        q as int,
                    ) + d.kids().take(jj + 1))
                    &&& (oi != pii && d.kids().take(jj + 1).contains(b0.name@)
                        ==> b2.parent_view() == Some(t0.nm(pii)) && b2.children == b0.children)
                    &&& (oi != pii && !d.kids().take(jj + 1).contains(b0.name@) ==> b2.parent
                        == b0.parent && b2.children == b0.children)
                } by {
                    let oi = if i < dii {
                        i
                    } else {
                        i + 1
                    };
                    let b0 = t0.branches@[oi];
                    assert(tpre.branches@[i].name == b0.name);
                    if i == cii {
                        assert(d.kids().take(jj + 1).contains(b0.name@)) by {
                            assert(d.kids().take(jj + 1)[jj] == d.kids()[jj]);
                        }
                        assert(tcur.branches@[i].parent_view() == Some(t0.nm(pii)));
                        assert(tcur.branches@[i].children == tpre.branches@[i].children);
                        assert(tpre.branches@[i].children == b0.children);
                    } else if i == pii {
                        assert(tcur.branches@[i].parent == tpre.branches@[i].parent);
                    } else {
                        assert(tcur.branches@[i] == tpre.branches@[i]);
                        // membership in the processed prefix is unchanged for
                        // every other name: only the branch at `cii` carries
                        // the newly processed name
                        if d.kids().take(jj + 1).contains(b0.name@) && !d.kids().take(jj).contains(
                            b0.name@,
                        ) {
                            let y = choose|y: int|
                                0 <= y < jj + 1 && #[trigger] d.kids().take(jj + 1)[y]
                                    == b0.name@;
                            assert(y == jj);
                            assert(b0.name@ == d.kids()[jj]);
                            assert(t0.nm(oi) == t0.nm(xo));
                            if oi != xo {
                                if oi < xo {
                                    assert(t0.nm(oi) != t0.nm(xo));
                                } else {
                                    assert(t0.nm(xo) != t0.nm(oi));
                                }
                            }
                            assert(i == cii);
                            assert(false);
                        }
                        if d.kids().take(jj).contains(b0.name@) {
                            let y = choose|y: int| 0 <= y < jj && d.kids().take(jj)[y] == b0.name@;
                            assert(d.kids().take(jj + 1)[y] == b0.name@);
                            assert(d.kids().take(jj + 1).contains(b0.name@));
                        }
                    }
                }
                assert(Self::deleting_shape(t0, tcur, dii, pii, q as int, jj + 1));
            }
            j = j + 1;
        }
        proof {
            reveal(StackTree::names_unique);
            assert(d.kids().take(d.kids().len() as int) == d.kids());
            assert(Self::deleted_shape(t0, *self, dii, pii, q as int));
            Self::lemma_delete_shape(t0, *self, dii, pii, q as int);
            // tie positions to names for the postconditions
            t0.lemma_idx_unique(dii);
            t0.lemma_idx_unique(pii);
            assert(t0.node(branch_name@) == d);
            assert(t0.node(t0.nm(pii)) == t0.branches@[pii]);
            assert(Self::delete_effect(t0, *self, branch_name@));
        }
        Ok(removed)
    }

    /// Returns the tracked branch names in dependency order: the trunk
    /// first, and every branch strictly after its parent, so that walking
    /// the result forward never visits a branch before the branch it builds
    /// on.
    pub fn branches(&self) -> (r: Result<Vec<String>, StError>)
        requires
            self.wf(),
        ensures
            r matches Ok(v) && v@.len() == self.num() && (forall|k: int|
                0 <= k < v@.len() ==> #[trigger] v@[k]@ == self.nm(k)),
    {
        let mut names: Vec<String> = Vec::new();
        let n = self.branches.len();
        let mut i: usize = 0;
        while i < n
            invariant
                n == self.branches@.len(),
                i <= n,
                names@.len() == i,
                forall|k: int| 0 <= k < i ==> #[trigger] names@[k]@ == self.nm(k),
            decreases n - i,
        {
            names.push(self.branches[i].name.clone());
            i = i + 1;
        }
        Ok(names)
    }

    /// Replacing one branch's tip cache or remote metadata preserves the
    /// structural invariant and leaves every other branch untouched.
    proof fn lemma_update_node(t1: Self, t2: Self, i: int)
        requires
            t1.wf(),
            0 <= i < t1.num(),
            t2.trunk_name == t1.trunk_name,
            t2.num() == t1.num(),
            forall|x: int| 0 <= x < t1.num() && x != i ==> t2.branches@[x] == t1.branches@[x],
            t2.branches@[i].name == t1.branches@[i].name,
            t2.branches@[i].parent == t1.branches@[i].parent,
            t2.branches@[i].parent_oid_cache is Some <==> t1.branches@[i].parent_oid_cache
                is Some,
            t2.branches@[i].children == t1.branches@[i].children,
        ensures
            t2.wf(),
            forall|n: Seq<char>|
                #![trigger t2.has(n)]
                #![trigger t1.has(n)]
                t2.has(n) <==> t1.has(n),
            t2.idx_of(t1.nm(i)) == i,
            t2.node(t1.nm(i)) == t2.branches@[i],
            forall|n: Seq<char>|
                #![trigger t2.node(n)]
                #![trigger t1.node(n)]
                t1.has(n) && n != t1.nm(i) ==> t2.node(n) == t1.node(n),
    {
        reveal(StackTree::names_unique);
        reveal(StackTree::parents_linked);
        reveal(StackTree::kids_nodup);
        reveal(StackTree::kids_point_back);
        reveal(StackTree::kids_listed);
        assert forall|x: int| 0 <= x < t2.num() implies #[trigger] t2.nm(x) == t1.nm(x) by {
            assert(t2.branches@[x].name == t1.branches@[x].name);
        }
        assert forall|x: int| 0 <= x < t2.num() implies #[trigger] t2.branches@[x].parent_view()
            == t1.branches@[x].parent_view() && t2.branches@[x].kids() == t1.branches@[x].kids() by {
            assert(t2.branches@[x].parent == t1.branches@[x].parent);
            assert(t2.branches@[x].children == t1.branches@[x].children);
        }
        assert(t2.names_unique());
        assert(t2.rooted());
        assert forall|x: int| 1 <= x < t2.num() implies {
            &&& (#[trigger] t2.branches@[x]).parent is Some
            &&& t2.branches@[x].parent_oid_cache is Some
            &&& exists|j: int| 0 <= j < x && Some(#[trigger] t2.nm(j)) == t2.branches@[x].parent_view()
        } by {
            let j = choose|j: int|
                0 <= j < x && Some(#[trigger] t1.nm(j)) == t1.branches@[x].parent_view();
            assert(Some(t2.nm(j)) == t2.branches@[x].parent_view());
        }
        assert(t2.kids_nodup());
        assert forall|x: int, k: int|
            0 <= x < t2.num() && 0 <= k < t2.branches@[x].kids().len() implies #[trigger] t2.kid_back_at(
            x,
            k,
        ) by {
            assert(t1.kid_back_at(x, k));
            let c = choose|c: int|
                0 <= c < t1.num() && t1.nm(c) == t1.branches@[x].kids()[k]
                    && t1.branches@[c].parent_view() == Some(t1.nm(x));
            assert(t2.nm(c) == t2.branches@[x].kids()[k] && t2.branches@[c].parent_view() == Some(
                t2.nm(x),
            ));
        }
        assert forall|c: int| 1 <= c < t2.num() implies #[trigger] t2.kid_listed_at(c) by {
            assert(t1.kid_listed_at(c));
            let (x, k): (int, int) = choose|x: int, k: int|
                0 <= x < t1.num() && 0 <= k < t1.branches@[x].kids().len()
                    && Some(t1.nm(x)) == t1.branches@[c].parent_view()
                    && t1.branches@[x].kids()[k] == t1.nm(c);
            assert(0 <= x < t2.num() && 0 <= k < t2.branches@[x].kids().len()
                && Some(t2.nm(x)) == t2.branches@[c].parent_view()
                && t2.branches@[x].kids()[k] == t2.nm(c));
        }
        assert forall|n: Seq<char>|
            #![trigger t2.has(n)]
            #![trigger t1.has(n)]
            t2.has(n) <==> t1.has(n) by {
            if t2.has(n) {
                let x = choose|x: int| 0 <= x < t2.num() && t2.nm(x) == n;
                assert(t1.nm(x) == n);
            }
            if t1.has(n) {
                let x = choose|x: int| 0 <= x < t1.num() && t1.nm(x) == n;
                assert(t2.nm(x) == n);
            }
        }
        t1.lemma_idx_unique(i);
        t2.lemma_idx_unique(i);
        assert forall|n: Seq<char>|
            #![trigger t2.node(n)]
            #![trigger t1.node(n)]
            t1.has(n) && n != t1.nm(i) implies t2.node(n) == t1.node(n) by {
            let x = t1.idx_of(n);
            assert(0 <= x < t1.num() && t1.nm(x) == n);
            t1.lemma_idx_unique(x);
            t2.lemma_idx_unique(x);
            assert(x != i);
            assert(t2.branches@[x] == t1.branches@[x]);
        }
    }

    /// Records that a branch has been submitted: attaches fresh remote
    /// metadata with the new pull request number and no comment id yet.
    pub fn record_submission(&mut self, branch_name: &str, pr_number: u64) -> (r: Result<
        (),
        StError,
    >)
        requires
            old(self).wf(),
        ensures
            final(self).wf(),
            !old(self).has(branch_name@) ==> (r matches Err(StError::BranchNotTracked(n))
                && n@ == branch_name@ && *final(self) == *old(self)),
            old(self).has(branch_name@) ==> {
                &&& r is Ok
                &&& final(self).trunk_name == old(self).trunk_name
                &&& forall|n: Seq<char>|
                    #![trigger final(self).has(n)]
                    #![trigger old(self).has(n)]
                    final(self).has(n) <==> old(self).has(n)
                &&& {
                    let nb = final(self).node(branch_name@);
                    let ob = old(self).node(branch_name@);
                    &&& nb.name == ob.name
                    &&& nb.parent == ob.parent
                    &&& nb.parent_oid_cache == ob.parent_oid_cache
                    &&& nb.children == ob.children
                    &&& nb.remote matches Some(m) && m.pr_number == pr_number && m.comment_id
                        is None
                }
                &&& forall|n: Seq<char>|
                    #![trigger final(self).node(n)]
                    #![trigger old(self).node(n)]
                    old(self).has(n) && n != branch_name@ ==> final(self).node(n) == old(
                        self,
                    ).node(n)
            },
    {
        let owned = branch_name.to_owned();
        let i = match self.position_of(&owned) {
            Some(i) => i,
            None => {
                return Err(StError::BranchNotTracked(owned));
            },
        };
        proof {
            old(self).lemma_idx_unique(i as int);
        }
        self.branches[i].remote = Some(RemoteMetadata::new(pr_number));
        proof {
            Self::lemma_update_node(*old(self), *self, i as int);
        }
        Ok(())
    }

    /// Stores the id of the stack navigation comment once it has been
    /// created, so later submissions update that comment in place. The
    /// branch must be tracked and already submitted.
    pub fn record_comment_id(&mut self, branch_name: &str, comment_id: u64)
        requires
            old(self).wf(),
            old(self).has(branch_name@),
            old(self).node(branch_name@).remote is Some,
        ensures
            final(self).wf(),
            final(self).trunk_name == old(self).trunk_name,
            forall|n: Seq<char>|
                #![trigger final(self).has(n)]
                #![trigger old(self).has(n)]
                final(self).has(n) <==> old(self).has(n),
            ({
                let nb = final(self).node(branch_name@);
                let ob = old(self).node(branch_name@);
                &&& nb.name == ob.name
                &&& nb.parent == ob.parent
                &&& nb.parent_oid_cache == ob.parent_oid_cache
                &&& nb.children == ob.children
                &&& nb.remote matches Some(m) && m.pr_number == ob.remote->Some_0.pr_number
                    && m.comment_id == Some(comment_id)
            }),
            forall|n: Seq<char>|
                #![trigger final(self).node(n)]
                #![trigger old(self).node(n)]
                old(self).has(n) && n != branch_name@ ==> final(self).node(n) == old(self).node(n),
    {
        let owned = branch_name.to_owned();
        let i = match self.position_of(&owned) {
            Some(i) => i,
            None => {
                proof {
                    assert(false);
                }
                return ;
            },
        };
        proof {
            old(self).lemma_idx_unique(i as int);
        }
        let pr_number = match &self.branches[i].remote {
            Some(m) => m.pr_number,
            None => {
                proof {
                    assert(false);
                }
                return ;
            },
        };
        self.branches[i].remote = Some(RemoteMetadata { pr_number, comment_id: Some(comment_id) });
        proof {
            Self::lemma_update_node(*old(self), *self, i as int);
        }
    }

    /// Refreshes a branch's cached parent tip. The trunk carries no cache,
    /// so it is never passed here.
    pub fn set_parent_oid_cache(&mut self, branch_name: &str, oid: &str) -> (r: Result<
        (),
        StError,
    >)
        requires
            old(self).wf(),
            branch_name@ != old(self).trunk_name@,
        ensures
            final(self).wf(),
            !old(self).has(branch_name@) ==> (r matches Err(StError::BranchNotTracked(n))
                && n@ == branch_name@ && *final(self) == *old(self)),
            old(self).has(branch_name@) ==> {
                &&& r is Ok
                &&& final(self).trunk_name == old(self).trunk_name
                &&& final(self).num() == old(self).num()
                &&& forall|n: Seq<char>|
                    #![trigger final(self).has(n)]
                    #![trigger old(self).has(n)]
                    final(self).has(n) <==> old(self).has(n)
                &&& {
                    let nb = final(self).node(branch_name@);
                    let ob = old(self).node(branch_name@);
                    &&& nb.name == ob.name
                    &&& nb.parent == ob.parent
                    &&& nb.children == ob.children
                    &&& nb.remote == ob.remote
                    &&& nb.cache_view() == Some(oid@)
                }
                &&& forall|x: int|
                    0 <= x < old(self).num() && x != old(self).idx_of(branch_name@)
                        ==> #[trigger] final(self).branches@[x] == old(self).branches@[x]
                &&& final(self).idx_of(branch_name@) == old(self).idx_of(branch_name@)
                &&& final(self).branches@[old(self).idx_of(branch_name@)] == final(self).node(
                    branch_name@,
                )
                &&& forall|n: Seq<char>|
                    #![trigger final(self).node(n)]
                    #![trigger old(self).node(n)]
                    old(self).has(n) && n != branch_name@ ==> final(self).node(n) == old(
                        self,
                    ).node(n)
            },
    {
        let owned = branch_name.to_owned();
        let i = match self.position_of(&owned) {
            Some(i) => i,
            None => {
                return Err(StError::BranchNotTracked(owned));
            },
        };
        proof {
            old(self).lemma_idx_unique(i as int);
            // a tracked branch other than the trunk already carries a cache
            reveal(StackTree::parents_linked);
            if i == 0 {
                assert(old(self).nm(0) == old(self).trunk_name@);
            }
            assert(old(self).branches@[i as int].parent_oid_cache is Some);
        }
        self.branches[i].parent_oid_cache = Some(oid.to_owned());
        proof {
            Self::lemma_update_node(*old(self), *self, i as int);
        }
        Ok(())
    }

    /// Whether following parent links from the named branch reaches the
    /// trunk within `fuel` steps.
    pub open spec fn reaches_trunk(self, n: Seq<char>, fuel: nat) -> bool
        decreases fuel,
    {
        if !self.has(n) {
            false
        } else if n == self.trunk_name@ {
            true
        } else if fuel == 0 {
            false
        } else {
            match self.node(n).parent_view() {
                Some(p) => self.reaches_trunk(p, (fuel - 1) as nat),
                None => false,
            }
        }
    }

    /// Reaching the trunk within some number of steps is preserved when
    /// more steps are allowed.
    pub proof fn lemma_reaches_mono(self, n: Seq<char>, f1: nat, f2: nat)
        requires
            self.reaches_trunk(n, f1),
            f1 <= f2,
        ensures
            self.reaches_trunk(n, f2),
        decreases f1,
    {
        if self.has(n) && n != self.trunk_name@ && f1 > 0 {
            match self.node(n).parent_view() {
                Some(p) => {
                    self.lemma_reaches_mono(p, (f1 - 1) as nat, (f2 - 1) as nat);
                },
                None => {},
            }
        }
    }

    /// In a well-formed tree the branch at position `i` reaches the trunk
    /// in at most `i` steps: each parent link steps to a strictly earlier
    /// position, so the walk can neither cycle nor dangle.
    proof fn lemma_wf_reachable_at(self, i: int)
        requires
            self.wf(),
            0 <= i < self.num(),
        ensures
            self.reaches_trunk(self.nm(i), (i + 1) as nat),
        decreases i,
    {
        reveal(StackTree::names_unique);
        self.lemma_idx_unique(i);
        let n = self.nm(i);
        if i == 0 {
            assert(n == self.trunk_name@);
        } else {
            assert(n != self.trunk_name@) by {
                if n == self.trunk_name@ {
                    assert(self.nm(0) != self.nm(i));
                }
            }
            reveal(StackTree::parents_linked);
            assert(self.branches@[i].parent_view() is Some);
            self.lemma_parent_idx_lt(i);
            let p = self.branches@[i].parent_view()->Some_0;
            let j = self.idx_of(p);
            assert(self.nm(j) == p);
            assert(self.node(n) == self.branches@[i]);
            self.lemma_wf_reachable_at(j);
            self.lemma_reaches_mono(p, (j + 1) as nat, i as nat);
            assert(self.reaches_trunk(n, (i + 1) as nat));
        }
    }

    /// Every tracked branch of a well-formed tree reaches the trunk via
    /// parent links. In particular, since insertion and deletion keep the
    /// tree well-formed, every branch that remains after a deletion is
    /// still reachable from the trunk.
    pub proof fn lemma_wf_reachable(self, n: Seq<char>)
        requires
            self.wf(),
            self.has(n),
        ensures
            self.reaches_trunk(n, self.num() as nat),
    {
        let i = self.idx_of(n);
        assert(0 <= i < self.num() && self.nm(i) == n);
        self.lemma_wf_reachable_at(i);
        self.lemma_reaches_mono(n, (i + 1) as nat, self.num() as nat);
    }

    /// Checks the structural invariant, so that a tree read back from
    /// persisted state can be validated before any operation relies on it.
    /// Returns exactly whether the invariant holds.
    pub fn check(&self) -> (r: bool)
        ensures
            r == self.wf(),
    {
        let n = self.branches.len();
        // the trunk sits at position zero, named as designated, with
        // neither parent nor cache
        if n == 0 {
            return false;
        }
        if !(self.branches[0].name == self.trunk_name) {
            return false;
        }
        if self.branches[0].parent.is_some() {
            return false;
        }
        if self.branches[0].parent_oid_cache.is_some() {
            return false;
        }
        // no two branches share a name
        let mut j: usize = 1;
        while j < n
            invariant
                n == self.branches@.len(),
                1 <= j <= n,
                forall|x: int, y: int| 0 <= x < y < j ==> self.nm(x) != self.nm(y),
            decreases n - j,
        {
            let mut x: usize = 0;
            while x < j
                invariant
                    n == self.branches@.len(),
                    x <= j < n,
                    forall|y: int| 0 <= y < x ==> self.nm(y) != self.nm(j as int),
                decreases j - x,
            {
                if self.branches[x].name == self.branches[j].name {
                    proof {
                        reveal(StackTree::names_unique);
                        assert(self.nm(x as int) == self.nm(j as int));
                        assert(!self.names_unique());
                    }
                    return false;
                }
                x = x + 1;
            }
            j = j + 1;
        }
        proof {
            reveal(StackTree::names_unique);
            assert(self.names_unique());
        }
        // every non-trunk branch records a parent and a cache, and the
        // parent occurs strictly earlier
        let mut i: usize = 1;
        while i < n
            invariant
                n == self.branches@.len(),
                self.names_unique(),
                1 <= i <= n,
                forall|x: int|
                    1 <= x < i ==> {
                        &&& (#[trigger] self.branches@[x]).parent is Some
                        &&& self.branches@[x].parent_oid_cache is Some
                        &&& exists|y: int|
                            0 <= y < x && Some(#[trigger] self.nm(y)) == self.branches@[x].parent_view()
                    },
            decreases n - i,
        {
            let parent = match &self.branches[i].parent {
                Some(p) => p,
                None => {
                    proof {
                        reveal(StackTree::parents_linked);
                    }
                    return false;
                },
            };
            if self.branches[i].parent_oid_cache.is_none() {
                proof {
                    reveal(StackTree::parents_linked);
                }
                return false;
            }
            let mut y: usize = 0;
            let mut found = false;
            while y < i && !found
                invariant
                    n == self.branches@.len(),
                    y <= i < n,
                    self.branches@[i as int].parent_view() is Some,
                    parent@ == self.branches@[i as int].parent_view()->Some_0,
                    !found ==> forall|z: int| 0 <= z < y ==> self.nm(z) != parent@,
                    found ==> exists|z: int|
                        0 <= z < i && Some(#[trigger] self.nm(z)) == self.branches@[i as int].parent_view(),
                decreases i - y, (if found { 0int } else { 1int }),
            {
                if self.branches[y].name == *parent {
                    found = true;
                    proof {
                        assert(Some(self.nm(y as int)) == self.branches@[i as int].parent_view());
                    }
                } else {
                    y = y + 1;
                }
            }
            if !found {
                proof {
                    reveal(StackTree::parents_linked);
                    assert forall|z: int|
                        0 <= z < i implies Some(#[trigger] self.nm(z)) != self.branches@[i as int].parent_view() by {
                        assert(self.nm(z) != parent@);
                    }
                    assert(!self.parents_linked());
                }
                return false;
            }
            i = i + 1;
        }
        proof {
            reveal(StackTree::parents_linked);
            assert(self.parents_linked());
        }
        // child lists are duplicate-free
        let mut i2: usize = 0;
        while i2 < n
            invariant
                n == self.branches@.len(),
                i2 <= n,
                forall|x: int, a: int, b: int|
                    0 <= x < i2 && 0 <= a < b < self.branches@[x].kids().len()
                        ==> #[trigger] self.branches@[x].kids()[a] != #[trigger] self.branches@[x].kids()[b],
            decreases n - i2,
        {
            let clen = self.branches[i2].children.len();
            let mut b: usize = 1;
            while b < clen
                invariant
                    n == self.branches@.len(),
                    i2 < n,
                    clen == self.branches@[i2 as int].children@.len(),
                    1 <= b || clen == 0,
                    b <= clen || (clen == 0 && b == 1),
                    forall|a: int, bb: int|
                        0 <= a < bb < b && bb < clen ==> #[trigger] self.branches@[i2 as int].kids()[a] != #[trigger] self.branches@[i2 as int].kids()[bb],
                decreases clen - b,
            {
                let mut a: usize = 0;
                while a < b
                    invariant
                        n == self.branches@.len(),
                        i2 < n,
                        clen == self.branches@[i2 as int].children@.len(),
                        a <= b < clen,
                        forall|z: int|
                            0 <= z < a ==> #[trigger] self.branches@[i2 as int].kids()[z]
                                != self.branches@[i2 as int].kids()[b as int],
                    decreases b - a,
                {
                    if self.branches[i2].children[a] == self.branches[i2].children[b] {
                        proof {
                            reveal(StackTree::kids_nodup);
                            assert(self.branches@[i2 as int].kids()[a as int] == self.branches@[i2 as int].kids()[b as int]);
                            assert(!self.kids_nodup());
                        }
                        return false;
                    }
                    a = a + 1;
                }
                b = b + 1;
            }
            i2 = i2 + 1;
        }
        proof {
            reveal(StackTree::kids_nodup);
            assert(self.kids_nodup());
        }
        // every child entry names a tracked branch whose parent is the
        // listing branch
        let mut i3: usize = 0;
        while i3 < n
            invariant
                n == self.branches@.len(),
                self.names_unique(),
                i3 <= n,
                forall|x: int, k: int|
                    0 <= x < i3 && 0 <= k < self.branches@[x].kids().len()
                        ==> #[trigger] self.kid_back_at(x, k),
            decreases n - i3,
        {
            let clen = self.branches[i3].children.len();
            let mut k: usize = 0;
            while k < clen
                invariant
                    n == self.branches@.len(),
                    self.names_unique(),
                    i3 < n,
                    clen == self.branches@[i3 as int].children@.len(),
                    k <= clen,
                    forall|kk: int| 0 <= kk < k ==> #[trigger] self.kid_back_at(i3 as int, kk),
                decreases clen - k,
            {
                let c = match self.position_of(&self.branches[i3].children[k]) {
                    Some(c) => c,
                    None => {
                        proof {
                            reveal(StackTree::kids_point_back);
                            // no branch carries the listed name at all
                            assert(self.branches@[i3 as int].kids()[k as int]
                                == self.branches@[i3 as int].children@[k as int]@);
                            assert(!self.kid_back_at(i3 as int, k as int));
                        }
                        return false;
                    },
                };
                let ok = match &self.branches[c].parent {
                    Some(p) => *p == self.branches[i3].name,
                    None => false,
                };
                if !ok {
                    proof {
                        reveal(StackTree::kids_point_back);
                        reveal(StackTree::names_unique);
                        // the unique branch with that name does not point
                        // back here
                        assert forall|cc: int|
                            0 <= cc < self.num() && self.nm(cc) == self.branches@[i3 as int].kids()[k as int] implies self.branches@[cc].parent_view() != Some(
                            self.nm(i3 as int),
                        ) by {
                            self.lemma_idx_unique(c as int);
                            if cc != c as int {
                                if cc < c as int {
                                    assert(self.nm(cc) != self.nm(c as int));
                                } else {
                                    assert(self.nm(c as int) != self.nm(cc));
                                }
                            }
                        }
                        assert(!self.kid_back_at(i3 as int, k as int));
                    }
                    return false;
                }
                proof {
                    assert(self.nm(c as int) == self.branches@[i3 as int].kids()[k as int]
                        && self.branches@[c as int].parent_view() == Some(self.nm(i3 as int)));
                    assert(self.kid_back_at(i3 as int, k as int));
                }
                k = k + 1;
            }
            i3 = i3 + 1;
        }
        proof {
            reveal(StackTree::kids_point_back);
            assert(self.kids_point_back());
        }
        // every non-trunk branch is listed among its parent's children
        let mut c4: usize = 1;
        while c4 < n
            invariant
                n == self.branches@.len(),
                self.names_unique(),
                self.parents_linked(),
                1 <= c4 <= n,
                forall|x: int| 1 <= x < c4 ==> #[trigger] self.kid_listed_at(x),
            decreases n - c4,
        {
            let parent = match &self.branches[c4].parent {
                Some(p) => p,
                None => {
                    proof {
                        reveal(StackTree::parents_linked);
                        assert(false);
                    }
                    return false;
                },
            };
            let pi = match self.position_of(parent) {
                Some(pi) => pi,
                None => {
                    proof {
                        reveal(StackTree::parents_linked);
                        let y = choose|y: int|
                            0 <= y < c4 && Some(#[trigger] self.nm(y)) == self.branches@[c4 as int].parent_view();
                        assert(self.has(parent@));
                        assert(false);
                    }
                    return false;
                },
            };
            match Self::position_in(&self.branches[pi].children, &self.branches[c4].name) {
                Some(k) => {
                    proof {
                        assert(0 <= pi < self.num() && 0 <= k < self.branches@[pi as int].kids().len() && Some(self.nm(pi as int)) == self.branches@[c4 as int].parent_view() && self.branches@[pi as int].kids()[k as int] == self.nm(
                            c4 as int,
                        ));
                        assert(self.kid_listed_at(c4 as int));
                    }
                },
                None => {
                    proof {
                        reveal(StackTree::kids_listed);
                        // the only branch that could list this one is its
                        // parent, and the parent's list was searched whole
                        assert forall|x: int, k: int|
                            0 <= x < self.num() && 0 <= k < self.branches@[x].kids().len()
                                && Some(self.nm(x)) == self.branches@[c4 as int].parent_view() implies self.branches@[x].kids()[k]
                            != self.nm(c4 as int) by {
                            reveal(StackTree::names_unique);
                            self.lemma_idx_unique(pi as int);
                            if x != pi as int {
                                if x < pi as int {
                                    assert(self.nm(x) != self.nm(pi as int));
                                } else {
                                    assert(self.nm(pi as int) != self.nm(x));
                                }
                            }
                        }
                        assert(!self.kid_listed_at(c4 as int));
                    }
                    return false;
                },
            }
            c4 = c4 + 1;
        }
        proof {
            reveal(StackTree::kids_listed);
            assert(self.kids_listed());
            assert(self.wf());
        }
        true
    }

    /// Position `a` lies on the parent chain above position `d`.
    pub open spec fn ancestor_at(self, d: int, a: int) -> bool
        decreases d,
        when self.wf() && 0 <= d < self.num()
    {
        match self.branches@[d].parent_view() {
            None => false,
            Some(p) => {
                proof {
                    self.lemma_parent_idx_lt(d);
                }
                self.idx_of(p) == a || self.ancestor_at(self.idx_of(p), a)
            },
        }
    }
}

} // verus!
