//! The in-memory context of one command invocation: the configuration, the
//! observed repository state, and the stack tree. The staleness oracle, the
//! stack discovery walk, and the bookkeeping around restacks live here; the
//! surrounding binary performs the checkouts, rebases, pushes and pulls and
//! reports their outcomes back.

use crate::config::StConfig;
use crate::errors::StError;
use crate::repo::RepoSnapshot;
use crate::tree::StackTree;
use crate::tree::TrackedBranch;
use vstd::prelude::*;

verus! {

/// The in-memory context of one command invocation.
#[derive(Debug)]
pub struct StContext {
    /// The global configuration.
    pub cfg: StConfig,
    /// The observed state of the repository.
    pub repository: RepoSnapshot,
    /// The tree of tracked branches.
    pub tree: StackTree,
}

impl StContext {
    /// Both halves of the context are well-formed.
    pub open spec fn wf(self) -> bool {
        self.tree.wf() && self.repository.wf()
    }

    /// Creates a fresh context whose tree holds only the trunk.
    pub fn fresh(cfg: StConfig, repository: RepoSnapshot, trunk: String) -> (r: Self)
        requires
            repository.wf(),
        ensures
            r.wf(),
            r.cfg == cfg,
            r.repository == repository,
            r.tree.trunk_name == trunk,
            r.tree.num() == 1,
            r.tree.branches@[0].remote is None,
            r.tree.branches@[0].kids().len() == 0,
    {
        Self { cfg, repository, tree: StackTree::new(trunk) }
    }

    /// Whether the branch at position `i` needs restacking: it has a parent
    /// and either its cached parent tip differs from the parent's current
    /// tip, or the parent itself needs restacking. The trunk never does.
    pub open spec fn spec_needs_restack_at(self, i: int) -> bool
        decreases i,
        when self.wf() && 0 <= i < self.tree.num()
    {
        match self.tree.branches@[i].parent_view() {
            None => false,
            Some(p) => {
                proof {
                    self.tree.lemma_parent_idx_lt(i);
                }
                self.tree.branches@[i].cache_view() != Some(self.repository.tip_of(p))
                    || self.spec_needs_restack_at(self.tree.idx_of(p))
            },
        }
    }

    /// Whether every parent tip that the staleness query for position `i`
    /// must read is recorded in the snapshot. The query short-circuits on a
    /// cache mismatch, so tips above a mismatch are not required.
    pub open spec fn tips_resolved_at(self, i: int) -> bool
        decreases i,
        when self.wf() && 0 <= i < self.tree.num()
    {
        match self.tree.branches@[i].parent_view() {
            None => true,
            Some(p) => {
                proof {
                    self.tree.lemma_parent_idx_lt(i);
                }
                self.repository.has_tip(p) && (self.tree.branches@[i].cache_view() != Some(
                    self.repository.tip_of(p),
                ) || self.tips_resolved_at(self.tree.idx_of(p)))
            },
        }
    }

    /// Whether the named branch needs restacking.
    pub open spec fn spec_needs_restack(self, n: Seq<char>) -> bool {
        self.spec_needs_restack_at(self.tree.idx_of(n))
    }

    /// Whether the staleness query for the named branch can be answered
    /// from the snapshot.
    pub open spec fn tips_resolved(self, n: Seq<char>) -> bool {
        self.tips_resolved_at(self.tree.idx_of(n))
    }

    /// Returns whether the named branch needs to be restacked onto its
    /// parent: its cached parent tip is outdated, or an ancestor's is.
    pub fn needs_restack(&self, branch_name: &str) -> (r: Result<bool, StError>)
        requires
            self.wf(),
        ensures
            r is Ok <==> (self.tree.has(branch_name@) && self.tips_resolved(branch_name@)),
            r matches Ok(b) ==> b == self.spec_needs_restack(branch_name@),
            r matches Err(e) ==> ((e matches StError::BranchNotTracked(n) && n@ == branch_name@
                && !self.tree.has(branch_name@)) || (e is BranchUnavailable && self.tree.has(
                branch_name@,
            ) && !self.tips_resolved(branch_name@))),
        decreases self.tree.idx_of(branch_name@),
    {
        let node = match self.tree.get(branch_name) {
            Some(node) => node,
            None => {
                return Err(StError::BranchNotTracked(branch_name.to_owned()));
            },
        };
        let ghost i = self.tree.idx_of(branch_name@);
        proof {
            assert(0 <= i < self.tree.num() && self.tree.nm(i) == branch_name@);
        }
        // the trunk has no parent and never needs a restack
        let parent = match &node.parent {
            Some(p) => p,
            None => {
                return Ok(false);
            },
        };
        proof {
            self.tree.lemma_parent_idx_lt(i);
        }
        let parent_tip = match self.repository.tip(parent.as_str()) {
            Some(t) => t,
            None => {
                return Err(StError::BranchUnavailable);
            },
        };
        let cache = match &node.parent_oid_cache {
            Some(c) => c,
            None => {
                proof {
                    reveal(StackTree::parents_linked);
                    if i == 0 {
                        assert(self.tree.branches@[0].parent is None);
                    }
                    assert(self.tree.branches@[i].parent_oid_cache is Some);
                    assert(false);
                }
                return Err(StError::MissingParentOidCache);
            },
        };
        if *cache == *parent_tip {
            self.needs_restack(parent.as_str())
        } else {
            Ok(true)
        }
    }

    /// Discovers the current stack, relative to the checked-out branch,
    /// ordered from the trunk to the tip: every ancestor of the checked-out
    /// branch, the branch itself, and then each single child in turn; the
    /// walk stops without guessing where a branch has no child or more
    /// than one.
    pub fn discover_stack(&self) -> (r: Result<Vec<String>, StError>)
        requires
            self.wf(),
        ensures
            r is Ok <==> self.tree.has(self.repository.current_branch@),
            r matches Err(e) ==> (e matches StError::BranchNotTracked(n) && n@
                == self.repository.current_branch@),
            r matches Ok(s) ==> {
                &&& s@.len() >= 1
                &&& (forall|k: int| 0 <= k < s@.len() ==> #[trigger] self.tree.has(s@[k]@))
                &&& s@[0]@ == self.tree.trunk_name@
                &&& (forall|k: int|
                    #![trigger s@[k]]
                    1 <= k < s@.len() ==> self.tree.node(s@[k]@).parent_view() == Some(
                        s@[k - 1]@,
                    ))
                &&& exists|m: int|
                    #![trigger s@[m]]
                    0 <= m < s@.len() && s@[m]@ == self.repository.current_branch@ && (forall|
                        k: int,
                    |
                        #![trigger s@[k]]
                        m <= k < s@.len() - 1 ==> self.tree.node(s@[k]@).kids().len() == 1)
                &&& self.tree.node(s@[s@.len() - 1]@).kids().len() != 1
            },
    {
        let current = self.repository.current_branch.clone();
        if self.tree.get(current.as_str()).is_none() {
            return Err(StError::BranchNotTracked(current));
        }
        // resolve upstack: walk parent links from the checked-out branch to
        // the trunk, collecting the chain tip-first
        let mut up: Vec<String> = Vec::new();
        let mut cursor: String = current.clone();
        up.push(current.clone());
        loop
            invariant
                self.wf(),
                current@ == self.repository.current_branch@,
                up@.len() >= 1,
                self.tree.has(cursor@),
                up@[up@.len() - 1]@ == cursor@,
                up@[0]@ == current@,
                forall|k: int| 0 <= k < up@.len() ==> #[trigger] self.tree.has(up@[k]@),
                forall|k: int|
                    #![trigger up@[k]]
                    0 <= k < up@.len() - 1 ==> self.tree.node(up@[k]@).parent_view() == Some(
                        up@[k + 1]@,
                    ),
            ensures
                self.tree.has(cursor@),
                up@.len() >= 1,
                up@[up@.len() - 1]@ == cursor@,
                up@[0]@ == current@,
                forall|k: int| 0 <= k < up@.len() ==> #[trigger] self.tree.has(up@[k]@),
                forall|k: int|
                    #![trigger up@[k]]
                    0 <= k < up@.len() - 1 ==> self.tree.node(up@[k]@).parent_view() == Some(
                        up@[k + 1]@,
                    ),
                self.tree.node(cursor@).parent_view() is None,
            decreases self.tree.idx_of(cursor@),
        {
            let node = match self.tree.get(cursor.as_str()) {
                Some(n) => n,
                None => {
                    proof {
                        assert(false);
                    }
                    return Err(StError::BranchNotTracked(cursor));
                },
            };
            match &node.parent {
                Some(p) => {
                    proof {
                        self.tree.lemma_parent_idx_lt(self.tree.idx_of(cursor@));
                    }
                    up.push(p.clone());
                    cursor = p.clone();
                },
                None => {
                    break ;
                },
            }
        }
        proof {
            // a branch without a parent is the trunk: every other branch
            // links to one
            reveal(StackTree::parents_linked);
            let ci = self.tree.idx_of(cursor@);
            assert(0 <= ci < self.tree.num() && self.tree.nm(ci) == cursor@);
            if ci != 0 {
                assert(self.tree.branches@[ci].parent is Some);
            }
            assert(cursor@ == self.tree.trunk_name@);
        }
        // reverse the chain so it reads trunk-first
        let mut s: Vec<String> = Vec::new();
        let n_up = up.len();
        let mut i: usize = 0;
        while i < n_up
            invariant
                n_up == up@.len(),
                i <= n_up,
                s@.len() == i,
                forall|k: int| 0 <= k < i ==> #[trigger] s@[k] == up@[n_up - 1 - k],
            decreases n_up - i,
        {
            s.push(up[n_up - 1 - i].clone());
            i = i + 1;
        }
        let ghost m: int = n_up as int - 1;
        let mut cursor2: String = current;
        proof {
            assert(s@[m as int]@ == current@);
            assert(s@[0]@ == self.tree.trunk_name@);
            assert forall|k: int| #![trigger s@[k]] 1 <= k < s@.len() implies self.tree.node(
                s@[k]@,
            ).parent_view() == Some(s@[k - 1]@) by {
                let j = n_up - 1 - k;
                assert(s@[k] == up@[j]);
                assert(s@[k - 1] == up@[j + 1]);
            }
        }
        // resolve downstack: follow the single child while there is exactly
        // one, and stop at a tip or a fork
        loop
            invariant
                self.wf(),
                s@.len() >= 1,
                0 <= m < s@.len(),
                s@[m]@ == self.repository.current_branch@,
                s@[0]@ == self.tree.trunk_name@,
                self.tree.has(cursor2@),
                s@[s@.len() - 1]@ == cursor2@,
                forall|k: int| 0 <= k < s@.len() ==> #[trigger] self.tree.has(s@[k]@),
                forall|k: int|
                    #![trigger s@[k]]
                    1 <= k < s@.len() ==> self.tree.node(s@[k]@).parent_view() == Some(
                        s@[k - 1]@,
                    ),
                forall|k: int|
                    #![trigger s@[k]]
                    m <= k < s@.len() - 1 ==> self.tree.node(s@[k]@).kids().len() == 1,
            ensures
                s@.len() >= 1,
                0 <= m < s@.len(),
                s@[m]@ == self.repository.current_branch@,
                s@[0]@ == self.tree.trunk_name@,
                forall|k: int| 0 <= k < s@.len() ==> #[trigger] self.tree.has(s@[k]@),
                forall|k: int|
                    #![trigger s@[k]]
                    1 <= k < s@.len() ==> self.tree.node(s@[k]@).parent_view() == Some(
                        s@[k - 1]@,
                    ),
                forall|k: int|
                    #![trigger s@[k]]
                    m <= k < s@.len() - 1 ==> self.tree.node(s@[k]@).kids().len() == 1,
                self.tree.node(s@[s@.len() - 1]@).kids().len() != 1,
            decreases self.tree.num() - self.tree.idx_of(cursor2@),
        {
            let node = match self.tree.get(cursor2.as_str()) {
                Some(n) => n,
                None => {
                    proof {
                        assert(false);
                    }
                    return Err(StError::BranchNotTracked(cursor2));
                },
            };
            if node.children.len() != 1 {
                break ;
            }
            let child = node.children[0].clone();
            proof {
                reveal(StackTree::kids_point_back);
                reveal(StackTree::names_unique);
                let ci = self.tree.idx_of(cursor2@);
                assert(self.tree.kid_back_at(ci, 0));
                let c = choose|c: int|
                    0 <= c < self.tree.num() && self.tree.nm(c) == self.tree.branches@[ci].kids()[0]
                        && self.tree.branches@[c].parent_view() == Some(self.tree.nm(ci));
                assert(child@ == self.tree.nm(c));
                assert(self.tree.has(child@));
                self.tree.lemma_idx_unique(c);
                assert(self.tree.node(child@) == self.tree.branches@[c]);
                self.tree.lemma_parent_idx_lt(c);
                // the parent of the child is the cursor, which pins its
                // position after the cursor's
                assert(self.tree.idx_of(self.tree.nm(ci)) == ci) by {
                    self.tree.lemma_idx_unique(ci);
                }
                assert(ci < c);
            }
            s.push(child.clone());
            cursor2 = child;
        }
        Ok(s)
    }

    /// The named branch passes the pre-flight staleness check: it is
    /// tracked, its staleness query can be answered from the snapshot, and
    /// it needs no restack.
    pub open spec fn preflight_ok(self, n: Seq<char>) -> bool {
        self.tree.has(n) && self.tips_resolved(n) && !self.spec_needs_restack(n)
    }

    /// Checks that every branch in the list is settled and that the
    /// working tree is clean: the shared precondition of submit and sync.
    /// The first offending branch decides the outcome: a staleness query
    /// that cannot be answered aborts with its own error, a stale branch
    /// is reported as needing a restack, and only after every branch
    /// passes is a dirty working tree reported.
    pub fn check_cleanliness(&self, branches: &Vec<String>) -> (r: Result<(), StError>)
        requires
            self.wf(),
        ensures
            r is Ok <==> ((forall|k: int|
                0 <= k < branches@.len() ==> self.preflight_ok(#[trigger] branches@[k]@))
                && self.repository.working_tree_clean),
            r matches Err(e) ==> ((exists|k: int|
                0 <= k < branches@.len() && !self.preflight_ok(#[trigger] branches@[k]@) && (
                forall|x: int| 0 <= x < k ==> self.preflight_ok(#[trigger] branches@[x]@)) && {
                    let n = branches@[k]@;
                    if !self.tree.has(n) {
                        e matches StError::BranchNotTracked(m) && m@ == n
                    } else if !self.tips_resolved(n) {
                        e is BranchUnavailable
                    } else {
                        e matches StError::NeedsRestack(m) && m@ == n
                    }
                }) || (e is WorkingTreeDirty && !self.repository.working_tree_clean && (forall|
            k: int,
            |
                0 <= k < branches@.len() ==> self.preflight_ok(#[trigger] branches@[k]@)))),
    {
        let n = branches.len();
        let mut k: usize = 0;
        while k < n
            invariant
                self.wf(),
                n == branches@.len(),
                k <= n,
                forall|x: int| 0 <= x < k ==> self.preflight_ok(#[trigger] branches@[x]@),
            decreases n - k,
        {
            match self.needs_restack(branches[k].as_str()) {
                Ok(false) => {},
                Ok(true) => {
                    return Err(StError::NeedsRestack(branches[k].clone()));
                },
                Err(e) => {
                    return Err(e);
                },
            }
            k = k + 1;
        }
        if !self.repository.working_tree_clean {
            return Err(StError::WorkingTreeDirty);
        }
        Ok(())
    }

    /// The relation between contexts before and after one branch's cached
    /// parent tip is refreshed from the snapshot tip of `p`.
    pub open spec fn cache_refreshed(c1: Self, c2: Self, n: Seq<char>, p: Seq<char>) -> bool {
        &&& c1.tree.has(n)
        &&& c2.cfg == c1.cfg
        &&& c2.repository == c1.repository
        &&& c2.tree.trunk_name == c1.tree.trunk_name
        &&& c2.tree.num() == c1.tree.num()
        &&& (forall|x: int|
            0 <= x < c1.tree.num() && x != c1.tree.idx_of(n) ==> c2.tree.branches@[x]
                == c1.tree.branches@[x])
        &&& ({
            let i = c1.tree.idx_of(n);
            let b1 = c1.tree.branches@[i];
            let b2 = c2.tree.branches@[i];
            &&& b2.name == b1.name
            &&& b2.parent == b1.parent
            &&& b2.children == b1.children
            &&& b2.remote == b1.remote
            &&& b2.cache_view() == Some(c1.repository.tip_of(p))
        })
    }

    /// The staleness of a branch only depends on the branches at or before
    /// its position, so two contexts that agree on the snapshot, on every
    /// branch's name and parent, and on the caches strictly below a bound
    /// agree on staleness strictly below that bound.
    proof fn lemma_stale_prefix(c1: Self, c2: Self, bi: int, i: int)
        requires
            c1.wf(),
            c2.wf(),
            c2.repository == c1.repository,
            c2.tree.num() == c1.tree.num(),
            forall|x: int|
                0 <= x < c1.tree.num() ==> (#[trigger] c2.tree.branches@[x]).name@
                    == c1.tree.branches@[x].name@ && c2.tree.branches@[x].parent_view()
                    == c1.tree.branches@[x].parent_view(),
            forall|x: int|
                0 <= x < bi ==> (#[trigger] c2.tree.branches@[x]).cache_view()
                    == c1.tree.branches@[x].cache_view(),
            0 <= i < bi <= c1.tree.num(),
        ensures
            c2.spec_needs_restack_at(i) == c1.spec_needs_restack_at(i),
        decreases i,
    {
        match c1.tree.branches@[i].parent_view() {
            None => {},
            Some(p) => {
                c1.tree.lemma_parent_idx_lt(i);
                c2.tree.lemma_parent_idx_lt(i);
                let j = c1.tree.idx_of(p);
                assert(c1.tree.nm(j) == p);
                assert(c2.tree.nm(j) == p);
                c2.tree.lemma_idx_unique(j);
                assert(c2.tree.idx_of(p) == j);
                Self::lemma_stale_prefix(c1, c2, bi, j);
            },
        }
    }

    /// After a rebase refreshes a branch's cache from a parent that itself
    /// needed no restack, the branch no longer needs restacking — so an
    /// immediately repeated restack step performs zero rebases. (A step on
    /// a branch that needs no restack changes nothing at all, so the same
    /// holds there.)
    pub proof fn lemma_restack_idempotent(c1: Self, c2: Self, n: Seq<char>, p: Seq<char>)
        requires
            c1.wf(),
            c2.wf(),
            c1.tree.has(n),
            c1.tree.node(n).parent_view() == Some(p),
            !c1.spec_needs_restack(p),
            Self::cache_refreshed(c1, c2, n, p),
        ensures
            !c2.spec_needs_restack(n),
    {
        reveal(StackTree::names_unique);
        let i = c1.tree.idx_of(n);
        assert(0 <= i < c1.tree.num() && c1.tree.nm(i) == n);
        c1.tree.lemma_idx_unique(i);
        assert forall|x: int| 0 <= x < c2.tree.num() implies (#[trigger] c2.tree.branches@[x]).name@
            == c1.tree.branches@[x].name@ && c2.tree.branches@[x].parent_view()
            == c1.tree.branches@[x].parent_view() by {
            if x != i {
                assert(c2.tree.branches@[x] == c1.tree.branches@[x]);
            }
        }
        c2.tree.lemma_idx_unique(i);
        assert(c2.tree.idx_of(n) == i);
        c1.tree.lemma_parent_idx_lt(i);
        c2.tree.lemma_parent_idx_lt(i);
        let j = c1.tree.idx_of(p);
        assert(c1.tree.nm(j) == p && j < i);
        c2.tree.lemma_idx_unique(j);
        assert(c2.tree.idx_of(p) == j);
        assert forall|x: int| 0 <= x < i implies (#[trigger] c2.tree.branches@[x]).cache_view()
            == c1.tree.branches@[x].cache_view() by {
            assert(c2.tree.branches@[x] == c1.tree.branches@[x]);
        }
        Self::lemma_stale_prefix(c1, c2, i, j);
        assert(!c2.spec_needs_restack_at(j));
        assert(c2.tree.branches@[i].cache_view() == Some(c2.repository.tip_of(p)));
        assert(!c2.spec_needs_restack_at(i));
    }

    /// After the binary has successfully rebased `branch_name` onto
    /// `parent_name`, refreshes the branch's cached parent tip to the
    /// parent's current tip. A failed rebase must not reach this function,
    /// so a failure never leaves a partial cache update. When the named
    /// parent is the branch's recorded parent and that parent needed no
    /// restack, the branch needs none afterwards either.
    pub fn record_restack(&mut self, branch_name: &str, parent_name: &str) -> (r: Result<
        (),
        StError,
    >)
        requires
            old(self).wf(),
            branch_name@ != old(self).tree.trunk_name@,
        ensures
            final(self).wf(),
            final(self).cfg == old(self).cfg,
            final(self).repository == old(self).repository,
            !old(self).repository.has_tip(parent_name@) ==> (r matches Err(e) && e
                is MissingParentOidCache && *final(self) == *old(self)),
            old(self).repository.has_tip(parent_name@) && !old(self).tree.has(branch_name@)
                ==> (r matches Err(StError::BranchNotTracked(n)) && n@ == branch_name@
                && *final(self) == *old(self)),
            old(self).repository.has_tip(parent_name@) && old(self).tree.has(branch_name@) ==> {
                &&& r is Ok
                &&& Self::cache_refreshed(*old(self), *final(self), branch_name@, parent_name@)
                &&& ((old(self).tree.node(branch_name@).parent_view() == Some(parent_name@)
                    && !old(self).spec_needs_restack(parent_name@))
                    ==> !final(self).spec_needs_restack(branch_name@))
            },
    {
        let parent_tip = match self.repository.tip(parent_name) {
            Some(t) => t.clone(),
            None => {
                return Err(StError::MissingParentOidCache);
            },
        };
        match self.tree.set_parent_oid_cache(branch_name, parent_tip.as_str()) {
            Ok(()) => {},
            Err(e) => {
                return Err(e);
            },
        }
        proof {
            let c1 = *old(self);
            let c2 = *self;
            let i = c1.tree.idx_of(branch_name@);
            assert(c2.tree.branches@[i] == c2.tree.node(branch_name@));
            assert(Self::cache_refreshed(c1, c2, branch_name@, parent_name@));
            if c1.tree.node(branch_name@).parent_view() == Some(parent_name@)
                && !c1.spec_needs_restack(parent_name@) {
                Self::lemma_restack_idempotent(c1, c2, branch_name@, parent_name@);
            }
        }
        Ok(())
    }

    /// The governing layer over tree deletion: deleting the trunk is
    /// rejected here, before the tree is touched; any other tracked branch
    /// is removed from the tree, its children re-parented onto its own
    /// parent, and the removed record returned for inspection.
    pub fn delete_branch(&mut self, branch_name: &str) -> (r: Result<TrackedBranch, StError>)
        requires
            old(self).wf(),
        ensures
            final(self).wf(),
            final(self).cfg == old(self).cfg,
            final(self).repository == old(self).repository,
            branch_name@ == old(self).tree.trunk_name@ ==> (r matches Err(e) && e
                is CannotDeleteTrunkBranch && *final(self) == *old(self)),
            branch_name@ != old(self).tree.trunk_name@ && !old(self).tree.has(branch_name@) ==> (
            r matches Err(StError::BranchNotTracked(n)) && n@ == branch_name@ && *final(self)
                == *old(self)),
            branch_name@ != old(self).tree.trunk_name@ && old(self).tree.has(branch_name@) ==> (
            r matches Ok(removed) && removed == old(self).tree.node(branch_name@)
                && StackTree::delete_effect(old(self).tree, final(self).tree, branch_name@)),
    {
        let owned = branch_name.to_owned();
        if owned == self.tree.trunk_name {
            return Err(StError::CannotDeleteTrunkBranch);
        }
        match self.tree.delete(branch_name) {
            Ok(removed) => Ok(removed),
            Err(e) => Err(e),
        }
    }

    /// Staleness cascades: when a branch needs restacking, every branch
    /// that transitively builds on it needs restacking too, until the
    /// caches are refreshed.
    pub proof fn lemma_needs_restack_monotone(self, a: int, d: int)
        requires
            self.wf(),
            0 <= a < self.tree.num(),
            0 <= d < self.tree.num(),
            self.tree.ancestor_at(d, a),
            self.spec_needs_restack_at(a),
        ensures
            self.spec_needs_restack_at(d),
        decreases d,
    {
        match self.tree.branches@[d].parent_view() {
            None => {},
            Some(p) => {
                self.tree.lemma_parent_idx_lt(d);
                let j = self.tree.idx_of(p);
                if j == a {
                    assert(self.spec_needs_restack_at(d));
                } else {
                    assert(self.tree.ancestor_at(j, a));
                    self.lemma_needs_restack_monotone(a, j);
                }
            },
        }
    }
}

/// A pair of a rendered log line and the branch name it stands for, as
/// handed to interactive branch pickers.
#[derive(Debug, Clone, PartialEq, Eq)]
pub struct DisplayBranch {
    /// The rendered line to display.
    pub display_value: String,
    /// The branch name the line stands for.
    pub branch_name: String,
}

} // verus!
