//! A snapshot of the repository state that the stack logic reads: the
//! checked-out branch, working-tree cleanliness, and the current tip
//! identifier of every local branch. The surrounding binary gathers these
//! from the repository and refreshes them after each git operation.

use vstd::prelude::*;

verus! {

/// One local branch and its current tip identifier.
#[derive(Debug)]
pub struct BranchTip {
    /// The branch name.
    pub name: String,
    /// The identifier of the branch's most recent commit.
    pub oid: String,
}

/// The observed state of the local repository.
#[derive(Debug)]
pub struct RepoSnapshot {
    /// The name of the checked-out branch.
    pub current_branch: String,
    /// Whether the working tree has no pending changes.
    pub working_tree_clean: bool,
    /// The current tip of every local branch. No name appears twice.
    pub tips: Vec<BranchTip>,
}

impl RepoSnapshot {
    /// Whether a tip is recorded for the named branch.
    pub open spec fn has_tip(self, n: Seq<char>) -> bool {
        exists|i: int| 0 <= i < self.tips@.len() && self.tips@[i].name@ == n
    }

    /// The recorded tip of the named branch.
    pub open spec fn tip_of(self, n: Seq<char>) -> Seq<char> {
        self.tips@[choose|i: int| 0 <= i < self.tips@.len() && self.tips@[i].name@ == n].oid@
    }

    /// No branch name appears twice among the recorded tips.
    pub open spec fn wf(self) -> bool {
        forall|i: int, j: int|
            0 <= i < j < self.tips@.len() ==> self.tips@[i].name@ != self.tips@[j].name@
    }

    /// Creates a snapshot with no recorded tips.
    pub fn new(current_branch: String, working_tree_clean: bool) -> (r: Self)
        ensures
            r.wf(),
            r.current_branch == current_branch,
            r.working_tree_clean == working_tree_clean,
            forall|n: Seq<char>| !r.has_tip(n),
    {
        Self { current_branch, working_tree_clean, tips: Vec::new() }
    }

    /// Looks up the recorded tip of the named branch.
    pub fn tip(&self, branch_name: &str) -> (r: Option<&String>)
        requires
            self.wf(),
        ensures
            r is Some <==> self.has_tip(branch_name@),
            r matches Some(t) ==> t@ == self.tip_of(branch_name@),
    {
        let owned = branch_name.to_owned();
        let n = self.tips.len();
        let mut i: usize = 0;
        while i < n
            invariant
                self.wf(),
                n == self.tips@.len(),
                i <= n,
                owned@ == branch_name@,
                forall|j: int| 0 <= j < i ==> self.tips@[j].name@ != branch_name@,
            decreases n - i,
        {
            if self.tips[i].name == owned {
                proof {
                    let w = choose|w: int|
                        0 <= w < self.tips@.len() && self.tips@[w].name@ == branch_name@;
                    if w != i as int {
                        if w < i as int {
                            assert(self.tips@[w].name@ != self.tips@[i as int].name@);
                        } else {
                            assert(self.tips@[i as int].name@ != self.tips@[w].name@);
                        }
                    }
                }
                return Some(&self.tips[i].oid);
            }
            i = i + 1;
        }
        None
    }

    /// Records a branch's tip, replacing any previous record for the same
    /// name. The binary calls this after every operation that moves a tip.
    pub fn set_tip(&mut self, branch_name: &str, oid: &str)
        requires
            old(self).wf(),
        ensures
            final(self).wf(),
            final(self).current_branch == old(self).current_branch,
            final(self).working_tree_clean == old(self).working_tree_clean,
            forall|n: Seq<char>|
                #![trigger final(self).has_tip(n)]
                #![trigger old(self).has_tip(n)]
                final(self).has_tip(n) <==> (old(self).has_tip(n) || n == branch_name@),
            final(self).tip_of(branch_name@) == oid@,
            forall|n: Seq<char>|
                #![trigger final(self).tip_of(n)]
                #![trigger old(self).tip_of(n)]
                old(self).has_tip(n) && n != branch_name@ ==> final(self).tip_of(n) == old(
                    self,
                ).tip_of(n),
    {
        let owned = branch_name.to_owned();
        let n = self.tips.len();
        let mut i: usize = 0;
        while i < n
            invariant
                old(self).wf(),
                n == self.tips@.len(),
                i <= n,
                owned@ == branch_name@,
                *self == *old(self),
                forall|j: int| 0 <= j < i ==> self.tips@[j].name@ != branch_name@,
            decreases n - i,
        {
            if self.tips[i].name == owned {
                self.tips[i].oid = oid.to_owned();
                proof {
                    let t1 = *old(self);
                    let t2 = *self;
                    let ii = i as int;
                    assert(t2.tips@ == t1.tips@.update(ii, t2.tips@[ii]));
                    assert forall|x: int| 0 <= x < t2.tips@.len() implies #[trigger] t2.tips@[x].name@
                        == t1.tips@[x].name@ by {}
                    Self::lemma_tips_reindex(t1, t2, ii, branch_name@, oid@);
                }
                return ;
            }
            i = i + 1;
        }
        let entry = BranchTip { name: owned, oid: oid.to_owned() };
        self.tips.push(entry);
        proof {
            let t1 = *old(self);
            let t2 = *self;
            let m = t1.tips@.len() as int;
            assert forall|nn: Seq<char>|
                #![trigger t2.has_tip(nn)]
                #![trigger t1.has_tip(nn)]
                t2.has_tip(nn) <==> (t1.has_tip(nn) || nn == branch_name@) by {
                if t2.has_tip(nn) {
                    let x = choose|x: int| 0 <= x < t2.tips@.len() && t2.tips@[x].name@ == nn;
                    if x < m {
                        assert(t1.has_tip(nn));
                    }
                }
                if t1.has_tip(nn) {
                    let x = choose|x: int| 0 <= x < t1.tips@.len() && t1.tips@[x].name@ == nn;
                    assert(t2.tips@[x].name@ == nn);
                }
                if nn == branch_name@ {
                    assert(t2.tips@[m].name@ == nn);
                }
            }
            assert(t2.wf()) by {
                assert forall|x: int, y: int|
                    0 <= x < y < t2.tips@.len() implies t2.tips@[x].name@ != t2.tips@[y].name@ by {
                    if y == m {
                        assert(t2.tips@[x].name@ == t1.tips@[x].name@);
                        if t1.tips@[x].name@ == branch_name@ {
                            assert(t1.has_tip(branch_name@));
                        }
                    } else {
                        assert(t1.tips@[x].name@ != t1.tips@[y].name@);
                    }
                }
            }
            assert(t2.tip_of(branch_name@) == oid@) by {
                assert(t2.tips@[m].name@ == branch_name@);
                let w = choose|w: int| 0 <= w < t2.tips@.len() && t2.tips@[w].name@ == branch_name@;
                if w != m {
                    assert(t1.tips@[w].name@ == branch_name@);
                    assert(t1.has_tip(branch_name@));
                }
            }
            assert forall|nn: Seq<char>|
                #![trigger t2.tip_of(nn)]
                #![trigger t1.tip_of(nn)]
                t1.has_tip(nn) && nn != branch_name@ implies t2.tip_of(nn) == t1.tip_of(nn) by {
                let w1 = choose|w: int| 0 <= w < t1.tips@.len() && t1.tips@[w].name@ == nn;
                let w2 = choose|w: int| 0 <= w < t2.tips@.len() && t2.tips@[w].name@ == nn;
                assert(t2.tips@[w1].name@ == nn);
                if w2 < m {
                    if w1 != w2 {
                        if w1 < w2 {
                            assert(t1.tips@[w1].name@ != t1.tips@[w2].name@);
                        } else {
                            assert(t1.tips@[w2].name@ != t1.tips@[w1].name@);
                        }
                    }
                } else {
                    assert(t2.tips@[w2].name@ == branch_name@);
                }
            }
        }
    }

    /// Updating the tip stored at one position rewrites that branch's
    /// recorded tip and nothing else.
    proof fn lemma_tips_reindex(t1: Self, t2: Self, i: int, n: Seq<char>, o: Seq<char>)
        requires
            t1.wf(),
            0 <= i < t1.tips@.len(),
            t1.tips@[i].name@ == n,
            t2.tips@.len() == t1.tips@.len(),
            forall|x: int| 0 <= x < t1.tips@.len() && x != i ==> t2.tips@[x] == t1.tips@[x],
            t2.tips@[i].name@ == n,
            t2.tips@[i].oid@ == o,
        ensures
            t2.wf(),
            forall|nn: Seq<char>|
                #![trigger t2.has_tip(nn)]
                #![trigger t1.has_tip(nn)]
                t2.has_tip(nn) <==> (t1.has_tip(nn) || nn == n),
            t2.tip_of(n) == o,
            forall|nn: Seq<char>|
                #![trigger t2.tip_of(nn)]
                #![trigger t1.tip_of(nn)]
                t1.has_tip(nn) && nn != n ==> t2.tip_of(nn) == t1.tip_of(nn),
    {
        assert forall|x: int| 0 <= x < t2.tips@.len() implies #[trigger] t2.tips@[x].name@
            == t1.tips@[x].name@ by {}
        assert forall|nn: Seq<char>|
            #![trigger t2.has_tip(nn)]
            #![trigger t1.has_tip(nn)]
            t2.has_tip(nn) <==> (t1.has_tip(nn) || nn == n) by {
            if t2.has_tip(nn) {
                let x = choose|x: int| 0 <= x < t2.tips@.len() && t2.tips@[x].name@ == nn;
                assert(t1.tips@[x].name@ == nn);
            }
            if t1.has_tip(nn) {
                let x = choose|x: int| 0 <= x < t1.tips@.len() && t1.tips@[x].name@ == nn;
                assert(t2.tips@[x].name@ == nn);
            }
            if nn == n {
                assert(t2.tips@[i].name@ == nn);
            }
        }
        assert(t2.tip_of(n) == o) by {
            let w = choose|w: int| 0 <= w < t2.tips@.len() && t2.tips@[w].name@ == n;
            if w != i {
                if w < i {
                    assert(t1.tips@[w].name@ != t1.tips@[i].name@);
                } else {
                    assert(t1.tips@[i].name@ != t1.tips@[w].name@);
                }
            }
        }
        assert forall|nn: Seq<char>|
            #![trigger t2.tip_of(nn)]
            #![trigger t1.tip_of(nn)]
            t1.has_tip(nn) && nn != n implies t2.tip_of(nn) == t1.tip_of(nn) by {
            let w1 = choose|w: int| 0 <= w < t1.tips@.len() && t1.tips@[w].name@ == nn;
            let w2 = choose|w: int| 0 <= w < t2.tips@.len() && t2.tips@[w].name@ == nn;
            assert(t2.tips@[w1].name@ == nn);
            assert(w2 != i);
            if w1 != w2 {
                if w1 < w2 {
                    assert(t1.tips@[w1].name@ != t1.tips@[w2].name@);
                } else {
                    assert(t1.tips@[w2].name@ != t1.tips@[w1].name@);
                }
            }
        }
    }
}

} // verus!
