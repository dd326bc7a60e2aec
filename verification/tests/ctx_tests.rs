use st::config::StConfig;
use st::ctx::StContext;
use st::errors::StError;
use st::repo::RepoSnapshot;
use st::tree::StackTree;

fn snapshot(current: &str, clean: bool, tips: &[(&str, &str)]) -> RepoSnapshot {
    let mut repo = RepoSnapshot::new(current.to_string(), clean);
    for (name, oid) in tips {
        repo.set_tip(name, oid);
    }
    repo
}

fn ctx(tree: StackTree, repo: RepoSnapshot) -> StContext {
    StContext { cfg: StConfig { github_token: "token".to_string() }, repository: repo, tree }
}

/// trunk -> a -> b with every cache matching the current tips
fn settled_chain() -> StContext {
    let mut t = StackTree::new("trunk".to_string());
    t.insert("trunk", "t1", "a").unwrap();
    t.insert("a", "a1", "b").unwrap();
    let repo = snapshot("b", true, &[("trunk", "t1"), ("a", "a1"), ("b", "b1")]);
    ctx(t, repo)
}

#[test]
fn trunk_never_needs_restack() {
    let c = settled_chain();
    assert_eq!(c.needs_restack("trunk").unwrap(), false);
}

#[test]
fn settled_branches_need_no_restack() {
    let c = settled_chain();
    assert_eq!(c.needs_restack("a").unwrap(), false);
    assert_eq!(c.needs_restack("b").unwrap(), false);
}

#[test]
fn outdated_cache_needs_restack() {
    // branch x cached parent tip "111", parent's tip is now "222"
    let mut t = StackTree::new("trunk".to_string());
    t.insert("trunk", "111", "x").unwrap();
    let repo = snapshot("x", true, &[("trunk", "222"), ("x", "x1")]);
    let c = ctx(t, repo);
    assert_eq!(c.needs_restack("x").unwrap(), true);
}

#[test]
fn restack_refreshes_cache_and_settles_branch() {
    let mut t = StackTree::new("trunk".to_string());
    t.insert("trunk", "111", "x").unwrap();
    let repo = snapshot("x", true, &[("trunk", "222"), ("x", "x1")]);
    let mut c = ctx(t, repo);
    assert_eq!(c.needs_restack("x").unwrap(), true);
    // the binary rebases x onto trunk, then reports back
    c.record_restack("x", "trunk").unwrap();
    assert_eq!(c.tree.get("x").unwrap().parent_oid_cache.as_deref(), Some("222"));
    assert_eq!(c.needs_restack("x").unwrap(), false);
}

#[test]
fn staleness_cascades_to_descendants() {
    // a's cache is stale; b's own cache matches, yet b needs restacking
    let mut t = StackTree::new("trunk".to_string());
    t.insert("trunk", "old", "a").unwrap();
    t.insert("a", "a1", "b").unwrap();
    let repo = snapshot("b", true, &[("trunk", "new"), ("a", "a1"), ("b", "b1")]);
    let c = ctx(t, repo);
    assert_eq!(c.needs_restack("a").unwrap(), true);
    assert_eq!(c.needs_restack("b").unwrap(), true);
}

#[test]
fn restack_is_idempotent_when_settled() {
    // a restack step on a settled branch rebases nothing and changes
    // nothing, so a second step rebases nothing as well
    let mut c = settled_chain();
    assert_eq!(c.needs_restack("a").unwrap(), false);
    assert_eq!(c.needs_restack("a").unwrap(), false);
    // after an actual restack the same holds immediately
    c.tree.set_parent_oid_cache("a", "stale").unwrap();
    assert_eq!(c.needs_restack("a").unwrap(), true);
    c.record_restack("a", "trunk").unwrap();
    assert_eq!(c.needs_restack("a").unwrap(), false);
    assert_eq!(c.needs_restack("a").unwrap(), false);
}

#[test]
fn needs_restack_reports_untracked_branch() {
    let c = settled_chain();
    let e = c.needs_restack("ghost").unwrap_err();
    assert_eq!(e, StError::BranchNotTracked("ghost".to_string()));
}

#[test]
fn needs_restack_reports_missing_parent_tip() {
    let mut t = StackTree::new("trunk".to_string());
    t.insert("trunk", "t1", "a").unwrap();
    let repo = snapshot("a", true, &[("a", "a1")]);
    let c = ctx(t, repo);
    let e = c.needs_restack("a").unwrap_err();
    assert_eq!(e, StError::BranchUnavailable);
}

#[test]
fn discover_linear_chain() {
    // trunk -> a -> b -> c with b checked out
    let mut t = StackTree::new("trunk".to_string());
    t.insert("trunk", "t1", "a").unwrap();
    t.insert("a", "a1", "b").unwrap();
    t.insert("b", "b1", "c").unwrap();
    let repo = snapshot("b", true, &[]);
    let c = ctx(t, repo);
    let stack = c.discover_stack().unwrap();
    assert_eq!(stack, vec!["trunk", "a", "b", "c"]);
}

#[test]
fn discover_stops_at_fork() {
    // b has two children: downstack resolution does not guess
    let mut t = StackTree::new("trunk".to_string());
    t.insert("trunk", "t1", "a").unwrap();
    t.insert("a", "a1", "b").unwrap();
    t.insert("b", "b1", "c").unwrap();
    t.insert("b", "b1", "d").unwrap();
    let repo = snapshot("b", true, &[]);
    let c = ctx(t, repo);
    let stack = c.discover_stack().unwrap();
    assert_eq!(stack, vec!["trunk", "a", "b"]);
}

#[test]
fn discover_from_tip_and_from_trunk() {
    let mut t = StackTree::new("trunk".to_string());
    t.insert("trunk", "t1", "a").unwrap();
    t.insert("a", "a1", "b").unwrap();
    let repo = snapshot("b", true, &[]);
    let c = ctx(t, repo);
    assert_eq!(c.discover_stack().unwrap(), vec!["trunk", "a", "b"]);
    let repo = snapshot("trunk", true, &[]);
    let c = ctx(c.tree, repo);
    assert_eq!(c.discover_stack().unwrap(), vec!["trunk", "a", "b"]);
}

#[test]
fn discover_untracked_current_fails() {
    let c = ctx(StackTree::new("trunk".to_string()), snapshot("wild", true, &[]));
    let e = c.discover_stack().unwrap_err();
    assert_eq!(e, StError::BranchNotTracked("wild".to_string()));
}

#[test]
fn cleanliness_requires_clean_working_tree() {
    let mut c = settled_chain();
    c.repository.working_tree_clean = false;
    let names = vec!["trunk".to_string(), "a".to_string(), "b".to_string()];
    let e = c.check_cleanliness(&names).unwrap_err();
    assert_eq!(e, StError::WorkingTreeDirty);
}

#[test]
fn cleanliness_reports_first_stale_branch() {
    let mut c = settled_chain();
    c.tree.set_parent_oid_cache("a", "stale").unwrap();
    let names = vec!["trunk".to_string(), "a".to_string(), "b".to_string()];
    let e = c.check_cleanliness(&names).unwrap_err();
    assert_eq!(e, StError::NeedsRestack("a".to_string()));
}

#[test]
fn cleanliness_propagates_staleness_query_failure() {
    // the trunk tip is missing from the snapshot, so a's staleness cannot
    // be determined; the pre-flight aborts with that error instead of
    // treating the branch as settled
    let mut t = StackTree::new("trunk".to_string());
    t.insert("trunk", "t1", "a").unwrap();
    t.insert("a", "a1", "b").unwrap();
    let repo = snapshot("b", true, &[("a", "a1"), ("b", "b1")]);
    let c = ctx(t, repo);
    let names = vec!["trunk".to_string(), "a".to_string(), "b".to_string()];
    let e = c.check_cleanliness(&names).unwrap_err();
    assert_eq!(e, StError::BranchUnavailable);
}

#[test]
fn cleanliness_reports_untracked_branch() {
    let c = settled_chain();
    let names = vec!["trunk".to_string(), "ghost".to_string()];
    let e = c.check_cleanliness(&names).unwrap_err();
    assert_eq!(e, StError::BranchNotTracked("ghost".to_string()));
}

#[test]
fn cleanliness_passes_on_settled_clean_stack() {
    let c = settled_chain();
    let names = vec!["trunk".to_string(), "a".to_string(), "b".to_string()];
    assert!(c.check_cleanliness(&names).is_ok());
}

#[test]
fn delete_branch_rejects_trunk() {
    let mut c = settled_chain();
    let e = c.delete_branch("trunk").unwrap_err();
    assert_eq!(e, StError::CannotDeleteTrunkBranch);
    assert!(c.tree.get("trunk").is_some());
}

#[test]
fn delete_branch_keeps_remaining_reachable() {
    let mut c = settled_chain();
    let removed = c.delete_branch("a").unwrap();
    assert_eq!(removed.name, "a");
    assert!(c.tree.check());
    // b now sits on trunk and is still discovered from trunk downward
    let repo = snapshot("b", true, &[]);
    let c = ctx(c.tree, repo);
    assert_eq!(c.discover_stack().unwrap(), vec!["trunk", "b"]);
}

#[test]
fn snapshot_tips_update_in_place() {
    let mut repo = RepoSnapshot::new("trunk".to_string(), true);
    assert!(repo.tip("a").is_none());
    repo.set_tip("a", "one");
    assert_eq!(repo.tip("a").map(String::as_str), Some("one"));
    repo.set_tip("a", "two");
    assert_eq!(repo.tip("a").map(String::as_str), Some("two"));
    repo.set_tip("b", "three");
    assert_eq!(repo.tip("a").map(String::as_str), Some("two"));
    assert_eq!(repo.tip("b").map(String::as_str), Some("three"));
}
