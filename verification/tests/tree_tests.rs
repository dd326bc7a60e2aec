use st::tree::{RemoteMetadata, StackTree, TrackedBranch};
use st::errors::StError;

fn tree_with(parents: &[(&str, &str)]) -> StackTree {
    // each pair is (parent, child); caches get a placeholder tip
    let mut t = StackTree::new("trunk".to_string());
    for (parent, child) in parents {
        t.insert(parent, "oid0", child).unwrap();
    }
    t
}

#[test]
fn new_tree_has_only_trunk() {
    let t = StackTree::new("trunk".to_string());
    assert!(t.check());
    let trunk = t.get("trunk").unwrap();
    assert_eq!(trunk.name, "trunk");
    assert!(trunk.parent.is_none());
    assert!(trunk.parent_oid_cache.is_none());
    assert!(trunk.children.is_empty());
    assert!(trunk.remote.is_none());
    assert!(t.get("a").is_none());
    assert_eq!(t.branches().unwrap(), vec!["trunk".to_string()]);
}

#[test]
fn insert_tracks_child() {
    let mut t = StackTree::new("trunk".to_string());
    t.insert("trunk", "abc123", "a").unwrap();
    assert!(t.check());
    let a = t.get("a").unwrap();
    assert_eq!(a.parent.as_deref(), Some("trunk"));
    assert_eq!(a.parent_oid_cache.as_deref(), Some("abc123"));
    assert!(a.children.is_empty());
    assert!(a.remote.is_none());
    let trunk = t.get("trunk").unwrap();
    assert_eq!(trunk.children, vec!["a".to_string()]);
}

#[test]
fn insert_unknown_parent_fails() {
    let mut t = StackTree::new("trunk".to_string());
    let e = t.insert("nope", "abc", "a").unwrap_err();
    assert_eq!(e, StError::BranchNotTracked("nope".to_string()));
    assert!(t.get("a").is_none());
}

#[test]
fn insert_already_tracked_fails() {
    let mut t = tree_with(&[("trunk", "a")]);
    let e = t.insert("trunk", "abc", "a").unwrap_err();
    assert_eq!(e, StError::BranchAlreadyTracked("a".to_string()));
}

#[test]
fn delete_reparents_children() {
    // tree trunk -> a -> b; delete a
    let mut t = tree_with(&[("trunk", "a"), ("a", "b")]);
    let removed = t.delete("a").unwrap();
    assert_eq!(removed.name, "a");
    assert!(t.check());
    assert!(t.get("a").is_none());
    let trunk = t.get("trunk").unwrap();
    assert_eq!(trunk.children, vec!["b".to_string()]);
    let b = t.get("b").unwrap();
    assert_eq!(b.parent.as_deref(), Some("trunk"));
}

#[test]
fn delete_merges_children_into_parent_set() {
    // a has two children; both move under trunk next to an existing sibling
    let mut t = tree_with(&[("trunk", "a"), ("trunk", "s"), ("a", "b"), ("a", "c")]);
    t.delete("a").unwrap();
    assert!(t.check());
    let mut kids = t.get("trunk").unwrap().children.clone();
    kids.sort();
    assert_eq!(kids, vec!["b".to_string(), "c".to_string(), "s".to_string()]);
    assert_eq!(t.get("b").unwrap().parent.as_deref(), Some("trunk"));
    assert_eq!(t.get("c").unwrap().parent.as_deref(), Some("trunk"));
}

#[test]
fn delete_untracked_fails() {
    let mut t = StackTree::new("trunk".to_string());
    let e = t.delete("ghost").unwrap_err();
    assert_eq!(e, StError::BranchNotTracked("ghost".to_string()));
}

#[test]
fn invariants_hold_after_mixed_operations() {
    let mut t = StackTree::new("trunk".to_string());
    t.insert("trunk", "o1", "a").unwrap();
    assert!(t.check());
    t.insert("a", "o2", "b").unwrap();
    assert!(t.check());
    t.insert("a", "o3", "c").unwrap();
    assert!(t.check());
    t.delete("a").unwrap();
    assert!(t.check());
    t.insert("b", "o4", "d").unwrap();
    assert!(t.check());
    t.delete("d").unwrap();
    assert!(t.check());
    t.delete("b").unwrap();
    assert!(t.check());
    t.delete("c").unwrap();
    assert!(t.check());
    assert_eq!(t.branches().unwrap(), vec!["trunk".to_string()]);
}

#[test]
fn branches_lists_parents_before_children() {
    let t = tree_with(&[("trunk", "a"), ("a", "b"), ("trunk", "c"), ("b", "d")]);
    let names = t.branches().unwrap();
    assert_eq!(names.len(), 5);
    assert_eq!(names[0], "trunk");
    let pos = |n: &str| names.iter().position(|x| x == n).unwrap();
    assert!(pos("trunk") < pos("a"));
    assert!(pos("a") < pos("b"));
    assert!(pos("trunk") < pos("c"));
    assert!(pos("b") < pos("d"));
}

#[test]
fn check_rejects_corrupt_trees() {
    // a branch that names an untracked parent
    let bad = StackTree {
        trunk_name: "trunk".to_string(),
        branches: vec![
            TrackedBranch::new("trunk".to_string(), None, None),
            TrackedBranch::new(
                "a".to_string(),
                Some("ghost".to_string()),
                Some("o".to_string()),
            ),
        ],
    };
    assert!(!bad.check());

    // duplicate names
    let bad = StackTree {
        trunk_name: "trunk".to_string(),
        branches: vec![
            TrackedBranch::new("trunk".to_string(), None, None),
            TrackedBranch {
                name: "a".to_string(),
                parent: Some("trunk".to_string()),
                parent_oid_cache: Some("o".to_string()),
                children: vec![],
                remote: None,
            },
            TrackedBranch {
                name: "a".to_string(),
                parent: Some("trunk".to_string()),
                parent_oid_cache: Some("o".to_string()),
                children: vec![],
                remote: None,
            },
        ],
    };
    assert!(!bad.check());

    // a parent link pointing forward: a cycle between two branches can
    // never satisfy the dependency order
    let bad = StackTree {
        trunk_name: "trunk".to_string(),
        branches: vec![
            TrackedBranch::new("trunk".to_string(), None, None),
            TrackedBranch {
                name: "a".to_string(),
                parent: Some("b".to_string()),
                parent_oid_cache: Some("o".to_string()),
                children: vec!["b".to_string()],
                remote: None,
            },
            TrackedBranch {
                name: "b".to_string(),
                parent: Some("a".to_string()),
                parent_oid_cache: Some("o".to_string()),
                children: vec!["a".to_string()],
                remote: None,
            },
        ],
    };
    assert!(!bad.check());

    // a child list that its child does not point back to
    let bad = StackTree {
        trunk_name: "trunk".to_string(),
        branches: vec![
            TrackedBranch {
                name: "trunk".to_string(),
                parent: None,
                parent_oid_cache: None,
                children: vec!["a".to_string(), "a".to_string()],
                remote: None,
            },
            TrackedBranch {
                name: "a".to_string(),
                parent: Some("trunk".to_string()),
                parent_oid_cache: Some("o".to_string()),
                children: vec![],
                remote: None,
            },
        ],
    };
    assert!(!bad.check());

    // an empty store has no trunk at all
    let bad = StackTree { trunk_name: "trunk".to_string(), branches: vec![] };
    assert!(!bad.check());
}

#[test]
fn record_submission_sets_fresh_remote() {
    let mut t = tree_with(&[("trunk", "a")]);
    t.record_submission("a", 41).unwrap();
    assert!(t.check());
    assert_eq!(t.get("a").unwrap().remote, Some(RemoteMetadata::new(41)));
    assert_eq!(t.get("a").unwrap().remote.unwrap().comment_id, None);
    let e = t.record_submission("ghost", 1).unwrap_err();
    assert_eq!(e, StError::BranchNotTracked("ghost".to_string()));
}

#[test]
fn record_comment_id_fills_in_the_comment() {
    let mut t = tree_with(&[("trunk", "a")]);
    t.record_submission("a", 41).unwrap();
    t.record_comment_id("a", 999);
    assert!(t.check());
    let meta = t.get("a").unwrap().remote.unwrap();
    assert_eq!(meta.pr_number, 41);
    assert_eq!(meta.comment_id, Some(999));
}

#[test]
fn set_parent_oid_cache_updates_only_the_cache() {
    let mut t = tree_with(&[("trunk", "a")]);
    t.set_parent_oid_cache("a", "newtip").unwrap();
    assert!(t.check());
    let a = t.get("a").unwrap();
    assert_eq!(a.parent_oid_cache.as_deref(), Some("newtip"));
    assert_eq!(a.parent.as_deref(), Some("trunk"));
}
